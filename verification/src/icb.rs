//! Record decode steps, decide which of their dispatches can be replayed from an indirect command
//! buffer, and replay those by range.
//!
//! A position is replayed where its pipeline is known, its kernel reads its constants from a
//! buffer, and everything that a command freezes was the same in every recorded step. A command
//! can hold no inline constant, so a position of the other style is excluded however stable it is.
//!
//! Covered positions are executed in runs: maximal stretches of consecutive positions, each
//! executed by one range at its head. A run is replayed whole or not at all.

use std::collections::HashSet;
use vstd::prelude::*;

use crate::buffer::Buffer;
use crate::executor::{DispatchAction, DispatchRecord, Executor, Grid, Size3};
use crate::tally;
use crate::tally::Tally;
use crate::text;

verus! {

broadcast use vstd::std_specs::hash::group_hash_axioms;

/// One buffer binding, as a command needs it.
#[derive(Clone, Copy, Debug, PartialEq, Eq, Structural)]
pub struct BindingRecord {
    pub index: usize,
    /// Identity of the allocation, so that two recordings compare what is bound rather than a
    /// handle on it.
    pub ptr: usize,
    pub offset: usize,
}

/// One dispatch, with everything that a command must carry.
#[derive(Debug)]
pub struct StepDispatch {
    pub kernel: Option<String>,
    pub grid: Grid,
    pub threads_per_threadgroup: Size3,
    pub bindings: Vec<BindingRecord>,
    /// The pipeline that this position ran, so that a command can be encoded against it later.
    pub pipeline: Option<usize>,
    /// The buffer of each binding, kept for residency.
    pub retained: Vec<Buffer>,
    /// Whether each binding is written.
    pub writes: Vec<bool>,
}

/// A dispatch as mathematical values.
#[verifier::ext_equal]
pub struct StepView {
    pub kernel: Option<Seq<char>>,
    pub grid: Grid,
    pub threads_per_threadgroup: Size3,
    pub bindings: Seq<BindingRecord>,
    pub pipeline: Option<usize>,
    pub retained: Seq<Buffer>,
    pub writes: Seq<bool>,
}

pub open spec fn name_of(kernel: Option<String>) -> Option<Seq<char>> {
    match kernel {
        Some(k) => Some(k@),
        None => None,
    }
}

impl View for StepDispatch {
    type V = StepView;

    open spec fn view(&self) -> StepView {
        StepView {
            kernel: name_of(self.kernel),
            grid: self.grid,
            threads_per_threadgroup: self.threads_per_threadgroup,
            bindings: self.bindings@,
            pipeline: self.pipeline,
            retained: self.retained@,
            writes: self.writes@,
        }
    }
}

pub open spec fn step_of(step: Seq<StepDispatch>) -> Seq<StepView> {
    Seq::new(step.len(), |i: int| step[i]@)
}

pub open spec fn steps_of(steps: Seq<Vec<StepDispatch>>) -> Seq<Seq<StepView>> {
    Seq::new(steps.len(), |i: int| step_of(steps[i]@))
}

impl StepView {
    /// The two dispatches agree in everything that a command freezes.
    pub open spec fn compatible(self, other: StepView) -> bool {
        &&& self.kernel == other.kernel
        &&& self.grid == other.grid
        &&& self.threads_per_threadgroup == other.threads_per_threadgroup
        &&& self.bindings == other.bindings
    }

    /// What the position goes by in reports.
    pub open spec fn name(self) -> Seq<char> {
        match self.kernel {
            Some(k) => k,
            None => "<unnamed>"@,
        }
    }

    /// Some allocation is bound by both, and one of them writes it.
    pub open spec fn clashes(self, later: StepView) -> bool {
        exists|i: int, j: int| #[trigger] clash_at(self, later, i, j)
    }
}

pub open spec fn clash_at(earlier: StepView, later: StepView, i: int, j: int) -> bool {
    &&& 0 <= i < earlier.bindings.len()
    &&& 0 <= j < later.bindings.len()
    &&& earlier.bindings[i].ptr == later.bindings[j].ptr
    &&& (i < earlier.writes.len() && earlier.writes[i]) || (j < later.writes.len()
        && later.writes[j])
}

fn same_kernel(a: &Option<String>, b: &Option<String>) -> (r: bool)
    ensures
        r == (name_of(*a) == name_of(*b)),
{
    match a {
        Some(x) => match b {
            Some(y) => tally::same(x.as_str(), y.as_str()),
            None => false,
        },
        None => match b {
            Some(_) => false,
            None => true,
        },
    }
}

fn same_bindings(a: &Vec<BindingRecord>, b: &Vec<BindingRecord>) -> (r: bool)
    ensures
        r == (a@ == b@),
{
    if a.len() != b.len() {
        return false;
    }
    for i in 0..a.len()
        invariant
            a@.len() == b@.len(),
            forall|j: int| 0 <= j < i ==> a@[j] == b@[j],
    {
        if a[i] != b[i] {
            assert(a@[i as int] != b@[i as int]);
            return false;
        }
    }
    assert(a@ =~= b@);
    true
}

impl StepDispatch {
    /// Whether two recordings of a position agree in everything that a command freezes.
    fn replay_compatible(&self, other: &StepDispatch) -> (b: bool)
        ensures
            b == self@.compatible(other@),
    {
        same_kernel(&self.kernel, &other.kernel) && self.grid == other.grid
            && self.threads_per_threadgroup == other.threads_per_threadgroup && same_bindings(
            &self.bindings,
            &other.bindings,
        )
    }

    /// Whether a command for `later` has to wait for this one.
    fn clashes(&self, later: &StepDispatch) -> (b: bool)
        ensures
            b == self@.clashes(later@),
    {
        for i in 0..self.bindings.len()
            invariant
                forall|k: int, l: int| 0 <= k < i ==> !(#[trigger] clash_at(self@, later@, k, l)),
        {
            let own = i < self.writes.len() && self.writes[i];
            for j in 0..later.bindings.len()
                invariant
                    i < self.bindings@.len(),
                    own == (i < self.writes@.len() && self.writes@[i as int]),
                    forall|k: int, l: int|
                        0 <= k < i || k == i && l < j ==> !(#[trigger] clash_at(
                            self@,
                            later@,
                            k,
                            l,
                        )),
            {
                if self.bindings[i].ptr == later.bindings[j].ptr && (own || (j < later.writes.len()
                    && later.writes[j])) {
                    assert(clash_at(self@, later@, i as int, j as int));
                    return true;
                }
            }
        }
        false
    }

    fn name(&self) -> (s: &str)
        ensures
            s@ == self@.name(),
    {
        match &self.kernel {
            Some(k) => k.as_str(),
            None => "<unnamed>",
        }
    }

    fn copy(&self) -> (d: StepDispatch)
        ensures
            d@ == self@,
    {
        let d = StepDispatch {
            kernel: match &self.kernel {
                Some(k) => Some(k.clone()),
                None => None,
            },
            grid: self.grid,
            threads_per_threadgroup: self.threads_per_threadgroup,
            bindings: self.bindings.clone(),
            pipeline: self.pipeline,
            retained: self.retained.clone(),
            writes: self.writes.clone(),
        };
        assert(d.bindings@ =~= self.bindings@);
        assert(d.retained@ =~= self.retained@);
        assert(d.writes@ =~= self.writes@);
        d
    }
}

/// Why a position is not replayed.
#[derive(Clone, Copy, Debug, PartialEq, Eq, Structural)]
pub enum Excluded {
    /// Bindings, grid or threadgroup size differed between recorded steps.
    Varies,
    /// The pipeline was not captured, so there is nothing to encode.
    NoPipeline,
    /// The kernel binds its constants inline, so no command can hold it.
    InlineConstants,
}

/// The kernel reads its constants from a buffer, as its name says.
pub open spec fn packed(name: Seq<char>) -> bool {
    name.len() >= "_packed"@.len() && name.skip(name.len() - "_packed"@.len()) == "_packed"@
}

/// Whether the name is that of an entry point whose constants arrive in a buffer.
fn is_packed(name: &str) -> (b: bool)
    ensures
        b == packed(name@),
{
    let suffix = "_packed";
    let n: usize = name.unicode_len();
    let m: usize = suffix.unicode_len();
    if n < m {
        return false;
    }
    let ghost tail = name@.skip(n - m);
    for i in 0..m
        invariant
            n == name@.len(),
            suffix@ == "_packed"@,
            m == suffix@.len(),
            m <= n,
            tail == name@.skip(n - m),
            forall|j: int| 0 <= j < i ==> tail[j] == suffix@[j],
    {
        if name.get_char(n - m + i) != suffix.get_char(i) {
            assert(tail[i as int] != suffix@[i as int]);
            return false;
        }
    }
    assert(tail =~= suffix@);
    true
}

/// Why position `pos` of these recorded steps is not replayed; `None` where it is.
pub open spec fn verdict(steps: Seq<Seq<StepView>>, pos: int) -> Option<Excluded> {
    let base = steps[0][pos];
    if base.pipeline is None {
        Some(Excluded::NoPipeline)
    } else if !packed(base.name()) {
        Some(Excluded::InlineConstants)
    } else if exists|i: int| 1 <= i < steps.len() && !base.compatible((#[trigger] steps[i])[pos]) {
        Some(Excluded::Varies)
    } else {
        None
    }
}

/// Of the first `n` positions those with this verdict, in order.
pub open spec fn judged(steps: Seq<Seq<StepView>>, v: Option<Excluded>, n: int) -> Seq<usize>
    decreases n,
{
    if n <= 0 {
        Seq::empty()
    } else if verdict(steps, n - 1) == v {
        judged(steps, v, n - 1).push((n - 1) as usize)
    } else {
        judged(steps, v, n - 1)
    }
}

/// What these positions go by.
pub open spec fn names_at(step: Seq<StepView>, at: Seq<usize>) -> Seq<Seq<char>> {
    at.map_values(|p: usize| step[p as int].name())
}

/// How often each name occurs among them.
pub open spec fn kernels_at(step: Seq<StepView>, at: Seq<usize>) -> Map<Seq<char>, nat> {
    tally::counted_all(names_at(step, at), at.len() as int)
}

/// Excluded positions per kernel name, by reason.
#[derive(Debug)]
pub struct ExcludedByKernel {
    pub varies: Tally,
    pub no_pipeline: Tally,
    pub inline_constants: Tally,
}

/// Coverage, as observed rather than as intended.
#[derive(Debug)]
pub struct Coverage {
    pub positions: usize,
    pub covered: usize,
    pub varies: usize,
    pub no_pipeline: usize,
    pub inline_constants: usize,
    /// Covered positions per kernel name.
    pub covered_by_kernel: Tally,
    pub excluded_by_kernel: ExcludedByKernel,
}

/// Coverage as mathematical values.
#[verifier::ext_equal]
pub struct CoverageView {
    pub positions: nat,
    pub covered: nat,
    pub varies: nat,
    pub no_pipeline: nat,
    pub inline_constants: nat,
    pub covered_by_kernel: Map<Seq<char>, nat>,
    pub varies_by_kernel: Map<Seq<char>, nat>,
    pub no_pipeline_by_kernel: Map<Seq<char>, nat>,
    pub inline_constants_by_kernel: Map<Seq<char>, nat>,
}

impl View for Coverage {
    type V = CoverageView;

    open spec fn view(&self) -> CoverageView {
        CoverageView {
            positions: self.positions as nat,
            covered: self.covered as nat,
            varies: self.varies as nat,
            no_pipeline: self.no_pipeline as nat,
            inline_constants: self.inline_constants as nat,
            covered_by_kernel: self.covered_by_kernel@,
            varies_by_kernel: self.excluded_by_kernel.varies@,
            no_pipeline_by_kernel: self.excluded_by_kernel.no_pipeline@,
            inline_constants_by_kernel: self.excluded_by_kernel.inline_constants@,
        }
    }
}

/// The coverage of the first `n` of so many positions.
pub open spec fn coverage_of(steps: Seq<Seq<StepView>>, positions: nat, n: int) -> CoverageView {
    let covered = judged(steps, None, n);
    let varies = judged(steps, Some(Excluded::Varies), n);
    let no_pipeline = judged(steps, Some(Excluded::NoPipeline), n);
    let inline_constants = judged(steps, Some(Excluded::InlineConstants), n);
    CoverageView {
        positions,
        covered: covered.len(),
        varies: varies.len(),
        no_pipeline: no_pipeline.len(),
        inline_constants: inline_constants.len(),
        covered_by_kernel: kernels_at(steps[0], covered),
        varies_by_kernel: kernels_at(steps[0], varies),
        no_pipeline_by_kernel: kernels_at(steps[0], no_pipeline),
        inline_constants_by_kernel: kernels_at(steps[0], inline_constants),
    }
}

/// No positions at all.
pub open spec fn no_coverage() -> CoverageView {
    CoverageView {
        positions: 0,
        covered: 0,
        varies: 0,
        no_pipeline: 0,
        inline_constants: 0,
        covered_by_kernel: Map::empty(),
        varies_by_kernel: Map::empty(),
        no_pipeline_by_kernel: Map::empty(),
        inline_constants_by_kernel: Map::empty(),
    }
}

impl Coverage {
    fn of(positions: usize) -> (c: Coverage)
        ensures
            c@ == (CoverageView { positions: positions as nat, ..no_coverage() }),
    {
        Coverage {
            positions,
            covered: 0,
            varies: 0,
            no_pipeline: 0,
            inline_constants: 0,
            covered_by_kernel: Tally::new(),
            excluded_by_kernel: ExcludedByKernel {
                varies: Tally::new(),
                no_pipeline: Tally::new(),
                inline_constants: Tally::new(),
            },
        }
    }
}

impl Default for Coverage {
    fn default() -> (c: Self)
        ensures
            c@ == no_coverage(),
    {
        Coverage::of(0)
    }
}

proof fn lemma_judged(steps: Seq<Seq<StepView>>, v: Option<Excluded>, n: int)
    requires
        0 <= n <= usize::MAX,
    ensures
        judged(steps, v, n).len() <= n,
        forall|i: int| 0 <= i < judged(steps, v, n).len() ==> (#[trigger] judged(steps, v, n)[i]) < n
            && verdict(steps, judged(steps, v, n)[i] as int) == v,
        forall|i: int, j: int|
            0 <= i < j < judged(steps, v, n).len() ==> (#[trigger] judged(steps, v, n)[i]) < (
            #[trigger] judged(steps, v, n)[j]),
    decreases n,
{
    if n > 0 {
        lemma_judged(steps, v, n - 1);
    }
}

proof fn lemma_kernels_push(step: Seq<StepView>, at: Seq<usize>, p: usize)
    ensures
        kernels_at(step, at.push(p)) == tally::counted(kernels_at(step, at), step[p as int].name()),
{
    let names = names_at(step, at.push(p));
    assert(names =~= names_at(step, at).push(step[p as int].name()));
    lemma_counted_prefix(names_at(step, at), names, at.len() as int);
}

proof fn lemma_counted_prefix(a: Seq<Seq<char>>, b: Seq<Seq<char>>, n: int)
    requires
        n <= a.len() <= b.len(),
        forall|i: int| 0 <= i < a.len() ==> a[i] == b[i],
    ensures
        tally::counted_all(a, n) == tally::counted_all(b, n),
    decreases n,
{
    if n > 0 {
        lemma_counted_prefix(a, b, n - 1);
    }
}

/// No name occurs more often than there are names.
proof fn lemma_occurrences_bound(names: Seq<Seq<char>>, n: int, name: Seq<char>)
    requires
        0 <= n <= names.len(),
    ensures
        tally::occurrences(tally::counted_all(names, n), name) <= n,
    decreases n,
{
    if n > 0 {
        lemma_occurrences_bound(names, n - 1, name);
    }
}

/// Why position `pos` is not replayed; `None` where it is.
fn judge(steps: &Vec<Vec<StepDispatch>>, pos: usize) -> (v: Option<Excluded>)
    requires
        steps@.len() >= 1,
        forall|i: int| 0 <= i < steps@.len() ==> pos < (#[trigger] steps@[i])@.len(),
    ensures
        v == verdict(steps_of(steps@), pos as int),
{
    let base = &steps[0][pos];
    let ghost all = steps_of(steps@);
    assert(all[0][pos as int] == base@);
    match base.pipeline {
        None => {
            return Some(Excluded::NoPipeline);
        },
        Some(_) => {},
    }
    if !is_packed(base.name()) {
        return Some(Excluded::InlineConstants);
    }
    for i in 1..steps.len()
        invariant
            all == steps_of(steps@),
            base@ == all[0][pos as int],
            base@.pipeline is Some,
            packed(base@.name()),
            forall|j: int| 0 <= j < steps@.len() ==> pos < (#[trigger] steps@[j])@.len(),
            forall|j: int| 1 <= j < i ==> base@.compatible((#[trigger] all[j])[pos as int]),
    {
        assert(all[i as int][pos as int] == steps@[i as int]@[pos as int]@);
        if !base.replay_compatible(&steps[i][pos]) {
            return Some(Excluded::Varies);
        }
    }
    None
}

/// What was found out about the positions of the recorded steps.
fn survey(steps: &Vec<Vec<StepDispatch>>, n: usize) -> (r: (Coverage, Vec<usize>))
    requires
        steps@.len() >= 1,
        forall|i: int| 0 <= i < steps@.len() ==> n == (#[trigger] steps@[i])@.len(),
    ensures
        r.0@ == coverage_of(steps_of(steps@), n as nat, n as int),
        r.1@ == judged(steps_of(steps@), None, n as int),
{
    let ghost all = steps_of(steps@);
    let mut coverage = Coverage::of(n);
    let mut covered: Vec<usize> = Vec::new();
    assert(coverage@ =~= coverage_of(all, n as nat, 0));
    for pos in 0..n
        invariant
            all == steps_of(steps@),
            steps@.len() >= 1,
            forall|i: int| 0 <= i < steps@.len() ==> n == (#[trigger] steps@[i])@.len(),
            coverage@ == coverage_of(all, n as nat, pos as int),
            covered@ == judged(all, None, pos as int),
    {
        assert(steps@[0]@.len() == n);
        let name = steps[0][pos].name();
        let ghost step = all[0];
        assert(step[pos as int] == steps@[0]@[pos as int]@);
        let v = judge(steps, pos);
        let ghost at = judged(all, v, pos as int);
        proof {
            lemma_judged(all, v, pos as int);
            lemma_occurrences_bound(names_at(step, at), at.len() as int, name@);
            lemma_kernels_push(step, at, pos);
        }
        match v {
            None => {
                coverage.covered += 1;
                coverage.covered_by_kernel.count(name);
                covered.push(pos);
            },
            Some(Excluded::Varies) => {
                coverage.varies += 1;
                coverage.excluded_by_kernel.varies.count(name);
            },
            Some(Excluded::NoPipeline) => {
                coverage.no_pipeline += 1;
                coverage.excluded_by_kernel.no_pipeline.count(name);
            },
            Some(Excluded::InlineConstants) => {
                coverage.inline_constants += 1;
                coverage.excluded_by_kernel.inline_constants.count(name);
            },
        }
        assert(coverage@ =~= coverage_of(all, n as nat, pos + 1));
    }
    (coverage, covered)
}

/// One maximal run of consecutive covered positions.
///
/// A range executes its commands as a block, so one range per run keeps every covered dispatch
/// between the same two uncovered neighbours that it had.
#[derive(Clone, Copy, Debug, PartialEq, Eq, Structural)]
pub struct Run {
    /// First dispatch position of the run.
    pub start: usize,
    /// First command of the run.
    pub command: usize,
    pub len: usize,
}

impl Run {
    pub open spec fn end(self) -> int {
        self.start + self.len
    }
}

/// The runs that the first `n` covered positions form: a position extends the last run, or opens
/// one.
pub open spec fn runs_of(covered: Seq<usize>, n: int) -> Seq<Run>
    decreases n,
{
    if n <= 0 {
        Seq::empty()
    } else {
        let before = runs_of(covered, n - 1);
        let pos = covered[n - 1];
        if before.len() > 0 && before.last().end() == pos {
            before.update(
                before.len() - 1,
                Run { len: (before.last().len + 1) as usize, ..before.last() },
            )
        } else {
            before.push(Run { start: pos, command: (n - 1) as usize, len: 1 })
        }
    }
}

pub open spec fn is_command(covered: Seq<usize>, n: int, p: int, c: int) -> bool {
    0 <= c < n && covered[c] == p
}

/// Which of the first `n` commands stands for position `p`.
pub open spec fn command_at(covered: Seq<usize>, n: int, p: int) -> Option<usize> {
    if exists|c: int| #[trigger] is_command(covered, n, p, c) {
        Some((choose|c: int| #[trigger] is_command(covered, n, p, c)) as usize)
    } else {
        None
    }
}

pub open spec fn is_head(runs: Seq<Run>, p: int, r: int) -> bool {
    0 <= r < runs.len() && runs[r].start == p
}

/// The run that starts at position `p`.
pub open spec fn run_starting(runs: Seq<Run>, p: int) -> Option<usize> {
    if exists|r: int| #[trigger] is_head(runs, p, r) {
        Some((choose|r: int| #[trigger] is_head(runs, p, r)) as usize)
    } else {
        None
    }
}

/// How far back a command looks for what it has to wait for.
///
/// The barrier of a command orders that command against its predecessors and says nothing of the
/// commands after it.
#[derive(Clone, Copy, Debug, PartialEq, Eq, Structural)]
pub enum BarrierScope {
    /// To the start of its run: every conflict within the run is ordered.
    RunStart,
    /// To the last command that carries a barrier, as if that barrier had settled everything up
    /// to itself. Drops edges that a chain of dependent commands needs.
    SinceBarrier,
}

/// One past the last barrier among `first..c`; `first` where there is none.
pub open spec fn since(prior: Seq<bool>, first: int, c: int) -> int
    decreases c - first,
{
    if c <= first {
        first
    } else if prior[c - 1] {
        c
    } else {
        since(prior, first, c - 1)
    }
}

/// Where the scan of command `c` begins.
pub open spec fn scan_from(covered: Seq<usize>, scope: BarrierScope, prior: Seq<bool>, c: int) -> int {
    let first = runs_of(covered, c + 1).last().command as int;
    match scope {
        BarrierScope::RunStart => first,
        BarrierScope::SinceBarrier => since(prior, first, c),
    }
}

/// Command `c` conflicts with one that its scan reaches.
pub open spec fn must_wait(
    step: Seq<StepView>,
    covered: Seq<usize>,
    scope: BarrierScope,
    prior: Seq<bool>,
    c: int,
) -> bool {
    exists|m: int|
        scan_from(covered, scope, prior, c) <= m < c && step[(#[trigger] covered[m]) as int].clashes(
            step[covered[c] as int],
        )
}

/// Which of the first `n` commands carry a barrier.
pub open spec fn barriers_of(
    step: Seq<StepView>,
    covered: Seq<usize>,
    scope: BarrierScope,
    n: int,
) -> Seq<bool>
    decreases n,
{
    if n <= 0 {
        Seq::empty()
    } else {
        let prior = barriers_of(step, covered, scope, n - 1);
        prior.push(must_wait(step, covered, scope, prior, n - 1))
    }
}

/// How many of the first `n` are set.
pub open spec fn set_among(flags: Seq<bool>, n: int) -> nat
    decreases n,
{
    if n <= 0 {
        0
    } else {
        set_among(flags, n - 1) + (if flags[n - 1] {
            1nat
        } else {
            0
        })
    }
}

/// The buffers that a command binds.
pub open spec fn bound_by(d: StepView) -> Seq<Buffer> {
    if d.bindings.len() < d.retained.len() {
        d.retained.take(d.bindings.len() as int)
    } else {
        d.retained
    }
}

/// The buffers that the first `n` commands bind, in order.
pub open spec fn bound_by_all(step: Seq<StepView>, covered: Seq<usize>, n: int) -> Seq<Buffer>
    decreases n,
{
    if n <= 0 {
        Seq::empty()
    } else {
        bound_by_all(step, covered, n - 1) + bound_by(step[covered[n - 1] as int])
    }
}

pub open spec fn names_allocation(buffers: Seq<Buffer>, n: int, raw: usize) -> bool {
    exists|j: int| 0 <= j < n && (#[trigger] buffers[j]).raw == raw
}

/// Of the first `n` buffers the first of each allocation.
pub open spec fn firsts(buffers: Seq<Buffer>, n: int) -> Seq<Buffer>
    decreases n,
{
    if n <= 0 {
        Seq::empty()
    } else if names_allocation(buffers, n - 1, buffers[n - 1].raw) {
        firsts(buffers, n - 1)
    } else {
        firsts(buffers, n - 1).push(buffers[n - 1])
    }
}

/// Some covered position binds at this index.
pub open spec fn binds_at(step: Seq<StepView>, covered: Seq<usize>, c: int, i: int, x: int) -> bool {
    &&& 0 <= c < covered.len()
    &&& 0 <= i < step[covered[c] as int].bindings.len()
    &&& step[covered[c] as int].bindings[i].index == x
}

/// `m` is one past the highest index bound, and 1 where nothing is bound.
pub open spec fn bind_limit(step: Seq<StepView>, covered: Seq<usize>, m: int) -> bool {
    &&& m >= 1
    &&& forall|c: int, i: int, x: int| #[trigger] binds_at(step, covered, c, i, x) ==> x < m
    &&& m > 1 ==> exists|c: int, i: int| #[trigger] binds_at(step, covered, c, i, m - 1)
}

/// The plan as mathematical values.
#[verifier::ext_equal]
pub struct IcbPlanView {
    /// The command of each position, where it is covered.
    pub command_of: Seq<Option<usize>>,
    /// The runs, in order.
    pub runs: Seq<Run>,
    /// The run that starts at each position, where one does.
    pub run_at: Seq<Option<usize>>,
    /// What each command was encoded from.
    pub reference: Seq<StepView>,
    /// Whether each command carries a barrier.
    pub barriers: Seq<bool>,
    /// Every buffer that some command binds.
    pub resident: Seq<Buffer>,
    /// How many binding slots a command needs.
    pub max_bind: int,
}

impl IcbPlanView {
    /// Position `p` belongs to run `r`.
    pub open spec fn within(self, r: int, p: int) -> bool {
        0 <= r < self.runs.len() && self.runs[r].start <= p < self.runs[r].end()
    }

    /// The runs are the maximal stretches of covered positions, and the commands of each follow
    /// one another.
    pub open spec fn sound(self) -> bool {
        &&& self.command_of.len() == self.run_at.len()
        &&& self.command_of.len() <= usize::MAX
        &&& self.runs.len() <= usize::MAX
        &&& self.barriers.len() == self.reference.len()
        &&& forall|p: int|
            0 <= p < self.command_of.len() && (#[trigger] self.command_of[p]) is Some ==> {
                &&& self.command_of[p]->0 < self.reference.len()
                &&& exists|r: int| #[trigger] self.within(r, p)
            }
        &&& forall|r: int|
            0 <= r < self.runs.len() ==> {
                &&& (#[trigger] self.runs[r]).len >= 1
                &&& self.runs[r].end() <= self.command_of.len()
                &&& self.runs[r].start > 0 ==> self.command_of[self.runs[r].start - 1] is None
                &&& self.runs[r].end() < self.command_of.len() ==> self.command_of[self.runs[r].end()] is None
                &&& self.run_at[self.runs[r].start as int] == Some(r as usize)
            }
        &&& forall|r: int, p: int| #[trigger]
            self.within(r, p) ==> self.command_of[p] == Some(
                (self.runs[r].command + p - self.runs[r].start) as usize,
            ) && self.runs[r].command + p - self.runs[r].start < self.reference.len() && (p
                > self.runs[r].start ==> self.run_at[p] is None)
        &&& forall|p: int|
            0 <= p < self.run_at.len() && (#[trigger] self.run_at[p]) is Some ==> self.run_at[p]->0
                < self.runs.len() && self.runs[self.run_at[p]->0 as int].start == p
    }

    /// This is the plan of these covered positions of that step.
    pub open spec fn plans(
        self,
        step: Seq<StepView>,
        covered: Seq<usize>,
        positions: nat,
        scope: BarrierScope,
    ) -> bool {
        let n = covered.len() as int;
        &&& self.command_of == Seq::new(positions, |p: int| command_at(covered, n, p))
        &&& self.runs == runs_of(covered, n)
        &&& self.run_at == Seq::new(positions, |p: int| run_starting(runs_of(covered, n), p))
        &&& self.reference == covered.map_values(|p: usize| step[p as int])
        &&& self.barriers == barriers_of(step, covered, scope, n)
        &&& self.resident == firsts(
            bound_by_all(step, covered, n),
            bound_by_all(step, covered, n).len() as int,
        )
        &&& bind_limit(step, covered, self.max_bind)
    }
}

pub open spec fn ascending(covered: Seq<usize>) -> bool {
    forall|i: int, j: int|
        0 <= i < j < covered.len() ==> (#[trigger] covered[i]) < (#[trigger] covered[j])
}

/// Member `i` of the run stands for the position that far from its start.
spec fn in_line(covered: Seq<usize>, run: Run, i: int) -> bool {
    covered[run.command + i] == run.start + i
}

/// The run after run `r` continues its commands, with a gap between the positions.
spec fn linked(runs: Seq<Run>, r: int) -> bool {
    runs[r].command + runs[r].len == runs[r + 1].command && runs[r].end() < runs[r + 1].start
}

/// What holds of the runs that the first `n` covered positions form.
spec fn regular(covered: Seq<usize>, runs: Seq<Run>, n: int) -> bool {
    &&& runs.len() <= n
    &&& n > 0 ==> runs.len() > 0 && runs.last().end() == covered[n - 1] + 1 && runs.last().command
        + runs.last().len == n && runs[0].command == 0
    &&& forall|r: int|
        0 <= r < runs.len() ==> (#[trigger] runs[r]).len >= 1 && runs[r].command + runs[r].len <= n
    &&& forall|r: int, i: int|
        0 <= r < runs.len() && 0 <= i < runs[r].len ==> #[trigger] in_line(covered, runs[r], i)
    &&& forall|r: int| 0 <= r < runs.len() - 1 ==> #[trigger] linked(runs, r)
}

proof fn lemma_runs(covered: Seq<usize>, n: int)
    requires
        ascending(covered),
        0 <= n <= covered.len() <= usize::MAX,
        forall|i: int| 0 <= i < covered.len() ==> (#[trigger] covered[i]) < usize::MAX,
    ensures
        regular(covered, runs_of(covered, n), n),
    decreases n,
{
    if n > 0 {
        lemma_runs(covered, n - 1);
        let before = runs_of(covered, n - 1);
        let runs = runs_of(covered, n);
        let pos = covered[n - 1];
        if n > 1 {
            assert(covered[n - 2] < covered[n - 1]);
        }
        let k = before.len() - 1;
        assert forall|r: int, i: int|
            0 <= r < runs.len() && 0 <= i < runs[r].len implies #[trigger] in_line(
            covered,
            runs[r],
            i,
        ) by {
            if r < before.len() && i < before[r].len {
                assert(in_line(covered, before[r], i));
            }
        }
        assert forall|r: int| 0 <= r < runs.len() - 1 implies #[trigger] linked(runs, r) by {
            if r < k {
                assert(linked(before, r));
            }
        }
    }
}

proof fn lemma_runs_apart(covered: Seq<usize>, runs: Seq<Run>, n: int, r: int, t: int)
    requires
        regular(covered, runs, n),
        0 <= r < t < runs.len(),
    ensures
        runs[r].end() < runs[t].start,
        runs[r].command + runs[r].len <= runs[t].command,
    decreases t - r,
{
    assert(linked(runs, r));
    if r + 1 < t {
        lemma_runs_apart(covered, runs, n, r + 1, t);
        assert(runs[r + 1].len >= 1);
    }
}

proof fn lemma_run_of_command(covered: Seq<usize>, runs: Seq<Run>, n: int, c: int, r: int) -> (t: int)
    requires
        regular(covered, runs, n),
        0 <= r < runs.len(),
        runs[r].command <= c < n,
    ensures
        r <= t < runs.len(),
        runs[t].command <= c < runs[t].command + runs[t].len,
    decreases runs.len() - r,
{
    if c < runs[r].command + runs[r].len {
        r
    } else {
        assert(r < runs.len() - 1);
        assert(linked(runs, r));
        lemma_run_of_command(covered, runs, n, c, r + 1)
    }
}

proof fn lemma_command_at(covered: Seq<usize>, n: int, p: int, c: int)
    requires
        ascending(covered),
        n <= covered.len() <= usize::MAX,
        is_command(covered, n, p, c),
    ensures
        command_at(covered, n, p) == Some(c as usize),
{
    let d = choose|d: int| #[trigger] is_command(covered, n, p, d);
    if c < d {
        assert(covered[c] < covered[d]);
    } else if d < c {
        assert(covered[d] < covered[c]);
    }
}

/// What is covered around a run.
proof fn lemma_run_edges(covered: Seq<usize>, runs: Seq<Run>, n: int, r: int, p: int)
    requires
        ascending(covered),
        n == covered.len() <= usize::MAX,
        regular(covered, runs, n),
        0 <= r < runs.len(),
        p == runs[r].start - 1 || p == runs[r].end(),
    ensures
        command_at(covered, n, p) is None,
{
    if exists|c: int| #[trigger] is_command(covered, n, p, c) {
        let c = choose|c: int| #[trigger] is_command(covered, n, p, c);
        let run = runs[r];
        assert(run.len >= 1);
        assert(in_line(covered, run, 0));
        assert(in_line(covered, run, run.len - 1));
        let last = run.command + run.len - 1;
        if p == run.start - 1 {
            if c >= run.command {
                if c > run.command {
                    assert(covered[run.command as int] < covered[c]);
                }
            } else {
                let t = lemma_run_of_command(covered, runs, n, c, 0);
                if t > r {
                    lemma_runs_apart(covered, runs, n, r, t);
                }
                assert(t < r);
                lemma_runs_apart(covered, runs, n, t, r);
                assert(in_line(covered, runs[t], c - runs[t].command));
            }
        } else {
            if c <= last {
                if c < last {
                    assert(covered[c] < covered[last]);
                }
            } else {
                let t = lemma_run_of_command(covered, runs, n, c, 0);
                if t < r {
                    lemma_runs_apart(covered, runs, n, t, r);
                }
                assert(t > r);
                lemma_runs_apart(covered, runs, n, r, t);
                assert(in_line(covered, runs[t], c - runs[t].command));
            }
        }
    }
}

/// At one start there is one run.
proof fn lemma_one_run(covered: Seq<usize>, runs: Seq<Run>, n: int, r: int, t: int)
    requires
        regular(covered, runs, n),
        0 <= r < runs.len(),
        0 <= t < runs.len(),
        runs[r].start <= runs[t].start < runs[r].end(),
    ensures
        r == t,
{
    assert(runs[r].len >= 1);
    assert(runs[t].len >= 1);
    if t < r {
        lemma_runs_apart(covered, runs, n, t, r);
    } else if r < t {
        lemma_runs_apart(covered, runs, n, r, t);
    }
}

/// A position within a run has the run's command, and starts no other run.
#[verifier::spinoff_prover]
proof fn lemma_within_run(
    plan: IcbPlanView,
    step: Seq<StepView>,
    covered: Seq<usize>,
    positions: nat,
    scope: BarrierScope,
    r: int,
    p: int,
)
    requires
        plan.plans(step, covered, positions, scope),
        ascending(covered),
        covered.len() <= positions <= usize::MAX,
        forall|i: int| 0 <= i < covered.len() ==> (#[trigger] covered[i]) < positions,
        plan.within(r, p),
    ensures
        plan.command_of[p] == Some((plan.runs[r].command + p - plan.runs[r].start) as usize),
        plan.runs[r].command + p - plan.runs[r].start < plan.reference.len(),
        p > plan.runs[r].start ==> plan.run_at[p] is None,
        p < positions,
{
    let n = covered.len() as int;
    let runs = plan.runs;
    lemma_runs(covered, n);
    let i = p - runs[r].start;
    assert(runs[r].len >= 1);
    assert(in_line(covered, runs[r], i));
    assert(is_command(covered, n, p, runs[r].command + i));
    lemma_command_at(covered, n, p, runs[r].command + i);
    if p > runs[r].start && exists|t: int| #[trigger] is_head(runs, p, t) {
        let t = choose|t: int| #[trigger] is_head(runs, p, t);
        lemma_one_run(covered, runs, n, r, t);
    }
}

/// A position with a command stands in a run.
#[verifier::spinoff_prover]
proof fn lemma_command_in_run(
    plan: IcbPlanView,
    step: Seq<StepView>,
    covered: Seq<usize>,
    positions: nat,
    scope: BarrierScope,
    p: int,
)
    requires
        plan.plans(step, covered, positions, scope),
        ascending(covered),
        covered.len() <= positions <= usize::MAX,
        forall|i: int| 0 <= i < covered.len() ==> (#[trigger] covered[i]) < positions,
        0 <= p < plan.command_of.len(),
        plan.command_of[p] is Some,
    ensures
        plan.command_of[p]->0 < plan.reference.len(),
        exists|r: int| #[trigger] plan.within(r, p),
{
    let n = covered.len() as int;
    let runs = plan.runs;
    lemma_runs(covered, n);
    let c = choose|c: int| #[trigger] is_command(covered, n, p, c);
    let r = lemma_run_of_command(covered, runs, n, c, 0);
    assert(in_line(covered, runs[r], c - runs[r].command));
    assert(plan.within(r, p));
}

/// A run is where it says, and nothing that touches it is covered.
#[verifier::spinoff_prover]
proof fn lemma_run_stands_alone(
    plan: IcbPlanView,
    step: Seq<StepView>,
    covered: Seq<usize>,
    positions: nat,
    scope: BarrierScope,
    r: int,
)
    requires
        plan.plans(step, covered, positions, scope),
        ascending(covered),
        covered.len() <= positions <= usize::MAX,
        forall|i: int| 0 <= i < covered.len() ==> (#[trigger] covered[i]) < positions,
        0 <= r < plan.runs.len(),
    ensures
        plan.runs[r].len >= 1,
        plan.runs[r].end() <= plan.command_of.len(),
        plan.runs[r].start > 0 ==> plan.command_of[plan.runs[r].start - 1] is None,
        plan.runs[r].end() < plan.command_of.len() ==> plan.command_of[plan.runs[r].end()] is None,
        plan.run_at[plan.runs[r].start as int] == Some(r as usize),
{
    let n = covered.len() as int;
    let runs = plan.runs;
    let run = runs[r];
    lemma_runs(covered, n);
    assert(run.len >= 1);
    assert(plan.within(r, run.start as int));
    assert(plan.within(r, run.end() - 1));
    lemma_within_run(plan, step, covered, positions, scope, r, run.start as int);
    lemma_within_run(plan, step, covered, positions, scope, r, run.end() - 1);
    lemma_run_edges(covered, runs, n, r, run.start - 1);
    lemma_run_edges(covered, runs, n, r, run.end());
    assert(is_head(runs, run.start as int, r));
    let t = choose|t: int| #[trigger] is_head(runs, run.start as int, t);
    lemma_one_run(covered, runs, n, r, t);
}

/// The plan of ascending positions is sound.
#[verifier::spinoff_prover]
proof fn lemma_plan_sound(
    plan: IcbPlanView,
    step: Seq<StepView>,
    covered: Seq<usize>,
    positions: nat,
    scope: BarrierScope,
)
    requires
        plan.plans(step, covered, positions, scope),
        ascending(covered),
        covered.len() <= positions <= usize::MAX,
        forall|i: int| 0 <= i < covered.len() ==> (#[trigger] covered[i]) < positions,
    ensures
        plan.sound(),
{
    let n = covered.len() as int;
    lemma_runs(covered, n);
    lemma_barriers_len(step, covered, scope, n);
    assert forall|r: int, p: int| #[trigger] plan.within(r, p) implies plan.command_of[p] == Some(
        (plan.runs[r].command + p - plan.runs[r].start) as usize,
    ) && plan.runs[r].command + p - plan.runs[r].start < plan.reference.len() && (p
        > plan.runs[r].start ==> plan.run_at[p] is None) by {
        lemma_within_run(plan, step, covered, positions, scope, r, p);
    }
    assert forall|p: int|
        0 <= p < plan.command_of.len() && (#[trigger] plan.command_of[p]) is Some implies {
        &&& plan.command_of[p]->0 < plan.reference.len()
        &&& exists|r: int| #[trigger] plan.within(r, p)
    } by {
        lemma_command_in_run(plan, step, covered, positions, scope, p);
    }
    assert forall|r: int| 0 <= r < plan.runs.len() implies {
        &&& (#[trigger] plan.runs[r]).len >= 1
        &&& plan.runs[r].end() <= plan.command_of.len()
        &&& plan.runs[r].start > 0 ==> plan.command_of[plan.runs[r].start - 1] is None
        &&& plan.runs[r].end() < plan.command_of.len() ==> plan.command_of[plan.runs[r].end()] is None
        &&& plan.run_at[plan.runs[r].start as int] == Some(r as usize)
    } by {
        lemma_run_stands_alone(plan, step, covered, positions, scope, r);
    }
    assert forall|p: int|
        0 <= p < plan.run_at.len() && (#[trigger] plan.run_at[p]) is Some implies plan.run_at[p]->0
        < plan.runs.len() && plan.runs[plan.run_at[p]->0 as int].start == p by {
        let r = choose|r: int| #[trigger] is_head(plan.runs, p, r);
        assert(is_head(plan.runs, p, r));
    }
}

proof fn lemma_barriers_len(step: Seq<StepView>, covered: Seq<usize>, scope: BarrierScope, n: int)
    requires
        0 <= n,
    ensures
        barriers_of(step, covered, scope, n).len() == n,
    decreases n,
{
    if n > 0 {
        lemma_barriers_len(step, covered, scope, n - 1);
    }
}

/// As many empty places as there are positions.
fn unassigned(positions: usize) -> (v: Vec<Option<usize>>)
    ensures
        v@ == Seq::new(positions as nat, |p: int| None::<usize>),
{
    let mut v: Vec<Option<usize>> = Vec::with_capacity(positions);
    for i in 0..positions
        invariant
            v@ == Seq::new(i as nat, |p: int| None::<usize>),
    {
        v.push(None);
        assert(v@ =~= Seq::new((i + 1) as nat, |p: int| None::<usize>));
    }
    v
}

/// The run in progress extended by `pos`, or a new one opened.
fn extend_runs(runs: &mut Vec<Run>, pos: usize, command: usize)
    requires
        old(runs)@.len() > 0 && old(runs)@.last().end() == pos ==> old(runs)@.last().len < usize::MAX,
    ensures
        final(runs)@ == (if old(runs)@.len() > 0 && old(runs)@.last().end() == pos {
            old(runs)@.update(
                old(runs)@.len() - 1,
                Run { len: (old(runs)@.last().len + 1) as usize, ..old(runs)@.last() },
            )
        } else {
            old(runs)@.push(Run { start: pos, command, len: 1 })
        }),
{
    let n: usize = runs.len();
    if n > 0 {
        let last = runs[n - 1];
        if last.start <= pos && pos - last.start == last.len {
            runs.set(n - 1, Run { start: last.start, command: last.command, len: last.len + 1 });
            return;
        }
    }
    runs.push(Run { start: pos, command, len: 1 });
}

/// Groups the covered positions into runs, and says where each command and each run starts.
fn index_positions(covered: &Vec<usize>, positions: usize) -> (r: (
    Vec<Option<usize>>,
    Vec<Run>,
    Vec<Option<usize>>,
))
    requires
        ascending(covered@),
        forall|i: int| 0 <= i < covered@.len() ==> (#[trigger] covered@[i]) < positions,
    ensures
        r.0@ == Seq::new(
            positions as nat,
            |p: int| command_at(covered@, covered@.len() as int, p),
        ),
        r.1@ == runs_of(covered@, covered@.len() as int),
        r.2@ == Seq::new(
            positions as nat,
            |p: int| run_starting(runs_of(covered@, covered@.len() as int), p),
        ),
{
    let mut command_of = unassigned(positions);
    let mut run_at = unassigned(positions);
    let mut runs: Vec<Run> = Vec::new();
    for c in 0..covered.len()
        invariant
            ascending(covered@),
            forall|i: int| 0 <= i < covered@.len() ==> (#[trigger] covered@[i]) < positions,
            command_of@.len() == positions,
            run_at@.len() == positions,
            forall|p: int|
                0 <= p < positions ==> (#[trigger] command_of@[p]) == command_at(
                    covered@,
                    c as int,
                    p,
                ),
            runs@ == runs_of(covered@, c as int),
            forall|p: int|
                0 <= p < positions ==> (#[trigger] run_at@[p]) == run_starting(runs@, p),
    {
        let pos: usize = covered[c];
        let ghost before = runs@;
        proof {
            lemma_runs(covered@, c as int);
            lemma_runs(covered@, c + 1);
        }
        let n: usize = runs.len();
        extend_runs(&mut runs, pos, c);
        command_of.set(pos, Some(c));
        if runs.len() > n {
            run_at.set(pos, Some(n));
        }
        proof {
            assert(runs@ == runs_of(covered@, c + 1));
            assert forall|p: int| 0 <= p < positions implies (#[trigger] command_of@[p])
                == command_at(covered@, c + 1, p) by {
                lemma_next_command(covered@, c as int, p);
            }
            assert forall|p: int| 0 <= p < positions implies (#[trigger] run_at@[p])
                == run_starting(runs@, p) by {
                lemma_next_run(covered@, c as int, p);
            }
        }
    }
    assert(command_of@ =~= Seq::new(
        positions as nat,
        |p: int| command_at(covered@, covered@.len() as int, p),
    ));
    assert(run_at@ =~= Seq::new(
        positions as nat,
        |p: int| run_starting(runs_of(covered@, covered@.len() as int), p),
    ));
    (command_of, runs, run_at)
}

proof fn lemma_next_command(covered: Seq<usize>, c: int, p: int)
    requires
        ascending(covered),
        0 <= c < covered.len() <= usize::MAX,
    ensures
        command_at(covered, c + 1, p) == (if covered[c] == p {
            Some(c as usize)
        } else {
            command_at(covered, c, p)
        }),
{
    if covered[c] == p {
        assert(is_command(covered, c + 1, p, c));
        lemma_command_at(covered, c + 1, p, c);
    } else if exists|d: int| #[trigger] is_command(covered, c, p, d) {
        let d = choose|d: int| #[trigger] is_command(covered, c, p, d);
        assert(is_command(covered, c + 1, p, d));
        lemma_command_at(covered, c + 1, p, d);
        lemma_command_at(covered, c, p, d);
    } else if exists|d: int| #[trigger] is_command(covered, c + 1, p, d) {
        let d = choose|d: int| #[trigger] is_command(covered, c + 1, p, d);
        assert(is_command(covered, c, p, d));
    }
}

proof fn lemma_one_head(covered: Seq<usize>, runs: Seq<Run>, n: int, p: int, r: int)
    requires
        regular(covered, runs, n),
        n <= usize::MAX,
        is_head(runs, p, r),
    ensures
        run_starting(runs, p) == Some(r as usize),
{
    let t = choose|t: int| #[trigger] is_head(runs, p, t);
    assert(runs[t].len >= 1 && runs[r].len >= 1);
    if t < r {
        lemma_runs_apart(covered, runs, n, t, r);
    } else if r < t {
        lemma_runs_apart(covered, runs, n, r, t);
    }
}

proof fn lemma_next_run(covered: Seq<usize>, c: int, p: int)
    requires
        ascending(covered),
        0 <= c < covered.len() <= usize::MAX,
        forall|i: int| 0 <= i < covered.len() ==> (#[trigger] covered[i]) < usize::MAX,
    ensures
        ({
            let before = runs_of(covered, c);
            let after = runs_of(covered, c + 1);
            run_starting(after, p) == (if after.len() > before.len() && covered[c] == p {
                Some(before.len() as usize)
            } else {
                run_starting(before, p)
            })
        }),
{
    let before = runs_of(covered, c);
    let after = runs_of(covered, c + 1);
    lemma_runs(covered, c);
    lemma_runs(covered, c + 1);
    if after.len() > before.len() && covered[c] == p {
        assert(is_head(after, p, before.len() as int));
        lemma_one_head(covered, after, c + 1, p, before.len() as int);
    } else if exists|r: int| #[trigger] is_head(before, p, r) {
        let r = choose|r: int| #[trigger] is_head(before, p, r);
        assert(is_head(after, p, r));
        lemma_one_head(covered, after, c + 1, p, r);
        lemma_one_head(covered, before, c, p, r);
    } else if exists|r: int| #[trigger] is_head(after, p, r) {
        let r = choose|r: int| #[trigger] is_head(after, p, r);
        assert(is_head(before, p, r));
    }
}

/// Which commands carry a barrier.
fn scan_barriers(step: &Vec<StepDispatch>, covered: &Vec<usize>, scope: BarrierScope) -> (v: Vec<bool>)
    requires
        ascending(covered@),
        forall|i: int| 0 <= i < covered@.len() ==> (#[trigger] covered@[i]) < step@.len(),
    ensures
        v@ == barriers_of(step_of(step@), covered@, scope, covered@.len() as int),
{
    let ghost all = step_of(step@);
    let mut v: Vec<bool> = Vec::new();
    let mut runs: Vec<Run> = Vec::new();
    let positions: usize = step.len();
    for c in 0..covered.len()
        invariant
            all == step_of(step@),
            positions == step@.len(),
            ascending(covered@),
            forall|i: int| 0 <= i < covered@.len() ==> (#[trigger] covered@[i]) < step@.len(),
            runs@ == runs_of(covered@, c as int),
            v@ == barriers_of(all, covered@, scope, c as int),
    {
        let pos: usize = covered[c];
        proof {
            lemma_runs(covered@, c as int);
            lemma_runs(covered@, c + 1);
            lemma_barriers_len(all, covered@, scope, c as int);
        }
        extend_runs(&mut runs, pos, c);
        let first: usize = runs[runs.len() - 1].command;
        let mut from: usize = first;
        match scope {
            BarrierScope::RunStart => {},
            BarrierScope::SinceBarrier => {
                let mut k: usize = c;
                while k > first && !v[k - 1]
                    invariant
                        first <= k <= c,
                        v@.len() == c,
                        since(v@, first as int, c as int) == since(v@, first as int, k as int),
                    decreases k,
                {
                    k -= 1;
                }
                from = k;
            },
        }
        assert(from == scan_from(covered@, scope, v@, c as int));
        let mut waits = false;
        let mut m: usize = from;
        while m < c && !waits
            invariant
                from <= m <= c,
                c < covered@.len(),
                pos == covered@[c as int],
                all == step_of(step@),
                forall|i: int| 0 <= i < covered@.len() ==> (#[trigger] covered@[i]) < step@.len(),
                from == scan_from(covered@, scope, v@, c as int),
                waits ==> must_wait(all, covered@, scope, v@, c as int),
                !waits ==> forall|i: int|
                    from <= i < m ==> !all[(#[trigger] covered@[i]) as int].clashes(
                        all[pos as int],
                    ),
            decreases c - m, !waits as int,
        {
            if step[covered[m]].clashes(&step[pos]) {
                assert(all[covered@[m as int] as int].clashes(all[covered@[c as int] as int]));
                waits = true;
            } else {
                m += 1;
            }
        }
        assert(waits == must_wait(all, covered@, scope, v@, c as int));
        v.push(waits);
    }
    v
}

/// Every buffer that some command binds, once.
fn collect_resident(step: &Vec<StepDispatch>, covered: &Vec<usize>) -> (v: Vec<Buffer>)
    requires
        forall|i: int| 0 <= i < covered@.len() ==> (#[trigger] covered@[i]) < step@.len(),
    ensures
        ({
            let bound = bound_by_all(step_of(step@), covered@, covered@.len() as int);
            v@ == firsts(bound, bound.len() as int)
        }),
{
    let ghost all = step_of(step@);
    let mut v: Vec<Buffer> = Vec::new();
    let mut seen: HashSet<usize> = HashSet::new();
    for c in 0..covered.len()
        invariant
            all == step_of(step@),
            forall|i: int| 0 <= i < covered@.len() ==> (#[trigger] covered@[i]) < step@.len(),
            v@ == firsts(
                bound_by_all(all, covered@, c as int),
                bound_by_all(all, covered@, c as int).len() as int,
            ),
            forall|raw: usize| #[trigger]
                seen@.contains(raw) <==> names_allocation(
                    bound_by_all(all, covered@, c as int),
                    bound_by_all(all, covered@, c as int).len() as int,
                    raw,
                ),
    {
        let d = &step[covered[c]];
        let ghost before = bound_by_all(all, covered@, c as int);
        let ghost after = bound_by_all(all, covered@, c + 1);
        let n: usize = if d.bindings.len() < d.retained.len() {
            d.bindings.len()
        } else {
            d.retained.len()
        };
        assert(after == before + bound_by(d@));
        proof {
            lemma_firsts_prefix(before, after, before.len() as int);
            assert forall|raw: usize| names_allocation(after, before.len() as int, raw)
                <==> names_allocation(before, before.len() as int, raw) by {
                if names_allocation(after, before.len() as int, raw) {
                    let j = choose|j: int| 0 <= j < before.len() && (#[trigger] after[j]).raw == raw;
                    assert(before[j].raw == raw);
                }
                if names_allocation(before, before.len() as int, raw) {
                    let j = choose|j: int| 0 <= j < before.len() && (#[trigger] before[j]).raw == raw;
                    assert(after[j].raw == raw);
                }
            }
        }
        for i in 0..n
            invariant
                n <= d.retained@.len(),
                after == before + bound_by(d@),
                n == bound_by(d@).len(),
                forall|j: int| 0 <= j < n ==> #[trigger] bound_by(d@)[j] == d.retained@[j],
                v@ == firsts(after, before.len() + i),
                forall|raw: usize| #[trigger]
                    seen@.contains(raw) <==> names_allocation(after, before.len() + i, raw),
        {
            let buffer = d.retained[i];
            let ghost k = before.len() + i;
            assert(after[k] == bound_by(d@)[i as int]);
            let ghost was = seen@;
            if seen.insert(buffer.raw) {
                v.push(buffer);
            }
            proof {
                assert forall|raw: usize| #[trigger]
                    seen@.contains(raw) <==> names_allocation(after, k + 1, raw) by {
                    if names_allocation(after, k + 1, raw) {
                        let j = choose|j: int| 0 <= j < k + 1 && (#[trigger] after[j]).raw == raw;
                        if j < k {
                            assert(names_allocation(after, k, raw));
                            assert(was.contains(raw));
                        }
                    }
                    if was.contains(raw) {
                        let j = choose|j: int| 0 <= j < k && (#[trigger] after[j]).raw == raw;
                        assert(after[j].raw == raw);
                    }
                    assert(after[k].raw == buffer.raw);
                }
            }
        }
    }
    v
}

proof fn lemma_firsts_prefix(a: Seq<Buffer>, b: Seq<Buffer>, n: int)
    requires
        0 <= n <= a.len() <= b.len(),
        forall|i: int| 0 <= i < a.len() ==> #[trigger] a[i] == b[i],
    ensures
        firsts(a, n) == firsts(b, n),
    decreases n,
{
    if n > 0 {
        lemma_firsts_prefix(a, b, n - 1);
        assert(a[n - 1] == b[n - 1]);
        let raw = a[n - 1].raw;
        if names_allocation(a, n - 1, raw) {
            let j = choose|j: int| 0 <= j < n - 1 && (#[trigger] a[j]).raw == raw;
            assert(b[j].raw == raw);
        }
        if names_allocation(b, n - 1, raw) {
            let j = choose|j: int| 0 <= j < n - 1 && (#[trigger] b[j]).raw == raw;
            assert(a[j].raw == raw);
        }
    }
}

/// How many binding slots a command needs.
fn count_slots(step: &Vec<StepDispatch>, covered: &Vec<usize>) -> (m: u128)
    requires
        forall|i: int| 0 <= i < covered@.len() ==> (#[trigger] covered@[i]) < step@.len(),
    ensures
        bind_limit(step_of(step@), covered@, m as int),
{
    let ghost all = step_of(step@);
    let mut m: u128 = 1;
    for c in 0..covered.len()
        invariant
            all == step_of(step@),
            forall|i: int| 0 <= i < covered@.len() ==> (#[trigger] covered@[i]) < step@.len(),
            m >= 1,
            forall|d: int, i: int, x: int|
                d < c && #[trigger] binds_at(all, covered@, d, i, x) ==> x < m,
            m > 1 ==> exists|d: int, i: int| #[trigger] binds_at(all, covered@, d, i, m - 1),
    {
        let d = &step[covered[c]];
        assert(all[covered@[c as int] as int] == d@);
        for i in 0..d.bindings.len()
            invariant
                c < covered@.len(),
                all[covered@[c as int] as int] == d@,
                m >= 1,
                forall|e: int, j: int, x: int|
                    (e < c || e == c && j < i) && #[trigger] binds_at(all, covered@, e, j, x) ==> x
                        < m,
                m > 1 ==> exists|e: int, j: int| #[trigger] binds_at(all, covered@, e, j, m - 1),
        {
            let slots: u128 = d.bindings[i].index as u128 + 1;
            if slots > m {
                m = slots;
                assert(binds_at(all, covered@, c as int, i as int, m - 1));
            }
        }
    }
    m
}

/// What to encode, and how positions map to commands.
#[derive(Debug)]
pub struct ReplayPlan {
    command_of: Vec<Option<usize>>,
    runs: Vec<Run>,
    run_at: Vec<Option<usize>>,
    reference: Vec<StepDispatch>,
    barriers: Vec<bool>,
    resident: Vec<Buffer>,
    max_bind: u128,
}

impl View for ReplayPlan {
    type V = IcbPlanView;

    closed spec fn view(&self) -> IcbPlanView {
        IcbPlanView {
            command_of: self.command_of@,
            runs: self.runs@,
            run_at: self.run_at@,
            reference: step_of(self.reference@),
            barriers: self.barriers@,
            resident: self.resident@,
            max_bind: self.max_bind as int,
        }
    }
}

impl ReplayPlan {
    #[verifier::type_invariant]
    spec fn is_sound(self) -> bool {
        self@.sound()
    }

    /// How many commands there are.
    pub fn len(&self) -> (n: usize)
        ensures
            n == self@.reference.len(),
    {
        self.reference.len()
    }

    /// What command `i` is encoded from.
    pub fn command(&self, i: usize) -> (d: &StepDispatch)
        requires
            i < self@.reference.len(),
        ensures
            d@ == self@.reference[i as int],
    {
        &self.reference[i]
    }

    /// Whether command `i` carries a barrier.
    pub fn waits(&self, i: usize) -> (b: bool)
        requires
            i < self@.reference.len(),
        ensures
            b == self@.barriers[i as int],
    {
        proof {
            use_type_invariant(self);
        }
        self.barriers[i]
    }

    /// The runs, in order.
    pub fn runs(&self) -> (v: &[Run])
        ensures
            v@ == self@.runs,
    {
        self.runs.as_slice()
    }

    /// Every buffer that some command binds.
    pub fn resident(&self) -> (v: &[Buffer])
        ensures
            v@ == self@.resident,
    {
        self.resident.as_slice()
    }

    /// How many binding slots a command needs.
    pub fn max_bind(&self) -> (m: u128)
        ensures
            m == self@.max_bind,
    {
        self.max_bind
    }

    /// How many commands carry a barrier.
    pub fn barriers(&self) -> (n: usize)
        ensures
            n == set_among(self@.barriers, self@.barriers.len() as int),
    {
        let mut n: usize = 0;
        for i in 0..self.barriers.len()
            invariant
                n == set_among(self.barriers@, i as int),
                n <= i,
        {
            if self.barriers[i] {
                n += 1;
            }
        }
        n
    }
}

/// Plans one command per covered position.
fn encode_plan(
    step: &Vec<StepDispatch>,
    covered: &Vec<usize>,
    positions: usize,
    scope: BarrierScope,
) -> (plan: ReplayPlan)
    requires
        positions == step@.len(),
        ascending(covered@),
        covered@.len() <= positions,
        forall|i: int| 0 <= i < covered@.len() ==> (#[trigger] covered@[i]) < positions,
    ensures
        plan@.plans(step_of(step@), covered@, positions as nat, scope),
        plan@.sound(),
{
    let ghost all = step_of(step@);
    let (command_of, runs, run_at) = index_positions(covered, positions);
    let barriers = scan_barriers(step, covered, scope);
    let resident = collect_resident(step, covered);
    let max_bind = count_slots(step, covered);
    let mut reference: Vec<StepDispatch> = Vec::new();
    for c in 0..covered.len()
        invariant
            all == step_of(step@),
            positions == step@.len(),
            forall|i: int| 0 <= i < covered@.len() ==> (#[trigger] covered@[i]) < positions,
            reference@.len() == c,
            forall|i: int| 0 <= i < c ==> (#[trigger] reference@[i])@ == all[covered@[i] as int],
    {
        let d = step[covered[c]].copy();
        reference.push(d);
    }
    proof {
        let view = IcbPlanView {
            command_of: command_of@,
            runs: runs@,
            run_at: run_at@,
            reference: step_of(reference@),
            barriers: barriers@,
            resident: resident@,
            max_bind: max_bind as int,
        };
        assert(view.reference =~= covered@.map_values(|p: usize| all[p as int]));
        assert(view.plans(all, covered@, positions as nat, scope));
        lemma_plan_sound(view, all, covered@, positions as nat, scope);
    }
    ReplayPlan { command_of, runs, run_at, reference, barriers, resident, max_bind }
}

/// Why no plan could be built.
#[derive(Clone, Copy, Debug, PartialEq, Eq, Structural)]
pub enum IcbError {
    /// Step `step` has so many dispatches, against those of the first one.
    StepLengths { step: usize, dispatches: usize, first: usize },
    /// The pipelines were built without support for indirect command buffers.
    PipelinesUnsupported,
}

impl IcbError {
    pub open spec fn spec_message(self) -> Seq<char> {
        match self {
            IcbError::StepLengths { step, dispatches, first } => "recorded step "@ + text::decimal(
                step as nat,
            ) + " has "@ + text::decimal(dispatches as nat) + " dispatches against step 0's "@
                + text::decimal(first as nat)
                + "; the recording window includes a non-steady-state step"@,
            IcbError::PipelinesUnsupported =>
                "pipelines were not built with supportIndirectCommandBuffers; encoding one into an ICB segfaults at encode time (DESIGN.md §3.7d). Call set_pipelines_support_icb(true) before the first dispatch"@,
        }
    }

    /// The refusal in words.
    pub fn message(&self) -> (s: String)
        ensures
            s@ == self.spec_message(),
    {
        match self {
            IcbError::StepLengths { step, dispatches, first } => {
                let mut s = String::new();
                s.push_str("recorded step ");
                text::push_usize(&mut s, *step);
                s.push_str(" has ");
                text::push_usize(&mut s, *dispatches);
                s.push_str(" dispatches against step 0's ");
                text::push_usize(&mut s, *first);
                s.push_str("; the recording window includes a non-steady-state step");
                assert(s@ =~= self.spec_message());
                s
            },
            IcbError::PipelinesUnsupported =>
                "pipelines were not built with supportIndirectCommandBuffers; encoding one into an ICB segfaults at encode time (DESIGN.md §3.7d). Call set_pipelines_support_icb(true) before the first dispatch".to_owned(),
        }
    }
}

/// A plan that was not encoded yet, with the coverage it comes with.
#[derive(Debug)]
pub struct Proposal {
    pub plan: ReplayPlan,
    pub coverage: Coverage,
}

/// What the end of a step asks for.
#[derive(Debug)]
pub enum EndStep {
    /// More steps have to be recorded.
    Recording,
    /// The commands of this plan have to be encoded; the proposal is handed back once they are.
    Encode(Proposal),
    /// The plan stands, or nothing is replayable.
    Replaying,
}

/// The executor's phase. Recording, then replaying, and never back.
#[derive(Clone, Copy, Debug, PartialEq, Eq, Structural)]
enum Phase {
    /// Forwarding every dispatch and recording what it was.
    Recording,
    /// Replaying the covered positions, forwarding the rest.
    Replaying,
}

/// Replay a decode step's stable dispatches from an indirect command buffer.
#[derive(Debug)]
pub struct IcbExecutor {
    phase: Phase,
    record_steps: usize,
    scope: BarrierScope,
    steps: Vec<Vec<StepDispatch>>,
    current: Vec<StepDispatch>,
    pending: Vec<BindingRecord>,
    pending_retained: Vec<Buffer>,
    pending_writes: Vec<bool>,
    pending_pipeline: Option<usize>,
    plan: Option<ReplayPlan>,
    coverage: Coverage,
    stale_positions: usize,
    poisoned: HashSet<usize>,
    suppress_until: usize,
    run_in_flight: usize,
    position: usize,
}

/// The executor as mathematical values.
#[verifier::ext_equal]
pub struct IcbView {
    pub replaying: bool,
    /// How many steps are recorded before it is decided what is replayable.
    pub record_steps: usize,
    pub scope: BarrierScope,
    /// The dispatches of each recorded step, in order.
    pub steps: Seq<Seq<StepView>>,
    /// The step being recorded.
    pub current: Seq<StepView>,
    /// What was bound since the last dispatch.
    pub pending: Seq<BindingRecord>,
    pub pending_retained: Seq<Buffer>,
    pub pending_writes: Seq<bool>,
    pub pending_pipeline: Option<usize>,
    pub plan: Option<IcbPlanView>,
    pub coverage: CoverageView,
    /// Positions whose dispatch stopped matching what was recorded.
    pub stale_positions: usize,
    /// Runs that went stale and are never replayed again.
    pub poisoned: Set<usize>,
    /// Positions before this one are inside a run whose range was already executed.
    pub suppress_until: usize,
    /// The run whose range was executed last.
    pub run_in_flight: usize,
    /// The position of the next dispatch within the step.
    pub position: usize,
}

pub open spec fn plan_of(plan: Option<ReplayPlan>) -> Option<IcbPlanView> {
    match plan {
        Some(p) => Some(p@),
        None => None,
    }
}

/// One more, around the end of the range.
pub open spec fn next(n: usize) -> usize {
    if n == usize::MAX {
        0
    } else {
        (n + 1) as usize
    }
}

impl View for IcbExecutor {
    type V = IcbView;

    closed spec fn view(&self) -> IcbView {
        IcbView {
            replaying: self.phase == Phase::Replaying,
            record_steps: self.record_steps,
            scope: self.scope,
            steps: steps_of(self.steps@),
            current: step_of(self.current@),
            pending: self.pending@,
            pending_retained: self.pending_retained@,
            pending_writes: self.pending_writes@,
            pending_pipeline: self.pending_pipeline,
            plan: plan_of(self.plan),
            coverage: self.coverage@,
            stale_positions: self.stale_positions,
            poisoned: self.poisoned@,
            suppress_until: self.suppress_until,
            run_in_flight: self.run_in_flight,
            position: self.position,
        }
    }
}

impl IcbView {
    /// An executor that has seen nothing.
    pub open spec fn fresh(record_steps: usize, scope: BarrierScope) -> IcbView {
        IcbView {
            replaying: false,
            record_steps,
            scope,
            steps: Seq::empty(),
            current: Seq::empty(),
            pending: Seq::empty(),
            pending_retained: Seq::empty(),
            pending_writes: Seq::empty(),
            pending_pipeline: None,
            plan: None,
            coverage: no_coverage(),
            stale_positions: 0,
            poisoned: Set::empty(),
            suppress_until: 0,
            run_in_flight: 0,
            position: 0,
        }
    }

    /// The same with nothing waiting for a dispatch.
    pub open spec fn settled(self) -> IcbView {
        IcbView {
            pending: Seq::empty(),
            pending_retained: Seq::empty(),
            pending_writes: Seq::empty(),
            pending_pipeline: None,
            ..self
        }
    }

    /// The dispatch that consumes what is waiting.
    pub open spec fn live(self, kernel: Option<Seq<char>>, grid: Grid, threads: Size3) -> StepView {
        StepView {
            kernel,
            grid,
            threads_per_threadgroup: threads,
            bindings: self.pending,
            pipeline: self.pending_pipeline,
            retained: self.pending_retained,
            writes: self.pending_writes,
        }
    }

    /// Run `r` went stale.
    pub open spec fn stale(self, r: usize) -> IcbView {
        IcbView {
            stale_positions: next(self.stale_positions),
            poisoned: self.poisoned.insert(r),
            ..self
        }
    }

    /// What happens to a dispatch, and what becomes of the executor.
    ///
    /// Everything is forwarded while recording, and so is what the plan does not cover. A covered
    /// position inside a run whose range was executed is held back, whatever it looks like now:
    /// its command has run. At the head of a run that never went stale, the range is executed
    /// where the dispatch still is what was recorded, and the run is given up where it is not.
    pub open spec fn offered(self, live: StepView) -> (IcbView, DispatchAction) {
        let pos = self.position as int;
        let after = IcbView { position: next(self.position), ..self.settled() };
        if !self.replaying {
            (IcbView { current: self.current.push(live), ..after }, DispatchAction::Encode)
        } else if self.plan is None {
            (after, DispatchAction::Encode)
        } else {
            let plan = self.plan->0;
            if pos >= plan.command_of.len() || plan.command_of[pos] is None {
                (after, DispatchAction::Encode)
            } else {
                let matches = plan.reference[plan.command_of[pos]->0 as int].compatible(live);
                if pos < self.suppress_until {
                    (
                        if matches {
                            after
                        } else {
                            after.stale(self.run_in_flight)
                        },
                        DispatchAction::Suppress,
                    )
                } else if plan.run_at[pos] is None {
                    (after, DispatchAction::Encode)
                } else {
                    let r = plan.run_at[pos]->0;
                    let run = plan.runs[r as int];
                    if self.poisoned.contains(r) {
                        (after, DispatchAction::Encode)
                    } else if !matches {
                        (after.stale(r), DispatchAction::Encode)
                    } else {
                        (
                            IcbView {
                                suppress_until: run.end() as usize,
                                run_in_flight: r,
                                ..after
                            },
                            DispatchAction::ExecuteIcb { location: run.command, length: run.len },
                        )
                    }
                }
            }
        }
    }

    /// Back at the start of a step.
    pub open spec fn rewound(self) -> IcbView {
        IcbView { position: 0, suppress_until: 0, run_in_flight: 0, ..self }
    }

    /// The step that was being recorded is complete.
    pub open spec fn step_recorded(self) -> IcbView {
        IcbView {
            steps: self.steps.push(self.current),
            current: Seq::empty(),
            ..self.rewound().settled()
        }
    }
}

/// Step `i` is the first whose number of dispatches differs from that of the first step.
pub open spec fn odd_step(steps: Seq<Seq<StepView>>, i: int) -> bool {
    &&& 0 <= i < steps.len()
    &&& steps[i].len() != steps[0].len()
    &&& forall|j: int| 0 <= j < i ==> (#[trigger] steps[j]).len() == steps[0].len()
}

impl IcbExecutor {
    /// Record `record_steps` decode steps, then replay what was stable. Fewer than two cannot tell
    /// a stable position from one seen once.
    pub fn new(record_steps: usize) -> (e: IcbExecutor)
        requires
            record_steps >= 2,
        ensures
            e@ == IcbView::fresh(record_steps, BarrierScope::RunStart),
    {
        IcbExecutor::with_barrier_scope(record_steps, BarrierScope::RunStart)
    }

    /// As `new`, with a choice of how far back commands look for what they wait for.
    pub fn with_barrier_scope(record_steps: usize, scope: BarrierScope) -> (e: IcbExecutor)
        requires
            record_steps >= 2,
        ensures
            e@ == IcbView::fresh(record_steps, scope),
    {
        let e = IcbExecutor {
            phase: Phase::Recording,
            record_steps,
            scope,
            steps: Vec::new(),
            current: Vec::new(),
            pending: Vec::new(),
            pending_retained: Vec::new(),
            pending_writes: Vec::new(),
            pending_pipeline: None,
            plan: None,
            coverage: Coverage::of(0),
            stale_positions: 0,
            poisoned: HashSet::new(),
            suppress_until: 0,
            run_in_flight: 0,
            position: 0,
        };
        assert(e@ =~= IcbView::fresh(record_steps, scope));
        e
    }

    /// Close the current step.
    ///
    /// Called at the token boundary, because nothing inside the encoder knows where a decode step
    /// ends. `supported` is whether the pipelines were built for indirect command buffers.
    pub fn end_step(&mut self, supported: bool) -> (r: Result<EndStep, IcbError>)
        ensures
            old(self)@.replaying ==> r == Ok::<EndStep, IcbError>(EndStep::Replaying)
                && final(self)@ == old(self)@.rewound(),
            !old(self)@.replaying ==> ({
                let v = old(self)@.step_recorded();
                let n = v.steps[0].len();
                let covered = judged(v.steps, None, n as int);
                if v.steps.len() < v.record_steps {
                    r == Ok::<EndStep, IcbError>(EndStep::Recording) && final(self)@ == v
                } else if exists|i: int| #[trigger] odd_step(v.steps, i) {
                    let i = choose|i: int| #[trigger] odd_step(v.steps, i);
                    &&& r == Err::<EndStep, IcbError>(
                        IcbError::StepLengths {
                            step: i as usize,
                            dispatches: v.steps[i].len() as usize,
                            first: n as usize,
                        },
                    )
                    &&& final(self)@ == v
                } else if covered.len() == 0 {
                    &&& r == Ok::<EndStep, IcbError>(EndStep::Replaying)
                    &&& final(self)@ == (IcbView {
                        replaying: true,
                        plan: None,
                        coverage: coverage_of(v.steps, n, n as int),
                        ..v
                    })
                } else if !supported {
                    &&& r == Err::<EndStep, IcbError>(IcbError::PipelinesUnsupported)
                    &&& final(self)@ == v
                } else {
                    &&& r matches Ok(EndStep::Encode(p))
                    &&& p.plan@.plans(v.steps[0], covered, n, v.scope)
                    &&& p.plan@.sound()
                    &&& p.coverage@ == coverage_of(v.steps, n, n as int)
                    &&& final(self)@ == v
                }
            }),
    {
        self.position = 0;
        self.suppress_until = 0;
        self.run_in_flight = 0;
        match self.phase {
            Phase::Replaying => {
                return Ok(EndStep::Replaying);
            },
            Phase::Recording => {},
        }
        let mut step: Vec<StepDispatch> = Vec::new();
        std::mem::swap(&mut step, &mut self.current);
        let ghost before = self.steps@;
        self.steps.push(step);
        self.pending = Vec::new();
        self.pending_retained = Vec::new();
        self.pending_writes = Vec::new();
        self.pending_pipeline = None;
        let ghost v = old(self)@.step_recorded();
        proof {
            assert(steps_of(self.steps@) =~= steps_of(before).push(step_of(step@)));
            assert(step_of(self.current@) =~= Seq::empty());
            assert(self@ =~= v);
        }
        if self.steps.len() < self.record_steps {
            return Ok(EndStep::Recording);
        }
        let n: usize = self.steps[0].len();
        let count: usize = self.steps.len();
        for i in 0..count
            invariant
                self@ == v,
                count == self.steps@.len(),
                count >= 1,
                n == v.steps[0].len(),
                v.steps.len() >= v.record_steps,
                v == old(self)@.step_recorded(),
                !old(self)@.replaying,
                forall|j: int| 0 <= j < i ==> (#[trigger] v.steps[j]).len() == n,
        {
            let m: usize = self.steps[i].len();
            assert(v.steps[i as int].len() == m);
            if m != n {
                proof {
                    assert(odd_step(v.steps, i as int));
                    let k = choose|k: int| #[trigger] odd_step(v.steps, k);
                    if k < i {
                        assert(v.steps[k].len() == n);
                    } else if i < k {
                        assert(v.steps[i as int].len() == n);
                    }
                }
                return Err(IcbError::StepLengths { step: i, dispatches: m, first: n });
            }
        }
        proof {
            assert(!exists|i: int| #[trigger] odd_step(v.steps, i));
            assert forall|i: int| 0 <= i < self.steps@.len() implies n == (
            #[trigger] self.steps@[i])@.len() by {
                assert(v.steps[i].len() == n);
            }
            lemma_judged(v.steps, None, n as int);
        }
        let (coverage, covered) = survey(&self.steps, n);
        if covered.len() == 0 {
            self.coverage = coverage;
            self.plan = None;
            self.phase = Phase::Replaying;
            return Ok(EndStep::Replaying);
        }
        if !supported {
            return Err(IcbError::PipelinesUnsupported);
        }
        let plan = encode_plan(&self.steps[0], &covered, n, self.scope);
        Ok(EndStep::Encode(Proposal { plan, coverage }))
    }

    /// The commands of this plan are encoded: replay from here on.
    pub fn start_replay(&mut self, proposal: Proposal)
        ensures
            final(self)@ == (IcbView {
                replaying: true,
                plan: Some(proposal.plan@),
                coverage: proposal.coverage@,
                ..old(self)@
            }),
    {
        self.coverage = proposal.coverage;
        self.plan = Some(proposal.plan);
        self.phase = Phase::Replaying;
    }

    /// Coverage as observed, once a plan exists.
    pub fn coverage(&self) -> (c: &Coverage)
        ensures
            c@ == self@.coverage,
    {
        &self.coverage
    }

    /// Whether what was recorded is being replayed.
    pub fn is_replaying(&self) -> (b: bool)
        ensures
            b == self@.replaying,
    {
        self.phase == Phase::Replaying
    }

    /// Positions whose dispatch stopped matching what was recorded. Zero is expected of a steady
    /// decode; more means that less is replayed than the coverage says.
    pub fn stale_positions(&self) -> (n: usize)
        ensures
            n == self@.stale_positions,
    {
        self.stale_positions
    }

    /// How many runs the covered positions form, which is how many ranges a replayed step
    /// executes.
    pub fn runs(&self) -> (n: usize)
        ensures
            n == (match self@.plan {
                Some(p) => p.runs.len(),
                None => 0,
            }),
    {
        match &self.plan {
            Some(p) => p.runs().len(),
            None => 0,
        }
    }

    /// Runs that went stale and are no longer replayed.
    pub fn poisoned_runs(&self) -> (n: usize)
        ensures
            n == self@.poisoned.len(),
    {
        self.poisoned.len()
    }

    /// How many commands of the plan carry a barrier.
    pub fn encoded_barriers(&self) -> (n: usize)
        ensures
            n == (match self@.plan {
                Some(p) => set_among(p.barriers, p.barriers.len() as int),
                None => 0,
            }),
    {
        match &self.plan {
            Some(p) => p.barriers(),
            None => 0,
        }
    }

    fn go_stale(&mut self, run: usize)
        ensures
            final(self)@ == old(self)@.stale(run),
    {
        self.stale_positions = self.stale_positions.wrapping_add(1);
        self.poisoned.insert(run);
        assert(self@ =~= old(self)@.stale(run));
    }
}

impl Executor for IcbExecutor {
    fn dispatch_action(&mut self, record: &DispatchRecord) -> (a: DispatchAction)
        ensures
            (final(self)@, a) == old(self)@.offered(
                old(self)@.live(
                    name_of(record.kernel),
                    record.grid,
                    record.threads_per_threadgroup,
                ),
            ),
    {
        let pos: usize = self.position;
        self.position = pos.wrapping_add(1);
        let mut bindings: Vec<BindingRecord> = Vec::new();
        std::mem::swap(&mut bindings, &mut self.pending);
        let mut retained: Vec<Buffer> = Vec::new();
        std::mem::swap(&mut retained, &mut self.pending_retained);
        let mut writes: Vec<bool> = Vec::new();
        std::mem::swap(&mut writes, &mut self.pending_writes);
        let pipeline = self.pending_pipeline;
        self.pending_pipeline = None;
        let live = StepDispatch {
            kernel: match &record.kernel {
                Some(k) => Some(k.clone()),
                None => None,
            },
            grid: record.grid,
            threads_per_threadgroup: record.threads_per_threadgroup,
            bindings,
            pipeline,
            retained,
            writes,
        };
        let ghost after = IcbView { position: next(old(self)@.position), ..old(self)@.settled() };
        assert(self@ =~= after);
        assert(live@ == old(self)@.live(
            name_of(record.kernel),
            record.grid,
            record.threads_per_threadgroup,
        ));
        match self.phase {
            Phase::Recording => {
                let ghost before = self.current@;
                self.current.push(live);
                proof {
                    assert(step_of(self.current@) =~= step_of(before).push(live@));
                    assert(self@ =~= IcbView { current: after.current.push(live@), ..after });
                }
                return DispatchAction::Encode;
            },
            Phase::Replaying => {},
        }
        let plan = match &self.plan {
            Some(p) => p,
            None => {
                return DispatchAction::Encode;
            },
        };
        proof {
            use_type_invariant(plan);
        }
        if pos >= plan.command_of.len() {
            return DispatchAction::Encode;
        }
        let command: usize = match plan.command_of[pos] {
            Some(c) => c,
            None => {
                return DispatchAction::Encode;
            },
        };
        let matches = plan.reference[command].replay_compatible(&live);
        if pos < self.suppress_until {
            if !matches {
                let run: usize = self.run_in_flight;
                self.go_stale(run);
            }
            return DispatchAction::Suppress;
        }
        let r: usize = match plan.run_at[pos] {
            Some(r) => r,
            None => {
                return DispatchAction::Encode;
            },
        };
        if self.poisoned.contains(&r) {
            return DispatchAction::Encode;
        }
        let run = plan.runs[r];
        if !matches {
            self.go_stale(r);
            return DispatchAction::Encode;
        }
        self.suppress_until = run.start + run.len;
        self.run_in_flight = r;
        DispatchAction::ExecuteIcb { location: run.command, length: run.len }
    }

    fn will_bind_buffer(&mut self, index: usize, buffer: &Buffer, offset: usize, is_output: bool)
        ensures
            final(self)@ == (IcbView {
                pending: old(self)@.pending.push(
                    BindingRecord { index, ptr: buffer.raw, offset },
                ),
                pending_retained: old(self)@.pending_retained.push(*buffer),
                pending_writes: old(self)@.pending_writes.push(is_output),
                ..old(self)@
            }),
    {
        self.pending.push(BindingRecord { index, ptr: buffer.raw, offset });
        self.pending_retained.push(*buffer);
        self.pending_writes.push(is_output);
    }

    fn will_set_pipeline(&mut self, pipeline: usize)
        ensures
            final(self)@ == (IcbView { pending_pipeline: Some(pipeline), ..old(self)@ }),
    {
        self.pending_pipeline = Some(pipeline);
    }
}

/// What becomes of the executor once the first `n` of these dispatches were offered.
pub open spec fn after_offers(v: IcbView, lives: Seq<StepView>, n: int) -> IcbView
    decreases n,
{
    if n <= 0 {
        v
    } else {
        after_offers(v, lives, n - 1).offered(lives[n - 1]).0
    }
}

/// What happens to dispatch `i` of these, offered one after the other.
pub open spec fn action_at(v: IcbView, lives: Seq<StepView>, i: int) -> DispatchAction {
    after_offers(v, lives, i).offered(lives[i]).1
}

/// What holds while the dispatches of a run are offered.
proof fn lemma_along_a_run(v: IcbView, r: int, lives: Seq<StepView>, n: int)
    requires
        v.replaying,
        v.plan is Some,
        (v.plan->0).sound(),
        0 <= r < (v.plan->0).runs.len(),
        v.position == (v.plan->0).runs[r].start,
        v.suppress_until <= v.position,
        lives.len() == (v.plan->0).runs[r].len,
        1 <= n <= lives.len(),
    ensures
        ({
            let plan = v.plan->0;
            let run = plan.runs[r];
            let w = after_offers(v, lives, n);
            &&& w.replaying
            &&& w.plan == v.plan
            &&& n < run.len || w.position == next((run.end() - 1) as usize)
            &&& n < run.len ==> w.position == run.start + n
            &&& action_at(v, lives, 0) == (DispatchAction::ExecuteIcb {
                location: run.command,
                length: run.len,
            }) && w.suppress_until == run.end() || action_at(v, lives, 0) == DispatchAction::Encode
                && w.suppress_until <= run.start
        }),
    decreases n,
{
    let plan = v.plan->0;
    let run = plan.runs[r];
    assert(run.len >= 1);
    assert(plan.within(r, run.start as int));
    if n == 1 {
        reveal_with_fuel(after_offers, 2);
    } else {
        lemma_along_a_run(v, r, lives, n - 1);
        let p = run.start + n - 1;
        assert(plan.within(r, p));
    }
}

/// A run is replayed whole or not at all. Either its head has the range of the run executed and
/// every other member is held back, or every member is encoded. So no covered position runs twice,
/// and none is left out.
pub proof fn law_a_run_is_replayed_whole_or_not_at_all(v: IcbView, r: int, lives: Seq<StepView>)
    requires
        v.replaying,
        v.plan is Some,
        (v.plan->0).sound(),
        0 <= r < (v.plan->0).runs.len(),
        v.position == (v.plan->0).runs[r].start,
        v.suppress_until <= v.position,
        lives.len() == (v.plan->0).runs[r].len,
    ensures
        ({
            let run = (v.plan->0).runs[r];
            ||| action_at(v, lives, 0) == (DispatchAction::ExecuteIcb {
                location: run.command,
                length: run.len,
            }) && forall|i: int|
                1 <= i < lives.len() ==> #[trigger] action_at(v, lives, i)
                    == DispatchAction::Suppress
            ||| forall|i: int|
                0 <= i < lives.len() ==> #[trigger] action_at(v, lives, i) == DispatchAction::Encode
        }),
{
    let plan = v.plan->0;
    let run = plan.runs[r];
    assert(run.len >= 1);
    lemma_along_a_run(v, r, lives, 1);
    let executed = action_at(v, lives, 0) is ExecuteIcb;
    assert forall|i: int| 1 <= i < lives.len() implies #[trigger] action_at(v, lives, i) == (
    if executed {
        DispatchAction::Suppress
    } else {
        DispatchAction::Encode
    }) by {
        lemma_along_a_run(v, r, lives, i);
        assert(plan.within(r, run.start + i));
    }
}

/// The suppression that a run's head begins does not reach past the run: once the run was offered,
/// the next position is beyond it.
pub proof fn law_suppression_ends_with_the_run(v: IcbView, r: int, lives: Seq<StepView>)
    requires
        v.replaying,
        v.plan is Some,
        (v.plan->0).sound(),
        0 <= r < (v.plan->0).runs.len(),
        v.position == (v.plan->0).runs[r].start,
        v.suppress_until <= v.position,
        lives.len() == (v.plan->0).runs[r].len,
        (v.plan->0).runs[r].end() < usize::MAX,
    ensures
        after_offers(v, lives, lives.len() as int).position == (v.plan->0).runs[r].end(),
        after_offers(v, lives, lives.len() as int).suppress_until <= (v.plan->0).runs[r].end(),
{
    assert((v.plan->0).runs[r].len >= 1);
    lemma_along_a_run(v, r, lives, lives.len() as int);
}

/// A range is executed only for a run that never went stale, and only where the dispatch at its
/// head still is what its command was encoded from.
pub proof fn law_only_what_was_recorded_is_replayed(v: IcbView, live: StepView)
    requires
        v.offered(live).1 is ExecuteIcb,
    ensures
        v.replaying,
        v.plan is Some,
        ({
            let plan = v.plan->0;
            let pos = v.position as int;
            &&& plan.run_at[pos] is Some
            &&& !v.poisoned.contains(plan.run_at[pos]->0)
            &&& plan.reference[plan.command_of[pos]->0 as int].compatible(live)
        }),
{
}

/// A run that went stale stays so, from one dispatch to the next and from one step to the next.
pub proof fn law_stale_runs_stay_stale(v: IcbView, live: StepView, r: usize)
    requires
        v.poisoned.contains(r),
    ensures
        v.offered(live).0.poisoned.contains(r),
        v.rewound().poisoned.contains(r),
{
}

/// Recording changes nothing that is submitted, and neither does a position that is not covered.
pub proof fn law_what_is_not_covered_is_forwarded(v: IcbView, live: StepView)
    requires
        !v.replaying || v.plan is None || v.position >= (v.plan->0).command_of.len() || (
        v.plan->0).command_of[v.position as int] is None,
    ensures
        v.offered(live).1 == DispatchAction::Encode,
{
}

/// A position is covered only where its pipeline is known, its constants come from a buffer, and
/// every recorded step agreed with the first on everything that a command freezes.
pub proof fn law_covered_positions_never_varied(steps: Seq<Seq<StepView>>, n: int, c: int)
    requires
        0 <= n <= usize::MAX,
        0 <= c < judged(steps, None, n).len(),
    ensures
        ({
            let p = judged(steps, None, n)[c] as int;
            &&& 0 <= p < n
            &&& steps[0][p].pipeline is Some
            &&& packed(steps[0][p].name())
            &&& forall|i: int| 1 <= i < steps.len() ==> steps[0][p].compatible(
                (#[trigger] steps[i])[p],
            )
        }),
{
    lemma_judged(steps, None, n);
}

proof fn lemma_runs_grow(covered: Seq<usize>, n: int, m: int, r: int)
    requires
        0 <= n <= m,
        0 <= r < runs_of(covered, n).len(),
    ensures
        r < runs_of(covered, m).len(),
        runs_of(covered, m)[r].command == runs_of(covered, n)[r].command,
    decreases m,
{
    if n < m {
        lemma_runs_grow(covered, n, m - 1, r);
    }
}

proof fn lemma_barrier_at(
    step: Seq<StepView>,
    covered: Seq<usize>,
    scope: BarrierScope,
    n: int,
    c: int,
)
    requires
        0 <= c < n,
    ensures
        barriers_of(step, covered, scope, n)[c] == must_wait(
            step,
            covered,
            scope,
            barriers_of(step, covered, scope, c),
            c,
        ),
    decreases n,
{
    lemma_barriers_len(step, covered, scope, n - 1);
    if c < n - 1 {
        lemma_barrier_at(step, covered, scope, n - 1, c);
    }
}

/// Where commands look back to the start of their run, every command that conflicts with an
/// earlier one of its run carries a barrier.
pub proof fn law_conflicts_within_a_run_are_ordered(
    plan: IcbPlanView,
    step: Seq<StepView>,
    covered: Seq<usize>,
    positions: nat,
    r: int,
    earlier: int,
    later: int,
)
    requires
        plan.plans(step, covered, positions, BarrierScope::RunStart),
        ascending(covered),
        covered.len() <= positions <= usize::MAX,
        forall|i: int| 0 <= i < covered.len() ==> (#[trigger] covered[i]) < positions,
        0 <= r < plan.runs.len(),
        plan.runs[r].command <= earlier < later < plan.runs[r].command + plan.runs[r].len,
        plan.reference[earlier].clashes(plan.reference[later]),
    ensures
        plan.barriers[later],
{
    let n = covered.len() as int;
    lemma_runs(covered, n);
    assert(plan.runs[r].len >= 1);
    lemma_barrier_at(step, covered, BarrierScope::RunStart, n, later);
    let upto = runs_of(covered, later + 1);
    lemma_runs(covered, later + 1);
    let t = upto.len() - 1;
    lemma_runs_grow(covered, later + 1, n, t);
    if t < r {
        lemma_runs_apart(covered, plan.runs, n, t, r);
        assert(runs_of(covered, n)[t].command == upto[t].command);
        lemma_last_run_holds(covered, later + 1, n);
    } else if r < t {
        lemma_runs_apart(covered, plan.runs, n, r, t);
    }
    assert(step[covered[earlier] as int].clashes(step[covered[later] as int]));
}

/// The last run of the first `n` covered positions holds the last of them, and still does when
/// more are added.
proof fn lemma_last_run_holds(covered: Seq<usize>, n: int, m: int)
    requires
        ascending(covered),
        0 < n <= m <= covered.len() <= usize::MAX,
        forall|i: int| 0 <= i < covered.len() ==> (#[trigger] covered[i]) < usize::MAX,
    ensures
        ({
            let t = runs_of(covered, n).len() - 1;
            &&& 0 <= t < runs_of(covered, m).len()
            &&& runs_of(covered, m)[t].command + runs_of(covered, m)[t].len >= n
        }),
    decreases m,
{
    lemma_runs(covered, n);
    lemma_runs(covered, m);
    if n < m {
        lemma_last_run_holds(covered, n, m - 1);
        lemma_runs(covered, m - 1);
    }
}

/// Where a range is executed, the dispatch is what the command of its position was encoded from: the
/// same kernel, grid and threadgroup size, and binding by binding the same index, allocation and
/// offset. The range is that of the run that starts there, nothing goes stale, and everything up to
/// the end of the run is held back.
pub proof fn law_an_executed_range_is_what_was_dispatched(v: IcbView, live: StepView)
    requires
        v.offered(live).1 is ExecuteIcb,
    ensures
        v.replaying && v.plan is Some,
        ({
            let plan = v.plan->0;
            let pos = v.position as int;
            let (w, action) = v.offered(live);
            let reference = plan.reference[plan.command_of[pos]->0 as int];
            let r = plan.run_at[pos]->0;
            &&& pos < plan.command_of.len() && plan.command_of[pos] is Some
            &&& plan.run_at[pos] is Some
            &&& v.suppress_until <= pos
            &&& !v.poisoned.contains(r)
            &&& reference.kernel == live.kernel
            &&& reference.grid == live.grid
            &&& reference.threads_per_threadgroup == live.threads_per_threadgroup
            &&& reference.bindings.len() == live.bindings.len()
            &&& forall|i: int|
                0 <= i < live.bindings.len() ==> {
                    &&& (#[trigger] reference.bindings[i]).index == live.bindings[i].index
                    &&& reference.bindings[i].ptr == live.bindings[i].ptr
                    &&& reference.bindings[i].offset == live.bindings[i].offset
                }
            &&& action->location == plan.runs[r as int].command
            &&& action->length == plan.runs[r as int].len
            &&& w.suppress_until == (plan.runs[r as int].start + plan.runs[r as int].len) as usize
            &&& w.run_in_flight == r
            &&& w.poisoned == v.poisoned
            &&& w.stale_positions == v.stale_positions
        }),
{
}

/// Nothing but a difference keeps a run from being replayed: at the head of a run that never went
/// stale, a dispatch that is what the command was encoded from has the range executed.
pub proof fn law_an_unchanged_head_is_replayed(v: IcbView, live: StepView)
    requires
        v.replaying && v.plan is Some,
        (v.plan->0).sound(),
        v.suppress_until <= v.position < (v.plan->0).run_at.len(),
        (v.plan->0).run_at[v.position as int] is Some,
        !v.poisoned.contains((v.plan->0).run_at[v.position as int]->0),
        ({
            let plan = v.plan->0;
            let reference = plan.reference[plan.command_of[v.position as int]->0 as int];
            &&& reference.kernel == live.kernel
            &&& reference.grid == live.grid
            &&& reference.threads_per_threadgroup == live.threads_per_threadgroup
            &&& reference.bindings.len() == live.bindings.len()
            &&& forall|i: int|
                0 <= i < live.bindings.len() ==> {
                    &&& (#[trigger] reference.bindings[i]).index == live.bindings[i].index
                    &&& reference.bindings[i].ptr == live.bindings[i].ptr
                    &&& reference.bindings[i].offset == live.bindings[i].offset
                }
        }),
    ensures
        ({
            let plan = v.plan->0;
            let c = plan.command_of[v.position as int]->0;
            let r = plan.run_at[v.position as int]->0 as int;
            v.offered(live).1 == (DispatchAction::ExecuteIcb {
                location: c,
                length: plan.runs[r].len,
            })
        }),
{
    let plan = v.plan->0;
    let pos = v.position as int;
    let r = plan.run_at[pos]->0 as int;
    assert(plan.runs[r].len >= 1);
    assert(plan.within(r, pos));
    let reference = plan.reference[plan.command_of[pos]->0 as int];
    assert(reference.bindings =~= live.bindings);
}

/// The two dispatches differ in something that a command freezes; `i` is the binding in which they
/// do, where it is one.
spec fn differ(a: StepView, b: StepView, i: int) -> bool {
    ||| a.kernel != b.kernel
    ||| a.grid != b.grid
    ||| a.threads_per_threadgroup != b.threads_per_threadgroup
    ||| a.bindings.len() != b.bindings.len()
    ||| 0 <= i < a.bindings.len() && (a.bindings[i].index != b.bindings[i].index
        || a.bindings[i].ptr != b.bindings[i].ptr || a.bindings[i].offset != b.bindings[i].offset)
}

proof fn lemma_differ(a: StepView, b: StepView, i: int)
    requires
        differ(a, b, i),
    ensures
        !a.compatible(b),
{
}

/// A dispatch in which anything changed that a command freezes is never replaced by one: outside of
/// a run in flight it is encoded, and a run of which it is the head is given up for good and counted;
/// inside of one, its command has run, and that run is given up.
pub proof fn law_a_changed_dispatch_gives_its_run_up(v: IcbView, live: StepView, i: int)
    requires
        v.replaying && v.plan is Some,
        v.position < (v.plan->0).command_of.len(),
        (v.plan->0).command_of[v.position as int] is Some,
        ({
            let plan = v.plan->0;
            let was = plan.reference[plan.command_of[v.position as int]->0 as int];
            ||| was.kernel != live.kernel
            ||| was.grid != live.grid
            ||| was.threads_per_threadgroup != live.threads_per_threadgroup
            ||| was.bindings.len() != live.bindings.len()
            ||| 0 <= i < was.bindings.len() && (was.bindings[i].index != live.bindings[i].index
                || was.bindings[i].ptr != live.bindings[i].ptr || was.bindings[i].offset
                != live.bindings[i].offset)
        }),
    ensures
        ({
            let started = (v.plan->0).run_at[v.position as int];
            let (w, action) = v.offered(live);
            if v.position < v.suppress_until {
                &&& action == DispatchAction::Suppress
                &&& w.poisoned == v.poisoned.insert(v.run_in_flight)
                &&& v.stale_positions < usize::MAX ==> w.stale_positions == v.stale_positions + 1
            } else if started is Some && !v.poisoned.contains(started->0) {
                &&& action == DispatchAction::Encode
                &&& w.poisoned == v.poisoned.insert(started->0)
                &&& v.stale_positions < usize::MAX ==> w.stale_positions == v.stale_positions + 1
            } else {
                &&& action == DispatchAction::Encode
                &&& w.poisoned == v.poisoned
                &&& w.stale_positions == v.stale_positions
            }
        }),
        v.offered(live).0.suppress_until == v.suppress_until,
        v.offered(live).0.run_in_flight == v.run_in_flight,
{
    let plan = v.plan->0;
    let was = plan.reference[plan.command_of[v.position as int]->0 as int];
    assert(differ(was, live, i));
    lemma_differ(was, live, i);
}

/// A run that went stale is encoded dispatch by dispatch, and so is a position that stands in a run
/// of which the head was encoded.
pub proof fn law_a_stale_run_is_encoded(v: IcbView, live: StepView)
    requires
        v.replaying && v.plan is Some,
        v.suppress_until <= v.position < (v.plan->0).command_of.len(),
        ({
            let started = (v.plan->0).run_at[v.position as int];
            started is None || v.poisoned.contains(started->0)
        }),
    ensures
        v.offered(live).1 == DispatchAction::Encode,
        v.offered(live).0.poisoned == v.poisoned,
        v.offered(live).0.stale_positions == v.stale_positions,
        v.offered(live).0.suppress_until == v.suppress_until,
{
}

/// A covered position is held back exactly where its run's range was executed.
pub proof fn law_held_back_while_a_run_is_in_flight(v: IcbView, live: StepView)
    requires
        v.replaying && v.plan is Some,
        v.position < (v.plan->0).command_of.len(),
        (v.plan->0).command_of[v.position as int] is Some,
    ensures
        v.offered(live).1 == DispatchAction::Suppress <==> v.position < v.suppress_until,
{
}

/// Every dispatch takes one position and what was waiting for it, whatever happens to it. While
/// recording it is appended to the step; after that nothing is recorded, and the plan stands.
pub proof fn law_every_dispatch_takes_one_position(v: IcbView, live: StepView)
    ensures
        ({
            let w = v.offered(live).0;
            &&& v.position < usize::MAX ==> w.position == v.position + 1
            &&& w.pending.len() == 0 && w.pending_retained.len() == 0 && w.pending_writes.len() == 0
            &&& w.pending_pipeline is None
            &&& !v.replaying ==> w.current == v.current.push(live)
            &&& v.replaying ==> w.current == v.current
            &&& w.replaying == v.replaying
            &&& w.plan == v.plan
            &&& w.steps == v.steps
            &&& w.coverage == v.coverage
            &&& w.scope == v.scope
            &&& w.record_steps == v.record_steps
        }),
{
}

/// A dispatch is recorded with everything that was bound for it, in the order it was bound.
pub proof fn law_a_dispatch_is_what_was_bound(
    v: IcbView,
    kernel: Option<Seq<char>>,
    grid: Grid,
    threads: Size3,
)
    requires
        !v.replaying,
    ensures
        ({
            let w = v.offered(v.live(kernel, grid, threads)).0;
            let d = w.current.last();
            &&& w.current.len() == v.current.len() + 1
            &&& d.kernel == kernel
            &&& d.grid == grid
            &&& d.threads_per_threadgroup == threads
            &&& d.bindings == v.pending
            &&& d.retained == v.pending_retained
            &&& d.writes == v.pending_writes
            &&& d.pipeline == v.pending_pipeline
            &&& forall|i: int| 0 <= i < v.current.len() ==> w.current[i] == v.current[i]
        }),
{
}

/// A step starts over at its first position with no run in flight. What was recorded of it is kept
/// as one step more, and what went stale stays so.
pub proof fn law_a_step_starts_over(v: IcbView)
    ensures
        v.rewound().position == 0,
        v.rewound().suppress_until == 0,
        v.rewound().poisoned == v.poisoned,
        v.rewound().stale_positions == v.stale_positions,
        v.rewound().plan == v.plan,
        v.rewound().replaying == v.replaying,
        v.rewound().steps == v.steps,
        v.step_recorded().position == 0,
        v.step_recorded().suppress_until == 0,
        v.step_recorded().steps.len() == v.steps.len() + 1,
        v.step_recorded().steps.last() == v.current,
        v.step_recorded().steps.drop_last() == v.steps,
        v.step_recorded().current.len() == 0,
        v.step_recorded().pending.len() == 0,
        v.step_recorded().pending_retained.len() == 0,
        v.step_recorded().pending_writes.len() == 0,
        v.step_recorded().pending_pipeline is None,
        v.step_recorded().replaying == v.replaying,
{
}

/// The step that is refused is the first that is not as long as the first one, and there is none
/// exactly where all are as long.
pub proof fn law_steps_of_one_length(steps: Seq<Seq<StepView>>)
    ensures
        (exists|i: int| #[trigger] odd_step(steps, i)) <==> exists|i: int|
            0 <= i < steps.len() && (#[trigger] steps[i]).len() != steps[0].len(),
        forall|i: int, j: int| #[trigger]
            odd_step(steps, i) && 0 <= j < i ==> (#[trigger] steps[j]).len() == steps[0].len(),
        forall|i: int, j: int| #[trigger] odd_step(steps, i) && #[trigger] odd_step(steps, j) ==> i
            == j,
{
    if exists|i: int| 0 <= i < steps.len() && (#[trigger] steps[i]).len() != steps[0].len() {
        let i = choose|i: int| 0 <= i < steps.len() && (#[trigger] steps[i]).len() != steps[0].len();
        lemma_first_odd(steps, i);
    }
    assert forall|i: int, j: int| #[trigger]
        odd_step(steps, i) && #[trigger] odd_step(steps, j) implies i == j by {
        if i < j {
            assert(steps[i].len() == steps[0].len());
        } else if j < i {
            assert(steps[j].len() == steps[0].len());
        }
    }
}

proof fn lemma_first_odd(steps: Seq<Seq<StepView>>, i: int)
    requires
        0 <= i < steps.len(),
        steps[i].len() != steps[0].len(),
    ensures
        exists|k: int| #[trigger] odd_step(steps, k),
    decreases i,
{
    if exists|j: int| 0 <= j < i && (#[trigger] steps[j]).len() != steps[0].len() {
        let j = choose|j: int| 0 <= j < i && (#[trigger] steps[j]).len() != steps[0].len();
        lemma_first_odd(steps, j);
    } else {
        assert(odd_step(steps, i));
    }
}

/// A kernel's constants come from a buffer where its name ends in these seven letters, and nowhere
/// else.
pub proof fn law_packed_names(name: Seq<char>)
    ensures
        packed(name) <==> name.len() >= 7 && name[name.len() - 7] == '_' && name[name.len() - 6]
            == 'p' && name[name.len() - 5] == 'a' && name[name.len() - 4] == 'c' && name[name.len()
            - 3] == 'k' && name[name.len() - 2] == 'e' && name[name.len() - 1] == 'd',
{
    reveal_strlit("_packed");
    if name.len() >= 7 {
        let tail = name.skip(name.len() - 7);
        assert(tail.len() == 7);
        assert(forall|k: int| 0 <= k < 7 ==> tail[k] == name[name.len() - 7 + k]);
        assert(tail[0] == name[name.len() - 7]);
        assert(tail[1] == name[name.len() - 6]);
        assert(tail[2] == name[name.len() - 5]);
        assert(tail[3] == name[name.len() - 4]);
        assert(tail[4] == name[name.len() - 3]);
        assert(tail[5] == name[name.len() - 2]);
        assert(tail[6] == name[name.len() - 1]);
        if name[name.len() - 7] == '_' && name[name.len() - 6] == 'p' && name[name.len() - 5] == 'a'
            && name[name.len() - 4] == 'c' && name[name.len() - 3] == 'k' && name[name.len() - 2]
            == 'e' && name[name.len() - 1] == 'd' {
            assert(tail =~= "_packed"@);
        }
    }
}

/// The recorded steps agree at this position with the first one, field by field.
pub open spec fn steady(steps: Seq<Seq<StepView>>, p: int) -> bool {
    forall|i: int|
        0 <= i < steps.len() ==> {
            &&& (#[trigger] steps[i])[p].kernel == steps[0][p].kernel
            &&& steps[i][p].grid == steps[0][p].grid
            &&& steps[i][p].threads_per_threadgroup == steps[0][p].threads_per_threadgroup
            &&& steps[i][p].bindings == steps[0][p].bindings
        }
}

/// A position is covered where its pipeline is known, its kernel is named and takes its constants
/// from a buffer, and every recorded step had the same kernel, grid, threadgroup size and bindings
/// there; and nowhere else. What is not covered is put down to the first of these that fails.
pub proof fn law_what_is_covered(steps: Seq<Seq<StepView>>, n: int, p: int)
    requires
        steps.len() >= 1,
        0 <= p < n <= usize::MAX,
    ensures
        ({
            let base = steps[0][p];
            let named = base.kernel is Some && packed(base.kernel->0);
            let at = p as usize;
            &&& judged(steps, None, n).contains(at) <==> base.pipeline is Some && named && steady(
                steps,
                p,
            )
            &&& judged(steps, Some(Excluded::NoPipeline), n).contains(at)
                <==> base.pipeline is None
            &&& judged(steps, Some(Excluded::InlineConstants), n).contains(at)
                <==> base.pipeline is Some && !named
            &&& judged(steps, Some(Excluded::Varies), n).contains(at) <==> base.pipeline is Some
                && named && !steady(steps, p)
        }),
{
    let base = steps[0][p];
    assert(!packed("<unnamed>"@)) by {
        reveal_strlit("<unnamed>");
        law_packed_names("<unnamed>"@);
    }
    if exists|i: int| 1 <= i < steps.len() && !base.compatible((#[trigger] steps[i])[p]) {
        let i = choose|i: int| 1 <= i < steps.len() && !base.compatible((#[trigger] steps[i])[p]);
        assert(!steady(steps, p));
    } else {
        assert forall|i: int| 0 <= i < steps.len() implies {
            &&& (#[trigger] steps[i])[p].kernel == base.kernel
            &&& steps[i][p].grid == base.grid
            &&& steps[i][p].threads_per_threadgroup == base.threads_per_threadgroup
            &&& steps[i][p].bindings == base.bindings
        } by {
            if i >= 1 {
                assert(base.compatible(steps[i][p]));
            }
        }
    }
    lemma_judged_holds(steps, None, n, p);
    lemma_judged_holds(steps, Some(Excluded::NoPipeline), n, p);
    lemma_judged_holds(steps, Some(Excluded::InlineConstants), n, p);
    lemma_judged_holds(steps, Some(Excluded::Varies), n, p);
}

proof fn lemma_judged_holds(steps: Seq<Seq<StepView>>, v: Option<Excluded>, n: int, p: int)
    requires
        0 <= p < n <= usize::MAX,
    ensures
        judged(steps, v, n).contains(p as usize) <==> verdict(steps, p) == v,
    decreases n,
{
    lemma_judged(steps, v, n);
    let j = judged(steps, v, n);
    if verdict(steps, p) == v {
        if p == n - 1 {
            assert(j[j.len() - 1] == p as usize);
        } else {
            lemma_judged_holds(steps, v, n - 1, p);
            let before = judged(steps, v, n - 1);
            let k = choose|k: int| 0 <= k < before.len() && before[k] == p as usize;
            assert(j[k] == p as usize);
        }
    }
}

/// Coverage accounts for every position, each once: with one position more, one counter has one
/// more, and so has the kernel's entry under it. All positions are listed in order.
pub proof fn law_coverage_counts_every_position(steps: Seq<Seq<StepView>>, positions: nat, n: int)
    requires
        0 <= n < usize::MAX,
    ensures
        ({
            let a = coverage_of(steps, positions, n);
            let b = coverage_of(steps, positions, n + 1);
            let why = verdict(steps, n);
            let name = steps[0][n].name();
            &&& a.positions == positions
            &&& a.covered + a.varies + a.no_pipeline + a.inline_constants == n
            &&& b.covered == a.covered + (if why is None {
                1int
            } else {
                0
            })
            &&& b.varies == a.varies + (if why == Some(Excluded::Varies) {
                1int
            } else {
                0
            })
            &&& b.no_pipeline == a.no_pipeline + (if why == Some(Excluded::NoPipeline) {
                1int
            } else {
                0
            })
            &&& b.inline_constants == a.inline_constants + (if why == Some(
                Excluded::InlineConstants,
            ) {
                1int
            } else {
                0
            })
            &&& why is None ==> b.covered_by_kernel == tally::counted(a.covered_by_kernel, name)
            &&& why == Some(Excluded::Varies) ==> b.varies_by_kernel == tally::counted(
                a.varies_by_kernel,
                name,
            )
            &&& why == Some(Excluded::NoPipeline) ==> b.no_pipeline_by_kernel == tally::counted(
                a.no_pipeline_by_kernel,
                name,
            )
            &&& why == Some(Excluded::InlineConstants) ==> b.inline_constants_by_kernel
                == tally::counted(a.inline_constants_by_kernel, name)
            &&& why is Some ==> b.covered_by_kernel == a.covered_by_kernel
            &&& why != Some(Excluded::Varies) ==> b.varies_by_kernel == a.varies_by_kernel
            &&& why != Some(Excluded::NoPipeline) ==> b.no_pipeline_by_kernel
                == a.no_pipeline_by_kernel
            &&& why != Some(Excluded::InlineConstants) ==> b.inline_constants_by_kernel
                == a.inline_constants_by_kernel
        }),
    decreases n,
{
    if n > 0 {
        law_coverage_counts_every_position(steps, positions, n - 1);
    }
    lemma_kernels_push(steps[0], judged(steps, verdict(steps, n), n), n as usize);
}

/// Commands stand for the covered positions in order: the one at index `c` is encoded from what was
/// recorded at the position at index `c`, with everything it was recorded with; that position maps
/// to it, and a position that is not covered maps to none.
pub proof fn law_one_command_per_covered_position(
    plan: IcbPlanView,
    step: Seq<StepView>,
    covered: Seq<usize>,
    positions: nat,
    scope: BarrierScope,
    p: int,
)
    requires
        plan.plans(step, covered, positions, scope),
        ascending(covered),
        covered.len() <= positions <= usize::MAX,
        0 <= p < positions,
    ensures
        plan.command_of.len() == positions,
        plan.reference.len() == covered.len(),
        plan.barriers.len() == covered.len(),
        covered.contains(p as usize) <==> plan.command_of[p] is Some,
        plan.command_of[p] is Some ==> {
            let c = plan.command_of[p]->0;
            &&& c < covered.len()
            &&& covered[c as int] == p
            &&& plan.reference[c as int] == step[p]
        },
{
    let n = covered.len() as int;
    lemma_barriers_len(step, covered, scope, n);
    if covered.contains(p as usize) {
        let c = choose|c: int| 0 <= c < n && covered[c] == p as usize;
        assert(is_command(covered, n, p, c));
        lemma_command_at(covered, n, p, c);
    } else if exists|c: int| #[trigger] is_command(covered, n, p, c) {
        let c = choose|c: int| #[trigger] is_command(covered, n, p, c);
        assert(covered[c] == p as usize);
    }
}

/// The runs are the stretches of positions that are covered without a gap: each covered position is
/// in a run, no run holds one that is not covered, and none is covered right before or right behind
/// a run.
#[verifier::spinoff_prover]
pub proof fn law_runs_are_stretches_without_a_gap(
    plan: IcbPlanView,
    step: Seq<StepView>,
    covered: Seq<usize>,
    positions: nat,
    scope: BarrierScope,
    r: int,
    p: int,
)
    requires
        plan.plans(step, covered, positions, scope),
        ascending(covered),
        covered.len() <= positions <= usize::MAX,
        forall|i: int| 0 <= i < covered.len() ==> (#[trigger] covered[i]) < positions,
        0 <= r < plan.runs.len(),
        0 <= p < positions,
    ensures
        plan.runs[r].len >= 1,
        plan.runs[r].start + plan.runs[r].len <= positions,
        plan.runs[r].start <= p < plan.runs[r].start + plan.runs[r].len ==> covered.contains(
            p as usize,
        ),
        p + 1 == plan.runs[r].start ==> !covered.contains(p as usize),
        p == plan.runs[r].start + plan.runs[r].len ==> !covered.contains(p as usize),
        covered.contains(p as usize) ==> exists|t: int|
            0 <= t < plan.runs.len() && (#[trigger] plan.runs[t]).start <= p < plan.runs[t].start
                + plan.runs[t].len,
{
    lemma_run_stands_alone(plan, step, covered, positions, scope, r);
    law_one_command_per_covered_position(plan, step, covered, positions, scope, p);
    if plan.runs[r].start <= p < plan.runs[r].start + plan.runs[r].len {
        assert(plan.within(r, p));
        lemma_within_run(plan, step, covered, positions, scope, r, p);
    }
    if covered.contains(p as usize) {
        lemma_command_in_run(plan, step, covered, positions, scope, p);
        let t = choose|t: int| #[trigger] plan.within(t, p);
        assert(plan.runs[t].start <= p);
    }
}

/// The runs stand in order with a gap between any two, and a position leads to the run that starts
/// there, whose first command is its own.
#[verifier::spinoff_prover]
pub proof fn law_runs_stand_in_order(
    plan: IcbPlanView,
    step: Seq<StepView>,
    covered: Seq<usize>,
    positions: nat,
    scope: BarrierScope,
    t: int,
    r: int,
    p: int,
)
    requires
        plan.plans(step, covered, positions, scope),
        ascending(covered),
        covered.len() <= positions <= usize::MAX,
        forall|i: int| 0 <= i < covered.len() ==> (#[trigger] covered[i]) < positions,
        0 <= t < r < plan.runs.len() || 0 <= t == r < plan.runs.len(),
        0 <= p < positions,
    ensures
        t < r ==> plan.runs[t].start + plan.runs[t].len < plan.runs[r].start,
        t < r ==> plan.runs[t].command + plan.runs[t].len <= plan.runs[r].command,
        plan.run_at[p] is Some ==> plan.run_at[p]->0 < plan.runs.len()
            && plan.runs[plan.run_at[p]->0 as int].start == p,
        plan.runs[r].start == p ==> plan.run_at[p] == Some(r as usize),
        plan.runs[r].start == p ==> plan.command_of[p] == Some(plan.runs[r].command),
{
    let n = covered.len() as int;
    lemma_runs(covered, n);
    if t < r {
        lemma_runs_apart(covered, plan.runs, n, t, r);
    }
    if plan.run_at[p] is Some {
        let h = choose|h: int| #[trigger] is_head(plan.runs, p, h);
        assert(is_head(plan.runs, p, h));
    }
    lemma_run_stands_alone(plan, step, covered, positions, scope, r);
    if plan.runs[r].start == p {
        assert(plan.within(r, p));
        lemma_within_run(plan, step, covered, positions, scope, r, p);
    }
}

/// Commands `m` and `c` bind one allocation, at `i` and `j`, and one of the two writes it.
pub open spec fn shares(plan: IcbPlanView, m: int, c: int, i: int, j: int) -> bool {
    &&& 0 <= i < plan.reference[m].bindings.len()
    &&& 0 <= j < plan.reference[c].bindings.len()
    &&& plan.reference[m].bindings[i].ptr == plan.reference[c].bindings[j].ptr
    &&& (i < plan.reference[m].writes.len() && plan.reference[m].writes[i]) || (j
        < plan.reference[c].writes.len() && plan.reference[c].writes[j])
}

proof fn lemma_shares(plan: IcbPlanView, m: int, c: int)
    requires
        0 <= m < plan.reference.len(),
        0 <= c < plan.reference.len(),
    ensures
        plan.reference[m].clashes(plan.reference[c]) <==> exists|i: int, j: int| #[trigger]
            shares(plan, m, c, i, j),
{
    let a = plan.reference[m];
    let b = plan.reference[c];
    if a.clashes(b) {
        let (i, j) = choose|i: int, j: int| #[trigger] clash_at(a, b, i, j);
        assert(shares(plan, m, c, i, j));
    }
    if exists|i: int, j: int| #[trigger] shares(plan, m, c, i, j) {
        let (i, j) = choose|i: int, j: int| #[trigger] shares(plan, m, c, i, j);
        assert(clash_at(a, b, i, j));
    }
}

/// The scan of a command begins at the first command of its run.
proof fn lemma_scan_run(covered: Seq<usize>, n: int, r: int, c: int)
    requires
        ascending(covered),
        0 < n <= covered.len() <= usize::MAX,
        forall|i: int| 0 <= i < covered.len() ==> (#[trigger] covered[i]) < usize::MAX,
        0 <= r < runs_of(covered, n).len(),
        runs_of(covered, n)[r].command <= c < runs_of(covered, n)[r].command + runs_of(
            covered,
            n,
        )[r].len,
    ensures
        c < n,
        runs_of(covered, c + 1).last().command == runs_of(covered, n)[r].command,
{
    let runs = runs_of(covered, n);
    lemma_runs(covered, n);
    assert(runs[r].len >= 1);
    let upto = runs_of(covered, c + 1);
    lemma_runs(covered, c + 1);
    let t = upto.len() - 1;
    lemma_runs_grow(covered, c + 1, n, t);
    if t < r {
        lemma_runs_apart(covered, runs, n, t, r);
        lemma_last_run_holds(covered, c + 1, n);
    } else if r < t {
        lemma_runs_apart(covered, runs, n, r, t);
    }
}

/// A command looks back past every command of its run that carries no barrier.
proof fn lemma_since(prior: Seq<bool>, first: int, c: int)
    requires
        first <= c <= prior.len(),
        0 <= first,
    ensures
        first <= since(prior, first, c) <= c,
        forall|k: int| since(prior, first, c) <= k < c ==> !#[trigger] prior[k],
        since(prior, first, c) > first ==> prior[since(prior, first, c) - 1],
    decreases c - first,
{
    if c > first && !prior[c - 1] {
        lemma_since(prior, first, c - 1);
    }
}

proof fn lemma_barriers_prefix(
    step: Seq<StepView>,
    covered: Seq<usize>,
    scope: BarrierScope,
    c: int,
    n: int,
)
    requires
        0 <= c <= n,
    ensures
        barriers_of(step, covered, scope, c).len() == c,
        forall|k: int|
            0 <= k < c ==> #[trigger] barriers_of(step, covered, scope, c)[k] == barriers_of(
                step,
                covered,
                scope,
                n,
            )[k],
    decreases n,
{
    lemma_barriers_len(step, covered, scope, c);
    if c < n {
        lemma_barriers_prefix(step, covered, scope, c, n - 1);
        lemma_barriers_len(step, covered, scope, n - 1);
    }
}

/// A command carries a barrier exactly where it binds an allocation that an earlier command of its
/// run binds too and one of the two writes it. Where commands look back no further than the last
/// barrier, only the commands of the run since then are looked at.
pub proof fn law_a_barrier_stands_where_commands_conflict(
    plan: IcbPlanView,
    step: Seq<StepView>,
    covered: Seq<usize>,
    positions: nat,
    scope: BarrierScope,
    r: int,
    c: int,
)
    requires
        plan.plans(step, covered, positions, scope),
        ascending(covered),
        covered.len() <= positions <= usize::MAX,
        forall|i: int| 0 <= i < covered.len() ==> (#[trigger] covered[i]) < positions,
        0 <= r < plan.runs.len(),
        plan.runs[r].command <= c < plan.runs[r].command + plan.runs[r].len,
    ensures
        scope is RunStart ==> (plan.barriers[c] <==> exists|m: int, i: int, j: int|
            plan.runs[r].command <= m < c && #[trigger] shares(plan, m, c, i, j)),
        scope is SinceBarrier ==> (plan.barriers[c] <==> exists|m: int, i: int, j: int|
            {
                &&& plan.runs[r].command <= m < c
                &&& #[trigger] shares(plan, m, c, i, j)
                &&& forall|k: int| m <= k < c ==> !#[trigger] plan.barriers[k]
            }),
        c == plan.runs[r].command ==> !plan.barriers[c],
{
    let n = covered.len() as int;
    let first = plan.runs[r].command as int;
    lemma_runs(covered, n);
    assert(plan.runs[r].len >= 1);
    lemma_scan_run(covered, n, r, c);
    lemma_barrier_at(step, covered, scope, n, c);
    lemma_barriers_prefix(step, covered, scope, c, n);
    let prior = barriers_of(step, covered, scope, c);
    assert(forall|k: int| 0 <= k < c ==> #[trigger] prior[k] == plan.barriers[k]);
    let from = scan_from(covered, scope, prior, c);
    if scope is SinceBarrier {
        lemma_since(prior, first, c);
    }
    if plan.barriers[c] {
        let m = choose|m: int|
            from <= m < c && step[(#[trigger] covered[m]) as int].clashes(step[covered[c] as int]);
        assert(plan.reference[m].clashes(plan.reference[c]));
        lemma_shares(plan, m, c);
        let (i, j) = choose|i: int, j: int| #[trigger] shares(plan, m, c, i, j);
        assert(shares(plan, m, c, i, j));
        assert forall|k: int| scope is SinceBarrier && m <= k < c implies !#[trigger] plan.barriers[k] by {
            assert(!prior[k]);
        }
    }
    assert forall|m: int, i: int, j: int|
        {
            &&& first <= m < c
            &&& #[trigger] shares(plan, m, c, i, j)
            &&& scope is RunStart || forall|k: int| m <= k < c ==> !#[trigger] plan.barriers[k]
        } implies plan.barriers[c] by {
        lemma_shares(plan, m, c);
        assert(step[covered[m] as int].clashes(step[covered[c] as int]));
        if scope is SinceBarrier && from > m {
            assert(prior[from - 1]);
            assert(plan.barriers[from - 1]);
        }
    }
}

/// Barriers are counted one by one.
pub proof fn law_every_barrier_counts_once(flags: Seq<bool>, more: bool)
    ensures
        set_among(flags.push(more), flags.len() as int + 1) == set_among(flags, flags.len() as int)
            + (if more {
            1int
        } else {
            0
        }),
        set_among(Seq::empty(), 0) == 0,
{
    lemma_set_among_prefix(flags, flags.push(more), flags.len() as int);
}

proof fn lemma_set_among_prefix(a: Seq<bool>, b: Seq<bool>, n: int)
    requires
        n <= a.len() <= b.len(),
        forall|i: int| 0 <= i < n ==> a[i] == b[i],
    ensures
        set_among(a, n) == set_among(b, n),
    decreases n,
{
    if n > 0 {
        lemma_set_among_prefix(a, b, n - 1);
    }
}

proof fn lemma_first_is_one(buffers: Seq<Buffer>, n: int, k: int) -> (j: int)
    requires
        0 <= n <= buffers.len(),
        0 <= k < firsts(buffers, n).len(),
    ensures
        0 <= j < n,
        buffers[j] == firsts(buffers, n)[k],
    decreases n,
{
    if k < firsts(buffers, n - 1).len() {
        lemma_first_is_one(buffers, n - 1, k)
    } else {
        n - 1
    }
}

proof fn lemma_first_of(buffers: Seq<Buffer>, n: int, j: int) -> (k: int)
    requires
        0 <= j < n <= buffers.len(),
    ensures
        0 <= k < firsts(buffers, n).len(),
        firsts(buffers, n)[k].raw == buffers[j].raw,
    decreases n, j,
{
    if j < n - 1 {
        lemma_first_of(buffers, n - 1, j)
    } else if names_allocation(buffers, n - 1, buffers[j].raw) {
        let i = choose|i: int| 0 <= i < n - 1 && (#[trigger] buffers[i]).raw == buffers[j].raw;
        lemma_first_of(buffers, n - 1, i)
    } else {
        firsts(buffers, n).len() - 1
    }
}

proof fn lemma_firsts_differ(buffers: Seq<Buffer>, n: int, k: int, l: int)
    requires
        0 <= n <= buffers.len(),
        0 <= k < l < firsts(buffers, n).len(),
    ensures
        firsts(buffers, n)[k].raw != firsts(buffers, n)[l].raw,
    decreases n,
{
    let before = firsts(buffers, n - 1);
    if l < before.len() {
        lemma_firsts_differ(buffers, n - 1, k, l);
    } else {
        let j = lemma_first_is_one(buffers, n - 1, k);
        assert(buffers[j].raw == before[k].raw);
    }
}

/// Buffer `i` is kept for a binding of command `c`.
pub open spec fn kept(plan: IcbPlanView, c: int, i: int) -> bool {
    &&& 0 <= c < plan.reference.len()
    &&& 0 <= i < plan.reference[c].bindings.len()
    &&& i < plan.reference[c].retained.len()
}

proof fn lemma_bound_by_all(step: Seq<StepView>, covered: Seq<usize>, n: int, c: int, i: int) -> (k: int)
    requires
        0 <= c < n,
        0 <= i < step[covered[c] as int].bindings.len(),
        i < step[covered[c] as int].retained.len(),
    ensures
        0 <= k < bound_by_all(step, covered, n).len(),
        bound_by_all(step, covered, n)[k] == step[covered[c] as int].retained[i],
    decreases n,
{
    let before = bound_by_all(step, covered, n - 1);
    if c == n - 1 {
        before.len() + i
    } else {
        lemma_bound_by_all(step, covered, n - 1, c, i)
    }
}

proof fn lemma_bound_by_one(step: Seq<StepView>, covered: Seq<usize>, n: int, k: int) -> (at: (int, int))
    requires
        0 <= k < bound_by_all(step, covered, n).len(),
    ensures
        0 <= at.0 < n,
        0 <= at.1 < step[covered[at.0] as int].bindings.len(),
        at.1 < step[covered[at.0] as int].retained.len(),
        bound_by_all(step, covered, n)[k] == step[covered[at.0] as int].retained[at.1],
    decreases n,
{
    let before = bound_by_all(step, covered, n - 1);
    if k < before.len() {
        lemma_bound_by_one(step, covered, n - 1, k)
    } else {
        (n - 1, k - before.len())
    }
}

/// What is made resident is what the commands bind, each allocation once: the buffer of every
/// binding is there by its allocation, and nothing that no command binds.
pub proof fn law_what_is_bound_is_resident_once(
    plan: IcbPlanView,
    step: Seq<StepView>,
    covered: Seq<usize>,
    positions: nat,
    scope: BarrierScope,
    c: int,
    i: int,
    k: int,
    l: int,
)
    requires
        plan.plans(step, covered, positions, scope),
    ensures
        kept(plan, c, i) ==> exists|m: int|
            0 <= m < plan.resident.len() && (#[trigger] plan.resident[m]).raw
                == plan.reference[c].retained[i].raw,
        0 <= k < plan.resident.len() ==> exists|d: int, j: int| #[trigger]
            kept(plan, d, j) && plan.reference[d].retained[j] == plan.resident[k],
        0 <= k < l < plan.resident.len() ==> plan.resident[k].raw != plan.resident[l].raw,
{
    let n = covered.len() as int;
    let all = bound_by_all(step, covered, n);
    let size = all.len() as int;
    if kept(plan, c, i) {
        let j = lemma_bound_by_all(step, covered, n, c, i);
        let m = lemma_first_of(all, size, j);
        assert(plan.resident[m].raw == plan.reference[c].retained[i].raw);
    }
    if 0 <= k < plan.resident.len() {
        let j = lemma_first_is_one(all, size, k);
        let (d, at) = lemma_bound_by_one(step, covered, n, j);
        assert(kept(plan, d, at));
        if k < l < plan.resident.len() {
            lemma_firsts_differ(all, size, k, l);
        }
    }
}

/// A command has a slot for every index that one of them binds, and none to spare; one slot where
/// nothing is bound.
pub proof fn law_slots_are_what_is_bound(
    plan: IcbPlanView,
    step: Seq<StepView>,
    covered: Seq<usize>,
    positions: nat,
    scope: BarrierScope,
)
    requires
        plan.plans(step, covered, positions, scope),
    ensures
        plan.max_bind >= 1,
        forall|c: int, i: int|
            #![trigger plan.reference[c].bindings[i]]
            0 <= c < plan.reference.len() && 0 <= i < plan.reference[c].bindings.len()
                ==> plan.reference[c].bindings[i].index < plan.max_bind,
        plan.max_bind > 1 ==> exists|c: int, i: int|
            #![trigger plan.reference[c].bindings[i]]
            0 <= c < plan.reference.len() && 0 <= i < plan.reference[c].bindings.len()
                && plan.reference[c].bindings[i].index == plan.max_bind - 1,
{
    assert forall|c: int, i: int|
        #![trigger plan.reference[c].bindings[i]]
        0 <= c < plan.reference.len() && 0 <= i
            < plan.reference[c].bindings.len() implies plan.reference[c].bindings[i].index
        < plan.max_bind by {
        assert(binds_at(step, covered, c, i, plan.reference[c].bindings[i].index as int));
    }
    if plan.max_bind > 1 {
        let (c, i) = choose|c: int, i: int| #[trigger]
            binds_at(step, covered, c, i, plan.max_bind - 1);
        assert(binds_at(step, covered, c, i, plan.max_bind - 1));
        assert(plan.reference[c].bindings[i].index == plan.max_bind - 1);
    }
}

} // verus!
