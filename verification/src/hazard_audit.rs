//! Whether every dependency between dispatches is ordered by something.
//!
//! The device does no dependency analysis of its own here, so an ordering edge that is wrongly
//! dropped is silent corruption. The audit reconstructs the edges from what each dispatch bound,
//! and says of each which primitive orders it: a barrier in the stream, the seam between two
//! encoder sessions, or the barrier that an indirect command carries within its own run.
//!
//! An unknown extent covers the whole allocation, so a pair whose overlap cannot be decided is
//! reported.

use vstd::prelude::*;

use crate::encoder::{BoundRange, HazardKind, HazardKinds};
use crate::text;

verus! {

/// One binding: the bytes it names, and whether they are written.
#[derive(Clone, Copy, PartialEq, Eq, Debug, Structural)]
pub struct AuditBinding {
    pub ptr: usize,
    pub offset: usize,
    pub len: usize,
    pub is_output: bool,
}

impl AuditBinding {
    pub open spec fn range(self) -> BoundRange {
        BoundRange { ptr: self.ptr, offset: self.offset, len: self.len }
    }

    /// The hazard that this binding meets with an earlier one. Two reads never conflict.
    pub open spec fn hazard(self, earlier: AuditBinding) -> Option<HazardKind> {
        if !self.range().spec_overlaps(earlier.range()) {
            None
        } else {
            match (earlier.is_output, self.is_output) {
                (true, false) => Some(HazardKind::Raw),
                (true, true) => Some(HazardKind::Waw),
                (false, true) => Some(HazardKind::War),
                (false, false) => None,
            }
        }
    }

    /// Whether these two bindings can touch the same byte.
    fn overlaps(&self, other: &AuditBinding) -> (b: bool)
        ensures
            b == self.range().spec_overlaps(other.range()),
    {
        let own = BoundRange { ptr: self.ptr, offset: self.offset, len: self.len };
        let theirs = BoundRange { ptr: other.ptr, offset: other.offset, len: other.len };
        own.overlaps(&theirs)
    }

    /// The direction of the hazard from `earlier` to this binding, if the pair needs ordering.
    fn hazard_against(&self, earlier: &AuditBinding) -> (k: Option<HazardKind>)
        ensures
            k == self.hazard(*earlier),
    {
        if !self.overlaps(earlier) {
            return None;
        }
        if earlier.is_output {
            if self.is_output {
                Some(HazardKind::Waw)
            } else {
                Some(HazardKind::Raw)
            }
        } else if self.is_output {
            Some(HazardKind::War)
        } else {
            None
        }
    }
}

/// One dispatch position, with everything that ordering depends on.
#[derive(Clone, Debug)]
pub struct AuditDispatch {
    pub seq: u64,
    pub kernel: String,
    pub bindings: Vec<AuditBinding>,
    /// Whether a barrier was put into the stream before this position.
    pub barrier: bool,
    /// The directions that barrier was owed to.
    pub kinds: HazardKinds,
    /// Whether a barrier was pending here and was held back.
    pub barrier_suppressed: bool,
    /// The encoder session of this position. Positions of different sessions are ordered by the
    /// seam between them.
    pub encoder: u64,
    /// The run of indirect commands that this position replays in, when it is replayed at all.
    pub run: Option<u64>,
    /// Whether this position is the head of its run, whose command orders nothing within the run.
    pub is_run_head: bool,
    /// Whether the indirect command of this position carries a barrier.
    pub icb_barrier: bool,
}

/// A dispatch position as mathematical values.
#[verifier::ext_equal]
pub struct DispatchView {
    pub seq: u64,
    pub kernel: Seq<char>,
    pub bindings: Seq<AuditBinding>,
    pub barrier: bool,
    pub kinds: Set<HazardKind>,
    pub barrier_suppressed: bool,
    pub encoder: u64,
    pub run: Option<u64>,
    pub is_run_head: bool,
    pub icb_barrier: bool,
}

impl View for AuditDispatch {
    type V = DispatchView;

    open spec fn view(&self) -> DispatchView {
        DispatchView {
            seq: self.seq,
            kernel: self.kernel@,
            bindings: self.bindings@,
            barrier: self.barrier,
            kinds: self.kinds@,
            barrier_suppressed: self.barrier_suppressed,
            encoder: self.encoder,
            run: self.run,
            is_run_head: self.is_run_head,
            icb_barrier: self.icb_barrier,
        }
    }
}

pub open spec fn positions(ds: Seq<AuditDispatch>) -> Seq<DispatchView> {
    Seq::new(ds.len(), |i: int| ds[i]@)
}

/// Which primitive ordered an edge.
#[derive(Clone, Copy, PartialEq, Eq, Debug, Structural)]
pub enum Cover {
    /// A barrier in the stream between the two ends.
    Barrier,
    /// The two ends are in different encoder sessions.
    Seam,
    /// The barrier on the reader's indirect command, within one run.
    Icb,
}

/// A dependency edge and what, if anything, orders it.
#[derive(Clone, Debug)]
pub struct Edge {
    pub writer_seq: u64,
    pub reader_seq: u64,
    pub writer_kernel: String,
    pub reader_kernel: String,
    pub kind: HazardKind,
    pub ptr: usize,
    pub offset: usize,
    pub len: usize,
    /// `None` is the finding: an edge that nothing orders.
    pub cover: Option<Cover>,
}

/// An edge as mathematical values.
#[verifier::ext_equal]
pub struct EdgeView {
    pub writer_seq: u64,
    pub reader_seq: u64,
    pub writer_kernel: Seq<char>,
    pub reader_kernel: Seq<char>,
    pub kind: HazardKind,
    pub ptr: usize,
    pub offset: usize,
    pub len: usize,
    pub cover: Option<Cover>,
}

impl View for Edge {
    type V = EdgeView;

    open spec fn view(&self) -> EdgeView {
        EdgeView {
            writer_seq: self.writer_seq,
            reader_seq: self.reader_seq,
            writer_kernel: self.writer_kernel@,
            reader_kernel: self.reader_kernel@,
            kind: self.kind,
            ptr: self.ptr,
            offset: self.offset,
            len: self.len,
            cover: self.cover,
        }
    }
}

pub open spec fn edges_seen(edges: Seq<Edge>) -> Seq<EdgeView> {
    Seq::new(edges.len(), |i: int| edges[i]@)
}

/// Binding `i` of the later dispatch and binding `j` of the earlier one are the first to conflict.
pub open spec fn meet_at(earlier: DispatchView, later: DispatchView, i: int, j: int) -> bool {
    &&& 0 <= i < later.bindings.len()
    &&& 0 <= j < earlier.bindings.len()
    &&& later.bindings[i].hazard(earlier.bindings[j]) is Some
    &&& forall|k: int, l: int|
        0 <= l < earlier.bindings.len() && (0 <= k < i || k == i && l < j) ==> (
        #[trigger] later.bindings[k].hazard(earlier.bindings[l])) is None
}

/// The first conflict between two dispatches: its direction, and the later binding.
pub open spec fn conflict(earlier: DispatchView, later: DispatchView) -> Option<
    (HazardKind, AuditBinding),
> {
    if exists|i: int, j: int| #[trigger] meet_at(earlier, later, i, j) {
        let (i, j) = choose|i: int, j: int| #[trigger] meet_at(earlier, later, i, j);
        Some((later.bindings[i].hazard(earlier.bindings[j])->0, later.bindings[i]))
    } else {
        None
    }
}

/// What orders position `wi` before position `ri`.
pub open spec fn ordered_by(ds: Seq<DispatchView>, wi: int, ri: int) -> Option<Cover> {
    if exists|p: int| wi < p <= ri && (#[trigger] ds[p]).barrier {
        Some(Cover::Barrier)
    } else if ds[wi].encoder != ds[ri].encoder {
        Some(Cover::Seam)
    } else if ds[wi].run is Some && ds[wi].run == ds[ri].run && ds[ri].icb_barrier
        && !ds[ri].is_run_head {
        Some(Cover::Icb)
    } else {
        None
    }
}

/// The first `n` positions, each with position `ri`.
pub open spec fn row(n: int, ri: int) -> Seq<(int, int)> {
    Seq::new(n as nat, |wi: int| (wi, ri))
}

/// Every pair of an earlier and a later position among the first `n`, by the later one first.
pub open spec fn pairs(n: int) -> Seq<(int, int)>
    decreases n,
{
    if n <= 0 {
        Seq::empty()
    } else {
        pairs(n - 1) + row(n - 1, n - 1)
    }
}

/// The pairs that need ordering.
pub open spec fn needing(ds: Seq<DispatchView>) -> spec_fn((int, int)) -> bool {
    |e: (int, int)| conflict(ds[e.0], ds[e.1]) is Some
}

/// Those of one direction.
pub open spec fn directed(ds: Seq<DispatchView>, kind: HazardKind) -> spec_fn((int, int)) -> bool {
    |e: (int, int)|
        conflict(ds[e.0], ds[e.1]) is Some && (conflict(ds[e.0], ds[e.1])->0).0 == kind
}

/// Those that one primitive orders, or nothing.
pub open spec fn covered(ds: Seq<DispatchView>, cover: Option<Cover>) -> spec_fn(
    (int, int),
) -> bool {
    |e: (int, int)| conflict(ds[e.0], ds[e.1]) is Some && ordered_by(ds, e.0, e.1) == cover
}

/// What is reported of an edge that nothing orders.
pub open spec fn finding(ds: Seq<DispatchView>) -> spec_fn((int, int)) -> EdgeView {
    |e: (int, int)|
        EdgeView {
            writer_seq: ds[e.0].seq,
            reader_seq: ds[e.1].seq,
            writer_kernel: ds[e.0].kernel,
            reader_kernel: ds[e.1].kernel,
            kind: (conflict(ds[e.0], ds[e.1])->0).0,
            ptr: (conflict(ds[e.0], ds[e.1])->0).1.ptr,
            offset: (conflict(ds[e.0], ds[e.1])->0).1.offset,
            len: (conflict(ds[e.0], ds[e.1])->0).1.len,
            cover: None,
        }
}

/// The positions with a barrier before them.
pub open spec fn fenced() -> spec_fn(DispatchView) -> bool {
    |d: DispatchView| d.barrier
}

/// Those whose barrier was owed to this direction.
pub open spec fn fenced_for(kind: HazardKind) -> spec_fn(DispatchView) -> bool {
    |d: DispatchView| d.barrier && d.kinds.contains(kind)
}

/// The positions at which a barrier was held back.
pub open spec fn held_back() -> spec_fn(DispatchView) -> bool {
    |d: DispatchView| d.barrier_suppressed
}

/// What one audited region concluded.
#[derive(Clone, Debug)]
pub struct AuditReport {
    pub region: String,
    pub positions: usize,
    pub edges: usize,
    pub edges_raw: usize,
    pub edges_waw: usize,
    pub edges_war: usize,
    pub by_barrier: usize,
    pub by_seam: usize,
    pub by_icb: usize,
    /// The edges that nothing orders. Empty is the passing verdict.
    pub uncovered: Vec<Edge>,
    /// Barriers observed, and how many were owed to each direction. One barrier may be owed to
    /// several.
    pub barriers: usize,
    pub barriers_raw: usize,
    pub barriers_waw: usize,
    pub barriers_war: usize,
    pub barriers_suppressed: usize,
}

/// A report as mathematical values.
#[verifier::ext_equal]
pub struct ReportView {
    pub region: Seq<char>,
    pub positions: nat,
    pub edges: nat,
    pub edges_raw: nat,
    pub edges_waw: nat,
    pub edges_war: nat,
    pub by_barrier: nat,
    pub by_seam: nat,
    pub by_icb: nat,
    pub uncovered: Seq<EdgeView>,
    pub barriers: nat,
    pub barriers_raw: nat,
    pub barriers_waw: nat,
    pub barriers_war: nat,
    pub barriers_suppressed: nat,
}

impl View for AuditReport {
    type V = ReportView;

    open spec fn view(&self) -> ReportView {
        ReportView {
            region: self.region@,
            positions: self.positions as nat,
            edges: self.edges as nat,
            edges_raw: self.edges_raw as nat,
            edges_waw: self.edges_waw as nat,
            edges_war: self.edges_war as nat,
            by_barrier: self.by_barrier as nat,
            by_seam: self.by_seam as nat,
            by_icb: self.by_icb as nat,
            uncovered: edges_seen(self.uncovered@),
            barriers: self.barriers as nat,
            barriers_raw: self.barriers_raw as nat,
            barriers_waw: self.barriers_waw as nat,
            barriers_war: self.barriers_war as nat,
            barriers_suppressed: self.barriers_suppressed as nat,
        }
    }
}

/// What a report says once these positions were looked at for barriers, and these pairs for edges.
pub open spec fn tallied(
    region: Seq<char>,
    ds: Seq<DispatchView>,
    seen: Seq<DispatchView>,
    looked_at: Seq<(int, int)>,
) -> ReportView {
    ReportView {
        region,
        positions: ds.len(),
        edges: looked_at.filter(needing(ds)).len(),
        edges_raw: looked_at.filter(directed(ds, HazardKind::Raw)).len(),
        edges_waw: looked_at.filter(directed(ds, HazardKind::Waw)).len(),
        edges_war: looked_at.filter(directed(ds, HazardKind::War)).len(),
        by_barrier: looked_at.filter(covered(ds, Some(Cover::Barrier))).len(),
        by_seam: looked_at.filter(covered(ds, Some(Cover::Seam))).len(),
        by_icb: looked_at.filter(covered(ds, Some(Cover::Icb))).len(),
        uncovered: looked_at.filter(covered(ds, None)).map_values(finding(ds)),
        barriers: seen.filter(fenced()).len(),
        barriers_raw: seen.filter(fenced_for(HazardKind::Raw)).len(),
        barriers_waw: seen.filter(fenced_for(HazardKind::Waw)).len(),
        barriers_war: seen.filter(fenced_for(HazardKind::War)).len(),
        barriers_suppressed: seen.filter(held_back()).len(),
    }
}

/// The audit of a stream of dispatches: every pair of positions is looked at.
pub open spec fn audited(region: Seq<char>, ds: Seq<DispatchView>) -> ReportView {
    tallied(region, ds, ds, pairs(ds.len() as int))
}

proof fn lemma_meet_once(earlier: DispatchView, later: DispatchView, i: int, j: int, k: int, l: int)
    requires
        meet_at(earlier, later, i, j),
        meet_at(earlier, later, k, l),
    ensures
        i == k,
        j == l,
{
    if i < k || (i == k && j < l) {
        assert(later.bindings[i].hazard(earlier.bindings[j]) is None);
    }
    if k < i || (i == k && l < j) {
        assert(later.bindings[k].hazard(earlier.bindings[l]) is None);
    }
}

/// The hazard between two dispatches, if any, with the later binding it is about. A pair may
/// carry several; any one of them requires ordering, and the first found is reported.
fn hazard_between(earlier: &AuditDispatch, later: &AuditDispatch) -> (c: Option<
    (HazardKind, AuditBinding),
>)
    ensures
        c == conflict(earlier@, later@),
{
    for i in 0..later.bindings.len()
        invariant
            forall|k: int, l: int|
                0 <= l < earlier.bindings@.len() && 0 <= k < i ==> (
                #[trigger] later.bindings@[k].hazard(earlier.bindings@[l])) is None,
    {
        for j in 0..earlier.bindings.len()
            invariant
                i < later.bindings@.len(),
                forall|k: int, l: int|
                    0 <= l < earlier.bindings@.len() && (0 <= k < i || k == i && l < j) ==> (
                    #[trigger] later.bindings@[k].hazard(earlier.bindings@[l])) is None,
        {
            match later.bindings[i].hazard_against(&earlier.bindings[j]) {
                Some(kind) => {
                    proof {
                        assert(meet_at(earlier@, later@, i as int, j as int));
                        let (k, l) = choose|k: int, l: int| #[trigger]
                            meet_at(earlier@, later@, k, l);
                        lemma_meet_once(earlier@, later@, i as int, j as int, k, l);
                    }
                    return Some((kind, later.bindings[i]));
                },
                None => {},
            }
        }
    }
    assert(!exists|i: int, j: int| #[trigger] meet_at(earlier@, later@, i, j));
    None
}

/// The directions partition the edges, and so do the primitives that order them together with
/// what nothing orders.
proof fn lemma_partition(ds: Seq<DispatchView>, s: Seq<(int, int)>)
    ensures
        s.filter(needing(ds)).len() == s.filter(directed(ds, HazardKind::Raw)).len() + s.filter(
            directed(ds, HazardKind::Waw),
        ).len() + s.filter(directed(ds, HazardKind::War)).len(),
        s.filter(needing(ds)).len() == s.filter(covered(ds, Some(Cover::Barrier))).len() + s.filter(
            covered(ds, Some(Cover::Seam)),
        ).len() + s.filter(covered(ds, Some(Cover::Icb))).len() + s.filter(
            covered(ds, None),
        ).len(),
    decreases s.len(),
{
    reveal(Seq::filter);
    if s.len() > 0 {
        let rest = s.drop_last();
        lemma_partition(ds, rest);
        match ordered_by(ds, s.last().0, s.last().1) {
            Some(Cover::Barrier) => {},
            Some(Cover::Seam) => {},
            Some(Cover::Icb) => {},
            None => {},
        }
        match (conflict(ds[s.last().0], ds[s.last().1])->0).0 {
            HazardKind::Raw => {},
            HazardKind::Waw => {},
            HazardKind::War => {},
        }
    }
}

/// What was looked at before a pair is a prefix of all there is to look at.
proof fn lemma_pairs_prefix(ri: int, k: int, n: int)
    requires
        0 <= k <= ri < n,
    ensures
        (pairs(ri) + row(k, ri)).is_prefix_of(pairs(n)),
    decreases n,
{
    if ri == n - 1 {
        assert(pairs(n) =~= pairs(ri) + row(ri, ri));
        assert(row(k, ri) =~= row(ri, ri).take(k));
    } else {
        lemma_pairs_prefix(ri, k, n - 1);
    }
}

/// Looking at one more pair.
proof fn lemma_look(
    region: Seq<char>,
    ds: Seq<DispatchView>,
    seen: Seq<DispatchView>,
    s: Seq<(int, int)>,
    e: (int, int),
)
    ensures
        ({
            let before = tallied(region, ds, seen, s);
            let after = tallied(region, ds, seen, s.push(e));
            let c = conflict(ds[e.0], ds[e.1]);
            let by = ordered_by(ds, e.0, e.1);
            let kind = (c->0).0;
            &&& c is None ==> after == before
            &&& c is Some ==> after == (ReportView {
                edges: before.edges + 1,
                edges_raw: before.edges_raw + (if kind is Raw { 1nat } else { 0 }),
                edges_waw: before.edges_waw + (if kind is Waw { 1nat } else { 0 }),
                edges_war: before.edges_war + (if kind is War { 1nat } else { 0 }),
                by_barrier: before.by_barrier + (if by == Some(Cover::Barrier) { 1nat } else { 0 }),
                by_seam: before.by_seam + (if by == Some(Cover::Seam) { 1nat } else { 0 }),
                by_icb: before.by_icb + (if by == Some(Cover::Icb) { 1nat } else { 0 }),
                uncovered: if by is None {
                    before.uncovered.push(finding(ds)(e))
                } else {
                    before.uncovered
                },
                ..before
            })
        }),
{
    s.lemma_filter_push(e, needing(ds));
    s.lemma_filter_push(e, directed(ds, HazardKind::Raw));
    s.lemma_filter_push(e, directed(ds, HazardKind::Waw));
    s.lemma_filter_push(e, directed(ds, HazardKind::War));
    s.lemma_filter_push(e, covered(ds, Some(Cover::Barrier)));
    s.lemma_filter_push(e, covered(ds, Some(Cover::Seam)));
    s.lemma_filter_push(e, covered(ds, Some(Cover::Icb)));
    s.lemma_filter_push(e, covered(ds, None));
    let before = s.filter(covered(ds, None));
    assert(before.push(e).map_values(finding(ds)) =~= before.map_values(finding(ds)).push(
        finding(ds)(e),
    ));
}

impl Default for AuditReport {
    fn default() -> (r: Self)
        ensures
            r@ == tallied(Seq::empty(), Seq::empty(), Seq::empty(), Seq::empty()),
    {
        let none: Vec<AuditDispatch> = Vec::new();
        proof {
            reveal_strlit("");
            assert(""@ =~= Seq::empty());
            assert(positions(none@) =~= Seq::empty());
        }
        empty_report("", 0, none.as_slice())
    }
}

/// A report that has looked at nothing yet.
fn empty_report(region: &str, positions: usize, dispatches: &[AuditDispatch]) -> (r: AuditReport)
    requires
        positions == dispatches@.len(),
    ensures
        r@ == tallied(region@, self::positions(dispatches@), Seq::empty(), Seq::empty()),
{
    let r = AuditReport {
        region: region.to_owned(),
        positions,
        edges: 0,
        edges_raw: 0,
        edges_waw: 0,
        edges_war: 0,
        by_barrier: 0,
        by_seam: 0,
        by_icb: 0,
        uncovered: Vec::new(),
        barriers: 0,
        barriers_raw: 0,
        barriers_waw: 0,
        barriers_war: 0,
        barriers_suppressed: 0,
    };
    proof {
        reveal(Seq::filter);
        assert(r@ =~= tallied(region@, self::positions(dispatches@), Seq::empty(), Seq::empty()));
    }
    r
}

/// The cover test: every dependency edge, and which primitive orders it.
pub fn cover(region: &str, dispatches: &[AuditDispatch]) -> (rep: AuditReport)
    requires
        audited(region@, positions(dispatches@)).edges <= usize::MAX,
    ensures
        rep@ == audited(region@, positions(dispatches@)),
{
    let n: usize = dispatches.len();
    let mut rep = empty_report(region, n, dispatches);
    let ghost ds = positions(dispatches@);
    assert(ds.take(0) =~= Seq::empty());
    for i in 0..n
        invariant
            n == dispatches@.len(),
            ds == positions(dispatches@),
            rep@ == tallied(region@, ds, ds.take(i as int), Seq::empty()),
    {
        let d = &dispatches[i];
        proof {
            let seen = ds.take(i as int);
            assert(ds.take(i + 1) =~= seen.push(ds[i as int]));
            seen.lemma_filter_len(fenced());
            seen.lemma_filter_len(fenced_for(HazardKind::Raw));
            seen.lemma_filter_len(fenced_for(HazardKind::Waw));
            seen.lemma_filter_len(fenced_for(HazardKind::War));
            seen.lemma_filter_len(held_back());
            seen.lemma_filter_push(ds[i as int], fenced());
            seen.lemma_filter_push(ds[i as int], fenced_for(HazardKind::Raw));
            seen.lemma_filter_push(ds[i as int], fenced_for(HazardKind::Waw));
            seen.lemma_filter_push(ds[i as int], fenced_for(HazardKind::War));
            seen.lemma_filter_push(ds[i as int], held_back());
        }
        if d.barrier {
            rep.barriers += 1;
            if d.kinds.contains(HazardKind::Raw) {
                rep.barriers_raw += 1;
            }
            if d.kinds.contains(HazardKind::Waw) {
                rep.barriers_waw += 1;
            }
            if d.kinds.contains(HazardKind::War) {
                rep.barriers_war += 1;
            }
        }
        if d.barrier_suppressed {
            rep.barriers_suppressed += 1;
        }
        assert(rep@ =~= tallied(region@, ds, ds.take(i + 1), Seq::empty()));
    }
    assert(ds.take(n as int) =~= ds);
    // The last position up to and including `ri` with a barrier before it.
    let mut fence: Option<usize> = None;
    for ri in 0..n
        invariant
            n == dispatches@.len(),
            ds == positions(dispatches@),
            audited(region@, ds).edges <= usize::MAX,
            rep@ == tallied(region@, ds, ds, pairs(ri as int)),
            match fence {
                Some(p) => p < ri && ds[p as int].barrier && forall|q: int|
                    p < q < ri ==> !(#[trigger] ds[q]).barrier,
                None => forall|q: int| 0 <= q < ri ==> !(#[trigger] ds[q]).barrier,
            },
    {
        if dispatches[ri].barrier {
            fence = Some(ri);
        }
        assert(pairs(ri as int) + row(0, ri as int) =~= pairs(ri as int));
        for wi in 0..ri
            invariant
                n == dispatches@.len(),
                ri < n,
                ds == positions(dispatches@),
                audited(region@, ds).edges <= usize::MAX,
                rep@ == tallied(region@, ds, ds, pairs(ri as int) + row(wi as int, ri as int)),
                match fence {
                    Some(p) => p <= ri && ds[p as int].barrier && forall|q: int|
                        p < q <= ri ==> !(#[trigger] ds[q]).barrier,
                    None => forall|q: int| 0 <= q <= ri ==> !(#[trigger] ds[q]).barrier,
                },
        {
            let ghost looked_at = pairs(ri as int) + row(wi as int, ri as int);
            let ghost next = looked_at.push((wi as int, ri as int));
            proof {
                assert(next =~= pairs(ri as int) + row(wi + 1, ri as int));
                lemma_look(region@, ds, ds, looked_at, (wi as int, ri as int));
                lemma_pairs_prefix(ri as int, wi + 1, n as int);
                next.lemma_filter_monotone(pairs(n as int), needing(ds));
                lemma_partition(ds, looked_at);
            }
            let w = &dispatches[wi];
            let r = &dispatches[ri];
            assert(w@ == ds[wi as int] && r@ == ds[ri as int]);
            match hazard_between(w, r) {
                None => {},
                Some((kind, binding)) => {
                    rep.edges += 1;
                    match kind {
                        HazardKind::Raw => {
                            rep.edges_raw += 1;
                        },
                        HazardKind::Waw => {
                            rep.edges_waw += 1;
                        },
                        HazardKind::War => {
                            rep.edges_war += 1;
                        },
                    }
                    let by_fence = match fence {
                        Some(p) => p > wi,
                        None => false,
                    };
                    let same_run = match (w.run, r.run) {
                        (Some(a), Some(b)) => a == b,
                        _ => false,
                    };
                    if by_fence {
                        rep.by_barrier += 1;
                    } else if w.encoder != r.encoder {
                        rep.by_seam += 1;
                    } else if same_run && r.icb_barrier && !r.is_run_head {
                        rep.by_icb += 1;
                    } else {
                        let ghost before = rep.uncovered@;
                        rep.uncovered.push(
                            Edge {
                                writer_seq: w.seq,
                                reader_seq: r.seq,
                                writer_kernel: w.kernel.clone(),
                                reader_kernel: r.kernel.clone(),
                                kind,
                                ptr: binding.ptr,
                                offset: binding.offset,
                                len: binding.len,
                                cover: None,
                            },
                        );
                        proof {
                            assert(finding(ds)((wi as int, ri as int)) == rep.uncovered@.last()@);
                            assert(edges_seen(rep.uncovered@) =~= edges_seen(before).push(
                                rep.uncovered@.last()@,
                            ));
                        }
                    }
                },
            }
            assert(rep@ =~= tallied(region@, ds, ds, next));
        }
        assert(pairs(ri as int) + row(ri as int, ri as int) =~= pairs(ri + 1));
    }
    rep
}

/// How many findings a rendered report lists.
pub const LISTED: usize = 40;

impl EdgeView {
    /// One line on an edge that nothing orders.
    pub open spec fn line(self) -> Seq<char> {
        "    !! #"@ + text::decimal(self.writer_seq as nat) + " "@ + self.writer_kernel + " -> #"@
            + text::decimal(self.reader_seq as nat) + " "@ + self.reader_kernel + "  "@
            + self.kind.spec_name() + " buf=0x"@ + text::hexadecimal(self.ptr as nat) + " off="@
            + text::decimal(self.offset as nat) + " len="@ + text::decimal(self.len as nat) + "\n"@
    }
}

/// The lines of the first `n` findings.
pub open spec fn listed(findings: Seq<EdgeView>, n: int) -> Seq<char>
    decreases n,
{
    if n <= 0 {
        Seq::empty()
    } else {
        listed(findings, n - 1) + findings[n - 1].line()
    }
}

impl ReportView {
    /// What was seen.
    pub open spec fn heading(self) -> Seq<char> {
        "region="@ + self.region + " positions="@ + text::decimal(self.positions) + " edges="@
            + text::decimal(self.edges) + " (raw="@ + text::decimal(self.edges_raw) + " waw="@
            + text::decimal(self.edges_waw) + " war="@ + text::decimal(self.edges_war) + ")\n"@
    }

    /// The barriers by direction.
    pub open spec fn fences(self) -> Seq<char> {
        "  barriers="@ + text::decimal(self.barriers) + " (raw="@ + text::decimal(
            self.barriers_raw,
        ) + " waw="@ + text::decimal(self.barriers_waw) + " war="@ + text::decimal(
            self.barriers_war,
        ) + ") suppressed="@ + text::decimal(self.barriers_suppressed) + "\n"@
    }

    /// What orders the edges.
    pub open spec fn covers(self) -> Seq<char> {
        "  cover: barrier="@ + text::decimal(self.by_barrier) + " seam="@ + text::decimal(
            self.by_seam,
        ) + " icb="@ + text::decimal(self.by_icb) + "  UNCOVERED="@ + text::decimal(
            self.uncovered.len(),
        ) + "\n"@
    }

    /// The first findings, and how many more there are.
    pub open spec fn findings(self) -> Seq<char> {
        if self.uncovered.len() > LISTED {
            listed(self.uncovered, LISTED as int) + "    ... and "@ + text::decimal(
                (self.uncovered.len() - LISTED) as nat,
            ) + " more\n"@
        } else {
            listed(self.uncovered, self.uncovered.len() as int)
        }
    }

    /// The report in words.
    pub open spec fn rendered(self) -> Seq<char> {
        self.heading() + self.fences() + self.covers() + self.findings()
    }
}

impl Edge {
    fn push_line(&self, o: &mut String)
        ensures
            final(o)@ == old(o)@ + self@.line(),
    {
        o.push_str("    !! #");
        text::push_u64(o, self.writer_seq);
        o.push_str(" ");
        o.push_str(self.writer_kernel.as_str());
        o.push_str(" -> #");
        text::push_u64(o, self.reader_seq);
        o.push_str(" ");
        o.push_str(self.reader_kernel.as_str());
        o.push_str("  ");
        o.push_str(self.kind.as_str());
        o.push_str(" buf=0x");
        text::push_hex(o, self.ptr);
        o.push_str(" off=");
        text::push_usize(o, self.offset);
        o.push_str(" len=");
        text::push_usize(o, self.len);
        o.push_str("\n");
        assert(o@ =~= old(o)@ + self@.line());
    }
}

impl AuditReport {
    /// Whether every dependency edge is ordered by something.
    pub fn is_clean(&self) -> (b: bool)
        ensures
            b == (self@.uncovered.len() == 0),
    {
        self.uncovered.len() == 0
    }

    fn push_heading(&self, o: &mut String)
        ensures
            final(o)@ == old(o)@ + self@.heading(),
    {
        o.push_str("region=");
        o.push_str(self.region.as_str());
        o.push_str(" positions=");
        text::push_usize(o, self.positions);
        o.push_str(" edges=");
        text::push_usize(o, self.edges);
        o.push_str(" (raw=");
        text::push_usize(o, self.edges_raw);
        o.push_str(" waw=");
        text::push_usize(o, self.edges_waw);
        o.push_str(" war=");
        text::push_usize(o, self.edges_war);
        o.push_str(")\n");
        assert(o@ =~= old(o)@ + self@.heading());
    }

    fn push_fences(&self, o: &mut String)
        ensures
            final(o)@ == old(o)@ + self@.fences(),
    {
        o.push_str("  barriers=");
        text::push_usize(o, self.barriers);
        o.push_str(" (raw=");
        text::push_usize(o, self.barriers_raw);
        o.push_str(" waw=");
        text::push_usize(o, self.barriers_waw);
        o.push_str(" war=");
        text::push_usize(o, self.barriers_war);
        o.push_str(") suppressed=");
        text::push_usize(o, self.barriers_suppressed);
        o.push_str("\n");
        assert(o@ =~= old(o)@ + self@.fences());
    }

    fn push_covers(&self, o: &mut String)
        ensures
            final(o)@ == old(o)@ + self@.covers(),
    {
        o.push_str("  cover: barrier=");
        text::push_usize(o, self.by_barrier);
        o.push_str(" seam=");
        text::push_usize(o, self.by_seam);
        o.push_str(" icb=");
        text::push_usize(o, self.by_icb);
        o.push_str("  UNCOVERED=");
        text::push_usize(o, self.uncovered.len());
        o.push_str("\n");
        assert(o@ =~= old(o)@ + self@.covers());
    }

    fn push_findings(&self, o: &mut String)
        ensures
            final(o)@ == old(o)@ + self@.findings(),
    {
        let n: usize = self.uncovered.len();
        let shown: usize = if n < LISTED {
            n
        } else {
            LISTED
        };
        for i in 0..shown
            invariant
                shown <= self.uncovered@.len(),
                o@ == old(o)@ + listed(self@.uncovered, i as int),
        {
            self.uncovered[i].push_line(o);
            assert(o@ =~= old(o)@ + listed(self@.uncovered, i + 1));
        }
        if n > LISTED {
            o.push_str("    ... and ");
            text::push_usize(o, n - LISTED);
            o.push_str(" more\n");
        }
        assert(o@ =~= old(o)@ + self@.findings());
    }

    /// A summary for people, with the barriers attributed by direction.
    pub fn render(&self) -> (o: String)
        ensures
            o@ == self@.rendered(),
    {
        let mut o = String::new();
        self.push_heading(&mut o);
        self.push_fences(&mut o);
        self.push_covers(&mut o);
        self.push_findings(&mut o);
        assert(o@ =~= self@.rendered());
        o
    }
}

/// What is recorded between the start of an audit and its end.
#[derive(Debug)]
pub struct AuditState {
    recording: bool,
    region: String,
    dispatches: Vec<AuditDispatch>,
    pending: Vec<AuditBinding>,
    pending_barrier: bool,
    pending_kinds: HazardKinds,
    pending_suppressed: bool,
    encoder: u64,
}

/// The recording as mathematical values.
#[verifier::ext_equal]
pub struct AuditStateView {
    pub recording: bool,
    pub region: Seq<char>,
    pub dispatches: Seq<DispatchView>,
    /// What was bound since the last dispatch.
    pub pending: Seq<AuditBinding>,
    pub pending_barrier: bool,
    pub pending_kinds: Set<HazardKind>,
    pub pending_suppressed: bool,
    /// The current encoder session.
    pub encoder: u64,
}

impl AuditStateView {
    /// The same with nothing waiting for a dispatch.
    pub open spec fn settled(self) -> Self {
        AuditStateView {
            pending: Seq::empty(),
            pending_barrier: false,
            pending_kinds: Set::empty(),
            pending_suppressed: false,
            ..self
        }
    }

    /// The dispatch that consumes what is waiting.
    pub open spec fn next_dispatch(self, kernel: Seq<char>) -> DispatchView {
        DispatchView {
            seq: self.dispatches.len() as u64,
            kernel,
            bindings: self.pending,
            barrier: self.pending_barrier,
            kinds: self.pending_kinds,
            barrier_suppressed: self.pending_suppressed,
            encoder: self.encoder,
            run: None,
            is_run_head: false,
            icb_barrier: false,
        }
    }

    /// The recording after one call.
    pub open spec fn after(self, step: AuditStep) -> Self {
        match step {
            AuditStep::Dispatch { kernel } => if self.recording {
                AuditStateView {
                    dispatches: self.dispatches.push(self.next_dispatch(kernel)),
                    ..self.settled()
                }
            } else {
                self.settled()
            },
            _ if !self.recording => self,
            AuditStep::Binding { range, is_output } => AuditStateView {
                pending: self.pending.push(
                    AuditBinding { ptr: range.ptr, offset: range.offset, len: range.len, is_output },
                ),
                ..self
            },
            AuditStep::Barrier { kinds } => AuditStateView {
                pending_barrier: true,
                pending_kinds: kinds,
                ..self
            },
            AuditStep::BarrierSuppressed => AuditStateView { pending_suppressed: true, ..self },
            AuditStep::EncoderBegin => AuditStateView {
                encoder: (self.encoder + 1) as u64,
                ..self
            },
        }
    }

    /// The call can be made: a session can still be counted.
    pub open spec fn accepts(self, step: AuditStep) -> bool {
        step is EncoderBegin && self.recording ==> self.encoder < u64::MAX
    }

    /// The calls can be made one after another.
    pub open spec fn accepts_all(self, steps: Seq<AuditStep>) -> bool
        decreases steps.len(),
    {
        steps.len() > 0 ==> self.accepts_all(steps.drop_last()) && self.after_all(
            steps.drop_last(),
        ).accepts(steps.last())
    }

    /// The recording after several calls.
    pub open spec fn after_all(self, steps: Seq<AuditStep>) -> Self
        decreases steps.len(),
    {
        if steps.len() == 0 {
            self
        } else {
            self.after_all(steps.drop_last()).after(steps.last())
        }
    }
}

/// A call that the recording sees.
pub enum AuditStep {
    Binding { range: BoundRange, is_output: bool },
    Barrier { kinds: Set<HazardKind> },
    BarrierSuppressed,
    EncoderBegin,
    Dispatch { kernel: Seq<char> },
}

impl View for AuditState {
    type V = AuditStateView;

    closed spec fn view(&self) -> AuditStateView {
        AuditStateView {
            recording: self.recording,
            region: self.region@,
            dispatches: positions(self.dispatches@),
            pending: self.pending@,
            pending_barrier: self.pending_barrier,
            pending_kinds: self.pending_kinds@,
            pending_suppressed: self.pending_suppressed,
            encoder: self.encoder,
        }
    }
}

impl AuditState {
    pub fn new() -> (s: Self)
        ensures
            s@ == (AuditStateView {
                recording: false,
                region: Seq::empty(),
                dispatches: Seq::empty(),
                pending: Seq::empty(),
                pending_barrier: false,
                pending_kinds: Set::empty(),
                pending_suppressed: false,
                encoder: 0,
            }),
    {
        let s = AuditState {
            recording: false,
            region: String::new(),
            dispatches: Vec::new(),
            pending: Vec::new(),
            pending_barrier: false,
            pending_kinds: HazardKinds::none(),
            pending_suppressed: false,
            encoder: 0,
        };
        assert(positions(s.dispatches@) =~= Seq::empty());
        s
    }

    /// How many dispatches the open audit has recorded.
    pub fn recorded(&self) -> (n: usize)
        ensures
            n == self@.dispatches.len(),
    {
        self.dispatches.len()
    }

    /// How many encoder sessions have begun while an audit was open.
    pub fn sessions(&self) -> (n: u64)
        ensures
            n == self@.encoder,
    {
        self.encoder
    }
}

/// Start auditing, labelling what follows and discarding anything prior.
pub fn begin(state: &mut AuditState, region: &str)
    ensures
        final(state)@ == (AuditStateView {
            recording: true,
            region: region@,
            dispatches: Seq::empty(),
            ..old(state)@.settled()
        }),
{
    state.recording = true;
    state.region = region.to_owned();
    state.dispatches = Vec::new();
    state.pending = Vec::new();
    state.pending_barrier = false;
    state.pending_kinds = HazardKinds::none();
    state.pending_suppressed = false;
    assert(positions(state.dispatches@) =~= Seq::empty());
}

/// What the executor replays, assigned to positions: the first `n` entries, each a position, its
/// run, whether it is the head of the run, and whether its command carries a barrier.
pub open spec fn assigned(
    ds: Seq<DispatchView>,
    runs: Seq<(usize, u64, bool, bool)>,
    n: int,
) -> Seq<DispatchView>
    decreases n,
{
    if n <= 0 {
        ds
    } else {
        let before = assigned(ds, runs, n - 1);
        let (pos, run, is_head, icb_barrier) = runs[n - 1];
        if pos < before.len() {
            before.update(
                pos as int,
                DispatchView {
                    run: Some(run),
                    is_run_head: is_head,
                    icb_barrier,
                    ..before[pos as int]
                },
            )
        } else {
            before
        }
    }
}

/// Stop auditing and run the cover test over what was recorded.
///
/// `runs` gives `(position, run, is head, carries a barrier)` for every position that the executor
/// replays, and is empty where every dispatch is encoded anew.
pub fn finish(state: &mut AuditState, runs: &[(usize, u64, bool, bool)]) -> (rep: AuditReport)
    requires
        audited(
            old(state)@.region,
            assigned(old(state)@.dispatches, runs@, runs@.len() as int),
        ).edges <= usize::MAX,
    ensures
        rep@ == audited(
            old(state)@.region,
            assigned(old(state)@.dispatches, runs@, runs@.len() as int),
        ),
        final(state)@ == (AuditStateView {
            recording: false,
            dispatches: Seq::empty(),
            ..old(state)@
        }),
{
    state.recording = false;
    let mut dispatches: Vec<AuditDispatch> = Vec::new();
    std::mem::swap(&mut dispatches, &mut state.dispatches);
    assert(positions(state.dispatches@) =~= Seq::empty());
    let ghost ds = old(state)@.dispatches;
    for i in 0..runs.len()
        invariant
            positions(dispatches@) == assigned(ds, runs@, i as int),
    {
        let (pos, run, is_head, icb_barrier) = runs[i];
        if pos < dispatches.len() {
            dispatches[pos].run = Some(run);
            dispatches[pos].is_run_head = is_head;
            dispatches[pos].icb_barrier = icb_barrier;
        }
        assert(positions(dispatches@) =~= assigned(ds, runs@, i + 1));
    }
    cover(state.region.as_str(), dispatches.as_slice())
}

/// Record a binding against the dispatch that will consume it.
pub fn record_binding(state: &mut AuditState, range: &BoundRange, is_output: bool)
    ensures
        final(state)@ == old(state)@.after(AuditStep::Binding { range: *range, is_output }),
{
    if !state.recording {
        return;
    }
    state.pending.push(
        AuditBinding { ptr: range.ptr, offset: range.offset, len: range.len, is_output },
    );
}

/// Record that a barrier was emitted, and which directions it was owed to.
pub fn record_barrier(state: &mut AuditState, kinds: HazardKinds)
    ensures
        final(state)@ == old(state)@.after(AuditStep::Barrier { kinds: kinds@ }),
{
    if !state.recording {
        return;
    }
    state.pending_barrier = true;
    state.pending_kinds = kinds;
}

/// Record that a pending barrier was held back. It orders nothing: the question is whether
/// something else covers what it would have ordered.
pub fn record_barrier_suppressed(state: &mut AuditState)
    ensures
        final(state)@ == old(state)@.after(AuditStep::BarrierSuppressed),
{
    if !state.recording {
        return;
    }
    state.pending_suppressed = true;
}

/// Record that a new encoder session began, which resets hazard state.
pub fn record_encoder_begin(state: &mut AuditState)
    requires
        old(state)@.accepts(AuditStep::EncoderBegin),
    ensures
        final(state)@ == old(state)@.after(AuditStep::EncoderBegin),
{
    if !state.recording {
        return;
    }
    state.encoder += 1;
}

/// Record a dispatch, consuming the bindings and barriers before it. They are dropped where
/// nothing is recorded, so that an audit begun in the middle of a stream does not attribute them
/// to its first dispatch.
pub fn record_dispatch(state: &mut AuditState, kernel: &str)
    ensures
        final(state)@ == old(state)@.after(AuditStep::Dispatch { kernel: kernel@ }),
{
    if !state.recording {
        state.pending = Vec::new();
        state.pending_barrier = false;
        state.pending_suppressed = false;
        state.pending_kinds = HazardKinds::none();
        return;
    }
    let seq: u64 = state.dispatches.len() as u64;
    let mut bindings: Vec<AuditBinding> = Vec::new();
    std::mem::swap(&mut bindings, &mut state.pending);
    let barrier = state.pending_barrier;
    state.pending_barrier = false;
    let barrier_suppressed = state.pending_suppressed;
    state.pending_suppressed = false;
    let kinds = state.pending_kinds.take();
    let ghost before = state.dispatches@;
    state.dispatches.push(
        AuditDispatch {
            seq,
            kernel: kernel.to_owned(),
            bindings,
            barrier,
            kinds,
            barrier_suppressed,
            encoder: state.encoder,
            run: None,
            is_run_head: false,
            icb_barrier: false,
        },
    );
    assert(positions(state.dispatches@) =~= positions(before).push(state.dispatches@.last()@));
    assert(state@ =~= AuditStateView {
        dispatches: old(state)@.dispatches.push(old(state)@.next_dispatch(kernel@)),
        ..old(state)@.settled()
    });
}

proof fn lemma_pairs_len(n: int)
    requires
        0 <= n,
    ensures
        2 * pairs(n).len() == n * (n - 1),
    decreases n,
{
    if n > 0 {
        lemma_pairs_len(n - 1);
        assert(n * (n - 1) == (n - 1) * (n - 1 - 1) + 2 * (n - 1)) by (nonlinear_arith);
    } else {
        assert(n * (n - 1) == 0) by (nonlinear_arith)
            requires
                n == 0,
        ;
    }
}

/// There are at most as many edges as pairs of positions, which is what bounds the counts of a
/// report: a stream of up to 65536 positions can always be audited.
pub proof fn law_edges_are_pairs_of_positions(region: Seq<char>, ds: Seq<DispatchView>)
    ensures
        2 * audited(region, ds).edges <= ds.len() * (ds.len() - 1),
        ds.len() <= 65536 ==> audited(region, ds).edges <= usize::MAX,
{
    let n = ds.len() as int;
    lemma_pairs_len(n);
    pairs(n).lemma_filter_len(needing(ds));
    if n <= 65536 {
        assert(n * (n - 1) <= 65536 * 65535) by (nonlinear_arith)
            requires
                0 <= n <= 65536,
        ;
    }
}

/// Every edge has one direction.
pub proof fn law_directions_partition_the_edges(region: Seq<char>, ds: Seq<DispatchView>)
    ensures
        ({
            let r = audited(region, ds);
            r.edges == r.edges_raw + r.edges_waw + r.edges_war
        }),
{
    lemma_partition(ds, pairs(ds.len() as int));
}

/// Every edge is ordered by one primitive or is reported.
pub proof fn law_every_edge_is_covered_or_reported(region: Seq<char>, ds: Seq<DispatchView>)
    ensures
        ({
            let r = audited(region, ds);
            r.edges == r.by_barrier + r.by_seam + r.by_icb + r.uncovered.len()
        }),
{
    lemma_partition(ds, pairs(ds.len() as int));
}

proof fn lemma_some_meeting(earlier: DispatchView, later: DispatchView, i: int, j: int)
    requires
        0 <= i < later.bindings.len(),
        0 <= j < earlier.bindings.len(),
        later.bindings[i].hazard(earlier.bindings[j]) is Some,
    ensures
        conflict(earlier, later) is Some,
    decreases i, j,
{
    if exists|k: int, l: int|
        0 <= l < earlier.bindings.len() && (0 <= k < i || k == i && l < j) && (
        #[trigger] later.bindings[k].hazard(earlier.bindings[l])) is Some {
        let (k, l) = choose|k: int, l: int|
            0 <= l < earlier.bindings.len() && (0 <= k < i || k == i && l < j) && (
            #[trigger] later.bindings[k].hazard(earlier.bindings[l])) is Some;
        lemma_some_meeting(earlier, later, k, l);
    } else {
        assert(meet_at(earlier, later, i, j));
    }
}

/// Two dispatches need ordering exactly where a binding of one can touch the bytes of a binding of
/// the other and one of the two writes.
pub proof fn law_an_edge_is_an_overlap_with_a_write(earlier: DispatchView, later: DispatchView)
    ensures
        conflict(earlier, later) is Some <==> exists|i: int, j: int|
            0 <= i < later.bindings.len() && 0 <= j < earlier.bindings.len()
                && #[trigger] later.bindings[i].range().spec_overlaps(earlier.bindings[j].range())
                && (later.bindings[i].is_output || earlier.bindings[j].is_output),
{
    if conflict(earlier, later) is Some {
        let (i, j) = choose|i: int, j: int| #[trigger] meet_at(earlier, later, i, j);
        assert(later.bindings[i].range().spec_overlaps(earlier.bindings[j].range()));
    }
    if exists|i: int, j: int|
        0 <= i < later.bindings.len() && 0 <= j < earlier.bindings.len()
            && #[trigger] later.bindings[i].range().spec_overlaps(earlier.bindings[j].range()) && (
        later.bindings[i].is_output || earlier.bindings[j].is_output) {
        let (i, j) = choose|i: int, j: int|
            0 <= i < later.bindings.len() && 0 <= j < earlier.bindings.len()
                && #[trigger] later.bindings[i].range().spec_overlaps(earlier.bindings[j].range())
                && (later.bindings[i].is_output || earlier.bindings[j].is_output);
        lemma_some_meeting(earlier, later, i, j);
    }
}

/// Two dispatches that only read are never an edge.
pub proof fn law_reads_need_no_ordering(earlier: DispatchView, later: DispatchView)
    requires
        forall|i: int| 0 <= i < earlier.bindings.len() ==> !(#[trigger] earlier.bindings[i]).is_output,
        forall|i: int| 0 <= i < later.bindings.len() ==> !(#[trigger] later.bindings[i]).is_output,
    ensures
        conflict(earlier, later) is None,
{
    law_an_edge_is_an_overlap_with_a_write(earlier, later);
}

proof fn lemma_pairs_contain(n: int, e: (int, int))
    requires
        0 <= n,
    ensures
        pairs(n).contains(e) <==> 0 <= e.0 < e.1 < n,
    decreases n,
{
    if n > 0 {
        lemma_pairs_contain(n - 1, e);
        let before = pairs(n - 1);
        let last = row(n - 1, n - 1);
        if before.contains(e) {
            let k = choose|k: int| 0 <= k < before.len() && before[k] == e;
            assert(pairs(n)[k] == e);
        }
        if 0 <= e.0 && e.0 < e.1 && e.1 == n - 1 {
            assert(pairs(n)[before.len() + e.0] == e);
        }
        if pairs(n).contains(e) {
            let k = choose|k: int| 0 <= k < pairs(n).len() && pairs(n)[k] == e;
            if k < before.len() {
                assert(before[k] == e);
            } else {
                assert(last[k - before.len()] == e);
            }
        }
    }
}

/// An audit finds nothing exactly where every later position that needs ordering
/// after an earlier one is ordered by something.
pub proof fn law_clean_means_every_edge_is_ordered(region: Seq<char>, ds: Seq<DispatchView>)
    ensures
        audited(region, ds).uncovered.len() == 0 <==> forall|wi: int, ri: int|
            0 <= wi < ri < ds.len() && conflict(ds[wi], ds[ri]) is Some ==> (
            #[trigger] ordered_by(ds, wi, ri)) is Some,
{
    let all = pairs(ds.len() as int);
    let found = all.filter(covered(ds, None));
    if found.len() == 0 {
        assert forall|wi: int, ri: int|
            0 <= wi < ri < ds.len() && conflict(ds[wi], ds[ri]) is Some implies (
        #[trigger] ordered_by(ds, wi, ri)) is Some by {
            lemma_pairs_contain(ds.len() as int, (wi, ri));
            let k = choose|k: int| 0 <= k < all.len() && all[k] == (wi, ri);
            if ordered_by(ds, wi, ri) is None {
                all.lemma_filter_contains(covered(ds, None), k);
            }
        }
    } else {
        let e = found[0];
        all.lemma_filter_pred(covered(ds, None), 0);
        lemma_filtered_from(all, covered(ds, None), 0);
        lemma_pairs_contain(ds.len() as int, e);
        assert(ordered_by(ds, e.0, e.1) is None);
    }
}

proof fn lemma_filtered_from<A>(s: Seq<A>, p: spec_fn(A) -> bool, i: int)
    requires
        0 <= i < s.filter(p).len(),
    ensures
        s.contains(s.filter(p)[i]),
    decreases s.len(),
{
    reveal(Seq::filter);
    if s.len() > 0 {
        let rest = s.drop_last();
        if i < rest.filter(p).len() {
            lemma_filtered_from(rest, p, i);
            let k = choose|k: int| 0 <= k < rest.len() && rest[k] == rest.filter(p)[i];
            assert(s[k] == s.filter(p)[i]);
        } else {
            assert(s[s.len() - 1] == s.filter(p)[i]);
        }
    }
}

/// Sessions are numbered in order.
proof fn lemma_sessions(s: AuditStateView, steps: Seq<AuditStep>)
    requires
        s.recording,
        s.accepts_all(steps),
    ensures
        s.after_all(steps).recording,
        s.after_all(steps).region == s.region,
        s.encoder <= s.after_all(steps).encoder,
        s.after_all(steps).dispatches.len() >= s.dispatches.len(),
        forall|i: int|
            0 <= i < s.dispatches.len() ==> s.after_all(steps).dispatches[i] == (
            #[trigger] s.dispatches[i]),
        forall|i: int|
            s.dispatches.len() <= i < s.after_all(steps).dispatches.len() ==> s.encoder <= (
            #[trigger] s.after_all(steps).dispatches[i]).encoder <= s.after_all(steps).encoder,
    decreases steps.len(),
{
    if steps.len() > 0 {
        lemma_sessions(s, steps.drop_last());
    }
}

/// The positions from `m` on are one session further on, and nothing else sets the two apart.
spec fn moved_on(ds: Seq<DispatchView>, es: Seq<DispatchView>, m: int) -> bool {
    &&& ds.len() == es.len()
    &&& forall|i: int| 0 <= i < ds.len() && i < m ==> #[trigger] es[i] == ds[i]
    &&& forall|i: int|
        m <= i < ds.len() ==> (#[trigger] es[i]).encoder == ds[i].encoder + 1 && es[i] == (
        DispatchView { encoder: es[i].encoder, ..ds[i] })
}

/// Two recordings that differ by a session begun after `m` dispatches differ by it afterwards.
proof fn lemma_moved_on(a: AuditStateView, steps: Seq<AuditStep>)
    requires
        a.recording,
        a.accepts(AuditStep::EncoderBegin),
        a.after(AuditStep::EncoderBegin).accepts_all(steps),
    ensures
        ({
            let b = a.after(AuditStep::EncoderBegin);
            let m = a.dispatches.len() as int;
            &&& moved_on(a.after_all(steps).dispatches, b.after_all(steps).dispatches, m)
            &&& b.after_all(steps).encoder == a.after_all(steps).encoder + 1
            &&& b.after_all(steps) == (AuditStateView {
                encoder: b.after_all(steps).encoder,
                dispatches: b.after_all(steps).dispatches,
                ..a.after_all(steps)
            })
            &&& a.after_all(steps).recording
            &&& a.after_all(steps).dispatches.len() >= m
        }),
    decreases steps.len(),
{
    let b = a.after(AuditStep::EncoderBegin);
    if steps.len() > 0 {
        let less = steps.drop_last();
        lemma_moved_on(a, less);
        let x = a.after_all(less);
        let y = b.after_all(less);
        if let AuditStep::Dispatch { kernel } = steps.last() {
            assert(y.next_dispatch(kernel) =~= DispatchView {
                encoder: y.encoder,
                ..x.next_dispatch(kernel)
            });
        }
        assert(b.after_all(steps) =~= AuditStateView {
            encoder: b.after_all(steps).encoder,
            dispatches: b.after_all(steps).dispatches,
            ..a.after_all(steps)
        });
    }
}

/// What the executor replays changes neither sessions, barriers nor bindings.
proof fn lemma_assigned(ds: Seq<DispatchView>, runs: Seq<(usize, u64, bool, bool)>, n: int)
    requires
        n <= runs.len(),
    ensures
        assigned(ds, runs, n).len() == ds.len(),
        forall|i: int|
            0 <= i < ds.len() ==> (#[trigger] assigned(ds, runs, n)[i]).encoder == ds[i].encoder
                && assigned(ds, runs, n)[i].barrier == ds[i].barrier && assigned(
                ds,
                runs,
                n,
            )[i].bindings == ds[i].bindings,
    decreases n,
{
    if n > 0 {
        lemma_assigned(ds, runs, n - 1);
    }
}

proof fn lemma_assigned_alike(
    ds: Seq<DispatchView>,
    es: Seq<DispatchView>,
    m: int,
    runs: Seq<(usize, u64, bool, bool)>,
    n: int,
)
    requires
        0 <= m,
        moved_on(ds, es, m),
        n <= runs.len(),
    ensures
        moved_on(assigned(ds, runs, n), assigned(es, runs, n), m),
    decreases n,
{
    if n > 0 {
        lemma_assigned_alike(ds, es, m, runs, n - 1);
        let x = assigned(ds, runs, n);
        let y = assigned(es, runs, n);
        let x0 = assigned(ds, runs, n - 1);
        let y0 = assigned(es, runs, n - 1);
        assert forall|i: int| 0 <= i < x.len() && i < m implies #[trigger] y[i] == x[i] by {
            assert(y0[i] == x0[i]);
        }
        assert forall|i: int| m <= i < x.len() implies (#[trigger] y[i]).encoder == x[i].encoder + 1
            && y[i] == (DispatchView { encoder: y[i].encoder, ..x[i] }) by {
            assert(y0[i].encoder == x0[i].encoder + 1);
        }
    }
}

proof fn lemma_judged_alike(ds: Seq<DispatchView>, es: Seq<DispatchView>, m: int, wi: int, ri: int)
    requires
        moved_on(ds, es, m),
        0 <= wi < ri < ds.len(),
    ensures
        conflict(es[wi], es[ri]) == conflict(ds[wi], ds[ri]),
        barred(es, wi, ri) == barred(ds, wi, ri),
        ri < m || m <= wi ==> ordered_by(es, wi, ri) == ordered_by(ds, wi, ri),
{
    assert(es[wi].bindings == ds[wi].bindings);
    assert(es[ri].bindings == ds[ri].bindings);
    assert forall|i: int, j: int| #[trigger]
        meet_at(es[wi], es[ri], i, j) <==> meet_at(ds[wi], ds[ri], i, j) by {}
    if exists|i: int, j: int| #[trigger] meet_at(ds[wi], ds[ri], i, j) {
        let (i, j) = choose|i: int, j: int| #[trigger] meet_at(ds[wi], ds[ri], i, j);
        assert(meet_at(es[wi], es[ri], i, j));
        let (k, l) = choose|k: int, l: int| #[trigger] meet_at(es[wi], es[ri], k, l);
        lemma_meet_once(ds[wi], ds[ri], i, j, k, l);
    } else if exists|i: int, j: int| #[trigger] meet_at(es[wi], es[ri], i, j) {
        let (i, j) = choose|i: int, j: int| #[trigger] meet_at(es[wi], es[ri], i, j);
        assert(meet_at(ds[wi], ds[ri], i, j));
    }
    assert forall|p: int| 0 <= p < ds.len() implies (#[trigger] es[p]).barrier
        == ds[p].barrier by {}
    if exists|p: int| wi < p <= ri && (#[trigger] ds[p]).barrier {
        let p = choose|p: int| wi < p <= ri && (#[trigger] ds[p]).barrier;
        assert(es[p].barrier);
    } else if exists|p: int| wi < p <= ri && (#[trigger] es[p]).barrier {
        let p = choose|p: int| wi < p <= ri && (#[trigger] es[p]).barrier;
        assert(ds[p].barrier);
    }
}

/// Position `wi` stands before a session that begins at position `m`, position `ri` after it.
pub open spec fn across(m: int, wi: int, ri: int) -> bool {
    wi < m <= ri
}

/// A barrier stands between the two ends.
pub open spec fn barred(ds: Seq<DispatchView>, wi: int, ri: int) -> bool {
    exists|p: int| wi < p <= ri && (#[trigger] ds[p]).barrier
}

/// The edges from before position `m` to after it that no barrier covers.
pub open spec fn seams_at(ds: Seq<DispatchView>, m: int) -> spec_fn((int, int)) -> bool {
    |e: (int, int)|
        across(m, e.0, e.1) && conflict(ds[e.0], ds[e.1]) is Some && !barred(ds, e.0, e.1)
}

/// The edges with both ends on one side of position `m` that one primitive orders, or nothing.
pub open spec fn beside(ds: Seq<DispatchView>, m: int, cover: Option<Cover>) -> spec_fn(
    (int, int),
) -> bool {
    |e: (int, int)| !across(m, e.0, e.1) && covered(ds, cover)(e)
}

/// Beginning an encoder session separates what was dispatched before from what is dispatched
/// after. Of an audit that begins with `s`, in which a session begins after `before` and `later`
/// follows, against the same calls without that session:
///
/// - The edges are the same, and so is what a barrier covers.
/// - Every edge from before it to after it that no barrier covers is counted as ordered by a seam,
///   none of them as ordered by an indirect command, and none is reported.
/// - Every edge on one side of it is judged as if no session had begun.
pub proof fn law_a_session_separates(
    s: AuditStateView,
    before: Seq<AuditStep>,
    later: Seq<AuditStep>,
    runs: Seq<(usize, u64, bool, bool)>,
)
    requires
        s.recording,
        s.dispatches.len() == 0,
        s.accepts_all(before),
        s.after_all(before).accepts(AuditStep::EncoderBegin),
        s.after_all(before).after(AuditStep::EncoderBegin).accepts_all(later),
    ensures
        ({
            let met = s.after_all(before);
            let m = met.dispatches.len() as int;
            let without = met.after_all(later);
            let with = met.after(AuditStep::EncoderBegin).after_all(later);
            let joined = assigned(without.dispatches, runs, runs.len() as int);
            let parted = assigned(with.dispatches, runs, runs.len() as int);
            let all = pairs(joined.len() as int);
            &&& forall|wi: int, ri: int|
                0 <= wi < m <= ri < parted.len() ==> (#[trigger] parted[wi]).encoder < (
                #[trigger] parted[ri]).encoder
            &&& audited(with.region, parted) == (ReportView {
                by_seam: all.filter(seams_at(joined, m)).len() + all.filter(
                    beside(joined, m, Some(Cover::Seam)),
                ).len(),
                by_icb: all.filter(beside(joined, m, Some(Cover::Icb))).len(),
                uncovered: all.filter(beside(joined, m, None)).map_values(finding(joined)),
                ..audited(without.region, joined)
            })
        }),
{
    let met = s.after_all(before);
    let begun = met.after(AuditStep::EncoderBegin);
    let m = met.dispatches.len() as int;
    let n = runs.len() as int;
    let ds = met.after_all(later).dispatches;
    let es = begun.after_all(later).dispatches;
    let joined = assigned(ds, runs, n);
    let parted = assigned(es, runs, n);
    lemma_sessions(s, before);
    lemma_sessions(begun, later);
    lemma_moved_on(met, later);
    lemma_assigned(ds, runs, n);
    lemma_assigned(es, runs, n);
    lemma_assigned_alike(ds, es, m, runs, n);
    assert forall|wi: int, ri: int| 0 <= wi < m <= ri < parted.len() implies (
    #[trigger] parted[wi]).encoder < (#[trigger] parted[ri]).encoder by {
        assert(es[wi] == begun.dispatches[wi]);
        assert(s.after_all(before).dispatches[wi].encoder <= met.encoder);
        assert(begun.after_all(later).dispatches[ri].encoder >= begun.encoder);
    }
    lemma_parted_report(met.region, joined, parted, m);
}

/// What an audit makes of a stream in which a session begins at position `m`, against the same
/// stream without it.
proof fn lemma_parted_report(
    region: Seq<char>,
    joined: Seq<DispatchView>,
    parted: Seq<DispatchView>,
    m: int,
)
    requires
        0 <= m,
        moved_on(joined, parted, m),
        forall|wi: int, ri: int|
            0 <= wi < m <= ri < parted.len() ==> (#[trigger] parted[wi]).encoder < (
            #[trigger] parted[ri]).encoder,
    ensures
        ({
            let all = pairs(joined.len() as int);
            audited(region, parted) == (ReportView {
                by_seam: all.filter(seams_at(joined, m)).len() + all.filter(
                    beside(joined, m, Some(Cover::Seam)),
                ).len(),
                by_icb: all.filter(beside(joined, m, Some(Cover::Icb))).len(),
                uncovered: all.filter(beside(joined, m, None)).map_values(finding(joined)),
                ..audited(region, joined)
            })
        }),
{
    let n = joined.len() as int;
    let all = pairs(n);
    assert forall|e: (int, int)| #[trigger] all.contains(e) implies judged_across(
        joined,
        parted,
        m,
        e,
    ) by {
        lemma_pairs_contain(n, e);
        lemma_judged_alike(joined, parted, m, e.0, e.1);
        if across(m, e.0, e.1) {
            assert(parted[e.0].encoder < parted[e.1].encoder);
        }
    }
    lemma_same_filter(all, needing(joined), needing(parted));
    lemma_same_filter(all, directed(joined, HazardKind::Raw), directed(parted, HazardKind::Raw));
    lemma_same_filter(all, directed(joined, HazardKind::Waw), directed(parted, HazardKind::Waw));
    lemma_same_filter(all, directed(joined, HazardKind::War), directed(parted, HazardKind::War));
    lemma_same_filter(
        all,
        covered(joined, Some(Cover::Barrier)),
        covered(parted, Some(Cover::Barrier)),
    );
    lemma_same_filter(
        all,
        beside(joined, m, Some(Cover::Icb)),
        covered(parted, Some(Cover::Icb)),
    );
    lemma_same_filter(all, beside(joined, m, None), covered(parted, None));
    lemma_split_filter(
        all,
        covered(parted, Some(Cover::Seam)),
        seams_at(joined, m),
        beside(joined, m, Some(Cover::Seam)),
    );
    let found = all.filter(covered(parted, None));
    assert(found.map_values(finding(parted)) =~= found.map_values(finding(joined))) by {
        assert forall|k: int| 0 <= k < found.len() implies finding(parted)(#[trigger] found[k])
            == finding(joined)(found[k]) by {
            lemma_filtered_from(all, covered(parted, None), k);
            assert(judged_across(joined, parted, m, found[k]));
            lemma_pairs_contain(n, found[k]);
            let e = found[k];
            assert(parted[e.0].seq == joined[e.0].seq && parted[e.0].kernel == joined[e.0].kernel);
            assert(parted[e.1].seq == joined[e.1].seq && parted[e.1].kernel == joined[e.1].kernel);
        }
    }
    assert forall|i: int| 0 <= i < n implies (#[trigger] parted[i]).barrier == joined[i].barrier
        && parted[i].kinds == joined[i].kinds && parted[i].barrier_suppressed
        == joined[i].barrier_suppressed by {}
    lemma_as_many(joined, parted, fenced());
    lemma_as_many(joined, parted, fenced_for(HazardKind::Raw));
    lemma_as_many(joined, parted, fenced_for(HazardKind::Waw));
    lemma_as_many(joined, parted, fenced_for(HazardKind::War));
    lemma_as_many(joined, parted, held_back());
}

/// How one edge is judged with a session that begins at position `m` and without it.
spec fn judged_across(
    joined: Seq<DispatchView>,
    parted: Seq<DispatchView>,
    m: int,
    e: (int, int),
) -> bool {
    &&& conflict(parted[e.0], parted[e.1]) == conflict(joined[e.0], joined[e.1])
    &&& barred(parted, e.0, e.1) == barred(joined, e.0, e.1)
    &&& ordered_by(parted, e.0, e.1) == (if !across(m, e.0, e.1) {
        ordered_by(joined, e.0, e.1)
    } else if barred(joined, e.0, e.1) {
        Some(Cover::Barrier)
    } else {
        Some(Cover::Seam)
    })
}

proof fn lemma_same_filter<A>(s: Seq<A>, p: spec_fn(A) -> bool, q: spec_fn(A) -> bool)
    requires
        forall|a: A| #[trigger] s.contains(a) ==> p(a) == q(a),
    ensures
        s.filter(p) == s.filter(q),
    decreases s.len(),
{
    reveal(Seq::filter);
    if s.len() > 0 {
        let rest = s.drop_last();
        assert forall|a: A| #[trigger] rest.contains(a) implies p(a) == q(a) by {
            let k = choose|k: int| 0 <= k < rest.len() && rest[k] == a;
            assert(s[k] == a);
            assert(s.contains(a));
        }
        assert(s[s.len() - 1] == s.last());
        assert(s.contains(s.last()));
        lemma_same_filter(rest, p, q);
    }
}

proof fn lemma_split_filter<A>(
    s: Seq<A>,
    p: spec_fn(A) -> bool,
    q: spec_fn(A) -> bool,
    r: spec_fn(A) -> bool,
)
    requires
        forall|a: A| #[trigger] s.contains(a) ==> p(a) == (q(a) || r(a)) && !(q(a) && r(a)),
    ensures
        s.filter(p).len() == s.filter(q).len() + s.filter(r).len(),
    decreases s.len(),
{
    reveal(Seq::filter);
    if s.len() > 0 {
        let rest = s.drop_last();
        assert forall|a: A| #[trigger] rest.contains(a) implies p(a) == (q(a) || r(a)) && !(q(a)
            && r(a)) by {
            let k = choose|k: int| 0 <= k < rest.len() && rest[k] == a;
            assert(s[k] == a);
            assert(s.contains(a));
        }
        assert(s[s.len() - 1] == s.last());
        assert(s.contains(s.last()));
        lemma_split_filter(rest, p, q, r);
    }
}

proof fn lemma_as_many(
    s: Seq<DispatchView>,
    t: Seq<DispatchView>,
    p: spec_fn(DispatchView) -> bool,
)
    requires
        s.len() == t.len(),
        forall|i: int| 0 <= i < s.len() ==> p(#[trigger] s[i]) == p(t[i]),
    ensures
        s.filter(p).len() == t.filter(p).len(),
    decreases s.len(),
{
    reveal(Seq::filter);
    if s.len() > 0 {
        let a = s.drop_last();
        let b = t.drop_last();
        assert forall|i: int| 0 <= i < a.len() implies p(#[trigger] a[i]) == p(b[i]) by {
            assert(a[i] == s[i] && b[i] == t[i]);
        }
        assert(p(s[s.len() - 1]) == p(t[t.len() - 1]));
        lemma_as_many(a, b, p);
    }
}

/// An edge that begins before a session and ends after it, with no barrier between its ends, is
/// one of those that an audit counts as ordered by a seam, and none of those that it counts as
/// ordered by an indirect command or reports.
pub proof fn law_an_edge_across_a_session_is_a_seam(
    region: Seq<char>,
    ds: Seq<DispatchView>,
    wi: int,
    ri: int,
)
    requires
        0 <= wi < ri < ds.len(),
        ds[wi].encoder != ds[ri].encoder,
        conflict(ds[wi], ds[ri]) is Some,
        !barred(ds, wi, ri),
    ensures
        ({
            let all = pairs(ds.len() as int);
            let seams = all.filter(covered(ds, Some(Cover::Seam)));
            &&& seams.contains((wi, ri))
            &&& audited(region, ds).by_seam == seams.len()
            &&& !all.filter(covered(ds, Some(Cover::Icb))).contains((wi, ri))
            &&& !all.filter(covered(ds, None)).contains((wi, ri))
        }),
{
    let all = pairs(ds.len() as int);
    let e = (wi, ri);
    lemma_pairs_contain(ds.len() as int, e);
    let k = choose|k: int| 0 <= k < all.len() && all[k] == e;
    assert(ordered_by(ds, wi, ri) == Some(Cover::Seam));
    all.lemma_filter_contains(covered(ds, Some(Cover::Seam)), k);
    lemma_filtered_holds(all, covered(ds, Some(Cover::Icb)), e);
    lemma_filtered_holds(all, covered(ds, None), e);
}

proof fn lemma_filtered_holds<A>(s: Seq<A>, p: spec_fn(A) -> bool, a: A)
    ensures
        s.filter(p).contains(a) ==> p(a),
{
    if s.filter(p).contains(a) {
        let k = choose|k: int| 0 <= k < s.filter(p).len() && s.filter(p)[k] == a;
        s.lemma_filter_pred(p, k);
    }
}

/// What orders an edge, on the positions themselves. A barrier does where one stands after the
/// earlier end and not after the later one. Without one, the seam does where the two are of
/// different sessions. Without either, an indirect command does where both ends are replayed, in
/// one run, and the command of the later end carries a barrier and is not the head of the run. An
/// edge that none of these orders is among the findings, and no other edge is.
pub proof fn law_what_orders_an_edge(region: Seq<char>, ds: Seq<DispatchView>, wi: int, ri: int)
    requires
        0 <= wi < ri < ds.len(),
        conflict(ds[wi], ds[ri]) is Some,
    ensures
        ({
            let all = pairs(ds.len() as int);
            let e = (wi, ri);
            let fence = exists|p: int| wi < p && p <= ri && (#[trigger] ds[p]).barrier;
            let session = ds[wi].encoder == ds[ri].encoder;
            let replayed = ds[wi].run is Some && ds[ri].run is Some && ds[wi].run->0 == ds[ri].run->0;
            let waits = ds[ri].icb_barrier && !ds[ri].is_run_head;
            let named = EdgeView {
                writer_seq: ds[wi].seq,
                reader_seq: ds[ri].seq,
                writer_kernel: ds[wi].kernel,
                reader_kernel: ds[ri].kernel,
                kind: (conflict(ds[wi], ds[ri])->0).0,
                ptr: (conflict(ds[wi], ds[ri])->0).1.ptr,
                offset: (conflict(ds[wi], ds[ri])->0).1.offset,
                len: (conflict(ds[wi], ds[ri])->0).1.len,
                cover: None,
            };
            &&& all.filter(covered(ds, Some(Cover::Barrier))).contains(e) <==> fence
            &&& all.filter(covered(ds, Some(Cover::Seam))).contains(e) <==> !fence && !session
            &&& all.filter(covered(ds, Some(Cover::Icb))).contains(e) <==> !fence && session
                && replayed && waits
            &&& all.filter(covered(ds, None)).contains(e) <==> !fence && session && !(replayed
                && waits)
            &&& !fence && session && !(replayed && waits) ==> audited(
                region,
                ds,
            ).uncovered.contains(named)
        }),
{
    let all = pairs(ds.len() as int);
    let e = (wi, ri);
    lemma_pairs_contain(ds.len() as int, e);
    let k = choose|k: int| 0 <= k < all.len() && all[k] == e;
    lemma_filtered_holds(all, covered(ds, Some(Cover::Barrier)), e);
    lemma_filtered_holds(all, covered(ds, Some(Cover::Seam)), e);
    lemma_filtered_holds(all, covered(ds, Some(Cover::Icb)), e);
    lemma_filtered_holds(all, covered(ds, None), e);
    match ordered_by(ds, wi, ri) {
        Some(Cover::Barrier) => {
            all.lemma_filter_contains(covered(ds, Some(Cover::Barrier)), k);
        },
        Some(Cover::Seam) => {
            all.lemma_filter_contains(covered(ds, Some(Cover::Seam)), k);
        },
        Some(Cover::Icb) => {
            all.lemma_filter_contains(covered(ds, Some(Cover::Icb)), k);
        },
        None => {
            all.lemma_filter_contains(covered(ds, None), k);
            let found = all.filter(covered(ds, None));
            let m = choose|m: int| 0 <= m < found.len() && found[m] == e;
            assert(audited(region, ds).uncovered[m] == finding(ds)(e));
        },
    }
}

/// An edge whose earlier end is encoded anew is ordered by no indirect command: in one session and
/// without a barrier between, it is a finding, whatever the later end carries.
pub proof fn law_a_writer_outside_the_run_is_not_ordered_by_it(
    region: Seq<char>,
    ds: Seq<DispatchView>,
    wi: int,
    ri: int,
)
    requires
        0 <= wi < ri < ds.len(),
        conflict(ds[wi], ds[ri]) is Some,
        ds[wi].run is None || ds[ri].run is None || ds[wi].run->0 != ds[ri].run->0,
        ds[wi].encoder == ds[ri].encoder,
        forall|p: int| wi < p <= ri ==> !(#[trigger] ds[p]).barrier,
    ensures
        audited(region, ds).uncovered.len() > 0,
        exists|k: int|
            0 <= k < audited(region, ds).uncovered.len() && (#[trigger] audited(
                region,
                ds,
            ).uncovered[k]).writer_seq == ds[wi].seq && audited(region, ds).uncovered[k].reader_seq
                == ds[ri].seq,
{
    law_what_orders_an_edge(region, ds, wi, ri);
    let found = audited(region, ds).uncovered;
    let named = EdgeView {
        writer_seq: ds[wi].seq,
        reader_seq: ds[ri].seq,
        writer_kernel: ds[wi].kernel,
        reader_kernel: ds[ri].kernel,
        kind: (conflict(ds[wi], ds[ri])->0).0,
        ptr: (conflict(ds[wi], ds[ri])->0).1.ptr,
        offset: (conflict(ds[wi], ds[ri])->0).1.offset,
        len: (conflict(ds[wi], ds[ri])->0).1.len,
        cover: None,
    };
    assert(found.contains(named));
    let k = choose|k: int| 0 <= k < found.len() && found[k] == named;
    assert(found[k].writer_seq == ds[wi].seq);
}

/// Every finding is an edge between two positions that nothing orders, and says which two, and in
/// which bytes of which direction they meet.
pub proof fn law_findings_are_edges(region: Seq<char>, ds: Seq<DispatchView>, k: int)
    requires
        0 <= k < audited(region, ds).uncovered.len(),
    ensures
        exists|wi: int, ri: int| #[trigger]
            is_finding(ds, audited(region, ds).uncovered[k], wi, ri),
{
    let all = pairs(ds.len() as int);
    let found = all.filter(covered(ds, None));
    let e = found[k];
    lemma_filtered_from(all, covered(ds, None), k);
    lemma_filtered_holds(all, covered(ds, None), e);
    lemma_pairs_contain(ds.len() as int, e);
    assert(is_finding(ds, audited(region, ds).uncovered[k], e.0, e.1));
}

/// The finding is of these two positions.
pub open spec fn is_finding(ds: Seq<DispatchView>, f: EdgeView, wi: int, ri: int) -> bool {
    &&& 0 <= wi < ri < ds.len()
    &&& conflict(ds[wi], ds[ri]) is Some
    &&& f.writer_seq == ds[wi].seq && f.reader_seq == ds[ri].seq
    &&& f.writer_kernel == ds[wi].kernel && f.reader_kernel == ds[ri].kernel
    &&& f.kind == (conflict(ds[wi], ds[ri])->0).0
    &&& f.ptr == (conflict(ds[wi], ds[ri])->0).1.ptr
    &&& f.offset == (conflict(ds[wi], ds[ri])->0).1.offset
    &&& f.len == (conflict(ds[wi], ds[ri])->0).1.len
    &&& f.cover is None
    &&& ds[wi].encoder == ds[ri].encoder
    &&& forall|p: int| wi < p <= ri ==> !(#[trigger] ds[p]).barrier
}

/// Two dispatches need ordering wherever there is a byte that both can touch and one of them
/// writes. An unknown extent may touch any byte of its allocation.
pub proof fn law_a_shared_byte_is_an_edge(
    earlier: DispatchView,
    later: DispatchView,
    i: int,
    j: int,
    at: int,
)
    requires
        0 <= i < later.bindings.len(),
        0 <= j < earlier.bindings.len(),
        later.bindings[i].ptr == earlier.bindings[j].ptr,
        later.bindings[i].is_output || earlier.bindings[j].is_output,
        later.bindings[i].len == 0 || reaches(later.bindings[i], at),
        earlier.bindings[j].len == 0 || reaches(earlier.bindings[j], at),
    ensures
        conflict(earlier, later) is Some,
{
    lemma_some_meeting(earlier, later, i, j);
}

/// And nowhere else. The direction is read off which of the two writes, and what is reported is a
/// binding of the later one.
pub proof fn law_an_edge_is_a_shared_byte(earlier: DispatchView, later: DispatchView)
    ensures
        conflict(earlier, later) matches Some((kind, b)) ==> exists|i: int, j: int|
            0 <= i < later.bindings.len() && 0 <= j < earlier.bindings.len() && b
                == #[trigger] later.bindings[i] && b.ptr == (#[trigger] earlier.bindings[j]).ptr
                && (kind is Raw <==> earlier.bindings[j].is_output && !b.is_output) && (
            kind is Waw <==> earlier.bindings[j].is_output && b.is_output) && (kind is War
                <==> !earlier.bindings[j].is_output && b.is_output) && (b.len == 0
                || earlier.bindings[j].len == 0 || exists|at: int| #[trigger]
                reaches(b, at) && reaches(earlier.bindings[j], at)),
{
    if let Some((kind, b)) = conflict(earlier, later) {
        let (i, j) = choose|i: int, j: int| #[trigger] meet_at(earlier, later, i, j);
        let a = earlier.bindings[j];
        assert(b == later.bindings[i]);
        if b.len != 0 && a.len != 0 {
            let at = if b.offset >= a.offset {
                b.offset as int
            } else {
                a.offset as int
            };
            assert(reaches(b, at) && reaches(a, at));
        }
    }
}

/// Byte `at` of its allocation is one that the binding names.
pub open spec fn reaches(b: AuditBinding, at: int) -> bool {
    b.offset <= at && at < b.offset + b.len
}

proof fn lemma_pair_kept(ds: Seq<DispatchView>, d: DispatchView, e: (int, int))
    requires
        0 <= e.0 < e.1 < ds.len(),
    ensures
        needing(ds.push(d))(e) == needing(ds)(e),
        forall|k: HazardKind| #[trigger] directed(ds.push(d), k)(e) == directed(ds, k)(e),
        forall|c: Option<Cover>| #[trigger] covered(ds.push(d), c)(e) == covered(ds, c)(e),
        finding(ds.push(d))(e) == finding(ds)(e),
{
    let es = ds.push(d);
    assert(es[e.0] == ds[e.0] && es[e.1] == ds[e.1]);
    if exists|p: int| e.0 < p <= e.1 && (#[trigger] ds[p]).barrier {
        let p = choose|p: int| e.0 < p <= e.1 && (#[trigger] ds[p]).barrier;
        assert(es[p].barrier);
    } else if exists|p: int| e.0 < p <= e.1 && (#[trigger] es[p]).barrier {
        let p = choose|p: int| e.0 < p <= e.1 && (#[trigger] es[p]).barrier;
        assert(ds[p].barrier);
    }
}

/// What one more dispatch adds to an audit: itself, its barrier under each direction it was owed to,
/// the edges from each earlier position to it, and of the others nothing.
pub proof fn law_one_more_dispatch(region: Seq<char>, ds: Seq<DispatchView>, d: DispatchView)
    ensures
        ({
            let es = ds.push(d);
            let new = row(ds.len() as int, ds.len() as int);
            let a = audited(region, ds);
            let b = audited(region, es);
            let one = |x: bool|
                if x {
                    1nat
                } else {
                    0
                };
            &&& new.len() == ds.len() && forall|wi: int|
                0 <= wi < new.len() ==> #[trigger] new[wi] == (wi, ds.len() as int)
            &&& b.region == region && a.region == region
            &&& b.positions == a.positions + 1
            &&& b.edges == a.edges + new.filter(needing(es)).len()
            &&& b.edges_raw == a.edges_raw + new.filter(directed(es, HazardKind::Raw)).len()
            &&& b.edges_waw == a.edges_waw + new.filter(directed(es, HazardKind::Waw)).len()
            &&& b.edges_war == a.edges_war + new.filter(directed(es, HazardKind::War)).len()
            &&& b.by_barrier == a.by_barrier + new.filter(
                covered(es, Some(Cover::Barrier)),
            ).len()
            &&& b.by_seam == a.by_seam + new.filter(covered(es, Some(Cover::Seam))).len()
            &&& b.by_icb == a.by_icb + new.filter(covered(es, Some(Cover::Icb))).len()
            &&& b.uncovered.len() == a.uncovered.len() + new.filter(covered(es, None)).len()
            &&& b.uncovered.take(a.uncovered.len() as int) == a.uncovered
            &&& b.barriers == a.barriers + one(d.barrier)
            &&& b.barriers_raw == a.barriers_raw + one(
                d.barrier && d.kinds.contains(HazardKind::Raw),
            )
            &&& b.barriers_waw == a.barriers_waw + one(
                d.barrier && d.kinds.contains(HazardKind::Waw),
            )
            &&& b.barriers_war == a.barriers_war + one(
                d.barrier && d.kinds.contains(HazardKind::War),
            )
            &&& b.barriers_suppressed == a.barriers_suppressed + one(d.barrier_suppressed)
        }),
        audited(region, Seq::empty()).edges == 0,
        audited(region, Seq::empty()).barriers == 0,
        audited(region, Seq::empty()).barriers_suppressed == 0,
        audited(region, Seq::empty()).positions == 0,
{
    let n = ds.len() as int;
    let es = ds.push(d);
    let old_pairs = pairs(n);
    let new = row(n, n);
    assert(pairs(n + 1) == old_pairs + new);
    assert forall|e: (int, int)| 0 <= e.0 < e.1 < n implies #[trigger] needing(es)(e) == needing(ds)(e) by {
        lemma_pair_kept(ds, d, e);
    }
    lemma_grown(n, needing(ds), needing(es));
    assert forall|e: (int, int)| 0 <= e.0 < e.1 < n implies #[trigger] directed(es, HazardKind::Raw)(e) == directed(ds, HazardKind::Raw)(e) by {
        lemma_pair_kept(ds, d, e);
    }
    lemma_grown(n, directed(ds, HazardKind::Raw), directed(es, HazardKind::Raw));
    assert forall|e: (int, int)| 0 <= e.0 < e.1 < n implies #[trigger] directed(es, HazardKind::Waw)(e) == directed(ds, HazardKind::Waw)(e) by {
        lemma_pair_kept(ds, d, e);
    }
    lemma_grown(n, directed(ds, HazardKind::Waw), directed(es, HazardKind::Waw));
    assert forall|e: (int, int)| 0 <= e.0 < e.1 < n implies #[trigger] directed(es, HazardKind::War)(e) == directed(ds, HazardKind::War)(e) by {
        lemma_pair_kept(ds, d, e);
    }
    lemma_grown(n, directed(ds, HazardKind::War), directed(es, HazardKind::War));
    assert forall|e: (int, int)| 0 <= e.0 < e.1 < n implies #[trigger] covered(es, Some(Cover::Barrier))(e) == covered(ds, Some(Cover::Barrier))(e) by {
        lemma_pair_kept(ds, d, e);
    }
    lemma_grown(n, covered(ds, Some(Cover::Barrier)), covered(es, Some(Cover::Barrier)));
    assert forall|e: (int, int)| 0 <= e.0 < e.1 < n implies #[trigger] covered(es, Some(Cover::Seam))(e) == covered(ds, Some(Cover::Seam))(e) by {
        lemma_pair_kept(ds, d, e);
    }
    lemma_grown(n, covered(ds, Some(Cover::Seam)), covered(es, Some(Cover::Seam)));
    assert forall|e: (int, int)| 0 <= e.0 < e.1 < n implies #[trigger] covered(es, Some(Cover::Icb))(e) == covered(ds, Some(Cover::Icb))(e) by {
        lemma_pair_kept(ds, d, e);
    }
    lemma_grown(n, covered(ds, Some(Cover::Icb)), covered(es, Some(Cover::Icb)));
    assert forall|e: (int, int)| 0 <= e.0 < e.1 < n implies #[trigger] covered(es, None)(e) == covered(ds, None)(e) by {
        lemma_pair_kept(ds, d, e);
    }
    lemma_grown(n, covered(ds, None), covered(es, None));
    ds.lemma_filter_push(d, fenced());
    ds.lemma_filter_push(d, fenced_for(HazardKind::Raw));
    ds.lemma_filter_push(d, fenced_for(HazardKind::Waw));
    ds.lemma_filter_push(d, fenced_for(HazardKind::War));
    ds.lemma_filter_push(d, held_back());
    let a = audited(region, ds).uncovered;
    let b = audited(region, es).uncovered;
    let kept = old_pairs.filter(covered(ds, None));
    assert(b.take(a.len() as int) =~= a) by {
        assert forall|k: int| 0 <= k < a.len() implies b[k] == a[k] by {
            lemma_filtered_from(old_pairs, covered(ds, None), k);
            let e = kept[k];
            lemma_pairs_contain(n, e);
            lemma_pair_kept(ds, d, e);
            assert(pairs(n + 1).filter(covered(es, None))[k] == e);
        }
    }
    reveal(Seq::filter);
}

proof fn lemma_grown(n: int, p: spec_fn((int, int)) -> bool, q: spec_fn((int, int)) -> bool)
    requires
        0 <= n,
        forall|e: (int, int)| 0 <= e.0 < e.1 < n ==> #[trigger] q(e) == p(e),
    ensures
        pairs(n + 1).filter(q) == pairs(n).filter(p) + row(n, n).filter(q),
{
    Seq::filter_distributes_over_add(pairs(n), row(n, n), q);
    assert forall|e: (int, int)| #[trigger] pairs(n).contains(e) implies q(e) == p(e) by {
        lemma_pairs_contain(n, e);
    }
    lemma_same_filter(pairs(n), q, p);
}

/// A dispatch takes what was bound since the one before it, the barrier that was put before it or
/// held back, and the current session, and leaves nothing for the next one. Each call changes
/// nothing else.
pub proof fn law_a_dispatch_takes_what_was_bound(
    v: AuditStateView,
    kernel: Seq<char>,
    range: BoundRange,
    is_output: bool,
    kinds: Set<HazardKind>,
)
    requires
        v.recording,
        v.dispatches.len() < u64::MAX,
        v.encoder < u64::MAX,
    ensures
        ({
            let w = v.after(AuditStep::Dispatch { kernel });
            let d = w.dispatches.last();
            &&& w.dispatches.len() == v.dispatches.len() + 1
            &&& w.dispatches.drop_last() == v.dispatches
            &&& d.seq == v.dispatches.len() && d.kernel == kernel && d.bindings == v.pending
            &&& d.barrier == v.pending_barrier && d.kinds == v.pending_kinds
            &&& d.barrier_suppressed == v.pending_suppressed && d.encoder == v.encoder
            &&& d.run is None && !d.is_run_head && !d.icb_barrier
            &&& w.pending.len() == 0 && !w.pending_barrier && !w.pending_suppressed
            &&& w.pending_kinds == Set::<HazardKind>::empty()
            &&& w.encoder == v.encoder && w.recording && w.region == v.region
        }),
        v.after(AuditStep::Binding { range, is_output }) == (AuditStateView {
            pending: v.pending.push(
                AuditBinding { ptr: range.ptr, offset: range.offset, len: range.len, is_output },
            ),
            ..v
        }),
        v.after(AuditStep::Barrier { kinds }) == (AuditStateView {
            pending_barrier: true,
            pending_kinds: kinds,
            ..v
        }),
        v.after(AuditStep::BarrierSuppressed) == (AuditStateView { pending_suppressed: true, ..v }),
        v.after(AuditStep::EncoderBegin).encoder == v.encoder + 1,
        v.after(AuditStep::EncoderBegin).dispatches == v.dispatches,
        v.after(AuditStep::EncoderBegin).pending == v.pending,
{
    assert(v.after(AuditStep::Dispatch { kernel }).dispatches.drop_last() =~= v.dispatches);
}

/// What is replayed is assigned to the positions named, the last entry for a position counting, and
/// to no others.
pub proof fn law_runs_are_assigned_by_position(
    ds: Seq<DispatchView>,
    runs: Seq<(usize, u64, bool, bool)>,
    n: int,
    i: int,
)
    requires
        0 <= n <= runs.len(),
        0 <= i < ds.len(),
    ensures
        assigned(ds, runs, n).len() == ds.len(),
        (forall|k: int| 0 <= k < n ==> (#[trigger] runs[k]).0 != i) ==> assigned(ds, runs, n)[i]
            == ds[i],
        forall|k: int|
            0 <= k < n && (#[trigger] runs[k]).0 == i && (forall|l: int|
                k < l < n ==> (#[trigger] runs[l]).0 != i) ==> assigned(ds, runs, n)[i] == (
            DispatchView {
                run: Some(runs[k].1),
                is_run_head: runs[k].2,
                icb_barrier: runs[k].3,
                ..ds[i]
            }),
    decreases n,
{
    if n > 0 {
        law_runs_are_assigned_by_position(ds, runs, n - 1, i);
        lemma_assigned_elsewhere(ds, runs, n - 1, i);
        lemma_assigned(ds, runs, n - 1);
    }
}

proof fn lemma_assigned_elsewhere(
    ds: Seq<DispatchView>,
    runs: Seq<(usize, u64, bool, bool)>,
    n: int,
    i: int,
)
    requires
        n <= runs.len(),
        0 <= i < ds.len(),
    ensures
        assigned(ds, runs, n).len() == ds.len(),
        ({
            let a = assigned(ds, runs, n)[i];
            a == (DispatchView {
                run: a.run,
                is_run_head: a.is_run_head,
                icb_barrier: a.icb_barrier,
                ..ds[i]
            })
        }),
    decreases n,
{
    if n > 0 {
        lemma_assigned_elsewhere(ds, runs, n - 1, i);
    }
}

/// Each pair that needs ordering is counted as an edge, once, under the direction of its conflict,
/// and no other pair is.
pub proof fn law_edges_are_counted_by_direction(
    region: Seq<char>,
    ds: Seq<DispatchView>,
    wi: int,
    ri: int,
    kind: HazardKind,
)
    requires
        0 <= wi < ri < ds.len(),
    ensures
        ({
            let all = pairs(ds.len() as int);
            let met = conflict(ds[wi], ds[ri]);
            &&& all.filter(needing(ds)).contains((wi, ri)) <==> met is Some
            &&& all.filter(directed(ds, kind)).contains((wi, ri)) <==> met is Some && (met->0).0
                == kind
            &&& all.no_duplicates()
            &&& audited(region, ds).edges == all.filter(needing(ds)).len()
            &&& kind is Raw ==> audited(region, ds).edges_raw == all.filter(
                directed(ds, kind),
            ).len()
            &&& kind is Waw ==> audited(region, ds).edges_waw == all.filter(
                directed(ds, kind),
            ).len()
            &&& kind is War ==> audited(region, ds).edges_war == all.filter(
                directed(ds, kind),
            ).len()
        }),
{
    let all = pairs(ds.len() as int);
    let e = (wi, ri);
    lemma_pairs_contain(ds.len() as int, e);
    let k = choose|k: int| 0 <= k < all.len() && all[k] == e;
    lemma_filtered_holds(all, needing(ds), e);
    lemma_filtered_holds(all, directed(ds, kind), e);
    if needing(ds)(e) {
        all.lemma_filter_contains(needing(ds), k);
    }
    if directed(ds, kind)(e) {
        all.lemma_filter_contains(directed(ds, kind), k);
    }
    lemma_pairs_differ(ds.len() as int);
}

proof fn lemma_pairs_differ(n: int)
    requires
        0 <= n,
    ensures
        pairs(n).no_duplicates(),
    decreases n,
{
    if n > 0 {
        lemma_pairs_differ(n - 1);
        let a = pairs(n - 1);
        let b = row(n - 1, n - 1);
        assert forall|i: int, j: int| 0 <= i < pairs(n).len() && 0 <= j < pairs(n).len() && i
            != j implies pairs(n)[i] != pairs(n)[j] by {
            if i < a.len() {
                assert(a.contains(a[i]));
                lemma_pairs_contain(n - 1, a[i]);
            }
            if j < a.len() {
                assert(a.contains(a[j]));
                lemma_pairs_contain(n - 1, a[j]);
            }
        }
    }
}

/// A dispatch takes what was waiting whether or not it is recorded, so nothing that was bound before
/// is ever counted to a later one; while nothing is recorded, nothing else changes.
pub proof fn law_nothing_waits_behind_a_dispatch(v: AuditStateView, kernel: Seq<char>, step: AuditStep)
    ensures
        ({
            let w = v.after(AuditStep::Dispatch { kernel });
            &&& w.pending.len() == 0
            &&& !w.pending_barrier
            &&& w.pending_kinds == Set::<HazardKind>::empty()
            &&& !w.pending_suppressed
            &&& w.encoder == v.encoder
            &&& !v.recording ==> w.dispatches == v.dispatches
            &&& v.recording ==> w.dispatches.len() == v.dispatches.len() + 1
            &&& v.recording ==> w.dispatches.drop_last() == v.dispatches
        }),
        !v.recording && !(step is Dispatch) ==> v.after(step) == v,
        v.after(step).recording == v.recording,
        v.after(step).region == v.region,
        !(step is Dispatch) ==> v.after(step).dispatches == v.dispatches,
        !(step is EncoderBegin) ==> v.after(step).encoder == v.encoder,
        step is EncoderBegin && v.recording && v.encoder < u64::MAX ==> v.after(step).encoder
            == v.encoder + 1,
{
    let w = v.after(AuditStep::Dispatch { kernel });
    if v.recording {
        assert(w.dispatches.drop_last() =~= v.dispatches);
    }
}

} // verus!
