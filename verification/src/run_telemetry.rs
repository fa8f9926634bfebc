//! Memory readings and event marks of a run, on one clock.
//!
//! Readings and marks are kept as they come and turned into lines of JSON once, at the end. Each
//! carries the decode token it belongs to, so that a series can be read against the token index.
//! The caller reads the clock.

use vstd::prelude::*;

use crate::text;

verus! {

/// The classes of memory that are read.
#[derive(Debug, Clone, Copy, PartialEq, Eq, Structural)]
pub enum MemClass {
    /// The buffer pool: lent, free, and awaiting the device.
    Pool,
    /// The activation arena, when one is installed.
    Arena,
    /// Kernel scratch.
    Scratch,
    /// The key-value cache, which grows with the context.
    Kv,
    /// What the residency set holds.
    Residency,
}

impl MemClass {
    pub open spec fn spec_name(self) -> Seq<char> {
        match self {
            MemClass::Pool => "pool"@,
            MemClass::Arena => "arena"@,
            MemClass::Scratch => "scratch"@,
            MemClass::Kv => "kv"@,
            MemClass::Residency => "residency"@,
        }
    }

    pub fn as_str(self) -> (s: &'static str)
        ensures
            s@ == self.spec_name(),
    {
        match self {
            MemClass::Pool => "pool",
            MemClass::Arena => "arena",
            MemClass::Scratch => "scratch",
            MemClass::Kv => "kv",
            MemClass::Residency => "residency",
        }
    }
}

/// Events worth a mark on the timeline.
#[derive(Debug, Clone, Copy, PartialEq, Eq, Structural)]
pub enum Event {
    /// A command buffer was created.
    CommandBufferCreate,
    /// A command buffer completed.
    CommandBufferComplete,
    /// A compute encoder session opened.
    EncoderSessionBegin,
    EncoderSessionEnd,
    /// The activation arena was installed.
    ArenaInstall,
    /// A replay plan was built.
    IcbPlanBuild,
    /// A ring of convolution state was compacted.
    Compaction,
    /// A decode token boundary.
    TokenBoundary,
}

impl Event {
    pub open spec fn spec_name(self) -> Seq<char> {
        match self {
            Event::CommandBufferCreate => "cb_create"@,
            Event::CommandBufferComplete => "cb_complete"@,
            Event::EncoderSessionBegin => "encoder_begin"@,
            Event::EncoderSessionEnd => "encoder_end"@,
            Event::ArenaInstall => "arena_install"@,
            Event::IcbPlanBuild => "icb_plan_build"@,
            Event::Compaction => "compaction"@,
            Event::TokenBoundary => "token_boundary"@,
        }
    }

    pub fn as_str(self) -> (s: &'static str)
        ensures
            s@ == self.spec_name(),
    {
        match self {
            Event::CommandBufferCreate => "cb_create",
            Event::CommandBufferComplete => "cb_complete",
            Event::EncoderSessionBegin => "encoder_begin",
            Event::EncoderSessionEnd => "encoder_end",
            Event::ArenaInstall => "arena_install",
            Event::IcbPlanBuild => "icb_plan_build",
            Event::Compaction => "compaction",
            Event::TokenBoundary => "token_boundary",
        }
    }
}

/// One reading of a memory class.
#[derive(Debug, Clone, Copy, PartialEq, Eq, Structural)]
pub struct MemSample {
    pub t_ns: u64,
    /// The decode token that this reading belongs to.
    pub token: u64,
    pub class: MemClass,
    pub live_bytes: u64,
    pub live_count: u64,
    /// Bytes that were released and await the device.
    pub pending_bytes: u64,
}

/// One mark of an event.
#[derive(Debug, Clone, Copy, PartialEq, Eq, Structural)]
pub struct EventMark {
    pub t_ns: u64,
    pub token: u64,
    pub event: Event,
    /// A number that goes with the event: a dispatch index, the size of a plan.
    pub detail: u64,
}

/// What was recorded, and whether anything is.
#[derive(Debug)]
pub struct Recorder {
    compiled: bool,
    enabled: bool,
    token: u64,
    accepted: u64,
    mem: Vec<MemSample>,
    events: Vec<EventMark>,
}

/// A recorder as mathematical values.
#[verifier::ext_equal]
pub struct RecorderView {
    /// Whether it can record at all.
    pub compiled: bool,
    pub enabled: bool,
    /// The current decode token.
    pub token: u64,
    /// Readings and marks accepted.
    pub accepted: u64,
    pub mem: Seq<MemSample>,
    pub events: Seq<EventMark>,
}

impl View for Recorder {
    type V = RecorderView;

    closed spec fn view(&self) -> RecorderView {
        RecorderView {
            compiled: self.compiled,
            enabled: self.enabled,
            token: self.token,
            accepted: self.accepted,
            mem: self.mem@,
            events: self.events@,
        }
    }
}

/// One more, around the end of the range.
pub open spec fn next(n: u64) -> u64 {
    if n == u64::MAX {
        0
    } else {
        (n + 1) as u64
    }
}

impl RecorderView {
    /// Something is being recorded.
    pub open spec fn records(self) -> bool {
        self.compiled && self.enabled
    }
}

/// One line of a series.
pub open spec fn row(
    run_id: Seq<char>,
    t_ns: u64,
    signal: Seq<char>,
    value: u64,
    unit: Seq<char>,
    token: u64,
) -> Seq<char> {
    "{\"run_id\":\""@ + run_id + "\",\"t0_ns\":"@ + text::decimal(t_ns as nat) + ",\"t1_ns\":"@
        + text::decimal(t_ns as nat) + ",\"signal\":\""@ + signal + "\",\"value\":"@
        + text::decimal(value as nat) + ",\"unit\":\""@ + unit + "\",\"token\":"@ + text::decimal(
        token as nat,
    ) + "}\n"@
}

impl MemSample {
    /// The name of one of its series.
    pub open spec fn signal(self, series: Seq<char>) -> Seq<char> {
        "mem/"@ + self.class.spec_name() + "/"@ + series
    }

    /// The three lines of a reading.
    pub open spec fn rows(self, run_id: Seq<char>) -> Seq<char> {
        row(
            run_id,
            self.t_ns,
            self.signal("live_bytes"@),
            self.live_bytes,
            "bytes"@,
            self.token,
        ) + row(
            run_id,
            self.t_ns,
            self.signal("live_count"@),
            self.live_count,
            "count"@,
            self.token,
        ) + row(
            run_id,
            self.t_ns,
            self.signal("pending_bytes"@),
            self.pending_bytes,
            "bytes"@,
            self.token,
        )
    }
}

impl EventMark {
    /// The line of a mark.
    pub open spec fn rows(self, run_id: Seq<char>) -> Seq<char> {
        row(
            run_id,
            self.t_ns,
            "event/"@ + self.event.spec_name(),
            self.detail,
            "marker"@,
            self.token,
        )
    }
}

/// The lines of the first `n` readings.
pub open spec fn mem_rows(mem: Seq<MemSample>, run_id: Seq<char>, n: int) -> Seq<char>
    decreases n,
{
    if n <= 0 {
        Seq::empty()
    } else {
        mem_rows(mem, run_id, n - 1) + mem[n - 1].rows(run_id)
    }
}

/// The lines of the first `n` marks.
pub open spec fn event_rows(events: Seq<EventMark>, run_id: Seq<char>, n: int) -> Seq<char>
    decreases n,
{
    if n <= 0 {
        Seq::empty()
    } else {
        event_rows(events, run_id, n - 1) + events[n - 1].rows(run_id)
    }
}

impl Recorder {
    /// A recorder that has seen nothing. One that is not `compiled` never records.
    pub fn new(compiled: bool) -> (r: Self)
        ensures
            r@ == (RecorderView {
                compiled,
                enabled: false,
                token: 0,
                accepted: 0,
                mem: Seq::empty(),
                events: Seq::empty(),
            }),
    {
        Recorder {
            compiled,
            enabled: false,
            token: 0,
            accepted: 0,
            mem: Vec::with_capacity(if compiled {
                4096
            } else {
                0
            }),
            events: Vec::with_capacity(if compiled {
                16384
            } else {
                0
            }),
        }
    }
}

/// Turns recording on or off.
pub fn set_enabled(r: &mut Recorder, on: bool)
    ensures
        final(r)@ == (if old(r)@.compiled {
            RecorderView { enabled: on, ..old(r)@ }
        } else {
            old(r)@
        }),
{
    if r.compiled {
        r.enabled = on;
    }
}

/// Whether this recorder can record at all.
pub fn compiled(r: &Recorder) -> (b: bool)
    ensures
        b == r@.compiled,
{
    r.compiled
}

/// Whether recording is on and has accepted anything: a proof that the instrument ran, rather than
/// a flag read back.
pub fn engaged(r: &Recorder) -> (b: bool)
    ensures
        b == (r@.records() && r@.accepted > 0),
{
    r.compiled && r.enabled && r.accepted > 0
}

/// Sets the current token, at each boundary between decode steps.
pub fn set_token(r: &mut Recorder, token: u64)
    ensures
        final(r)@ == (if old(r)@.compiled {
            RecorderView { token, ..old(r)@ }
        } else {
            old(r)@
        }),
{
    if r.compiled {
        r.token = token;
    }
}

/// Records a reading of a memory class, taken at `t_ns`.
pub fn sample(
    r: &mut Recorder,
    t_ns: u64,
    class: MemClass,
    live_bytes: u64,
    live_count: u64,
    pending_bytes: u64,
)
    ensures
        final(r)@ == (if old(r)@.records() {
            RecorderView {
                accepted: next(old(r)@.accepted),
                mem: old(r)@.mem.push(
                    MemSample {
                        t_ns,
                        token: old(r)@.token,
                        class,
                        live_bytes,
                        live_count,
                        pending_bytes,
                    },
                ),
                ..old(r)@
            }
        } else {
            old(r)@
        }),
{
    if !r.compiled || !r.enabled {
        return;
    }
    r.mem.push(
        MemSample { t_ns, token: r.token, class, live_bytes, live_count, pending_bytes },
    );
    r.accepted = r.accepted.wrapping_add(1);
}

/// Marks an event that happened at `t_ns`.
pub fn mark(r: &mut Recorder, t_ns: u64, event: Event, detail: u64)
    ensures
        final(r)@ == (if old(r)@.records() {
            RecorderView {
                accepted: next(old(r)@.accepted),
                events: old(r)@.events.push(
                    EventMark { t_ns, token: old(r)@.token, event, detail },
                ),
                ..old(r)@
            }
        } else {
            old(r)@
        }),
{
    if !r.compiled || !r.enabled {
        return;
    }
    r.events.push(EventMark { t_ns, token: r.token, event, detail });
    r.accepted = r.accepted.wrapping_add(1);
}

fn push_row(
    out: &mut String,
    run_id: &str,
    t_ns: u64,
    signal: &str,
    value: u64,
    unit: &str,
    token: u64,
)
    ensures
        final(out)@ == old(out)@ + row(run_id@, t_ns, signal@, value, unit@, token),
{
    out.push_str("{\"run_id\":\"");
    out.push_str(run_id);
    out.push_str("\",\"t0_ns\":");
    text::push_u64(out, t_ns);
    out.push_str(",\"t1_ns\":");
    text::push_u64(out, t_ns);
    out.push_str(",\"signal\":\"");
    out.push_str(signal);
    out.push_str("\",\"value\":");
    text::push_u64(out, value);
    out.push_str(",\"unit\":\"");
    out.push_str(unit);
    out.push_str("\",\"token\":");
    text::push_u64(out, token);
    out.push_str("}\n");
    assert(out@ =~= old(out)@ + row(run_id@, t_ns, signal@, value, unit@, token));
}

impl MemSample {
    fn signal_name(&self, series: &str) -> (s: String)
        ensures
            s@ == self.signal(series@),
    {
        let mut s = String::new();
        s.push_str("mem/");
        s.push_str(self.class.as_str());
        s.push_str("/");
        s.push_str(series);
        assert(s@ =~= self.signal(series@));
        s
    }

    fn push_rows(&self, out: &mut String, run_id: &str)
        ensures
            final(out)@ == old(out)@ + self.rows(run_id@),
    {
        let live = self.signal_name("live_bytes");
        push_row(out, run_id, self.t_ns, live.as_str(), self.live_bytes, "bytes", self.token);
        let count = self.signal_name("live_count");
        push_row(out, run_id, self.t_ns, count.as_str(), self.live_count, "count", self.token);
        let pending = self.signal_name("pending_bytes");
        push_row(out, run_id, self.t_ns, pending.as_str(), self.pending_bytes, "bytes", self.token);
        assert(out@ =~= old(out)@ + self.rows(run_id@));
    }
}

impl EventMark {
    fn push_rows(&self, out: &mut String, run_id: &str)
        ensures
            final(out)@ == old(out)@ + self.rows(run_id@),
    {
        let mut signal = String::new();
        signal.push_str("event/");
        signal.push_str(self.event.as_str());
        assert(signal@ =~= "event/"@ + self.event.spec_name());
        push_row(out, run_id, self.t_ns, signal.as_str(), self.detail, "marker", self.token);
    }
}

/// Everything recorded so far, one JSON object a line. The two times of a line are the same,
/// because readings are instantaneous.
pub fn to_jsonl(r: &Recorder, run_id: &str) -> (out: String)
    ensures
        out@ == (if r@.compiled {
            mem_rows(r@.mem, run_id@, r@.mem.len() as int) + event_rows(
                r@.events,
                run_id@,
                r@.events.len() as int,
            )
        } else {
            Seq::empty()
        }),
{
    let mut out = String::new();
    if !r.compiled {
        return out;
    }
    for i in 0..r.mem.len()
        invariant
            out@ == mem_rows(r.mem@, run_id@, i as int),
    {
        r.mem[i].push_rows(&mut out, run_id);
    }
    let ghost readings = out@;
    for i in 0..r.events.len()
        invariant
            out@ == readings + event_rows(r.events@, run_id@, i as int),
    {
        r.events[i].push_rows(&mut out, run_id);
        assert(out@ =~= readings + event_rows(r.events@, run_id@, i + 1));
    }
    out
}

/// How many readings and marks were accepted.
pub fn accepted(r: &Recorder) -> (n: u64)
    ensures
        n == (if r@.compiled {
            r@.accepted
        } else {
            0
        }),
{
    if r.compiled {
        r.accepted
    } else {
        0
    }
}

/// Clears what was recorded, so that warm-up does not enter the steady series. The switch and the
/// token stay.
pub fn reset(r: &mut Recorder)
    ensures
        final(r)@ == (if old(r)@.compiled {
            RecorderView { accepted: 0, mem: Seq::empty(), events: Seq::empty(), ..old(r)@ }
        } else {
            old(r)@
        }),
{
    if r.compiled {
        r.mem.clear();
        r.events.clear();
        r.accepted = 0;
    }
}

/// No two classes share a name.
pub proof fn law_class_names_are_distinct(a: MemClass, b: MemClass)
    requires
        a != b,
    ensures
        a.spec_name() != b.spec_name(),
{
    reveal_strlit("pool");
    reveal_strlit("arena");
    reveal_strlit("scratch");
    reveal_strlit("kv");
    reveal_strlit("residency");
    assert("pool"@.len() == 4 && "arena"@.len() == 5 && "scratch"@.len() == 7 && "kv"@.len() == 2
        && "residency"@.len() == 9);
}

/// No two events share a name.
pub proof fn law_event_names_are_distinct(a: Event, b: Event)
    requires
        a != b,
    ensures
        a.spec_name() != b.spec_name(),
{
    reveal_strlit("cb_create");
    reveal_strlit("cb_complete");
    reveal_strlit("encoder_begin");
    reveal_strlit("encoder_end");
    reveal_strlit("arena_install");
    reveal_strlit("icb_plan_build");
    reveal_strlit("compaction");
    reveal_strlit("token_boundary");
    assert("cb_create"@.len() == 9 && "compaction"@.len() == 10);
    assert("cb_complete"@.len() == 11 && "cb_complete"@[0] == 'c');
    assert("encoder_end"@.len() == 11 && "encoder_end"@[0] == 'e');
    assert("encoder_begin"@.len() == 13 && "encoder_begin"@[0] == 'e');
    assert("arena_install"@.len() == 13 && "arena_install"@[0] == 'a');
    assert("icb_plan_build"@.len() == 14 && "icb_plan_build"@[0] == 'i');
    assert("token_boundary"@.len() == 14 && "token_boundary"@[0] == 't');
}

/// A series grows at its end: one more reading or mark adds its own lines behind those before it.
pub proof fn law_a_series_grows_at_its_end(
    mem: Seq<MemSample>,
    m: MemSample,
    events: Seq<EventMark>,
    e: EventMark,
    run_id: Seq<char>,
)
    ensures
        mem_rows(mem.push(m), run_id, mem.len() as int + 1) == mem_rows(
            mem,
            run_id,
            mem.len() as int,
        ) + m.rows(run_id),
        event_rows(events.push(e), run_id, events.len() as int + 1) == event_rows(
            events,
            run_id,
            events.len() as int,
        ) + e.rows(run_id),
        mem_rows(Seq::empty(), run_id, 0).len() == 0,
        event_rows(Seq::empty(), run_id, 0).len() == 0,
{
    lemma_rows_prefix(
        mem,
        mem.push(m),
        events,
        events.push(e),
        run_id,
        mem.len() as int,
        events.len() as int,
    );
}

proof fn lemma_rows_prefix(
    a: Seq<MemSample>,
    b: Seq<MemSample>,
    c: Seq<EventMark>,
    d: Seq<EventMark>,
    run_id: Seq<char>,
    n: int,
    m: int,
)
    requires
        forall|i: int| 0 <= i < n ==> a[i] == b[i],
        forall|i: int| 0 <= i < m ==> c[i] == d[i],
    ensures
        mem_rows(a, run_id, n) == mem_rows(b, run_id, n),
        event_rows(c, run_id, m) == event_rows(d, run_id, m),
    decreases n, m,
{
    if n > 0 {
        lemma_rows_prefix(a, b, c, d, run_id, n - 1, m);
    } else if m > 0 {
        lemma_rows_prefix(a, b, c, d, run_id, n, m - 1);
    }
}

/// Something is recorded where it can be and is asked for; a number that goes up goes up by one, and
/// starts over only past the end of its range.
pub proof fn law_when_something_is_recorded(v: RecorderView, n: u64)
    ensures
        v.records() ==> v.compiled && v.enabled,
        !v.records() ==> !v.compiled || !v.enabled,
        n < u64::MAX ==> next(n) == n + 1,
        n == u64::MAX ==> next(n) == 0,
{
}

proof fn lemma_middle(a: Seq<char>, x: Seq<char>, y: Seq<char>, b: Seq<char>)
    requires
        a + x + b == a + y + b,
    ensures
        x == y,
{
    let s = a + x + b;
    let t = a + y + b;
    assert(s.len() == t.len());
    assert(x.len() == y.len());
    assert forall|i: int| 0 <= i < x.len() implies x[i] == y[i] by {
        assert(s[a.len() + i] == x[i]);
        assert(t[a.len() + i] == y[i]);
    }
    assert(x =~= y);
}

/// What stands in a line before its value.
spec fn before_value(run_id: Seq<char>, t_ns: u64, signal: Seq<char>) -> Seq<char> {
    "{\"run_id\":\""@ + run_id + "\",\"t0_ns\":"@ + text::decimal(t_ns as nat) + ",\"t1_ns\":"@
        + text::decimal(t_ns as nat) + ",\"signal\":\""@ + signal + "\",\"value\":"@
}

/// What stands behind it.
spec fn behind_value(unit: Seq<char>, token: u64) -> Seq<char> {
    ",\"unit\":\""@ + unit + "\",\"token\":"@ + text::decimal(token as nat) + "}\n"@
}

proof fn lemma_row_parts(
    run_id: Seq<char>,
    t_ns: u64,
    signal: Seq<char>,
    value: u64,
    unit: Seq<char>,
    token: u64,
)
    ensures
        row(run_id, t_ns, signal, value, unit, token) == before_value(run_id, t_ns, signal)
            + text::decimal(value as nat) + behind_value(unit, token),
{
    assert(row(run_id, t_ns, signal, value, unit, token) =~= before_value(run_id, t_ns, signal)
        + text::decimal(value as nat) + behind_value(unit, token));
}

/// A line shows its value: two lines that differ in nothing else differ in it.
pub proof fn law_a_line_shows_its_value(
    run_id: Seq<char>,
    t_ns: u64,
    signal: Seq<char>,
    a: u64,
    b: u64,
    unit: Seq<char>,
    token: u64,
)
    requires
        a != b,
    ensures
        row(run_id, t_ns, signal, a, unit, token) != row(run_id, t_ns, signal, b, unit, token),
{
    lemma_row_parts(run_id, t_ns, signal, a, unit, token);
    lemma_row_parts(run_id, t_ns, signal, b, unit, token);
    text::law_a_number_reads_back(a as nat);
    text::law_a_number_reads_back(b as nat);
    if row(run_id, t_ns, signal, a, unit, token) == row(run_id, t_ns, signal, b, unit, token) {
        lemma_middle(
            before_value(run_id, t_ns, signal),
            text::decimal(a as nat),
            text::decimal(b as nat),
            behind_value(unit, token),
        );
    }
}

/// A reading shows each of its three numbers, and a mark its detail: where two differ in one of them
/// alone, their lines differ.
pub proof fn law_a_reading_shows_its_numbers(
    m: MemSample,
    e: EventMark,
    other: u64,
    run_id: Seq<char>,
)
    ensures
        other != m.live_bytes ==> (MemSample { live_bytes: other, ..m }).rows(run_id) != m.rows(
            run_id,
        ),
        other != m.live_count ==> (MemSample { live_count: other, ..m }).rows(run_id) != m.rows(
            run_id,
        ),
        other != m.pending_bytes ==> (MemSample { pending_bytes: other, ..m }).rows(run_id)
            != m.rows(run_id),
        other != e.detail ==> (EventMark { detail: other, ..e }).rows(run_id) != e.rows(run_id),
{
    let n = Seq::<char>::empty();
    let (t, k) = (m.t_ns, m.token);
    let bytes = |v: u64| row(run_id, t, m.signal("live_bytes"@), v, "bytes"@, k);
    let count = |v: u64| row(run_id, t, m.signal("live_count"@), v, "count"@, k);
    let parked = |v: u64| row(run_id, t, m.signal("pending_bytes"@), v, "bytes"@, k);
    if other != m.live_bytes {
        law_a_line_shows_its_value(run_id, t, m.signal("live_bytes"@), m.live_bytes, other, "bytes"@, k);
        let x = MemSample { live_bytes: other, ..m };
        let b = count(m.live_count) + parked(m.pending_bytes);
        assert(m.rows(run_id) =~= n + bytes(m.live_bytes) + b);
        assert(x.rows(run_id) =~= n + bytes(other) + b);
        if x.rows(run_id) == m.rows(run_id) {
            lemma_middle(n, bytes(m.live_bytes), bytes(other), b);
        }
    }
    if other != m.live_count {
        law_a_line_shows_its_value(run_id, t, m.signal("live_count"@), m.live_count, other, "count"@, k);
        let x = MemSample { live_count: other, ..m };
        let a = bytes(m.live_bytes);
        let b = parked(m.pending_bytes);
        assert(m.rows(run_id) =~= a + count(m.live_count) + b);
        assert(x.rows(run_id) =~= a + count(other) + b);
        if x.rows(run_id) == m.rows(run_id) {
            lemma_middle(a, count(m.live_count), count(other), b);
        }
    }
    if other != m.pending_bytes {
        law_a_line_shows_its_value(
            run_id,
            t,
            m.signal("pending_bytes"@),
            m.pending_bytes,
            other,
            "bytes"@,
            k,
        );
        let x = MemSample { pending_bytes: other, ..m };
        let a = bytes(m.live_bytes) + count(m.live_count);
        assert(m.rows(run_id) =~= a + parked(m.pending_bytes) + n);
        assert(x.rows(run_id) =~= a + parked(other) + n);
        if x.rows(run_id) == m.rows(run_id) {
            lemma_middle(a, parked(m.pending_bytes), parked(other), n);
        }
    }
    if other != e.detail {
        law_a_line_shows_its_value(
            run_id,
            e.t_ns,
            "event/"@ + e.event.spec_name(),
            e.detail,
            other,
            "marker"@,
            e.token,
        );
    }
}

} // verus!
