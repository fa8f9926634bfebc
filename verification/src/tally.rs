//! Names in order, and how often each occurred.

use vstd::prelude::*;

verus! {

/// The two texts agree up to `k`, and there the first one ends or has the smaller character.
pub open spec fn parts_at(a: Seq<char>, b: Seq<char>, k: int) -> bool {
    &&& 0 <= k <= a.len()
    &&& k < b.len()
    &&& forall|i: int| 0 <= i < k ==> a[i] == b[i]
    &&& k == a.len() || (a[k] as int) < (b[k] as int)
}

/// `a` comes before `b` in the order of texts: character by character, a prefix first.
pub open spec fn precedes(a: Seq<char>, b: Seq<char>) -> bool {
    exists|k: int| #[trigger] parts_at(a, b, k)
}

/// Of two texts one comes before the other, or they are the same.
pub proof fn lemma_precedes_total(a: Seq<char>, b: Seq<char>)
    ensures
        precedes(a, b) || a == b || precedes(b, a),
{
    lemma_parting(a, b, 0);
}

proof fn lemma_parting(a: Seq<char>, b: Seq<char>, k: int)
    requires
        0 <= k <= a.len(),
        k <= b.len(),
        forall|i: int| 0 <= i < k ==> a[i] == b[i],
    ensures
        precedes(a, b) || a == b || precedes(b, a),
    decreases a.len() - k,
{
    if k == a.len() {
        if k == b.len() {
            assert(a =~= b);
        } else {
            assert(parts_at(a, b, k));
        }
    } else if k == b.len() {
        assert(parts_at(b, a, k));
    } else if (a[k] as int) < (b[k] as int) {
        assert(parts_at(a, b, k));
    } else if (b[k] as int) < (a[k] as int) {
        assert(parts_at(b, a, k));
    } else {
        lemma_parting(a, b, k + 1);
    }
}

/// Never both, and no text comes before itself.
pub proof fn lemma_precedes_strict(a: Seq<char>, b: Seq<char>)
    requires
        precedes(a, b),
    ensures
        !precedes(b, a),
        a != b,
{
    let k = choose|k: int| #[trigger] parts_at(a, b, k);
    if precedes(b, a) {
        let l = choose|l: int| #[trigger] parts_at(b, a, l);
        if k < l {
            assert(b[k] == a[k]);
        } else if l < k {
            assert(a[l] == b[l]);
        }
    }
}

pub proof fn lemma_precedes_transitive(a: Seq<char>, b: Seq<char>, c: Seq<char>)
    requires
        precedes(a, b),
        precedes(b, c),
    ensures
        precedes(a, c),
{
    let k = choose|k: int| #[trigger] parts_at(a, b, k);
    let l = choose|l: int| #[trigger] parts_at(b, c, l);
    assert(parts_at(a, c, if k < l { k } else { l }));
}

/// Whether `a` comes before `b`.
pub fn comes_before(a: &str, b: &str) -> (r: bool)
    ensures
        r == precedes(a@, b@),
{
    let n: usize = a.unicode_len();
    let m: usize = b.unicode_len();
    let mut k: usize = 0;
    while k < n && k < m
        invariant
            n == a@.len(),
            m == b@.len(),
            k <= n,
            k <= m,
            forall|i: int| 0 <= i < k ==> a@[i] == b@[i],
        decreases n - k,
    {
        let x = a.get_char(k);
        let y = b.get_char(k);
        if (x as u32) < (y as u32) {
            assert(parts_at(a@, b@, k as int));
            return true;
        }
        if (y as u32) < (x as u32) {
            proof {
                assert(parts_at(b@, a@, k as int));
                lemma_precedes_strict(b@, a@);
            }
            return false;
        }
        k += 1;
    }
    proof {
        if k < m {
            assert(parts_at(a@, b@, k as int));
        } else if k < n {
            assert(parts_at(b@, a@, k as int));
            lemma_precedes_strict(b@, a@);
        } else {
            assert(a@ =~= b@);
            if precedes(a@, b@) {
                lemma_precedes_strict(a@, b@);
            }
        }
    }
    k < m
}

/// One name and how often it occurred.
#[derive(Debug)]
pub struct NameCount {
    pub name: String,
    pub count: usize,
}

/// The names stand in order, each once.
pub open spec fn ascending(entries: Seq<NameCount>) -> bool {
    forall|i: int, j: int|
        0 <= i < j < entries.len() ==> precedes(
            (#[trigger] entries[i]).name@,
            (#[trigger] entries[j]).name@,
        )
}

/// `name` is entry `i`.
pub open spec fn is_entry(entries: Seq<NameCount>, name: Seq<char>, i: int) -> bool {
    0 <= i < entries.len() && entries[i].name@ == name
}

/// What the entries come to: how often each name occurred.
pub open spec fn counts(entries: Seq<NameCount>) -> Map<Seq<char>, nat> {
    Map::new(
        |name: Seq<char>| exists|i: int| #[trigger] is_entry(entries, name, i),
        |name: Seq<char>|
            entries[choose|i: int| #[trigger] is_entry(entries, name, i)].count as nat,
    )
}

/// The counts once `name` has occurred again.
pub open spec fn counted(counts: Map<Seq<char>, nat>, name: Seq<char>) -> Map<Seq<char>, nat> {
    counts.insert(name, occurrences(counts, name) + 1)
}

/// How often `name` occurred.
pub open spec fn occurrences(counts: Map<Seq<char>, nat>, name: Seq<char>) -> nat {
    if counts.contains_key(name) {
        counts[name]
    } else {
        0
    }
}

/// How often each of the first `n` names occurs among them.
pub open spec fn counted_all(names: Seq<Seq<char>>, n: int) -> Map<Seq<char>, nat>
    decreases n,
{
    if n <= 0 {
        Map::empty()
    } else {
        counted(counted_all(names, n - 1), names[n - 1])
    }
}

/// How often each name occurred, with the names in order.
#[derive(Debug)]
pub struct Tally {
    entries: Vec<NameCount>,
}

impl View for Tally {
    type V = Map<Seq<char>, nat>;

    closed spec fn view(&self) -> Map<Seq<char>, nat> {
        counts(self.entries@)
    }
}

/// In an ordered list every entry stands for its name.
pub proof fn lemma_entry(entries: Seq<NameCount>, i: int)
    requires
        ascending(entries),
        0 <= i < entries.len(),
    ensures
        counts(entries).contains_key(entries[i].name@),
        counts(entries)[entries[i].name@] == entries[i].count,
        forall|j: int| #[trigger] is_entry(entries, entries[i].name@, j) ==> j == i,
{
    let name = entries[i].name@;
    assert(is_entry(entries, name, i));
    assert forall|j: int| #[trigger] is_entry(entries, name, j) implies j == i by {
        if j < i {
            lemma_precedes_strict(entries[j].name@, entries[i].name@);
        } else if i < j {
            lemma_precedes_strict(entries[i].name@, entries[j].name@);
        }
    }
}

impl Tally {
    #[verifier::type_invariant]
    spec fn in_order(self) -> bool {
        ascending(self.entries@)
    }

    pub fn new() -> (t: Self)
        ensures
            t@ == Map::<Seq<char>, nat>::empty(),
    {
        let t = Tally { entries: Vec::new() };
        assert(t@ =~= Map::empty());
        t
    }

    /// The entries, in the order of their names.
    pub fn entries(&self) -> (v: &[NameCount])
        ensures
            ascending(v@),
            self@ == counts(v@),
    {
        proof {
            use_type_invariant(self);
        }
        self.entries.as_slice()
    }

    /// How often `name` occurred.
    pub fn get(&self, name: &str) -> (n: usize)
        ensures
            n == occurrences(self@, name@),
    {
        proof {
            use_type_invariant(self);
        }
        for i in 0..self.entries.len()
            invariant
                ascending(self.entries@),
                forall|j: int| 0 <= j < i ==> (#[trigger] self.entries@[j]).name@ != name@,
        {
            if same(self.entries[i].name.as_str(), name) {
                proof {
                    lemma_entry(self.entries@, i as int);
                }
                return self.entries[i].count;
            }
        }
        0
    }

    /// Counts one more occurrence of `name`.
    pub fn count(&mut self, name: &str)
        requires
            occurrences(old(self)@, name@) < usize::MAX,
        ensures
            final(self)@ == counted(old(self)@, name@),
    {
        proof {
            use_type_invariant(&*self);
        }
        let mut entries: Vec<NameCount> = Vec::new();
        std::mem::swap(&mut entries, &mut self.entries);
        let ghost before = entries@;
        let n: usize = entries.len();
        let mut i: usize = 0;
        while i < n && comes_before(entries[i].name.as_str(), name)
            invariant
                i <= n,
                n == entries@.len(),
                entries@ == before,
                forall|j: int| 0 <= j < i ==> precedes((#[trigger] entries@[j]).name@, name@),
            decreases n - i,
        {
            i += 1;
        }
        if i < n && same(entries[i].name.as_str(), name) {
            proof {
                lemma_entry(before, i as int);
            }
            let c: usize = entries[i].count;
            entries[i].count = c + 1;
            proof {
                lemma_bumped(before, entries@, i as int);
            }
        } else {
            entries.insert(i, NameCount { name: name.to_owned(), count: 1 });
            proof {
                if i < n {
                    lemma_precedes_total(before[i as int].name@, name@);
                }
                lemma_inserted(before, entries@, i as int);
            }
        }
        self.entries = entries;
    }
}

proof fn lemma_bumped(before: Seq<NameCount>, after: Seq<NameCount>, i: int)
    requires
        ascending(before),
        0 <= i < before.len(),
        before.len() == after.len(),
        forall|j: int| 0 <= j < before.len() && j != i ==> after[j] == #[trigger] before[j],
        after[i].name@ == before[i].name@,
        after[i].count == before[i].count + 1,
    ensures
        ascending(after),
        counts(after) == counted(counts(before), before[i].name@),
{
    assert forall|j: int| 0 <= j < before.len() implies (#[trigger] after[j]).name@
        == before[j].name@ by {
        if j != i {
            assert(after[j] == before[j]);
        }
    }
    assert(ascending(after));
    let want = counted(counts(before), before[i].name@);
    lemma_entry(before, i);
    assert forall|name: Seq<char>| #[trigger]
        counts(after).contains_key(name) == want.contains_key(name) by {
        if counts(after).contains_key(name) {
            let j = choose|j: int| #[trigger] is_entry(after, name, j);
            assert(is_entry(before, name, j));
        }
        if counts(before).contains_key(name) {
            let j = choose|j: int| #[trigger] is_entry(before, name, j);
            assert(is_entry(after, name, j));
        }
    }
    assert forall|name: Seq<char>| counts(after).contains_key(name) implies #[trigger] counts(
        after,
    )[name] == want[name] by {
        let j = choose|j: int| #[trigger] is_entry(after, name, j);
        lemma_entry(after, j);
        lemma_entry(before, j);
        if j != i {
            assert(after[j] == before[j]);
            assert(!is_entry(before, name, i));
        }
    }
    assert(counts(after) =~= want);
}

proof fn lemma_inserted(before: Seq<NameCount>, after: Seq<NameCount>, i: int)
    requires
        ascending(before),
        0 <= i <= before.len(),
        after == before.insert(i, after[i]),
        after[i].count == 1,
        forall|j: int| 0 <= j < i ==> precedes((#[trigger] before[j]).name@, after[i].name@),
        i < before.len() ==> precedes(after[i].name@, before[i].name@),
    ensures
        ascending(after),
        counts(after) == counted(counts(before), after[i].name@),
{
    let new = after[i].name@;
    assert forall|j: int| i <= j < before.len() implies precedes(
        new,
        (#[trigger] before[j]).name@,
    ) by {
        if j > i {
            lemma_precedes_transitive(new, before[i].name@, before[j].name@);
        }
    }
    assert(ascending(after));
    let want = counted(counts(before), new);
    assert(!counts(before).contains_key(new)) by {
        if counts(before).contains_key(new) {
            let j = choose|j: int| #[trigger] is_entry(before, new, j);
            if j < i {
                lemma_precedes_strict(before[j].name@, new);
            } else {
                lemma_precedes_strict(new, before[j].name@);
            }
        }
    }
    lemma_entry(after, i);
    assert forall|name: Seq<char>| #[trigger]
        counts(after).contains_key(name) == want.contains_key(name) by {
        if counts(after).contains_key(name) {
            let j = choose|j: int| #[trigger] is_entry(after, name, j);
            if j < i {
                assert(is_entry(before, name, j));
            } else if j > i {
                assert(is_entry(before, name, j - 1));
            }
        }
        if counts(before).contains_key(name) {
            let j = choose|j: int| #[trigger] is_entry(before, name, j);
            if j < i {
                assert(is_entry(after, name, j));
            } else {
                assert(is_entry(after, name, j + 1));
            }
        }
    }
    assert forall|name: Seq<char>| counts(after).contains_key(name) implies #[trigger] counts(
        after,
    )[name] == want[name] by {
        let j = choose|j: int| #[trigger] is_entry(after, name, j);
        lemma_entry(after, j);
        if j < i {
            lemma_entry(before, j);
        } else if j > i {
            lemma_entry(before, j - 1);
        }
    }
    assert(counts(after) =~= want);
}

/// Whether the two texts are the same.
pub fn same(a: &str, b: &str) -> (r: bool)
    ensures
        r == (a@ == b@),
{
    let r = !comes_before(a, b) && !comes_before(b, a);
    proof {
        lemma_precedes_total(a@, b@);
        if precedes(a@, b@) {
            lemma_precedes_strict(a@, b@);
        }
        if precedes(b@, a@) {
            lemma_precedes_strict(b@, a@);
        }
    }
    r
}

/// One more occurrence of a name counts for that name, once, and for no other.
pub proof fn law_one_more_occurrence(c: Map<Seq<char>, nat>, name: Seq<char>, other: Seq<char>)
    ensures
        occurrences(counted(c, name), name) == occurrences(c, name) + 1,
        other != name ==> occurrences(counted(c, name), other) == occurrences(c, other),
        other != name ==> (counted(c, name).contains_key(other) <==> c.contains_key(other)),
        counted(c, name).contains_key(name),
{
}

/// A name is counted as often as it occurs among the names, and is listed where it does.
pub proof fn law_names_are_counted_as_often_as_they_occur(
    names: Seq<Seq<char>>,
    n: int,
    name: Seq<char>,
)
    requires
        0 <= n <= names.len(),
    ensures
        occurrences(counted_all(names, n), name) == names.take(n).filter(
            |x: Seq<char>| x == name,
        ).len(),
        counted_all(names, n).contains_key(name) <==> exists|i: int|
            0 <= i < n && #[trigger] names[i] == name,
    decreases n,
{
    let is = |x: Seq<char>| x == name;
    reveal(Seq::filter);
    if n == 0 {
        assert(names.take(0).filter(is).len() == 0);
    } else {
        law_names_are_counted_as_often_as_they_occur(names, n - 1, name);
        assert(names.take(n).drop_last() =~= names.take(n - 1));
        assert(names.take(n).last() == names[n - 1]);
        if exists|i: int| 0 <= i < n && #[trigger] names[i] == name {
            let i = choose|i: int| 0 <= i < n && #[trigger] names[i] == name;
            assert(i == n - 1 || 0 <= i < n - 1);
        }
        assert(names[n - 1] == names[n - 1]);
    }
}

/// Texts are ordered by the first character in which they differ, and a text comes before every
/// longer one that it begins.
pub proof fn law_the_first_difference_decides(
    head: Seq<char>,
    a: char,
    b: char,
    rest: Seq<char>,
    other: Seq<char>,
)
    ensures
        (a as int) < (b as int) ==> precedes(head.push(a) + rest, head.push(b) + other),
        (a as int) < (b as int) ==> !precedes(head.push(b) + other, head.push(a) + rest),
        precedes(head, head.push(a) + rest),
        !precedes(head.push(a) + rest, head),
        !precedes(head, head),
{
    let k = head.len() as int;
    let x = head.push(a) + rest;
    let y = head.push(b) + other;
    assert(x[k] == a && y[k] == b);
    assert(forall|i: int| 0 <= i < k ==> x[i] == head[i] && y[i] == head[i]);
    if (a as int) < (b as int) {
        assert(parts_at(x, y, k));
        if precedes(y, x) {
            let l = choose|l: int| #[trigger] parts_at(y, x, l);
            assert(l < k || l == k || l > k);
            if l > k {
                assert(y[k] == x[k]);
            } else if l < k {
                assert(y[l] == x[l]);
            }
        }
    }
    assert(parts_at(head, x, k));
    if precedes(x, head) {
        let l = choose|l: int| #[trigger] parts_at(x, head, l);
        assert(x[l] == head[l]);
    }
    if precedes(head, head) {
        let l = choose|l: int| #[trigger] parts_at(head, head, l);
        assert(false);
    }
}

} // verus!
