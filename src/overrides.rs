use vstd::prelude::*;

use crate::names::{
    compare_names, lemma_name_lt_irreflexive, lemma_name_lt_total, lemma_name_lt_transitive,
    name_lt,
};

verus! {

/// Bit pattern of the IEEE 754 double 1.0, the encoding of `true`.
pub const TRUE_BITS: u64 = 0x3FF0_0000_0000_0000;

/// Bit pattern of the IEEE 754 double 0.0, the encoding of `false`.
pub const FALSE_BITS: u64 = 0;

/// The view of a list of named values.
pub open spec fn pairs_view(v: Seq<(String, u64)>) -> Seq<(Seq<char>, u64)> {
    v.map_values(|p: (String, u64)| (p.0@, p.1))
}

/// Each name comes strictly before the next one.
pub open spec fn names_sorted(s: Seq<(Seq<char>, u64)>) -> bool {
    forall|i: int, j: int| 0 <= i < j < s.len() ==> name_lt(#[trigger] s[i].0, #[trigger] s[j].0)
}

/// No name occurs twice.
pub open spec fn names_unique(s: Seq<(Seq<char>, u64)>) -> bool {
    forall|i: int, j: int| 0 <= i < j < s.len() ==> #[trigger] s[i].0 != #[trigger] s[j].0
}

/// Pairs of the same name carry the same value.
pub open spec fn names_consistent(s: Seq<(Seq<char>, u64)>) -> bool {
    forall|i: int, j: int|
        0 <= i < s.len() && 0 <= j < s.len() && #[trigger] s[i].0 == #[trigger] s[j].0 ==> s[i].1
            == s[j].1
}

/// The map that a list of named values holds; a later pair wins over an
/// earlier one of the same name.
pub open spec fn pairs_map(s: Seq<(Seq<char>, u64)>) -> Map<Seq<char>, u64>
    decreases s.len(),
{
    if s.len() == 0 {
        Map::empty()
    } else {
        pairs_map(s.drop_last()).insert(s.last().0, s.last().1)
    }
}

/// The canonical sequence of a map: its pairs in ascending order of name.
pub open spec fn canonical_of(m: Map<Seq<char>, u64>) -> Seq<(Seq<char>, u64)> {
    choose|s: Seq<(Seq<char>, u64)>| names_sorted(s) && pairs_map(s) == m
}

/// A sorted list names nothing twice.
pub proof fn lemma_sorted_unique(s: Seq<(Seq<char>, u64)>)
    requires
        names_sorted(s),
    ensures
        names_unique(s),
        names_consistent(s),
{
    assert forall|i: int, j: int| 0 <= i < j < s.len() implies #[trigger] s[i].0
        != #[trigger] s[j].0 by {
        lemma_name_lt_irreflexive(s[i].0);
    }
    lemma_unique_consistent(s);
}

/// A list that names nothing twice gives no name two values.
pub proof fn lemma_unique_consistent(s: Seq<(Seq<char>, u64)>)
    requires
        names_unique(s),
    ensures
        names_consistent(s),
{
    assert forall|i: int, j: int|
        0 <= i < s.len() && 0 <= j < s.len() && #[trigger] s[i].0 == #[trigger] s[j].0 implies s[i].1
        == s[j].1 by {
        if i < j {
            assert(s[i].0 != s[j].0);
        } else if j < i {
            assert(s[j].0 != s[i].0);
        }
    }
}

/// What a list maps each name to, when no name has two values in it.
pub proof fn lemma_pairs_map(s: Seq<(Seq<char>, u64)>)
    requires
        names_consistent(s),
    ensures
        forall|k: Seq<char>| #[trigger]
            pairs_map(s).contains_key(k) <==> exists|i: int| 0 <= i < s.len() && s[i].0 == k,
        forall|i: int| 0 <= i < s.len() ==> #[trigger] pairs_map(s)[s[i].0] == s[i].1,
    decreases s.len(),
{
    if s.len() > 0 {
        let t = s.drop_last();
        assert(names_consistent(t));
        lemma_pairs_map(t);
        assert(pairs_map(s) == pairs_map(t).insert(s.last().0, s.last().1));
        assert forall|k: Seq<char>| #[trigger]
            pairs_map(s).contains_key(k) <==> exists|i: int| 0 <= i < s.len() && s[i].0 == k by {
            if pairs_map(s).contains_key(k) && k != s.last().0 {
                assert(pairs_map(t).contains_key(k));
                let i = choose|i: int| 0 <= i < t.len() && t[i].0 == k;
                assert(s[i].0 == k);
            }
            if exists|i: int| 0 <= i < s.len() && s[i].0 == k {
                let i = choose|i: int| 0 <= i < s.len() && s[i].0 == k;
                if i < s.len() - 1 {
                    assert(t[i].0 == k);
                }
            }
        }
        assert forall|i: int| 0 <= i < s.len() implies #[trigger] pairs_map(s)[s[i].0]
            == s[i].1 by {
            if i < s.len() - 1 {
                assert(t[i] == s[i]);
            }
        }
    }
}

/// A map has one sorted list of pairs.
pub proof fn lemma_sorted_pairs_equal(s1: Seq<(Seq<char>, u64)>, s2: Seq<(Seq<char>, u64)>)
    requires
        names_sorted(s1),
        names_sorted(s2),
        pairs_map(s1) == pairs_map(s2),
    ensures
        s1 == s2,
    decreases s1.len() + s2.len(),
{
    lemma_sorted_unique(s1);
    lemma_sorted_unique(s2);
    lemma_pairs_map(s1);
    lemma_pairs_map(s2);
    if s1.len() == 0 || s2.len() == 0 {
        if s1.len() > 0 {
            assert(pairs_map(s1).contains_key(s1[0].0));
        }
        if s2.len() > 0 {
            assert(pairs_map(s2).contains_key(s2[0].0));
        }
        assert(s1 =~= s2);
    } else {
        let a = s1.last().0;
        let b = s2.last().0;
        assert(pairs_map(s2).contains_key(a));
        assert(pairs_map(s1).contains_key(b));
        let j = choose|j: int| 0 <= j < s2.len() && s2[j].0 == a;
        let k = choose|k: int| 0 <= k < s1.len() && s1[k].0 == b;
        if a != b {
            assert(j < s2.len() - 1);
            assert(k < s1.len() - 1);
            lemma_name_lt_total(a, b);
        }
        assert(pairs_map(s1)[a] == s1.last().1);
        assert(pairs_map(s2)[b] == s2.last().1);
        let t1 = s1.drop_last();
        let t2 = s2.drop_last();
        assert(names_sorted(t1));
        assert(names_sorted(t2));
        lemma_drop_last_map(s1);
        lemma_drop_last_map(s2);
        lemma_sorted_pairs_equal(t1, t2);
        assert(s1 =~= t1.push(s1.last()));
        assert(s2 =~= t2.push(s2.last()));
    }
}

/// Without its last pair a sorted list maps the other names as before.
proof fn lemma_drop_last_map(s: Seq<(Seq<char>, u64)>)
    requires
        names_sorted(s),
        s.len() > 0,
    ensures
        pairs_map(s.drop_last()) == pairs_map(s).remove(s.last().0),
{
    let t = s.drop_last();
    lemma_sorted_unique(s);
    assert(names_unique(t));
    lemma_unique_consistent(t);
    lemma_pairs_map(t);
    if pairs_map(t).contains_key(s.last().0) {
        let i = choose|i: int| 0 <= i < t.len() && t[i].0 == s.last().0;
        assert(s[i].0 == s[s.len() - 1].0);
    }
    assert(pairs_map(t) =~= pairs_map(s).remove(s.last().0));
}

/// A sorted list is the canonical sequence of the map it holds.
pub proof fn lemma_canonical_of_sorted(s: Seq<(Seq<char>, u64)>)
    requires
        names_sorted(s),
    ensures
        canonical_of(pairs_map(s)) == s,
{
    let m = pairs_map(s);
    assert(names_sorted(s) && pairs_map(s) == m);
    let c = canonical_of(m);
    lemma_sorted_pairs_equal(c, s);
}

/// A list with unique names holds `m` when it has exactly the names of `m`,
/// each with its value in `m`.
pub proof fn lemma_pairs_map_eq(s: Seq<(Seq<char>, u64)>, m: Map<Seq<char>, u64>)
    requires
        names_unique(s),
        forall|k: Seq<char>| #[trigger]
            m.contains_key(k) <==> exists|i: int| 0 <= i < s.len() && s[i].0 == k,
        forall|i: int| 0 <= i < s.len() ==> #[trigger] m[s[i].0] == s[i].1,
    ensures
        pairs_map(s) == m,
{
    lemma_unique_consistent(s);
    lemma_pairs_map(s);
    assert forall|k: Seq<char>| #[trigger] pairs_map(s).contains_key(k) implies pairs_map(s)[k]
        == m[k] by {
        let i = choose|i: int| 0 <= i < s.len() && s[i].0 == k;
        assert(pairs_map(s)[s[i].0] == s[i].1);
        assert(m[s[i].0] == s[i].1);
    }
    assert(pairs_map(s) =~= m);
}

/// A set of specialization constants: each name maps to one value, given as
/// the bit pattern of an IEEE 754 double (so two values are the same exactly
/// when their bits are). Booleans are encoded as 1.0 and 0.0.
///
/// The pairs are kept in ascending order of name, so the order in which they
/// were set leaves no trace.
#[derive(Clone, Debug)]
pub struct Overrides {
    entries: Vec<(String, u64)>,
}

impl View for Overrides {
    type V = Map<Seq<char>, u64>;

    closed spec fn view(&self) -> Map<Seq<char>, u64> {
        pairs_map(pairs_view(self.entries@))
    }
}

impl Overrides {
    /// The pairs are stored in ascending order of name.
    pub closed spec fn wf(&self) -> bool {
        names_sorted(pairs_view(self.entries@))
    }

    /// An empty set.
    pub fn new() -> (r: Self)
        ensures
            r.wf(),
            r@ == Map::<Seq<char>, u64>::empty(),
    {
        let r = Overrides { entries: Vec::new() };
        assert(pairs_view(r.entries@) =~= Seq::empty());
        r
    }

    /// Where `name` stands or would stand, and whether it is there.
    fn position(&self, name: &str) -> (r: (usize, bool))
        ensures
            r.0 <= self.entries@.len(),
            forall|j: int| 0 <= j < r.0 ==> name_lt(#[trigger] self.entries@[j].0@, name@),
            r.1 ==> r.0 < self.entries@.len() && self.entries@[r.0 as int].0@ == name@,
            !r.1 ==> r.0 == self.entries@.len() || name_lt(name@, self.entries@[r.0 as int].0@),
    {
        let len = self.entries.len();
        let mut i: usize = 0;
        while i < len
            invariant
                len == self.entries@.len(),
                i <= len,
                forall|j: int| 0 <= j < i ==> name_lt(#[trigger] self.entries@[j].0@, name@),
            decreases len - i,
        {
            let entry = &self.entries[i];
            assert(entry.0@ == self.entries@[i as int].0@);
            let c = compare_names(entry.0.as_str(), name);
            if c == 0 {
                return (i, true);
            }
            if c == 1 {
                return (i, false);
            }
            assert(name_lt(self.entries@[i as int].0@, name@));
            i = i + 1;
        }
        (len, false)
    }

    /// Sets `name` to `value`, replacing any value it had.
    pub fn set(&mut self, name: &str, value: u64)
        requires
            old(self).wf(),
        ensures
            final(self).wf(),
            final(self)@ == old(self)@.insert(name@, value),
    {
        let ghost s = pairs_view(self.entries@);
        let ghost m = old(self)@.insert(name@, value);
        let (i, found) = self.position(name);
        let pair = (name.to_owned(), value);
        proof {
            lemma_sorted_unique(s);
            lemma_pairs_map(s);
        }
        if found {
            let ghost t = s.update(i as int, (name@, value));
            proof {
                assert forall|a: int, b: int| 0 <= a < b < t.len() implies name_lt(
                    #[trigger] t[a].0,
                    #[trigger] t[b].0,
                ) by {
                    assert(t[a].0 == s[a].0);
                    assert(t[b].0 == s[b].0);
                }
                lemma_sorted_unique(t);
                assert forall|k: Seq<char>| #[trigger]
                    m.contains_key(k) <==> exists|j: int| 0 <= j < t.len() && t[j].0 == k by {
                    if m.contains_key(k) && k != name@ {
                        assert(pairs_map(s).contains_key(k));
                        let j = choose|j: int| 0 <= j < s.len() && s[j].0 == k;
                        assert(t[j].0 == k);
                    }
                    if k == name@ {
                        assert(t[i as int].0 == k);
                    }
                    if exists|j: int| 0 <= j < t.len() && t[j].0 == k {
                        let j = choose|j: int| 0 <= j < t.len() && t[j].0 == k;
                        assert(s[j].0 == k);
                    }
                }
                assert forall|j: int| 0 <= j < t.len() implies #[trigger] m[t[j].0] == t[j].1 by {
                    if j != i {
                        assert(s[j] == t[j]);
                        assert(s[j].0 != s[i as int].0);
                    }
                }
                lemma_pairs_map_eq(t, m);
                assert(pairs_view(self.entries@.update(i as int, pair)) =~= t);
            }
            self.entries.set(i, pair);
        } else {
            let ghost t = s.insert(i as int, (name@, value));
            proof {
                assert forall|a: int, b: int| 0 <= a < b < t.len() implies name_lt(
                    #[trigger] t[a].0,
                    #[trigger] t[b].0,
                ) by {
                    if b == i {
                        assert(name_lt(s[a].0, name@));
                    } else if a == i {
                        if b > i + 1 {
                            lemma_name_lt_transitive(name@, s[i as int].0, s[b - 1].0);
                        }
                    } else if a > i {
                        assert(t[a] == s[a - 1]);
                        assert(t[b] == s[b - 1]);
                    } else if b > i {
                        assert(t[b] == s[b - 1]);
                        if b - 1 > i {
                            lemma_name_lt_transitive(name@, s[i as int].0, s[b - 1].0);
                        }
                        lemma_name_lt_transitive(s[a].0, name@, s[b - 1].0);
                    }
                }
                lemma_sorted_unique(t);
                assert forall|k: Seq<char>| #[trigger]
                    m.contains_key(k) <==> exists|j: int| 0 <= j < t.len() && t[j].0 == k by {
                    if m.contains_key(k) && k != name@ {
                        assert(pairs_map(s).contains_key(k));
                        let j = choose|j: int| 0 <= j < s.len() && s[j].0 == k;
                        if j < i {
                            assert(t[j].0 == k);
                        } else {
                            assert(t[j + 1].0 == k);
                        }
                    }
                    if k == name@ {
                        assert(t[i as int].0 == k);
                    }
                    if exists|j: int| 0 <= j < t.len() && t[j].0 == k {
                        let j = choose|j: int| 0 <= j < t.len() && t[j].0 == k;
                        if j < i {
                            assert(s[j].0 == k);
                        } else if j > i {
                            assert(s[j - 1].0 == k);
                        }
                    }
                }
                assert forall|j: int| 0 <= j < t.len() implies #[trigger] m[t[j].0] == t[j].1 by {
                    if j < i {
                        assert(t[j] == s[j]);
                        assert(t[j].0 != t[i as int].0);
                    } else if j > i {
                        assert(t[j] == s[j - 1]);
                        assert(t[j].0 != t[i as int].0);
                    }
                }
                lemma_pairs_map_eq(t, m);
                assert(pairs_view(self.entries@.insert(i as int, pair)) =~= t);
            }
            self.entries.insert(i, pair);
        }
    }

    /// Sets `name` to `value` and hands the set back.
    pub fn with(self, name: &str, value: u64) -> (r: Self)
        requires
            self.wf(),
        ensures
            r.wf(),
            r@ == self@.insert(name@, value),
    {
        let mut r = self;
        r.set(name, value);
        r
    }

    /// Sets `name` to the encoding of `v`: 1.0 for true, 0.0 for false.
    pub fn set_bool(&mut self, name: &str, v: bool)
        requires
            old(self).wf(),
        ensures
            final(self).wf(),
            final(self)@ == old(self)@.insert(name@, if v { TRUE_BITS } else { FALSE_BITS }),
    {
        let bits = if v {
            TRUE_BITS
        } else {
            FALSE_BITS
        };
        self.set(name, bits);
    }

    /// Removes `name` and its value, if it is there.
    pub fn remove(&mut self, name: &str)
        requires
            old(self).wf(),
        ensures
            final(self).wf(),
            final(self)@ == old(self)@.remove(name@),
    {
        let ghost s = pairs_view(self.entries@);
        let ghost m = old(self)@.remove(name@);
        let (i, found) = self.position(name);
        proof {
            lemma_sorted_unique(s);
            lemma_pairs_map(s);
        }
        if found {
            let ghost t = s.remove(i as int);
            proof {
                assert forall|a: int, b: int| 0 <= a < b < t.len() implies name_lt(
                    #[trigger] t[a].0,
                    #[trigger] t[b].0,
                ) by {
                    let a2 = if a < i { a } else { a + 1 };
                    let b2 = if b < i { b } else { b + 1 };
                    assert(t[a] == s[a2]);
                    assert(t[b] == s[b2]);
                }
                lemma_sorted_unique(t);
                assert forall|k: Seq<char>| #[trigger]
                    m.contains_key(k) <==> exists|j: int| 0 <= j < t.len() && t[j].0 == k by {
                    if m.contains_key(k) {
                        assert(pairs_map(s).contains_key(k));
                        let j = choose|j: int| 0 <= j < s.len() && s[j].0 == k;
                        if j < i {
                            assert(t[j].0 == k);
                        } else {
                            assert(t[j - 1].0 == k);
                        }
                    }
                    if exists|j: int| 0 <= j < t.len() && t[j].0 == k {
                        let j = choose|j: int| 0 <= j < t.len() && t[j].0 == k;
                        let j2 = if j < i { j } else { j + 1 };
                        assert(s[j2].0 == k);
                        assert(s[j2].0 != s[i as int].0);
                    }
                }
                assert forall|j: int| 0 <= j < t.len() implies #[trigger] m[t[j].0] == t[j].1 by {
                    let j2 = if j < i { j } else { j + 1 };
                    assert(t[j] == s[j2]);
                    assert(s[j2].0 != s[i as int].0);
                }
                lemma_pairs_map_eq(t, m);
                assert(pairs_view(self.entries@.remove(i as int)) =~= t);
            }
            self.entries.remove(i);
        } else {
            proof {
                if pairs_map(s).contains_key(name@) {
                    let j = choose|j: int| 0 <= j < s.len() && s[j].0 == name@;
                    if j < i {
                        lemma_name_lt_irreflexive(name@);
                    } else {
                        if j > i {
                            lemma_name_lt_transitive(name@, s[i as int].0, s[j].0);
                        }
                        lemma_name_lt_irreflexive(name@);
                    }
                }
                assert(pairs_map(s) =~= m);
            }
        }
    }

    /// The pairs in ascending order of name: the one sequence that every set
    /// holding the same name-value pairs yields.
    pub fn canonical_pairs(&self) -> (r: &[(String, u64)])
        requires
            self.wf(),
        ensures
            pairs_view(r@) == canonical_of(self@),
    {
        proof {
            lemma_canonical_of_sorted(pairs_view(self.entries@));
        }
        self.entries.as_slice()
    }

    /// The stored pairs, in ascending order of name.
    pub fn get_map(&self) -> (r: &Vec<(String, u64)>)
        requires
            self.wf(),
        ensures
            pairs_view(r@) == canonical_of(self@),
    {
        proof {
            lemma_canonical_of_sorted(pairs_view(self.entries@));
        }
        &self.entries
    }
}

/// The canonical sequence of a set is sorted by name and holds the set.
pub proof fn lemma_canonical_of_view(o: Overrides)
    requires
        o.wf(),
    ensures
        names_sorted(canonical_of(o@)),
        pairs_map(canonical_of(o@)) == o@,
{
    lemma_canonical_of_sorted(pairs_view(o.entries@));
}

impl Default for Overrides {
    fn default() -> (r: Self)
        ensures
            r.wf(),
            r@ == Map::<Seq<char>, u64>::empty(),
    {
        Overrides::new()
    }
}

} // verus!