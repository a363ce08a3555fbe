//! A map from strings to strings, kept as an association list sorted
//! strictly by key.  The sorted shape makes iteration order canonical: two
//! maps with the same contents hold the same entries in the same order,
//! which is what makes the combined content hash deterministic.

use vstd::prelude::*;

use crate::text::lemma_lex_lt_asymmetric;
use crate::text::lemma_lex_lt_connex;
use crate::text::lemma_lex_lt_irreflexive;
use crate::text::lemma_lex_lt_transitive;
use crate::text::lex_lt;
use crate::text::str_eq;
use crate::text::str_lt;

verus! {

/// The views of a sequence of string pairs.
pub open spec fn pairs_view(entries: Seq<(String, String)>) -> Seq<(Seq<char>, Seq<char>)> {
    entries.map_values(|e: (String, String)| (e.0@, e.1@))
}

/// Whether keys are strictly increasing.
pub open spec fn keys_sorted(s: Seq<(Seq<char>, Seq<char>)>) -> bool {
    forall|i: int, j: int| 0 <= i < j < s.len() ==> lex_lt(#[trigger] s[i].0, #[trigger] s[j].0)
}

/// Whether some entry carries the key.
pub open spec fn has_key(s: Seq<(Seq<char>, Seq<char>)>, k: Seq<char>) -> bool {
    exists|i: int| 0 <= i < s.len() && (#[trigger] s[i]).0 == k
}

/// The position of the entry carrying the key.
pub open spec fn key_index(s: Seq<(Seq<char>, Seq<char>)>, k: Seq<char>) -> int {
    choose|i: int| 0 <= i < s.len() && (#[trigger] s[i]).0 == k
}

/// The finite map that an association list denotes.
pub open spec fn assoc_map(s: Seq<(Seq<char>, Seq<char>)>) -> Map<Seq<char>, Seq<char>> {
    Map::new(|k: Seq<char>| has_key(s, k), |k: Seq<char>| s[key_index(s, k)].1)
}

/// Sorted keys are pairwise distinct.
pub proof fn lemma_sorted_distinct(s: Seq<(Seq<char>, Seq<char>)>)
    requires
        keys_sorted(s),
    ensures
        forall|i: int, j: int|
            0 <= i < s.len() && 0 <= j < s.len() && i != j ==> (#[trigger] s[i]).0 != (
            #[trigger] s[j]).0,
{
    assert forall|i: int, j: int|
        0 <= i < s.len() && 0 <= j < s.len() && i != j implies (#[trigger] s[i]).0 != (
    #[trigger] s[j]).0 by {
        if i < j {
            lemma_lex_lt_irreflexive(s[i].0);
        } else {
            lemma_lex_lt_irreflexive(s[j].0);
        }
    }
}

/// In a sorted list the position of a present key is unique and
/// `key_index` finds it.
pub proof fn lemma_key_index(s: Seq<(Seq<char>, Seq<char>)>, k: Seq<char>)
    requires
        keys_sorted(s),
        has_key(s, k),
    ensures
        0 <= key_index(s, k) < s.len(),
        s[key_index(s, k)].0 == k,
        forall|i: int| 0 <= i < s.len() && (#[trigger] s[i]).0 == k ==> i == key_index(s, k),
{
    lemma_sorted_distinct(s);
}

/// Dropping the first entry of a sorted list removes exactly its key from
/// the denoted map.
pub proof fn lemma_assoc_map_drop_first(s: Seq<(Seq<char>, Seq<char>)>)
    requires
        keys_sorted(s),
        s.len() > 0,
    ensures
        keys_sorted(s.drop_first()),
        assoc_map(s.drop_first()) == assoc_map(s).remove(s[0].0),
{
    let t = s.drop_first();
    lemma_sorted_distinct(s);
    assert forall|i: int, j: int| 0 <= i < j < t.len() implies lex_lt(
        #[trigger] t[i].0,
        #[trigger] t[j].0,
    ) by {
        assert(t[i] == s[i + 1]);
        assert(t[j] == s[j + 1]);
    }
    assert forall|k: Seq<char>| #[trigger] has_key(t, k) implies has_key(s, k) && k != s[0].0 by {
        let i = choose|i: int| 0 <= i < t.len() && (#[trigger] t[i]).0 == k;
        assert(s[i + 1] == t[i]);
        assert(s[i + 1].0 != s[0].0);
    }
    assert forall|k: Seq<char>| has_key(s, k) && k != s[0].0 implies #[trigger] has_key(t, k) by {
        let i = choose|i: int| 0 <= i < s.len() && (#[trigger] s[i]).0 == k;
        assert(i != 0);
        assert(t[i - 1] == s[i]);
    }
    assert forall|k: Seq<char>| #[trigger] has_key(t, k) implies assoc_map(t)[k] == assoc_map(
        s,
    )[k] by {
        lemma_key_index(t, k);
        lemma_key_index(s, k);
        let i = key_index(t, k);
        assert(s[i + 1] == t[i]);
        assert(key_index(s, k) == i + 1);
    }
    assert(assoc_map(t) =~= assoc_map(s).remove(s[0].0));
}

/// Two sorted association lists that denote the same map are the same list.
/// This is what makes the sorted form canonical.
pub proof fn lemma_sorted_canonical(a: Seq<(Seq<char>, Seq<char>)>, b: Seq<(Seq<char>, Seq<char>)>)
    requires
        keys_sorted(a),
        keys_sorted(b),
        assoc_map(a) == assoc_map(b),
    ensures
        a =~= b,
    decreases a.len(),
{
    if a.len() == 0 {
        if b.len() > 0 {
            assert(has_key(b, b[0].0));
            assert(assoc_map(b).contains_key(b[0].0));
            assert(assoc_map(a).contains_key(b[0].0));
            assert(false);
        }
    } else if b.len() == 0 {
        assert(has_key(a, a[0].0));
        assert(assoc_map(a).contains_key(a[0].0));
        assert(false);
    } else {
        // The heads carry the minimal keys of equal maps, so they agree.
        assert(has_key(a, a[0].0));
        assert(assoc_map(b).contains_key(a[0].0));
        let j = choose|i: int| 0 <= i < b.len() && (#[trigger] b[i]).0 == a[0].0;
        assert(has_key(b, b[0].0));
        assert(assoc_map(a).contains_key(b[0].0));
        let i = choose|i: int| 0 <= i < a.len() && (#[trigger] a[i]).0 == b[0].0;
        if i > 0 && j > 0 {
            assert(lex_lt(a[0].0, a[i].0));
            assert(lex_lt(b[0].0, b[j].0));
            lemma_lex_lt_asymmetric(a[0].0, b[0].0);
            assert(false);
        }
        assert(a[0].0 == b[0].0);
        lemma_key_index(a, a[0].0);
        lemma_key_index(b, a[0].0);
        assert(key_index(a, a[0].0) == 0);
        assert(key_index(b, a[0].0) == 0);
        assert(assoc_map(a)[a[0].0] == a[0].1);
        assert(assoc_map(b)[a[0].0] == b[0].1);
        assert(a[0] == b[0]);
        lemma_assoc_map_drop_first(a);
        lemma_assoc_map_drop_first(b);
        lemma_sorted_canonical(a.drop_first(), b.drop_first());
        assert forall|x: int| 0 <= x < a.len() implies a[x] == b[x] by {
            if x > 0 {
                assert(a.drop_first()[x - 1] == b.drop_first()[x - 1]);
            }
        }
    }
}

/// The sorted association list that denotes a map: by
/// `lemma_sorted_canonical` there is at most one.
pub open spec fn canonical_entries(m: Map<Seq<char>, Seq<char>>) -> Seq<(Seq<char>, Seq<char>)> {
    choose|s: Seq<(Seq<char>, Seq<char>)>| keys_sorted(s) && #[trigger] assoc_map(s) == m
}

/// A map from strings to strings, stored sorted strictly by key.
pub struct StrMap {
    pub entries: Vec<(String, String)>,
}

impl View for StrMap {
    type V = Map<Seq<char>, Seq<char>>;

    open spec fn view(&self) -> Map<Seq<char>, Seq<char>> {
        assoc_map(pairs_view(self.entries@))
    }
}

impl StrMap {
    /// The entry sequence, in its sorted order.
    pub open spec fn entries_view(self) -> Seq<(Seq<char>, Seq<char>)> {
        pairs_view(self.entries@)
    }

    /// Entries are sorted strictly by key.  Every operation preserves this.
    pub open spec fn wf(self) -> bool {
        keys_sorted(self.entries_view())
    }

    /// The empty map.
    pub fn new() -> (r: StrMap)
        ensures
            r.wf(),
            r@ == Map::<Seq<char>, Seq<char>>::empty(),
            r.entries_view() == Seq::<(Seq<char>, Seq<char>)>::empty(),
    {
        let r = StrMap { entries: Vec::new() };
        proof {
            assert(r.entries_view() =~= Seq::<(Seq<char>, Seq<char>)>::empty());
            assert(r@ =~= Map::<Seq<char>, Seq<char>>::empty());
        }
        r
    }

    /// How many entries the map holds.
    pub fn len(&self) -> (r: usize)
        ensures
            r == self.entries_view().len(),
    {
        self.entries.len()
    }

    /// Whether the map holds no entry.
    pub fn is_empty(&self) -> (r: bool)
        ensures
            r == (self.entries_view().len() == 0),
            self.wf() ==> r == (self@ == Map::<Seq<char>, Seq<char>>::empty()),
    {
        proof {
            if self.entries_view().len() > 0 {
                assert(has_key(self.entries_view(), self.entries_view()[0].0));
                assert(self@.contains_key(self.entries_view()[0].0));
            } else {
                assert(self@ =~= Map::<Seq<char>, Seq<char>>::empty());
            }
        }
        self.entries.len() == 0
    }

    /// The key of the entry at a position.
    pub fn key_at(&self, i: usize) -> (r: &String)
        requires
            i < self.entries_view().len(),
        ensures
            r@ == self.entries_view()[i as int].0,
    {
        &self.entries[i].0
    }

    /// The value of the entry at a position.
    pub fn val_at(&self, i: usize) -> (r: &String)
        requires
            i < self.entries_view().len(),
        ensures
            r@ == self.entries_view()[i as int].1,
    {
        &self.entries[i].1
    }

    /// Look a key up.
    pub fn get(&self, k: &str) -> (r: Option<&String>)
        requires
            self.wf(),
        ensures
            match r {
                Some(v) => self@.contains_key(k@) && v@ == self@[k@],
                None => !self@.contains_key(k@),
            },
    {
        let n = self.entries.len();
        let mut i: usize = 0;
        while i < n
            invariant
                self.wf(),
                i <= n,
                n == self.entries_view().len(),
                forall|j: int| 0 <= j < i ==> (#[trigger] self.entries_view()[j]).0 != k@,
            decreases n - i,
        {
            if str_eq(self.entries[i].0.as_str(), k) {
                proof {
                    assert(self.entries_view()[i as int].0 == k@);
                    lemma_key_index(self.entries_view(), k@);
                }
                return Some(&self.entries[i].1);
            }
            i = i + 1;
        }
        proof {
            assert(!has_key(self.entries_view(), k@));
        }
        None
    }

    /// Whether a key is present.
    pub fn contains_key(&self, k: &str) -> (r: bool)
        requires
            self.wf(),
        ensures
            r == self@.contains_key(k@),
    {
        match self.get(k) {
            Some(_) => true,
            None => false,
        }
    }

    /// Put a key-value pair in, replacing any entry the key already has.
    pub fn insert(&mut self, k: String, v: String)
        requires
            old(self).wf(),
        ensures
            final(self).wf(),
            final(self)@ == old(self)@.insert(k@, v@),
    {
        let ghost s0 = self.entries_view();
        let n = self.entries.len();
        let mut i: usize = 0;
        while i < n && str_lt(self.entries[i].0.as_str(), k.as_str())
            invariant
                self.wf(),
                self.entries_view() == s0,
                i <= n,
                n == self.entries_view().len(),
                forall|j: int| 0 <= j < i ==> lex_lt((#[trigger] s0[j]).0, k@),
            decreases n - i,
        {
            i = i + 1;
        }
        if i < n && str_eq(self.entries[i].0.as_str(), k.as_str()) {
            self.entries[i].1 = v;
            proof {
                let s1 = self.entries_view();
                assert(s1 =~= s0.update(i as int, (k@, v@)));
                assert forall|x: int, y: int| 0 <= x < y < s1.len() implies lex_lt(
                    #[trigger] s1[x].0,
                    #[trigger] s1[y].0,
                ) by {
                    assert(s1[x].0 == s0[x].0);
                    assert(s1[y].0 == s0[y].0);
                }
                lemma_sorted_distinct(s0);
                assert forall|x: Seq<char>| #[trigger]
                    has_key(s1, x) == has_key(s0, x) by {
                    if has_key(s1, x) {
                        let p = choose|p: int| 0 <= p < s1.len() && (#[trigger] s1[p]).0 == x;
                        assert(s0[p].0 == x);
                    }
                    if has_key(s0, x) {
                        let p = choose|p: int| 0 <= p < s0.len() && (#[trigger] s0[p]).0 == x;
                        assert(s1[p].0 == x);
                    }
                }
                assert(has_key(s0, k@)) by {
                    assert(s0[i as int].0 == k@);
                }
                assert forall|x: Seq<char>| #[trigger] has_key(s1, x) implies assoc_map(s1)[x]
                    == assoc_map(s0).insert(k@, v@)[x] by {
                    lemma_key_index(s1, x);
                    lemma_key_index(s0, x);
                    let p = key_index(s1, x);
                    if x == k@ {
                        assert(s0[i as int].0 == k@);
                        assert(p == i as int);
                        assert(assoc_map(s1)[x] == v@);
                    } else {
                        assert(s1[p].0 == x && p != i);
                        assert(s0[p] == s1[p]);
                        assert(key_index(s0, x) == p);
                    }
                }
                assert(assoc_map(s1) =~= assoc_map(s0).insert(k@, v@));
            }
        } else {
            proof {
                if i < n {
                    lemma_lex_lt_connex(s0[i as int].0, k@);
                    assert(lex_lt(k@, s0[i as int].0));
                }
            }
            self.entries.insert(i, (k, v));
            proof {
                let s1 = self.entries_view();
                let ki = i as int;
                assert(s1.len() == s0.len() + 1);
                assert forall|j: int| 0 <= j < s1.len() implies s1[j] == (if j < ki {
                    s0[j]
                } else if j == ki {
                    (k@, v@)
                } else {
                    s0[j - 1]
                }) by {
                    assert(self.entries@[j] == if j < ki {
                        old(self).entries@[j]
                    } else if j == ki {
                        self.entries@[ki]
                    } else {
                        old(self).entries@[j - 1]
                    });
                }
                assert(!has_key(s0, k@)) by {
                    if has_key(s0, k@) {
                        let p = choose|p: int| 0 <= p < s0.len() && (#[trigger] s0[p]).0 == k@;
                        if p < ki {
                            lemma_lex_lt_irreflexive(k@);
                        } else if p == ki {
                        } else {
                            assert(lex_lt(s0[ki].0, s0[p].0));
                            lemma_lex_lt_asymmetric(s0[ki].0, k@);
                            lemma_lex_lt_irreflexive(k@);
                        }
                        assert(false);
                    }
                }
                assert forall|x: int, y: int| 0 <= x < y < s1.len() implies lex_lt(
                    #[trigger] s1[x].0,
                    #[trigger] s1[y].0,
                ) by {
                    if y > ki {
                        assert(y - 1 >= ki && y - 1 < s0.len());
                        assert(lex_lt(k@, s0[ki].0));
                        if y - 1 > ki {
                            lemma_lex_lt_transitive(k@, s0[ki].0, s0[y - 1].0);
                        }
                        assert(lex_lt(k@, s0[y - 1].0));
                        if x < ki {
                            lemma_lex_lt_transitive(s0[x].0, k@, s0[y - 1].0);
                        }
                    }
                }
                assert forall|x: Seq<char>|
                    #[trigger] has_key(s1, x) == (has_key(s0, x) || x == k@) by {
                    if has_key(s1, x) {
                        let p = choose|p: int| 0 <= p < s1.len() && (#[trigger] s1[p]).0 == x;
                        if p < ki {
                            assert(s0[p].0 == x);
                        } else if p > ki {
                            assert(s0[p - 1].0 == x);
                        }
                    }
                    if has_key(s0, x) {
                        let p = choose|p: int| 0 <= p < s0.len() && (#[trigger] s0[p]).0 == x;
                        if p < ki {
                            assert(s1[p].0 == x);
                        } else {
                            assert(s1[p + 1].0 == x);
                        }
                    }
                    if x == k@ {
                        assert(s1[ki].0 == x);
                    }
                }
                assert forall|x: Seq<char>| #[trigger] has_key(s1, x) implies assoc_map(s1)[x]
                    == assoc_map(s0).insert(k@, v@)[x] by {
                    lemma_key_index(s1, x);
                    let p = key_index(s1, x);
                    if x == k@ {
                        assert(s1[ki].0 == k@);
                        assert(p == ki);
                    } else {
                        assert(p != ki);
                        if p < ki {
                            assert(s0[p] == s1[p]);
                            lemma_key_index(s0, x);
                            assert(key_index(s0, x) == p);
                        } else {
                            assert(s0[p - 1] == s1[p]);
                            lemma_key_index(s0, x);
                            assert(key_index(s0, x) == p - 1);
                        }
                    }
                }
                assert(assoc_map(s1) =~= assoc_map(s0).insert(k@, v@));
            }
        }
    }

    /// An independent copy.
    pub fn duplicate(&self) -> (r: StrMap)
        ensures
            r.entries_view() == self.entries_view(),
            r@ == self@,
            r.wf() == self.wf(),
    {
        let n = self.entries.len();
        let mut entries: Vec<(String, String)> = Vec::new();
        let mut i: usize = 0;
        while i < n
            invariant
                i <= n,
                n == self.entries@.len(),
                entries@ =~= self.entries@.take(i as int),
            decreases n - i,
        {
            let k = self.entries[i].0.clone();
            let v = self.entries[i].1.clone();
            entries.push((k, v));
            i = i + 1;
        }
        proof {
            assert(entries@ =~= self.entries@);
        }
        StrMap { entries }
    }
}

} // verus!
