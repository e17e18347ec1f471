//! The cache store: a mapping from source string to previously obtained
//! translation, loaded at startup and persisted at shutdown.
//!
//! Keyed by the source string itself, not by path, so identical strings at
//! different paths or across runs share one entry: two leaves with equal
//! content and equal target language resolve to the same cached translation
//! without a new provider call. The same structure also carries the
//! per-path translation results of one run.

use vstd::prelude::*;

verus! {

/// The mathematical content of an association list, later entries winning.
pub open spec fn map_of(s: Seq<(String, String)>) -> Map<Seq<char>, Seq<char>>
    decreases s.len(),
{
    if s.len() == 0 {
        Map::empty()
    } else {
        map_of(s.drop_last()).insert(s.last().0@, s.last().1@)
    }
}

/// A string-to-string mapping with insertion order kept and keys unique.
pub struct StrMap {
    pub entries: Vec<(String, String)>,
}

impl View for StrMap {
    type V = Map<Seq<char>, Seq<char>>;

    open spec fn view(&self) -> Map<Seq<char>, Seq<char>> {
        map_of(self.entries@)
    }
}

pub open spec fn keys_unique(s: Seq<(String, String)>) -> bool {
    forall|i: int, j: int| 0 <= i < j < s.len() ==> (#[trigger] s[i]).0@ != (#[trigger] s[j]).0@
}

proof fn lemma_map_of_absent(s: Seq<(String, String)>, k: Seq<char>)
    requires
        forall|i: int| 0 <= i < s.len() ==> (#[trigger] s[i]).0@ != k,
    ensures
        !map_of(s).dom().contains(k),
    decreases s.len(),
{
    if s.len() > 0 {
        lemma_map_of_absent(s.drop_last(), k);
    }
}

proof fn lemma_map_of_found(s: Seq<(String, String)>, i: int)
    requires
        keys_unique(s),
        0 <= i < s.len(),
    ensures
        map_of(s).dom().contains(s[i].0@),
        map_of(s)[s[i].0@] == s[i].1@,
    decreases s.len(),
{
    if i == s.len() - 1 {
    } else {
        lemma_map_of_found(s.drop_last(), i);
    }
}

proof fn lemma_map_of_update(s: Seq<(String, String)>, i: int, k: String, v: String)
    requires
        keys_unique(s),
        0 <= i < s.len(),
        s[i].0@ == k@,
    ensures
        map_of(s.update(i, (k, v))) == map_of(s).insert(k@, v@),
    decreases s.len(),
{
    let su = s.update(i, (k, v));
    if i == s.len() - 1 {
        assert(su.drop_last() =~= s.drop_last());
        assert(map_of(su) == map_of(s.drop_last()).insert(k@, v@));
        assert(map_of(s.drop_last()).insert(s.last().0@, s.last().1@).insert(k@, v@)
            =~= map_of(s.drop_last()).insert(k@, v@));
    } else {
        lemma_map_of_update(s.drop_last(), i, k, v);
        assert(su.drop_last() =~= s.drop_last().update(i, (k, v)));
        assert(su.last() == s.last());
        assert(s.last().0@ != k@);
        assert(map_of(s).insert(k@, v@) =~= map_of(s.drop_last()).insert(k@, v@).insert(
            s.last().0@,
            s.last().1@,
        ));
    }
}

impl StrMap {
    /// Keys are pairwise distinct; kept by every operation.
    pub open spec fn wf(&self) -> bool {
        keys_unique(self.entries@)
    }

    /// The empty mapping.
    pub fn new() -> (m: StrMap)
        ensures
            m.wf(),
            m@ == Map::<Seq<char>, Seq<char>>::empty(),
    {
        StrMap { entries: Vec::new() }
    }

    /// Looks a key up; answers exactly membership in the mapping.
    pub fn lookup(&self, k: &String) -> (r: Option<&String>)
        requires
            self.wf(),
        ensures
            match r {
                Some(v) => self@.dom().contains(k@) && v@ == self@[k@],
                None => !self@.dom().contains(k@),
            },
    {
        let mut i: usize = 0;
        while i < self.entries.len()
            invariant
                i <= self.entries@.len(),
                self.wf(),
                forall|j: int| 0 <= j < i ==> (#[trigger] self.entries@[j]).0@ != k@,
            decreases self.entries@.len() - i,
        {
            if self.entries[i].0.eq(k) {
                proof {
                    lemma_map_of_found(self.entries@, i as int);
                }
                return Some(&self.entries[i].1);
            }
            i = i + 1;
        }
        proof {
            lemma_map_of_absent(self.entries@, k@);
        }
        None
    }

    /// Whether a key is present.
    pub fn contains(&self, k: &String) -> (r: bool)
        requires
            self.wf(),
        ensures
            r == self@.dom().contains(k@),
    {
        match self.lookup(k) {
            Some(_) => true,
            None => false,
        }
    }

    /// Inserts or replaces; the mapping afterwards is the old one with the
    /// pair added, and insertion order of fresh keys is kept.
    pub fn insert(&mut self, k: String, v: String)
        requires
            old(self).wf(),
        ensures
            final(self).wf(),
            final(self)@ == old(self)@.insert(k@, v@),
    {
        let mut i: usize = 0;
        while i < self.entries.len()
            invariant
                i <= self.entries@.len(),
                self.wf(),
                self.entries@ == old(self).entries@,
                forall|j: int| 0 <= j < i ==> (#[trigger] self.entries@[j]).0@ != k@,
            decreases self.entries@.len() - i,
        {
            if self.entries[i].0.eq(&k) {
                proof {
                    lemma_map_of_update(self.entries@, i as int, k, v);
                }
                self.entries.set(i, (k, v));
                proof {
                    assert(keys_unique(self.entries@)) by {
                        assert(forall|x: int| 0 <= x < self.entries@.len() && x != i
                            ==> (#[trigger] self.entries@[x]) == old(self).entries@[x]);
                    }
                }
                return;
            }
            i = i + 1;
        }
        proof {
            lemma_map_of_absent(self.entries@, k@);
        }
        self.entries.push((k, v));
        proof {
            assert(self.entries@.drop_last() =~= old(self).entries@);
            assert(keys_unique(self.entries@)) by {
                assert(forall|x: int| 0 <= x < old(self).entries@.len()
                    ==> (#[trigger] self.entries@[x]) == old(self).entries@[x]);
            }
        }
    }

    /// Loads a mapping from raw pairs, later pairs winning, as a permissive
    /// cache read requires.
    pub fn from_pairs(pairs: Vec<(String, String)>) -> (m: StrMap)
        ensures
            m.wf(),
            m@ == map_of(pairs@),
    {
        let mut m = StrMap::new();
        let mut i: usize = 0;
        while i < pairs.len()
            invariant
                i <= pairs@.len(),
                m.wf(),
                m@ == map_of(pairs@.subrange(0, i as int)),
            decreases pairs@.len() - i,
        {
            let ghost pre = pairs@.subrange(0, i as int);
            let (k, v) = (pairs[i].0.clone(), pairs[i].1.clone());
            m.insert(k, v);
            proof {
                assert(pairs@.subrange(0, i + 1).drop_last() =~= pre);
                assert(pairs@.subrange(0, i + 1).last() == pairs@[i as int]);
            }
            i = i + 1;
        }
        proof {
            assert(pairs@.subrange(0, pairs@.len() as int) =~= pairs@);
        }
        m
    }
}

} // verus!
