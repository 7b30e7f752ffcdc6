//! The set and the map that values of the store can be: a set holds no
//! member twice and a map holds no key twice; both keep their entries in the
//! order in which they were first inserted.
use vstd::prelude::*;

use crate::item::{
    collect_members, collect_pairs, distinct_keys, insert_member, insert_pair, key_index,
    lemma_insert_pair_distinct, lemma_key_index, lemma_key_index_at, pair_views,
};
use crate::text::views;

verus! {

/// A set of strings.
#[derive(Debug, PartialEq, Eq)]
pub struct StringSet {
    members: Vec<String>,
}

impl View for StringSet {
    type V = Seq<Seq<char>>;

    /// The members, in order of first insertion.
    closed spec fn view(&self) -> Seq<Seq<char>> {
        views(self.members@)
    }
}

impl StringSet {
    #[verifier::type_invariant]
    spec fn inv(self) -> bool {
        views(self.members@).no_duplicates()
    }

    /// An empty set.
    pub fn new() -> (s: StringSet)
        ensures
            s@ == Seq::<Seq<char>>::empty(),
    {
        let s = StringSet { members: Vec::new() };
        assert(s@ =~= Seq::<Seq<char>>::empty());
        s
    }

    /// Whether `m` is a member.
    pub fn contains(&self, m: &String) -> (b: bool)
        ensures
            b == self@.contains(m@),
    {
        for i in 0..self.members.len()
            invariant
                forall|j: int| 0 <= j < i ==> views(self.members@)[j] != m@,
        {
            if self.members[i] == *m {
                proof {
                    assert(views(self.members@)[i as int] == m@);
                }
                return true;
            }
        }
        false
    }

    /// Adds `m` where it is not yet a member; tells whether it was added.
    pub fn insert(&mut self, m: String) -> (added: bool)
        ensures
            added == !old(self)@.contains(m@),
            final(self)@ == insert_member(old(self)@, m@),
    {
        proof {
            use_type_invariant(&*self);
        }
        if self.contains(&m) {
            return false;
        }
        let ghost prev = self.members@;
        let mut members: Vec<String> = Vec::new();
        std::mem::swap(&mut members, &mut self.members);
        members.push(m);
        proof {
            assert(views(members@) =~= views(prev).push(m@));
        }
        self.members = members;
        true
    }

    /// The set of the strings of `v`, in order of first appearance.
    pub fn from_vec(v: Vec<String>) -> (s: StringSet)
        ensures
            s@ == collect_members(views(v@)),
    {
        let mut s = StringSet::new();
        for i in 0..v.len()
            invariant
                s@ == collect_members(views(v@).take(i as int)),
        {
            let m = v[i].clone();
            proof {
                assert(views(v@).take(i + 1).drop_last() =~= views(v@).take(i as int));
            }
            s.insert(m);
        }
        proof {
            assert(views(v@).take(v.len() as int) =~= views(v@));
        }
        s
    }

    /// The members, in order of first insertion; none appears twice.
    pub fn members(&self) -> (r: &Vec<String>)
        ensures
            views(r@) == self@,
            self@.no_duplicates(),
    {
        proof {
            use_type_invariant(self);
        }
        &self.members
    }
}

impl Clone for StringSet {
    fn clone(&self) -> (r: Self)
        ensures
            r@ == self@,
    {
        proof {
            use_type_invariant(self);
        }
        let mut members: Vec<String> = Vec::new();
        for i in 0..self.members.len()
            invariant
                views(members@) == views(self.members@).take(i as int),
        {
            let ghost prev = members@;
            let c = self.members[i].clone();
            members.push(c);
            proof {
                assert(views(members@) =~= views(prev).push(self.members@[i as int]@));
                assert(views(members@) =~= views(self.members@).take(i + 1));
            }
        }
        proof {
            assert(views(self.members@).take(self.members.len() as int) =~= views(self.members@));
        }
        StringSet { members }
    }
}

/// A map from strings to strings.
#[derive(Debug, PartialEq, Eq)]
pub struct StringMap {
    entries: Vec<(String, String)>,
}

impl View for StringMap {
    type V = Seq<(Seq<char>, Seq<char>)>;

    /// The entries, in order of first insertion of their keys.
    closed spec fn view(&self) -> Seq<(Seq<char>, Seq<char>)> {
        pair_views(self.entries@)
    }
}

impl StringMap {
    #[verifier::type_invariant]
    spec fn inv(self) -> bool {
        distinct_keys(pair_views(self.entries@))
    }

    /// An empty map.
    pub fn new() -> (m: StringMap)
        ensures
            m@ == Seq::<(Seq<char>, Seq<char>)>::empty(),
    {
        let m = StringMap { entries: Vec::new() };
        assert(m@ =~= Seq::<(Seq<char>, Seq<char>)>::empty());
        m
    }

    /// The position of the entry with key `k@`, or the number of entries.
    fn find(&self, k: &String) -> (i: usize)
        ensures
            i == key_index(self@, k@),
    {
        let mut i: usize = 0;
        while i < self.entries.len()
            invariant
                i <= self.entries.len(),
                forall|j: int| 0 <= j < i ==> pair_views(self.entries@)[j].0 != k@,
            decreases self.entries.len() - i,
        {
            if self.entries[i].0 == *k {
                proof {
                    lemma_key_index_at(pair_views(self.entries@), k@, i as int);
                }
                return i;
            }
            i = i + 1;
        }
        proof {
            lemma_key_index_at(pair_views(self.entries@), k@, i as int);
        }
        i
    }

    /// Sets `k` to `v`: an entry with key `k` keeps its place and takes the
    /// new value, which gives back the old one; a new key goes last.
    pub fn insert(&mut self, k: String, v: String) -> (old_value: Option<String>)
        ensures
            final(self)@ == insert_pair(old(self)@, k@, v@),
            old_value is Some <==> key_index(old(self)@, k@) < old(self)@.len(),
            old_value matches Some(o) ==> o@ == old(self)@[key_index(old(self)@, k@)].1,
    {
        proof {
            use_type_invariant(&*self);
            lemma_key_index(self@, k@);
            lemma_insert_pair_distinct(self@, k@, v@);
        }
        let j = self.find(&k);
        let ghost prev = self@;
        let mut entries: Vec<(String, String)> = Vec::new();
        std::mem::swap(&mut entries, &mut self.entries);
        if j < entries.len() {
            let old_value = entries[j].1.clone();
            entries.set(j, (k, v));
            proof {
                assert(pair_views(entries@) =~= prev.update(j as int, (k@, v@)));
            }
            self.entries = entries;
            Some(old_value)
        } else {
            entries.push((k, v));
            proof {
                assert(pair_views(entries@) =~= prev.push((k@, v@)));
            }
            self.entries = entries;
            None
        }
    }

    /// The map built from the pairs of `v` in order; a later pair with a
    /// key seen before replaces the value.
    pub fn from_vec(v: Vec<(String, String)>) -> (m: StringMap)
        ensures
            m@ == collect_pairs(pair_views(v@)),
    {
        let mut m = StringMap::new();
        for i in 0..v.len()
            invariant
                m@ == collect_pairs(pair_views(v@).take(i as int)),
        {
            let k = v[i].0.clone();
            let x = v[i].1.clone();
            proof {
                assert(pair_views(v@).take(i + 1).drop_last() =~= pair_views(v@).take(i as int));
            }
            m.insert(k, x);
        }
        proof {
            assert(pair_views(v@).take(v.len() as int) =~= pair_views(v@));
        }
        m
    }

    /// The entries, in order of first insertion of their keys; no key
    /// appears twice.
    pub fn entries(&self) -> (r: &Vec<(String, String)>)
        ensures
            pair_views(r@) == self@,
            distinct_keys(self@),
    {
        proof {
            use_type_invariant(self);
        }
        &self.entries
    }
}

impl Clone for StringMap {
    fn clone(&self) -> (r: Self)
        ensures
            r@ == self@,
    {
        proof {
            use_type_invariant(self);
        }
        let mut entries: Vec<(String, String)> = Vec::new();
        for i in 0..self.entries.len()
            invariant
                pair_views(entries@) == pair_views(self.entries@).take(i as int),
        {
            let k = self.entries[i].0.clone();
            let v = self.entries[i].1.clone();
            let ghost prev = entries@;
            entries.push((k, v));
            proof {
                assert(pair_views(entries@) =~= pair_views(prev).push(
                    (self.entries@[i as int].0@, self.entries@[i as int].1@),
                ));
                assert(pair_views(entries@) =~= pair_views(self.entries@).take(i + 1));
            }
        }
        proof {
            assert(pair_views(self.entries@).take(self.entries.len() as int) =~= pair_views(
                self.entries@,
            ));
        }
        StringMap { entries }
    }
}

} // verus!
