//! The key-value store.
use vstd::prelude::*;

pub use crate::item::{Item, ItemView};
use crate::error::Error;

verus! {

/// Stores key-value pairs. A key is held at most once; adding a key that is
/// already held fails and leaves its value as it is.
#[derive(Debug)]
pub struct Store {
    entries: Vec<(String, Item)>,
}

/// No two entries share a key.
pub open spec fn distinct_entries(e: Seq<(String, Item)>) -> bool {
    forall|i: int, j: int| 0 <= i < e.len() && 0 <= j < e.len() && i != j ==> e[i].0@ != e[j].0@
}

/// Whether some entry has key `k`.
pub open spec fn holds_key(e: Seq<(String, Item)>, k: Seq<char>) -> bool {
    exists|i: int| 0 <= i < e.len() && (#[trigger] e[i]).0@ == k
}

/// The map from keys to values that the entries stand for.
pub open spec fn entries_map(e: Seq<(String, Item)>) -> Map<Seq<char>, ItemView> {
    Map::new(
        |k: Seq<char>| holds_key(e, k),
        |k: Seq<char>| e[choose|i: int| 0 <= i < e.len() && (#[trigger] e[i]).0@ == k].1@,
    )
}

/// The store after adding `v` under `k`: a held key keeps its value (the add
/// fails).
pub open spec fn after_add(m: Map<Seq<char>, ItemView>, k: Seq<char>, v: ItemView) -> Map<
    Seq<char>,
    ItemView,
> {
    if m.contains_key(k) {
        m
    } else {
        m.insert(k, v)
    }
}

/// What a lookup of `k` finds.
pub open spec fn lookup(m: Map<Seq<char>, ItemView>, k: Seq<char>) -> Option<ItemView> {
    if m.contains_key(k) {
        Some(m[k])
    } else {
        None
    }
}

impl View for Store {
    type V = Map<Seq<char>, ItemView>;

    closed spec fn view(&self) -> Map<Seq<char>, ItemView> {
        entries_map(self.entries@)
    }
}

/// With distinct keys, the entry at `i` is what the map holds under its key.
proof fn lemma_entries_map_at(e: Seq<(String, Item)>, i: int)
    requires
        distinct_entries(e),
        0 <= i < e.len(),
    ensures
        entries_map(e).contains_key(e[i].0@),
        entries_map(e)[e[i].0@] == e[i].1@,
{
    let k = e[i].0@;
    assert(holds_key(e, k));
    let j = choose|j: int| 0 <= j < e.len() && (#[trigger] e[j]).0@ == k;
    assert(j == i);
}

impl Store {
    #[verifier::type_invariant]
    spec fn inv(self) -> bool {
        distinct_entries(self.entries@)
    }

    /// An empty store.
    pub fn new() -> (s: Store)
        ensures
            s@ == Map::<Seq<char>, ItemView>::empty(),
    {
        let s = Store { entries: Vec::new() };
        assert(s@ =~= Map::<Seq<char>, ItemView>::empty());
        s
    }

    /// The position of the entry with key `key@`, or the number of entries.
    fn find(&self, key: &String) -> (i: usize)
        ensures
            i <= self.entries.len(),
            i < self.entries.len() ==> self.entries@[i as int].0@ == key@,
            i == self.entries.len() ==> !holds_key(self.entries@, key@),
    {
        let mut i: usize = 0;
        while i < self.entries.len()
            invariant
                i <= self.entries.len(),
                forall|j: int| 0 <= j < i ==> (#[trigger] self.entries@[j]).0@ != key@,
            decreases self.entries.len() - i,
        {
            if self.entries[i].0 == *key {
                return i;
            }
            i = i + 1;
        }
        i
    }

    /// Adds `value` under `key`. Where `key` is already held the pair cannot
    /// be inserted: the add fails with `StoreSetError` and the store is left
    /// as it is.
    pub fn add(&mut self, key: String, value: Item) -> (r: Result<(), Error>)
        ensures
            r is Ok <==> !old(self)@.contains_key(key@),
            r is Err ==> r == Err::<(), Error>(Error::StoreSetError),
            final(self)@ == after_add(old(self)@, key@, value@),
    {
        proof {
            use_type_invariant(&*self);
        }
        let i = self.find(&key);
        if i == self.entries.len() {
            let ghost old_e = self.entries@;
            let ghost k = key@;
            let ghost v = value@;
            let mut entries: Vec<(String, Item)> = Vec::new();
            std::mem::swap(&mut entries, &mut self.entries);
            entries.push((key, value));
            proof {
                let e = entries@;
                assert(e.len() == old_e.len() + 1);
                assert forall|a: int, b: int|
                    0 <= a < e.len() && 0 <= b < e.len() && a != b implies e[a].0@ != e[b].0@ by {
                    if a < old_e.len() && b < old_e.len() {
                        assert(e[a] == old_e[a] && e[b] == old_e[b]);
                    } else if a < old_e.len() {
                        assert(e[a] == old_e[a]);
                    } else {
                        assert(e[b] == old_e[b]);
                    }
                }
                assert(distinct_entries(e));
                assert(!entries_map(old_e).contains_key(k));
                assert forall|kk: Seq<char>| #[trigger] holds_key(e, kk) <==> holds_key(old_e, kk)
                    || kk == k by {
                    if holds_key(old_e, kk) {
                        let j = choose|j: int| 0 <= j < old_e.len() && (#[trigger] old_e[j]).0@ == kk;
                        assert(e[j] == old_e[j]);
                    }
                    if kk == k {
                        assert(e[old_e.len() as int].0@ == k);
                    }
                    if holds_key(e, kk) && kk != k {
                        let j = choose|j: int| 0 <= j < e.len() && (#[trigger] e[j]).0@ == kk;
                        assert(e[j] == old_e[j]);
                    }
                }
                assert forall|kk: Seq<char>| #[trigger]
                    entries_map(e).contains_key(kk) implies entries_map(e)[kk] == entries_map(
                    old_e,
                ).insert(k, v)[kk] by {
                    let j = choose|j: int| 0 <= j < e.len() && (#[trigger] e[j]).0@ == kk;
                    lemma_entries_map_at(e, j);
                    if j < old_e.len() {
                        assert(e[j] == old_e[j]);
                        lemma_entries_map_at(old_e, j);
                    }
                }
                assert(entries_map(e) =~= entries_map(old_e).insert(k, v));
            }
            self.entries = entries;
            return Ok(());
        }
        proof {
            lemma_entries_map_at(self.entries@, i as int);
        }
        Err(Error::StoreSetError)
    }

    /// The value held under `key`, if any.
    pub fn get(&self, key: String) -> (r: Option<&Item>)
        ensures
            r is Some <==> self@.contains_key(key@),
            r matches Some(v) ==> v@ == self@[key@],
    {
        proof {
            use_type_invariant(self);
        }
        let i = self.find(&key);
        if i < self.entries.len() {
            proof {
                lemma_entries_map_at(self.entries@, i as int);
            }
            Some(&self.entries[i].1)
        } else {
            None
        }
    }

    /// Removes `key` and its value; fails with `KeyNotFoundError`, leaving
    /// the store as it is, where `key` is not held.
    pub fn delete(&mut self, key: String) -> (r: Result<(), Error>)
        ensures
            r is Ok <==> old(self)@.contains_key(key@),
            r is Err ==> r == Err::<(), Error>(Error::KeyNotFoundError),
            final(self)@ == old(self)@.remove(key@),
    {
        proof {
            use_type_invariant(&*self);
        }
        let i = self.find(&key);
        if i < self.entries.len() {
            let ghost old_e = self.entries@;
            let ghost k = key@;
            let mut entries: Vec<(String, Item)> = Vec::new();
            std::mem::swap(&mut entries, &mut self.entries);
            entries.remove(i);
            proof {
                let e = entries@;
                assert(e =~= old_e.remove(i as int));
                assert forall|a: int, b: int|
                    0 <= a < e.len() && 0 <= b < e.len() && a != b implies e[a].0@ != e[b].0@ by {
                    let oa = if a < i { a } else { a + 1 };
                    let ob = if b < i { b } else { b + 1 };
                    assert(e[a] == old_e[oa] && e[b] == old_e[ob]);
                }
                lemma_entries_map_at(old_e, i as int);
                assert forall|kk: Seq<char>| #[trigger] holds_key(e, kk) <==> holds_key(old_e, kk)
                    && kk != k by {
                    if holds_key(e, kk) {
                        let j = choose|j: int| 0 <= j < e.len() && (#[trigger] e[j]).0@ == kk;
                        let oj = if j < i { j } else { j + 1 };
                        assert(e[j] == old_e[oj]);
                        assert(oj != i);
                    }
                    if holds_key(old_e, kk) && kk != k {
                        let j = choose|j: int| 0 <= j < old_e.len() && (#[trigger] old_e[j]).0@ == kk;
                        assert(j != i);
                        let nj = if j < i { j } else { j - 1 };
                        assert(e[nj] == old_e[j]);
                    }
                }
                assert forall|kk: Seq<char>| #[trigger]
                    entries_map(e).contains_key(kk) implies entries_map(e)[kk] == entries_map(
                    old_e,
                ).remove(k)[kk] by {
                    let j = choose|j: int| 0 <= j < e.len() && (#[trigger] e[j]).0@ == kk;
                    lemma_entries_map_at(e, j);
                    let oj = if j < i { j } else { j + 1 };
                    assert(e[j] == old_e[oj]);
                    lemma_entries_map_at(old_e, oj);
                }
                assert(entries_map(e) =~= entries_map(old_e).remove(k));
            }
            self.entries = entries;
            Ok(())
        } else {
            proof {
                assert(!self@.contains_key(key@));
                assert(self@ =~= self@.remove(key@));
            }
            Err(Error::KeyNotFoundError)
        }
    }
}

impl Clone for Store {
    fn clone(&self) -> (r: Self)
        ensures
            r@ == self@,
    {
        proof {
            use_type_invariant(self);
        }
        let mut entries: Vec<(String, Item)> = Vec::new();
        for i in 0..self.entries.len()
            invariant
                distinct_entries(self.entries@),
                entries.len() == i,
                forall|j: int|
                    0 <= j < i ==> (#[trigger] entries@[j]).0@ == self.entries@[j].0@
                        && entries@[j].1@ == self.entries@[j].1@,
        {
            let k = self.entries[i].0.clone();
            let v = self.entries[i].1.clone();
            entries.push((k, v));
        }
        let ghost e = entries@;
        let ghost o = self.entries@;
        proof {
            assert forall|kk: Seq<char>| #[trigger] holds_key(e, kk) <==> holds_key(o, kk) by {
                if holds_key(e, kk) {
                    let j = choose|j: int| 0 <= j < e.len() && (#[trigger] e[j]).0@ == kk;
                    assert(o[j].0@ == kk);
                }
                if holds_key(o, kk) {
                    let j = choose|j: int| 0 <= j < o.len() && (#[trigger] o[j]).0@ == kk;
                    assert(e[j].0@ == kk);
                }
            }
            assert forall|kk: Seq<char>| #[trigger]
                entries_map(e).contains_key(kk) implies entries_map(e)[kk] == entries_map(o)[kk] by {
                let j = choose|j: int| 0 <= j < e.len() && (#[trigger] e[j]).0@ == kk;
                lemma_entries_map_at(e, j);
                lemma_entries_map_at(o, j);
            }
            assert(entries_map(e) =~= entries_map(o));
        }
        Store { entries }
    }
}

// ---------------------------------------------------------------------------
// Laws
// ---------------------------------------------------------------------------

/// A get after an add finds the added value where the key was new, and the
/// value held before where it was not.
pub proof fn law_get_after_add(m: Map<Seq<char>, ItemView>, k: Seq<char>, v: ItemView)
    ensures
        lookup(after_add(m, k, v), k) == if m.contains_key(k) {
            lookup(m, k)
        } else {
            Some(v)
        },
{
}

/// An add leaves every other key as it was.
pub proof fn law_add_keeps_other_keys(
    m: Map<Seq<char>, ItemView>,
    k: Seq<char>,
    v: ItemView,
    other: Seq<char>,
)
    requires
        other != k,
    ensures
        lookup(after_add(m, k, v), other) == lookup(m, other),
{
}

/// A second add under the same key changes nothing: the first value stays.
pub proof fn law_first_add_wins(m: Map<Seq<char>, ItemView>, k: Seq<char>, v: ItemView, w: ItemView)
    ensures
        after_add(after_add(m, k, v), k, w) == after_add(m, k, v),
{
}

/// After a delete the key is gone, and every other key is as it was.
pub proof fn law_get_after_delete(m: Map<Seq<char>, ItemView>, k: Seq<char>, other: Seq<char>)
    ensures
        lookup(m.remove(k), k) is None,
        other != k ==> lookup(m.remove(k), other) == lookup(m, other),
{
}

/// Deleting a key that was just added as new restores the store.
pub proof fn law_delete_undoes_add(m: Map<Seq<char>, ItemView>, k: Seq<char>, v: ItemView)
    requires
        !m.contains_key(k),
    ensures
        after_add(m, k, v).remove(k) == m,
{
    assert(after_add(m, k, v).remove(k) =~= m);
}

/// A change to the store: an add or a delete.
pub enum StoreOp {
    Add(Seq<char>, ItemView),
    Delete(Seq<char>),
}

/// The key that a change is about.
pub open spec fn op_key(op: StoreOp) -> Seq<char> {
    match op {
        StoreOp::Add(k, _) => k,
        StoreOp::Delete(k) => k,
    }
}

/// The store after the changes `ops`, made in order.
pub open spec fn apply_all(m: Map<Seq<char>, ItemView>, ops: Seq<StoreOp>) -> Map<
    Seq<char>,
    ItemView,
>
    decreases ops.len(),
{
    if ops.len() == 0 {
        m
    } else {
        let before = apply_all(m, ops.drop_last());
        match ops.last() {
            StoreOp::Add(k, v) => after_add(before, k, v),
            StoreOp::Delete(k) => before.remove(k),
        }
    }
}

/// Changes about other keys, however many, leave what a key holds as it
/// was; together with [`law_get_after_add`], a value added under a new key
/// is found however many changes to other keys follow.
pub proof fn law_other_changes_keep_lookup(m: Map<Seq<char>, ItemView>, ops: Seq<StoreOp>, k: Seq<char>)
    requires
        forall|i: int| 0 <= i < ops.len() ==> op_key(#[trigger] ops[i]) != k,
    ensures
        lookup(apply_all(m, ops), k) == lookup(m, k),
    decreases ops.len(),
{
    if ops.len() > 0 {
        let init = ops.drop_last();
        assert forall|i: int| 0 <= i < init.len() implies op_key(#[trigger] init[i]) != k by {
            assert(init[i] == ops[i]);
        }
        law_other_changes_keep_lookup(m, init, k);
        assert(op_key(ops[ops.len() - 1]) != k);
    }
}

} // verus!
