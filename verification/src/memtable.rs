//! The ordered mapping that backs the store: a vector of key/entry slots kept
//! strictly sorted by key. Keys are unique because the order is strict. The
//! sorted order is load-bearing: prefix scans walk the slots in key order.
use vstd::prelude::*;

use crate::entry::{Entry, EntryView};
use crate::keys::{key_cmp, lemma_lex_transitive, lemma_lex_trichotomy, lex_lt, KeyOrd};

verus! {

/// One association of the mapping: a key and the entry stored under it.
pub struct Slot {
    pub key: Vec<u8>,
    pub entry: Entry,
}

/// The accounted size of a slot: key length plus entry length.
pub open spec fn slot_size(s: Slot) -> nat {
    s.key@.len() + s.entry@.byte_len()
}

/// The slots are strictly ascending by key; in particular keys are unique.
pub open spec fn table_sorted(s: Seq<Slot>) -> bool {
    forall|i: int, j: int|
        0 <= i < j < s.len() ==> lex_lt(#[trigger] s[i].key@, #[trigger] s[j].key@)
}

/// Whether some slot of `s` holds the key `k`.
pub open spec fn table_contains(s: Seq<Slot>, k: Seq<u8>) -> bool {
    exists|i: int| 0 <= i < s.len() && (#[trigger] s[i].key@) == k
}

/// The position of the slot holding `k`; meaningful when `table_contains`.
pub open spec fn table_index_of(s: Seq<Slot>, k: Seq<u8>) -> int {
    choose|i: int| 0 <= i < s.len() && (#[trigger] s[i].key@) == k
}

/// The entry stored under `k`; meaningful when `table_contains`.
pub open spec fn table_at(s: Seq<Slot>, k: Seq<u8>) -> EntryView {
    s[table_index_of(s, k)].entry@
}

/// Whether some slot at position `i` or later holds the key `k`.
pub open spec fn table_contains_from(s: Seq<Slot>, i: int, k: Seq<u8>) -> bool {
    exists|n: int| i <= n < s.len() && (#[trigger] s[n].key@) == k
}

/// The mapping as a map from keys to entries.
pub open spec fn to_map(s: Seq<Slot>) -> Map<Seq<u8>, EntryView> {
    Map::new(|k: Seq<u8>| table_contains(s, k), |k: Seq<u8>| table_at(s, k))
}

/// The accounted size of the whole mapping: the sum of the sizes of its slots.
pub open spec fn table_size(s: Seq<Slot>) -> nat
    decreases s.len(),
{
    if s.len() == 0 {
        0
    } else {
        table_size(s.drop_last()) + slot_size(s.last())
    }
}

/// The position of the first slot whose key is at or above `p`.
pub open spec fn lower_bound_of(s: Seq<Slot>, p: Seq<u8>) -> int
    decreases s.len(),
{
    if s.len() == 0 {
        0
    } else if lex_lt(s[0].key@, p) {
        1 + lower_bound_of(s.drop_first(), p)
    } else {
        0
    }
}

/// In a sorted table, a slot holding `k` is the only one, so the chosen
/// index and entry for `k` are the ones at that slot.
pub proof fn lemma_index_unique(s: Seq<Slot>, k: Seq<u8>, i: int)
    requires
        table_sorted(s),
        0 <= i < s.len(),
        s[i].key@ == k,
    ensures
        table_contains(s, k),
        table_index_of(s, k) == i,
        table_at(s, k) == s[i].entry@,
{
    assert(table_contains(s, k));
    let j = table_index_of(s, k);
    if j != i {
        lemma_lex_trichotomy(s[i].key@, s[j].key@);
    }
}

/// Concatenation splits the accounted size.
pub proof fn lemma_table_size_concat(x: Seq<Slot>, y: Seq<Slot>)
    ensures
        table_size(x + y) == table_size(x) + table_size(y),
    decreases y.len(),
{
    if y.len() == 0 {
        assert(x + y =~= x);
    } else {
        assert((x + y).drop_last() =~= x + y.drop_last());
        assert((x + y).last() == y.last());
        lemma_table_size_concat(x, y.drop_last());
    }
}

/// The accounted size splits at any position.
pub proof fn lemma_table_size_split(s: Seq<Slot>, i: int)
    requires
        0 <= i <= s.len(),
    ensures
        table_size(s) == table_size(s.subrange(0, i)) + table_size(
            s.subrange(i, s.len() as int),
        ),
{
    assert(s =~= s.subrange(0, i) + s.subrange(i, s.len() as int));
    lemma_table_size_concat(s.subrange(0, i), s.subrange(i, s.len() as int));
}

/// A one-slot table weighs exactly its slot.
pub proof fn lemma_table_size_single(s: Seq<Slot>)
    requires
        s.len() == 1,
    ensures
        table_size(s) == slot_size(s[0]),
{
    assert(s.drop_last() =~= Seq::<Slot>::empty());
    assert(table_size(Seq::<Slot>::empty()) == 0);
    assert(s.last() == s[0]);
}

/// Each slot's size is bounded by the size of the whole table.
pub proof fn lemma_slot_size_le(s: Seq<Slot>, i: int)
    requires
        0 <= i < s.len(),
    ensures
        slot_size(s[i]) <= table_size(s),
{
    lemma_table_size_split(s, i);
    let suffix = s.subrange(i, s.len() as int);
    lemma_table_size_split(suffix, 1);
    lemma_table_size_single(suffix.subrange(0, 1));
    assert(suffix.subrange(0, 1)[0] == s[i]);
}

/// Replacing the slot at `i` (keeping every other slot) shifts the size by
/// the difference of the two slots.
pub proof fn lemma_table_size_replace(s: Seq<Slot>, s2: Seq<Slot>, i: int)
    requires
        0 <= i < s.len(),
        s2.len() == s.len(),
        forall|n: int| 0 <= n < s.len() && n != i ==> s2[n] == s[n],
    ensures
        table_size(s2) + slot_size(s[i]) == table_size(s) + slot_size(s2[i]),
{
    lemma_table_size_split(s, i);
    lemma_table_size_split(s2, i);
    let suf = s.subrange(i, s.len() as int);
    let suf2 = s2.subrange(i, s2.len() as int);
    lemma_table_size_split(suf, 1);
    lemma_table_size_split(suf2, 1);
    lemma_table_size_single(suf.subrange(0, 1));
    lemma_table_size_single(suf2.subrange(0, 1));
    assert(s2.subrange(0, i) =~= s.subrange(0, i));
    assert(suf2.subrange(1, suf2.len() as int) =~= suf.subrange(1, suf.len() as int));
    assert(suf.subrange(0, 1)[0] == s[i]);
    assert(suf2.subrange(0, 1)[0] == s2[i]);
}

/// Adding one slot at position `i` (shifting the rest) adds its size.
pub proof fn lemma_table_size_insert(s: Seq<Slot>, s2: Seq<Slot>, i: int)
    requires
        0 <= i <= s.len(),
        s2.len() == s.len() + 1,
        forall|n: int| 0 <= n < i ==> s2[n] == s[n],
        forall|n: int| i <= n < s.len() ==> s2[n + 1] == s[n],
    ensures
        table_size(s2) == table_size(s) + slot_size(s2[i]),
{
    lemma_table_size_split(s, i);
    lemma_table_size_split(s2, i);
    let suf = s.subrange(i, s.len() as int);
    let suf2 = s2.subrange(i, s2.len() as int);
    lemma_table_size_split(suf2, 1);
    lemma_table_size_single(suf2.subrange(0, 1));
    assert(s2.subrange(0, i) =~= s.subrange(0, i));
    assert(suf2.subrange(1, suf2.len() as int) =~= suf);
    assert(suf2.subrange(0, 1)[0] == s2[i]);
}

/// The spec-level lower bound is the one position that has everything below
/// it under `p` and everything from it on at or above `p`.
pub proof fn lemma_lower_bound_is(s: Seq<Slot>, p: Seq<u8>, i: int)
    requires
        0 <= i <= s.len(),
        forall|j: int| 0 <= j < i ==> lex_lt(#[trigger] s[j].key@, p),
        i < s.len() ==> !lex_lt(s[i].key@, p),
    ensures
        lower_bound_of(s, p) == i,
    decreases s.len(),
{
    if s.len() == 0 {
    } else if i == 0 {
    } else {
        assert(lex_lt(s[0].key@, p));
        let t = s.drop_first();
        assert forall|j: int| 0 <= j < i - 1 implies lex_lt(#[trigger] t[j].key@, p) by {
            assert(t[j] == s[j + 1]);
        }
        if i - 1 < t.len() {
            assert(t[i - 1] == s[i]);
        }
        lemma_lower_bound_is(t, p, i - 1);
    }
}

/// In a sorted table, everything below the lower bound for `p` is below `p`
/// and everything from it on is at or above `p`.
pub proof fn lemma_lower_bound_props(s: Seq<Slot>, p: Seq<u8>)
    requires
        table_sorted(s),
    ensures
        0 <= lower_bound_of(s, p) <= s.len(),
        forall|n: int| 0 <= n < lower_bound_of(s, p) ==> lex_lt((#[trigger] s[n].key@), p),
        forall|n: int|
            lower_bound_of(s, p) <= n < s.len() ==> !lex_lt((#[trigger] s[n].key@), p),
    decreases s.len(),
{
    if s.len() == 0 {
    } else if lex_lt(s[0].key@, p) {
        let t = s.drop_first();
        assert forall|i: int, j: int| 0 <= i < j < t.len() implies lex_lt(
            #[trigger] t[i].key@,
            #[trigger] t[j].key@,
        ) by {
            assert(t[i] == s[i + 1] && t[j] == s[j + 1]);
        }
        lemma_lower_bound_props(t, p);
        assert forall|n: int| 0 <= n < lower_bound_of(s, p) implies lex_lt(
            (#[trigger] s[n].key@),
            p,
        ) by {
            if n > 0 {
                assert(t[n - 1] == s[n]);
            }
        }
        assert forall|n: int| lower_bound_of(s, p) <= n < s.len() implies !lex_lt(
            (#[trigger] s[n].key@),
            p,
        ) by {
            assert(t[n - 1] == s[n]);
        }
    } else {
        assert forall|n: int| 0 <= n < s.len() implies !lex_lt((#[trigger] s[n].key@), p) by {
            if n > 0 && lex_lt(s[n].key@, p) {
                lemma_lex_transitive(s[0].key@, s[n].key@, p);
            }
        }
    }
}

/// The ordered mapping: key/entry slots, strictly sorted by key.
pub struct Memtable {
    pub slots: Vec<Slot>,
}

impl View for Memtable {
    type V = Seq<Slot>;

    open spec fn view(&self) -> Seq<Slot> {
        self.slots@
    }
}

impl Memtable {
    /// A fresh empty mapping.
    pub fn new() -> (r: Memtable)
        ensures
            r@ == Seq::<Slot>::empty(),
    {
        Memtable { slots: Vec::new() }
    }

    /// The entry stored under `key`, if any slot holds that key.
    pub fn get(&self, key: &[u8]) -> (r: Option<&Entry>)
        requires
            table_sorted(self@),
        ensures
            match r {
                Some(e) => table_contains(self@, key@) && e@ == table_at(self@, key@),
                None => !table_contains(self@, key@),
            },
    {
        let n = self.slots.len();
        let mut i: usize = 0;
        while i < n
            invariant
                table_sorted(self@),
                n == self@.len(),
                i <= n,
                forall|j: int| 0 <= j < i ==> (#[trigger] self@[j].key@) != key@,
            decreases n - i,
        {
            match key_cmp(self.slots[i].key.as_slice(), key) {
                KeyOrd::Eq => {
                    proof {
                        lemma_index_unique(self@, key@, i as int);
                    }
                    return Some(&self.slots[i].entry);
                },
                _ => {},
            }
            i = i + 1;
        }
        None
    }

    /// The position of the first slot whose key is at or above `p`; the
    /// number of slots when every key is below `p`.
    pub fn lower_bound(&self, p: &[u8]) -> (i: usize)
        ensures
            i <= self@.len(),
            forall|j: int| 0 <= j < i ==> lex_lt(#[trigger] self@[j].key@, p@),
            i < self@.len() ==> !lex_lt(self@[i as int].key@, p@),
    {
        let n = self.slots.len();
        let mut i: usize = 0;
        while i < n
            invariant
                n == self@.len(),
                i <= n,
                forall|j: int| 0 <= j < i ==> lex_lt(#[trigger] self@[j].key@, p@),
            decreases n - i,
        {
            match key_cmp(self.slots[i].key.as_slice(), p) {
                KeyOrd::Lt => {},
                _ => {
                    return i;
                },
            }
            i = i + 1;
        }
        i
    }

    /// Inserts `entry` under `key`, replacing (and returning) the entry of a
    /// slot already holding that key. Keeps the slots sorted; the mapping
    /// afterwards is the old mapping with `key` bound to `entry`.
    pub fn insert(&mut self, key: Vec<u8>, entry: Entry) -> (prev: Option<Entry>)
        requires
            table_sorted(old(self)@),
        ensures
            table_sorted(final(self)@),
            to_map(final(self)@) == to_map(old(self)@).insert(key@, entry@),
            match prev {
                Some(e) => {
                    &&& table_contains(old(self)@, key@)
                    &&& e@ == table_at(old(self)@, key@)
                    &&& table_size(final(self)@) + e@.byte_len() == table_size(old(self)@)
                        + entry@.byte_len()
                },
                None => {
                    &&& !table_contains(old(self)@, key@)
                    &&& table_size(final(self)@) == table_size(old(self)@) + key@.len()
                        + entry@.byte_len()
                },
            },
    {
        let ghost s0 = self@;
        let ghost gkey = key@;
        let ghost gentry = entry@;
        let pos = self.lower_bound(key.as_slice());
        let mut replacing = false;
        if pos < self.slots.len() {
            match key_cmp(self.slots[pos].key.as_slice(), key.as_slice()) {
                KeyOrd::Eq => {
                    replacing = true;
                },
                _ => {},
            }
        }
        if replacing {
            let old_slot = self.slots.remove(pos);
            self.slots.insert(pos, Slot { key, entry });
            proof {
                let s1 = self@;
                assert(s1.len() == s0.len());
                assert forall|n: int| 0 <= n < s0.len() && n != pos implies s1[n] == s0[n] by {
                    if n < pos {
                        assert(s0.remove(pos as int)[n] == s0[n]);
                    } else {
                        assert(s0.remove(pos as int)[n - 1] == s0[n]);
                    }
                }
                assert(s1[pos as int].key@ == gkey && s1[pos as int].entry@ == gentry);
                assert(s0[pos as int].key@ == gkey);
                // order: every key is unchanged
                assert forall|i: int, j: int| 0 <= i < j < s1.len() implies lex_lt(
                    #[trigger] s1[i].key@,
                    #[trigger] s1[j].key@,
                ) by {
                    assert(s1[i].key@ == s0[i].key@ && s1[j].key@ == s0[j].key@);
                }
                // the mapping gains exactly the new binding
                lemma_index_unique(s0, gkey, pos as int);
                lemma_index_unique(s1, gkey, pos as int);
                assert forall|k2: Seq<u8>| #[trigger]
                    table_contains(s1, k2) == table_contains(s0, k2) by {
                    if table_contains(s0, k2) {
                        let w = table_index_of(s0, k2);
                        assert(s1[w].key@ == k2);
                    }
                    if table_contains(s1, k2) {
                        let w = table_index_of(s1, k2);
                        assert(s0[w].key@ == k2);
                    }
                }
                assert forall|k2: Seq<u8>|
                    table_contains(s1, k2) && k2 != gkey implies #[trigger] table_at(s1, k2)
                    == table_at(s0, k2) by {
                    let w = table_index_of(s1, k2);
                    assert(s1[w].key@ == k2);
                    lemma_index_unique(s1, k2, w);
                    assert(w != pos);
                    lemma_index_unique(s0, k2, w);
                }
                assert(to_map(s1) =~= to_map(s0).insert(gkey, gentry));
                // size: only the slot at `pos` changed
                lemma_table_size_replace(s0, s1, pos as int);
                assert(old_slot == s0[pos as int]);
            }
            Some(old_slot.entry)
        } else {
            proof {
                // the key sits strictly between the neighbours of `pos`
                if pos < s0.len() {
                    lemma_lex_trichotomy(s0[pos as int].key@, gkey);
                    assert(lex_lt(gkey, s0[pos as int].key@));
                }
                assert forall|n: int| pos <= n < s0.len() implies lex_lt(
                    gkey,
                    #[trigger] s0[n].key@,
                ) by {
                    if n > pos {
                        lemma_lex_transitive(gkey, s0[pos as int].key@, s0[n].key@);
                    }
                }
                assert forall|n: int| 0 <= n < s0.len() implies (#[trigger] s0[n].key@)
                    != gkey by {
                    if n < pos {
                        lemma_lex_trichotomy(s0[n].key@, gkey);
                    } else {
                        lemma_lex_trichotomy(gkey, s0[n].key@);
                    }
                }
            }
            self.slots.insert(pos, Slot { key, entry });
            proof {
                let s1 = self@;
                assert(s1.len() == s0.len() + 1);
                assert forall|n: int| 0 <= n < pos implies s1[n] == s0[n] by {}
                assert forall|n: int| pos <= n < s0.len() implies s1[n + 1] == s0[n] by {}
                assert(s1[pos as int].key@ == gkey && s1[pos as int].entry@ == gentry);
                // order: below `pos` keys are below the new key, above they are above
                assert forall|i: int, j: int| 0 <= i < j < s1.len() implies lex_lt(
                    #[trigger] s1[i].key@,
                    #[trigger] s1[j].key@,
                ) by {
                    if i < pos && j > pos {
                        assert(s1[i] == s0[i] && s1[j] == s0[j - 1]);
                        assert(i < j - 1 || s0[j - 1].key@ == s0[pos as int].key@);
                    } else if j == pos {
                        assert(s1[i] == s0[i]);
                    } else if i == pos {
                        assert(s1[j] == s0[j - 1]);
                    } else if j < pos {
                        assert(s1[i] == s0[i] && s1[j] == s0[j]);
                    } else {
                        assert(s1[i] == s0[i - 1] && s1[j] == s0[j - 1]);
                    }
                }
                // the mapping gains exactly the new binding
                lemma_index_unique(s1, gkey, pos as int);
                assert forall|k2: Seq<u8>| k2 != gkey implies #[trigger] table_contains(s1, k2)
                    == table_contains(s0, k2) by {
                    if table_contains(s0, k2) {
                        let w = table_index_of(s0, k2);
                        if w < pos {
                            assert(s1[w].key@ == k2);
                        } else {
                            assert(s1[w + 1].key@ == k2);
                        }
                    }
                    if table_contains(s1, k2) {
                        let w = table_index_of(s1, k2);
                        assert(w != pos);
                        if w < pos {
                            assert(s0[w].key@ == k2);
                        } else {
                            assert(s0[w - 1].key@ == k2);
                        }
                    }
                }
                assert forall|k2: Seq<u8>|
                    table_contains(s1, k2) && k2 != gkey implies #[trigger] table_at(s1, k2)
                    == table_at(s0, k2) by {
                    let w = table_index_of(s1, k2);
                    lemma_index_unique(s1, k2, w);
                    assert(w != pos);
                    if w < pos {
                        lemma_index_unique(s0, k2, w);
                    } else {
                        assert(s1[w] == s0[w - 1]);
                        lemma_index_unique(s0, k2, w - 1);
                    }
                }
                assert(to_map(s1) =~= to_map(s0).insert(gkey, gentry));
                lemma_table_size_insert(s0, s1, pos as int);
            }
            None
        }
    }
}

} // verus!
