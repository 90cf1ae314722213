//! An in-memory sorted key-value store: an active write buffer, an optional
//! frozen snapshot of a former buffer, and a merged, prefix-bounded scan over
//! both. Writes go to the active buffer; once its accounted size reaches a
//! threshold the buffer is swapped aside as the frozen snapshot and a fresh
//! empty buffer takes its place. Reads consult the active buffer first, then
//! the frozen one; a tombstone in either is authoritative.
pub mod entry;
pub mod iter;
pub mod keys;
pub mod memtable;

pub use entry::Entry;
pub use entry::EntryView;
pub use iter::DBIterator;

use vstd::prelude::*;

use crate::iter::{lemma_merge_out_exact, merge_out};
use crate::keys::{
    is_prefix_of, lemma_empty_prefix, lemma_lex_lt_le, lemma_lex_transitive, lemma_prefix_ge,
    lex_lt,
};
use crate::memtable::{
    lemma_lower_bound_is, lemma_lower_bound_props, lemma_slot_size_le, lower_bound_of, table_at,
    table_contains, table_contains_from, table_index_of, table_size, table_sorted, to_map,
    Memtable, Slot,
};

verus! {

/// The error type of every store operation. Reserved for failures of a
/// persistence collaborator; the in-memory core never produces one.
#[derive(Debug, PartialEq, Eq)]
pub struct DBError;

/// A key: an ordered byte sequence, compared byte-wise.
pub type Key = Vec<u8>;

/// A payload stored under a key.
pub type Value = Vec<u8>;

/// Accounted bytes at which the active mapping is frozen.
pub const MEMTABLE_MAX_SIZE_BYTES: usize = 1024 * 1024;

/// What a read of `k` against the mapping `m` yields: the payload of a live
/// entry, and nothing for a tombstone or an unbound key.
pub open spec fn lookup(m: Map<Seq<u8>, EntryView>, k: Seq<u8>) -> Option<Seq<u8>> {
    if m.contains_key(k) {
        match m[k] {
            EntryView::Present(v) => Some(v),
            EntryView::Deleted => None,
        }
    } else {
        None
    }
}

/// The store: the location handle it was opened with, the active mapping,
/// the optional frozen mapping, and the accounted size of the active mapping.
pub struct DB {
    pub root_path: Vec<u8>,
    pub memtable: Memtable,
    pub memtable_frozen: Option<Memtable>,
    pub memtable_size: usize,
}

impl DB {
    /// The frozen slots, or the empty sequence when no snapshot exists.
    pub open spec fn frozen_seq(self) -> Seq<Slot> {
        match self.memtable_frozen {
            Some(t) => t@,
            None => Seq::empty(),
        }
    }

    /// Both mappings sorted, and the size counter exactly the sum of
    /// key length plus entry length over the active mapping.
    pub open spec fn tables_wf(self) -> bool {
        &&& table_sorted(self.memtable@)
        &&& table_sorted(self.frozen_seq())
        &&& self.memtable_size == table_size(self.memtable@)
    }

    /// The store's invariant: well-formed mappings, and an active size
    /// strictly below the freeze threshold (a write that reaches it freezes
    /// within the same call).
    pub open spec fn inv(self) -> bool {
        &&& self.tables_wf()
        &&& self.memtable_size < MEMTABLE_MAX_SIZE_BYTES
    }

    /// The active mapping, as a map.
    pub open spec fn active_map(self) -> Map<Seq<u8>, EntryView> {
        to_map(self.memtable@)
    }

    /// The frozen mapping, as a map; empty when no snapshot exists.
    pub open spec fn frozen_map(self) -> Map<Seq<u8>, EntryView> {
        to_map(self.frozen_seq())
    }

    /// The store's logical contents: the frozen mapping overridden by the
    /// active mapping. A key bound in both takes the active entry, live or
    /// tombstone.
    pub open spec fn logical(self) -> Map<Seq<u8>, EntryView> {
        Map::new(
            |k: Seq<u8>| self.active_map().contains_key(k) || self.frozen_map().contains_key(k),
            |k: Seq<u8>|
                if self.active_map().contains_key(k) {
                    self.active_map()[k]
                } else {
                    self.frozen_map()[k]
                },
        )
    }

    /// The accounted size of the active mapping after writing `e` under `k`:
    /// overwriting replaces the entry's share, a fresh key adds its own
    /// length as well.
    pub open spec fn size_after_write(self, k: Seq<u8>, e: EntryView) -> int {
        table_size(self.memtable@) + k.len() + e.byte_len() - (
        if table_contains(self.memtable@, k) {
            k.len() + table_at(self.memtable@, k).byte_len()
        } else {
            0
        })
    }

    /// Opens a store at `path`, a handle to where data would eventually be
    /// persisted; the in-memory core keeps it but performs no I/O on it.
    pub fn open(path: &[u8]) -> (r: Result<DB, DBError>)
        ensures
            r matches Ok(db) && db.inv() && db.root_path@ == path@ && db.memtable@
                == Seq::<Slot>::empty() && db.memtable_frozen is None && db.memtable_size == 0
                && db.logical() == Map::<Seq<u8>, EntryView>::empty(),
    {
        let db = DB {
            root_path: vstd::slice::slice_to_vec(path),
            memtable: Memtable::new(),
            memtable_frozen: None,
            memtable_size: 0,
        };
        proof {
            assert(db.logical() =~= Map::<Seq<u8>, EntryView>::empty());
        }
        Ok(db)
    }

    /// Looks `key` up in one mapping.
    fn _get_from_memtable<'m>(&self, key: &[u8], memtable: &'m Memtable) -> (r: Result<
        Option<&'m Entry>,
        DBError,
    >)
        requires
            table_sorted(memtable@),
        ensures
            r matches Ok(o) && (match o {
                Some(e) => table_contains(memtable@, key@) && e@ == table_at(memtable@, key@),
                None => !table_contains(memtable@, key@),
            }),
    {
        Ok(memtable.get(key))
    }

    /// Returns the payload of the most recent write to `key`, or nothing if
    /// the key was never written or was most recently deleted. The active
    /// mapping is consulted first; a tombstone there is authoritative and
    /// hides any older frozen binding.
    pub fn get(&self, key: &[u8]) -> (r: Result<Option<Value>, DBError>)
        requires
            self.inv(),
        ensures
            r matches Ok(o) && (match o {
                Some(v) => Some(v@),
                None => None::<Seq<u8>>,
            }) == lookup(self.logical(), key@),
    {
        let mut result: Option<&Entry> = match self._get_from_memtable(key, &self.memtable) {
            Ok(o) => o,
            Err(e) => return Err(e),
        };
        if result.is_none() {
            match &self.memtable_frozen {
                Some(snapshot) => {
                    result = match self._get_from_memtable(key, snapshot) {
                        Ok(o) => o,
                        Err(e) => return Err(e),
                    };
                },
                None => {},
            }
        }
        Ok(
            match result {
                Some(e) => match e {
                    Entry::Present(data) => Some(vstd::slice::slice_to_vec(data.as_slice())),
                    Entry::Deleted => None,
                },
                None => None,
            },
        )
    }

    /// Retires the active mapping to the frozen snapshot slot and starts a
    /// fresh empty active mapping. A snapshot must not already exist: nothing
    /// drains it yet, so a second freeze would lose data.
    pub fn _swap_and_compact(&mut self)
        requires
            old(self).tables_wf(),
            old(self).memtable_frozen is None,
        ensures
            final(self).inv(),
            final(self).memtable@ == Seq::<Slot>::empty(),
            final(self).memtable_size == 0,
            final(self).memtable_frozen matches Some(t) && t@ == old(self).memtable@,
            final(self).root_path == old(self).root_path,
            final(self).logical() == old(self).logical(),
    {
        let mut fresh = Memtable::new();
        core::mem::swap(&mut fresh, &mut self.memtable);
        self.memtable_frozen = Some(fresh);
        self.memtable_size = 0;
        proof {
            assert(self.logical() =~= old(self).logical());
        }
    }

    /// Writes `entry` under `key`, updates the size counter, and freezes the
    /// active mapping inline if the counter has reached the threshold.
    fn _put_entry(&mut self, key: Vec<u8>, entry: Entry) -> (r: Result<(), DBError>)
        requires
            old(self).inv(),
            key@.len() + entry@.byte_len() + MEMTABLE_MAX_SIZE_BYTES <= usize::MAX,
            old(self).memtable_frozen is Some ==> old(self).size_after_write(key@, entry@)
                < MEMTABLE_MAX_SIZE_BYTES,
        ensures
            r is Ok,
            final(self).inv(),
            final(self).root_path == old(self).root_path,
            final(self).logical() == old(self).logical().insert(key@, entry@),
            old(self).size_after_write(key@, entry@) >= MEMTABLE_MAX_SIZE_BYTES ==> {
                &&& final(self).memtable@ == Seq::<Slot>::empty()
                &&& final(self).memtable_size == 0
                &&& final(self).memtable_frozen matches Some(t) && to_map(t@) == old(
                    self,
                ).active_map().insert(key@, entry@)
            },
            old(self).size_after_write(key@, entry@) < MEMTABLE_MAX_SIZE_BYTES ==> {
                &&& final(self).active_map() == old(self).active_map().insert(key@, entry@)
                &&& final(self).memtable_size == old(self).size_after_write(key@, entry@)
                &&& final(self).memtable_frozen == old(self).memtable_frozen
            },
    {
        let ghost gkey = key@;
        let ghost gentry = entry@;
        let ghost s0 = self.memtable@;
        let key_len = key.len();
        let entry_len = entry.len();
        let prev = self.memtable.insert(key, entry);
        match prev {
            Some(old_entry) => {
                let old_len = old_entry.len();
                proof {
                    let idx = table_index_of(s0, gkey);
                    lemma_slot_size_le(s0, idx);
                }
                self.memtable_size = self.memtable_size - old_len + entry_len;
            },
            None => {
                self.memtable_size = self.memtable_size + key_len + entry_len;
            },
        }
        proof {
            assert(self.memtable_size == old(self).size_after_write(gkey, gentry));
            assert(self.logical() =~= old(self).logical().insert(gkey, gentry));
        }
        if self.memtable_size >= MEMTABLE_MAX_SIZE_BYTES {
            self._swap_and_compact();
        }
        Ok(())
    }

    /// Inserts or overwrites `key` with a live entry holding `value`.
    pub fn put(&mut self, key: Key, value: Value) -> (r: Result<(), DBError>)
        requires
            old(self).inv(),
            key@.len() + value@.len() + MEMTABLE_MAX_SIZE_BYTES <= usize::MAX,
            old(self).memtable_frozen is Some ==> old(self).size_after_write(
                key@,
                EntryView::Present(value@),
            ) < MEMTABLE_MAX_SIZE_BYTES,
        ensures
            r is Ok,
            final(self).inv(),
            final(self).root_path == old(self).root_path,
            final(self).logical() == old(self).logical().insert(
                key@,
                EntryView::Present(value@),
            ),
            old(self).size_after_write(key@, EntryView::Present(value@))
                >= MEMTABLE_MAX_SIZE_BYTES ==> {
                &&& final(self).memtable@ == Seq::<Slot>::empty()
                &&& final(self).memtable_size == 0
                &&& final(self).memtable_frozen matches Some(t) && to_map(t@) == old(
                    self,
                ).active_map().insert(key@, EntryView::Present(value@))
            },
            old(self).size_after_write(key@, EntryView::Present(value@))
                < MEMTABLE_MAX_SIZE_BYTES ==> {
                &&& final(self).active_map() == old(self).active_map().insert(
                    key@,
                    EntryView::Present(value@),
                )
                &&& final(self).memtable_size == old(self).size_after_write(
                    key@,
                    EntryView::Present(value@),
                )
                &&& final(self).memtable_frozen == old(self).memtable_frozen
            },
    {
        self._put_entry(key, Entry::Present(value))
    }

    /// Inserts or overwrites `key` with a tombstone. Not a physical removal:
    /// the tombstone keeps the deletion visible over any older frozen
    /// binding of the key.
    pub fn delete(&mut self, key: Key) -> (r: Result<(), DBError>)
        requires
            old(self).inv(),
            key@.len() + 1 + MEMTABLE_MAX_SIZE_BYTES <= usize::MAX,
            old(self).memtable_frozen is Some ==> old(self).size_after_write(
                key@,
                EntryView::Deleted,
            ) < MEMTABLE_MAX_SIZE_BYTES,
        ensures
            r is Ok,
            final(self).inv(),
            final(self).root_path == old(self).root_path,
            final(self).logical() == old(self).logical().insert(key@, EntryView::Deleted),
            old(self).size_after_write(key@, EntryView::Deleted) >= MEMTABLE_MAX_SIZE_BYTES
                ==> {
                &&& final(self).memtable@ == Seq::<Slot>::empty()
                &&& final(self).memtable_size == 0
                &&& final(self).memtable_frozen matches Some(t) && to_map(t@) == old(
                    self,
                ).active_map().insert(key@, EntryView::Deleted)
            },
            old(self).size_after_write(key@, EntryView::Deleted) < MEMTABLE_MAX_SIZE_BYTES
                ==> {
                &&& final(self).active_map() == old(self).active_map().insert(
                    key@,
                    EntryView::Deleted,
                )
                &&& final(self).memtable_size == old(self).size_after_write(
                    key@,
                    EntryView::Deleted,
                )
                &&& final(self).memtable_frozen == old(self).memtable_frozen
            },
    {
        self._put_entry(key, Entry::Deleted)
    }

    /// The pairs that a scan with prefix `p` produces: the merged output of
    /// both mappings, each entered at its lower bound for `p`.
    pub open spec fn seek_view(self, p: Seq<u8>) -> Seq<(Seq<u8>, Seq<u8>)> {
        merge_out(
            self.memtable@,
            lower_bound_of(self.memtable@, p),
            self.frozen_seq(),
            lower_bound_of(self.frozen_seq(), p),
            p,
        )
    }

    /// Starts a prefix scan: a single-pass cursor over all live keys that
    /// begin with `prefix`, ascending, the active mapping winning ties.
    pub fn seek<'s>(&'s self, prefix: &[u8]) -> (r: Result<DBIterator<'s>, DBError>)
        requires
            self.inv(),
        ensures
            r matches Ok(it) && it.wf() && it.remaining() == self.seek_view(prefix@),
    {
        let active_pos = self.memtable.lower_bound(prefix);
        let frozen: Option<&Memtable> = match &self.memtable_frozen {
            Some(t) => Some(t),
            None => None,
        };
        let frozen_pos = match frozen {
            Some(t) => t.lower_bound(prefix),
            None => 0,
        };
        let it = DBIterator {
            active: &self.memtable,
            frozen,
            active_pos,
            frozen_pos,
            prefix: vstd::slice::slice_to_vec(prefix),
        };
        proof {
            let a = self.memtable@;
            let f = self.frozen_seq();
            assert forall|n: int| active_pos <= n < a.len() implies !lex_lt(a[n].key@, prefix@) by {
                if n > active_pos && lex_lt(a[n].key@, prefix@) {
                    lemma_lex_transitive(a[active_pos as int].key@, a[n].key@, prefix@);
                }
            }
            assert forall|n: int| frozen_pos <= n < f.len() implies !lex_lt(f[n].key@, prefix@) by {
                if n > frozen_pos && lex_lt(f[n].key@, prefix@) {
                    lemma_lex_transitive(f[frozen_pos as int].key@, f[n].key@, prefix@);
                }
            }
            lemma_lower_bound_is(a, prefix@, active_pos as int);
            lemma_lower_bound_is(f, prefix@, frozen_pos as int);
        }
        Ok(it)
    }
}

/// A single write, as a mathematical event: binding a key to a payload, or
/// to a tombstone.
pub ghost enum WriteOp {
    Put { key: Seq<u8>, value: Seq<u8> },
    Delete { key: Seq<u8> },
}

/// The effect of one write on the logical contents: exactly what `put` and
/// `delete` establish.
pub open spec fn apply_write(m: Map<Seq<u8>, EntryView>, op: WriteOp) -> Map<Seq<u8>, EntryView> {
    match op {
        WriteOp::Put { key, value } => m.insert(key, EntryView::Present(value)),
        WriteOp::Delete { key } => m.insert(key, EntryView::Deleted),
    }
}

/// The effect of a sequence of writes, applied left to right.
pub open spec fn apply_writes(m: Map<Seq<u8>, EntryView>, ops: Seq<WriteOp>) -> Map<
    Seq<u8>,
    EntryView,
>
    decreases ops.len(),
{
    if ops.len() == 0 {
        m
    } else {
        apply_write(apply_writes(m, ops.drop_last()), ops.last())
    }
}

/// The payload of the last put to `k` in `ops`, unless a delete of `k` came
/// after it; nothing when `k` was never put or was deleted last.
pub open spec fn last_write(ops: Seq<WriteOp>, k: Seq<u8>) -> Option<Seq<u8>>
    decreases ops.len(),
{
    if ops.len() == 0 {
        None
    } else {
        match ops.last() {
            WriteOp::Put { key, value } => if key == k {
                Some(value)
            } else {
                last_write(ops.drop_last(), k)
            },
            WriteOp::Delete { key } => if key == k {
                None
            } else {
                last_write(ops.drop_last(), k)
            },
        }
    }
}

/// After any sequence of puts and deletes against initially empty contents,
/// a read of `k` yields the payload of the last put to `k` if no later
/// delete of `k` occurred, and nothing otherwise. `put` and `delete` ensure
/// exactly the updates of `apply_write`, and `get` ensures exactly `lookup`
/// of the logical contents, so this carries over to the executable store.
pub proof fn lemma_last_write_wins(ops: Seq<WriteOp>, k: Seq<u8>)
    ensures
        lookup(apply_writes(Map::empty(), ops), k) == last_write(ops, k),
    decreases ops.len(),
{
    if ops.len() == 0 {
        assert(!Map::<Seq<u8>, EntryView>::empty().contains_key(k));
    } else {
        lemma_last_write_wins(ops.drop_last(), k);
    }
}

/// Overwriting a key that is already bound never changes the set of keys,
/// only its entry and the size counter, whose change is the difference of
/// the two entries' lengths.
pub proof fn lemma_overwrite_keeps_keys(db: DB, k: Seq<u8>, e: EntryView)
    requires
        db.inv(),
        db.active_map().contains_key(k),
    ensures
        db.active_map().insert(k, e).dom() == db.active_map().dom(),
        db.logical().insert(k, e).dom() == db.logical().dom(),
        db.size_after_write(k, e) == db.memtable_size + e.byte_len()
            - db.active_map()[k].byte_len(),
{
    assert(db.active_map().insert(k, e).dom() =~= db.active_map().dom());
    assert(db.logical().insert(k, e).dom() =~= db.logical().dom());
}

/// A scan with prefix `p` produces exactly the live keys that begin with
/// `p`, each with its winning payload, in strictly ascending key order and
/// so without duplicates — even when a key is bound in both mappings.
pub proof fn lemma_seek_exact(db: DB, p: Seq<u8>)
    requires
        db.inv(),
    ensures
        forall|m: int, n: int|
            0 <= m < n < db.seek_view(p).len() ==> lex_lt(
                (#[trigger] db.seek_view(p)[m]).0,
                (#[trigger] db.seek_view(p)[n]).0,
            ),
        forall|k: Seq<u8>, v: Seq<u8>|
            #[trigger] db.seek_view(p).contains((k, v)) <==> (is_prefix_of(p, k)
                && db.logical().contains_key(k) && db.logical()[k] == EntryView::Present(v)),
{
    let a = db.memtable@;
    let f = db.frozen_seq();
    let la = lower_bound_of(a, p);
    let lf = lower_bound_of(f, p);
    lemma_lower_bound_props(a, p);
    lemma_lower_bound_props(f, p);
    assert forall|m: int, n: int| 0 <= m < la && lf <= n < f.len() implies lex_lt(
        (#[trigger] a[m].key@),
        (#[trigger] f[n].key@),
    ) by {
        lemma_lex_lt_le(a[m].key@, p, f[n].key@);
    }
    assert forall|m: int, n: int| 0 <= m < lf && la <= n < a.len() implies lex_lt(
        (#[trigger] f[m].key@),
        (#[trigger] a[n].key@),
    ) by {
        lemma_lex_lt_le(f[m].key@, p, a[n].key@);
    }
    lemma_merge_out_exact(a, la, f, lf, p);
    // ahead of a lower bound, the range holds every key carrying the prefix
    assert forall|k: Seq<u8>|
        is_prefix_of(p, k) implies #[trigger] table_contains_from(a, la, k) == table_contains(
        a,
        k,
    ) && table_contains_from(f, lf, k) == table_contains(f, k) by {
        lemma_prefix_ge(p, k);
        if table_contains(a, k) {
            let w = table_index_of(a, k);
            assert(a[w].key@ == k);
            assert(la <= w < a.len() && a[w].key@ == k);
        }
        if table_contains(f, k) {
            let w = table_index_of(f, k);
            assert(f[w].key@ == k);
            assert(lf <= w < f.len() && f[w].key@ == k);
        }
        if table_contains_from(a, la, k) {
            let w = choose|w: int| la <= w < a.len() && (#[trigger] a[w].key@) == k;
            assert(table_contains(a, k));
        }
        if table_contains_from(f, lf, k) {
            let w = choose|w: int| lf <= w < f.len() && (#[trigger] f[w].key@) == k;
            assert(table_contains(f, k));
        }
    }
}

/// A scan with the empty prefix — which every key begins with — produces
/// exactly the live keys of the whole store, ascending.
pub proof fn lemma_seek_empty_all(db: DB)
    requires
        db.inv(),
    ensures
        forall|m: int, n: int|
            0 <= m < n < db.seek_view(Seq::empty()).len() ==> lex_lt(
                (#[trigger] db.seek_view(Seq::empty())[m]).0,
                (#[trigger] db.seek_view(Seq::empty())[n]).0,
            ),
        forall|k: Seq<u8>, v: Seq<u8>|
            #[trigger] db.seek_view(Seq::empty()).contains((k, v)) <==> (
            db.logical().contains_key(k) && db.logical()[k] == EntryView::Present(v)),
{
    lemma_seek_exact(db, Seq::empty());
    assert forall|k: Seq<u8>| #[trigger] is_prefix_of(Seq::<u8>::empty(), k) by {
        lemma_empty_prefix(k);
    }
}

/// When a key is bound in both mappings, the active entry — live or
/// tombstone — decides what `get` and a scan yield for that key; the frozen
/// binding never surfaces.
pub proof fn lemma_active_entry_wins(db: DB, k: Seq<u8>, p: Seq<u8>)
    requires
        db.inv(),
        db.active_map().contains_key(k),
        db.frozen_map().contains_key(k),
    ensures
        db.logical().contains_key(k),
        db.logical()[k] == db.active_map()[k],
        lookup(db.logical(), k) == (match db.active_map()[k] {
            EntryView::Present(v) => Some(v),
            EntryView::Deleted => None,
        }),
        forall|v: Seq<u8>|
            #[trigger] db.seek_view(p).contains((k, v)) <==> (is_prefix_of(p, k)
                && db.active_map()[k] == EntryView::Present(v)),
{
    lemma_seek_exact(db, p);
}

} // verus!
