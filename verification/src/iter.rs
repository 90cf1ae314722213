//! The merge iterator behind prefix scans: two cursors, one over the active
//! mapping and one over the frozen snapshot, merged into a single ascending
//! sequence. On equal keys the active cursor wins and the frozen slot is
//! discarded; tombstones are filtered out; the scan ends at the first key
//! that no longer carries the prefix, since no later key can carry it.
use vstd::prelude::*;
use vstd::slice::slice_to_vec;

use crate::entry::{Entry, EntryView};
use crate::keys::{
    has_prefix, is_prefix_of, key_cmp, lemma_lex_transitive, lemma_lex_trichotomy,
    lemma_prefix_past, lex_lt, KeyOrd,
};
use crate::memtable::{
    lemma_index_unique, table_at, table_contains_from, table_sorted, Memtable, Slot,
};
use crate::{Key, Value};

verus! {

/// The sequence of (key, payload) pairs that the merge produces from the
/// active slots `a` at position `i` and the frozen slots `f` at position `j`,
/// bounded by the prefix `p`: winners are taken in ascending key order with
/// the active side winning ties, tombstones are skipped, and the sequence
/// ends at the first winner that does not carry the prefix.
pub open spec fn merge_out(a: Seq<Slot>, i: int, f: Seq<Slot>, j: int, p: Seq<u8>) -> Seq<
    (Seq<u8>, Seq<u8>),
>
    decreases a.len() + f.len() - i - j,
{
    if i < 0 || j < 0 || i > a.len() || j > f.len() || (i == a.len() && j == f.len()) {
        Seq::empty()
    } else {
        let from_active = j == f.len() || (i < a.len() && !lex_lt(f[j].key@, a[i].key@));
        let winner = if from_active {
            a[i]
        } else {
            f[j]
        };
        let ni = if from_active {
            i + 1
        } else {
            i
        };
        let nj = if !from_active || (i < a.len() && j < f.len() && a[i].key@ == f[j].key@) {
            j + 1
        } else {
            j
        };
        if !is_prefix_of(p, winner.key@) {
            Seq::empty()
        } else {
            match winner.entry@ {
                EntryView::Present(v) => seq![(winner.key@, v)] + merge_out(a, ni, f, nj, p),
                EntryView::Deleted => merge_out(a, ni, f, nj, p),
            }
        }
    }
}

/// A single-pass cursor over the merged view of the two mappings. Obtained
/// from a prefix scan; restarting requires a fresh scan.
pub struct DBIterator<'a> {
    pub active: &'a Memtable,
    pub frozen: Option<&'a Memtable>,
    pub active_pos: usize,
    pub frozen_pos: usize,
    pub prefix: Vec<u8>,
}

impl<'a> DBIterator<'a> {
    /// The frozen slots, or the empty sequence when no snapshot exists.
    pub open spec fn frozen_seq(self) -> Seq<Slot> {
        match self.frozen {
            Some(t) => t@,
            None => Seq::empty(),
        }
    }

    /// Both sources sorted, both positions in bounds, and every slot not yet
    /// passed at or above the prefix (the cursors start at a lower bound).
    pub open spec fn wf(self) -> bool {
        &&& table_sorted(self.active@)
        &&& table_sorted(self.frozen_seq())
        &&& self.active_pos <= self.active@.len()
        &&& self.frozen_pos <= self.frozen_seq().len()
        &&& forall|n: int|
            self.active_pos <= n < self.active@.len() ==> !lex_lt(
                (#[trigger] self.active@[n].key@),
                self.prefix@,
            )
        &&& forall|n: int|
            self.frozen_pos <= n < self.frozen_seq().len() ==> !lex_lt(
                (#[trigger] self.frozen_seq()[n].key@),
                self.prefix@,
            )
    }

    /// What is left to produce: the merged output from the current positions.
    pub open spec fn remaining(self) -> Seq<(Seq<u8>, Seq<u8>)> {
        merge_out(
            self.active@,
            self.active_pos as int,
            self.frozen_seq(),
            self.frozen_pos as int,
            self.prefix@,
        )
    }

    /// Produces the next live (key, payload) pair of the merged scan, or
    /// nothing once the scan has ended.
    pub fn next(&mut self) -> (r: Option<(Key, Value)>)
        requires
            old(self).wf(),
        ensures
            final(self).wf(),
            match r {
                Some(kv) => {
                    &&& old(self).remaining().len() > 0
                    &&& kv.0@ == old(self).remaining()[0].0
                    &&& kv.1@ == old(self).remaining()[0].1
                    &&& final(self).remaining() == old(self).remaining().drop_first()
                },
                None => {
                    &&& old(self).remaining().len() == 0
                    &&& final(self).remaining().len() == 0
                },
            },
    {
        loop
            invariant
                self.wf(),
                self.remaining() == old(self).remaining(),
            decreases self.active@.len() + self.frozen_seq().len() - self.active_pos
                - self.frozen_pos,
        {
            let ghost a = self.active@;
            let ghost f = self.frozen_seq();
            let ghost p = self.prefix@;
            let ghost gi: int = self.active_pos as int;
            let ghost gj: int = self.frozen_pos as int;
            let active_ref: &Memtable = self.active;
            let has_a = self.active_pos < active_ref.slots.len();
            let has_f = match self.frozen {
                Some(t) => self.frozen_pos < t.slots.len(),
                None => false,
            };
            if !has_a && !has_f {
                return None;
            }
            let from_active: bool;
            let mut advance_frozen = false;
            if has_a && has_f {
                let tf: &Memtable = self.frozen.unwrap();
                match key_cmp(
                    active_ref.slots[self.active_pos].key.as_slice(),
                    tf.slots[self.frozen_pos].key.as_slice(),
                ) {
                    KeyOrd::Lt => {
                        from_active = true;
                    },
                    KeyOrd::Eq => {
                        from_active = true;
                        advance_frozen = true;
                    },
                    KeyOrd::Gt => {
                        from_active = false;
                    },
                }
            } else {
                from_active = has_a;
            }
            proof {
                assert(from_active == (gj == f.len() || (gi < a.len() && !lex_lt(
                    f[gj].key@,
                    a[gi].key@,
                ))));
            }
            if from_active {
                let slot: &Slot = &active_ref.slots[self.active_pos];
                if !has_prefix(slot.key.as_slice(), self.prefix.as_slice()) {
                    return None;
                }
                self.active_pos = self.active_pos + 1;
                if advance_frozen {
                    self.frozen_pos = self.frozen_pos + 1;
                }
                match &slot.entry {
                    Entry::Present(data) => {
                        let out_key = slice_to_vec(slot.key.as_slice());
                        let out_val = slice_to_vec(data.as_slice());
                        proof {
                            let rest = merge_out(
                                a,
                                self.active_pos as int,
                                f,
                                self.frozen_pos as int,
                                p,
                            );
                            assert((seq![(slot.key@, data@)] + rest).drop_first() =~= rest);
                        }
                        return Some((out_key, out_val));
                    },
                    Entry::Deleted => {},
                }
            } else {
                let tf: &Memtable = self.frozen.unwrap();
                let slot: &Slot = &tf.slots[self.frozen_pos];
                if !has_prefix(slot.key.as_slice(), self.prefix.as_slice()) {
                    return None;
                }
                self.frozen_pos = self.frozen_pos + 1;
                match &slot.entry {
                    Entry::Present(data) => {
                        let out_key = slice_to_vec(slot.key.as_slice());
                        let out_val = slice_to_vec(data.as_slice());
                        proof {
                            let rest = merge_out(
                                a,
                                self.active_pos as int,
                                f,
                                self.frozen_pos as int,
                                p,
                            );
                            assert((seq![(slot.key@, data@)] + rest).drop_first() =~= rest);
                        }
                        return Some((out_key, out_val));
                    },
                    Entry::Deleted => {},
                }
            }
        }
    }

    /// Drains the cursor, returning every remaining pair in order.
    pub fn into_vec(self) -> (r: Vec<(Key, Value)>)
        requires
            self.wf(),
        ensures
            pair_views(r@) == self.remaining(),
    {
        let mut it = self;
        let mut out: Vec<(Key, Value)> = Vec::new();
        proof {
            assert(pair_views(out@) + it.remaining() =~= it.remaining());
        }
        loop
            invariant
                it.wf(),
                pair_views(out@) + it.remaining() == self.remaining(),
            decreases it.remaining().len(),
        {
            match it.next() {
                Some(kv) => {
                    let ghost before = out@;
                    out.push(kv);
                    proof {
                        assert(pair_views(out@) =~= pair_views(before) + seq![(kv.0@, kv.1@)]);
                        assert(pair_views(out@) + it.remaining() =~= self.remaining());
                    }
                },
                None => {
                    proof {
                        assert(pair_views(out@) + it.remaining() =~= pair_views(out@));
                    }
                    return out;
                },
            }
        }
    }
}

/// The views of a vector of owned (key, payload) pairs.
pub open spec fn pair_views(s: Seq<(Vec<u8>, Vec<u8>)>) -> Seq<(Seq<u8>, Seq<u8>)> {
    s.map_values(|kv: (Vec<u8>, Vec<u8>)| (kv.0@, kv.1@))
}

/// An element is in a sequence with one more at the front exactly when it is
/// that front element or in the rest.
proof fn lemma_cons_contains<T>(head: T, rest: Seq<T>, x: T)
    ensures
        (seq![head] + rest).contains(x) <==> x == head || rest.contains(x),
{
    let s = seq![head] + rest;
    assert(s[0] == head);
    if rest.contains(x) {
        let w = choose|w: int| 0 <= w < rest.len() && rest[w] == x;
        assert(s[w + 1] == x);
    }
    if s.contains(x) {
        let w = choose|w: int| 0 <= w < s.len() && s[w] == x;
        if w > 0 {
            assert(rest[w - 1] == x);
        }
    }
}

/// What the merge produces, exactly: starting from positions that see only
/// keys at or above `p`, with everything already passed on one side below
/// everything still ahead on the other, the output is strictly ascending by
/// key and holds exactly the pairs `(k, v)` such that `k` carries the prefix
/// `p` and the winning entry for `k` — the active one if the active side
/// still holds `k`, otherwise the frozen one — is the live payload `v`.
pub proof fn lemma_merge_out_exact(a: Seq<Slot>, i: int, f: Seq<Slot>, j: int, p: Seq<u8>)
    requires
        table_sorted(a),
        table_sorted(f),
        0 <= i <= a.len(),
        0 <= j <= f.len(),
        forall|n: int| i <= n < a.len() ==> !lex_lt((#[trigger] a[n].key@), p),
        forall|n: int| j <= n < f.len() ==> !lex_lt((#[trigger] f[n].key@), p),
        forall|m: int, n: int|
            0 <= m < i && j <= n < f.len() ==> lex_lt(
                (#[trigger] a[m].key@),
                (#[trigger] f[n].key@),
            ),
        forall|m: int, n: int|
            0 <= m < j && i <= n < a.len() ==> lex_lt(
                (#[trigger] f[m].key@),
                (#[trigger] a[n].key@),
            ),
    ensures
        ({
            let out = merge_out(a, i, f, j, p);
            &&& forall|m: int, n: int|
                0 <= m < n < out.len() ==> lex_lt((#[trigger] out[m]).0, (#[trigger] out[n]).0)
            &&& forall|k: Seq<u8>, v: Seq<u8>|
                #[trigger] out.contains((k, v)) <==> (is_prefix_of(p, k) && (
                (table_contains_from(a, i, k) && table_at(a, k) == EntryView::Present(v)) || (
                !table_contains_from(a, i, k) && table_contains_from(f, j, k) && table_at(f, k)
                    == EntryView::Present(v))))
        }),
    decreases a.len() + f.len() - i - j,
{
    let out = merge_out(a, i, f, j, p);
    if i == a.len() && j == f.len() {
        assert(out =~= Seq::empty());
        assert forall|k: Seq<u8>, v: Seq<u8>| !(#[trigger] out.contains((k, v))) by {}
    } else {
        let from_active = j == f.len() || (i < a.len() && !lex_lt(f[j].key@, a[i].key@));
        let winner = if from_active {
            a[i]
        } else {
            f[j]
        };
        let k0 = winner.key@;
        let ni = if from_active {
            i + 1
        } else {
            i
        };
        let nj = if !from_active || (i < a.len() && j < f.len() && a[i].key@ == f[j].key@) {
            j + 1
        } else {
            j
        };
        // every key still ahead on either side, other than the winner's own
        // slot, is strictly above the winner's key
        assert forall|n: int| ni <= n < a.len() implies lex_lt(k0, (#[trigger] a[n].key@)) by {
            if !from_active {
                if n > i {
                    lemma_lex_transitive(k0, a[i].key@, a[n].key@);
                }
            }
        }
        assert forall|n: int| nj <= n < f.len() implies lex_lt(k0, (#[trigger] f[n].key@)) by {
            if from_active && nj == j {
                lemma_lex_trichotomy(f[j].key@, k0);
                if n > j {
                    lemma_lex_transitive(k0, f[j].key@, f[n].key@);
                }
            }
        }
        // the cross conditions hold again at the advanced positions
        assert forall|m: int, n: int| 0 <= m < ni && nj <= n < f.len() implies lex_lt(
            (#[trigger] a[m].key@),
            (#[trigger] f[n].key@),
        ) by {
            if m == i {
                assert(lex_lt(k0, f[n].key@));
            }
        }
        assert forall|m: int, n: int| 0 <= m < nj && ni <= n < a.len() implies lex_lt(
            (#[trigger] f[m].key@),
            (#[trigger] a[n].key@),
        ) by {
            if m == j {
                if !from_active {
                    assert(lex_lt(k0, a[n].key@));
                } else {
                    assert(f[j].key@ == k0 && k0 == a[i].key@);
                    assert(lex_lt(a[i].key@, a[n].key@));
                }
            }
        }
        if !is_prefix_of(p, k0) {
            assert(out =~= Seq::empty());
            assert forall|k: Seq<u8>, v: Seq<u8>| !(#[trigger] out.contains((k, v))) by {}
            assert forall|k: Seq<u8>, v: Seq<u8>|
                is_prefix_of(p, k) implies !(table_contains_from(a, i, k) && table_at(a, k)
                == EntryView::Present(v)) && !(table_contains_from(f, j, k) && table_at(f, k)
                == EntryView::Present(v)) by {
                if table_contains_from(a, i, k) {
                    let w = choose|w: int| i <= w < a.len() && (#[trigger] a[w].key@) == k;
                    if from_active && w == i {
                        assert(k == k0);
                    } else {
                        assert(lex_lt(k0, k));
                        lemma_prefix_past(p, k0, k);
                    }
                }
                if table_contains_from(f, j, k) {
                    let w = choose|w: int| j <= w < f.len() && (#[trigger] f[w].key@) == k;
                    if !from_active && w == j {
                        assert(k == k0);
                    } else {
                        assert(lex_lt(k0, k));
                        lemma_prefix_past(p, k0, k);
                    }
                }
            }
        } else {
            lemma_merge_out_exact(a, ni, f, nj, p);
            let rest = merge_out(a, ni, f, nj, p);
            // the winner's key is gone from both advanced ranges
            assert(!table_contains_from(a, ni, k0)) by {
                if table_contains_from(a, ni, k0) {
                    let w = choose|w: int| ni <= w < a.len() && (#[trigger] a[w].key@) == k0;
                    assert(lex_lt(k0, a[w].key@));
                    lemma_lex_trichotomy(k0, a[w].key@);
                }
            }
            assert(!table_contains_from(f, nj, k0)) by {
                if table_contains_from(f, nj, k0) {
                    let w = choose|w: int| nj <= w < f.len() && (#[trigger] f[w].key@) == k0;
                    assert(lex_lt(k0, f[w].key@));
                    lemma_lex_trichotomy(k0, f[w].key@);
                }
            }
            // ahead of the advanced positions, the ranges bind the same keys
            // as before, except the winner's own key
            assert forall|k: Seq<u8>|
                k != k0 implies #[trigger] table_contains_from(a, ni, k) == table_contains_from(
                a,
                i,
                k,
            ) by {
                if table_contains_from(a, i, k) {
                    let w = choose|w: int| i <= w < a.len() && (#[trigger] a[w].key@) == k;
                    assert(w != i || !from_active);
                    assert(ni <= w < a.len() && a[w].key@ == k);
                }
            }
            assert forall|k: Seq<u8>|
                k != k0 implies #[trigger] table_contains_from(f, nj, k) == table_contains_from(
                f,
                j,
                k,
            ) by {
                if table_contains_from(f, j, k) {
                    let w = choose|w: int| j <= w < f.len() && (#[trigger] f[w].key@) == k;
                    if w == j && nj == j + 1 {
                        assert(f[j].key@ == k0);
                    } else {
                        assert(nj <= w < f.len() && f[w].key@ == k);
                    }
                }
            }
            // what the winner's own slot holds
            if from_active {
                lemma_index_unique(a, k0, i);
            } else {
                lemma_index_unique(f, k0, j);
                assert forall|n: int| i <= n < a.len() implies (#[trigger] a[n].key@) != k0 by {
                    lemma_lex_trichotomy(k0, a[n].key@);
                }
            }
            match winner.entry@ {
                EntryView::Deleted => {
                    assert(out == rest);
                    assert forall|k: Seq<u8>, v: Seq<u8>| #[trigger]
                        out.contains((k, v)) <==> (is_prefix_of(p, k) && ((table_contains_from(
                        a,
                        i,
                        k,
                    ) && table_at(a, k) == EntryView::Present(v)) || (!table_contains_from(
                        a,
                        i,
                        k,
                    ) && table_contains_from(f, j, k) && table_at(f, k) == EntryView::Present(
                        v,
                    )))) by {
                        if k == k0 {
                            assert(!out.contains((k, v)));
                        }
                    }
                },
                EntryView::Present(v0) => {
                    assert(out == seq![(k0, v0)] + rest);
                    assert forall|k: Seq<u8>, v: Seq<u8>| #[trigger]
                        out.contains((k, v)) <==> (is_prefix_of(p, k) && ((table_contains_from(
                        a,
                        i,
                        k,
                    ) && table_at(a, k) == EntryView::Present(v)) || (!table_contains_from(
                        a,
                        i,
                        k,
                    ) && table_contains_from(f, j, k) && table_at(f, k) == EntryView::Present(
                        v,
                    )))) by {
                        lemma_cons_contains((k0, v0), rest, (k, v));
                        if k == k0 {
                            assert(!rest.contains((k, v)));
                            assert(out.contains((k, v)) <==> v == v0);
                        }
                    }
                    // ascending: the winner's key is below every later key
                    assert forall|n: int| 0 <= n < rest.len() implies lex_lt(
                        k0,
                        (#[trigger] rest[n]).0,
                    ) by {
                        let kk = rest[n].0;
                        let vv = rest[n].1;
                        assert(rest[n] == (kk, vv));
                        assert(rest.contains((kk, vv)));
                        if table_contains_from(a, ni, kk) {
                            let w = choose|w: int|
                                ni <= w < a.len() && (#[trigger] a[w].key@) == kk;
                            assert(lex_lt(k0, a[w].key@));
                        } else {
                            let w = choose|w: int|
                                nj <= w < f.len() && (#[trigger] f[w].key@) == kk;
                            assert(lex_lt(k0, f[w].key@));
                        }
                    }
                    assert forall|m: int, n: int| 0 <= m < n < out.len() implies lex_lt(
                        (#[trigger] out[m]).0,
                        (#[trigger] out[n]).0,
                    ) by {
                        if m == 0 {
                            assert(out[n] == rest[n - 1]);
                        } else {
                            assert(out[m] == rest[m - 1] && out[n] == rest[n - 1]);
                        }
                    }
                },
            }
        }
    }
}

} // verus!
