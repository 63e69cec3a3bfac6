//! The store's laws, stated over the same views its contracts use.
//!
//! `insert`, `remove` and `get` are specified against the abstract map
//! `self@`: an insert makes it `old@.insert(k, v)`, a delete makes it
//! `old@.remove(k)`, and a get returns `self@[k]`. The laws here say
//! what follows for sequences of such operations, and how a reopened
//! store relates to the log bytes the operations appended.

use vstd::prelude::*;

use crate::fs::Fd;
use crate::fs::lemma_write_bytes_append;
use crate::fs::spec_write_bytes;
use crate::replay::parses_cleanly;
use crate::replay::replay_locs;
use crate::repr::spec_record_bytes;
use crate::repr::HEADER_LEN;
use crate::repr::MAX_KEY_SIZE;
use crate::repr::MAX_VALUE_SIZE;
use crate::repr::NOT_DELETED;

verus! {

/// Round trip: after `put(k, v)` the store maps `k` to exactly `v`, so a
/// following `get(k)` returns `v`, whatever the store held before.
pub proof fn lemma_put_then_get(m: Map<Seq<u8>, Seq<u8>>, k: Seq<u8>, v: Seq<u8>)
    ensures
        m.insert(k, v).contains_key(k),
        m.insert(k, v)[k] == v,
{
}

/// Round trip, deletion half: after `delete(k)` the key is absent, so a
/// following `get(k)` reports `NotFound`.
pub proof fn lemma_delete_then_get(m: Map<Seq<u8>, Seq<u8>>, k: Seq<u8>)
    ensures
        !m.remove(k).contains_key(k),
{
}

/// Operations on one key never disturb another key's binding.
pub proof fn lemma_other_keys_unchanged(
    m: Map<Seq<u8>, Seq<u8>>,
    k: Seq<u8>,
    v: Seq<u8>,
    k2: Seq<u8>,
)
    requires
        k2 != k,
    ensures
        m.insert(k, v).contains_key(k2) == m.contains_key(k2),
        m.remove(k).contains_key(k2) == m.contains_key(k2),
        m.contains_key(k2) ==> m.insert(k, v)[k2] == m[k2] && m.remove(k)[k2] == m[k2],
{
}

/// One store operation, as the contracts of `insert` and `remove`
/// describe it on the abstract map.
pub enum StoreOp {
    Put(Seq<u8>, Seq<u8>),
    Del(Seq<u8>),
}

impl StoreOp {
    /// Whether this operation reads or writes the binding of `k`.
    pub open spec fn touches(self, k: Seq<u8>) -> bool {
        match self {
            StoreOp::Put(k2, _v) => k2 == k,
            StoreOp::Del(k2) => k2 == k,
        }
    }
}

/// The abstract map after one operation.
pub open spec fn apply_op(m: Map<Seq<u8>, Seq<u8>>, op: StoreOp) -> Map<Seq<u8>, Seq<u8>> {
    match op {
        StoreOp::Put(k, v) => m.insert(k, v),
        StoreOp::Del(k) => m.remove(k),
    }
}

/// The abstract map after a sequence of operations, applied in order.
pub open spec fn apply_ops(m: Map<Seq<u8>, Seq<u8>>, ops: Seq<StoreOp>) -> Map<Seq<u8>, Seq<u8>>
    decreases ops.len(),
{
    if ops.len() == 0 {
        m
    } else {
        apply_op(apply_ops(m, ops.drop_last()), ops.last())
    }
}

/// Last writer wins: if the last operation touching `k` in a sequence is
/// `put(k, v)`, the store maps `k` to `v` afterwards — regardless of the
/// starting state and of any number of operations on other keys.
pub proof fn lemma_last_writer_wins(
    m: Map<Seq<u8>, Seq<u8>>,
    ops: Seq<StoreOp>,
    i: int,
    k: Seq<u8>,
    v: Seq<u8>,
)
    requires
        0 <= i < ops.len(),
        ops[i] == StoreOp::Put(k, v),
        forall|j: int| i < j < ops.len() ==> !(#[trigger] ops[j].touches(k)),
    ensures
        apply_ops(m, ops).contains_key(k),
        apply_ops(m, ops)[k] == v,
    decreases ops.len(),
{
    if i == ops.len() - 1 {
        assert(apply_ops(m, ops) == apply_op(apply_ops(m, ops.drop_last()), StoreOp::Put(k, v)));
    } else {
        let ops0 = ops.drop_last();
        assert(ops0[i] == ops[i]);
        assert(forall|j: int| i < j < ops0.len() ==> !(#[trigger] ops0[j].touches(k)));
        lemma_last_writer_wins(m, ops0, i, k, v);
        assert(!ops.last().touches(k));
    }
}

/// Last writer wins, deletion half: if the last operation touching `k`
/// is `delete(k)`, the key is absent afterwards.
pub proof fn lemma_last_delete_wins(
    m: Map<Seq<u8>, Seq<u8>>,
    ops: Seq<StoreOp>,
    i: int,
    k: Seq<u8>,
)
    requires
        0 <= i < ops.len(),
        ops[i] == StoreOp::Del(k),
        forall|j: int| i < j < ops.len() ==> !(#[trigger] ops[j].touches(k)),
    ensures
        !apply_ops(m, ops).contains_key(k),
    decreases ops.len(),
{
    if i == ops.len() - 1 {
        assert(apply_ops(m, ops) == apply_op(apply_ops(m, ops.drop_last()), StoreOp::Del(k)));
    } else {
        let ops0 = ops.drop_last();
        assert(ops0[i] == ops[i]);
        assert(forall|j: int| i < j < ops0.len() ==> !(#[trigger] ops0[j].touches(k)));
        lemma_last_delete_wins(m, ops0, i, k);
        assert(!ops.last().touches(k));
    }
}

/// Durability of a put: appending the record for `put(k, v)` to a
/// cleanly parsing active file and reopening yields an index that maps
/// `k` to the appended record, whose value bytes are exactly `v`.
pub proof fn lemma_put_durable(file: Seq<u8>, timestamp: u64, k: Seq<u8>, v: Seq<u8>, fd: Fd)
    requires
        parses_cleanly(file),
        1 <= k.len() <= MAX_KEY_SIZE,
        v.len() <= MAX_VALUE_SIZE,
        file.len() + HEADER_LEN + k.len() + v.len() <= usize::MAX,
    ensures
        ({
            let full = file + spec_record_bytes(NOT_DELETED, timestamp, k, v);
            let m = replay_locs(full, fd);
            &&& parses_cleanly(full)
            &&& m.contains_key(k)
            &&& m[k].value_size == v.len()
            &&& m[k].offset.0 == file.len()
            &&& full.subrange(
                m[k].offset.0 + HEADER_LEN + k.len(),
                m[k].offset.0 + HEADER_LEN + k.len() + m[k].value_size,
            ) == v
        }),
{
    crate::replay::lemma_replay_append(file, NOT_DELETED, timestamp, k, v, fd);
    let full = file + spec_record_bytes(NOT_DELETED, timestamp, k, v);
    let flen = file.len() as int;
    crate::repr::lemma_header_roundtrip(
        crate::repr::Header {
            tombstone: NOT_DELETED,
            timestamp,
            key_size: k.len() as u16,
            value_size: v.len() as u32,
        },
    );
    assert(full.subrange(flen + HEADER_LEN + k.len(), flen + HEADER_LEN + k.len() + v.len())
        =~= v);
}

/// Writers of distinct keys accumulate: each put of a fresh key grows
/// the index by exactly one entry, so any interleaving of writers that
/// insert disjoint key sets ends with the sum of their counts.
pub proof fn lemma_distinct_keys_accumulate(m: Map<Seq<u8>, Seq<u8>>, k: Seq<u8>, v: Seq<u8>)
    requires
        m.dom().finite(),
        !m.contains_key(k),
    ensures
        m.insert(k, v).dom().finite(),
        m.insert(k, v).dom().len() == m.dom().len() + 1,
{
    assert(m.insert(k, v).dom() =~= m.dom().insert(k));
}

/// Durability, in the words of `insert`'s own contract: a successful
/// put writes its record at the cursor, and with the cursor at the end
/// of the active file — where every successful append leaves it — that
/// write is exactly an append, so reopening replays the put.
pub proof fn lemma_insert_then_reopen(file: Seq<u8>, timestamp: u64, k: Seq<u8>, v: Seq<u8>, fd: Fd)
    requires
        parses_cleanly(file),
        1 <= k.len() <= MAX_KEY_SIZE,
        v.len() <= MAX_VALUE_SIZE,
        file.len() + HEADER_LEN + k.len() + v.len() <= usize::MAX,
    ensures
        ({
            let full = spec_write_bytes(
                file,
                file.len() as int,
                spec_record_bytes(NOT_DELETED, timestamp, k, v),
            );
            let m = replay_locs(full, fd);
            &&& parses_cleanly(full)
            &&& m.contains_key(k)
            &&& full.subrange(
                m[k].offset.0 + HEADER_LEN + k.len(),
                m[k].offset.0 + HEADER_LEN + k.len() + m[k].value_size,
            ) == v
        }),
{
    lemma_write_bytes_append(file, spec_record_bytes(NOT_DELETED, timestamp, k, v));
    lemma_put_durable(file, timestamp, k, v, fd);
}

} // verus!
