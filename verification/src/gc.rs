//! Garbage collection: tables all of whose records have expired are deleted.

use vstd::prelude::*;
use crate::cache;
use crate::cache::{BlockCache, NUM_SHARDS};
use crate::manifest;
use crate::manifest::{Manifest, ManifestEntry, ManifestState};

verus! {

broadcast use vstd::std_specs::hash::group_hash_axioms;

/// Whether the table with the id has expired.
pub open spec fn is_expired(state: manifest::StateView, now: i64) -> spec_fn(u32) -> bool {
    |id: u32| state.sstables.contains_key(id) && state.sstables[id].max_expire < now
}

/// The tables that have expired, in the order of the active tables.
pub open spec fn expired(state: manifest::StateView, now: i64) -> Seq<u32> {
    state.active.filter(is_expired(state, now))
}

/// The records of the tables.
pub open spec fn records_of(state: manifest::StateView, ids: Seq<u32>) -> nat
    decreases ids.len(),
{
    if ids.len() == 0 {
        0
    } else {
        records_of(state, ids.drop_last()) + state.sstables[ids.last()].records as nat
    }
}

/// The bytes of the tables.
pub open spec fn bytes_of(state: manifest::StateView, ids: Seq<u32>) -> nat
    decreases ids.len(),
{
    if ids.len() == 0 {
        0
    } else {
        bytes_of(state, ids.drop_last()) + state.sstables[ids.last()].bytes as nat
    }
}

/// The tables that a garbage collection deletes, and the records that they hold.
#[derive(Debug)]
pub struct GcPlan {
    pub to_delete: Vec<u32>,
    pub purged: u64,
}

/// Finds the tables that have expired.
pub fn plan(state: &ManifestState, now_us: i64) -> (r: GcPlan)
    requires
        state@.wf(),
        records_of(state@, expired(state@, now_us)) <= u64::MAX,
    ensures
        r.to_delete@ == expired(state@, now_us),
        r.purged == records_of(state@, expired(state@, now_us)),
{
    let ids = &state.active_sst_ids;
    let ghost p = is_expired(state@, now_us);
    let ghost all = state@.active;
    let mut to_delete: Vec<u32> = Vec::new();
    let mut purged: u64 = 0;
    let mut i: usize = 0;
    proof {
        reveal(Seq::filter);
        assert(all.take(0).filter(p) =~= Seq::<u32>::empty());
    }
    while i < ids.len()
        invariant
            i <= ids@.len(),
            all == ids@,
            all == state@.active,
            state@.wf(),
            p == is_expired(state@, now_us),
            to_delete@ == all.take(i as int).filter(p),
            purged == records_of(state@, to_delete@),
            records_of(state@, all.filter(p)) <= u64::MAX,
        decreases ids@.len() - i,
    {
        let id: u32 = ids[i];
        proof {
            reveal(Seq::filter);
            assert(all.take(i + 1).drop_last() =~= all.take(i as int));
            assert(all.contains(all[i as int]));
        }
        if let Some(info) = state.sstables.get(&id) {
            assert(state@.sstables[id] == info@);
            if info.max_expire < now_us {
                let ghost before = to_delete@;
                to_delete.push(id);
                proof {
                    assert(to_delete@.drop_last() =~= before);
                    lemma_filter_split(all, i + 1, p);
                    lemma_records_prefix(state@, all.take(i + 1).filter(p), all.skip(i + 1).filter(p));
                }
                purged = purged + info.records;
            }
        }
        i += 1;
    }
    assert(all.take(i as int) =~= all);
    GcPlan { to_delete, purged }
}

proof fn lemma_filter_split(all: Seq<u32>, n: int, p: spec_fn(u32) -> bool)
    requires
        0 <= n <= all.len(),
    ensures
        all.filter(p) == all.take(n).filter(p) + all.skip(n).filter(p),
{
    assert(all =~= all.take(n) + all.skip(n));
    Seq::filter_distributes_over_add(all.take(n), all.skip(n), p);
}

proof fn lemma_records_prefix(state: manifest::StateView, a: Seq<u32>, b: Seq<u32>)
    ensures
        records_of(state, a) <= records_of(state, a + b),
    decreases b.len(),
{
    if b.len() == 0 {
        assert(a + b =~= a);
    } else {
        assert((a + b).drop_last() =~= a + b.drop_last());
        lemma_records_prefix(state, a, b.drop_last());
    }
}

/// Takes an expired table out of the manifest, and its blocks out of the cache.
pub fn remove_table(manifest: &mut Manifest, cache: &mut BlockCache, sst_id: u32)
    requires
        old(cache).wf(),
    ensures
        final(manifest)@ == old(manifest)@.removed(sst_id),
        old(manifest)@.wf() ==> final(manifest)@.wf(),
        final(cache).wf(),
        final(cache).shards() == Seq::new(
            NUM_SHARDS as nat,
            |i: int| cache::evicted(old(cache).shards()[i], sst_id),
        ),
        final(cache).limits() == old(cache).limits(),
        final(cache).hits() == old(cache).hits(),
        final(cache).misses() == old(cache).misses(),
{
    cache.invalidate_sst(sst_id);
    manifest.append(&ManifestEntry::GcDeleteSst { sst_id });
}

/// How many tables there are, and their bytes.
pub fn table_totals(state: &ManifestState) -> (r: (usize, u64))
    requires
        state@.wf(),
        bytes_of(state@, state@.active) <= u64::MAX,
    ensures
        r.0 == state@.active.len(),
        r.1 == bytes_of(state@, state@.active),
{
    let ids = &state.active_sst_ids;
    let ghost all = state@.active;
    let mut total: u64 = 0;
    let mut i: usize = 0;
    assert(all.take(0) =~= Seq::<u32>::empty());
    while i < ids.len()
        invariant
            i <= ids@.len(),
            all == ids@,
            all == state@.active,
            state@.wf(),
            total == bytes_of(state@, all.take(i as int)),
            bytes_of(state@, all) <= u64::MAX,
        decreases ids@.len() - i,
    {
        let id: u32 = ids[i];
        proof {
            assert(all.take(i + 1).drop_last() =~= all.take(i as int));
            assert(all.contains(all[i as int]));
            assert(state@.sstables.contains_key(id));
            assert(all =~= all.take(i + 1) + all.skip(i + 1));
            lemma_bytes_prefix(state@, all.take(i + 1), all.skip(i + 1));
        }
        if let Some(info) = state.sstables.get(&id) {
            assert(state@.sstables[id] == info@);
            total = total + info.bytes;
        }
        i += 1;
    }
    assert(all.take(i as int) =~= all);
    (ids.len(), total)
}

proof fn lemma_bytes_prefix(state: manifest::StateView, a: Seq<u32>, b: Seq<u32>)
    ensures
        bytes_of(state, a) <= bytes_of(state, a + b),
    decreases b.len(),
{
    if b.len() == 0 {
        assert(a + b =~= a);
    } else {
        assert((a + b).drop_last() =~= a + b.drop_last());
        lemma_bytes_prefix(state, a, b.drop_last());
    }
}

/// A garbage collection removes the tables that have expired and no other: the
/// tables that stay keep what the manifest knows of them, and their order.
pub proof fn law_gc_keeps_live_tables(state: manifest::StateView, now: i64)
    requires
        state.wf(),
    ensures
        ({
            let after = state.all_removed(expired(state, now));
            &&& after.active == state.active.filter(|id: u32| !is_expired(state, now)(id))
            &&& after.last_flushed_seq == state.last_flushed_seq
            &&& forall|id: u32| #[trigger]
                after.sstables.contains_key(id) <==> state.sstables.contains_key(id)
                    && state.sstables[id].max_expire >= now
            &&& forall|id: u32| #[trigger]
                after.sstables.contains_key(id) ==> after.sstables[id] == state.sstables[id]
        }),
{
    let p = is_expired(state, now);
    let gone = expired(state, now);
    lemma_all_removed(state, gone);
    let after = state.all_removed(gone);
    assert forall|id: u32| #[trigger] gone.contains(id) <==> state.active.contains(id) && p(id) by {
        broadcast use vstd::seq_lib::group_filter_ensures;

        if state.active.contains(id) && p(id) {
            let i = choose|i: int| 0 <= i < state.active.len() && state.active[i] == id;
            assert(state.active.filter(p).contains(state.active[i]));
        }
        if gone.contains(id) {
            let k = choose|k: int| 0 <= k < gone.len() && gone[k] == id;
            assert(p(gone[k]));
        }
    }
    assert forall|id: u32| #[trigger] after.sstables.contains_key(id) <==> state.sstables.contains_key(
        id,
    ) && state.sstables[id].max_expire >= now by {
        assert(state.active.contains(id) <==> state.sstables.contains_key(id));
    }
    let keep = |id: u32| !p(id);
    lemma_filter_same(state.active, |id: u32| !gone.contains(id), keep);
}

/// What is left when tables are removed.
pub proof fn lemma_all_removed(state: manifest::StateView, ids: Seq<u32>)
    ensures
        ({
            let after = state.all_removed(ids);
            &&& after.active == state.active.filter(|id: u32| !ids.contains(id))
            &&& after.last_flushed_seq == state.last_flushed_seq
            &&& forall|id: u32| #[trigger]
                after.sstables.contains_key(id) <==> state.sstables.contains_key(id)
                    && !ids.contains(id)
            &&& forall|id: u32| #[trigger]
                after.sstables.contains_key(id) ==> after.sstables[id] == state.sstables[id]
            &&& forall|id: u32| #[trigger]
                after.block_infos.contains_key(id) <==> state.block_infos.contains_key(id)
                    && !ids.contains(id)
            &&& forall|id: u32| #[trigger]
                after.block_infos.contains_key(id) ==> after.block_infos[id]
                    == state.block_infos[id]
        }),
    decreases ids.len(),
{
    let keep = |id: u32| !ids.contains(id);
    if ids.len() == 0 {
        lemma_filter_all(state.active, keep);
    } else {
        let front = ids.drop_last();
        lemma_all_removed(state, front);
        let before = state.all_removed(front);
        let kept = |id: u32| !front.contains(id);
        assert forall|id: u32| #[trigger] ids.contains(id) <==> front.contains(id) || id
            == ids.last() by {
            if ids.contains(id) {
                let k = choose|k: int| 0 <= k < ids.len() && ids[k] == id;
                if k < front.len() {
                    assert(front[k] == id);
                }
            }
            if front.contains(id) {
                let k = choose|k: int| 0 <= k < front.len() && front[k] == id;
                assert(ids[k] == id);
            }
            assert(ids[ids.len() - 1] == ids.last());
        }
        lemma_filter_twice(state.active, kept, manifest::other_id(ids.last()), keep);
    }
}

proof fn lemma_filter_all(s: Seq<u32>, p: spec_fn(u32) -> bool)
    requires
        forall|x: u32| #[trigger] p(x),
    ensures
        s.filter(p) == s,
    decreases s.len(),
{
    reveal(Seq::filter);
    if s.len() > 0 {
        lemma_filter_all(s.drop_last(), p);
    }
}

proof fn lemma_filter_same(s: Seq<u32>, p: spec_fn(u32) -> bool, q: spec_fn(u32) -> bool)
    requires
        forall|i: int| 0 <= i < s.len() ==> p(#[trigger] s[i]) == q(s[i]),
    ensures
        s.filter(p) == s.filter(q),
    decreases s.len(),
{
    reveal(Seq::filter);
    if s.len() > 0 {
        assert forall|i: int| 0 <= i < s.drop_last().len() implies p(#[trigger] s.drop_last()[i]) == q(
            s.drop_last()[i],
        ) by {
            assert(p(s[i]) == q(s[i]));
        }
        lemma_filter_same(s.drop_last(), p, q);
        assert(p(s[s.len() - 1]) == q(s[s.len() - 1]));
    }
}

proof fn lemma_filter_twice(
    s: Seq<u32>,
    p: spec_fn(u32) -> bool,
    q: spec_fn(u32) -> bool,
    both: spec_fn(u32) -> bool,
)
    requires
        forall|x: u32| #[trigger] both(x) == (p(x) && q(x)),
    ensures
        s.filter(p).filter(q) == s.filter(both),
    decreases s.len(),
{
    reveal(Seq::filter);
    if s.len() > 0 {
        lemma_filter_twice(s.drop_last(), p, q, both);
        let f = s.drop_last().filter(p);
        assert(both(s.last()) == (p(s.last()) && q(s.last())));
        if p(s.last()) {
            assert(f.push(s.last()).drop_last() =~= f);
        }
    }
}

/// How many records and bytes the tables have.
pub fn record_totals(state: &ManifestState) -> (r: (u128, u128))
    requires
        state@.wf(),
    ensures
        r.0 == records_of(state@, state@.active),
        r.1 == bytes_of(state@, state@.active),
{
    let ids = &state.active_sst_ids;
    let ghost all = ids@;
    let mut records: u128 = 0;
    let mut bytes: u128 = 0;
    let mut i: usize = 0;
    assert(all.take(0) =~= Seq::<u32>::empty());
    while i < ids.len()
        invariant
            i <= ids@.len(),
            all == ids@,
            state@.active == ids@,
            state@.wf(),
            records == records_of(state@, all.take(i as int)),
            bytes == bytes_of(state@, all.take(i as int)),
            records <= i * u64::MAX,
            bytes <= i * u64::MAX,
        decreases ids@.len() - i,
    {
        assert(all.take(i + 1).drop_last() =~= all.take(i as int));
        assert(all.contains(all[i as int]));
        assert(state@.sstables.contains_key(all[i as int]));
        assert((i + 1) * u64::MAX == i * u64::MAX + u64::MAX) by (nonlinear_arith);
        assert((i + 1) * u64::MAX <= usize::MAX * u64::MAX) by (nonlinear_arith)
            requires
                i + 1 <= usize::MAX,
        ;
        assert(usize::MAX * u64::MAX <= u128::MAX) by (nonlinear_arith)
            requires
                usize::MAX <= u64::MAX,
        ;
        if let Some(info) = state.sstables.get(&ids[i]) {
            assert(info@ == state@.sstables[all[i as int]]);
            records = records + info.records as u128;
            bytes = bytes + info.bytes as u128;
        }
        i += 1;
    }
    assert(all.take(i as int) =~= all);
    (records, bytes)
}

/// Some of the tables have no more records than all.
pub proof fn lemma_fewer_records(state: manifest::StateView, ids: Seq<u32>, p: spec_fn(u32) -> bool)
    ensures
        records_of(state, ids.filter(p)) <= records_of(state, ids),
    decreases ids.len(),
{
    reveal(Seq::filter);
    if ids.len() > 0 {
        let front = ids.drop_last();
        lemma_fewer_records(state, front, p);
        if p(ids.last()) {
            assert(front.filter(p).push(ids.last()).drop_last() =~= front.filter(p));
        }
    }
}

/// Some of the tables have no more bytes than all.
proof fn lemma_fewer_bytes(
    before: manifest::StateView,
    after: manifest::StateView,
    ids: Seq<u32>,
    p: spec_fn(u32) -> bool,
)
    requires
        forall|id: u32| p(id) ==> #[trigger] after.sstables[id] == before.sstables[id],
    ensures
        bytes_of(after, ids.filter(p)) <= bytes_of(before, ids),
    decreases ids.len(),
{
    reveal(Seq::filter);
    if ids.len() > 0 {
        let front = ids.drop_last();
        lemma_fewer_bytes(before, after, front, p);
        if p(ids.last()) {
            assert(front.filter(p).push(ids.last()).drop_last() =~= front.filter(p));
            assert(after.sstables[ids.last()] == before.sstables[ids.last()]);
        }
    }
}

/// Without some of the tables there are no more bytes.
pub proof fn lemma_removed_bytes(state: manifest::StateView, ids: Seq<u32>)
    ensures
        bytes_of(state.all_removed(ids), state.all_removed(ids).active) <= bytes_of(
            state,
            state.active,
        ),
    decreases ids.len(),
{
    if ids.len() > 0 {
        let before = state.all_removed(ids.drop_last());
        lemma_removed_bytes(state, ids.drop_last());
        lemma_fewer_bytes(
            before,
            before.removed(ids.last()),
            before.active,
            manifest::other_id(ids.last()),
        );
    }
}

/// Another table brings no more bytes than it has.
pub proof fn lemma_added_bytes(
    before: manifest::StateView,
    after: manifest::StateView,
    sst: manifest::SstInfoView,
    ids: Seq<u32>,
)
    requires
        forall|i: int, j: int| 0 <= i < j < ids.len() ==> #[trigger] ids[i] != #[trigger] ids[j],
        after.sstables == before.sstables.insert(sst.id, sst),
    ensures
        bytes_of(after, ids) <= bytes_of(before, ids) + sst.bytes,
        !ids.contains(sst.id) ==> bytes_of(after, ids) == bytes_of(before, ids),
    decreases ids.len(),
{
    if ids.len() > 0 {
        let front = ids.drop_last();
        lemma_added_bytes(before, after, sst, front);
        assert(ids[ids.len() - 1] == ids.last());
        assert(ids.contains(ids.last()));
        if ids.last() == sst.id {
            assert(!front.contains(sst.id)) by {
                if front.contains(sst.id) {
                    let k = choose|k: int| 0 <= k < front.len() && front[k] == sst.id;
                    assert(ids[k] != ids[ids.len() - 1]);
                }
            }
        } else if !ids.contains(sst.id) {
            assert(!front.contains(sst.id)) by {
                if front.contains(sst.id) {
                    let k = choose|k: int| 0 <= k < front.len() && front[k] == sst.id;
                    assert(ids[k] == sst.id);
                }
            }
        }
    }
}

/// The records of several tables are those of each: none for no table, those of one
/// table for it, and those of two lists together.
pub proof fn law_records_counted(state: manifest::StateView, a: Seq<u32>, b: Seq<u32>, id: u32)
    ensures
        records_of(state, Seq::empty()) == 0,
        records_of(state, seq![id]) == state.sstables[id].records,
        records_of(state, a + b) == records_of(state, a) + records_of(state, b),
        bytes_of(state, Seq::empty()) == 0,
        bytes_of(state, seq![id]) == state.sstables[id].bytes,
        bytes_of(state, a + b) == bytes_of(state, a) + bytes_of(state, b),
    decreases b.len(),
{
    assert(seq![id].drop_last() =~= Seq::<u32>::empty());
    assert(records_of(state, seq![id].drop_last()) == 0);
    assert(bytes_of(state, seq![id].drop_last()) == 0);
    if b.len() == 0 {
        assert(a + b =~= a);
    } else {
        assert((a + b).drop_last() =~= a + b.drop_last());
        law_records_counted(state, a, b.drop_last(), id);
    }
}

} // verus!
