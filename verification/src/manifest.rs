//! The manifest: which tables there are, and what is in them.

use vstd::prelude::*;
use std::collections::HashMap;
use crate::bloom::{BloomFilter, BloomFilterView};
use crate::bytes::copy_bytes;

verus! {

broadcast use vstd::std_specs::hash::group_hash_axioms;

/// What the manifest knows of a block.
#[derive(Debug)]
pub struct BlockInfo {
    pub block_idx: u32,
    pub min_key: Vec<u8>,
    pub max_key: Vec<u8>,
    pub min_ts: i64,
    pub max_ts: i64,
    pub min_expire: i64,
    pub max_expire: i64,
}

/// What a [`BlockInfo`] holds.
#[verifier::ext_equal]
pub struct BlockInfoView {
    pub block_idx: u32,
    pub min_key: Seq<u8>,
    pub max_key: Seq<u8>,
    pub min_ts: i64,
    pub max_ts: i64,
    pub min_expire: i64,
    pub max_expire: i64,
}

impl View for BlockInfo {
    type V = BlockInfoView;

    open spec fn view(&self) -> BlockInfoView {
        BlockInfoView {
            block_idx: self.block_idx,
            min_key: self.min_key@,
            max_key: self.max_key@,
            min_ts: self.min_ts,
            max_ts: self.max_ts,
            min_expire: self.min_expire,
            max_expire: self.max_expire,
        }
    }
}

impl Clone for BlockInfo {
    fn clone(&self) -> (r: Self)
        ensures
            r@ == self@,
    {
        BlockInfo {
            block_idx: self.block_idx,
            min_key: copy_bytes(&self.min_key),
            max_key: copy_bytes(&self.max_key),
            min_ts: self.min_ts,
            max_ts: self.max_ts,
            min_expire: self.min_expire,
            max_expire: self.max_expire,
        }
    }
}

/// What a list of block infos holds.
pub open spec fn block_views(s: Seq<BlockInfo>) -> Seq<BlockInfoView> {
    Seq::new(s.len(), |i: int| s[i]@)
}

/// What the manifest knows of a table.
#[derive(Debug)]
pub struct SstInfo {
    pub id: u32,
    pub records: u64,
    pub bytes: u64,
    pub min_ts: i64,
    pub max_ts: i64,
    pub min_expire: i64,
    pub max_expire: i64,
    pub bloom: Option<BloomFilter>,
}

/// What an [`SstInfo`] holds.
#[verifier::ext_equal]
pub struct SstInfoView {
    pub id: u32,
    pub records: u64,
    pub bytes: u64,
    pub min_ts: i64,
    pub max_ts: i64,
    pub min_expire: i64,
    pub max_expire: i64,
    pub bloom: Option<BloomFilterView>,
}

impl View for SstInfo {
    type V = SstInfoView;

    open spec fn view(&self) -> SstInfoView {
        SstInfoView {
            id: self.id,
            records: self.records,
            bytes: self.bytes,
            min_ts: self.min_ts,
            max_ts: self.max_ts,
            min_expire: self.min_expire,
            max_expire: self.max_expire,
            bloom: match self.bloom {
                Some(b) => Some(b@),
                None => None,
            },
        }
    }
}

impl Clone for SstInfo {
    fn clone(&self) -> (r: Self)
        ensures
            r@ == self@,
    {
        SstInfo {
            id: self.id,
            records: self.records,
            bytes: self.bytes,
            min_ts: self.min_ts,
            max_ts: self.max_ts,
            min_expire: self.min_expire,
            max_expire: self.max_expire,
            bloom: match &self.bloom {
                Some(b) => Some(b.clone()),
                None => None,
            },
        }
    }
}

/// A change of the manifest.
#[allow(inconsistent_fields)]
#[derive(Debug)]
pub enum ManifestEntry {
    /// A memtable was flushed to a table.
    Flush { seq: u64, sst: SstInfo, blocks: Vec<BlockInfo> },
    /// A table was deleted.
    DeleteSst { sst_id: u32 },
    /// Tables were merged into others.
    Compaction { removed: Vec<u32>, added: Vec<SstInfo>, blocks: Vec<(u32, Vec<BlockInfo>)> },
    /// Everything up to a sequence number is in tables.
    Checkpoint { last_flushed_seq: u64 },
    /// An expired table was deleted.
    GcDeleteSst { sst_id: u32 },
}

/// What a [`ManifestEntry`] holds.
#[allow(inconsistent_fields)]
pub enum EntryView {
    Flush { seq: u64, sst: SstInfoView, blocks: Seq<BlockInfoView> },
    DeleteSst { sst_id: u32 },
    Compaction {
        removed: Seq<u32>,
        added: Seq<SstInfoView>,
        blocks: Seq<(u32, Seq<BlockInfoView>)>,
    },
    Checkpoint { last_flushed_seq: u64 },
    GcDeleteSst { sst_id: u32 },
}

/// What a list of table infos holds.
pub open spec fn sst_views(s: Seq<SstInfo>) -> Seq<SstInfoView> {
    Seq::new(s.len(), |i: int| s[i]@)
}

/// What a list of blocks by table holds.
pub open spec fn table_block_views(s: Seq<(u32, Vec<BlockInfo>)>) -> Seq<(u32, Seq<BlockInfoView>)> {
    Seq::new(s.len(), |i: int| (s[i].0, block_views(s[i].1@)))
}

impl View for ManifestEntry {
    type V = EntryView;

    open spec fn view(&self) -> EntryView {
        match self {
            ManifestEntry::Flush { seq, sst, blocks } => EntryView::Flush {
                seq: *seq,
                sst: sst@,
                blocks: block_views(blocks@),
            },
            ManifestEntry::DeleteSst { sst_id } => EntryView::DeleteSst { sst_id: *sst_id },
            ManifestEntry::Compaction { removed, added, blocks } => EntryView::Compaction {
                removed: removed@,
                added: sst_views(added@),
                blocks: table_block_views(blocks@),
            },
            ManifestEntry::Checkpoint { last_flushed_seq } => EntryView::Checkpoint {
                last_flushed_seq: *last_flushed_seq,
            },
            ManifestEntry::GcDeleteSst { sst_id } => EntryView::GcDeleteSst { sst_id: *sst_id },
        }
    }
}

/// The tables that there are.
#[derive(Debug)]
pub struct ManifestState {
    pub last_flushed_seq: u64,
    pub sstables: HashMap<u32, SstInfo>,
    pub block_infos: HashMap<u32, Vec<BlockInfo>>,
    pub active_sst_ids: Vec<u32>,
}

/// What a [`ManifestState`] holds.
#[verifier::ext_equal]
pub struct StateView {
    pub last_flushed_seq: u64,
    pub sstables: Map<u32, SstInfoView>,
    pub block_infos: Map<u32, Seq<BlockInfoView>>,
    pub active: Seq<u32>,
}

impl View for ManifestState {
    type V = StateView;

    open spec fn view(&self) -> StateView {
        StateView {
            last_flushed_seq: self.last_flushed_seq,
            sstables: self.sstables@.map_values(|i: SstInfo| i@),
            block_infos: self.block_infos@.map_values(|b: Vec<BlockInfo>| block_views(b@)),
            active: self.active_sst_ids@,
        }
    }
}

/// The ids other than `id`.
pub open spec fn other_id(id: u32) -> spec_fn(u32) -> bool {
    |x: u32| x != id
}

/// The ids without `id`.
pub open spec fn without_id(ids: Seq<u32>, id: u32) -> Seq<u32> {
    ids.filter(other_id(id))
}

/// The ids with `id` last, where it was not among them.
pub open spec fn with_id(ids: Seq<u32>, id: u32) -> Seq<u32> {
    if ids.contains(id) {
        ids
    } else {
        ids.push(id)
    }
}

impl StateView {
    /// The state before any change.
    pub open spec fn empty() -> StateView {
        StateView {
            last_flushed_seq: 0,
            sstables: Map::empty(),
            block_infos: Map::empty(),
            active: Seq::empty(),
        }
    }

    /// The state without a table.
    pub open spec fn removed(self, id: u32) -> StateView {
        StateView {
            sstables: self.sstables.remove(id),
            block_infos: self.block_infos.remove(id),
            active: without_id(self.active, id),
            ..self
        }
    }

    /// The state without the tables.
    pub open spec fn all_removed(self, ids: Seq<u32>) -> StateView
        decreases ids.len(),
    {
        if ids.len() == 0 {
            self
        } else {
            self.all_removed(ids.drop_last()).removed(ids.last())
        }
    }

    /// The state with a table.
    pub open spec fn added(self, sst: SstInfoView) -> StateView {
        StateView {
            sstables: self.sstables.insert(sst.id, sst),
            active: with_id(self.active, sst.id),
            ..self
        }
    }

    /// The state with another filter for a table.
    pub open spec fn with_filter(self, id: u32, bloom: BloomFilterView) -> StateView {
        if self.sstables.contains_key(id) {
            StateView {
                sstables: self.sstables.insert(
                    id,
                    SstInfoView { bloom: Some(bloom), ..self.sstables[id] },
                ),
                ..self
            }
        } else {
            self
        }
    }

    /// The state with the tables.
    pub open spec fn all_added(self, ssts: Seq<SstInfoView>) -> StateView
        decreases ssts.len(),
    {
        if ssts.len() == 0 {
            self
        } else {
            self.all_added(ssts.drop_last()).added(ssts.last())
        }
    }

    /// The state with the blocks of a table.
    pub open spec fn with_blocks(self, id: u32, blocks: Seq<BlockInfoView>) -> StateView {
        StateView { block_infos: self.block_infos.insert(id, blocks), ..self }
    }

    /// The state with the blocks of the tables.
    pub open spec fn with_all_blocks(self, blocks: Seq<(u32, Seq<BlockInfoView>)>) -> StateView
        decreases blocks.len(),
    {
        if blocks.len() == 0 {
            self
        } else {
            self.with_all_blocks(blocks.drop_last()).with_blocks(blocks.last().0, blocks.last().1)
        }
    }

    /// The state in which everything up to `seq` is flushed.
    pub open spec fn flushed(self, seq: u64) -> StateView {
        StateView {
            last_flushed_seq: if seq > self.last_flushed_seq {
                seq
            } else {
                self.last_flushed_seq
            },
            ..self
        }
    }

    /// The state after a change.
    pub open spec fn applied(self, entry: EntryView) -> StateView {
        match entry {
            EntryView::Flush { seq, sst, blocks } => self.flushed(seq).added(sst).with_blocks(
                sst.id,
                blocks,
            ),
            EntryView::DeleteSst { sst_id } => self.removed(sst_id),
            EntryView::GcDeleteSst { sst_id } => self.removed(sst_id),
            EntryView::Compaction { removed, added, blocks } => self.all_removed(removed).all_added(
                added,
            ).with_all_blocks(blocks),
            EntryView::Checkpoint { last_flushed_seq } => self.flushed(last_flushed_seq),
        }
    }

    /// The state after the changes, one after another.
    pub open spec fn replayed(self, entries: Seq<EntryView>) -> StateView
        decreases entries.len(),
    {
        if entries.len() == 0 {
            self
        } else {
            self.replayed(entries.drop_last()).applied(entries.last())
        }
    }

    /// The active ids are the tables that there are, each once.
    pub open spec fn wf(self) -> bool {
        &&& forall|i: int, j: int| 0 <= i < j < self.active.len()
            ==> self.active[i] != self.active[j]
        &&& forall|id: u32| self.active.contains(id) <==> #[trigger] self.sstables.contains_key(id)
    }
}

/// The greatest of the ids, zero where there is none.
pub open spec fn max_id(ids: Seq<u32>) -> u32
    decreases ids.len(),
{
    if ids.len() == 0 {
        0
    } else if ids.last() > max_id(ids.drop_last()) {
        ids.last()
    } else {
        max_id(ids.drop_last())
    }
}

/// Takes an id out of a list.
fn drop_id(ids: &mut Vec<u32>, id: u32)
    ensures
        final(ids)@ == without_id(old(ids)@, id),
{
    let ghost keep = other_id(id);
    let ghost all = ids@;
    let mut kept: Vec<u32> = Vec::new();
    let mut i: usize = 0;
    proof {
        reveal(Seq::filter);
        assert(kept@ =~= all.take(0).filter(keep));
    }
    while i < ids.len()
        invariant
            i <= ids@.len(),
            ids@ == all,
            keep == other_id(id),
            kept@ == all.take(i as int).filter(keep),
        decreases ids@.len() - i,
    {
        proof {
            reveal(Seq::filter);
            assert(all.take(i + 1).drop_last() =~= all.take(i as int));
        }
        if ids[i] != id {
            kept.push(ids[i]);
        }
        i += 1;
    }
    assert(all.take(i as int) =~= all);
    *ids = kept;
}

/// Puts an id last in a list, where it is not in it.
fn keep_id(ids: &mut Vec<u32>, id: u32)
    ensures
        final(ids)@ == with_id(old(ids)@, id),
{
    let mut i: usize = 0;
    while i < ids.len()
        invariant
            i <= ids@.len(),
            ids@ == old(ids)@,
            forall|k: int| 0 <= k < i ==> #[trigger] ids@[k] != id,
        decreases ids@.len() - i,
    {
        if ids[i] == id {
            assert(old(ids)@.contains(id));
            return ;
        }
        i += 1;
    }
    ids.push(id);
}

/// Copies of block infos.
pub fn clone_blocks(blocks: &Vec<BlockInfo>) -> (r: Vec<BlockInfo>)
    ensures
        block_views(r@) == block_views(blocks@),
{
    let mut out: Vec<BlockInfo> = Vec::new();
    let mut i: usize = 0;
    while i < blocks.len()
        invariant
            i <= blocks@.len(),
            out@.len() == i,
            forall|k: int| 0 <= k < i ==> #[trigger] out@[k]@ == blocks@[k]@,
        decreases blocks@.len() - i,
    {
        out.push(blocks[i].clone());
        i += 1;
    }
    assert(block_views(out@) =~= block_views(blocks@));
    out
}

impl ManifestState {
    /// The state before any change.
    pub fn new() -> (r: Self)
        ensures
            r@ == StateView::empty(),
    {
        let r = Self {
            last_flushed_seq: 0,
            sstables: HashMap::new(),
            block_infos: HashMap::new(),
            active_sst_ids: Vec::new(),
        };
        assert(r@ =~= StateView::empty());
        r
    }

    /// Removes a table.
    fn remove_sst(&mut self, id: u32)
        ensures
            final(self)@ == old(self)@.removed(id),
    {
        self.sstables.remove(&id);
        self.block_infos.remove(&id);
        drop_id(&mut self.active_sst_ids, id);
        assert(self@ =~= old(self)@.removed(id));
    }

    /// Adds a table.
    fn add_sst(&mut self, sst: &SstInfo)
        ensures
            final(self)@ == old(self)@.added(sst@),
    {
        self.sstables.insert(sst.id, sst.clone());
        keep_id(&mut self.active_sst_ids, sst.id);
        assert(self@ =~= old(self)@.added(sst@));
    }

    /// Sets the blocks of a table.
    fn set_blocks(&mut self, id: u32, blocks: &Vec<BlockInfo>)
        ensures
            final(self)@ == old(self)@.with_blocks(id, block_views(blocks@)),
    {
        self.block_infos.insert(id, clone_blocks(blocks));
        assert(self@ =~= old(self)@.with_blocks(id, block_views(blocks@)));
    }

    /// Notes that everything up to `seq` is flushed.
    fn note_flushed(&mut self, seq: u64)
        ensures
            final(self)@ == old(self)@.flushed(seq),
    {
        if seq > self.last_flushed_seq {
            self.last_flushed_seq = seq;
        }
        assert(self@ =~= old(self)@.flushed(seq));
    }
}

/// Makes a change.
pub fn apply_entry(state: &mut ManifestState, entry: &ManifestEntry)
    ensures
        final(state)@ == old(state)@.applied(entry@),
{
    match entry {
        ManifestEntry::Flush { seq, sst, blocks } => {
            state.note_flushed(*seq);
            state.add_sst(sst);
            state.set_blocks(sst.id, blocks);
        },
        ManifestEntry::DeleteSst { sst_id } => {
            state.remove_sst(*sst_id);
        },
        ManifestEntry::GcDeleteSst { sst_id } => {
            state.remove_sst(*sst_id);
        },
        ManifestEntry::Compaction { removed, added, blocks } => {
            let ghost start = state@;
            let mut i: usize = 0;
            assert(removed@.take(0) =~= Seq::<u32>::empty());
            while i < removed.len()
                invariant
                    i <= removed@.len(),
                    state@ == start.all_removed(removed@.take(i as int)),
                decreases removed@.len() - i,
            {
                assert(removed@.take(i + 1).drop_last() =~= removed@.take(i as int));
                state.remove_sst(removed[i]);
                i += 1;
            }
            assert(removed@.take(i as int) =~= removed@);
            let ghost middle = state@;
            let ghost infos = sst_views(added@);
            let mut j: usize = 0;
            assert(infos.take(0) =~= Seq::<SstInfoView>::empty());
            while j < added.len()
                invariant
                    j <= added@.len(),
                    infos == sst_views(added@),
                    state@ == middle.all_added(infos.take(j as int)),
                decreases added@.len() - j,
            {
                assert(infos.take(j + 1).drop_last() =~= infos.take(j as int));
                state.add_sst(&added[j]);
                j += 1;
            }
            assert(infos.take(j as int) =~= infos);
            let ghost late = state@;
            let ghost lists = table_block_views(blocks@);
            let mut k: usize = 0;
            assert(lists.take(0) =~= Seq::<(u32, Seq<BlockInfoView>)>::empty());
            while k < blocks.len()
                invariant
                    k <= blocks@.len(),
                    lists == table_block_views(blocks@),
                    state@ == late.with_all_blocks(lists.take(k as int)),
                decreases blocks@.len() - k,
            {
                assert(lists.take(k + 1).drop_last() =~= lists.take(k as int));
                state.set_blocks(blocks[k].0, &blocks[k].1);
                k += 1;
            }
            assert(lists.take(k as int) =~= lists);
        },
        ManifestEntry::Checkpoint { last_flushed_seq } => {
            state.note_flushed(*last_flushed_seq);
        },
    }
}

/// What a list of changes holds.
pub open spec fn entry_views(s: Seq<ManifestEntry>) -> Seq<EntryView> {
    Seq::new(s.len(), |i: int| s[i]@)
}

/// The manifest: the tables that there are, as the changes so far tell.
#[derive(Debug)]
pub struct Manifest {
    state: ManifestState,
}

impl Manifest {
    /// What the manifest holds.
    pub closed spec fn view(&self) -> StateView {
        self.state@
    }

    /// The manifest after the changes that its file lists.
    pub fn open(entries: &Vec<ManifestEntry>) -> (r: Self)
        ensures
            r@ == StateView::empty().replayed(entry_views(entries@)),
            r@.wf(),
    {
        let ghost list = entry_views(entries@);
        let mut state = ManifestState::new();
        let mut i: usize = 0;
        assert(list.take(0) =~= Seq::<EntryView>::empty());
        while i < entries.len()
            invariant
                i <= entries@.len(),
                list == entry_views(entries@),
                state@ == StateView::empty().replayed(list.take(i as int)),
            decreases entries@.len() - i,
        {
            assert(list.take(i + 1).drop_last() =~= list.take(i as int));
            apply_entry(&mut state, &entries[i]);
            i += 1;
        }
        proof {
            assert(list.take(i as int) =~= list);
            law_replay_wf(list);
        }
        Self { state }
    }

    /// Makes a change.
    pub fn append(&mut self, entry: &ManifestEntry)
        ensures
            final(self)@ == old(self)@.applied(entry@),
            old(self)@.wf() ==> final(self)@.wf(),
    {
        apply_entry(&mut self.state, entry);
        proof {
            if old(self)@.wf() {
                law_applied_wf(old(self)@, entry@);
            }
        }
    }

    /// Gives a table another filter.
    pub fn replace_filter(&mut self, id: u32, bloom: BloomFilter)
        ensures
            final(self)@ == old(self)@.with_filter(id, bloom@),
    {
        let ghost before = self.state@;
        let ghost filter = bloom@;
        let known: Option<SstInfo> = match self.state.sstables.get(&id) {
            Some(info) => Some(info.clone()),
            None => None,
        };
        if let Some(info) = known {
            let mut changed = info;
            changed.bloom = Some(bloom);
            self.state.sstables.insert(id, changed);
            assert(self.state@.sstables =~= before.sstables.insert(
                id,
                SstInfoView { bloom: Some(filter), ..before.sstables[id] },
            ));
        }
        assert(self.state@ =~= before.with_filter(id, filter));
    }

    /// The tables that there are.
    pub fn state(&self) -> (r: &ManifestState)
        ensures
            r@ == self@,
    {
        &self.state
    }

    /// The greatest id of a table, zero where there is none.
    pub fn max_sst_id(&self) -> (r: u32)
        ensures
            r == max_id(self@.active),
    {
        let ids = &self.state.active_sst_ids;
        let mut max: u32 = 0;
        let mut i: usize = 0;
        while i < ids.len()
            invariant
                i <= ids@.len(),
                max == max_id(ids@.take(i as int)),
            decreases ids@.len() - i,
        {
            assert(ids@.take(i + 1).drop_last() =~= ids@.take(i as int));
            if ids[i] > max {
                max = ids[i];
            }
            i += 1;
        }
        assert(ids@.take(i as int) =~= ids@);
        max
    }

    /// The id for the next table: one more than the greatest.
    pub fn next_sst_id(&self) -> (r: u32)
        requires
            self@.wf(),
            max_id(self@.active) < u32::MAX,
        ensures
            r == max_id(self@.active) + 1,
            !self@.sstables.contains_key(r),
            forall|id: u32| #[trigger] self@.sstables.contains_key(id) ==> id < r,
    {
        let max: u32 = self.max_sst_id();
        proof {
            let ids = self@.active;
            assert forall|id: u32| #[trigger] self@.sstables.contains_key(id) implies id <= max by {
                assert(ids.contains(id));
                let k = choose|k: int| 0 <= k < ids.len() && ids[k] == id;
                lemma_max_id(ids, k);
            }
        }
        max + 1
    }
}

/// The greatest id is not less than any.
pub proof fn lemma_max_id(ids: Seq<u32>, k: int)
    requires
        0 <= k < ids.len(),
    ensures
        ids[k] <= max_id(ids),
    decreases ids.len(),
{
    if k < ids.len() - 1 {
        lemma_max_id(ids.drop_last(), k);
    }
}

/// Taking an id out of a list without repetition leaves one, with every other id.
proof fn lemma_without_id(ids: Seq<u32>, id: u32)
    requires
        forall|i: int, j: int| 0 <= i < j < ids.len() ==> ids[i] != ids[j],
    ensures
        ({
            let rest = without_id(ids, id);
            &&& forall|i: int, j: int| 0 <= i < j < rest.len() ==> rest[i] != rest[j]
            &&& forall|x: u32| #[trigger] rest.contains(x) <==> ids.contains(x) && x != id
        }),
    decreases ids.len(),
{
    reveal(Seq::filter);
    let rest = without_id(ids, id);
    if ids.len() > 0 {
        let front = ids.drop_last();
        let last = ids.last();
        let shorter = without_id(front, id);
        assert forall|i: int, j: int| 0 <= i < j < front.len() implies front[i] != front[j] by {
            assert(ids[i] != ids[j]);
        }
        lemma_without_id(front, id);
        assert(!front.contains(last)) by {
            if front.contains(last) {
                let k = choose|k: int| 0 <= k < front.len() && front[k] == last;
                assert(ids[k] != ids[ids.len() - 1]);
            }
        }
        assert forall|x: u32| ids.contains(x) <==> front.contains(x) || x == last by {
            if ids.contains(x) {
                let k = choose|k: int| 0 <= k < ids.len() && ids[k] == x;
                if k < front.len() {
                    assert(front[k] == x);
                }
            }
            if front.contains(x) {
                let k = choose|k: int| 0 <= k < front.len() && front[k] == x;
                assert(ids[k] == x);
            }
            if x == last {
                assert(ids[ids.len() - 1] == x);
            }
        }
        if last != id {
            assert(rest == shorter.push(last));
            assert forall|x: u32| #[trigger] rest.contains(x) <==> ids.contains(x) && x != id by {
                if rest.contains(x) {
                    let k = choose|k: int| 0 <= k < rest.len() && rest[k] == x;
                    if k < shorter.len() {
                        assert(shorter[k] == x);
                        assert(shorter.contains(x));
                    }
                }
                if ids.contains(x) && x != id {
                    if x == last {
                        assert(rest[shorter.len() as int] == x);
                    } else {
                        assert(shorter.contains(x));
                        let k = choose|k: int| 0 <= k < shorter.len() && shorter[k] == x;
                        assert(rest[k] == x);
                    }
                }
            }
            assert forall|i: int, j: int| 0 <= i < j < rest.len() implies rest[i] != rest[j] by {
                if j == shorter.len() {
                    assert(shorter.contains(shorter[i]));
                }
            }
        } else {
            assert forall|x: u32| #[trigger] rest.contains(x) <==> ids.contains(x) && x != id by {
                assert(rest == shorter);
            }
        }
    }
}

/// Removing a table keeps the state well formed.
proof fn lemma_removed_wf(state: StateView, id: u32)
    requires
        state.wf(),
    ensures
        state.removed(id).wf(),
{
    lemma_without_id(state.active, id);
    let new = state.removed(id);
    assert forall|x: u32| new.active.contains(x) <==> #[trigger] new.sstables.contains_key(x) by {
        assert(state.active.contains(x) <==> state.sstables.contains_key(x));
        assert(without_id(state.active, id).contains(x) <==> state.active.contains(x) && x != id);
    }
}

/// Adding a table keeps the state well formed.
proof fn lemma_added_wf(state: StateView, sst: SstInfoView)
    requires
        state.wf(),
    ensures
        state.added(sst).wf(),
{
    let new = state.added(sst);
    assert forall|x: u32| new.active.contains(x) <==> #[trigger] new.sstables.contains_key(x) by {
        assert(state.active.contains(x) <==> state.sstables.contains_key(x));
        if !state.active.contains(sst.id) {
            let pushed = state.active.push(sst.id);
            if state.active.contains(x) {
                let k = choose|k: int| 0 <= k < state.active.len() && state.active[k] == x;
                assert(pushed[k] == x);
            }
            if x == sst.id {
                assert(pushed[state.active.len() as int] == x);
            }
            if pushed.contains(x) && x != sst.id {
                let k = choose|k: int| 0 <= k < pushed.len() && pushed[k] == x;
                assert(state.active[k] == x);
            }
        }
    }
    assert forall|i: int, j: int| 0 <= i < j < new.active.len() implies new.active[i] != new.active[j] by {
        if !state.active.contains(sst.id) && j == state.active.len() {
            assert(state.active.contains(state.active[i]));
        }
    }
}

pub proof fn lemma_all_removed_wf(state: StateView, ids: Seq<u32>)
    requires
        state.wf(),
    ensures
        state.all_removed(ids).wf(),
    decreases ids.len(),
{
    if ids.len() > 0 {
        lemma_all_removed_wf(state, ids.drop_last());
        lemma_removed_wf(state.all_removed(ids.drop_last()), ids.last());
    }
}

proof fn lemma_all_added_wf(state: StateView, ssts: Seq<SstInfoView>)
    requires
        state.wf(),
    ensures
        state.all_added(ssts).wf(),
    decreases ssts.len(),
{
    if ssts.len() > 0 {
        lemma_all_added_wf(state, ssts.drop_last());
        lemma_added_wf(state.all_added(ssts.drop_last()), ssts.last());
    }
}

proof fn lemma_all_blocks_wf(state: StateView, blocks: Seq<(u32, Seq<BlockInfoView>)>)
    requires
        state.wf(),
    ensures
        state.with_all_blocks(blocks).wf(),
        state.with_all_blocks(blocks).last_flushed_seq == state.last_flushed_seq,
    decreases blocks.len(),
{
    if blocks.len() > 0 {
        lemma_all_blocks_wf(state, blocks.drop_last());
        let before = state.with_all_blocks(blocks.drop_last());
        let after = state.with_all_blocks(blocks);
        assert(after.active == before.active && after.sstables == before.sstables);
    }
}

/// Every change keeps the active ids and the tables in step.
pub proof fn law_applied_wf(state: StateView, entry: EntryView)
    requires
        state.wf(),
    ensures
        state.applied(entry).wf(),
{
    match entry {
        EntryView::Flush { seq, sst, blocks } => {
            let flushed = state.flushed(seq);
            assert(flushed.active == state.active && flushed.sstables == state.sstables);
            assert(flushed.wf());
            lemma_added_wf(flushed, sst);
            let added = flushed.added(sst);
            let after = added.with_blocks(sst.id, blocks);
            assert(after.active == added.active && after.sstables == added.sstables);
        },
        EntryView::DeleteSst { sst_id } => {
            lemma_removed_wf(state, sst_id);
        },
        EntryView::GcDeleteSst { sst_id } => {
            lemma_removed_wf(state, sst_id);
        },
        EntryView::Compaction { removed, added, blocks } => {
            lemma_all_removed_wf(state, removed);
            lemma_all_added_wf(state.all_removed(removed), added);
            lemma_all_blocks_wf(state.all_removed(removed).all_added(added), blocks);
        },
        EntryView::Checkpoint { last_flushed_seq } => {
            let after = state.flushed(last_flushed_seq);
            assert(after.active == state.active && after.sstables == state.sstables);
        },
    }
}

/// Whatever changes a manifest lists, the active ids and the tables are in step.
pub proof fn law_replay_wf(entries: Seq<EntryView>)
    ensures
        StateView::empty().replayed(entries).wf(),
    decreases entries.len(),
{
    if entries.len() > 0 {
        law_replay_wf(entries.drop_last());
        law_applied_wf(StateView::empty().replayed(entries.drop_last()), entries.last());
    }
}

/// Reopening gives the state that was left: replaying the changes and one more
/// is making the change.
pub proof fn law_reopen(entries: Seq<EntryView>, entry: EntryView)
    ensures
        StateView::empty().replayed(entries.push(entry))
            == StateView::empty().replayed(entries).applied(
            entry,
        ),
{
    assert(entries.push(entry).drop_last() =~= entries);
}

/// No change takes back what is flushed.
pub proof fn law_flushed_grows(state: StateView, entry: EntryView)
    ensures
        state.applied(entry).last_flushed_seq >= state.last_flushed_seq,
{
    if let EntryView::Compaction { removed, added, blocks } = entry {
        lemma_removed_flushed(state, removed);
        lemma_added_flushed(state.all_removed(removed), added);
        lemma_blocks_flushed(state.all_removed(removed).all_added(added), blocks);
    }
}

proof fn lemma_removed_flushed(state: StateView, ids: Seq<u32>)
    ensures
        state.all_removed(ids).last_flushed_seq == state.last_flushed_seq,
    decreases ids.len(),
{
    if ids.len() > 0 {
        lemma_removed_flushed(state, ids.drop_last());
    }
}

proof fn lemma_added_flushed(state: StateView, ssts: Seq<SstInfoView>)
    ensures
        state.all_added(ssts).last_flushed_seq == state.last_flushed_seq,
    decreases ssts.len(),
{
    if ssts.len() > 0 {
        lemma_added_flushed(state, ssts.drop_last());
    }
}

proof fn lemma_blocks_flushed(state: StateView, blocks: Seq<(u32, Seq<BlockInfoView>)>)
    ensures
        state.with_all_blocks(blocks).last_flushed_seq == state.last_flushed_seq,
    decreases blocks.len(),
{
    if blocks.len() > 0 {
        lemma_blocks_flushed(state, blocks.drop_last());
    }
}

/// What a change does to the tables. A flush enters its table and its blocks and notes
/// what is flushed; a deletion takes the table out; no change touches another table.
pub proof fn law_change_touches(state: StateView, entry: EntryView, other: u32)
    ensures
        entry matches EntryView::Flush { seq, sst, blocks } ==> {
            let after = state.applied(entry);
            &&& after.active.contains(sst.id)
            &&& !state.active.contains(sst.id) ==> after.active == state.active.push(sst.id)
            &&& after.sstables.contains_key(sst.id) && after.sstables[sst.id] == sst
            &&& after.block_infos.contains_key(sst.id) && after.block_infos[sst.id] == blocks
            &&& after.last_flushed_seq >= seq && after.last_flushed_seq >= state.last_flushed_seq
            &&& after.last_flushed_seq == seq || after.last_flushed_seq == state.last_flushed_seq
            &&& other != sst.id ==> untouched(state, after, other)
        },
        entry matches EntryView::DeleteSst { sst_id } ==> {
            let after = state.applied(entry);
            &&& !after.active.contains(sst_id) && !after.sstables.contains_key(sst_id)
            &&& !after.block_infos.contains_key(sst_id)
            &&& after.last_flushed_seq == state.last_flushed_seq
            &&& other != sst_id ==> untouched(state, after, other)
        },
        entry matches EntryView::GcDeleteSst { sst_id } ==> {
            let after = state.applied(entry);
            &&& !after.active.contains(sst_id) && !after.sstables.contains_key(sst_id)
            &&& !after.block_infos.contains_key(sst_id)
            &&& after.last_flushed_seq == state.last_flushed_seq
            &&& other != sst_id ==> untouched(state, after, other)
        },
        entry matches EntryView::Checkpoint { last_flushed_seq } ==> {
            let after = state.applied(entry);
            &&& after.last_flushed_seq >= last_flushed_seq
            &&& after.active == state.active && untouched(state, after, other)
        },
{
    broadcast use vstd::seq_lib::group_filter_ensures;

    match entry {
        EntryView::Flush { seq, sst, blocks } => {
            let after = state.applied(entry);
            if !state.active.contains(sst.id) {
                let more = state.active.push(sst.id);
                assert(more[state.active.len() as int] == sst.id);
                if state.active.contains(other) {
                    let k = choose|k: int| 0 <= k < state.active.len() && state.active[k] == other;
                    assert(more[k] == other);
                }
                if more.contains(other) && other != sst.id {
                    let k = choose|k: int| 0 <= k < more.len() && more[k] == other;
                    assert(state.active[k] == other);
                }
            }
        },
        EntryView::DeleteSst { sst_id } => {
            lemma_taken_out(state.active, sst_id, other);
        },
        EntryView::GcDeleteSst { sst_id } => {
            lemma_taken_out(state.active, sst_id, other);
        },
        _ => {},
    }
}

/// Whether what is known of a table is the same.
pub open spec fn untouched(before: StateView, after: StateView, id: u32) -> bool {
    &&& after.active.contains(id) <==> before.active.contains(id)
    &&& after.sstables.contains_key(id) <==> before.sstables.contains_key(id)
    &&& before.sstables.contains_key(id) ==> after.sstables[id] == before.sstables[id]
    &&& after.block_infos.contains_key(id) <==> before.block_infos.contains_key(id)
    &&& before.block_infos.contains_key(id) ==> after.block_infos[id] == before.block_infos[id]
}

proof fn lemma_taken_out(ids: Seq<u32>, id: u32, other: u32)
    ensures
        !without_id(ids, id).contains(id),
        other != id ==> (without_id(ids, id).contains(other) <==> ids.contains(other)),
{
    broadcast use vstd::seq_lib::group_filter_ensures;

    let left = without_id(ids, id);
    if left.contains(id) {
        let k = choose|k: int| 0 <= k < left.len() && left[k] == id;
        assert(other_id(id)(left[k]));
    }
    if other != id && ids.contains(other) {
        let k = choose|k: int| 0 <= k < ids.len() && ids[k] == other;
        assert(ids.filter(other_id(id)).contains(ids[k]));
    }
    if left.contains(other) {
        ids.lemma_filter_contains_rev(other_id(id), other);
    }
}

/// No id is greater than the greatest, which is one of them.
pub proof fn law_greatest_id(ids: Seq<u32>, id: u32)
    ensures
        ids.contains(id) ==> id <= max_id(ids),
        ids.len() > 0 ==> ids.contains(max_id(ids)),
        ids.len() == 0 ==> max_id(ids) == 0,
    decreases ids.len(),
{
    if ids.len() > 0 {
        let front = ids.drop_last();
        law_greatest_id(front, id);
        assert(ids[ids.len() - 1] == ids.last());
        if ids.contains(id) && id != ids.last() {
            let k = choose|k: int| 0 <= k < ids.len() && ids[k] == id;
            assert(front[k] == id);
        }
        if front.len() > 0 {
            let k = choose|k: int| 0 <= k < front.len() && front[k] == max_id(front);
            assert(ids[k] == max_id(front));
        }
    }
}

proof fn lemma_put_in(ids: Seq<u32>, id: u32, other: u32)
    ensures
        with_id(ids, id).contains(id),
        other != id ==> (with_id(ids, id).contains(other) <==> ids.contains(other)),
{
    if !ids.contains(id) {
        let more = ids.push(id);
        assert(more[ids.len() as int] == id);
        if ids.contains(other) {
            let k = choose|k: int| 0 <= k < ids.len() && ids[k] == other;
            assert(more[k] == other);
        }
        if more.contains(other) && other != id {
            let k = choose|k: int| 0 <= k < more.len() && more[k] == other;
            assert(ids[k] == other);
        }
    }
}

/// Taking tables out takes those out and no others.
pub proof fn law_removed_touches(state: StateView, ids: Seq<u32>, other: u32)
    ensures
        ids.contains(other) ==> !state.all_removed(ids).active.contains(other)
            && !state.all_removed(ids).sstables.contains_key(other)
            && !state.all_removed(ids).block_infos.contains_key(other),
        !ids.contains(other) ==> untouched(state, state.all_removed(ids), other),
    decreases ids.len(),
{
    if ids.len() > 0 {
        let front = ids.drop_last();
        law_removed_touches(state, front, other);
        lemma_taken_out(state.all_removed(front).active, ids.last(), other);
        assert(ids[ids.len() - 1] == ids.last());
        if front.contains(other) {
            let k = choose|k: int| 0 <= k < front.len() && front[k] == other;
            assert(ids[k] == other);
        }
        if ids.contains(other) && other != ids.last() {
            let k = choose|k: int| 0 <= k < ids.len() && ids[k] == other;
            assert(front[k] == other);
        }
    }
}

/// Putting tables in puts those in, the last of each id, and changes no others.
pub proof fn law_added_touches(state: StateView, ssts: Seq<SstInfoView>, k: int, other: u32)
    ensures
        0 <= k < ssts.len() ==> state.all_added(ssts).active.contains(ssts[k].id)
            && state.all_added(ssts).sstables.contains_key(ssts[k].id),
        0 <= k < ssts.len() && (forall|j: int|
            k < j < ssts.len() ==> (#[trigger] ssts[j]).id != ssts[k].id)
            ==> state.all_added(ssts).sstables[ssts[k].id] == ssts[k],
        (forall|j: int| 0 <= j < ssts.len() ==> (#[trigger] ssts[j]).id != other) ==> untouched(
            state,
            state.all_added(ssts),
            other,
        ),
        state.all_added(ssts).block_infos == state.block_infos,
    decreases ssts.len(),
{
    if ssts.len() > 0 {
        let front = ssts.drop_last();
        law_added_touches(state, front, k, other);
        let before = state.all_added(front);
        assert(ssts[ssts.len() - 1] == ssts.last());
        assert forall|j: int| 0 <= j < front.len() implies #[trigger] front[j] == ssts[j] by {}
        lemma_put_in(before.active, ssts.last().id, other);
        if 0 <= k < ssts.len() {
            lemma_put_in(before.active, ssts.last().id, ssts[k].id);
        }
    }
}

/// A compaction takes the tables that it replaces out and puts the new ones in; tables that
/// are neither stay, and what has been flushed does too.
pub proof fn law_compaction_touches(
    state: StateView,
    removed: Seq<u32>,
    added: Seq<SstInfoView>,
    k: int,
    other: u32,
)
    requires
        0 <= k < added.len(),
        forall|j: int| k < j < added.len() ==> (#[trigger] added[j]).id != added[k].id,
        forall|j: int| 0 <= j < added.len() ==> (#[trigger] added[j]).id != other,
    ensures
        ({
            let after = state.applied(
                EntryView::Compaction { removed, added, blocks: Seq::empty() },
            );
            &&& after.active.contains(added[k].id) && after.sstables[added[k].id] == added[k]
            &&& removed.contains(other) ==> !after.active.contains(other)
                && !after.sstables.contains_key(other) && !after.block_infos.contains_key(other)
            &&& !removed.contains(other) ==> untouched(state, after, other)
            &&& after.last_flushed_seq == state.last_flushed_seq
        }),
{
    let kept = state.all_removed(removed);
    law_removed_touches(state, removed, other);
    law_added_touches(kept, added, k, other);
    lemma_removed_flushed(state, removed);
    lemma_added_flushed(kept, added);
}

/// The blocks that are told of a table, the last of each table, are those it has; those of
/// other tables stay, and so does all else.
pub proof fn law_blocks_told(
    state: StateView,
    blocks: Seq<(u32, Seq<BlockInfoView>)>,
    k: int,
    other: u32,
)
    ensures
        state.with_all_blocks(blocks).active == state.active,
        state.with_all_blocks(blocks).sstables == state.sstables,
        state.with_all_blocks(blocks).last_flushed_seq == state.last_flushed_seq,
        0 <= k < blocks.len() && (forall|j: int|
            k < j < blocks.len() ==> (#[trigger] blocks[j]).0 != blocks[k].0)
            ==> state.with_all_blocks(blocks).block_infos.contains_key(blocks[k].0)
            && state.with_all_blocks(blocks).block_infos[blocks[k].0] == blocks[k].1,
        (forall|j: int| 0 <= j < blocks.len() ==> (#[trigger] blocks[j]).0 != other) ==> untouched(
            state,
            state.with_all_blocks(blocks),
            other,
        ),
    decreases blocks.len(),
{
    if blocks.len() > 0 {
        let front = blocks.drop_last();
        law_blocks_told(state, front, k, other);
        assert(blocks[blocks.len() - 1] == blocks.last());
        assert forall|j: int| 0 <= j < front.len() implies #[trigger] front[j] == blocks[j] by {}
    }
}

} // verus!
