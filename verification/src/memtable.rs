//! The in-memory tables that take writes before they reach a file.

use vstd::prelude::*;
use std::hash::{Hash, Hasher};
use crate::bytes;
use crate::bytes::{bytes_eq, bytes_le, starts_with};
use crate::record;
use crate::record::{InternalRecord, InternalRecordView, KeyFilterView};
use crate::sort;
use crate::sort::{is_before, sort_records, SortOrder};

verus! {

/// `ahash::RandomState`, the seed of a hash map.
#[verifier::external_type_specification]
#[verifier::external_body]
pub struct ExRandomState(ahash::RandomState);

/// `ahash::AHashMap`, a hash map.
#[verifier::external_type_specification]
#[verifier::external_body]
#[verifier::reject_recursive_types(K)]
#[verifier::reject_recursive_types(V)]
#[verifier::reject_recursive_types(S)]
pub struct ExAHashMap<K, V, S>(ahash::AHashMap<K, V, S>);

/// Where the last row with a hashed key and a time stands.
pub type PositionIndex = ahash::AHashMap<(u64, i64), usize>;

/// The entries of a position index.
pub uninterp spec fn index_entries(index: PositionIndex) -> Map<(u64, i64), usize>;

/// Calls `AHashMap::new`, which makes a map without entries.
#[verifier::external_body]
fn index_new() -> (r: PositionIndex)
    ensures
        (index_entries(r) == Map::<(u64, i64), usize>::empty()),
{
    ahash::AHashMap::new()
}

/// Calls `AHashMap::insert`, which sets the value of one key and leaves the
/// other entries alone.
#[verifier::external_body]
fn index_insert(index: &mut PositionIndex, key: (u64, i64), pos: usize)
    ensures
        index_entries(*final(index)) == index_entries(*old(index)).insert(key, pos),
{
    index.insert(key, pos);
}

/// Calls `AHashMap::get`, which returns the value of a key, if it has one.
#[verifier::external_body]
fn index_get(index: &PositionIndex, key: (u64, i64)) -> (r: Option<usize>)
    ensures
        r == (if index_entries(*index).contains_key(key) {
            Some(index_entries(*index)[key])
        } else {
            None
        }),
{
    index.get(&key).copied()
}

/// Hashes a key with `ahash::AHasher`. The hasher's keys are drawn when the
/// process first needs them, so nothing is claimed of the hash.
#[verifier::external_body]
fn hash_key(key: &[u8]) -> (r: u64) {
    let mut hasher = ahash::AHasher::default();
    key.hash(&mut hasher);
    hasher.finish()
}

/// What a query of a memtable asks for: keys, times (both ends included), and
/// rows that have not expired at `now`.
pub struct MemQuery {
    pub key: KeyFilterView,
    pub times: Option<(i64, i64)>,
    pub now: i64,
}

/// Whether `key` is among the keys of a filter.
pub open spec fn admits_key(filter: KeyFilterView, key: Seq<u8>) -> bool {
    match filter {
        KeyFilterView::Prefix(prefix) => bytes::has_prefix(key, prefix),
        KeyFilterView::Range { start, end } => bytes::lex_le(start, key) && bytes::lex_le(key, end),
        KeyFilterView::All => true,
    }
}

/// Whether `ts` lies in a time range.
pub open spec fn admits_ts(times: Option<(i64, i64)>, ts: i64) -> bool {
    match times {
        Some((start, end)) => start <= ts <= end,
        None => true,
    }
}

/// Whether a query selects a row.
pub open spec fn selects(query: MemQuery, row: InternalRecordView) -> bool {
    &&& admits_key(query.key, row.key)
    &&& admits_ts(query.times, row.ts)
    &&& row.expire_at >= query.now
}

/// The rows that a query selects, in their order.
pub open spec fn selection(query: MemQuery, rows: Seq<InternalRecordView>) -> Seq<
    InternalRecordView,
> {
    rows.filter(|row: InternalRecordView| selects(query, row))
}

/// The last row with the key and the time.
pub open spec fn newest(rows: Seq<InternalRecordView>, key: Seq<u8>, ts: i64) -> Option<
    InternalRecordView,
>
    decreases rows.len(),
{
    if rows.len() == 0 {
        None
    } else if rows.last().key == key && rows.last().ts == ts {
        Some(rows.last())
    } else {
        newest(rows.drop_last(), key, ts)
    }
}

/// Whether two rows have the same key, time and sequence number.
pub open spec fn same_slot(a: InternalRecordView, b: InternalRecordView) -> bool {
    a.key == b.key && a.ts == b.ts && a.seq == b.seq
}

/// The last row with the key, time and sequence number.
pub open spec fn slot(rows: Seq<InternalRecordView>, key: Seq<u8>, ts: i64, seq: u64) -> Option<
    InternalRecordView,
>
    decreases rows.len(),
{
    if rows.len() == 0 {
        None
    } else if rows.last().key == key && rows.last().ts == ts && rows.last().seq == seq {
        Some(rows.last())
    } else {
        slot(rows.drop_last(), key, ts, seq)
    }
}

/// The sum of the sizes of the rows.
pub open spec fn total_size(rows: Seq<InternalRecordView>) -> nat
    decreases rows.len(),
{
    if rows.len() == 0 {
        0
    } else {
        total_size(rows.drop_last()) + rows.last().size()
    }
}

/// How many rows of a sorted list come before `row`.
pub open spec fn rank(rows: Seq<InternalRecordView>, row: InternalRecordView) -> int
    decreases rows.len(),
{
    if rows.len() == 0 {
        0
    } else if sort::before(SortOrder::KeyTsSeq, rows.last(), row) {
        rows.len() as int
    } else {
        rank(rows.drop_last(), row)
    }
}

/// The sorted rows with `row` in its place, where it takes the place of a row
/// in the same slot.
pub open spec fn placed(rows: Seq<InternalRecordView>, row: InternalRecordView) -> Seq<
    InternalRecordView,
> {
    let i = rank(rows, row);
    if i < rows.len() && same_slot(rows[i], row) {
        rows.update(i, row)
    } else {
        rows.insert(i, row)
    }
}

/// What a list of borrowed records holds.
pub open spec fn ref_views(s: Seq<&InternalRecord>) -> Seq<InternalRecordView> {
    Seq::new(s.len(), |i: int| s[i]@)
}

/// What an optional record holds.
pub open spec fn opt_row(r: Option<InternalRecord>) -> Option<InternalRecordView> {
    match r {
        Some(rec) => Some(rec@),
        None => None,
    }
}

/// What an optional borrowed record holds.
pub open spec fn opt_ref_row(r: Option<&InternalRecord>) -> Option<InternalRecordView> {
    match r {
        Some(rec) => Some(rec@),
        None => None,
    }
}

enum MemTableData {
    /// Rows in the order of their arrival, and where the last row with a hashed
    /// key and time stands.
    Log { records: Vec<InternalRecord>, index: PositionIndex },
    /// Rows sorted by key, time and sequence number.
    Sorted(Vec<InternalRecord>),
}

/// A table of rows in memory. It takes rows in the order of their arrival until
/// it is frozen, and is sorted from then on.
pub struct MemTable {
    data: MemTableData,
    bytes: usize,
}

/// The keys that a query asks for, borrowed.
#[derive(Clone, Copy)]
enum KeyRef<'a> {
    Prefix(&'a [u8]),
    Range(&'a [u8], &'a [u8]),
    All,
}

impl<'a> KeyRef<'a> {
    spec fn filter(self) -> KeyFilterView {
        match self {
            KeyRef::Prefix(p) => KeyFilterView::Prefix(p@),
            KeyRef::Range(start, end) => KeyFilterView::Range { start: start@, end: end@ },
            KeyRef::All => KeyFilterView::All,
        }
    }
}

/// The records that a query selects.
fn select<'a>(
    records: &'a Vec<InternalRecord>,
    key: KeyRef<'_>,
    times: Option<(i64, i64)>,
    now: i64,
) -> (out: Vec<&'a InternalRecord>)
    ensures
        ref_views(out@) == selection(
            MemQuery { key: key.filter(), times, now },
            record::views(records@),
        ),
{
    let ghost query = MemQuery { key: key.filter(), times, now };
    let ghost rows = record::views(records@);
    let mut out: Vec<&'a InternalRecord> = Vec::new();
    let mut i: usize = 0;
    proof {
        assert(ref_views(out@) =~= selection(query, rows.take(0))) by {
            reveal(Seq::filter);
        }
    }
    while i < records.len()
        invariant
            i <= records@.len(),
            query == (MemQuery { key: key.filter(), times, now }),
            rows == record::views(records@),
            ref_views(out@) == selection(query, rows.take(i as int)),
        decreases records@.len() - i,
    {
        let rec: &'a InternalRecord = &records[i];
        let key_ok: bool = match &key {
            KeyRef::Prefix(p) => starts_with(&rec.key, p),
            KeyRef::Range(start, end) => bytes_le(start, &rec.key) && bytes_le(&rec.key, end),
            KeyRef::All => true,
        };
        let ts_ok: bool = match times {
            Some((start, end)) => start <= rec.ts && rec.ts <= end,
            None => true,
        };
        proof {
            reveal(Seq::filter);
            assert(rows.take(i + 1).drop_last() =~= rows.take(i as int));
            assert(rows.take(i + 1).last() == rec@);
        }
        let ghost before = ref_views(out@);
        if key_ok && ts_ok && rec.expire_at >= now {
            out.push(rec);
            assert(ref_views(out@) =~= before.push(rec@));
        }
        i += 1;
    }
    assert(rows.take(i as int) =~= rows);
    out
}

impl MemTable {
    /// Whether the table is frozen, and so sorted.
    pub closed spec fn is_frozen(self) -> bool {
        self.data is Sorted
    }

    /// The rows of the table.
    pub closed spec fn rows(self) -> Seq<InternalRecordView> {
        match self.data {
            MemTableData::Log { records, index } => record::views(records@),
            MemTableData::Sorted(records) => record::views(records@),
        }
    }

    /// The position index of a table that is not frozen.
    pub closed spec fn index(self) -> Map<(u64, i64), usize> {
        match self.data {
            MemTableData::Log { records, index } => index_entries(index),
            MemTableData::Sorted(records) => Map::empty(),
        }
    }

    /// The bytes that the table is charged.
    pub closed spec fn charged(self) -> nat {
        self.bytes as nat
    }

    /// A frozen table is strictly sorted. A table is charged the sizes of its
    /// rows; a frozen one may be charged more, for rows that were replaced when
    /// it was frozen.
    pub closed spec fn wf(self) -> bool {
        if self.is_frozen() {
            &&& sort::strictly_sorted(SortOrder::KeyTsSeq, self.rows())
            &&& self.bytes >= total_size(self.rows())
        } else {
            self.bytes == total_size(self.rows())
        }
    }

    /// The row that a lookup with the hash `h` finds: the row that the index
    /// points to, if it is one with the key and the time, else the newest one.
    pub open spec fn lookup(self, h: u64, key: Seq<u8>, ts: i64) -> Option<InternalRecordView> {
        let rows = self.rows();
        let pos = self.index()[(h, ts)] as int;
        if !self.is_frozen() && self.index().contains_key((h, ts)) && pos < rows.len()
            && rows[pos].key == key && rows[pos].ts == ts {
            Some(rows[pos])
        } else {
            newest(rows, key, ts)
        }
    }

    /// The index of a table that is not frozen was built with the hashes that
    /// `f` gives.
    pub open spec fn indexed_by(self, f: spec_fn(Seq<u8>) -> u64) -> bool {
        &&& forall|h: u64, ts: i64| #[trigger]
            self.index().contains_key((h, ts)) ==> {
                let pos = self.index()[(h, ts)] as int;
                pos < self.rows().len() && f(self.rows()[pos].key) == h && self.rows()[pos].ts == ts
            }
        &&& forall|i: int| #![trigger self.rows()[i]]
            0 <= i < self.rows().len() ==> {
                let at = (f(self.rows()[i].key), self.rows()[i].ts);
                self.index().contains_key(at) && self.index()[at] >= i
            }
    }

    /// An empty table.
    pub fn new() -> (r: Self)
        ensures
            r.wf(),
            !r.is_frozen(),
            r.rows() == Seq::<InternalRecordView>::empty(),
            (r.index() == Map::<(u64, i64), usize>::empty()),
            r.charged() == 0,
    {
        let r = Self { data: MemTableData::Log { records: Vec::new(), index: index_new() }, bytes: 0 };
        assert(r.rows() =~= Seq::<InternalRecordView>::empty());
        r
    }

    /// Takes a row: appends it, or, in a frozen table, puts it in its place.
    pub fn insert(&mut self, rec: InternalRecord)
        requires
            old(self).wf(),
            old(self).charged() + rec@.size() <= usize::MAX,
        ensures
            final(self).wf(),
            final(self).is_frozen() == old(self).is_frozen(),
            !old(self).is_frozen() ==> {
                &&& final(self).rows() == old(self).rows().push(rec@)
                &&& final(self).charged() == old(self).charged() + rec@.size()
                &&& exists|h: u64|
                    final(self).index() == #[trigger] old(self).index().insert(
                        (h, rec@.ts),
                        old(self).rows().len() as usize,
                    )
            },
            old(self).is_frozen() ==> {
                &&& final(self).rows() == placed(old(self).rows(), rec@)
                &&& final(self).charged() == old(self).charged() + rec@.size() - replaced_size(
                    old(self).rows(),
                    rec@,
                )
            },
    {
        let h: u64 = hash_key(&rec.key);
        self.insert_hashed(rec, h);
    }

    /// Takes a row whose key has the hash `h`.
    pub fn insert_hashed(&mut self, rec: InternalRecord, h: u64)
        requires
            old(self).wf(),
            old(self).charged() + rec@.size() <= usize::MAX,
        ensures
            final(self).wf(),
            final(self).is_frozen() == old(self).is_frozen(),
            !old(self).is_frozen() ==> {
                &&& final(self).rows() == old(self).rows().push(rec@)
                &&& final(self).charged() == old(self).charged() + rec@.size()
                &&& final(self).index() == old(self).index().insert(
                    (h, rec@.ts),
                    old(self).rows().len() as usize,
                )
            },
            old(self).is_frozen() ==> {
                &&& final(self).rows() == placed(old(self).rows(), rec@)
                &&& final(self).charged() == old(self).charged() + rec@.size() - replaced_size(
                    old(self).rows(),
                    rec@,
                )
            },
    {
        let size: usize = rec.estimated_size();
        let ghost row = rec@;
        let ghost rows = self.rows();
        self.bytes = self.bytes + size;
        match &mut self.data {
            MemTableData::Log { records, index } => {
                let pos: usize = records.len();
                index_insert(index, (h, rec.ts), pos);
                records.push(rec);
                proof {
                    assert(record::views(records@) =~= rows.push(row));
                    assert(rows.push(row).drop_last() =~= rows);
                }
            },
            MemTableData::Sorted(records) => {
                let i: usize = find_place(records, &rec);
                if i < records.len() && records[i].seq == rec.seq && records[i].ts == rec.ts
                    && bytes_eq(&records[i].key, &rec.key) {
                    proof {
                        lemma_total_element(rows, i as int);
                        lemma_replace(rows, row);
                    }
                    let old_size: usize = records[i].estimated_size();
                    records.set(i, rec);
                    assert(record::views(records@) =~= rows.update(i as int, row));
                    self.bytes = self.bytes - old_size;
                } else {
                    proof {
                        lemma_insert(rows, row);
                    }
                    records.insert(i, rec);
                    assert(record::views(records@) =~= rows.insert(i as int, row));
                }
            },
        }
    }

    /// The newest row with the key and the time, as far as the index tells.
    pub fn get(&self, key: &[u8], ts: i64) -> (r: Option<&InternalRecord>)
        ensures
            exists|h: u64| opt_ref_row(r) == #[trigger] self.lookup(h, key@, ts),
    {
        let h: u64 = hash_key(key);
        self.get_hashed(h, key, ts)
    }

    /// The row that a lookup with the hash `h` of the key finds.
    pub fn get_hashed(&self, h: u64, key: &[u8], ts: i64) -> (r: Option<&InternalRecord>)
        ensures
            opt_ref_row(r) == self.lookup(h, key@, ts),
    {
        match &self.data {
            MemTableData::Log { records, index } => {
                if let Some(pos) = index_get(index, (h, ts)) {
                    if pos < records.len() {
                        let rec = &records[pos];
                        if bytes_eq(&rec.key, key) && rec.ts == ts {
                            return Some(rec);
                        }
                    }
                }
                find_newest(records, key, ts)
            },
            MemTableData::Sorted(records) => find_newest(records, key, ts),
        }
    }

    /// The rows that a query selects.
    fn select(&self, key: KeyRef<'_>, times: Option<(i64, i64)>, now: i64) -> (r: Vec<&InternalRecord>)
        ensures
            ref_views(r@) == selection(
                MemQuery { key: key.filter(), times, now },
                self.rows(),
            ),
    {
        match &self.data {
            MemTableData::Log { records, .. } => select(records, key, times, now),
            MemTableData::Sorted(records) => select(records, key, times, now),
        }
    }

    /// The rows whose key begins with `key`.
    pub fn query_prefix(&self, key: &[u8], now_us: i64) -> (r: Vec<&InternalRecord>)
        ensures
            ref_views(r@) == selection(
                MemQuery { key: KeyFilterView::Prefix(key@), times: None, now: now_us },
                self.rows(),
            ),
    {
        self.select(KeyRef::Prefix(key), None, now_us)
    }

    /// The rows whose key lies from `start_key` to `end_key`.
    pub fn query_key_range(&self, start_key: &[u8], end_key: &[u8], now_us: i64) -> (r: Vec<
        &InternalRecord,
    >)
        requires
            self.is_frozen() ==> bytes::lex_le(start_key@, end_key@),
        ensures
            ref_views(r@) == selection(
                MemQuery {
                    key: KeyFilterView::Range { start: start_key@, end: end_key@ },
                    times: None,
                    now: now_us,
                },
                self.rows(),
            ),
    {
        self.select(KeyRef::Range(start_key, end_key), None, now_us)
    }

    /// The rows whose time lies from `ts_start` to `ts_end`.
    pub fn query_time_range(&self, ts_start: i64, ts_end: i64, now_us: i64) -> (r: Vec<
        &InternalRecord,
    >)
        ensures
            ref_views(r@) == selection(
                MemQuery { key: KeyFilterView::All, times: Some((ts_start, ts_end)), now: now_us },
                self.rows(),
            ),
    {
        self.select(KeyRef::All, Some((ts_start, ts_end)), now_us)
    }

    /// The rows whose key begins with `key` and whose time lies from `ts_start`
    /// to `ts_end`.
    pub fn query_prefix_time_range(&self, key: &[u8], ts_start: i64, ts_end: i64, now_us: i64) -> (r: Vec<
        &InternalRecord,
    >)
        ensures
            ref_views(r@) == selection(
                MemQuery {
                    key: KeyFilterView::Prefix(key@),
                    times: Some((ts_start, ts_end)),
                    now: now_us,
                },
                self.rows(),
            ),
    {
        self.select(KeyRef::Prefix(key), Some((ts_start, ts_end)), now_us)
    }

    /// The rows whose key lies from `start_key` to `end_key` and whose time lies
    /// from `ts_start` to `ts_end`.
    pub fn query_key_time_range(
        &self,
        start_key: &[u8],
        end_key: &[u8],
        ts_start: i64,
        ts_end: i64,
        now_us: i64,
    ) -> (r: Vec<&InternalRecord>)
        ensures
            ref_views(r@) == selection(
                MemQuery {
                    key: KeyFilterView::Range { start: start_key@, end: end_key@ },
                    times: Some((ts_start, ts_end)),
                    now: now_us,
                },
                self.rows(),
            ),
    {
        self.select(KeyRef::Range(start_key, end_key), Some((ts_start, ts_end)), now_us)
    }

    /// The rows that have not expired.
    pub fn query_all(&self, now_us: i64) -> (r: Vec<&InternalRecord>)
        ensures
            ref_views(r@) == selection(
                MemQuery { key: KeyFilterView::All, times: None, now: now_us },
                self.rows(),
            ),
    {
        self.select(KeyRef::All, None, now_us)
    }

    pub fn is_empty(&self) -> (r: bool)
        ensures
            r == (self.rows().len() == 0),
    {
        self.len() == 0
    }

    /// The number of rows.
    pub fn len(&self) -> (r: usize)
        ensures
            r == self.rows().len(),
    {
        match &self.data {
            MemTableData::Log { records, .. } => records.len(),
            MemTableData::Sorted(records) => records.len(),
        }
    }

    /// The bytes that the table is charged.
    pub fn bytes(&self) -> (r: usize)
        ensures
            r == self.charged(),
    {
        self.bytes
    }

    /// The rows of a frozen table, sorted by key, time and sequence number.
    pub fn iter_sorted(&self) -> (r: &[InternalRecord])
        requires
            self.wf(),
            self.is_frozen(),
        ensures
            record::views(r@) == self.rows(),
            sort::strictly_sorted(SortOrder::KeyTsSeq, record::views(r@)),
    {
        match &self.data {
            MemTableData::Log { records, .. } => records.as_slice(),
            MemTableData::Sorted(records) => records.as_slice(),
        }
    }

    /// Copies of the rows as they are once the table is frozen.
    pub fn sorted_copy(&self) -> (r: Vec<InternalRecord>)
        requires
            self.wf(),
        ensures
            self.is_frozen() ==> record::views(r@) == self.rows(),
            sort::strictly_sorted(SortOrder::KeyTsSeq, record::views(r@)),
            forall|key: Seq<u8>, ts: i64, seq: u64| #[trigger]
                slot(record::views(r@), key, ts, seq) == slot(self.rows(), key, ts, seq),
    {
        match &self.data {
            MemTableData::Log { records, .. } => {
                let sorted = sort_records(records, SortOrder::KeyTsSeq);
                proof {
                    sort::law_sort_sorts(
                        SortOrder::KeyTsSeq,
                        record::views(records@),
                        record::views(sorted@),
                    );
                }
                let rows = keep_last(&sorted);
                proof {
                    lemma_slots_kept(
                        record::views(records@),
                        record::views(sorted@),
                        record::views(rows@),
                    );
                }
                rows
            },
            MemTableData::Sorted(records) => crate::sstable::clone_records(records),
        }
    }

    /// Freezes the table: sorts the rows, of which the last in each slot stays.
    pub fn convert_to_map(&mut self)
        requires
            old(self).wf(),
        ensures
            final(self).wf(),
            final(self).is_frozen(),
            final(self).charged() == old(self).charged(),
            old(self).is_frozen() ==> final(self).rows() == old(self).rows(),
            sort::strictly_sorted(SortOrder::KeyTsSeq, final(self).rows()),
            forall|key: Seq<u8>, ts: i64, seq: u64| #[trigger]
                slot(final(self).rows(), key, ts, seq) == slot(old(self).rows(), key, ts, seq),
    {
        if let MemTableData::Log { .. } = &self.data {
            let rows = self.sorted_copy();
            proof {
                lemma_slots_smaller(record::views(rows@), self.rows());
            }
            self.data = MemTableData::Sorted(rows);
        }
    }
}

/// The last record with the key and the time.
fn find_newest<'a>(records: &'a Vec<InternalRecord>, key: &[u8], ts: i64) -> (r: Option<
    &'a InternalRecord,
>)
    ensures
        opt_ref_row(r) == newest(record::views(records@), key@, ts),
{
    let ghost rows = record::views(records@);
    let mut n: usize = records.len();
    assert(rows.take(n as int) =~= rows);
    while n > 0
        invariant
            n <= records@.len(),
            rows == record::views(records@),
            newest(rows.take(n as int), key@, ts) == newest(rows, key@, ts),
        decreases n,
    {
        assert(rows.take(n as int).drop_last() =~= rows.take(n - 1));
        let rec = &records[n - 1];
        if rec.ts == ts && bytes_eq(&rec.key, key) {
            return Some(rec);
        }
        n -= 1;
    }
    None
}

/// Whether two records are in the same slot.
fn in_same_slot(a: &InternalRecord, b: &InternalRecord) -> (r: bool)
    ensures
        r == same_slot(a@, b@),
{
    a.seq == b.seq && a.ts == b.ts && bytes_eq(&a.key, &b.key)
}

/// `out` keeps, of the sorted `rows`, the rows at the positions `at`: the last
/// one in each slot.
#[verifier::opaque]
spec fn keeps_last(
    rows: Seq<InternalRecordView>,
    out: Seq<InternalRecordView>,
    at: Seq<int>,
) -> bool {
    &&& at.len() == out.len()
    &&& forall|j: int| 0 <= j < out.len() ==> 0 <= #[trigger] at[j] < rows.len() && out[j] == rows[at[j]]
    &&& forall|i: int, j: int| 0 <= i < j < out.len() ==> #[trigger] at[i] < #[trigger] at[j]
    &&& forall|j: int, k: int|
        0 <= j < out.len() && at[j] < k < rows.len() ==> !same_slot(#[trigger] out[j], #[trigger] rows[k])
    &&& forall|k: int| 0 <= k < rows.len() ==> has_slot(out, #[trigger] rows[k])
}

/// Some row of the list is in the slot of `row`.
spec fn has_slot(list: Seq<InternalRecordView>, row: InternalRecordView) -> bool {
    exists|j: int| 0 <= j < list.len() && same_slot(#[trigger] list[j], row)
}

/// Copies of the sorted records without those that a later one in the same slot
/// replaces.
fn keep_last(records: &Vec<InternalRecord>) -> (out: Vec<InternalRecord>)
    requires
        sort::sorted(SortOrder::KeyTsSeq, record::views(records@)),
    ensures
        exists|at: Seq<int>|
            keeps_last(record::views(records@), record::views(out@), at),
{
    let ghost rows = record::views(records@);
    let mut out: Vec<InternalRecord> = Vec::new();
    let ghost mut at: Seq<int> = Seq::empty();
    let mut i: usize = 0;
    assert(keeps_last(rows.take(0), record::views(out@), at)) by {
        reveal(keeps_last);
    }
    while i < records.len()
        invariant
            i <= records@.len(),
            rows == record::views(records@),
            sort::sorted(SortOrder::KeyTsSeq, rows),
            keeps_last(rows.take(i as int), record::views(out@), at),
        decreases records@.len() - i,
    {
        let ghost kept = record::views(out@);
        let ghost kept_at = at;
        assert(at.len() == kept.len()) by {
            reveal(keeps_last);
        }
        let replaces: bool = out.len() > 0 && in_same_slot(&out[out.len() - 1], &records[i]);
        if replaces {
            out.pop();
            proof {
                at = at.drop_last();
            }
        }
        out.push(records[i].clone());
        proof {
            at = at.push(i as int);
            lemma_kept_step(rows, kept, kept_at, i as int, replaces);
            if replaces {
                assert(record::views(out@) =~= kept.drop_last().push(rows[i as int]));
            } else {
                assert(record::views(out@) =~= kept.push(rows[i as int]));
            }
        }
        i += 1;
    }
    assert(rows.take(i as int) =~= rows);
    out
}

/// The next row is kept, in place of the last kept one where that is in its slot.
proof fn lemma_kept_step(
    rows: Seq<InternalRecordView>,
    kept: Seq<InternalRecordView>,
    at: Seq<int>,
    i: int,
    replaces: bool,
)
    requires
        sort::sorted(SortOrder::KeyTsSeq, rows),
        0 <= i < rows.len(),
        keeps_last(rows.take(i), kept, at),
        replaces == (kept.len() > 0 && same_slot(kept.last(), rows[i])),
    ensures
        at.len() == kept.len(),
        replaces ==> keeps_last(
            rows.take(i + 1),
            kept.drop_last().push(rows[i]),
            at.drop_last().push(i),
        ),
        !replaces ==> keeps_last(rows.take(i + 1), kept.push(rows[i]), at.push(i)),
{
    let n = if replaces {
        kept.len() - 1
    } else {
        kept.len() as int
    };
    assert forall|j: int| 0 <= j < n implies !same_slot(#[trigger] kept[j], rows[i]) by {
        lemma_not_last(rows, kept, at, i, j);
    }
    assert(at.len() == kept.len()) by {
        reveal(keeps_last);
    }
    assert(rows.take(i + 1) =~= rows.take(i).push(rows[i]));
    lemma_kept_push(rows.take(i), kept, at, rows[i], n);
    if replaces {
        assert(kept.take(n) =~= kept.drop_last());
        assert(at.take(n) =~= at.drop_last());
    } else {
        assert(kept.take(n) =~= kept);
        assert(at.take(n) =~= at);
    }
}

/// A row is kept after those kept rows that are in another slot: all of them, or all
/// but the last one.
proof fn lemma_kept_push(
    seen: Seq<InternalRecordView>,
    kept: Seq<InternalRecordView>,
    at: Seq<int>,
    row: InternalRecordView,
    n: int,
)
    requires
        keeps_last(seen, kept, at),
        0 <= n <= kept.len(),
        n == kept.len() || (n == kept.len() - 1 && same_slot(kept[n], row)),
        forall|j: int| 0 <= j < n ==> !same_slot(#[trigger] kept[j], row),
    ensures
        keeps_last(seen.push(row), kept.take(n).push(row), at.take(n).push(seen.len() as int)),
{
    reveal(keeps_last);
    let now = seen.push(row);
    let new = kept.take(n).push(row);
    let new_at = at.take(n).push(seen.len() as int);
    assert forall|j: int, k: int| 0 <= j < new.len() && new_at[j] < k < now.len() implies !same_slot(
        #[trigger] new[j],
        #[trigger] now[k],
    ) by {
        assert(new[j] == kept[j] && new_at[j] == at[j]);
        if k < seen.len() {
            assert(!same_slot(kept[j], seen[k]));
        }
    }
    assert forall|k: int| 0 <= k < now.len() implies has_slot(new, #[trigger] now[k]) by {
        assert(new[n] == row);
        if k < seen.len() {
            assert(has_slot(kept, seen[k]));
            let j = choose|j: int| 0 <= j < kept.len() && same_slot(#[trigger] kept[j], seen[k]);
            if j < n {
                assert(new[j] == kept[j]);
            } else {
                assert(same_slot(new[n], now[k]));
            }
        } else {
            assert(same_slot(new[n], now[k]));
        }
    }
}

/// A kept row that is not the last kept one is in another slot than the next
/// row.
proof fn lemma_not_last(
    rows: Seq<InternalRecordView>,
    kept: Seq<InternalRecordView>,
    at: Seq<int>,
    i: int,
    j: int,
)
    requires
        sort::sorted(SortOrder::KeyTsSeq, rows),
        0 <= i < rows.len(),
        keeps_last(rows.take(i), kept, at),
        0 <= j < kept.len(),
        j < kept.len() - 1 || !same_slot(kept[j], rows[i]),
    ensures
        !same_slot(kept[j], rows[i]),
{
    reveal(keeps_last);
    let o = SortOrder::KeyTsSeq;
    if j < kept.len() - 1 {
        let last = kept.len() - 1;
        let a = at[j];
        let b = at[last];
        assert(at[j] < at[last]);
        assert(rows.take(i)[a] == rows[a] && rows.take(i)[b] == rows[b]);
        assert(!same_slot(kept[j], rows.take(i)[b]));
        lemma_slots_ordered(rows[a], rows[b]);
        assert(!sort::before(o, rows[b], rows[a]));
        assert(!sort::before(o, rows[i], rows[b]));
        sort::lemma_before(o, rows[a], rows[b], rows[i]);
        lemma_slots_ordered(rows[a], rows[i]);
    }
}

/// The row in a slot, if some row is in it: the last one.
proof fn lemma_slot(rows: Seq<InternalRecordView>, i: int)
    requires
        0 <= i < rows.len(),
        forall|k: int| i < k < rows.len() ==> !same_slot(#[trigger] rows[k], rows[i]),
    ensures
        slot(rows, rows[i].key, rows[i].ts, rows[i].seq) == Some(rows[i]),
    decreases rows.len(),
{
    if i < rows.len() - 1 {
        assert(!same_slot(rows[rows.len() - 1], rows[i]));
        let front = rows.drop_last();
        assert forall|k: int| i < k < front.len() implies !same_slot(#[trigger] front[k], front[i]) by {
            assert(!same_slot(rows[k], rows[i]));
        }
        lemma_slot(front, i);
    }
}

/// Where a slot is filled, and by which row.
proof fn lemma_slot_found(rows: Seq<InternalRecordView>, key: Seq<u8>, ts: i64, seq: u64) -> (i: int)
    ensures
        slot(rows, key, ts, seq) is Some ==> {
            &&& 0 <= i < rows.len()
            &&& slot(rows, key, ts, seq) == Some(rows[i])
            &&& rows[i].key == key && rows[i].ts == ts && rows[i].seq == seq
            &&& forall|k: int| i < k < rows.len() ==> !same_slot(#[trigger] rows[k], rows[i])
        },
        slot(rows, key, ts, seq) is None ==> forall|k: int|
            0 <= k < rows.len() ==> !(#[trigger] rows[k].key == key && rows[k].ts == ts
                && rows[k].seq == seq),
    decreases rows.len(),
{
    if rows.len() == 0 {
        0
    } else if rows.last().key == key && rows.last().ts == ts && rows.last().seq == seq {
        rows.len() - 1
    } else {
        let front = rows.drop_last();
        let i = lemma_slot_found(front, key, ts, seq);
        assert forall|k: int| 0 <= k < front.len() implies front[k] == rows[k] by {}
        if slot(rows, key, ts, seq) is None {
            assert forall|k: int| 0 <= k < rows.len() implies !(#[trigger] rows[k].key == key
                && rows[k].ts == ts && rows[k].seq == seq) by {
                if k < front.len() {
                    assert(front[k] == rows[k]);
                }
            }
        } else {
            assert forall|k: int| i < k < rows.len() implies !same_slot(#[trigger] rows[k], rows[i]) by {
                if k < front.len() {
                    assert(front[k] == rows[k]);
                }
            }
        }
        i
    }
}

/// The rows that keep the last of each slot of sorted rows are sorted, and no two
/// of them are in the same slot.
proof fn lemma_kept_sorted(
    sorted: Seq<InternalRecordView>,
    out: Seq<InternalRecordView>,
    at: Seq<int>,
)
    requires
        sort::sorted(SortOrder::KeyTsSeq, sorted),
        keeps_last(sorted, out, at),
    ensures
        sort::strictly_sorted(SortOrder::KeyTsSeq, out),
{
    reveal(keeps_last);
    let o = SortOrder::KeyTsSeq;
    assert forall|i: int, j: int| 0 <= i < j < out.len() implies sort::before(
        o,
        #[trigger] out[i],
        #[trigger] out[j],
    ) by {
        assert(at[i] < at[j]);
        assert(!sort::before(o, sorted[at[j]], sorted[at[i]]));
        assert(!same_slot(out[i], sorted[at[j]]));
        lemma_slots_ordered(out[i], out[j]);
    }
}

/// The row of a slot of the list, where there is one, is kept.
proof fn lemma_slot_kept(
    rows: Seq<InternalRecordView>,
    p: Seq<int>,
    sorted: Seq<InternalRecordView>,
    out: Seq<InternalRecordView>,
    at: Seq<int>,
    x: int,
) -> (j: int)
    requires
        sort::lists_in_order(SortOrder::KeyTsSeq, rows, p, 0, rows.len() as int),
        sort::permuted(rows, p, sorted),
        keeps_last(sorted, out, at),
        0 <= x < rows.len(),
        forall|k: int| x < k < rows.len() ==> !same_slot(#[trigger] rows[k], rows[x]),
    ensures
        0 <= j < out.len(),
        out[j] == rows[x],
{
    reveal(keeps_last);
    let o = SortOrder::KeyTsSeq;
    assert(p.contains(x));
    let k = choose|k: int| 0 <= k < p.len() && p[k] == x;
    assert(sorted[k] == rows[x]);
    let j = choose|j: int| 0 <= j < out.len() && same_slot(#[trigger] out[j], sorted[k]);
    let m = at[j];
    assert(out[j] == sorted[m] && sorted[m] == rows[p[m]]);
    if m < k {
        assert(!same_slot(out[j], sorted[k]));
    } else if k < m {
        assert(sort::row_before(o, rows, p[k], p[m]));
        lemma_slots_ordered(rows[x], rows[p[m]]);
        assert(!same_slot(rows[p[m]], rows[x]));
    }
    j
}

/// Sorting rows and keeping the last in each slot leaves every slot as it was,
/// and no slot twice.
proof fn lemma_slots_kept(
    rows: Seq<InternalRecordView>,
    sorted: Seq<InternalRecordView>,
    out: Seq<InternalRecordView>,
)
    requires
        sort::stably_sorted(SortOrder::KeyTsSeq, rows, sorted),
        exists|at: Seq<int>| keeps_last(sorted, out, at),
    ensures
        sort::strictly_sorted(SortOrder::KeyTsSeq, out),
        forall|key: Seq<u8>, ts: i64, seq: u64| #[trigger]
            slot(out, key, ts, seq) == slot(rows, key, ts, seq),
        total_size(out) <= total_size(rows),
{
    reveal(keeps_last);
    let o = SortOrder::KeyTsSeq;
    let n = rows.len() as int;
    let at = choose|at: Seq<int>| keeps_last(sorted, out, at);
    let p = choose|p: Seq<int>| #[trigger]
        sort::lists_in_order(o, rows, p, 0, n) && sort::permuted(rows, p, sorted);
    sort::law_sort_sorts(o, rows, sorted);
    lemma_kept_sorted(sorted, out, at);
    assert forall|key: Seq<u8>, ts: i64, seq: u64| #[trigger]
        slot(out, key, ts, seq) == slot(rows, key, ts, seq) by {
        let x = lemma_slot_found(rows, key, ts, seq);
        let y = lemma_slot_found(out, key, ts, seq);
        if slot(rows, key, ts, seq) is Some {
            let j = lemma_slot_kept(rows, p, sorted, out, at, x);
            assert forall|i: int| j < i < out.len() implies !same_slot(#[trigger] out[i], out[j]) by {
                assert(sort::before(o, out[j], out[i]));
                lemma_slots_ordered(out[j], out[i]);
            }
            lemma_slot(out, j);
        } else if slot(out, key, ts, seq) is Some {
            assert(out[y] == rows[p[at[y]]]);
        }
    }
    lemma_kept_smaller(rows, p, sorted, out, at);
}

/// The rows that are kept are together no larger than the list.
proof fn lemma_kept_smaller(
    rows: Seq<InternalRecordView>,
    p: Seq<int>,
    sorted: Seq<InternalRecordView>,
    out: Seq<InternalRecordView>,
    at: Seq<int>,
)
    requires
        sort::lists_in_order(SortOrder::KeyTsSeq, rows, p, 0, rows.len() as int),
        sort::permuted(rows, p, sorted),
        keeps_last(sorted, out, at),
    ensures
        total_size(out) <= total_size(rows),
{
    reveal(keeps_last);
    let o = SortOrder::KeyTsSeq;
    let q = Seq::new(out.len(), |j: int| p[at[j]]);
    assert(out =~= Seq::new(q.len(), |j: int| rows[q[j]]));
    assert forall|i: int, j: int| 0 <= i < j < q.len() implies q[i] != q[j] by {
        assert(at[i] < at[j]);
        assert(sort::row_before(o, rows, p[at[i]], p[at[j]]));
        sort::lemma_before(o, rows[q[i]], rows[q[j]], rows[q[i]]);
    }
    lemma_total_sublist(rows, q);
}

/// A table is charged at least the sizes of its rows, and no more unless it is
/// frozen.
pub proof fn lemma_charged(table: MemTable)
    requires
        table.wf(),
    ensures
        total_size(table.rows()) <= table.charged(),
        !table.is_frozen() ==> table.charged() == total_size(table.rows()),
{
}

/// Sorted rows are as large together as they were.
pub proof fn lemma_sorted_smaller(
    order: SortOrder,
    rows: Seq<InternalRecordView>,
    sorted: Seq<InternalRecordView>,
)
    requires
        sort::stably_sorted(order, rows, sorted),
    ensures
        total_size(sorted) <= total_size(rows),
{
    let n = rows.len() as int;
    let p = choose|p: Seq<int>| #[trigger]
        sort::lists_in_order(order, rows, p, 0, n) && sort::permuted(rows, p, sorted);
    assert(sorted =~= Seq::new(p.len(), |j: int| rows[p[j]]));
    assert forall|i: int, j: int| 0 <= i < j < p.len() implies p[i] != p[j] by {
        assert(sort::row_before(order, rows, p[i], p[j]));
        sort::lemma_before(order, rows[p[i]], rows[p[j]], rows[p[i]]);
    }
    lemma_total_sublist(rows, p);
}

/// A row of sorted rows that hold the slots of a list is a row of the list.
proof fn lemma_row_of_list(
    rows: Seq<InternalRecordView>,
    list: Seq<InternalRecordView>,
    i: int,
) -> (x: int)
    requires
        sort::strictly_sorted(SortOrder::KeyTsSeq, rows),
        slot(rows, rows[i].key, rows[i].ts, rows[i].seq) == slot(
            list,
            rows[i].key,
            rows[i].ts,
            rows[i].seq,
        ),
        0 <= i < rows.len(),
    ensures
        0 <= x < list.len(),
        list[x] == rows[i],
{
    assert forall|k: int| i < k < rows.len() implies !same_slot(#[trigger] rows[k], rows[i]) by {
        assert(sort::before(SortOrder::KeyTsSeq, rows[i], rows[k]));
        lemma_slots_ordered(rows[i], rows[k]);
    }
    lemma_slot(rows, i);
    lemma_slot_found(list, rows[i].key, rows[i].ts, rows[i].seq)
}

/// Sorted rows that hold the slots of a list are together no larger than the list.
pub proof fn lemma_slots_smaller(rows: Seq<InternalRecordView>, list: Seq<InternalRecordView>)
    requires
        sort::strictly_sorted(SortOrder::KeyTsSeq, rows),
        forall|key: Seq<u8>, ts: i64, seq: u64| #[trigger]
            slot(rows, key, ts, seq) == slot(list, key, ts, seq),
    ensures
        total_size(rows) <= total_size(list),
{
    let o = SortOrder::KeyTsSeq;
    let q = Seq::new(
        rows.len(),
        |i: int| choose|x: int| 0 <= x < list.len() && #[trigger] list[x] == rows[i],
    );
    assert forall|i: int| 0 <= i < q.len() implies 0 <= #[trigger] q[i] < list.len() && list[q[i]]
        == rows[i] by {
        let x = lemma_row_of_list(rows, list, i);
        assert(list[x] == rows[i]);
    }
    assert(rows =~= Seq::new(q.len(), |j: int| list[q[j]]));
    assert forall|i: int, j: int| 0 <= i < j < q.len() implies q[i] != q[j] by {
        assert(list[q[i]] == rows[i] && list[q[j]] == rows[j]);
        assert(sort::before(o, rows[i], rows[j]));
        lemma_slots_ordered(rows[i], rows[i]);
    }
    lemma_total_sublist(list, q);
}

/// Strictly ascending lists with the same row in each slot are the same.
pub proof fn lemma_slots_unique(a: Seq<InternalRecordView>, b: Seq<InternalRecordView>)
    requires
        sort::strictly_sorted(SortOrder::KeyTsSeq, a),
        sort::strictly_sorted(SortOrder::KeyTsSeq, b),
        forall|key: Seq<u8>, ts: i64, seq: u64| #[trigger]
            slot(a, key, ts, seq) == slot(b, key, ts, seq),
    ensures
        a == b,
{
    lemma_slots_contained(a, b);
    lemma_slots_contained(b, a);
    sort::lemma_strict_unique(SortOrder::KeyTsSeq, a, b);
}

/// A strictly ascending list holds the rows of its slots.
proof fn lemma_slots_contained(a: Seq<InternalRecordView>, b: Seq<InternalRecordView>)
    requires
        sort::strictly_sorted(SortOrder::KeyTsSeq, a),
        forall|key: Seq<u8>, ts: i64, seq: u64| #[trigger]
            slot(a, key, ts, seq) == slot(b, key, ts, seq),
    ensures
        forall|i: int| 0 <= i < a.len() ==> b.contains(#[trigger] a[i]),
{
    assert forall|i: int| 0 <= i < a.len() implies b.contains(#[trigger] a[i]) by {
        let x = lemma_row_of_list(a, b, i);
        assert(b[x] == a[i]);
    }
}

/// Different rows that a list holds are together no larger than the list.
pub proof fn lemma_distinct_smaller(list: Seq<InternalRecordView>, rows: Seq<InternalRecordView>)
    requires
        forall|i: int| 0 <= i < rows.len() ==> list.contains(#[trigger] rows[i]),
        forall|i: int, j: int|
            0 <= i < j < rows.len() ==> #[trigger] rows[i] != #[trigger] rows[j],
    ensures
        total_size(rows) <= total_size(list),
{
    let q = Seq::new(
        rows.len(),
        |i: int| choose|x: int| 0 <= x < list.len() && #[trigger] list[x] == rows[i],
    );
    assert forall|i: int| 0 <= i < q.len() implies 0 <= #[trigger] q[i] < list.len() && list[q[i]]
        == rows[i] by {
        assert(list.contains(rows[i]));
        let x = choose|x: int| 0 <= x < list.len() && list[x] == rows[i];
        assert(list[x] == rows[i]);
    }
    assert(rows =~= Seq::new(q.len(), |j: int| list[q[j]]));
    assert forall|i: int, j: int| 0 <= i < j < q.len() implies q[i] != q[j] by {
        assert(list[q[i]] == rows[i] && list[q[j]] == rows[j]);
    }
    lemma_total_sublist(list, q);
}

/// Rows of a list at different places are together no larger than the list.
proof fn lemma_total_sublist(rows: Seq<InternalRecordView>, q: Seq<int>)
    requires
        forall|i: int| 0 <= i < q.len() ==> 0 <= #[trigger] q[i] < rows.len(),
        forall|i: int, j: int| 0 <= i < j < q.len() ==> q[i] != q[j],
    ensures
        total_size(Seq::new(q.len(), |j: int| rows[q[j]])) <= total_size(rows),
    decreases rows.len(),
{
    let picked = Seq::new(q.len(), |j: int| rows[q[j]]);
    if q.len() > 0 {
        assert(0 <= q[0] < rows.len());
        let front = rows.drop_last();
        if q.contains(rows.len() - 1) {
            let i = choose|i: int| 0 <= i < q.len() && q[i] == rows.len() - 1;
            let rest = q.remove(i);
            assert forall|k: int| 0 <= k < rest.len() implies 0 <= #[trigger] rest[k] < front.len() by {
                let m = if k < i { k } else { k + 1 };
                assert(rest[k] == q[m]);
                assert(q[m] != q[i]);
            }
            lemma_total_sublist(front, rest);
            let picked_rest = Seq::new(rest.len(), |j: int| front[rest[j]]);
            lemma_total_insert(picked_rest, i, rows.last());
            assert(picked =~= picked_rest.insert(i, rows.last()));
        } else {
            assert forall|k: int| 0 <= k < q.len() implies 0 <= #[trigger] q[k] < front.len() by {
                assert(q.contains(q[k]));
            }
            lemma_total_sublist(front, q);
            assert(picked =~= Seq::new(q.len(), |j: int| front[q[j]]));
        }
    }
}

/// How many records of a sorted list come before `rec`.
fn find_place(records: &Vec<InternalRecord>, rec: &InternalRecord) -> (r: usize)
    ensures
        r <= records@.len(),
        r == rank(record::views(records@), rec@),
{
    let ghost rows = record::views(records@);
    let mut n: usize = records.len();
    assert(rows.take(n as int) =~= rows);
    while n > 0 && !is_before(SortOrder::KeyTsSeq, &records[n - 1], rec)
        invariant
            n <= records@.len(),
            rows == record::views(records@),
            rank(rows.take(n as int), rec@) == rank(rows, rec@),
        decreases n,
    {
        assert(rows.take(n as int).drop_last() =~= rows.take(n - 1));
        n -= 1;
    }
    n
}

/// The size of the row that `row` takes the place of, if there is one.
pub open spec fn replaced_size(rows: Seq<InternalRecordView>, row: InternalRecordView) -> nat {
    let i = rank(rows, row);
    if i < rows.len() && same_slot(rows[i], row) {
        rows[i].size()
    } else {
        0
    }
}

/// The rows before the rank come before `row`, and the others do not.
proof fn lemma_rank(rows: Seq<InternalRecordView>, row: InternalRecordView)
    requires
        sort::strictly_sorted(SortOrder::KeyTsSeq, rows),
    ensures
        0 <= rank(rows, row) <= rows.len(),
        forall|k: int| 0 <= k < rank(rows, row) ==> sort::before(SortOrder::KeyTsSeq, #[trigger] rows[k], row),
        forall|k: int|
            rank(rows, row) <= k < rows.len() ==> !sort::before(SortOrder::KeyTsSeq, #[trigger] rows[k], row),
    decreases rows.len(),
{
    let o = SortOrder::KeyTsSeq;
    if rows.len() > 0 {
        if sort::before(o, rows.last(), row) {
            assert forall|k: int| 0 <= k < rows.len() implies sort::before(o, #[trigger] rows[k], row) by {
                sort::lemma_before(o, rows[k], rows.last(), row);
            }
        } else {
            let front = rows.drop_last();
            assert forall|i: int, j: int| 0 <= i < j < front.len() implies sort::before(
                o,
                #[trigger] front[i],
                #[trigger] front[j],
            ) by {
                assert(sort::before(o, rows[i], rows[j]));
            }
            lemma_rank(front, row);
            assert forall|k: int| 0 <= k < rank(rows, row) implies sort::before(o, #[trigger] rows[k], row) by {
                assert(front[k] == rows[k]);
            }
            assert forall|k: int| rank(rows, row) <= k < rows.len() implies !sort::before(
                o,
                #[trigger] rows[k],
                row,
            ) by {
                if k < front.len() {
                    assert(front[k] == rows[k]);
                }
            }
        }
    }
}

/// Of two rows in different slots one comes before the other.
proof fn lemma_slots_ordered(a: InternalRecordView, b: InternalRecordView)
    ensures
        sort::before(SortOrder::KeyTsSeq, a, b) || sort::before(SortOrder::KeyTsSeq, b, a)
            || same_slot(a, b),
        same_slot(a, b) ==> !sort::before(SortOrder::KeyTsSeq, a, b),
{
    bytes::lemma_lex_total(a.key, b.key);
    bytes::lemma_lex_irreflexive(a.key);
}

/// Two lists are together as large as the list of both.
pub proof fn lemma_total_append(a: Seq<InternalRecordView>, b: Seq<InternalRecordView>)
    ensures
        total_size(a + b) == total_size(a) + total_size(b),
    decreases b.len(),
{
    if b.len() == 0 {
        assert(a + b =~= a);
    } else {
        assert((a + b).drop_last() =~= a + b.drop_last());
        lemma_total_append(a, b.drop_last());
    }
}

/// A row of a list is no larger than the list.
proof fn lemma_total_element(rows: Seq<InternalRecordView>, i: int)
    requires
        0 <= i < rows.len(),
    ensures
        rows[i].size() <= total_size(rows),
    decreases rows.len(),
{
    if i < rows.len() - 1 {
        lemma_total_element(rows.drop_last(), i);
    }
}

/// Replacing a row changes the total by the difference of the sizes.
proof fn lemma_total_update(rows: Seq<InternalRecordView>, i: int, row: InternalRecordView)
    requires
        0 <= i < rows.len(),
    ensures
        total_size(rows.update(i, row)) == total_size(rows) - rows[i].size() + row.size(),
    decreases rows.len(),
{
    let new = rows.update(i, row);
    if i < rows.len() - 1 {
        lemma_total_update(rows.drop_last(), i, row);
        assert(new.drop_last() =~= rows.drop_last().update(i, row));
    } else {
        assert(new.drop_last() =~= rows.drop_last());
    }
}

/// Inserting a row adds its size to the total.
proof fn lemma_total_insert(rows: Seq<InternalRecordView>, i: int, row: InternalRecordView)
    requires
        0 <= i <= rows.len(),
    ensures
        total_size(rows.insert(i, row)) == total_size(rows) + row.size(),
    decreases rows.len(),
{
    let new = rows.insert(i, row);
    if i < rows.len() {
        lemma_total_insert(rows.drop_last(), i, row);
        assert(new.drop_last() =~= rows.drop_last().insert(i, row));
    } else {
        assert(new.drop_last() =~= rows);
    }
}

/// A row that takes the place of one in its slot keeps the list sorted.
proof fn lemma_replace(rows: Seq<InternalRecordView>, row: InternalRecordView)
    requires
        sort::strictly_sorted(SortOrder::KeyTsSeq, rows),
        rank(rows, row) < rows.len(),
        same_slot(rows[rank(rows, row)], row),
    ensures
        ({
            let new = rows.update(rank(rows, row), row);
            &&& sort::strictly_sorted(SortOrder::KeyTsSeq, new)
            &&& total_size(new) == total_size(rows) - rows[rank(rows, row)].size() + row.size()
        }),
{
    let o = SortOrder::KeyTsSeq;
    let at = rank(rows, row);
    lemma_rank(rows, row);
    lemma_total_update(rows, at, row);
    let new = rows.update(at, row);
    assert forall|i: int, j: int| 0 <= i < j < new.len() implies sort::before(
        o,
        #[trigger] new[i],
        #[trigger] new[j],
    ) by {
        assert(sort::before(o, rows[i], rows[j]));
    }
}

/// A row in a slot of its own, put at its rank, keeps the list sorted.
proof fn lemma_insert(rows: Seq<InternalRecordView>, row: InternalRecordView)
    requires
        sort::strictly_sorted(SortOrder::KeyTsSeq, rows),
        rank(rows, row) < rows.len() ==> !same_slot(rows[rank(rows, row)], row),
    ensures
        ({
            let new = rows.insert(rank(rows, row), row);
            &&& sort::strictly_sorted(SortOrder::KeyTsSeq, new)
            &&& total_size(new) == total_size(rows) + row.size()
        }),
{
    let o = SortOrder::KeyTsSeq;
    let at = rank(rows, row);
    lemma_rank(rows, row);
    lemma_total_insert(rows, at, row);
    let new = rows.insert(at, row);
    assert forall|i: int, j: int| 0 <= i < j < new.len() implies sort::before(
        o,
        #[trigger] new[i],
        #[trigger] new[j],
    ) by {
        let a = if i < at { i } else { i - 1 };
        let b = if j < at { j } else { j - 1 };
        if i != at && j != at {
            assert(sort::before(o, rows[a], rows[b]));
        } else if i == at {
            lemma_slots_ordered(rows[at], row);
            sort::lemma_before(o, row, rows[at], rows[b]);
            if b > at {
                assert(sort::before(o, rows[at], rows[b]));
            }
        }
    }
}

/// The rows that a query selects of several tables, one table after another.
pub open spec fn tables_selection(tables: Seq<MemTable>, query: MemQuery) -> Seq<InternalRecordView>
    decreases tables.len(),
{
    if tables.len() == 0 {
        Seq::empty()
    } else {
        tables_selection(tables.drop_last(), query) + selection(
            query,
            tables.last().rows(),
        )
    }
}

/// The row with the key and the time in the last table that has one which has
/// not expired.
pub open spec fn tables_newest(tables: Seq<MemTable>, key: Seq<u8>, ts: i64, now: i64) -> Option<
    InternalRecordView,
>
    decreases tables.len(),
{
    if tables.len() == 0 {
        None
    } else {
        match newest(tables.last().rows(), key, ts) {
            Some(row) if row.expire_at >= now => Some(row),
            _ => tables_newest(tables.drop_last(), key, ts, now),
        }
    }
}

/// The table that takes writes, and the frozen tables that wait to be flushed,
/// oldest first.
pub struct MemTables {
    active: MemTable,
    frozen: Vec<MemTable>,
    max_frozen: usize,
    memtable_size_limit: usize,
}

/// Appends copies of the borrowed records.
fn extend_cloned(out: &mut Vec<InternalRecord>, refs: &Vec<&InternalRecord>)
    ensures
        record::views(final(out)@) == record::views(old(out)@) + ref_views(refs@),
{
    let mut i: usize = 0;
    assert(record::views(out@) =~= record::views(old(out)@) + ref_views(refs@).take(0));
    while i < refs.len()
        invariant
            i <= refs@.len(),
            record::views(out@) == record::views(old(out)@) + ref_views(refs@).take(i as int),
        decreases refs@.len() - i,
    {
        let ghost before = record::views(out@);
        out.push(refs[i].clone());
        assert(record::views(out@) =~= before.push(refs@[i as int]@));
        assert(ref_views(refs@).take(i + 1) =~= ref_views(refs@).take(i as int).push(
            refs@[i as int]@,
        ));
        assert(record::views(out@) =~= record::views(old(out)@) + ref_views(refs@).take(i + 1));
        i += 1;
    }
    assert(ref_views(refs@).take(i as int) =~= ref_views(refs@));
}

impl MemTables {
    /// The table that takes writes.
    pub closed spec fn active(self) -> MemTable {
        self.active
    }

    /// The frozen tables, oldest first.
    pub closed spec fn frozen(self) -> Seq<MemTable> {
        self.frozen@
    }

    /// How many frozen tables may wait.
    pub closed spec fn max_frozen(self) -> usize {
        self.max_frozen
    }

    /// The bytes at which the active table is to be flushed.
    pub closed spec fn size_limit(self) -> usize {
        self.memtable_size_limit
    }

    /// The active table takes rows, and the others are frozen.
    pub open spec fn wf(self) -> bool {
        &&& self.active().wf()
        &&& !self.active().is_frozen()
        &&& forall|i: int|
            0 <= i < self.frozen().len() ==> (#[trigger] self.frozen()[i]).wf()
                && self.frozen()[i].is_frozen()
    }

    /// Nothing but the active table and the frozen tables changes.
    pub open spec fn same_limits(self, other: MemTables) -> bool {
        self.max_frozen() == other.max_frozen() && self.size_limit() == other.size_limit()
    }

    /// The rows that a query selects: those of the active table, then those of
    /// the frozen tables, oldest table first.
    pub open spec fn selected(self, query: MemQuery) -> Seq<InternalRecordView> {
        selection(query, self.active().rows()) + tables_selection(
            self.frozen(),
            query,
        )
    }

    /// The row that a lookup with the hash `h` finds: the one in the active
    /// table, or, where that has none or an expired one, the one in the table
    /// that was frozen last.
    pub open spec fn lookup(self, h: u64, key: Seq<u8>, ts: i64, now: i64) -> Option<
        InternalRecordView,
    > {
        match self.active().lookup(h, key, ts) {
            Some(row) if row.expire_at >= now => Some(row),
            _ => tables_newest(self.frozen(), key, ts, now),
        }
    }

    /// Empty tables.
    pub fn new(max_frozen: usize, memtable_size_limit: usize) -> (r: Self)
        ensures
            r.wf(),
            r.active().rows() == Seq::<InternalRecordView>::empty(),
            (r.active().index() == Map::<(u64, i64), usize>::empty()),
            r.active().charged() == 0,
            r.frozen() == Seq::<MemTable>::empty(),
            r.max_frozen() == max_frozen,
            r.size_limit() == memtable_size_limit,
    {
        Self { active: MemTable::new(), frozen: Vec::new(), max_frozen, memtable_size_limit }
    }

    /// Takes a row into the active table.
    pub fn insert(&mut self, rec: InternalRecord)
        requires
            old(self).wf(),
            old(self).active().charged() + rec@.size() <= usize::MAX,
        ensures
            final(self).wf(),
            final(self).active().rows() == old(self).active().rows().push(rec@),
            final(self).active().charged() == old(self).active().charged() + rec@.size(),
            exists|h: u64|
                final(self).active().index() == #[trigger] old(self).active().index().insert(
                    (h, rec@.ts),
                    old(self).active().rows().len() as usize,
                ),
            final(self).frozen() == old(self).frozen(),
            final(self).same_limits(*old(self)),
    {
        self.active.insert(rec);
        assert(self.frozen() =~= old(self).frozen());
    }

    /// The active table, for a batch of writes.
    pub fn active_for_batch(&mut self) -> (r: &mut MemTable)
        ensures
            *r == old(self).active(),
            final(self).active() == *final(r),
            final(self).frozen() == old(self).frozen(),
            final(self).same_limits(*old(self)),
    {
        &mut self.active
    }

    /// Whether the active table has reached the size at which it is flushed.
    pub fn should_flush(&self) -> (r: bool)
        ensures
            r == (self.active().charged() >= self.size_limit()),
    {
        self.active.bytes() >= self.memtable_size_limit
    }

    /// Whether as many frozen tables wait as may.
    pub fn frozen_is_full(&self) -> (r: bool)
        ensures
            r == (self.frozen().len() >= self.max_frozen()),
    {
        self.frozen.len() >= self.max_frozen
    }

    /// Whether a write has to wait: the active table is full, and as many frozen
    /// tables wait as may.
    pub open spec fn stalls(self) -> bool {
        self.active().charged() >= self.size_limit() && self.frozen().len() >= self.max_frozen()
    }

    /// The bytes that the table is charged that was frozen first, or, where none is
    /// frozen, the active one.
    pub fn oldest_bytes(&self) -> (r: usize)
        ensures
            r == (if self.frozen().len() > 0 {
                self.frozen()[0].charged()
            } else {
                self.active().charged()
            }),
    {
        if self.frozen.len() > 0 {
            self.frozen[0].bytes()
        } else {
            self.active.bytes()
        }
    }

    /// Copies of the rows of the table that was frozen first, or, where none is
    /// frozen, of the active one as they are once it is frozen.
    pub fn oldest_copy(&self) -> (r: Vec<InternalRecord>)
        requires
            self.wf(),
        ensures
            self.frozen().len() > 0 ==> record::views(r@) == self.frozen()[0].rows(),
            self.frozen().len() == 0 ==> {
                &&& sort::strictly_sorted(SortOrder::KeyTsSeq, record::views(r@))
                &&& forall|key: Seq<u8>, ts: i64, seq: u64| #[trigger]
                    slot(record::views(r@), key, ts, seq) == slot(
                        self.active().rows(),
                        key,
                        ts,
                        seq,
                    )
            },
    {
        if self.frozen.len() > 0 {
            assert(self.frozen()[0].wf() && self.frozen()[0].is_frozen());
            self.frozen[0].sorted_copy()
        } else {
            self.active.sorted_copy()
        }
    }

    /// Freezes the active table, if it has rows, and starts an empty one.
    pub fn freeze(&mut self) -> (r: bool)
        requires
            old(self).wf(),
        ensures
            final(self).wf(),
            final(self).same_limits(*old(self)),
            r == (old(self).active().rows().len() > 0),
            !r ==> final(self).active() == old(self).active() && final(self).frozen() == old(
                self,
            ).frozen(),
            r ==> {
                let table = final(self).frozen().last();
                &&& final(self).active().rows() == Seq::<InternalRecordView>::empty()
                &&& (final(self).active().index() == Map::<(u64, i64), usize>::empty())
                &&& final(self).active().charged() == 0
                &&& final(self).frozen().len() == old(self).frozen().len() + 1
                &&& final(self).frozen().drop_last() == old(self).frozen()
                &&& table.charged() == old(self).active().charged()
                &&& sort::strictly_sorted(SortOrder::KeyTsSeq, table.rows())
                &&& forall|key: Seq<u8>, ts: i64, seq: u64| #[trigger]
                    slot(table.rows(), key, ts, seq) == slot(old(self).active().rows(), key, ts, seq)
            },
    {
        if self.active.is_empty() {
            return false;
        }
        let mut table = MemTable::new();
        std::mem::swap(&mut table, &mut self.active);
        table.convert_to_map();
        self.frozen.push(table);
        assert(self.frozen().drop_last() =~= old(self).frozen());
        true
    }

    /// Takes out the oldest frozen table.
    pub fn pop_frozen(&mut self) -> (r: Option<MemTable>)
        requires
            old(self).wf(),
        ensures
            final(self).wf(),
            final(self).same_limits(*old(self)),
            final(self).active() == old(self).active(),
            match r {
                Some(table) => {
                    &&& old(self).frozen().len() > 0
                    &&& table == old(self).frozen()[0]
                    &&& final(self).frozen() == old(self).frozen().drop_first()
                },
                None => old(self).frozen().len() == 0 && final(self).frozen() == old(self).frozen(),
            },
    {
        if self.frozen.len() > 0 {
            let table = self.frozen.remove(0);
            assert(self.frozen() =~= old(self).frozen().drop_first());
            Some(table)
        } else {
            None
        }
    }

    /// The rows and the bytes of the active table.
    pub fn active_stats(&self) -> (r: (usize, usize))
        ensures
            r.0 == self.active().rows().len(),
            r.1 == self.active().charged(),
    {
        (self.active.len(), self.active.bytes())
    }

    /// How many frozen tables wait.
    pub fn frozen_count(&self) -> (r: usize)
        ensures
            r == self.frozen().len(),
    {
        self.frozen.len()
    }

    /// The rows that a query selects.
    fn collect(&self, key: KeyRef<'_>, times: Option<(i64, i64)>, now: i64) -> (results: Vec<
        InternalRecord,
    >)
        ensures
            record::views(results@) == self.selected(MemQuery { key: key.filter(), times, now }),
    {
        let ghost query = MemQuery { key: key.filter(), times, now };
        let ghost first = selection(query, self.active().rows());
        let mut results: Vec<InternalRecord> = Vec::new();
        let found = self.active.select(key, times, now);
        extend_cloned(&mut results, &found);
        assert(record::views(results@) =~= first + tables_selection(self.frozen().take(0), query));
        let mut i: usize = 0;
        while i < self.frozen.len()
            invariant
                i <= self.frozen@.len(),
                query == (MemQuery { key: key.filter(), times, now }),
                record::views(results@) == first + tables_selection(
                    self.frozen().take(i as int),
                    query,
                ),
            decreases self.frozen@.len() - i,
        {
            let found = self.frozen[i].select(key, times, now);
            extend_cloned(&mut results, &found);
            proof {
                let tables = self.frozen().take(i + 1);
                assert(tables.drop_last() =~= self.frozen().take(i as int));
                assert(record::views(results@) =~= first + tables_selection(tables, query));
            }
            i += 1;
        }
        assert(self.frozen().take(i as int) =~= self.frozen());
        results
    }

    /// The rows whose key begins with `key`.
    pub fn query_prefix(&self, key: &[u8], now_us: i64) -> (r: Vec<InternalRecord>)
        ensures
            record::views(r@) == self.selected(
                MemQuery { key: KeyFilterView::Prefix(key@), times: None, now: now_us },
            ),
    {
        self.collect(KeyRef::Prefix(key), None, now_us)
    }

    /// The rows whose key lies from `start_key` to `end_key`.
    pub fn query_key_range(&self, start_key: &[u8], end_key: &[u8], now_us: i64) -> (r: Vec<
        InternalRecord,
    >)
        requires
            self.frozen().len() > 0 ==> bytes::lex_le(start_key@, end_key@),
        ensures
            record::views(r@) == self.selected(
                MemQuery {
                    key: KeyFilterView::Range { start: start_key@, end: end_key@ },
                    times: None,
                    now: now_us,
                },
            ),
    {
        self.collect(KeyRef::Range(start_key, end_key), None, now_us)
    }

    /// The rows whose time lies from `ts_start` to `ts_end`.
    pub fn query_time_range(&self, ts_start: i64, ts_end: i64, now_us: i64) -> (r: Vec<
        InternalRecord,
    >)
        ensures
            record::views(r@) == self.selected(
                MemQuery { key: KeyFilterView::All, times: Some((ts_start, ts_end)), now: now_us },
            ),
    {
        self.collect(KeyRef::All, Some((ts_start, ts_end)), now_us)
    }

    /// The rows whose key begins with `key` and whose time lies from `ts_start`
    /// to `ts_end`.
    pub fn query_prefix_time_range(&self, key: &[u8], ts_start: i64, ts_end: i64, now_us: i64) -> (r: Vec<
        InternalRecord,
    >)
        ensures
            record::views(r@) == self.selected(
                MemQuery {
                    key: KeyFilterView::Prefix(key@),
                    times: Some((ts_start, ts_end)),
                    now: now_us,
                },
            ),
    {
        self.collect(KeyRef::Prefix(key), Some((ts_start, ts_end)), now_us)
    }

    /// The rows whose key lies from `start_key` to `end_key` and whose time lies
    /// from `ts_start` to `ts_end`.
    pub fn query_key_time_range(
        &self,
        start_key: &[u8],
        end_key: &[u8],
        ts_start: i64,
        ts_end: i64,
        now_us: i64,
    ) -> (r: Vec<InternalRecord>)
        ensures
            record::views(r@) == self.selected(
                MemQuery {
                    key: KeyFilterView::Range { start: start_key@, end: end_key@ },
                    times: Some((ts_start, ts_end)),
                    now: now_us,
                },
            ),
    {
        self.collect(KeyRef::Range(start_key, end_key), Some((ts_start, ts_end)), now_us)
    }

    /// The rows that have not expired.
    pub fn query_all(&self, now_us: i64) -> (r: Vec<InternalRecord>)
        ensures
            record::views(r@) == self.selected(
                MemQuery { key: KeyFilterView::All, times: None, now: now_us },
            ),
    {
        self.collect(KeyRef::All, None, now_us)
    }

    /// The newest row with the key and the time that has not expired, as far as
    /// the index of the active table tells.
    pub fn get(&self, key: &[u8], ts: i64, now_us: i64) -> (r: Option<InternalRecord>)
        requires
            self.wf(),
        ensures
            exists|h: u64| opt_row(r) == #[trigger] self.lookup(h, key@, ts, now_us),
    {
        let h: u64 = hash_key(key);
        self.get_hashed(h, key, ts, now_us)
    }

    /// The row that a lookup with the hash `h` of the key finds.
    pub fn get_hashed(&self, h: u64, key: &[u8], ts: i64, now_us: i64) -> (r: Option<
        InternalRecord,
    >)
        requires
            self.wf(),
        ensures
            opt_row(r) == self.lookup(h, key@, ts, now_us),
    {
        if let Some(rec) = self.active.get_hashed(h, key, ts) {
            if rec.expire_at >= now_us {
                return Some(rec.clone());
            }
        }
        let mut n: usize = self.frozen.len();
        assert(self.frozen().take(n as int) =~= self.frozen());
        while n > 0
            invariant
                self.wf(),
                n <= self.frozen@.len(),
                self.lookup(h, key@, ts, now_us) == tables_newest(
                    self.frozen().take(n as int),
                    key@,
                    ts,
                    now_us,
                ),
            decreases n,
        {
            proof {
                assert(self.frozen().take(n as int).drop_last() =~= self.frozen().take(n - 1));
                assert(self.frozen()[n - 1].is_frozen());
            }
            if let Some(rec) = self.frozen[n - 1].get_hashed(h, key, ts) {
                if rec.expire_at >= now_us {
                    return Some(rec.clone());
                }
            }
            n -= 1;
        }
        None
    }
}

/// A new table is indexed by any hash function.
pub proof fn law_empty_indexed(table: MemTable, f: spec_fn(Seq<u8>) -> u64)
    requires
        table.rows() == Seq::<InternalRecordView>::empty(),
        (table.index() == Map::<(u64, i64), usize>::empty()),
    ensures
        table.indexed_by(f),
{
}

/// A table that is indexed by a hash function stays so when it takes a row under
/// the hash of its key.
pub proof fn law_insert_keeps_index(
    before: MemTable,
    after: MemTable,
    row: InternalRecordView,
    f: spec_fn(Seq<u8>) -> u64,
)
    requires
        before.indexed_by(f),
        before.rows().len() <= usize::MAX,
        after.rows() == before.rows().push(row),
        after.index() == before.index().insert((f(row.key), row.ts), before.rows().len() as usize),
    ensures
        after.indexed_by(f),
{
    assert forall|h: u64, ts: i64| #[trigger] after.index().contains_key((h, ts)) implies ({
        let pos = after.index()[(h, ts)] as int;
        pos < after.rows().len() && f(after.rows()[pos].key) == h && after.rows()[pos].ts == ts
    }) by {
        if (h, ts) != (f(row.key), row.ts) {
            assert(before.index().contains_key((h, ts)));
        }
    }
    assert forall|i: int| #![trigger after.rows()[i]] 0 <= i < after.rows().len() implies ({
        let at = (f(after.rows()[i].key), after.rows()[i].ts);
        after.index().contains_key(at) && after.index()[at] >= i
    }) by {
        if i < before.rows().len() {
            assert(after.rows()[i] == before.rows()[i]);
        }
    }
}

/// In a table that is indexed by a hash function, a lookup under the hash of the
/// key finds the newest row with the key and the time.
pub proof fn law_lookup_newest(
    table: MemTable,
    f: spec_fn(Seq<u8>) -> u64,
    key: Seq<u8>,
    ts: i64,
)
    requires
        table.indexed_by(f),
    ensures
        table.lookup(f(key), key, ts) == newest(table.rows(), key, ts),
{
    let rows = table.rows();
    let at = (f(key), ts);
    if !table.is_frozen() && table.index().contains_key(at) {
        let pos = table.index()[at] as int;
        if rows[pos].key == key && rows[pos].ts == ts {
            assert forall|k: int| pos < k < rows.len() implies !(#[trigger] rows[k].key == key
                && rows[k].ts == ts) by {
                if rows[k].key == key && rows[k].ts == ts {
                    assert(table.index()[at] >= k);
                }
            }
            lemma_newest_at(rows, pos, key, ts);
        }
    }
}

/// The newest row is the one after which no row has the key and the time.
proof fn lemma_newest_at(rows: Seq<InternalRecordView>, i: int, key: Seq<u8>, ts: i64)
    requires
        0 <= i < rows.len(),
        rows[i].key == key,
        rows[i].ts == ts,
        forall|k: int| i < k < rows.len() ==> !(#[trigger] rows[k].key == key && rows[k].ts == ts),
    ensures
        newest(rows, key, ts) == Some(rows[i]),
    decreases rows.len(),
{
    if i < rows.len() - 1 {
        assert(!(rows[rows.len() - 1].key == key && rows[rows.len() - 1].ts == ts));
        let front = rows.drop_last();
        assert forall|k: int| i < k < front.len() implies !(#[trigger] front[k].key == key
            && front[k].ts == ts) by {
            assert(front[k] == rows[k]);
        }
        lemma_newest_at(front, i, key, ts);
    }
}

/// A read sees the last write: after a table takes a row, that row is the newest
/// one with its key and time, be it a put or a tombstone, and what is newest
/// elsewhere stays.
pub proof fn law_read_last_write(
    rows: Seq<InternalRecordView>,
    row: InternalRecordView,
    key: Seq<u8>,
    ts: i64,
)
    ensures
        newest(rows.push(row), key, ts) == (if row.key == key && row.ts == ts {
            Some(row)
        } else {
            newest(rows, key, ts)
        }),
{
    assert(rows.push(row).drop_last() =~= rows);
}

/// Freezing keeps what is newest: where rows came in the order of their sequence
/// numbers, the newest row with a key and a time is the same before and after.
pub proof fn law_freeze_keeps_newest(
    log: Seq<InternalRecordView>,
    frozen: Seq<InternalRecordView>,
    key: Seq<u8>,
    ts: i64,
)
    requires
        sort::strictly_sorted(SortOrder::KeyTsSeq, frozen),
        forall|key: Seq<u8>, ts: i64, seq: u64| #[trigger]
            slot(frozen, key, ts, seq) == slot(log, key, ts, seq),
        forall|i: int, j: int| 0 <= i < j < log.len() ==> (#[trigger] log[i]).seq <= (#[trigger] log[j]).seq,
    ensures
        newest(frozen, key, ts) == newest(log, key, ts),
{
    let i = lemma_newest_found(log, key, ts);
    let j = lemma_newest_found(frozen, key, ts);
    if newest(log, key, ts) is Some {
        let row = log[i];
        lemma_slot(log, i);
        assert(slot(frozen, key, ts, row.seq) == Some(row));
        let k = lemma_slot_found(frozen, key, ts, row.seq);
        let top = frozen[j];
        assert(slot(log, key, ts, top.seq) == slot(frozen, key, ts, top.seq));
        lemma_frozen_slot(frozen, j);
        let m = lemma_slot_found(log, key, ts, top.seq);
        if k != j {
            if k < j {
                assert(sort::before(SortOrder::KeyTsSeq, frozen[k], frozen[j]));
            } else {
                assert(sort::before(SortOrder::KeyTsSeq, frozen[j], frozen[k]));
            }
            bytes::lemma_lex_irreflexive(key);
            assert(log[m].seq <= log[i].seq);
        }
    } else if newest(frozen, key, ts) is Some {
        lemma_frozen_slot(frozen, j);
        assert(slot(log, key, ts, frozen[j].seq) == slot(frozen, key, ts, frozen[j].seq));
        let m = lemma_slot_found(log, key, ts, frozen[j].seq);
    }
}

/// In a strictly sorted list every row fills its slot.
proof fn lemma_frozen_slot(rows: Seq<InternalRecordView>, i: int)
    requires
        sort::strictly_sorted(SortOrder::KeyTsSeq, rows),
        0 <= i < rows.len(),
    ensures
        slot(rows, rows[i].key, rows[i].ts, rows[i].seq) == Some(rows[i]),
{
    assert forall|k: int| i < k < rows.len() implies !same_slot(#[trigger] rows[k], rows[i]) by {
        assert(sort::before(SortOrder::KeyTsSeq, rows[i], rows[k]));
        lemma_slots_ordered(rows[i], rows[k]);
    }
    lemma_slot(rows, i);
}

/// Where the newest row with a key and a time stands.
proof fn lemma_newest_found(rows: Seq<InternalRecordView>, key: Seq<u8>, ts: i64) -> (i: int)
    ensures
        newest(rows, key, ts) is Some ==> {
            &&& 0 <= i < rows.len()
            &&& newest(rows, key, ts) == Some(rows[i])
            &&& rows[i].key == key && rows[i].ts == ts
            &&& forall|k: int| i < k < rows.len() ==> !(#[trigger] rows[k].key == key && rows[k].ts == ts)
        },
        newest(rows, key, ts) is None ==> forall|k: int|
            0 <= k < rows.len() ==> !(#[trigger] rows[k].key == key && rows[k].ts == ts),
    decreases rows.len(),
{
    if rows.len() == 0 {
        0
    } else if rows.last().key == key && rows.last().ts == ts {
        rows.len() - 1
    } else {
        let front = rows.drop_last();
        let i = lemma_newest_found(front, key, ts);
        if newest(rows, key, ts) is None {
            assert forall|k: int| 0 <= k < rows.len() implies !(#[trigger] rows[k].key == key
                && rows[k].ts == ts) by {
                if k < front.len() {
                    assert(front[k] == rows[k]);
                }
            }
        } else {
            assert forall|k: int| i < k < rows.len() implies !(#[trigger] rows[k].key == key
                && rows[k].ts == ts) by {
                if k < front.len() {
                    assert(front[k] == rows[k]);
                }
            }
        }
        i
    }
}

/// A query selects rows that it asks for.
pub proof fn lemma_selected_asked(mem: MemTables, query: MemQuery, row: InternalRecordView)
    requires
        mem.selected(query).contains(row),
    ensures
        selects(query, row),
{
    let first = selection(query, mem.active().rows());
    let rest = tables_selection(mem.frozen(), query);
    let i = choose|i: int| 0 <= i < (first + rest).len() && (first + rest)[i] == row;
    if i < first.len() {
        assert(first[i] == row);
        lemma_selection_asked(query, mem.active().rows(), i);
    } else {
        assert(rest[i - first.len()] == row);
        lemma_tables_asked(mem.frozen(), query, i - first.len());
    }
}

proof fn lemma_selection_asked(query: MemQuery, rows: Seq<InternalRecordView>, i: int)
    requires
        0 <= i < selection(query, rows).len(),
    ensures
        selects(query, selection(query, rows)[i]),
{
    broadcast use vstd::seq_lib::group_filter_ensures;

    let keep = |row: InternalRecordView| selects(query, row);
    assert(keep(rows.filter(keep)[i]));
}

proof fn lemma_tables_asked(tables: Seq<MemTable>, query: MemQuery, i: int)
    requires
        0 <= i < tables_selection(tables, query).len(),
    ensures
        selects(query, tables_selection(tables, query)[i]),
    decreases tables.len(),
{
    let front = tables_selection(tables.drop_last(), query);
    if i < front.len() {
        lemma_tables_asked(tables.drop_last(), query, i);
    } else {
        lemma_selection_asked(query, tables.last().rows(), i - front.len());
    }
}

/// Freezing keeps every row, where no two have the same sequence number.
pub proof fn lemma_frozen_rows(
    log: Seq<InternalRecordView>,
    frozen: Seq<InternalRecordView>,
    row: InternalRecordView,
)
    requires
        sort::strictly_sorted(SortOrder::KeyTsSeq, frozen),
        forall|key: Seq<u8>, ts: i64, seq: u64| #[trigger]
            slot(frozen, key, ts, seq) == slot(log, key, ts, seq),
        forall|i: int, j: int| 0 <= i < j < log.len() ==> (#[trigger] log[i]).seq < (#[trigger] log[j]).seq,
    ensures
        frozen.contains(row) <==> log.contains(row),
{
    if log.contains(row) {
        let i = choose|i: int| 0 <= i < log.len() && log[i] == row;
        assert forall|k: int| i < k < log.len() implies !same_slot(#[trigger] log[k], log[i]) by {
            assert(log[i].seq < log[k].seq);
        }
        lemma_slot(log, i);
        assert(slot(frozen, row.key, row.ts, row.seq) == Some(row));
        let j = lemma_slot_found(frozen, row.key, row.ts, row.seq);
        assert(frozen[j] == row);
    }
    if frozen.contains(row) {
        let i = choose|i: int| 0 <= i < frozen.len() && frozen[i] == row;
        lemma_frozen_slot(frozen, i);
        assert(slot(log, row.key, row.ts, row.seq) == slot(frozen, row.key, row.ts, row.seq));
        let j = lemma_slot_found(log, row.key, row.ts, row.seq);
        assert(log[j] == row);
    }
}

/// What a query selects: the rows at the times from its start to its end, both included,
/// that have not expired, with the keys that begin with its prefix, or that stand between
/// its start and its end, both included.
pub proof fn law_selects(query: MemQuery, row: InternalRecordView)
    ensures
        selects(query, row) ==> row.expire_at >= query.now,
        query.times matches Some((start, end)) ==> selects(query, row) ==> start <= row.ts <= end,
        query.key matches KeyFilterView::Prefix(prefix) ==> selects(query, row) ==> exists|
            rest: Seq<u8>,
        | row.key == #[trigger] (prefix + rest),
        query.key matches KeyFilterView::Range { start, end } ==> selects(query, row) ==> {
            &&& row.key == start || bytes::lex_lt(start, row.key)
            &&& row.key == end || bytes::lex_lt(row.key, end)
        },
        row.expire_at >= query.now && (query.times matches Some((start, end)) ==> start <= row.ts
            <= end) && (match query.key {
            KeyFilterView::All => true,
            KeyFilterView::Prefix(prefix) => exists|rest: Seq<u8>|
                row.key == #[trigger] (prefix + rest),
            KeyFilterView::Range { start, end } => (row.key == start || bytes::lex_lt(
                start,
                row.key,
            )) && (row.key == end || bytes::lex_lt(row.key, end)),
        }) ==> selects(query, row),
{
    if let KeyFilterView::Prefix(prefix) = query.key {
        bytes::law_prefix(row.key, prefix);
    }
}

} // verus!
