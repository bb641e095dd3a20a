//! A stable sort of stored records.

use vstd::prelude::*;
use crate::bytes;
use crate::bytes::{compare_bytes, KeyOrder};
use crate::record;
use crate::record::{InternalRecord, InternalRecordView};

verus! {

/// What records are sorted by.
#[derive(Debug, Clone, Copy, PartialEq, Eq, Structural)]
pub enum SortOrder {
    /// The sequence number.
    Sequence,
    /// The key, then the time.
    KeyTs,
    /// The key, then the time, then the sequence number.
    KeyTsSeq,
}

/// `a` comes strictly before `b`.
pub open spec fn before(order: SortOrder, a: InternalRecordView, b: InternalRecordView) -> bool {
    match order {
        SortOrder::Sequence => a.seq < b.seq,
        SortOrder::KeyTs => key_ts_lt(a, b),
        SortOrder::KeyTsSeq => key_ts_lt(a, b) || (a.key == b.key && a.ts == b.ts && a.seq < b.seq),
    }
}

/// `a` comes before `b` by key, or by time where the keys are equal.
pub open spec fn key_ts_lt(a: InternalRecordView, b: InternalRecordView) -> bool {
    bytes::lex_lt(a.key, b.key) || (a.key == b.key && a.ts < b.ts)
}

/// No later row comes before an earlier one.
pub open spec fn sorted(order: SortOrder, rows: Seq<InternalRecordView>) -> bool {
    forall|i: int, j: int|
        0 <= i < j < rows.len() ==> !before(order, #[trigger] rows[j], #[trigger] rows[i])
}

/// Every earlier row comes strictly before every later one.
pub open spec fn strictly_sorted(order: SortOrder, rows: Seq<InternalRecordView>) -> bool {
    forall|i: int, j: int|
        0 <= i < j < rows.len() ==> before(order, #[trigger] rows[i], #[trigger] rows[j])
}

/// The order is a strict one, and not coming before is transitive too.
pub proof fn lemma_before(
    order: SortOrder,
    a: InternalRecordView,
    b: InternalRecordView,
    c: InternalRecordView,
)
    ensures
        !before(order, a, a),
        before(order, a, b) ==> !before(order, b, a),
        before(order, a, b) && before(order, b, c) ==> before(order, a, c),
        !before(order, b, a) && before(order, b, c) ==> before(order, a, c),
        before(order, a, b) && !before(order, c, b) ==> before(order, a, c),
        !before(order, b, a) && !before(order, c, b) ==> !before(order, c, a),
{
    bytes::lemma_lex_total(a.key, b.key);
    bytes::lemma_lex_total(b.key, c.key);
    bytes::lemma_lex_total(a.key, c.key);
    bytes::lemma_lex_irreflexive(a.key);
    if bytes::lex_lt(a.key, b.key) && bytes::lex_lt(b.key, c.key) {
        bytes::lemma_lex_transitive(a.key, b.key, c.key);
    }
    if bytes::lex_lt(c.key, b.key) && bytes::lex_lt(b.key, a.key) {
        bytes::lemma_lex_transitive(c.key, b.key, a.key);
    }
}

/// Row `x` of `rows` comes before row `y` in a stable sort: by the order, or by
/// position where the order does not tell them apart.
pub open spec fn row_before(order: SortOrder, rows: Seq<InternalRecordView>, x: int, y: int) -> bool {
    before(order, rows[x], rows[y]) || (!before(order, rows[y], rows[x]) && x < y)
}

/// `p` lists the numbers from `lo` up to `hi`, each once, in the order of a
/// stable sort of the rows at those positions.
pub open spec fn lists_in_order(
    order: SortOrder,
    rows: Seq<InternalRecordView>,
    p: Seq<int>,
    lo: int,
    hi: int,
) -> bool {
    &&& p.len() == hi - lo
    &&& forall|i: int| 0 <= i < p.len() ==> lo <= #[trigger] p[i] < hi
    &&& forall|x: int| lo <= x < hi ==> #[trigger] p.contains(x)
    &&& forall|i: int, j: int|
        0 <= i < j < p.len() ==> row_before(order, rows, #[trigger] p[i], #[trigger] p[j])
}

/// `output` holds the rows of `input` at the positions that `p` lists.
pub open spec fn permuted(
    input: Seq<InternalRecordView>,
    p: Seq<int>,
    output: Seq<InternalRecordView>,
) -> bool {
    &&& output.len() == p.len()
    &&& forall|i: int| 0 <= i < p.len() ==> #[trigger] output[i] == input[p[i]]
}

/// `output` is `input` after a stable sort.
pub open spec fn stably_sorted(
    order: SortOrder,
    input: Seq<InternalRecordView>,
    output: Seq<InternalRecordView>,
) -> bool {
    exists|p: Seq<int>| #[trigger]
        lists_in_order(order, input, p, 0, input.len() as int) && permuted(input, p, output)
}

/// A stable sort gives a sorted list of the same length.
pub proof fn law_sort_sorts(
    order: SortOrder,
    input: Seq<InternalRecordView>,
    output: Seq<InternalRecordView>,
)
    requires
        stably_sorted(order, input, output),
    ensures
        output.len() == input.len(),
        sorted(order, output),
{
    let p = choose|p: Seq<int>| #[trigger]
        lists_in_order(order, input, p, 0, input.len() as int) && permuted(input, p, output);
    assert forall|i: int, j: int| 0 <= i < j < output.len() implies !before(
        order,
        #[trigger] output[j],
        #[trigger] output[i],
    ) by {
        assert(row_before(order, input, p[i], p[j]));
        lemma_before(order, input[p[i]], input[p[j]], input[p[i]]);
    }
}

/// A stable sort keeps every row and adds none.
pub proof fn law_sort_keeps_rows(
    order: SortOrder,
    input: Seq<InternalRecordView>,
    output: Seq<InternalRecordView>,
    row: InternalRecordView,
)
    requires
        stably_sorted(order, input, output),
    ensures
        input.contains(row) <==> output.contains(row),
{
    let p = choose|p: Seq<int>| #[trigger]
        lists_in_order(order, input, p, 0, input.len() as int) && permuted(input, p, output);
    if input.contains(row) {
        let x = choose|x: int| 0 <= x < input.len() && input[x] == row;
        assert(p.contains(x));
        let i = choose|i: int| 0 <= i < p.len() && p[i] == x;
        assert(output[i] == row);
    }
    if output.contains(row) {
        let i = choose|i: int| 0 <= i < output.len() && output[i] == row;
        assert(input[p[i]] == row);
    }
}

/// A stable sort leaves a sorted list as it is.
pub proof fn lemma_sorted_stays(order: SortOrder, rows: Seq<InternalRecordView>)
    requires
        sorted(order, rows),
    ensures
        stably_sorted(order, rows, rows),
{
    let p = Seq::new(rows.len(), |i: int| i);
    assert forall|i: int, j: int| 0 <= i < j < p.len() implies row_before(
        order,
        rows,
        #[trigger] p[i],
        #[trigger] p[j],
    ) by {
        assert(!before(order, rows[j], rows[i]));
    }
    assert forall|x: int| 0 <= x < rows.len() implies #[trigger] p.contains(x) by {
        assert(p[x] == x);
    }
    assert(lists_in_order(order, rows, p, 0, rows.len() as int));
    assert(permuted(rows, p, rows));
}

/// Two stable sorts of one list agree.
pub proof fn law_sort_unique(
    order: SortOrder,
    input: Seq<InternalRecordView>,
    a: Seq<InternalRecordView>,
    b: Seq<InternalRecordView>,
)
    requires
        stably_sorted(order, input, a),
        stably_sorted(order, input, b),
    ensures
        a == b,
{
    let n = input.len() as int;
    let p = choose|p: Seq<int>| #[trigger]
        lists_in_order(order, input, p, 0, n) && permuted(input, p, a);
    let q = choose|q: Seq<int>| #[trigger]
        lists_in_order(order, input, q, 0, n) && permuted(input, q, b);
    lemma_listing_unique(order, input, p, q, n, n);
    assert(a =~= b);
}

/// Two listings in order agree on their first `k` entries.
proof fn lemma_listing_unique(
    order: SortOrder,
    rows: Seq<InternalRecordView>,
    p: Seq<int>,
    q: Seq<int>,
    n: int,
    k: int,
)
    requires
        0 <= k <= n,
        lists_in_order(order, rows, p, 0, n),
        lists_in_order(order, rows, q, 0, n),
    ensures
        forall|i: int| 0 <= i < k ==> p[i] == #[trigger] q[i],
    decreases k,
{
    if k > 0 {
        lemma_listing_unique(order, rows, p, q, n, k - 1);
        let x = p[k - 1];
        let y = q[k - 1];
        if x != y {
            assert(q.contains(x));
            assert(p.contains(y));
            let j = choose|j: int| 0 <= j < q.len() && q[j] == x;
            let i = choose|i: int| 0 <= i < p.len() && p[i] == y;
            if j < k - 1 {
                assert(p[j] == q[j]);
                lemma_row_before(order, rows, x, x, x);
                assert(row_before(order, rows, p[j], p[k - 1]));
            } else if i < k - 1 {
                assert(p[i] == q[i]);
                lemma_row_before(order, rows, y, y, y);
                assert(row_before(order, rows, q[i], q[k - 1]));
            } else {
                assert(row_before(order, rows, q[k - 1], q[j]));
                assert(row_before(order, rows, p[k - 1], p[i]));
                lemma_row_before(order, rows, x, y, x);
            }
        }
    }
}

/// The order of a stable sort is strict, transitive and total.
proof fn lemma_row_before(order: SortOrder, rows: Seq<InternalRecordView>, x: int, y: int, z: int)
    ensures
        !row_before(order, rows, x, x),
        row_before(order, rows, x, y) ==> !row_before(order, rows, y, x),
        x != y ==> row_before(order, rows, x, y) || row_before(order, rows, y, x),
        row_before(order, rows, x, y) && row_before(order, rows, y, z) ==> row_before(
            order,
            rows,
            x,
            z,
        ),
{
    lemma_before(order, rows[x], rows[y], rows[z]);
    lemma_before(order, rows[y], rows[x], rows[z]);
    lemma_before(order, rows[z], rows[y], rows[x]);
}

/// Whether `a` comes strictly before `b`.
pub fn is_before(order: SortOrder, a: &InternalRecord, b: &InternalRecord) -> (r: bool)
    ensures
        r == before(order, a@, b@),
{
    match order {
        SortOrder::Sequence => a.seq < b.seq,
        SortOrder::KeyTs => match compare_bytes(&a.key, &b.key) {
            KeyOrder::Less => true,
            KeyOrder::Equal => {
                proof {
                    bytes::lemma_lex_irreflexive(a@.key);
                }
                a.ts < b.ts
            },
            KeyOrder::Greater => {
                proof {
                    bytes::lemma_lex_total(a@.key, b@.key);
                }
                false
            },
        },
        SortOrder::KeyTsSeq => match compare_bytes(&a.key, &b.key) {
            KeyOrder::Less => true,
            KeyOrder::Equal => {
                proof {
                    bytes::lemma_lex_irreflexive(a@.key);
                }
                a.ts < b.ts || (a.ts == b.ts && a.seq < b.seq)
            },
            KeyOrder::Greater => {
                proof {
                    bytes::lemma_lex_total(a@.key, b@.key);
                }
                false
            },
        },
    }
}

/// The positions in a list of machine integers.
spec fn ints(p: Seq<usize>) -> Seq<int> {
    Seq::new(p.len(), |i: int| p[i] as int)
}

/// The positions from `lo` up to `hi`, in the order of a stable sort of the
/// records there.
fn sort_positions(records: &Vec<InternalRecord>, order: SortOrder, lo: usize, hi: usize) -> (r: Vec<
    usize,
>)
    requires
        lo <= hi <= records@.len(),
    ensures
        lists_in_order(order, record::views(records@), ints(r@), lo as int, hi as int),
    decreases hi - lo,
{
    if hi - lo == 0 {
        return Vec::new();
    }
    if hi - lo == 1 {
        let mut one: Vec<usize> = Vec::new();
        one.push(lo);
        proof {
            assert(ints(one@)[0] == lo as int);
            assert forall|x: int| lo <= x < hi implies #[trigger] ints(one@).contains(x) by {
                assert(ints(one@)[0] == x);
            }
        }
        return one;
    }
    let mid: usize = lo + (hi - lo) / 2;
    let left = sort_positions(records, order, lo, mid);
    let right = sort_positions(records, order, mid, hi);
    merge_positions(records, order, &left, &right, lo, mid, hi)
}

/// Merges two listings of neighbouring positions.
fn merge_positions(
    records: &Vec<InternalRecord>,
    order: SortOrder,
    left: &Vec<usize>,
    right: &Vec<usize>,
    lo: usize,
    mid: usize,
    hi: usize,
) -> (out: Vec<usize>)
    requires
        lo <= mid <= hi <= records@.len(),
        lists_in_order(order, record::views(records@), ints(left@), lo as int, mid as int),
        lists_in_order(order, record::views(records@), ints(right@), mid as int, hi as int),
    ensures
        lists_in_order(order, record::views(records@), ints(out@), lo as int, hi as int),
{
    let ghost rows = record::views(records@);
    let ghost l = ints(left@);
    let ghost r = ints(right@);
    let mut out: Vec<usize> = Vec::new();
    let mut i: usize = 0;
    let mut j: usize = 0;
    while i < left.len() || j < right.len()
        invariant
            rows == record::views(records@),
            l == ints(left@),
            r == ints(right@),
            lo <= mid <= hi <= records@.len(),
            lists_in_order(order, rows, l, lo as int, mid as int),
            lists_in_order(order, rows, r, mid as int, hi as int),
            i <= left@.len(),
            j <= right@.len(),
            out@.len() == i + j,
            forall|k: int| 0 <= k < out@.len() ==> lo <= #[trigger] out@[k] < hi,
            forall|a: int, b: int|
                0 <= a < b < out@.len() ==> row_before(
                    order,
                    rows,
                    #[trigger] out@[a] as int,
                    #[trigger] out@[b] as int,
                ),
            forall|a: int, b: int|
                0 <= a < out@.len() && i <= b < l.len() ==> row_before(
                    order,
                    rows,
                    #[trigger] out@[a] as int,
                    #[trigger] l[b],
                ),
            forall|a: int, b: int|
                0 <= a < out@.len() && j <= b < r.len() ==> row_before(
                    order,
                    rows,
                    #[trigger] out@[a] as int,
                    #[trigger] r[b],
                ),
            forall|a: int| 0 <= a < i ==> out@.contains(#[trigger] left@[a]),
            forall|b: int| 0 <= b < j ==> out@.contains(#[trigger] right@[b]),
        decreases left@.len() - i + right@.len() - j,
    {
        let from_right: bool = if i >= left.len() {
            true
        } else if j >= right.len() {
            false
        } else {
            assert(l[i as int] == left@[i as int] && r[j as int] == right@[j as int]);
            assert(rows[l[i as int]] == records@[left@[i as int] as int]@);
            assert(rows[r[j as int]] == records@[right@[j as int] as int]@);
            is_before(order, &records[right[j]], &records[left[i]])
        };
        let ghost before_out = out@;
        if from_right {
            proof {
                assert(r[j as int] == right@[j as int]);
                assert forall|b: int| i <= b < l.len() implies row_before(
                    order,
                    rows,
                    r[j as int],
                    #[trigger] l[b],
                ) by {
                    lemma_row_before(order, rows, r[j as int], l[i as int], l[b]);
                }
            }
            out.push(right[j]);
            j += 1;
        } else {
            proof {
                assert(l[i as int] == left@[i as int]);
                assert forall|b: int| j <= b < r.len() implies row_before(
                    order,
                    rows,
                    l[i as int],
                    #[trigger] r[b],
                ) by {
                    assert(l[i as int] < mid <= r[j as int]);
                    lemma_row_before(order, rows, l[i as int], r[j as int], r[b]);
                }
            }
            out.push(left[i]);
            i += 1;
        }
        proof {
            assert forall|a: int| 0 <= a < i implies out@.contains(#[trigger] left@[a]) by {
                if before_out.contains(left@[a]) {
                    let k = choose|k: int| 0 <= k < before_out.len() && before_out[k] == left@[a];
                    assert(out@[k] == left@[a]);
                } else {
                    assert(out@[out@.len() - 1] == left@[a]);
                }
            }
            assert forall|b: int| 0 <= b < j implies out@.contains(#[trigger] right@[b]) by {
                if before_out.contains(right@[b]) {
                    let k = choose|k: int| 0 <= k < before_out.len() && before_out[k] == right@[b];
                    assert(out@[k] == right@[b]);
                } else {
                    assert(out@[out@.len() - 1] == right@[b]);
                }
            }
        }
    }
    proof {
        let p = ints(out@);
        assert forall|x: int| lo <= x < hi implies #[trigger] p.contains(x) by {
            if x < mid {
                assert(l.contains(x));
                let a = choose|a: int| 0 <= a < l.len() && l[a] == x;
                assert(out@.contains(left@[a]));
                let k = choose|k: int| 0 <= k < out@.len() && out@[k] == left@[a];
                assert(p[k] == x);
            } else {
                assert(r.contains(x));
                let b = choose|b: int| 0 <= b < r.len() && r[b] == x;
                assert(out@.contains(right@[b]));
                let k = choose|k: int| 0 <= k < out@.len() && out@[k] == right@[b];
                assert(p[k] == x);
            }
        }
    }
    out
}

/// Copies of the records after a stable sort.
pub fn sort_records(records: &Vec<InternalRecord>, order: SortOrder) -> (out: Vec<InternalRecord>)
    ensures
        stably_sorted(order, record::views(records@), record::views(out@)),
{
    let positions = sort_positions(records, order, 0, records.len());
    let ghost p = ints(positions@);
    let mut out: Vec<InternalRecord> = Vec::new();
    let mut i: usize = 0;
    while i < positions.len()
        invariant
            i <= positions@.len(),
            out@.len() == i,
            p == ints(positions@),
            lists_in_order(order, record::views(records@), p, 0, records@.len() as int),
            forall|k: int| 0 <= k < i ==> #[trigger] out@[k]@ == records@[p[k]]@,
        decreases positions@.len() - i,
    {
        assert(p[i as int] == positions@[i as int]);
        out.push(records[positions[i]].clone());
        i += 1;
    }
    proof {
        let rows = record::views(records@);
        assert(lists_in_order(order, rows, p, 0, rows.len() as int));
        assert(permuted(rows, p, record::views(out@)));
    }
    out
}

/// Strictly ascending lists with the same rows agree on their first `n` rows.
proof fn lemma_same_lists(
    o: SortOrder,
    a: Seq<InternalRecordView>,
    b: Seq<InternalRecordView>,
    n: int,
)
    requires
        strictly_sorted(o, a),
        strictly_sorted(o, b),
        forall|i: int| 0 <= i < a.len() ==> b.contains(#[trigger] a[i]),
        forall|i: int| 0 <= i < b.len() ==> a.contains(#[trigger] b[i]),
        0 <= n <= a.len(),
    ensures
        forall|i: int| 0 <= i < n && i < b.len() ==> a[i] == b[i],
    decreases n,
{
    if n > 0 {
        lemma_same_lists(o, a, b, n - 1);
        let i = n - 1;
        if i < b.len() {
            assert(b.contains(a[i]));
            assert(a.contains(b[i]));
            let j = choose|j: int| 0 <= j < b.len() && b[j] == a[i];
            let k = choose|k: int| 0 <= k < a.len() && a[k] == b[i];
            if j < i {
                assert(a[j] == b[j]);
                assert(before(o, a[j], a[i]));
                lemma_before(o, a[i], a[i], a[i]);
            }
            if k < i {
                assert(a[k] == b[k]);
                assert(before(o, b[k], b[i]));
                lemma_before(o, b[i], b[i], b[i]);
            }
            if j > i && k > i {
                assert(before(o, b[i], b[j]));
                assert(before(o, a[i], a[k]));
                lemma_before(o, a[i], b[i], a[i]);
            }
        }
    }
}

/// Strictly ascending lists with the same rows are the same.
pub proof fn lemma_strict_unique(
    o: SortOrder,
    a: Seq<InternalRecordView>,
    b: Seq<InternalRecordView>,
)
    requires
        strictly_sorted(o, a),
        strictly_sorted(o, b),
        forall|i: int| 0 <= i < a.len() ==> b.contains(#[trigger] a[i]),
        forall|i: int| 0 <= i < b.len() ==> a.contains(#[trigger] b[i]),
    ensures
        a == b,
{
    lemma_same_lists(o, a, b, a.len() as int);
    lemma_same_lists(o, b, a, b.len() as int);
    if a.len() < b.len() {
        let i = a.len() as int;
        assert(a.contains(b[i]));
        let j = choose|j: int| 0 <= j < a.len() && a[j] == b[i];
        assert(b[j] == b[i]);
        assert(before(o, b[j], b[i]));
        lemma_before(o, b[i], b[i], b[i]);
    }
    if b.len() < a.len() {
        let i = b.len() as int;
        assert(b.contains(a[i]));
        let j = choose|j: int| 0 <= j < b.len() && b[j] == a[i];
        assert(a[j] == a[i]);
        assert(before(o, a[j], a[i]));
        lemma_before(o, a[i], a[i], a[i]);
    }
    assert(a =~= b);
}

/// What the orders go by: the sequence number alone; the key, and for one key the time;
/// or these and, for one key and time, the sequence number.
pub proof fn law_orders(a: InternalRecordView, b: InternalRecordView)
    ensures
        before(SortOrder::Sequence, a, b) <==> a.seq < b.seq,
        a.key != b.key ==> (before(SortOrder::KeyTs, a, b) <==> bytes::lex_lt(a.key, b.key)),
        a.key != b.key ==> (before(SortOrder::KeyTsSeq, a, b) <==> bytes::lex_lt(a.key, b.key)),
        a.key == b.key ==> (before(SortOrder::KeyTs, a, b) <==> a.ts < b.ts),
        a.key == b.key && a.ts != b.ts ==> (before(SortOrder::KeyTsSeq, a, b) <==> a.ts < b.ts),
        a.key == b.key && a.ts == b.ts ==> (before(SortOrder::KeyTsSeq, a, b) <==> a.seq < b.seq),
{
    bytes::lemma_lex_irreflexive(a.key);
}

/// Sorting keeps the order of rows that it does not tell apart: of two such rows the one
/// that stood first stands first.
pub proof fn law_sort_stable(
    records: &Vec<InternalRecord>,
    order: SortOrder,
    out: Vec<InternalRecord>,
    x: int,
    y: int,
)
    requires
        call_ensures(sort_records, (records, order), out),
        0 <= x < y < records.len(),
        !before(order, records@[y]@, records@[x]@),
    ensures
        exists|a: int, b: int|
            0 <= a < b < out.len() && (#[trigger] out@[a])@ == records@[x]@ && (
            #[trigger] out@[b])@ == records@[y]@,
{
    let input = record::views(records@);
    let output = record::views(out@);
    let p = choose|p: Seq<int>| #[trigger]
        lists_in_order(order, input, p, 0, input.len() as int) && permuted(input, p, output);
    assert(input.len() == records.len() && output.len() == out.len());
    assert(p.contains(x) && p.contains(y));
    let a = choose|a: int| 0 <= a < p.len() && p[a] == x;
    let b = choose|b: int| 0 <= b < p.len() && p[b] == y;
    assert(input[x] == records@[x]@ && input[y] == records@[y]@);
    if b < a {
        assert(row_before(order, input, p[b], p[a]));
    }
    assert(output[a] == out@[a]@ && output[b] == out@[b]@);
    assert(out@[a]@ == records@[x]@ && out@[b]@ == records@[y]@);
}

} // verus!
