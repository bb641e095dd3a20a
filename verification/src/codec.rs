//! Lists of items that are written one after another.

use vstd::prelude::*;

verus! {

/// The encodings of the items, one after another.
pub open spec fn concat<R>(encode: spec_fn(R) -> Seq<u8>, items: Seq<R>) -> Seq<u8>
    decreases items.len(),
{
    if items.len() == 0 {
        Seq::empty()
    } else {
        concat(encode, items.drop_last()) + encode(items.last())
    }
}

/// Where a decoder reads one item back before what follows it, it reads a list
/// of items back before what follows them.
pub proof fn lemma_concat_read_back<R>(
    encode: spec_fn(R) -> Seq<u8>,
    decode: spec_fn(Seq<u8>) -> Seq<R>,
    fits: spec_fn(R) -> bool,
    items: Seq<R>,
    tail: Seq<u8>,
)
    requires
        forall|r: R, t: Seq<u8>| fits(r) ==> #[trigger] decode(encode(r) + t) == seq![r] + decode(t),
        forall|i: int| 0 <= i < items.len() ==> fits(#[trigger] items[i]),
    ensures
        decode(concat(encode, items) + tail) == items + decode(tail),
    decreases items.len(),
{
    if items.len() == 0 {
        assert(concat(encode, items) + tail =~= tail);
        assert(items + decode(tail) =~= decode(tail));
    } else {
        let front = items.drop_last();
        let last = items.last();
        assert(fits(items[items.len() - 1]));
        lemma_concat_read_back(encode, decode, fits, front, encode(last) + tail);
        assert(concat(encode, items) + tail =~= concat(encode, front) + (encode(last) + tail));
        assert(front + (seq![last] + decode(tail)) =~= items + decode(tail));
    }
}

/// Where the encoding of an item stands.
pub proof fn lemma_concat_part<R>(encode: spec_fn(R) -> Seq<u8>, items: Seq<R>, i: int)
    requires
        0 <= i < items.len(),
    ensures
        ({
            let at = concat(encode, items.take(i)).len() as int;
            let len = encode(items[i]).len();
            &&& concat(encode, items.take(i + 1)).len() == at + len
            &&& at + len <= concat(encode, items).len()
            &&& concat(encode, items).subrange(at, at + len) == encode(items[i])
        }),
    decreases items.len(),
{
    assert(items.take(i + 1).drop_last() =~= items.take(i));
    let front = items.drop_last();
    let at = concat(encode, items.take(i)).len() as int;
    let len = encode(items[i]).len();
    if i < items.len() - 1 {
        lemma_concat_part(encode, front, i);
        assert(front.take(i) =~= items.take(i));
        assert(concat(encode, items).subrange(at, at + len) =~= concat(encode, front).subrange(
            at,
            at + len,
        ));
    } else {
        assert(items.take(i + 1) =~= items);
        assert(concat(encode, items).subrange(at, at + len) =~= encode(items[i]));
    }
}

/// The encodings of two lists, one after the other.
pub proof fn lemma_concat_append<R>(encode: spec_fn(R) -> Seq<u8>, a: Seq<R>, b: Seq<R>)
    ensures
        concat(encode, a + b) == concat(encode, a) + concat(encode, b),
    decreases b.len(),
{
    if b.len() == 0 {
        assert(a + b =~= a);
        assert(concat(encode, a) + concat(encode, b) =~= concat(encode, a));
    } else {
        lemma_concat_append(encode, a, b.drop_last());
        assert((a + b).drop_last() =~= a + b.drop_last());
        assert(concat(encode, a + b) =~= concat(encode, a) + concat(encode, b));
    }
}

} // verus!
