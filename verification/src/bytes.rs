//! Byte strings: their lexicographic order and fixed-width integer encodings.

use vstd::prelude::*;

verus! {

/// The outcome of comparing two byte strings.
#[derive(Debug, Clone, Copy, PartialEq, Eq, Structural)]
pub enum KeyOrder {
    Less,
    Equal,
    Greater,
}

/// `a` comes strictly before `b` in lexicographic byte order.
pub open spec fn lex_lt(a: Seq<u8>, b: Seq<u8>) -> bool
    decreases a.len(),
{
    if b.len() == 0 {
        false
    } else if a.len() == 0 {
        true
    } else if a[0] != b[0] {
        a[0] < b[0]
    } else {
        lex_lt(a.drop_first(), b.drop_first())
    }
}

/// `a` comes before `b` in lexicographic byte order, or equals it.
pub open spec fn lex_le(a: Seq<u8>, b: Seq<u8>) -> bool {
    a == b || lex_lt(a, b)
}

/// `s` begins with `prefix`.
pub open spec fn has_prefix(s: Seq<u8>, prefix: Seq<u8>) -> bool {
    prefix.len() <= s.len() && s.subrange(0, prefix.len() as int) == prefix
}

/// No byte string comes before itself.
pub proof fn lemma_lex_irreflexive(a: Seq<u8>)
    ensures
        !lex_lt(a, a),
    decreases a.len(),
{
    if a.len() > 0 {
        lemma_lex_irreflexive(a.drop_first());
    }
}

/// The byte order is transitive.
pub proof fn lemma_lex_transitive(a: Seq<u8>, b: Seq<u8>, c: Seq<u8>)
    requires
        lex_lt(a, b),
        lex_lt(b, c),
    ensures
        lex_lt(a, c),
    decreases a.len(),
{
    if a.len() > 0 && b.len() > 0 && c.len() > 0 && a[0] == b[0] && b[0] == c[0] {
        lemma_lex_transitive(a.drop_first(), b.drop_first(), c.drop_first());
    }
}

/// Of two different byte strings one comes before the other, and only one does.
pub proof fn lemma_lex_total(a: Seq<u8>, b: Seq<u8>)
    ensures
        a == b || lex_lt(a, b) || lex_lt(b, a),
        !(lex_lt(a, b) && lex_lt(b, a)),
        a == b ==> !lex_lt(a, b) && !lex_lt(b, a),
    decreases a.len(),
{
    if a.len() > 0 && b.len() > 0 {
        lemma_lex_total(a.drop_first(), b.drop_first());
        if a[0] == b[0] && a.drop_first() == b.drop_first() {
            assert(a =~= seq![a[0]] + a.drop_first());
            assert(b =~= seq![b[0]] + b.drop_first());
        }
    } else if a.len() == 0 && b.len() == 0 {
        assert(a =~= b);
    }
    lemma_lex_irreflexive(a);
}

/// The reflexive order is transitive.
pub proof fn lemma_lex_le_transitive(a: Seq<u8>, b: Seq<u8>, c: Seq<u8>)
    requires
        lex_le(a, b),
        lex_le(b, c),
    ensures
        lex_le(a, c),
        lex_lt(a, b) || lex_lt(b, c) ==> lex_lt(a, c),
{
    if a != b && b != c {
        lemma_lex_transitive(a, b, c);
    }
}

/// Two strings that agree up to some point compare as what follows that point.
pub proof fn lemma_lex_skip(a: Seq<u8>, b: Seq<u8>, n: int)
    requires
        0 <= n <= a.len(),
        n <= b.len(),
        a.subrange(0, n) == b.subrange(0, n),
    ensures
        lex_lt(a, b) == lex_lt(a.skip(n), b.skip(n)),
    decreases n,
{
    if n == 0 {
        assert(a.skip(0) =~= a);
        assert(b.skip(0) =~= b);
    } else {
        assert(a.subrange(0, n)[0] == a[0] && b.subrange(0, n)[0] == b[0]);
        let ar = a.drop_first();
        let br = b.drop_first();
        assert forall|i: int| 0 <= i < n - 1 implies ar[i] == br[i] by {
            assert(a.subrange(0, n)[i + 1] == a[i + 1]);
            assert(b.subrange(0, n)[i + 1] == b[i + 1]);
        }
        assert(ar.subrange(0, n - 1) =~= br.subrange(0, n - 1));
        lemma_lex_skip(ar, br, n - 1);
        assert(ar.skip(n - 1) =~= a.skip(n));
        assert(br.skip(n - 1) =~= b.skip(n));
    }
}

/// Compares two byte strings lexicographically.
pub fn compare_bytes(a: &[u8], b: &[u8]) -> (r: KeyOrder)
    ensures
        r == KeyOrder::Less <==> lex_lt(a@, b@),
        r == KeyOrder::Equal <==> a@ == b@,
        r == KeyOrder::Greater <==> lex_lt(b@, a@),
{
    let mut i: usize = 0;
    while i < a.len() && i < b.len() && a[i] == b[i]
        invariant
            i <= a@.len(),
            i <= b@.len(),
            a@.subrange(0, i as int) == b@.subrange(0, i as int),
        decreases a@.len() - i,
    {
        assert(a@.subrange(0, i + 1) =~= a@.subrange(0, i as int).push(a@[i as int]));
        assert(b@.subrange(0, i + 1) =~= b@.subrange(0, i as int).push(b@[i as int]));
        i += 1;
    }
    proof {
        lemma_lex_total(a@, b@);
        lemma_lex_skip(a@, b@, i as int);
        assert(b@.subrange(0, i as int) == a@.subrange(0, i as int));
        lemma_lex_skip(b@, a@, i as int);
    }
    if i == a.len() && i == b.len() {
        assert(a@ =~= a@.subrange(0, i as int));
        assert(b@ =~= b@.subrange(0, i as int));
        KeyOrder::Equal
    } else if i == a.len() {
        KeyOrder::Less
    } else if i == b.len() {
        KeyOrder::Greater
    } else if a[i] < b[i] {
        KeyOrder::Less
    } else {
        KeyOrder::Greater
    }
}

/// Whether `a` comes strictly before `b`.
pub fn bytes_lt(a: &[u8], b: &[u8]) -> (r: bool)
    ensures
        r == lex_lt(a@, b@),
{
    matches!(compare_bytes(a, b), KeyOrder::Less)
}

/// Whether `a` comes before `b` or equals it.
pub fn bytes_le(a: &[u8], b: &[u8]) -> (r: bool)
    ensures
        r == lex_le(a@, b@),
{
    proof {
        lemma_lex_total(a@, b@);
    }
    !matches!(compare_bytes(a, b), KeyOrder::Greater)
}

/// Whether `a` and `b` hold the same bytes.
pub fn bytes_eq(a: &[u8], b: &[u8]) -> (r: bool)
    ensures
        r == (a@ == b@),
{
    matches!(compare_bytes(a, b), KeyOrder::Equal)
}

/// Whether `s` begins with `prefix`.
pub fn starts_with(s: &[u8], prefix: &[u8]) -> (r: bool)
    ensures
        r == has_prefix(s@, prefix@),
{
    if s.len() < prefix.len() {
        return false;
    }
    bytes_eq(vstd::slice::slice_subrange(s, 0, prefix.len()), prefix)
}

/// A copy of the bytes of `data` from `from` up to `to`.
pub fn copy_range(data: &[u8], from: usize, to: usize) -> (r: Vec<u8>)
    requires
        from <= to <= data@.len(),
    ensures
        r@ == data@.subrange(from as int, to as int),
{
    vstd::slice::slice_to_vec(vstd::slice::slice_subrange(data, from, to))
}

/// A copy of `data`.
pub fn copy_bytes(data: &[u8]) -> (r: Vec<u8>)
    ensures
        r@ == data@,
{
    vstd::slice::slice_to_vec(data)
}

/// Appends `data` to `buf`.
pub fn append_bytes(buf: &mut Vec<u8>, data: &[u8])
    ensures
        final(buf)@ == old(buf)@ + data@,
{
    buf.extend_from_slice(data);
    assert(buf@ =~= old(buf)@ + data@);
}

/// `256` to the power `n`.
pub open spec fn pow256(n: nat) -> nat
    decreases n,
{
    if n == 0 {
        1
    } else {
        256 * pow256((n - 1) as nat)
    }
}

/// The low `n` bytes of `x`, least significant byte first.
pub open spec fn le_bytes(x: nat, n: nat) -> Seq<u8>
    decreases n,
{
    if n == 0 {
        Seq::empty()
    } else {
        seq![(x % 256) as u8] + le_bytes(x / 256, (n - 1) as nat)
    }
}

/// The number whose bytes are `s`, least significant byte first.
pub open spec fn le_nat(s: Seq<u8>) -> nat
    decreases s.len(),
{
    if s.len() == 0 {
        0
    } else {
        s[0] as nat + 256 * le_nat(s.drop_first())
    }
}

/// The low `n` bytes of `x`, most significant byte first.
pub open spec fn be_bytes(x: nat, n: nat) -> Seq<u8>
    decreases n,
{
    if n == 0 {
        Seq::empty()
    } else {
        be_bytes(x / 256, (n - 1) as nat).push((x % 256) as u8)
    }
}

/// The number whose bytes are `s`, most significant byte first.
pub open spec fn be_nat(s: Seq<u8>) -> nat
    decreases s.len(),
{
    if s.len() == 0 {
        0
    } else {
        be_nat(s.drop_last()) * 256 + s.last() as nat
    }
}

/// `x` as an unsigned number in two's complement.
pub open spec fn twos(x: i64) -> nat {
    if x >= 0 {
        x as nat
    } else {
        (x + 0x1_0000_0000_0000_0000) as nat
    }
}

/// The signed number whose two's complement is `x`.
pub open spec fn untwos(x: nat) -> int {
    if x < 0x8000_0000_0000_0000 {
        x as int
    } else {
        x - 0x1_0000_0000_0000_0000
    }
}

/// What stands in the front of a list stands there when something follows.
pub proof fn lemma_front(front: Seq<u8>, rest: Seq<u8>, i: int, j: int)
    requires
        0 <= i <= j <= front.len(),
    ensures
        (front + rest).subrange(i, j) == front.subrange(i, j),
        (front + rest).skip(front.len() as int) == rest,
{
    assert((front + rest).subrange(i, j) =~= front.subrange(i, j));
    assert((front + rest).skip(front.len() as int) =~= rest);
}

/// What stands at the end of a list is found there.
pub proof fn lemma_back(front: Seq<u8>, back: Seq<u8>)
    ensures
        (front + back).subrange(front.len() as int, (front.len() + back.len()) as int) == back,
{
    assert((front + back).subrange(front.len() as int, (front.len() + back.len()) as int) =~= back);
}

/// Appending is associative.
pub proof fn lemma_append_assoc(a: Seq<u8>, b: Seq<u8>, c: Seq<u8>)
    ensures
        a + (b + c) == (a + b) + c,
{
    assert(a + (b + c) =~= (a + b) + c);
}

/// A part of a list that is made of two parts holds each of them.
pub proof fn lemma_two_parts(s: Seq<u8>, at: int, a: Seq<u8>, b: Seq<u8>)
    requires
        0 <= at,
        at + a.len() + b.len() <= s.len(),
        s.subrange(at, at + a.len() + b.len()) == a + b,
    ensures
        s.subrange(at, at + a.len()) == a,
        s.subrange(at + a.len(), at + a.len() + b.len()) == b,
{
    let both = s.subrange(at, at + a.len() + b.len());
    assert(s.subrange(at, at + a.len()) =~= both.subrange(0, a.len() as int));
    assert(both.subrange(0, a.len() as int) =~= a);
    assert(s.subrange(at + a.len(), at + a.len() + b.len()) =~= both.subrange(
        a.len() as int,
        both.len() as int,
    ));
    assert(both.subrange(a.len() as int, both.len() as int) =~= b);
}

/// Eight bytes hold every 64-bit number, and so on.
pub proof fn lemma_pow256_values()
    ensures
        pow256(1) == 0x100,
        pow256(2) == 0x1_0000,
        pow256(4) == 0x1_0000_0000,
        pow256(8) == 0x1_0000_0000_0000_0000,
{
    reveal_with_fuel(pow256, 9);
}

/// Powers of 256 grow with the exponent.
pub proof fn lemma_pow256_monotone(a: nat, b: nat)
    requires
        a <= b,
    ensures
        0 < pow256(a) <= pow256(b),
    decreases b,
{
    if b > 0 {
        if a < b {
            lemma_pow256_monotone(a, (b - 1) as nat);
        } else {
            lemma_pow256_monotone((a - 1) as nat, (b - 1) as nat);
        }
    }
}

/// `n` bytes hold a number below `256^n`.
pub proof fn lemma_le_nat_bound(s: Seq<u8>)
    ensures
        le_nat(s) < pow256(s.len()),
    decreases s.len(),
{
    if s.len() > 0 {
        lemma_le_nat_bound(s.drop_first());
    }
}

/// Encoding a decoded number gives the bytes back.
pub proof fn lemma_le_nat_encode(s: Seq<u8>)
    ensures
        le_bytes(le_nat(s), s.len()) == s,
    decreases s.len(),
{
    if s.len() > 0 {
        let rest = s.drop_first();
        lemma_le_nat_encode(rest);
        assert((s[0] as nat + 256 * le_nat(rest)) % 256 == s[0] as nat);
        assert((s[0] as nat + 256 * le_nat(rest)) / 256 == le_nat(rest));
        assert(seq![s[0]] + rest =~= s);
    } else {
        assert(le_bytes(le_nat(s), 0) =~= s);
    }
}

/// An encoding in `n` bytes has `n` bytes.
pub proof fn lemma_be_bytes_len(x: nat, n: nat)
    ensures
        be_bytes(x, n).len() == n,
    decreases n,
{
    if n > 0 {
        lemma_be_bytes_len(x / 256, (n - 1) as nat);
    }
}

/// Decoding an encoding gives the number back, if it fits.
pub proof fn lemma_be_round_trip(x: nat, n: nat)
    requires
        x < pow256(n),
    ensures
        be_bytes(x, n).len() == n,
        be_nat(be_bytes(x, n)) == x,
    decreases n,
{
    lemma_be_bytes_len(x, n);
    if n > 0 {
        let front = be_bytes(x / 256, (n - 1) as nat);
        lemma_be_round_trip(x / 256, (n - 1) as nat);
        assert(be_bytes(x, n).drop_last() =~= front);
    }
}

/// `n` bytes hold a number below `256^n`.
pub proof fn lemma_be_nat_bound(s: Seq<u8>)
    ensures
        be_nat(s) < pow256(s.len()),
    decreases s.len(),
{
    if s.len() > 0 {
        lemma_be_nat_bound(s.drop_last());
    }
}

/// Two's complement is undone by its inverse.
pub proof fn lemma_twos_round_trip(x: i64)
    ensures
        twos(x) < 0x1_0000_0000_0000_0000,
        untwos(twos(x)) == x,
{
}

/// Of two strings of one length the earlier one stays so, whatever is appended.
pub proof fn lemma_lex_append(a: Seq<u8>, b: Seq<u8>, x: Seq<u8>, y: Seq<u8>)
    requires
        a.len() == b.len(),
        lex_lt(a, b),
    ensures
        lex_lt(a + x, b + y),
    decreases a.len(),
{
    if a[0] == b[0] {
        lemma_lex_append(a.drop_first(), b.drop_first(), x, y);
        assert((a + x).drop_first() =~= a.drop_first() + x);
        assert((b + y).drop_first() =~= b.drop_first() + y);
    }
}

/// A common beginning does not matter.
pub proof fn lemma_lex_same_start(start: Seq<u8>, a: Seq<u8>, b: Seq<u8>)
    ensures
        lex_lt(start + a, start + b) == lex_lt(a, b),
{
    let n = start.len() as int;
    assert((start + a).subrange(0, n) =~= start);
    assert((start + b).subrange(0, n) =~= start);
    lemma_lex_skip(start + a, start + b, n);
    assert((start + a).skip(n) =~= a);
    assert((start + b).skip(n) =~= b);
}

/// Numbers written with the most significant byte first are in the order of
/// their bytes.
pub proof fn lemma_be_order(a: nat, b: nat, n: nat)
    requires
        a < b < pow256(n),
    ensures
        lex_lt(be_bytes(a, n), be_bytes(b, n)),
    decreases n,
{
    if n > 0 {
        let m = (n - 1) as nat;
        let x = seq![(a % 256) as u8];
        let y = seq![(b % 256) as u8];
        lemma_be_bytes_len(a / 256, m);
        lemma_be_bytes_len(b / 256, m);
        assert(be_bytes(a, n) =~= be_bytes(a / 256, m) + x);
        assert(be_bytes(b, n) =~= be_bytes(b / 256, m) + y);
        if a / 256 < b / 256 {
            assert(b / 256 < pow256(m));
            lemma_be_order(a / 256, b / 256, m);
            lemma_lex_append(be_bytes(a / 256, m), be_bytes(b / 256, m), x, y);
        } else {
            lemma_lex_same_start(be_bytes(a / 256, m), x, y);
        }
    }
}

/// Appends the low `n` bytes of `x`, least significant byte first.
pub fn push_le(buf: &mut Vec<u8>, x: u64, n: usize)
    ensures
        final(buf)@ == old(buf)@ + le_bytes(x as nat, n as nat),
{
    let mut y: u64 = x;
    let mut i: usize = 0;
    assert(buf@ + le_bytes(y as nat, n as nat) == old(buf)@ + le_bytes(x as nat, n as nat));
    while i < n
        invariant
            i <= n,
            buf@ + le_bytes(y as nat, (n - i) as nat) == old(buf)@ + le_bytes(x as nat, n as nat),
        decreases n - i,
    {
        let ghost before = buf@;
        let ghost rest = le_bytes((y / 256) as nat, (n - i - 1) as nat);
        buf.push((y % 256) as u8);
        assert(buf@ + rest =~= before + (seq![(y % 256) as u8] + rest));
        y = y / 256;
        i += 1;
    }
    assert(buf@ + le_bytes(y as nat, 0) =~= buf@);
}

/// Appends the low `n` bytes of `x`, most significant byte first.
pub fn push_be(buf: &mut Vec<u8>, x: u64, n: usize)
    ensures
        final(buf)@ == old(buf)@ + be_bytes(x as nat, n as nat),
    decreases n,
{
    if n == 0 {
        assert(buf@ =~= old(buf)@ + be_bytes(x as nat, 0));
    } else {
        push_be(buf, x / 256, n - 1);
        buf.push((x % 256) as u8);
        assert(buf@ =~= old(buf)@ + be_bytes(x as nat, n as nat));
    }
}

/// The number stored in `n` bytes at `pos`, least significant byte first.
pub fn read_le(data: &[u8], pos: usize, n: usize) -> (r: u64)
    requires
        n <= 8,
        pos + n <= data@.len(),
    ensures
        r == le_nat(data@.subrange(pos as int, pos + n)),
        r < pow256(n as nat),
{
    let mut v: u64 = 0;
    let mut i: usize = n;
    assert(data@.subrange(pos + n, pos + n) =~= Seq::<u8>::empty());
    while i > 0
        invariant
            i <= n <= 8,
            pos + n <= data.len(),
            v == le_nat(data@.subrange(pos + i, pos + n)),
        decreases i,
    {
        let ghost tail = data@.subrange(pos + i, pos + n);
        let ghost whole = data@.subrange(pos + i - 1, pos + n);
        proof {
            lemma_le_nat_bound(tail);
            lemma_le_nat_bound(whole);
            lemma_pow256_monotone(whole.len(), 8);
            lemma_pow256_values();
            assert(whole.drop_first() =~= tail);
        }
        v = v * 256 + data[pos + i - 1] as u64;
        i -= 1;
    }
    proof {
        lemma_le_nat_bound(data@.subrange(pos as int, pos + n));
    }
    v
}

/// The number stored in `n` bytes at `pos`, most significant byte first.
pub fn read_be(data: &[u8], pos: usize, n: usize) -> (r: u64)
    requires
        n <= 8,
        pos + n <= data@.len(),
    ensures
        r == be_nat(data@.subrange(pos as int, pos + n)),
        r < pow256(n as nat),
{
    let mut v: u64 = 0;
    let mut i: usize = 0;
    assert(data@.subrange(pos as int, pos as int) =~= Seq::<u8>::empty());
    while i < n
        invariant
            i <= n <= 8,
            pos + n <= data.len(),
            v == be_nat(data@.subrange(pos as int, pos + i)),
        decreases n - i,
    {
        let ghost whole = data@.subrange(pos as int, pos + i + 1);
        proof {
            lemma_be_nat_bound(whole);
            lemma_pow256_monotone(whole.len(), 8);
            lemma_pow256_values();
            assert(whole.drop_last() =~= data@.subrange(pos as int, pos + i));
        }
        v = v * 256 + data[pos + i] as u64;
        i += 1;
    }
    proof {
        lemma_be_nat_bound(data@.subrange(pos as int, pos + n));
    }
    v
}

/// `x` as an unsigned number in two's complement.
pub fn i64_to_u64(x: i64) -> (r: u64)
    ensures
        r == twos(x),
{
    if x >= 0 {
        x as u64
    } else {
        (x as i128 + 0x1_0000_0000_0000_0000i128) as u64
    }
}

/// The signed number whose two's complement is `x`.
pub fn u64_to_i64(x: u64) -> (r: i64)
    ensures
        r == untwos(x as nat),
{
    if x < 0x8000_0000_0000_0000 {
        x as i64
    } else {
        (x as i128 - 0x1_0000_0000_0000_0000i128) as i64
    }
}

/// One byte string comes before another where, behind a common start, it ends or has the
/// smaller byte.
pub proof fn law_lex_order(a: Seq<u8>, b: Seq<u8>)
    ensures
        lex_lt(a, b) <==> exists|n: int|
            0 <= n <= a.len() && n < b.len() && #[trigger] a.take(n) == b.take(n) && (n == a.len()
                || a[n] < b[n]),
    decreases a.len(),
{
    if lex_lt(a, b) {
        let n = lemma_lex_difference(a, b);
        assert(a.take(n) == b.take(n));
    }
    if exists|n: int|
        0 <= n <= a.len() && n < b.len() && #[trigger] a.take(n) == b.take(n) && (n == a.len()
            || a[n] < b[n]) {
        let n = choose|n: int|
            0 <= n <= a.len() && n < b.len() && #[trigger] a.take(n) == b.take(n) && (n == a.len()
                || a[n] < b[n]);
        assert(a.take(n) =~= a.subrange(0, n));
        assert(b.take(n) =~= b.subrange(0, n));
        lemma_lex_skip(a, b, n);
        let x = a.skip(n);
        let y = b.skip(n);
        assert(y.len() > 0);
        if x.len() > 0 {
            assert(x[0] == a[n] && y[0] == b[n]);
        }
    }
}

/// Where two byte strings differ first.
proof fn lemma_lex_difference(a: Seq<u8>, b: Seq<u8>) -> (n: int)
    requires
        lex_lt(a, b),
    ensures
        0 <= n <= a.len() && n < b.len(),
        a.take(n) == b.take(n),
        n == a.len() || a[n] < b[n],
    decreases a.len(),
{
    if a.len() == 0 || a[0] != b[0] {
        assert(a.take(0) =~= b.take(0));
        0
    } else {
        let n = lemma_lex_difference(a.drop_first(), b.drop_first());
        assert(a.take(n + 1) =~= seq![a[0]] + a.drop_first().take(n));
        assert(b.take(n + 1) =~= seq![b[0]] + b.drop_first().take(n));
        n + 1
    }
}

/// A byte string begins with a prefix where it is the prefix and something behind it.
pub proof fn law_prefix(s: Seq<u8>, prefix: Seq<u8>)
    ensures
        has_prefix(s, prefix) <==> exists|rest: Seq<u8>| s == #[trigger] (prefix + rest),
{
    if has_prefix(s, prefix) {
        let rest = s.skip(prefix.len() as int);
        assert(s =~= prefix + rest);
    }
    if exists|rest: Seq<u8>| s == #[trigger] (prefix + rest) {
        let rest = choose|rest: Seq<u8>| s == #[trigger] (prefix + rest);
        assert(s.subrange(0, prefix.len() as int) =~= prefix);
    }
}

} // verus!
