//! What is written of a document tells the document.

use vstd::prelude::*;
use vstd::string::*;
use crate::jsondb::encoding;
use crate::jsondb::encoding::JsonValue;
use crate::jsondb::json;
use crate::jsondb::json::{json_entries, json_items, json_quoted, json_text};
use crate::text;

verus! {

/// What follows the same text is the same.
proof fn lemma_cancel(p: Seq<char>, x: Seq<char>, y: Seq<char>)
    requires
        p + x == p + y,
    ensures
        x == y,
{
    assert((p + x).skip(p.len() as int) =~= x);
    assert((p + y).skip(p.len() as int) =~= y);
}

/// Different digits have different characters, which are no sign.
proof fn lemma_digit_char(a: int, b: int)
    requires
        0 <= a < 16,
        0 <= b < 16,
    ensures
        text::digit_char(a) == text::digit_char(b) ==> a == b,
        text::digit_char(a) != '-',
        a < 10 ==> '0' <= text::digit_char(a) <= '9',
{
}

/// An escaped character tells the character, and where it ends.
proof fn lemma_char_told(c: char, d: char, p: Seq<char>, q: Seq<char>)
    requires
        json::escaped_char(c) + p == json::escaped_char(d) + q,
    ensures
        c == d,
        p == q,
{
    let x = json::escaped_char(c);
    let y = json::escaped_char(d);
    assert((x + p)[0] == x[0] && (y + q)[0] == y[0]);
    if x[0] == '\\' {
        assert((x + p)[1] == x[1] && (y + q)[1] == y[1]);
        if x[1] == 'u' {
            assert((x + p)[4] == x[4] && (y + q)[4] == y[4]);
            assert((x + p)[5] == x[5] && (y + q)[5] == y[5]);
            lemma_digit_char(c as u32 as int / 16, d as u32 as int / 16);
            lemma_digit_char(c as u32 as int % 16, d as u32 as int % 16);
            assert(c as u32 == d as u32);
            vstd::utf8::char_u32_cast(c, c as u32);
            vstd::utf8::char_u32_cast(d, d as u32);
        } else if x[1] != '"' && x[1] != '\\' {
            assert(c as u32 == d as u32);
            vstd::utf8::char_u32_cast(c, c as u32);
            vstd::utf8::char_u32_cast(d, d as u32);
        }
    }
    assert(c == d);
    lemma_cancel(x, p, q);
}

/// An escaped string tells the string, and where it ends.
proof fn lemma_escaped_told(s: Seq<char>, t: Seq<char>, u: Seq<char>, v: Seq<char>)
    requires
        json::escaped(s) + (seq!['"'] + u) == json::escaped(t) + (seq!['"'] + v),
    ensures
        s == t,
        u == v,
    decreases s.len(),
{
    let a = json::escaped(s) + (seq!['"'] + u);
    let b = json::escaped(t) + (seq!['"'] + v);
    if s.len() == 0 {
        assert(a =~= seq!['"'] + u);
        if t.len() > 0 {
            assert(b[0] == json::escaped_char(t[0])[0]);
            assert(a[0] == '"');
        }
        assert(b =~= seq!['"'] + v);
        lemma_cancel(seq!['"'], u, v);
        assert(s =~= t);
    } else if t.len() == 0 {
        assert(a[0] == json::escaped_char(s[0])[0]);
        assert(b[0] == '"');
    } else {
        let p = json::escaped(s.drop_first()) + (seq!['"'] + u);
        let q = json::escaped(t.drop_first()) + (seq!['"'] + v);
        assert(a =~= json::escaped_char(s[0]) + p);
        assert(b =~= json::escaped_char(t[0]) + q);
        lemma_char_told(s[0], t[0], p, q);
        lemma_escaped_told(s.drop_first(), t.drop_first(), u, v);
        assert(s =~= seq![s[0]] + s.drop_first());
        assert(t =~= seq![t[0]] + t.drop_first());
    }
}

/// A string in quotes tells the string, and where it ends.
pub proof fn law_quoted_told(s: Seq<char>, t: Seq<char>, u: Seq<char>, v: Seq<char>)
    requires
        json_quoted(s) + u == json_quoted(t) + v,
    ensures
        s == t,
        u == v,
{
    let a = json::escaped(s) + (seq!['"'] + u);
    let b = json::escaped(t) + (seq!['"'] + v);
    assert(json_quoted(s) + u =~= seq!['"'] + a);
    assert(json_quoted(t) + v =~= seq!['"'] + b);
    lemma_cancel(seq!['"'], a, b);
    lemma_escaped_told(s, t, u, v);
}

/// Whether a character can stand in a number.
pub open spec fn in_number(c: char) -> bool {
    '0' <= c <= '9' || c == '-' || c == '+' || c == '.' || c == 'e' || c == 'E'
}

/// Whether a character can stand in an integer.
pub open spec fn in_integer(c: char) -> bool {
    '0' <= c <= '9' || c == '-'
}

/// Whether the text is that of a number.
pub open spec fn is_number(s: Seq<char>) -> bool {
    &&& s.len() > 0
    &&& in_integer(s[0])
    &&& forall|i: int| 0 <= i < s.len() ==> in_number(#[trigger] s[i])
}

/// Whether the text is that of an integer.
pub open spec fn is_integer(s: Seq<char>) -> bool {
    &&& s.len() > 0
    &&& forall|i: int| 0 <= i < s.len() ==> in_integer(#[trigger] s[i])
}

/// Whether a number before the text ends there.
pub open spec fn ends_number(u: Seq<char>) -> bool {
    u.len() == 0 || !in_number(u[0])
}

/// A number tells where it ends.
proof fn lemma_number_told(x: Seq<char>, y: Seq<char>, u: Seq<char>, v: Seq<char>)
    requires
        is_number(x),
        is_number(y),
        ends_number(u),
        ends_number(v),
        x + u == y + v,
    ensures
        x == y,
        u == v,
{
    if x.len() < y.len() {
        assert((x + u)[x.len() as int] == u[0]);
        assert((y + v)[x.len() as int] == y[x.len() as int]);
    } else if y.len() < x.len() {
        assert((y + v)[y.len() as int] == v[0]);
        assert((x + u)[y.len() as int] == x[y.len() as int]);
    }
    assert(x.len() == y.len());
    assert forall|i: int| 0 <= i < x.len() implies x[i] == y[i] by {
        assert((x + u)[i] == x[i]);
        assert((y + v)[i] == y[i]);
    }
    assert(x =~= y);
    lemma_cancel(x, u, v);
}

/// Digits are digits, and tell the number.
proof fn lemma_digits_told(a: nat, b: nat)
    ensures
        text::digits(a, 10).len() > 0,
        forall|i: int|
            0 <= i < text::digits(a, 10).len() ==> '0' <= #[trigger] text::digits(a, 10)[i] <= '9',
        text::digits(a, 10) == text::digits(b, 10) ==> a == b,
    decreases a,
{
    let x = text::digits(a, 10);
    let y = text::digits(b, 10);
    lemma_digit_char(a as int % 10, b as int % 10);
    if a >= 10 {
        lemma_digits_told(a / 10, b / 10);
        assert(x.drop_last() =~= text::digits(a / 10, 10));
        assert(x.last() == text::digit_char(a as int % 10));
        assert(x.len() >= 2);
        assert forall|i: int| 0 <= i < x.len() implies '0' <= #[trigger] x[i] <= '9' by {
            if i < x.len() - 1 {
                assert(x[i] == text::digits(a / 10, 10)[i]);
            }
        }
    } else {
        assert(x[0] == text::digit_char(a as int));
        assert(a % 10 == a);
    }
    if x == y {
        if b >= 10 {
            lemma_digits_some(b / 10);
            assert(y.drop_last() =~= text::digits(b / 10, 10));
            assert(y.last() == text::digit_char(b as int % 10));
            assert(y.len() >= 2);
        } else {
            assert(y[0] == text::digit_char(b as int));
            assert(b % 10 == b);
        }
    }
}

proof fn lemma_digits_some(n: nat)
    ensures
        text::digits(n, 10).len() > 0,
    decreases n,
{
    if n >= 10 {
        lemma_digits_some(n / 10);
    }
}

/// An integer's text is that of an integer, and tells it.
pub proof fn law_integer_text_told(a: int, b: int)
    ensures
        is_integer(text::signed_text(a)),
        is_number(text::signed_text(a)),
        text::signed_text(a) == text::signed_text(b) ==> a == b,
{
    let x = text::signed_text(a);
    let y = text::signed_text(b);
    let m = if a < 0 {
        (-a) as nat
    } else {
        a as nat
    };
    let n = if b < 0 {
        (-b) as nat
    } else {
        b as nat
    };
    lemma_digits_told(m, n);
    lemma_digits_told(n, m);
    let d = text::digits(m, 10);
    let e = text::digits(n, 10);
    if a < 0 {
        assert(x =~= seq!['-'] + d);
        assert forall|i: int| 0 <= i < x.len() implies in_integer(#[trigger] x[i]) by {
            if i > 0 {
                assert(x[i] == d[i - 1]);
            }
        }
    } else {
        assert(x == d);
        assert forall|i: int| 0 <= i < x.len() implies in_integer(#[trigger] x[i]) by {
            assert('0' <= d[i] <= '9');
        }
    }
    assert(is_number(x)) by {
        assert(in_integer(x[0]));
        assert forall|i: int| 0 <= i < x.len() implies in_number(#[trigger] x[i]) by {
            assert(in_integer(x[i]));
        }
    }
    if x == y {
        if a < 0 && b < 0 {
            assert(y =~= seq!['-'] + e);
            lemma_cancel(seq!['-'], d, e);
        } else if a < 0 {
            assert(y[0] == '-');
            assert('0' <= e[0] <= '9');
        } else if b < 0 {
            assert(y[0] == '-');
            assert('0' <= d[0] <= '9');
        }
    }
}

/// Whether a document is as parsing gives it: a number that is held without a sign is
/// too large to be held with one, and the text of a number that is no integer is that of
/// such a number and tells it, by `reads`.
pub open spec fn as_parsed(doc: JsonValue, reads: spec_fn(Seq<char>) -> u64) -> bool
    decreases doc,
{
    match doc {
        JsonValue::UInt(n) => n > i64::MAX,
        JsonValue::Float { bits, text } => is_number(text@) && !is_integer(text@) && bits == reads(
            text@,
        ),
        JsonValue::Array { items } => forall|i: int|
            0 <= i < items@.len() ==> as_parsed(#[trigger] items@[i], reads),
        JsonValue::Object { entries } => forall|i: int|
            0 <= i < entries@.len() ==> as_parsed((#[trigger] entries@[i]).1, reads),
        _ => true,
    }
}

/// What a value's text begins with.
pub open spec fn first_char(doc: JsonValue) -> char {
    json_text(doc)[0]
}

/// The first character of a value's text tells its kind, and ends no list.
proof fn lemma_first_char(doc: JsonValue, reads: spec_fn(Seq<char>) -> u64)
    requires
        as_parsed(doc, reads),
    ensures
        json_text(doc).len() > 0,
        match doc {
            JsonValue::Null => first_char(doc) == 'n',
            JsonValue::Bool(true) => first_char(doc) == 't',
            JsonValue::Bool(false) => first_char(doc) == 'f',
            JsonValue::Str(_) => first_char(doc) == '"',
            JsonValue::Array { .. } => first_char(doc) == '[',
            JsonValue::Object { .. } => first_char(doc) == '{',
            _ => in_integer(first_char(doc)) && is_number(json_text(doc)),
        },
        first_char(doc) != ']' && first_char(doc) != '}' && first_char(doc) != ',',
{
    reveal_strlit("null");
    reveal_strlit("true");
    reveal_strlit("false");
    reveal_strlit("[");
    reveal_strlit("{");
    match doc {
        JsonValue::Int(n) => {
            law_integer_text_told(n as int, 0);
        },
        JsonValue::UInt(n) => {
            law_integer_text_told(n as int, 0);
        },
        _ => {},
    }
}

/// The text of the items from `k` on, each behind a comma.
spec fn items_from(items: Seq<JsonValue>, k: int, n: int) -> Seq<char>
    decreases n - k,
{
    if k >= n {
        Seq::empty()
    } else {
        seq![','] + (json_text(items[k]) + items_from(items, k + 1, n))
    }
}

proof fn lemma_items_from_last(items: Seq<JsonValue>, k: int, n: int)
    requires
        0 <= k < n,
    ensures
        items_from(items, k, n) == items_from(items, k, n - 1) + (seq![','] + json_text(
            items[n - 1],
        )),
    decreases n - k,
{
    if k == n - 1 {
        assert(items_from(items, k + 1, n) =~= Seq::<char>::empty());
        assert(items_from(items, k, n) =~= seq![','] + json_text(items[k]));
        assert(items_from(items, k, n - 1) =~= Seq::<char>::empty());
    } else {
        lemma_items_from_last(items, k + 1, n);
        assert(items_from(items, k, n) =~= items_from(items, k, n - 1) + (seq![','] + json_text(
            items[n - 1],
        )));
    }
}

/// A list is its first item, and the others behind commas.
proof fn lemma_items_front(items: Seq<JsonValue>, n: nat)
    requires
        1 <= n <= items.len(),
    ensures
        json_items(items, n) == json_text(items[0]) + items_from(items, 1, n as int),
    decreases n,
{
    reveal_strlit(",");
    assert(","@ =~= seq![',']);
    if n == 1 {
        assert(items_from(items, 1, 1) =~= Seq::<char>::empty());
        assert(json_items(items, n) =~= json_text(items[0]) + items_from(items, 1, 1));
    } else {
        lemma_items_front(items, (n - 1) as nat);
        lemma_items_from_last(items, 1, n as int);
        assert(json_items(items, n) =~= json_text(items[0]) + items_from(items, 1, n as int));
    }
}

/// The text of the entry.
spec fn entry_text(entry: (String, JsonValue)) -> Seq<char> {
    json_quoted(entry.0@) + (seq![':'] + json_text(entry.1))
}

/// The text of the entries from `k` on, each behind a comma.
spec fn entries_from(entries: Seq<(String, JsonValue)>, k: int, n: int) -> Seq<char>
    decreases n - k,
{
    if k >= n {
        Seq::empty()
    } else {
        seq![','] + (entry_text(entries[k]) + entries_from(entries, k + 1, n))
    }
}

proof fn lemma_entries_from_last(entries: Seq<(String, JsonValue)>, k: int, n: int)
    requires
        0 <= k < n,
    ensures
        entries_from(entries, k, n) == entries_from(entries, k, n - 1) + (seq![','] + entry_text(
            entries[n - 1],
        )),
    decreases n - k,
{
    if k == n - 1 {
        assert(entries_from(entries, k + 1, n) =~= Seq::<char>::empty());
        assert(entries_from(entries, k, n) =~= seq![','] + entry_text(entries[k]));
        assert(entries_from(entries, k, n - 1) =~= Seq::<char>::empty());
    } else {
        lemma_entries_from_last(entries, k + 1, n);
        assert(entries_from(entries, k, n) =~= entries_from(entries, k, n - 1) + (seq![',']
            + entry_text(entries[n - 1])));
    }
}

/// The entries of an object are its first entry, and the others behind commas.
proof fn lemma_entries_front(entries: Seq<(String, JsonValue)>, n: nat)
    requires
        1 <= n <= entries.len(),
    ensures
        json_entries(entries, n) == entry_text(entries[0]) + entries_from(entries, 1, n as int),
    decreases n,
{
    reveal_strlit(",");
    reveal_strlit(":");
    assert(","@ =~= seq![',']);
    assert(":"@ =~= seq![':']);
    let last = entries[n - 1];
    assert(json_quoted(last.0@) + ":"@ + json_text(last.1) =~= entry_text(last));
    if n == 1 {
        assert(entries_from(entries, 1, 1) =~= Seq::<char>::empty());
        assert(json_entries(entries, n) =~= entry_text(entries[0]) + entries_from(entries, 1, 1));
    } else {
        lemma_entries_front(entries, (n - 1) as nat);
        lemma_entries_from_last(entries, 1, n as int);
        assert(json_entries(entries, n) =~= entry_text(entries[0]) + entries_from(
            entries,
            1,
            n as int,
        ));
    }
}

/// What comes behind an item of a list ends a number.
proof fn lemma_item_ends(items: Seq<JsonValue>, k: int, u: Seq<char>)
    ensures
        ends_number(items_from(items, k, items.len() as int) + (seq![']'] + u)),
{
    let rest = items_from(items, k, items.len() as int);
    let all = rest + (seq![']'] + u);
    if k < items.len() {
        assert(all[0] == ',');
    } else {
        assert(all[0] == ']');
    }
}

/// What comes behind an entry of an object ends a number.
proof fn lemma_entry_ends(entries: Seq<(String, JsonValue)>, k: int, u: Seq<char>)
    ensures
        ends_number(entries_from(entries, k, entries.len() as int) + (seq!['}'] + u)),
{
    let rest = entries_from(entries, k, entries.len() as int);
    let all = rest + (seq!['}'] + u);
    if k < entries.len() {
        assert(all[0] == ',');
    } else {
        assert(all[0] == '}');
    }
}

/// Items behind commas tell the items, and where the list ends.
proof fn lemma_items_told(
    x: Seq<JsonValue>,
    y: Seq<JsonValue>,
    k: int,
    u: Seq<char>,
    v: Seq<char>,
    reads: spec_fn(Seq<char>) -> u64,
)
    requires
        0 <= k <= x.len(),
        k <= y.len(),
        forall|i: int| 0 <= i < x.len() ==> as_parsed(#[trigger] x[i], reads),
        forall|i: int| 0 <= i < y.len() ==> as_parsed(#[trigger] y[i], reads),
        items_from(x, k, x.len() as int) + (seq![']'] + u) == items_from(y, k, y.len() as int) + (
        seq![']'] + v),
    ensures
        x.len() == y.len(),
        u == v,
        forall|i: int| k <= i < x.len() ==> encoding::same_value(#[trigger] x[i], y[i]),
    decreases x, x.len() - k,
{
    let a = items_from(x, k, x.len() as int) + (seq![']'] + u);
    let b = items_from(y, k, y.len() as int) + (seq![']'] + v);
    if k == x.len() {
        assert(a =~= seq![']'] + u);
        if k < y.len() {
            assert(b[0] == ',');
            assert(a[0] == ']');
        }
        assert(b =~= seq![']'] + v);
        lemma_cancel(seq![']'], u, v);
    } else if k == y.len() {
        assert(a[0] == ',');
        assert(b =~= seq![']'] + v);
        assert(b[0] == ']');
    } else {
        let p = items_from(x, k + 1, x.len() as int) + (seq![']'] + u);
        let q = items_from(y, k + 1, y.len() as int) + (seq![']'] + v);
        assert(a =~= seq![','] + (json_text(x[k]) + p));
        assert(b =~= seq![','] + (json_text(y[k]) + q));
        lemma_cancel(seq![','], json_text(x[k]) + p, json_text(y[k]) + q);
        lemma_item_ends(x, k + 1, u);
        lemma_item_ends(y, k + 1, v);
        lemma_text_told(x[k], y[k], p, q, reads);
        lemma_items_told(x, y, k + 1, u, v, reads);
    }
}

/// An entry tells its name and its value, and where it ends.
proof fn lemma_entry_told(
    x: Seq<(String, JsonValue)>,
    y: Seq<(String, JsonValue)>,
    k: int,
    p: Seq<char>,
    q: Seq<char>,
    reads: spec_fn(Seq<char>) -> u64,
)
    requires
        0 <= k < x.len(),
        k < y.len(),
        as_parsed(x[k].1, reads),
        as_parsed(y[k].1, reads),
        ends_number(p),
        ends_number(q),
        entry_text(x[k]) + p == entry_text(y[k]) + q,
    ensures
        x[k].0@ == y[k].0@,
        encoding::same_value(x[k].1, y[k].1),
        p == q,
    decreases x, 0int,
{
    let a = seq![':'] + (json_text(x[k].1) + p);
    let b = seq![':'] + (json_text(y[k].1) + q);
    assert(entry_text(x[k]) + p =~= json_quoted(x[k].0@) + a);
    assert(entry_text(y[k]) + q =~= json_quoted(y[k].0@) + b);
    law_quoted_told(x[k].0@, y[k].0@, a, b);
    lemma_cancel(seq![':'], json_text(x[k].1) + p, json_text(y[k].1) + q);
    assert(decreases_to!(x => x[k]));
    assert(decreases_to!(x[k] => x[k].1));
    lemma_text_told(x[k].1, y[k].1, p, q, reads);
}

/// Entries behind commas tell the entries, and where the object ends.
proof fn lemma_entries_told(
    x: Seq<(String, JsonValue)>,
    y: Seq<(String, JsonValue)>,
    k: int,
    u: Seq<char>,
    v: Seq<char>,
    reads: spec_fn(Seq<char>) -> u64,
)
    requires
        0 <= k <= x.len(),
        k <= y.len(),
        forall|i: int| 0 <= i < x.len() ==> as_parsed((#[trigger] x[i]).1, reads),
        forall|i: int| 0 <= i < y.len() ==> as_parsed((#[trigger] y[i]).1, reads),
        entries_from(x, k, x.len() as int) + (seq!['}'] + u) == entries_from(y, k, y.len() as int)
            + (seq!['}'] + v),
    ensures
        x.len() == y.len(),
        u == v,
        forall|i: int|
            k <= i < x.len() ==> (#[trigger] x[i]).0@ == y[i].0@ && encoding::same_value(
                x[i].1,
                y[i].1,
            ),
    decreases x, x.len() - k + 1,
{
    let a = entries_from(x, k, x.len() as int) + (seq!['}'] + u);
    let b = entries_from(y, k, y.len() as int) + (seq!['}'] + v);
    if k == x.len() {
        assert(a =~= seq!['}'] + u);
        if k < y.len() {
            assert(b[0] == ',');
            assert(a[0] == '}');
        }
        assert(b =~= seq!['}'] + v);
        lemma_cancel(seq!['}'], u, v);
    } else if k == y.len() {
        assert(a[0] == ',');
        assert(b =~= seq!['}'] + v);
        assert(b[0] == '}');
    } else {
        let p = entries_from(x, k + 1, x.len() as int) + (seq!['}'] + u);
        let q = entries_from(y, k + 1, y.len() as int) + (seq!['}'] + v);
        assert(a =~= seq![','] + (entry_text(x[k]) + p));
        assert(b =~= seq![','] + (entry_text(y[k]) + q));
        lemma_cancel(seq![','], entry_text(x[k]) + p, entry_text(y[k]) + q);
        lemma_entry_ends(x, k + 1, u);
        lemma_entry_ends(y, k + 1, v);
        lemma_entry_told(x, y, k, p, q, reads);
        lemma_entries_told(x, y, k + 1, u, v, reads);
    }
}

/// A list in brackets tells the items, and where it ends.
proof fn lemma_array_told(
    x: Seq<JsonValue>,
    y: Seq<JsonValue>,
    u: Seq<char>,
    v: Seq<char>,
    reads: spec_fn(Seq<char>) -> u64,
)
    requires
        forall|i: int| 0 <= i < x.len() ==> as_parsed(#[trigger] x[i], reads),
        forall|i: int| 0 <= i < y.len() ==> as_parsed(#[trigger] y[i], reads),
        json_items(x, x.len()) + (seq![']'] + u) == json_items(y, y.len()) + (seq![']'] + v),
    ensures
        x.len() == y.len(),
        u == v,
        forall|i: int| 0 <= i < x.len() ==> encoding::same_value(#[trigger] x[i], y[i]),
    decreases x, x.len() + 1,
{
    let a = json_items(x, x.len()) + (seq![']'] + u);
    let b = json_items(y, y.len()) + (seq![']'] + v);
    if x.len() == 0 {
        assert(a =~= seq![']'] + u);
        if y.len() > 0 {
            lemma_items_front(y, y.len());
            lemma_first_char(y[0], reads);
            assert(b[0] == json_text(y[0])[0]);
            assert(a[0] == ']');
        }
        assert(b =~= seq![']'] + v);
        lemma_cancel(seq![']'], u, v);
    } else if y.len() == 0 {
        lemma_items_front(x, x.len());
        lemma_first_char(x[0], reads);
        assert(a[0] == json_text(x[0])[0]);
        assert(b =~= seq![']'] + v);
        assert(b[0] == ']');
    } else {
        lemma_items_front(x, x.len());
        lemma_items_front(y, y.len());
        let p = items_from(x, 1, x.len() as int) + (seq![']'] + u);
        let q = items_from(y, 1, y.len() as int) + (seq![']'] + v);
        assert(a =~= json_text(x[0]) + p);
        assert(b =~= json_text(y[0]) + q);
        lemma_item_ends(x, 1, u);
        lemma_item_ends(y, 1, v);
        lemma_text_told(x[0], y[0], p, q, reads);
        lemma_items_told(x, y, 1, u, v, reads);
    }
}

/// Entries in braces tell the entries, and where they end.
proof fn lemma_object_told(
    x: Seq<(String, JsonValue)>,
    y: Seq<(String, JsonValue)>,
    u: Seq<char>,
    v: Seq<char>,
    reads: spec_fn(Seq<char>) -> u64,
)
    requires
        forall|i: int| 0 <= i < x.len() ==> as_parsed((#[trigger] x[i]).1, reads),
        forall|i: int| 0 <= i < y.len() ==> as_parsed((#[trigger] y[i]).1, reads),
        json_entries(x, x.len()) + (seq!['}'] + u) == json_entries(y, y.len()) + (seq!['}'] + v),
    ensures
        x.len() == y.len(),
        u == v,
        forall|i: int|
            0 <= i < x.len() ==> (#[trigger] x[i]).0@ == y[i].0@ && encoding::same_value(
                x[i].1,
                y[i].1,
            ),
    decreases x, x.len() + 2,
{
    let a = json_entries(x, x.len()) + (seq!['}'] + u);
    let b = json_entries(y, y.len()) + (seq!['}'] + v);
    if x.len() == 0 {
        assert(a =~= seq!['}'] + u);
        if y.len() > 0 {
            lemma_entries_front(y, y.len());
            assert(b[0] == '"');
            assert(a[0] == '}');
        }
        assert(b =~= seq!['}'] + v);
        lemma_cancel(seq!['}'], u, v);
    } else if y.len() == 0 {
        lemma_entries_front(x, x.len());
        assert(a[0] == '"');
        assert(b =~= seq!['}'] + v);
        assert(b[0] == '}');
    } else {
        lemma_entries_front(x, x.len());
        lemma_entries_front(y, y.len());
        let p = entries_from(x, 1, x.len() as int) + (seq!['}'] + u);
        let q = entries_from(y, 1, y.len() as int) + (seq!['}'] + v);
        assert(a =~= entry_text(x[0]) + p);
        assert(b =~= entry_text(y[0]) + q);
        lemma_entry_ends(x, 1, u);
        lemma_entry_ends(y, 1, v);
        assert(as_parsed(x[0].1, reads) && as_parsed(y[0].1, reads));
        lemma_entry_told(x, y, 0, p, q, reads);
        lemma_entries_told(x, y, 1, u, v, reads);
    }
}

/// The text of a number tells the number, and where it ends.
proof fn lemma_number_value_told(
    a: JsonValue,
    b: JsonValue,
    u: Seq<char>,
    v: Seq<char>,
    reads: spec_fn(Seq<char>) -> u64,
)
    requires
        as_parsed(a, reads),
        as_parsed(b, reads),
        a is Int || a is UInt || a is Float,
        b is Int || b is UInt || b is Float,
        ends_number(u),
        ends_number(v),
        json_text(a) + u == json_text(b) + v,
    ensures
        encoding::same_value(a, b),
        u == v,
{
    lemma_first_char(a, reads);
    lemma_first_char(b, reads);
    lemma_number_told(json_text(a), json_text(b), u, v);
    let m = match a {
        JsonValue::Int(n) => n as int,
        JsonValue::UInt(n) => n as int,
        _ => 0,
    };
    let n = match b {
        JsonValue::Int(n) => n as int,
        JsonValue::UInt(n) => n as int,
        _ => 0,
    };
    law_integer_text_told(m, n);
    law_integer_text_told(n, m);
}

/// The text of a value tells the value, and where it ends.
proof fn lemma_text_told(
    a: JsonValue,
    b: JsonValue,
    u: Seq<char>,
    v: Seq<char>,
    reads: spec_fn(Seq<char>) -> u64,
)
    requires
        as_parsed(a, reads),
        as_parsed(b, reads),
        ends_number(u),
        ends_number(v),
        json_text(a) + u == json_text(b) + v,
    ensures
        encoding::same_value(a, b),
        u == v,
    decreases a, 0int,
{
    lemma_first_char(a, reads);
    lemma_first_char(b, reads);
    assert((json_text(a) + u)[0] == first_char(a));
    assert((json_text(b) + v)[0] == first_char(b));
    reveal_strlit("[");
    reveal_strlit("]");
    reveal_strlit("{");
    reveal_strlit("}");
    assert("["@ =~= seq!['['] && "]"@ =~= seq![']']);
    assert("{"@ =~= seq!['{'] && "}"@ =~= seq!['}']);
    match (a, b) {
        (JsonValue::Str(s), JsonValue::Str(t)) => {
            law_quoted_told(s@, t@, u, v);
        },
        (JsonValue::Array { items: x }, JsonValue::Array { items: y }) => {
            let p = json_items(x@, x@.len()) + (seq![']'] + u);
            let q = json_items(y@, y@.len()) + (seq![']'] + v);
            assert(json_text(a) + u =~= seq!['['] + p);
            assert(json_text(b) + v =~= seq!['['] + q);
            lemma_cancel(seq!['['], p, q);
            lemma_array_told(x@, y@, u, v, reads);
        },
        (JsonValue::Object { entries: x }, JsonValue::Object { entries: y }) => {
            let p = json_entries(x@, x@.len()) + (seq!['}'] + u);
            let q = json_entries(y@, y@.len()) + (seq!['}'] + v);
            assert(json_text(a) + u =~= seq!['{'] + p);
            assert(json_text(b) + v =~= seq!['{'] + q);
            lemma_cancel(seq!['{'], p, q);
            lemma_object_told(x@, y@, u, v, reads);
        },
        (JsonValue::Null, JsonValue::Null) => {
            lemma_cancel(json_text(a), u, v);
        },
        (JsonValue::Bool(x), JsonValue::Bool(y)) => {
            assert(x == y);
            lemma_cancel(json_text(a), u, v);
        },
        _ => {
            lemma_number_value_told(a, b, u, v, reads);
        },
    }
}

/// What is written of a document tells it: documents that are written the same are the
/// same.
pub proof fn law_text_tells_document(
    a: JsonValue,
    b: JsonValue,
    reads: spec_fn(Seq<char>) -> u64,
)
    requires
        as_parsed(a, reads),
        as_parsed(b, reads),
        json_text(a) == json_text(b),
    ensures
        encoding::same_value(a, b),
{
    let none = Seq::<char>::empty();
    assert(json_text(a) + none =~= json_text(a));
    assert(json_text(b) + none =~= json_text(b));
    lemma_text_told(a, b, none, none, reads);
}

/// The bytes that a document is stored as tell it: documents that are stored as the same
/// bytes are the same.
pub proof fn law_bytes_tell_document(
    a: JsonValue,
    b: JsonValue,
    reads: spec_fn(Seq<char>) -> u64,
)
    requires
        as_parsed(a, reads),
        as_parsed(b, reads),
        text::utf8(json_text(a)) == text::utf8(json_text(b)),
    ensures
        encoding::same_value(a, b),
{
    vstd::utf8::encode_utf8_decode_utf8(json_text(a));
    vstd::utf8::encode_utf8_decode_utf8(json_text(b));
    law_text_tells_document(a, b, reads);
}

/// What JSON's escapes stand for: the character behind a backslash says which.
pub open spec fn unescaped(s: Seq<char>) -> Seq<char>
    decreases s.len(),
{
    if s.len() == 0 {
        Seq::empty()
    } else if s[0] != '\\' {
        seq![s[0]] + unescaped(s.drop_first())
    } else if s.len() >= 6 && s[1] == 'u' {
        seq![text::number_of(s.subrange(2, 6), 16) as char] + unescaped(s.skip(6))
    } else if s.len() >= 2 {
        seq![escape_meant(s[1])] + unescaped(s.skip(2))
    } else {
        Seq::empty()
    }
}

/// The character that a letter behind a backslash stands for.
pub open spec fn escape_meant(c: char) -> char {
    if c == 'b' {
        8u8 as char
    } else if c == 't' {
        9u8 as char
    } else if c == 'n' {
        10u8 as char
    } else if c == 'f' {
        12u8 as char
    } else if c == 'r' {
        13u8 as char
    } else {
        c
    }
}

proof fn lemma_char_unescaped(c: char, rest: Seq<char>)
    ensures
        unescaped(json::escaped_char(c) + rest) == seq![c] + unescaped(rest),
{
    let x = json::escaped_char(c);
    let all = x + rest;
    let n = c as u32;
    vstd::utf8::char_u32_cast(c, n);
    if x.len() == 1 {
        assert(all.drop_first() =~= rest);
        assert(all[0] == c);
    } else if x.len() == 2 {
        assert(all.skip(2) =~= rest);
        assert(all[0] == '\\' && all[1] == x[1]);
        assert(escape_meant(x[1]) == c);
    } else {
        assert(all.skip(6) =~= rest);
        assert(all[0] == '\\' && all[1] == 'u');
        let four = all.subrange(2, 6);
        assert(four =~= seq![
            '0',
            '0',
            text::digit_char(n as int / 16),
            text::digit_char(n as int % 16),
        ]);
        assert(four.drop_last().drop_last().drop_last().drop_last() =~= Seq::<char>::empty());
        assert(text::number_of(four.drop_last().drop_last().drop_last().drop_last(), 16) == 0);
        assert(text::number_of(four.drop_last().drop_last().drop_last(), 16) == 0);
        assert(text::number_of(four.drop_last().drop_last(), 16) == 0);
        assert(text::number_of(four.drop_last(), 16) == n as int / 16);
        assert(text::number_of(four, 16) == n as int);
    }
}

/// A string is read back from what is written of it: without the quotes, and with the
/// escapes taken for what they stand for, it is the string.
pub proof fn law_string_read_back(s: Seq<char>)
    ensures
        json_quoted(s).len() >= 2,
        json_quoted(s)[0] == '"',
        json_quoted(s).last() == '"',
        unescaped(json_quoted(s).subrange(1, json_quoted(s).len() - 1)) == s,
{
    let q = json_quoted(s);
    assert(q.subrange(1, q.len() - 1) =~= json::escaped(s));
    lemma_unescaped(s);
}

proof fn lemma_unescaped(s: Seq<char>)
    ensures
        unescaped(json::escaped(s)) == s,
    decreases s.len(),
{
    if s.len() == 0 {
        assert(unescaped(json::escaped(s)) =~= s);
    } else {
        lemma_unescaped(s.drop_first());
        lemma_char_unescaped(s[0], json::escaped(s.drop_first()));
        assert(s =~= seq![s[0]] + s.drop_first());
    }
}

/// What a value without parts is written as: a word, the digits of the integer, the text
/// of the number, or the string in quotes.
pub proof fn law_simple_text(doc: JsonValue)
    ensures
        match doc {
            JsonValue::Null => json_text(doc) == seq!['n', 'u', 'l', 'l'],
            JsonValue::Bool(b) => json_text(doc) == if b {
                seq!['t', 'r', 'u', 'e']
            } else {
                seq!['f', 'a', 'l', 's', 'e']
            },
            JsonValue::Int(n) => n >= 0 ==> text::number_of(json_text(doc), 10) == n,
            JsonValue::UInt(n) => text::number_of(json_text(doc), 10) == n,
            JsonValue::Float { text, .. } => json_text(doc) == text@,
            JsonValue::Str(s) => unescaped(
                json_text(doc).subrange(1, json_text(doc).len() - 1),
            ) == s@,
            _ => true,
        },
        doc matches JsonValue::Int(n) ==> n < 0 ==> json_text(doc)[0] == '-' && text::number_of(
            json_text(doc).skip(1),
            10,
        ) == -n,
{
    reveal_strlit("null");
    reveal_strlit("true");
    reveal_strlit("false");
    match doc {
        JsonValue::Null => {
            assert(json_text(doc) =~= seq!['n', 'u', 'l', 'l']);
        },
        JsonValue::Bool(b) => {
            if b {
                assert(json_text(doc) =~= seq!['t', 'r', 'u', 'e']);
            } else {
                assert(json_text(doc) =~= seq!['f', 'a', 'l', 's', 'e']);
            }
        },
        JsonValue::Int(n) => {
            if n >= 0 {
                text::law_digits_read_back(n as nat, 10);
            } else {
                text::law_digits_read_back((-n) as nat, 10);
                assert(json_text(doc).skip(1) =~= text::digits((-n) as nat, 10));
            }
        },
        JsonValue::UInt(n) => {
            text::law_digits_read_back(n as nat, 10);
        },
        JsonValue::Str(s) => {
            law_string_read_back(s@);
        },
        _ => {},
    }
}

/// What an array is written as: its items as each is written alone, in order, with
/// commas between them, in brackets. One more item comes behind the others.
pub proof fn law_array_text(items: Vec<JsonValue>, fewer: Vec<JsonValue>)
    requires
        items@.len() > 0,
        fewer@ == items@.drop_last(),
    ensures
        json_text(JsonValue::Array { items: fewer }).last() == ']',
        json_text(JsonValue::Array { items }) == json_text(
            JsonValue::Array { items: fewer },
        ).drop_last() + (if items@.len() > 1 {
            seq![',']
        } else {
            Seq::empty()
        }) + json_text(items@.last()) + seq![']'],
        items@.len() == 1 ==> json_text(JsonValue::Array { items: fewer }) == seq!['[', ']'],
{
    reveal_strlit("[");
    reveal_strlit("]");
    reveal_strlit(",");
    let n = items@.len();
    let whole = json_text(JsonValue::Array { items });
    let part = json_text(JsonValue::Array { items: fewer });
    lemma_items_prefix(items@, fewer@, (n - 1) as nat);
    assert(part =~= "["@ + json_items(items@, (n - 1) as nat) + "]"@);
    assert(part.drop_last() =~= "["@ + json_items(items@, (n - 1) as nat));
    if n > 1 {
        assert(whole =~= part.drop_last() + seq![','] + json_text(items@.last()) + seq![']']);
    } else {
        assert(json_items(items@, 0) =~= Seq::<char>::empty());
        assert(whole =~= part.drop_last() + Seq::<char>::empty() + json_text(items@.last())
            + seq![']']);
        assert(part =~= seq!['[', ']']);
    }
}

proof fn lemma_items_prefix(a: Seq<JsonValue>, b: Seq<JsonValue>, n: nat)
    requires
        n <= a.len(),
        n <= b.len(),
        forall|i: int| 0 <= i < n ==> a[i] == b[i],
    ensures
        json_items(a, n) == json_items(b, n),
    decreases n,
{
    if n > 1 {
        lemma_items_prefix(a, b, (n - 1) as nat);
    }
}

/// What an object is written as: its entries in order, with commas between them, in
/// braces; an entry is its name in quotes, a colon, and its value as that is written
/// alone. One more entry comes behind the others.
pub proof fn law_object_text(entries: Vec<(String, JsonValue)>, fewer: Vec<(String, JsonValue)>)
    requires
        entries@.len() > 0,
        fewer@ == entries@.drop_last(),
    ensures
        json_text(JsonValue::Object { entries: fewer }).last() == '}',
        json_text(JsonValue::Object { entries }) == json_text(
            JsonValue::Object { entries: fewer },
        ).drop_last() + (if entries@.len() > 1 {
            seq![',']
        } else {
            Seq::empty()
        }) + json_quoted(entries@.last().0@) + seq![':'] + json_text(entries@.last().1) + seq!['}'],
        entries@.len() == 1 ==> json_text(JsonValue::Object { entries: fewer }) == seq!['{', '}'],
{
    reveal_strlit("{");
    reveal_strlit("}");
    reveal_strlit(",");
    reveal_strlit(":");
    let n = entries@.len();
    let whole = json_text(JsonValue::Object { entries });
    let part = json_text(JsonValue::Object { entries: fewer });
    let last = entries@.last();
    assert(last == entries@[n - 1]);
    lemma_entries_prefix(entries@, fewer@, (n - 1) as nat);
    assert(part =~= "{"@ + json_entries(entries@, (n - 1) as nat) + "}"@);
    assert(part.drop_last() =~= "{"@ + json_entries(entries@, (n - 1) as nat));
    if n > 1 {
        assert(whole =~= part.drop_last() + seq![','] + json_quoted(last.0@) + seq![':']
            + json_text(last.1) + seq!['}']);
    } else {
        assert(json_entries(entries@, 0) =~= Seq::<char>::empty());
        assert(whole =~= part.drop_last() + Seq::<char>::empty() + json_quoted(last.0@) + seq![':']
            + json_text(last.1) + seq!['}']);
        assert(part =~= seq!['{', '}']);
    }
}

proof fn lemma_entries_prefix(
    a: Seq<(String, JsonValue)>,
    b: Seq<(String, JsonValue)>,
    n: nat,
)
    requires
        n <= a.len(),
        n <= b.len(),
        forall|i: int| 0 <= i < n ==> a[i] == b[i],
    ensures
        json_entries(a, n) == json_entries(b, n),
    decreases n,
{
    if n > 1 {
        lemma_entries_prefix(a, b, (n - 1) as nat);
    }
}

} // verus!
