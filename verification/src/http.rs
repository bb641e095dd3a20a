//! What the HTTP endpoints are asked and answer.

use base64::engine::general_purpose;
use base64::Engine as Base64Engine;
use vstd::prelude::*;
use vstd::string::*;
use crate::auth::AuthState;
use crate::bytes;
use crate::bytes::copy_bytes;
use crate::error::FlowError;
use crate::memtable;
use crate::record;
use crate::record::{Query, Record, RecordView};
use crate::text;
use crate::text::{decimal, join};

verus! {

/// The sign of base64 for six bits.
pub open spec fn sextet(n: int) -> char {
    if n < 26 {
        (n + 65) as char
    } else if n < 52 {
        (n + 71) as char
    } else if n < 62 {
        (n - 4) as char
    } else if n == 62 {
        '+'
    } else {
        '/'
    }
}

/// The bytes in base64, with the standard alphabet and padding.
pub open spec fn base64_text(data: Seq<u8>) -> Seq<char>
    decreases data.len(),
{
    if data.len() == 0 {
        Seq::empty()
    } else if data.len() == 1 {
        seq![sextet(data[0] as int / 4), sextet(data[0] as int % 4 * 16), '=', '=']
    } else if data.len() == 2 {
        seq![
            sextet(data[0] as int / 4),
            sextet(data[0] as int % 4 * 16 + data[1] as int / 16),
            sextet(data[1] as int % 16 * 4),
            '=',
        ]
    } else {
        seq![
            sextet(data[0] as int / 4),
            sextet(data[0] as int % 4 * 16 + data[1] as int / 16),
            sextet(data[1] as int % 16 * 4 + data[2] as int / 64),
            sextet(data[2] as int % 64),
        ] + base64_text(data.skip(3))
    }
}

/// What `DecodeError` says of a text that is not base64.
pub uninterp spec fn base64_error(text: Seq<char>) -> Seq<char>;

/// Calls `Engine::encode` of base64's standard engine, which writes bytes in
/// base64 with the standard alphabet and padding. It panics where the length of
/// the text cannot be counted.
#[verifier::external_body]
fn base64_encode(data: &[u8]) -> (r: String)
    requires
        (data@.len() + 2) / 3 * 4 <= usize::MAX,
    ensures
        r@ == base64_text(data@),
{
    general_purpose::STANDARD.encode(data)
}

/// Calls `Engine::decode` of base64's standard engine, which reads bytes written
/// in base64. It accepts what encoding writes and nothing else: the padding must
/// be there, and unused bits must be zero. What the error says is named, not
/// described.
#[verifier::external_body]
fn base64_decode(text: &str) -> (r: Result<Vec<u8>, String>)
    ensures
        (match r {
            Ok(data) => base64_text(data@) == text@,
            Err(msg) => msg@ == base64_error(text@) && forall|data: Seq<u8>| #[trigger]
                base64_text(data) != text@,
        }),
{
    general_purpose::STANDARD.decode(text).map_err(|e| e.to_string())
}

/// Different bytes are written differently in base64.
pub proof fn law_base64_injective(a: Seq<u8>, b: Seq<u8>)
    requires
        base64_text(a) == base64_text(b),
    ensures
        a == b,
    decreases a.len(),
{
    let x = base64_text(a);
    let y = base64_text(b);
    if a.len() == 0 {
        if b.len() > 0 {
            assert(y.len() > 0);
        }
        assert(a =~= b);
    } else if b.len() == 0 {
        assert(x.len() > 0);
    } else {
        assert(x[0] == y[0] && x[1] == y[1] && x[2] == y[2] && x[3] == y[3]);
        lemma_sextets(a[0] as int / 4, b[0] as int / 4);
        if a.len() >= 3 && b.len() >= 3 {
            lemma_sextets(
                a[0] as int % 4 * 16 + a[1] as int / 16,
                b[0] as int % 4 * 16 + b[1] as int / 16,
            );
            lemma_sextets(
                a[1] as int % 16 * 4 + a[2] as int / 64,
                b[1] as int % 16 * 4 + b[2] as int / 64,
            );
            lemma_sextets(a[2] as int % 64, b[2] as int % 64);
            assert(x.skip(4) =~= base64_text(a.skip(3)));
            assert(y.skip(4) =~= base64_text(b.skip(3)));
            law_base64_injective(a.skip(3), b.skip(3));
            assert(a =~= seq![a[0], a[1], a[2]] + a.skip(3));
            assert(b =~= seq![b[0], b[1], b[2]] + b.skip(3));
        } else {
            lemma_sextet_no_pad(a[2] as int % 64);
            lemma_sextet_no_pad(b[2] as int % 64);
            lemma_sextet_no_pad(a[1] as int % 16 * 4);
            lemma_sextet_no_pad(b[1] as int % 16 * 4);
            if a.len() >= 3 {
                lemma_sextet_no_pad(a[1] as int % 16 * 4 + a[2] as int / 64);
            }
            if b.len() >= 3 {
                lemma_sextet_no_pad(b[1] as int % 16 * 4 + b[2] as int / 64);
            }
            assert(a.len() == b.len());
            if a.len() == 1 {
                lemma_sextets(a[0] as int % 4 * 16, b[0] as int % 4 * 16);
            } else {
                lemma_sextets(
                    a[0] as int % 4 * 16 + a[1] as int / 16,
                    b[0] as int % 4 * 16 + b[1] as int / 16,
                );
                lemma_sextets(a[1] as int % 16 * 4, b[1] as int % 16 * 4);
            }
            assert(a =~= b);
        }
    }
}

proof fn lemma_sextets(m: int, n: int)
    requires
        0 <= m < 64,
        0 <= n < 64,
        sextet(m) == sextet(n),
    ensures
        m == n,
{
}

proof fn lemma_sextet_no_pad(n: int)
    requires
        0 <= n < 64,
    ensures
        sextet(n) != '=',
{
}

/// The status of an answer.
#[derive(Debug, Clone, Copy, PartialEq, Eq, Structural)]
pub enum Status {
    Success,
    BadRequest,
    Unauthorized,
    InternalServerError,
}

impl Status {
    /// The number of the status.
    pub fn code(self) -> (r: u16)
        ensures
            r == (match self {
                Status::Success => 200u16,
                Status::BadRequest => 400u16,
                Status::Unauthorized => 401u16,
                Status::InternalServerError => 500u16,
            }),
    {
        match self {
            Status::Success => 200,
            Status::BadRequest => 400,
            Status::Unauthorized => 401,
            Status::InternalServerError => 500,
        }
    }
}

/// Records to write.
#[derive(Debug, Clone)]
pub struct WriteRequest {
    pub records: Vec<WriteRecord>,
}

/// A record to write: its value as text, or in base64.
#[derive(Debug, Clone)]
pub struct WriteRecord {
    pub key: String,
    pub ts: i64,
    pub ttl_secs: Option<u64>,
    pub value: Option<String>,
    pub value_base64: Option<String>,
}

/// What a query asks for.
#[derive(Debug, Clone)]
pub struct QueryParams {
    pub prefix: Option<String>,
    pub key_start: Option<String>,
    pub key_end: Option<String>,
    pub ts_start: Option<i64>,
    pub ts_end: Option<i64>,
}

/// The record to delete.
#[derive(Debug, Clone)]
pub struct DeleteParams {
    pub key: String,
    pub ts: i64,
}

/// The keys to delete.
#[derive(Debug, Clone)]
pub struct DeleteRangeParams {
    pub key_start: String,
    pub key_end: String,
}

/// The record to change, and how.
#[derive(Debug, Clone)]
pub struct PatchRequest {
    pub key: String,
    pub ts: i64,
    pub value: Option<String>,
    pub value_base64: Option<String>,
    pub ttl_secs: Option<u64>,
}

/// How many records were written.
#[derive(Debug, Clone, Copy, PartialEq, Eq, Structural)]
pub struct WriteResponse {
    pub written: usize,
}

/// The records that a query found.
#[derive(Debug)]
pub struct QueryResponse {
    pub records: Vec<QueryRecord>,
    pub count: usize,
}

/// A record that a query found: the key as text, the value in base64.
#[derive(Debug)]
pub struct QueryRecord {
    pub key: String,
    pub ts: i64,
    pub expire_at: i64,
    pub value: String,
}

/// Whether the server is well.
#[derive(Debug)]
pub struct HealthResponse {
    pub status: String,
}

/// What came of an action.
#[derive(Debug)]
pub struct ActionResponse {
    pub ok: bool,
    pub message: String,
}

/// An answer that a request failed.
pub type Refusal = (Status, ActionResponse);

/// The answer with the status that says the text.
pub open spec fn is_refusal(r: Refusal, status: Status, text: Seq<char>) -> bool {
    r.0 == status && !r.1.ok && r.1.message@ == text
}

/// Whether a text is in base64.
pub open spec fn is_base64(text: Seq<char>) -> bool {
    exists|data: Seq<u8>| #[trigger] base64_text(data) == text
}

/// The value that is asked for: what the base64 text stands for, where there is
/// one, else the bytes of the text, if there is one. `None` where the base64 text
/// is not base64.
pub open spec fn value_bytes(
    value: Option<Seq<char>>,
    value_base64: Option<Seq<char>>,
) -> Option<Option<Seq<u8>>> {
    match value_base64 {
        Some(text) => if is_base64(text) {
            Some(Some(choose|data: Seq<u8>| #[trigger] base64_text(data) == text))
        } else {
            None
        },
        None => match value {
            Some(text) => Some(Some(text::utf8(text))),
            None => Some(None),
        },
    }
}

/// What an optional text holds.
pub open spec fn opt_text(o: Option<String>) -> Option<Seq<char>> {
    match o {
        Some(s) => Some(s@),
        None => None,
    }
}

/// What an error says of a text that is not base64.
pub open spec fn decode_message(value_base64: Option<Seq<char>>) -> Seq<char> {
    "base64 decode: "@ + base64_error(value_base64->0)
}

/// The value that is asked for.
fn decode_value(value: &Option<String>, value_base64: &Option<String>) -> (r: Result<
    Option<Vec<u8>>,
    String,
>)
    ensures
        match value_bytes(opt_text(*value), opt_text(*value_base64)) {
            Some(data) => r matches Ok(v) && record::opt_view(v) == data,
            None => r matches Err(msg) && msg@ == decode_message(opt_text(*value_base64)),
        },
{
    match value_base64 {
        Some(b64) => match base64_decode(b64.as_str()) {
            Ok(data) => {
                proof {
                    let chosen = choose|d: Seq<u8>| #[trigger] base64_text(d) == b64@;
                    assert(base64_text(data@) == b64@);
                    law_base64_injective(chosen, data@);
                }
                Ok(Some(data))
            },
            Err(e) => Err(join("base64 decode: ", e.as_str())),
        },
        None => match value {
            Some(v) => Ok(Some(copy_bytes(v.as_str().as_bytes()))),
            None => Ok(None),
        },
    }
}

/// A value in base64 is the value that was written so.
pub proof fn law_base64_value(data: Seq<u8>, value: Option<Seq<char>>)
    ensures
        value_bytes(value, Some(base64_text(data))) == Some(Some(data)),
{
    let text = base64_text(data);
    assert(is_base64(text));
    let chosen = choose|d: Seq<u8>| #[trigger] base64_text(d) == text;
    law_base64_injective(chosen, data);
}

impl WriteRecord {
    /// The value of the record, `None` where it is not base64.
    pub open spec fn data(self) -> Option<Option<Seq<u8>>> {
        value_bytes(opt_text(self.value), opt_text(self.value_base64))
    }

    /// The record that is written, where its value can be read.
    pub open spec fn record(self) -> RecordView {
        RecordView {
            key: text::utf8(self.key@),
            ts: self.ts,
            expire_at: i64::MAX,
            value: match self.data()->0 {
                Some(v) => v,
                None => Seq::empty(),
            },
        }
    }

    /// The record to write. It never expires of itself.
    pub fn to_record(&self) -> (r: Result<Record, FlowError>)
        ensures
            self.data() is Some ==> (r matches Ok(rec) && rec@ == self.record()),
            self.data() is None ==> (r matches Err(FlowError::Other(msg)) && msg@
                == decode_message(opt_text(self.value_base64))),
    {
        match decode_value(&self.value, &self.value_base64) {
            Err(msg) => Err(FlowError::Other(msg)),
            Ok(data) => {
                let value: Vec<u8> = match data {
                    Some(v) => v,
                    None => Vec::new(),
                };
                Ok(
                    Record {
                        key: copy_bytes(self.key.as_str().as_bytes()),
                        ts: self.ts,
                        expire_at: i64::MAX,
                        value,
                    },
                )
            },
        }
    }
}

/// The first record whose value cannot be read.
pub open spec fn first_unreadable(records: Seq<WriteRecord>) -> Option<int>
    decreases records.len(),
{
    if records.len() == 0 {
        None
    } else {
        match first_unreadable(records.drop_last()) {
            Some(i) => Some(i),
            None => if records.last().data() is None {
                Some(records.len() - 1)
            } else {
                None
            },
        }
    }
}

/// The records to write. A value that cannot be read makes it a bad request.
pub fn requested_records(req: &WriteRequest) -> (r: Result<Vec<Record>, Refusal>)
    ensures
        match first_unreadable(req.records@) {
            None => r matches Ok(records) && records@.len() == req.records@.len() && forall|i: int|
                0 <= i < records@.len() ==> (#[trigger] records@[i])@ == req.records@[i].record(),
            Some(i) => r matches Err(refusal) && is_refusal(
                refusal,
                Status::BadRequest,
                decode_message(opt_text(req.records@[i].value_base64)),
            ),
        },
{
    let list = &req.records;
    let mut out: Vec<Record> = Vec::new();
    let mut i: usize = 0;
    while i < list.len()
        invariant
            i <= list@.len(),
            list@ == req.records@,
            out@.len() == i,
            first_unreadable(list@.take(i as int)) is None,
            forall|k: int| 0 <= k < i ==> (#[trigger] out@[k])@ == list@[k].record(),
        decreases list@.len() - i,
    {
        assert(list@.take(i + 1).drop_last() =~= list@.take(i as int));
        match list[i].to_record() {
            Ok(rec) => {
                out.push(rec);
            },
            Err(e) => {
                proof {
                    lemma_first_unreadable(list@, i + 1);
                }
                return Err(refuse(Status::BadRequest, &e));
            },
        }
        i += 1;
    }
    assert(list@.take(i as int) =~= list@);
    Ok(out)
}

proof fn lemma_first_unreadable(records: Seq<WriteRecord>, n: int)
    requires
        0 <= n <= records.len(),
        first_unreadable(records.take(n)) is Some,
    ensures
        first_unreadable(records) == first_unreadable(records.take(n)),
    decreases records.len() - n,
{
    if n < records.len() {
        assert(records.take(n + 1).drop_last() =~= records.take(n));
        lemma_first_unreadable(records, n + 1);
    } else {
        assert(records.take(n) =~= records);
    }
}

/// What a request writes: a record under the key's bytes at the time, which never
/// expires of itself, with the value that is given in base64, else the text's bytes, else
/// nothing.
pub proof fn law_request_writes(req: WriteRecord, data: Seq<u8>)
    ensures
        req.record().key == text::utf8(req.key@),
        req.record().ts == req.ts,
        req.record().expire_at == i64::MAX,
        req.value_base64 matches Some(b64) ==> b64@ == base64_text(data) ==> req.data() is Some
            && req.record().value == data,
        req.value_base64 matches Some(b64) ==> (forall|other: Seq<u8>|
            #[trigger] base64_text(other) != b64@) ==> req.data() is None,
        req.value_base64 is None ==> (req.value matches Some(v) ==> req.data() is Some
            && req.record().value == text::utf8(v@)),
        req.value_base64 is None && req.value is None ==> req.data() is Some
            && req.record().value.len() == 0,
{
    law_base64_value(data, opt_text(req.value));
}

/// What a query shows of a record can be written again: the value and the time are those
/// of the record.
pub proof fn law_shown_written_again(rec: RecordView, shown: QueryRecord, req: WriteRecord)
    requires
        shows(rec, shown),
        req.ts == shown.ts,
        req.value_base64 matches Some(b64) && b64@ == shown.value@,
    ensures
        req.data() is Some,
        req.record().value == rec.value,
        req.record().ts == rec.ts,
        shown.expire_at == rec.expire_at,
{
    law_base64_value(rec.value, opt_text(req.value));
}

/// A batch is refused for its first value that cannot be read, and only for such a value.
pub proof fn law_first_unreadable(records: Seq<WriteRecord>)
    ensures
        match first_unreadable(records) {
            Some(i) => 0 <= i < records.len() && records[i].data() is None && forall|k: int|
                0 <= k < i ==> (#[trigger] records[k]).data() is Some,
            None => forall|k: int| 0 <= k < records.len() ==> (#[trigger] records[k]).data() is Some,
        },
    decreases records.len(),
{
    if records.len() > 0 {
        let front = records.drop_last();
        law_first_unreadable(front);
        assert(records[records.len() - 1] == records.last());
        assert forall|k: int| 0 <= k < front.len() implies #[trigger] records[k] == front[k] by {}
    }
}

/// The answer with the status that says the error.
pub fn refuse(status: Status, error: &FlowError) -> (r: Refusal)
    ensures
        is_refusal(r, status, error.text()),
{
    (status, ActionResponse { ok: false, message: error.message() })
}

/// The value that a patch sets, if any. One that cannot be read makes it a bad
/// request.
pub fn patch_value(req: &PatchRequest) -> (r: Result<Option<Vec<u8>>, Refusal>)
    ensures
        match value_bytes(opt_text(req.value), opt_text(req.value_base64)) {
            Some(data) => r matches Ok(v) && record::opt_view(v) == data,
            None => r matches Err(refusal) && is_refusal(
                refusal,
                Status::BadRequest,
                decode_message(opt_text(req.value_base64)),
            ),
        },
{
    match decode_value(&req.value, &req.value_base64) {
        Ok(v) => Ok(v),
        Err(message) => Err((Status::BadRequest, ActionResponse { ok: false, message })),
    }
}

/// A record as a query shows it.
pub open spec fn shows(rec: RecordView, shown: QueryRecord) -> bool {
    &&& shown.key@ == record::utf8_lossy(rec.key)
    &&& shown.ts == rec.ts
    &&& shown.expire_at == rec.expire_at
    &&& shown.value@ == base64_text(rec.value)
}

/// Whether a value can be shown.
pub open spec fn showable(rec: RecordView) -> bool {
    (rec.value.len() + 2) / 3 * 4 <= usize::MAX
}

/// The answer that shows the records.
pub fn query_response(records: &Vec<Record>) -> (r: QueryResponse)
    requires
        forall|i: int| 0 <= i < records@.len() ==> showable((#[trigger] records@[i])@),
    ensures
        r.count == records@.len(),
        r.records@.len() == records@.len(),
        forall|i: int| 0 <= i < records@.len() ==> shows(records@[i]@, #[trigger] r.records@[i]),
{
    let mut out: Vec<QueryRecord> = Vec::new();
    let mut i: usize = 0;
    while i < records.len()
        invariant
            i <= records@.len(),
            out@.len() == i,
            forall|i: int| 0 <= i < records@.len() ==> showable((#[trigger] records@[i])@),
            forall|k: int| 0 <= k < i ==> shows(records@[k]@, #[trigger] out@[k]),
        decreases records@.len() - i,
    {
        let rec = &records[i];
        assert(showable(rec@));
        out.push(
            QueryRecord {
                key: rec.key_str(),
                ts: rec.ts,
                expire_at: rec.expire_at,
                value: base64_encode(&rec.value),
            },
        );
        i += 1;
    }
    QueryResponse { records: out, count: records.len() }
}

/// The query that the parameters ask for.
pub open spec fn asks(params: QueryParams, query: Query) -> bool {
    let ts_end = match params.ts_end {
        Some(end) => end,
        None => i64::MAX,
    };
    let times = match params.ts_start {
        Some(start) => Some((start, ts_end)),
        None => None,
    };
    let key_end = match params.key_end {
        Some(end) => text::utf8(end@),
        None => text::utf8("~"@),
    };
    &&& query.time_range == times
    &&& query.key_filter@ == match (params.prefix, params.key_start) {
        (Some(prefix), _) => record::KeyFilterView::Prefix(text::utf8(prefix@)),
        (None, Some(start)) => record::KeyFilterView::Range {
            start: text::utf8(start@),
            end: key_end,
        },
        (None, None) => if times is Some {
            record::KeyFilterView::All
        } else {
            record::KeyFilterView::Prefix(Seq::empty())
        },
    }
}

/// What the parameters of a query let in. Of the times, those from the start on, where
/// one is given, up to the end, where one is given too. Of the keys, those with the
/// prefix; without a prefix those from the start on up to the end, or up to `~` without
/// one; and without a start all.
pub proof fn law_query_admits(params: QueryParams, query: Query, key: Seq<u8>, ts: i64)
    requires
        asks(params, query),
    ensures
        memtable::admits_ts(query.time_range, ts) <==> (params.ts_start matches Some(start)
            ==> start <= ts && (params.ts_end matches Some(end) ==> ts <= end)),
        params.prefix matches Some(prefix) ==> (memtable::admits_key(query.key_filter@, key)
            <==> bytes::has_prefix(key, text::utf8(prefix@))),
        params.prefix is None ==> (params.key_start matches Some(start) ==> {
            &&& params.key_end matches Some(end) ==> (memtable::admits_key(query.key_filter@, key)
                <==> bytes::lex_le(text::utf8(start@), key) && bytes::lex_le(
                key,
                text::utf8(end@),
            ))
            &&& params.key_end is None ==> (memtable::admits_key(query.key_filter@, key)
                <==> bytes::lex_le(text::utf8(start@), key) && bytes::lex_le(
                key,
                text::utf8("~"@),
            ))
        }),
        params.prefix is None && params.key_start is None ==> memtable::admits_key(
            query.key_filter@,
            key,
        ),
{
    assert(key.subrange(0, 0) =~= Seq::<u8>::empty());
}

/// A query with more limits lets in no more: what it lets in, it lets in without its
/// end time, and without its times.
pub proof fn law_query_narrows(params: QueryParams, query: Query, ts: i64)
    requires
        asks(params, query),
        memtable::admits_ts(query.time_range, ts),
    ensures
        forall|wider: QueryParams, other: Query|
            wider.ts_start == params.ts_start && wider.ts_end is None && #[trigger] asks(
                wider,
                other,
            ) ==> memtable::admits_ts(other.time_range, ts),
        forall|wider: QueryParams, other: Query|
            wider.ts_start is None && #[trigger] asks(wider, other) ==> memtable::admits_ts(
                other.time_range,
                ts,
            ),
{
}

/// The query that the parameters ask for: by prefix, else by a range of keys, else
/// by times, else everything. An open range of keys ends at `~`.
pub fn build_query(params: &QueryParams) -> (r: Query)
    ensures
        asks(*params, r),
        forall|ts: i64| #[trigger]
            memtable::admits_ts(r.time_range, ts) <==> (params.ts_start matches Some(start)
                ==> start <= ts && (params.ts_end matches Some(end) ==> ts <= end)),
{
    let ts_end: i64 = match params.ts_end {
        Some(end) => end,
        None => i64::MAX,
    };
    match (&params.prefix, &params.key_start, params.ts_start) {
        (Some(key), _, Some(ts_start)) => Query::prefix_time_range(key.as_str(), ts_start, ts_end),
        (Some(key), _, None) => Query::prefix(key.as_str()),
        (None, Some(start), ts_start) => {
            let end: &str = match &params.key_end {
                Some(end) => end.as_str(),
                None => "~",
            };
            match ts_start {
                Some(ts_start) => Query::key_time_range(start.as_str(), end, ts_start, ts_end),
                None => Query::key_range(start.as_str(), end),
            }
        },
        (None, None, Some(ts_start)) => Query::time_range(ts_start, ts_end),
        (None, None, None) => {
            proof {
                reveal_strlit("");
                assert(""@ =~= Seq::<char>::empty());
                assert(text::utf8(""@) =~= Seq::<u8>::empty());
            }
            Query::prefix("")
        },
    }
}

/// What a request is for.
#[derive(Debug, Clone, Copy, PartialEq, Eq, Structural)]
pub enum Route {
    Write,
    WriteBinary,
    Query,
    DeleteRecord,
    PatchRecord,
    DeleteRange,
    Stats,
    Metrics,
    Health,
    AdminPage,
    AdminFlush,
    AdminGc,
    AdminCompact,
    AdminQuery,
    AdminDelete,
    AdminPatch,
}

impl Route {
    /// Whether the route needs no key: it shows how the server is, or is the page
    /// for administration, which does nothing by itself.
    pub open spec fn is_public(self) -> bool {
        match self {
            Route::Stats => true,
            Route::Metrics => true,
            Route::Health => true,
            Route::AdminPage => true,
            _ => false,
        }
    }
}

/// The status that the key of a request's header gets it.
pub fn check_auth(auth: &AuthState, header_key: Option<&str>) -> (r: Status)
    ensures
        r == (if auth.accepts(header_key, None) {
            Status::Success
        } else {
            Status::Unauthorized
        }),
{
    if !auth.is_enabled() {
        return Status::Success;
    }
    if auth.check(header_key, None) {
        Status::Success
    } else {
        Status::Unauthorized
    }
}

/// Whether a request may go on, by the key of its header.
pub fn authorize(auth: &AuthState, route: Route, header_key: Option<&str>) -> (r: Result<
    (),
    Refusal,
>)
    ensures
        r is Ok <==> route.is_public() || auth.accepts(header_key, None),
        r matches Err(refusal) ==> is_refusal(refusal, Status::Unauthorized, "unauthorized"@),
{
    match route {
        Route::Stats => Ok(()),
        Route::Metrics => Ok(()),
        Route::Health => Ok(()),
        Route::AdminPage => Ok(()),
        _ => match check_auth(auth, header_key) {
            Status::Success => Ok(()),
            _ => Err(
                (
                    Status::Unauthorized,
                    ActionResponse { ok: false, message: "unauthorized".to_owned() },
                ),
            ),
        },
    }
}

/// A request without an accepted key changes nothing and learns nothing: with keys
/// set, a route that is not public is refused to it.
pub proof fn law_refused_without_key(auth: AuthState, route: Route, header_key: Option<&str>)
    requires
        auth.api_keys@.len() > 0,
        !route.is_public(),
        header_key matches Some(key) ==> !crate::auth::among(auth.api_keys@, key@),
    ensures
        !(route.is_public() || auth.accepts(header_key, None)),
{
}

/// What reads or changes records or tables needs a key; only what shows how the server
/// is, and the page for administration, does not.
pub proof fn law_public_routes(route: Route)
    ensures
        route.is_public() <==> route == Route::Stats || route == Route::Metrics || route
            == Route::Health || route == Route::AdminPage,
        !Route::Write.is_public() && !Route::WriteBinary.is_public() && !Route::Query.is_public(),
        !Route::DeleteRecord.is_public() && !Route::PatchRecord.is_public()
            && !Route::DeleteRange.is_public(),
        !Route::AdminFlush.is_public() && !Route::AdminGc.is_public()
            && !Route::AdminCompact.is_public(),
        !Route::AdminQuery.is_public() && !Route::AdminDelete.is_public()
            && !Route::AdminPatch.is_public(),
{
}

/// The answer that an action was done.
pub fn action_done(message: &str) -> (r: ActionResponse)
    ensures
        r.ok,
        r.message@ == message@,
{
    ActionResponse { ok: true, message: message.to_owned() }
}

/// The answer to a garbage collection.
pub fn gc_response(purged: u64) -> (r: ActionResponse)
    ensures
        r.ok,
        r.message@ == "gc completed, purged "@ + text::decimal_text(purged as nat),
{
    let number = decimal(purged);
    ActionResponse { ok: true, message: join("gc completed, purged ", number.as_str()) }
}

/// The answer to a compaction.
pub fn compaction_response(ran: bool) -> (r: ActionResponse)
    ensures
        r.ok,
        r.message@ == "compaction: ran="@ + (if ran {
            "true"@
        } else {
            "false"@
        }),
{
    let word: &str = if ran {
        "true"
    } else {
        "false"
    };
    ActionResponse { ok: true, message: join("compaction: ran=", word) }
}

/// The answer that the server is well.
pub fn health_response() -> (r: HealthResponse)
    ensures
        r.status@ == "ok"@,
{
    HealthResponse { status: "ok".to_owned() }
}

} // verus!
