//! What the calls that serve requests promise: what a request asks for, who is let in,
//! and what an answer tells.

use vstd::prelude::*;
use vstd::string::*;
use crate::auth;
use crate::auth::AuthState;
use crate::bytes;
use crate::calls;
use crate::error::FlowError;
use crate::http;
use crate::http::{
    ActionResponse, PatchRequest, QueryParams, QueryResponse, Refusal, Route, Status, WriteRecord,
    WriteRequest,
};
use crate::record;
use crate::record::{Config, Query, Record};
use crate::server_config;
use crate::server_config::{CliArgs, ServerConfig};
use crate::text;
use crate::udp;

verus! {

/// Whether the bytes are the value that a request gives: what its base64 text stands for,
/// where it gives one, else the bytes of its text.
pub open spec fn gives(value: Option<String>, value_base64: Option<String>, data: Seq<u8>) -> bool {
    match (value_base64, value) {
        (Some(b64), _) => http::base64_text(data) == b64@,
        (None, Some(v)) => data == text::utf8(v@),
        (None, None) => false,
    }
}

/// Whether the request gives a value in base64 that is not base64.
pub open spec fn unreadable(value_base64: Option<String>) -> bool {
    value_base64 matches Some(b64) && forall|data: Seq<u8>| #[trigger]
        http::base64_text(data) != b64@
}

/// A record that is asked to be written has the key and time of the request, and its value,
/// or none where it gives none; it does not expire. It is refused exactly where the value
/// cannot be read.
pub proof fn law_record_requested(req: &WriteRecord, r: Result<Record, FlowError>)
    requires
        call_ensures(WriteRecord::to_record, (req,), r),
    ensures
        r is Err <==> unreadable(req.value_base64),
        r matches Ok(rec) ==> {
            &&& rec@.key == text::utf8(req.key@)
            &&& rec@.ts == req.ts
            &&& rec@.expire_at == i64::MAX
            &&& req.value is Some || req.value_base64 is Some ==> gives(
                req.value,
                req.value_base64,
                rec@.value,
            )
            &&& req.value is None && req.value_base64 is None ==> rec@.value.len() == 0
        },
{
}

/// The records that a request asks to be written are all of them, in order; where the
/// value of one cannot be read, the request is refused as a bad one.
pub proof fn law_records_requested(
    req: &WriteRequest,
    r: Result<Vec<Record>, Refusal>,
    i: int,
    rec: Result<Record, FlowError>,
)
    requires
        call_ensures(http::requested_records, (req,), r),
        0 <= i < req.records.len(),
        call_ensures(WriteRecord::to_record, (&req.records@[i],), rec),
    ensures
        r matches Ok(records) ==> records.len() == req.records.len() && (rec matches Ok(one)
            && records@[i]@ == one@),
        rec is Err ==> (r matches Err(refusal) && refusal.0 == Status::BadRequest
            && !refusal.1.ok),
        r is Err ==> exists|k: int|
            0 <= k < req.records.len() && unreadable((#[trigger] req.records@[k]).value_base64),
{
    http::law_first_unreadable(req.records@);
    if r is Err {
        let k = http::first_unreadable(req.records@)->0;
        assert(unreadable(req.records@[k].value_base64));
    }
}

/// The value that a patch asks for is the one that it gives; none where it gives none.
pub proof fn law_patch_requested(req: &PatchRequest, r: Result<Option<Vec<u8>>, Refusal>)
    requires
        call_ensures(http::patch_value, (req,), r),
    ensures
        r is Err <==> unreadable(req.value_base64),
        r matches Ok(None) <==> req.value is None && req.value_base64 is None,
        r matches Ok(Some(data)) ==> gives(req.value, req.value_base64, data@),
        r matches Err(refusal) ==> refusal.0 == Status::BadRequest && !refusal.1.ok,
{
    if let Ok(Some(data)) = r {
        assert(record::opt_view(r->Ok_0) == Some(data@));
    }
}

/// What is answered to a query is the records, in order and counted: the time and the
/// expiry of each, its key as text, and a text from which its value is read back.
pub proof fn law_records_answered(
    records: &Vec<Record>,
    r: QueryResponse,
    i: int,
    again: WriteRecord,
    rec: Result<Record, FlowError>,
)
    requires
        call_ensures(http::query_response, (records,), r),
        0 <= i < records.len(),
        again.ts == r.records@[i].ts,
        again.value_base64 matches Some(b64) && b64@ == r.records@[i].value@,
        call_ensures(WriteRecord::to_record, (&again,), rec),
    ensures
        r.count == records.len(),
        r.records.len() == records.len(),
        r.records@[i].key@ == record::utf8_lossy(records@[i]@.key),
        r.records@[i].expire_at == records@[i].expire_at,
        rec matches Ok(out) && out@.value == records@[i]@.value && out@.ts == records@[i].ts,
{
    let shown = r.records@[i];
    assert(http::shows(records@[i]@, shown));
    http::law_shown_written_again(records@[i]@, shown, again);
}

/// A query that a request asks for admits the times from the given start on, and up to the
/// given end; an end without a start is no bound. It admits the keys with the given prefix,
/// else those from the given start up to the given end, else all.
pub proof fn law_query_requested(params: &QueryParams, q: Query, key: Seq<u8>, ts: i64)
    requires
        call_ensures(http::build_query, (params,), q),
    ensures
        calls::asks(q.key_filter@, q.time_range, key, ts) <==> {
            &&& params.ts_start matches Some(start) ==> start <= ts
            &&& params.ts_start is Some ==> (params.ts_end matches Some(end) ==> ts <= end)
            &&& params.prefix matches Some(prefix) ==> text::utf8(prefix@).is_prefix_of(key)
            &&& params.prefix is None ==> (params.key_start matches Some(start) ==> bytes::lex_le(
                text::utf8(start@),
                key,
            ) && bytes::lex_le(
                key,
                text::utf8(
                    if params.key_end is Some {
                        (params.key_end->0)@
                    } else {
                        "~"@
                    },
                ),
            ))
        },
{
    http::law_query_admits(*params, q, key, ts);
    if let Some(prefix) = params.prefix {
        bytes::law_prefix(key, text::utf8(prefix@));
    }
}

/// A request is let in where no keys are configured, or where the key that it gives, in the
/// header before the query, is one of them.
pub proof fn law_let_in(
    keys: Vec<String>,
    state: &AuthState,
    header: Option<&str>,
    query: Option<&str>,
    r: bool,
)
    requires
        call_ensures(AuthState::new, (keys,), *state),
        call_ensures(AuthState::check, (state, header, query), r),
    ensures
        r <==> keys.len() == 0 || ({
            let given = if header is Some {
                header
            } else {
                query
            };
            given matches Some(key) && exists|i: int|
                0 <= i < keys.len() && (#[trigger] keys@[i])@ == key@
        }),
{
    auth::law_accepts(*state, header, query);
    if keys.len() > 0 {
        assert(auth::among(keys@, keys@[0]@));
        assert(auth::among(state.api_keys@, keys@[0]@));
    } else if state.api_keys.len() > 0 {
        assert(auth::among(state.api_keys@, state.api_keys@[0]@));
        assert(auth::among(keys@, state.api_keys@[0]@));
    }
    if let Some(key) = header {
        assert(auth::among(state.api_keys@, key@) <==> auth::among(keys@, key@));
    } else if let Some(key) = query {
        assert(auth::among(state.api_keys@, key@) <==> auth::among(keys@, key@));
    }
}

/// A request to the server is answered as unauthorized exactly where its route is not
/// public and it is not let in.
pub proof fn law_authorized(
    state: &AuthState,
    route: Route,
    header: Option<&str>,
    r: Result<(), Refusal>,
    status: Status,
    let_in: bool,
)
    requires
        call_ensures(http::authorize, (state, route, header), r),
        call_ensures(http::check_auth, (state, header), status),
        call_ensures(AuthState::check, (state, header, None), let_in),
    ensures
        r is Ok <==> route.is_public() || let_in,
        r matches Err(refusal) ==> refusal.0 == Status::Unauthorized && !refusal.1.ok,
        status == Status::Success <==> let_in,
        status == Status::Unauthorized <==> !let_in,
{
}

/// The status of an answer tells whether it succeeded, and different ones are told apart.
pub proof fn law_status_told(a: Status, b: Status, x: u16, y: u16)
    requires
        call_ensures(Status::code, (a,), x),
        call_ensures(Status::code, (b,), y),
    ensures
        x == y <==> a == b,
        a == Status::Success <==> 200 <= x < 300,
        a == Status::BadRequest || a == Status::Unauthorized <==> 400 <= x < 500,
        a == Status::InternalServerError <==> 500 <= x < 600,
{
}

/// What is answered to collecting garbage tells how many records were purged.
pub proof fn law_purged_told(a: u64, b: u64, x: ActionResponse, y: ActionResponse)
    requires
        call_ensures(http::gc_response, (a,), x),
        call_ensures(http::gc_response, (b,), y),
    ensures
        x.ok,
        x.message@ == y.message@ ==> a == b,
{
    if x.message@ == y.message@ {
        lemma_same_end("gc completed, purged "@, text::decimal_text(a as nat), text::decimal_text(b as nat));
        text::law_digits_read_back(a as nat, 10);
        text::law_digits_read_back(b as nat, 10);
    }
}

proof fn lemma_same_end(front: Seq<char>, a: Seq<char>, b: Seq<char>)
    requires
        front + a == front + b,
    ensures
        a == b,
{
    assert((front + a).skip(front.len() as int) =~= a);
    assert((front + b).skip(front.len() as int) =~= b);
}

/// The number that a text tells is read back from it.
pub proof fn law_decimal_read_back(n: u64, r: String)
    requires
        call_ensures(text::decimal, (n,), r),
    ensures
        text::number_of(r@, 10) == n,
{
    text::law_digits_read_back(n as nat, 10);
}

/// So is the number that is told with leading zeros, which is as wide as asked, or wider
/// where the number is.
pub proof fn law_padded_read_back(n: u64, width: usize, r: String)
    requires
        call_ensures(text::decimal_padded, (n, width), r),
    ensures
        text::number_of(r@, 10) == n,
        r@.len() >= width,
{
    text::law_digits_read_back(n as nat, 10);
    text::law_zero_padded(text::decimal_text(n as nat), width as nat, 10);
}

/// So is the number with a sign.
pub proof fn law_signed_read_back(n: i64, r: String)
    requires
        call_ensures(text::signed_decimal, (n,), r),
    ensures
        n >= 0 ==> text::number_of(r@, 10) == n,
        n < 0 ==> r@.len() > 1 && r@[0] == '-' && text::number_of(r@.skip(1), 10) == -n,
{
    if n < 0 {
        text::law_digits_read_back((-n) as nat, 10);
        assert(r@.skip(1) =~= text::decimal_text((-n) as nat));
    } else {
        text::law_digits_read_back(n as nat, 10);
    }
}

/// So is the number in hexadecimal, behind `0x`.
pub proof fn law_hex_read_back(n: u32, r: String)
    requires
        call_ensures(text::hex, (n,), r),
    ensures
        r@.len() > 2 && r@[0] == '0' && r@[1] == 'x',
        text::number_of(r@.skip(2), 16) == n,
{
    text::law_digits_read_back(n as nat, 16);
    assert(r@.skip(2) =~= text::digits(n as nat, 16));
}

/// What is set on the command line counts: an address other than the default one, a
/// directory that is not empty, and a key beside those of the file. All else is the
/// file's.
pub proof fn law_config_resolved(cli: &CliArgs, file: ServerConfig, r: ServerConfig)
    requires
        call_ensures(server_config::resolve_server_config, (cli, file), r),
    ensures
        cli.http_addr@ != "0.0.0.0:8080"@ ==> r.http_addr@ == cli.http_addr@,
        cli.http_addr@ == "0.0.0.0:8080"@ ==> r.http_addr@ == file.http_addr@,
        cli.udp_addr@ != "0.0.0.0:9090"@ ==> r.udp_addr@ == cli.udp_addr@,
        cli.udp_addr@ == "0.0.0.0:9090"@ ==> r.udp_addr@ == file.udp_addr@,
        cli.data_dir@.len() > 0 ==> r.engine.data_dir@ == cli.data_dir@,
        cli.data_dir@.len() == 0 ==> r.engine.data_dir@ == file.engine.data_dir@,
        (Config { data_dir: file.engine.data_dir, ..r.engine }) == file.engine,
        forall|i: int| 0 <= i < file.api_keys.len() ==> r.api_keys@[i]
            == #[trigger] file.api_keys@[i],
        cli.api_key matches Some(key) ==> r.api_keys.len() == file.api_keys.len() + 1
            && r.api_keys@.last() == key,
        cli.api_key is None ==> r.api_keys.len() == file.api_keys.len(),
        r.udp_api_key == file.udp_api_key,
        r.max_udp_packet_size == file.max_udp_packet_size,
{
    server_config::law_chosen_addr(cli.http_addr@, file.http_addr@, "0.0.0.0:8080"@);
    server_config::law_chosen_addr(cli.udp_addr@, file.udp_addr@, "0.0.0.0:9090"@);
}

/// What is sent in a frame is received: the records, in order, where both sides have the
/// same key or none.
pub proof fn law_frame_received(
    records: &[Record],
    key: Option<&str>,
    sent: Vec<u8>,
    data: &[u8],
    r: Result<Vec<Record>, FlowError>,
    i: int,
)
    requires
        call_ensures(udp::encode_frame, (records, key), sent),
        call_ensures(udp::decode_frame, (data, key), r),
        data@ == sent@,
        records@.len() <= udp::MAX_FRAME_RECORDS,
        forall|k: int| 0 <= k < records@.len() ==> udp::sendable((#[trigger] records@[k])@),
    ensures
        r matches Ok(got) && got.len() == records@.len() && (0 <= i < got.len() ==> got@[i]@
            == records@[i]@),
{
    let rows = record::record_views(records@);
    assert forall|k: int| 0 <= k < rows.len() implies udp::sendable(#[trigger] rows[k]) by {
        assert(rows[k] == records@[k]@);
    }
    udp::law_frame_read_back(rows, udp::key_bytes(key));
    if let Ok(got) = r {
        let back = record::record_views(got@);
        assert(back == rows);
        assert(back.len() == got.len() && rows.len() == records@.len());
        if 0 <= i < got.len() {
            assert(back[i] == got@[i]@);
            assert(rows[i] == records@[i]@);
        }
    }
}

/// An error tells what it holds: two of one kind that say the same hold the same text or
/// number.
pub proof fn law_error_told(a: FlowError, b: FlowError)
    requires
        a.text() == b.text(),
    ensures
        a matches FlowError::Io(x) ==> (b matches FlowError::Io(y) ==> x@ == y@),
        a matches FlowError::Config(x) ==> (b matches FlowError::Config(y) ==> x@ == y@),
        a matches FlowError::Json(x) ==> (b matches FlowError::Json(y) ==> x@ == y@),
        a matches FlowError::JsonDb(x) ==> (b matches FlowError::JsonDb(y) ==> x@ == y@),
        a matches FlowError::Other(x) ==> (b matches FlowError::Other(y) ==> x@ == y@),
        a matches FlowError::SstNotFound(x) ==> (b matches FlowError::SstNotFound(y) ==> x == y),
{
    match (a, b) {
        (FlowError::Io(x), FlowError::Io(y)) => lemma_same_end("IO error: "@, x@, y@),
        (FlowError::Config(x), FlowError::Config(y)) => lemma_same_end("Config error: "@, x@, y@),
        (FlowError::Json(x), FlowError::Json(y)) => lemma_same_end("JSON error: "@, x@, y@),
        (FlowError::JsonDb(x), FlowError::JsonDb(y)) => lemma_same_end("JsonDB: "@, x@, y@),
        (FlowError::SstNotFound(x), FlowError::SstNotFound(y)) => {
            lemma_same_end(
                "SSTable not found: "@,
                text::decimal_text(x as nat),
                text::decimal_text(y as nat),
            );
            text::law_digits_read_back(x as nat, 10);
            text::law_digits_read_back(y as nat, 10);
        },
        _ => {},
    }
}

/// What an error says and what a refusal for it says are the same.
pub proof fn law_error_answered(error: &FlowError, status: Status, said: String, r: Refusal)
    requires
        call_ensures(FlowError::message, (error,), said),
        call_ensures(http::refuse, (status, error), r),
    ensures
        r.0 == status,
        !r.1.ok,
        r.1.message@ == said@,
{
}

/// A frame is refused that is too short for its head, does not begin with the right byte,
/// is of an unknown version or of one that does not fit the key, or tells of more records
/// than a frame may hold.
pub proof fn law_bad_frame_refused(
    data: &[u8],
    key: Option<&str>,
    r: Result<Vec<Record>, FlowError>,
)
    requires
        call_ensures(udp::decode_frame, (data, key), r),
    ensures
        data@.len() < 4 ==> r is Err,
        data@.len() >= 4 && data@[0] != 0x54 ==> r is Err,
        data@.len() >= 4 && data@[1] != 1 && data@[1] != 2 ==> r is Err,
        data@.len() >= 4 && data@[1] == 1 && key is Some ==> r is Err,
        data@.len() >= 4 && data@[1] == 2 && key is None ==> r is Err,
        data@.len() >= 4 && bytes::be_nat(data@.subrange(2, 4)) > 1024 ==> r is Err,
        r matches Ok(records) ==> records.len() == bytes::be_nat(data@.subrange(2, 4)),
        r matches Err(e) ==> e is Other,
{
    if let Ok(records) = r {
        let rows = record::record_views(records@);
        assert(rows.len() == records.len());
        let start = udp::frame_start(data@, udp::key_bytes(key));
        udp::lemma_records_count(data@, start->Ok_0, bytes::be_nat(data@.subrange(2, 4)));
    }
}

} // verus!
