//! The DNS message model of trust-dns, as far as routing reads and builds it.
//! The types are opaque here; each function below makes one call into the
//! crate.
use vstd::prelude::*;

use trust_dns_client::op::{Message, OpCode, Query, ResponseCode};
use trust_dns_client::rr::rdata::SOA;
use trust_dns_client::rr::{Name, RData, Record};

verus! {

#[verifier::external_type_specification]
#[verifier::external_body]
pub struct ExMessage(Message);

#[verifier::external_type_specification]
#[verifier::external_body]
pub struct ExQuery(Query);

#[verifier::external_type_specification]
#[verifier::external_body]
pub struct ExOpCode(OpCode);

#[verifier::external_type_specification]
#[verifier::external_body]
pub struct ExName(Name);

#[verifier::external_type_specification]
#[verifier::external_body]
pub struct ExRData(RData);

#[verifier::external_type_specification]
#[verifier::external_body]
pub struct ExRecord(Record);

/// The question section of a message.
pub uninterp spec fn queries_of(m: Message) -> Seq<Query>;

/// The numeric record type that a query asks for.
pub uninterp spec fn type_code_of(q: Query) -> u16;

/// The queried name of a query, as text.
pub uninterp spec fn name_text_of(q: Query) -> Seq<char>;

/// The queried name of a query.
pub uninterp spec fn query_name_of(q: Query) -> Name;

/// The name that a text parses to, if it parses.
pub uninterp spec fn parsed_name_of(s: Seq<char>) -> Option<Name>;

/// Start-of-authority record data with these fields.
pub uninterp spec fn soa_data_of(
    mname: Name,
    rname: Name,
    serial: u32,
    refresh: i32,
    retry: i32,
    expire: i32,
    minimum: u32,
) -> RData;

/// A record of this name, time to live and data.
pub uninterp spec fn record_of(name: Name, ttl: u32, data: RData) -> Record;

/// A message with a record appended to its additional section, all else kept.
pub uninterp spec fn with_additional(m: Message, r: Record) -> Message;

/// The transaction id of a message.
pub uninterp spec fn id_of(m: Message) -> u16;

/// The op code of a message.
pub uninterp spec fn op_of(m: Message) -> OpCode;

/// The response code of a message, as its number.
pub uninterp spec fn rcode_of(m: Message) -> u16;

/// Relies on `Message::queries`: the question section of the message.
#[verifier::external_body]
pub(crate) fn message_queries(msg: &Message) -> (r: &[Query])
    ensures
        r@ == queries_of(*msg),
{
    msg.queries()
}

/// Relies on `Query::query_type`, as its numeric code (`From<RecordType> for u16`).
#[verifier::external_body]
pub(crate) fn query_type_code(q: &Query) -> (r: u16)
    ensures
        r == type_code_of(*q),
{
    u16::from(q.query_type())
}

/// Relies on `Name::to_utf8`: the queried name as text.
#[verifier::external_body]
pub(crate) fn query_name_text(q: &Query) -> (r: String)
    ensures
        r@ == name_text_of(*q),
{
    q.name().to_utf8()
}

/// Relies on `Query::name`: a copy of the queried name.
#[verifier::external_body]
pub(crate) fn query_name(q: &Query) -> (r: Name)
    ensures
        r == query_name_of(*q),
{
    q.name().clone()
}

/// Relies on `Name::from_utf8`; `None` where it refuses the text.
#[verifier::external_body]
pub(crate) fn name_from_text(s: &str) -> (r: Option<Name>)
    ensures
        r == parsed_name_of(s@),
{
    Name::from_utf8(s).ok()
}

/// Relies on `SOA::new`, wrapped as SOA record data.
#[verifier::external_body]
pub(crate) fn soa_rdata(
    mname: Name,
    rname: Name,
    serial: u32,
    refresh: i32,
    retry: i32,
    expire: i32,
    minimum: u32,
) -> (r: RData)
    ensures
        r == soa_data_of(mname, rname, serial, refresh, retry, expire, minimum),
{
    RData::SOA(SOA::new(mname, rname, serial, refresh, retry, expire, minimum))
}

/// Relies on `Record::from_rdata`: a record of `name` with `ttl` and `rdata`.
#[verifier::external_body]
pub(crate) fn record_from_rdata(name: Name, ttl: u32, rdata: RData) -> (r: Record)
    ensures
        r == record_of(name, ttl, rdata),
{
    Record::from_rdata(name, ttl, rdata)
}

/// Relies on `Message::add_additional`: appends to the additional section.
#[verifier::external_body]
pub(crate) fn add_additional(msg: &mut Message, record: Record)
    ensures
        *final(msg) == with_additional(*old(msg), record),
{
    msg.add_additional(record);
}

/// Relies on `Message::id`: the transaction id.
#[verifier::external_body]
pub(crate) fn message_id(msg: &Message) -> (r: u16)
    ensures
        r == id_of(*msg),
{
    msg.id()
}

/// Relies on `Message::op_code`.
#[verifier::external_body]
pub(crate) fn message_op_code(msg: &Message) -> (r: OpCode)
    ensures
        r == op_of(*msg),
{
    msg.op_code()
}

/// Relies on `Message::error_msg`, which sets the id, the op code and the
/// response code of a new response. The header keeps the low four bits of the
/// code and a new message has no EDNS part, so `Message::response_code` gives
/// back any code below 16 (`From<u16> for ResponseCode` and back).
#[verifier::external_body]
pub(crate) fn error_message(id: u16, op_code: OpCode, code: u16) -> (r: Message)
    requires
        code < 16,
    ensures
        id_of(r) == id,
        op_of(r) == op_code,
        rcode_of(r) == code,
{
    Message::error_msg(id, op_code, <ResponseCode as From<u16>>::from(code))
}

} // verus!
