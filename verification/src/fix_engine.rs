//! Builders of the FIX 4.4 session and order messages sent to the broker.
//! The fields of each message are laid out here; `fefix` frames them with
//! BeginString, BodyLength and CheckSum.

use fefix::tagvalue::{Config, Encoder};
use vstd::prelude::*;
use vstd::string::StringSliceAdditionalSpecFns;
use crate::decimal::{all_digits, decimal_bytes, digits_value, fixed_bytes, format_decimal, format_fixed, lemma_digits_value_push};
use crate::risk::{normalized_qty, RiskManager};
use crate::scan::append_bytes;
use crate::clock::{clock_reading, sending_time_at, sending_time_text};

verus! {

/// `tag=value` followed by the separator.
pub open spec fn field_text(tag: nat, value: Seq<u8>, sep: u8) -> Seq<u8> {
    decimal_bytes(tag) + seq![61u8] + value + seq![sep]
}

/// A field ended by SOH.
pub open spec fn field(tag: nat, value: Seq<u8>) -> Seq<u8> {
    field_text(tag, value, 1u8)
}

/// The digit that `fefix` writes for the place `d` of a body length `n`:
/// `(n / d) as u8 % 10`, the quotient cut to its low byte first.
pub open spec fn length_digit(n: nat, d: nat) -> u8 {
    ((n / d) % 256 % 10 + 48) as u8
}

/// The six digits that `fefix` writes as BodyLength.
pub open spec fn body_length_text(n: nat) -> Seq<u8> {
    seq![
        length_digit(n, 100000),
        length_digit(n, 10000),
        length_digit(n, 1000),
        length_digit(n, 100),
        length_digit(n, 10),
        length_digit(n, 1),
    ]
}

/// Sum of the bytes.
pub open spec fn byte_sum(s: Seq<u8>) -> nat
    decreases s.len(),
{
    if s.len() == 0 {
        0
    } else {
        byte_sum(s.drop_last()) + s.last() as nat
    }
}

/// The three digits of a checksum below 256.
pub open spec fn checksum_text(c: nat) -> Seq<u8> {
    seq![(c / 100 + 48) as u8, (c / 10 % 10 + 48) as u8, (c % 10 + 48) as u8]
}

/// A message as `fefix` frames it: BeginString (8), BodyLength (9) over the
/// MsgType field and the body, MsgType (35), the body, and CheckSum (10),
/// the sum of all bytes before it modulo 256.
pub open spec fn fix_frame(begin_string: Seq<u8>, msg_type: Seq<u8>, body: Seq<u8>, sep: u8) -> Seq<u8> {
    let rest = field_text(35, msg_type, sep) + body;
    let head = field_text(8, begin_string, sep) + field_text(9, body_length_text(rest.len()), sep) + rest;
    head + field_text(10, checksum_text(byte_sum(head) % 256), sep)
}

/// "FIX.4.4".
pub open spec fn fix44() -> Seq<u8> {
    seq![70u8, 73u8, 88u8, 46u8, 52u8, 46u8, 52u8]
}

/// The bytes after the last '.' of `s`, or all of `s` when it holds none.
pub open spec fn account_number(s: Seq<u8>) -> Seq<u8>
    decreases s.len(),
{
    if s.len() == 0 {
        s
    } else if s.last() == 46 {
        seq![]
    } else {
        account_number(s.drop_last()).push(s.last())
    }
}

/// Body of a Logon (35=A): SenderCompID, TargetCompID, SenderSubID,
/// TargetSubID (the sub id again), MsgSeqNum, SendingTime, EncryptMethod 0,
/// HeartBtInt 30, Username (the account number at the end of the sender
/// id), Password, ResetSeqNumFlag Y.
pub open spec fn logon_body_text(
    sender_id: Seq<u8>,
    target_id: Seq<u8>,
    sender_sub_id: Seq<u8>,
    password: Seq<u8>,
    seq_num: nat,
    sending_time: Seq<u8>,
) -> Seq<u8> {
    field(49, sender_id) + field(56, target_id) + field(50, sender_sub_id) + field(57, sender_sub_id)
        + field(34, decimal_bytes(seq_num)) + field(52, sending_time) + field(98, seq![48u8])
        + field(108, seq![51u8, 48u8]) + field(553, account_number(sender_id)) + field(554, password)
        + field(141, seq![89u8])
}

/// A Logon names the session on both sub ids: right after SenderCompID
/// and TargetCompID come SenderSubID (50) and TargetSubID (57), both the
/// given sub id.
pub proof fn lemma_logon_sub_ids(
    sender_id: Seq<u8>,
    target_id: Seq<u8>,
    sender_sub_id: Seq<u8>,
    password: Seq<u8>,
    seq_num: nat,
    sending_time: Seq<u8>,
)
    ensures
        exists|rest: Seq<u8>|
            #[trigger] logon_body_text(sender_id, target_id, sender_sub_id, password, seq_num, sending_time)
                == field(49, sender_id) + field(56, target_id) + field(50, sender_sub_id) + field(57, sender_sub_id)
                + rest,
{
    let rest = field(34, decimal_bytes(seq_num)) + field(52, sending_time) + field(98, seq![48u8])
        + field(108, seq![51u8, 48u8]) + field(553, account_number(sender_id)) + field(554, password)
        + field(141, seq![89u8]);
    assert(logon_body_text(sender_id, target_id, sender_sub_id, password, seq_num, sending_time)
        =~= field(49, sender_id) + field(56, target_id) + field(50, sender_sub_id) + field(57, sender_sub_id)
        + rest);
}

/// The bytes of an optional text.
pub open spec fn optional_text(t: Option<&str>) -> Option<Seq<u8>> {
    match t {
        Some(s) => Some(s.spec_bytes()),
        None => None,
    }
}

/// Body of a Heartbeat (35=0), with TestReqID when answering a test request.
pub open spec fn heartbeat_body_text(
    sender_id: Seq<u8>,
    target_id: Seq<u8>,
    seq_num: nat,
    sending_time: Seq<u8>,
    test_req_id: Option<Seq<u8>>,
) -> Seq<u8> {
    field(49, sender_id) + field(56, target_id) + field(34, decimal_bytes(seq_num)) + field(52, sending_time)
        + match test_req_id {
        Some(id) => field(112, id),
        None => seq![],
    }
}

/// Body of a MarketDataRequest (35=V) for the full book of `symbol`:
/// TargetSubID QUOTE, MDReqID REQ_DEEP_LOB, snapshot plus updates, full
/// depth, incremental refresh, entry types bid, offer and trade.
pub open spec fn market_data_request_body_text(
    sender_id: Seq<u8>,
    target_id: Seq<u8>,
    seq_num: nat,
    sending_time: Seq<u8>,
    symbol: Seq<u8>,
) -> Seq<u8> {
    field(49, sender_id) + field(56, target_id) + field(34, decimal_bytes(seq_num)) + field(52, sending_time)
        + field(57, seq![81u8, 85u8, 79u8, 84u8, 69u8])
        + field(262, seq![82u8, 69u8, 81u8, 95u8, 68u8, 69u8, 69u8, 80u8, 95u8, 76u8, 79u8, 66u8])
        + field(263, seq![49u8]) + field(264, seq![48u8]) + field(265, seq![49u8]) + field(267, seq![51u8])
        + field(269, seq![48u8]) + field(269, seq![49u8]) + field(269, seq![50u8]) + field(146, seq![49u8])
        + field(55, symbol)
}

/// The header fields of an order (35=D) on the trade session, up to and
/// including TransactTime and OrderQty; the quantity goes out rounded down
/// to whole lots (see `normalized_qty`).
pub open spec fn order_head_text(
    sender_id: Seq<u8>,
    target_id: Seq<u8>,
    seq_num: nat,
    sending_time: Seq<u8>,
    cl_ord_id: Seq<u8>,
    symbol: Seq<u8>,
    side: u8,
    qty: nat,
) -> Seq<u8> {
    field(49, sender_id) + field(56, target_id) + field(34, decimal_bytes(seq_num)) + field(52, sending_time)
        + field(57, seq![84u8, 82u8, 65u8, 68u8, 69u8]) + field(11, cl_ord_id) + field(55, symbol)
        + field(54, seq![side]) + field(60, sending_time) + field(38, decimal_bytes(normalized_qty(qty)))
}

/// Body of a market order: OrdType market, TimeInForce GTC and the stop
/// price with five decimals.
pub open spec fn order_request_body_text(
    sender_id: Seq<u8>,
    target_id: Seq<u8>,
    seq_num: nat,
    sending_time: Seq<u8>,
    cl_ord_id: Seq<u8>,
    symbol: Seq<u8>,
    side: u8,
    qty: nat,
    hard_stop_price: int,
) -> Seq<u8> {
    order_head_text(sender_id, target_id, seq_num, sending_time, cl_ord_id, symbol, side, qty)
        + field(40, seq![49u8]) + field(59, seq![49u8]) + field(99, fixed_bytes(hard_stop_price))
}

/// Body of an order that closes the broker's position `broker_position_id`.
pub open spec fn close_order_body_text(
    sender_id: Seq<u8>,
    target_id: Seq<u8>,
    seq_num: nat,
    sending_time: Seq<u8>,
    cl_ord_id: Seq<u8>,
    symbol: Seq<u8>,
    side: u8,
    qty: nat,
    broker_position_id: Seq<u8>,
) -> Seq<u8> {
    order_head_text(sender_id, target_id, seq_num, sending_time, cl_ord_id, symbol, side, qty)
        + field(40, seq![49u8]) + field(721, broker_position_id)
}

/// Frames a message with a `fefix` encoder of the default configuration
/// (`Encoder::<Config>::default`, whose separator is SOH):
/// `Encoder::start_message` writes BeginString, a zero BodyLength and
/// MsgType into the empty buffer, `EncoderHandle::raw` appends the body,
/// and `EncoderHandle::wrap` writes the body length digits and the CheckSum
/// field. Claimed: the buffer then holds `fix_frame` of these parts.
#[verifier::external_body]
fn encode_message(buffer: &mut Vec<u8>, begin_string: &[u8], msg_type: &[u8], body: &[u8])
    requires
        old(buffer)@.len() == 0,
    ensures
        final(buffer)@ == fix_frame(begin_string@, msg_type@, body@, 1u8),
{
    let mut encoder = Encoder::<Config>::default();
    let mut msg = encoder.start_message(begin_string, buffer, msg_type);
    msg.raw(body);
    msg.wrap();
}

/// Appends `tag=value` and SOH.
fn append_field(out: &mut Vec<u8>, tag: u16, value: &[u8])
    ensures
        final(out)@ == old(out)@ + field(tag as nat, value@),
{
    let digits = format_decimal(tag as u64);
    append_bytes(out, digits.as_slice());
    out.push(61u8);
    append_bytes(out, value);
    out.push(1u8);
    assert(final(out)@ =~= old(out)@ + field(tag as nat, value@));
}

/// The bytes of `s` after its last '.', all of `s` when it has none.
fn account_number_of(s: &[u8]) -> (out: &[u8])
    ensures
        out@ == account_number(s@),
{
    let n = s.len();
    let mut i = n;
    assert(s@.take(n as int) =~= s@);
    assert(account_number(s@) + s@.subrange(n as int, n as int) =~= account_number(s@));
    while i > 0 && s[i - 1] != 46
        invariant
            i <= n,
            n == s@.len(),
            account_number(s@) == account_number(s@.take(i as int)) + s@.subrange(i as int, n as int),
        decreases i,
    {
        assert(s@.take(i as int).drop_last() =~= s@.take(i - 1));
        assert(s@.subrange(i - 1, n as int) =~= seq![s@[i - 1]] + s@.subrange(i as int, n as int));
        i -= 1;
    }
    proof {
        if i > 0 {
            assert(s@.take(i as int).last() == s@[i - 1]);
        }
        assert(s@.take(n as int) =~= s@);
    }
    vstd::slice::slice_subrange(s, i, n)
}

/// Logon body (see `logon_body_text`) for a given SendingTime.
pub fn logon_body(
    sender_id: &str,
    target_id: &str,
    sender_sub_id: &str,
    password: &str,
    seq_num: u64,
    sending_time: &[u8],
) -> (body: Vec<u8>)
    ensures
        body@ == logon_body_text(
            sender_id.spec_bytes(),
            target_id.spec_bytes(),
            sender_sub_id.spec_bytes(),
            password.spec_bytes(),
            seq_num as nat,
            sending_time@,
        ),
{
    let sender = sender_id.as_bytes();
    let seq_text = format_decimal(seq_num);
    let mut body: Vec<u8> = Vec::new();
    append_field(&mut body, 49, sender);
    append_field(&mut body, 56, target_id.as_bytes());
    append_field(&mut body, 50, sender_sub_id.as_bytes());
    append_field(&mut body, 57, sender_sub_id.as_bytes());
    append_field(&mut body, 34, seq_text.as_slice());
    append_field(&mut body, 52, sending_time);
    append_field(&mut body, 98, &[48u8]);
    append_field(&mut body, 108, &[51u8, 48u8]);
    append_field(&mut body, 553, account_number_of(sender));
    append_field(&mut body, 554, password.as_bytes());
    append_field(&mut body, 141, &[89u8]);
    assert(body@ =~= logon_body_text(
        sender_id.spec_bytes(),
        target_id.spec_bytes(),
        sender_sub_id.spec_bytes(),
        password.spec_bytes(),
        seq_num as nat,
        sending_time@,
    ));
    body
}

/// Heartbeat body (see `heartbeat_body_text`) for a given SendingTime.
pub fn heartbeat_body(
    sender_id: &str,
    target_id: &str,
    seq_num: u64,
    sending_time: &[u8],
    test_req_id: Option<&str>,
) -> (body: Vec<u8>)
    ensures
        body@ == heartbeat_body_text(
            sender_id.spec_bytes(),
            target_id.spec_bytes(),
            seq_num as nat,
            sending_time@,
            optional_text(test_req_id),
        ),
{
    let seq_text = format_decimal(seq_num);
    let mut body: Vec<u8> = Vec::new();
    append_field(&mut body, 49, sender_id.as_bytes());
    append_field(&mut body, 56, target_id.as_bytes());
    append_field(&mut body, 34, seq_text.as_slice());
    append_field(&mut body, 52, sending_time);
    let ghost head = body@;
    match test_req_id {
        Some(id) => {
            append_field(&mut body, 112, id.as_bytes());
        },
        None => {
            assert(body@ =~= head + seq![]);
        },
    }
    body
}

/// MarketDataRequest body (see `market_data_request_body_text`) for a given
/// SendingTime.
pub fn market_data_request_body(
    sender_id: &str,
    target_id: &str,
    seq_num: u64,
    sending_time: &[u8],
    symbol: &str,
) -> (body: Vec<u8>)
    ensures
        body@ == market_data_request_body_text(
            sender_id.spec_bytes(),
            target_id.spec_bytes(),
            seq_num as nat,
            sending_time@,
            symbol.spec_bytes(),
        ),
{
    let seq_text = format_decimal(seq_num);
    let quote: [u8; 5] = [81u8, 85u8, 79u8, 84u8, 69u8];
    let req_id: [u8; 12] = [82u8, 69u8, 81u8, 95u8, 68u8, 69u8, 69u8, 80u8, 95u8, 76u8, 79u8, 66u8];
    assert(quote@ =~= seq![81u8, 85u8, 79u8, 84u8, 69u8]);
    assert(req_id@ =~= seq![82u8, 69u8, 81u8, 95u8, 68u8, 69u8, 69u8, 80u8, 95u8, 76u8, 79u8, 66u8]);
    let mut body: Vec<u8> = Vec::new();
    append_field(&mut body, 49, sender_id.as_bytes());
    append_field(&mut body, 56, target_id.as_bytes());
    append_field(&mut body, 34, seq_text.as_slice());
    append_field(&mut body, 52, sending_time);
    append_field(&mut body, 57, &quote);
    append_field(&mut body, 262, &req_id);
    append_field(&mut body, 263, &[49u8]);
    append_field(&mut body, 264, &[48u8]);
    append_field(&mut body, 265, &[49u8]);
    append_field(&mut body, 267, &[51u8]);
    append_field(&mut body, 269, &[48u8]);
    append_field(&mut body, 269, &[49u8]);
    append_field(&mut body, 269, &[50u8]);
    append_field(&mut body, 146, &[49u8]);
    append_field(&mut body, 55, symbol.as_bytes());
    body
}

/// Appends the order fields shared by new and closing orders
/// (see `order_head_text`).
fn append_order_head(
    body: &mut Vec<u8>,
    sender_id: &str,
    target_id: &str,
    seq_num: u64,
    sending_time: &[u8],
    cl_ord_id: &str,
    symbol: &str,
    side: char,
    qty: u64,
)
    ensures
        final(body)@ == old(body)@ + order_head_text(
            sender_id.spec_bytes(),
            target_id.spec_bytes(),
            seq_num as nat,
            sending_time@,
            cl_ord_id.spec_bytes(),
            symbol.spec_bytes(),
            side as u8,
            qty as nat,
        ),
{
    let ghost start = body@;
    let seq_text = format_decimal(seq_num);
    let qty_text = format_decimal(RiskManager::normalize_qty(qty));
    let trade: [u8; 5] = [84u8, 82u8, 65u8, 68u8, 69u8];
    assert(trade@ =~= seq![84u8, 82u8, 65u8, 68u8, 69u8]);
    let side_byte: [u8; 1] = [side as u8];
    assert(side_byte@ =~= seq![side as u8]);
    append_field(body, 49, sender_id.as_bytes());
    append_field(body, 56, target_id.as_bytes());
    append_field(body, 34, seq_text.as_slice());
    append_field(body, 52, sending_time);
    append_field(body, 57, &trade);
    append_field(body, 11, cl_ord_id.as_bytes());
    append_field(body, 55, symbol.as_bytes());
    append_field(body, 54, &side_byte);
    append_field(body, 60, sending_time);
    append_field(body, 38, qty_text.as_slice());
    assert(body@ =~= start + order_head_text(
        sender_id.spec_bytes(),
        target_id.spec_bytes(),
        seq_num as nat,
        sending_time@,
        cl_ord_id.spec_bytes(),
        symbol.spec_bytes(),
        side as u8,
        qty as nat,
    ));
}

/// Market order body (see `order_request_body_text`) for a given
/// SendingTime. The side is written as its low byte; the stop price is a
/// fixed-point value with five decimals.
pub fn order_request_body(
    sender_id: &str,
    target_id: &str,
    seq_num: u64,
    sending_time: &[u8],
    cl_ord_id: &str,
    symbol: &str,
    side: char,
    qty: u64,
    hard_stop_price: i64,
) -> (body: Vec<u8>)
    ensures
        body@ == order_request_body_text(
            sender_id.spec_bytes(),
            target_id.spec_bytes(),
            seq_num as nat,
            sending_time@,
            cl_ord_id.spec_bytes(),
            symbol.spec_bytes(),
            side as u8,
            qty as nat,
            hard_stop_price as int,
        ),
{
    let mut body: Vec<u8> = Vec::new();
    append_order_head(&mut body, sender_id, target_id, seq_num, sending_time, cl_ord_id, symbol, side, qty);
    let price_text = format_fixed(hard_stop_price);
    append_field(&mut body, 40, &[49u8]);
    append_field(&mut body, 59, &[49u8]);
    append_field(&mut body, 99, price_text.as_slice());
    assert(body@ =~= order_request_body_text(
        sender_id.spec_bytes(),
        target_id.spec_bytes(),
        seq_num as nat,
        sending_time@,
        cl_ord_id.spec_bytes(),
        symbol.spec_bytes(),
        side as u8,
        qty as nat,
        hard_stop_price as int,
    ));
    body
}

/// Closing order body (see `close_order_body_text`) for a given SendingTime.
pub fn close_order_body(
    sender_id: &str,
    target_id: &str,
    seq_num: u64,
    sending_time: &[u8],
    cl_ord_id: &str,
    symbol: &str,
    side: char,
    qty: u64,
    broker_position_id: &str,
) -> (body: Vec<u8>)
    ensures
        body@ == close_order_body_text(
            sender_id.spec_bytes(),
            target_id.spec_bytes(),
            seq_num as nat,
            sending_time@,
            cl_ord_id.spec_bytes(),
            symbol.spec_bytes(),
            side as u8,
            qty as nat,
            broker_position_id.spec_bytes(),
        ),
{
    let mut body: Vec<u8> = Vec::new();
    append_order_head(&mut body, sender_id, target_id, seq_num, sending_time, cl_ord_id, symbol, side, qty);
    append_field(&mut body, 40, &[49u8]);
    append_field(&mut body, 721, broker_position_id.as_bytes());
    assert(body@ =~= close_order_body_text(
        sender_id.spec_bytes(),
        target_id.spec_bytes(),
        seq_num as nat,
        sending_time@,
        cl_ord_id.spec_bytes(),
        symbol.spec_bytes(),
        side as u8,
        qty as nat,
        broker_position_id.spec_bytes(),
    ));
    body
}

/// The logon message that the clock reading `secs`, `nanos` gives: the framed message stamped with
/// `sending_time_text` of the reading, nothing when that has no text.
pub open spec fn logon_message(
    sender_id: Seq<u8>,
    target_id: Seq<u8>,
    sender_sub_id: Seq<u8>,
    password: Seq<u8>,
    seq_num: nat,
    secs: u64,
    nanos: u32,
) -> Seq<u8> {
    match sending_time_text(secs, nanos) {
        Some(ts) => fix_frame(
            fix44(),
            seq![65u8],
            logon_body_text(
                sender_id,
                target_id,
                sender_sub_id,
                password,
                seq_num,
                ts,
            ),
            1u8,
        ),
        None => Seq::empty(),
    }
}

/// The heartbeat message that the clock reading `secs`, `nanos` gives: the framed message stamped
/// with `sending_time_text` of the reading, nothing when that has no text.
pub open spec fn heartbeat_message(
    sender_id: Seq<u8>,
    target_id: Seq<u8>,
    seq_num: nat,
    test_req_id: Option<Seq<u8>>,
    secs: u64,
    nanos: u32,
) -> Seq<u8> {
    match sending_time_text(secs, nanos) {
        Some(ts) => fix_frame(
            fix44(),
            seq![48u8],
            heartbeat_body_text(
                sender_id,
                target_id,
                seq_num,
                ts,
                test_req_id,
            ),
            1u8,
        ),
        None => Seq::empty(),
    }
}

/// The market data request message that the clock reading `secs`, `nanos` gives: the framed message
/// stamped with `sending_time_text` of the reading, nothing when that has no text.
pub open spec fn market_data_request_message(
    sender_id: Seq<u8>,
    target_id: Seq<u8>,
    seq_num: nat,
    symbol: Seq<u8>,
    secs: u64,
    nanos: u32,
) -> Seq<u8> {
    match sending_time_text(secs, nanos) {
        Some(ts) => fix_frame(
            fix44(),
            seq![86u8],
            market_data_request_body_text(
                sender_id,
                target_id,
                seq_num,
                ts,
                symbol,
            ),
            1u8,
        ),
        None => Seq::empty(),
    }
}

/// The order request message that the clock reading `secs`, `nanos` gives: the framed message
/// stamped with `sending_time_text` of the reading, nothing when that has no text.
pub open spec fn order_request_message(
    sender_id: Seq<u8>,
    target_id: Seq<u8>,
    seq_num: nat,
    cl_ord_id: Seq<u8>,
    symbol: Seq<u8>,
    side: u8,
    qty: nat,
    hard_stop_price: int,
    secs: u64,
    nanos: u32,
) -> Seq<u8> {
    match sending_time_text(secs, nanos) {
        Some(ts) => fix_frame(
            fix44(),
            seq![68u8],
            order_request_body_text(
                sender_id,
                target_id,
                seq_num,
                ts,
                cl_ord_id,
                symbol,
                side,
                qty,
                hard_stop_price,
            ),
            1u8,
        ),
        None => Seq::empty(),
    }
}

/// The close order message that the clock reading `secs`, `nanos` gives: the framed message stamped
/// with `sending_time_text` of the reading, nothing when that has no text.
pub open spec fn close_order_message(
    sender_id: Seq<u8>,
    target_id: Seq<u8>,
    seq_num: nat,
    cl_ord_id: Seq<u8>,
    symbol: Seq<u8>,
    side: u8,
    qty: nat,
    broker_position_id: Seq<u8>,
    secs: u64,
    nanos: u32,
) -> Seq<u8> {
    match sending_time_text(secs, nanos) {
        Some(ts) => fix_frame(
            fix44(),
            seq![68u8],
            close_order_body_text(
                sender_id,
                target_id,
                seq_num,
                ts,
                cl_ord_id,
                symbol,
                side,
                qty,
                broker_position_id,
            ),
            1u8,
        ),
        None => Seq::empty(),
    }
}

/// The engine that frames outgoing messages.
pub struct FixEngine {}

impl FixEngine {
    pub fn new() -> Self {
        Self {}
    }

    /// Writes into `buffer` (cleared first) a Logon stamped with the clock reading `secs`, `nanos`
    /// (see `logon_message`).
    pub fn build_logon_at(
        &mut self,
        buffer: &mut Vec<u8>,
        sender_id: &str,
        target_id: &str,
        sender_sub_id: &str,
        password: &str,
        seq_num: u64,
        secs: u64,
        nanos: u32,
    )
        ensures
            final(buffer)@ == logon_message(
                sender_id.spec_bytes(),
                target_id.spec_bytes(),
                sender_sub_id.spec_bytes(),
                password.spec_bytes(),
                seq_num as nat,
                secs,
                nanos,
            ),
    {
        buffer.clear();
        let ts = match sending_time_at(secs, nanos) {
            Some(t) => t,
            None => return,
        };
        let body = logon_body(
            sender_id,
            target_id,
            sender_sub_id,
            password,
            seq_num,
            ts.as_slice(),
        );
        let begin: [u8; 7] = [70u8, 73u8, 88u8, 46u8, 52u8, 46u8, 52u8];
        let msg_type: [u8; 1] = [65u8];
        assert(begin@ =~= fix44());
        assert(msg_type@ =~= seq![65u8]);
        encode_message(buffer, &begin, &msg_type, body.as_slice());
    }

    /// Writes into `buffer` (cleared first) a Logon stamped with the current time: `build_logon_at`
    /// with the clock's reading. A clock that reads before the Unix epoch leaves the buffer empty,
    /// as does a reading without a SendingTime text.
    pub fn build_logon(
        &mut self,
        buffer: &mut Vec<u8>,
        sender_id: &str,
        target_id: &str,
        sender_sub_id: &str,
        password: &str,
        seq_num: u64,
    )
        ensures
            exists|secs: u64, nanos: u32|
                nanos < 1_000_000_000 && final(buffer)@ == #[trigger] logon_message(
                    sender_id.spec_bytes(),
                    target_id.spec_bytes(),
                    sender_sub_id.spec_bytes(),
                    password.spec_bytes(),
                    seq_num as nat,
                    secs,
                    nanos,
                ),
    {
        match clock_reading() {
            Some((secs, nanos)) => self.build_logon_at(
                buffer,
                sender_id,
                target_id,
                sender_sub_id,
                password,
                seq_num,
                secs,
                nanos,
            ),
            None => {
                buffer.clear();
                assert(sending_time_text(u64::MAX, 0) is None);
                assert(buffer@ =~= logon_message(
                    sender_id.spec_bytes(),
                    target_id.spec_bytes(),
                    sender_sub_id.spec_bytes(),
                    password.spec_bytes(),
                    seq_num as nat,
                    u64::MAX,
                    0,
                ));
            },
        }
    }

    /// Writes into `buffer` (cleared first) a Heartbeat stamped with the clock reading `secs`,
    /// `nanos`, answering `test_req_id` when given (see `heartbeat_message`).
    pub fn build_heartbeat_at(
        &mut self,
        buffer: &mut Vec<u8>,
        sender_id: &str,
        target_id: &str,
        seq_num: u64,
        test_req_id: Option<&str>,
        secs: u64,
        nanos: u32,
    )
        ensures
            final(buffer)@ == heartbeat_message(
                sender_id.spec_bytes(),
                target_id.spec_bytes(),
                seq_num as nat,
                optional_text(test_req_id),
                secs,
                nanos,
            ),
    {
        buffer.clear();
        let ts = match sending_time_at(secs, nanos) {
            Some(t) => t,
            None => return,
        };
        let body = heartbeat_body(sender_id, target_id, seq_num, ts.as_slice(), test_req_id);
        let begin: [u8; 7] = [70u8, 73u8, 88u8, 46u8, 52u8, 46u8, 52u8];
        let msg_type: [u8; 1] = [48u8];
        assert(begin@ =~= fix44());
        assert(msg_type@ =~= seq![48u8]);
        encode_message(buffer, &begin, &msg_type, body.as_slice());
    }

    /// Writes into `buffer` (cleared first) a Heartbeat stamped with the current time, answering
    /// `test_req_id` when given: `build_heartbeat_at` with the clock's reading. A clock that reads
    /// before the Unix epoch leaves the buffer empty, as does a reading without a SendingTime text.
    pub fn build_heartbeat(
        &mut self,
        buffer: &mut Vec<u8>,
        sender_id: &str,
        target_id: &str,
        seq_num: u64,
        test_req_id: Option<&str>,
    )
        ensures
            exists|secs: u64, nanos: u32|
                nanos < 1_000_000_000 && final(buffer)@ == #[trigger] heartbeat_message(
                    sender_id.spec_bytes(),
                    target_id.spec_bytes(),
                    seq_num as nat,
                    optional_text(test_req_id),
                    secs,
                    nanos,
                ),
    {
        match clock_reading() {
            Some((secs, nanos)) => self.build_heartbeat_at(
                buffer,
                sender_id,
                target_id,
                seq_num,
                test_req_id,
                secs,
                nanos,
            ),
            None => {
                buffer.clear();
                assert(sending_time_text(u64::MAX, 0) is None);
                assert(buffer@ =~= heartbeat_message(
                    sender_id.spec_bytes(),
                    target_id.spec_bytes(),
                    seq_num as nat,
                    optional_text(test_req_id),
                    u64::MAX,
                    0,
                ));
            },
        }
    }

    /// Writes into `buffer` (cleared first) a MarketDataRequest for the full book of `symbol`,
    /// stamped with the clock reading `secs`, `nanos` (see `market_data_request_message`).
    pub fn build_market_data_request_at(
        &mut self,
        buffer: &mut Vec<u8>,
        sender_id: &str,
        target_id: &str,
        seq_num: u64,
        symbol: &str,
        secs: u64,
        nanos: u32,
    )
        ensures
            final(buffer)@ == market_data_request_message(
                sender_id.spec_bytes(),
                target_id.spec_bytes(),
                seq_num as nat,
                symbol.spec_bytes(),
                secs,
                nanos,
            ),
    {
        buffer.clear();
        let ts = match sending_time_at(secs, nanos) {
            Some(t) => t,
            None => return,
        };
        let body = market_data_request_body(sender_id, target_id, seq_num, ts.as_slice(), symbol);
        let begin: [u8; 7] = [70u8, 73u8, 88u8, 46u8, 52u8, 46u8, 52u8];
        let msg_type: [u8; 1] = [86u8];
        assert(begin@ =~= fix44());
        assert(msg_type@ =~= seq![86u8]);
        encode_message(buffer, &begin, &msg_type, body.as_slice());
    }

    /// Writes into `buffer` (cleared first) a MarketDataRequest for the full book of `symbol`,
    /// stamped with the current time: `build_market_data_request_at` with the clock's reading. A
    /// clock that reads before the Unix epoch leaves the buffer empty, as does a reading without a
    /// SendingTime text.
    pub fn build_market_data_request(
        &mut self,
        buffer: &mut Vec<u8>,
        sender_id: &str,
        target_id: &str,
        seq_num: u64,
        symbol: &str,
    )
        ensures
            exists|secs: u64, nanos: u32|
                nanos < 1_000_000_000 && final(buffer)@ == #[trigger] market_data_request_message(
                    sender_id.spec_bytes(),
                    target_id.spec_bytes(),
                    seq_num as nat,
                    symbol.spec_bytes(),
                    secs,
                    nanos,
                ),
    {
        match clock_reading() {
            Some((secs, nanos)) => self.build_market_data_request_at(
                buffer,
                sender_id,
                target_id,
                seq_num,
                symbol,
                secs,
                nanos,
            ),
            None => {
                buffer.clear();
                assert(sending_time_text(u64::MAX, 0) is None);
                assert(buffer@ =~= market_data_request_message(
                    sender_id.spec_bytes(),
                    target_id.spec_bytes(),
                    seq_num as nat,
                    symbol.spec_bytes(),
                    u64::MAX,
                    0,
                ));
            },
        }
    }

    /// Writes into `buffer` (cleared first) a market order stamped with the clock reading `secs`,
    /// `nanos` (SendingTime and TransactTime) (see `order_request_message`).
    pub fn build_order_request_at(
        &mut self,
        buffer: &mut Vec<u8>,
        sender_id: &str,
        target_id: &str,
        seq_num: u64,
        cl_ord_id: &str,
        symbol: &str,
        side: char,
        qty: u64,
        hard_stop_price: i64,
        secs: u64,
        nanos: u32,
    )
        ensures
            final(buffer)@ == order_request_message(
                sender_id.spec_bytes(),
                target_id.spec_bytes(),
                seq_num as nat,
                cl_ord_id.spec_bytes(),
                symbol.spec_bytes(),
                side as u8,
                qty as nat,
                hard_stop_price as int,
                secs,
                nanos,
            ),
    {
        buffer.clear();
        let ts = match sending_time_at(secs, nanos) {
            Some(t) => t,
            None => return,
        };
        let body = order_request_body(
            sender_id,
            target_id,
            seq_num,
            ts.as_slice(),
            cl_ord_id,
            symbol,
            side,
            qty,
            hard_stop_price,
        );
        let begin: [u8; 7] = [70u8, 73u8, 88u8, 46u8, 52u8, 46u8, 52u8];
        let msg_type: [u8; 1] = [68u8];
        assert(begin@ =~= fix44());
        assert(msg_type@ =~= seq![68u8]);
        encode_message(buffer, &begin, &msg_type, body.as_slice());
    }

    /// Writes into `buffer` (cleared first) a market order stamped with the current time
    /// (SendingTime and TransactTime): `build_order_request_at` with the clock's reading. A clock
    /// that reads before the Unix epoch leaves the buffer empty, as does a reading without a
    /// SendingTime text.
    pub fn build_order_request(
        &mut self,
        buffer: &mut Vec<u8>,
        sender_id: &str,
        target_id: &str,
        seq_num: u64,
        cl_ord_id: &str,
        symbol: &str,
        side: char,
        qty: u64,
        hard_stop_price: i64,
    )
        ensures
            exists|secs: u64, nanos: u32|
                nanos < 1_000_000_000 && final(buffer)@ == #[trigger] order_request_message(
                    sender_id.spec_bytes(),
                    target_id.spec_bytes(),
                    seq_num as nat,
                    cl_ord_id.spec_bytes(),
                    symbol.spec_bytes(),
                    side as u8,
                    qty as nat,
                    hard_stop_price as int,
                    secs,
                    nanos,
                ),
    {
        match clock_reading() {
            Some((secs, nanos)) => self.build_order_request_at(
                buffer,
                sender_id,
                target_id,
                seq_num,
                cl_ord_id,
                symbol,
                side,
                qty,
                hard_stop_price,
                secs,
                nanos,
            ),
            None => {
                buffer.clear();
                assert(sending_time_text(u64::MAX, 0) is None);
                assert(buffer@ =~= order_request_message(
                    sender_id.spec_bytes(),
                    target_id.spec_bytes(),
                    seq_num as nat,
                    cl_ord_id.spec_bytes(),
                    symbol.spec_bytes(),
                    side as u8,
                    qty as nat,
                    hard_stop_price as int,
                    u64::MAX,
                    0,
                ));
            },
        }
    }

    /// Writes into `buffer` (cleared first) an order that closes the broker's position
    /// `broker_position_id`, stamped with the clock reading `secs`, `nanos` (see
    /// `close_order_message`).
    pub fn build_close_order_at(
        &mut self,
        buffer: &mut Vec<u8>,
        sender_id: &str,
        target_id: &str,
        seq_num: u64,
        cl_ord_id: &str,
        symbol: &str,
        side: char,
        qty: u64,
        broker_position_id: &str,
        secs: u64,
        nanos: u32,
    )
        ensures
            final(buffer)@ == close_order_message(
                sender_id.spec_bytes(),
                target_id.spec_bytes(),
                seq_num as nat,
                cl_ord_id.spec_bytes(),
                symbol.spec_bytes(),
                side as u8,
                qty as nat,
                broker_position_id.spec_bytes(),
                secs,
                nanos,
            ),
    {
        buffer.clear();
        let ts = match sending_time_at(secs, nanos) {
            Some(t) => t,
            None => return,
        };
        let body = close_order_body(
            sender_id,
            target_id,
            seq_num,
            ts.as_slice(),
            cl_ord_id,
            symbol,
            side,
            qty,
            broker_position_id,
        );
        let begin: [u8; 7] = [70u8, 73u8, 88u8, 46u8, 52u8, 46u8, 52u8];
        let msg_type: [u8; 1] = [68u8];
        assert(begin@ =~= fix44());
        assert(msg_type@ =~= seq![68u8]);
        encode_message(buffer, &begin, &msg_type, body.as_slice());
    }

    /// Writes into `buffer` (cleared first) an order that closes the broker's position
    /// `broker_position_id`, stamped with the current time: `build_close_order_at` with the clock's
    /// reading. A clock that reads before the Unix epoch leaves the buffer empty, as does a reading
    /// without a SendingTime text.
    pub fn build_close_order(
        &mut self,
        buffer: &mut Vec<u8>,
        sender_id: &str,
        target_id: &str,
        seq_num: u64,
        cl_ord_id: &str,
        symbol: &str,
        side: char,
        qty: u64,
        broker_position_id: &str,
    )
        ensures
            exists|secs: u64, nanos: u32|
                nanos < 1_000_000_000 && final(buffer)@ == #[trigger] close_order_message(
                    sender_id.spec_bytes(),
                    target_id.spec_bytes(),
                    seq_num as nat,
                    cl_ord_id.spec_bytes(),
                    symbol.spec_bytes(),
                    side as u8,
                    qty as nat,
                    broker_position_id.spec_bytes(),
                    secs,
                    nanos,
                ),
    {
        match clock_reading() {
            Some((secs, nanos)) => self.build_close_order_at(
                buffer,
                sender_id,
                target_id,
                seq_num,
                cl_ord_id,
                symbol,
                side,
                qty,
                broker_position_id,
                secs,
                nanos,
            ),
            None => {
                buffer.clear();
                assert(sending_time_text(u64::MAX, 0) is None);
                assert(buffer@ =~= close_order_message(
                    sender_id.spec_bytes(),
                    target_id.spec_bytes(),
                    seq_num as nat,
                    cl_ord_id.spec_bytes(),
                    symbol.spec_bytes(),
                    side as u8,
                    qty as nat,
                    broker_position_id.spec_bytes(),
                    u64::MAX,
                    0,
                ));
            },
        }
    }
}

/// For a body below 256 bytes the BodyLength digits that `fefix` writes
/// spell the body's length, zero-padded to six digits. (From 256 bytes on
/// the digits are taken from the quotients cut to a byte, and they no
/// longer spell the length.)
pub proof fn lemma_body_length_text(n: nat)
    requires
        n < 256,
    ensures
        body_length_text(n).len() == 6,
        all_digits(body_length_text(n)),
        digits_value(body_length_text(n)) == n,
{
    assert(n / 100000 == 0 && n / 10000 == 0 && n / 1000 == 0);
    assert(n / 100 < 256 && n / 10 < 256);
    let z = 48u8;
    let c = (n / 100 % 10 + 48) as u8;
    let d = (n / 10 % 10 + 48) as u8;
    let e = (n % 10 + 48) as u8;
    let empty = Seq::<u8>::empty();
    assert(digits_value(empty) == 0);
    lemma_digits_value_push(empty, z);
    lemma_digits_value_push(empty.push(z), z);
    lemma_digits_value_push(empty.push(z).push(z), z);
    lemma_digits_value_push(empty.push(z).push(z).push(z), c);
    lemma_digits_value_push(empty.push(z).push(z).push(z).push(c), d);
    lemma_digits_value_push(empty.push(z).push(z).push(z).push(c).push(d), e);
    assert(body_length_text(n) =~= empty.push(z).push(z).push(z).push(c).push(d).push(e));
    assert((n / 100 % 10 * 10 + n / 10 % 10) * 10 + n % 10 == n) by (nonlinear_arith)
        requires
            n < 256,
    ;
}

/// The CheckSum digits spell the checksum.
pub proof fn lemma_checksum_text(c: nat)
    requires
        c < 256,
    ensures
        checksum_text(c).len() == 3,
        all_digits(checksum_text(c)),
        digits_value(checksum_text(c)) == c,
{
    let a = (c / 100 + 48) as u8;
    let b = (c / 10 % 10 + 48) as u8;
    let d = (c % 10 + 48) as u8;
    let empty = Seq::<u8>::empty();
    assert(digits_value(empty) == 0);
    lemma_digits_value_push(empty, a);
    lemma_digits_value_push(empty.push(a), b);
    lemma_digits_value_push(empty.push(a).push(b), d);
    assert(checksum_text(c) =~= empty.push(a).push(b).push(d));
    assert((c / 100 * 10 + c / 10 % 10) * 10 + c % 10 == c) by (nonlinear_arith)
        requires
            c < 256,
    ;
}

/// Every framed message declares its own size and checksum: the BodyLength
/// field spells the length of the MsgType field and body (when below 256
/// bytes) and the CheckSum field spells the sum, modulo 256, of all bytes
/// before it.
pub proof fn lemma_frame_declares_length_and_checksum(
    begin_string: Seq<u8>,
    msg_type: Seq<u8>,
    body: Seq<u8>,
    sep: u8,
)
    requires
        (field_text(35, msg_type, sep) + body).len() < 256,
    ensures
        ({
            let rest = field_text(35, msg_type, sep) + body;
            let head = field_text(8, begin_string, sep) + field_text(9, body_length_text(rest.len()), sep)
                + rest;
            &&& digits_value(body_length_text(rest.len())) == rest.len()
            &&& digits_value(checksum_text(byte_sum(head) % 256)) == byte_sum(head) % 256
            &&& fix_frame(begin_string, msg_type, body, sep) == head + field_text(
                10,
                checksum_text(byte_sum(head) % 256),
                sep,
            )
        }),
{
    let rest = field_text(35, msg_type, sep) + body;
    let head = field_text(8, begin_string, sep) + field_text(9, body_length_text(rest.len()), sep) + rest;
    lemma_body_length_text(rest.len());
    lemma_checksum_text(byte_sum(head) % 256);
}

} // verus!
