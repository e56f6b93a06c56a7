//! Scoring a compact request body by rules, and by a model where the rules are silent.
use vstd::prelude::*;

use crate::calendar::{date_seconds, date_weekday, epoch_seconds_and_weekday_for_known_date,
    epoch_seconds_for_known_date, is_known_date};
use crate::scanning::{bytes_stand_at, find_byte, first_byte, is_digit, same_bytes, stands_at, word, Span};
use crate::time::{civil_days, digits_value, time_fields, time_of};
use crate::vector::{mcc_risk_bytes, mcc_risk_value};

verus! {

/// What is read from a compact body before any rule is tried.
#[derive(Clone, Copy)]
pub struct FastFields {
    pub amount: Span,
    pub installments: u8,
    pub requested_at: Span,
    pub customer_avg: Span,
    pub tx_count_24h: u8,
    pub known_merchants: Span,
    pub merchant_id: Span,
    pub merchant_mcc: Span,
    pub merchant_avg_value_start: usize,
    pub is_online_value_start: usize,
    pub card_present_value_start: usize,
    pub km_from_home: Span,
    pub after_km_from_home: usize,
}

/// What the model needs besides the fields that the rules use.
#[derive(Clone, Copy)]
pub struct FastFeatures {
    pub hour: u8,
    pub weekday_monday0: u8,
    pub merchant_known: bool,
    pub mcc_risk: i16,
    pub merchant_avg: Span,
    pub is_online: bool,
    pub card_present: bool,
    /// Seconds since the earlier transaction, not below zero, and its distance.
    pub last: Option<(i32, Span)>,
}

/// The numbers that the rules compare.
pub struct RuleNumbers<'a> {
    pub amount: &'a [u8],
    pub customer_avg: &'a [u8],
    pub km_from_home: &'a [u8],
}

/// How the numbers compare with the limits of the rules.
#[derive(Clone, Copy, Debug)]
pub struct Comparisons {
    /// The amount is at most 500.
    pub small_amount: bool,
    /// The amount is at most 0.50001 of the customer's average.
    pub small_ratio: bool,
    /// The terminal is at most 50 km from home.
    pub near_home: bool,
    /// The amount is at least 5 000.
    pub large_amount: bool,
    /// The terminal is at least 150 km from home.
    pub far_from_home: bool,
}

/// Everything that the model is asked about.
pub struct ModelInputs<'a> {
    pub amount: &'a [u8],
    pub installments: u8,
    pub customer_avg: &'a [u8],
    pub hour: u8,
    pub weekday_monday0: u8,
    pub last: Option<(i32, &'a [u8])>,
    pub km_from_home: &'a [u8],
    pub tx_count_24h: u8,
    pub is_online: bool,
    pub card_present: bool,
    pub merchant_known: bool,
    pub mcc_risk: i16,
    pub merchant_avg: &'a [u8],
}

/// Where a word ends that stands at a position.
pub open spec fn past(body: Seq<u8>, at: int, expected: Seq<u8>) -> Option<int> {
    if stands_at(body, at, expected) { Some(at + expected.len()) } else { None }
}

/// The first position, from `at` on, that holds no digit.
pub open spec fn digits_end(body: Seq<u8>, at: int) -> int
    decreases body.len() - at,
{
    if 0 <= at < body.len() && is_digit(body[at]) {
        digits_end(body, at + 1)
    } else {
        at
    }
}

/// Where the number ends that begins at a position: digits, then optionally a point and digits.
pub open spec fn number_past(body: Seq<u8>, at: int) -> Option<int> {
    if at < body.len() && is_digit(body[at]) {
        let whole = digits_end(body, at + 1);
        Some(if whole < body.len() && body[whole] == 46 { digits_end(body, whole + 1) } else { whole })
    } else {
        None
    }
}

/// The number of one or two digits at a position, and where it ends.
pub open spec fn count_at(body: Seq<u8>, at: int) -> Option<(u8, int)> {
    if at >= body.len() || !is_digit(body[at]) {
        None
    } else if at + 1 < body.len() && is_digit(body[at + 1]) {
        Some((((body[at] - 48) * 10 + (body[at + 1] - 48)) as u8, at + 2))
    } else {
        Some(((body[at] - 48) as u8, at + 1))
    }
}

/// The number behind a prefix, and where it ends.
pub open spec fn number_field(body: Seq<u8>, at: int, prefix: Seq<u8>) -> Option<(Span, int)> {
    match past(body, at, prefix) {
        Some(start) => match number_past(body, start) {
            Some(end) => Some((Span { start: start as usize, end: end as usize }, end)),
            None => None,
        },
        None => None,
    }
}

/// The count behind a prefix, and where it ends.
pub open spec fn count_field(body: Seq<u8>, at: int, prefix: Seq<u8>) -> Option<(u8, int)> {
    match past(body, at, prefix) {
        Some(start) => count_at(body, start),
        None => None,
    }
}

/// The string of `len` bytes behind a prefix, and the position past its closing quote.
pub open spec fn fixed_field(body: Seq<u8>, at: int, prefix: Seq<u8>, len: int) -> Option<(Span, int)> {
    match past(body, at, prefix) {
        Some(start) => if start + len < body.len() && body[start + len] == 34 {
            Some((Span { start: start as usize, end: (start + len) as usize }, start + len + 1))
        } else {
            None
        },
        None => None,
    }
}

/// The array behind a prefix, and the position past its closing bracket.
pub open spec fn array_field(body: Seq<u8>, at: int, prefix: Seq<u8>) -> Option<(Span, int)> {
    match past(body, at, prefix) {
        Some(start) => match first_byte(body, start, 93) {
            Some(end) => Some((Span { start: start as usize, end: end as usize }, end + 1)),
            None => None,
        },
        None => None,
    }
}

/// The truth value that begins at a position.
pub open spec fn bool_at(body: Seq<u8>, at: int) -> Option<bool> {
    if at >= body.len() {
        None
    } else if body[at] == 116 {
        Some(true)
    } else if body[at] == 102 {
        Some(false)
    } else {
        None
    }
}

/// The position past the truth value that begins at a position.
pub open spec fn bool_past(body: Seq<u8>, at: int) -> Option<int> {
    match bool_at(body, at) {
        Some(value) => Some(at + if value { 4int } else { 5 }),
        None => None,
    }
}

/// Where the fields of the transaction begin.
pub open spec fn transaction_start(body: Seq<u8>) -> Option<int> {
    match past(body, 0, word("{\"id\":"@)) {
        Some(id) => if id < body.len() && body[id] == 34 {
            match first_byte(body, id + 1, 34) {
                Some(end) => past(body, end + 1, word(",\"transaction\":{"@)),
                None => None,
            }
        } else {
            None
        },
        None => None,
    }
}

/// The amount, installments and time of the transaction, and where they end.
pub open spec fn transaction_fields(body: Seq<u8>, at: int) -> Option<(Span, u8, Span, int)> {
    match number_field(body, at, word("\"amount\":"@)) {
        Some((amount, a)) => match count_field(body, a, word(",\"installments\":"@)) {
            Some((installments, b)) => match fixed_field(body, b, word(",\"requested_at\":\""@), 20) {
                Some((requested, c)) => Some((amount, installments, requested, c)),
                None => None,
            },
            None => None,
        },
        None => None,
    }
}

/// The average, count and merchants of the customer, and where they end.
pub open spec fn customer_fields(body: Seq<u8>, at: int) -> Option<(Span, u8, Span, int)> {
    match past(body, at, word("},\"customer\":{"@)) {
        Some(start) => match number_field(body, start, word("\"avg_amount\":"@)) {
            Some((average, a)) => match count_field(body, a, word(",\"tx_count_24h\":"@)) {
                Some((count, b)) => match array_field(body, b, word(",\"known_merchants\":["@)) {
                    Some((known, c)) => Some((average, count, known, c)),
                    None => None,
                },
                None => None,
            },
            None => None,
        },
        None => None,
    }
}

/// The id and category of the merchant, where its average begins, and where the merchant ends.
pub open spec fn merchant_fields(body: Seq<u8>, at: int) -> Option<(Span, Span, int, int)> {
    match past(body, at, word("},\"merchant\":{"@)) {
        Some(start) => match fixed_field(body, start, word("\"id\":\""@), 8) {
            Some((id, a)) => match fixed_field(body, a, word(",\"mcc\":\""@), 4) {
                Some((mcc, b)) => match past(body, b, word(",\"avg_amount\":"@)) {
                    Some(average) => match first_byte(body, average, 125) {
                        Some(end) => Some((id, mcc, average, end)),
                        None => None,
                    },
                    None => None,
                },
                None => None,
            },
            None => None,
        },
        None => None,
    }
}

/// Where the truth values of the terminal begin, its distance from home, and where that ends.
pub open spec fn terminal_fields(body: Seq<u8>, at: int) -> Option<(int, int, Span, int)> {
    match past(body, at, word("},\"terminal\":{"@)) {
        Some(start) => match past(body, start, word("\"is_online\":"@)) {
            Some(online) => match bool_past(body, online) {
                Some(a) => match past(body, a, word(",\"card_present\":"@)) {
                    Some(card) => match bool_past(body, card) {
                        Some(b) => match number_field(body, b, word(",\"km_from_home\":"@)) {
                            Some((km, c)) => Some((online, card, km, c)),
                            None => None,
                        },
                        None => None,
                    },
                    None => None,
                },
                None => None,
            },
            None => None,
        },
        None => None,
    }
}

/// What is read before any rule is tried, where the fields of the transaction begin at a position.
pub open spec fn fields_from(body: Seq<u8>, start: int) -> Option<FastFields> {
    match transaction_fields(body, start) {
        Some((amount, installments, requested_at, a)) => match customer_fields(body, a) {
            Some((customer_avg, tx_count_24h, known_merchants, b)) => match merchant_fields(body, b) {
                Some((merchant_id, merchant_mcc, average, c)) => match terminal_fields(body, c) {
                    Some((online, card, km_from_home, d)) => Some(
                        FastFields {
                            amount,
                            installments,
                            requested_at,
                            customer_avg,
                            tx_count_24h,
                            known_merchants,
                            merchant_id,
                            merchant_mcc,
                            merchant_avg_value_start: average as usize,
                            is_online_value_start: online as usize,
                            card_present_value_start: card as usize,
                            km_from_home,
                            after_km_from_home: d as usize,
                        },
                    ),
                    None => None,
                },
                None => None,
            },
            None => None,
        },
        None => None,
    }
}

/// What is read from a compact body before any rule is tried.
pub open spec fn fast_fields(body: Seq<u8>) -> Option<FastFields> {
    match transaction_start(body) {
        Some(start) => fields_from(body, start),
        None => None,
    }
}

impl FastFields {
    /// The fields lie within the body.
    pub open spec fn within(self, body: Seq<u8>) -> bool {
        &&& self.amount.within(body)
        &&& self.requested_at.within(body)
        &&& self.requested_at.end - self.requested_at.start == 20
        &&& self.customer_avg.within(body)
        &&& self.known_merchants.within(body)
        &&& self.merchant_id.within(body)
        &&& self.merchant_id.end - self.merchant_id.start == 8
        &&& self.merchant_mcc.within(body)
        &&& self.km_from_home.within(body)
        &&& self.after_km_from_home <= body.len()
    }
}

/// Whether a merchant stands in a list of quoted ids of eight bytes, one every eleven bytes.
pub open spec fn lists_merchant(list: Seq<u8>, cursor: int, id: Seq<u8>) -> bool
    decreases list.len() + 11 - cursor,
{
    if cursor < 0 || cursor + 10 > list.len() {
        false
    } else {
        list.subrange(cursor + 1, cursor + 9) == id || lists_merchant(list, cursor + 11, id)
    }
}

/// A category that the rules take for harmless.
pub open spec fn is_safe_mcc(mcc: Seq<u8>) -> bool {
    mcc == word("5411"@) || mcc == word("5812"@) || mcc == word("5912"@) || mcc == word("5311"@)
}

/// A category that the rules take for dangerous.
pub open spec fn is_risky_mcc(mcc: Seq<u8>) -> bool {
    mcc == word("7995"@) || mcc == word("7801"@) || mcc == word("7802"@)
}

/// What the rules say: zero for a plainly harmless request, five for a plainly dangerous one.
pub open spec fn rule_score(
    c: Comparisons,
    installments: u8,
    tx_count: u8,
    merchant_known: bool,
    mcc: Seq<u8>,
) -> Option<u8> {
    if c.small_amount && c.small_ratio && installments <= 3 && tx_count <= 5 && merchant_known
        && c.near_home && is_safe_mcc(mcc) {
        Some(0)
    } else if c.large_amount && installments >= 5 && tx_count >= 6 && !merchant_known
        && c.far_from_home && is_risky_mcc(mcc) {
        Some(5)
    } else {
        None
    }
}

/// What the rules say of the fields of a body.
pub open spec fn fields_rule_score(body: Seq<u8>, f: FastFields, c: Comparisons) -> Option<u8> {
    rule_score(
        c,
        f.installments,
        f.tx_count_24h,
        lists_merchant(f.known_merchants.of(body), 0, f.merchant_id.of(body)),
        f.merchant_mcc.of(body),
    )
}

/// A digit's value, with other bytes wrapping around.
pub open spec fn digit_value(byte: u8) -> int {
    (byte - 48) % 256
}

/// Two digits as a number that wraps around at 256.
pub open spec fn two_digits(text: Seq<u8>, at: int) -> int {
    (digit_value(text[at]) * 10 + digit_value(text[at + 1])) % 256
}

/// Four digits as a number.
pub open spec fn four_digits(text: Seq<u8>, at: int) -> int {
    digit_value(text[at]) * 1_000 + digit_value(text[at + 1]) * 100 + digit_value(text[at + 2]) * 10
        + digit_value(text[at + 3])
}

/// The date of a timestamp is one of the table.
pub open spec fn stamp_date_known(text: Seq<u8>) -> bool {
    is_known_date(four_digits(text, 0), two_digits(text, 5), two_digits(text, 8))
}

/// The seconds from 1970-01-01 to the start of a timestamp's day.
pub open spec fn stamp_day_seconds(text: Seq<u8>) -> int {
    date_seconds(four_digits(text, 0), two_digits(text, 5), two_digits(text, 8))
}

/// The hour and weekday of a timestamp, if its date is in the table and its hour is one.
pub open spec fn stamp_hour_weekday(text: Seq<u8>) -> Option<(int, int)> {
    if two_digits(text, 11) <= 23 && stamp_date_known(text) {
        Some(
            (
                two_digits(text, 11),
                date_weekday(four_digits(text, 0), two_digits(text, 5), two_digits(text, 8)),
            ),
        )
    } else {
        None
    }
}

/// The seconds from 1970-01-01 to a timestamp, if it is one of the table's.
pub open spec fn stamp_seconds(text: Seq<u8>) -> Option<int> {
    if two_digits(text, 11) <= 23 && two_digits(text, 14) <= 59 && two_digits(text, 17) <= 59
        && stamp_date_known(text) {
        Some(
            stamp_day_seconds(text) + two_digits(text, 11) * 3_600 + two_digits(text, 14) * 60
                + two_digits(text, 17),
        )
    } else {
        None
    }
}

/// What is read of the earlier transaction: nothing when its value begins with `n`.
pub open spec fn last_fields(body: Seq<u8>, at: int, requested: Seq<u8>) -> Option<Option<(i32, Span)>> {
    match past(body, at, word("},\"last_transaction\":"@)) {
        Some(value) => if value < body.len() && body[value] == 110 {
            Some(None)
        } else {
            match stamp_seconds(requested) {
                Some(now) => match fixed_field(body, value, word("{\"timestamp\":\""@), 20) {
                    Some((stamp, a)) => match number_field(body, a, word(",\"km_from_current\":"@)) {
                        Some((km, _)) => match stamp_seconds(stamp.of(body)) {
                            Some(earlier) => Some(
                                Some(((if now > earlier { now - earlier } else { 0 }) as i32, km)),
                            ),
                            None => None,
                        },
                        None => None,
                    },
                    None => None,
                },
                None => None,
            }
        },
        None => None,
    }
}

/// What the model needs besides the fields that the rules use.
pub open spec fn fast_features(body: Seq<u8>, f: FastFields) -> Option<FastFeatures> {
    let requested = f.requested_at.of(body);
    match (
        stamp_hour_weekday(requested),
        number_past(body, f.merchant_avg_value_start as int),
        bool_at(body, f.is_online_value_start as int),
        bool_at(body, f.card_present_value_start as int),
        last_fields(body, f.after_km_from_home as int, requested),
    ) {
        (Some((hour, weekday)), Some(average), Some(is_online), Some(card_present), Some(last)) => Some(
            FastFeatures {
                hour: hour as u8,
                weekday_monday0: weekday as u8,
                merchant_known: lists_merchant(
                    f.known_merchants.of(body),
                    0,
                    f.merchant_id.of(body),
                ),
                mcc_risk: mcc_risk_value(f.merchant_mcc.of(body)),
                merchant_avg: Span { start: f.merchant_avg_value_start, end: average as usize },
                is_online,
                card_present,
                last,
            },
        ),
        _ => None,
    }
}

fn prefixed_value_start(body: &[u8], cursor: usize, prefix: &str) -> (found: Option<usize>)
    ensures
        match found {
            Some(at) => past(body@, cursor as int, word(prefix@)) == Some(at as int) && cursor <= at
                <= body.len(),
            None => past(body@, cursor as int, word(prefix@)) is None,
        },
{
    if cursor > body.len() {
        return None;
    }
    let bytes: &[u8] = prefix.as_bytes();
    if bytes_stand_at(body, cursor, bytes) {
        Some(cursor + bytes.len())
    } else {
        None
    }
}

/// Where the number ends that begins at a position.
fn number_at(body: &[u8], value_start: usize) -> (found: Option<usize>)
    ensures
        match found {
            Some(end) => number_past(body@, value_start as int) == Some(end as int) && value_start < end
                <= body.len(),
            None => number_past(body@, value_start as int) is None,
        },
{
    if value_start >= body.len() || body[value_start] < 48 || body[value_start] > 57 {
        return None;
    }
    let mut cursor: usize = value_start + 1;
    while cursor < body.len() && 48 <= body[cursor] && body[cursor] <= 57
        invariant
            value_start < cursor <= body.len(),
            digits_end(body@, value_start + 1) == digits_end(body@, cursor as int),
        decreases body.len() - cursor,
    {
        cursor = cursor + 1;
    }
    if cursor < body.len() && body[cursor] == 46 {
        let point: usize = cursor;
        cursor = cursor + 1;
        while cursor < body.len() && 48 <= body[cursor] && body[cursor] <= 57
            invariant
                value_start < point < cursor <= body.len(),
                digits_end(body@, point + 1) == digits_end(body@, cursor as int),
            decreases body.len() - cursor,
        {
            cursor = cursor + 1;
        }
    }
    Some(cursor)
}

fn parse_prefixed_number_field(body: &[u8], cursor: usize, prefix: &str) -> (found: Option<Span>)
    ensures
        match found {
            Some(span) => number_field(body@, cursor as int, word(prefix@)) == Some((span, span.end as int))
                && span.within(body@) && span.end <= body.len(),
            None => number_field(body@, cursor as int, word(prefix@)) is None,
        },
{
    let start: usize = prefixed_value_start(body, cursor, prefix)?;
    let end: usize = number_at(body, start)?;
    Some(Span { start, end })
}

/// The number of one or two digits at a position, and where it ends.
fn parse_integer_at(body: &[u8], value_start: usize) -> (found: Option<(u8, usize)>)
    ensures
        match found {
            Some((value, end)) => count_at(body@, value_start as int) == Some((value, end as int))
                && value <= 99 && end <= body.len(),
            None => count_at(body@, value_start as int) is None,
        },
{
    if value_start >= body.len() || body[value_start] < 48 || body[value_start] > 57 {
        return None;
    }
    let first: u8 = body[value_start] - 48;
    let cursor: usize = value_start + 1;
    if cursor >= body.len() || body[cursor] < 48 || body[cursor] > 57 {
        return Some((first, cursor));
    }
    let second: u8 = body[cursor] - 48;
    Some((first * 10 + second, cursor + 1))
}

fn parse_prefixed_integer_field(body: &[u8], cursor: usize, prefix: &str) -> (found: Option<(u8, usize)>)
    ensures
        match found {
            Some((value, end)) => count_field(body@, cursor as int, word(prefix@)) == Some(
                (value, end as int),
            ) && value <= 99 && end <= body.len(),
            None => count_field(body@, cursor as int, word(prefix@)) is None,
        },
{
    let start: usize = prefixed_value_start(body, cursor, prefix)?;
    parse_integer_at(body, start)
}

fn parse_prefixed_fixed_string_field(body: &[u8], cursor: usize, prefix: &str, len: usize) -> (found: Option<
    Span,
>)
    ensures
        match found {
            Some(span) => fixed_field(body@, cursor as int, word(prefix@), len as int) == Some(
                (span, span.end + 1),
            ) && span.within(body@) && span.end - span.start == len && span.end < body.len(),
            None => fixed_field(body@, cursor as int, word(prefix@), len as int) is None,
        },
{
    let start: usize = prefixed_value_start(body, cursor, prefix)?;
    if len >= body.len() - start || body[start + len] != 34 {
        None
    } else {
        Some(Span { start, end: start + len })
    }
}

fn parse_prefixed_array_field(body: &[u8], cursor: usize, prefix: &str) -> (found: Option<Span>)
    ensures
        match found {
            Some(span) => array_field(body@, cursor as int, word(prefix@)) == Some((span, span.end + 1))
                && span.within(body@) && span.end < body.len(),
            None => array_field(body@, cursor as int, word(prefix@)) is None,
        },
{
    let start: usize = prefixed_value_start(body, cursor, prefix)?;
    let end: usize = find_byte(body, start, 93)?;
    Some(Span { start, end })
}

fn parse_bool_at(body: &[u8], value_start: usize) -> (found: Option<bool>)
    ensures
        found == bool_at(body@, value_start as int),
{
    if value_start >= body.len() {
        return None;
    }
    if body[value_start] == 116 {
        Some(true)
    } else if body[value_start] == 102 {
        Some(false)
    } else {
        None
    }
}

/// The position past a truth value, unless it lies beyond the body.
fn skip_bool_at(body: &[u8], value_start: usize) -> (found: Option<usize>)
    ensures
        match found {
            Some(at) => bool_past(body@, value_start as int) == Some(at as int) && at <= body.len(),
            None => bool_past(body@, value_start as int) matches Some(at) ==> at > body@.len(),
        },
{
    let value: bool = parse_bool_at(body, value_start)?;
    let width: usize = if value { 4 } else { 5 };
    if width > body.len() - value_start {
        None
    } else {
        Some(value_start + width)
    }
}

fn compact_enter_transaction_object(body: &[u8]) -> (found: Option<usize>)
    ensures
        match found {
            Some(at) => transaction_start(body@) == Some(at as int) && at <= body.len(),
            None => transaction_start(body@) is None,
        },
{
    let id: usize = prefixed_value_start(body, 0, "{\"id\":")?;
    if id >= body.len() || body[id] != 34 {
        return None;
    }
    let end: usize = find_byte(body, id + 1, 34)?;
    prefixed_value_start(body, end + 1, ",\"transaction\":{")
}

/// Reads the fields of a compact body.
pub fn parse_fast_fields(body: &[u8]) -> (found: Option<FastFields>)
    ensures
        found == fast_fields(body@),
        found matches Some(fields) ==> fields.within(body@),
{
    let start: usize = compact_enter_transaction_object(body)?;
    let amount: Span = parse_prefixed_number_field(body, start, "\"amount\":")?;
    let (installments, cursor) = parse_prefixed_integer_field(body, amount.end, ",\"installments\":")?;
    let requested_at: Span = parse_prefixed_fixed_string_field(
        body,
        cursor,
        ",\"requested_at\":\"",
        20,
    )?;
    let cursor: usize = prefixed_value_start(body, requested_at.end + 1, "},\"customer\":{")?;
    let customer_avg: Span = parse_prefixed_number_field(body, cursor, "\"avg_amount\":")?;
    let (tx_count_24h, cursor) = parse_prefixed_integer_field(
        body,
        customer_avg.end,
        ",\"tx_count_24h\":",
    )?;
    let known_merchants: Span = parse_prefixed_array_field(body, cursor, ",\"known_merchants\":[")?;
    let cursor: usize = prefixed_value_start(body, known_merchants.end + 1, "},\"merchant\":{")?;
    let merchant_id: Span = parse_prefixed_fixed_string_field(body, cursor, "\"id\":\"", 8)?;
    let merchant_mcc: Span = parse_prefixed_fixed_string_field(
        body,
        merchant_id.end + 1,
        ",\"mcc\":\"",
        4,
    )?;
    let merchant_avg_value_start: usize = prefixed_value_start(
        body,
        merchant_mcc.end + 1,
        ",\"avg_amount\":",
    )?;
    let cursor: usize = find_byte(body, merchant_avg_value_start, 125)?;
    let cursor: usize = prefixed_value_start(body, cursor, "},\"terminal\":{")?;
    let is_online_value_start: usize = prefixed_value_start(body, cursor, "\"is_online\":")?;
    let cursor: usize = skip_bool_at(body, is_online_value_start)?;
    let card_present_value_start: usize = prefixed_value_start(body, cursor, ",\"card_present\":")?;
    let cursor: usize = skip_bool_at(body, card_present_value_start)?;
    let km_from_home: Span = parse_prefixed_number_field(body, cursor, ",\"km_from_home\":")?;
    Some(
        FastFields {
            amount,
            installments,
            requested_at,
            customer_avg,
            tx_count_24h,
            known_merchants,
            merchant_id,
            merchant_mcc,
            merchant_avg_value_start,
            is_online_value_start,
            card_present_value_start,
            km_from_home,
            after_km_from_home: km_from_home.end,
        },
    )
}

/// Whether a merchant stands in a list of ids.
pub fn array_contains_merchant_id(array: &[u8], id: &[u8]) -> (contains: bool)
    ensures
        contains == lists_merchant(array@, 0, id@),
{
    let mut cursor: usize = 0;
    let mut done: bool = false;
    while !done && cursor <= array.len() && array.len() - cursor >= 10
        invariant
            done ==> !lists_merchant(array@, 0, id@),
            !done ==> lists_merchant(array@, 0, id@) == lists_merchant(array@, cursor as int, id@),
        decreases array.len() - cursor, (if done { 0int } else { 1 }),
    {
        let entry = Span { start: cursor + 1, end: cursor + 9 };
        if same_bytes(entry.slice(array), id) {
            return true;
        }
        if array.len() - cursor < 11 {
            assert(!lists_merchant(array@, cursor + 11, id@));
            done = true;
        } else {
            cursor = cursor + 11;
        }
    }
    false
}

/// Whether the rules take a category for harmless.
fn is_safe_mcc_fast(mcc: &[u8]) -> (safe: bool)
    ensures
        safe == is_safe_mcc(mcc@),
{
    same_bytes(mcc, "5411".as_bytes()) || same_bytes(mcc, "5812".as_bytes()) || same_bytes(
        mcc,
        "5912".as_bytes(),
    ) || same_bytes(mcc, "5311".as_bytes())
}

/// Whether the rules take a category for dangerous.
fn is_risky_mcc_fast(mcc: &[u8]) -> (risky: bool)
    ensures
        risky == is_risky_mcc(mcc@),
{
    same_bytes(mcc, "7995".as_bytes()) || same_bytes(mcc, "7801".as_bytes()) || same_bytes(
        mcc,
        "7802".as_bytes(),
    )
}

/// What the rules say of a body, given how its numbers compare with their limits.
pub fn rule_decision(body: &[u8], fields: &FastFields, c: Comparisons) -> (score: Option<u8>)
    requires
        fields.within(body@),
    ensures
        score == fields_rule_score(body@, *fields, c),
{
    let merchant_known: bool = array_contains_merchant_id(
        fields.known_merchants.slice(body),
        fields.merchant_id.slice(body),
    );
    let mcc: &[u8] = fields.merchant_mcc.slice(body);
    if c.small_amount && c.small_ratio && fields.installments <= 3 && fields.tx_count_24h <= 5
        && merchant_known && c.near_home && is_safe_mcc_fast(mcc) {
        return Some(0);
    }
    if c.large_amount && fields.installments >= 5 && fields.tx_count_24h >= 6 && !merchant_known
        && c.far_from_home && is_risky_mcc_fast(mcc) {
        return Some(5);
    }
    None
}

fn wrapped_digit(byte: u8) -> (value: u8)
    ensures
        value == digit_value(byte),
{
    byte.wrapping_sub(48)
}

fn parse_2_u8(bytes: &[u8], offset: usize) -> (number: u8)
    requires
        offset + 2 <= bytes@.len(),
    ensures
        number == two_digits(bytes@, offset as int),
{
    let tens: u8 = wrapped_digit(bytes[offset]);
    let ones: u8 = wrapped_digit(bytes[offset + 1]);
    ((tens as u32 * 10 + ones as u32) % 256) as u8
}

fn parse_4_i32(bytes: &[u8], offset: usize) -> (number: i32)
    requires
        offset + 4 <= bytes@.len(),
    ensures
        number == four_digits(bytes@, offset as int),
        0 <= number <= 300_000,
{
    wrapped_digit(bytes[offset]) as i32 * 1_000 + wrapped_digit(bytes[offset + 1]) as i32 * 100
        + wrapped_digit(bytes[offset + 2]) as i32 * 10 + wrapped_digit(bytes[offset + 3]) as i32
}

fn parse_requested_hour_weekday(bytes: &[u8]) -> (found: Option<(u8, u8)>)
    requires
        bytes@.len() == 20,
    ensures
        match found {
            Some((hour, weekday)) => stamp_hour_weekday(bytes@) == Some((hour as int, weekday as int)),
            None => stamp_hour_weekday(bytes@) is None,
        },
{
    let year: i32 = parse_4_i32(bytes, 0);
    let month: u8 = parse_2_u8(bytes, 5);
    let day: u8 = parse_2_u8(bytes, 8);
    let hour: u8 = parse_2_u8(bytes, 11);
    if hour > 23 {
        return None;
    }
    let (_seconds, weekday) = epoch_seconds_and_weekday_for_known_date(year, month, day)?;
    Some((hour, weekday))
}

fn parse_iso_timestamp(bytes: &[u8]) -> (found: Option<i32>)
    requires
        bytes@.len() == 20,
    ensures
        match found {
            Some(seconds) => stamp_seconds(bytes@) == Some(seconds as int) && 1_451_606_400 <= seconds
                <= 1_926_000_000,
            None => stamp_seconds(bytes@) is None,
        },
{
    let year: i32 = parse_4_i32(bytes, 0);
    let month: u8 = parse_2_u8(bytes, 5);
    let day: u8 = parse_2_u8(bytes, 8);
    let hour: i32 = parse_2_u8(bytes, 11) as i32;
    let minute: i32 = parse_2_u8(bytes, 14) as i32;
    let second: i32 = parse_2_u8(bytes, 17) as i32;
    if hour > 23 || minute > 59 || second > 59 {
        return None;
    }
    let day_seconds: i32 = epoch_seconds_for_known_date(year, month, day)?;
    Some(day_seconds + hour * 3_600 + minute * 60 + second)
}

fn parse_last_features(body: &[u8], after_km_from_home: usize, requested_at: &[u8]) -> (found: Option<
    Option<(i32, Span)>,
>)
    requires
        requested_at@.len() == 20,
    ensures
        found == last_fields(body@, after_km_from_home as int, requested_at@),
        found matches Some(Some(last)) ==> last.1.within(body@),
{
    let value: usize = prefixed_value_start(body, after_km_from_home, "},\"last_transaction\":")?;
    if value < body.len() && body[value] == 110 {
        return Some(None);
    }
    let now: i32 = parse_iso_timestamp(requested_at)?;
    let stamp: Span = parse_prefixed_fixed_string_field(body, value, "{\"timestamp\":\"", 20)?;
    let km: Span = parse_prefixed_number_field(body, stamp.end + 1, ",\"km_from_current\":")?;
    let earlier: i32 = parse_iso_timestamp(stamp.slice(body))?;
    let delta: i32 = if now > earlier { now - earlier } else { 0 };
    Some(Some((delta, km)))
}

/// Reads what the model needs besides the fields that the rules use.
pub fn read_features(body: &[u8], fields: &FastFields) -> (found: Option<FastFeatures>)
    requires
        fields.within(body@),
    ensures
        found == fast_features(body@, *fields),
        found matches Some(features) ==> features.within(body@),
{
    let requested: &[u8] = fields.requested_at.slice(body);
    let (hour, weekday_monday0) = parse_requested_hour_weekday(requested)?;
    let merchant_known: bool = array_contains_merchant_id(
        fields.known_merchants.slice(body),
        fields.merchant_id.slice(body),
    );
    let mcc_risk: i16 = mcc_risk_bytes(fields.merchant_mcc.slice(body));
    let average_end: usize = number_at(body, fields.merchant_avg_value_start)?;
    let is_online: bool = parse_bool_at(body, fields.is_online_value_start)?;
    let card_present: bool = parse_bool_at(body, fields.card_present_value_start)?;
    let last: Option<(i32, Span)> = parse_last_features(body, fields.after_km_from_home, requested)?;
    Some(
        FastFeatures {
            hour,
            weekday_monday0,
            merchant_known,
            mcc_risk,
            merchant_avg: Span { start: fields.merchant_avg_value_start, end: average_end },
            is_online,
            card_present,
            last,
        },
    )
}

impl FastFeatures {
    /// The numbers lie within the body.
    pub open spec fn within(self, body: Seq<u8>) -> bool {
        &&& self.merchant_avg.within(body)
        &&& self.last matches Some(last) ==> last.1.within(body)
    }
}

/// The texts that the rules compare.
pub open spec fn rule_texts(n: RuleNumbers<'_>, f: FastFields, body: Seq<u8>) -> bool {
    &&& n.amount@ == f.amount.of(body)
    &&& n.customer_avg@ == f.customer_avg.of(body)
    &&& n.km_from_home@ == f.km_from_home.of(body)
}

/// What the model is asked about a body.
pub open spec fn model_texts(m: ModelInputs<'_>, f: FastFields, g: FastFeatures, body: Seq<u8>) -> bool {
    &&& m.amount@ == f.amount.of(body)
    &&& m.installments == f.installments
    &&& m.customer_avg@ == f.customer_avg.of(body)
    &&& m.hour == g.hour
    &&& m.weekday_monday0 == g.weekday_monday0
    &&& m.km_from_home@ == f.km_from_home.of(body)
    &&& m.tx_count_24h == f.tx_count_24h
    &&& m.is_online == g.is_online
    &&& m.card_present == g.card_present
    &&& m.merchant_known == g.merchant_known
    &&& m.mcc_risk == g.mcc_risk
    &&& m.merchant_avg@ == g.merchant_avg.of(body)
    &&& match (m.last, g.last) {
        (Some(asked), Some(read)) => asked.0 == read.0 && asked.1@ == read.1.of(body),
        (None, None) => true,
        _ => false,
    }
}

/// The score of a model's verdict.
pub open spec fn model_score(fraud: bool) -> u8 {
    if fraud { 5 } else { 0 }
}

/// A body whose fields were read may have a score: what the rules say, where the comparisons make
/// them speak; else what the model says, or none where the model cannot be asked.
pub open spec fn fields_may_score<
    'a,
    C: Fn(RuleNumbers<'a>) -> Comparisons,
    P: Fn(ModelInputs<'a>) -> bool,
>(body: Seq<u8>, f: FastFields, compare: C, predict: P, score: Option<u8>) -> bool {
    exists|n: RuleNumbers<'a>, c: Comparisons| #[trigger]
        compare.ensures((n,), c) && rule_texts(n, f, body) && match fields_rule_score(body, f, c) {
            Some(ruled) => score == Some(ruled),
            None => match fast_features(body, f) {
                None => score is None,
                Some(g) => exists|m: ModelInputs<'a>, fraud: bool| #[trigger]
                    predict.ensures((m,), fraud) && model_texts(m, f, g, body) && score == Some(
                        model_score(fraud),
                    ),
            },
        }
}

/// A body may have a score: none where it cannot be read, else one that its fields may have.
pub open spec fn may_score<
    'a,
    C: Fn(RuleNumbers<'a>) -> Comparisons,
    P: Fn(ModelInputs<'a>) -> bool,
>(body: Seq<u8>, compare: C, predict: P, score: Option<u8>) -> bool {
    match fast_fields(body) {
        None => score is None,
        Some(f) => fields_may_score(body, f, compare, predict, score),
    }
}

/// Scores a compact body: by the rules, whose comparisons `compare` makes, and where they are
/// silent by the model `predict`.
pub fn score_fraud_body<
    'a,
    C: Fn(RuleNumbers<'a>) -> Comparisons,
    P: Fn(ModelInputs<'a>) -> bool,
>(body: &'a [u8], compare: C, predict: P) -> (score: Option<u8>)
    requires
        forall|n: RuleNumbers<'a>| #[trigger] compare.requires((n,)),
        forall|m: ModelInputs<'a>| #[trigger] predict.requires((m,)),
    ensures
        may_score(body@, compare, predict, score),
{
    let fields: FastFields = parse_fast_fields(body)?;
    let numbers = RuleNumbers {
        amount: fields.amount.slice(body),
        customer_avg: fields.customer_avg.slice(body),
        km_from_home: fields.km_from_home.slice(body),
    };
    let comparisons: Comparisons = compare(numbers);
    if let Some(score) = rule_decision(body, &fields, comparisons) {
        return Some(score);
    }
    let features: FastFeatures = match read_features(body, &fields) {
        Some(features) => features,
        None => {
            return None;
        },
    };
    let last: Option<(i32, &'a [u8])> = match features.last {
        Some((seconds, km)) => Some((seconds, km.slice(body))),
        None => None,
    };
    let inputs = ModelInputs {
        amount: fields.amount.slice(body),
        installments: fields.installments,
        customer_avg: fields.customer_avg.slice(body),
        hour: features.hour,
        weekday_monday0: features.weekday_monday0,
        last,
        km_from_home: fields.km_from_home.slice(body),
        tx_count_24h: fields.tx_count_24h,
        is_online: features.is_online,
        card_present: features.card_present,
        merchant_known: features.merchant_known,
        mcc_risk: features.mcc_risk,
        merchant_avg: features.merchant_avg.slice(body),
    };
    let fraud: bool = predict(inputs);
    Some(if fraud { 5 } else { 0 })
}

/// The score of a request: that of its body, or zero where the body cannot be read.
pub fn score_request<
    'a,
    C: Fn(RuleNumbers<'a>) -> Comparisons,
    P: Fn(ModelInputs<'a>) -> bool,
>(body: &'a [u8], compare: C, predict: P) -> (score: u8)
    requires
        forall|n: RuleNumbers<'a>| #[trigger] compare.requires((n,)),
        forall|m: ModelInputs<'a>| #[trigger] predict.requires((m,)),
    ensures
        fast_fields(body@) is None ==> score == 0,
        fast_fields(body@) matches Some(f) ==> exists|n: RuleNumbers<'a>, c: Comparisons|
         #[trigger]
            compare.ensures((n,), c) && rule_texts(n, f, body@) && match fields_rule_score(body@, f, c) {
                Some(ruled) => score == ruled,
                None => match fast_features(body@, f) {
                    None => score == 0,
                    Some(g) => exists|m: ModelInputs<'a>, fraud: bool| #[trigger]
                        predict.ensures((m,), fraud) && model_texts(m, f, g, body@) && score
                            == model_score(fraud),
                },
            },
{
    match score_fraud_body(body, compare, predict) {
        Some(score) => score,
        None => 0,
    }
}

/// Digits read one by one write the number they write together.
proof fn lemma_digits_read(text: Seq<u8>, at: int)
    requires
        0 <= at,
        at + 2 <= text.len(),
    ensures
        digits_value(text.subrange(at, at + 2)) matches Some(value) ==> value == two_digits(text, at),
        at + 4 <= text.len() ==> (digits_value(text.subrange(at, at + 4)) matches Some(value) ==> value
            == four_digits(text, at)),
{
    reveal_with_fuel(digits_value, 5);
    let two = text.subrange(at, at + 2);
    assert(two.drop_last().last() == text[at]);
    assert(two.last() == text[at + 1]);
    assert(two.drop_last().drop_last() =~= Seq::<u8>::empty());
    if at + 4 <= text.len() {
        let four = text.subrange(at, at + 4);
        assert(four.last() == text[at + 3]);
        assert(four.drop_last().last() == text[at + 2]);
        assert(four.drop_last().drop_last().last() == text[at + 1]);
        assert(four.drop_last().drop_last().drop_last().last() == text[at]);
        assert(four.drop_last().drop_last().drop_last().drop_last() =~= Seq::<u8>::empty());
    }
}

/// A timestamp whose digits can be read has a number of seconds if and only if its date is one of the
/// years 2016 to 2030 and its hour, minute and second are ones; its hour and weekday are known if and
/// only if its date and its hour are such. They are then those of any other timestamp.
pub proof fn lemma_stamps_agree(text: Seq<u8>)
    requires
        time_of(text) is Some,
    ensures
        ({
            let t = time_fields(text)->0;
            let time = time_of(text)->0;
            let dated = is_known_date(t.year, t.month, t.day) && t.hour <= 23;
            &&& stamp_hour_weekday(text) == if dated {
                Some((time.hour as int, time.weekday_monday0 as int))
            } else {
                None
            }
            &&& stamp_seconds(text) == if dated && t.minute <= 59 && t.second <= 59 {
                Some(time.epoch_seconds as int)
            } else {
                None
            }
        }),
{
    lemma_digits_read(text, 0);
    lemma_digits_read(text, 5);
    lemma_digits_read(text, 8);
    lemma_digits_read(text, 11);
    lemma_digits_read(text, 14);
    lemma_digits_read(text, 17);
    let days = civil_days(four_digits(text, 0), two_digits(text, 5), two_digits(text, 8));
    assert(stamp_date_known(text) ==> 0 <= days <= 30_000) by {
        reveal(civil_days);
    }
}

} // verus!
