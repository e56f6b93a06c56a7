//! Feature vectors of scoring requests.
use vstd::prelude::*;

use crate::index::geometry::{mcc_level, mcc_value, scanned};
use crate::index::soundness::{has_last, on_axis, on_grid, plain_query};
use crate::index::{DIMS, TX_STEP};
use crate::request::{merchants_in, FraudRequest};
use crate::scanning::{bytes_stand_at, find_byte, find_bytes, first_byte, first_word, is_digit, same_bytes,
    stands_at, word, Span};
use crate::time::{digits_value, lemma_digits_broken, parse_utc_timestamp, parse_utc_timestamp_bytes,
    time_of, ParsedTime};

verus! {

/// The amounts and distances of a request, which are scaled.
pub struct Measures<N> {
    pub amount: N,
    pub customer_avg: N,
    pub merchant_avg: N,
    pub km_from_home: N,
    /// Seconds since the earlier transaction, and its distance.
    pub last: Option<(i64, N)>,
}

/// The scaled amounts and distances of a request, each from 0 to 10 000.
#[derive(Clone, Copy, Debug)]
pub struct ScaledNumbers {
    pub amount: i16,
    pub ratio: i16,
    pub minutes: i16,
    pub last_km: i16,
    pub km_from_home: i16,
    pub merchant_avg: i16,
}

/// The scaled numbers and counts of a request, each from 0 to 10 000.
#[derive(Clone, Copy, Debug)]
pub struct ScaledParts {
    pub amount: i16,
    pub installments: i16,
    pub ratio: i16,
    pub minutes: i16,
    pub last_km: i16,
    pub km_from_home: i16,
    pub tx_count: i16,
    pub merchant_avg: i16,
}

/// What a feature vector holds besides scaled numbers.
#[derive(Clone, Copy, Debug)]
pub struct Traits {
    pub hour: u8,
    pub weekday_monday0: u8,
    pub has_last: bool,
    pub is_online: bool,
    pub card_present: bool,
    pub merchant_known: bool,
    pub mcc_risk: i16,
}

/// `n` out of `whole` in units of 1/10 000, rounded to the nearest and at most 10 000.
pub open spec fn share(n: int, whole: int) -> int {
    let rounded = (n * 20_000 + whole) / (2 * whole);
    if rounded > 10_000 { 10_000 } else { rounded }
}

impl ScaledNumbers {
    /// The numbers together with scaled counts.
    pub open spec fn and_counts(self, installments: int, tx_count: int) -> ScaledParts {
        ScaledParts {
            amount: self.amount,
            installments: installments as i16,
            ratio: self.ratio,
            minutes: self.minutes,
            last_km: self.last_km,
            km_from_home: self.km_from_home,
            tx_count: tx_count as i16,
            merchant_avg: self.merchant_avg,
        }
    }

    /// The numbers together with scaled counts.
    pub fn with_counts(self, installments: i16, tx_count: i16) -> (parts: ScaledParts)
        ensures
            parts == self.and_counts(installments as int, tx_count as int),
    {
        ScaledParts {
            amount: self.amount,
            installments,
            ratio: self.ratio,
            minutes: self.minutes,
            last_km: self.last_km,
            km_from_home: self.km_from_home,
            tx_count,
            merchant_avg: self.merchant_avg,
        }
    }
}

/// How many installments a purchase has at most on the scale.
pub const MOST_INSTALLMENTS: u8 = 12;

/// How many transactions of a day there are at most on the scale.
pub const MOST_TX_COUNT: u8 = 20;

/// A flag as a component.
pub open spec fn flag_value(flag: bool) -> i16 {
    if flag { 10_000 } else { 0 }
}

/// The feature vector.
pub open spec fn assembled(traits: Traits, parts: ScaledParts) -> Seq<i16> {
    seq![
        parts.amount,
        parts.installments,
        parts.ratio,
        share(traits.hour as int, 23) as i16,
        share(traits.weekday_monday0 as int, 6) as i16,
        if traits.has_last { parts.minutes } else { -10_000i16 },
        if traits.has_last { parts.last_km } else { -10_000i16 },
        parts.km_from_home,
        parts.tx_count,
        flag_value(traits.is_online),
        flag_value(traits.card_present),
        flag_value(!traits.merchant_known),
        traits.mcc_risk,
        parts.merchant_avg,
    ]
}

/// What each component of a feature vector is.
pub proof fn lemma_components(traits: Traits, parts: ScaledParts)
    ensures
        ({
            let v = assembled(traits, parts);
            &&& v.len() == 14
            &&& v[0] == parts.amount
            &&& v[1] == parts.installments
            &&& v[2] == parts.ratio
            &&& v[3] == share(traits.hour as int, 23)
            &&& v[4] == share(traits.weekday_monday0 as int, 6)
            &&& v[5] == if traits.has_last { parts.minutes as int } else { -10_000 }
            &&& v[6] == if traits.has_last { parts.last_km as int } else { -10_000 }
            &&& v[7] == parts.km_from_home
            &&& v[8] == parts.tx_count
            &&& v[9] == if traits.is_online { 10_000int } else { 0 }
            &&& v[10] == if traits.card_present { 10_000int } else { 0 }
            &&& v[11] == if traits.merchant_known { 0int } else { 10_000 }
            &&& v[12] == traits.mcc_risk
            &&& v[13] == parts.merchant_avg
        }),
{
    lemma_share(traits.hour as int, 23);
    lemma_share(traits.weekday_monday0 as int, 6);
}

/// A share is the nearest number of ten thousandths, and no more than the whole.
pub proof fn lemma_share_is_nearest(n: int, whole: int)
    requires
        0 <= n,
        0 < whole,
    ensures
        0 <= share(n, whole) <= 10_000,
        n >= whole ==> share(n, whole) == 10_000,
        n <= whole ==> -whole <= 2 * (share(n, whole) * whole - n * 10_000) <= whole,
{
    let rounded = (n * 20_000 + whole) / (2 * whole);
    let rest = (n * 20_000 + whole) % (2 * whole);
    lemma_share(n, whole);
    assert(n * 20_000 + whole == 2 * whole * rounded + rest && 0 <= rest < 2 * whole) by {
        vstd::arithmetic::div_mod::lemma_fundamental_div_mod(n * 20_000 + whole, 2 * whole);
    }
    if n >= whole {
        lemma_great_share(n, whole);
    }
    if n <= whole {
        assert(rounded <= 10_000) by (nonlinear_arith)
            requires
                n * 20_000 + whole == 2 * whole * rounded + rest,
                0 <= rest,
                0 < whole,
                n <= whole,
        ;
        assert(2 * whole * rounded == 2 * (rounded * whole)) by (nonlinear_arith);
    }
}

/// The risk of a merchant category in units of 1/10 000.
pub open spec fn mcc_risk_value(mcc: Seq<u8>) -> i16 {
    if mcc == word("5411"@) {
        1_500
    } else if mcc == word("5812"@) {
        3_000
    } else if mcc == word("5912"@) {
        2_000
    } else if mcc == word("5944"@) {
        4_500
    } else if mcc == word("7801"@) {
        8_000
    } else if mcc == word("7802"@) {
        7_500
    } else if mcc == word("7995"@) {
        8_500
    } else if mcc == word("4511"@) {
        3_500
    } else if mcc == word("5311"@) {
        2_500
    } else {
        5_000
    }
}

/// Nine categories have a risk of their own, no two the same one; every other category has the middle
/// risk.
pub proof fn lemma_category_risks(mcc: Seq<u8>)
    ensures
        mcc_risk_value(mcc) == 1_500 <==> mcc == word("5411"@),
        mcc_risk_value(mcc) == 3_000 <==> mcc == word("5812"@),
        mcc_risk_value(mcc) == 2_000 <==> mcc == word("5912"@),
        mcc_risk_value(mcc) == 4_500 <==> mcc == word("5944"@),
        mcc_risk_value(mcc) == 8_000 <==> mcc == word("7801"@),
        mcc_risk_value(mcc) == 7_500 <==> mcc == word("7802"@),
        mcc_risk_value(mcc) == 8_500 <==> mcc == word("7995"@),
        mcc_risk_value(mcc) == 3_500 <==> mcc == word("4511"@),
        mcc_risk_value(mcc) == 2_500 <==> mcc == word("5311"@),
        mcc_risk_value(mcc) == 5_000 <==> mcc != word("5411"@) && mcc != word("5812"@) && mcc != word("5912"@)
            && mcc != word("5944"@) && mcc != word("7801"@) && mcc != word("7802"@) && mcc != word("7995"@)
            && mcc != word("4511"@) && mcc != word("5311"@),
{
    assert(word("5411"@) == seq![53u8, 52u8, 49u8, 49u8]) by {
        reveal_strlit("5411");
        vstd::utf8::is_ascii_chars_encode_utf8("5411"@);
        assert(word("5411"@) =~= seq![53u8, 52u8, 49u8, 49u8]);
    }
    assert(word("5812"@) == seq![53u8, 56u8, 49u8, 50u8]) by {
        reveal_strlit("5812");
        vstd::utf8::is_ascii_chars_encode_utf8("5812"@);
        assert(word("5812"@) =~= seq![53u8, 56u8, 49u8, 50u8]);
    }
    assert(word("5912"@) == seq![53u8, 57u8, 49u8, 50u8]) by {
        reveal_strlit("5912");
        vstd::utf8::is_ascii_chars_encode_utf8("5912"@);
        assert(word("5912"@) =~= seq![53u8, 57u8, 49u8, 50u8]);
    }
    assert(word("5944"@) == seq![53u8, 57u8, 52u8, 52u8]) by {
        reveal_strlit("5944");
        vstd::utf8::is_ascii_chars_encode_utf8("5944"@);
        assert(word("5944"@) =~= seq![53u8, 57u8, 52u8, 52u8]);
    }
    assert(word("7801"@) == seq![55u8, 56u8, 48u8, 49u8]) by {
        reveal_strlit("7801");
        vstd::utf8::is_ascii_chars_encode_utf8("7801"@);
        assert(word("7801"@) =~= seq![55u8, 56u8, 48u8, 49u8]);
    }
    assert(word("7802"@) == seq![55u8, 56u8, 48u8, 50u8]) by {
        reveal_strlit("7802");
        vstd::utf8::is_ascii_chars_encode_utf8("7802"@);
        assert(word("7802"@) =~= seq![55u8, 56u8, 48u8, 50u8]);
    }
    assert(word("7995"@) == seq![55u8, 57u8, 57u8, 53u8]) by {
        reveal_strlit("7995");
        vstd::utf8::is_ascii_chars_encode_utf8("7995"@);
        assert(word("7995"@) =~= seq![55u8, 57u8, 57u8, 53u8]);
    }
    assert(word("4511"@) == seq![52u8, 53u8, 49u8, 49u8]) by {
        reveal_strlit("4511");
        vstd::utf8::is_ascii_chars_encode_utf8("4511"@);
        assert(word("4511"@) =~= seq![52u8, 53u8, 49u8, 49u8]);
    }
    assert(word("5311"@) == seq![53u8, 51u8, 49u8, 49u8]) by {
        reveal_strlit("5311");
        vstd::utf8::is_ascii_chars_encode_utf8("5311"@);
        assert(word("5311"@) =~= seq![53u8, 51u8, 49u8, 49u8]);
    }
    assert(word("5411"@)[0] == 53 && word("5411"@)[1] == 52 && word("5411"@)[2] == 49 && word("5411"@)[3] == 49);
    assert(word("5812"@)[0] == 53 && word("5812"@)[1] == 56 && word("5812"@)[2] == 49 && word("5812"@)[3] == 50);
    assert(word("5912"@)[0] == 53 && word("5912"@)[1] == 57 && word("5912"@)[2] == 49 && word("5912"@)[3] == 50);
    assert(word("5944"@)[0] == 53 && word("5944"@)[1] == 57 && word("5944"@)[2] == 52 && word("5944"@)[3] == 52);
    assert(word("7801"@)[0] == 55 && word("7801"@)[1] == 56 && word("7801"@)[2] == 48 && word("7801"@)[3] == 49);
    assert(word("7802"@)[0] == 55 && word("7802"@)[1] == 56 && word("7802"@)[2] == 48 && word("7802"@)[3] == 50);
    assert(word("7995"@)[0] == 55 && word("7995"@)[1] == 57 && word("7995"@)[2] == 57 && word("7995"@)[3] == 53);
    assert(word("4511"@)[0] == 52 && word("4511"@)[1] == 53 && word("4511"@)[2] == 49 && word("4511"@)[3] == 49);
    assert(word("5311"@)[0] == 53 && word("5311"@)[1] == 51 && word("5311"@)[2] == 49 && word("5311"@)[3] == 49);
}

/// Where a key ends that first stands from a position on.
pub open spec fn after_key(body: Seq<u8>, start: int, key: Seq<u8>) -> Option<int> {
    match first_word(body, start, key) {
        Some(at) => Some(at + key.len()),
        None => None,
    }
}

/// White space between a colon and a value.
pub open spec fn is_space(byte: u8) -> bool {
    byte == 32 || byte == 10 || byte == 13 || byte == 9
}

/// The first position, from `at` on, that holds no white space.
pub open spec fn skip_spaces(body: Seq<u8>, at: int) -> int
    decreases body.len() - at,
{
    if 0 <= at < body.len() && is_space(body[at]) {
        skip_spaces(body, at + 1)
    } else {
        at
    }
}

/// Where the value begins whose colon follows a position.
pub open spec fn value_position(body: Seq<u8>, cursor: int) -> Option<int> {
    match first_byte(body, cursor, 58) {
        Some(colon) => Some(skip_spaces(body, colon + 1)),
        None => None,
    }
}

/// A byte of a number.
pub open spec fn in_number(byte: u8) -> bool {
    byte == 45 || byte == 46 || is_digit(byte)
}

/// The first position, from `at` on, that holds no byte of a number.
pub open spec fn number_end(body: Seq<u8>, at: int) -> int
    decreases body.len() - at,
{
    if 0 <= at < body.len() && in_number(body[at]) {
        number_end(body, at + 1)
    } else {
        at
    }
}

/// How many bytes of a text equal a byte.
pub open spec fn byte_count(text: Seq<u8>, byte: u8) -> int
    decreases text.len(),
{
    if text.len() == 0 {
        0
    } else {
        byte_count(text.drop_last(), byte) + if text.last() == byte { 1int } else { 0 }
    }
}

/// How many bytes of a text are digits.
pub open spec fn digit_count(text: Seq<u8>) -> int
    decreases text.len(),
{
    if text.len() == 0 {
        0
    } else {
        digit_count(text.drop_last()) + if is_digit(text.last()) { 1int } else { 0 }
    }
}

/// A decimal number: an optional minus sign, then digits with at most one point among them and at
/// least one digit.
pub open spec fn is_decimal(text: Seq<u8>) -> bool {
    let signs = byte_count(text, 45);
    let points = byte_count(text, 46);
    &&& digit_count(text) >= 1
    &&& points <= 1
    &&& signs + points + digit_count(text) == text.len()
    &&& signs == 0 || (signs == 1 && text[0] == 45)
}

/// The number that follows a key.
pub open spec fn number_after(body: Seq<u8>, start: int, key: Seq<u8>) -> Option<Span> {
    match after_key(body, start, key) {
        Some(key_end) => match value_position(body, key_end) {
            Some(at) => {
                let end = number_end(body, at);
                if is_decimal(body.subrange(at, end)) {
                    Some(Span { start: at as usize, end: end as usize })
                } else {
                    None
                }
            },
            None => None,
        },
        None => None,
    }
}

/// The truth value that follows a key.
pub open spec fn bool_after(body: Seq<u8>, start: int, key: Seq<u8>) -> Option<bool> {
    match after_key(body, start, key) {
        Some(key_end) => match value_position(body, key_end) {
            Some(at) => if stands_at(body, at, word("true"@)) {
                Some(true)
            } else if stands_at(body, at, word("false"@)) {
                Some(false)
            } else {
                None
            },
            None => None,
        },
        None => None,
    }
}

/// The string that follows a key, without its quotes.
pub open spec fn string_after(body: Seq<u8>, start: int, key: Seq<u8>) -> Option<Span> {
    match after_key(body, start, key) {
        Some(key_end) => match value_position(body, key_end) {
            Some(at) => if at < body.len() && body[at] == 34 {
                match first_byte(body, at + 1, 34) {
                    Some(end) => Some(Span { start: (at + 1) as usize, end: end as usize }),
                    None => None,
                }
            } else {
                None
            },
            None => None,
        },
        None => None,
    }
}

/// The array that follows a key, without its brackets.
pub open spec fn array_after(body: Seq<u8>, start: int, key: Seq<u8>) -> Option<Span> {
    match after_key(body, start, key) {
        Some(key_end) => match value_position(body, key_end) {
            Some(at) => if at < body.len() && body[at] == 91 {
                match first_byte(body, at, 93) {
                    Some(end) => Some(Span { start: (at + 1) as usize, end: end as usize }),
                    None => None,
                }
            } else {
                None
            },
            None => None,
        },
        None => None,
    }
}

/// Whether one of the quoted strings of an array, from a position on, is the given one.
pub open spec fn quotes(array: Seq<u8>, cursor: int, needle: Seq<u8>) -> bool
    decreases array.len() - cursor,
{
    if cursor < 0 || cursor >= array.len() {
        false
    } else if array[cursor] != 34 {
        quotes(array, cursor + 1, needle)
    } else {
        match first_byte(array, cursor + 1, 34) {
            None => false,
            Some(end) => if end <= cursor || end >= array.len() {
                false
            } else {
                array.subrange(cursor + 1, end) == needle || quotes(array, end + 1, needle)
            },
        }
    }
}

/// What is read from the body of a request.
#[derive(Clone, Copy)]
pub struct BodyFields {
    pub amount: Span,
    pub installments: Span,
    pub requested_at: ParsedTime,
    pub customer_avg: Span,
    pub tx_count: Span,
    pub merchant_known: bool,
    pub mcc: Span,
    pub merchant_avg: Span,
    pub is_online: bool,
    pub card_present: bool,
    pub km_from_home: Span,
    pub last: Option<(ParsedTime, Span)>,
}

/// What is read of the transaction, with the position its fields follow.
pub open spec fn transaction_part(body: Seq<u8>) -> Option<(int, Span, Span, ParsedTime)> {
    match after_key(body, 0, word("\"transaction\""@)) {
        Some(at) => match (
            number_after(body, at, word("\"amount\""@)),
            number_after(body, at, word("\"installments\""@)),
            string_after(body, at, word("\"requested_at\""@)),
        ) {
            (Some(amount), Some(installments), Some(requested)) => match time_of(requested.of(body)) {
                Some(time) => Some((at, amount, installments, time)),
                None => None,
            },
            _ => None,
        },
        None => None,
    }
}

/// What is read of the customer, with the position its fields follow.
pub open spec fn customer_part(body: Seq<u8>, start: int) -> Option<(int, Span, Span, Span)> {
    match after_key(body, start, word("\"customer\""@)) {
        Some(at) => match (
            number_after(body, at, word("\"avg_amount\""@)),
            number_after(body, at, word("\"tx_count_24h\""@)),
            array_after(body, at, word("\"known_merchants\""@)),
        ) {
            (Some(average), Some(count), Some(known)) => Some((at, average, count, known)),
            _ => None,
        },
        None => None,
    }
}

/// What is read of the merchant, with the position its fields follow.
pub open spec fn merchant_part(body: Seq<u8>, start: int) -> Option<(int, Span, Span, Span)> {
    match after_key(body, start, word("\"merchant\""@)) {
        Some(at) => match (
            string_after(body, at, word("\"id\""@)),
            string_after(body, at, word("\"mcc\""@)),
            number_after(body, at, word("\"avg_amount\""@)),
        ) {
            (Some(id), Some(mcc), Some(average)) => Some((at, id, mcc, average)),
            _ => None,
        },
        None => None,
    }
}

/// What is read of the terminal, with the position its fields follow.
pub open spec fn terminal_part(body: Seq<u8>, start: int) -> Option<(int, bool, bool, Span)> {
    match after_key(body, start, word("\"terminal\""@)) {
        Some(at) => match (
            bool_after(body, at, word("\"is_online\""@)),
            bool_after(body, at, word("\"card_present\""@)),
            number_after(body, at, word("\"km_from_home\""@)),
        ) {
            (Some(online), Some(card), Some(km)) => Some((at, online, card, km)),
            _ => None,
        },
        None => None,
    }
}

/// What is read of the earlier transaction: nothing when its value begins with `n`.
pub open spec fn last_part(body: Seq<u8>, start: int) -> Option<Option<(ParsedTime, Span)>> {
    match after_key(body, start, word("\"last_transaction\""@)) {
        Some(key_end) => match value_position(body, key_end) {
            Some(at) => if at < body.len() && body[at] == 110 {
                Some(None)
            } else {
                match (
                    string_after(body, at, word("\"timestamp\""@)),
                    number_after(body, at, word("\"km_from_current\""@)),
                ) {
                    (Some(stamp), Some(km)) => match time_of(stamp.of(body)) {
                        Some(time) => Some(Some((time, km))),
                        None => None,
                    },
                    _ => None,
                }
            },
            None => None,
        },
        None => None,
    }
}

/// What is read from the body of a request, if everything is there.
pub open spec fn body_fields(body: Seq<u8>) -> Option<BodyFields> {
    match transaction_part(body) {
        Some((transaction, amount, installments, requested_at)) => match customer_part(
            body,
            transaction,
        ) {
            Some((customer, customer_avg, tx_count, known)) => match merchant_part(body, customer) {
                Some((merchant, id, mcc, merchant_avg)) => match terminal_part(body, merchant) {
                    Some((terminal, is_online, card_present, km_from_home)) => match last_part(
                        body,
                        terminal,
                    ) {
                        Some(last) => Some(
                            BodyFields {
                                amount,
                                installments,
                                requested_at,
                                customer_avg,
                                tx_count,
                                merchant_known: quotes(known.of(body), 0, id.of(body)),
                                mcc,
                                merchant_avg,
                                is_online,
                                card_present,
                                km_from_home,
                                last,
                            },
                        ),
                        None => None,
                    },
                    None => None,
                },
                None => None,
            },
            None => None,
        },
        None => None,
    }
}

/// What a vector takes from the fields of a body besides numbers.
pub open spec fn body_traits(fields: BodyFields, body: Seq<u8>) -> Traits {
    Traits {
        hour: fields.requested_at.hour,
        weekday_monday0: fields.requested_at.weekday_monday0,
        has_last: fields.last is Some,
        is_online: fields.is_online,
        card_present: fields.card_present,
        merchant_known: fields.merchant_known,
        mcc_risk: mcc_risk_value(fields.mcc.of(body)),
    }
}

/// A count in a body is scaled: where it is written in digits it is the share of its value, else what
/// `scale_count` makes of its text.
pub open spec fn count_scaled<'a, C: Fn(&'a [u8], u8) -> i16>(
    scale_count: C,
    text: Seq<u8>,
    whole: u8,
    scaled: i16,
) -> bool {
    match digits_value(text) {
        Some(n) => scaled == share(n, whole as int),
        None => exists|slice: &'a [u8]| #[trigger]
            scale_count.ensures((slice, whole), scaled) && slice@ == text,
    }
}

/// The texts of the amounts and distances of a body.
pub open spec fn body_measures(m: Measures<&[u8]>, fields: BodyFields, body: Seq<u8>) -> bool {
    &&& m.amount@ == fields.amount.of(body)
    &&& m.customer_avg@ == fields.customer_avg.of(body)
    &&& m.merchant_avg@ == fields.merchant_avg.of(body)
    &&& m.km_from_home@ == fields.km_from_home.of(body)
    &&& match (m.last, fields.last) {
        (Some(last), Some(read)) => {
            &&& last.0 == fields.requested_at.epoch_seconds - read.0.epoch_seconds
            &&& last.1@ == read.1.of(body)
        },
        (None, None) => true,
        _ => false,
    }
}

fn scaled_share(n: u16, whole: u8) -> (scaled: i16)
    requires
        whole > 0,
    ensures
        scaled == share(n as int, whole as int),
{
    let rounded: u32 = (n as u32 * 20_000 + whole as u32) / (2 * whole as u32);
    if rounded > 10_000 {
        10_000
    } else {
        rounded as i16
    }
}

/// What is a whole or more has the greatest share.
proof fn lemma_great_share(n: int, whole: int)
    requires
        0 < whole <= n,
    ensures
        share(n, whole) == 10_000,
{
    assert((n * 20_000 + whole) / (2 * whole) >= 10_000) by (nonlinear_arith)
        requires
            0 < whole <= n,
    ;
}

/// Digits that go on write a number that is ten times as large or more.
proof fn lemma_digits_grow(text: Seq<u8>, i: int)
    requires
        0 <= i < text.len(),
    ensures
        digits_value(text.take(i + 1)) == match digits_value(text.take(i)) {
            Some(n) => if is_digit(text[i]) { Some(n * 10 + (text[i] - 48)) } else { None },
            None => None,
        },
{
    assert(text.take(i + 1).drop_last() =~= text.take(i));
}

/// Scales a count of a body by its digits, or has it scaled where it is not written in digits alone.
fn scaled_count<'a, C: Fn(&'a [u8], u8) -> i16>(text: &'a [u8], whole: u8, scale_count: &C) -> (scaled:
    i16)
    requires
        whole > 0,
        forall|t: &'a [u8], w: u8| #[trigger] scale_count.requires((t, w)),
    ensures
        count_scaled(*scale_count, text@, whole, scaled),
{
    let mut n: u16 = 0;
    let mut i: usize = 0;
    assert(text@.take(0) =~= Seq::<u8>::empty());
    while i < text.len()
        invariant
            i <= text@.len(),
            whole > 0,
            forall|t: &'a [u8], w: u8| #[trigger] scale_count.requires((t, w)),
            digits_value(text@.take(i as int)) matches Some(value) && (n == value || 1_000 <= n <= value),
        decreases text@.len() - i,
    {
        let byte: u8 = text[i];
        proof {
            lemma_digits_grow(text@, i as int);
        }
        if byte < 48 || byte > 57 {
            proof {
                lemma_digits_broken(text@, i + 1);
            }
            return scale_count(text, whole);
        }
        if n < 1_000 {
            n = n * 10 + (byte - 48) as u16;
        }
        i = i + 1;
    }
    proof {
        let value = digits_value(text@)->0;
        assert(text@.take(i as int) =~= text@);
        if n != value {
            lemma_great_share(n as int, whole as int);
            lemma_great_share(value, whole as int);
        }
    }
    scaled_share(n, whole)
}

fn flag_component(flag: bool) -> (value: i16)
    ensures
        value == flag_value(flag),
{
    if flag {
        10_000
    } else {
        0
    }
}

/// Puts a feature vector together.
pub fn assemble(traits: &Traits, parts: &ScaledParts) -> (vector: [i16; DIMS])
    ensures
        vector@ == assembled(*traits, *parts),
{
    let minutes: i16 = if traits.has_last { parts.minutes } else { -10_000 };
    let last_km: i16 = if traits.has_last { parts.last_km } else { -10_000 };
    let vector: [i16; DIMS] = [
        parts.amount,
        parts.installments,
        parts.ratio,
        scaled_share(traits.hour as u16, 23),
        scaled_share(traits.weekday_monday0 as u16, 6),
        minutes,
        last_km,
        parts.km_from_home,
        parts.tx_count,
        flag_component(traits.is_online),
        flag_component(traits.card_present),
        flag_component(!traits.merchant_known),
        traits.mcc_risk,
        parts.merchant_avg,
    ];
    assert(vector@ =~= assembled(*traits, *parts));
    vector
}

/// The risk of a merchant category.
pub fn mcc_risk_bytes(mcc: &[u8]) -> (risk: i16)
    ensures
        risk == mcc_risk_value(mcc@),
{
    if same_bytes(mcc, "5411".as_bytes()) {
        1_500
    } else if same_bytes(mcc, "5812".as_bytes()) {
        3_000
    } else if same_bytes(mcc, "5912".as_bytes()) {
        2_000
    } else if same_bytes(mcc, "5944".as_bytes()) {
        4_500
    } else if same_bytes(mcc, "7801".as_bytes()) {
        8_000
    } else if same_bytes(mcc, "7802".as_bytes()) {
        7_500
    } else if same_bytes(mcc, "7995".as_bytes()) {
        8_500
    } else if same_bytes(mcc, "4511".as_bytes()) {
        3_500
    } else if same_bytes(mcc, "5311".as_bytes()) {
        2_500
    } else {
        5_000
    }
}

fn find_after(body: &[u8], start: usize, key: &str) -> (found: Option<usize>)
    ensures
        match found {
            Some(at) => after_key(body@, start as int, word(key@)) == Some(at as int) && at <= body@.len(),
            None => after_key(body@, start as int, word(key@)) is None,
        },
{
    let bytes: &[u8] = key.as_bytes();
    match find_bytes(body, start, bytes) {
        Some(at) => Some(at + bytes.len()),
        None => None,
    }
}

fn value_start(body: &[u8], cursor: usize) -> (found: Option<usize>)
    ensures
        match found {
            Some(at) => value_position(body@, cursor as int) == Some(at as int) && at <= body@.len(),
            None => value_position(body@, cursor as int) is None,
        },
{
    let colon: usize = find_byte(body, cursor, 58)?;
    let mut at: usize = colon + 1;
    while at < body.len() && (body[at] == 32 || body[at] == 10 || body[at] == 13 || body[at] == 9)
        invariant
            colon < at <= body@.len(),
            skip_spaces(body@, colon + 1) == skip_spaces(body@, at as int),
        decreases body@.len() - at,
    {
        at = at + 1;
    }
    Some(at)
}

/// Where the value of a key begins.
fn key_value(body: &[u8], start: usize, key: &str) -> (found: Option<usize>)
    ensures
        match found {
            Some(at) => (after_key(body@, start as int, word(key@)) matches Some(key_end)
                && value_position(body@, key_end) == Some(at as int)) && at <= body@.len(),
            None => after_key(body@, start as int, word(key@)) matches Some(key_end)
                ==> value_position(body@, key_end) is None,
        },
{
    let key_end: usize = find_after(body, start, key)?;
    value_start(body, key_end)
}

/// One more byte counted.
proof fn lemma_counts_next(text: Seq<u8>, i: int)
    requires
        0 <= i < text.len(),
    ensures
        byte_count(text.take(i + 1), 45) == byte_count(text.take(i), 45) + if text[i] == 45 {
            1int
        } else {
            0
        },
        byte_count(text.take(i + 1), 46) == byte_count(text.take(i), 46) + if text[i] == 46 {
            1int
        } else {
            0
        },
        digit_count(text.take(i + 1)) == digit_count(text.take(i)) + if is_digit(text[i]) {
            1int
        } else {
            0
        },
{
    assert(text.take(i + 1).drop_last() =~= text.take(i));
}

/// Whether a text is a decimal number.
pub fn decimal(text: &[u8]) -> (is: bool)
    ensures
        is == is_decimal(text@),
{
    let mut signs: usize = 0;
    let mut points: usize = 0;
    let mut digits: usize = 0;
    let mut i: usize = 0;
    while i < text.len()
        invariant
            i <= text@.len(),
            signs == byte_count(text@.take(i as int), 45),
            points == byte_count(text@.take(i as int), 46),
            digits == digit_count(text@.take(i as int)),
            signs + points + digits <= i,
        decreases text@.len() - i,
    {
        proof {
            lemma_counts_next(text@, i as int);
        }
        let byte: u8 = text[i];
        if byte == 45 {
            signs = signs + 1;
        } else if byte == 46 {
            points = points + 1;
        } else if 48 <= byte && byte <= 57 {
            digits = digits + 1;
        }
        i = i + 1;
    }
    assert(text@.take(i as int) =~= text@);
    digits >= 1 && points <= 1 && signs + points + digits == text.len() && (signs == 0 || (signs == 1
        && text[0] == 45))
}

fn parse_number_after(body: &[u8], start: usize, key: &str) -> (found: Option<Span>)
    ensures
        found == number_after(body@, start as int, word(key@)),
        found matches Some(span) ==> span.within(body@),
{
    let at: usize = key_value(body, start, key)?;
    let mut end: usize = at;
    while end < body.len() && (body[end] == 45 || body[end] == 46 || (48 <= body[end] && body[end]
        <= 57))
        invariant
            at <= end <= body@.len(),
            number_end(body@, at as int) == number_end(body@, end as int),
        decreases body@.len() - end,
    {
        end = end + 1;
    }
    let span = Span { start: at, end };
    if decimal(span.slice(body)) {
        Some(span)
    } else {
        None
    }
}

fn parse_bool_after(body: &[u8], start: usize, key: &str) -> (found: Option<bool>)
    ensures
        found == bool_after(body@, start as int, word(key@)),
{
    let at: usize = key_value(body, start, key)?;
    if bytes_stand_at(body, at, "true".as_bytes()) {
        Some(true)
    } else if bytes_stand_at(body, at, "false".as_bytes()) {
        Some(false)
    } else {
        None
    }
}

fn parse_string_after(body: &[u8], start: usize, key: &str) -> (found: Option<Span>)
    ensures
        found == string_after(body@, start as int, word(key@)),
        found matches Some(span) ==> span.within(body@),
{
    let at: usize = key_value(body, start, key)?;
    if at >= body.len() || body[at] != 34 {
        return None;
    }
    match find_byte(body, at + 1, 34) {
        Some(end) => Some(Span { start: at + 1, end }),
        None => None,
    }
}

fn parse_array_after(body: &[u8], start: usize, key: &str) -> (found: Option<Span>)
    ensures
        found == array_after(body@, start as int, word(key@)),
        found matches Some(span) ==> span.within(body@),
{
    let at: usize = key_value(body, start, key)?;
    if at >= body.len() || body[at] != 91 {
        return None;
    }
    match find_byte(body, at, 93) {
        Some(end) => Some(Span { start: at + 1, end }),
        None => None,
    }
}

fn array_contains_string(array: &[u8], needle: &[u8]) -> (contains: bool)
    ensures
        contains == quotes(array@, 0, needle@),
{
    let mut cursor: usize = 0;
    while cursor < array.len()
        invariant
            cursor <= array@.len(),
            quotes(array@, 0, needle@) == quotes(array@, cursor as int, needle@),
        decreases array@.len() - cursor,
    {
        if array[cursor] == 34 {
            match find_byte(array, cursor + 1, 34) {
                None => {
                    return false;
                },
                Some(end) => {
                    let quoted = Span { start: cursor + 1, end };
                    if same_bytes(quoted.slice(array), needle) {
                        return true;
                    }
                    cursor = end + 1;
                },
            }
        } else {
            cursor = cursor + 1;
        }
    }
    false
}

fn read_last(body: &[u8], start: usize) -> (found: Option<Option<(ParsedTime, Span)>>)
    ensures
        found == last_part(body@, start as int),
        found matches Some(Some(last)) ==> last.1.within(body@) && -100_000_000_000 <= last.0.epoch_seconds
            <= 400_000_000_000,
{
    let at: usize = key_value(body, start, "\"last_transaction\"")?;
    if at < body.len() && body[at] == 110 {
        return Some(None);
    }
    let stamp: Span = parse_string_after(body, at, "\"timestamp\"")?;
    let time: ParsedTime = parse_utc_timestamp_bytes(stamp.slice(body))?;
    let km: Span = parse_number_after(body, at, "\"km_from_current\"")?;
    Some(Some((time, km)))
}

/// Reads the fields of a body.
pub fn read_body(body: &[u8]) -> (found: Option<BodyFields>)
    ensures
        found == body_fields(body@),
        found matches Some(fields) ==> fields.within(body@),
{
    let transaction: usize = find_after(body, 0, "\"transaction\"")?;
    let amount: Span = parse_number_after(body, transaction, "\"amount\"")?;
    let installments: Span = parse_number_after(body, transaction, "\"installments\"")?;
    let requested: Span = parse_string_after(body, transaction, "\"requested_at\"")?;
    let requested_at: ParsedTime = parse_utc_timestamp_bytes(requested.slice(body))?;
    let customer: usize = find_after(body, transaction, "\"customer\"")?;
    let customer_avg: Span = parse_number_after(body, customer, "\"avg_amount\"")?;
    let tx_count: Span = parse_number_after(body, customer, "\"tx_count_24h\"")?;
    let known: Span = parse_array_after(body, customer, "\"known_merchants\"")?;
    let merchant: usize = find_after(body, customer, "\"merchant\"")?;
    let id: Span = parse_string_after(body, merchant, "\"id\"")?;
    let mcc: Span = parse_string_after(body, merchant, "\"mcc\"")?;
    let merchant_avg: Span = parse_number_after(body, merchant, "\"avg_amount\"")?;
    let terminal: usize = find_after(body, merchant, "\"terminal\"")?;
    let is_online: bool = parse_bool_after(body, terminal, "\"is_online\"")?;
    let card_present: bool = parse_bool_after(body, terminal, "\"card_present\"")?;
    let km_from_home: Span = parse_number_after(body, terminal, "\"km_from_home\"")?;
    let last: Option<(ParsedTime, Span)> = read_last(body, terminal)?;
    let merchant_known: bool = array_contains_string(known.slice(body), id.slice(body));
    Some(
        BodyFields {
            amount,
            installments,
            requested_at,
            customer_avg,
            tx_count,
            merchant_known,
            mcc,
            merchant_avg,
            is_online,
            card_present,
            km_from_home,
            last,
        },
    )
}

impl BodyFields {
    /// The numbers lie within the body and the times are of ordinary size.
    pub open spec fn within(self, body: Seq<u8>) -> bool {
        &&& self.amount.within(body)
        &&& self.installments.within(body)
        &&& self.customer_avg.within(body)
        &&& self.tx_count.within(body)
        &&& self.mcc.within(body)
        &&& self.merchant_avg.within(body)
        &&& self.km_from_home.within(body)
        &&& -100_000_000_000 <= self.requested_at.epoch_seconds <= 400_000_000_000
        &&& self.last matches Some(last) ==> last.1.within(body) && -100_000_000_000
            <= last.0.epoch_seconds <= 400_000_000_000
    }
}

/// A body may have a vector, with its numbers scaled by `scale` and those counts by `scale_count` that
/// are not written in digits.
pub open spec fn may_have_vector<
    'a,
    F: Fn(Measures<&'a [u8]>) -> ScaledNumbers,
    C: Fn(&'a [u8], u8) -> i16,
>(body: Seq<u8>, fields: BodyFields, scale: F, scale_count: C, vector: Seq<i16>) -> bool {
    exists|m: Measures<&'a [u8]>, numbers: ScaledNumbers, installments: i16, tx_count: i16|
        {
            &&& #[trigger] scale.ensures((m,), numbers)
            &&& body_measures(m, fields, body)
            &&& #[trigger] count_scaled(
                scale_count,
                fields.installments.of(body),
                MOST_INSTALLMENTS,
                installments,
            )
            &&& #[trigger] count_scaled(scale_count, fields.tx_count.of(body), MOST_TX_COUNT, tx_count)
            &&& vector == assembled(
                body_traits(fields, body),
                numbers.and_counts(installments as int, tx_count as int),
            )
        }
}

/// The feature vector of a body, its numbers scaled by `scale` and those counts by `scale_count` that
/// are not written in digits.
pub fn vectorize_body<
    'a,
    F: Fn(Measures<&'a [u8]>) -> ScaledNumbers,
    C: Fn(&'a [u8], u8) -> i16,
>(body: &'a [u8], scale: F, scale_count: C) -> (vector: Option<[i16; DIMS]>)
    requires
        forall|m: Measures<&'a [u8]>| #[trigger] scale.requires((m,)),
        forall|t: &'a [u8], w: u8| #[trigger] scale_count.requires((t, w)),
    ensures
        match vector {
            Some(values) => body_fields(body@) matches Some(fields) && may_have_vector(
                body@,
                fields,
                scale,
                scale_count,
                values@,
            ),
            None => body_fields(body@) is None,
        },
        vector matches Some(values) ==> {
            let fields = body_fields(body@)->0;
            &&& values@.len() == 14
            &&& digits_value(fields.installments.of(body@)) matches Some(n) ==> values@[1] == share(n, 12)
            &&& values@[3] == share(fields.requested_at.hour as int, 23)
            &&& values@[4] == share(fields.requested_at.weekday_monday0 as int, 6)
            &&& fields.last is None ==> values@[5] == -10_000 && values@[6] == -10_000
            &&& digits_value(fields.tx_count.of(body@)) matches Some(n) ==> values@[8] == share(n, 20)
            &&& values@[9] == if fields.is_online { 10_000int } else { 0 }
            &&& values@[10] == if fields.card_present { 10_000int } else { 0 }
            &&& values@[11] == if fields.merchant_known { 0int } else { 10_000 }
            &&& values@[12] == mcc_risk_value(fields.mcc.of(body@))
        },
        vector matches Some(values) ==> exists|m: Measures<&'a [u8]>, numbers: ScaledNumbers|
            {
                let fields = body_fields(body@)->0;
                &&& #[trigger] scale.ensures((m,), numbers)
                &&& m.amount@ == fields.amount.of(body@)
                &&& m.customer_avg@ == fields.customer_avg.of(body@)
                &&& m.merchant_avg@ == fields.merchant_avg.of(body@)
                &&& m.km_from_home@ == fields.km_from_home.of(body@)
                &&& fields.last is None ==> m.last is None
                &&& fields.last matches Some(last) ==> (m.last matches Some(told) && told.0
                    == fields.requested_at.epoch_seconds - last.0.epoch_seconds && told.1@
                    == last.1.of(body@))
                    && values@[5] == numbers.minutes && values@[6] == numbers.last_km
                &&& values@[0] == numbers.amount
                &&& values@[2] == numbers.ratio
                &&& values@[7] == numbers.km_from_home
                &&& values@[13] == numbers.merchant_avg
            },
{
    let fields: BodyFields = read_body(body)?;
    let last: Option<(i64, &'a [u8])> = match fields.last {
        Some((time, km)) => Some((
            fields.requested_at.epoch_seconds - time.epoch_seconds,
            km.slice(body),
        )),
        None => None,
    };
    let measures = Measures {
        amount: fields.amount.slice(body),
        customer_avg: fields.customer_avg.slice(body),
        merchant_avg: fields.merchant_avg.slice(body),
        km_from_home: fields.km_from_home.slice(body),
        last,
    };
    let traits = Traits {
        hour: fields.requested_at.hour,
        weekday_monday0: fields.requested_at.weekday_monday0,
        has_last: fields.last.is_some(),
        is_online: fields.is_online,
        card_present: fields.card_present,
        merchant_known: fields.merchant_known,
        mcc_risk: mcc_risk_bytes(fields.mcc.slice(body)),
    };
    let numbers: ScaledNumbers = scale(measures);
    let installments: i16 = scaled_count(
        fields.installments.slice(body),
        MOST_INSTALLMENTS,
        &scale_count,
    );
    let tx_count: i16 = scaled_count(fields.tx_count.slice(body), MOST_TX_COUNT, &scale_count);
    let parts: ScaledParts = numbers.with_counts(installments, tx_count);
    proof {
        assert(traits == body_traits(fields, body@));
        lemma_components(traits, parts);
        assert(body_measures(measures, fields, body@));
        assert(scale.ensures((measures,), numbers));
    }
    Some(assemble(&traits, &parts))
}

/// What a vector takes from a request besides numbers.
pub open spec fn request_traits<N>(request: FraudRequest<'_, N>, requested_at: ParsedTime) -> Traits {
    Traits {
        hour: requested_at.hour,
        weekday_monday0: requested_at.weekday_monday0,
        has_last: request.last_transaction is Some,
        is_online: request.terminal.is_online,
        card_present: request.terminal.card_present,
        merchant_known: request.knows_merchant(),
        mcc_risk: mcc_risk_value(word(request.merchant.mcc@)),
    }
}

/// The times of a request: when it was made, and when the earlier transaction was.
pub open spec fn request_times<N>(request: FraudRequest<'_, N>) -> Option<(
    ParsedTime,
    Option<ParsedTime>,
)> {
    match time_of(word(request.transaction.requested_at@)) {
        Some(requested) => match request.last_transaction {
            Some(last) => match time_of(word(last.timestamp@)) {
                Some(time) => Some((requested, Some(time))),
                None => None,
            },
            None => Some((requested, None)),
        },
        None => None,
    }
}

/// The amounts and distances of a request.
pub open spec fn request_measures<N>(
    request: FraudRequest<'_, N>,
    times: (ParsedTime, Option<ParsedTime>),
) -> Measures<N> {
    Measures {
        amount: request.transaction.amount,
        customer_avg: request.customer.avg_amount,
        merchant_avg: request.merchant.avg_amount,
        km_from_home: request.terminal.km_from_home,
        last: match (times.1, request.last_transaction) {
            (Some(time), Some(last)) => Some(
                ((times.0.epoch_seconds - time.epoch_seconds) as i64, last.km_from_current),
            ),
            _ => None,
        },
    }
}

/// The numbers of a request together with its counts: installments out of twelve, and the
/// transactions of a day out of twenty.
pub open spec fn request_parts<N>(request: FraudRequest<'_, N>, numbers: ScaledNumbers) -> ScaledParts {
    numbers.and_counts(
        share(request.transaction.installments as int, MOST_INSTALLMENTS as int),
        share(request.customer.tx_count_24h as int, MOST_TX_COUNT as int),
    )
}

/// The feature vector of a request, its amounts and distances scaled by `scale`.
pub fn vectorize<N: Copy, F: Fn(Measures<N>) -> ScaledNumbers>(
    request: &FraudRequest<'_, N>,
    scale: F,
) -> (vector: Option<[i16; DIMS]>)
    requires
        forall|m: Measures<N>| #[trigger] scale.requires((m,)),
    ensures
        match vector {
            Some(values) => request_times(*request) matches Some(times) && exists|numbers: ScaledNumbers|
             #[trigger]
                scale.ensures((request_measures(*request, times),), numbers) && values@ == assembled(
                    request_traits(*request, times.0),
                    request_parts(*request, numbers),
                ),
            None => request_times(*request) is None,
        },
        vector matches Some(values) ==> {
            let time = time_of(word(request.transaction.requested_at@))->0;
            &&& values@.len() == 14
            &&& values@[1] == share(request.transaction.installments as int, 12)
            &&& values@[3] == share(time.hour as int, 23)
            &&& values@[4] == share(time.weekday_monday0 as int, 6)
            &&& request.last_transaction is None ==> values@[5] == -10_000 && values@[6] == -10_000
            &&& values@[8] == share(request.customer.tx_count_24h as int, 20)
            &&& values@[9] == if request.terminal.is_online { 10_000int } else { 0 }
            &&& values@[10] == if request.terminal.card_present { 10_000int } else { 0 }
            &&& values@[11] == if merchants_in(request.customer.known_merchants).contains(
                request.merchant.id@,
            ) {
                0int
            } else {
                10_000
            }
            &&& values@[12] == mcc_risk_value(word(request.merchant.mcc@))
        },
        vector matches Some(values) ==> exists|m: Measures<N>, numbers: ScaledNumbers|
            {
                &&& #[trigger] scale.ensures((m,), numbers)
                &&& m.amount == request.transaction.amount
                &&& m.customer_avg == request.customer.avg_amount
                &&& m.merchant_avg == request.merchant.avg_amount
                &&& m.km_from_home == request.terminal.km_from_home
                &&& request.last_transaction matches Some(last) ==> {
                    let now = time_of(word(request.transaction.requested_at@))->0;
                    let earlier = time_of(word(last.timestamp@))->0;
                    &&& m.last == Some(
                        ((now.epoch_seconds - earlier.epoch_seconds) as i64, last.km_from_current),
                    )
                    &&& values@[5] == numbers.minutes
                    &&& values@[6] == numbers.last_km
                }
                &&& request.last_transaction is None ==> m.last is None
                &&& values@[0] == numbers.amount
                &&& values@[2] == numbers.ratio
                &&& values@[7] == numbers.km_from_home
                &&& values@[13] == numbers.merchant_avg
            },
{
    let requested_at: ParsedTime = parse_utc_timestamp(request.transaction.requested_at)?;
    let merchant_known: bool = request.merchant_known();
    let last: Option<(i64, N)> = match &request.last_transaction {
        Some(last) => {
            let last_at: ParsedTime = parse_utc_timestamp(last.timestamp)?;
            Some((requested_at.epoch_seconds - last_at.epoch_seconds, last.km_from_current))
        },
        None => None,
    };
    let measures = Measures {
        amount: request.transaction.amount,
        customer_avg: request.customer.avg_amount,
        merchant_avg: request.merchant.avg_amount,
        km_from_home: request.terminal.km_from_home,
        last,
    };
    let traits = Traits {
        hour: requested_at.hour,
        weekday_monday0: requested_at.weekday_monday0,
        has_last: request.last_transaction.is_some(),
        is_online: request.terminal.is_online,
        card_present: request.terminal.card_present,
        merchant_known,
        mcc_risk: mcc_risk_bytes(request.merchant.mcc.as_bytes()),
    };
    let numbers: ScaledNumbers = scale(measures);
    let installments: i16 = scaled_share(request.transaction.installments, MOST_INSTALLMENTS);
    let tx_count: i16 = scaled_share(request.customer.tx_count_24h, MOST_TX_COUNT);
    let parts: ScaledParts = numbers.with_counts(installments, tx_count);
    proof {
        lemma_components(traits, parts);
        assert(scale.ensures((measures,), numbers));
    }
    Some(assemble(&traits, &parts))
}

impl ScaledNumbers {
    /// Each number is from 0 to 10 000.
    pub open spec fn in_range(self) -> bool {
        &&& on_axis(self.amount)
        &&& on_axis(self.ratio)
        &&& on_axis(self.minutes)
        &&& on_axis(self.last_km)
        &&& on_axis(self.km_from_home)
        &&& on_axis(self.merchant_avg)
    }
}

impl ScaledParts {
    /// Each number is from 0 to 10 000.
    pub open spec fn in_range(self) -> bool {
        &&& on_axis(self.amount)
        &&& on_axis(self.installments)
        &&& on_axis(self.ratio)
        &&& on_axis(self.minutes)
        &&& on_axis(self.last_km)
        &&& on_axis(self.km_from_home)
        &&& on_axis(self.tx_count)
        &&& on_axis(self.merchant_avg)
    }
}

/// A share is from 0 to 10 000.
proof fn lemma_share(n: int, whole: int)
    requires
        0 <= n,
        0 < whole,
    ensures
        0 <= share(n, whole) <= 10_000,
{
    assert((n * 20_000 + whole) / (2 * whole) >= 0) by (nonlinear_arith)
        requires
            0 <= n,
            0 < whole,
    ;
}

/// The vectors that are put together are such as an index expects of its queries, and, where a
/// transaction count is a whole one, such as it expects of its points.
pub proof fn lemma_vector_fits_index(traits: Traits, parts: ScaledParts, mcc: Seq<u8>)
    requires
        parts.in_range(),
        traits.mcc_risk == mcc_risk_value(mcc),
    ensures
        plain_query(assembled(traits, parts)),
        has_last(assembled(traits, parts)) == traits.has_last,
        parts.tx_count as int % TX_STEP as int == 0 ==> on_grid(scanned(assembled(traits, parts))),
{
    lemma_share(traits.hour as int, 23);
    lemma_share(traits.weekday_monday0 as int, 6);
    let values = scanned(assembled(traits, parts));
    assert forall|d: int| 2 <= d < DIMS implies on_axis(#[trigger] values[d]) by {}
    assert(mcc_value(mcc_level(traits.mcc_risk as int)) == traits.mcc_risk);
}

/// The vector of a request is such as an index expects of its queries and of its points.
pub proof fn lemma_request_fits_index<N>(
    request: FraudRequest<'_, N>,
    requested_at: ParsedTime,
    numbers: ScaledNumbers,
)
    requires
        numbers.in_range(),
    ensures
        plain_query(assembled(request_traits(request, requested_at), request_parts(request, numbers))),
        on_grid(
            scanned(assembled(request_traits(request, requested_at), request_parts(request, numbers))),
        ),
{
    let n = request.customer.tx_count_24h as int;
    lemma_share(request.transaction.installments as int, 12);
    lemma_share(n, 20);
    assert(share(n, 20) % 500 == 0) by {
        assert((n * 20_000 + 20) / 40 == n * 500);
    }
    lemma_vector_fits_index(
        request_traits(request, requested_at),
        request_parts(request, numbers),
        word(request.merchant.mcc@),
    );
}

} // verus!
