//! What is read of a compact body, from the way it is written.
use vstd::prelude::*;

use crate::fraud_scoring::{array_field, bool_at, bool_past, count_field, customer_fields, digits_end,
    fast_features, fast_fields, fixed_field, last_fields, lists_merchant, merchant_fields, number_field,
    number_past, past, stamp_hour_weekday, stamp_seconds, terminal_fields, transaction_fields,
    transaction_start, fields_rule_score, lemma_stamps_agree, may_score, model_score, model_texts, rule_texts,
    Comparisons, FastFeatures, FastFields, ModelInputs, RuleNumbers};
use crate::agreement::{lemma_known_in_bytes, request_texts, NumberTexts};
use crate::key_values::flag_text;
use crate::placement::{lemma_array_field, lemma_bool, lemma_count_field, lemma_fixed_field,
    lemma_number, lemma_number_field, lemma_past, lemma_quote_after, lemma_span};
use crate::scanning::{first_byte, word, Span};
use crate::request::{merchants_in, FraudRequest};
use crate::time::{digits_value, time_of};
use crate::vector::mcc_risk_value;
use crate::written::RequestTexts;

verus! {

/// Digits, with or without a point and more digits behind them.
pub open spec fn unsigned(text: Seq<u8>) -> bool {
    exists|p: int| #[trigger] splits_at(text, p)
}

/// Digits before a position, one at least, and from there on nothing, or a point and digits.
pub open spec fn splits_at(text: Seq<u8>, p: int) -> bool {
    &&& 1 <= p <= text.len()
    &&& forall|k: int| 0 <= k < p ==> 48 <= #[trigger] text[k] <= 57
    &&& p < text.len() ==> text[p] == 46
    &&& forall|k: int| p < k < text.len() ==> 48 <= #[trigger] text[k] <= 57
}

/// One or two digits.
pub open spec fn is_count(text: Seq<u8>) -> bool {
    &&& text.len() == 1 || text.len() == 2
    &&& forall|k: int| 0 <= k < text.len() ==> 48 <= #[trigger] text[k] <= 57
}

/// A text cannot go on a number.
pub open spec fn ends_number(rest: Seq<u8>) -> bool {
    rest.len() > 0 && !(48 <= rest[0] <= 57) && rest[0] != 46
}

/// Names in quotation marks with commas between them.
pub open spec fn listed(names: Seq<Seq<u8>>) -> Seq<u8>
    decreases names.len(),
{
    if names.len() == 0 {
        Seq::empty()
    } else if names.len() == 1 {
        seq![34u8] + names[0] + seq![34u8]
    } else {
        listed(names.drop_last()) + seq![44u8, 34u8] + names.last() + seq![34u8]
    }
}

/// Every name has eight bytes.
pub open spec fn in_eights(names: Seq<Seq<u8>>) -> bool {
    forall|q: int| 0 <= q < names.len() ==> (#[trigger] names[q]).len() == 8
}

/// Where the names of a list stand.
proof fn lemma_listed_at(names: Seq<Seq<u8>>, q: int)
    requires
        in_eights(names),
        0 <= q < names.len(),
    ensures
        listed(names).len() == 11 * names.len() - 1,
        listed(names).subrange(11 * q + 1, 11 * q + 9) == names[q],
    decreases names.len(),
{
    let n = names.len() as int;
    let fewer = names.drop_last();
    assert(names[n - 1].len() == 8);
    assert(in_eights(fewer)) by {
        assert forall|k: int| 0 <= k < fewer.len() implies (#[trigger] fewer[k]).len() == 8 by {
            assert(fewer[k] == names[k]);
        }
    }
    if n == 1 {
        assert(listed(names).subrange(1, 9) =~= names[0]);
    } else {
        if q < n - 1 {
            lemma_listed_at(fewer, q);
            assert(listed(names).subrange(11 * q + 1, 11 * q + 9) =~= listed(fewer).subrange(
                11 * q + 1,
                11 * q + 9,
            ));
        } else {
            lemma_listed_at(fewer, 0);
            assert(listed(names).subrange(11 * q + 1, 11 * q + 9) =~= names[q]);
        }
    }
}

/// From one name of a list on.
proof fn lemma_listed_from(names: Seq<Seq<u8>>, m: int, id: Seq<u8>)
    requires
        in_eights(names),
        0 <= m <= names.len(),
    ensures
        lists_merchant(listed(names), 11 * m, id) == exists|q: int|
            m <= q < names.len() && #[trigger] names[q] == id,
    decreases names.len() - m,
{
    let n = names.len() as int;
    if m < n {
        lemma_listed_at(names, m);
        lemma_listed_from(names, m + 1, id);
        assert(11 * (m + 1) == 11 * m + 11);
        if exists|q: int| m <= q < n && #[trigger] names[q] == id {
            let q = choose|q: int| m <= q < n && #[trigger] names[q] == id;
            assert(q == m || m + 1 <= q);
        }
    } else if n > 0 {
        lemma_listed_at(names, 0);
    }
}

/// However many ids of eight bytes a list holds, a merchant stands in it if and only if one of them is
/// the merchant's id.
pub proof fn lemma_listed_merchants(names: Seq<Seq<u8>>, id: Seq<u8>)
    requires
        in_eights(names),
    ensures
        lists_merchant(listed(names), 0, id) == names.contains(id),
{
    lemma_listed_from(names, 0, id);
}

/// A list of names without brackets holds none.
proof fn lemma_listed_bracket(names: Seq<Seq<u8>>)
    requires
        forall|q: int| 0 <= q < names.len() ==> !(#[trigger] names[q]).contains(93u8),
    ensures
        forall|k: int| 0 <= k < listed(names).len() ==> #[trigger] listed(names)[k] != 93,
    decreases names.len(),
{
    let n = names.len() as int;
    if n > 0 {
        let fewer = names.drop_last();
        let name = names[n - 1];
        assert(!name.contains(93u8));
        assert forall|k: int| 0 <= k < name.len() implies name[k] != 93 by {
            assert(name.contains(name[k]));
        }
        if n > 1 {
            assert forall|q: int| 0 <= q < fewer.len() implies !(#[trigger] fewer[q]).contains(93u8) by {
                assert(fewer[q] == names[q]);
            }
            lemma_listed_bracket(fewer);
        }
        let before = if n > 1 { listed(fewer) + seq![44u8, 34u8] } else { seq![34u8] };
        assert(listed(names) =~= before + name + seq![34u8]);
        assert forall|k: int| 0 <= k < listed(names).len() implies #[trigger] listed(names)[k] != 93 by {
            if k < before.len() {
                assert(listed(names)[k] == before[k]);
                if n > 1 && k < listed(fewer).len() {
                    assert(before[k] == listed(fewer)[k]);
                }
            } else if k < before.len() + name.len() {
                assert(listed(names)[k] == name[k - before.len()]);
            }
        }
    }
}

/// A word that stands first.
proof fn lemma_first_past(expected: Seq<u8>, rest: Seq<u8>)
    ensures
        past(expected + rest, 0, expected) == Some(expected.len() as int),
{
    assert((expected + rest).subrange(0, expected.len() as int) =~= expected);
}

/// Digits that end.
proof fn lemma_run_ends(text: Seq<u8>, at: int, end: int)
    requires
        0 <= at <= end <= text.len(),
        forall|k: int| at <= k < end ==> 48 <= #[trigger] text[k] <= 57,
        end < text.len() ==> !(48 <= text[end] <= 57),
    ensures
        digits_end(text, at) == end,
    decreases end - at,
{
    if at < end {
        lemma_run_ends(text, at + 1, end);
    }
}

/// A number that stands first.
proof fn lemma_first_number(number: Seq<u8>, rest: Seq<u8>)
    requires
        unsigned(number),
        ends_number(rest),
    ensures
        number_past(number + rest, 0) == Some(number.len() as int),
        number.len() > 0,
{
    let text = number + rest;
    let p = choose|p: int| #[trigger] splits_at(number, p);
    assert(text[0] == number[0]);
    assert(text[number.len() as int] == rest[0]);
    assert forall|k: int| 1 <= k < p implies 48 <= #[trigger] text[k] <= 57 by {
        assert(text[k] == number[k]);
    }
    if p < number.len() {
        assert(text[p] == number[p]);
        assert forall|k: int| p < k < number.len() implies 48 <= #[trigger] text[k] <= 57 by {
            assert(text[k] == number[k]);
        }
        lemma_run_ends(text, p + 1, number.len() as int);
    }
    lemma_run_ends(text, 1, p);
}

/// A number behind a prefix, both first.
proof fn lemma_first_number_field(prefix: Seq<u8>, number: Seq<u8>, rest: Seq<u8>)
    requires
        unsigned(number),
        ends_number(rest),
        (prefix + number + rest).len() <= usize::MAX,
    ensures
        number_field(prefix + number + rest, 0, prefix) == Some(
            (
                Span { start: prefix.len() as usize, end: (prefix.len() + number.len()) as usize },
                (prefix.len() + number.len()) as int,
            ),
        ),
        (prefix + number + rest).subrange(prefix.len() as int, (prefix.len() + number.len()) as int)
            == number,
{
    let text = prefix + number + rest;
    assert(text =~= prefix + (number + rest));
    lemma_first_past(prefix, number + rest);
    lemma_first_number(number, rest);
    lemma_number(prefix, number + rest, 0);
    assert(text.subrange(prefix.len() as int, (prefix.len() + number.len()) as int) =~= number);
}

/// A count behind a prefix, both first.
proof fn lemma_first_count_field(prefix: Seq<u8>, count: Seq<u8>, rest: Seq<u8>)
    requires
        is_count(count),
        ends_number(rest),
    ensures
        digits_value(count) is Some,
        0 <= digits_value(count)->0 <= 99,
        count_field(prefix + count + rest, 0, prefix) == Some(
            (digits_value(count)->0 as u8, (prefix.len() + count.len()) as int),
        ),
{
    let text = prefix + count + rest;
    let n = prefix.len() as int;
    assert(text =~= prefix + (count + rest));
    lemma_first_past(prefix, count + rest);
    reveal_with_fuel(digits_value, 3);
    assert(text[n] == count[0]);
    assert(text[n + count.len()] == rest[0]);
    if count.len() == 2 {
        assert(text[n + 1] == count[1]);
        assert(count.drop_last().drop_last() =~= Seq::<u8>::empty());
        assert(count.drop_last().last() == count[0]);
    } else {
        assert(count.drop_last() =~= Seq::<u8>::empty());
    }
}

/// A string of fixed length behind a prefix, both first.
proof fn lemma_first_fixed_field(prefix: Seq<u8>, value: Seq<u8>, rest: Seq<u8>)
    requires
        (prefix + value + seq![34u8] + rest).len() <= usize::MAX,
    ensures
        fixed_field(prefix + value + seq![34u8] + rest, 0, prefix, value.len() as int) == Some(
            (
                Span { start: prefix.len() as usize, end: (prefix.len() + value.len()) as usize },
                (prefix.len() + value.len() + 1) as int,
            ),
        ),
        (prefix + value + seq![34u8] + rest).subrange(
            prefix.len() as int,
            (prefix.len() + value.len()) as int,
        ) == value,
{
    let text = prefix + value + seq![34u8] + rest;
    assert(text =~= prefix + (value + seq![34u8] + rest));
    lemma_first_past(prefix, value + seq![34u8] + rest);
    assert(text.subrange(prefix.len() as int, (prefix.len() + value.len()) as int) =~= value);
}

/// A byte that does not stand before another.
proof fn lemma_byte_after(text: Seq<u8>, from: int, at: int, byte: u8)
    requires
        0 <= from <= at < text.len(),
        forall|k: int| from <= k < at ==> text[k] != byte,
        text[at] == byte,
    ensures
        first_byte(text, from, byte) == Some(at),
    decreases at - from,
{
    if from < at {
        lemma_byte_after(text, from + 1, at, byte);
    }
}

/// A list behind a prefix, both first.
proof fn lemma_first_array_field(prefix: Seq<u8>, names: Seq<Seq<u8>>, rest: Seq<u8>)
    requires
        forall|q: int| 0 <= q < names.len() ==> !(#[trigger] names[q]).contains(93u8),
        (prefix + listed(names) + seq![93u8] + rest).len() <= usize::MAX,
    ensures
        array_field(prefix + listed(names) + seq![93u8] + rest, 0, prefix) == Some(
            (
                Span { start: prefix.len() as usize, end: (prefix.len() + listed(names).len()) as usize },
                (prefix.len() + listed(names).len() + 1) as int,
            ),
        ),
        (prefix + listed(names) + seq![93u8] + rest).subrange(
            prefix.len() as int,
            (prefix.len() + listed(names).len()) as int,
        ) == listed(names),
{
    let list = listed(names);
    let text = prefix + list + seq![93u8] + rest;
    let start = prefix.len() as int;
    let end = start + list.len();
    assert(text =~= prefix + (list + seq![93u8] + rest));
    lemma_first_past(prefix, list + seq![93u8] + rest);
    lemma_listed_bracket(names);
    assert forall|k: int| start <= k < end implies text[k] != 93 by {
        assert(text[k] == list[k - start]);
    }
    lemma_byte_after(text, start, end, 93);
    assert(text.subrange(start, end) =~= list);
}

/// A truth value that stands first.
proof fn lemma_first_flag(flag: bool, rest: Seq<u8>)
    ensures
        bool_at(flag_text(flag) + rest, 0) == Some(flag),
        bool_past(flag_text(flag) + rest, 0) == Some(flag_text(flag).len() as int),
{
    reveal_strlit("true");
    reveal_strlit("false");
    vstd::utf8::is_ascii_chars_encode_utf8("true"@);
    vstd::utf8::is_ascii_chars_encode_utf8("false"@);
    assert((flag_text(flag) + rest)[0] == flag_text(flag)[0]);
}

/// How the words between the values of a compact body begin.
proof fn lemma_compact_words()
    ensures
        word(",\"installments\":"@).len() > 0 && word(",\"installments\":"@)[0] == 44,
        word(",\"requested_at\":\""@).len() > 0 && word(",\"requested_at\":\""@)[0] == 44,
        word(",\"tx_count_24h\":"@).len() > 0 && word(",\"tx_count_24h\":"@)[0] == 44,
        word(",\"known_merchants\":["@).len() > 0 && word(",\"known_merchants\":["@)[0] == 44,
        word("},\"terminal\":{"@).len() > 0 && word("},\"terminal\":{"@)[0] == 125,
        word("},\"last_transaction\":"@).len() > 0 && word("},\"last_transaction\":"@)[0] == 125,
        word("null"@).len() > 0 && word("null"@)[0] == 110,
        word("{\"timestamp\":\""@).len() > 0 && word("{\"timestamp\":\""@)[0] == 123,
{
    reveal_strlit(",\"installments\":");
    vstd::utf8::is_ascii_chars_encode_utf8(",\"installments\":"@);
    reveal_strlit(",\"requested_at\":\"");
    vstd::utf8::is_ascii_chars_encode_utf8(",\"requested_at\":\""@);
    reveal_strlit(",\"tx_count_24h\":");
    vstd::utf8::is_ascii_chars_encode_utf8(",\"tx_count_24h\":"@);
    reveal_strlit(",\"known_merchants\":[");
    vstd::utf8::is_ascii_chars_encode_utf8(",\"known_merchants\":["@);
    reveal_strlit("},\"terminal\":{");
    vstd::utf8::is_ascii_chars_encode_utf8("},\"terminal\":{"@);
    reveal_strlit("},\"last_transaction\":");
    vstd::utf8::is_ascii_chars_encode_utf8("},\"last_transaction\":"@);
    reveal_strlit("null");
    vstd::utf8::is_ascii_chars_encode_utf8("null"@);
    reveal_strlit("{\"timestamp\":\"");
    vstd::utf8::is_ascii_chars_encode_utf8("{\"timestamp\":\""@);
}

/// The fields of a transaction in a compact body, with what follows them.
#[verifier::opaque]
pub open spec fn transaction_text(t: RequestTexts, rest: Seq<u8>) -> Seq<u8> {
    word("\"amount\":"@) + t.amount + (word(",\"installments\":"@) + t.installments + (word(",\"requested_at\":\""@)
        + t.requested_at + seq![34u8] + rest))
}

/// The customer in a compact body, with what follows.
#[verifier::opaque]
pub open spec fn customer_text(t: RequestTexts, rest: Seq<u8>) -> Seq<u8> {
    word("},\"customer\":{"@) + (word("\"avg_amount\":"@) + t.customer_avg + (word(",\"tx_count_24h\":"@) + t.tx_count + (
    word(",\"known_merchants\":["@) + listed(t.known_merchants) + seq![93u8] + rest)))
}

/// The merchant in a compact body, with what follows.
#[verifier::opaque]
pub open spec fn merchant_text(t: RequestTexts, rest: Seq<u8>) -> Seq<u8> {
    word("},\"merchant\":{"@) + (word("\"id\":\""@) + t.merchant_id + seq![34u8] + (word(",\"mcc\":\""@) + t.mcc + seq![34u8] + (
    word(",\"avg_amount\":"@) + (t.merchant_avg + rest))))
}

/// The terminal in a compact body, with what follows.
#[verifier::opaque]
pub open spec fn terminal_text(t: RequestTexts, rest: Seq<u8>) -> Seq<u8> {
    word("},\"terminal\":{"@) + (word("\"is_online\":"@) + (flag_text(t.is_online) + (word(",\"card_present\":"@) + (flag_text(
        t.card_present,
    ) + (word(",\"km_from_home\":"@) + t.km_from_home + rest)))))
}

/// The earlier transaction in a compact body, which ends with it.
#[verifier::opaque]
pub open spec fn last_text(t: RequestTexts) -> Seq<u8> {
    word("},\"last_transaction\":"@) + match t.last {
        Some((timestamp, km)) => word("{\"timestamp\":\""@) + timestamp + seq![34u8] + (word(",\"km_from_current\":"@) + km
            + seq![125u8, 125u8]),
        None => word("null"@) + seq![125u8],
    }
}

/// The compact body of a request.
pub open spec fn compact_text(t: RequestTexts) -> Seq<u8> {
    word("{\"id\":"@) + (seq![34u8] + t.id + seq![34u8] + (word(",\"transaction\":{"@) + transaction_text(
        t,
        customer_text(t, merchant_text(t, terminal_text(t, last_text(t)))),
    )))
}

/// A request can be told in a compact body: no identifier or name ends early, times, ids and
/// categories have their lengths, counts one or two digits, and the numbers are without a sign.
pub open spec fn compactly(t: RequestTexts) -> bool {
    &&& !t.id.contains(34u8)
    &&& unsigned(t.amount)
    &&& is_count(t.installments)
    &&& t.requested_at.len() == 20
    &&& unsigned(t.customer_avg)
    &&& is_count(t.tx_count)
    &&& in_eights(t.known_merchants)
    &&& forall|q: int|
        0 <= q < t.known_merchants.len() ==> !(#[trigger] t.known_merchants[q]).contains(93u8)
    &&& t.merchant_id.len() == 8
    &&& t.mcc.len() == 4
    &&& unsigned(t.merchant_avg)
    &&& unsigned(t.km_from_home)
    &&& t.last matches Some((timestamp, km)) ==> timestamp.len() == 20 && unsigned(km)
}

/// A word that stands next.
proof fn lemma_next_past(front: Seq<u8>, expected: Seq<u8>, rest: Seq<u8>)
    ensures
        past(front + (expected + rest), front.len() as int, expected) == Some(
            (front.len() + expected.len()) as int,
        ),
{
    lemma_first_past(expected, rest);
    lemma_past(front, expected + rest, 0, expected);
}

/// A number behind a prefix, both next.
proof fn lemma_next_number(front: Seq<u8>, prefix: Seq<u8>, number: Seq<u8>, rest: Seq<u8>)
    requires
        unsigned(number),
        ends_number(rest),
        (front + (prefix + number + rest)).len() <= usize::MAX,
    ensures
        number_field(front + (prefix + number + rest), front.len() as int, prefix) matches Some((span, end))
            && end == front.len() + prefix.len() + number.len() && span.within(
            front + (prefix + number + rest),
        ) && span.of(front + (prefix + number + rest)) == number && span.end == end,
{
    let tail = prefix + number + rest;
    lemma_first_number_field(prefix, number, rest);
    lemma_number_field(front, tail, 0, prefix);
    if let Some((span, _)) = number_field(tail, 0, prefix) {
        lemma_span(front, tail, span);
    }
}

/// A count behind a prefix, both next.
proof fn lemma_next_count(front: Seq<u8>, prefix: Seq<u8>, count: Seq<u8>, rest: Seq<u8>)
    requires
        is_count(count),
        ends_number(rest),
    ensures
        count_field(front + (prefix + count + rest), front.len() as int, prefix) matches Some((value, end))
            && end == front.len() + prefix.len() + count.len() && digits_value(count) == Some(value as int),
{
    lemma_first_count_field(prefix, count, rest);
    lemma_count_field(front, prefix + count + rest, 0, prefix);
}

/// A string of fixed length behind a prefix, both next.
proof fn lemma_next_fixed(front: Seq<u8>, prefix: Seq<u8>, value: Seq<u8>, rest: Seq<u8>, len: int)
    requires
        value.len() == len,
        (front + (prefix + value + seq![34u8] + rest)).len() <= usize::MAX,
    ensures
        fixed_field(front + (prefix + value + seq![34u8] + rest), front.len() as int, prefix, len) matches Some(
            (span, end),
        ) && end == front.len() + prefix.len() + len + 1 && span.within(
            front + (prefix + value + seq![34u8] + rest),
        ) && span.of(front + (prefix + value + seq![34u8] + rest)) == value,
{
    let tail = prefix + value + seq![34u8] + rest;
    lemma_first_fixed_field(prefix, value, rest);
    lemma_fixed_field(front, tail, 0, prefix, len);
    if let Some((span, _)) = fixed_field(tail, 0, prefix, len) {
        lemma_span(front, tail, span);
    }
}

/// A list behind a prefix, both next.
proof fn lemma_next_array(front: Seq<u8>, prefix: Seq<u8>, names: Seq<Seq<u8>>, rest: Seq<u8>)
    requires
        forall|q: int| 0 <= q < names.len() ==> !(#[trigger] names[q]).contains(93u8),
        (front + (prefix + listed(names) + seq![93u8] + rest)).len() <= usize::MAX,
    ensures
        array_field(
            front + (prefix + listed(names) + seq![93u8] + rest),
            front.len() as int,
            prefix,
        ) matches Some((span, end)) && end == front.len() + prefix.len() + listed(names).len() + 1
            && span.within(front + (prefix + listed(names) + seq![93u8] + rest)) && span.of(
            front + (prefix + listed(names) + seq![93u8] + rest),
        ) == listed(names),
{
    let tail = prefix + listed(names) + seq![93u8] + rest;
    lemma_first_array_field(prefix, names, rest);
    lemma_array_field(front, tail, 0, prefix);
    if let Some((span, _)) = array_field(tail, 0, prefix) {
        lemma_span(front, tail, span);
    }
}

/// A truth value that stands next.
proof fn lemma_next_flag(front: Seq<u8>, flag: bool, rest: Seq<u8>)
    ensures
        bool_at(front + (flag_text(flag) + rest), front.len() as int) == Some(flag),
        bool_past(front + (flag_text(flag) + rest), front.len() as int) == Some(
            (front.len() + flag_text(flag).len()) as int,
        ),
{
    lemma_first_flag(flag, rest);
    lemma_bool(front, flag_text(flag) + rest, 0);
}

/// Texts one after the other.
proof fn lemma_regroup(a: Seq<u8>, b: Seq<u8>, c: Seq<u8>)
    ensures
        a + (b + c) == (a + b) + c,
        (a + (b + c)).len() == a.len() + b.len() + c.len(),
{
    assert(a + (b + c) =~= (a + b) + c);
}

/// A text ends with its tail.
proof fn lemma_tail(a: Seq<u8>, b: Seq<u8>, rest: Seq<u8>)
    ensures
        ({
            let text = a + (b + rest);
            text == text.take(text.len() - rest.len()) + rest
        }),
{
    let text = a + (b + rest);
    assert(text =~= text.take(text.len() - rest.len()) + rest);
}

/// The average of a merchant stands next, up to the brace behind it.
proof fn lemma_average_text(front: Seq<u8>, average: Seq<u8>, rest: Seq<u8>)
    requires
        unsigned(average),
        rest.len() > 0,
        rest[0] == 125,
    ensures
        ({
            let text = front + (average + rest);
            let end = (front.len() + average.len()) as int;
            &&& first_byte(text, front.len() as int, 125) == Some(end)
            &&& number_past(text, front.len() as int) == Some(end)
            &&& text.subrange(front.len() as int, end) == average
        }),
{
    let text = front + (average + rest);
    let start = front.len() as int;
    let end = start + average.len();
    lemma_first_number(average, rest);
    lemma_number(front, average + rest, 0);
    let p = choose|p: int| #[trigger] splits_at(average, p);
    assert forall|k: int| start <= k < end implies text[k] != 125 by {
        assert(text[k] == average[k - start]);
    }
    assert(text[end] == rest[0]);
    lemma_byte_after(text, start, end, 125);
    assert(text.subrange(start, end) =~= average);
}

/// The transaction of a compact body.
proof fn lemma_transaction_text(t: RequestTexts, front: Seq<u8>, rest: Seq<u8>)
    requires
        compactly(t),
        (front + transaction_text(t, rest)).len() <= usize::MAX,
    ensures
        transaction_fields(front + transaction_text(t, rest), front.len() as int) matches Some((amount, installments, requested, end)) && {
            let text = front + transaction_text(t, rest);
            &&& end == text.len() - rest.len()
            &&& text == text.take(end) + rest
            &&& amount.within(text) && amount.of(text) == t.amount
            &&& digits_value(t.installments) == Some(installments as int)
            &&& requested.within(text) && requested.of(text) == t.requested_at
        },
{
    reveal(transaction_text);
    lemma_compact_words();
    let text = front + transaction_text(t, rest);
    let w1 = word("\"amount\":"@);
    let w2 = word(",\"installments\":"@);
    let w3 = word(",\"requested_at\":\""@);
    let r2 = w3 + t.requested_at + seq![34u8] + rest;
    let r1 = w2 + t.installments + r2;
    let f1 = front + (w1 + t.amount);
    let f2 = f1 + (w2 + t.installments);
    lemma_regroup(front, w1 + t.amount, r1);
    lemma_regroup(f1, w2 + t.installments, r2);
    assert(r1[0] == w2[0] && r2[0] == w3[0]);
    lemma_next_number(front, w1, t.amount, r1);
    lemma_next_count(f1, w2, t.installments, r2);
    lemma_next_fixed(f2, w3, t.requested_at, rest, 20);
    lemma_tail(f2, w3 + t.requested_at + seq![34u8], rest);
}

/// What is read next.
proof fn lemma_read_transaction(t: RequestTexts, front: Seq<u8>, rest: Seq<u8>) -> (read: (Span, u8, Span, int))
    requires
        compactly(t),
        (front + transaction_text(t, rest)).len() <= usize::MAX,
    ensures
        transaction_read(front + transaction_text(t, rest), front.len() as int, read),
        ({
            let (amount, installments, requested, end) = read;
            let text = front + transaction_text(t, rest);
            &&& end == text.len() - rest.len()
            &&& text == text.take(end) + rest
            &&& amount.within(text) && amount.of(text) == t.amount
            &&& digits_value(t.installments) == Some(installments as int)
            &&& requested.within(text) && requested.of(text) == t.requested_at
        }),
{
    reveal(transaction_read);
    lemma_transaction_text(t, front, rest);
    transaction_fields(front + transaction_text(t, rest), front.len() as int)->0
}

/// The customer of a compact body.
proof fn lemma_customer_text(t: RequestTexts, front: Seq<u8>, rest: Seq<u8>)
    requires
        compactly(t),
        (front + customer_text(t, rest)).len() <= usize::MAX,
    ensures
        customer_fields(front + customer_text(t, rest), front.len() as int) matches Some((average, count, known, end)) && {
            let text = front + customer_text(t, rest);
            &&& end == text.len() - rest.len()
            &&& text == text.take(end) + rest
            &&& average.within(text) && average.of(text) == t.customer_avg
            &&& digits_value(t.tx_count) == Some(count as int)
            &&& known.within(text) && known.of(text) == listed(t.known_merchants)
        },
{
    reveal(customer_text);
    lemma_compact_words();
    let text = front + customer_text(t, rest);
    let w0 = word("},\"customer\":{"@);
    let w1 = word("\"avg_amount\":"@);
    let w2 = word(",\"tx_count_24h\":"@);
    let w3 = word(",\"known_merchants\":["@);
    let r2 = w3 + listed(t.known_merchants) + seq![93u8] + rest;
    let r1 = w2 + t.tx_count + r2;
    let r0 = w1 + t.customer_avg + r1;
    let f0 = front + w0;
    let f1 = f0 + (w1 + t.customer_avg);
    let f2 = f1 + (w2 + t.tx_count);
    lemma_regroup(front, w0, r0);
    lemma_regroup(f0, w1 + t.customer_avg, r1);
    lemma_regroup(f1, w2 + t.tx_count, r2);
    assert(r1[0] == w2[0] && r2[0] == w3[0]);
    lemma_next_past(front, w0, r0);
    lemma_next_number(f0, w1, t.customer_avg, r1);
    lemma_next_count(f1, w2, t.tx_count, r2);
    lemma_next_array(f2, w3, t.known_merchants, rest);
    lemma_tail(f2, w3 + listed(t.known_merchants) + seq![93u8], rest);
}

/// What is read next.
proof fn lemma_read_customer(t: RequestTexts, front: Seq<u8>, rest: Seq<u8>) -> (read: (Span, u8, Span, int))
    requires
        compactly(t),
        (front + customer_text(t, rest)).len() <= usize::MAX,
    ensures
        customer_read(front + customer_text(t, rest), front.len() as int, read),
        ({
            let (average, count, known, end) = read;
            let text = front + customer_text(t, rest);
            &&& end == text.len() - rest.len()
            &&& text == text.take(end) + rest
            &&& average.within(text) && average.of(text) == t.customer_avg
            &&& digits_value(t.tx_count) == Some(count as int)
            &&& known.within(text) && known.of(text) == listed(t.known_merchants)
        }),
{
    reveal(customer_read);
    lemma_customer_text(t, front, rest);
    customer_fields(front + customer_text(t, rest), front.len() as int)->0
}

/// The merchant of a compact body.
proof fn lemma_merchant_text(t: RequestTexts, front: Seq<u8>, rest: Seq<u8>)
    requires
        compactly(t),
        rest.len() > 0,
        rest[0] == 125,
        (front + merchant_text(t, rest)).len() <= usize::MAX,
    ensures
        merchant_fields(front + merchant_text(t, rest), front.len() as int) matches Some((id, mcc, average, end)) && {
            let text = front + merchant_text(t, rest);
            &&& end == text.len() - rest.len()
            &&& text == text.take(end) + rest
            &&& id.within(text) && id.of(text) == t.merchant_id
            &&& mcc.within(text) && mcc.of(text) == t.mcc
            &&& 0 <= average && average + t.merchant_avg.len() == end
            &&& number_past(text, average) == Some(end)
            &&& text.subrange(average, end) == t.merchant_avg
        },
{
    reveal(merchant_text);
    lemma_compact_words();
    let text = front + merchant_text(t, rest);
    let w0 = word("},\"merchant\":{"@);
    let w1 = word("\"id\":\""@);
    let w2 = word(",\"mcc\":\""@);
    let w3 = word(",\"avg_amount\":"@);
    let r3 = t.merchant_avg + rest;
    let r2 = w3 + r3;
    let r1 = w2 + t.mcc + seq![34u8] + r2;
    let r0 = w1 + t.merchant_id + seq![34u8] + r1;
    let f0 = front + w0;
    let f1 = f0 + (w1 + t.merchant_id + seq![34u8]);
    let f2 = f1 + (w2 + t.mcc + seq![34u8]);
    let f3 = f2 + w3;
    lemma_regroup(front, w0, r0);
    lemma_regroup(f0, w1 + t.merchant_id + seq![34u8], r1);
    lemma_regroup(f1, w2 + t.mcc + seq![34u8], r2);
    lemma_regroup(f2, w3, r3);
    lemma_next_past(front, w0, r0);
    lemma_next_fixed(f0, w1, t.merchant_id, r1, 8);
    lemma_next_fixed(f1, w2, t.mcc, r2, 4);
    lemma_next_past(f2, w3, r3);
    lemma_average_text(f3, t.merchant_avg, rest);
    lemma_tail(f3, t.merchant_avg, rest);
}

/// What is read next.
proof fn lemma_read_merchant(t: RequestTexts, front: Seq<u8>, rest: Seq<u8>) -> (read: (Span, Span, int, int))
    requires
        compactly(t),
        rest.len() > 0,
        rest[0] == 125,
        (front + merchant_text(t, rest)).len() <= usize::MAX,
    ensures
        merchant_read(front + merchant_text(t, rest), front.len() as int, read),
        ({
            let (id, mcc, average, end) = read;
            let text = front + merchant_text(t, rest);
            &&& end == text.len() - rest.len()
            &&& text == text.take(end) + rest
            &&& id.within(text) && id.of(text) == t.merchant_id
            &&& mcc.within(text) && mcc.of(text) == t.mcc
            &&& 0 <= average && average + t.merchant_avg.len() == end
            &&& number_past(text, average) == Some(end)
            &&& text.subrange(average, end) == t.merchant_avg
        }),
{
    reveal(merchant_read);
    lemma_merchant_text(t, front, rest);
    merchant_fields(front + merchant_text(t, rest), front.len() as int)->0
}

/// The terminal of a compact body.
proof fn lemma_terminal_text(t: RequestTexts, front: Seq<u8>, rest: Seq<u8>)
    requires
        compactly(t),
        ends_number(rest),
        (front + terminal_text(t, rest)).len() <= usize::MAX,
    ensures
        terminal_fields(front + terminal_text(t, rest), front.len() as int) matches Some((online, card, km, end)) && {
            let text = front + terminal_text(t, rest);
            &&& end == text.len() - rest.len()
            &&& text == text.take(end) + rest
            &&& 0 <= online < text.len() && bool_at(text, online) == Some(t.is_online)
            &&& 0 <= card < text.len() && bool_at(text, card) == Some(t.card_present)
            &&& km.within(text) && km.of(text) == t.km_from_home && km.end == end
        },
{
    reveal(terminal_text);
    lemma_compact_words();
    let text = front + terminal_text(t, rest);
    let w0 = word("},\"terminal\":{"@);
    let w1 = word("\"is_online\":"@);
    let w2 = word(",\"card_present\":"@);
    let w3 = word(",\"km_from_home\":"@);
    let r4 = w3 + t.km_from_home + rest;
    let r3 = flag_text(t.card_present) + r4;
    let r2 = w2 + r3;
    let r1 = flag_text(t.is_online) + r2;
    let r0 = w1 + r1;
    let f0 = front + w0;
    let f1 = f0 + w1;
    let f2 = f1 + flag_text(t.is_online);
    let f3 = f2 + w2;
    let f4 = f3 + flag_text(t.card_present);
    lemma_regroup(front, w0, r0);
    lemma_regroup(f0, w1, r1);
    lemma_regroup(f1, flag_text(t.is_online), r2);
    lemma_regroup(f2, w2, r3);
    lemma_regroup(f3, flag_text(t.card_present), r4);
    lemma_next_past(front, w0, r0);
    lemma_next_past(f0, w1, r1);
    lemma_next_flag(f1, t.is_online, r2);
    lemma_next_past(f2, w2, r3);
    lemma_next_flag(f3, t.card_present, r4);
    lemma_next_number(f4, w3, t.km_from_home, rest);
    lemma_tail(f4, w3 + t.km_from_home, rest);
}

/// What is read next.
proof fn lemma_read_terminal(t: RequestTexts, front: Seq<u8>, rest: Seq<u8>) -> (read: (int, int, Span, int))
    requires
        compactly(t),
        ends_number(rest),
        (front + terminal_text(t, rest)).len() <= usize::MAX,
    ensures
        terminal_read(front + terminal_text(t, rest), front.len() as int, read),
        ({
            let (online, card, km, end) = read;
            let text = front + terminal_text(t, rest);
            &&& end == text.len() - rest.len()
            &&& text == text.take(end) + rest
            &&& 0 <= online < text.len() && bool_at(text, online) == Some(t.is_online)
            &&& 0 <= card < text.len() && bool_at(text, card) == Some(t.card_present)
            &&& km.within(text) && km.of(text) == t.km_from_home && km.end == end
        }),
{
    reveal(terminal_read);
    lemma_terminal_text(t, front, rest);
    terminal_fields(front + terminal_text(t, rest), front.len() as int)->0
}

/// The earlier transaction of a compact body.
proof fn lemma_last_text(t: RequestTexts, front: Seq<u8>, requested: Seq<u8>)
    requires
        compactly(t),
        (front + last_text(t)).len() <= usize::MAX,
    ensures
        ({
            let text = front + last_text(t);
            let found = last_fields(text, front.len() as int, requested);
            match t.last {
                None => found == Some(None::<(i32, Span)>),
                Some((timestamp, km)) => match (stamp_seconds(requested), stamp_seconds(timestamp)) {
                    (Some(now), Some(earlier)) => found matches Some(Some((seconds, span))) && seconds
                        == (if now > earlier { now - earlier } else { 0 }) as i32 && span.within(text)
                        && span.of(text) == km,
                    _ => found is None,
                },
            }
        }),
{
    reveal(last_text);
    lemma_compact_words();
    let text = front + last_text(t);
    let w0 = word("},\"last_transaction\":"@);
    let f0 = front + w0;
    match t.last {
        None => {
            let r0 = word("null"@) + seq![125u8];
            lemma_regroup(front, w0, r0);
            lemma_next_past(front, w0, r0);
            assert(text[f0.len() as int] == r0[0]);
            assert(r0[0] == word("null"@)[0]);
        },
        Some((timestamp, km)) => {
            let w1 = word("{\"timestamp\":\""@);
            let w2 = word(",\"km_from_current\":"@);
            let rest = seq![125u8, 125u8];
            let r1 = w2 + km + rest;
            let r0 = w1 + timestamp + seq![34u8] + r1;
            let f1 = f0 + (w1 + timestamp + seq![34u8]);
            lemma_regroup(front, w0, r0);
            lemma_regroup(f0, w1 + timestamp + seq![34u8], r1);
            lemma_next_past(front, w0, r0);
            assert(text[f0.len() as int] == r0[0]);
            assert(r0[0] == w1[0]);
            lemma_next_fixed(f0, w1, timestamp, r1, 20);
            lemma_next_number(f1, w2, km, rest);
        },
    }
}

/// Where the transaction of a compact body begins.
proof fn lemma_compact_start(t: RequestTexts) -> (front: Seq<u8>)
    requires
        compactly(t),
    ensures
        transaction_start(compact_text(t)) == Some(front.len() as int),
        compact_text(t) == front + transaction_text(
            t,
            customer_text(t, merchant_text(t, terminal_text(t, last_text(t)))),
        ),
{
    let body = compact_text(t);
    let w0 = word("{\"id\":"@);
    let w1 = word(",\"transaction\":{"@);
    let r2 = transaction_text(t, customer_text(t, merchant_text(t, terminal_text(t, last_text(t)))));
    let r1 = w1 + r2;
    let quoted = seq![34u8] + t.id + seq![34u8];
    let f1 = w0 + quoted;
    let front = f1 + w1;
    lemma_first_past(w0, quoted + r1);
    lemma_regroup(w0, quoted, r1);
    lemma_regroup(f1, w1, r2);
    let at = w0.len() as int;
    let end = at + 1 + t.id.len();
    assert(body[at] == 34);
    assert(body[end] == 34);
    assert forall|k: int| at + 1 <= k < end implies body[k] != 34 by {
        assert(body[k] == t.id[k - at - 1]);
        assert(t.id.contains(t.id[k - at - 1]));
    }
    lemma_quote_after(body, at + 1, end);
    lemma_next_past(f1, w1, r2);
    front
}

/// Hours and weekdays are small.
proof fn lemma_hours(text: Seq<u8>)
    ensures
        stamp_hour_weekday(text) matches Some((hour, weekday)) ==> 0 <= hour <= 23 && 0 <= weekday <= 6,
{
}

/// What was read of the four objects of a compact body.
#[verifier::opaque]
spec fn objects_read(
    body: Seq<u8>,
    start: int,
    tr: (Span, u8, Span, int),
    cu: (Span, u8, Span, int),
    me: (Span, Span, int, int),
    te: (int, int, Span, int),
) -> bool {
    &&& transaction_read(body, start, tr)
    &&& customer_read(body, tr.3, cu)
    &&& merchant_read(body, cu.3, me)
    &&& terminal_read(body, me.3, te)
}

/// The transaction was read.
#[verifier::opaque]
spec fn transaction_read(body: Seq<u8>, at: int, tr: (Span, u8, Span, int)) -> bool {
    transaction_fields(body, at) == Some(tr)
}

/// The customer was read.
#[verifier::opaque]
spec fn customer_read(body: Seq<u8>, at: int, cu: (Span, u8, Span, int)) -> bool {
    customer_fields(body, at) == Some(cu)
}

/// The merchant was read.
#[verifier::opaque]
spec fn merchant_read(body: Seq<u8>, at: int, me: (Span, Span, int, int)) -> bool {
    merchant_fields(body, at) == Some(me)
}

/// The terminal was read.
#[verifier::opaque]
spec fn terminal_read(body: Seq<u8>, at: int, te: (int, int, Span, int)) -> bool {
    terminal_fields(body, at) == Some(te)
}

/// The fields that were read of four objects.
spec fn fields_of(
    tr: (Span, u8, Span, int),
    cu: (Span, u8, Span, int),
    me: (Span, Span, int, int),
    te: (int, int, Span, int),
) -> FastFields {
    let (amount, installments, requested_at, _) = tr;
    let (customer_avg, tx_count_24h, known_merchants, _) = cu;
    let (merchant_id, merchant_mcc, average, _) = me;
    let (online, card, km_from_home, end) = te;
    FastFields {
        amount,
        installments,
        requested_at,
        customer_avg,
        tx_count_24h,
        known_merchants,
        merchant_id,
        merchant_mcc,
        merchant_avg_value_start: average as usize,
        is_online_value_start: online as usize,
        card_present_value_start: card as usize,
        km_from_home,
        after_km_from_home: end as usize,
    }
}

/// Fields are put together from the objects.
proof fn lemma_objects_read(
    body: Seq<u8>,
    start: int,
    tr: (Span, u8, Span, int),
    cu: (Span, u8, Span, int),
    me: (Span, Span, int, int),
    te: (int, int, Span, int),
)
    requires
        transaction_start(body) == Some(start),
        objects_read(body, start, tr, cu, me, te),
    ensures
        fast_fields(body) == Some(fields_of(tr, cu, me, te)),
{
    reveal(objects_read);
    reveal(transaction_read);
    reveal(customer_read);
    reveal(merchant_read);
    reveal(terminal_read);
}

/// What holds of the objects of a compact body that were read.
spec fn objects_tell(
    t: RequestTexts,
    body: Seq<u8>,
    tr: (Span, u8, Span, int),
    cu: (Span, u8, Span, int),
    me: (Span, Span, int, int),
    te: (int, int, Span, int),
) -> bool {
    let (amount, installments, requested_at, _) = tr;
    let (customer_avg, tx_count, known, _) = cu;
    let (id, mcc, average, end) = me;
    let (online, card, km, after) = te;
    &&& amount.of(body) == t.amount
    &&& digits_value(t.installments) == Some(installments as int)
    &&& requested_at.of(body) == t.requested_at
    &&& customer_avg.of(body) == t.customer_avg
    &&& digits_value(t.tx_count) == Some(tx_count as int)
    &&& known.of(body) == listed(t.known_merchants)
    &&& id.of(body) == t.merchant_id
    &&& mcc.of(body) == t.mcc
    &&& 0 <= average <= end <= body.len()
    &&& number_past(body, average) == Some(end)
    &&& body.subrange(average, end) == t.merchant_avg
    &&& 0 <= online <= body.len()
    &&& bool_at(body, online) == Some(t.is_online)
    &&& 0 <= card <= body.len()
    &&& bool_at(body, card) == Some(t.card_present)
    &&& km.of(body) == t.km_from_home
    &&& after == body.len() - last_text(t).len()
    &&& 0 <= after
    &&& body == body.take(after) + last_text(t)
}

/// A brace stands before the terminal and before the earlier transaction.
proof fn lemma_texts_begin(t: RequestTexts)
    ensures
        last_text(t).len() > 0,
        last_text(t)[0] == 125,
        terminal_text(t, last_text(t)).len() > 0,
        terminal_text(t, last_text(t))[0] == 125,
{
    reveal(terminal_text);
    reveal(last_text);
    lemma_compact_words();
    assert(last_text(t)[0] == word("},\"last_transaction\":"@)[0]);
    assert(terminal_text(t, last_text(t))[0] == word("},\"terminal\":{"@)[0]);
}

/// The objects of a compact body are read.
proof fn lemma_compact_objects(t: RequestTexts, start: int) -> (read: (
    (Span, u8, Span, int),
    (Span, u8, Span, int),
    (Span, Span, int, int),
    (int, int, Span, int),
))
    requires
        compactly(t),
        compact_text(t).len() <= usize::MAX,
        transaction_start(compact_text(t)) == Some(start),
    ensures
        ({
            let (tr, cu, me, te) = read;
            objects_read(compact_text(t), start, tr, cu, me, te) && objects_tell(
                t,
                compact_text(t),
                tr,
                cu,
                me,
                te,
            )
        }),
{
    reveal(objects_read);
    lemma_texts_begin(t);
    let body = compact_text(t);
    let r4 = last_text(t);
    let r3 = terminal_text(t, r4);
    let r2 = merchant_text(t, r3);
    let r1 = customer_text(t, r2);
    let f0 = lemma_compact_start(t);
    let tr = lemma_read_transaction(t, f0, r1);
    let f1 = body.take(tr.3);
    assert(body == f1 + r1);
    let cu = lemma_read_customer(t, f1, r2);
    let f2 = body.take(cu.3);
    assert(body == f2 + r2);
    let me = lemma_read_merchant(t, f2, r3);
    let f3 = body.take(me.3);
    assert(body == f3 + r3);
    let te = lemma_read_terminal(t, f3, r4);
    assert(body == body.take(te.3) + r4);
    assert(objects_read(body, start, tr, cu, me, te));
    (tr, cu, me, te)
}

/// The features of a compact body are read.
proof fn lemma_compact_features(
    t: RequestTexts,
    body: Seq<u8>,
    tr: (Span, u8, Span, int),
    cu: (Span, u8, Span, int),
    me: (Span, Span, int, int),
    te: (int, int, Span, int),
)
    requires
        compactly(t),
        body.len() <= usize::MAX,
        objects_tell(t, body, tr, cu, me, te),
    ensures
        features_tell(t, body, fast_features(body, fields_of(tr, cu, me, te))),
{
    let f4 = body.take(te.3);
    lemma_listed_merchants(t.known_merchants, t.merchant_id);
    lemma_last_text(t, f4, t.requested_at);
    lemma_hours(t.requested_at);
}

/// What holds of the features of a compact body.
spec fn features_tell(t: RequestTexts, body: Seq<u8>, found: Option<FastFeatures>) -> bool {
    let timed = stamp_hour_weekday(t.requested_at) is Some && (t.last matches Some((timestamp, _))
        ==> stamp_seconds(t.requested_at) is Some && stamp_seconds(timestamp) is Some);
    &&& found is Some <==> timed
    &&& found matches Some(g) ==> {
        &&& stamp_hour_weekday(t.requested_at) == Some((g.hour as int, g.weekday_monday0 as int))
        &&& g.merchant_known == t.known_merchants.contains(t.merchant_id)
        &&& g.mcc_risk == mcc_risk_value(t.mcc)
        &&& g.merchant_avg.of(body) == t.merchant_avg
        &&& g.is_online == t.is_online
        &&& g.card_present == t.card_present
        &&& match (g.last, t.last) {
            (None, None) => true,
            (Some((seconds, span)), Some((timestamp, km))) => {
                let now = stamp_seconds(t.requested_at)->0;
                let earlier = stamp_seconds(timestamp)->0;
                seconds == (if now > earlier { now - earlier } else { 0 }) as i32 && span.of(body) == km
            },
            _ => false,
        }
    }
}

/// What is read of a compact body is what it was written for: the texts, the counts, and a merchant
/// that is known if and only if it is one of the customer's merchants, however many they are.
pub proof fn lemma_compact_body_reads(t: RequestTexts)
    requires
        compactly(t),
        compact_text(t).len() <= usize::MAX,
    ensures
        fast_fields(compact_text(t)) matches Some(f) && {
            let body = compact_text(t);
            &&& f.amount.of(body) == t.amount
            &&& digits_value(t.installments) == Some(f.installments as int)
            &&& f.requested_at.of(body) == t.requested_at
            &&& f.customer_avg.of(body) == t.customer_avg
            &&& digits_value(t.tx_count) == Some(f.tx_count_24h as int)
            &&& lists_merchant(f.known_merchants.of(body), 0, f.merchant_id.of(body))
                == t.known_merchants.contains(t.merchant_id)
            &&& f.merchant_id.of(body) == t.merchant_id
            &&& f.merchant_mcc.of(body) == t.mcc
            &&& f.km_from_home.of(body) == t.km_from_home
        },
        fast_fields(compact_text(t)) matches Some(f) && {
            let body = compact_text(t);
            let found = fast_features(body, f);
            let timed = stamp_hour_weekday(t.requested_at) is Some && (t.last matches Some((timestamp, _))
                ==> stamp_seconds(t.requested_at) is Some && stamp_seconds(timestamp) is Some);
            &&& found is Some <==> timed
            &&& found matches Some(g) ==> {
                &&& stamp_hour_weekday(t.requested_at) == Some((g.hour as int, g.weekday_monday0 as int))
                &&& g.merchant_known == t.known_merchants.contains(t.merchant_id)
                &&& g.mcc_risk == mcc_risk_value(t.mcc)
                &&& g.merchant_avg.of(body) == t.merchant_avg
                &&& g.is_online == t.is_online
                &&& g.card_present == t.card_present
                &&& match (g.last, t.last) {
                    (None, None) => true,
                    (Some((seconds, span)), Some((timestamp, km))) => {
                        let now = stamp_seconds(t.requested_at)->0;
                        let earlier = stamp_seconds(timestamp)->0;
                        seconds == (if now > earlier { now - earlier } else { 0 }) as i32 && span.of(body) == km
                    },
                    _ => false,
                }
            }
        },
{
    let body = compact_text(t);
    let f0 = lemma_compact_start(t);
    let (tr, cu, me, te) = lemma_compact_objects(t, f0.len() as int);
    lemma_objects_read(body, f0.len() as int, tr, cu, me, te);
    lemma_compact_features(t, body, tr, cu, me, te);
    lemma_listed_merchants(t.known_merchants, t.merchant_id);
}

/// What the model is asked about a request.
pub open spec fn asks_about(m: ModelInputs<'_>, t: RequestTexts) -> bool {
    &&& m.amount@ == t.amount
    &&& digits_value(t.installments) == Some(m.installments as int)
    &&& m.customer_avg@ == t.customer_avg
    &&& stamp_hour_weekday(t.requested_at) == Some((m.hour as int, m.weekday_monday0 as int))
    &&& m.km_from_home@ == t.km_from_home
    &&& digits_value(t.tx_count) == Some(m.tx_count_24h as int)
    &&& m.is_online == t.is_online
    &&& m.card_present == t.card_present
    &&& m.merchant_known == t.known_merchants.contains(t.merchant_id)
    &&& m.mcc_risk == mcc_risk_value(t.mcc)
    &&& m.merchant_avg@ == t.merchant_avg
    &&& t.last is None ==> m.last is None
    &&& t.last matches Some((timestamp, km)) ==> (m.last matches Some((seconds, told)) && told@ == km && {
        let now = stamp_seconds(t.requested_at)->0;
        let earlier = stamp_seconds(timestamp)->0;
        seconds == (if now > earlier { now - earlier } else { 0 }) as i32
    })
}

/// A compact body is scored by what it says. The rules compare its amount, its customer's average and
/// its distance from home. They find it harmless where the amount and its ratio are small, there are at
/// most three installments and five transactions of the day, the merchant is one of the customer's, the
/// terminal is near home, and the category is a harmless one; and dangerous where the amount is large,
/// there are at least five installments and six transactions, the merchant is none of the customer's,
/// the terminal is far from home, and the category is a dangerous one. Else the model is asked about
/// everything the body says, if its times can be read.
pub proof fn lemma_compact_body_is_scored<
    'a,
    C: Fn(RuleNumbers<'a>) -> Comparisons,
    P: Fn(ModelInputs<'a>) -> bool,
>(t: RequestTexts, compare: C, predict: P, score: Option<u8>)
    requires
        compactly(t),
        compact_text(t).len() <= usize::MAX,
        may_score(compact_text(t), compare, predict, score),
    ensures
        exists|n: RuleNumbers<'a>, c: Comparisons|
            {
                let installments = digits_value(t.installments)->0;
                let count = digits_value(t.tx_count)->0;
                let known = t.known_merchants.contains(t.merchant_id);
                let timed = stamp_hour_weekday(t.requested_at) is Some && (t.last matches Some((timestamp, _))
                    ==> stamp_seconds(t.requested_at) is Some && stamp_seconds(timestamp) is Some);
                &&& #[trigger] compare.ensures((n,), c)
                &&& n.amount@ == t.amount
                &&& n.customer_avg@ == t.customer_avg
                &&& n.km_from_home@ == t.km_from_home
                &&& if c.small_amount && c.small_ratio && installments <= 3 && count <= 5 && known
                    && c.near_home && (t.mcc == word("5411"@) || t.mcc == word("5812"@) || t.mcc == word(
                    "5912"@,
                ) || t.mcc == word("5311"@)) {
                    score == Some(0u8)
                } else if c.large_amount && installments >= 5 && count >= 6 && !known && c.far_from_home && (t.mcc
                    == word("7995"@) || t.mcc == word("7801"@) || t.mcc == word("7802"@)) {
                    score == Some(5u8)
                } else if timed {
                    exists|m: ModelInputs<'a>, fraud: bool| #[trigger]
                        predict.ensures((m,), fraud) && asks_about(m, t) && score == if fraud {
                            Some(5u8)
                        } else {
                            Some(0u8)
                        }
                } else {
                    score is None
                }
            },
{
    let body = compact_text(t);
    lemma_compact_body_reads(t);
    let f = fast_fields(body)->0;
    let (n, c) = choose|n: RuleNumbers<'a>, c: Comparisons| #[trigger]
        compare.ensures((n,), c) && rule_texts(n, f, body) && match fields_rule_score(body, f, c) {
            Some(ruled) => score == Some(ruled),
            None => match fast_features(body, f) {
                None => score is None,
                Some(g) => exists|m: ModelInputs<'a>, fraud: bool| #[trigger]
                    predict.ensures((m,), fraud) && model_texts(m, f, g, body) && score == Some(
                        model_score(fraud),
                    ),
            },
        };
    assert(compare.ensures((n,), c));
    if fields_rule_score(body, f, c) is None && fast_features(body, f) is Some {
        let g = fast_features(body, f)->0;
        let (m, fraud) = choose|m: ModelInputs<'a>, fraud: bool| #[trigger]
            predict.ensures((m,), fraud) && model_texts(m, f, g, body) && score == Some(model_score(fraud));
        assert(predict.ensures((m,), fraud));
        assert(asks_about(m, t));
    }
}

/// A compact body that tells a request says of the merchant what the request says, and its model is
/// asked about the hour, the weekday and the category's risk that the request's vector takes.
pub proof fn lemma_compact_body_knows_merchant<N>(
    request: FraudRequest<'_, N>,
    id: Seq<u8>,
    numbers: NumberTexts,
)
    requires
        compactly(request_texts(request, id, numbers)),
        compact_text(request_texts(request, id, numbers)).len() <= usize::MAX,
    ensures
        ({
            let body = compact_text(request_texts(request, id, numbers));
            let known = merchants_in(request.customer.known_merchants).contains(request.merchant.id@);
            &&& fast_fields(body) matches Some(f) && lists_merchant(
                f.known_merchants.of(body),
                0,
                f.merchant_id.of(body),
            ) == known
            &&& fast_features(body, fast_fields(body)->0) matches Some(g) ==> {
                &&& g.merchant_known == known
                &&& g.mcc_risk == mcc_risk_value(word(request.merchant.mcc@))
                &&& time_of(word(request.transaction.requested_at@)) matches Some(time) ==> g.hour == time.hour
                    && g.weekday_monday0 == time.weekday_monday0
            }
        }),
{
    lemma_compact_body_reads(request_texts(request, id, numbers));
    lemma_known_in_bytes(request, id, numbers);
    if time_of(word(request.transaction.requested_at@)) is Some {
        lemma_stamps_agree(word(request.transaction.requested_at@));
    }
}

} // verus!
