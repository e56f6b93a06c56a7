//! A compact body reads the same wherever its transaction begins.
use vstd::prelude::*;

use crate::fraud_scoring::{array_field, bool_at, bool_past, count_field, customer_fields, digits_end,
    fast_features, fields_from, fields_may_score, fields_rule_score, fixed_field, last_fields, may_score,
    merchant_fields, model_texts, number_field, number_past, past, rule_texts, terminal_fields,
    transaction_fields, transaction_start, Comparisons, FastFeatures, FastFields, ModelInputs, RuleNumbers};
use crate::scanning::{first_byte, stands_at, word, Span};

verus! {

/// A position as many bytes later.
pub open spec fn later(position: Option<int>, by: int) -> Option<int> {
    match position {
        Some(at) => Some(at + by),
        None => None,
    }
}

/// A stretch as many bytes later.
pub open spec fn moved(span: Span, by: int) -> Span {
    Span { start: (span.start + by) as usize, end: (span.end + by) as usize }
}

/// A stretch and a position as many bytes later.
pub open spec fn moved_field(field: Option<(Span, int)>, by: int) -> Option<(Span, int)> {
    match field {
        Some((span, end)) => Some((moved(span, by), end + by)),
        None => None,
    }
}

/// Fields as many bytes later.
pub open spec fn moved_fields(f: FastFields, by: int) -> FastFields {
    FastFields {
        amount: moved(f.amount, by),
        installments: f.installments,
        requested_at: moved(f.requested_at, by),
        customer_avg: moved(f.customer_avg, by),
        tx_count_24h: f.tx_count_24h,
        known_merchants: moved(f.known_merchants, by),
        merchant_id: moved(f.merchant_id, by),
        merchant_mcc: moved(f.merchant_mcc, by),
        merchant_avg_value_start: (f.merchant_avg_value_start + by) as usize,
        is_online_value_start: (f.is_online_value_start + by) as usize,
        card_present_value_start: (f.card_present_value_start + by) as usize,
        km_from_home: moved(f.km_from_home, by),
        after_km_from_home: (f.after_km_from_home + by) as usize,
    }
}

/// Features as many bytes later.
pub open spec fn moved_features(g: FastFeatures, by: int) -> FastFeatures {
    FastFeatures {
        hour: g.hour,
        weekday_monday0: g.weekday_monday0,
        merchant_known: g.merchant_known,
        mcc_risk: g.mcc_risk,
        merchant_avg: moved(g.merchant_avg, by),
        is_online: g.is_online,
        card_present: g.card_present,
        last: match g.last {
            Some((seconds, km)) => Some((seconds, moved(km, by))),
            None => None,
        },
    }
}

/// A word stands in a tail where it stands in the whole.
pub(crate) proof fn lemma_stands(front: Seq<u8>, tail: Seq<u8>, at: int, expected: Seq<u8>)
    requires
        0 <= at,
    ensures
        stands_at(front + tail, front.len() + at, expected) == stands_at(tail, at, expected),
{
    let whole = front + tail;
    let o = front.len() as int;
    if at + expected.len() <= tail.len() {
        assert(whole.subrange(o + at, o + at + expected.len()) =~= tail.subrange(
            at,
            at + expected.len(),
        ));
    }
}

/// What follows a word in a tail follows it in the whole.
pub(crate) proof fn lemma_past(front: Seq<u8>, tail: Seq<u8>, at: int, expected: Seq<u8>)
    requires
        0 <= at,
    ensures
        past(front + tail, front.len() + at, expected) == later(
            past(tail, at, expected),
            front.len() as int,
        ),
        past(tail, at, expected) matches Some(end) ==> at <= end <= tail.len(),
{
    lemma_stands(front, tail, at, expected);
}

/// Digits end in a tail where they end in the whole.
pub(crate) proof fn lemma_digits(front: Seq<u8>, tail: Seq<u8>, at: int)
    requires
        0 <= at <= tail.len(),
    ensures
        digits_end(front + tail, front.len() + at) == front.len() + digits_end(tail, at),
        at <= digits_end(tail, at) <= tail.len(),
    decreases tail.len() - at,
{
    if at < tail.len() {
        assert((front + tail)[front.len() + at] == tail[at]);
        lemma_digits(front, tail, at + 1);
    }
}

/// A number ends in a tail where it ends in the whole.
pub(crate) proof fn lemma_number(front: Seq<u8>, tail: Seq<u8>, at: int)
    requires
        0 <= at,
    ensures
        number_past(front + tail, front.len() + at) == later(
            number_past(tail, at),
            front.len() as int,
        ),
        number_past(tail, at) matches Some(end) ==> at < end <= tail.len(),
{
    let whole = front + tail;
    let o = front.len() as int;
    if at < tail.len() {
        assert(whole[o + at] == tail[at]);
        lemma_digits(front, tail, at + 1);
        let end = digits_end(tail, at + 1);
        if end < tail.len() {
            assert(whole[o + end] == tail[end]);
            lemma_digits(front, tail, end + 1);
        }
    }
}

/// A byte is found in a tail where it is found in the whole.
pub(crate) proof fn lemma_byte(front: Seq<u8>, tail: Seq<u8>, at: int, byte: u8)
    requires
        0 <= at,
    ensures
        first_byte(front + tail, front.len() + at, byte) == later(
            first_byte(tail, at, byte),
            front.len() as int,
        ),
        first_byte(tail, at, byte) matches Some(found) ==> at <= found < tail.len(),
    decreases tail.len() - at,
{
    if at < tail.len() {
        assert((front + tail)[front.len() + at] == tail[at]);
        lemma_byte(front, tail, at + 1, byte);
    }
}

/// A stretch of a tail is one of the whole.
pub(crate) proof fn lemma_span(front: Seq<u8>, tail: Seq<u8>, span: Span)
    requires
        (front + tail).len() <= usize::MAX,
        span.within(tail),
    ensures
        moved(span, front.len() as int).of(front + tail) == span.of(tail),
{
    let o = front.len() as int;
    assert((front + tail).subrange(o + span.start, o + span.end) =~= tail.subrange(
        span.start as int,
        span.end as int,
    ));
}

/// A number behind a prefix.
pub(crate) proof fn lemma_number_field(front: Seq<u8>, tail: Seq<u8>, at: int, prefix: Seq<u8>)
    requires
        0 <= at,
        (front + tail).len() <= usize::MAX,
    ensures
        number_field(front + tail, front.len() + at, prefix) == moved_field(
            number_field(tail, at, prefix),
            front.len() as int,
        ),
        number_field(tail, at, prefix) matches Some((span, end)) ==> 0 <= end <= tail.len()
            && span.within(tail),
{
    lemma_past(front, tail, at, prefix);
    if let Some(start) = past(tail, at, prefix) {
        lemma_number(front, tail, start);
    }
}

/// A count behind a prefix.
pub(crate) proof fn lemma_count_field(front: Seq<u8>, tail: Seq<u8>, at: int, prefix: Seq<u8>)
    requires
        0 <= at,
    ensures
        count_field(front + tail, front.len() + at, prefix) == match count_field(tail, at, prefix) {
            Some((value, end)) => Some((value, end + front.len())),
            None => None,
        },
        count_field(tail, at, prefix) matches Some((_, end)) ==> 0 <= end <= tail.len(),
{
    let whole = front + tail;
    let o = front.len() as int;
    lemma_past(front, tail, at, prefix);
    if let Some(start) = past(tail, at, prefix) {
        if start < tail.len() {
            assert(whole[o + start] == tail[start]);
        }
        if start + 1 < tail.len() {
            assert(whole[o + start + 1] == tail[start + 1]);
        }
    }
}

/// A string of fixed length behind a prefix.
pub(crate) proof fn lemma_fixed_field(front: Seq<u8>, tail: Seq<u8>, at: int, prefix: Seq<u8>, len: int)
    requires
        0 <= at,
        0 <= len,
        (front + tail).len() <= usize::MAX,
    ensures
        fixed_field(front + tail, front.len() + at, prefix, len) == moved_field(
            fixed_field(tail, at, prefix, len),
            front.len() as int,
        ),
        fixed_field(tail, at, prefix, len) matches Some((span, end)) ==> 0 <= end <= tail.len()
            && span.within(tail),
{
    lemma_past(front, tail, at, prefix);
    if let Some(start) = past(tail, at, prefix) {
        if start + len < tail.len() {
            assert((front + tail)[front.len() + start + len] == tail[start + len]);
        }
    }
}

/// An array behind a prefix.
pub(crate) proof fn lemma_array_field(front: Seq<u8>, tail: Seq<u8>, at: int, prefix: Seq<u8>)
    requires
        0 <= at,
        (front + tail).len() <= usize::MAX,
    ensures
        array_field(front + tail, front.len() + at, prefix) == moved_field(
            array_field(tail, at, prefix),
            front.len() as int,
        ),
        array_field(tail, at, prefix) matches Some((span, end)) ==> 0 <= end <= tail.len()
            && span.within(tail),
{
    lemma_past(front, tail, at, prefix);
    if let Some(start) = past(tail, at, prefix) {
        lemma_byte(front, tail, start, 93);
    }
}

/// A truth value.
pub(crate) proof fn lemma_bool(front: Seq<u8>, tail: Seq<u8>, at: int)
    requires
        0 <= at,
    ensures
        bool_at(front + tail, front.len() + at) == bool_at(tail, at),
        bool_past(front + tail, front.len() + at) == later(bool_past(tail, at), front.len() as int),
        bool_past(tail, at) matches Some(end) ==> at <= end,
{
    if at < tail.len() {
        assert((front + tail)[front.len() + at] == tail[at]);
    }
}

/// The fields of a transaction.
pub(crate) proof fn lemma_transaction(front: Seq<u8>, tail: Seq<u8>, at: int)
    requires
        0 <= at,
        (front + tail).len() <= usize::MAX,
    ensures
        transaction_fields(front + tail, front.len() + at) == match transaction_fields(tail, at) {
            Some((amount, installments, requested, end)) => Some(
                (
                    moved(amount, front.len() as int),
                    installments,
                    moved(requested, front.len() as int),
                    end + front.len(),
                ),
            ),
            None => None,
        },
        transaction_fields(tail, at) matches Some((amount, _, requested, end)) ==> 0 <= end <= tail.len()
            && amount.within(tail) && requested.within(tail),
{
    lemma_number_field(front, tail, at, word("\"amount\":"@));
    if let Some((_, a)) = number_field(tail, at, word("\"amount\":"@)) {
        lemma_count_field(front, tail, a, word(",\"installments\":"@));
        if let Some((_, b)) = count_field(tail, a, word(",\"installments\":"@)) {
            lemma_fixed_field(front, tail, b, word(",\"requested_at\":\""@), 20);
        }
    }
}

/// The fields of a customer.
pub(crate) proof fn lemma_customer(front: Seq<u8>, tail: Seq<u8>, at: int)
    requires
        0 <= at,
        (front + tail).len() <= usize::MAX,
    ensures
        customer_fields(front + tail, front.len() + at) == match customer_fields(tail, at) {
            Some((average, count, known, end)) => Some(
                (
                    moved(average, front.len() as int),
                    count,
                    moved(known, front.len() as int),
                    end + front.len(),
                ),
            ),
            None => None,
        },
        customer_fields(tail, at) matches Some((average, _, known, end)) ==> 0 <= end <= tail.len()
            && average.within(tail) && known.within(tail),
{
    lemma_past(front, tail, at, word("},\"customer\":{"@));
    if let Some(start) = past(tail, at, word("},\"customer\":{"@)) {
        lemma_number_field(front, tail, start, word("\"avg_amount\":"@));
        if let Some((_, a)) = number_field(tail, start, word("\"avg_amount\":"@)) {
            lemma_count_field(front, tail, a, word(",\"tx_count_24h\":"@));
            if let Some((_, b)) = count_field(tail, a, word(",\"tx_count_24h\":"@)) {
                lemma_array_field(front, tail, b, word(",\"known_merchants\":["@));
            }
        }
    }
}

/// The fields of a merchant.
pub(crate) proof fn lemma_merchant(front: Seq<u8>, tail: Seq<u8>, at: int)
    requires
        0 <= at,
        (front + tail).len() <= usize::MAX,
    ensures
        merchant_fields(front + tail, front.len() + at) == match merchant_fields(tail, at) {
            Some((id, mcc, average, end)) => Some(
                (
                    moved(id, front.len() as int),
                    moved(mcc, front.len() as int),
                    average + front.len(),
                    end + front.len(),
                ),
            ),
            None => None,
        },
        merchant_fields(tail, at) matches Some((id, mcc, average, end)) ==> 0 <= average <= end
            <= tail.len() && id.within(tail) && mcc.within(tail),
{
    lemma_past(front, tail, at, word("},\"merchant\":{"@));
    if let Some(start) = past(tail, at, word("},\"merchant\":{"@)) {
        lemma_fixed_field(front, tail, start, word("\"id\":\""@), 8);
        if let Some((_, a)) = fixed_field(tail, start, word("\"id\":\""@), 8) {
            lemma_fixed_field(front, tail, a, word(",\"mcc\":\""@), 4);
            if let Some((_, b)) = fixed_field(tail, a, word(",\"mcc\":\""@), 4) {
                lemma_past(front, tail, b, word(",\"avg_amount\":"@));
                if let Some(average) = past(tail, b, word(",\"avg_amount\":"@)) {
                    lemma_byte(front, tail, average, 125);
                }
            }
        }
    }
}

/// The fields of a terminal.
pub(crate) proof fn lemma_terminal(front: Seq<u8>, tail: Seq<u8>, at: int)
    requires
        0 <= at,
        (front + tail).len() <= usize::MAX,
    ensures
        terminal_fields(front + tail, front.len() + at) == match terminal_fields(tail, at) {
            Some((online, card, km, end)) => Some(
                (
                    online + front.len(),
                    card + front.len(),
                    moved(km, front.len() as int),
                    end + front.len(),
                ),
            ),
            None => None,
        },
        terminal_fields(tail, at) matches Some((online, card, km, end)) ==> 0 <= online <= tail.len() && 0
            <= card <= tail.len() && 0 <= end <= tail.len() && km.within(tail),
{
    lemma_past(front, tail, at, word("},\"terminal\":{"@));
    if let Some(start) = past(tail, at, word("},\"terminal\":{"@)) {
        lemma_past(front, tail, start, word("\"is_online\":"@));
        if let Some(online) = past(tail, start, word("\"is_online\":"@)) {
            lemma_bool(front, tail, online);
            if let Some(a) = bool_past(tail, online) {
                lemma_past(front, tail, a, word(",\"card_present\":"@));
                if let Some(card) = past(tail, a, word(",\"card_present\":"@)) {
                    lemma_bool(front, tail, card);
                    if let Some(b) = bool_past(tail, card) {
                        lemma_number_field(front, tail, b, word(",\"km_from_home\":"@));
                    }
                }
            }
        }
    }
}

/// The fields of a tail are those of the whole, as many bytes later.
#[verifier::spinoff_prover]
#[verifier::rlimit(60)]
proof fn lemma_fields(front: Seq<u8>, tail: Seq<u8>, at: int)
    requires
        0 <= at,
        (front + tail).len() <= usize::MAX,
    ensures
        fields_from(front + tail, front.len() + at) == match fields_from(tail, at) {
            Some(f) => Some(moved_fields(f, front.len() as int)),
            None => None,
        },
        fields_from(tail, at) matches Some(f) ==> lie_within(f, tail),
{
    lemma_transaction(front, tail, at);
    if let Some((_, _, _, a)) = transaction_fields(tail, at) {
        lemma_customer(front, tail, a);
        if let Some((_, _, _, b)) = customer_fields(tail, a) {
            lemma_merchant(front, tail, b);
            if let Some((_, _, _, c)) = merchant_fields(tail, b) {
                lemma_terminal(front, tail, c);
            }
        }
    }
}

/// The fields lie within a text.
spec fn lie_within(f: FastFields, text: Seq<u8>) -> bool {
    &&& f.amount.within(text)
    &&& f.requested_at.within(text)
    &&& f.customer_avg.within(text)
    &&& f.known_merchants.within(text)
    &&& f.merchant_id.within(text)
    &&& f.merchant_mcc.within(text)
    &&& f.merchant_avg_value_start <= text.len()
    &&& f.is_online_value_start <= text.len()
    &&& f.card_present_value_start <= text.len()
    &&& f.km_from_home.within(text)
    &&& f.after_km_from_home <= text.len()
}

/// What is read of the earlier transaction.
pub(crate) proof fn lemma_last(front: Seq<u8>, tail: Seq<u8>, at: int, requested: Seq<u8>)
    requires
        0 <= at,
        (front + tail).len() <= usize::MAX,
    ensures
        last_fields(front + tail, front.len() + at, requested) == match last_fields(tail, at, requested) {
            Some(Some((seconds, km))) => Some(Some((seconds, moved(km, front.len() as int)))),
            Some(None) => Some(None),
            None => None,
        },
        last_fields(tail, at, requested) matches Some(Some((_, km))) ==> km.within(tail),
{
    lemma_past(front, tail, at, word("},\"last_transaction\":"@));
    if let Some(value) = past(tail, at, word("},\"last_transaction\":"@)) {
        if value < tail.len() {
            assert((front + tail)[front.len() + value] == tail[value]);
        }
        lemma_fixed_field(front, tail, value, word("{\"timestamp\":\""@), 20);
        if let Some((stamp, a)) = fixed_field(tail, value, word("{\"timestamp\":\""@), 20) {
            lemma_span(front, tail, stamp);
            lemma_number_field(front, tail, a, word(",\"km_from_current\":"@));
        }
    }
}

/// The features of a tail are those of the whole, as many bytes later.
proof fn lemma_features(front: Seq<u8>, tail: Seq<u8>, f: FastFields)
    requires
        (front + tail).len() <= usize::MAX,
        lie_within(f, tail),
    ensures
        fast_features(front + tail, moved_fields(f, front.len() as int)) == match fast_features(tail, f) {
            Some(g) => Some(moved_features(g, front.len() as int)),
            None => None,
        },
        fast_features(tail, f) matches Some(g) ==> g.merchant_avg.within(tail) && (
        g.last matches Some((_, km)) ==> km.within(tail)),
{
    let o = front.len() as int;
    let requested = f.requested_at.of(tail);
    lemma_span(front, tail, f.requested_at);
    lemma_span(front, tail, f.known_merchants);
    lemma_span(front, tail, f.merchant_id);
    lemma_span(front, tail, f.merchant_mcc);
    lemma_number(front, tail, f.merchant_avg_value_start as int);
    lemma_bool(front, tail, f.is_online_value_start as int);
    lemma_bool(front, tail, f.card_present_value_start as int);
    lemma_last(front, tail, f.after_km_from_home as int, requested);
    let h = moved_fields(f, o);
    assert(h.merchant_avg_value_start == f.merchant_avg_value_start + o);
    assert(h.is_online_value_start == f.is_online_value_start + o);
    assert(h.card_present_value_start == f.card_present_value_start + o);
    assert(h.after_km_from_home == f.after_km_from_home + o);
}

/// What is asked of the rules and of the model of a tail is asked of the whole.
proof fn lemma_texts(front: Seq<u8>, tail: Seq<u8>, f: FastFields)
    requires
        (front + tail).len() <= usize::MAX,
        lie_within(f, tail),
    ensures
        ({
            let whole = front + tail;
            let h = moved_fields(f, front.len() as int);
            &&& forall|n: RuleNumbers<'_>| rule_texts(n, h, whole) == rule_texts(n, f, tail)
            &&& forall|c: Comparisons| fields_rule_score(whole, h, c) == fields_rule_score(tail, f, c)
            &&& fast_features(whole, h) is Some <==> fast_features(tail, f) is Some
            &&& fast_features(tail, f) is Some ==> forall|m: ModelInputs<'_>|
                model_texts(m, h, fast_features(whole, h)->0, whole) == model_texts(
                    m,
                    f,
                    fast_features(tail, f)->0,
                    tail,
                )
        }),
{
    lemma_span(front, tail, f.amount);
    lemma_span(front, tail, f.customer_avg);
    lemma_span(front, tail, f.known_merchants);
    lemma_span(front, tail, f.merchant_id);
    lemma_span(front, tail, f.merchant_mcc);
    lemma_span(front, tail, f.km_from_home);
    lemma_features(front, tail, f);
    if let Some(g) = fast_features(tail, f) {
        lemma_span(front, tail, g.merchant_avg);
        if let Some((_, km)) = g.last {
            lemma_span(front, tail, km);
        }
    }
}

/// The fields of a tail may have the scores that they may have in the whole.
proof fn lemma_scores<'a, C: Fn(RuleNumbers<'a>) -> Comparisons, P: Fn(ModelInputs<'a>) -> bool>(
    front: Seq<u8>,
    tail: Seq<u8>,
    f: FastFields,
    compare: C,
    predict: P,
    score: Option<u8>,
)
    requires
        (front + tail).len() <= usize::MAX,
        lie_within(f, tail),
    ensures
        fields_may_score(front + tail, moved_fields(f, front.len() as int), compare, predict, score)
            == fields_may_score(tail, f, compare, predict, score),
{
    lemma_texts(front, tail, f);
}

/// A compact body with an identifier, and what follows the identifier's closing quote.
pub open spec fn identified(id: Seq<u8>, tail: Seq<u8>) -> Seq<u8> {
    word("{\"id\":\""@) + id + seq![34u8] + tail
}

/// A quote behind a stretch without quotes is the first one.
pub(crate) proof fn lemma_quote_after(text: Seq<u8>, from: int, at: int)
    requires
        0 <= from <= at < text.len(),
        forall|k: int| from <= k < at ==> text[k] != 34,
        text[at] == 34,
    ensures
        first_byte(text, from, 34) == Some(at),
    decreases at - from,
{
    if from < at {
        lemma_quote_after(text, from + 1, at);
    }
}

/// The transaction of a body begins behind its identifier.
proof fn lemma_identified(id: Seq<u8>, tail: Seq<u8>)
    requires
        !id.contains(34u8),
    ensures
        ({
            let front = word("{\"id\":\""@) + id + seq![34u8];
            &&& identified(id, tail) == front + tail
            &&& transaction_start(identified(id, tail)) == later(
                past(tail, 0, word(",\"transaction\":{"@)),
                front.len() as int,
            )
        }),
{
    let front = word("{\"id\":\""@) + id + seq![34u8];
    let body = identified(id, tail);
    let opening = word("{\"id\":"@);
    let quoted = word("{\"id\":\""@);
    reveal_strlit("{\"id\":");
    reveal_strlit("{\"id\":\"");
    vstd::utf8::is_ascii_chars_encode_utf8("{\"id\":"@);
    vstd::utf8::is_ascii_chars_encode_utf8("{\"id\":\""@);
    assert(quoted =~= opening.push(34u8));
    assert(body.subrange(0, opening.len() as int) =~= opening);
    assert(stands_at(body, 0, opening));
    let start = quoted.len() as int;
    let end = start + id.len();
    assert(body[start - 1] == 34);
    assert forall|k: int| start <= k < end implies body[k] != 34 by {
        assert(body[k] == id[k - start]);
        assert(id.contains(id[k - start]));
    }
    assert(body[end] == 34);
    lemma_quote_after(body, start, end);
    lemma_past(front, tail, 0, word(",\"transaction\":{"@));
    assert(front.len() == end + 1);
}

/// A body with an identifier may have the scores of what follows the identifier.
proof fn lemma_identified_scores<
    'a,
    C: Fn(RuleNumbers<'a>) -> Comparisons,
    P: Fn(ModelInputs<'a>) -> bool,
>(id: Seq<u8>, tail: Seq<u8>, compare: C, predict: P, score: Option<u8>)
    requires
        !id.contains(34u8),
        identified(id, tail).len() <= usize::MAX,
    ensures
        may_score(identified(id, tail), compare, predict, score) == match past(
            tail,
            0,
            word(",\"transaction\":{"@),
        ) {
            Some(start) => match fields_from(tail, start) {
                Some(f) => fields_may_score(tail, f, compare, predict, score),
                None => score is None,
            },
            None => score is None,
        },
{
    let front = word("{\"id\":\""@) + id + seq![34u8];
    lemma_identified(id, tail);
    if let Some(start) = past(tail, 0, word(",\"transaction\":{"@)) {
        lemma_fields(front, tail, start);
        if let Some(f) = fields_from(tail, start) {
            lemma_scores(front, tail, f, compare, predict, score);
        }
    }
}

/// The identifier of a request has no part in its score: bodies that differ in nothing else may
/// have the same scores.
pub proof fn lemma_identifier_does_not_count<
    'a,
    C: Fn(RuleNumbers<'a>) -> Comparisons,
    P: Fn(ModelInputs<'a>) -> bool,
>(one: Seq<u8>, other: Seq<u8>, tail: Seq<u8>, compare: C, predict: P, score: Option<u8>)
    requires
        !one.contains(34u8),
        !other.contains(34u8),
        identified(one, tail).len() <= usize::MAX,
        identified(other, tail).len() <= usize::MAX,
    ensures
        may_score(identified(one, tail), compare, predict, score) == may_score(
            identified(other, tail),
            compare,
            predict,
            score,
        ),
{
    lemma_identified_scores(one, tail, compare, predict, score);
    lemma_identified_scores(other, tail, compare, predict, score);
}

/// A function of numbers gives one answer to the same texts.
pub open spec fn compares_alike<'a, C: Fn(RuleNumbers<'a>) -> Comparisons>(compare: C) -> bool {
    forall|n: RuleNumbers<'a>, c: Comparisons, other: RuleNumbers<'a>, d: Comparisons|
        #![trigger compare.ensures((n,), c), compare.ensures((other,), d)]
        compare.ensures((n,), c) && compare.ensures((other,), d) && n.amount@ == other.amount@
            && n.customer_avg@ == other.customer_avg@ && n.km_from_home@ == other.km_from_home@ ==> c == d
}

/// Two questions to the model say the same.
pub open spec fn same_question(m: ModelInputs<'_>, other: ModelInputs<'_>) -> bool {
    &&& m.amount@ == other.amount@
    &&& m.installments == other.installments
    &&& m.customer_avg@ == other.customer_avg@
    &&& m.hour == other.hour
    &&& m.weekday_monday0 == other.weekday_monday0
    &&& m.km_from_home@ == other.km_from_home@
    &&& m.tx_count_24h == other.tx_count_24h
    &&& m.is_online == other.is_online
    &&& m.card_present == other.card_present
    &&& m.merchant_known == other.merchant_known
    &&& m.mcc_risk == other.mcc_risk
    &&& m.merchant_avg@ == other.merchant_avg@
    &&& match (m.last, other.last) {
        (Some(one), Some(two)) => one.0 == two.0 && one.1@ == two.1@,
        (None, None) => true,
        _ => false,
    }
}

/// A model gives one answer to the same question.
pub open spec fn predicts_alike<'a, P: Fn(ModelInputs<'a>) -> bool>(predict: P) -> bool {
    forall|m: ModelInputs<'a>, fraud: bool, other: ModelInputs<'a>, verdict: bool|
        #![trigger predict.ensures((m,), fraud), predict.ensures((other,), verdict)]
        predict.ensures((m,), fraud) && predict.ensures((other,), verdict) && same_question(m, other)
            ==> fraud == verdict
}

/// Where the comparisons and the model give one answer to the same question, a body has one score.
pub proof fn lemma_one_score<'a, C: Fn(RuleNumbers<'a>) -> Comparisons, P: Fn(ModelInputs<'a>) -> bool>(
    body: Seq<u8>,
    compare: C,
    predict: P,
    score: Option<u8>,
    other: Option<u8>,
)
    requires
        compares_alike(compare),
        predicts_alike(predict),
        may_score(body, compare, predict, score),
        may_score(body, compare, predict, other),
    ensures
        score == other,
{
}

/// Two calls on bodies that differ in nothing but their identifiers give the same score, where the
/// comparisons and the model give one answer to the same question.
pub proof fn lemma_identifiers_score_alike<
    'a,
    C: Fn(RuleNumbers<'a>) -> Comparisons,
    P: Fn(ModelInputs<'a>) -> bool,
>(
    one: Seq<u8>,
    other: Seq<u8>,
    tail: Seq<u8>,
    compare: C,
    predict: P,
    score: Option<u8>,
    other_score: Option<u8>,
)
    requires
        !one.contains(34u8),
        !other.contains(34u8),
        identified(one, tail).len() <= usize::MAX,
        identified(other, tail).len() <= usize::MAX,
        compares_alike(compare),
        predicts_alike(predict),
        may_score(identified(one, tail), compare, predict, score),
        may_score(identified(other, tail), compare, predict, other_score),
    ensures
        score == other_score,
{
    lemma_identifier_does_not_count(one, other, tail, compare, predict, score);
    lemma_one_score(identified(other, tail), compare, predict, score, other_score);
}

} // verus!
