//! A request and its bodies are read alike.
use vstd::prelude::*;

use crate::key_values::{flag_text, key_leads, lemma_flag, lemma_list, lemma_listed, lemma_number,
    lemma_string, lemma_value, list_tokens};
use crate::request::{merchants_in, FraudRequest};
use crate::scanning::{first_word, stands_at, word, Span};
use crate::time::{digits_value, time_of, ParsedTime};
use crate::tokens::{in_quotes, is_name, lemma_find, lemma_name_unquoted, lemma_token, lemma_token_byte,
    token_end, token_start, Token};
use crate::vector::{after_key, assembled, body_fields, body_measures, body_traits, customer_part, last_part,
    may_have_vector, merchant_part, number_after, quotes, request_measures, request_parts, request_times,
    request_traits, string_after, terminal_part, transaction_part, value_position, BodyFields, Measures,
    ScaledNumbers};
use crate::written::{customer_tokens, identity_tokens, last_tokens, lemma_closing_keys, lemma_layout,
    lemma_opening_keys, lemma_request_regular, lemma_words_unquoted, merchant_tokens, request_tokens, says,
    terminal_tokens, transaction_tokens, RequestTexts};

verus! {

/// A stretch of a text reads so.
spec fn reads(span: Span, text: Seq<u8>, value: Seq<u8>) -> bool {
    span.within(text) && span.of(text) == value
}

/// The tokens up to the list of known merchants.
proof fn lemma_opening(t: RequestTexts)
    ensures
        request_tokens(t).len() > t.merchant_at() + 35,
        t.merchant_at() == 38 + list_tokens(t.known_merchants).len(),
        request_tokens(t)[0] == Token::OpenObject,
        request_tokens(t)[1] == Token::Text(word("id"@)),
        request_tokens(t)[2] == Token::Colon,
        request_tokens(t)[3] == Token::Text(t.id),
        request_tokens(t)[4] == Token::Comma,
        request_tokens(t)[5] == Token::Text(word("transaction"@)),
        request_tokens(t)[6] == Token::Colon,
        request_tokens(t)[7] == Token::OpenObject,
        request_tokens(t)[8] == Token::Text(word("amount"@)),
        request_tokens(t)[9] == Token::Colon,
        request_tokens(t)[10] == Token::Bare(t.amount),
        request_tokens(t)[11] == Token::Comma,
        request_tokens(t)[12] == Token::Text(word("installments"@)),
        request_tokens(t)[13] == Token::Colon,
        request_tokens(t)[14] == Token::Bare(t.installments),
        request_tokens(t)[15] == Token::Comma,
        request_tokens(t)[16] == Token::Text(word("requested_at"@)),
        request_tokens(t)[17] == Token::Colon,
        request_tokens(t)[18] == Token::Text(t.requested_at),
        request_tokens(t)[19] == Token::CloseObject,
        request_tokens(t)[20] == Token::Comma,
        request_tokens(t)[21] == Token::Text(word("customer"@)),
        request_tokens(t)[22] == Token::Colon,
        request_tokens(t)[23] == Token::OpenObject,
        request_tokens(t)[24] == Token::Text(word("avg_amount"@)),
        request_tokens(t)[25] == Token::Colon,
        request_tokens(t)[26] == Token::Bare(t.customer_avg),
        request_tokens(t)[27] == Token::Comma,
        request_tokens(t)[28] == Token::Text(word("tx_count_24h"@)),
        request_tokens(t)[29] == Token::Colon,
        request_tokens(t)[30] == Token::Bare(t.tx_count),
        request_tokens(t)[31] == Token::Comma,
        request_tokens(t)[32] == Token::Text(word("known_merchants"@)),
        request_tokens(t)[33] == Token::Colon,
        request_tokens(t)[34] == Token::OpenList,
{
    lemma_layout(t);
    let p = request_tokens(t);
    let i = identity_tokens(t);
    assert forall|k: int| 0 <= k < 5 implies #[trigger] p[k] == i[k] by {}
    let q = transaction_tokens(t);
    assert(p[5int + 0] == q[0]);
    assert(p[5int + 1] == q[1]);
    assert(p[5int + 2] == q[2]);
    assert(p[5int + 3] == q[3]);
    assert(p[5int + 4] == q[4]);
    assert(p[5int + 5] == q[5]);
    assert(p[5int + 6] == q[6]);
    assert(p[5int + 7] == q[7]);
    assert(p[5int + 8] == q[8]);
    assert(p[5int + 9] == q[9]);
    assert(p[5int + 10] == q[10]);
    assert(p[5int + 11] == q[11]);
    assert(p[5int + 12] == q[12]);
    assert(p[5int + 13] == q[13]);
    assert(p[5int + 14] == q[14]);
    assert(p[5int + 15] == q[15]);
    let r = customer_tokens(t);
    assert(p[21int + 0] == r[0]);
    assert(p[21int + 1] == r[1]);
    assert(p[21int + 2] == r[2]);
    assert(p[21int + 3] == r[3]);
    assert(p[21int + 4] == r[4]);
    assert(p[21int + 5] == r[5]);
    assert(p[21int + 6] == r[6]);
    assert(p[21int + 7] == r[7]);
    assert(p[21int + 8] == r[8]);
    assert(p[21int + 9] == r[9]);
    assert(p[21int + 10] == r[10]);
    assert(p[21int + 11] == r[11]);
    assert(p[21int + 12] == r[12]);
    assert(p[21int + 13] == r[13]);
}

/// No key of the transaction or the customer stands before its place.
proof fn lemma_opening_apart(t: RequestTexts, k: int, i: int)
    requires
        4 <= k < i,
        i == 8 || i == 12 || i == 16 || i == 21 || i == 24 || i == 28 || i == 32,
        k == 18 ==> time_of(t.requested_at) is Some,
    ensures
        request_tokens(t)[k] != request_tokens(t)[i],
{
    lemma_opening(t);
    lemma_opening_keys();
}

/// A key of the transaction or the customer is found.
proof fn lemma_opening_leads(body: Seq<u8>, t: RequestTexts, j: int, i: int, key: Seq<u8>)
    requires
        says(body, t),
        t.plain(),
        3 <= j < i,
        i == 8 || i == 12 || i == 16 || i == 24 || i == 28 || i == 32,
        j < 18 < i ==> time_of(t.requested_at) is Some,
        request_tokens(t)[i] == Token::Text(key),
        is_name(key),
    ensures
        key_leads(body, request_tokens(t), j, i, i + 1, key),
{
    let p = request_tokens(t);
    lemma_request_regular(t);
    lemma_opening(t);
    assert forall|k: int| j < k < i implies #[trigger] p[k] != Token::Text(key) by {
        lemma_opening_apart(t, k, i);
    }
}

/// The key `transaction`, or an identifier that reads so, is found.
proof fn lemma_transaction_key(body: Seq<u8>, t: RequestTexts) -> (a: int)
    requires
        says(body, t),
        t.plain(),
    ensures
        a == 3 || a == 5,
        after_key(body, 0, word("\"transaction\""@)) == Some(token_end(body, request_tokens(t), a)),
{
    let p = request_tokens(t);
    let key = word("transaction"@);
    let a: int = if t.id == key { 3 } else { 5 };
    lemma_opening(t);
    lemma_opening_keys();
    lemma_request_regular(t);
    assert forall|k: int| -1 < k < a implies #[trigger] p[k] != Token::Text(key) by {}
    lemma_find(body, p, -1, a, key);
    lemma_token(body, p, a);
    a
}

/// The transaction of a body is read.
proof fn lemma_transaction(body: Seq<u8>, t: RequestTexts)
    requires
        says(body, t),
        t.plain(),
        body.len() <= usize::MAX,
    ensures
        match time_of(t.requested_at) {
            Some(requested) => transaction_part(body) matches Some((at, amount, installments, time)) && (at
                == token_end(body, request_tokens(t), 3) || at == token_end(body, request_tokens(t), 5))
                && reads(amount, body, t.amount) && reads(installments, body, t.installments) && time
                == requested,
            None => transaction_part(body) is None,
        },
{
    let p = request_tokens(t);
    let a = lemma_transaction_key(body, t);
    lemma_opening(t);
    lemma_opening_keys();
    lemma_opening_leads(body, t, a, 8, word("amount"@));
    lemma_number(body, p, a, 8, 9, word("amount"@), t.amount);
    lemma_opening_leads(body, t, a, 12, word("installments"@));
    lemma_number(body, p, a, 12, 13, word("installments"@), t.installments);
    lemma_opening_leads(body, t, a, 16, word("requested_at"@));
    lemma_string(body, p, a, 16, 17, word("requested_at"@), t.requested_at);
}

/// The customer of a body is read.
proof fn lemma_customer(body: Seq<u8>, t: RequestTexts, start: int)
    requires
        says(body, t),
        t.plain(),
        body.len() <= usize::MAX,
        time_of(t.requested_at) is Some,
        start == token_end(body, request_tokens(t), 3) || start == token_end(body, request_tokens(t), 5),
    ensures
        customer_part(body, start) matches Some((at, average, count, known)) && at == token_end(
            body,
            request_tokens(t),
            21,
        ) && reads(average, body, t.customer_avg) && reads(count, body, t.tx_count) && known.within(body)
            && forall|needle: Seq<u8>| #[trigger]
            quotes(known.of(body), 0, needle) == t.known_merchants.contains(needle),
{
    let p = request_tokens(t);
    let a: int = if start == token_end(body, p, 3) { 3 } else { 5 };
    lemma_opening(t);
    lemma_opening_keys();
    lemma_request_regular(t);
    assert forall|k: int| a < k < 21 implies #[trigger] p[k] != Token::Text(word("customer"@)) by {
        lemma_opening_apart(t, k, 21);
    }
    lemma_find(body, p, a, 21, word("customer"@));
    lemma_token(body, p, 21);
    lemma_opening_leads(body, t, 21, 24, word("avg_amount"@));
    lemma_number(body, p, 21, 24, 25, word("avg_amount"@), t.customer_avg);
    lemma_opening_leads(body, t, 21, 28, word("tx_count_24h"@));
    lemma_number(body, p, 21, 28, 29, word("tx_count_24h"@), t.tx_count);
    lemma_opening_leads(body, t, 21, 32, word("known_merchants"@));
    lemma_layout(t);
    lemma_list(body, p, 21, 32, 33, word("known_merchants"@), t.known_merchants);
}

/// The tokens of the merchant and the terminal.
proof fn lemma_closing(t: RequestTexts)
    ensures
        request_tokens(t).len() > t.merchant_at() + 35,
        request_tokens(t)[t.merchant_at() + 0] == Token::Text(word("merchant"@)),
        request_tokens(t)[t.merchant_at() + 1] == Token::Colon,
        request_tokens(t)[t.merchant_at() + 2] == Token::OpenObject,
        request_tokens(t)[t.merchant_at() + 3] == Token::Text(word("id"@)),
        request_tokens(t)[t.merchant_at() + 4] == Token::Colon,
        request_tokens(t)[t.merchant_at() + 5] == Token::Text(t.merchant_id),
        request_tokens(t)[t.merchant_at() + 6] == Token::Comma,
        request_tokens(t)[t.merchant_at() + 7] == Token::Text(word("mcc"@)),
        request_tokens(t)[t.merchant_at() + 8] == Token::Colon,
        request_tokens(t)[t.merchant_at() + 9] == Token::Text(t.mcc),
        request_tokens(t)[t.merchant_at() + 10] == Token::Comma,
        request_tokens(t)[t.merchant_at() + 11] == Token::Text(word("avg_amount"@)),
        request_tokens(t)[t.merchant_at() + 12] == Token::Colon,
        request_tokens(t)[t.merchant_at() + 13] == Token::Bare(t.merchant_avg),
        request_tokens(t)[t.merchant_at() + 14] == Token::CloseObject,
        request_tokens(t)[t.merchant_at() + 15] == Token::Comma,
        request_tokens(t)[t.merchant_at() + 16] == Token::Text(word("terminal"@)),
        request_tokens(t)[t.merchant_at() + 17] == Token::Colon,
        request_tokens(t)[t.merchant_at() + 18] == Token::OpenObject,
        request_tokens(t)[t.merchant_at() + 19] == Token::Text(word("is_online"@)),
        request_tokens(t)[t.merchant_at() + 20] == Token::Colon,
        request_tokens(t)[t.merchant_at() + 21] == Token::Bare(flag_text(t.is_online)),
        request_tokens(t)[t.merchant_at() + 22] == Token::Comma,
        request_tokens(t)[t.merchant_at() + 23] == Token::Text(word("card_present"@)),
        request_tokens(t)[t.merchant_at() + 24] == Token::Colon,
        request_tokens(t)[t.merchant_at() + 25] == Token::Bare(flag_text(t.card_present)),
        request_tokens(t)[t.merchant_at() + 26] == Token::Comma,
        request_tokens(t)[t.merchant_at() + 27] == Token::Text(word("km_from_home"@)),
        request_tokens(t)[t.merchant_at() + 28] == Token::Colon,
        request_tokens(t)[t.merchant_at() + 29] == Token::Bare(t.km_from_home),
        request_tokens(t)[t.merchant_at() + 30] == Token::CloseObject,
        request_tokens(t)[t.merchant_at() + 31] == Token::Comma,
        request_tokens(t)[t.merchant_at() + 32] == Token::Text(word("last_transaction"@)),
        request_tokens(t)[t.merchant_at() + 33] == Token::Colon,
{
    lemma_layout(t);
    let p = request_tokens(t);
    let c = t.merchant_at();
    let q = merchant_tokens(t);
    assert(p[c + 0] == q[0]);
    assert(p[c + 1] == q[1]);
    assert(p[c + 2] == q[2]);
    assert(p[c + 3] == q[3]);
    assert(p[c + 4] == q[4]);
    assert(p[c + 5] == q[5]);
    assert(p[c + 6] == q[6]);
    assert(p[c + 7] == q[7]);
    assert(p[c + 8] == q[8]);
    assert(p[c + 9] == q[9]);
    assert(p[c + 10] == q[10]);
    assert(p[c + 11] == q[11]);
    assert(p[c + 12] == q[12]);
    assert(p[c + 13] == q[13]);
    assert(p[c + 14] == q[14]);
    assert(p[c + 15] == q[15]);
    let r = terminal_tokens(t);
    assert(p[c + 16 + 0] == r[0]);
    assert(p[c + 16 + 1] == r[1]);
    assert(p[c + 16 + 2] == r[2]);
    assert(p[c + 16 + 3] == r[3]);
    assert(p[c + 16 + 4] == r[4]);
    assert(p[c + 16 + 5] == r[5]);
    assert(p[c + 16 + 6] == r[6]);
    assert(p[c + 16 + 7] == r[7]);
    assert(p[c + 16 + 8] == r[8]);
    assert(p[c + 16 + 9] == r[9]);
    assert(p[c + 16 + 10] == r[10]);
    assert(p[c + 16 + 11] == r[11]);
    assert(p[c + 16 + 12] == r[12]);
    assert(p[c + 16 + 13] == r[13]);
    assert(p[c + 16 + 14] == r[14]);
    assert(p[c + 16 + 15] == r[15]);
    let l = last_tokens(t);
    assert(p[c + 32 + 0] == l[0]);
    assert(p[c + 32 + 1] == l[1]);
}

/// No key of the merchant or the terminal stands before its place, but where a name reads so.
proof fn lemma_closing_apart(t: RequestTexts, k: int, i: int)
    requires
        0 <= k < i,
        k != 5,
        k != 9,
        i == 3 || i == 7 || i == 11 || i == 16 || i == 19 || i == 23 || i == 27 || i == 32,
    ensures
        request_tokens(t)[t.merchant_at() + k] != request_tokens(t)[t.merchant_at() + i],
{
    lemma_closing(t);
    lemma_opening_keys();
    lemma_closing_keys();
}

/// A token from the list of known merchants on, but before the merchant, is a name or no string.
proof fn lemma_list_apart(t: RequestTexts, k: int, key: Seq<u8>)
    requires
        35 <= k < t.merchant_at(),
        k < 35 + list_tokens(t.known_merchants).len() && (k - 35) % 2 == 0 ==> t.known_merchants[(k - 35)
            / 2] != key,
    ensures
        request_tokens(t)[k] != Token::Text(key),
{
    lemma_layout(t);
    let p = request_tokens(t);
    let n = list_tokens(t.known_merchants).len();
    let within = k - 35;
    if within < n {
        assert(p[34 + 1 + within] == list_tokens(t.known_merchants)[within]);
    } else {
        assert(k == 35 + n || k == t.merchant_at() - 2 || k == t.merchant_at() - 1);
    }
}

/// The first of the names, from one on, that reads so; or how many there are.
proof fn lemma_first_name(names: Seq<Seq<u8>>, from: int, name: Seq<u8>) -> (first: int)
    requires
        0 <= from <= names.len(),
    ensures
        from <= first <= names.len(),
        first < names.len() ==> names[first] == name,
        forall|k: int| from <= k < first ==> #[trigger] names[k] != name,
    decreases names.len() - from,
{
    if from == names.len() || names[from] == name {
        from
    } else {
        lemma_first_name(names, from + 1, name)
    }
}

/// The fields of the merchant are looked for from a token on: behind the key, or behind a name that
/// reads like it.
spec fn merchant_from(t: RequestTexts, j: int) -> bool {
    ||| j == t.merchant_at()
    ||| 35 <= j < 35 + list_tokens(t.known_merchants).len() && (j - 35) % 2 == 0 && t.known_merchants[(j
        - 35) / 2] == word("merchant"@)
}

/// The key `merchant` does not stand among the customer's numbers.
proof fn lemma_customer_apart(t: RequestTexts, k: int)
    requires
        21 < k < 35,
    ensures
        request_tokens(t)[k] != Token::Text(word("merchant"@)),
{
    lemma_opening(t);
    lemma_opening_keys();
    lemma_closing_keys();
}

/// The key `merchant`, or a name that reads so, is found.
proof fn lemma_merchant_key(body: Seq<u8>, t: RequestTexts) -> (j: int)
    requires
        says(body, t),
        t.plain(),
    ensures
        merchant_from(t, j),
        after_key(body, token_end(body, request_tokens(t), 21), word("\"merchant\""@)) == Some(
            token_end(body, request_tokens(t), j),
        ),
{
    let p = request_tokens(t);
    let n = t.known_merchants.len() as int;
    let key = word("merchant"@);
    let first = lemma_first_name(t.known_merchants, 0, key);
    let j = if first < n { 35 + 2 * first } else { t.merchant_at() };
    lemma_layout(t);
    lemma_request_regular(t);
    assert(p[t.merchant_at()] == Token::Text(key) && p.len() > t.merchant_at() + 35) by {
        lemma_closing(t);
    }
    lemma_closing_keys();
    if first < n {
        lemma_listed(p, 34, t.known_merchants, first);
        assert((j - 35) % 2 == 0 && (j - 35) / 2 == first);
    }
    assert forall|k: int| 21 < k < j implies #[trigger] p[k] != Token::Text(key) by {
        if k < 35 {
            lemma_customer_apart(t, k);
        } else {
            if k < 35 + list_tokens(t.known_merchants).len() && (k - 35) % 2 == 0 {
                assert(t.known_merchants[(k - 35) / 2] != key);
            }
            lemma_list_apart(t, k, key);
        }
    }
    lemma_find(body, p, 21, j, key);
    lemma_token(body, p, j);
    j
}

/// A key of the merchant, or that of the terminal, does not stand before its place, but where a name
/// reads so.
proof fn lemma_merchant_apart(t: RequestTexts, j: int, k: int, i: int)
    requires
        merchant_from(t, j),
        t.unmistaken(),
        j < k < t.merchant_at() + i,
        k != t.merchant_at() + 5,
        k != t.merchant_at() + 9,
        i == 3 || i == 7 || i == 11 || i == 16,
    ensures
        request_tokens(t)[k] != request_tokens(t)[t.merchant_at() + i],
{
    let c = t.merchant_at();
    if k < c {
        lemma_closing(t);
        let key = request_tokens(t)[c + i]->Text_0;
        if k < 35 + list_tokens(t.known_merchants).len() && (k - 35) % 2 == 0 {
            let one = (j - 35) / 2;
            let other = (k - 35) / 2;
            assert(one < other < t.known_merchants.len());
            assert(t.known_merchants[one] == word("merchant"@));
            assert(t.known_merchants[other] != key);
        }
        lemma_list_apart(t, k, key);
    } else {
        lemma_closing_apart(t, k - c, i);
        assert(c + (k - c) == k);
    }
}

/// The merchant of a body is read.
proof fn lemma_merchant(body: Seq<u8>, t: RequestTexts, j: int)
    requires
        says(body, t),
        t.plain(),
        t.unmistaken(),
        merchant_from(t, j),
        body.len() <= usize::MAX,
        after_key(body, token_end(body, request_tokens(t), 21), word("\"merchant\""@)) == Some(
            token_end(body, request_tokens(t), j),
        ),
    ensures
        merchant_part(body, token_end(body, request_tokens(t), 21)) matches Some((at, id, mcc, average)) && at
            == token_end(body, request_tokens(t), j) && reads(id, body, t.merchant_id) && reads(
            mcc,
            body,
            t.mcc,
        ) && reads(average, body, t.merchant_avg),
{
    let p = request_tokens(t);
    let c = t.merchant_at();
    lemma_closing(t);
    lemma_request_regular(t);
    lemma_opening_keys();
    lemma_closing_keys();
    assert(35 <= j <= c);
    assert(key_leads(body, p, j, c + 3, c + 4, word("id"@))) by {
        assert forall|k: int| j < k < c + 3 implies #[trigger] p[k] != Token::Text(word("id"@)) by {
            lemma_merchant_apart(t, j, k, 3);
        }
    }
    lemma_string(body, p, j, c + 3, c + 4, word("id"@), t.merchant_id);
    let i: int = if t.merchant_id == word("mcc"@) { c + 5 } else { c + 7 };
    assert(key_leads(body, p, j, i, c + 8, word("mcc"@))) by {
        assert forall|k: int| j < k < i implies #[trigger] p[k] != Token::Text(word("mcc"@)) by {
            if k != c + 5 {
                lemma_merchant_apart(t, j, k, 7);
            }
        }
        lemma_no_colon(word("mcc"@));
        assert forall|k: int| i < k < c + 8 implies !(#[trigger] p[k]).spelled().contains(58u8) by {
            assert(k == c + 6 || k == c + 7);
        }
    }
    lemma_string(body, p, j, i, c + 8, word("mcc"@), t.mcc);
    let m: int = if t.mcc == word("avg_amount"@) { c + 9 } else { c + 11 };
    assert(key_leads(body, p, j, m, c + 12, word("avg_amount"@))) by {
        assert forall|k: int| j < k < m implies #[trigger] p[k] != Token::Text(word("avg_amount"@)) by {
            if k != c + 5 && k != c + 9 {
                lemma_merchant_apart(t, j, k, 11);
            }
        }
        lemma_no_colon(word("avg_amount"@));
        assert forall|k: int| m < k < c + 12 implies !(#[trigger] p[k]).spelled().contains(58u8) by {
            assert(k == c + 10 || k == c + 11);
        }
    }
    lemma_number(body, p, j, m, c + 12, word("avg_amount"@), t.merchant_avg);
}

/// A key and a comma hold no colon.
proof fn lemma_no_colon(key: Seq<u8>)
    requires
        is_name(key),
    ensures
        !Token::Text(key).spelled().contains(58u8),
        !Token::Comma.spelled().contains(58u8),
{
    lemma_name_unquoted(key);
    let spelled = in_quotes(key);
    assert forall|k: int| 0 <= k < spelled.len() implies spelled[k] != 58 by {
        if 0 < k < spelled.len() - 1 {
            assert(spelled[k] == key[k - 1]);
            assert(key.contains(key[k - 1]));
        }
    }
}

/// The fields of the terminal are looked for from a token on: behind the key, or behind a merchant or
/// a category that reads like it.
spec fn terminal_from(t: RequestTexts, j: int) -> bool {
    ||| j == t.merchant_at() + 16
    ||| j == t.merchant_at() + 9
    ||| j == t.merchant_at() + 5 && t.merchant_id == word("terminal"@)
}

/// The key `terminal`, or a text that reads so, is found.
proof fn lemma_terminal_key(body: Seq<u8>, t: RequestTexts, j: int) -> (next: int)
    requires
        says(body, t),
        t.plain(),
        t.unmistaken(),
        merchant_from(t, j),
    ensures
        terminal_from(t, next),
        after_key(body, token_end(body, request_tokens(t), j), word("\"terminal\""@)) == Some(
            token_end(body, request_tokens(t), next),
        ),
{
    let p = request_tokens(t);
    let c = t.merchant_at();
    let key = word("terminal"@);
    lemma_closing(t);
    lemma_request_regular(t);
    lemma_closing_keys();
    let i: int = if t.merchant_id == key {
        c + 5
    } else if t.mcc == key {
        c + 9
    } else {
        c + 16
    };
    assert forall|k: int| j < k < i implies #[trigger] p[k] != Token::Text(key) by {
        if k != c + 5 && k != c + 9 {
            lemma_merchant_apart(t, j, k, 16);
        }
    }
    lemma_find(body, p, j, i, key);
    lemma_token(body, p, i);
    i
}

/// A key of the terminal, or that of the earlier transaction, is found.
proof fn lemma_terminal_leads(body: Seq<u8>, t: RequestTexts, j: int, i: int, key: Seq<u8>)
    requires
        says(body, t),
        t.plain(),
        t.unmistaken(),
        terminal_from(t, j),
        i == 19 || i == 23 || i == 27 || i == 32,
        request_tokens(t)[t.merchant_at() + i] == Token::Text(key),
        is_name(key),
    ensures
        key_leads(body, request_tokens(t), j, t.merchant_at() + i, t.merchant_at() + i + 1, key),
{
    let p = request_tokens(t);
    let c = t.merchant_at();
    lemma_closing(t);
    lemma_request_regular(t);
    assert forall|k: int| j < k < c + i implies #[trigger] p[k] != Token::Text(key) by {
        if k != c + 9 {
            lemma_closing_apart(t, k - c, i);
            assert(c + (k - c) == k);
        }
    }
}

/// The terminal of a body is read.
proof fn lemma_terminal(body: Seq<u8>, t: RequestTexts, j: int, next: int)
    requires
        says(body, t),
        t.plain(),
        t.unmistaken(),
        terminal_from(t, next),
        body.len() <= usize::MAX,
        after_key(body, token_end(body, request_tokens(t), j), word("\"terminal\""@)) == Some(
            token_end(body, request_tokens(t), next),
        ),
    ensures
        terminal_part(body, token_end(body, request_tokens(t), j)) matches Some((at, online, card, km)) && at
            == token_end(body, request_tokens(t), next) && online == t.is_online && card == t.card_present
            && reads(km, body, t.km_from_home),
{
    let p = request_tokens(t);
    let c = t.merchant_at();
    lemma_closing(t);
    lemma_closing_keys();
    lemma_terminal_leads(body, t, next, 19, word("is_online"@));
    lemma_flag(body, p, next, c + 19, c + 20, word("is_online"@), t.is_online);
    lemma_terminal_leads(body, t, next, 23, word("card_present"@));
    lemma_flag(body, p, next, c + 23, c + 24, word("card_present"@), t.card_present);
    lemma_terminal_leads(body, t, next, 27, word("km_from_home"@));
    lemma_number(body, p, next, c + 27, c + 28, word("km_from_home"@), t.km_from_home);
}

/// The tokens of an earlier transaction.
proof fn lemma_last_stands(t: RequestTexts, timestamp: Seq<u8>, km: Seq<u8>)
    requires
        t.last == Some((timestamp, km)),
    ensures
        request_tokens(t).len() == t.merchant_at() + 44,
        request_tokens(t)[t.merchant_at() + 34] == Token::OpenObject,
        request_tokens(t)[t.merchant_at() + 35] == Token::Text(word("timestamp"@)),
        request_tokens(t)[t.merchant_at() + 36] == Token::Colon,
        request_tokens(t)[t.merchant_at() + 37] == Token::Text(timestamp),
        request_tokens(t)[t.merchant_at() + 38] == Token::Comma,
        request_tokens(t)[t.merchant_at() + 39] == Token::Text(word("km_from_current"@)),
        request_tokens(t)[t.merchant_at() + 40] == Token::Colon,
        request_tokens(t)[t.merchant_at() + 41] == Token::Bare(km),
{
    lemma_layout(t);
    let p = request_tokens(t);
    let c = t.merchant_at();
    let l = last_tokens(t);
    assert(p[c + 32 + 2] == l[2]);
    assert(p[c + 32 + 3] == l[3]);
    assert(p[c + 32 + 4] == l[4]);
    assert(p[c + 32 + 5] == l[5]);
    assert(p[c + 32 + 6] == l[6]);
    assert(p[c + 32 + 7] == l[7]);
    assert(p[c + 32 + 8] == l[8]);
    assert(p[c + 32 + 9] == l[9]);
}

/// The key `last_transaction`, and how its value begins.
proof fn lemma_last_key(t: RequestTexts)
    ensures
        ({
            let p = request_tokens(t);
            let c = t.merchant_at();
            let key = word("last_transaction"@);
            &&& p.len() > c + 35
            &&& p[c + 32] == Token::Text(key)
            &&& p[c + 34].spelled().len() > 0
            &&& p[c + 34].spelled()[0] == if t.last is Some { 123u8 } else { 110u8 }
            &&& is_name(key)
            &&& word("\"last_transaction\""@) == in_quotes(key)
        }),
{
    lemma_closing(t);
    lemma_closing_keys();
    lemma_words_unquoted(true);
    lemma_layout(t);
    assert(request_tokens(t)[t.merchant_at() + 32 + 2] == last_tokens(t)[2]);
}

/// The value of the key `last_transaction` is found.
proof fn lemma_last_value(body: Seq<u8>, t: RequestTexts, next: int)
    requires
        says(body, t),
        t.plain(),
        t.unmistaken(),
        terminal_from(t, next),
    ensures
        ({
            let p = request_tokens(t);
            let key_end = token_end(body, p, t.merchant_at() + 32);
            let at = token_start(body, p, t.merchant_at() + 34);
            &&& after_key(body, token_end(body, p, next), word("\"last_transaction\""@)) == Some(key_end)
            &&& value_position(body, key_end) == Some(at)
            &&& 0 <= at < body.len()
            &&& body[at] == if t.last is Some { 123u8 } else { 110u8 }
        }),
{
    let p = request_tokens(t);
    let c = t.merchant_at();
    let key = word("last_transaction"@);
    lemma_last_key(t);
    lemma_terminal_leads(body, t, next, 32, key);
    lemma_value(body, p, next, c + 32, c + 33, key);
    lemma_token_byte(body, p, c + 34, 0);
}

/// The time and the distance of an earlier transaction are read.
proof fn lemma_last_fields(body: Seq<u8>, t: RequestTexts, timestamp: Seq<u8>, km: Seq<u8>)
    requires
        says(body, t),
        t.plain(),
        t.last == Some((timestamp, km)),
        body.len() <= usize::MAX,
    ensures
        ({
            let at = token_start(body, request_tokens(t), t.merchant_at() + 34);
            &&& string_after(body, at, word("\"timestamp\""@)) matches Some(span) && reads(
                span,
                body,
                timestamp,
            )
            &&& time_of(timestamp) is Some ==> (number_after(
                body,
                at,
                word("\"km_from_current\""@),
            ) matches Some(span) && reads(span, body, km))
        }),
{
    let p = request_tokens(t);
    let c = t.merchant_at();
    let at = token_start(body, p, c + 34);
    lemma_closing_keys();
    lemma_request_regular(t);
    lemma_last_stands(t, timestamp, km);
    lemma_token(body, p, c + 34);
    lemma_token_byte(body, p, c + 34, 0);
    assert(key_leads(body, p, c + 34, c + 35, c + 36, word("timestamp"@)));
    lemma_string(body, p, c + 34, c + 35, c + 36, word("timestamp"@), timestamp);
    lemma_past_brace(body, at, word("timestamp"@));
    if time_of(timestamp) is Some {
        assert(key_leads(body, p, c + 34, c + 39, c + 40, word("km_from_current"@))) by {
            assert forall|k: int| c + 34 < k < c + 39 implies #[trigger] p[k] != Token::Text(
                word("km_from_current"@),
            ) by {
                assert(k == c + 35 || k == c + 36 || k == c + 37 || k == c + 38);
            }
        }
        lemma_number(body, p, c + 34, c + 39, c + 40, word("km_from_current"@), km);
        lemma_past_brace(body, at, word("km_from_current"@));
    }
}

/// A key is not found at a brace.
proof fn lemma_past_brace(body: Seq<u8>, at: int, key: Seq<u8>)
    requires
        0 <= at < body.len(),
        body[at] == 123,
    ensures
        after_key(body, at, in_quotes(key)) == after_key(body, at + 1, in_quotes(key)),
{
    let wanted = in_quotes(key);
    if stands_at(body, at, wanted) {
        assert(body.subrange(at, at + wanted.len())[0] == wanted[0]);
    }
    if at + wanted.len() > body.len() {
        assert(first_word(body, at + 1, wanted) is None);
    }
}

/// The earlier transaction of a body is read.
proof fn lemma_last(body: Seq<u8>, t: RequestTexts, next: int)
    requires
        says(body, t),
        t.plain(),
        t.unmistaken(),
        terminal_from(t, next),
        body.len() <= usize::MAX,
    ensures
        match t.last {
            None => last_part(body, token_end(body, request_tokens(t), next)) == Some(
                None::<(ParsedTime, Span)>,
            ),
            Some((timestamp, km)) => match time_of(timestamp) {
                None => last_part(body, token_end(body, request_tokens(t), next)) is None,
                Some(time) => last_part(body, token_end(body, request_tokens(t), next)) matches Some(
                    Some((read, span)),
                ) && read == time && reads(span, body, km),
            },
        },
{
    lemma_last_value(body, t, next);
    if let Some((timestamp, km)) = t.last {
        lemma_last_fields(body, t, timestamp, km);
    }
}

impl RequestTexts {
    /// The times can be read.
    pub open spec fn timely(self) -> bool {
        &&& time_of(self.requested_at) is Some
        &&& self.last matches Some((timestamp, _)) ==> time_of(timestamp) is Some
    }

    /// What was read from a body is what the request says.
    pub open spec fn told_by(self, f: BodyFields, body: Seq<u8>) -> bool {
        &&& f.amount.of(body) == self.amount
        &&& f.installments.of(body) == self.installments
        &&& time_of(self.requested_at) == Some(f.requested_at)
        &&& f.customer_avg.of(body) == self.customer_avg
        &&& f.tx_count.of(body) == self.tx_count
        &&& f.merchant_known == self.known_merchants.contains(self.merchant_id)
        &&& f.mcc.of(body) == self.mcc
        &&& f.merchant_avg.of(body) == self.merchant_avg
        &&& f.is_online == self.is_online
        &&& f.card_present == self.card_present
        &&& f.km_from_home.of(body) == self.km_from_home
        &&& match (f.last, self.last) {
            (Some((time, km)), Some((timestamp, distance))) => time_of(timestamp) == Some(time) && km.of(body)
                == distance,
            (None, None) => true,
            _ => false,
        }
    }
}

/// A body that says a request, whatever white space stands between its tokens, gives back the texts
/// of the request where its times can be read, and nothing where they cannot.
pub proof fn lemma_body_gives_back(body: Seq<u8>, t: RequestTexts)
    requires
        says(body, t),
        t.plain(),
        t.unmistaken(),
        body.len() <= usize::MAX,
    ensures
        body_fields(body) is Some <==> t.timely(),
        body_fields(body) matches Some(f) ==> t.told_by(f, body),
{
    lemma_transaction(body, t);
    if time_of(t.requested_at) is Some {
        if let Some((start, _, _, _)) = transaction_part(body) {
            lemma_customer(body, t, start);
            let j = lemma_merchant_key(body, t);
            lemma_merchant(body, t, j);
            let next = lemma_terminal_key(body, t, j);
            lemma_terminal(body, t, j, next);
            lemma_last(body, t, next);
        }
    }
}

/// The numbers of a request as texts.
pub struct NumberTexts {
    pub amount: Seq<u8>,
    pub installments: Seq<u8>,
    pub customer_avg: Seq<u8>,
    pub tx_count: Seq<u8>,
    pub merchant_avg: Seq<u8>,
    pub km_from_home: Seq<u8>,
    pub last_km: Seq<u8>,
}

/// The texts of a request, with its identifier and its numbers as texts.
pub open spec fn request_texts<N>(
    request: FraudRequest<'_, N>,
    id: Seq<u8>,
    numbers: NumberTexts,
) -> RequestTexts {
    RequestTexts {
        id,
        amount: numbers.amount,
        installments: numbers.installments,
        requested_at: word(request.transaction.requested_at@),
        customer_avg: numbers.customer_avg,
        tx_count: numbers.tx_count,
        known_merchants: Seq::new(
            merchants_in(request.customer.known_merchants).len(),
            |q: int| word(merchants_in(request.customer.known_merchants)[q]),
        ),
        merchant_id: word(request.merchant.id@),
        mcc: word(request.merchant.mcc@),
        merchant_avg: numbers.merchant_avg,
        is_online: request.terminal.is_online,
        card_present: request.terminal.card_present,
        km_from_home: numbers.km_from_home,
        last: match request.last_transaction {
            Some(last) => Some((word(last.timestamp@), numbers.last_km)),
            None => None,
        },
    }
}

impl NumberTexts {
    /// What is measured in a body is what is measured in the request.
    pub open spec fn told_by<N>(self, body: Measures<&[u8]>, request: Measures<N>) -> bool {
        &&& body.amount@ == self.amount
        &&& body.customer_avg@ == self.customer_avg
        &&& body.merchant_avg@ == self.merchant_avg
        &&& body.km_from_home@ == self.km_from_home
        &&& match (body.last, request.last) {
            (Some(one), Some(other)) => one.0 == other.0 && one.1@ == self.last_km,
            (None, None) => true,
            _ => false,
        }
    }

    /// The counts of a request are written in digits.
    pub open spec fn counts<N>(self, request: FraudRequest<'_, N>) -> bool {
        &&& digits_value(self.installments) == Some(request.transaction.installments as int)
        &&& digits_value(self.tx_count) == Some(request.customer.tx_count_24h as int)
    }
}

/// A merchant is among the known ones in characters if and only if it is in bytes.
pub(crate) proof fn lemma_known_in_bytes<N>(request: FraudRequest<'_, N>, id: Seq<u8>, numbers: NumberTexts)
    ensures
        request_texts(request, id, numbers).known_merchants.contains(word(request.merchant.id@))
            == request.knows_merchant(),
{
    let names = merchants_in(request.customer.known_merchants);
    let texts = request_texts(request, id, numbers).known_merchants;
    let name = request.merchant.id@;
    vstd::utf8::encode_utf8_decode_utf8(name);
    if names.contains(name) {
        let q = choose|q: int| 0 <= q < names.len() && names[q] == name;
        assert(texts[q] == word(name));
    }
    if texts.contains(word(name)) {
        let q = choose|q: int| 0 <= q < texts.len() && texts[q] == word(name);
        vstd::utf8::encode_utf8_decode_utf8(names[q]);
        assert(names[q] == name);
    }
}

/// A request and a body that says it, whatever white space stands between its tokens, are read alike:
/// both have readable times or neither has; the vectors of both take the same traits, and what is
/// measured in the body are the texts of the request's numbers and the seconds between its times.
pub proof fn lemma_body_and_request_agree<N>(
    body: Seq<u8>,
    request: FraudRequest<'_, N>,
    id: Seq<u8>,
    numbers: NumberTexts,
)
    requires
        says(body, request_texts(request, id, numbers)),
        request_texts(request, id, numbers).plain(),
        request_texts(request, id, numbers).unmistaken(),
        body.len() <= usize::MAX,
    ensures
        body_fields(body) is Some <==> request_times(request) is Some,
        body_fields(body) matches Some(fields) ==> {
            let times = request_times(request)->0;
            &&& body_traits(fields, body) == request_traits(request, times.0)
            &&& fields.installments.of(body) == numbers.installments
            &&& fields.tx_count.of(body) == numbers.tx_count
            &&& forall|m: Measures<&[u8]>| #[trigger]
                body_measures(m, fields, body) ==> numbers.told_by(m, request_measures(request, times))
        },
{
    lemma_body_gives_back(body, request_texts(request, id, numbers));
    lemma_known_in_bytes(request, id, numbers);
}

/// The texts of a body's numbers are scaled as the numbers of the request are.
pub open spec fn scales_alike<
    'a,
    N,
    F: Fn(Measures<&'a [u8]>) -> ScaledNumbers,
    G: Fn(Measures<N>) -> ScaledNumbers,
>(scale: F, scale_request: G, numbers: NumberTexts, measures: Measures<N>) -> bool {
    forall|m: Measures<&'a [u8]>, one: ScaledNumbers, other: ScaledNumbers|
        #![trigger scale.ensures((m,), one), scale_request.ensures((measures,), other)]
        scale.ensures((m,), one) && scale_request.ensures((measures,), other) && numbers.told_by(m, measures)
            ==> one == other
}

/// Where the counts are written in digits, and the texts of the other numbers are scaled as the
/// numbers are, a request and a body that says it have the same vector.
pub proof fn lemma_same_vector<
    'a,
    N,
    F: Fn(Measures<&'a [u8]>) -> ScaledNumbers,
    C: Fn(&'a [u8], u8) -> i16,
    G: Fn(Measures<N>) -> ScaledNumbers,
>(
    body: Seq<u8>,
    request: FraudRequest<'_, N>,
    id: Seq<u8>,
    numbers: NumberTexts,
    scale: F,
    scale_count: C,
    scale_request: G,
    scaled: ScaledNumbers,
    vector: Seq<i16>,
)
    requires
        says(body, request_texts(request, id, numbers)),
        request_texts(request, id, numbers).plain(),
        request_texts(request, id, numbers).unmistaken(),
        body.len() <= usize::MAX,
        numbers.counts(request),
        body_fields(body) is Some,
        scales_alike(
            scale,
            scale_request,
            numbers,
            request_measures(request, request_times(request)->0),
        ),
        may_have_vector(body, body_fields(body)->0, scale, scale_count, vector),
        scale_request.ensures((request_measures(request, request_times(request)->0),), scaled),
    ensures
        request_times(request) is Some,
        ({
            let (requested_at, _) = request_times(request)->0;
            vector == assembled(request_traits(request, requested_at), request_parts(request, scaled))
        }),
{
    lemma_body_and_request_agree(body, request, id, numbers);
}

} // verus!
