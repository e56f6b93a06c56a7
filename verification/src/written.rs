//! The tokens of a request, and its bodies.
use vstd::prelude::*;

use crate::key_values::{flag_text, lemma_decimal_bytes, list_stands, list_tokens};
use crate::scanning::word;
use crate::tokens::{in_quotes, is_name, joined, lemma_joined_spells, lemma_name_unquoted, regular,
    regular_at, spells, unquoted, Token};
use crate::vector::{in_number, is_decimal, is_space};

verus! {

/// The texts of a request.
pub struct RequestTexts {
    pub id: Seq<u8>,
    pub amount: Seq<u8>,
    pub installments: Seq<u8>,
    pub requested_at: Seq<u8>,
    pub customer_avg: Seq<u8>,
    pub tx_count: Seq<u8>,
    pub known_merchants: Seq<Seq<u8>>,
    pub merchant_id: Seq<u8>,
    pub mcc: Seq<u8>,
    pub merchant_avg: Seq<u8>,
    pub is_online: bool,
    pub card_present: bool,
    pub km_from_home: Seq<u8>,
    /// The time and the distance of the earlier transaction.
    pub last: Option<(Seq<u8>, Seq<u8>)>,
}

/// The opening of a body and its identifier.
pub open spec fn identity_tokens(t: RequestTexts) -> Seq<Token> {
    seq![Token::OpenObject, Token::Text(word("id"@)), Token::Colon, Token::Text(t.id), Token::Comma]
}

/// The transaction of a body.
pub open spec fn transaction_tokens(t: RequestTexts) -> Seq<Token> {
    seq![
        Token::Text(word("transaction"@)),
        Token::Colon,
        Token::OpenObject,
        Token::Text(word("amount"@)),
        Token::Colon,
        Token::Bare(t.amount),
        Token::Comma,
        Token::Text(word("installments"@)),
        Token::Colon,
        Token::Bare(t.installments),
        Token::Comma,
        Token::Text(word("requested_at"@)),
        Token::Colon,
        Token::Text(t.requested_at),
        Token::CloseObject,
        Token::Comma,
    ]
}

/// The customer of a body, up to the list of known merchants.
pub open spec fn customer_tokens(t: RequestTexts) -> Seq<Token> {
    seq![
        Token::Text(word("customer"@)),
        Token::Colon,
        Token::OpenObject,
        Token::Text(word("avg_amount"@)),
        Token::Colon,
        Token::Bare(t.customer_avg),
        Token::Comma,
        Token::Text(word("tx_count_24h"@)),
        Token::Colon,
        Token::Bare(t.tx_count),
        Token::Comma,
        Token::Text(word("known_merchants"@)),
        Token::Colon,
        Token::OpenList,
    ]
}

/// The known merchants, with what closes the customer.
pub open spec fn known_tokens(t: RequestTexts) -> Seq<Token> {
    list_tokens(t.known_merchants) + seq![Token::CloseList, Token::CloseObject, Token::Comma]
}

/// The merchant of a body.
pub open spec fn merchant_tokens(t: RequestTexts) -> Seq<Token> {
    seq![
        Token::Text(word("merchant"@)),
        Token::Colon,
        Token::OpenObject,
        Token::Text(word("id"@)),
        Token::Colon,
        Token::Text(t.merchant_id),
        Token::Comma,
        Token::Text(word("mcc"@)),
        Token::Colon,
        Token::Text(t.mcc),
        Token::Comma,
        Token::Text(word("avg_amount"@)),
        Token::Colon,
        Token::Bare(t.merchant_avg),
        Token::CloseObject,
        Token::Comma,
    ]
}

/// The terminal of a body.
pub open spec fn terminal_tokens(t: RequestTexts) -> Seq<Token> {
    seq![
        Token::Text(word("terminal"@)),
        Token::Colon,
        Token::OpenObject,
        Token::Text(word("is_online"@)),
        Token::Colon,
        Token::Bare(flag_text(t.is_online)),
        Token::Comma,
        Token::Text(word("card_present"@)),
        Token::Colon,
        Token::Bare(flag_text(t.card_present)),
        Token::Comma,
        Token::Text(word("km_from_home"@)),
        Token::Colon,
        Token::Bare(t.km_from_home),
        Token::CloseObject,
        Token::Comma,
    ]
}

/// The earlier transaction of a body, with what closes the body.
pub open spec fn last_tokens(t: RequestTexts) -> Seq<Token> {
    match t.last {
        Some((timestamp, km)) => seq![
            Token::Text(word("last_transaction"@)),
            Token::Colon,
            Token::OpenObject,
            Token::Text(word("timestamp"@)),
            Token::Colon,
            Token::Text(timestamp),
            Token::Comma,
            Token::Text(word("km_from_current"@)),
            Token::Colon,
            Token::Bare(km),
            Token::CloseObject,
            Token::CloseObject,
        ],
        None => seq![
            Token::Text(word("last_transaction"@)),
            Token::Colon,
            Token::Bare(word("null"@)),
            Token::CloseObject,
        ],
    }
}

/// The tokens of a request.
#[verifier::opaque]
pub open spec fn request_tokens(t: RequestTexts) -> Seq<Token> {
    identity_tokens(t) + transaction_tokens(t) + customer_tokens(t) + known_tokens(t) + merchant_tokens(t)
        + terminal_tokens(t) + last_tokens(t)
}

/// A body says a request: it is made of the request's tokens, with any white space between them.
pub open spec fn says(body: Seq<u8>, t: RequestTexts) -> bool {
    spells(body, request_tokens(t))
}

/// A key: its length, its first byte, and nothing but letters, digits and underscores.
pub(crate) open spec fn is_key(key: Seq<u8>, len: int, first: u8) -> bool {
    &&& key.len() == len
    &&& key[0] == first
    &&& is_name(key)
}

/// A key and its quoted form in characters are the same in bytes.
pub(crate) proof fn lemma_key_chars(chars: Seq<char>, quoted_chars: Seq<char>)
    requires
        chars.len() > 0,
        forall|k: int|
            0 <= k < chars.len() ==> '0' <= #[trigger] chars[k] <= '9' || '_' <= chars[k] <= 'z',
        quoted_chars =~= seq!['"'] + chars + seq!['"'],
    ensures
        word(chars).len() == chars.len(),
        word(chars)[0] == chars[0] as u8,
        is_name(word(chars)),
        word(quoted_chars) == in_quotes(word(chars)),
{
    reveal(is_name);
    vstd::utf8::is_ascii_chars_encode_utf8(chars);
    assert forall|k: int| 0 <= k < quoted_chars.len() implies '\0' <= #[trigger] quoted_chars[k]
        <= '\u{7f}' by {
        if 0 < k < quoted_chars.len() - 1 {
            assert(quoted_chars[k] == chars[k - 1]);
        }
    }
    vstd::utf8::is_ascii_chars_encode_utf8(quoted_chars);
    assert forall|k: int| 0 <= k < quoted_chars.len() implies word(quoted_chars)[k] == in_quotes(
        word(chars),
    )[k] by {
        if 0 < k < quoted_chars.len() - 1 {
            assert(quoted_chars[k] == chars[k - 1]);
        }
    }
    assert(word(quoted_chars) =~= in_quotes(word(chars)));
    assert forall|k: int| 0 <= k < word(chars).len() implies 48 <= #[trigger] word(chars)[k] <= 57 || 95
        <= word(chars)[k] <= 122 by {
        assert(word(chars)[k] == chars[k] as u8);
    }
}

/// The keys of a transaction.
proof fn lemma_transaction_keys()
    ensures
        is_key(word("transaction"@), 11, 116),
        word("\"transaction\""@) == in_quotes(word("transaction"@)),
        is_key(word("amount"@), 6, 97),
        word("\"amount\""@) == in_quotes(word("amount"@)),
        is_key(word("installments"@), 12, 105),
        word("\"installments\""@) == in_quotes(word("installments"@)),
        is_key(word("requested_at"@), 12, 114),
        word("\"requested_at\""@) == in_quotes(word("requested_at"@)),
{
    assert(is_key(word("transaction"@), 11, 116) && word("\"transaction\""@) == in_quotes(
        word("transaction"@),
    )) by {
        reveal_strlit("transaction");
        reveal_strlit("\"transaction\"");
        lemma_key_chars("transaction"@, "\"transaction\""@);
    }
    assert(is_key(word("amount"@), 6, 97) && word("\"amount\""@) == in_quotes(
        word("amount"@),
    )) by {
        reveal_strlit("amount");
        reveal_strlit("\"amount\"");
        lemma_key_chars("amount"@, "\"amount\""@);
    }
    assert(is_key(word("installments"@), 12, 105) && word("\"installments\""@) == in_quotes(
        word("installments"@),
    )) by {
        reveal_strlit("installments");
        reveal_strlit("\"installments\"");
        lemma_key_chars("installments"@, "\"installments\""@);
    }
    assert(is_key(word("requested_at"@), 12, 114) && word("\"requested_at\""@) == in_quotes(
        word("requested_at"@),
    )) by {
        reveal_strlit("requested_at");
        reveal_strlit("\"requested_at\"");
        lemma_key_chars("requested_at"@, "\"requested_at\""@);
    }
}

/// The keys of a customer.
proof fn lemma_customer_keys()
    ensures
        is_key(word("customer"@), 8, 99),
        word("\"customer\""@) == in_quotes(word("customer"@)),
        is_key(word("avg_amount"@), 10, 97),
        word("\"avg_amount\""@) == in_quotes(word("avg_amount"@)),
        is_key(word("tx_count_24h"@), 12, 116),
        word("\"tx_count_24h\""@) == in_quotes(word("tx_count_24h"@)),
        is_key(word("known_merchants"@), 15, 107),
        word("\"known_merchants\""@) == in_quotes(word("known_merchants"@)),
{
    assert(is_key(word("customer"@), 8, 99) && word("\"customer\""@) == in_quotes(
        word("customer"@),
    )) by {
        reveal_strlit("customer");
        reveal_strlit("\"customer\"");
        lemma_key_chars("customer"@, "\"customer\""@);
    }
    assert(is_key(word("avg_amount"@), 10, 97) && word("\"avg_amount\""@) == in_quotes(
        word("avg_amount"@),
    )) by {
        reveal_strlit("avg_amount");
        reveal_strlit("\"avg_amount\"");
        lemma_key_chars("avg_amount"@, "\"avg_amount\""@);
    }
    assert(is_key(word("tx_count_24h"@), 12, 116) && word("\"tx_count_24h\""@) == in_quotes(
        word("tx_count_24h"@),
    )) by {
        reveal_strlit("tx_count_24h");
        reveal_strlit("\"tx_count_24h\"");
        lemma_key_chars("tx_count_24h"@, "\"tx_count_24h\""@);
    }
    assert(is_key(word("known_merchants"@), 15, 107) && word("\"known_merchants\""@) == in_quotes(
        word("known_merchants"@),
    )) by {
        reveal_strlit("known_merchants");
        reveal_strlit("\"known_merchants\"");
        lemma_key_chars("known_merchants"@, "\"known_merchants\""@);
    }
}

/// The keys of a merchant.
proof fn lemma_merchant_keys()
    ensures
        is_key(word("id"@), 2, 105),
        word("\"id\""@) == in_quotes(word("id"@)),
        is_key(word("merchant"@), 8, 109),
        word("\"merchant\""@) == in_quotes(word("merchant"@)),
        is_key(word("mcc"@), 3, 109),
        word("\"mcc\""@) == in_quotes(word("mcc"@)),
{
    assert(is_key(word("id"@), 2, 105) && word("\"id\""@) == in_quotes(
        word("id"@),
    )) by {
        reveal_strlit("id");
        reveal_strlit("\"id\"");
        lemma_key_chars("id"@, "\"id\""@);
    }
    assert(is_key(word("merchant"@), 8, 109) && word("\"merchant\""@) == in_quotes(
        word("merchant"@),
    )) by {
        reveal_strlit("merchant");
        reveal_strlit("\"merchant\"");
        lemma_key_chars("merchant"@, "\"merchant\""@);
    }
    assert(is_key(word("mcc"@), 3, 109) && word("\"mcc\""@) == in_quotes(
        word("mcc"@),
    )) by {
        reveal_strlit("mcc");
        reveal_strlit("\"mcc\"");
        lemma_key_chars("mcc"@, "\"mcc\""@);
    }
}

/// The keys of a terminal.
proof fn lemma_terminal_keys()
    ensures
        is_key(word("terminal"@), 8, 116),
        word("\"terminal\""@) == in_quotes(word("terminal"@)),
        is_key(word("is_online"@), 9, 105),
        word("\"is_online\""@) == in_quotes(word("is_online"@)),
        is_key(word("card_present"@), 12, 99),
        word("\"card_present\""@) == in_quotes(word("card_present"@)),
        is_key(word("km_from_home"@), 12, 107),
        word("\"km_from_home\""@) == in_quotes(word("km_from_home"@)),
{
    assert(is_key(word("terminal"@), 8, 116) && word("\"terminal\""@) == in_quotes(
        word("terminal"@),
    )) by {
        reveal_strlit("terminal");
        reveal_strlit("\"terminal\"");
        lemma_key_chars("terminal"@, "\"terminal\""@);
    }
    assert(is_key(word("is_online"@), 9, 105) && word("\"is_online\""@) == in_quotes(
        word("is_online"@),
    )) by {
        reveal_strlit("is_online");
        reveal_strlit("\"is_online\"");
        lemma_key_chars("is_online"@, "\"is_online\""@);
    }
    assert(is_key(word("card_present"@), 12, 99) && word("\"card_present\""@) == in_quotes(
        word("card_present"@),
    )) by {
        reveal_strlit("card_present");
        reveal_strlit("\"card_present\"");
        lemma_key_chars("card_present"@, "\"card_present\""@);
    }
    assert(is_key(word("km_from_home"@), 12, 107) && word("\"km_from_home\""@) == in_quotes(
        word("km_from_home"@),
    )) by {
        reveal_strlit("km_from_home");
        reveal_strlit("\"km_from_home\"");
        lemma_key_chars("km_from_home"@, "\"km_from_home\""@);
    }
}

/// The keys of an earlier transaction.
proof fn lemma_last_keys()
    ensures
        is_key(word("last_transaction"@), 16, 108),
        word("\"last_transaction\""@) == in_quotes(word("last_transaction"@)),
        is_key(word("timestamp"@), 9, 116),
        word("\"timestamp\""@) == in_quotes(word("timestamp"@)),
        is_key(word("km_from_current"@), 15, 107),
        word("\"km_from_current\""@) == in_quotes(word("km_from_current"@)),
{
    assert(is_key(word("last_transaction"@), 16, 108) && word("\"last_transaction\""@) == in_quotes(
        word("last_transaction"@),
    )) by {
        reveal_strlit("last_transaction");
        reveal_strlit("\"last_transaction\"");
        lemma_key_chars("last_transaction"@, "\"last_transaction\""@);
    }
    assert(is_key(word("timestamp"@), 9, 116) && word("\"timestamp\""@) == in_quotes(
        word("timestamp"@),
    )) by {
        reveal_strlit("timestamp");
        reveal_strlit("\"timestamp\"");
        lemma_key_chars("timestamp"@, "\"timestamp\""@);
    }
    assert(is_key(word("km_from_current"@), 15, 107) && word("\"km_from_current\""@) == in_quotes(
        word("km_from_current"@),
    )) by {
        reveal_strlit("km_from_current");
        reveal_strlit("\"km_from_current\"");
        lemma_key_chars("km_from_current"@, "\"km_from_current\""@);
    }
}

/// The keys of a transaction and its customer, and `id`.
pub(crate) proof fn lemma_opening_keys()
    ensures
        is_key(word("id"@), 2, 105),
        word("\"id\""@) == in_quotes(word("id"@)),
        is_key(word("transaction"@), 11, 116),
        word("\"transaction\""@) == in_quotes(word("transaction"@)),
        is_key(word("amount"@), 6, 97),
        word("\"amount\""@) == in_quotes(word("amount"@)),
        is_key(word("installments"@), 12, 105),
        word("\"installments\""@) == in_quotes(word("installments"@)),
        is_key(word("requested_at"@), 12, 114),
        word("\"requested_at\""@) == in_quotes(word("requested_at"@)),
        is_key(word("customer"@), 8, 99),
        word("\"customer\""@) == in_quotes(word("customer"@)),
        is_key(word("avg_amount"@), 10, 97),
        word("\"avg_amount\""@) == in_quotes(word("avg_amount"@)),
        is_key(word("tx_count_24h"@), 12, 116),
        word("\"tx_count_24h\""@) == in_quotes(word("tx_count_24h"@)),
        is_key(word("known_merchants"@), 15, 107),
        word("\"known_merchants\""@) == in_quotes(word("known_merchants"@)),
{
    lemma_transaction_keys();
    lemma_customer_keys();
    lemma_merchant_keys();
}

/// The keys of a merchant, but for `id`, of a terminal and of an earlier transaction.
pub(crate) proof fn lemma_closing_keys()
    ensures
        is_key(word("merchant"@), 8, 109),
        word("\"merchant\""@) == in_quotes(word("merchant"@)),
        is_key(word("mcc"@), 3, 109),
        word("\"mcc\""@) == in_quotes(word("mcc"@)),
        is_key(word("terminal"@), 8, 116),
        word("\"terminal\""@) == in_quotes(word("terminal"@)),
        is_key(word("is_online"@), 9, 105),
        word("\"is_online\""@) == in_quotes(word("is_online"@)),
        is_key(word("card_present"@), 12, 99),
        word("\"card_present\""@) == in_quotes(word("card_present"@)),
        is_key(word("km_from_home"@), 12, 107),
        word("\"km_from_home\""@) == in_quotes(word("km_from_home"@)),
        is_key(word("last_transaction"@), 16, 108),
        word("\"last_transaction\""@) == in_quotes(word("last_transaction"@)),
        is_key(word("timestamp"@), 9, 116),
        word("\"timestamp\""@) == in_quotes(word("timestamp"@)),
        is_key(word("km_from_current"@), 15, 107),
        word("\"km_from_current\""@) == in_quotes(word("km_from_current"@)),
{
    lemma_merchant_keys();
    lemma_terminal_keys();
    lemma_last_keys();
}

impl RequestTexts {
    /// No text holds a quotation mark, no name of a known merchant a bracket, and the numbers are
    /// decimals.
    pub open spec fn plain(self) -> bool {
        &&& unquoted(self.id)
        &&& unquoted(self.requested_at)
        &&& forall|q: int|
            0 <= q < self.known_merchants.len() ==> unquoted(#[trigger] self.known_merchants[q])
                && !self.known_merchants[q].contains(93u8)
        &&& unquoted(self.merchant_id)
        &&& unquoted(self.mcc)
        &&& is_decimal(self.amount)
        &&& is_decimal(self.installments)
        &&& is_decimal(self.customer_avg)
        &&& is_decimal(self.tx_count)
        &&& is_decimal(self.merchant_avg)
        &&& is_decimal(self.km_from_home)
        &&& self.last matches Some((timestamp, km)) ==> unquoted(timestamp) && is_decimal(km)
    }

    /// No name is taken for a key: a known merchant that follows one named `merchant` is named like
    /// none of the keys that are looked for behind that key, the merchant is not named `avg_amount`,
    /// and if it is named `terminal`, its category is none of the keys that are looked for behind that.
    pub open spec fn unmistaken(self) -> bool {
        &&& forall|i: int, k: int|
            0 <= i < k < self.known_merchants.len() && #[trigger] self.known_merchants[i] == word(
                "merchant"@,
            ) ==> {
                let name = #[trigger] self.known_merchants[k];
                name != word("id"@) && name != word("mcc"@) && name != word("avg_amount"@) && name != word(
                    "terminal"@,
                )
            }
        &&& self.merchant_id != word("avg_amount"@)
        &&& self.merchant_id == word("terminal"@) ==> {
            &&& self.mcc != word("is_online"@)
            &&& self.mcc != word("card_present"@)
            &&& self.mcc != word("km_from_home"@)
            &&& self.mcc != word("last_transaction"@)
        }
    }

    /// Where the tokens of the merchant begin.
    pub open spec fn merchant_at(self) -> int {
        38 + list_tokens(self.known_merchants).len() as int
    }
}

/// Where the tokens of a request stand.
pub(crate) proof fn lemma_layout(t: RequestTexts)
    ensures
        ({
            let p = request_tokens(t);
            let c = t.merchant_at();
            &&& p.len() == c + 32 + last_tokens(t).len()
            &&& forall|k: int| 0 <= k < 5 ==> #[trigger] p[k] == identity_tokens(t)[k]
            &&& forall|k: int| 0 <= k < 16 ==> #[trigger] p[5 + k] == transaction_tokens(t)[k]
            &&& forall|k: int| 0 <= k < 14 ==> #[trigger] p[21 + k] == customer_tokens(t)[k]
            &&& list_stands(p, 34, t.known_merchants)
            &&& p[c - 2] is CloseObject
            &&& p[c - 1] is Comma
            &&& forall|k: int| 0 <= k < 16 ==> #[trigger] p[c + k] == merchant_tokens(t)[k]
            &&& forall|k: int| 0 <= k < 16 ==> #[trigger] p[c + 16 + k] == terminal_tokens(t)[k]
            &&& forall|k: int| 0 <= k < last_tokens(t).len() ==> #[trigger] p[c + 32 + k] == last_tokens(t)[k]
        }),
{
    reveal(request_tokens);
    let p = request_tokens(t);
    let n = list_tokens(t.known_merchants).len() as int;
    assert(identity_tokens(t).len() == 5);
    assert(transaction_tokens(t).len() == 16);
    assert(customer_tokens(t).len() == 14);
    assert(known_tokens(t).len() == n + 3);
    assert(merchant_tokens(t).len() == 16);
    assert(terminal_tokens(t).len() == 16);
    assert(customer_tokens(t)[13] is OpenList);
    assert(p[34] == customer_tokens(t)[13]);
    assert forall|k: int| 0 <= k < n implies #[trigger] p[34 + 1 + k] == list_tokens(t.known_merchants)[k] by {
        assert(p[35 + k] == known_tokens(t)[k]);
    }
    assert(p[35 + n] == known_tokens(t)[n]);
    assert(p[36 + n] == known_tokens(t)[n + 1]);
    assert(p[37 + n] == known_tokens(t)[n + 2]);
}

/// No key holds a quotation mark.
proof fn lemma_keys_unquoted()
    ensures
        unquoted(word("id"@)),
        unquoted(word("transaction"@)),
        unquoted(word("amount"@)),
        unquoted(word("installments"@)),
        unquoted(word("requested_at"@)),
        unquoted(word("customer"@)),
        unquoted(word("avg_amount"@)),
        unquoted(word("tx_count_24h"@)),
        unquoted(word("known_merchants"@)),
        unquoted(word("merchant"@)),
        unquoted(word("mcc"@)),
        unquoted(word("terminal"@)),
        unquoted(word("is_online"@)),
        unquoted(word("card_present"@)),
        unquoted(word("km_from_home"@)),
        unquoted(word("last_transaction"@)),
        unquoted(word("timestamp"@)),
        unquoted(word("km_from_current"@)),
{
    lemma_opening_keys();
    lemma_closing_keys();
    lemma_name_unquoted(word("id"@));
    lemma_name_unquoted(word("transaction"@));
    lemma_name_unquoted(word("amount"@));
    lemma_name_unquoted(word("installments"@));
    lemma_name_unquoted(word("requested_at"@));
    lemma_name_unquoted(word("customer"@));
    lemma_name_unquoted(word("avg_amount"@));
    lemma_name_unquoted(word("tx_count_24h"@));
    lemma_name_unquoted(word("known_merchants"@));
    lemma_name_unquoted(word("merchant"@));
    lemma_name_unquoted(word("mcc"@));
    lemma_name_unquoted(word("terminal"@));
    lemma_name_unquoted(word("is_online"@));
    lemma_name_unquoted(word("card_present"@));
    lemma_name_unquoted(word("km_from_home"@));
    lemma_name_unquoted(word("last_transaction"@));
    lemma_name_unquoted(word("timestamp"@));
    lemma_name_unquoted(word("km_from_current"@));
}

/// No truth value holds a quotation mark, and neither does `null`.
pub(crate) proof fn lemma_words_unquoted(flag: bool)
    ensures
        flag_text(flag).len() > 0,
        unquoted(flag_text(flag)),
        word("null"@).len() > 0,
        word("null"@)[0] == 110,
        unquoted(word("null"@)),
{
    reveal(unquoted);
    reveal_strlit("true");
    reveal_strlit("false");
    reveal_strlit("null");
    vstd::utf8::is_ascii_chars_encode_utf8("true"@);
    vstd::utf8::is_ascii_chars_encode_utf8("false"@);
    vstd::utf8::is_ascii_chars_encode_utf8("null"@);
}

/// No decimal holds a quotation mark.
proof fn lemma_decimal_unquoted(value: Seq<u8>)
    requires
        is_decimal(value),
    ensures
        value.len() > 0,
        unquoted(value),
{
    lemma_decimal_bytes(value);
}

/// What follows regular tokens does not change them.
proof fn lemma_both_regular(first: Seq<Token>, second: Seq<Token>)
    requires
        regular(first),
        regular(second),
    ensures
        regular(first + second),
{
    let both = first + second;
    assert forall|i: int| 0 <= i < both.len() implies regular_at(both, i) by {
        reveal(regular_at);
        if i < first.len() {
            assert(regular_at(first, i));
        } else {
            assert(regular_at(second, i - first.len()));
        }
    }
}

/// The identifier and the transaction are regular.
proof fn lemma_opening_regular(t: RequestTexts)
    requires
        t.plain(),
    ensures
        regular(identity_tokens(t)),
        regular(transaction_tokens(t)),
{
    lemma_keys_unquoted();
    lemma_decimal_unquoted(t.amount);
    lemma_decimal_unquoted(t.installments);
    let p = identity_tokens(t);
    assert forall|i: int| 0 <= i < p.len() implies regular_at(p, i) by {
        reveal(regular_at);
    }
    let q = transaction_tokens(t);
    assert forall|i: int| 0 <= i < q.len() implies regular_at(q, i) by {
        reveal(regular_at);
    }
}

/// The customer is regular.
proof fn lemma_customer_regular(t: RequestTexts)
    requires
        t.plain(),
    ensures
        regular(customer_tokens(t)),
        regular(known_tokens(t)),
{
    lemma_keys_unquoted();
    lemma_decimal_unquoted(t.customer_avg);
    lemma_decimal_unquoted(t.tx_count);
    let p = customer_tokens(t);
    assert forall|i: int| 0 <= i < p.len() implies regular_at(p, i) by {
        reveal(regular_at);
    }
    let q = known_tokens(t);
    let list = list_tokens(t.known_merchants);
    assert forall|i: int| 0 <= i < q.len() implies regular_at(q, i) by {
        reveal(regular_at);
        if i < list.len() && i % 2 == 0 {
            assert(unquoted(t.known_merchants[i / 2]));
            if i + 1 < list.len() {
                assert((i + 1) % 2 == 1);
                assert(q[i + 1] == list[i + 1]);
            } else {
                assert(q[i + 1] is CloseList);
            }
        }
    }
}

/// The merchant is regular.
proof fn lemma_merchant_regular(t: RequestTexts)
    requires
        t.plain(),
    ensures
        regular(merchant_tokens(t)),
{
    lemma_keys_unquoted();
    lemma_decimal_unquoted(t.merchant_avg);
    let p = merchant_tokens(t);
    assert forall|i: int| 0 <= i < p.len() implies regular_at(p, i) by {
        reveal(regular_at);
    }
}

/// The terminal is regular.
proof fn lemma_terminal_regular(t: RequestTexts)
    requires
        t.plain(),
    ensures
        regular(terminal_tokens(t)),
{
    lemma_keys_unquoted();
    lemma_words_unquoted(t.is_online);
    lemma_words_unquoted(t.card_present);
    lemma_decimal_unquoted(t.km_from_home);
    let p = terminal_tokens(t);
    assert forall|i: int| 0 <= i < p.len() implies regular_at(p, i) by {
        reveal(regular_at);
    }
}

/// A missing earlier transaction is regular.
proof fn lemma_no_last_regular(t: RequestTexts)
    requires
        t.last is None,
    ensures
        regular(last_tokens(t)),
{
    lemma_keys_unquoted();
    lemma_words_unquoted(true);
    let p = last_tokens(t);
    assert forall|i: int| 0 <= i < p.len() implies regular_at(p, i) by {
        reveal(regular_at);
    }
}

/// An earlier transaction is regular.
proof fn lemma_some_last_regular(t: RequestTexts, timestamp: Seq<u8>, km: Seq<u8>)
    requires
        t.last == Some((timestamp, km)),
        unquoted(timestamp),
        is_decimal(km),
    ensures
        regular(last_tokens(t)),
{
    lemma_keys_unquoted();
    lemma_decimal_unquoted(km);
    let p = last_tokens(t);
    assert(p.len() == 12);
    assert forall|i: int| 0 <= i < p.len() implies regular_at(p, i) by {
        reveal(regular_at);
    }
}

/// The earlier transaction is regular.
proof fn lemma_last_regular(t: RequestTexts)
    requires
        t.plain(),
    ensures
        regular(last_tokens(t)),
{
    match t.last {
        Some((timestamp, km)) => {
            lemma_some_last_regular(t, timestamp, km);
        },
        None => {
            lemma_no_last_regular(t);
        },
    }
}

/// The tokens of a request are regular.
pub(crate) proof fn lemma_request_regular(t: RequestTexts)
    requires
        t.plain(),
    ensures
        regular(request_tokens(t)),
{
    reveal(request_tokens);
    lemma_opening_regular(t);
    lemma_customer_regular(t);
    lemma_merchant_regular(t);
    lemma_terminal_regular(t);
    lemma_last_regular(t);
    let a = identity_tokens(t) + transaction_tokens(t);
    let b = a + customer_tokens(t);
    let c = b + known_tokens(t);
    let d = c + merchant_tokens(t);
    lemma_both_regular(identity_tokens(t), transaction_tokens(t));
    lemma_both_regular(a, customer_tokens(t));
    lemma_both_regular(b, known_tokens(t));
    lemma_both_regular(c, merchant_tokens(t));
    lemma_both_regular(d, terminal_tokens(t));
    lemma_both_regular(d + terminal_tokens(t), last_tokens(t));
}

/// No decimal begins with white space.
proof fn lemma_decimal_start(value: Seq<u8>)
    requires
        is_decimal(value),
    ensures
        value.len() > 0,
        !is_space(value[0]),
{
    lemma_decimal_bytes(value);
    assert(in_number(value[0]));
}

/// A token is a mark or a string, or what is spelled begins with no white space.
spec fn begins(token: Token) -> bool {
    token matches Token::Bare(text) ==> text.len() > 0 && !is_space(text[0])
}

/// No truth value begins with white space, and neither does `null`.
proof fn lemma_words_start(flag: bool)
    ensures
        flag_text(flag).len() > 0,
        !is_space(flag_text(flag)[0]),
        word("null"@).len() > 0,
        !is_space(word("null"@)[0]),
{
    reveal_strlit("true");
    reveal_strlit("false");
    lemma_words_unquoted(flag);
    vstd::utf8::is_ascii_chars_encode_utf8("true"@);
    vstd::utf8::is_ascii_chars_encode_utf8("false"@);
}

/// No token up to the merchant begins with white space.
proof fn lemma_opening_begins(t: RequestTexts, k: int)
    requires
        t.plain(),
        0 <= k < t.merchant_at(),
    ensures
        begins(request_tokens(t)[k]),
{
    let p = request_tokens(t);
    lemma_decimal_start(t.amount);
    lemma_decimal_start(t.installments);
    lemma_decimal_start(t.customer_avg);
    lemma_decimal_start(t.tx_count);
    lemma_layout(t);
    if k < 5 {
        assert(p[k] == identity_tokens(t)[k]);
    } else if k < 21 {
        assert(p[5 + (k - 5)] == transaction_tokens(t)[k - 5]);
    } else if k < 35 {
        assert(p[21 + (k - 21)] == customer_tokens(t)[k - 21]);
    } else if k < t.merchant_at() - 3 {
        assert(p[34 + 1 + (k - 35)] == list_tokens(t.known_merchants)[k - 35]);
    }
}

/// No token from the merchant on begins with white space.
proof fn lemma_closing_begins(t: RequestTexts, k: int)
    requires
        t.plain(),
        t.merchant_at() <= k < request_tokens(t).len(),
    ensures
        begins(request_tokens(t)[k]),
{
    let p = request_tokens(t);
    let c = t.merchant_at();
    lemma_decimal_start(t.merchant_avg);
    lemma_decimal_start(t.km_from_home);
    lemma_words_start(t.is_online);
    lemma_words_start(t.card_present);
    lemma_layout(t);
    if k < c + 16 {
        assert(p[c + (k - c)] == merchant_tokens(t)[k - c]);
    } else if k < c + 32 {
        assert(p[c + 16 + (k - c - 16)] == terminal_tokens(t)[k - c - 16]);
    } else {
        if let Some((_, km)) = t.last {
            lemma_decimal_start(km);
        }
        assert(p[c + 32 + (k - c - 32)] == last_tokens(t)[k - c - 32]);
    }
}

/// The tokens of a request one after another, without white space, are a body that says it.
pub proof fn lemma_compact_body_says(t: RequestTexts)
    requires
        t.plain(),
    ensures
        says(joined(request_tokens(t)), t),
{
    let p = request_tokens(t);
    assert forall|k: int| 0 <= k < p.len() implies (#[trigger] p[k]).spelled().len() > 0 && !is_space(
        p[k].spelled()[0],
    ) by {
        if k < t.merchant_at() {
            lemma_opening_begins(t, k);
        } else {
            lemma_closing_begins(t, k);
        }
    }
    lemma_joined_spells(p);
}

} // verus!
