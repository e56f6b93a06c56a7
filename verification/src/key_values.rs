//! Values behind keys in a text made of tokens.
use vstd::prelude::*;

use crate::scanning::{first_byte, stands_at, word};
use crate::tokens::{in_quotes, is_name, lemma_byte_after, lemma_find, lemma_find_byte, lemma_pass_bytes,
    lemma_token, lemma_token_byte, lemma_tokens_follow, regular, regular_at, spells, token_end, token_start,
    unquoted, Token};
use crate::vector::{after_key, array_after, bool_after, byte_count, digit_count, in_number, is_decimal,
    is_space, number_after, number_end, quotes, string_after, value_position};

verus! {

/// Behind a token, a key is first said by another one, and the first colon behind that stands by
/// itself.
pub open spec fn key_leads(
    text: Seq<u8>,
    tokens: Seq<Token>,
    j: int,
    i: int,
    colon: int,
    key: Seq<u8>,
) -> bool {
    &&& spells(text, tokens)
    &&& regular(tokens)
    &&& is_name(key)
    &&& -1 <= j < i < colon
    &&& colon + 1 < tokens.len()
    &&& tokens[i] == Token::Text(key)
    &&& forall|k: int| j < k < i ==> #[trigger] tokens[k] != Token::Text(key)
    &&& tokens[colon] is Colon
    &&& forall|k: int| i < k < colon ==> !(#[trigger] tokens[k]).spelled().contains(58u8)
}

/// Where the value of a key is found.
pub proof fn lemma_value(text: Seq<u8>, tokens: Seq<Token>, j: int, i: int, colon: int, key: Seq<u8>)
    requires
        key_leads(text, tokens, j, i, colon, key),
    ensures
        after_key(text, token_end(text, tokens, j), in_quotes(key)) == Some(token_end(text, tokens, i)),
        value_position(text, token_end(text, tokens, i)) == Some(token_start(text, tokens, colon + 1)),
{
    lemma_find(text, tokens, j, i, key);
    lemma_token(text, tokens, i);
    lemma_find_byte(text, tokens, i, colon, 58);
    lemma_token(text, tokens, colon);
}

/// Every byte that is no sign, point or digit is missing from the counts.
proof fn lemma_counted(text: Seq<u8>)
    ensures
        0 <= digit_count(text),
        0 <= byte_count(text, 45),
        0 <= byte_count(text, 46),
        byte_count(text, 45) + byte_count(text, 46) + digit_count(text) <= text.len(),
        byte_count(text, 45) + byte_count(text, 46) + digit_count(text) == text.len() ==> forall|k: int|
            0 <= k < text.len() ==> in_number(#[trigger] text[k]),
    decreases text.len(),
{
    if text.len() > 0 {
        let fewer = text.drop_last();
        lemma_counted(fewer);
        assert forall|k: int|
            byte_count(text, 45) + byte_count(text, 46) + digit_count(text) == text.len() && 0 <= k
                < text.len() implies in_number(#[trigger] text[k]) by {
            if k < fewer.len() {
                assert(fewer[k] == text[k]);
            }
        }
    }
}

/// A decimal number holds nothing but signs, points and digits.
pub proof fn lemma_decimal_bytes(text: Seq<u8>)
    requires
        is_decimal(text),
    ensures
        text.len() > 0,
        unquoted(text),
        forall|k: int| 0 <= k < text.len() ==> in_number(#[trigger] text[k]),
{
    reveal(unquoted);
    lemma_counted(text);
}

/// A number ends where its bytes end.
proof fn lemma_number_end(text: Seq<u8>, at: int, end: int)
    requires
        0 <= at <= end < text.len(),
        forall|k: int| at <= k < end ==> in_number(#[trigger] text[k]),
        !in_number(text[end]),
    ensures
        number_end(text, at) == end,
    decreases end - at,
{
    if at < end {
        lemma_number_end(text, at + 1, end);
    }
}

/// The number behind a key is read.
pub proof fn lemma_number(
    text: Seq<u8>,
    tokens: Seq<Token>,
    j: int,
    i: int,
    colon: int,
    key: Seq<u8>,
    number: Seq<u8>,
)
    requires
        key_leads(text, tokens, j, i, colon, key),
        tokens[colon + 1] == Token::Bare(number),
        is_decimal(number),
        text.len() <= usize::MAX,
    ensures
        number_after(text, token_end(text, tokens, j), in_quotes(key)) matches Some(span) && span.within(text)
            && span.of(text) == number,
{
    let value = colon + 1;
    let at = token_start(text, tokens, value);
    let end = token_end(text, tokens, value);
    lemma_value(text, tokens, j, i, colon, key);
    lemma_decimal_bytes(number);
    lemma_token(text, tokens, value);
    assert(regular_at(tokens, value));
    reveal(regular_at);
    lemma_byte_after(text, tokens, value);
    assert forall|k: int| at <= k < end implies in_number(#[trigger] text[k]) by {
        lemma_token_byte(text, tokens, value, k - at);
        assert(in_number(number[k - at]));
    }
    lemma_number_end(text, at, end);
}

/// The string behind a key is read.
pub proof fn lemma_string(
    text: Seq<u8>,
    tokens: Seq<Token>,
    j: int,
    i: int,
    colon: int,
    key: Seq<u8>,
    value: Seq<u8>,
)
    requires
        key_leads(text, tokens, j, i, colon, key),
        tokens[colon + 1] == Token::Text(value),
        text.len() <= usize::MAX,
    ensures
        string_after(text, token_end(text, tokens, j), in_quotes(key)) matches Some(span) && span.within(text)
            && span.of(text) == value,
{
    let at = token_start(text, tokens, colon + 1);
    let end = token_end(text, tokens, colon + 1);
    let spelled = in_quotes(value);
    lemma_value(text, tokens, j, i, colon, key);
    lemma_token(text, tokens, colon + 1);
    assert(regular_at(tokens, colon + 1));
    reveal(regular_at);
    reveal(unquoted);
    assert forall|k: int| at <= k < end implies #[trigger] text[k] == spelled[k - at] by {
        lemma_token_byte(text, tokens, colon + 1, k - at);
    }
    assert forall|k: int| at + 1 <= k < end - 1 implies text[k] != 34 by {
        assert(spelled[k - at] == value[k - at - 1]);
    }
    lemma_pass_bytes(text, at + 1, end - 1, 34);
    assert(text.subrange(at + 1, end - 1) =~= value);
}

/// A truth value.
pub open spec fn flag_text(flag: bool) -> Seq<u8> {
    if flag { word("true"@) } else { word("false"@) }
}

/// The truth value behind a key is read.
pub proof fn lemma_flag(
    text: Seq<u8>,
    tokens: Seq<Token>,
    j: int,
    i: int,
    colon: int,
    key: Seq<u8>,
    flag: bool,
)
    requires
        key_leads(text, tokens, j, i, colon, key),
        tokens[colon + 1] == Token::Bare(flag_text(flag)),
    ensures
        bool_after(text, token_end(text, tokens, j), in_quotes(key)) == Some(flag),
{
    let at = token_start(text, tokens, colon + 1);
    let value = flag_text(flag);
    reveal_strlit("true");
    reveal_strlit("false");
    vstd::utf8::is_ascii_chars_encode_utf8("true"@);
    vstd::utf8::is_ascii_chars_encode_utf8("false"@);
    lemma_value(text, tokens, j, i, colon, key);
    lemma_token(text, tokens, colon + 1);
    lemma_token_byte(text, tokens, colon + 1, 0);
    if !flag && stands_at(text, at, word("true"@)) {
        assert(text.subrange(at, at + word("true"@).len())[0] == word("true"@)[0]);
    }
}

/// The tokens of names with commas between them.
pub open spec fn list_tokens(names: Seq<Seq<u8>>) -> Seq<Token> {
    Seq::new(
        if names.len() == 0 { 0 } else { (2 * names.len() - 1) as nat },
        |k: int| if k % 2 == 0 { Token::Text(names[k / 2]) } else { Token::Comma },
    )
}

/// A list of names stands among tokens, from its opening bracket on.
pub open spec fn list_stands(tokens: Seq<Token>, open: int, names: Seq<Seq<u8>>) -> bool {
    let n = list_tokens(names).len();
    &&& 0 <= open
    &&& open + n + 1 < tokens.len()
    &&& tokens[open] is OpenList
    &&& forall|k: int| 0 <= k < n ==> #[trigger] tokens[open + 1 + k] == list_tokens(names)[k]
    &&& tokens[open + 1 + n] is CloseList
}

/// A name of a list and what stands before it.
pub proof fn lemma_listed(tokens: Seq<Token>, open: int, names: Seq<Seq<u8>>, m: int)
    requires
        list_stands(tokens, open, names),
        0 <= m < names.len(),
    ensures
        tokens[open + 1 + 2 * m] == Token::Text(names[m]),
        0 < m ==> tokens[open + 2 * m] is Comma,
        open + 1 + 2 * m < open + 1 + list_tokens(names).len(),
{
    let k = 2 * m;
    assert(k % 2 == 0 && k / 2 == m);
    assert(tokens[open + 1 + k] == list_tokens(names)[k]);
    if 0 < m {
        let c = 2 * m - 1;
        assert(c % 2 == 1);
        assert(tokens[open + 1 + c] == list_tokens(names)[c]);
    }
}

/// Names are not looked for in white space and commas.
proof fn lemma_pass_quotes(array: Seq<u8>, from: int, to: int, needle: Seq<u8>)
    requires
        0 <= from <= to <= array.len(),
        forall|k: int| from <= k < to ==> array[k] != 34,
    ensures
        quotes(array, from, needle) == quotes(array, to, needle),
    decreases to - from,
{
    if from < to {
        lemma_pass_quotes(array, from + 1, to, needle);
    }
}

/// The next name of a list is told from the ones behind it.
proof fn lemma_name(
    text: Seq<u8>,
    tokens: Seq<Token>,
    open: int,
    names: Seq<Seq<u8>>,
    m: int,
    needle: Seq<u8>,
)
    requires
        spells(text, tokens),
        regular(tokens),
        list_stands(tokens, open, names),
        0 <= m < names.len(),
    ensures
        ({
            let lo = token_end(text, tokens, open);
            let array = text.subrange(lo, token_start(text, tokens, open + 1 + list_tokens(names).len()));
            quotes(array, token_end(text, tokens, open + 2 * m) - lo, needle) == (names[m] == needle
                || quotes(array, token_end(text, tokens, open + 1 + 2 * m) - lo, needle))
        }),
{
    let lo = token_end(text, tokens, open);
    let close = open + 1 + list_tokens(names).len();
    let hi = token_start(text, tokens, close);
    let array = text.subrange(lo, hi);
    let i = open + 1 + 2 * m;
    let from = token_end(text, tokens, i - 1);
    let start = token_start(text, tokens, i);
    let end = token_end(text, tokens, i);
    let name = names[m];
    let spelled = in_quotes(name);
    lemma_listed(tokens, open, names, m);
    lemma_token(text, tokens, open);
    lemma_token(text, tokens, i);
    lemma_tokens_follow(text, tokens, i, close);
    lemma_token(text, tokens, close);
    lemma_tokens_follow(text, tokens, open, i);
    lemma_token(text, tokens, i - 1);
    lemma_tokens_follow(text, tokens, open, i - 1);
    assert(regular_at(tokens, i));
    reveal(regular_at);
    reveal(unquoted);
    assert(lo <= from <= start < end <= hi);
    assert forall|k: int| from - lo <= k < start - lo implies array[k] != 34 by {
        assert(is_space(text[k + lo]));
    }
    lemma_pass_quotes(array, from - lo, start - lo, needle);
    assert forall|k: int| start <= k < end implies #[trigger] text[k] == spelled[k - start] by {
        lemma_token_byte(text, tokens, i, k - start);
    }
    assert forall|k: int| start + 1 - lo <= k < end - 1 - lo implies array[k] != 34 by {
        assert(text[k + lo] == spelled[k + lo - start]);
        assert(spelled[k + lo - start] == name[k + lo - start - 1]);
    }
    lemma_pass_bytes(array, start + 1 - lo, end - 1 - lo, 34);
    assert(array[start - lo] == text[start] && array[end - 1 - lo] == text[end - 1]);
    assert(array.subrange(start + 1 - lo, end - 1 - lo) =~= name);
}

/// The names of a list are told apart.
proof fn lemma_names(
    text: Seq<u8>,
    tokens: Seq<Token>,
    open: int,
    names: Seq<Seq<u8>>,
    m: int,
    needle: Seq<u8>,
)
    requires
        spells(text, tokens),
        regular(tokens),
        list_stands(tokens, open, names),
        0 <= m < names.len() || m == names.len() == 0,
    ensures
        ({
            let lo = token_end(text, tokens, open);
            let array = text.subrange(lo, token_start(text, tokens, open + 1 + list_tokens(names).len()));
            quotes(array, token_end(text, tokens, open + 2 * m) - lo, needle) == exists|q: int|
                m <= q < names.len() && #[trigger] names[q] == needle
        }),
    decreases names.len() - m,
{
    let n = names.len() as int;
    let lo = token_end(text, tokens, open);
    let close = open + 1 + list_tokens(names).len();
    let hi = token_start(text, tokens, close);
    let array = text.subrange(lo, hi);
    lemma_token(text, tokens, open);
    lemma_token(text, tokens, close);
    lemma_tokens_follow(text, tokens, open, close);
    if n == 0 {
        assert(close == open + 1);
        assert forall|k: int| 0 <= k < array.len() implies array[k] != 34 by {
            assert(is_space(text[k + lo]));
        }
        lemma_pass_quotes(array, 0, array.len() as int, needle);
    } else {
        let i = open + 1 + 2 * m;
        lemma_name(text, tokens, open, names, m, needle);
        lemma_listed(tokens, open, names, m);
        lemma_token(text, tokens, i);
        lemma_tokens_follow(text, tokens, open, i);
        let end = token_end(text, tokens, i);
        if m + 1 < n {
            let comma = i + 1;
            lemma_listed(tokens, open, names, m + 1);
            lemma_token(text, tokens, comma);
            lemma_token_byte(text, tokens, comma, 0);
            lemma_tokens_follow(text, tokens, comma, close);
            assert forall|k: int| end - lo <= k < token_end(text, tokens, comma) - lo implies array[k]
                != 34 by {
                if k + lo < token_start(text, tokens, comma) {
                    assert(is_space(text[k + lo]));
                }
            }
            lemma_pass_quotes(array, end - lo, token_end(text, tokens, comma) - lo, needle);
            lemma_names(text, tokens, open, names, m + 1, needle);
            assert(open + 2 * (m + 1) == comma);
        } else {
            assert(close == i + 1);
            assert forall|k: int| end - lo <= k < array.len() implies array[k] != 34 by {
                assert(is_space(text[k + lo]));
            }
            lemma_pass_quotes(array, end - lo, array.len() as int, needle);
        }
        if exists|q: int| m <= q < n && #[trigger] names[q] == needle {
            let q = choose|q: int| m <= q < n && #[trigger] names[q] == needle;
            assert(q == m || m + 1 <= q);
        }
    }
}

/// The list behind a key is read.
pub proof fn lemma_list(
    text: Seq<u8>,
    tokens: Seq<Token>,
    j: int,
    i: int,
    colon: int,
    key: Seq<u8>,
    names: Seq<Seq<u8>>,
)
    requires
        key_leads(text, tokens, j, i, colon, key),
        list_stands(tokens, colon + 1, names),
        forall|q: int| 0 <= q < names.len() ==> !(#[trigger] names[q]).contains(93u8),
        text.len() <= usize::MAX,
    ensures
        array_after(text, token_end(text, tokens, j), in_quotes(key)) matches Some(span) && span.within(text)
            && forall|needle: Seq<u8>| #[trigger]
            quotes(span.of(text), 0, needle) == names.contains(needle),
{
    let open = colon + 1;
    let close = open + 1 + list_tokens(names).len();
    let at = token_start(text, tokens, open);
    let lo = token_end(text, tokens, open);
    let hi = token_start(text, tokens, close);
    lemma_value(text, tokens, j, i, colon, key);
    lemma_token(text, tokens, open);
    lemma_token_byte(text, tokens, open, 0);
    lemma_token(text, tokens, close);
    lemma_tokens_follow(text, tokens, open, close);
    assert forall|k: int| open < k < close implies !(#[trigger] tokens[k]).spelled().contains(93u8) by {
        let within = k - open - 1;
        assert(tokens[open + 1 + within] == list_tokens(names)[within]);
        if within % 2 == 0 {
            let name = names[within / 2];
            assert(!name.contains(93u8));
            let spelled = in_quotes(name);
            assert forall|m: int| 0 <= m < spelled.len() implies spelled[m] != 93 by {
                if 0 < m < spelled.len() - 1 {
                    assert(spelled[m] == name[m - 1]);
                    assert(name.contains(name[m - 1]));
                }
            }
        }
    }
    lemma_find_byte(text, tokens, open, close, 93);
    assert(first_byte(text, at, 93) == first_byte(text, lo, 93));
    assert forall|needle: Seq<u8>| #[trigger]
        quotes(text.subrange(lo, hi), 0, needle) == names.contains(needle) by {
        lemma_names(text, tokens, open, names, 0, needle);
    }
}

} // verus!
