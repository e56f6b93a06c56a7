//! Texts made of tokens with white space between them.
use vstd::prelude::*;

use crate::scanning::{first_byte, first_word, stands_at};
use crate::vector::{is_space, skip_spaces};

verus! {

/// A token of a JSON text.
pub enum Token {
    OpenObject,
    CloseObject,
    OpenList,
    CloseList,
    Colon,
    Comma,
    /// A string, without its quotation marks.
    Text(Seq<u8>),
    /// A number, a truth value or `null`.
    Bare(Seq<u8>),
}

/// A text in quotation marks.
pub open spec fn in_quotes(text: Seq<u8>) -> Seq<u8> {
    seq![34u8] + text + seq![34u8]
}

/// A text without quotation marks.
#[verifier::opaque]
pub open spec fn unquoted(text: Seq<u8>) -> bool {
    forall|k: int| 0 <= k < text.len() ==> #[trigger] text[k] != 34
}

/// Letters, digits and underscores, one at least.
#[verifier::opaque]
pub open spec fn is_name(text: Seq<u8>) -> bool {
    &&& text.len() > 0
    &&& forall|k: int| 0 <= k < text.len() ==> 48 <= #[trigger] text[k] <= 57 || 95 <= text[k] <= 122
}

/// The byte of a mark.
pub open spec fn is_mark_byte(byte: u8) -> bool {
    byte == 123 || byte == 125 || byte == 91 || byte == 93 || byte == 58 || byte == 44
}

impl Token {
    /// The bytes of a token.
    pub open spec fn spelled(self) -> Seq<u8> {
        match self {
            Token::OpenObject => seq![123u8],
            Token::CloseObject => seq![125u8],
            Token::OpenList => seq![91u8],
            Token::CloseList => seq![93u8],
            Token::Colon => seq![58u8],
            Token::Comma => seq![44u8],
            Token::Text(text) => in_quotes(text),
            Token::Bare(text) => text,
        }
    }

    /// Neither a string nor a number, a truth value or `null`.
    pub open spec fn is_mark(self) -> bool {
        !(self is Text) && !(self is Bare)
    }
}

/// Where a token ends that stands, behind white space, at the end of the one before it.
pub open spec fn token_end(text: Seq<u8>, tokens: Seq<Token>, i: int) -> int
    decreases i + 1,
{
    if i < 0 {
        0
    } else {
        skip_spaces(text, token_end(text, tokens, i - 1)) + tokens[i].spelled().len()
    }
}

/// Where a token begins, behind white space.
pub open spec fn token_start(text: Seq<u8>, tokens: Seq<Token>, i: int) -> int {
    skip_spaces(text, token_end(text, tokens, i - 1))
}

/// A text is made of tokens, with any white space before, between and behind them.
#[verifier::opaque]
pub open spec fn spells(text: Seq<u8>, tokens: Seq<Token>) -> bool {
    &&& forall|i: int|
        0 <= i < tokens.len() ==> stands_at(
            text,
            token_start(text, tokens, i),
            (#[trigger] tokens[i]).spelled(),
        )
    &&& skip_spaces(text, token_end(text, tokens, tokens.len() - 1)) == text.len()
}

/// No string holds a quotation mark, and a mark follows each string, number, truth value and `null`.
pub open spec fn regular(tokens: Seq<Token>) -> bool {
    forall|i: int| 0 <= i < tokens.len() ==> regular_at(tokens, i)
}

/// A token is a mark; or it is none, holds no quotation mark, and a mark follows it.
#[verifier::opaque]
pub open spec fn regular_at(tokens: Seq<Token>, i: int) -> bool {
    match tokens[i] {
        Token::Text(text) => unquoted(text) && i + 1 < tokens.len() && tokens[i + 1].is_mark(),
        Token::Bare(text) => text.len() > 0 && unquoted(text) && i + 1 < tokens.len()
            && tokens[i + 1].is_mark(),
        _ => true,
    }
}

/// White space ends at the first byte that is none.
pub proof fn lemma_spaces(text: Seq<u8>, at: int)
    requires
        0 <= at,
    ensures
        at <= skip_spaces(text, at),
        at <= text.len() ==> skip_spaces(text, at) <= text.len(),
        forall|k: int| at <= k < skip_spaces(text, at) ==> is_space(#[trigger] text[k]),
    decreases text.len() - at,
{
    if at < text.len() && is_space(text[at]) {
        lemma_spaces(text, at + 1);
    }
}

/// Tokens end after they begin.
proof fn lemma_end_grows(text: Seq<u8>, tokens: Seq<Token>, i: int)
    ensures
        0 <= token_end(text, tokens, i),
    decreases i + 1,
{
    if i >= 0 {
        lemma_end_grows(text, tokens, i - 1);
        lemma_spaces(text, token_end(text, tokens, i - 1));
    }
}

/// A token stands where it begins, behind white space.
pub proof fn lemma_token(text: Seq<u8>, tokens: Seq<Token>, i: int)
    requires
        spells(text, tokens),
        0 <= i < tokens.len(),
    ensures
        0 <= token_end(text, tokens, i - 1) <= token_start(text, tokens, i) <= token_end(text, tokens, i)
            <= text.len(),
        token_end(text, tokens, i) == token_start(text, tokens, i) + tokens[i].spelled().len(),
        text.subrange(token_start(text, tokens, i), token_end(text, tokens, i)) == tokens[i].spelled(),
        forall|k: int|
            token_end(text, tokens, i - 1) <= k < token_start(text, tokens, i) ==> is_space(
                #[trigger] text[k],
            ),
{
    reveal(spells);
    lemma_end_grows(text, tokens, i - 1);
    lemma_spaces(text, token_end(text, tokens, i - 1));
    assert(stands_at(text, token_start(text, tokens, i), tokens[i].spelled()));
}

/// A byte of a token stands in the text.
pub proof fn lemma_token_byte(text: Seq<u8>, tokens: Seq<Token>, i: int, k: int)
    requires
        spells(text, tokens),
        0 <= i < tokens.len(),
        0 <= k < tokens[i].spelled().len(),
    ensures
        text[token_start(text, tokens, i) + k] == tokens[i].spelled()[k],
        0 <= token_start(text, tokens, i) + k < text.len(),
{
    lemma_token(text, tokens, i);
    let start = token_start(text, tokens, i);
    assert(text.subrange(start, token_end(text, tokens, i))[k] == text[start + k]);
}

/// Tokens follow each other.
pub proof fn lemma_tokens_follow(text: Seq<u8>, tokens: Seq<Token>, i: int, j: int)
    requires
        spells(text, tokens),
        0 <= i <= j < tokens.len(),
    ensures
        token_start(text, tokens, i) <= token_start(text, tokens, j),
        i < j ==> token_end(text, tokens, i) <= token_start(text, tokens, j),
    decreases j - i,
{
    lemma_token(text, tokens, j);
    if i < j {
        lemma_tokens_follow(text, tokens, i, j - 1);
        lemma_token(text, tokens, j - 1);
    }
}

/// White space or a mark follows a string, a number, a truth value or `null`.
pub proof fn lemma_byte_after(text: Seq<u8>, tokens: Seq<Token>, i: int)
    requires
        spells(text, tokens),
        0 <= i,
        i + 1 < tokens.len(),
        tokens[i + 1].is_mark(),
    ensures
        0 <= token_end(text, tokens, i) < text.len(),
        is_space(text[token_end(text, tokens, i)]) || is_mark_byte(text[token_end(text, tokens, i)]),
{
    lemma_token(text, tokens, i);
    lemma_token(text, tokens, i + 1);
    lemma_token_byte(text, tokens, i + 1, 0);
}

/// A word that begins with a quotation mark does not stand before the next one.
proof fn lemma_pass_plain(text: Seq<u8>, from: int, to: int, key: Seq<u8>)
    requires
        0 <= from <= to,
        to + in_quotes(key).len() <= text.len(),
        forall|k: int| from <= k < to ==> text[k] != 34,
    ensures
        first_word(text, from, in_quotes(key)) == first_word(text, to, in_quotes(key)),
    decreases to - from,
{
    if from < to {
        let quoted_key = in_quotes(key);
        if stands_at(text, from, quoted_key) {
            assert(text.subrange(from, from + quoted_key.len())[0] == quoted_key[0]);
        }
        lemma_pass_plain(text, from + 1, to, key);
    }
}

/// A name in quotation marks does not stand at the beginning of another string.
pub(crate) proof fn lemma_other_text(text: Seq<u8>, tokens: Seq<Token>, i: int, value: Seq<u8>, key: Seq<u8>)
    requires
        spells(text, tokens),
        0 <= i < tokens.len(),
        tokens[i] == Token::Text(value),
        unquoted(value),
        unquoted(key),
        value != key,
    ensures
        !stands_at(text, token_start(text, tokens, i), in_quotes(key)),
{
    reveal(unquoted);
    let at = token_start(text, tokens, i);
    let wanted = in_quotes(key);
    let spelled = in_quotes(value);
    lemma_token(text, tokens, i);
    assert forall|k: int| 0 <= k < spelled.len() implies text[at + k] == spelled[k] by {
        lemma_token_byte(text, tokens, i, k);
    }
    if stands_at(text, at, wanted) {
        assert forall|k: int| 0 <= k < wanted.len() implies text[at + k] == wanted[k] by {
            assert(text.subrange(at, at + wanted.len())[k] == wanted[k]);
        }
        if value.len() < key.len() {
            let k = 1 + value.len() as int;
            assert(text[at + k] == wanted[k] && text[at + k] == spelled[k]);
            assert(wanted[k] == key[k - 1]);
        } else if value.len() > key.len() {
            let k = 1 + key.len() as int;
            assert(text[at + k] == wanted[k] && text[at + k] == spelled[k]);
            assert(spelled[k] == value[k - 1]);
        } else {
            assert forall|k: int| 0 <= k < key.len() implies value[k] == key[k] by {
                assert(text[at + (k + 1)] == wanted[k + 1]);
                assert(text[at + (k + 1)] == spelled[k + 1]);
                assert(wanted[k + 1] == key[k] && spelled[k + 1] == value[k]);
            }
            assert(value =~= key);
        }
    }
}

/// A name holds no quotation mark.
pub proof fn lemma_name_unquoted(name: Seq<u8>)
    requires
        is_name(name),
    ensures
        name.len() > 0,
        unquoted(name),
        !name.contains(58u8),
        !name.contains(93u8),
{
    reveal(is_name);
    reveal(unquoted);
}

/// A name in quotation marks is not found in a token that is another one.
proof fn lemma_pass_token(text: Seq<u8>, tokens: Seq<Token>, i: int, key: Seq<u8>)
    requires
        spells(text, tokens),
        regular_at(tokens, i),
        is_name(key),
        0 <= i < tokens.len(),
        tokens[i] != Token::Text(key),
        token_end(text, tokens, i) + in_quotes(key).len() <= text.len(),
    ensures
        first_word(text, token_end(text, tokens, i - 1), in_quotes(key)) == first_word(
            text,
            token_end(text, tokens, i),
            in_quotes(key),
        ),
{
    reveal(regular_at);
    lemma_name_unquoted(key);
    let before = token_end(text, tokens, i - 1);
    let start = token_start(text, tokens, i);
    let end = token_end(text, tokens, i);
    lemma_token(text, tokens, i);
    lemma_pass_plain(text, before, start, key);
    if let Token::Text(value) = tokens[i] {
        let spelled = in_quotes(value);
        let closing = end - 1;
        let wanted = in_quotes(key);
        lemma_other_text(text, tokens, i, value, key);
        assert forall|k: int| start + 1 <= k < closing implies text[k] != 34 by {
            reveal(unquoted);
            lemma_token_byte(text, tokens, i, k - start);
            assert(spelled[k - start] == value[k - start - 1]);
        }
        lemma_pass_plain(text, start + 1, closing, key);
        lemma_byte_after(text, tokens, i);
        if stands_at(text, closing, wanted) {
            assert(text.subrange(closing, closing + wanted.len())[1] == text[closing + 1]);
            assert(wanted[1] == key[0]);
            reveal(is_name);
        }
        assert(first_word(text, closing, wanted) == first_word(text, end, wanted));
    } else {
        assert forall|k: int| start <= k < end implies text[k] != 34 by {
            reveal(unquoted);
            lemma_token_byte(text, tokens, i, k - start);
        }
        lemma_pass_plain(text, start, end, key);
    }
}

/// A name in quotation marks is found at the first string that it is, behind a token.
pub proof fn lemma_find(text: Seq<u8>, tokens: Seq<Token>, j: int, i: int, key: Seq<u8>)
    requires
        spells(text, tokens),
        regular(tokens),
        is_name(key),
        -1 <= j < i < tokens.len(),
        tokens[i] == Token::Text(key),
        forall|k: int| j < k < i ==> #[trigger] tokens[k] != Token::Text(key),
    ensures
        first_word(text, token_end(text, tokens, j), in_quotes(key)) == Some(token_start(text, tokens, i)),
    decreases i - j,
{
    let wanted = in_quotes(key);
    lemma_token(text, tokens, i);
    if j + 1 < i {
        lemma_tokens_follow(text, tokens, j + 1, i);
        assert(regular_at(tokens, j + 1));
        lemma_pass_token(text, tokens, j + 1, key);
        lemma_find(text, tokens, j + 1, i, key);
    } else {
        lemma_pass_plain(text, token_end(text, tokens, j), token_start(text, tokens, i), key);
        assert(stands_at(text, token_start(text, tokens, i), wanted));
    }
}

/// A byte is not found where it does not stand.
pub proof fn lemma_pass_bytes(text: Seq<u8>, from: int, to: int, byte: u8)
    requires
        0 <= from <= to <= text.len(),
        forall|k: int| from <= k < to ==> text[k] != byte,
    ensures
        first_byte(text, from, byte) == first_byte(text, to, byte),
    decreases to - from,
{
    if from < to {
        lemma_pass_bytes(text, from + 1, to, byte);
    }
}

/// A byte that is no white space and that no token before one holds is found where that one begins
/// with it.
pub proof fn lemma_find_byte(text: Seq<u8>, tokens: Seq<Token>, j: int, i: int, byte: u8)
    requires
        spells(text, tokens),
        !is_space(byte),
        -1 <= j < i < tokens.len(),
        tokens[i].spelled().len() > 0,
        tokens[i].spelled()[0] == byte,
        forall|k: int| j < k < i ==> !(#[trigger] tokens[k]).spelled().contains(byte),
    ensures
        first_byte(text, token_end(text, tokens, j), byte) == Some(token_start(text, tokens, i)),
    decreases i - j,
{
    let from = token_end(text, tokens, j);
    let start = token_start(text, tokens, j + 1);
    let end = token_end(text, tokens, j + 1);
    lemma_token(text, tokens, j + 1);
    lemma_pass_bytes(text, from, start, byte);
    if j + 1 < i {
        let spelled = tokens[j + 1].spelled();
        assert forall|k: int| start <= k < end implies text[k] != byte by {
            lemma_token_byte(text, tokens, j + 1, k - start);
            assert(spelled.contains(spelled[k - start]));
        }
        lemma_pass_bytes(text, start, end, byte);
        lemma_find_byte(text, tokens, j + 1, i, byte);
    } else {
        lemma_token_byte(text, tokens, i, 0);
    }
}

/// Tokens one after another, without white space.
pub open spec fn joined(tokens: Seq<Token>) -> Seq<u8>
    decreases tokens.len(),
{
    if tokens.len() == 0 {
        Seq::empty()
    } else {
        joined(tokens.drop_last()) + tokens.last().spelled()
    }
}

/// Where a token stands among tokens without white space.
proof fn lemma_joined(tokens: Seq<Token>, i: int)
    requires
        0 <= i < tokens.len(),
    ensures
        joined(tokens.take(i + 1)).len() == joined(tokens.take(i)).len() + tokens[i].spelled().len(),
        joined(tokens.take(i + 1)).len() <= joined(tokens).len(),
        joined(tokens).subrange(
            joined(tokens.take(i)).len() as int,
            joined(tokens.take(i + 1)).len() as int,
        ) == tokens[i].spelled(),
    decreases tokens.len(),
{
    let fewer = tokens.drop_last();
    assert(tokens.take(i + 1).drop_last() =~= tokens.take(i));
    assert(tokens.take(i + 1).last() == tokens[i]);
    let from = joined(tokens.take(i)).len() as int;
    let to = joined(tokens.take(i + 1)).len() as int;
    if i < tokens.len() - 1 {
        lemma_joined(fewer, i);
        assert(fewer.take(i) =~= tokens.take(i));
        assert(fewer.take(i + 1) =~= tokens.take(i + 1));
        assert(joined(tokens).subrange(from, to) =~= joined(fewer).subrange(from, to));
    } else {
        assert(fewer =~= tokens.take(i));
        assert(tokens =~= tokens.take(i + 1));
        assert(joined(tokens).subrange(from, to) =~= tokens[i].spelled());
    }
}

/// Tokens without white space end where their bytes end.
proof fn lemma_joined_end(tokens: Seq<Token>, i: int)
    requires
        -1 <= i < tokens.len(),
        forall|k: int| 0 <= k < tokens.len() ==> (#[trigger] tokens[k]).spelled().len() > 0 && !is_space(
            tokens[k].spelled()[0],
        ),
    ensures
        token_end(joined(tokens), tokens, i) == joined(tokens.take(i + 1)).len(),
        0 <= i ==> token_start(joined(tokens), tokens, i) == joined(tokens.take(i)).len(),
    decreases i + 1,
{
    let text = joined(tokens);
    if i >= 0 {
        lemma_joined_end(tokens, i - 1);
        lemma_joined(tokens, i);
        let at = joined(tokens.take(i)).len() as int;
        assert(text.subrange(at, joined(tokens.take(i + 1)).len() as int)[0] == text[at]);
        assert(!is_space(tokens[i].spelled()[0]));
        assert(skip_spaces(text, at) == at);
    } else {
        assert(tokens.take(0) =~= Seq::<Token>::empty());
    }
}

/// Tokens one after another, without white space, are a text that is made of them.
pub proof fn lemma_joined_spells(tokens: Seq<Token>)
    requires
        forall|k: int| 0 <= k < tokens.len() ==> (#[trigger] tokens[k]).spelled().len() > 0 && !is_space(
            tokens[k].spelled()[0],
        ),
    ensures
        spells(joined(tokens), tokens),
{
    reveal(spells);
    let text = joined(tokens);
    assert forall|i: int| 0 <= i < tokens.len() implies stands_at(
        text,
        token_start(text, tokens, i),
        (#[trigger] tokens[i]).spelled(),
    ) by {
        lemma_joined_end(tokens, i);
        lemma_joined(tokens, i);
    }
    lemma_joined_end(tokens, tokens.len() - 1);
    assert(tokens.take(tokens.len() as int) =~= tokens);
}

} // verus!
