//! References that are written in JSON are read back.
use vstd::prelude::*;

use crate::fraud_scoring::digits_end;
use crate::reference::{label_at, low16, number_start, numbers, place, reference_at, references,
    scaled_number, ten_thousandths};
use crate::scanning::{first_byte, first_word, lemma_first_word, stands_at, word};
use crate::time::digits_value;
use crate::tokens::{in_quotes, is_name, lemma_byte_after, lemma_find, lemma_name_unquoted,
    lemma_other_text, lemma_spaces, lemma_token, lemma_token_byte, lemma_tokens_follow, regular,
    regular_at, spells, token_end, token_start, unquoted, Token};
use crate::vector::is_space;
use crate::written::lemma_key_chars;

verus! {

/// Ten to a power.
pub open spec fn ten_to(n: nat) -> int
    decreases n,
{
    if n == 0 { 1 } else { 10 * ten_to((n - 1) as nat) }
}

/// Nothing but digits.
pub open spec fn all_digits(text: Seq<u8>) -> bool {
    forall|k: int| 0 <= k < text.len() ==> 48 <= #[trigger] text[k] <= 57
}

/// Digits write a number.
pub(crate) proof fn lemma_digits_write(text: Seq<u8>)
    requires
        all_digits(text),
    ensures
        digits_value(text) is Some,
        digits_value(text)->0 >= 0,
    decreases text.len(),
{
    if text.len() > 0 {
        let fewer = text.drop_last();
        assert(all_digits(fewer)) by {
            assert forall|k: int| 0 <= k < fewer.len() implies 48 <= #[trigger] fewer[k] <= 57 by {
                assert(fewer[k] == text[k]);
            }
        }
        lemma_digits_write(fewer);
        assert(48 <= text[text.len() - 1] <= 57);
    }
}

/// A digit writes its own value, and digits one after another write the first ones' number times the
/// power of ten for the others, and the others' number on top.
pub proof fn lemma_digits_join(first: Seq<u8>, second: Seq<u8>)
    requires
        all_digits(first),
        all_digits(second),
    ensures
        digits_value(first) is Some,
        digits_value(second) is Some,
        digits_value(first + second) == Some(
            digits_value(first)->0 * ten_to(second.len()) + digits_value(second)->0,
        ),
        second.len() == 1 ==> digits_value(second) == Some(second[0] - 48),
        second.len() == 0 ==> digits_value(second) == Some(0int),
    decreases second.len(),
{
    lemma_digits_write(first);
    lemma_digits_write(second);
    let a = digits_value(first)->0;
    if second.len() == 0 {
        assert(first + second =~= first);
        assert(a * ten_to(0) == a) by {
            assert(ten_to(0) == 1);
        }
    } else {
        let fewer = second.drop_last();
        assert(all_digits(fewer)) by {
            assert forall|k: int| 0 <= k < fewer.len() implies 48 <= #[trigger] fewer[k] <= 57 by {
                assert(fewer[k] == second[k]);
            }
        }
        lemma_digits_join(first, fewer);
        assert((first + second).drop_last() =~= first + fewer);
        assert(48 <= second[second.len() - 1] <= 57);
        let scale = ten_to(fewer.len());
        assert(ten_to(second.len()) == 10 * scale);
        assert(a * (10 * scale) == 10 * (a * scale)) by (nonlinear_arith);
        if second.len() == 1 {
            assert(fewer =~= Seq::<u8>::empty());
        }
    }
}

/// The digits behind a point are read in ten thousandths, cut off behind the fourth: however many there
/// are, what is read is the number they write, times or divided by the power of ten that makes it ten
/// thousandths.
pub proof fn lemma_fraction_in_ten_thousandths(digits: Seq<u8>)
    requires
        all_digits(digits),
    ensures
        ({
            let n = digits.len();
            let value = digits_value(digits)->0;
            let read = ten_thousandths(digits);
            &&& digits_value(digits) is Some
            &&& 0 <= read < 10_000
            &&& n <= 4 ==> read == value * ten_to((4 - n) as nat)
            &&& n >= 4 ==> read * ten_to((n - 4) as nat) <= value < (read + 1) * ten_to((n - 4) as nat)
        }),
    decreases digits.len(),
{
    let n = digits.len() as int;
    lemma_digits_write(digits);
    reveal_with_fuel(ten_to, 5);
    assert(ten_to(0) == 1 && ten_to(1) == 10 && ten_to(2) == 100 && ten_to(3) == 1_000 && ten_to(4) == 10_000);
    if n <= 4 {
        let value = digits_value(digits)->0;
        assert(value * ten_to(0) == value && value * ten_to(1) == value * 10 && value * ten_to(2) == value
            * 100 && value * ten_to(3) == value * 1_000 && value * ten_to(4) == value * 10_000);
        assert(ten_thousandths(digits) * ten_to(0) == ten_thousandths(digits));
        assert((ten_thousandths(digits) + 1) * ten_to(0) == ten_thousandths(digits) + 1);
        reveal_with_fuel(digits_value, 5);
        if n >= 1 {
            assert(48 <= digits[0] <= 57);
            assert(digits.drop_last().len() == n - 1);
        }
        if n == 1 {
            assert(digits.drop_last() =~= Seq::<u8>::empty());
        } else if n == 2 {
            assert(48 <= digits[1] <= 57);
            assert(digits.drop_last().last() == digits[0]);
            assert(digits.drop_last().drop_last() =~= Seq::<u8>::empty());
        } else if n == 3 {
            assert(48 <= digits[1] <= 57 && 48 <= digits[2] <= 57);
            assert(digits.drop_last().last() == digits[1]);
            assert(digits.drop_last().drop_last().last() == digits[0]);
            assert(digits.drop_last().drop_last().drop_last() =~= Seq::<u8>::empty());
        } else if n == 4 {
            assert(48 <= digits[1] <= 57 && 48 <= digits[2] <= 57 && 48 <= digits[3] <= 57);
            assert(digits.drop_last().last() == digits[2]);
            assert(digits.drop_last().drop_last().last() == digits[1]);
            assert(digits.drop_last().drop_last().drop_last().last() == digits[0]);
            assert(digits.drop_last().drop_last().drop_last().drop_last() =~= Seq::<u8>::empty());
        }
    } else {
        let fewer = digits.drop_last();
        assert(all_digits(fewer)) by {
            assert forall|k: int| 0 <= k < fewer.len() implies 48 <= #[trigger] fewer[k] <= 57 by {
                assert(fewer[k] == digits[k]);
            }
        }
        lemma_fraction_in_ten_thousandths(fewer);
        let scale = ten_to((n - 5) as nat);
        let value = digits_value(fewer)->0;
        let last = digits[n - 1] - 48;
        let read = ten_thousandths(digits);
        assert(place(fewer, 0) == place(digits, 0) && place(fewer, 1) == place(digits, 1) && place(
            fewer,
            2,
        ) == place(digits, 2) && place(fewer, 3) == place(digits, 3));
        assert(48 <= digits[n - 1] <= 57);
        assert(ten_to((n - 4) as nat) == 10 * scale);
        assert(read * (10 * scale) == 10 * (read * scale)) by (nonlinear_arith);
        assert((read + 1) * (10 * scale) == 10 * ((read + 1) * scale)) by (nonlinear_arith);
        assert(digits_value(digits) == Some(value * 10 + last));
        assert(fewer.len() - 4 == n - 5);
    }
}

/// A zero behind the last digit of a fraction does not change it.
pub proof fn lemma_zeros_behind_do_not_count(digits: Seq<u8>)
    requires
        all_digits(digits),
    ensures
        ten_thousandths(digits.push(48u8)) == ten_thousandths(digits),
{
    let more = digits.push(48u8);
    assert forall|k: int| 0 <= k < 4 implies place(more, k) == #[trigger] place(digits, k) by {
        if k < digits.len() {
            assert(more[k] == digits[k]);
        }
    }
    assert(place(more, 0) == place(digits, 0) && place(more, 1) == place(digits, 1) && place(more, 2)
        == place(digits, 2) && place(more, 3) == place(digits, 3));
}

/// Sixteen bits hold a number that fits them, and count on from the other end beyond.
pub proof fn lemma_sixteen_bits(n: int)
    ensures
        -32_768 <= n <= 32_767 ==> low16(n) == n,
        low16(n + 65_536) == low16(n),
        low16(n - 65_536) == low16(n),
{
}

/// A number in digits: with a minus sign or none, with a fraction or none.
pub struct Decimal {
    pub negative: bool,
    pub whole: Seq<u8>,
    pub fraction: Option<Seq<u8>>,
}

impl Decimal {
    /// At least one digit stands before the point, and nothing but digits anywhere.
    pub open spec fn wf(self) -> bool {
        &&& self.whole.len() > 0
        &&& all_digits(self.whole)
        &&& self.fraction matches Some(digits) ==> all_digits(digits)
    }

    /// The number as a text.
    pub open spec fn spelled(self) -> Seq<u8> {
        let sign = if self.negative { seq![45u8] } else { Seq::empty() };
        let tail = match self.fraction {
            Some(digits) => seq![46u8] + digits,
            None => Seq::empty(),
        };
        sign + (self.whole + tail)
    }

    /// The number in ten thousandths, cut off behind the fourth digit of its fraction.
    pub open spec fn scaled(self) -> int {
        let size = digits_value(self.whole)->0 * 10_000 + match self.fraction {
            Some(digits) => ten_thousandths(digits),
            None => 0,
        };
        if self.negative { -size } else { size }
    }
}

/// Digits that end.
pub(crate) proof fn lemma_digits_stop(text: Seq<u8>, at: int, end: int)
    requires
        0 <= at <= end <= text.len(),
        forall|k: int| at <= k < end ==> 48 <= #[trigger] text[k] <= 57,
        end < text.len() ==> !(48 <= text[end] <= 57),
    ensures
        digits_end(text, at) == end,
    decreases end - at,
{
    if at < end {
        lemma_digits_stop(text, at + 1, end);
    }
}

/// A number is read where it stands: its value in ten thousandths, cut to sixteen bits, and its end.
pub proof fn lemma_number_is_read(text: Seq<u8>, at: int, number: Decimal)
    requires
        number.wf(),
        stands_at(text, at, number.spelled()),
        0 <= at,
        at + number.spelled().len() < text.len() ==> !(48 <= text[at + number.spelled().len()] <= 57)
            && text[at + number.spelled().len()] != 46,
    ensures
        scaled_number(text, at) == (low16(number.scaled()), at + number.spelled().len()),
        number.spelled().len() > 0,
        number.spelled()[0] == 45 || 48 <= number.spelled()[0] <= 57,
{
    let spelled = number.spelled();
    let start = at + if number.negative { 1int } else { 0 };
    let point = start + number.whole.len();
    let end = at + spelled.len();
    assert forall|k: int| 0 <= k < spelled.len() implies text[at + k] == #[trigger] spelled[k] by {
        assert(text.subrange(at, at + spelled.len())[k] == text[at + k]);
    }
    assert(spelled[0] == if number.negative { 45u8 } else { number.whole[0] });
    assert(48 <= number.whole[0] <= 57);
    assert(text[at + 0] == spelled[0]);
    assert forall|k: int| start <= k < point implies 48 <= #[trigger] text[k] <= 57 && text[k]
        == number.whole[k - start] by {
        assert(text[at + (k - at)] == spelled[k - at]);
        assert(spelled[k - at] == number.whole[k - start]);
    }
    match number.fraction {
        Some(digits) => {
            assert(text[at + (point - at)] == spelled[point - at]);
            assert(spelled[point - at] == 46);
            assert forall|k: int| point + 1 <= k < end implies 48 <= #[trigger] text[k] <= 57 && text[k]
                == digits[k - point - 1] by {
                assert(text[at + (k - at)] == spelled[k - at]);
                assert(spelled[k - at] == digits[k - point - 1]);
            }
            lemma_digits_stop(text, start, point);
            lemma_digits_stop(text, point + 1, end);
            assert(text.subrange(point + 1, end) =~= digits);
        },
        None => {
            assert(point == end);
            lemma_digits_stop(text, start, point);
            assert(text.subrange(point, point) =~= Seq::<u8>::empty());
            assert(ten_thousandths(Seq::<u8>::empty()) == 0);
        },
    }
    assert(text.subrange(start, point) =~= number.whole);
}

/// A reference as it is written: fourteen numbers and whether it is labelled fraud.
pub struct Written {
    pub values: Seq<Decimal>,
    pub fraud: bool,
}

impl Written {
    /// Fourteen numbers in digits.
    pub open spec fn wf(self) -> bool {
        self.values.len() == 14 && forall|d: int| 0 <= d < 14 ==> (#[trigger] self.values[d]).wf()
    }

    /// The label.
    pub open spec fn label(self) -> Seq<u8> {
        if self.fraud { word("fraud"@) } else { word("legit"@) }
    }

    /// The tokens of `{"vector":[..],"label":".."}`, one by one.
    pub open spec fn token(self, j: int) -> Token {
        if j == 0 {
            Token::OpenObject
        } else if j == 1 {
            Token::Text(word("vector"@))
        } else if j == 2 {
            Token::Colon
        } else if j == 3 {
            Token::OpenList
        } else if j < 31 {
            if j % 2 == 0 { Token::Bare(self.values[(j - 4) / 2].spelled()) } else { Token::Comma }
        } else if j == 31 {
            Token::CloseList
        } else if j == 32 {
            Token::Comma
        } else if j == 33 {
            Token::Text(word("label"@))
        } else if j == 34 {
            Token::Colon
        } else if j == 35 {
            Token::Text(self.label())
        } else {
            Token::CloseObject
        }
    }

    /// What is to be read: the numbers in ten thousandths, cut to sixteen bits, and one for fraud, zero
    /// for legit.
    pub open spec fn read(self) -> (Seq<i16>, u8) {
        (
            Seq::new(14, |d: int| low16(self.values[d].scaled())),
            if self.fraud { 1u8 } else { 0u8 },
        )
    }
}

/// The tokens of a list of references, with a comma between each two.
#[verifier::opaque]
pub open spec fn catalog_tokens(written: Seq<Written>) -> Seq<Token> {
    Seq::new(
        if written.len() == 0 { 2 } else { 38 * written.len() + 1 },
        |i: int|
            if i == 0 {
                Token::OpenList
            } else if i == 38 * written.len() || written.len() == 0 {
                Token::CloseList
            } else if (i - 1) % 38 == 37 {
                Token::Comma
            } else {
                written[(i - 1) / 38].token((i - 1) % 38)
            },
    )
}

/// Every reference is written as it should be.
pub open spec fn all_written(written: Seq<Written>) -> bool {
    forall|k: int| 0 <= k < written.len() ==> (#[trigger] written[k]).wf()
}

/// The token of a reference.
proof fn lemma_catalog_token(written: Seq<Written>, k: int, j: int)
    requires
        0 <= k < written.len(),
        0 <= j < 37,
    ensures
        catalog_tokens(written)[1 + 38 * k + j] == written[k].token(j),
        1 + 38 * k + j < catalog_tokens(written).len() - 1,
        catalog_tokens(written).len() == 38 * written.len() + 1,
{
    reveal(catalog_tokens);
    let i = 1 + 38 * k + j;
    assert((i - 1) / 38 == k && (i - 1) % 38 == j);
}

/// What stands behind a reference.
proof fn lemma_catalog_gap(written: Seq<Written>, k: int)
    requires
        0 <= k < written.len(),
    ensures
        catalog_tokens(written)[38 * k + 38] == if k + 1 == written.len() {
            Token::CloseList
        } else {
            Token::Comma
        },
        catalog_tokens(written)[0] == Token::OpenList,
{
    reveal(catalog_tokens);
    let i = 38 * k + 38;
    if k + 1 < written.len() {
        assert((i - 1) / 38 == k && (i - 1) % 38 == 37);
    }
}

/// The words that are looked for.
proof fn lemma_reference_words()
    ensures
        is_name(word("vector"@)),
        is_name(word("label"@)),
        is_name(word("fraud"@)),
        is_name(word("legit"@)),
        word("vector"@).len() == 6,
        word("label"@).len() == 5 && word("label"@)[1] == 97,
        word("fraud"@).len() == 5 && word("fraud"@)[0] == 102 && word("fraud"@)[1] == 114,
        word("legit"@).len() == 5 && word("legit"@)[0] == 108 && word("legit"@)[1] == 101,
        word("\"vector\""@) == in_quotes(word("vector"@)),
        word("\"label\""@) == in_quotes(word("label"@)),
{
    reveal_strlit("vector");
    reveal_strlit("label");
    reveal_strlit("fraud");
    reveal_strlit("legit");
    reveal_strlit("\"vector\"");
    reveal_strlit("\"label\"");
    lemma_key_chars("vector"@, "\"vector\""@);
    lemma_key_chars("label"@, "\"label\""@);
    lemma_key_chars("fraud"@, seq!['"'] + "fraud"@ + seq!['"']);
    lemma_key_chars("legit"@, seq!['"'] + "legit"@ + seq!['"']);
    vstd::utf8::is_ascii_chars_encode_utf8("label"@);
    vstd::utf8::is_ascii_chars_encode_utf8("fraud"@);
    vstd::utf8::is_ascii_chars_encode_utf8("legit"@);
}

/// A number in digits holds no quotation mark.
proof fn lemma_spelled_unquoted(number: Decimal)
    requires
        number.wf(),
    ensures
        unquoted(number.spelled()),
        number.spelled().len() > 0,
        number.spelled()[0] == 45 || 48 <= number.spelled()[0] <= 57,
        forall|k: int| 0 <= k < number.spelled().len() ==> #[trigger] number.spelled()[k] != 125,
{
    reveal(unquoted);
    let spelled = number.spelled();
    let before: int = if number.negative { 1 } else { 0 };
    assert(48 <= number.whole[0] <= 57);
    assert forall|k: int| 0 <= k < spelled.len() implies 45 <= #[trigger] spelled[k] <= 57 by {
        if before <= k < before + number.whole.len() {
            assert(spelled[k] == number.whole[k - before]);
        } else if k > before + number.whole.len() {
            let digits = number.fraction->0;
            assert(spelled[k] == digits[k - before - number.whole.len() - 1]);
        }
    }
    if !number.negative {
        assert(spelled[0] == number.whole[0]);
    }
}

/// The tokens of references are regular.
proof fn lemma_catalog_regular(written: Seq<Written>)
    requires
        all_written(written),
    ensures
        regular(catalog_tokens(written)),
{
    let p = catalog_tokens(written);
    lemma_reference_words();
    lemma_name_unquoted(word("vector"@));
    lemma_name_unquoted(word("label"@));
    lemma_name_unquoted(word("fraud"@));
    lemma_name_unquoted(word("legit"@));
    assert forall|i: int| 0 <= i < p.len() implies regular_at(p, i) by {
        reveal(regular_at);
        if written.len() == 0 || i == 0 || i == 38 * written.len() {
            reveal(catalog_tokens);
        } else {
            let k = (i - 1) / 38;
            let j = (i - 1) % 38;
            assert(i == 1 + 38 * k + j);
            assert(0 <= k < written.len() && 0 <= j < 38) by {
                reveal(catalog_tokens);
            }
            if j < 37 {
                lemma_catalog_token(written, k, j);
                if j < 36 {
                    lemma_catalog_token(written, k, j + 1);
                }
                assert(written[k].wf());
                if 4 <= j < 31 && j % 2 == 0 {
                    lemma_spelled_unquoted(written[k].values[(j - 4) / 2]);
                }
            } else {
                lemma_catalog_gap(written, k);
            }
        }
    }
}

/// A name in quotation marks does not stand behind a token where no later token is it.
proof fn lemma_not_standing(text: Seq<u8>, tokens: Seq<Token>, j: int, p: int, key: Seq<u8>)
    requires
        spells(text, tokens),
        regular(tokens),
        is_name(key),
        -1 <= j < tokens.len(),
        0 <= p,
        token_end(text, tokens, j) <= p,
        forall|k: int| j < k < tokens.len() ==> #[trigger] tokens[k] != Token::Text(key),
    ensures
        !stands_at(text, p, in_quotes(key)),
    decreases tokens.len() - j,
{
    let wanted = in_quotes(key);
    lemma_name_unquoted(key);
    if stands_at(text, p, wanted) {
        assert(text.subrange(p, p + wanted.len())[0] == text[p]);
        assert(text.subrange(p, p + wanted.len())[1] == text[p + 1]);
        assert(wanted[0] == 34 && wanted[1] == key[0]);
        reveal(is_name);
        if j + 1 == tokens.len() {
            reveal(spells);
            if j >= 0 {
                lemma_token(text, tokens, j);
            }
            lemma_spaces(text, token_end(text, tokens, j));
            assert(is_space(text[p]));
        } else {
            let i = j + 1;
            let start = token_start(text, tokens, i);
            let end = token_end(text, tokens, i);
            lemma_token(text, tokens, i);
            assert(regular_at(tokens, i));
            reveal(regular_at);
            if p < start {
                assert(is_space(text[p]));
            } else if p >= end {
                lemma_not_standing(text, tokens, i, p, key);
            } else {
                lemma_token_byte(text, tokens, i, p - start);
                if let Token::Text(value) = tokens[i] {
                    reveal(unquoted);
                    if p == start {
                        lemma_other_text(text, tokens, i, value, key);
                    } else if p < end - 1 {
                        assert(in_quotes(value)[p - start] == value[p - start - 1]);
                    } else {
                        lemma_byte_after(text, tokens, i);
                    }
                } else if let Token::Bare(value) = tokens[i] {
                    reveal(unquoted);
                }
            }
        }
    }
}

/// A name in quotation marks is not found where no later token is it.
proof fn lemma_absent(text: Seq<u8>, tokens: Seq<Token>, j: int, from: int, key: Seq<u8>)
    requires
        spells(text, tokens),
        regular(tokens),
        is_name(key),
        -1 <= j < tokens.len(),
        token_end(text, tokens, j) <= from,
        0 <= from,
        forall|k: int| j < k < tokens.len() ==> #[trigger] tokens[k] != Token::Text(key),
    ensures
        first_word(text, from, in_quotes(key)) is None,
{
    lemma_first_word(text, from, in_quotes(key));
    if let Some(at) = first_word(text, from, in_quotes(key)) {
        lemma_not_standing(text, tokens, j, at, key);
    }
}

/// A name in quotation marks is not found at the closing quotation mark of a string.
proof fn lemma_past_closing(text: Seq<u8>, tokens: Seq<Token>, i: int, key: Seq<u8>)
    requires
        spells(text, tokens),
        regular(tokens),
        is_name(key),
        0 <= i < tokens.len(),
        tokens[i] is Text,
    ensures
        first_word(text, token_end(text, tokens, i) - 1, in_quotes(key)) == first_word(
            text,
            token_end(text, tokens, i),
            in_quotes(key),
        ),
{
    let wanted = in_quotes(key);
    let at = token_end(text, tokens, i) - 1;
    lemma_name_unquoted(key);
    lemma_token(text, tokens, i);
    assert(regular_at(tokens, i));
    reveal(regular_at);
    lemma_byte_after(text, tokens, i);
    reveal(is_name);
    if stands_at(text, at, wanted) {
        assert(text.subrange(at, at + wanted.len())[1] == text[at + 1]);
        assert(wanted[1] == key[0]);
    }
    if at + wanted.len() > text.len() {
        assert(first_word(text, at + 1, wanted) is None);
    }
}

/// Bytes that begin no number are passed.
proof fn lemma_seek(text: Seq<u8>, from: int, to: int)
    requires
        0 <= from <= to <= text.len(),
        forall|k: int| from <= k < to ==> text[k] != 45 && !(48 <= #[trigger] text[k] <= 57),
    ensures
        number_start(text, from) == number_start(text, to),
    decreases to - from,
{
    if from < to {
        lemma_seek(text, from + 1, to);
    }
}

/// The next number is found behind marks.
proof fn lemma_number_found(text: Seq<u8>, tokens: Seq<Token>, j: int, i: int, number: Decimal)
    requires
        spells(text, tokens),
        regular(tokens),
        number.wf(),
        0 <= j < i < tokens.len(),
        tokens[i] == Token::Bare(number.spelled()),
        forall|k: int| j < k < i ==> (#[trigger] tokens[k]).is_mark(),
    ensures
        number_start(text, token_end(text, tokens, j)) == Some(token_start(text, tokens, i)),
        scaled_number(text, token_start(text, tokens, i)) == (
            low16(number.scaled()),
            token_end(text, tokens, i),
        ),
    decreases i - j,
{
    let next = j + 1;
    let from = token_end(text, tokens, j);
    let start = token_start(text, tokens, next);
    let end = token_end(text, tokens, next);
    lemma_token(text, tokens, j);
    lemma_token(text, tokens, next);
    assert forall|k: int| from <= k < start implies text[k] != 45 && !(48 <= #[trigger] text[k] <= 57) by {
        assert(is_space(text[k]));
    }
    lemma_seek(text, from, start);
    if next < i {
        assert(tokens[next].is_mark());
        lemma_token_byte(text, tokens, next, 0);
        lemma_seek(text, start, end);
        lemma_number_found(text, tokens, next, i, number);
    } else {
        lemma_spelled_unquoted(number);
        lemma_token_byte(text, tokens, i, 0);
        assert(regular_at(tokens, i));
        reveal(regular_at);
        lemma_byte_after(text, tokens, i);
        lemma_number_is_read(text, start, number);
    }
}

/// The first numbers of a reference are read.
proof fn lemma_numbers_read(text: Seq<u8>, written: Seq<Written>, k: int, m: nat)
    requires
        spells(text, catalog_tokens(written)),
        all_written(written),
        0 <= k < written.len(),
        m <= 14,
    ensures
        ({
            let p = catalog_tokens(written);
            let base = 1 + 38 * k;
            numbers(text, token_end(text, p, base + 1), m) == Some(
                (
                    written[k].read().0.take(m as int),
                    token_end(text, p, if m == 0 { base + 1 } else { base + 2 + 2 * m }),
                ),
            )
        }),
    decreases m,
{
    let p = catalog_tokens(written);
    let base = 1 + 38 * k;
    let values = written[k].read().0;
    lemma_catalog_regular(written);
    if m == 0 {
        assert(values.take(0) =~= Seq::<i16>::empty());
    } else {
        let d = m - 1;
        lemma_numbers_read(text, written, k, d as nat);
        assert(written[k].wf());
        assert(written[k].values[d].wf());
        let j = 2 + 2 * m as int;
        let from: int = if d == 0 { 1 } else { j - 2 };
        lemma_catalog_token(written, k, j);
        lemma_catalog_token(written, k, from);
        assert(j % 2 == 0 && (j - 4) / 2 == d);
        assert forall|i: int| base + from < i < base + j implies (#[trigger] p[i]).is_mark() by {
            lemma_catalog_token(written, k, i - base);
            assert(1 + 38 * k + (i - base) == i);
        }
        lemma_number_found(text, p, base + from, base + j, written[k].values[d]);
        assert(values.take(m as int) =~= values.take(d).push(low16(written[k].values[d].scaled())));
    }
}

/// A word is not found where its first byte does not stand.
proof fn lemma_pass_word(text: Seq<u8>, from: int, to: int, needle: Seq<u8>)
    requires
        0 <= from <= to,
        needle.len() > 0,
        to + needle.len() <= text.len(),
        forall|k: int| from <= k < to ==> #[trigger] text[k] != needle[0],
    ensures
        first_word(text, from, needle) == first_word(text, to, needle),
    decreases to - from,
{
    if from < to {
        if stands_at(text, from, needle) {
            assert(text.subrange(from, from + needle.len())[0] == text[from]);
        }
        lemma_pass_word(text, from + 1, to, needle);
    }
}

/// The bytes between the key of a label and the end of its object.
proof fn lemma_label_bytes(text: Seq<u8>, written: Seq<Written>, k: int, x: int)
    requires
        spells(text, catalog_tokens(written)),
        0 <= k < written.len(),
        token_end(text, catalog_tokens(written), 34 + 38 * k) <= x < token_start(
            text,
            catalog_tokens(written),
            37 + 38 * k,
        ),
    ensures
        ({
            let p = catalog_tokens(written);
            let at = token_start(text, p, 36 + 38 * k) + 1;
            let label = written[k].label();
            &&& text[x] == 58 || text[x] == 34 || is_space(text[x]) || (at <= x < at + label.len() && text[x]
                == label[x - at])
            &&& x < at ==> text[x] == 58 || text[x] == 34 || is_space(text[x])
        }),
{
    let p = catalog_tokens(written);
    let label = written[k].label();
    lemma_catalog_token(written, k, 33);
    lemma_catalog_token(written, k, 34);
    lemma_catalog_token(written, k, 35);
    lemma_catalog_token(written, k, 36);
    let colon = 35 + 38 * k;
    let said = 36 + 38 * k;
    lemma_token(text, p, colon);
    lemma_token(text, p, said);
    lemma_token(text, p, said + 1);
    if x < token_start(text, p, colon) {
        assert(is_space(text[x]));
    } else if x < token_end(text, p, colon) {
        lemma_token_byte(text, p, colon, x - token_start(text, p, colon));
    } else if x < token_start(text, p, said) {
        assert(is_space(text[x]));
    } else if x < token_end(text, p, said) {
        let n = x - token_start(text, p, said);
        lemma_token_byte(text, p, said, n);
        if 0 < n < label.len() + 1 {
            assert(in_quotes(label)[n] == label[n - 1]);
        }
    } else {
        assert(is_space(text[x]));
    }
}

/// The label of a reference is read.
proof fn lemma_label_read(text: Seq<u8>, written: Seq<Written>, k: int)
    requires
        spells(text, catalog_tokens(written)),
        all_written(written),
        0 <= k < written.len(),
    ensures
        ({
            let p = catalog_tokens(written);
            let at = token_end(text, p, 34 + 38 * k);
            label_at(text, at) == if written[k].fraud {
                Some((1u8, token_end(text, p, 36 + 38 * k) - 1))
            } else {
                Some((0u8, at))
            }
        }),
{
    let p = catalog_tokens(written);
    let key = 34 + 38 * k;
    let said = 36 + 38 * k;
    let at = token_end(text, p, key);
    let start = token_start(text, p, said) + 1;
    let close = token_start(text, p, said + 1);
    let label = written[k].label();
    let fraud = word("fraud"@);
    let legit = word("legit"@);
    lemma_reference_words();
    lemma_label_letters();
    lemma_catalog_token(written, k, 33);
    lemma_catalog_token(written, k, 34);
    lemma_catalog_token(written, k, 35);
    lemma_catalog_token(written, k, 36);
    lemma_token(text, p, key);
    lemma_token(text, p, said);
    lemma_token(text, p, said + 1);
    lemma_tokens_follow(text, p, key, said);
    lemma_tokens_follow(text, p, said, said + 1);
    assert(token_end(text, p, said) == start + label.len() + 1);
    assert forall|x: int| at <= x < close implies #[trigger] text[x] != 125 by {
        lemma_label_bytes(text, written, k, x);
        if start <= x < start + label.len() && text[x] == label[x - start] {
            assert(label[x - start] != 125);
        }
    }
    lemma_token_byte(text, p, said + 1, 0);
    crate::tokens::lemma_pass_bytes(text, at, close, 125);
    assert(first_byte(text, at, 125) == Some(close));
    assert(text.subrange(start, start + label.len()) =~= label) by {
        assert forall|n: int| 0 <= n < label.len() implies text[start + n] == #[trigger] label[n] by {
            lemma_token_byte(text, p, said, n + 1);
            assert(in_quotes(label)[n + 1] == label[n]);
        }
    }
    assert(stands_at(text, start, label));
    assert forall|x: int| at <= x < start implies #[trigger] text[x] != label[0] by {
        lemma_label_bytes(text, written, k, x);
    }
    lemma_pass_word(text, at, start, label);
    assert(first_word(text, at, label) == Some(start));
    if !written[k].fraud {
        lemma_first_word(text, at, fraud);
        if let Some(found) = first_word(text, at, fraud) {
            if found < close {
                assert(text.subrange(found, found + fraud.len())[0] == text[found]);
                lemma_label_bytes(text, written, k, found);
                if start <= found < start + label.len() && text[found] == label[found - start] {
                    assert(label[found - start] != 102);
                }
            }
        }
    }
}

/// The letters of the labels.
proof fn lemma_label_letters()
    ensures
        forall|n: int| 0 <= n < word("legit"@).len() ==> #[trigger] word("legit"@)[n] != 102 && word(
            "legit"@,
        )[n] != 125,
        forall|n: int| 0 <= n < word("fraud"@).len() ==> #[trigger] word("fraud"@)[n] != 125,
{
    reveal_strlit("legit");
    reveal_strlit("fraud");
    vstd::utf8::is_ascii_chars_encode_utf8("legit"@);
    vstd::utf8::is_ascii_chars_encode_utf8("fraud"@);
}

/// A reference is read where its vector is announced.
proof fn lemma_reference_read(text: Seq<u8>, written: Seq<Written>, k: int)
    requires
        spells(text, catalog_tokens(written)),
        all_written(written),
        0 <= k < written.len(),
    ensures
        ({
            let p = catalog_tokens(written);
            reference_at(text, token_start(text, p, 2 + 38 * k)) == Some(
                (
                    written[k].read(),
                    if written[k].fraud {
                        token_end(text, p, 36 + 38 * k) - 1
                    } else {
                        token_end(text, p, 34 + 38 * k)
                    },
                ),
            )
        }),
{
    let p = catalog_tokens(written);
    let base = 1 + 38 * k;
    let key = base + 33;
    lemma_reference_words();
    lemma_catalog_regular(written);
    lemma_catalog_token(written, k, 1);
    lemma_catalog_token(written, k, 30);
    lemma_catalog_token(written, k, 31);
    lemma_catalog_token(written, k, 32);
    lemma_catalog_token(written, k, 33);
    lemma_token(text, p, base + 1);
    lemma_numbers_read(text, written, k, 14);
    assert(written[k].read().0.take(14) =~= written[k].read().0);
    assert forall|i: int| base + 30 < i < key implies #[trigger] p[i] != Token::Text(word("label"@)) by {
        assert(i == base + 31 || i == base + 32);
    }
    lemma_find(text, p, base + 30, key, word("label"@));
    lemma_token(text, p, key);
    lemma_label_read(text, written, k);
    assert(written[k].read() == (written[k].read().0, if written[k].fraud { 1u8 } else { 0u8 }));
}

/// Where reading goes on: at the beginning, or behind the label of a reference.
spec fn resting(text: Seq<u8>, written: Seq<Written>, k: int, j: int, from: int) -> bool {
    let p = catalog_tokens(written);
    if k == 0 {
        j == -1 && from == 0
    } else if written[k - 1].fraud {
        j == 38 * k - 2 && from == token_end(text, p, j) - 1
    } else {
        j == 38 * k - 4 && from == token_end(text, p, j)
    }
}

/// No vector is announced between where reading goes on and the next reference.
proof fn lemma_no_vector(written: Seq<Written>, k: int, i: int)
    requires
        all_written(written),
        0 <= k <= written.len(),
        if k == 0 { 0 <= i } else { 38 * k - 4 < i },
        i < if k < written.len() { 2 + 38 * k } else { catalog_tokens(written).len() as int },
    ensures
        catalog_tokens(written)[i] != Token::Text(word("vector"@)),
{
    lemma_reference_words();
    let p = catalog_tokens(written);
    if k == 0 {
        if written.len() == 0 {
            reveal(catalog_tokens);
        } else {
            lemma_catalog_gap(written, 0);
            lemma_catalog_token(written, 0, 0);
        }
    } else {
        lemma_catalog_gap(written, k - 1);
        lemma_catalog_token(written, k - 1, 34);
        lemma_catalog_token(written, k - 1, 35);
        lemma_catalog_token(written, k - 1, 36);
        assert(1 + 38 * (k - 1) + 34 == 38 * k - 3);
        assert(1 + 38 * (k - 1) + 35 == 38 * k - 2);
        assert(1 + 38 * (k - 1) + 36 == 38 * k - 1);
        assert(38 * (k - 1) + 38 == 38 * k);
        if k < written.len() {
            lemma_catalog_token(written, k, 0);
            assert(i == 38 * k - 3 || i == 38 * k - 2 || i == 38 * k - 1 || i == 38 * k || i == 38 * k + 1);
        } else {
            assert(i == 38 * k - 3 || i == 38 * k - 2 || i == 38 * k - 1 || i == 38 * k);
        }
    }
}

/// The rest of the references is read.
proof fn lemma_rest_read(text: Seq<u8>, written: Seq<Written>, k: int, j: int, from: int)
    requires
        spells(text, catalog_tokens(written)),
        all_written(written),
        0 <= k <= written.len(),
        resting(text, written, k, j, from),
    ensures
        references(text, from) == Some(
            Seq::new((written.len() - k) as nat, |i: int| written[k + i].read()),
        ),
    decreases written.len() - k,
{
    let p = catalog_tokens(written);
    let key = word("vector"@);
    let rest = Seq::new((written.len() - k) as nat, |i: int| written[k + i].read());
    lemma_reference_words();
    lemma_catalog_regular(written);
    assert(p.len() > 0) by {
        reveal(catalog_tokens);
    }
    if k > 0 {
        lemma_catalog_token(written, k - 1, 33);
        lemma_catalog_token(written, k - 1, 35);
        assert(1 + 38 * (k - 1) + 35 == 38 * k - 2);
        assert(1 + 38 * (k - 1) + 33 == 38 * k - 4);
        lemma_token(text, p, j);
        if written[k - 1].fraud {
            lemma_past_closing(text, p, j, key);
        }
    }
    assert(0 <= from);
    if k < written.len() {
        let i = 2 + 38 * k;
        lemma_catalog_token(written, k, 1);
        assert forall|n: int| j < n < i implies #[trigger] p[n] != Token::Text(key) by {
            lemma_no_vector(written, k, n);
        }
        lemma_find(text, p, j, i, key);
        lemma_token(text, p, i);
        lemma_reference_read(text, written, k);
        let (next_j, next) = if written[k].fraud {
            (36 + 38 * k, token_end(text, p, 36 + 38 * k) - 1)
        } else {
            (34 + 38 * k, token_end(text, p, 34 + 38 * k))
        };
        lemma_rest_read(text, written, k + 1, next_j, next);
        let tail = Seq::new((written.len() - k - 1) as nat, |i: int| written[k + 1 + i].read());
        assert(rest =~= seq![written[k].read()] + tail);
        crate::reference::lemma_reference_ends(text, from);
    } else {
        assert forall|n: int| j < n < p.len() implies #[trigger] p[n] != Token::Text(key) by {
            lemma_no_vector(written, k, n);
        }
        lemma_absent(text, p, j, token_end(text, p, j), key);
        assert(rest =~= Seq::<(Seq<i16>, u8)>::empty());
    }
}

/// References that are written as a JSON list of objects with a vector and a label, whatever white space
/// stands between the tokens, are read back in order: each number in ten thousandths, cut off behind the
/// fourth digit of its fraction and to sixteen bits, and each label.
pub proof fn lemma_written_references_are_read(text: Seq<u8>, written: Seq<Written>)
    requires
        spells(text, catalog_tokens(written)),
        all_written(written),
    ensures
        references(text, 0) matches Some(read) && read.len() == written.len() && forall|k: int|
            0 <= k < read.len() ==> {
                let (values, label) = #[trigger] read[k];
                &&& values.len() == 14
                &&& forall|d: int| 0 <= d < 14 ==> #[trigger] values[d] == low16(written[k].values[d].scaled())
                &&& label == if written[k].fraud { 1u8 } else { 0u8 }
            },
{
    lemma_rest_read(text, written, 0, -1, 0);
}

} // verus!
