//! What the words of the environment mean, from the way they are written.
use vstd::prelude::*;

use crate::catalog::{all_digits, lemma_digits_write};
use crate::scanning::{first_byte, word};
use crate::settings::{grid_cut, grid_of, lower, natural, order_of, same_letters, says_yes, whole,
    without_slashes, workers_of, BuildOrder};
use crate::time::{digits_value, lemma_digits_broken};

verus! {

/// Nothing but digits writes a number in digits.
pub proof fn lemma_only_digits_write(text: Seq<u8>)
    ensures
        digits_value(text) is Some <==> all_digits(text),
        digits_value(text) matches Some(n) ==> 0 <= n,
    decreases text.len(),
{
    if all_digits(text) {
        lemma_digits_write(text);
    } else {
        let k = choose|k: int| 0 <= k < text.len() && !(48 <= #[trigger] text[k] <= 57);
        let upto = text.take(k + 1);
        assert(upto.last() == text[k]);
        assert(digits_value(upto) is None);
        lemma_digits_broken(text, k + 1);
    }
}

/// A natural number is written in digits, with a plus sign before them or none, and read as what they
/// write, if it fits; nothing else is a number.
pub proof fn lemma_naturals(digits: Seq<u8>, other: Seq<u8>)
    ensures
        digits.len() > 0 && all_digits(digits) && digits_value(digits)->0 <= usize::MAX ==> natural(digits)
            == digits_value(digits) && natural(seq![43u8] + digits) == digits_value(digits),
        digits.len() > 0 && all_digits(digits) && digits_value(digits)->0 > usize::MAX ==> natural(digits)
            is None && natural(seq![43u8] + digits) is None,
        other.len() == 0 ==> natural(other) is None,
        (exists|k: int| 1 <= k < other.len() && !(48 <= #[trigger] other[k] <= 57)) ==> natural(other) is None,
        other.len() > 0 && other[0] != 43 && !(48 <= other[0] <= 57) ==> natural(other) is None,
        natural(seq![43u8]) is None,
{
    lemma_only_digits_write(digits);
    lemma_only_digits_write(other);
    lemma_only_digits_write(seq![43u8]);
    assert((seq![43u8] + digits).skip(1) =~= digits);
    if digits.len() > 0 {
        assert(digits[0] == 43 ==> !all_digits(digits));
    }
    if exists|k: int| 1 <= k < other.len() && !(48 <= #[trigger] other[k] <= 57) {
        let k = choose|k: int| 1 <= k < other.len() && !(48 <= #[trigger] other[k] <= 57);
        lemma_only_digits_write(other.skip(1));
        assert(other.skip(1)[k - 1] == other[k]);
    }
    assert(!(48 <= seq![43u8][0] <= 57));
}

/// A whole number is written like a natural one, or in digits behind a minus sign, and then read as
/// less than zero, if it fits.
pub proof fn lemma_wholes(digits: Seq<u8>)
    requires
        digits.len() > 0,
        all_digits(digits),
    ensures
        ({
            let value = digits_value(digits)->0;
            &&& digits_value(digits) is Some
            &&& whole(digits) == if value <= 2_147_483_647 { Some(value) } else { None }
            &&& whole(seq![43u8] + digits) == whole(digits)
            &&& whole(seq![45u8] + digits) == if value <= 2_147_483_648 { Some(-value) } else { None }
        }),
{
    lemma_only_digits_write(digits);
    assert((seq![43u8] + digits).skip(1) =~= digits);
    assert((seq![45u8] + digits).skip(1) =~= digits);
    assert(48 <= digits[0] <= 57);
}

/// A word says no if and only if it is `0`, or `false` in any mixture of small and capital letters.
pub proof fn lemma_noes(value: Seq<u8>)
    ensures
        !says_yes(value) <==> (value.len() == 1 && value[0] == 48) || (value.len() == 5 && (value[0] == 102
            || value[0] == 70) && (value[1] == 97 || value[1] == 65) && (value[2] == 108 || value[2] == 76)
            && (value[3] == 115 || value[3] == 83) && (value[4] == 101 || value[4] == 69)),
{
    reveal_strlit("0");
    reveal_strlit("false");
    vstd::utf8::is_ascii_chars_encode_utf8("0"@);
    vstd::utf8::is_ascii_chars_encode_utf8("false"@);
    let no = word("false"@);
    let zero = word("0"@);
    assert(no.len() == 5 && no[0] == 102 && no[1] == 97 && no[2] == 108 && no[3] == 115 && no[4] == 101);
    assert(zero.len() == 1 && zero[0] == 48);
    if value.len() == 1 && value[0] == 48 {
        assert(value =~= zero);
    }
    if same_letters(value, no) {
        assert(lower(value[0]) == lower(no[0]) && lower(value[1]) == lower(no[1]) && lower(value[2])
            == lower(no[2]) && lower(value[3]) == lower(no[3]) && lower(value[4]) == lower(no[4]));
    }
    if value.len() == 5 && (value[0] == 102 || value[0] == 70) && (value[1] == 97 || value[1] == 65) && (
    value[2] == 108 || value[2] == 76) && (value[3] == 115 || value[3] == 83) && (value[4] == 101
        || value[4] == 69) {
        assert forall|k: int| 0 <= k < 5 implies lower(#[trigger] value[k]) == lower(no[k]) by {}
    }
}

/// The number of workers is what digits write, but at least one; for no word, and for a word that is no
/// number, it is 192.
pub proof fn lemma_workers(text: &str)
    ensures
        workers_of(None) == 192,
        natural(word(text@)) is None ==> workers_of(Some(text)) == 192,
        natural(word(text@)) == Some(0int) ==> workers_of(Some(text)) == 1,
        natural(word(text@)) matches Some(n) ==> (n > 0 ==> workers_of(Some(text)) == n),
{
}

/// A byte is found where it first stands.
proof fn lemma_parted(first: Seq<u8>, byte: u8, second: Seq<u8>)
    requires
        !first.contains(byte),
    ensures
        first_byte(first + seq![byte] + second, 0, byte) == Some(first.len() as int),
        (first + seq![byte] + second).take(first.len() as int) == first,
        (first + seq![byte] + second).skip(first.len() as int + 1) == second,
{
    let text = first + seq![byte] + second;
    assert forall|k: int| 0 <= k < first.len() implies text[k] != byte by {
        assert(text[k] == first[k]);
        assert(first.contains(first[k]));
    }
    crate::tokens::lemma_pass_bytes(text, 0, first.len() as int, byte);
    assert(text[first.len() as int] == byte);
    assert(text.take(first.len() as int) =~= first);
    assert(text.skip(first.len() as int + 1) =~= second);
}

/// A byte that does not stand is not found.
proof fn lemma_no_byte(text: Seq<u8>, from: int, byte: u8)
    requires
        0 <= from,
        forall|k: int| from <= k < text.len() ==> text[k] != byte,
    ensures
        first_byte(text, from, byte) is None,
    decreases text.len() - from,
{
    if from < text.len() {
        lemma_no_byte(text, from + 1, byte);
    }
}

/// Two numbers with a comma or a hyphen between them name a grid if and only if they are different axes
/// from 2 to 13.
pub proof fn lemma_grids(first: Seq<u8>, second: Seq<u8>)
    requires
        first.len() > 0,
        all_digits(first),
        second.len() > 0,
        all_digits(second),
    ensures
        ({
            let a = digits_value(first)->0;
            let b = digits_value(second)->0;
            let grid = if 2 <= a <= 13 && 2 <= b <= 13 && a != b { Some((a as usize, b as usize)) } else { None };
            &&& grid_of(first + seq![44u8] + second) == grid
            &&& grid_of(first + seq![45u8] + second) == grid
        }),
{
    assert forall|k: int| 0 <= k < first.len() implies first[k] != 44 && first[k] != 45 by {
        assert(48 <= first[k] <= 57);
    }
    assert forall|k: int| 0 <= k < second.len() implies second[k] != 44 by {
        assert(48 <= second[k] <= 57);
    }
    lemma_parted(first, 44, second);
    lemma_parted(first, 45, second);
    lemma_no_byte(first + seq![45u8] + second, 0, 44);
    lemma_only_digits_write(first);
    lemma_only_digits_write(second);
    lemma_naturals(first, first);
    lemma_naturals(second, second);
    let comma = first + seq![44u8] + second;
    let hyphen = first + seq![45u8] + second;
    assert(grid_cut(comma) == Some(first.len() as int));
    assert(grid_cut(hyphen) == Some(first.len() as int));
}

/// No word, an empty one, `0` and `none` in any letters ask for the order of the buckets; a grid for
/// that of its cells.
pub proof fn lemma_orders(text: &str)
    ensures
        order_of(None) == Some(BuildOrder::ByBucket),
        word(text@).len() == 0 ==> order_of(Some(text)) == Some(BuildOrder::ByBucket),
        word(text@) == word("0"@) ==> order_of(Some(text)) == Some(BuildOrder::ByBucket),
        word(text@) == word("none"@) ==> order_of(Some(text)) == Some(BuildOrder::ByBucket),
        word(text@).len() > 4 ==> order_of(Some(text)) == match grid_of(word(text@)) {
            Some(dims) => Some(BuildOrder::ByCell { dims }),
            None => None,
        },
{
    reveal_strlit("0");
    reveal_strlit("none");
    vstd::utf8::is_ascii_chars_encode_utf8("0"@);
    vstd::utf8::is_ascii_chars_encode_utf8("none"@);
}

/// Slashes at the end of a path do not count, and nothing else is taken from it.
pub proof fn lemma_slashes(path: Seq<char>)
    ensures
        without_slashes(path.push('/')) == without_slashes(path),
        path.len() > 0 && path.last() != '/' ==> without_slashes(path) == path,
        without_slashes(Seq::<char>::empty()) == Seq::<char>::empty(),
{
    assert(path.push('/').drop_last() =~= path);
}

} // verus!
