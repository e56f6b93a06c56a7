//! Labelled reference vectors as they come, in JSON.
use vstd::prelude::*;

use crate::fraud_scoring::digits_end;
use crate::index::{Point, DIMS};
use crate::scanning::{find_byte, find_bytes, first_byte, first_word, is_digit, lemma_first_word,
    word};
use crate::time::digits_value;

verus! {

/// The references do not read as they should.
#[derive(Clone, Copy, Debug, PartialEq, Eq, Structural)]
pub struct InvalidReferences;

impl InvalidReferences {
    /// What is wrong, in words.
    pub fn message(&self) -> (text: &'static str)
        ensures
            text@ == "invalid references json"@,
    {
        "invalid references json"
    }
}

/// The sixteen low bits of a number, as a signed number.
pub open spec fn low16(n: int) -> i16 {
    let low = n % 0x1_0000;
    (if low < 0x8000 { low } else { low - 0x1_0000 }) as i16
}

/// The digit at a position, or zero behind the last.
pub open spec fn place(digits: Seq<u8>, k: int) -> int {
    if k < digits.len() { digits[k] - 48 } else { 0 }
}

/// The first four digits behind the point, in ten thousandths.
pub open spec fn ten_thousandths(digits: Seq<u8>) -> int {
    place(digits, 0) * 1_000 + place(digits, 1) * 100 + place(digits, 2) * 10 + place(digits, 3)
}

/// Where the digits before the point begin.
pub open spec fn past_sign(input: Seq<u8>, at: int) -> int {
    if at < input.len() && input[at] == 45 { at + 1 } else { at }
}

/// The digits behind the point: from where to where.
pub open spec fn fraction_span(input: Seq<u8>, at: int) -> (int, int) {
    if at < input.len() && input[at] == 46 {
        (at + 1, digits_end(input, at + 1))
    } else {
        (at, at)
    }
}

/// The number at a position in ten thousandths, cut to sixteen bits, and where it ends: a sign or
/// none, digits, and a point with digits or none. Digits behind the fourth after the point do not
/// count.
pub open spec fn scaled_number(input: Seq<u8>, at: int) -> (i16, int) {
    let start = past_sign(input, at);
    let end = digits_end(input, start);
    let (from, to) = fraction_span(input, end);
    let size = digits_value(input.subrange(start, end))->0 * 10_000 + ten_thousandths(
        input.subrange(from, to),
    );
    (low16(if start > at { -size } else { size }), to)
}

/// Where the next number begins: at the next minus sign or digit.
pub open spec fn number_start(input: Seq<u8>, at: int) -> Option<int>
    decreases input.len() - at,
{
    if at >= input.len() {
        None
    } else if input[at] == 45 || is_digit(input[at]) {
        Some(at)
    } else {
        number_start(input, at + 1)
    }
}

/// The next `count` numbers, and where the last of them ends.
pub open spec fn numbers(input: Seq<u8>, at: int, count: nat) -> Option<(Seq<i16>, int)>
    decreases count,
{
    if count == 0 {
        Some((Seq::empty(), at))
    } else {
        match numbers(input, at, (count - 1) as nat) {
            Some((before, from)) => match number_start(input, from) {
                Some(start) => {
                    let (value, end) = scaled_number(input, start);
                    Some((before.push(value), end))
                },
                None => None,
            },
            None => None,
        }
    }
}

/// Where a word first stands, if it does so before a byte.
pub open spec fn word_before(input: Seq<u8>, at: int, needle: Seq<u8>, stop: u8) -> Option<int> {
    match (first_word(input, at, needle), first_byte(input, at, stop)) {
        (Some(found), Some(end)) => if found < end { Some(found) } else { None },
        (found, None) => found,
        (None, _) => None,
    }
}

/// The label behind a position, and from where to read on: fraud if that word stands before the end
/// of the object, else legit, if that word does.
pub open spec fn label_at(input: Seq<u8>, at: int) -> Option<(u8, int)> {
    match word_before(input, at, word("fraud"@), 125) {
        Some(found) => Some((1u8, found + 5)),
        None => match word_before(input, at, word("legit"@), 125) {
            Some(_) => Some((0u8, at)),
            None => None,
        },
    }
}

/// The reference whose vector is announced at a position, and from where to read on.
pub open spec fn reference_at(input: Seq<u8>, at: int) -> Option<((Seq<i16>, u8), int)> {
    match numbers(input, at + 8, DIMS as nat) {
        Some((values, end)) => match first_word(input, end, word("\"label\""@)) {
            Some(found) => match label_at(input, found + 7) {
                Some((label, next)) => Some(((values, label), next)),
                None => None,
            },
            None => None,
        },
        None => None,
    }
}

/// The references from a position on; nothing if one of them does not read as it should.
pub open spec fn references(input: Seq<u8>, at: int) -> Option<Seq<(Seq<i16>, u8)>>
    decreases input.len() - at,
    when 0 <= at
{
    match first_word(input, at, word("\"vector\""@)) {
        None => Some(Seq::empty()),
        Some(found) => match reference_at(input, found) {
            None => None,
            Some((reference, next)) => {
                proof {
                    lemma_reference_ends(input, at);
                }
                match references(input, next) {
                    None => None,
                    Some(rest) => Some(seq![reference] + rest),
                }
            },
        },
    }
}

/// Where the last of the references from a position on ends, or the position if there is none.
pub open spec fn references_end(input: Seq<u8>, at: int) -> int
    decreases input.len() - at,
    when 0 <= at
{
    match first_word(input, at, word("\"vector\""@)) {
        None => at,
        Some(found) => match reference_at(input, found) {
            None => at,
            Some((_, next)) => {
                proof {
                    lemma_reference_ends(input, at);
                }
                references_end(input, next)
            },
        },
    }
}

/// The lengths of the words that are looked for.
proof fn lemma_words()
    ensures
        word("\"vector\""@).len() == 8,
        word("\"label\""@).len() == 7,
        word("fraud"@).len() == 5,
        word("legit"@).len() == 5,
{
    reveal_strlit("\"vector\"");
    reveal_strlit("\"label\"");
    reveal_strlit("fraud");
    reveal_strlit("legit");
    vstd::utf8::is_ascii_chars_encode_utf8("\"vector\""@);
    vstd::utf8::is_ascii_chars_encode_utf8("\"label\""@);
    vstd::utf8::is_ascii_chars_encode_utf8("fraud"@);
    vstd::utf8::is_ascii_chars_encode_utf8("legit"@);
}

/// A run of digits ends within the input.
proof fn lemma_run(input: Seq<u8>, at: int)
    requires
        0 <= at <= input.len(),
    ensures
        at <= digits_end(input, at) <= input.len(),
        forall|k: int| at <= k < digits_end(input, at) ==> is_digit(#[trigger] input[k]),
        digits_end(input, at) < input.len() ==> !is_digit(input[digits_end(input, at)]),
    decreases input.len() - at,
{
    if at < input.len() && is_digit(input[at]) {
        lemma_run(input, at + 1);
    }
}

/// A number ends within the input and not before it begins.
proof fn lemma_number_ends(input: Seq<u8>, at: int)
    requires
        0 <= at <= input.len(),
    ensures
        ({
            let start = past_sign(input, at);
            let end = digits_end(input, start);
            let (from, to) = fraction_span(input, end);
            at <= start <= end <= from <= to <= input.len() && to == scaled_number(input, at).1
        }),
{
    let start = past_sign(input, at);
    lemma_run(input, start);
    let end = digits_end(input, start);
    if end < input.len() {
        lemma_run(input, end + 1);
    }
}

/// A number begins within the input.
proof fn lemma_number_start(input: Seq<u8>, at: int)
    requires
        0 <= at <= input.len(),
    ensures
        number_start(input, at) matches Some(start) ==> at <= start < input.len(),
    decreases input.len() - at,
{
    if at < input.len() {
        lemma_number_start(input, at + 1);
    }
}

/// The last of some numbers ends within the input.
proof fn lemma_numbers_end(input: Seq<u8>, at: int, count: nat)
    requires
        0 <= at <= input.len(),
    ensures
        numbers(input, at, count) matches Some((values, end)) ==> at <= end <= input.len() && values.len()
            == count,
    decreases count,
{
    if count > 0 {
        lemma_numbers_end(input, at, (count - 1) as nat);
        if let Some((_, from)) = numbers(input, at, (count - 1) as nat) {
            lemma_number_start(input, from);
            if let Some(start) = number_start(input, from) {
                lemma_number_ends(input, start);
            }
        }
    }
}

/// Reading on happens behind the place where a vector was announced.
pub proof fn lemma_reference_ends(input: Seq<u8>, at: int)
    requires
        0 <= at,
    ensures
        first_word(input, at, word("\"vector\""@)) matches Some(found) ==> at <= found && found + 8
            <= input.len() && (reference_at(input, found) matches Some((_, next)) ==> found + 8 <= next
            <= input.len()),
{
    lemma_words();
    lemma_first_word(input, at, word("\"vector\""@));
    if let Some(found) = first_word(input, at, word("\"vector\""@)) {
        lemma_numbers_end(input, found + 8, DIMS as nat);
        if let Some((_, end)) = numbers(input, found + 8, DIMS as nat) {
            lemma_first_word(input, end, word("\"label\""@));
            if let Some(named) = first_word(input, end, word("\"label\""@)) {
                lemma_first_word(input, named + 7, word("fraud"@));
            }
        }
    }
}

/// One more digit in arithmetic modulo two to the sixteenth.
proof fn lemma_next_digit(value: int, low: int, digit: int)
    requires
        low == value % 0x1_0000,
        0 <= digit < 10,
    ensures
        (low * 10 + digit) % 0x1_0000 == (value * 10 + digit) % 0x1_0000,
{
    let q = value / 0x1_0000;
    assert(value == 0x1_0000 * q + low);
    vstd::arithmetic::div_mod::lemma_mod_multiples_vanish(q * 10, low * 10 + digit, 0x1_0000);
}

/// A size in arithmetic modulo two to the sixteenth.
proof fn lemma_size(value: int, low: int, fraction: int)
    requires
        low == value % 0x1_0000,
    ensures
        low16(low * 10_000 + fraction) == low16(value * 10_000 + fraction),
        low16(-(low * 10_000 + fraction)) == low16(-(value * 10_000 + fraction)),
{
    let q = value / 0x1_0000;
    assert(value == 0x1_0000 * q + low);
    vstd::arithmetic::div_mod::lemma_mod_multiples_vanish(
        q * 10_000,
        low * 10_000 + fraction,
        0x1_0000,
    );
    vstd::arithmetic::div_mod::lemma_mod_multiples_vanish(
        -q * 10_000,
        -(low * 10_000 + fraction),
        0x1_0000,
    );
}

/// Reads references from first to last.
pub struct ReferenceParser<'a> {
    pub input: &'a [u8],
    pub offset: usize,
}

impl<'a> ReferenceParser<'a> {
    /// The place of reading lies within the input.
    pub open spec fn wf(&self) -> bool {
        self.offset <= self.input@.len()
    }

    /// Reads an input from its beginning.
    pub fn new(input: &'a [u8]) -> (parser: Self)
        ensures
            parser.wf(),
            parser.input@ == input@,
            parser.offset == 0,
    {
        ReferenceParser { input, offset: 0 }
    }

    /// Where a word next stands.
    pub fn find(&self, needle: &[u8]) -> (found: Option<usize>)
        requires
            self.wf(),
        ensures
            match found {
                Some(at) => first_word(self.input@, self.offset as int, needle@) == Some(at as int) && at
                    + needle@.len() <= self.input.len(),
                None => first_word(self.input@, self.offset as int, needle@) is None,
            },
    {
        find_bytes(self.input, self.offset, needle)
    }

    /// Where a word next stands, if it does so before a byte.
    pub fn find_before(&self, needle: &[u8], stop: u8) -> (found: Option<usize>)
        requires
            self.wf(),
        ensures
            match found {
                Some(at) => word_before(self.input@, self.offset as int, needle@, stop) == Some(at as int)
                    && at + needle@.len() <= self.input.len(),
                None => word_before(self.input@, self.offset as int, needle@, stop) is None,
            },
    {
        let at: usize = self.find(needle)?;
        match find_byte(self.input, self.offset, stop) {
            Some(end) => if at < end {
                Some(at)
            } else {
                None
            },
            None => Some(at),
        }
    }

    /// Goes to where the next number begins.
    pub fn seek_number(&mut self) -> (found: Result<(), InvalidReferences>)
        requires
            old(self).wf(),
        ensures
            final(self).wf(),
            final(self).input@ == old(self).input@,
            match found {
                Ok(_) => number_start(old(self).input@, old(self).offset as int) == Some(
                    final(self).offset as int,
                ) && final(self).offset < old(self).input@.len(),
                Err(_) => number_start(old(self).input@, old(self).offset as int) is None
                    && final(self).offset == old(self).input@.len(),
            },
    {
        while self.offset < self.input.len()
            invariant
                self.wf(),
                self.input@ == old(self).input@,
                number_start(self.input@, self.offset as int) == number_start(
                    old(self).input@,
                    old(self).offset as int,
                ),
            decreases self.input@.len() - self.offset,
        {
            let byte: u8 = self.input[self.offset];
            if byte == 45 || (48 <= byte && byte <= 57) {
                return Ok(());
            }
            self.offset = self.offset + 1;
        }
        Err(InvalidReferences)
    }

    /// The digit at a place of a stretch of digits, or zero behind the last.
    fn place_value(&self, from: usize, to: usize, k: usize) -> (digit: u32)
        requires
            from <= to <= self.input@.len(),
            k < 4,
            forall|i: int| from <= i < to ==> is_digit(#[trigger] self.input@[i]),
        ensures
            digit == place(self.input@.subrange(from as int, to as int), k as int),
            digit < 10,
    {
        if k < to - from {
            assert(is_digit(self.input@[from + k]));
            (self.input[from + k] - 48) as u32
        } else {
            0
        }
    }

    /// Goes behind a run of digits.
    fn pass_digits(&mut self)
        requires
            old(self).wf(),
        ensures
            final(self).wf(),
            final(self).input@ == old(self).input@,
            final(self).offset == digits_end(old(self).input@, old(self).offset as int),
    {
        while self.offset < self.input.len() && 48 <= self.input[self.offset] && self.input[self.offset]
            <= 57
            invariant
                self.wf(),
                self.input@ == old(self).input@,
                digits_end(self.input@, self.offset as int) == digits_end(
                    old(self).input@,
                    old(self).offset as int,
                ),
            decreases self.input@.len() - self.offset,
        {
            self.offset = self.offset + 1;
        }
    }

    /// The number that a stretch of digits writes, modulo two to the sixteenth.
    fn low_bits(&self, start: usize, end: usize) -> (low: u32)
        requires
            start <= end <= self.input@.len(),
            forall|k: int| start <= k < end ==> is_digit(#[trigger] self.input@[k]),
        ensures
            low < 0x1_0000,
            low == digits_value(self.input@.subrange(start as int, end as int))->0 % 0x1_0000,
    {
        let ghost text = self.input@;
        let ghost digits = text.subrange(start as int, end as int);
        assert(digits.take(0) =~= Seq::<u8>::empty());
        let mut low: u32 = 0;
        let mut i: usize = start;
        while i < end
            invariant
                start <= i <= end <= text.len(),
                text == self.input@,
                digits == text.subrange(start as int, end as int),
                low < 0x1_0000,
                forall|k: int| start <= k < end ==> is_digit(#[trigger] text[k]),
                digits_value(digits.take(i - start)) matches Some(value) && low == value % 0x1_0000,
            decreases end - i,
        {
            let digit: u32 = (self.input[i] - 48) as u32;
            proof {
                let next = digits.take(i + 1 - start);
                assert(next.drop_last() =~= digits.take(i - start));
                assert(next.last() == text[i as int]);
                lemma_next_digit(digits_value(digits.take(i - start))->0, low as int, digit as int);
            }
            low = (low * 10 + digit) % 0x1_0000;
            i = i + 1;
        }
        assert(digits.take(end - start) =~= digits);
        low
    }

    /// The ten thousandths that a stretch of digits behind a point writes.
    fn fraction(&self, from: usize, to: usize) -> (fraction: u32)
        requires
            from <= to <= self.input@.len(),
            forall|k: int| from <= k < to ==> is_digit(#[trigger] self.input@[k]),
        ensures
            fraction < 10_000,
            fraction == ten_thousandths(self.input@.subrange(from as int, to as int)),
    {
        self.place_value(from, to, 0) * 1_000 + self.place_value(from, to, 1) * 100 + self.place_value(
            from,
            to,
            2,
        ) * 10 + self.place_value(from, to, 3)
    }

    /// Goes behind a given byte, if it stands here.
    fn pass_byte(&mut self, byte: u8) -> (passed: bool)
        requires
            old(self).wf(),
        ensures
            final(self).wf(),
            final(self).input@ == old(self).input@,
            passed == (old(self).offset < old(self).input@.len() && old(self).input@[old(self).offset as int]
                == byte),
            final(self).offset == old(self).offset + if passed { 1int } else { 0int },
    {
        if self.offset < self.input.len() && self.input[self.offset] == byte {
            self.offset = self.offset + 1;
            true
        } else {
            false
        }
    }

    /// Reads the number that begins here, in ten thousandths, cut to sixteen bits.
    pub fn parse_scaled_number(&mut self) -> (value: i16)
        requires
            old(self).wf(),
        ensures
            final(self).wf(),
            final(self).input@ == old(self).input@,
            (value, final(self).offset as int) == scaled_number(old(self).input@, old(self).offset as int),
    {
        let negative: bool = self.pass_byte(45);
        let start: usize = self.offset;
        self.pass_digits();
        let end: usize = self.offset;
        proof {
            lemma_run(self.input@, start as int);
        }
        let low: u32 = self.low_bits(start, end);
        let pointed: bool = self.pass_byte(46);
        let from: usize = self.offset;
        if pointed {
            self.pass_digits();
            proof {
                lemma_run(self.input@, from as int);
            }
        }
        let to: usize = self.offset;
        let fraction: u32 = self.fraction(from, to);
        proof {
            lemma_size(
                digits_value(self.input@.subrange(start as int, end as int))->0,
                low as int,
                fraction as int,
            );
        }
        signed_low(low * 10_000 + fraction, negative)
    }

    /// Reads the next vector.
    fn parse_vector(&mut self) -> (values: Result<[i16; DIMS], InvalidReferences>)
        requires
            old(self).wf(),
        ensures
            final(self).wf(),
            final(self).input@ == old(self).input@,
            match values {
                Ok(values) => numbers(old(self).input@, old(self).offset as int, DIMS as nat) == Some(
                    (values@, final(self).offset as int),
                ),
                Err(_) => numbers(old(self).input@, old(self).offset as int, DIMS as nat) is None,
            },
    {
        let ghost text = self.input@;
        let ghost begin = self.offset as int;
        let mut values: [i16; DIMS] = [0;DIMS];
        let mut i: usize = 0;
        assert(values@.take(0) =~= Seq::<i16>::empty());
        while i < DIMS
            invariant
                i <= DIMS,
                self.wf(),
                self.input@ == text,
                text == old(self).input@,
                begin == old(self).offset,
                numbers(text, begin, i as nat) == Some((values@.take(i as int), self.offset as int)),
            decreases DIMS - i,
        {
            proof {
                lemma_numbers_all(text, begin, (i + 1) as nat, DIMS as nat);
            }
            match self.seek_number() {
                Ok(_) => {},
                Err(error) => {
                    return Err(error);
                },
            }
            let ghost taken = values@.take(i as int);
            let value: i16 = self.parse_scaled_number();
            values[i] = value;
            assert(values@.take(i + 1) =~= taken.push(value));
            i = i + 1;
        }
        assert(values@.take(DIMS as int) =~= values@);
        Ok(values)
    }

    /// Reads the next label.
    fn parse_label(&mut self) -> (label: Result<u8, InvalidReferences>)
        requires
            old(self).wf(),
        ensures
            final(self).wf(),
            final(self).input@ == old(self).input@,
            match label {
                Ok(label) => label_at(old(self).input@, old(self).offset as int) == Some(
                    (label, final(self).offset as int),
                ),
                Err(_) => label_at(old(self).input@, old(self).offset as int) is None,
            },
    {
        proof {
            lemma_words();
        }
        if let Some(found) = self.find_before("fraud".as_bytes(), 125) {
            self.offset = found + 5;
            return Ok(1);
        }
        match self.find_before("legit".as_bytes(), 125) {
            Some(_) => Ok(0),
            None => Err(InvalidReferences),
        }
    }

    /// Reads the reference whose vector is announced here.
    fn parse_reference(&mut self) -> (point: Result<Point, InvalidReferences>)
        requires
            old(self).wf(),
            old(self).offset + 8 <= old(self).input@.len(),
        ensures
            final(self).wf(),
            final(self).input@ == old(self).input@,
            match point {
                Ok(point) => point.reserved == 0 && reference_at(
                    old(self).input@,
                    old(self).offset as int,
                ) == Some(((point.values@, point.label), final(self).offset as int)),
                Err(_) => reference_at(old(self).input@, old(self).offset as int) is None,
            },
    {
        proof {
            lemma_words();
        }
        assert(self.offset + 8 <= self.input.len());
        self.offset = self.offset + 8;
        let values: [i16; DIMS] = match self.parse_vector() {
            Ok(values) => values,
            Err(error) => {
                return Err(error);
            },
        };
        let named: usize = match self.find("\"label\"".as_bytes()) {
            Some(named) => named,
            None => {
                return Err(InvalidReferences);
            },
        };
        self.offset = named + 7;
        match self.parse_label() {
            Ok(label) => Ok(Point { values, label, reserved: 0 }),
            Err(error) => Err(error),
        }
    }

    /// Reads all references from here on.
    pub fn parse_all(&mut self) -> (parsed: Result<Vec<Point>, InvalidReferences>)
        requires
            old(self).wf(),
        ensures
            final(self).wf(),
            final(self).input@ == old(self).input@,
            parsed is Ok ==> final(self).offset == references_end(
                old(self).input@,
                old(self).offset as int,
            ),
            match parsed {
                Ok(points) => match references(old(self).input@, old(self).offset as int) {
                    Some(expected) => read_as(points@, expected),
                    None => false,
                },
                Err(_) => references(old(self).input@, old(self).offset as int) is None,
            },
    {
        let ghost text = self.input@;
        let ghost begin = self.offset as int;
        let mut points: Vec<Point> = Vec::new();
        let ghost mut before: Seq<(Seq<i16>, u8)> = Seq::empty();
        proof {
            if let Some(rest) = references(text, begin) {
                assert(before + rest =~= rest);
            }
        }
        loop
            invariant
                self.wf(),
                self.input@ == text,
                text == old(self).input@,
                begin == old(self).offset,
                read_as(points@, before),
                references_end(text, begin) == references_end(text, self.offset as int),
                references(text, begin) == match references(text, self.offset as int) {
                    Some(rest) => Some(before + rest),
                    None => None,
                },
            decreases text.len() - self.offset,
        {
            proof {
                lemma_reference_ends(text, self.offset as int);
            }
            let found: usize = match self.find("\"vector\"".as_bytes()) {
                Some(found) => found,
                None => {
                    assert(before + Seq::<(Seq<i16>, u8)>::empty() =~= before);
                    return Ok(points);
                },
            };
            self.offset = found;
            let point: Point = match self.parse_reference() {
                Ok(point) => point,
                Err(error) => {
                    return Err(error);
                },
            };
            points.push(point);
            proof {
                let reference = (point.values@, point.label);
                let grown = before.push(reference);
                if let Some(rest) = references(text, self.offset as int) {
                    assert(grown + rest =~= before + (seq![reference] + rest));
                }
                before = grown;
            }
        }
    }
}

/// The sixteen low bits of a size with a sign.
fn signed_low(size: u32, negative: bool) -> (value: i16)
    ensures
        value == low16(if negative { -size } else { size as int }),
{
    let low: u32 = size % 0x1_0000;
    let cut: u32 = if negative && low > 0 {
        0x1_0000 - low
    } else {
        low
    };
    if cut < 0x8000 {
        cut as i16
    } else {
        (cut as i32 - 0x1_0000) as i16
    }
}

/// If one of some numbers is missing, so are all that are counted beyond it.
proof fn lemma_numbers_all(input: Seq<u8>, at: int, some: nat, all: nat)
    requires
        some <= all,
    ensures
        numbers(input, at, some) is None ==> numbers(input, at, all) is None,
    decreases all,
{
    if some < all {
        lemma_numbers_all(input, at, some, (all - 1) as nat);
    }
}

/// Points are the references that were read, in order.
pub open spec fn read_as(points: Seq<Point>, expected: Seq<(Seq<i16>, u8)>) -> bool {
    points.len() == expected.len() && forall|i: int|
        0 <= i < points.len() ==> (#[trigger] points[i]).values@ == expected[i].0 && points[i].label
            == expected[i].1 && points[i].reserved == 0
}

} // verus!
