//! Finding bytes and words in a text.
use vstd::prelude::*;
use vstd::slice::slice_subrange;
use vstd::utf8::encode_utf8;

verus! {

/// A stretch of a text.
#[derive(Clone, Copy, Debug, PartialEq, Eq, Structural)]
pub struct Span {
    pub start: usize,
    pub end: usize,
}

impl Span {
    /// The stretch lies within a text.
    pub open spec fn within(self, text: Seq<u8>) -> bool {
        self.start <= self.end <= text.len()
    }

    /// The bytes of the stretch.
    pub open spec fn of(self, text: Seq<u8>) -> Seq<u8> {
        text.subrange(self.start as int, self.end as int)
    }

    /// The bytes of the stretch.
    pub fn slice<'a>(&self, text: &'a [u8]) -> (part: &'a [u8])
        requires
            self.within(text@),
        ensures
            part@ == self.of(text@),
    {
        slice_subrange(text, self.start, self.end)
    }
}

/// A position as an index.
pub open spec fn as_index(position: Option<int>) -> Option<usize> {
    match position {
        Some(at) => Some(at as usize),
        None => None,
    }
}

/// The bytes of a word.
pub open spec fn word(chars: Seq<char>) -> Seq<u8> {
    encode_utf8(chars)
}

/// A word stands at a position.
pub open spec fn stands_at(text: Seq<u8>, at: int, word: Seq<u8>) -> bool {
    at + word.len() <= text.len() && text.subrange(at, at + word.len()) == word
}

/// Where a word first stands, from a position on.
pub open spec fn first_word(text: Seq<u8>, from: int, word: Seq<u8>) -> Option<int>
    decreases text.len() + 1 - from,
{
    if from + word.len() > text.len() || from > text.len() {
        None
    } else if stands_at(text, from, word) {
        Some(from)
    } else {
        first_word(text, from + 1, word)
    }
}

/// Where a byte first stands, from a position on.
pub open spec fn first_byte(text: Seq<u8>, from: int, byte: u8) -> Option<int>
    decreases text.len() - from,
{
    if from >= text.len() {
        None
    } else if text[from] == byte {
        Some(from)
    } else {
        first_byte(text, from + 1, byte)
    }
}

/// A decimal digit.
pub open spec fn is_digit(byte: u8) -> bool {
    48 <= byte <= 57
}

/// A word is found where it first stands and nowhere before.
pub proof fn lemma_first_word(text: Seq<u8>, from: int, word: Seq<u8>)
    requires
        0 <= from,
    ensures
        match first_word(text, from, word) {
            Some(at) => from <= at && stands_at(text, at, word) && forall|k: int|
                from <= k < at ==> !#[trigger] stands_at(text, k, word),
            None => forall|k: int| from <= k ==> !#[trigger] stands_at(text, k, word),
        },
    decreases text.len() + 1 - from,
{
    if from + word.len() > text.len() || from > text.len() {
    } else if stands_at(text, from, word) {
    } else {
        lemma_first_word(text, from + 1, word);
    }
}

/// Whether two runs of bytes are equal.
pub fn same_bytes(left: &[u8], right: &[u8]) -> (same: bool)
    ensures
        same == (left@ == right@),
{
    if left.len() != right.len() {
        return false;
    }
    let mut i: usize = 0;
    while i < left.len()
        invariant
            i <= left@.len(),
            left@.len() == right@.len(),
            forall|k: int| 0 <= k < i ==> left@[k] == right@[k],
        decreases left@.len() - i,
    {
        if left[i] != right[i] {
            return false;
        }
        i = i + 1;
    }
    assert(left@ =~= right@);
    true
}

/// Whether bytes stand at a position.
pub fn bytes_stand_at(text: &[u8], at: usize, part: &[u8]) -> (stands: bool)
    requires
        at <= text@.len(),
    ensures
        stands == stands_at(text@, at as int, part@),
{
    if part.len() > text.len() - at {
        return false;
    }
    let mut i: usize = 0;
    while i < part.len()
        invariant
            i <= part@.len(),
            at + part@.len() <= text.len(),
            forall|k: int| 0 <= k < i ==> text@[at + k] == #[trigger] part@[k],
        decreases part@.len() - i,
    {
        if text[at + i] != part[i] {
            proof {
                let found = text@.subrange(at as int, at + part@.len());
                assert(found[i as int] != part@[i as int]);
            }
            return false;
        }
        i = i + 1;
    }
    assert(text@.subrange(at as int, at + part@.len()) =~= part@);
    true
}

/// Where bytes first stand, from a position on.
pub fn find_bytes(text: &[u8], from: usize, part: &[u8]) -> (found: Option<usize>)
    ensures
        found == as_index(first_word(text@, from as int, part@)),
        found matches Some(at) ==> from <= at && at + part@.len() <= text.len()
            && first_word(text@, from as int, part@) == Some(at as int),
        found is None ==> first_word(text@, from as int, part@) is None,
{
    if from > text.len() {
        return None;
    }
    let mut at: usize = from;
    while at < text.len() && part.len() <= text.len() - at
        invariant
            from <= at <= text@.len(),
            at <= text.len(),
            first_word(text@, from as int, part@) == first_word(text@, at as int, part@),
        decreases text@.len() - at,
    {
        if bytes_stand_at(text, at, part) {
            return Some(at);
        }
        at = at + 1;
    }
    if at == text.len() && part.len() == 0 {
        assert(text@.subrange(at as int, at + part@.len()) =~= part@);
        return Some(at);
    }
    None
}

/// Where a byte first stands, from a position on.
pub fn find_byte(text: &[u8], from: usize, byte: u8) -> (found: Option<usize>)
    ensures
        found == as_index(first_byte(text@, from as int, byte)),
        found matches Some(at) ==> from <= at < text.len() && text@[at as int] == byte
            && first_byte(text@, from as int, byte) == Some(at as int),
        found is None ==> first_byte(text@, from as int, byte) is None,
{
    let mut at: usize = from;
    while at < text.len()
        invariant
            from <= at,
            first_byte(text@, from as int, byte) == first_byte(text@, at as int, byte),
        decreases text@.len() - at,
    {
        if text[at] == byte {
            return Some(at);
        }
        at = at + 1;
    }
    None
}

} // verus!
