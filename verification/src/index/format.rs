//! The bytes of an index file.
use vstd::prelude::*;

use crate::index::assembly::bucket_offsets;
use crate::index::grouping::{bucket_key, group_offsets};
use crate::index::loading::{built_view, IndexConfig};
use crate::index::{monotone, valid_offsets, Index, Point, BUCKETS, DIMS};

verus! {

/// Length of everything before the points.
pub const INDEX_HEADER_LEN: usize = 107_536;

/// Length of one point.
pub const POINT_LEN: usize = 30;

/// The first bytes of every index file: `RINHAO09`.
pub open spec fn magic() -> Seq<u8> {
    seq![82u8, 73, 78, 72, 65, 79, 48, 57]
}

/// Why bytes are no index.
#[derive(Clone, Copy, Debug, PartialEq, Eq, Structural)]
pub enum IndexError {
    InvalidMagic,
    PointCountOverflow,
    SizeOverflow,
    Truncated,
}

impl IndexError {
    /// The error in words.
    pub fn message(self) -> (text: &'static str)
        ensures
            text@ == match self {
                IndexError::InvalidMagic => "invalid index magic"@,
                IndexError::PointCountOverflow => "index point count overflow"@,
                IndexError::SizeOverflow => "index size overflow"@,
                IndexError::Truncated => "truncated index"@,
            },
    {
        match self {
            IndexError::InvalidMagic => "invalid index magic",
            IndexError::PointCountOverflow => "index point count overflow",
            IndexError::SizeOverflow => "index size overflow",
            IndexError::Truncated => "truncated index",
        }
    }
}

/// Byte `at` of a word, the lowest first.
pub open spec fn word_byte(word: u32, at: int) -> u8 {
    if at == 0 {
        (word % 256) as u8
    } else if at == 1 {
        (word / 256 % 256) as u8
    } else if at == 2 {
        (word / 65_536 % 256) as u8
    } else {
        (word / 16_777_216) as u8
    }
}

/// A component as an unsigned number.
pub open spec fn unsigned(value: i16) -> int {
    if value < 0 { value + 65_536 } else { value as int }
}

/// Byte `at` of a component, the lower first.
pub open spec fn value_byte(value: i16, at: int) -> u8 {
    if at == 0 { (unsigned(value) % 256) as u8 } else { (unsigned(value) / 256) as u8 }
}

/// Byte `at` of a point: its values, its label and its reserved byte.
pub open spec fn point_byte(point: Point, at: int) -> u8 {
    if at < 28 {
        value_byte(point.values@[at / 2], at % 2)
    } else if at == 28 {
        point.label
    } else {
        point.reserved
    }
}

/// The bytes of words.
pub open spec fn word_bytes(words: Seq<u32>) -> Seq<u8> {
    Seq::new(words.len() * 4, |i: int| word_byte(words[i / 4], i % 4))
}

/// The bytes of points.
pub open spec fn point_bytes(points: Seq<Point>) -> Seq<u8> {
    Seq::new(points.len() * 30, |i: int| point_byte(points[i / 30], i % 30))
}

/// The offsets of points that stand bucket by bucket.
pub open spec fn offsets_of(points: Seq<Point>) -> Seq<u32> {
    group_offsets(points, bucket_key(), BUCKETS as int, 0)
}

/// The bytes of an index file.
pub open spec fn index_bytes(points: Seq<Point>) -> Seq<u8> {
    magic() + word_bytes(seq![points.len() as u32]) + word_bytes(offsets_of(points)) + point_bytes(
        points,
    )
}

/// The word at a position.
pub open spec fn word_at(bytes: Seq<u8>, at: int) -> u32 {
    (bytes[at] + 256 * bytes[at + 1] + 65_536 * bytes[at + 2] + 16_777_216 * bytes[at + 3]) as u32
}

/// The component at a position.
pub open spec fn value_at(bytes: Seq<u8>, at: int) -> i16 {
    let number = bytes[at] + 256 * bytes[at + 1];
    (if number < 32_768 { number } else { number - 65_536 }) as i16
}

/// The point at a position.
pub open spec fn point_at(bytes: Seq<u8>, at: int) -> Point {
    Point {
        values: [
            value_at(bytes, at),
            value_at(bytes, at + 2),
            value_at(bytes, at + 4),
            value_at(bytes, at + 6),
            value_at(bytes, at + 8),
            value_at(bytes, at + 10),
            value_at(bytes, at + 12),
            value_at(bytes, at + 14),
            value_at(bytes, at + 16),
            value_at(bytes, at + 18),
            value_at(bytes, at + 20),
            value_at(bytes, at + 22),
            value_at(bytes, at + 24),
            value_at(bytes, at + 26),
        ],
        label: bytes[at + 28],
        reserved: bytes[at + 29],
    }
}

/// The header is there and begins as it has to.
pub open spec fn header_present(bytes: Seq<u8>) -> bool {
    bytes.len() >= INDEX_HEADER_LEN && bytes.take(8) == magic()
}

/// How many points the header announces.
pub open spec fn announced(bytes: Seq<u8>) -> int {
    word_at(bytes, 8) as int
}

/// Why the bytes are no index, if they are none.
pub open spec fn defect(bytes: Seq<u8>) -> Option<IndexError> {
    if !header_present(bytes) {
        Some(IndexError::InvalidMagic)
    } else if announced(bytes) * POINT_LEN > usize::MAX {
        Some(IndexError::PointCountOverflow)
    } else if INDEX_HEADER_LEN + announced(bytes) * POINT_LEN > usize::MAX {
        Some(IndexError::SizeOverflow)
    } else if bytes.len() < INDEX_HEADER_LEN + announced(bytes) * POINT_LEN {
        Some(IndexError::Truncated)
    } else {
        None
    }
}

/// The bucket offsets in an index file.
pub open spec fn stored_offsets(bytes: Seq<u8>) -> Seq<u32> {
    Seq::new((BUCKETS + 1) as nat, |b: int| word_at(bytes, 12 + 4 * b))
}

/// The points in an index file.
pub open spec fn stored_points(bytes: Seq<u8>) -> Seq<Point> {
    Seq::new(announced(bytes) as nat, |i: int| point_at(bytes, INDEX_HEADER_LEN + 30 * i))
}

/// The bytes are no index, or their bucket offsets stay within their points.
pub open spec fn sound_offsets(bytes: Seq<u8>) -> bool {
    defect(bytes) is None ==> valid_offsets(stored_offsets(bytes), announced(bytes))
}

fn push_word(out: &mut Vec<u8>, word: u32)
    ensures
        final(out)@ == old(out)@ + Seq::new(4, |j: int| word_byte(word, j)),
{
    out.push((word % 256) as u8);
    out.push((word / 256 % 256) as u8);
    out.push((word / 65_536 % 256) as u8);
    out.push((word / 16_777_216) as u8);
}

fn push_value(out: &mut Vec<u8>, value: i16)
    ensures
        final(out)@ == old(out)@ + seq![value_byte(value, 0), value_byte(value, 1)],
{
    let number: i32 = if value < 0 {
        value as i32 + 65_536
    } else {
        value as i32
    };
    out.push((number % 256) as u8);
    out.push((number / 256) as u8);
}

fn push_point(out: &mut Vec<u8>, point: &Point)
    ensures
        final(out)@ == old(out)@ + Seq::new(30, |j: int| point_byte(*point, j)),
{
    let ghost before = out@;
    let mut d: usize = 0;
    while d < DIMS
        invariant
            d <= DIMS,
            out@ == before + Seq::new((2 * d) as nat, |j: int| point_byte(*point, j)),
        decreases DIMS - d,
    {
        let ghost partial = out@;
        push_value(out, point.values[d]);
        assert(out@ =~= before + Seq::new((2 * (d + 1)) as nat, |j: int| point_byte(*point, j))) by {
            assert(out@.len() == before.len() + 2 * (d + 1));
            assert(out@[before.len() + 2 * d] == point_byte(*point, 2 * d as int));
            assert(out@[before.len() + 2 * d + 1] == point_byte(*point, 2 * d + 1));
        }
        d = d + 1;
    }
    out.push(point.label);
    out.push(point.reserved);
    assert(out@ =~= before + Seq::new(30, |j: int| point_byte(*point, j)));
}

/// One more word.
proof fn lemma_word_bytes_push(words: Seq<u32>, word: u32)
    ensures
        word_bytes(words.push(word)) == word_bytes(words) + Seq::new(4, |j: int| word_byte(word, j)),
{
    assert(word_bytes(words.push(word)) =~= word_bytes(words) + Seq::new(
        4,
        |j: int| word_byte(word, j),
    ));
}

/// One more point.
proof fn lemma_point_bytes_push(points: Seq<Point>, point: Point)
    ensures
        point_bytes(points.push(point)) == point_bytes(points) + Seq::new(
            30,
            |j: int| point_byte(point, j),
        ),
{
    assert(point_bytes(points.push(point)) =~= point_bytes(points) + Seq::new(
        30,
        |j: int| point_byte(point, j),
    ));
}

fn read_word(bytes: &[u8], at: usize) -> (word: u32)
    requires
        at + 4 <= bytes@.len(),
    ensures
        word == word_at(bytes@, at as int),
{
    bytes[at] as u32 + 256 * (bytes[at + 1] as u32) + 65_536 * (bytes[at + 2] as u32) + 16_777_216 * (
    bytes[at + 3] as u32)
}

fn read_value(bytes: &[u8], at: usize) -> (value: i16)
    requires
        at + 2 <= bytes@.len(),
    ensures
        value == value_at(bytes@, at as int),
{
    let number: i32 = bytes[at] as i32 + 256 * (bytes[at + 1] as i32);
    if number < 32_768 {
        number as i16
    } else {
        (number - 65_536) as i16
    }
}

fn read_point(bytes: &[u8], at: usize) -> (point: Point)
    requires
        at + 30 <= bytes@.len(),
    ensures
        point == point_at(bytes@, at as int),
{
    let mut values: [i16; DIMS] = [0i16; DIMS];
    let mut d: usize = 0;
    while d < DIMS
        invariant
            d <= DIMS,
            at + 30 <= bytes@.len(),
            at + 30 <= bytes.len(),
            forall|k: int| 0 <= k < d ==> #[trigger] values@[k] == value_at(bytes@, at + 2 * k),
        decreases DIMS - d,
    {
        values[d] = read_value(bytes, at + 2 * d);
        d = d + 1;
    }
    let point = Point { values, label: bytes[at + 28], reserved: bytes[at + 29] };
    assert(point.values =~= point_at(bytes@, at as int).values);
    point
}

/// Whether the header is there and begins as it has to.
fn has_header(bytes: &[u8]) -> (present: bool)
    ensures
        present == header_present(bytes@),
{
    let present: bool = bytes.len() >= INDEX_HEADER_LEN && bytes[0] == 82 && bytes[1] == 73
        && bytes[2] == 78 && bytes[3] == 72 && bytes[4] == 65 && bytes[5] == 79 && bytes[6] == 48
        && bytes[7] == 57;
    proof {
        if bytes@.len() >= INDEX_HEADER_LEN {
            let first = bytes@.take(8);
            if present {
                assert(first =~= magic());
            } else if first == magic() {
                assert(first[0] == 82 && first[1] == 73 && first[2] == 78 && first[3] == 72 && first[4]
                    == 65 && first[5] == 79 && first[6] == 48 && first[7] == 57);
            }
        }
    }
    present
}

/// The number of points of an index file.
fn read_count(bytes: &[u8]) -> (count: Result<usize, IndexError>)
    ensures
        match count {
            Ok(n) => defect(bytes@) is None && n == announced(bytes@),
            Err(error) => defect(bytes@) == Some(error),
        },
{
    if !has_header(bytes) {
        return Err(IndexError::InvalidMagic);
    }
    let count: usize = read_word(bytes, 8) as usize;
    match count.checked_mul(POINT_LEN) {
        None => Err(IndexError::PointCountOverflow),
        Some(points_len) => match INDEX_HEADER_LEN.checked_add(points_len) {
            None => Err(IndexError::SizeOverflow),
            Some(expected_len) => if bytes.len() < expected_len {
                Err(IndexError::Truncated)
            } else {
                Ok(count)
            },
        },
    }
}

fn read_offsets(bytes: &[u8]) -> (offsets: Vec<u32>)
    requires
        bytes@.len() >= INDEX_HEADER_LEN,
    ensures
        offsets@ == stored_offsets(bytes@),
{
    let mut offsets: Vec<u32> = Vec::new();
    let mut b: usize = 0;
    while b < BUCKETS + 1
        invariant
            b <= BUCKETS + 1,
            bytes@.len() >= INDEX_HEADER_LEN,
            offsets@.len() == b,
            forall|k: int| 0 <= k < b ==> #[trigger] offsets@[k] == word_at(bytes@, 12 + 4 * k),
        decreases BUCKETS + 1 - b,
    {
        offsets.push(read_word(bytes, 12 + 4 * b));
        b = b + 1;
    }
    assert(offsets@ =~= stored_offsets(bytes@));
    offsets
}

/// Whether the bytes are no index, or their bucket offsets stay within their points.
pub fn offsets_sound(bytes: &[u8]) -> (sound: bool)
    ensures
        sound == sound_offsets(bytes@),
{
    match read_count(bytes) {
        Err(_) => true,
        Ok(count) => {
            let offsets: Vec<u32> = read_offsets(bytes);
            let mut b: usize = 0;
            while b < BUCKETS
                invariant
                    b <= BUCKETS,
                    offsets@ == stored_offsets(bytes@),
                    defect(bytes@) is None,
                    count == announced(bytes@),
                    forall|i: int, j: int| 0 <= i <= j <= b ==> offsets@[i] <= offsets@[j],
                decreases BUCKETS - b,
            {
                if offsets[b] > offsets[b + 1] {
                    assert(!monotone(offsets@));
                    return false;
                }
                b = b + 1;
            }
            offsets[BUCKETS] as usize <= count
        },
    }
}

impl Index {
    /// The bytes of an index file with the given points.
    pub fn write(points: &[Point]) -> (bytes: Vec<u8>)
        requires
            points@.len() <= u32::MAX,
        ensures
            bytes@ == index_bytes(points@),
    {
        let mut out: Vec<u8> = Vec::new();
        out.push(82);
        out.push(73);
        out.push(78);
        out.push(72);
        out.push(65);
        out.push(79);
        out.push(48);
        out.push(57);
        assert(out@ =~= magic());
        push_word(&mut out, points.len() as u32);
        proof {
            lemma_word_bytes_push(Seq::empty(), points@.len() as u32);
            assert(word_bytes(Seq::<u32>::empty()) =~= Seq::<u8>::empty());
            assert(Seq::<u32>::empty().push(points@.len() as u32) =~= seq![points@.len() as u32]);
        }
        let ghost start = out@;
        assert(start =~= magic() + word_bytes(seq![points@.len() as u32]));
        let offsets: Vec<u32> = bucket_offsets(points);
        let mut b: usize = 0;
        assert(out@ =~= start + word_bytes(offsets@.take(0)));
        while b < offsets.len()
            invariant
                b <= offsets@.len(),
                out@ == start + word_bytes(offsets@.take(b as int)),
            decreases offsets@.len() - b,
        {
            push_word(&mut out, offsets[b]);
            proof {
                assert(offsets@.take(b + 1) =~= offsets@.take(b as int).push(offsets@[b as int]));
                lemma_word_bytes_push(offsets@.take(b as int), offsets@[b as int]);
                assert(out@ =~= start + word_bytes(offsets@.take(b + 1)));
            }
            b = b + 1;
        }
        assert(offsets@.take(b as int) =~= offsets@);
        let ghost header = out@;
        let mut i: usize = 0;
        assert(out@ =~= header + point_bytes(points@.take(0)));
        while i < points.len()
            invariant
                i <= points@.len(),
                out@ == header + point_bytes(points@.take(i as int)),
            decreases points@.len() - i,
        {
            push_point(&mut out, &points[i]);
            proof {
                assert(points@.take(i + 1) =~= points@.take(i as int).push(points@[i as int]));
                lemma_point_bytes_push(points@.take(i as int), points@[i as int]);
                assert(out@ =~= header + point_bytes(points@.take(i + 1)));
            }
            i = i + 1;
        }
        assert(points@.take(i as int) =~= points@);
        out
    }

    /// Makes an index of the bytes of an index file.
    pub fn load(bytes: &[u8], config: &IndexConfig) -> (loaded: Result<Index, IndexError>)
        requires
            config.wf(),
            sound_offsets(bytes@),
        ensures
            match loaded {
                Ok(index) => {
                    &&& defect(bytes@) is None
                    &&& index.wf()
                    &&& index@ == built_view(stored_points(bytes@), stored_offsets(bytes@), *config)
                },
                Err(error) => defect(bytes@) == Some(error),
            },
    {
        let count: usize = match read_count(bytes) {
            Err(error) => {
                return Err(error);
            },
            Ok(count) => count,
        };
        let offsets: Vec<u32> = read_offsets(bytes);
        let mut points: Vec<Point> = Vec::new();
        let mut i: usize = 0;
        while i < count
            invariant
                i <= count,
                defect(bytes@) is None,
                count == announced(bytes@),
                INDEX_HEADER_LEN + count * 30 <= bytes.len(),
                points@.len() == i,
                forall|k: int|
                    0 <= k < i ==> #[trigger] points@[k] == point_at(bytes@, INDEX_HEADER_LEN + 30 * k),
            decreases count - i,
        {
            points.push(read_point(bytes, INDEX_HEADER_LEN + 30 * i));
            i = i + 1;
        }
        assert(points@ =~= stored_points(bytes@));
        Ok(Index::from_points(points, offsets, config))
    }
}

/// A word is read back from its bytes.
proof fn lemma_word_back(word: u32)
    ensures
        word_byte(word, 0) + 256 * word_byte(word, 1) + 65_536 * word_byte(word, 2) + 16_777_216
            * word_byte(word, 3) == word,
{
}

/// A component is read back from its bytes.
proof fn lemma_value_back(value: i16)
    ensures
        ({
            let number = value_byte(value, 0) + 256 * value_byte(value, 1);
            value == if number < 32_768 { number } else { number - 65_536 }
        }),
{
}

/// A file that was written is an index file: reading it gives back the points, and the offsets of
/// their buckets.
pub proof fn lemma_write_load(points: Seq<Point>)
    requires
        points.len() <= u32::MAX,
        INDEX_HEADER_LEN + points.len() * POINT_LEN <= usize::MAX,
    ensures
        defect(index_bytes(points)) is None,
        sound_offsets(index_bytes(points)),
        stored_points(index_bytes(points)) == points,
        stored_offsets(index_bytes(points)) == offsets_of(points),
{
    let bytes = index_bytes(points);
    let offsets = offsets_of(points);
    let head = word_bytes(seq![points.len() as u32]);
    assert(bytes.len() == INDEX_HEADER_LEN + points.len() * 30);
    assert(bytes.take(8) =~= magic());
    lemma_word_back(points.len() as u32);
    assert forall|j: int| 0 <= j < 4 implies #[trigger] bytes[8 + j] == word_byte(points.len() as u32, j) by {
        assert(bytes[8 + j] == head[j]);
    }
    assert(bytes[8int + 0] == word_byte(points.len() as u32, 0));
    assert(bytes[8int + 1] == word_byte(points.len() as u32, 1));
    assert(bytes[8int + 2] == word_byte(points.len() as u32, 2));
    assert(bytes[8int + 3] == word_byte(points.len() as u32, 3));
    assert(announced(bytes) == points.len());
    assert forall|b: int| 0 <= b < BUCKETS + 1 implies #[trigger] stored_offsets(bytes)[b]
        == offsets[b] by {
        lemma_word_back(offsets[b]);
        assert forall|j: int| 0 <= j < 4 implies #[trigger] bytes[12 + 4 * b + j] == word_byte(offsets[b], j) by {
            assert(bytes[12 + 4 * b + j] == word_bytes(offsets)[4 * b + j]);
        }
        assert(bytes[12 + 4 * b + 0] == word_byte(offsets[b], 0));
        assert(bytes[12 + 4 * b + 1] == word_byte(offsets[b], 1));
        assert(bytes[12 + 4 * b + 2] == word_byte(offsets[b], 2));
        assert(bytes[12 + 4 * b + 3] == word_byte(offsets[b], 3));
    }
    assert(stored_offsets(bytes) =~= offsets);
    assert forall|i: int| 0 <= i < points.len() implies #[trigger] stored_points(bytes)[i]
        == points[i] by {
        lemma_point_back(bytes, points, i);
    }
    assert(stored_points(bytes) =~= points);
    crate::index::grouping::lemma_count_bounds(points, bucket_key(), 0, BUCKETS as int);
    assert forall|a: int, b: int| 0 <= a <= b < offsets.len() implies offsets[a] <= offsets[b] by {
        crate::index::grouping::lemma_count_bounds(points, bucket_key(), a, b);
        crate::index::grouping::lemma_count_bounds(points, bucket_key(), b, BUCKETS as int);
    }
}

/// A point's bytes stand where they were written.
proof fn lemma_point_bytes_at(bytes: Seq<u8>, points: Seq<Point>, i: int, j: int)
    requires
        bytes == index_bytes(points),
        0 <= i < points.len(),
        points.len() <= u32::MAX,
        0 <= j < 30,
    ensures
        bytes[INDEX_HEADER_LEN + 30 * i + j] == point_byte(points[i], j),
{
    assert(bytes[INDEX_HEADER_LEN + 30 * i + j] == point_bytes(points)[30 * i + j]);
    assert((30 * i + j) / 30 == i && (30 * i + j) % 30 == j);
}

/// A component is read back from a point's bytes.
proof fn lemma_component_back(bytes: Seq<u8>, at: int, point: Point, d: int)
    requires
        0 <= d < DIMS,
        bytes[at + 2 * d] == point_byte(point, 2 * d),
        bytes[at + 2 * d + 1] == point_byte(point, 2 * d + 1),
    ensures
        value_at(bytes, at + 2 * d) == point.values@[d],
{
    lemma_value_back(point.values@[d]);
    assert((2 * d) / 2 == d && (2 * d) % 2 == 0);
    assert((2 * d + 1) / 2 == d && (2 * d + 1) % 2 == 1);
}

/// A point whose components are read back is read back.
proof fn lemma_components(bytes: Seq<u8>, at: int, point: Point)
    requires
        forall|d: int| 0 <= d < DIMS ==> value_at(bytes, at + 2 * d) == #[trigger] point.values@[d],
        bytes[at + 28] == point.label,
        bytes[at + 29] == point.reserved,
    ensures
        point_at(bytes, at) == point,
{
    let found = point_at(bytes, at);
    assert forall|d: int| 0 <= d < DIMS implies found.values@[d] == point.values@[d] by {
        assert(found.values@[d] == value_at(bytes, at + 2 * d));
    }
    assert(found.values =~= point.values);
}

/// A point is read back from a file that was written.
proof fn lemma_point_back(bytes: Seq<u8>, points: Seq<Point>, i: int)
    requires
        bytes == index_bytes(points),
        0 <= i < points.len(),
        points.len() <= u32::MAX,
    ensures
        point_at(bytes, INDEX_HEADER_LEN + 30 * i) == points[i],
{
    let at = INDEX_HEADER_LEN + 30 * i;
    let point = points[i];
    assert forall|d: int| 0 <= d < DIMS implies value_at(bytes, at + 2 * d)
        == #[trigger] point.values@[d] by {
        lemma_point_bytes_at(bytes, points, i, 2 * d);
        lemma_point_bytes_at(bytes, points, i, 2 * d + 1);
        lemma_component_back(bytes, at, point, d);
    }
    lemma_point_bytes_at(bytes, points, i, 28);
    lemma_point_bytes_at(bytes, points, i, 29);
    lemma_components(bytes, at, point);
}

} // verus!
