//! What masks, rules, decisions and numbers of buckets mean, value by value.
use vstd::prelude::*;

use crate::index::format::{announced, defect, index_bytes, magic, offsets_of, point_byte,
    point_bytes, word_byte, word_bytes, IndexError};
use crate::index::geometry::{bucket_of_vector, mcc_level, sector_of, sector_of_point};
use crate::index::loading::majority;
use crate::index::neighbors::score_digits;
use crate::index::repair::{clear_rule_holds, early_cleared, in_mask, repair_called, score5_rule_holds, AdaptiveClearRule,
    AdaptivePolicy, RepairPolicy, Score5RepairRule};
use crate::index::{tally, Point};

verus! {

/// A score stands in a mask if and only if the bit with its number is set.
pub proof fn lemma_masks(mask: u8)
    ensures
        in_mask(mask, 0) <==> mask as int % 2 == 1,
        in_mask(mask, 1) <==> mask as int / 2 % 2 == 1,
        in_mask(mask, 2) <==> mask as int / 4 % 2 == 1,
        in_mask(mask, 3) <==> mask as int / 8 % 2 == 1,
        in_mask(mask, 4) <==> mask as int / 16 % 2 == 1,
        in_mask(mask, 5) <==> mask as int / 32 % 2 == 1,
{
    assert((mask & (1u8 << 0u8)) != 0 <==> mask % 2 == 1) by (bit_vector);
    assert((mask & (1u8 << 1u8)) != 0 <==> mask / 2 % 2 == 1) by (bit_vector);
    assert((mask & (1u8 << 2u8)) != 0 <==> mask / 4 % 2 == 1) by (bit_vector);
    assert((mask & (1u8 << 3u8)) != 0 <==> mask / 8 % 2 == 1) by (bit_vector);
    assert((mask & (1u8 << 4u8)) != 0 <==> mask / 16 % 2 == 1) by (bit_vector);
    assert((mask & (1u8 << 5u8)) != 0 <==> mask / 32 % 2 == 1) by (bit_vector);
}

/// Which votes are looked at again: those of the mask; those of four and more that are far, or near, as
/// the thresholds say; threes and fours that are far; and fives that the rule is about.
pub proof fn lemma_repairs(policy: RepairPolicy, score: u8, worst: int, v: Seq<i16>)
    ensures
        in_mask(policy.scores_mask, score) ==> repair_called(policy, score, worst, v),
        !in_mask(policy.scores_mask, score) && score <= 2 ==> !repair_called(policy, score, worst, v),
        !in_mask(policy.scores_mask, score) && score == 3 ==> (repair_called(policy, score, worst, v) <==> (
        policy.score3_worst matches Some(t) && worst >= t)),
        !in_mask(policy.scores_mask, score) && score >= 4 ==> (repair_called(policy, score, worst, v) <==> (
        policy.score4_worst matches Some(t) && worst >= t) || (policy.high_score_worst_below matches Some(t)
            && worst <= t) || (score == 4 && (policy.score4_only_worst matches Some(t) && worst >= t)) || (score
            == 5 && (policy.score5_rule matches Some(rule) && score5_rule_holds(rule, v)))),
{
}

/// When an early vote is final: its score stands in the mask, its farthest neighbour is near enough
/// where that is asked for, and the rule is about the vector.
pub proof fn lemma_clearing(policy: AdaptivePolicy, score: u8, worst: int, v: Seq<i16>)
    ensures
        early_cleared(policy, score, worst, v) ==> in_mask(policy.clear_scores_mask, score)
            && clear_rule_holds(policy.clear_rule, v),
        in_mask(policy.clear_scores_mask, score) && clear_rule_holds(policy.clear_rule, v)
            && policy.clear_worst_max is None ==> early_cleared(policy, score, worst, v),
        in_mask(policy.clear_scores_mask, score) && clear_rule_holds(policy.clear_rule, v) ==> (
        policy.clear_worst_max matches Some(t) ==> (early_cleared(policy, score, worst, v) <==> worst <= t)),
{
}

/// The vectors that the clear rules are about: with the card at a known merchant and not online, an
/// earlier transaction a day or longer ago, and what each rule asks for beyond.
pub proof fn lemma_clear_rules(v: Seq<i16>)
    ensures
        clear_rule_holds(AdaptiveClearRule::Always, v),
        clear_rule_holds(AdaptiveClearRule::TailRatio70Tx45Home40, v) <==> v[9] == 0 && v[10] != 0 && v[11]
            == 0 && v[5] >= 10_000 && v[2] <= 7_000 && v[8] <= 4_500 && v[7] <= 4_000,
        clear_rule_holds(AdaptiveClearRule::TailMccNonGaming, v) <==> v[9] == 0 && v[10] != 0 && v[11] == 0
            && v[5] >= 10_000 && v[2] <= 8_000 && v[8] <= 5_000 && v[12] < 7_500,
{
}

/// The vectors that the rules for a score of five are about.
pub proof fn lemma_score5_rules(v: Seq<i16>)
    ensures
        score5_rule_holds(Score5RepairRule::Fp70Tight, v) <==> v[2] >= 10_000 && v[5] >= 10_000 && v[8]
            >= 5_000 && v[8] <= 6_000 && v[9] >= 10_000 && v[10] == 0 && v[11] >= 10_000 && v[12] >= 7_500
            && v[6] >= 2_000 && v[7] >= 3_000,
        score5_rule_holds(Score5RepairRule::Fp70Narrow, v) <==> v[2] >= 10_000 && v[5] >= 10_000 && v[8]
            >= 5_000 && v[8] <= 6_000 && v[9] >= 10_000 && v[10] == 0 && v[11] >= 10_000 && v[12] >= 7_500
            && v[0] >= 2_900 && v[0] <= 4_100 && v[1] >= 5_000 && v[1] <= 7_500 && v[3] <= 2_700 && v[6]
            >= 2_000 && v[6] <= 3_300 && v[7] >= 3_600 && v[7] <= 4_500,
        score5_rule_holds(Score5RepairRule::Fp70Narrow, v) ==> score5_rule_holds(
            Score5RepairRule::Fp70Tight,
            v,
        ),
{
}

/// A group decides where it is large enough and few enough are on its smaller side: for approval unless
/// the denied prevail. Exchanging the sides exchanges the decisions.
pub proof fn lemma_majorities(approved: int, denied: int, min_total: int, max_error: int)
    requires
        0 <= approved,
        0 <= denied,
    ensures
        majority(approved, denied, min_total, max_error) is Some <==> approved + denied > 0 && approved
            + denied >= min_total && (approved * 10_000 <= max_error * (approved + denied) || denied * 10_000
            <= max_error * (approved + denied)),
        majority(approved, denied, min_total, max_error) matches Some(decision) ==> decision == if denied
            > approved {
            3u8
        } else {
            0u8
        },
        approved > denied ==> (majority(approved, denied, min_total, max_error) == Some(0u8) <==> majority(
            denied,
            approved,
            min_total,
            max_error,
        ) == Some(3u8)),
{
}

/// The approved and the denied points of a group, all or those of a sector, are counted.
pub proof fn lemma_tallies(points: Seq<Point>, approved: bool, sector: Option<int>)
    ensures
        tally(points, approved, sector) == points.filter(
            |p: Point|
                (p.label <= 2) == approved && (sector is None || sector->0 == sector_of_point(p.values@)),
        ).len(),
    decreases points.len(),
{
    reveal(Seq::filter);
    if points.len() > 0 {
        lemma_tallies(points.drop_last(), approved, sector);
    }
}

/// The share of fraudulent neighbours, fifth by fifth.
pub proof fn lemma_score_texts()
    ensures
        score_digits(0) == "0.0"@,
        score_digits(1) == "0.2"@,
        score_digits(2) == "0.4"@,
        score_digits(3) == "0.6"@,
        score_digits(4) == "0.8"@,
        score_digits(5) == "1.0"@,
{
}

/// The eighth of an axis that a value lies in.
pub open spec fn eighth(value: int) -> int {
    if value < 0 {
        0
    } else if value >= 8_750 {
        7
    } else {
        value / 1_250
    }
}

/// The number of a vector's bucket: by the eighth of its ratio, its count of transactions in steps of
/// 500, its category and its four flags.
pub proof fn lemma_bucket_numbers(v: Seq<i16>)
    ensures
        bucket_of_vector(v) == ((eighth(v[2] as int) * 21 + (if v[8] < 0 {
            0
        } else if v[8] >= 10_000 {
            20
        } else {
            v[8] as int / 500
        })) * 10 + mcc_level(v[12] as int)) * 16 + (if v[5] != -10_000 { 1int } else { 0 }) + (if v[9] != 0 {
            2int
        } else {
            0
        }) + (if v[10] != 0 { 4int } else { 0 }) + (if v[11] != 0 { 8int } else { 0 }),
        mcc_level(1_500) == 0 && mcc_level(2_000) == 1 && mcc_level(2_500) == 2 && mcc_level(3_000) == 3
            && mcc_level(3_500) == 4 && mcc_level(4_500) == 5 && mcc_level(5_000) == 6 && mcc_level(7_500) == 7
            && mcc_level(8_000) == 8 && mcc_level(8_500) == 9,
{
}

/// The number of a sector: by the eighths of the time since and the distance from the earlier
/// transaction.
pub proof fn lemma_sector_numbers(first: int, second: int)
    ensures
        sector_of(first, second) == eighth(first) * 8 + eighth(second),
{
}

/// A point in an index file: fourteen components of two bytes, the lower first, then its label and a
/// reserved byte.
pub proof fn lemma_point_layout(point: Point, d: int)
    requires
        0 <= d < 14,
    ensures
        ({
            let low = point_byte(point, 2 * d) as int;
            let high = point_byte(point, 2 * d + 1) as int;
            point.values@[d] == if high < 128 { low + 256 * high } else { low + 256 * high - 65_536 }
        }),
        point_byte(point, 28) == point.label,
        point_byte(point, 29) == point.reserved,
{
    assert((2 * d) / 2 == d && (2 * d) % 2 == 0);
    assert((2 * d + 1) / 2 == d && (2 * d + 1) % 2 == 1);
}

/// The bytes of words, the lowest first.
pub proof fn lemma_word_layout(words: Seq<u32>, i: int)
    requires
        0 <= i < words.len(),
    ensures
        ({
            let bytes = word_bytes(words);
            bytes.len() == 4 * words.len() && bytes[4 * i] + 256 * bytes[4 * i + 1] + 65_536 * bytes[4 * i + 2]
                + 16_777_216 * bytes[4 * i + 3] == words[i]
        }),
{
    let bytes = word_bytes(words);
    let word = words[i];
    assert((4 * i) / 4 == i && (4 * i + 1) / 4 == i && (4 * i + 2) / 4 == i && (4 * i + 3) / 4 == i);
    assert((4 * i) % 4 == 0 && (4 * i + 1) % 4 == 1 && (4 * i + 2) % 4 == 2 && (4 * i + 3) % 4 == 3);
    assert(bytes[4 * i] == word_byte(word, 0) && bytes[4 * i + 1] == word_byte(word, 1) && bytes[4 * i + 2]
        == word_byte(word, 2) && bytes[4 * i + 3] == word_byte(word, 3));
}

/// An index file: eight bytes that mark it, the number of points, where the buckets begin, each in four
/// bytes, the lowest first, and the points.
pub proof fn lemma_file_layout(points: Seq<Point>, b: int)
    requires
        points.len() <= u32::MAX,
        0 <= b <= 26_880,
        offsets_of(points).len() == 26_881,
    ensures
        ({
            let bytes = index_bytes(points);
            let at = 12 + 4 * b;
            &&& bytes.len() == 107_536 + 30 * points.len()
            &&& bytes.take(8) == seq![82u8, 73, 78, 72, 65, 79, 48, 57]
            &&& bytes[8] + 256 * bytes[9] + 65_536 * bytes[10] + 16_777_216 * bytes[11] == points.len()
            &&& bytes[at] + 256 * bytes[at + 1] + 65_536 * bytes[at + 2] + 16_777_216 * bytes[at + 3]
                == offsets_of(points)[b]
        }),
{
    let offsets = offsets_of(points);
    let count = word_bytes(seq![points.len() as u32]);
    let words = word_bytes(offsets);
    lemma_word_layout(seq![points.len() as u32], 0);
    lemma_word_layout(offsets, b);
    lemma_four_pieces(magic(), count, words, point_bytes(points), 4 * b);
    assert(magic() =~= seq![82u8, 73, 78, 72, 65, 79, 48, 57]);
}

/// Where the pieces of a file stand.
proof fn lemma_four_pieces(mark: Seq<u8>, count: Seq<u8>, words: Seq<u8>, rest: Seq<u8>, k: int)
    requires
        mark.len() == 8,
        count.len() == 4,
        0 <= k,
        k + 4 <= words.len(),
    ensures
        ({
            let bytes = mark + count + words + rest;
            &&& bytes.len() == 12 + words.len() + rest.len()
            &&& bytes.take(8) == mark
            &&& bytes[8] == count[0] && bytes[9] == count[1] && bytes[10] == count[2] && bytes[11] == count[3]
            &&& bytes[12 + k] == words[k] && bytes[12 + k + 1] == words[k + 1] && bytes[12 + k + 2] == words[k
                + 2] && bytes[12 + k + 3] == words[k + 3]
        }),
{
    assert((mark + count + words + rest).take(8) =~= mark);
}

/// Bytes are no index if and only if they are too short for a header, do not begin with the mark, or
/// hold fewer points than announced, and it is said which.
pub proof fn lemma_defects(bytes: Seq<u8>)
    ensures
        bytes.len() < 107_536 ==> defect(bytes) == Some(IndexError::InvalidMagic),
        bytes.len() >= 107_536 && bytes.take(8) != seq![82u8, 73, 78, 72, 65, 79, 48, 57] ==> defect(bytes)
            == Some(IndexError::InvalidMagic),
        bytes.len() >= 107_536 && bytes.take(8) == seq![82u8, 73, 78, 72, 65, 79, 48, 57] && 107_536 + 30
            * announced(bytes) <= usize::MAX ==> defect(bytes) == if bytes.len() < 107_536 + 30 * announced(
            bytes,
        ) {
            Some(IndexError::Truncated)
        } else {
            None
        },
        bytes.len() >= 12 ==> announced(bytes) == bytes[8] + 256 * bytes[9] + 65_536 * bytes[10]
            + 16_777_216 * bytes[11],
{
    assert(magic() =~= seq![82u8, 73, 78, 72, 65, 79, 48, 57]);
}

} // verus!
