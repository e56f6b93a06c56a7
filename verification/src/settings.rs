//! What the words of the environment mean.
use vstd::prelude::*;
use vstd::slice::slice_subrange;
use vstd::string::*;

use crate::index::loading::{IndexConfig, DEFAULT_IVF_THRESHOLD};
use crate::index::DIMS;
use crate::scanning::{find_byte, first_byte, is_digit, same_bytes, word};
use crate::time::digits_value;

verus! {

/// The value of a text of digits, if there is at least one, only digits, and the value is not above
/// a limit.
pub open spec fn bounded_digits(digits: Seq<u8>, limit: int) -> Option<int> {
    match digits_value(digits) {
        Some(value) => if digits.len() > 0 && value <= limit { Some(value) } else { None },
        None => None,
    }
}

/// The natural number that a text writes: digits, with or without a plus sign.
pub open spec fn natural(text: Seq<u8>) -> Option<int> {
    bounded_digits(if text.len() > 1 && text[0] == 43 { text.skip(1) } else { text }, usize::MAX as int)
}

/// The whole number that a text writes: digits, with or without a sign.
pub open spec fn whole(text: Seq<u8>) -> Option<int> {
    if text.len() > 1 && text[0] == 45 {
        match bounded_digits(text.skip(1), -i32::MIN) {
            Some(value) => Some(-value),
            None => None,
        }
    } else {
        bounded_digits(if text.len() > 1 && text[0] == 43 { text.skip(1) } else { text }, i32::MAX as int)
    }
}

/// A letter in lower case; other bytes as they are.
pub open spec fn lower(byte: u8) -> u8 {
    if 65 <= byte <= 90 { (byte + 32) as u8 } else { byte }
}

/// Two texts agree but for the case of their letters.
pub open spec fn same_letters(left: Seq<u8>, right: Seq<u8>) -> bool {
    left.len() == right.len() && forall|k: int|
        0 <= k < left.len() ==> lower(#[trigger] left[k]) == lower(right[k])
}

/// Whether a word of the environment says yes: any but `0` and `false`.
pub open spec fn says_yes(value: Seq<u8>) -> bool {
    value != word("0"@) && !same_letters(value, word("false"@))
}

/// Where the two numbers of a grid are parted: at the first comma, else at the first hyphen.
pub open spec fn grid_cut(text: Seq<u8>) -> Option<int> {
    match first_byte(text, 0, 44) {
        Some(at) => Some(at),
        None => first_byte(text, 0, 45),
    }
}

/// The axes of a grid that a text names: two scan-order axes, neither of the first two.
pub open spec fn grid_of(text: Seq<u8>) -> Option<(usize, usize)> {
    match grid_cut(text) {
        Some(at) => match (natural(text.take(at)), natural(text.skip(at + 1))) {
            (Some(first), Some(second)) => if first != second && 2 <= first < DIMS && 2 <= second < DIMS {
                Some((first as usize, second as usize))
            } else {
                None
            },
            _ => None,
        },
        None => None,
    }
}

/// The number that digits write, if it is not above a limit.
fn parse_digits(digits: &[u8], limit: u64) -> (number: Option<u64>)
    ensures
        match number {
            Some(value) => bounded_digits(digits@, limit as int) == Some(value as int),
            None => bounded_digits(digits@, limit as int) is None,
        },
{
    if digits.len() == 0 {
        return None;
    }
    let mut value: u64 = 0;
    let mut i: usize = 0;
    let mut within: bool = true;
    assert(digits@.take(0) =~= Seq::<u8>::empty());
    while i < digits.len()
        invariant
            i <= digits@.len(),
            forall|k: int| 0 <= k < i ==> is_digit(#[trigger] digits@[k]),
            digits_value(digits@.take(i as int)) is Some,
            within ==> digits_value(digits@.take(i as int)) == Some(value as int) && value <= limit,
            !within ==> digits_value(digits@.take(i as int))->0 > limit,
        decreases digits@.len() - i,
    {
        let byte: u8 = digits[i];
        let ghost next = digits@.take(i + 1);
        proof {
            assert(next.drop_last() =~= digits@.take(i as int));
            assert(next.last() == byte);
        }
        if byte < 48 || byte > 57 {
            proof {
                lemma_no_digit(digits@, i as int);
            }
            return None;
        }
        if within {
            let sum: u128 = value as u128 * 10 + (byte - 48) as u128;
            if sum > limit as u128 {
                within = false;
            } else {
                value = sum as u64;
            }
        }
        i = i + 1;
    }
    assert(digits@.take(i as int) =~= digits@);
    if within {
        Some(value)
    } else {
        None
    }
}

/// A byte that is no digit keeps a text from being a number.
proof fn lemma_no_digit(text: Seq<u8>, at: int)
    requires
        0 <= at < text.len(),
        !is_digit(text[at]),
    ensures
        digits_value(text) is None,
    decreases text.len(),
{
    if at < text.len() - 1 {
        assert(text.drop_last()[at] == text[at]);
        lemma_no_digit(text.drop_last(), at);
    }
}

/// The natural number that a text writes.
pub fn parse_natural(text: &[u8]) -> (number: Option<usize>)
    ensures
        match number {
            Some(value) => natural(text@) == Some(value as int),
            None => natural(text@) is None,
        },
{
    let digits: &[u8] = if text.len() > 1 && text[0] == 43 {
        slice_subrange(text, 1, text.len())
    } else {
        text
    };
    assert(text@.len() > 1 && text@[0] == 43 ==> digits@ =~= text@.skip(1));
    match parse_digits(digits, usize::MAX as u64) {
        Some(value) => Some(value as usize),
        None => None,
    }
}

/// The whole number that a text writes.
pub fn parse_whole(text: &[u8]) -> (number: Option<i32>)
    ensures
        match number {
            Some(value) => whole(text@) == Some(value as int),
            None => whole(text@) is None,
        },
{
    if text.len() > 1 && text[0] == 45 {
        let digits: &[u8] = slice_subrange(text, 1, text.len());
        assert(digits@ =~= text@.skip(1));
        return match parse_digits(digits, 0x8000_0000) {
            Some(value) => Some((-(value as i64)) as i32),
            None => None,
        };
    }
    let digits: &[u8] = if text.len() > 1 && text[0] == 43 {
        slice_subrange(text, 1, text.len())
    } else {
        text
    };
    assert(text@.len() > 1 && text@[0] == 43 ==> digits@ =~= text@.skip(1));
    match parse_digits(digits, 0x7fff_ffff) {
        Some(value) => Some(value as i32),
        None => None,
    }
}

/// A natural number of the environment, or its default.
pub fn parse_env_usize(value: Option<&str>, default: usize) -> (number: usize)
    ensures
        number == match value {
            Some(text) => match natural(word(text@)) {
                Some(n) => n,
                None => default as int,
            },
            None => default as int,
        },
{
    match value {
        Some(text) => match parse_natural(text.as_bytes()) {
            Some(number) => number,
            None => default,
        },
        None => default,
    }
}

/// A whole number of the environment, or its default, but never less than `least`.
pub fn parse_env_i32(value: Option<&str>, default: i32, least: i32) -> (number: i32)
    ensures
        ({
            let given = match value {
                Some(text) => match whole(word(text@)) {
                    Some(n) => n,
                    None => default as int,
                },
                None => default as int,
            };
            number == if given < least { least as int } else { given }
        }),
{
    let given: i32 = match value {
        Some(text) => match parse_whole(text.as_bytes()) {
            Some(number) => number,
            None => default,
        },
        None => default,
    };
    if given < least {
        least
    } else {
        given
    }
}

fn lower_case(byte: u8) -> (letter: u8)
    ensures
        letter == lower(byte),
{
    if 65 <= byte && byte <= 90 {
        byte + 32
    } else {
        byte
    }
}

/// Whether two texts agree but for the case of their letters.
pub fn letters_agree(left: &[u8], right: &[u8]) -> (agree: bool)
    ensures
        agree == same_letters(left@, right@),
{
    if left.len() != right.len() {
        return false;
    }
    let mut i: usize = 0;
    while i < left.len()
        invariant
            i <= left@.len(),
            left@.len() == right@.len(),
            forall|k: int| 0 <= k < i ==> lower(#[trigger] left@[k]) == lower(right@[k]),
        decreases left@.len() - i,
    {
        if lower_case(left[i]) != lower_case(right[i]) {
            return false;
        }
        i = i + 1;
    }
    true
}

/// A switch of the environment, or its default.
pub fn parse_env_bool(value: Option<&str>, default: bool) -> (on: bool)
    ensures
        on == match value {
            Some(text) => says_yes(word(text@)),
            None => default,
        },
{
    match value {
        Some(text) => !same_bytes(text.as_bytes(), "0".as_bytes()) && !letters_agree(
            text.as_bytes(),
            "false".as_bytes(),
        ),
        None => default,
    }
}

/// How many workers there are unless set otherwise.
pub const DEFAULT_API_WORKERS: usize = 192;

/// The number of workers: the given one, but at least one, or the default.
pub open spec fn workers_of(value: Option<&str>) -> int {
    match value {
        Some(text) => match natural(word(text@)) {
            Some(n) => if n < 1 { 1 } else { n },
            None => 192,
        },
        None => 192,
    }
}

/// The number of workers.
pub fn worker_count(value: Option<&str>) -> (n: usize)
    ensures
        n == workers_of(value),
{
    let given: usize = parse_env_usize(value, DEFAULT_API_WORKERS);
    if given < 1 {
        1
    } else {
        given
    }
}

/// Whether requests are served by an event loop: unless switched off.
pub fn api_epoll_default(value: Option<&str>) -> (on: bool)
    ensures
        on == match value {
            Some(text) => says_yes(word(text@)),
            None => true,
        },
{
    parse_env_bool(value, true)
}

/// Whether each connection is served for one message only: if switched on.
pub fn api_direct_fd_default(value: Option<&str>) -> (on: bool)
    ensures
        on == switched_on(value),
{
    parse_env_bool(value, false)
}

/// Whether memory is locked: if switched on.
pub fn locks_memory(value: Option<&str>) -> (on: bool)
    ensures
        on == switched_on(value),
{
    parse_env_bool(value, false)
}

/// The axes of a grid that a text names, if it names some.
pub fn checked_ivf_dims(value: &str) -> (dims: Option<(usize, usize)>)
    ensures
        dims == grid_of(word(value@)),
{
    let text: &[u8] = value.as_bytes();
    let comma: Option<usize> = find_byte(text, 0, 44);
    let cut: Option<usize> = match comma {
        Some(at) => Some(at),
        None => find_byte(text, 0, 45),
    };
    let at: usize = cut?;
    let left: &[u8] = slice_subrange(text, 0, at);
    let right: &[u8] = slice_subrange(text, at + 1, text.len());
    assert(left@ =~= text@.take(at as int));
    assert(right@ =~= text@.skip(at + 1));
    let first: usize = parse_natural(left)?;
    let second: usize = parse_natural(right)?;
    if first != second && 2 <= first && first < DIMS && 2 <= second && second < DIMS {
        Some((first, second))
    } else {
        None
    }
}

/// The axes of a grid that a text names.
pub fn parse_ivf_dims(value: &str) -> (dims: (usize, usize))
    requires
        grid_of(word(value@)) is Some,
    ensures
        grid_of(word(value@)) == Some(dims),
{
    checked_ivf_dims(value).unwrap()
}

/// The words of the environment that shape an index.
#[derive(Clone, Copy)]
pub struct IndexWords<'a> {
    pub index_mmap: Option<&'a str>,
    pub ivf_grid: Option<&'a str>,
    pub ivf_dims: Option<&'a str>,
    pub ivf_threshold: Option<&'a str>,
    pub ivf_global_plan: Option<&'a str>,
    pub avx2_prefix4: Option<&'a str>,
    pub packed_hot2: Option<&'a str>,
    pub sector_decision: Option<&'a str>,
    pub fast_decision_rule: Option<&'a str>,
}

/// A switch of the environment that is off unless it is set.
pub open spec fn switched_on(value: Option<&str>) -> bool {
    match value {
        Some(text) => says_yes(word(text@)),
        None => false,
    }
}

/// The grid that is asked for, if any: the axes 2 and 4 unless others are named.
pub open spec fn asked_grid(words: IndexWords<'_>) -> Option<(usize, usize)> {
    match words.ivf_dims {
        Some(text) => grid_of(word(text@)),
        None => Some((2, 4)),
    }
}

/// How an index is laid out by the words of the environment; nothing if a grid is asked for whose
/// axes make no sense.
pub fn index_config(words: IndexWords<'_>, lanes: bool) -> (config: Option<IndexConfig>)
    ensures
        config is None <==> switched_on(words.ivf_grid) && asked_grid(words) is None,
        config matches Some(c) ==> {
            &&& c.wf()
            &&& c.use_mmap == (words.index_mmap matches Some(text) ==> word(text@) != word("0"@))
            &&& c.grid == if switched_on(words.ivf_grid) { asked_grid(words) } else { None }
            &&& c.grid_threshold == match words.ivf_threshold {
                Some(text) => match natural(word(text@)) {
                    Some(n) => n,
                    None => DEFAULT_IVF_THRESHOLD as int,
                },
                None => DEFAULT_IVF_THRESHOLD as int,
            }
            &&& c.global_plan == switched_on(words.ivf_global_plan)
            &&& c.prefix4 == switched_on(words.avx2_prefix4)
            &&& c.packed_hot2 == switched_on(words.packed_hot2)
            &&& c.sector_decisions == (switched_on(words.sector_decision) || (
            words.fast_decision_rule matches Some(text) && word(text@) == word("sector-majority"@)))
            &&& c.lanes == lanes
        },
{
    let grid: Option<(usize, usize)> = if parse_env_bool(words.ivf_grid, false) {
        match words.ivf_dims {
            Some(text) => Some(checked_ivf_dims(text)?),
            None => Some((2, 4)),
        }
    } else {
        None
    };
    let use_mmap: bool = match words.index_mmap {
        Some(text) => !same_bytes(text.as_bytes(), "0".as_bytes()),
        None => true,
    };
    let by_rule: bool = match words.fast_decision_rule {
        Some(text) => same_bytes(text.as_bytes(), "sector-majority".as_bytes()),
        None => false,
    };
    Some(
        IndexConfig {
            use_mmap,
            grid,
            grid_threshold: parse_env_usize(words.ivf_threshold, DEFAULT_IVF_THRESHOLD),
            global_plan: parse_env_bool(words.ivf_global_plan, false),
            prefix4: parse_env_bool(words.avx2_prefix4, false),
            packed_hot2: parse_env_bool(words.packed_hot2, false),
            sector_decisions: parse_env_bool(words.sector_decision, false) || by_rule,
            lanes,
        },
    )
}

/// The order in which an index file holds its points.
#[derive(Clone, Copy, Debug, PartialEq, Eq)]
pub enum BuildOrder {
    ByBucket,
    ByCell { dims: (usize, usize) },
}

/// The order that a trimmed word of the environment asks for: that of the buckets for no word, an
/// empty one, `0` and `none`, else that of the cells of the grid it names.
pub open spec fn order_of(value: Option<&str>) -> Option<BuildOrder> {
    match value {
        None => Some(BuildOrder::ByBucket),
        Some(text) => {
            let bytes = word(text@);
            if bytes.len() == 0 || bytes == word("0"@) || same_letters(bytes, word("none"@)) {
                Some(BuildOrder::ByBucket)
            } else {
                match grid_of(bytes) {
                    Some(dims) => Some(BuildOrder::ByCell { dims }),
                    None => None,
                }
            }
        },
    }
}

/// The order that a trimmed word of the environment asks for, if it makes sense.
pub fn build_order(value: Option<&str>) -> (order: Option<BuildOrder>)
    ensures
        order == order_of(value),
{
    match value {
        None => Some(BuildOrder::ByBucket),
        Some(text) => {
            let bytes: &[u8] = text.as_bytes();
            if bytes.len() == 0 || same_bytes(bytes, "0".as_bytes()) || letters_agree(
                bytes,
                "none".as_bytes(),
            ) {
                Some(BuildOrder::ByBucket)
            } else {
                let dims: (usize, usize) = checked_ivf_dims(text)?;
                Some(BuildOrder::ByCell { dims })
            }
        },
    }
}

/// A path without the slashes at its end.
pub open spec fn without_slashes(path: Seq<char>) -> Seq<char>
    decreases path.len(),
{
    if path.len() > 0 && path.last() == '/' {
        without_slashes(path.drop_last())
    } else {
        path
    }
}

/// The path of the control socket: the given one, else one in the given directory, named after the
/// host. An empty path or directory counts as none.
pub open spec fn socket_path(path: Option<&str>, dir: Option<&str>, host: Option<&str>) -> Option<
    Seq<char>,
> {
    if path matches Some(given) && given@.len() > 0 {
        Some(path->0@)
    } else if dir matches Some(given) && given@.len() > 0 {
        let name = match host {
            Some(given) => given@,
            None => "api"@,
        };
        Some(without_slashes(dir->0@) + "/"@ + name + ".sock"@)
    } else {
        None
    }
}

/// The path of the control socket, from trimmed words of the environment.
pub fn fd_socket_path(path: Option<&str>, dir: Option<&str>, host: Option<&str>) -> (chosen: Option<
    String,
>)
    ensures
        match chosen {
            Some(text) => socket_path(path, dir, host) == Some(text@),
            None => socket_path(path, dir, host) is None,
        },
{
    if let Some(given) = path {
        if given.unicode_len() > 0 {
            return Some(given.to_owned());
        }
    }
    let dir: &str = dir?;
    let mut end: usize = dir.unicode_len();
    if end == 0 {
        return None;
    }
    assert(dir@.take(end as int) =~= dir@);
    while end > 0 && dir.get_char(end - 1) == '/'
        invariant
            end <= dir@.len(),
            without_slashes(dir@) == without_slashes(dir@.take(end as int)),
        decreases end,
    {
        assert(dir@.take(end as int).drop_last() =~= dir@.take(end - 1));
        end = end - 1;
    }
    let kept: &str = dir.substring_char(0, end);
    assert(kept@ =~= dir@.take(end as int));
    let host: &str = match host {
        Some(given) => given,
        None => "api",
    };
    let mut text: String = kept.to_owned();
    text.append("/");
    text.append(host);
    text.append(".sock");
    Some(text)
}

} // verus!
