//! The little of HTTP that the server speaks.
use vstd::prelude::*;

use crate::fraud_scoring::digits_end;
use crate::scanning::{bytes_stand_at, find_bytes, first_word, is_digit, stands_at, word};
use crate::time::digits_value;

verus! {

/// Where the body of a message begins and where the message ends.
#[derive(Clone, Copy, Debug, PartialEq, Eq, Structural)]
pub struct DirectHttpMessage {
    pub body_start: usize,
    pub message_end: usize,
}

/// What a request is for.
#[derive(Clone, Copy, Debug, PartialEq, Eq, Structural)]
pub enum Route {
    Score,
    Ready,
    NotFound,
}

/// Where the header begins to end, and where the body begins.
pub open spec fn boundary(buffer: Seq<u8>) -> Option<(int, int)> {
    match first_word(buffer, 0, word("\r\n\r\n"@)) {
        Some(at) => Some((at, at + 4)),
        None => None,
    }
}

/// How a request of the expected client begins, up to its length.
pub open spec fn known_prefix() -> Seq<u8> {
    word(
        "POST /fraud-score HTTP/1.1\r\nHost: localhost:9999\r\nUser-Agent: Grafana k6/2.0.0\r\nContent-Length: "@,
    )
}

/// How the header of a request of the expected client ends, from its length on.
pub open spec fn known_suffix() -> Seq<u8> {
    word("\r\nContent-Type: application/json\r\n\r\n"@)
}

/// The body start and body length of a request whose header is exactly that of the expected client.
pub open spec fn known_header(buffer: Seq<u8>) -> Option<(int, int)> {
    let start = known_prefix().len() as int;
    let end = digits_end(buffer, start);
    match digits_value(buffer.subrange(start, end)) {
        Some(length) => if stands_at(buffer, 0, known_prefix()) && end > start && length <= usize::MAX
            && stands_at(buffer, end, known_suffix()) {
            Some((end + known_suffix().len(), length))
        } else {
            None
        },
        None => None,
    }
}

/// A header line gives the length of the body.
pub open spec fn length_line(buffer: Seq<u8>, at: int) -> bool {
    stands_at(buffer, at, word("Content-Length:"@)) || stands_at(buffer, at, word("content-length:"@))
}

/// The length that stands behind the colon: a space, three digits and no fourth.
pub open spec fn header_number(buffer: Seq<u8>, at: int) -> Option<int> {
    if at + 4 < buffer.len() && buffer[at] == 32 && is_digit(buffer[at + 1]) && is_digit(buffer[at + 2])
        && is_digit(buffer[at + 3]) && !is_digit(buffer[at + 4]) {
        Some((buffer[at + 1] - 48) * 100 + (buffer[at + 2] - 48) * 10 + (buffer[at + 3] - 48))
    } else {
        None
    }
}

/// A line ends at a position.
pub open spec fn line_ends(buffer: Seq<u8>, at: int) -> bool {
    1 <= at < buffer.len() && buffer[at] == 10 && buffer[at - 1] == 13
}

/// The body start and body length of a request, from a position of its header on: the body follows
/// the first empty line, and the last line before it that gives a length counts. Without a length
/// there is no message.
pub open spec fn post_header(buffer: Seq<u8>, at: int, length: Option<int>) -> Option<(int, int)>
    decreases buffer.len() - at,
{
    if at >= buffer.len() {
        None
    } else if line_ends(buffer, at) && line_ends(buffer, at - 2) {
        match length {
            Some(n) => Some((at + 1, n)),
            None => None,
        }
    } else if line_ends(buffer, at) && length_line(buffer, at + 1) {
        post_header(buffer, at + 1, header_number(buffer, at + 16))
    } else {
        post_header(buffer, at + 1, length)
    }
}

/// Where the body of the first message begins and how long it is.
pub open spec fn body_bounds(buffer: Seq<u8>) -> Option<(int, int)> {
    if buffer.len() == 0 {
        None
    } else if buffer[0] == 71 {
        match boundary(buffer) {
            Some((_, body)) => Some((body, 0)),
            None => None,
        }
    } else {
        match known_header(buffer) {
            Some(bounds) => Some(bounds),
            None => post_header(buffer, 1, None),
        }
    }
}

/// The bounds of the first message.
pub open spec fn message_bounds(buffer: Seq<u8>) -> Option<DirectHttpMessage> {
    match body_bounds(buffer) {
        Some((start, length)) => if start + length <= usize::MAX {
            Some(
                DirectHttpMessage {
                    body_start: start as usize,
                    message_end: (start + length) as usize,
                },
            )
        } else {
            None
        },
        None => None,
    }
}

/// The first message, if all of it is there.
pub open spec fn whole_message(buffer: Seq<u8>) -> Option<DirectHttpMessage> {
    match message_bounds(buffer) {
        Some(message) => if buffer.len() >= message.message_end { Some(message) } else { None },
        None => None,
    }
}

/// What a request is for, from its method and path.
pub open spec fn route_of(input: Seq<u8>) -> Route {
    if stands_at(input, 0, word("POST /fraud-score "@)) {
        Route::Score
    } else if stands_at(input, 0, word("GET /ready "@)) {
        Route::Ready
    } else {
        Route::NotFound
    }
}

/// The answer to a request, given the score of its body.
pub open spec fn answer(route: Route, score: u8) -> Seq<u8> {
    match route {
        Route::Score => if score == 0 {
            word(
                "HTTP/1.1 200 OK\r\ncontent-length: 33\r\n\r\n{\"approved\":true,\"fraud_score\":0}"@,
            )
        } else {
            word(
                "HTTP/1.1 200 OK\r\ncontent-length: 34\r\n\r\n{\"approved\":false,\"fraud_score\":1}"@,
            )
        },
        Route::Ready => word("HTTP/1.1 200 OK\r\ncontent-length: 2\r\n\r\nok"@),
        Route::NotFound => word(
            "HTTP/1.1 404 Not Found\r\ncontent-length: 0\r\nconnection: close\r\n\r\n"@,
        ),
    }
}

/// Where the header begins to end, and where the body begins.
pub fn find_header_body_boundary(buffer: &[u8]) -> (found: Option<(usize, usize)>)
    ensures
        match found {
            Some((at, body)) => boundary(buffer@) == Some((at as int, body as int)) && body
                <= buffer@.len(),
            None => boundary(buffer@) is None,
        },
{
    let blank: &[u8] = "\r\n\r\n".as_bytes();
    proof {
        lemma_blank_len();
    }
    match find_bytes(buffer, 0, blank) {
        Some(at) => Some((at, at + 4)),
        None => None,
    }
}

/// An empty line takes four bytes.
proof fn lemma_blank_len()
    ensures
        word("\r\n\r\n"@).len() == 4,
        word("\r\n\r\n"@)[0] == 13,
        word("\r\n\r\n"@)[1] == 10,
        word("\r\n\r\n"@)[2] == 13,
        word("\r\n\r\n"@)[3] == 10,
{
    reveal_strlit("\r\n\r\n");
    vstd::utf8::is_ascii_chars_encode_utf8("\r\n\r\n"@);
}

/// The name of the length line takes fifteen bytes.
proof fn lemma_length_name()
    ensures
        word("Content-Length:"@).len() == 15,
        word("content-length:"@).len() == 15,
{
    reveal_strlit("Content-Length:");
    reveal_strlit("content-length:");
    vstd::utf8::is_ascii_chars_encode_utf8("Content-Length:"@);
    vstd::utf8::is_ascii_chars_encode_utf8("content-length:"@);
}

/// The digits before the end of a run of digits are digits.
proof fn lemma_digits_end(buffer: Seq<u8>, at: int)
    requires
        0 <= at,
    ensures
        at <= digits_end(buffer, at),
        at <= buffer.len() ==> digits_end(buffer, at) <= buffer.len(),
        forall|k: int| at <= k < digits_end(buffer, at) ==> is_digit(#[trigger] buffer[k]),
    decreases buffer.len() - at,
{
    if at < buffer.len() && is_digit(buffer[at]) {
        lemma_digits_end(buffer, at + 1);
    }
}

/// A longer run of digits is no smaller number.
proof fn lemma_longer_is_larger(digits: Seq<u8>, n: int)
    requires
        0 <= n <= digits.len(),
        forall|k: int| 0 <= k < digits.len() ==> is_digit(#[trigger] digits[k]),
    ensures
        digits_value(digits.take(n)) is Some,
        digits_value(digits) is Some,
        0 <= digits_value(digits.take(n))->0 <= digits_value(digits)->0,
    decreases digits.len() - n,
{
    lemma_digits_number(digits.take(n));
    lemma_digits_number(digits);
    if n == digits.len() {
        assert(digits.take(n) =~= digits);
    } else {
        let next = digits.take(n + 1);
        lemma_digits_number(next);
        assert(next.drop_last() =~= digits.take(n));
        assert(next.last() == digits[n]);
        lemma_longer_is_larger(digits, n + 1);
    }
}

/// Digits write a number that is not negative.
proof fn lemma_digits_number(digits: Seq<u8>)
    requires
        forall|k: int| 0 <= k < digits.len() ==> is_digit(#[trigger] digits[k]),
    ensures
        digits_value(digits) is Some,
        digits_value(digits)->0 >= 0,
    decreases digits.len(),
{
    if digits.len() > 0 {
        let rest = digits.drop_last();
        assert forall|k: int| 0 <= k < rest.len() implies is_digit(#[trigger] rest[k]) by {
            assert(rest[k] == digits[k]);
        }
        lemma_digits_number(rest);
        assert(is_digit(digits[digits.len() - 1]));
    }
}

/// The bounds of a request whose header is exactly that of the expected client.
pub fn fast_known_post_header_bounds(buffer: &[u8]) -> (found: Option<(usize, usize)>)
    ensures
        match found {
            Some((start, length)) => known_header(buffer@) == Some((start as int, length as int)) && start
                <= buffer@.len(),
            None => known_header(buffer@) is None,
        },
{
    let prefix: &[u8] = "POST /fraud-score HTTP/1.1\r\nHost: localhost:9999\r\nUser-Agent: Grafana k6/2.0.0\r\nContent-Length: ".as_bytes();
    let suffix: &[u8] = "\r\nContent-Type: application/json\r\n\r\n".as_bytes();
    if !bytes_stand_at(buffer, 0, prefix) {
        return None;
    }
    let start: usize = prefix.len();
    let ghost end = digits_end(buffer@, start as int);
    let ghost digits = buffer@.subrange(start as int, end);
    proof {
        lemma_digits_end(buffer@, start as int);
        assert forall|k: int| 0 <= k < digits.len() implies is_digit(#[trigger] digits[k]) by {
            assert(digits[k] == buffer@[start + k]);
        }
        lemma_digits_number(digits);
        assert(digits.take(0) =~= Seq::<u8>::empty());
    }
    let mut cursor: usize = start;
    let mut content_length: usize = 0;
    while cursor < buffer.len() && 48 <= buffer[cursor] && buffer[cursor] <= 57
        invariant
            start <= cursor <= end <= buffer@.len(),
            end == digits_end(buffer@, cursor as int),
            end == digits_end(buffer@, start as int),
            digits == buffer@.subrange(start as int, end),
            start == known_prefix().len(),
            forall|k: int| 0 <= k < digits.len() ==> is_digit(#[trigger] digits[k]),
            digits_value(digits.take(cursor - start)) == Some(content_length as int),
        decreases buffer@.len() - cursor,
    {
        let digit: usize = (buffer[cursor] - 48) as usize;
        proof {
            lemma_digits_end(buffer@, cursor + 1);
            let next = digits.take(cursor + 1 - start);
            assert(next.drop_last() =~= digits.take(cursor - start));
            assert(next.last() == buffer@[cursor as int]);
            lemma_longer_is_larger(digits, cursor + 1 - start);
        }
        match content_length.checked_mul(10) {
            None => {
                return None;
            },
            Some(tens) => match tens.checked_add(digit) {
                None => {
                    return None;
                },
                Some(sum) => {
                    content_length = sum;
                },
            },
        }
        cursor = cursor + 1;
    }
    assert(digits.take(cursor - start) =~= digits);
    if cursor == start || !bytes_stand_at(buffer, cursor, suffix) {
        return None;
    }
    Some((cursor + suffix.len(), content_length))
}

/// Whether a header line that gives the length begins at a position.
pub fn content_length_at(header: &[u8], cursor: usize) -> (here: bool)
    requires
        cursor <= header@.len(),
    ensures
        here == length_line(header@, cursor as int),
{
    bytes_stand_at(header, cursor, "Content-Length:".as_bytes()) || bytes_stand_at(
        header,
        cursor,
        "content-length:".as_bytes(),
    )
}

/// The length that stands behind the colon.
pub fn parse_header_usize(line: &[u8], cursor: usize) -> (number: Option<usize>)
    requires
        cursor <= line@.len(),
    ensures
        match number {
            Some(value) => header_number(line@, cursor as int) == Some(value as int),
            None => header_number(line@, cursor as int) is None,
        },
{
    if line.len() - cursor <= 4 || line[cursor] != 32 {
        return None;
    }
    let a: u8 = line[cursor + 1];
    let b: u8 = line[cursor + 2];
    let c: u8 = line[cursor + 3];
    let next: u8 = line[cursor + 4];
    if a < 48 || a > 57 || b < 48 || b > 57 || c < 48 || c > 57 || (48 <= next && next <= 57) {
        return None;
    }
    Some((a - 48) as usize * 100 + (b - 48) as usize * 10 + (c - 48) as usize)
}

/// The bounds of a request with any header.
pub fn find_post_header_bounds(buffer: &[u8]) -> (found: Option<(usize, usize)>)
    ensures
        match found {
            Some((start, length)) => post_header(buffer@, 1, None) == Some((start as int, length as int))
                && start <= buffer@.len(),
            None => post_header(buffer@, 1, None) is None,
        },
{
    let mut cursor: usize = 1;
    let mut content_length: Option<usize> = None;
    proof {
        lemma_length_name();
    }
    while cursor < buffer.len()
        invariant
            1 <= cursor,
            post_header(buffer@, 1, None) == post_header(
                buffer@,
                cursor as int,
                match content_length {
                    Some(n) => Some(n as int),
                    None => None,
                },
            ),
            word("Content-Length:"@).len() == 15,
            word("content-length:"@).len() == 15,
        decreases buffer@.len() - cursor,
    {
        if buffer[cursor] == 10 && buffer[cursor - 1] == 13 {
            if cursor >= 3 && buffer[cursor - 2] == 10 && buffer[cursor - 3] == 13 {
                return match content_length {
                    Some(length) => Some((cursor + 1, length)),
                    None => None,
                };
            }
            let line_start: usize = cursor + 1;
            if content_length_at(buffer, line_start) {
                content_length = parse_header_usize(buffer, line_start + 15);
            }
        }
        cursor = cursor + 1;
    }
    None
}

/// The bounds of the first message.
pub fn http_message_bounds_direct(buffer: &[u8]) -> (found: Option<DirectHttpMessage>)
    ensures
        found == message_bounds(buffer@),
        found matches Some(message) ==> message.body_start <= buffer@.len() && message.body_start
            <= message.message_end,
{
    if buffer.len() == 0 {
        return None;
    }
    let bounds: Option<(usize, usize)> = if buffer[0] == 71 {
        match find_header_body_boundary(buffer) {
            Some((_, body_start)) => Some((body_start, 0)),
            None => None,
        }
    } else {
        match fast_known_post_header_bounds(buffer) {
            Some(bounds) => Some(bounds),
            None => find_post_header_bounds(buffer),
        }
    };
    let (body_start, content_length) = bounds?;
    match body_start.checked_add(content_length) {
        Some(message_end) => Some(DirectHttpMessage { body_start, message_end }),
        None => None,
    }
}

/// The first message, if all of it is there.
pub fn buffered_message(buffer: &[u8]) -> (found: Option<DirectHttpMessage>)
    ensures
        found == whole_message(buffer@),
        found matches Some(message) ==> message.body_start <= message.message_end <= buffer@.len(),
{
    let message: DirectHttpMessage = http_message_bounds_direct(buffer)?;
    if buffer.len() >= message.message_end {
        Some(message)
    } else {
        None
    }
}

/// What a request is for, from its method and path.
pub fn route(input: &[u8]) -> (route: Route)
    ensures
        route == route_of(input@),
{
    if bytes_stand_at(input, 0, "POST /fraud-score ".as_bytes()) {
        Route::Score
    } else if bytes_stand_at(input, 0, "GET /ready ".as_bytes()) {
        Route::Ready
    } else {
        Route::NotFound
    }
}

/// The answer to a request, given the score of its body.
pub fn http_response(route: Route, score: u8) -> (response: &'static [u8])
    ensures
        response@ == answer(route, score),
{
    match route {
        Route::Score => if score == 0 {
            "HTTP/1.1 200 OK\r\ncontent-length: 33\r\n\r\n{\"approved\":true,\"fraud_score\":0}".as_bytes()
        } else {
            "HTTP/1.1 200 OK\r\ncontent-length: 34\r\n\r\n{\"approved\":false,\"fraud_score\":1}".as_bytes()
        },
        Route::Ready => "HTTP/1.1 200 OK\r\ncontent-length: 2\r\n\r\nok".as_bytes(),
        Route::NotFound => "HTTP/1.1 404 Not Found\r\ncontent-length: 0\r\nconnection: close\r\n\r\n".as_bytes(),
    }
}

/// Whatever its lines say, the body of a request begins where the first empty line ends.
pub proof fn lemma_body_follows_empty_line(buffer: Seq<u8>)
    ensures
        post_header(buffer, 1, None) matches Some((start, _)) ==> boundary(buffer) matches Some((_, body))
            && body == start,
{
    lemma_blank_len();
    lemma_post_header_boundary(buffer, 1, None);
}

proof fn lemma_post_header_boundary(buffer: Seq<u8>, at: int, length: Option<int>)
    requires
        1 <= at,
        forall|k: int| 0 <= k < at - 3 ==> !#[trigger] stands_at(buffer, k, word("\r\n\r\n"@)),
    ensures
        post_header(buffer, at, length) matches Some((start, _)) ==> boundary(buffer) matches Some((
            _,
            body,
        )) && body == start,
    decreases buffer.len() - at,
{
    let blank = word("\r\n\r\n"@);
    lemma_blank_len();
    if at < buffer.len() {
        let here = line_ends(buffer, at) && line_ends(buffer, at - 2);
        if at >= 3 {
            let found = buffer.subrange(at - 3, at + 1);
            if here {
                assert(found =~= blank);
                crate::scanning::lemma_first_word(buffer, 0, blank);
                assert(stands_at(buffer, at - 3, blank));
            } else if stands_at(buffer, at - 3, blank) {
                assert(found[0] == 13 && found[1] == 10 && found[2] == 13 && found[3] == 10);
            }
        }
        if !here {
            lemma_post_header_boundary(
                buffer,
                at + 1,
                if line_ends(buffer, at) && length_line(buffer, at + 1) {
                    header_number(buffer, at + 16)
                } else {
                    length
                },
            );
        }
    }
}

/// The names of the length line hold no line end.
proof fn lemma_names_in_one_line(k: int)
    requires
        0 <= k < 15,
    ensures
        word("Content-Length:"@)[k] != 10,
        word("Content-Length:"@)[k] != 13,
        word("content-length:"@)[k] != 10,
        word("content-length:"@)[k] != 13,
{
    reveal_strlit("Content-Length:");
    reveal_strlit("content-length:");
    vstd::utf8::is_ascii_chars_encode_utf8("Content-Length:"@);
    vstd::utf8::is_ascii_chars_encode_utf8("content-length:"@);
}

/// The name of a length line holds no line end.
proof fn lemma_length_line(buffer: Seq<u8>, at: int)
    requires
        0 <= at,
        length_line(buffer, at),
    ensures
        at + 15 <= buffer.len(),
        forall|k: int| at <= k < at + 15 ==> #[trigger] buffer[k] != 10 && buffer[k] != 13,
{
    lemma_length_name();
    let found = buffer.subrange(at, at + 15);
    assert forall|k: int| at <= k < at + 15 implies #[trigger] buffer[k] != 10 && buffer[k] != 13 by {
        lemma_names_in_one_line(k - at);
        assert(found[k - at] == buffer[k]);
    }
}

/// A header ends with an empty line.
proof fn lemma_post_header_ends(buffer: Seq<u8>, at: int, length: Option<int>)
    requires
        1 <= at,
    ensures
        post_header(buffer, at, length) matches Some((start, _)) ==> at < start <= buffer.len()
            && line_ends(buffer, start - 1) && line_ends(buffer, start - 3),
    decreases buffer.len() - at,
{
    if at < buffer.len() && !(line_ends(buffer, at) && line_ends(buffer, at - 2)) {
        lemma_post_header_ends(
            buffer,
            at + 1,
            if line_ends(buffer, at) && length_line(buffer, at + 1) {
                header_number(buffer, at + 16)
            } else {
                length
            },
        );
    }
}

/// More bytes do not change a header that has ended.
proof fn lemma_post_header_stays(buffer: Seq<u8>, more: Seq<u8>, at: int, length: Option<int>)
    requires
        1 <= at,
        post_header(buffer, at, length) is Some,
    ensures
        post_header(buffer + more, at, length) == post_header(buffer, at, length),
    decreases buffer.len() - at,
{
    let all = buffer + more;
    assert(forall|k: int| 0 <= k < buffer.len() ==> #[trigger] all[k] == buffer[k]);
    lemma_length_name();
    if line_ends(buffer, at) && line_ends(buffer, at - 2) {
    } else {
        lemma_post_header_ends(buffer, at, length);
        let (start, _) = post_header(buffer, at, length)->0;
        assert(all[start - 1] == 10 && all[start - 2] == 13 && all[start - 3] == 10 && all[start - 4]
            == 13);
        if length_line(all, at + 1) {
            lemma_length_line(all, at + 1);
            assert(start - 1 > at);
            assert(start - 4 >= at + 16);
            assert(all.subrange(at + 1, at + 16) =~= buffer.subrange(at + 1, at + 16));
        }
        if length_line(buffer, at + 1) {
            lemma_length_line(buffer, at + 1);
            assert(all.subrange(at + 1, at + 16) =~= buffer.subrange(at + 1, at + 16));
        }
        if line_ends(buffer, at) && length_line(buffer, at + 1) {
            lemma_post_header_stays(buffer, more, at + 1, header_number(buffer, at + 16));
        } else {
            lemma_post_header_stays(buffer, more, at + 1, length);
        }
    }
}

/// How the header of the expected client begins: no empty line in it.
proof fn lemma_known_prefix(k: int)
    requires
        0 <= k < known_prefix().len(),
        known_prefix()[k] == 13,
    ensures
        k + 2 < known_prefix().len(),
        known_prefix()[k + 2] != 13,
{
    reveal_strlit(
        "POST /fraud-score HTTP/1.1\r\nHost: localhost:9999\r\nUser-Agent: Grafana k6/2.0.0\r\nContent-Length: ",
    );
    vstd::utf8::is_ascii_chars_encode_utf8(
        "POST /fraud-score HTTP/1.1\r\nHost: localhost:9999\r\nUser-Agent: Grafana k6/2.0.0\r\nContent-Length: "@,
    );
}

/// How the header of the expected client ends: an empty line only at its end.
proof fn lemma_known_suffix(k: int)
    requires
        0 <= k < known_suffix().len(),
        known_suffix()[k] == 13,
    ensures
        known_suffix().len() == 36,
        known_suffix()[0] == 13,
        k < 32 ==> known_suffix()[k + 2] != 13,
{
    reveal_strlit("\r\nContent-Type: application/json\r\n\r\n");
    vstd::utf8::is_ascii_chars_encode_utf8("\r\nContent-Type: application/json\r\n\r\n"@);
}

/// More bytes do not change a run of digits that has ended.
proof fn lemma_digits_end_stays(buffer: Seq<u8>, more: Seq<u8>, at: int)
    requires
        0 <= at,
    ensures
        digits_end(buffer + more, at) < buffer.len() ==> digits_end(buffer, at) == digits_end(
            buffer + more,
            at,
        ),
        digits_end(buffer, at) < buffer.len() ==> digits_end(buffer, at) == digits_end(
            buffer + more,
            at,
        ),
    decreases buffer.len() - at,
{
    let all = buffer + more;
    lemma_digits_end(all, at);
    if at < buffer.len() {
        assert(all[at] == buffer[at]);
        lemma_digits_end_stays(buffer, more, at + 1);
    }
}

/// More bytes do not change a header of the expected client that has ended, nor make a header that
/// ended otherwise into one.
proof fn lemma_known_header_stays(buffer: Seq<u8>, more: Seq<u8>)
    ensures
        known_header(buffer) is Some ==> known_header(buffer + more) == known_header(buffer),
        known_header(buffer) is None && post_header(buffer, 1, None) is Some ==> known_header(
            buffer + more,
        ) is None,
{
    let all = buffer + more;
    let start = known_prefix().len() as int;
    assert(known_suffix().len() == 36 && known_suffix()[0] == 13) by {
        reveal_strlit("\r\nContent-Type: application/json\r\n\r\n");
        vstd::utf8::is_ascii_chars_encode_utf8("\r\nContent-Type: application/json\r\n\r\n"@);
    }
    lemma_digits_end_stays(buffer, more, start);
    lemma_digits_end(all, start);
    lemma_digits_end(buffer, start);
    let end = digits_end(all, start);
    if known_header(buffer) is Some {
        assert(all.subrange(0, start) =~= buffer.subrange(0, start));
        assert(all.subrange(start, end) =~= buffer.subrange(start, end));
        assert(all.subrange(end, end + 36) =~= buffer.subrange(end, end + 36));
    } else if post_header(buffer, 1, None) is Some && known_header(all) is Some {
        lemma_post_header_ends(buffer, 1, None);
        let (body, _) = post_header(buffer, 1, None)->0;
        let k = body - 4;
        assert(all[k] == 13 && all[k + 2] == 13);
        if body < end + 36 {
            if k < start {
                assert(all.subrange(0, start)[k] == 13);
                lemma_known_prefix(k);
                assert(all.subrange(0, start)[k + 2] == all[k + 2]);
            } else {
                assert(k >= end);
                let tail = all.subrange(end, end + 36);
                assert(tail[k - end] == 13);
                lemma_known_suffix(k - end);
                assert(tail[k - end + 2] == all[k + 2]);
            }
        } else {
            assert(all.subrange(0, start) =~= buffer.subrange(0, start));
            assert(all.subrange(start, end) =~= buffer.subrange(start, end));
            assert(all.subrange(end, end + 36) =~= buffer.subrange(end, end + 36));
        }
    }
}

/// The empty line that ends a header stays where it is when more bytes follow.
proof fn lemma_boundary_stays(buffer: Seq<u8>, more: Seq<u8>)
    ensures
        boundary(buffer) is Some ==> boundary(buffer + more) == boundary(buffer),
{
    let all = buffer + more;
    let blank = word("\r\n\r\n"@);
    lemma_blank_len();
    crate::scanning::lemma_first_word(buffer, 0, blank);
    crate::scanning::lemma_first_word(all, 0, blank);
    if let Some(at) = first_word(buffer, 0, blank) {
        assert(all.subrange(at, at + 4) =~= buffer.subrange(at, at + 4));
        assert(stands_at(all, at, blank));
        if let Some(other) = first_word(all, 0, blank) {
            if other < at {
                assert(all.subrange(other, other + 4) =~= buffer.subrange(other, other + 4));
                assert(stands_at(buffer, other, blank));
            }
        }
    }
}

/// Once the header of a message is there its bounds are settled: bytes that arrive later change
/// neither them nor, once it is whole, the message.
pub proof fn lemma_message_stays(buffer: Seq<u8>, more: Seq<u8>)
    ensures
        message_bounds(buffer) is Some ==> message_bounds(buffer + more) == message_bounds(buffer),
        whole_message(buffer) is Some ==> whole_message(buffer + more) == whole_message(buffer),
{
    if body_bounds(buffer) is Some {
        assert((buffer + more)[0] == buffer[0]);
        if buffer[0] == 71 {
            lemma_boundary_stays(buffer, more);
        } else {
            lemma_known_header_stays(buffer, more);
            if known_header(buffer) is None {
                lemma_post_header_stays(buffer, more, 1, None);
            }
        }
    }
}

/// Positions at which no line ends do not matter to a header.
pub(crate) proof fn lemma_post_header_skips(buffer: Seq<u8>, at: int, to: int, length: Option<int>)
    requires
        1 <= at <= to <= buffer.len(),
        forall|k: int| at <= k < to ==> #[trigger] buffer[k] != 10,
    ensures
        post_header(buffer, at, length) == post_header(buffer, to, length),
    decreases to - at,
{
    if at < to {
        assert(buffer[at] != 10);
        lemma_post_header_skips(buffer, at + 1, to, length);
    }
}

/// The line ends of the beginning of the expected client's header.
proof fn lemma_prefix_lines(k: int)
    requires
        0 <= k < 96,
    ensures
        known_prefix().len() == 96,
        known_prefix()[k] == 10 <==> k == 27 || k == 49 || k == 79,
        known_prefix()[26] == 13,
        known_prefix()[28] == 72,
        known_prefix()[48] == 13,
        known_prefix()[50] == 85,
        known_prefix()[78] == 13,
        known_prefix()[95] == 32,
        known_prefix().subrange(80, 95) == word("Content-Length:"@),
{
    reveal_strlit(
        "POST /fraud-score HTTP/1.1\r\nHost: localhost:9999\r\nUser-Agent: Grafana k6/2.0.0\r\nContent-Length: ",
    );
    vstd::utf8::is_ascii_chars_encode_utf8(
        "POST /fraud-score HTTP/1.1\r\nHost: localhost:9999\r\nUser-Agent: Grafana k6/2.0.0\r\nContent-Length: "@,
    );
    reveal_strlit("Content-Length:");
    vstd::utf8::is_ascii_chars_encode_utf8("Content-Length:"@);
    assert(known_prefix().subrange(80, 95) =~= word("Content-Length:"@));
}

/// The line ends of the end of the expected client's header.
proof fn lemma_suffix_lines(k: int)
    requires
        0 <= k < 36,
    ensures
        known_suffix().len() == 36,
        known_suffix()[k] == 10 <==> k == 1 || k == 33 || k == 35,
        known_suffix()[0] == 13,
        known_suffix()[10] == 84,
        known_suffix()[32] == 13,
        known_suffix()[34] == 13,
{
    reveal_strlit("\r\nContent-Type: application/json\r\n\r\n");
    vstd::utf8::is_ascii_chars_encode_utf8("\r\nContent-Type: application/json\r\n\r\n"@);
}

/// The letters by which a length line is told from the other lines of the expected client's header.
proof fn lemma_length_letters(buffer: Seq<u8>, at: int)
    requires
        0 <= at,
        length_line(buffer, at),
    ensures
        at + 15 <= buffer.len(),
        buffer[at] == 67 || buffer[at] == 99,
        buffer[at + 8] == 76 || buffer[at + 8] == 108,
{
    lemma_length_name();
    reveal_strlit("Content-Length:");
    reveal_strlit("content-length:");
    vstd::utf8::is_ascii_chars_encode_utf8("Content-Length:"@);
    vstd::utf8::is_ascii_chars_encode_utf8("content-length:"@);
    let found = buffer.subrange(at, at + 15);
    assert(found[0] == buffer[at] && found[8] == buffer[at + 8]);
}

/// A header that is exactly that of the expected client, with a length of three digits, is read as
/// any other header would be.
pub proof fn lemma_known_header_agrees(buffer: Seq<u8>)
    requires
        known_header(buffer) is Some,
        digits_end(buffer, known_prefix().len() as int) == known_prefix().len() + 3,
    ensures
        post_header(buffer, 1, None) == known_header(buffer),
{
    lemma_prefix_lines(0);
    lemma_suffix_lines(0);
    lemma_length_name();
    lemma_digits_end(buffer, 96);
    let prefix = buffer.subrange(0, 96);
    let suffix = buffer.subrange(99, 135);
    assert forall|k: int| 0 <= k < 96 implies (#[trigger] buffer[k] == 10 <==> k == 27 || k == 49 || k
        == 79) by {
        assert(prefix[k] == buffer[k]);
        lemma_prefix_lines(k);
    }
    assert forall|k: int| 99 <= k < 135 implies (#[trigger] buffer[k] == 10 <==> k == 100 || k == 132 || k
        == 134) by {
        assert(suffix[k - 99] == buffer[k]);
        lemma_suffix_lines(k - 99);
    }
    assert(prefix[26] == buffer[26] && prefix[28] == buffer[28] && prefix[48] == buffer[48] && prefix[50]
        == buffer[50] && prefix[78] == buffer[78] && prefix[95] == buffer[95]);
    assert(suffix[0] == buffer[99] && suffix[10] == buffer[109] && suffix[32] == buffer[131] && suffix[34]
        == buffer[133]);
    assert(buffer.subrange(80, 95) =~= prefix.subrange(80, 95));
    assert(!length_line(buffer, 28)) by {
        if length_line(buffer, 28) {
            lemma_length_letters(buffer, 28);
        }
    }
    assert(!length_line(buffer, 50)) by {
        if length_line(buffer, 50) {
            lemma_length_letters(buffer, 50);
        }
    }
    assert(!length_line(buffer, 101)) by {
        if length_line(buffer, 101) {
            lemma_length_letters(buffer, 101);
        }
    }
    assert(!length_line(buffer, 133)) by {
        if length_line(buffer, 133) {
            lemma_length_letters(buffer, 133);
        }
    }
    let digits = buffer.subrange(96, 99);
    let number = header_number(buffer, 95);
    assert(number is Some);
    assert(digits_value(digits) == number) by {
        assert(digits.drop_last().drop_last().drop_last() =~= Seq::<u8>::empty());
        reveal_with_fuel(digits_value, 4);
    }
    lemma_post_header_skips(buffer, 1, 27, None);
    lemma_post_header_skips(buffer, 28, 49, None);
    lemma_post_header_skips(buffer, 50, 79, None);
    lemma_post_header_skips(buffer, 80, 100, number);
    lemma_post_header_skips(buffer, 101, 132, number);
    lemma_post_header_skips(buffer, 133, 134, number);
    assert(length_line(buffer, 80));
    assert(post_header(buffer, 27, None) == post_header(buffer, 28, None));
    assert(post_header(buffer, 49, None) == post_header(buffer, 50, None));
    assert(post_header(buffer, 79, None) == post_header(buffer, 80, number));
    assert(post_header(buffer, 100, number) == post_header(buffer, 101, number));
    assert(post_header(buffer, 132, number) == post_header(buffer, 133, number));
    assert(post_header(buffer, 134, number) == known_header(buffer));
}

/// Where the bounds of a message are known, a line has ended before its body.
proof fn lemma_line_before_body(buffer: Seq<u8>)
    requires
        body_bounds(buffer) is Some,
    ensures
        exists|k: int| 0 <= k < buffer.len() && #[trigger] buffer[k] == 10,
{
    if buffer[0] == 71 {
        let blank = word("\r\n\r\n"@);
        lemma_blank_len();
        crate::scanning::lemma_first_word(buffer, 0, blank);
        let at = first_word(buffer, 0, blank)->0;
        assert(buffer.subrange(at, at + 4)[1] == buffer[at + 1]);
    } else if known_header(buffer) is Some {
        lemma_prefix_lines(27);
        assert(buffer.subrange(0, 96)[27] == buffer[27]);
    } else {
        lemma_post_header_ends(buffer, 1, None);
    }
}

/// The beginnings of the requests that are served hold no line end.
proof fn lemma_routes_in_one_line(k: int)
    ensures
        word("POST /fraud-score "@).len() == 18,
        word("GET /ready "@).len() == 11,
        0 <= k < 18 ==> word("POST /fraud-score "@)[k] != 10,
        0 <= k < 11 ==> word("GET /ready "@)[k] != 10,
{
    reveal_strlit("POST /fraud-score ");
    reveal_strlit("GET /ready ");
    vstd::utf8::is_ascii_chars_encode_utf8("POST /fraud-score "@);
    vstd::utf8::is_ascii_chars_encode_utf8("GET /ready "@);
}

/// A word that stands at the beginning once more bytes have arrived stood there before, where a line
/// had ended and the word holds no line end.
proof fn lemma_beginning_stays(buffer: Seq<u8>, more: Seq<u8>, word: Seq<u8>, end: int)
    requires
        0 <= end < buffer.len(),
        buffer[end] == 10,
        forall|k: int| 0 <= k < word.len() ==> #[trigger] word[k] != 10,
    ensures
        stands_at(buffer + more, 0, word) == stands_at(buffer, 0, word),
{
    let all = buffer + more;
    let n = word.len() as int;
    if stands_at(all, 0, word) && end < n {
        assert(all.subrange(0, n)[end] == word[end]);
    }
    if n <= buffer.len() {
        assert(all.subrange(0, n) =~= buffer.subrange(0, n));
    }
}

/// Once the header of a message is there its route is settled: bytes that arrive later do not change
/// it.
pub proof fn lemma_route_stays(buffer: Seq<u8>, more: Seq<u8>)
    requires
        message_bounds(buffer) is Some,
    ensures
        route_of(buffer + more) == route_of(buffer),
{
    let post = word("POST /fraud-score "@);
    let get = word("GET /ready "@);
    lemma_routes_in_one_line(0);
    assert forall|k: int| 0 <= k < post.len() implies #[trigger] post[k] != 10 by {
        lemma_routes_in_one_line(k);
    }
    assert forall|k: int| 0 <= k < get.len() implies #[trigger] get[k] != 10 by {
        lemma_routes_in_one_line(k);
    }
    lemma_line_before_body(buffer);
    let end = choose|k: int| 0 <= k < buffer.len() && #[trigger] buffer[k] == 10;
    lemma_beginning_stays(buffer, more, post, end);
    lemma_beginning_stays(buffer, more, get, end);
}

} // verus!
