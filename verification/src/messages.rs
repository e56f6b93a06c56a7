//! Messages are found as they are written: lines, an empty line, a body.
use vstd::prelude::*;

use crate::catalog::all_digits;
use crate::http::{answer, header_number, length_line, lemma_post_header_skips, line_ends,
    message_bounds, post_header, route_of, whole_message, DirectHttpMessage, Route};
use crate::scanning::{first_word, lemma_first_word, stands_at, word};
use crate::time::digits_value;

verus! {

/// Lines, each with its end.
pub open spec fn lines_text(lines: Seq<Seq<u8>>) -> Seq<u8>
    decreases lines.len(),
{
    if lines.len() == 0 {
        Seq::empty()
    } else {
        lines_text(lines.drop_last()) + lines.last() + seq![13u8, 10u8]
    }
}

/// A message: its lines, an empty line, and what follows.
pub open spec fn message_text(lines: Seq<Seq<u8>>, rest: Seq<u8>) -> Seq<u8> {
    lines_text(lines) + (seq![13u8, 10u8] + rest)
}

/// There is a line, and none is empty or holds the end of one.
pub open spec fn proper_lines(lines: Seq<Seq<u8>>) -> bool {
    &&& lines.len() > 0
    &&& forall|i: int| 0 <= i < lines.len() ==> proper_line(#[trigger] lines[i])
}

/// A line that is not empty and holds no end of a line.
pub open spec fn proper_line(line: Seq<u8>) -> bool {
    line.len() > 0 && !line.contains(10u8) && !line.contains(13u8)
}

/// A line that gives the length of the body.
pub open spec fn names_length(line: Seq<u8>) -> bool {
    &&& line.len() >= 15
    &&& line.take(15) == word("Content-Length:"@) || line.take(15) == word("content-length:"@)
}

/// Every line behind the first that gives the length of the body gives it in three digits behind a
/// space.
pub open spec fn proper_lengths(lines: Seq<Seq<u8>>) -> bool {
    forall|i: int|
        1 <= i < lines.len() && names_length(#[trigger] lines[i]) ==> lines[i].len() == 19 && lines[i][15]
            == 32 && all_digits(lines[i].skip(16))
}

/// The length that the last of the lines that give one gives, the first line left out.
pub open spec fn announced(lines: Seq<Seq<u8>>) -> Option<int>
    decreases lines.len(),
{
    if lines.len() <= 1 {
        None
    } else if names_length(lines.last()) {
        digits_value(lines.last().skip(16))
    } else {
        announced(lines.drop_last())
    }
}

/// Where a line begins.
spec fn line_start(lines: Seq<Seq<u8>>, i: int) -> int {
    lines_text(lines.take(i)).len() as int
}

/// A line stands where it begins, and its end behind it.
proof fn lemma_line_at(lines: Seq<Seq<u8>>, rest: Seq<u8>, i: int)
    requires
        0 <= i < lines.len(),
    ensures
        ({
            let text = lines_text(lines) + rest;
            let start = line_start(lines, i);
            let end = start + lines[i].len();
            &&& line_start(lines, i + 1) == end + 2
            &&& end + 2 <= lines_text(lines).len()
            &&& forall|k: int| 0 <= k < lines[i].len() ==> text[start + k] == #[trigger] lines[i][k]
            &&& text[end] == 13
            &&& text[end + 1] == 10
        }),
    decreases lines.len(),
{
    let text = lines_text(lines) + rest;
    let fewer = lines.drop_last();
    assert(lines.take(i + 1).drop_last() =~= lines.take(i));
    assert(lines.take(i + 1).last() == lines[i]);
    if i < lines.len() - 1 {
        let more = lines.last() + seq![13u8, 10u8] + rest;
        lemma_line_at(fewer, more, i);
        assert(fewer.take(i) =~= lines.take(i));
        assert(fewer.take(i + 1) =~= lines.take(i + 1));
        assert(fewer[i] == lines[i]);
        assert(text =~= lines_text(fewer) + more);
    } else {
        assert(fewer =~= lines.take(i));
        assert(lines =~= lines.take(i + 1));
        let start = line_start(lines, i);
        assert forall|k: int| 0 <= k < lines[i].len() implies text[start + k] == #[trigger] lines[i][k] by {}
    }
}

/// The names of a length.
proof fn lemma_names()
    ensures
        word("Content-Length:"@).len() == 15,
        word("content-length:"@).len() == 15,
        word("Content-Length:"@)[0] == 67,
        word("content-length:"@)[0] == 99,
        forall|k: int| 0 <= k < 15 ==> #[trigger] word("Content-Length:"@)[k] != 13,
        forall|k: int| 0 <= k < 15 ==> #[trigger] word("content-length:"@)[k] != 13,
{
    reveal_strlit("Content-Length:");
    reveal_strlit("content-length:");
    vstd::utf8::is_ascii_chars_encode_utf8("Content-Length:"@);
    vstd::utf8::is_ascii_chars_encode_utf8("content-length:"@);
}

/// A line gives the length in the text if and only if it does by itself.
proof fn lemma_length_line(lines: Seq<Seq<u8>>, rest: Seq<u8>, i: int)
    requires
        proper_lines(lines),
        0 <= i < lines.len(),
    ensures
        length_line(lines_text(lines) + rest, line_start(lines, i)) == names_length(lines[i]),
{
    let text = lines_text(lines) + rest;
    let start = line_start(lines, i);
    let line = lines[i];
    lemma_names();
    lemma_line_at(lines, rest, i);
    if line.len() >= 15 {
        assert(text.subrange(start, start + 15) =~= line.take(15));
    } else if length_line(text, start) {
        let found = text.subrange(start, start + 15);
        assert(found[line.len() as int] == text[start + line.len()]);
    }
}

/// The length that a line gives.
proof fn lemma_length_number(lines: Seq<Seq<u8>>, rest: Seq<u8>, i: int)
    requires
        proper_lines(lines),
        proper_lengths(lines),
        1 <= i < lines.len(),
        names_length(lines[i]),
    ensures
        header_number(lines_text(lines) + rest, line_start(lines, i) + 15) == digits_value(lines[i].skip(16)),
{
    let text = lines_text(lines) + rest;
    let start = line_start(lines, i);
    let line = lines[i];
    let digits = line.skip(16);
    lemma_line_at(lines, rest, i);
    assert(text[start + 15] == line[15] && text[start + 16] == line[16] && text[start + 17] == line[17]
        && text[start + 18] == line[18]);
    assert(digits[0] == line[16] && digits[1] == line[17] && digits[2] == line[18]);
    reveal_with_fuel(digits_value, 4);
    assert(digits.drop_last().last() == digits[1]);
    assert(digits.drop_last().drop_last().last() == digits[0]);
    assert(digits.drop_last().drop_last().drop_last() =~= Seq::<u8>::empty());
}

/// From the end of a line on, the header is read to its end.
proof fn lemma_from_line_end(lines: Seq<Seq<u8>>, rest: Seq<u8>, i: int)
    requires
        proper_lines(lines),
        proper_lengths(lines),
        0 <= i < lines.len(),
    ensures
        post_header(
            message_text(lines, rest),
            line_start(lines, i) + lines[i].len() + 1,
            announced(lines.take(i + 1)),
        ) == match announced(lines) {
            Some(n) => Some((lines_text(lines).len() as int + 2, n)),
            None => None,
        },
    decreases lines.len() - i,
{
    let tail = seq![13u8, 10u8] + rest;
    let text = message_text(lines, rest);
    let at = line_start(lines, i) + lines[i].len() + 1;
    let length = announced(lines.take(i + 1));
    lemma_names();
    lemma_line_at(lines, tail, i);
    assert(proper_line(lines[i]));
    let line = lines[i];
    assert(text[line_start(lines, i) + (line.len() - 1)] == line[line.len() - 1]);
    assert(line.contains(line[line.len() - 1]));
    assert(line_ends(text, at));
    assert(!line_ends(text, at - 2));
    if i == lines.len() - 1 {
        assert(lines.take(i + 1) =~= lines);
        let end = lines_text(lines).len() as int;
        assert(at + 1 == end);
        assert(text[end] == 13 && text[end + 1] == 10);
        if length_line(text, at + 1) {
            assert(text.subrange(end, end + 15)[0] == text[end]);
        }
        assert(post_header(text, at, length) == post_header(text, at + 1, length));
        assert(post_header(text, at + 1, length) == post_header(text, at + 2, length));
        assert(line_ends(text, at + 2));
    } else {
        let next = lines[i + 1];
        let start = line_start(lines, i + 1);
        assert(start == at + 1);
        lemma_line_at(lines, tail, i + 1);
        lemma_length_line(lines, tail, i + 1);
        if names_length(next) {
            lemma_length_number(lines, tail, i + 1);
        }
        assert(lines.take(i + 2).drop_last() =~= lines.take(i + 1));
        assert(lines.take(i + 2).last() == next);
        let to = start + next.len() + 1;
        assert(proper_line(next));
        assert forall|k: int| start <= k < to implies #[trigger] text[k] != 10 by {
            if k < start + next.len() {
                assert(text[start + (k - start)] == next[k - start]);
                assert(next.contains(next[k - start]));
            }
        }
        lemma_post_header_skips(text, start, to, announced(lines.take(i + 2)));
        lemma_from_line_end(lines, rest, i + 1);
    }
}

/// The header of a message is read line by line.
proof fn lemma_header_read(lines: Seq<Seq<u8>>, rest: Seq<u8>)
    requires
        proper_lines(lines),
        proper_lengths(lines),
    ensures
        post_header(message_text(lines, rest), 1, None) == match announced(lines) {
            Some(n) => Some((lines_text(lines).len() as int + 2, n)),
            None => None,
        },
{
    let tail = seq![13u8, 10u8] + rest;
    let text = message_text(lines, rest);
    let line = lines[0];
    assert(proper_line(lines[0]));
    lemma_line_at(lines, tail, 0);
    assert(lines.take(0) =~= Seq::<Seq<u8>>::empty());
    let to = line.len() as int + 1;
    assert forall|k: int| 1 <= k < to implies #[trigger] text[k] != 10 by {
        if k < line.len() {
            assert(text[0 + k] == line[k]);
            assert(line.contains(line[k]));
        }
    }
    lemma_post_header_skips(text, 1, to, None);
    lemma_from_line_end(lines, rest, 0);
}

/// A message that does not begin like that of the expected client and is no `GET`: its body begins
/// behind the empty line and is as long as the last length line says, whatever other lines there are;
/// without such a line there is no message.
pub proof fn lemma_message_is_found(lines: Seq<Seq<u8>>, rest: Seq<u8>)
    requires
        proper_lines(lines),
        proper_lengths(lines),
        lines[0][0] != 71,
        !stands_at(
            message_text(lines, rest),
            0,
            word(
                "POST /fraud-score HTTP/1.1\r\nHost: localhost:9999\r\nUser-Agent: Grafana k6/2.0.0\r\nContent-Length: "@,
            ),
        ),
        lines_text(lines).len() + 1_001 <= usize::MAX,
    ensures
        message_bounds(message_text(lines, rest)) == match announced(lines) {
            Some(n) => Some(
                DirectHttpMessage {
                    body_start: (lines_text(lines).len() + 2) as usize,
                    message_end: (lines_text(lines).len() + 2 + n) as usize,
                },
            ),
            None => None,
        },
        announced(lines) matches Some(n) ==> 0 <= n <= 999,
        announced(lines) matches Some(n) ==> (rest.len() >= n <==> whole_message(
            message_text(lines, rest),
        ) is Some),
{
    let tail = seq![13u8, 10u8] + rest;
    let text = message_text(lines, rest);
    lemma_header_read(lines, rest);
    lemma_line_at(lines, tail, 0);
    assert(lines.take(0) =~= Seq::<Seq<u8>>::empty());
    assert(proper_line(lines[0]));
    assert(text[0int + 0] == lines[0][0]);
    lemma_announced_small(lines);
}

/// Three digits give a length below a thousand.
proof fn lemma_announced_small(lines: Seq<Seq<u8>>)
    requires
        proper_lengths(lines),
    ensures
        announced(lines) matches Some(n) ==> 0 <= n <= 999,
    decreases lines.len(),
{
    if lines.len() > 1 {
        if names_length(lines.last()) {
            let i = lines.len() - 1;
            assert(names_length(lines[i]));
            let digits = lines[i].skip(16);
            reveal_with_fuel(digits_value, 4);
            assert(digits.len() == 3);
            assert(48 <= digits[0] <= 57 && 48 <= digits[1] <= 57 && 48 <= digits[2] <= 57);
            assert(digits.drop_last().last() == digits[1]);
            assert(digits.drop_last().drop_last().last() == digits[0]);
            assert(digits.drop_last().drop_last().drop_last() =~= Seq::<u8>::empty());
        } else {
            let fewer = lines.drop_last();
            assert(proper_lengths(fewer)) by {
                assert forall|i: int| 1 <= i < fewer.len() && names_length(#[trigger] fewer[i]) implies fewer[i].len()
                    == 19 && fewer[i][15] == 32 && all_digits(fewer[i].skip(16)) by {
                    assert(fewer[i] == lines[i]);
                }
            }
            lemma_announced_small(fewer);
        }
    }
}

/// No empty line stands before the one that ends the header.
proof fn lemma_no_blank_before(lines: Seq<Seq<u8>>, rest: Seq<u8>, i: int, k: int)
    requires
        proper_lines(lines),
        0 <= i < lines.len(),
        line_start(lines, i) <= k < line_start(lines, i + 1),
        k != lines_text(lines).len() - 2,
    ensures
        !stands_at(message_text(lines, rest), k, word("\r\n\r\n"@)),
{
    let tail = seq![13u8, 10u8] + rest;
    let text = message_text(lines, rest);
    let start = line_start(lines, i);
    let line = lines[i];
    reveal_strlit("\r\n\r\n");
    vstd::utf8::is_ascii_chars_encode_utf8("\r\n\r\n"@);
    lemma_line_at(lines, tail, i);
    assert(proper_line(line));
    if stands_at(text, k, word("\r\n\r\n"@)) {
        let found = text.subrange(k, k + 4);
        assert(found[0] == text[k] && found[2] == text[k + 2]);
        if k < start + line.len() {
            assert(text[start + (k - start)] == line[k - start]);
            assert(line.contains(line[k - start]));
        } else if k == start + line.len() {
            assert(lines.take(lines.len() as int) =~= lines);
            if i + 1 < lines.len() {
                let next = lines[i + 1];
                assert(proper_line(next));
                lemma_line_at(lines, tail, i + 1);
                assert(text[line_start(lines, i + 1) + 0] == next[0]);
                assert(next.contains(next[0]));
            }
        }
    }
}

/// Every position of the lines lies in one of them.
proof fn lemma_line_of(lines: Seq<Seq<u8>>, n: int, k: int) -> (i: int)
    requires
        0 <= n <= lines.len(),
        0 <= k < line_start(lines, n),
    ensures
        0 <= i < n,
        line_start(lines, i) <= k < line_start(lines, i + 1),
    decreases n,
{
    if n == 0 {
        assert(lines.take(0) =~= Seq::<Seq<u8>>::empty());
        0
    } else if k < line_start(lines, n - 1) {
        lemma_line_of(lines, n - 1, k)
    } else {
        n - 1
    }
}

/// A `GET` ends with the empty line behind its lines and has no body.
pub proof fn lemma_get_is_found(lines: Seq<Seq<u8>>, rest: Seq<u8>)
    requires
        proper_lines(lines),
        lines[0][0] == 71,
        lines_text(lines).len() + 2 <= usize::MAX,
    ensures
        whole_message(message_text(lines, rest)) == Some(
            DirectHttpMessage {
                body_start: (lines_text(lines).len() + 2) as usize,
                message_end: (lines_text(lines).len() + 2) as usize,
            },
        ),
{
    let tail = seq![13u8, 10u8] + rest;
    let text = message_text(lines, rest);
    let blank = word("\r\n\r\n"@);
    let n = lines.len() as int;
    let at = lines_text(lines).len() - 2;
    reveal_strlit("\r\n\r\n");
    vstd::utf8::is_ascii_chars_encode_utf8("\r\n\r\n"@);
    lemma_line_at(lines, tail, 0);
    assert(lines.take(0) =~= Seq::<Seq<u8>>::empty());
    assert(proper_line(lines[0]));
    assert(text[0int + 0] == lines[0][0]);
    lemma_line_at(lines, tail, n - 1);
    assert(lines.take(n) =~= lines);
    assert(text[at + 2] == 13 && text[at + 3] == 10);
    assert(text.subrange(at, at + 4) =~= blank);
    assert(stands_at(text, at, blank));
    lemma_first_word(text, 0, blank);
    if let Some(found) = first_word(text, 0, blank) {
        if found < at {
            let i = lemma_line_of(lines, n, found);
            lemma_no_blank_before(lines, rest, i, found);
        }
    }
}

/// The message of the expected client, with a length in any number of digits, begins its body behind
/// its header, and the body is as long as the digits say.
pub proof fn lemma_expected_client_is_found(digits: Seq<u8>, rest: Seq<u8>)
    requires
        digits.len() > 0,
        all_digits(digits),
        digits_value(digits)->0 + digits.len() + 132 <= usize::MAX,
    ensures
        ({
            let prefix = word(
                "POST /fraud-score HTTP/1.1\r\nHost: localhost:9999\r\nUser-Agent: Grafana k6/2.0.0\r\nContent-Length: "@,
            );
            let suffix = word("\r\nContent-Type: application/json\r\n\r\n"@);
            let header = prefix + digits + suffix;
            &&& digits_value(digits) is Some
            &&& message_bounds(header + rest) == Some(
                DirectHttpMessage {
                    body_start: header.len() as usize,
                    message_end: (header.len() + digits_value(digits)->0) as usize,
                },
            )
        }),
{
    let prefix = word(
        "POST /fraud-score HTTP/1.1\r\nHost: localhost:9999\r\nUser-Agent: Grafana k6/2.0.0\r\nContent-Length: "@,
    );
    let suffix = word("\r\nContent-Type: application/json\r\n\r\n"@);
    let text = prefix + digits + suffix + rest;
    let start = prefix.len() as int;
    let end = start + digits.len();
    lemma_client_words();
    crate::catalog::lemma_digits_join(Seq::<u8>::empty(), digits);
    assert(text.subrange(0, start) =~= prefix);
    assert forall|k: int| start <= k < end implies 48 <= #[trigger] text[k] <= 57 by {
        assert(text[k] == digits[k - start]);
    }
    assert(text[end] == suffix[0]);
    crate::catalog::lemma_digits_stop(text, start, end);
    assert(text.subrange(start, end) =~= digits);
    assert(text.subrange(end, end + suffix.len()) =~= suffix);
    assert(text[0] == prefix[0]);
    crate::catalog::lemma_digits_write(digits);
}

/// The words of the expected client.
proof fn lemma_client_words()
    ensures
        word(
            "POST /fraud-score HTTP/1.1\r\nHost: localhost:9999\r\nUser-Agent: Grafana k6/2.0.0\r\nContent-Length: "@,
        ).len() == 96,
        word(
            "POST /fraud-score HTTP/1.1\r\nHost: localhost:9999\r\nUser-Agent: Grafana k6/2.0.0\r\nContent-Length: "@,
        )[0] == 80,
        word("\r\nContent-Type: application/json\r\n\r\n"@).len() == 36,
        word("\r\nContent-Type: application/json\r\n\r\n"@)[0] == 13,
{
    reveal_strlit(
        "POST /fraud-score HTTP/1.1\r\nHost: localhost:9999\r\nUser-Agent: Grafana k6/2.0.0\r\nContent-Length: ",
    );
    vstd::utf8::is_ascii_chars_encode_utf8(
        "POST /fraud-score HTTP/1.1\r\nHost: localhost:9999\r\nUser-Agent: Grafana k6/2.0.0\r\nContent-Length: "@,
    );
    reveal_strlit("\r\nContent-Type: application/json\r\n\r\n");
    vstd::utf8::is_ascii_chars_encode_utf8("\r\nContent-Type: application/json\r\n\r\n"@);
}

/// A request is scored if and only if it begins with `POST /fraud-score` and a space, and asks whether
/// the service is ready if and only if it begins with `GET /ready` and a space; nothing else is found.
pub proof fn lemma_routes(rest: Seq<u8>, other: Seq<u8>)
    ensures
        route_of(word("POST /fraud-score "@) + rest) == Route::Score,
        route_of(word("GET /ready "@) + rest) == Route::Ready,
        route_of(other) == Route::Score ==> other == word("POST /fraud-score "@) + other.skip(
            word("POST /fraud-score "@).len() as int,
        ),
        route_of(other) == Route::Ready ==> other == word("GET /ready "@) + other.skip(
            word("GET /ready "@).len() as int,
        ),
{
    let post = word("POST /fraud-score "@);
    let get = word("GET /ready "@);
    assert(post.len() == 18 && post[0] == 80 && get.len() == 11 && get[0] == 71) by {
        reveal_strlit("POST /fraud-score ");
        reveal_strlit("GET /ready ");
        vstd::utf8::is_ascii_chars_encode_utf8("POST /fraud-score "@);
        vstd::utf8::is_ascii_chars_encode_utf8("GET /ready "@);
    }
    assert((post + rest).subrange(0, 18) =~= post);
    assert((get + rest).subrange(0, 11) =~= get);
    if stands_at(get + rest, 0, post) {
        assert((get + rest).subrange(0, 18)[0] == (get + rest)[0]);
    }
    if route_of(other) == Route::Score {
        assert(other =~= post + other.skip(18)) by {
            assert(other.subrange(0, 18) == post);
            assert forall|k: int| 0 <= k < 18 implies other[k] == post[k] by {
                assert(other.subrange(0, 18)[k] == other[k]);
            }
        }
    }
    if route_of(other) == Route::Ready {
        assert(other =~= get + other.skip(11)) by {
            assert(other.subrange(0, 11) == get);
            assert forall|k: int| 0 <= k < 11 implies other[k] == get[k] by {
                assert(other.subrange(0, 11)[k] == other[k]);
            }
        }
    }
}

/// A score of zero is answered as approved with a fraud score of zero, every other one as not approved
/// with a fraud score of one; readiness with `ok`, and anything else with not found.
pub proof fn lemma_answers(score: u8)
    ensures
        answer(Route::Score, 0) == word(
            "HTTP/1.1 200 OK\r\ncontent-length: 33\r\n\r\n{\"approved\":true,\"fraud_score\":0}"@,
        ),
        score != 0 ==> answer(Route::Score, score) == word(
            "HTTP/1.1 200 OK\r\ncontent-length: 34\r\n\r\n{\"approved\":false,\"fraud_score\":1}"@,
        ),
        answer(Route::Ready, score) == word("HTTP/1.1 200 OK\r\ncontent-length: 2\r\n\r\nok"@),
        answer(Route::NotFound, score) == word(
            "HTTP/1.1 404 Not Found\r\ncontent-length: 0\r\nconnection: close\r\n\r\n"@,
        ),
{
}

} // verus!
