//! HTTP/1.1 requests and responses, as far as the service needs them.

use crate::bytes;
use crate::bytes::{
    append, ascii, find_key, read_decimal, same_bytes, skip_blanks, skip_until, NEWLINE, SPACE, ZERO,
};
use vstd::prelude::*;

verus! {

/// The lower-case form of an ASCII letter; any other byte stays as it is.
pub open spec fn lower(c: u8) -> u8 {
    if 0x41 <= c <= 0x5a {
        (c + 32) as u8
    } else {
        c
    }
}

/// `needle` stands in `buf` at `i`, whatever the case of the letters in `buf`.
pub open spec fn header_at(buf: Seq<u8>, i: int, needle: Seq<u8>) -> bool {
    &&& 0 <= i
    &&& i + needle.len() <= buf.len()
    &&& forall|k: int| 0 <= k < needle.len() ==> lower(buf[i + k]) == #[trigger] needle[k]
}

/// Whether `needle_lower` stands in `buf` at `i`, whatever the case of the letters in `buf`.
pub fn header_match(buf: &[u8], i: usize, needle_lower: &[u8]) -> (r: bool)
    ensures
        r == header_at(buf@, i as int, needle_lower@),
{
    if needle_lower.len() > buf.len() || i > buf.len() - needle_lower.len() {
        return false;
    }
    let mut k: usize = 0;
    while k < needle_lower.len()
        invariant
            k <= needle_lower@.len(),
            i + needle_lower@.len() <= buf@.len(),
            buf@.len() == buf.len(),
            forall|j: int| 0 <= j < k ==> lower(buf@[i + j]) == #[trigger] needle_lower@[j],
        decreases needle_lower@.len() - k,
    {
        let c: u8 = buf[i + k];
        let cl: u8 = if 0x41 <= c && c <= 0x5a {
            c + 32
        } else {
            c
        };
        if cl != needle_lower[k] {
            return false;
        }
        k += 1;
    }
    true
}

/// Where the method of a request line ends: at its first space.
pub open spec fn method_end(req: Seq<u8>) -> int {
    bytes::skip_while(req, 0, bytes::other_than(SPACE))
}

/// Where the path of a request line ends: at the next space, or with the head.
pub open spec fn path_end(req: Seq<u8>) -> int {
    bytes::skip_while(req, method_end(req) + 1, bytes::other_than(SPACE))
}

/// A header line begins at `i`: just past a line feed that stands at or after the path's end.
pub open spec fn is_line_start(req: Seq<u8>, i: int) -> bool {
    path_end(req) < i < req.len() && req[i - 1] == NEWLINE
}

/// A `Content-Length` line begins at `i`.
pub open spec fn is_length_line(req: Seq<u8>, i: int) -> bool {
    is_line_start(req, i) && header_at(req, i, bytes::text("content-length:"@))
}

/// The number in the `Content-Length` line at `i`.
pub open spec fn length_at(req: Seq<u8>, i: int) -> int {
    let value = bytes::skip_while(
        req,
        i + "content-length:"@.len(),
        bytes::is_blank(),
    );
    bytes::decimal_value(bytes::digit_run(req, value))
}

/// The last `Content-Length` line begins at `i`.
pub open spec fn is_last_length_line(req: Seq<u8>, i: int) -> bool {
    is_length_line(req, i) && forall|j: int| i < j ==> !#[trigger] is_length_line(req, j)
}

/// The body length that a request head announces: that of its last `Content-Length` line, or
/// zero when it has none.
pub open spec fn content_length(req: Seq<u8>) -> int {
    if exists|i: int| is_last_length_line(req, i) {
        length_at(req, choose|i: int| is_last_length_line(req, i))
    } else {
        0
    }
}

/// An announced length is not negative.
pub proof fn lemma_content_length(req: Seq<u8>)
    ensures
        0 <= content_length(req),
{
    if exists|i: int| is_last_length_line(req, i) {
        reveal_strlit("content-length:");
        let i = choose|i: int| is_last_length_line(req, i);
        assert(is_last_length_line(req, i));
        let from = i + "content-length:"@.len();
        bytes::lemma_skip_while(req, from, bytes::is_blank());
        let value = bytes::skip_while(req, from, bytes::is_blank());
        bytes::lemma_skip_while(req, value, bytes::digit());
        let run = bytes::digit_run(req, value);
        assert forall|k: int| 0 <= k < run.len() implies bytes::is_digit(#[trigger] run[k]) by {
            assert(bytes::digit()(req[value + k]));
        }
        bytes::lemma_decimal_value_grows(run, 0);
    }
}

/// A `Connection` line begins at `i`, and its value begins with `close`.
pub open spec fn is_close_line(req: Seq<u8>, i: int) -> bool {
    &&& is_line_start(req, i)
    &&& header_at(req, i, bytes::text("connection:"@))
    &&& header_at(
        req,
        bytes::skip_while(req, i + "connection:"@.len(), bytes::is_blank()),
        bytes::text("close"@),
    )
}

/// The connection stays open after the response, unless some header line closes it.
pub open spec fn keeps_alive(req: Seq<u8>) -> bool {
    !exists|i: int| is_close_line(req, i)
}

/// A head that can be read: its request line has a space, and each announced length fits.
pub open spec fn is_readable_head(req: Seq<u8>) -> bool {
    &&& method_end(req) < req.len()
    &&& forall|i: int| #[trigger] is_length_line(req, i) ==> length_at(req, i) <= usize::MAX
}

/// What a request head says: method, path, body length, and whether to keep the connection.
pub open spec fn head_is(req: Seq<u8>, head: (Seq<u8>, Seq<u8>, int, bool)) -> bool {
    &&& head.0 == req.subrange(0, method_end(req))
    &&& head.1 == req.subrange(method_end(req) + 1, path_end(req))
    &&& head.2 == content_length(req)
    &&& head.3 == keeps_alive(req)
}

/// Reads a request head that may be unreadable.
pub fn read_request_head(req: &[u8]) -> (r: Option<(&[u8], &[u8], usize, bool)>)
    ensures
        r is Some == is_readable_head(req@),
        r matches Some((method, path, length, keep)) ==> head_is(
            req@,
            (method@, path@, length as int, keep),
        ),
{
    let sp1: usize = skip_until(req, 0, SPACE);
    if sp1 >= req.len() {
        return None;
    }
    let method = &req[0..sp1];
    let sp2: usize = skip_until(req, sp1 + 1, SPACE);
    let path = &req[sp1 + 1..sp2];

    proof {
        reveal_strlit("content-length:");
        reveal_strlit("connection:");
        reveal_strlit("close");
    }
    let mut length: usize = 0;
    let mut keep: bool = true;
    let mut i: usize = sp2;
    let ghost mut last: Option<int> = None;
    loop
        invariant_except_break
            sp2 <= i <= req@.len(),
            keep == !exists|j: int| j <= i && is_close_line(req@, j),
            match last {
                Some(l) => {
                    &&& l <= i
                    &&& is_length_line(req@, l)
                    &&& length == length_at(req@, l)
                    &&& forall|j: int| l < j <= i ==> !#[trigger] is_length_line(req@, j)
                },
                None => length == 0 && forall|j: int|
                    j <= i ==> !#[trigger] is_length_line(req@, j),
            },
            forall|j: int|
                j <= i && #[trigger] is_length_line(req@, j) ==> length_at(req@, j) <= usize::MAX,
        invariant
            sp1 == method_end(req@),
            sp1 < req@.len(),
            sp2 == path_end(req@),
            req@.len() == req.len(),
            "content-length:"@.len() == 15,
            "connection:"@.len() == 11,
            vstd::string::is_ascii("content-length:"),
            vstd::string::is_ascii("connection:"),
            vstd::string::is_ascii("close"),
            bytes::text("content-length:"@)[3] == 0x74,
            bytes::text("connection:"@)[3] == 0x6e,
        ensures
            keep == keeps_alive(req@),
            length == content_length(req@),
            is_readable_head(req@),
        decreases req@.len() - i,
    {
        let q: usize = skip_until(req, i, NEWLINE);
        proof {
            bytes::lemma_skip_while(req@, i as int, bytes::other_than(NEWLINE));
            assert forall|j: int| i < j <= q implies !is_line_start(req@, j) by {
                if is_line_start(req@, j) {
                    assert(bytes::other_than(NEWLINE)(req@[j - 1]));
                }
            }
        }
        if q >= req.len() || q + 1 >= req.len() {
            proof {
                assert(forall|j: int| i < j ==> !is_line_start(req@, j));
                match last {
                    Some(l) => {
                        assert(is_last_length_line(req@, l));
                        let k = choose|k: int| is_last_length_line(req@, k);
                        assert(is_last_length_line(req@, k));
                        assert(k == l);
                    },
                    None => {
                        assert forall|k: int| !is_last_length_line(req@, k) by {
                            assert(!is_length_line(req@, k));
                        }
                    },
                }
                if !keep {
                    let j = choose|j: int| j <= i && is_close_line(req@, j);
                    assert(is_close_line(req@, j));
                }
            }
            break;
        }
        let start: usize = q + 1;
        let ghost before = keep;
        if header_match(req, start, ascii("content-length:")) {
            assert(is_length_line(req@, start as int));
            let value: usize = skip_blanks(req, start + 15);
            length = match read_decimal(req, value) {
                Some(n) => n,
                None => {
                    return None;
                },
            };
            proof {
                last = Some(start as int);
                assert(!header_at(req@, start as int, bytes::text("connection:"@))) by {
                    assert(lower(req@[start + 3]) == bytes::text("content-length:"@)[3]);
                    if header_at(req@, start as int, bytes::text("connection:"@)) {
                        assert(lower(req@[start + 3]) == bytes::text("connection:"@)[3]);
                    }
                }
            }
        } else if header_match(req, start, ascii("connection:")) {
            let value: usize = skip_blanks(req, start + 11);
            if header_match(req, value, ascii("close")) {
                keep = false;
                assert(is_close_line(req@, start as int));
            }
        }
        proof {
            if !before {
                let j = choose|j: int| j <= i && is_close_line(req@, j);
                assert(j <= start && is_close_line(req@, j));
            }
        }
        i = start;
    }
    Some((method, path, length, keep))
}

/// Reads a request head.
pub fn parse_request_head(req: &[u8]) -> (r: (&[u8], &[u8], usize, bool))
    requires
        is_readable_head(req@),
    ensures
        head_is(req@, (r.0@, r.1@, r.2 as int, r.3)),
{
    match read_request_head(req) {
        Some(head) => head,
        None => vstd::pervasive::unreached(),
    }
}

/// What a request asks for.
#[derive(Clone, Copy, Debug, PartialEq, Eq, Structural)]
pub enum Route {
    Ready,
    FraudScore,
    Other,
}

/// The route that a method and a path name.
pub open spec fn route_of(method: Seq<u8>, path: Seq<u8>) -> Route {
    if method == bytes::text("GET"@) && path == bytes::text("/ready"@) {
        Route::Ready
    } else if method == bytes::text("POST"@) && path == bytes::text("/fraud-score"@) {
        Route::FraudScore
    } else {
        Route::Other
    }
}

/// The route that a method and a path name.
pub fn classify_route(method: &[u8], path: &[u8]) -> (r: Route)
    ensures
        r == route_of(method@, path@),
{
    proof {
        reveal_strlit("GET");
        reveal_strlit("/ready");
        reveal_strlit("POST");
        reveal_strlit("/fraud-score");
    }
    if same_bytes(method, ascii("GET")) && same_bytes(path, ascii("/ready")) {
        Route::Ready
    } else if same_bytes(method, ascii("POST")) && same_bytes(path, ascii("/fraud-score")) {
        Route::FraudScore
    } else {
        Route::Other
    }
}

/// The two line ends that close a request head.
pub open spec fn head_mark() -> Seq<u8> {
    bytes::text("\r\n\r\n"@)
}

/// The position of the blank line that ends a request head.
pub fn find_double_crlf(buf: &[u8]) -> (r: Option<usize>)
    ensures
        bytes::position(r) == bytes::search(buf@, head_mark(), 0),
        r matches Some(i) ==> i + 4 <= buf@.len(),
{
    proof {
        reveal_strlit("\r\n\r\n");
    }
    find_key(buf, ascii("\r\n\r\n"))
}

/// The decimal digits of a number, without leading zeros.
pub open spec fn decimal(n: nat) -> Seq<u8>
    decreases n,
{
    if n < 10 {
        seq![(ZERO + n) as u8]
    } else {
        decimal(n / 10).push((ZERO + n % 10) as u8)
    }
}

/// The decimal digits of a number, without leading zeros.
pub fn itoa_u32(n: u32) -> (r: Vec<u8>)
    ensures
        r@ == decimal(n as nat),
{
    let mut rest: u32 = n;
    let mut backwards: Vec<u8> = Vec::new();
    while rest >= 10
        invariant
            decimal(n as nat) == decimal(rest as nat) + backwards@.reverse(),
        decreases rest,
    {
        let ghost tail = backwards@;
        let c: u8 = ZERO + (rest % 10) as u8;
        backwards.push(c);
        assert(backwards@.reverse() =~= seq![c] + tail.reverse());
        assert(decimal(rest as nat) == decimal((rest / 10) as nat).push(c));
        assert(decimal((rest / 10) as nat).push(c) + tail.reverse() =~= decimal((rest / 10) as nat)
            + backwards@.reverse());
        rest /= 10;
    }
    let mut out: Vec<u8> = Vec::new();
    out.push(ZERO + rest as u8);
    assert(out@ =~= decimal(rest as nat));
    let mut k: usize = backwards.len();
    while k > 0
        invariant
            k <= backwards@.len(),
            out@ == decimal(rest as nat) + backwards@.reverse().take(backwards@.len() - k),
        decreases k,
    {
        k -= 1;
        out.push(backwards[k]);
        assert(backwards@.reverse().take(backwards@.len() - k) =~= backwards@.reverse().take(
            backwards@.len() - k - 1,
        ).push(backwards@[k as int]));
    }
    assert(backwards@.reverse().take(backwards@.len() as int) =~= backwards@.reverse());
    out
}

/// The response body for a decision: whether the request is approved, and its score in fifths.
pub open spec fn score_body(approved: bool, fifths: u32) -> Seq<u8> {
    if approved && fifths == 1 {
        bytes::text("{\"approved\":true,\"fraud_score\":0.2}"@)
    } else if approved && fifths == 2 {
        bytes::text("{\"approved\":true,\"fraud_score\":0.4}"@)
    } else if !approved && fifths == 3 {
        bytes::text("{\"approved\":false,\"fraud_score\":0.6}"@)
    } else if !approved && fifths == 4 {
        bytes::text("{\"approved\":false,\"fraud_score\":0.8}"@)
    } else if !approved && fifths == 5 {
        bytes::text("{\"approved\":false,\"fraud_score\":1.0}"@)
    } else {
        bytes::text("{\"approved\":true,\"fraud_score\":0.0}"@)
    }
}

/// The response to a scored request.
pub open spec fn score_response(approved: bool, fifths: u32, keep_alive: bool) -> Seq<u8> {
    let body = score_body(approved, fifths);
    bytes::text("HTTP/1.1 200 OK\r\nContent-Type: application/json\r\nContent-Length: "@)
        + decimal(body.len()) + bytes::text("\r\nConnection: "@) + (if keep_alive {
        bytes::text("keep-alive"@)
    } else {
        bytes::text("close"@)
    }) + bytes::text("\r\n\r\n"@) + body
}

/// The response body for a decision.
fn body_for(approved: bool, fifths: u32) -> (r: &'static [u8])
    ensures
        r@ == score_body(approved, fifths),
        r@.len() <= 64,
{
    proof {
        reveal_strlit("{\"approved\":true,\"fraud_score\":0.0}");
        reveal_strlit("{\"approved\":true,\"fraud_score\":0.2}");
        reveal_strlit("{\"approved\":true,\"fraud_score\":0.4}");
        reveal_strlit("{\"approved\":false,\"fraud_score\":0.6}");
        reveal_strlit("{\"approved\":false,\"fraud_score\":0.8}");
        reveal_strlit("{\"approved\":false,\"fraud_score\":1.0}");
    }
    match (approved, fifths) {
        (true, 1) => ascii("{\"approved\":true,\"fraud_score\":0.2}"),
        (true, 2) => ascii("{\"approved\":true,\"fraud_score\":0.4}"),
        (false, 3) => ascii("{\"approved\":false,\"fraud_score\":0.6}"),
        (false, 4) => ascii("{\"approved\":false,\"fraud_score\":0.8}"),
        (false, 5) => ascii("{\"approved\":false,\"fraud_score\":1.0}"),
        _ => ascii("{\"approved\":true,\"fraud_score\":0.0}"),
    }
}

/// Appends the response to a scored request. The score is given in fifths: the number of frauds
/// among the five nearest neighbours.
pub fn render_response(out: &mut Vec<u8>, approved: bool, fifths: u32, keep_alive: bool)
    ensures
        final(out)@ == old(out)@ + score_response(approved, fifths, keep_alive),
{
    proof {
        reveal_strlit("HTTP/1.1 200 OK\r\nContent-Type: application/json\r\nContent-Length: ");
        reveal_strlit("\r\nConnection: ");
        reveal_strlit("keep-alive");
        reveal_strlit("close");
        reveal_strlit("\r\n\r\n");
    }
    let body = body_for(approved, fifths);
    let conn = if keep_alive {
        ascii("keep-alive")
    } else {
        ascii("close")
    };
    append(
        out,
        ascii("HTTP/1.1 200 OK\r\nContent-Type: application/json\r\nContent-Length: "),
    );
    append(out, itoa_u32(body.len() as u32).as_slice());
    append(out, ascii("\r\nConnection: "));
    append(out, conn);
    append(out, ascii("\r\n\r\n"));
    append(out, body);
    assert(out@ =~= old(out)@ + score_response(approved, fifths, keep_alive));
}

/// The decimal digits of a number write it down: they are digits, they are read back as the
/// number, and there is no zero before them.
pub proof fn law_decimal_digits_are_read_back(n: nat)
    ensures
        decimal(n).len() > 0,
        forall|i: int| 0 <= i < decimal(n).len() ==> bytes::is_digit(#[trigger] decimal(n)[i]),
        bytes::decimal_value(decimal(n)) == n,
        n > 0 ==> decimal(n)[0] != ZERO,
        n < 10 ==> decimal(n).len() == 1,
    decreases n,
{
    let s = decimal(n);
    if n < 10 {
        assert(s.drop_last() =~= Seq::empty());
        assert(bytes::decimal_value(s.drop_last()) == 0);
    } else {
        law_decimal_digits_are_read_back(n / 10);
        assert(s.drop_last() =~= decimal(n / 10));
        assert forall|i: int| 0 <= i < s.len() implies bytes::is_digit(#[trigger] s[i]) by {
            if i < s.len() - 1 {
                assert(s[i] == decimal(n / 10)[i]);
            }
        }
        assert(s[0] == decimal(n / 10)[0]);
    }
}


/// Two requests have a route of their own, those with exactly this method and this path; every
/// other one is another.
pub proof fn law_only_two_requests_are_known(method: Seq<u8>, path: Seq<u8>)
    ensures
        route_of(method, path) is Ready <==> method == seq![0x47u8, 0x45, 0x54] && path
            == seq![0x2fu8, 0x72, 0x65, 0x61, 0x64, 0x79],
        route_of(method, path) is FraudScore <==> method == seq![0x50u8, 0x4f, 0x53, 0x54] && path
            == seq![
            0x2fu8,
            0x66,
            0x72,
            0x61,
            0x75,
            0x64,
            0x2d,
            0x73,
            0x63,
            0x6f,
            0x72,
            0x65,
        ],
{
    reveal_strlit("GET");
    reveal_strlit("/ready");
    reveal_strlit("POST");
    reveal_strlit("/fraud-score");
    assert(bytes::text("GET"@) =~= seq![0x47u8, 0x45, 0x54]);
    assert(bytes::text("/ready"@) =~= seq![0x2fu8, 0x72, 0x65, 0x61, 0x64, 0x79]);
    assert(bytes::text("POST"@) =~= seq![0x50u8, 0x4f, 0x53, 0x54]);
    assert(bytes::text("/fraud-score"@) =~= seq![
        0x2fu8,
        0x66,
        0x72,
        0x61,
        0x75,
        0x64,
        0x2d,
        0x73,
        0x63,
        0x6f,
        0x72,
        0x65,
    ]);
    assert(seq![0x47u8, 0x45, 0x54].len() == 3 && seq![0x50u8, 0x4f, 0x53, 0x54].len() == 4);
}

/// A head ends with two line ends.
pub proof fn law_heads_end_with_two_line_ends()
    ensures
        head_mark() == seq![0x0du8, 0x0a, 0x0d, 0x0a],
{
    reveal_strlit("\r\n\r\n");
    assert(head_mark() =~= seq![0x0du8, 0x0a, 0x0d, 0x0a]);
}

/// The body of a scored response states the decision and the score, two tenths for each fifth.
/// A decision that does not go with its score is answered as an approval with the score zero.
pub proof fn law_bodies_state_decision_and_score(approved: bool, fifths: u32)
    ensures
        ({
            let goes = fifths <= 5 && approved == (fifths < 3);
            let n: nat = if goes {
                2 * fifths as nat
            } else {
                0
            };
            score_body(approved, fifths) == bytes::text("{\"approved\":"@) + (if goes && !approved {
                bytes::text("false"@)
            } else {
                bytes::text("true"@)
            }) + bytes::text(",\"fraud_score\":"@) + decimal(n / 10) + bytes::text("."@)
                + decimal(n % 10) + bytes::text("}"@)
        }),
{
    reveal_strlit("{\"approved\":true,\"fraud_score\":0.0}");
    reveal_strlit("{\"approved\":true,\"fraud_score\":0.2}");
    reveal_strlit("{\"approved\":true,\"fraud_score\":0.4}");
    reveal_strlit("{\"approved\":false,\"fraud_score\":0.6}");
    reveal_strlit("{\"approved\":false,\"fraud_score\":0.8}");
    reveal_strlit("{\"approved\":false,\"fraud_score\":1.0}");
    reveal_strlit("{\"approved\":");
    reveal_strlit("true");
    reveal_strlit("false");
    reveal_strlit(",\"fraud_score\":");
    reveal_strlit(".");
    reveal_strlit("}");
    let goes = fifths <= 5 && approved == (fifths < 3);
    let n: nat = if goes {
        2 * fifths as nat
    } else {
        0
    };
    assert(n / 10 < 10 && n % 10 < 10);
    assert(decimal(n / 10) =~= seq![(ZERO + n / 10) as u8]);
    assert(decimal(n % 10) =~= seq![(ZERO + n % 10) as u8]);
    assert(score_body(approved, fifths) =~= bytes::text("{\"approved\":"@) + (if goes && !approved {
        bytes::text("false"@)
    } else {
        bytes::text("true"@)
    }) + bytes::text(",\"fraud_score\":"@) + decimal(n / 10) + bytes::text("."@) + decimal(n % 10)
        + bytes::text("}"@));
}

} // verus!
