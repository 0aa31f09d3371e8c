//! Decisions and responses.

use crate::bytes;
use crate::bytes::ascii;
use crate::connection;
use crate::heads;
use crate::http;
use crate::http::{render_response, Route};
use vstd::prelude::*;

verus! {

/// A request with this many frauds among its five nearest neighbours is not approved.
pub const FRAUD_LIMIT: u32 = 3;

/// Whether a request is approved, and its score in fifths, given the number of frauds among the
/// five nearest neighbours. A request for which there is no such number, because its payload is
/// malformed, is approved.
pub open spec fn decision(frauds: Option<u32>) -> (bool, u32) {
    match frauds {
        Some(n) => (n < FRAUD_LIMIT, n),
        None => (true, 0),
    }
}

/// Whether a request is approved, and its score in fifths, given the number of frauds among the
/// five nearest neighbours. A request for which there is no such number, because its payload is
/// malformed, is approved.
pub fn score_request(frauds: Option<u32>) -> (r: (bool, u32))
    ensures
        r == decision(frauds),
{
    match frauds {
        Some(n) => (n < FRAUD_LIMIT, n),
        None => (true, 0),
    }
}

/// The response to a request.
pub open spec fn response_to(route: Route, frauds: Option<u32>, keep_alive: bool) -> Seq<u8> {
    match route {
        Route::Ready => bytes::text(
            "HTTP/1.1 200 OK\r\nContent-Length: 2\r\nConnection: keep-alive\r\n\r\nok"@,
        ),
        Route::FraudScore => http::score_response(decision(frauds).0, decision(frauds).1, keep_alive),
        Route::Other => bytes::text(
            "HTTP/1.1 404 Not Found\r\nContent-Length: 0\r\nConnection: close\r\n\r\n"@,
        ),
    }
}

/// The response to a request. The number of frauds counts for a scoring request only.
pub fn respond(route: Route, frauds: Option<u32>, keep_alive: bool) -> (r: Vec<u8>)
    ensures
        r@ == response_to(route, frauds, keep_alive),
{
    let mut out: Vec<u8> = Vec::new();
    proof {
        reveal_strlit("HTTP/1.1 200 OK\r\nContent-Length: 2\r\nConnection: keep-alive\r\n\r\nok");
        reveal_strlit("HTTP/1.1 404 Not Found\r\nContent-Length: 0\r\nConnection: close\r\n\r\n");
    }
    match route {
        Route::Ready => {
            out.extend_from_slice(
                ascii("HTTP/1.1 200 OK\r\nContent-Length: 2\r\nConnection: keep-alive\r\n\r\nok"),
            );
        },
        Route::FraudScore => {
            let (approved, fifths) = score_request(frauds);
            render_response(&mut out, approved, fifths, keep_alive);
        },
        Route::Other => {
            out.extend_from_slice(
                ascii("HTTP/1.1 404 Not Found\r\nContent-Length: 0\r\nConnection: close\r\n\r\n"),
            );
        },
    }
    assert(out@ =~= response_to(route, frauds, keep_alive));
    out
}

/// No request is answered with a server error: a known route is answered with `200 OK`, any other
/// with `404 Not Found`.
pub proof fn law_no_response_is_a_server_error(
    route: Route,
    frauds: Option<u32>,
    keep_alive: bool,
)
    ensures
        bytes::matches_at(
            response_to(route, frauds, keep_alive),
            if route is Other {
                bytes::text("HTTP/1.1 404 Not Found\r\n"@)
            } else {
                bytes::text("HTTP/1.1 200 OK\r\n"@)
            },
            0,
        ),
{
    reveal_strlit("HTTP/1.1 200 OK\r\nContent-Length: 2\r\nConnection: keep-alive\r\n\r\nok");
    reveal_strlit("HTTP/1.1 404 Not Found\r\nContent-Length: 0\r\nConnection: close\r\n\r\n");
    reveal_strlit("HTTP/1.1 200 OK\r\nContent-Type: application/json\r\nContent-Length: ");
    reveal_strlit("HTTP/1.1 404 Not Found\r\n");
    reveal_strlit("HTTP/1.1 200 OK\r\n");
    let r = response_to(route, frauds, keep_alive);
    assert(route is Other ==> r.subrange(0, 24) =~= bytes::text("HTTP/1.1 404 Not Found\r\n"@));
    assert(route !is Other ==> r.subrange(0, 17) =~= bytes::text("HTTP/1.1 200 OK\r\n"@));
}

/// A malformed payload is answered like one without frauds among its neighbours: approved, with
/// the score zero.
pub proof fn law_malformed_payloads_are_approved(keep_alive: bool)
    ensures
        response_to(Route::FraudScore, None, keep_alive) == response_to(
            Route::FraudScore,
            Some(0),
            keep_alive,
        ),
        decision(None) == (true, 0u32),
        http::score_body(true, 0) == bytes::text("{\"approved\":true,\"fraud_score\":0.0}"@),
{
}

/// The body of a scored response says whether the request is approved and ends with the score,
/// a fifth for each fraud among the five nearest neighbours.
pub proof fn law_the_body_states_the_decision(n: u32)
    requires
        n <= 5,
    ensures
        ({
            let body = http::score_body(decision(Some(n)).0, decision(Some(n)).1);
            &&& bytes::matches_at(
                body,
                if n < FRAUD_LIMIT {
                    bytes::text("{\"approved\":true,"@)
                } else {
                    bytes::text("{\"approved\":false,"@)
                },
                0,
            )
            &&& body.subrange(body.len() - 4, body.len() as int) == http::decimal(
                (2 * n / 10) as nat,
            ) + bytes::text("."@) + http::decimal((2 * n % 10) as nat) + bytes::text("}"@)
        }),
{
    reveal_strlit("{\"approved\":true,\"fraud_score\":0.0}");
    reveal_strlit("{\"approved\":true,\"fraud_score\":0.2}");
    reveal_strlit("{\"approved\":true,\"fraud_score\":0.4}");
    reveal_strlit("{\"approved\":false,\"fraud_score\":0.6}");
    reveal_strlit("{\"approved\":false,\"fraud_score\":0.8}");
    reveal_strlit("{\"approved\":false,\"fraud_score\":1.0}");
    reveal_strlit("{\"approved\":true,");
    reveal_strlit("{\"approved\":false,");
    reveal_strlit(".");
    reveal_strlit("}");
    let body = http::score_body(decision(Some(n)).0, decision(Some(n)).1);
    if n < FRAUD_LIMIT {
        assert(body.subrange(0, 17) =~= bytes::text("{\"approved\":true,"@));
    } else {
        assert(body.subrange(0, 18) =~= bytes::text("{\"approved\":false,"@));
    }
    assert(body.subrange(body.len() - 4, body.len() as int) =~= http::decimal((2 * n / 10) as nat)
        + bytes::text("."@) + http::decimal((2 * n % 10) as nat) + bytes::text("}"@));
}

/// A response announces its body: the head that it begins with states the length of what follows
/// the blank line.
pub open spec fn announces_its_body(response: Seq<u8>) -> bool {
    match bytes::search(response, http::head_mark(), 0) {
        Some(p) => http::content_length(response.subrange(0, p)) == response.len() - (p + 4),
        None => false,
    }
}

proof fn lemma_blank_line(r: Seq<u8>, p: int)
    requires
        0 <= p,
        p + 4 <= r.len(),
        r[p] == 13,
        r[p + 1] == 10,
        r[p + 2] == 13,
        r[p + 3] == 10,
        forall|j: int| 0 <= j < p ==> !((#[trigger] r[j]) == 13 && r[j + 2] == 13),
    ensures
        bytes::search(r, http::head_mark(), 0) == Some(p),
{
    reveal_strlit("\r\n\r\n");
    assert(r.subrange(p, p + 4) =~= http::head_mark());
    assert forall|j: int| 0 <= j < p implies !#[trigger] bytes::matches_at(
        r,
        http::head_mark(),
        j,
    ) by {
        if bytes::matches_at(r, http::head_mark(), j) {
            assert(r.subrange(j, j + 4)[0] == r[j]);
            assert(r.subrange(j, j + 4)[2] == r[j + 2]);
        }
    }
    bytes::lemma_search_is(r, http::head_mark(), 0, p);
}

/// The announced length of a head whose lines after the one at `at` begin at `next` with `Conn`.
proof fn lemma_announced(head: Seq<u8>, at: int, next: int, end: int)
    requires
        http::is_length_line(head, at),
        at < next,
        next + 3 < head.len(),
        head[next + 3] == 110,
        forall|i: int| at < i < head.len() && #[trigger] head[i - 1] == bytes::NEWLINE ==> i == next,
        head[at + 15] == bytes::SPACE,
        at + 16 < end < head.len(),
        forall|i: int| at + 16 <= i < end ==> bytes::is_digit(#[trigger] head[i]),
        !bytes::is_digit(head[end]),
    ensures
        http::content_length(head) == bytes::decimal_value(head.subrange(at + 16, end)),
{
    reveal_strlit("content-length:");
    let key = bytes::text("content-length:"@);
    assert forall|j: int| at < j implies !#[trigger] http::is_length_line(head, j) by {
        if http::is_length_line(head, j) {
            assert(j == next);
            assert(http::lower(head[next + 3]) == key[3]);
        }
    }
    assert(http::is_last_length_line(head, at));
    let k = choose|k: int| http::is_last_length_line(head, k);
    assert(http::is_last_length_line(head, k));
    assert(k == at);
    assert(bytes::is_digit(head[at + 16]));
    bytes::lemma_skip_while_is(head, at + 15, bytes::is_blank(), at + 16);
    bytes::lemma_skip_while_is(head, at + 16, bytes::digit(), end);
}

proof fn lemma_ready_announces()
    ensures
        announces_its_body(response_to(Route::Ready, None, true)),
{
    reveal_strlit("HTTP/1.1 200 OK\r\nContent-Length: 2\r\nConnection: keep-alive\r\n\r\nok");
    reveal_strlit("content-length:");
    let r = response_to(Route::Ready, None, true);
    assert(r.len() == 64);
    lemma_blank_line(r, 58);
    let head = r.subrange(0, 58);
    bytes::lemma_skip_while_is(head, 0, bytes::other_than(bytes::SPACE), 8);
    bytes::lemma_skip_while_is(head, 9, bytes::other_than(bytes::SPACE), 12);
    assert(http::is_length_line(head, 17));
    lemma_announced(head, 17, 36, 34);
    reveal_with_fuel(bytes::decimal_value, 2);
}

proof fn lemma_not_found_announces()
    ensures
        announces_its_body(response_to(Route::Other, None, true)),
{
    reveal_strlit("HTTP/1.1 404 Not Found\r\nContent-Length: 0\r\nConnection: close\r\n\r\n");
    reveal_strlit("content-length:");
    let r = response_to(Route::Other, None, true);
    assert(r.len() == 64);
    lemma_blank_line(r, 60);
    let head = r.subrange(0, 60);
    bytes::lemma_skip_while_is(head, 0, bytes::other_than(bytes::SPACE), 8);
    bytes::lemma_skip_while_is(head, 9, bytes::other_than(bytes::SPACE), 12);
    assert(http::is_length_line(head, 24));
    lemma_announced(head, 24, 43, 41);
    reveal_with_fuel(bytes::decimal_value, 2);
}

/// A scored response, whatever its body of 35 or 36 bytes.
proof fn lemma_score_announces(approved: bool, fifths: u32, keep_alive: bool)
    ensures
        announces_its_body(http::score_response(approved, fifths, keep_alive)),
{
    let r = http::score_response(approved, fifths, keep_alive);
    let body = http::score_body(approved, fifths);
    assert(35 <= body.len() <= 36) by {
        reveal_strlit("{\"approved\":true,\"fraud_score\":0.0}");
        reveal_strlit("{\"approved\":true,\"fraud_score\":0.2}");
        reveal_strlit("{\"approved\":true,\"fraud_score\":0.4}");
        reveal_strlit("{\"approved\":false,\"fraud_score\":0.6}");
        reveal_strlit("{\"approved\":false,\"fraud_score\":0.8}");
        reveal_strlit("{\"approved\":false,\"fraud_score\":1.0}");
    }
    reveal_strlit("HTTP/1.1 200 OK\r\nContent-Type: application/json\r\nContent-Length: ");
    reveal_strlit("\r\nConnection: ");
    reveal_strlit("keep-alive");
    reveal_strlit("close");
    reveal_strlit("\r\n\r\n");
    reveal_strlit("content-length:");
    let digits = http::decimal(body.len());
    reveal_with_fuel(http::decimal, 2);
    assert(digits.len() == 2);
    let p: int = if keep_alive {
        91
    } else {
        86
    };
    assert(r.len() == p + 4 + body.len());
    lemma_blank_line(r, p);
    let head = r.subrange(0, p);
    bytes::lemma_skip_while_is(head, 0, bytes::other_than(bytes::SPACE), 8);
    bytes::lemma_skip_while_is(head, 9, bytes::other_than(bytes::SPACE), 12);
    assert(http::is_length_line(head, 49));
    lemma_announced(head, 49, 69, 67);
    assert(head.subrange(65, 67) =~= digits);
    reveal_with_fuel(bytes::decimal_value, 3);
}

/// Every response announces its body.
pub proof fn law_responses_announce_their_bodies(
    route: Route,
    frauds: Option<u32>,
    keep_alive: bool,
)
    ensures
        announces_its_body(response_to(route, frauds, keep_alive)),
{
    match route {
        Route::Ready => lemma_ready_announces(),
        Route::FraudScore => lemma_score_announces(
            decision(frauds).0,
            decision(frauds).1,
            keep_alive,
        ),
        Route::Other => lemma_not_found_announces(),
    }
}

/// What is written in answer to requests, one response after the other. `frauds` gives the number
/// of frauds among the nearest neighbours of a body, if the body is well formed.
pub open spec fn written(
    requests: Seq<connection::Answered>,
    frauds: spec_fn(Seq<u8>) -> Option<u32>,
) -> Seq<u8> {
    requests.map_values(
        |r: connection::Answered| response_to(r.route, frauds(r.body), r.keep_alive),
    ).flatten()
}

/// Two connections that deliver the same stream are sent the same bytes, however the stream is cut
/// into reads: the responses to its complete requests, in order, up to and including the first that
/// closes the connection.
pub proof fn law_what_is_written_does_not_depend_on_the_cut(
    reads: Seq<Seq<u8>>,
    other: Seq<Seq<u8>>,
    frauds: spec_fn(Seq<u8>) -> Option<u32>,
)
    requires
        reads.flatten() == other.flatten(),
        connection::are_reads(Seq::empty(), connection::READ_BUF as int, reads),
        connection::are_reads(Seq::empty(), connection::READ_BUF as int, other),
        connection::all_find_room(Seq::empty(), connection::READ_BUF as int, reads),
        connection::all_find_room(Seq::empty(), connection::READ_BUF as int, other),
        connection::heads_fit(reads.flatten()),
    ensures
        written(
            connection::answered(Seq::empty(), connection::READ_BUF as int, reads),
            frauds,
        ) == written(connection::requests_of(reads.flatten()), frauds),
        written(
            connection::answered(Seq::empty(), connection::READ_BUF as int, other),
            frauds,
        ) == written(
            connection::answered(Seq::empty(), connection::READ_BUF as int, reads),
            frauds,
        ),
{
    connection::law_answers_do_not_depend_on_the_cut(reads, other);
}

/// The same for requests of which none takes up more than half of the bytes that there can be room
/// for, however many there are on the connection.
pub proof fn law_bounded_requests_are_answered_alike(
    reads: Seq<Seq<u8>>,
    other: Seq<Seq<u8>>,
    frauds: spec_fn(Seq<u8>) -> Option<u32>,
)
    requires
        reads.flatten() == other.flatten(),
        connection::are_reads(Seq::empty(), connection::READ_BUF as int, reads),
        connection::are_reads(Seq::empty(), connection::READ_BUF as int, other),
        connection::requests_are_bounded(reads.flatten()),
        connection::heads_fit(reads.flatten()),
    ensures
        written(
            connection::answered(Seq::empty(), connection::READ_BUF as int, reads),
            frauds,
        ) == written(connection::requests_of(reads.flatten()), frauds),
        written(
            connection::answered(Seq::empty(), connection::READ_BUF as int, other),
            frauds,
        ) == written(connection::requests_of(reads.flatten()), frauds),
{
    connection::law_bounded_requests_find_room(reads);
    connection::law_bounded_requests_find_room(other);
    law_what_is_written_does_not_depend_on_the_cut(reads, other, frauds);
}


/// A request is approved exactly when fewer than three of its five nearest neighbours are frauds,
/// and its score is their number; without a number it is approved with the score zero.
pub proof fn law_fewer_than_three_frauds_are_approved(n: u32)
    ensures
        decision(Some(n)).0 <==> n < 3,
        decision(Some(n)).1 == n,
        decision(None).0,
        decision(None).1 == 0,
{
}

/// A scored response is a line that says so, three header lines and the body that states the
/// decision: the type of the body, its length in decimal digits, and whether the connection stays
/// open, each whatever the decision is.
#[verifier::rlimit(30)]
pub proof fn law_scored_responses_are_lines_and_a_body(
    approved: bool,
    fifths: u32,
    keep_alive: bool,
)
    ensures
        ({
            let body = http::score_body(approved, fifths);
            let lines = seq![
                bytes::text("Content-Type: application/json"@),
                bytes::text("Content-Length: "@) + http::decimal(body.len()),
                bytes::text("Connection: "@) + (if keep_alive {
                    bytes::text("keep-alive"@)
                } else {
                    bytes::text("close"@)
                }),
            ];
            http::score_response(approved, fifths, keep_alive) == heads::head_text(
                bytes::text("HTTP/1.1 200 OK"@),
                lines,
            ) + seq![0x0du8, 0x0a, 0x0d, 0x0a] + body
        }),
{
    reveal_strlit("Content-Type: application/json");
    reveal_strlit("Content-Length: ");
    reveal_strlit("Connection: ");
    reveal_strlit("HTTP/1.1 200 OK");
    reveal_strlit("HTTP/1.1 200 OK\r\nContent-Type: application/json\r\nContent-Length: ");
    reveal_strlit("\r\nConnection: ");
    reveal_strlit("\r\n\r\n");
    let body = http::score_body(approved, fifths);
    let first = bytes::text("HTTP/1.1 200 OK"@);
    let digits = http::decimal(body.len());
    let word = if keep_alive {
        bytes::text("keep-alive"@)
    } else {
        bytes::text("close"@)
    };
    let crlf = seq![0x0du8, 0x0au8];
    let a = bytes::text("Content-Type: application/json"@);
    let b = bytes::text("Content-Length: "@) + digits;
    let c = bytes::text("Connection: "@) + word;
    let lines = seq![a, b, c];
    reveal_with_fuel(heads::head_text, 4);
    assert(lines.drop_last() =~= seq![a, b]);
    assert(seq![a, b].drop_last() =~= seq![a]);
    assert(seq![a].drop_last() =~= Seq::<Seq<u8>>::empty());
    assert(heads::head_text(first, lines) =~= first + crlf + a + crlf + b + crlf + c);
    assert(http::score_response(approved, fifths, keep_alive) =~= first + crlf + a + crlf + b + crlf + c
        + seq![0x0du8, 0x0a, 0x0d, 0x0a] + body);
}

/// A scoring request is answered with the response to its decision.
pub proof fn law_scoring_requests_are_answered_with_their_decision(
    frauds: Option<u32>,
    keep_alive: bool,
)
    ensures
        response_to(Route::FraudScore, frauds, keep_alive) == http::score_response(
            decision(frauds).0,
            decision(frauds).1,
            keep_alive,
        ),
{
}

/// The other two responses are the same for every request.
pub proof fn law_other_responses_are_fixed(frauds: Option<u32>, keep_alive: bool)
    ensures
        response_to(Route::Ready, frauds, keep_alive) == heads::head_text(
            bytes::text("HTTP/1.1 200 OK"@),
            seq![bytes::text("Content-Length: 2"@), bytes::text("Connection: keep-alive"@)],
        ) + seq![0x0du8, 0x0a, 0x0d, 0x0a] + bytes::text("ok"@),
        response_to(Route::Other, frauds, keep_alive) == heads::head_text(
            bytes::text("HTTP/1.1 404 Not Found"@),
            seq![bytes::text("Content-Length: 0"@), bytes::text("Connection: close"@)],
        ) + seq![0x0du8, 0x0a, 0x0d, 0x0a],
{
    reveal_strlit("HTTP/1.1 200 OK");
    reveal_strlit("HTTP/1.1 404 Not Found");
    reveal_strlit("Content-Length: 2");
    reveal_strlit("Content-Length: 0");
    reveal_strlit("Connection: keep-alive");
    reveal_strlit("Connection: close");
    reveal_strlit("ok");
    reveal_strlit("HTTP/1.1 200 OK\r\nContent-Length: 2\r\nConnection: keep-alive\r\n\r\nok");
    reveal_strlit("HTTP/1.1 404 Not Found\r\nContent-Length: 0\r\nConnection: close\r\n\r\n");
    let a = bytes::text("Content-Length: 2"@);
    let b = bytes::text("Connection: keep-alive"@);
    let c = bytes::text("Content-Length: 0"@);
    let d = bytes::text("Connection: close"@);
    let crlf = seq![0x0du8, 0x0au8];
    reveal_with_fuel(heads::head_text, 3);
    assert(seq![a, b].drop_last() =~= seq![a]);
    assert(seq![a].drop_last() =~= Seq::<Seq<u8>>::empty());
    assert(seq![c, d].drop_last() =~= seq![c]);
    assert(seq![c].drop_last() =~= Seq::<Seq<u8>>::empty());
    let ok = bytes::text("HTTP/1.1 200 OK"@);
    let no = bytes::text("HTTP/1.1 404 Not Found"@);
    assert(heads::head_text(ok, seq![a, b]) =~= ok + crlf + a + crlf + b);
    assert(heads::head_text(no, seq![c, d]) =~= no + crlf + c + crlf + d);
    assert(response_to(Route::Ready, frauds, keep_alive) =~= ok + crlf + a + crlf + b + seq![
        0x0du8,
        0x0a,
        0x0d,
        0x0a,
    ] + bytes::text("ok"@));
    assert(response_to(Route::Other, frauds, keep_alive) =~= no + crlf + c + crlf + d + seq![
        0x0du8,
        0x0a,
        0x0d,
        0x0a,
    ]);
}

} // verus!
