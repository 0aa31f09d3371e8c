use rinha_vini::connection::{Connection, Request, Step, MAX_HEAD, READ_BUF};
use rinha_vini::http::Route;
use rinha_vini::service::respond;

const SCORE: &[u8] =
    b"POST /fraud-score HTTP/1.1\r\nHost: a\r\nContent-Length: 5\r\n\r\nhello";

fn requested(step: Step) -> Request {
    match step {
        Step::Respond(r) => r,
        other => panic!("no request: {:?}", other),
    }
}

#[test]
fn a_new_connection_reads() {
    let mut c = Connection::new();
    assert_eq!(c.vacant(), READ_BUF);
    assert_eq!(c.poll(), Step::Read);
    assert!(!c.receive(b""));
}

#[test]
fn a_whole_request_is_answered() {
    let mut c = Connection::new();
    assert!(c.receive(SCORE));
    let r = requested(c.poll());
    assert_eq!(r.route, Route::FraudScore);
    assert!(r.keep_alive);
    assert_eq!(c.body(&r), b"hello");
    assert!(c.finish(&r));
    assert_eq!(c.vacant(), READ_BUF);
    assert_eq!(c.poll(), Step::Read);
}

#[test]
fn a_request_may_come_in_pieces() {
    let mut whole = Connection::new();
    whole.receive(SCORE);
    let expected = whole.poll();
    for cut in 1..SCORE.len() {
        let mut c = Connection::new();
        c.receive(&SCORE[..cut]);
        assert_eq!(c.poll(), Step::Read);
        c.receive(&SCORE[cut..]);
        assert_eq!(c.poll(), expected);
    }
}

#[test]
fn requests_may_follow_each_other() {
    let mut c = Connection::new();
    c.receive(b"GET /ready HTTP/1.1\r\n\r\nGET /x HTTP/1.1\r\nConnection: close\r\n\r\nGE");
    let r = requested(c.poll());
    assert_eq!(r.route, Route::Ready);
    assert_eq!(c.body(&r), b"");
    assert!(c.finish(&r));
    let r = requested(c.poll());
    assert_eq!(r.route, Route::Other);
    assert!(!r.keep_alive);
    assert!(!c.finish(&r));
    assert_eq!(c.vacant(), READ_BUF - 2);
}

#[test]
fn a_head_without_end_is_given_room_and_then_up() {
    let mut c = Connection::new();
    let mut room = READ_BUF;
    loop {
        let chunk = vec![b'a'; c.vacant()];
        assert!(c.receive(&chunk));
        assert_eq!(c.vacant(), 0);
        if room >= MAX_HEAD {
            break;
        }
        assert_eq!(c.poll(), Step::Read);
        assert_eq!(c.vacant(), room);
        room *= 2;
    }
    assert_eq!(room, 65536);
    assert_eq!(c.poll(), Step::Close);
}

#[test]
fn a_body_is_given_room() {
    let mut c = Connection::new();
    let head = b"POST /fraud-score HTTP/1.1\r\nContent-Length: 5000\r\n\r\n";
    c.receive(head);
    assert_eq!(c.poll(), Step::Read);
    assert_eq!(c.vacant(), 2 * READ_BUF - head.len());

    let mut c = Connection::new();
    let head = b"POST /fraud-score HTTP/1.1\r\nContent-Length: 100000\r\n\r\n";
    c.receive(head);
    assert_eq!(c.poll(), Step::Read);
    assert_eq!(c.vacant(), 100000);
    c.receive(&vec![b'x'; 100000]);
    let r = requested(c.poll());
    assert_eq!(c.body(&r).len(), 100000);
}

#[test]
fn an_unreadable_head_closes() {
    let mut c = Connection::new();
    c.receive(b"nonsense\r\n\r\n");
    assert_eq!(c.poll(), Step::Close);
    let mut c = Connection::new();
    c.receive(b"GET / X\r\nContent-Length: 99999999999999999999\r\n\r\n");
    assert_eq!(c.poll(), Step::Close);
    let mut c = Connection::new();
    c.receive(b"GET / X\r\nContent-Length: 99999999999999999999\r\nA: b\r\n\r\n");
    assert_eq!(c.poll(), Step::Close);
    let mut c = Connection::new();
    c.receive(b"GET / X\r\nContent-Length: 18446744073709551615\r\n\r\n");
    assert_eq!(c.poll(), Step::Close);
}

/// Serves a stream that comes in the given reads; the number of frauds is the length of the body.
fn served(reads: &[&[u8]]) -> Vec<u8> {
    let mut c = Connection::new();
    let mut out = Vec::new();
    let mut next = 0;
    loop {
        match c.poll() {
            Step::Close => return out,
            Step::Read => {
                if next == reads.len() || !c.receive(reads[next]) {
                    return out;
                }
                next += 1;
            }
            Step::Respond(r) => {
                let frauds = Some(c.body(&r).len() as u32);
                out.extend(respond(r.route, frauds, r.keep_alive));
                if !c.finish(&r) {
                    return out;
                }
            }
        }
    }
}

#[test]
fn what_is_written_does_not_depend_on_the_cut() {
    let mut stream = b"GET /ready HTTP/1.1\r\n\r\n".to_vec();
    stream.extend_from_slice(SCORE);
    stream.extend_from_slice(b"GET /nowhere HTTP/1.1\r\n\r\n");
    stream.extend_from_slice(b"POST /fraud-score X\r\nContent-Length: 1\r\n\r\nz");
    let open = stream.len();
    stream.extend_from_slice(b"POST /fraud-score X\r\nConnection: close\r\n\r\n");
    let closed = stream.len();
    stream.extend_from_slice(b"GET /ready HTTP/1.1\r\n\r\n");

    let mut expected = respond(Route::Ready, None, true);
    expected.extend(respond(Route::FraudScore, Some(5), true));
    expected.extend(respond(Route::Other, None, true));
    expected.extend(respond(Route::FraudScore, Some(1), true));
    assert_eq!(served(&[&stream[..open]]), expected);
    // A request that is cut short is not answered.
    assert_eq!(served(&[&stream[..open + 30]]), expected);
    expected.extend(respond(Route::FraudScore, Some(0), false));
    assert_eq!(served(&[&stream[..closed]]), expected);
    // Nothing is answered after the request that closes.
    assert_eq!(served(&[&stream]), expected);
    for size in 1..stream.len() {
        let reads: Vec<&[u8]> = stream.chunks(size).collect();
        assert_eq!(served(&reads), expected);
    }
    for cut in 1..stream.len() {
        assert_eq!(served(&[&stream[..cut], &stream[cut..]]), expected);
    }
}

/// Serves a stream in reads of at most `size` bytes, and of no more than there is room for.
fn served_in_pieces(stream: &[u8], size: usize) -> Vec<u8> {
    let mut c = Connection::new();
    let mut out = Vec::new();
    let mut at = 0;
    loop {
        match c.poll() {
            Step::Close => return out,
            Step::Read => {
                let n = size.min(c.vacant()).min(stream.len() - at);
                if !c.receive(&stream[at..at + n]) {
                    return out;
                }
                at += n;
            }
            Step::Respond(r) => {
                let frauds = Some(c.body(&r).len() as u32 % 6);
                out.extend(respond(r.route, frauds, r.keep_alive));
                if !c.finish(&r) {
                    return out;
                }
            }
        }
    }
}

#[test]
fn many_requests_are_answered_alike() {
    let mut stream = Vec::new();
    let mut expected = Vec::new();
    for k in 0..300usize {
        let length = 37 * k;
        stream.extend_from_slice(
            format!("POST /fraud-score X\r\nContent-Length: {}\r\n\r\n", length).as_bytes(),
        );
        stream.extend(vec![b'x'; length]);
        expected.extend(respond(Route::FraudScore, Some(length as u32 % 6), true));
    }
    for size in [7, 100, 4096, 5000, 1 << 20] {
        assert_eq!(served_in_pieces(&stream, size), expected);
    }
}
