//! One client connection: what to do with the bytes received so far.
//!
//! The caller owns the socket. It asks `poll` what to do next, reads or writes as told, and hands
//! what it read to `receive`.

use crate::bytes;
use crate::http;
use crate::http::{classify_route, find_double_crlf, read_request_head, Route};
use vstd::prelude::*;

verus! {

/// The room for received bytes that a connection begins with.
pub const READ_BUF: usize = 4096;

/// Room that is not enlarged any more for a request head that does not end.
pub const MAX_HEAD: usize = 65536;

/// A complete request at the front of the received bytes.
#[derive(Clone, Copy, Debug, PartialEq, Eq, Structural)]
pub struct Request {
    pub route: Route,
    pub body_start: usize,
    pub body_end: usize,
    pub keep_alive: bool,
}

/// What to do next.
#[derive(Clone, Copy, Debug, PartialEq, Eq, Structural)]
pub enum Step {
    /// Read more bytes.
    Read,
    /// Answer a request.
    Respond(Request),
    /// Close the connection without an answer.
    Close,
}

/// The bytes received and not yet answered, and the room that is set aside for them.
pub struct Connection {
    data: Vec<u8>,
    room: usize,
}

/// Where a request whose head ends at `head_end` ends itself.
pub open spec fn request_end(data: Seq<u8>, head_end: int) -> int {
    head_end + 4 + http::content_length(data.subrange(0, head_end))
}

/// The request whose head ends at `head_end`.
pub open spec fn request_at(data: Seq<u8>, head_end: int) -> Request {
    let head = data.subrange(0, head_end);
    Request {
        route: http::route_of(
            head.subrange(0, http::method_end(head)),
            head.subrange(http::method_end(head) + 1, http::path_end(head)),
        ),
        body_start: (head_end + 4) as usize,
        body_end: request_end(data, head_end) as usize,
        keep_alive: http::keeps_alive(head),
    }
}

/// The room for a request that ends at `end`: what is there if it suffices, else at least twice
/// as much.
pub open spec fn room_for(end: int, room: int) -> int {
    if end <= room {
        room
    } else if end < 2 * room {
        2 * room
    } else {
        end
    }
}

/// What to do with the bytes received, and the room to set aside.
///
/// Until the blank line has come, more is read; room that is full is doubled, and once it has
/// reached its limit the connection is closed. After that the head is read: one that cannot be
/// read closes the connection, as does a body for which there can be no room. Until the body has
/// come, more is read. Then the request is answered.
pub open spec fn next_step(data: Seq<u8>, room: int) -> (Step, int) {
    match bytes::search(data, http::head_mark(), 0) {
        None => {
            if data.len() < room {
                (Step::Read, room)
            } else if room < MAX_HEAD {
                (Step::Read, 2 * room)
            } else {
                (Step::Close, room)
            }
        },
        Some(head_end) => {
            let end = request_end(data, head_end);
            if !http::is_readable_head(data.subrange(0, head_end)) {
                (Step::Close, room)
            } else if end <= data.len() {
                (Step::Respond(request_at(data, head_end)), room)
            } else if room_for(end, room) <= isize::MAX {
                (Step::Read, room_for(end, room))
            } else {
                (Step::Close, room)
            }
        },
    }
}

impl Connection {
    /// The bytes received and not yet answered.
    pub closed spec fn received(&self) -> Seq<u8> {
        self.data@
    }

    /// The room that is set aside for received bytes.
    pub closed spec fn room(&self) -> int {
        self.room as int
    }

    /// The received bytes fit the room.
    pub open spec fn wf(&self) -> bool {
        READ_BUF <= self.room() <= isize::MAX && self.received().len() <= self.room()
    }

    /// A connection on which nothing has been received.
    pub fn new() -> (c: Self)
        ensures
            c.wf(),
            c.received() == Seq::<u8>::empty(),
            c.room() == READ_BUF,
    {
        Connection { data: Vec::new(), room: READ_BUF }
    }

    /// How many bytes may be received now.
    pub fn vacant(&self) -> (n: usize)
        requires
            self.wf(),
        ensures
            n == self.room() - self.received().len(),
    {
        self.room - self.data.len()
    }

    /// Decides what to do next.
    pub fn poll(&mut self) -> (step: Step)
        requires
            old(self).wf(),
        ensures
            final(self).wf(),
            final(self).received() == old(self).received(),
            (step, final(self).room()) == next_step(old(self).received(), old(self).room()),
            step is Read ==> final(self).received().len() < final(self).room(),
            step matches Step::Respond(r) ==> r.body_start <= r.body_end
                <= final(self).received().len(),
    {
        let data = self.data.as_slice();
        let len: usize = data.len();
        let head_end: usize = match find_double_crlf(data) {
            Some(p) => p,
            None => {
                if len < self.room {
                    return Step::Read;
                }
                if self.room >= MAX_HEAD {
                    return Step::Close;
                }
                self.room = self.room * 2;
                return Step::Read;
            },
        };
        let (method, path, content_length, keep_alive) = match read_request_head(
            &data[0..head_end],
        ) {
            Some(head) => head,
            None => {
                return Step::Close;
            },
        };
        let route = classify_route(method, path);
        let body_start: usize = head_end + 4;
        let body_end: usize = match body_start.checked_add(content_length) {
            Some(end) => end,
            None => {
                return Step::Close;
            },
        };
        if body_end <= len {
            return Step::Respond(Request { route, body_start, body_end, keep_alive });
        }
        if body_end <= self.room {
            return Step::Read;
        }
        let twice: usize = self.room * 2;
        let room: usize = if body_end < twice {
            twice
        } else {
            body_end
        };
        if room > isize::MAX as usize {
            return Step::Close;
        }
        self.room = room;
        Step::Read
    }

    /// Takes in what was read. Reading nothing means that the peer has closed: the result is
    /// whether the connection is still open.
    pub fn receive(&mut self, chunk: &[u8]) -> (open: bool)
        requires
            old(self).wf(),
            old(self).received().len() + chunk@.len() <= old(self).room(),
        ensures
            final(self).wf(),
            final(self).received() == old(self).received() + chunk@,
            final(self).room() == old(self).room(),
            open == (chunk@.len() > 0),
    {
        self.data.extend_from_slice(chunk);
        assert(self.data@ =~= old(self).data@ + chunk@);
        chunk.len() > 0
    }

    /// The body of a request.
    pub fn body(&self, request: &Request) -> (b: &[u8])
        requires
            request.body_start <= request.body_end <= self.received().len(),
        ensures
            b@ == self.received().subrange(request.body_start as int, request.body_end as int),
    {
        &self.data.as_slice()[request.body_start..request.body_end]
    }

    /// Drops a request that has been answered. The result is whether the connection stays open.
    pub fn finish(&mut self, request: &Request) -> (open: bool)
        requires
            old(self).wf(),
            request.body_end <= old(self).received().len(),
        ensures
            final(self).wf(),
            final(self).received() == old(self).received().skip(request.body_end as int),
            final(self).room() == old(self).room(),
            open == request.keep_alive,
    {
        let rest = self.data.split_off(request.body_end);
        self.data = rest;
        assert(self.data@ =~= old(self).data@.skip(request.body_end as int));
        request.keep_alive
    }
}

/// A request that can be answered is the same request however many more bytes have come, and
/// whatever room there is: it does not matter how the bytes arrive in pieces.
pub proof fn law_request_is_settled_by_its_bytes(
    data: Seq<u8>,
    more: Seq<u8>,
    room: int,
    other_room: int,
)
    requires
        next_step(data, room).0 is Respond,
    ensures
        next_step(data + more, other_room).0 == next_step(data, room).0,
{
    bytes::lemma_search_in_prefix(data, more, http::head_mark(), 0);
    let head_end = bytes::search(data, http::head_mark(), 0)->0;
    let i = choose|i: int| bytes::is_first_match(data, http::head_mark(), 0, i);
    assert(bytes::is_first_match(data, http::head_mark(), 0, i));
    assert((data + more).subrange(0, head_end) =~= data.subrange(0, head_end));
}

/// A request as it is answered: its route, its body, and whether the connection stays open.
pub struct Answered {
    pub route: Route,
    pub body: Seq<u8>,
    pub keep_alive: bool,
}

/// A request that can be answered takes up some of the received bytes, and no others.
pub proof fn lemma_request_lies_within(data: Seq<u8>, room: int)
    requires
        data.len() <= usize::MAX,
    ensures
        next_step(data, room).0 matches Step::Respond(r) ==> 4 <= r.body_start <= r.body_end
            <= data.len(),
{
    if let Some(head_end) = bytes::search(data, http::head_mark(), 0) {
        lemma_head_lies_within(data);
        http::lemma_content_length(data.subrange(0, head_end));
    }
}

/// A head and the blank line after it stand within the bytes.
pub proof fn lemma_head_lies_within(data: Seq<u8>)
    ensures
        bytes::search(data, http::head_mark(), 0) matches Some(head_end) ==> {
            &&& bytes::is_first_match(data, http::head_mark(), 0, head_end)
            &&& 0 <= head_end
            &&& head_end + 4 <= data.len()
            &&& head_end + 4 <= request_end(data, head_end)
        },
{
    reveal_strlit("\r\n\r\n");
    if let Some(head_end) = bytes::search(data, http::head_mark(), 0) {
        let i = choose|i: int| bytes::is_first_match(data, http::head_mark(), 0, i);
        assert(bytes::is_first_match(data, http::head_mark(), 0, i));
        http::lemma_content_length(data.subrange(0, head_end));
    }
}

/// The requests that a connection answers when it is polled until it closes: `data` has been
/// received, and each of `reads` is what the next read gives. A read that gives nothing, or none
/// that is left, is the end of the stream.
pub open spec fn answered(data: Seq<u8>, room: int, reads: Seq<Seq<u8>>) -> Seq<Answered>
    decreases reads.len(), data.len(),
    when data.len() <= usize::MAX
{
    proof {
        lemma_request_lies_within(data, room);
    }
    let (step, room) = next_step(data, room);
    match step {
        Step::Close => Seq::empty(),
        Step::Read => {
            if reads.len() == 0 || reads[0].len() == 0 {
                Seq::empty()
            } else {
                answered(data + reads[0], room, reads.drop_first())
            }
        },
        Step::Respond(r) => {
            let first = Answered {
                route: r.route,
                body: data.subrange(r.body_start as int, r.body_end as int),
                keep_alive: r.keep_alive,
            };
            if r.keep_alive {
                seq![first] + answered(data.skip(r.body_end as int), room, reads)
            } else {
                seq![first]
            }
        },
    }
}

/// The request at the front of a stream whose head ends at `head_end`.
pub open spec fn first_request(stream: Seq<u8>, head_end: int) -> Answered {
    let head = stream.subrange(0, head_end);
    Answered {
        route: http::route_of(
            head.subrange(0, http::method_end(head)),
            head.subrange(http::method_end(head) + 1, http::path_end(head)),
        ),
        body: stream.subrange(head_end + 4, request_end(stream, head_end)),
        keep_alive: http::keeps_alive(head),
    }
}

/// The complete requests of a stream, in order, up to and including the first that closes the
/// connection. A head that cannot be read ends them, as does a request that is cut short.
pub open spec fn requests_of(stream: Seq<u8>) -> Seq<Answered>
    decreases stream.len(),
{
    proof {
        lemma_head_lies_within(stream);
    }
    match bytes::search(stream, http::head_mark(), 0) {
        None => Seq::empty(),
        Some(head_end) => {
            let end = request_end(stream, head_end);
            let first = first_request(stream, head_end);
            if !http::is_readable_head(stream.subrange(0, head_end)) || end > stream.len() {
                Seq::empty()
            } else if first.keep_alive {
                seq![first] + requests_of(stream.skip(end))
            } else {
                seq![first]
            }
        },
    }
}

/// Each head of a stream, with the blank line that ends it, fits the room that a connection is
/// willing to give a head. What follows the last request that is answered does not count.
pub open spec fn heads_fit(stream: Seq<u8>) -> bool
    decreases stream.len(),
{
    proof {
        lemma_head_lies_within(stream);
    }
    match bytes::search(stream, http::head_mark(), 0) {
        None => true,
        Some(head_end) => {
            let end = request_end(stream, head_end);
            &&& head_end + 4 <= MAX_HEAD
            &&& http::is_readable_head(stream.subrange(0, head_end)) && end <= stream.len()
                && first_request(stream, head_end).keep_alive ==> heads_fit(stream.skip(end))
        },
    }
}

/// The reads are such as a connection makes: each gives at least one byte, and no more than there
/// is room for.
pub open spec fn are_reads(data: Seq<u8>, room: int, reads: Seq<Seq<u8>>) -> bool
    decreases reads.len(), data.len(),
    when data.len() <= usize::MAX
{
    proof {
        lemma_request_lies_within(data, room);
    }
    let (step, room) = next_step(data, room);
    match step {
        Step::Close => true,
        Step::Read => reads.len() > 0 ==> {
            &&& 0 < reads[0].len()
            &&& data.len() + reads[0].len() <= room
            &&& are_reads(data + reads[0], room, reads.drop_first())
        },
        Step::Respond(r) => r.keep_alive ==> are_reads(
            data.skip(r.body_end as int),
            room,
            reads,
        ),
    }
}

/// The request whose head has been received finds room for its body, unless the stream ends before
/// the body does.
pub open spec fn finds_room(data: Seq<u8>, room: int, reads: Seq<Seq<u8>>) -> bool {
    match bytes::search(data, http::head_mark(), 0) {
        None => true,
        Some(head_end) => {
            let end = request_end(data, head_end);
            http::is_readable_head(data.subrange(0, head_end)) && end <= data.len()
                + reads.flatten().len() ==> room_for(end, room) <= isize::MAX
        },
    }
}

/// Every request of the stream finds room for its body.
pub open spec fn all_find_room(data: Seq<u8>, room: int, reads: Seq<Seq<u8>>) -> bool
    decreases reads.len(), data.len(),
    when data.len() <= usize::MAX
{
    proof {
        lemma_request_lies_within(data, room);
    }
    let (step, next_room) = next_step(data, room);
    &&& finds_room(data, room, reads)
    &&& match step {
        Step::Close => true,
        Step::Read => reads.len() > 0 && reads[0].len() > 0 ==> all_find_room(
            data + reads[0],
            next_room,
            reads.drop_first(),
        ),
        Step::Respond(r) => r.keep_alive ==> all_find_room(
            data.skip(r.body_end as int),
            next_room,
            reads,
        ),
    }
}

/// No complete request of a stream takes up more than half of the bytes that there can be room
/// for.
pub open spec fn requests_are_bounded(stream: Seq<u8>) -> bool
    decreases stream.len(),
{
    proof {
        lemma_head_lies_within(stream);
    }
    match bytes::search(stream, http::head_mark(), 0) {
        None => true,
        Some(head_end) => {
            let end = request_end(stream, head_end);
            http::is_readable_head(stream.subrange(0, head_end)) && end <= stream.len() ==> {
                &&& 2 * end <= isize::MAX
                &&& first_request(stream, head_end).keep_alive ==> requests_are_bounded(
                    stream.skip(end),
                )
            }
        },
    }
}

/// Where no blank line has come, a head that ends later is longer than what has come.
proof fn lemma_head_ends_later(data: Seq<u8>, more: Seq<u8>)
    requires
        bytes::search(data, http::head_mark(), 0) is None,
    ensures
        bytes::search(data + more, http::head_mark(), 0) matches Some(head_end) ==> head_end + 4
            > data.len(),
{
    lemma_head_lies_within(data + more);
    if let Some(head_end) = bytes::search(data + more, http::head_mark(), 0) {
        if head_end + 4 <= data.len() {
            reveal_strlit("\r\n\r\n");
            let mark = http::head_mark();
            assert((data + more).subrange(head_end, head_end + 4) =~= data.subrange(
                head_end,
                head_end + 4,
            ));
            assert forall|j: int| 0 <= j < head_end implies !#[trigger] bytes::matches_at(
                data,
                mark,
                j,
            ) by {
                assert((data + more).subrange(j, j + 4) =~= data.subrange(j, j + 4));
                assert(!bytes::matches_at(data + more, mark, j));
            }
            assert(bytes::is_first_match(data, mark, 0, head_end));
        }
    }
}

/// What has been received is the beginning of the stream, so the head that it begins with, if it
/// has one, is that of the stream.
proof fn lemma_same_head(data: Seq<u8>, more: Seq<u8>)
    ensures
        bytes::search(data, http::head_mark(), 0) matches Some(head_end) ==> {
            &&& bytes::search(data + more, http::head_mark(), 0) == Some(head_end)
            &&& (data + more).subrange(0, head_end) == data.subrange(0, head_end)
            &&& request_end(data + more, head_end) == request_end(data, head_end)
        },
{
    lemma_head_lies_within(data);
    if let Some(head_end) = bytes::search(data, http::head_mark(), 0) {
        bytes::lemma_search_in_prefix(data, more, http::head_mark(), 0);
        assert((data + more).subrange(0, head_end) =~= data.subrange(0, head_end));
    }
}

/// What a connection answers is the requests of the stream that its reads make up.
proof fn lemma_answered(data: Seq<u8>, room: int, reads: Seq<Seq<u8>>)
    requires
        data.len() <= room <= isize::MAX,
        are_reads(data, room, reads),
        all_find_room(data, room, reads),
        heads_fit(data + reads.flatten()),
    ensures
        answered(data, room, reads) == requests_of(data + reads.flatten()),
    decreases reads.len(), data.len(),
{
    let more = reads.flatten();
    let stream = data + more;
    let (step, next_room) = next_step(data, room);
    lemma_request_lies_within(data, room);
    lemma_head_lies_within(data);
    lemma_head_lies_within(stream);
    lemma_same_head(data, more);
    if bytes::search(data, http::head_mark(), 0) is None {
        lemma_head_ends_later(data, more);
    }
    match step {
        Step::Close => {
            assert(requests_of(stream) =~= Seq::empty());
        },
        Step::Read => {
            if reads.len() == 0 {
                assert(stream =~= data);
                assert(requests_of(stream) =~= Seq::empty());
            } else {
                let rest = reads.drop_first();
                assert(data + more =~= (data + reads[0]) + rest.flatten());
                lemma_answered(data + reads[0], next_room, rest);
            }
        },
        Step::Respond(r) => {
            let head_end = bytes::search(data, http::head_mark(), 0)->0;
            let end = request_end(data, head_end);
            assert(data.subrange(head_end + 4, end) =~= stream.subrange(head_end + 4, end));
            if r.keep_alive {
                assert(data.skip(end) + more =~= stream.skip(end));
                lemma_answered(data.skip(end), next_room, reads);
            }
        },
    }
}

/// Bounded requests find room.
proof fn lemma_bounded_requests_find_room(data: Seq<u8>, room: int, reads: Seq<Seq<u8>>)
    requires
        data.len() <= room <= isize::MAX,
        are_reads(data, room, reads),
        requests_are_bounded(data + reads.flatten()),
    ensures
        all_find_room(data, room, reads),
    decreases reads.len(), data.len(),
{
    let more = reads.flatten();
    let stream = data + more;
    let (step, next_room) = next_step(data, room);
    lemma_request_lies_within(data, room);
    lemma_head_lies_within(data);
    lemma_same_head(data, more);
    match step {
        Step::Close => {},
        Step::Read => {
            if reads.len() > 0 {
                let rest = reads.drop_first();
                assert(data + more =~= (data + reads[0]) + rest.flatten());
                lemma_bounded_requests_find_room(data + reads[0], next_room, rest);
            }
        },
        Step::Respond(r) => {
            let end = request_end(data, bytes::search(data, http::head_mark(), 0)->0);
            if r.keep_alive {
                assert(data.skip(end) + more =~= stream.skip(end));
                lemma_bounded_requests_find_room(data.skip(end), next_room, reads);
            }
        },
    }
}

/// Requests of which none takes up more than half of the bytes that there can be room for always
/// find room, however many there are and however the stream is cut into reads.
pub proof fn law_bounded_requests_find_room(reads: Seq<Seq<u8>>)
    requires
        are_reads(Seq::empty(), READ_BUF as int, reads),
        requests_are_bounded(reads.flatten()),
    ensures
        all_find_room(Seq::empty(), READ_BUF as int, reads),
{
    let none = Seq::<u8>::empty();
    assert(none + reads.flatten() =~= reads.flatten());
    lemma_bounded_requests_find_room(none, READ_BUF as int, reads);
}

/// What a connection answers does not depend on how the stream is cut into reads: it is one
/// answer to each complete request of the stream, in order, up to and including the first that
/// closes the connection, and none to a request that is cut short.
pub proof fn law_answers_do_not_depend_on_the_cut(reads: Seq<Seq<u8>>, other: Seq<Seq<u8>>)
    requires
        reads.flatten() == other.flatten(),
        are_reads(Seq::empty(), READ_BUF as int, reads),
        are_reads(Seq::empty(), READ_BUF as int, other),
        all_find_room(Seq::empty(), READ_BUF as int, reads),
        all_find_room(Seq::empty(), READ_BUF as int, other),
        heads_fit(reads.flatten()),
    ensures
        answered(Seq::empty(), READ_BUF as int, reads) == requests_of(reads.flatten()),
        answered(Seq::empty(), READ_BUF as int, other) == answered(
            Seq::empty(),
            READ_BUF as int,
            reads,
        ),
{
    let none = Seq::<u8>::empty();
    assert(none + reads.flatten() =~= reads.flatten());
    lemma_answered(none, READ_BUF as int, reads);
    lemma_answered(none, READ_BUF as int, other);
}


/// A head that does not end is given twice the room whenever its room is full, up to a limit: only
/// what fills the limit without a blank line closes the connection.
pub proof fn law_heads_may_grow_up_to_a_limit(data: Seq<u8>, room: int)
    requires
        READ_BUF <= room,
        forall|i: int|
            0 <= i && i + 4 <= data.len() ==> #[trigger] data.subrange(i, i + 4) != seq![
                0x0du8,
                0x0a,
                0x0d,
                0x0a,
            ],
    ensures
        next_step(data, room).0 is Close <==> data.len() >= room && room >= 65536,
        next_step(data, room).0 is Read <==> data.len() < room || room < 65536,
        data.len() < room ==> next_step(data, room).1 == room,
        data.len() >= room && room < 65536 ==> next_step(data, room).1 == 2 * room,
{
    http::law_heads_end_with_two_line_ends();
    bytes::law_a_search_finds_the_first_occurrence(data, http::head_mark(), 0);
    let mark = http::head_mark();
    if let Some(i) = bytes::search(data, mark, 0) {
        assert(data.subrange(i, i + 4) == mark);
    }
}

/// A request whose head has come is answered as soon as as many bytes have come as its head, the
/// blank line and its body take up, and not before; until then there is room for all of it, at
/// least twice as much as before if there was not.
pub proof fn law_requests_are_answered_when_they_are_complete(
    data: Seq<u8>,
    room: int,
    head_end: int,
)
    requires
        data.len() <= room <= isize::MAX,
        bytes::search(data, http::head_mark(), 0) == Some(head_end),
        http::is_readable_head(data.subrange(0, head_end)),
    ensures
        ({
            let end = head_end + 4 + http::content_length(data.subrange(0, head_end));
            let (step, next) = next_step(data, room);
            &&& step is Respond <==> end <= data.len()
            &&& step matches Step::Respond(r) ==> r.body_start == head_end + 4 && r.body_end == end
            &&& step is Read ==> end <= next && (next == room || (room < end && next >= 2 * room))
                && (next == room || next == end || next == 2 * room)
            &&& step is Close ==> end > isize::MAX || 2 * room > isize::MAX
        }),
{
    lemma_head_lies_within(data);
}

/// A head that cannot be read closes the connection.
pub proof fn law_unreadable_heads_close(data: Seq<u8>, room: int, head_end: int)
    requires
        bytes::search(data, http::head_mark(), 0) == Some(head_end),
        !http::is_readable_head(data.subrange(0, head_end)),
    ensures
        next_step(data, room).0 is Close,
{
}


/// A connection begins with room for 4096 bytes and never has less; a head may take four doublings
/// of it.
pub proof fn law_room_begins_with_a_page(c: &Connection)
    ensures
        READ_BUF == 4096,
        MAX_HEAD == 2 * 2 * 2 * 2 * READ_BUF,
        c.wf() ==> 4096 <= c.room() && c.received().len() <= c.room(),
{
}

} // verus!
