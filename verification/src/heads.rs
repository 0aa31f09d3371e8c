//! Request heads as they are written, and that they are read back.

use crate::bytes;
use crate::http;
use vstd::prelude::*;

verus! {

/// A request head as it is written: the request line, and the header lines, each on a line of its
/// own.
pub open spec fn head_text(first: Seq<u8>, lines: Seq<Seq<u8>>) -> Seq<u8>
    decreases lines.len(),
{
    if lines.len() == 0 {
        first
    } else {
        head_text(first, lines.drop_last()) + seq![0x0du8, 0x0au8] + lines.last()
    }
}

/// A request line as it is written.
pub open spec fn request_line(method: Seq<u8>, path: Seq<u8>, version: Seq<u8>) -> Seq<u8> {
    method + seq![0x20u8] + path + seq![0x20u8] + version
}

/// The lines of a head that can be written: no line feed stands in any, and no space in the method
/// and the path.
pub open spec fn can_be_written(
    method: Seq<u8>,
    path: Seq<u8>,
    version: Seq<u8>,
    lines: Seq<Seq<u8>>,
) -> bool {
    &&& forall|i: int| 0 <= i < method.len() ==> #[trigger] method[i] != 0x20 && method[i] != 0x0a
    &&& forall|i: int| 0 <= i < path.len() ==> #[trigger] path[i] != 0x20 && path[i] != 0x0a
    &&& forall|i: int| 0 <= i < version.len() ==> #[trigger] version[i] != 0x0a
    &&& forall|k: int, i: int|
        0 <= k < lines.len() && 0 <= i < lines[k].len() ==> #[trigger] lines[k][i] != 0x0a
}

/// From `at` on, `line` has the letters of `name`, in whatever case.
pub open spec fn has_letters(line: Seq<u8>, at: int, name: Seq<u8>) -> bool {
    &&& 0 <= at
    &&& at + name.len() <= line.len()
    &&& forall|k: int|
        0 <= k < name.len() ==> {
            ||| line[at + k] == #[trigger] name[k]
            ||| 0x41 <= line[at + k] <= 0x5a && line[at + k] + 32 == name[k]
        }
}

/// A header line that announces a length: its name, blanks, digits, and whatever follows them.
pub open spec fn announces(line: Seq<u8>, blanks: Seq<u8>, digits: Seq<u8>, rest: Seq<u8>) -> bool {
    &&& has_letters(line, 0, bytes::text("content-length:"@))
    &&& line.skip(15) == blanks + digits + rest
    &&& forall|i: int| 0 <= i < blanks.len() ==> #[trigger] blanks[i] == 0x20 || blanks[i] == 0x09
    &&& forall|i: int| 0 <= i < digits.len() ==> 0x30 <= #[trigger] digits[i] <= 0x39
    &&& rest.len() > 0 ==> !(0x30 <= rest[0] <= 0x39)
    &&& rest.len() > 0 && digits.len() == 0 ==> rest[0] != 0x20 && rest[0] != 0x09
}

/// A header line that closes the connection: its name, blanks, and a value that begins with
/// `close`.
pub open spec fn closes(line: Seq<u8>) -> bool {
    has_letters(line, 0, bytes::text("connection:"@)) && exists|at: int|
        {
            &&& 11 <= at
            &&& #[trigger] has_letters(line, at, bytes::text("close"@))
            &&& forall|i: int| 11 <= i < at ==> #[trigger] line[i] == 0x20 || line[i] == 0x09
        }
}

/// Where header line `k` begins.
spec fn line_place(first: Seq<u8>, lines: Seq<Seq<u8>>, k: int) -> int {
    head_text(first, lines.take(k)).len() as int + 2
}

/// Header line `k` stands at its place, past a line feed, and ends with a carriage return or the
/// head.
spec fn line_stands(first: Seq<u8>, lines: Seq<Seq<u8>>, k: int) -> bool {
    let head = head_text(first, lines);
    let at = line_place(first, lines, k);
    let end = at + lines[k].len();
    &&& first.len() + 2 <= at <= end <= head.len()
    &&& head[at - 1] == 0x0a
    &&& forall|i: int| at <= i < end ==> #[trigger] head[i] == lines[k][i - at]
    &&& end < head.len() ==> head[end] == 0x0d
    &&& k + 1 < lines.len() ==> line_place(first, lines, k + 1) == end + 2
}

proof fn lemma_line_stands(first: Seq<u8>, lines: Seq<Seq<u8>>, k: int)
    requires
        0 <= k < lines.len(),
    ensures
        line_stands(first, lines, k),
        forall|i: int|
            0 <= i < first.len() ==> #[trigger] head_text(first, lines)[i] == first[i],
        first.len() <= head_text(first, lines).len(),
    decreases lines.len(),
{
    let front = lines.drop_last();
    let before = head_text(first, front);
    let head = head_text(first, lines);
    assert(head =~= before + seq![0x0du8, 0x0au8] + lines.last());
    assert(lines.take(lines.len() - 1) =~= front);
    if k < front.len() {
        lemma_line_stands(first, front, k);
        assert(front.take(k) =~= lines.take(k));
        assert(front[k] == lines[k]);
        let at = line_place(first, lines, k);
        let end = at + lines[k].len();
        assert forall|i: int| 0 <= i < before.len() implies head[i] == #[trigger] before[i] by {}
        assert(head[at - 1] == before[at - 1]);
        assert forall|i: int| at <= i < end implies #[trigger] head[i] == lines[k][i - at] by {
            assert(before[i] == lines[k][i - at]);
        }
        if k + 1 < front.len() {
            assert(front.take(k + 1) =~= lines.take(k + 1));
            assert(end < before.len()) by {
                lemma_line_stands(first, front, k + 1);
            }
            assert(head[end] == before[end]);
        } else {
            assert(front.take(k + 1) =~= front);
            assert(lines.take(k + 1) =~= front);
            assert(front.take(k) =~= front.drop_last());
            assert(before.len() == end);
        }
    } else if front.len() > 0 {
        lemma_line_stands(first, front, 0);
    }
}

/// Every line feed of a head ends the request line or a header line.
proof fn lemma_line_feeds(first: Seq<u8>, lines: Seq<Seq<u8>>, i: int) -> (k: int)
    requires
        forall|i: int| 0 <= i < first.len() ==> #[trigger] first[i] != 0x0a,
        forall|k: int, i: int|
            0 <= k < lines.len() && 0 <= i < lines[k].len() ==> #[trigger] lines[k][i] != 0x0a,
        1 <= i <= head_text(first, lines).len(),
        head_text(first, lines)[i - 1] == 0x0a,
    ensures
        0 <= k < lines.len(),
        i == line_place(first, lines, k),
    decreases lines.len(),
{
    let head = head_text(first, lines);
    if lines.len() == 0 {
        assert(first[i - 1] != 0x0a);
        0
    } else {
        let front = lines.drop_last();
        let before = head_text(first, front);
        let n = lines.len() - 1;
        assert(head =~= before + seq![0x0du8, 0x0au8] + lines.last());
        assert(lines.take(n) =~= front);
        if i <= before.len() {
            assert(before[i - 1] == 0x0a);
            assert forall|k: int, i: int|
                0 <= k < front.len() && 0 <= i < front[k].len() implies #[trigger] front[k][i]
                != 0x0a by {
                assert(front[k][i] == lines[k][i]);
            }
            let k = lemma_line_feeds(first, front, i);
            assert(front.take(k) =~= lines.take(k));
            k
        } else {
            if i > before.len() + 2 {
                assert(head[i - 1] == lines[n][i - 1 - before.len() - 2]);
            }
            n
        }
    }
}

/// The lines come one after the other.
proof fn lemma_places_ascend(first: Seq<u8>, lines: Seq<Seq<u8>>, j: int, k: int)
    requires
        0 <= j <= k < lines.len(),
    ensures
        line_place(first, lines, j) <= line_place(first, lines, k),
        j < k ==> line_place(first, lines, j) < line_place(first, lines, k),
    decreases k - j,
{
    if j < k {
        lemma_places_ascend(first, lines, j, k - 1);
        lemma_line_stands(first, lines, k - 1);
    }
}

/// A name of a header, in lower case.
spec fn is_header_name(name: Seq<u8>) -> bool {
    &&& name.len() > 0
    &&& forall|c: int|
        0 <= c < name.len() ==> #[trigger] name[c] != 0x0d && !(0x41 <= name[c] <= 0x5a)
}

/// A name without a carriage return stands in a header line of a head exactly when it stands in
/// the line.
proof fn lemma_letters(first: Seq<u8>, lines: Seq<Seq<u8>>, k: int, at: int, name: Seq<u8>)
    requires
        0 <= k < lines.len(),
        0 <= at <= lines[k].len(),
        is_header_name(name),
    ensures
        http::header_at(
            head_text(first, lines),
            line_place(first, lines, k) + at,
            name,
        ) == has_letters(lines[k], at, name),
{
    lemma_line_stands(first, lines, k);
    let head = head_text(first, lines);
    let line = lines[k];
    let from = line_place(first, lines, k);
    let end = from + line.len();
    if http::header_at(head, from + at, name) {
        if at + name.len() > line.len() {
            let c = line.len() - at;
            assert(head[from + at + c] == 0x0d);
            assert(http::lower(head[from + at + c]) == name[c]);
            assert(name[c] != 0x0d);
        }
        assert forall|c: int| 0 <= c < name.len() implies {
            ||| line[at + c] == #[trigger] name[c]
            ||| 0x41 <= line[at + c] <= 0x5a && line[at + c] + 32 == name[c]
        } by {
            assert(head[from + at + c] == line[at + c]);
            assert(http::lower(head[from + at + c]) == name[c]);
        }
    }
    if has_letters(line, at, name) {
        assert forall|c: int| 0 <= c < name.len() implies http::lower(head[from + at + c])
            == #[trigger] name[c] by {
            assert(head[from + at + c] == line[at + c]);
            assert(!(0x41 <= name[c] <= 0x5a));
        }
    }
}

/// The request line of a written head is read back: its method and its path, and where they end.
proof fn lemma_first_line(
    method: Seq<u8>,
    path: Seq<u8>,
    version: Seq<u8>,
    lines: Seq<Seq<u8>>,
)
    requires
        can_be_written(method, path, version, lines),
    ensures
        ({
            let first = request_line(method, path, version);
            let head = head_text(first, lines);
            &&& http::method_end(head) == method.len()
            &&& http::path_end(head) == method.len() + 1 + path.len()
            &&& method.len() + path.len() + 2 <= first.len() <= head.len()
            &&& head.subrange(0, method.len() as int) == method
            &&& head.subrange(method.len() as int + 1, method.len() as int + 1 + path.len()) == path
            &&& forall|i: int| 0 <= i < first.len() ==> #[trigger] first[i] != 0x0a
        }),
{
    let first = request_line(method, path, version);
    let head = head_text(first, lines);
    let a = method.len() as int;
    let b = a + 1 + path.len();
    if lines.len() > 0 {
        lemma_line_stands(first, lines, 0);
    }
    assert forall|i: int| 0 <= i < first.len() implies head[i] == #[trigger] first[i] by {}
    assert forall|i: int| 0 <= i < a implies #[trigger] head[i] == method[i] by {
        assert(head[i] == first[i]);
    }
    assert forall|i: int| a < i < b implies #[trigger] head[i] == path[i - a - 1] by {
        assert(head[i] == first[i]);
    }
    assert(head[a] == first[a] && head[b] == first[b]);
    bytes::lemma_skip_while_is(head, 0, bytes::other_than(bytes::SPACE), a);
    bytes::lemma_skip_while_is(head, a + 1, bytes::other_than(bytes::SPACE), b);
    assert(head.subrange(0, a) =~= method);
    assert(head.subrange(a + 1, b) =~= path);
    assert forall|i: int| 0 <= i < first.len() implies #[trigger] first[i] != 0x0a by {
        if i < a {
            assert(first[i] == method[i]);
        } else if a < i < b {
            assert(first[i] == path[i - a - 1]);
        } else if i > b {
            assert(first[i] == version[i - b - 1]);
        }
    }
}

/// The places at which header lines of a written head begin are those at which they were written.
proof fn lemma_line_starts(
    method: Seq<u8>,
    path: Seq<u8>,
    version: Seq<u8>,
    lines: Seq<Seq<u8>>,
    i: int,
) -> (k: int)
    requires
        can_be_written(method, path, version, lines),
        http::is_line_start(head_text(request_line(method, path, version), lines), i),
    ensures
        0 <= k < lines.len(),
        i == line_place(request_line(method, path, version), lines, k),
{
    lemma_first_line(method, path, version, lines);
    lemma_line_feeds(request_line(method, path, version), lines, i)
}

/// A header line that was written is one that is read, unless it is empty.
proof fn lemma_line_is_read(
    method: Seq<u8>,
    path: Seq<u8>,
    version: Seq<u8>,
    lines: Seq<Seq<u8>>,
    k: int,
)
    requires
        can_be_written(method, path, version, lines),
        0 <= k < lines.len(),
        lines[k].len() > 0,
    ensures
        http::is_line_start(
            head_text(request_line(method, path, version), lines),
            line_place(request_line(method, path, version), lines, k),
        ),
{
    lemma_first_line(method, path, version, lines);
    lemma_line_stands(request_line(method, path, version), lines, k);
}

proof fn lemma_names()
    ensures
        is_header_name(bytes::text("content-length:"@)),
        is_header_name(bytes::text("connection:"@)),
        is_header_name(bytes::text("close"@)),
        bytes::text("content-length:"@).len() == 15,
        bytes::text("connection:"@).len() == 11,
        bytes::text("close"@).len() == 5,
        bytes::text("close"@)[0] == 0x63,
        "content-length:"@.len() == 15,
        "connection:"@.len() == 11,
{
    reveal_strlit("content-length:");
    reveal_strlit("connection:");
    reveal_strlit("close");
}

/// The length that a header line announces is read back.
proof fn lemma_length_is_read(
    first: Seq<u8>,
    lines: Seq<Seq<u8>>,
    k: int,
    blanks: Seq<u8>,
    digits: Seq<u8>,
    rest: Seq<u8>,
)
    requires
        0 <= k < lines.len(),
        announces(lines[k], blanks, digits, rest),
    ensures
        http::length_at(head_text(first, lines), line_place(first, lines, k))
            == bytes::decimal_value(digits),
{
    lemma_names();
    lemma_line_stands(first, lines, k);
    let head = head_text(first, lines);
    let line = lines[k];
    let at = line_place(first, lines, k);
    let tail = line.skip(15);
    let from = at + 15;
    let value = from + blanks.len();
    let end = value + digits.len();
    assert(tail.len() == line.len() - 15);
    assert(tail.len() == blanks.len() + digits.len() + rest.len());
    assert forall|i: int| 0 <= i < tail.len() implies head[from + i] == #[trigger] tail[i] by {
        assert(tail[i] == line[15 + i]);
        assert(head[at + (15 + i)] == line[15 + i]);
    }
    assert forall|i: int| from <= i < value implies bytes::is_blank()(#[trigger] head[i]) by {
        assert(head[from + (i - from)] == tail[i - from]);
        assert(tail[i - from] == blanks[i - from]);
    }
    assert forall|i: int| value <= i < end implies #[trigger] head[i] == digits[i - value] by {
        assert(head[from + (i - from)] == tail[i - from]);
    }
    assert(rest.len() > 0 ==> head[end] == rest[0]) by {
        if rest.len() > 0 {
            assert(head[from + (end - from)] == tail[end - from]);
        }
    }
    assert(value < head.len() ==> !bytes::is_blank()(head[value])) by {
        if digits.len() > 0 {
            assert(head[value] == digits[0]);
        }
    }
    bytes::lemma_skip_while_is(head, from, bytes::is_blank(), value);
    bytes::lemma_skip_while_is(head, value, bytes::digit(), end);
    assert(head.subrange(value, end) =~= digits);
}

/// A header line closes the connection exactly when it was written so.
proof fn lemma_close_is_read(
    method: Seq<u8>,
    path: Seq<u8>,
    version: Seq<u8>,
    lines: Seq<Seq<u8>>,
    k: int,
)
    requires
        can_be_written(method, path, version, lines),
        0 <= k < lines.len(),
    ensures
        http::is_close_line(
            head_text(request_line(method, path, version), lines),
            line_place(request_line(method, path, version), lines, k),
        ) == closes(lines[k]),
{
    lemma_names();
    let first = request_line(method, path, version);
    let head = head_text(first, lines);
    let line = lines[k];
    let at = line_place(first, lines, k);
    let name = bytes::text("connection:"@);
    let close = bytes::text("close"@);
    lemma_line_stands(first, lines, k);
    lemma_letters(first, lines, k, 0, name);
    if has_letters(line, 0, name) {
        lemma_line_is_read(method, path, version, lines, k);
        let from = at + 11;
        bytes::lemma_skip_while(head, from, bytes::is_blank());
        let value = bytes::skip_while(head, from, bytes::is_blank());
        assert(value <= at + line.len()) by {
            if value > at + line.len() {
                assert(bytes::is_blank()(head[at + line.len()]));
            }
        }
        lemma_letters(first, lines, k, value - at, close);
        if has_letters(line, value - at, close) {
            assert forall|i: int| 11 <= i < value - at implies #[trigger] line[i] == 0x20 || line[i]
                == 0x09 by {
                assert(head[at + i] == line[i]);
                assert(bytes::is_blank()(head[at + i]));
            }
            assert(closes(line));
        }
        if closes(line) {
            let p = choose|p: int|
                {
                    &&& 11 <= p
                    &&& #[trigger] has_letters(line, p, close)
                    &&& forall|i: int| 11 <= i < p ==> #[trigger] line[i] == 0x20 || line[i] == 0x09
                };
            assert forall|i: int| from <= i < at + p implies bytes::is_blank()(
                #[trigger] head[i],
            ) by {
                assert(head[i] == line[i - at]);
            }
            assert(head[at + p] == line[p]);
            assert(line[p + 0] == close[0] || line[p + 0] + 32 == close[0]);
            bytes::lemma_skip_while_is(head, from, bytes::is_blank(), at + p);
        }
    }
}

/// A written head is read back: its method, its path, and whether the connection stays open, which
/// it does unless some header line, wherever it stands, closes it.
pub proof fn law_written_heads_are_read_back(
    method: Seq<u8>,
    path: Seq<u8>,
    version: Seq<u8>,
    lines: Seq<Seq<u8>>,
)
    requires
        can_be_written(method, path, version, lines),
    ensures
        ({
            let head = head_text(request_line(method, path, version), lines);
            &&& head.subrange(0, http::method_end(head)) == method
            &&& head.subrange(http::method_end(head) + 1, http::path_end(head)) == path
            &&& http::keeps_alive(head) <==> forall|k: int|
                0 <= k < lines.len() ==> !closes(#[trigger] lines[k])
        }),
{
    let first = request_line(method, path, version);
    let head = head_text(first, lines);
    lemma_first_line(method, path, version, lines);
    if !http::keeps_alive(head) {
        let i = choose|i: int| http::is_close_line(head, i);
        assert(http::is_close_line(head, i));
        let k = lemma_line_starts(method, path, version, lines, i);
        lemma_close_is_read(method, path, version, lines, k);
        assert(closes(lines[k]));
    }
    if exists|k: int| 0 <= k < lines.len() && closes(#[trigger] lines[k]) {
        let k = choose|k: int| 0 <= k < lines.len() && closes(#[trigger] lines[k]);
        lemma_close_is_read(method, path, version, lines, k);
    }
}

/// The header lines of a written head that announce a length are those that were written so.
proof fn lemma_length_lines(
    method: Seq<u8>,
    path: Seq<u8>,
    version: Seq<u8>,
    lines: Seq<Seq<u8>>,
    k: int,
)
    requires
        can_be_written(method, path, version, lines),
        0 <= k < lines.len(),
    ensures
        http::is_length_line(
            head_text(request_line(method, path, version), lines),
            line_place(request_line(method, path, version), lines, k),
        ) == has_letters(lines[k], 0, bytes::text("content-length:"@)),
{
    lemma_names();
    let name = bytes::text("content-length:"@);
    lemma_letters(request_line(method, path, version), lines, k, 0, name);
    if has_letters(lines[k], 0, name) {
        lemma_line_is_read(method, path, version, lines, k);
    }
}

/// The length that a written head announces is that of the last line that announces one, wherever
/// the line stands and however long the head is.
pub proof fn law_the_last_length_counts(
    method: Seq<u8>,
    path: Seq<u8>,
    version: Seq<u8>,
    lines: Seq<Seq<u8>>,
    last: int,
    blanks: Seq<u8>,
    digits: Seq<u8>,
    rest: Seq<u8>,
)
    requires
        can_be_written(method, path, version, lines),
        0 <= last < lines.len(),
        announces(lines[last], blanks, digits, rest),
        forall|k: int|
            last < k < lines.len() ==> !has_letters(
                #[trigger] lines[k],
                0,
                bytes::text("content-length:"@),
            ),
    ensures
        http::content_length(head_text(request_line(method, path, version), lines))
            == bytes::decimal_value(digits),
{
    let first = request_line(method, path, version);
    let head = head_text(first, lines);
    let at = line_place(first, lines, last);
    lemma_length_lines(method, path, version, lines, last);
    lemma_length_is_read(first, lines, last, blanks, digits, rest);
    assert forall|j: int| at < j implies !#[trigger] http::is_length_line(head, j) by {
        if http::is_length_line(head, j) {
            let k = lemma_line_starts(method, path, version, lines, j);
            lemma_length_lines(method, path, version, lines, k);
            if k <= last {
                lemma_places_ascend(first, lines, k, last);
            }
        }
    }
    assert(http::is_last_length_line(head, at));
    let i = choose|i: int| http::is_last_length_line(head, i);
    assert(http::is_last_length_line(head, i));
    assert(i == at);
}

/// A written head in which no line announces a length announces none.
pub proof fn law_no_length_line_means_no_body(
    method: Seq<u8>,
    path: Seq<u8>,
    version: Seq<u8>,
    lines: Seq<Seq<u8>>,
)
    requires
        can_be_written(method, path, version, lines),
        forall|k: int|
            0 <= k < lines.len() ==> !has_letters(
                #[trigger] lines[k],
                0,
                bytes::text("content-length:"@),
            ),
    ensures
        http::content_length(head_text(request_line(method, path, version), lines)) == 0,
        http::is_readable_head(head_text(request_line(method, path, version), lines)),
{
    let head = head_text(request_line(method, path, version), lines);
    lemma_first_line(method, path, version, lines);
    assert forall|j: int| !#[trigger] http::is_length_line(head, j) by {
        if http::is_length_line(head, j) {
            let k = lemma_line_starts(method, path, version, lines, j);
            lemma_length_lines(method, path, version, lines, k);
        }
    }
}

/// A written head can be read exactly when each length that it announces fits. `parts` has, for each
/// line that announces one, the blanks before its digits, the digits and what follows them.
pub proof fn law_heads_with_lengths_that_fit_are_readable(
    method: Seq<u8>,
    path: Seq<u8>,
    version: Seq<u8>,
    lines: Seq<Seq<u8>>,
    parts: Seq<(Seq<u8>, Seq<u8>, Seq<u8>)>,
)
    requires
        can_be_written(method, path, version, lines),
        parts.len() == lines.len(),
        forall|k: int|
            0 <= k < lines.len() && has_letters(
                #[trigger] lines[k],
                0,
                bytes::text("content-length:"@),
            ) ==> announces(lines[k], parts[k].0, parts[k].1, parts[k].2),
    ensures
        http::is_readable_head(head_text(request_line(method, path, version), lines))
            <==> forall|k: int|
            0 <= k < lines.len() && has_letters(
                #[trigger] lines[k],
                0,
                bytes::text("content-length:"@),
            ) ==> bytes::decimal_value(parts[k].1) <= usize::MAX,
{
    let first = request_line(method, path, version);
    let head = head_text(first, lines);
    let name = bytes::text("content-length:"@);
    lemma_first_line(method, path, version, lines);
    if http::is_readable_head(head) {
        assert forall|k: int|
            0 <= k < lines.len() && has_letters(
                #[trigger] lines[k],
                0,
                name,
            ) implies bytes::decimal_value(parts[k].1) <= usize::MAX by {
            lemma_length_lines(method, path, version, lines, k);
            lemma_length_is_read(first, lines, k, parts[k].0, parts[k].1, parts[k].2);
            assert(http::is_length_line(head, line_place(first, lines, k)));
        }
    }
    if forall|k: int|
        0 <= k < lines.len() && has_letters(#[trigger] lines[k], 0, name) ==> bytes::decimal_value(
            parts[k].1,
        ) <= usize::MAX {
        assert forall|j: int| #[trigger] http::is_length_line(head, j) implies http::length_at(
            head,
            j,
        ) <= usize::MAX by {
            let k = lemma_line_starts(method, path, version, lines, j);
            lemma_length_lines(method, path, version, lines, k);
            lemma_length_is_read(first, lines, k, parts[k].0, parts[k].1, parts[k].2);
        }
    }
}


/// The method ends at the first space of a head, and the path at the next one, or with the head.
pub proof fn law_method_and_path_end_at_spaces(req: Seq<u8>)
    ensures
        ({
            let a = http::method_end(req);
            let b = http::path_end(req);
            &&& 0 <= a <= req.len()
            &&& forall|i: int| 0 <= i < a ==> #[trigger] req[i] != 0x20
            &&& a < req.len() ==> req[a] == 0x20
            &&& a < req.len() ==> a < b <= req.len()
            &&& forall|i: int| a < i < b && i < req.len() ==> #[trigger] req[i] != 0x20
            &&& b < req.len() ==> req[b] == 0x20
        }),
{
    bytes::lemma_skip_while(req, 0, bytes::other_than(bytes::SPACE));
    let a = http::method_end(req);
    bytes::lemma_skip_while(req, a + 1, bytes::other_than(bytes::SPACE));
    let b = http::path_end(req);
    assert forall|i: int| 0 <= i < a implies #[trigger] req[i] != 0x20 by {
        assert(bytes::other_than(bytes::SPACE)(req[i]));
    }
    assert forall|i: int| a < i < b && i < req.len() implies #[trigger] req[i] != 0x20 by {
        assert(bytes::other_than(bytes::SPACE)(req[i]));
    }
}

/// Header lines begin past every line feed after the path, with a carriage return before it or
/// not, as long as something follows it; a name stands at the start of its line, in whatever case.
pub proof fn law_header_lines_begin_past_line_feeds(req: Seq<u8>, i: int)
    ensures
        http::is_line_start(req, i) <==> http::path_end(req) < i < req.len() && req[i - 1] == 0x0a,
        http::is_length_line(req, i) <==> http::is_line_start(req, i) && has_letters(
            req,
            i,
            bytes::text("content-length:"@),
        ),
{
    lemma_names();
    lemma_header_is_letters(req, i, bytes::text("content-length:"@));
}

proof fn lemma_header_is_letters(s: Seq<u8>, i: int, name: Seq<u8>)
    requires
        is_header_name(name),
    ensures
        http::header_at(s, i, name) == has_letters(s, i, name),
{
    if http::header_at(s, i, name) {
        assert forall|c: int| 0 <= c < name.len() implies {
            ||| s[i + c] == #[trigger] name[c]
            ||| 0x41 <= s[i + c] <= 0x5a && s[i + c] + 32 == name[c]
        } by {
            assert(http::lower(s[i + c]) == name[c]);
        }
    }
    if has_letters(s, i, name) {
        assert forall|c: int| 0 <= c < name.len() implies http::lower(s[i + c])
            == #[trigger] name[c] by {
            assert(!(0x41 <= name[c] <= 0x5a));
        }
    }
}

/// The length in a header line is written in the digits that follow its name and blanks; a line
/// without digits there announces none.
pub proof fn law_lengths_are_written_past_blanks(req: Seq<u8>, i: int, value: int, end: int)
    requires
        0 <= i,
        i + 15 <= value <= end <= req.len(),
        forall|k: int| i + 15 <= k < value ==> #[trigger] req[k] == 0x20 || req[k] == 0x09,
        value < req.len() ==> req[value] != 0x20 && req[value] != 0x09,
        forall|k: int| value <= k < end ==> 0x30 <= #[trigger] req[k] <= 0x39,
        end < req.len() ==> !(0x30 <= req[end] <= 0x39),
    ensures
        http::length_at(req, i) == bytes::decimal_value(req.subrange(value, end)),
{
    lemma_names();
    bytes::lemma_skip_while_is(req, i + 15, bytes::is_blank(), value);
    bytes::lemma_skip_while_is(req, value, bytes::digit(), end);
}

/// The length that a head announces is that of its last line that announces one; without such a
/// line it is zero.
pub proof fn law_the_last_of_the_length_lines_counts(req: Seq<u8>, i: int)
    ensures
        http::is_length_line(req, i) && (forall|j: int|
            i < j ==> !#[trigger] http::is_length_line(req, j)) ==> http::content_length(req)
            == http::length_at(req, i),
        (forall|j: int| !#[trigger] http::is_length_line(req, j)) ==> http::content_length(req)
            == 0,
        http::is_readable_head(req) <==> http::method_end(req) < req.len() && forall|j: int|
            #[trigger] http::is_length_line(req, j) ==> http::length_at(req, j) <= usize::MAX,
{
    if http::is_length_line(req, i) && (forall|j: int|
        i < j ==> !#[trigger] http::is_length_line(req, j)) {
        assert(http::is_last_length_line(req, i));
        let k = choose|k: int| http::is_last_length_line(req, k);
        assert(http::is_last_length_line(req, k));
        assert(k == i);
    }
}

/// A connection is closed by any header line whose name is `connection` and whose value begins, past
/// blanks, with `close`, in whatever case; nothing else closes it.
pub proof fn law_connections_are_closed_by_header_lines(req: Seq<u8>)
    ensures
        http::keeps_alive(req) <==> !exists|i: int, value: int|
            {
                &&& #[trigger] http::is_line_start(req, i)
                &&& has_letters(req, i, bytes::text("connection:"@))
                &&& i + 11 <= value
                &&& forall|k: int| i + 11 <= k < value ==> #[trigger] req[k] == 0x20 || req[k] == 0x09
                &&& #[trigger] has_letters(req, value, bytes::text("close"@))
            },
{
    lemma_names();
    let name = bytes::text("connection:"@);
    let close = bytes::text("close"@);
    if !http::keeps_alive(req) {
        let i = choose|i: int| http::is_close_line(req, i);
        assert(http::is_close_line(req, i));
        lemma_header_is_letters(req, i, name);
        bytes::lemma_skip_while(req, i + 11, bytes::is_blank());
        let value = bytes::skip_while(req, i + 11, bytes::is_blank());
        lemma_header_is_letters(req, value, close);
        assert forall|k: int| i + 11 <= k < value implies #[trigger] req[k] == 0x20 || req[k]
            == 0x09 by {
            assert(bytes::is_blank()(req[k]));
        }
        assert(http::is_line_start(req, i) && has_letters(req, value, close));
    }
    if exists|i: int, value: int|
        {
            &&& #[trigger] http::is_line_start(req, i)
            &&& has_letters(req, i, name)
            &&& i + 11 <= value
            &&& forall|k: int| i + 11 <= k < value ==> #[trigger] req[k] == 0x20 || req[k] == 0x09
            &&& #[trigger] has_letters(req, value, close)
        } {
        let (i, value) = choose|i: int, value: int|
            {
                &&& #[trigger] http::is_line_start(req, i)
                &&& has_letters(req, i, name)
                &&& i + 11 <= value
                &&& forall|k: int| i + 11 <= k < value ==> #[trigger] req[k] == 0x20 || req[k] == 0x09
                &&& #[trigger] has_letters(req, value, close)
            };
        lemma_header_is_letters(req, i, name);
        lemma_header_is_letters(req, value, close);
        assert(req[value + 0] == close[0] || req[value + 0] + 32 == close[0]);
        bytes::lemma_skip_while_is(req, i + 11, bytes::is_blank(), value);
        assert(http::is_close_line(req, i));
    }
}

/// What is read from a head is its method, its path, its length and whether the connection stays
/// open.
pub proof fn law_a_head_says_four_things(
    req: Seq<u8>,
    method: Seq<u8>,
    path: Seq<u8>,
    length: int,
    keep: bool,
)
    ensures
        http::head_is(req, (method, path, length, keep)) <==> {
            &&& method == req.subrange(0, http::method_end(req))
            &&& path == req.subrange(http::method_end(req) + 1, http::path_end(req))
            &&& length == http::content_length(req)
            &&& keep == http::keeps_alive(req)
        },
{
}

} // verus!
