//! The reference data: a gzip file of JSON objects, each with a `vector` of 14 numbers and a
//! `label`.

use crate::bytes;
use crate::bytes::{
    ascii, find_subseq, same_bytes, skip_until, CLOSE_BRACE, CLOSE_BRACKET, COMMA, OPEN_BRACE,
    OPEN_BRACKET, QUOTE, SPACE,
};
use crate::parse;
use crate::vector::{Span, D};
use std::io::Read;
use vstd::prelude::*;

verus! {

/// The error of a reader of the standard library.
#[verifier::external_type_specification]
#[verifier::external_body]
pub struct ExIoError(std::io::Error);

/// What decompressing the first member of a gzip file gives; nothing when the file is corrupt.
pub uninterp spec fn gunzipped(data: Seq<u8>) -> Option<Seq<u8>>;

/// Reads `flate2::read::GzDecoder` to its end. It decompresses the first member of the gzip file
/// that `data` holds, and fails where the file ends early or its header, data or checksum is
/// wrong. What it gives depends on `data` alone; the error's text is left open.
#[verifier::external_body]
fn gunzip(data: &[u8]) -> (r: Result<Vec<u8>, std::io::Error>)
    ensures
        match r {
            Ok(out) => gunzipped(data@) == Some(out@),
            Err(_) => gunzipped(data@) is None,
        },
{
    let mut out = Vec::new();
    flate2::read::GzDecoder::new(data).read_to_end(&mut out)?;
    Ok(out)
}

/// Why reference data cannot be read.
#[derive(Debug)]
pub enum ReferenceError {
    /// The gzip file is corrupt.
    Gzip(std::io::Error),
    /// A label is not followed by a string.
    LabelWithoutString,
}

/// Decompresses a file of reference data.
pub fn decompress(gz: &[u8]) -> (r: Result<Vec<u8>, ReferenceError>)
    ensures
        match r {
            Ok(out) => gunzipped(gz@) == Some(out@),
            Err(e) => gunzipped(gz@) is None && e is Gzip,
        },
{
    match gunzip(gz) {
        Ok(out) => Ok(out),
        Err(e) => Err(ReferenceError::Gzip(e)),
    }
}

/// The position of the brace that closes the last of the open ones, of which there are `depth`
/// before `i`.
pub open spec fn closing_brace(s: Seq<u8>, i: int, depth: int) -> Option<int>
    decreases s.len() - i,
{
    if i < 0 || i >= s.len() {
        None
    } else if s[i] == OPEN_BRACE {
        closing_brace(s, i + 1, depth + 1)
    } else if s[i] == CLOSE_BRACE && depth == 1 {
        Some(i)
    } else if s[i] == CLOSE_BRACE {
        closing_brace(s, i + 1, depth - 1)
    } else {
        closing_brace(s, i + 1, depth)
    }
}

/// The first object at or after `from`: the positions of its braces.
pub open spec fn object_from(s: Seq<u8>, from: int) -> Option<(int, int)> {
    let open = bytes::skip_while(s, from, bytes::other_than(OPEN_BRACE));
    match closing_brace(s, open, 0) {
        Some(close) => Some((open, close)),
        None => None,
    }
}

/// Where the components of an object's vector begin: past the bracket after its key.
pub open spec fn vector_start(obj: Seq<u8>) -> Option<int> {
    match bytes::after_key(obj, bytes::text("\"vector\""@), 0) {
        Some(p) => {
            let open = bytes::skip_while(obj, p, bytes::other_than(OPEN_BRACKET));
            if open < obj.len() {
                Some(open + 1)
            } else {
                None
            }
        },
        None => None,
    }
}

/// An object is a record: it has a vector and a label.
pub open spec fn is_record(obj: Seq<u8>) -> bool {
    vector_start(obj) is Some && bytes::search(obj, bytes::text("\"label\""@), 0) is Some
}

/// The quote that opens the label's string.
pub open spec fn label_quote(obj: Seq<u8>) -> int {
    bytes::skip_while(
        obj,
        bytes::after_key(obj, bytes::text("\"label\""@), 0)->0,
        bytes::other_than(QUOTE),
    )
}

/// A record's label: 1 for a fraud, 0 for anything else.
pub open spec fn label_of(obj: Seq<u8>) -> u8 {
    let start = label_quote(obj) + 1;
    if obj.subrange(start, bytes::skip_while(obj, start, bytes::other_than(QUOTE)))
        == bytes::text("fraud"@) {
        1
    } else {
        0
    }
}

pub open spec fn separator() -> spec_fn(u8) -> bool {
    |b: u8| b == SPACE || b == COMMA
}

pub open spec fn component() -> spec_fn(u8) -> bool {
    |b: u8| b != COMMA && b != CLOSE_BRACKET
}

/// Where the first `k` components of a vector end.
pub open spec fn components_end(obj: Seq<u8>, start: int, k: nat) -> int
    decreases k,
{
    if k == 0 {
        start
    } else {
        bytes::skip_while(
            obj,
            bytes::skip_while(obj, components_end(obj, start, (k - 1) as nat), separator()),
            component(),
        )
    }
}

/// The text of component `k`: from past the separators to the next comma or bracket. `base` is
/// the position of the object.
pub open spec fn component_span(obj: Seq<u8>, base: int, start: int, k: int) -> Span {
    Span {
        start: (base + bytes::skip_while(
            obj,
            components_end(obj, start, k as nat),
            separator(),
        )) as usize,
        end: (base + components_end(obj, start, (k + 1) as nat)) as usize,
    }
}

/// A reference vector: the texts of its components, and its label.
#[derive(Clone, Copy, Debug)]
pub struct Record {
    pub vector: [Span; D],
    pub label: u8,
}

/// What the record between two braces of `s` holds.
pub open spec fn record_is(s: Seq<u8>, object: (int, int), r: Record) -> bool {
    let obj = s.subrange(object.0, object.1 + 1);
    &&& forall|k: int|
        0 <= k < D ==> #[trigger] r.vector@[k] == component_span(
            obj,
            object.0,
            vector_start(obj)->0,
            k,
        )
    &&& r.label == label_of(obj)
}

/// The first object at or after `from` that is a record.
pub open spec fn record_from(s: Seq<u8>, from: int) -> Option<(int, int)>
    decreases s.len() - from,
{
    match object_from(s, from) {
        Some((open, close)) => {
            if is_record(s.subrange(open, close + 1)) {
                Some((open, close))
            } else if from <= close < s.len() {
                record_from(s, close + 1)
            } else {
                None
            }
        },
        None => None,
    }
}

/// A closing brace stands past the opening one.
proof fn lemma_closing_brace(s: Seq<u8>, i: int, depth: int)
    requires
        0 <= i,
    ensures
        closing_brace(s, i, depth) matches Some(close) ==> i <= close < s.len() && s[close]
            == CLOSE_BRACE,
    decreases s.len() - i,
{
    if i < s.len() {
        lemma_closing_brace(s, i + 1, depth + 1);
        lemma_closing_brace(s, i + 1, depth - 1);
        lemma_closing_brace(s, i + 1, depth);
    }
}

/// An object has its closing brace past the opening one.
proof fn lemma_object(s: Seq<u8>, from: int)
    requires
        0 <= from,
    ensures
        object_from(s, from) matches Some((open, close)) ==> from <= open < close < s.len()
            && s[open] == OPEN_BRACE,
{
    bytes::lemma_skip_while(s, from, bytes::other_than(OPEN_BRACE));
    let open = bytes::skip_while(s, from, bytes::other_than(OPEN_BRACE));
    lemma_closing_brace(s, open, 0);
}

/// The texts of the components stand within a byte string of length `len`.
pub open spec fn components_within(vector: Seq<Span>, len: int) -> bool {
    forall|k: int|
        0 <= k < vector.len() ==> (#[trigger] vector[k]).start <= vector[k].end <= len
}

/// The position of the brace that closes the object that opens at `open`.
fn find_closing_brace(buf: &[u8], open: usize) -> (r: Option<usize>)
    requires
        open < buf@.len(),
        buf@[open as int] == OPEN_BRACE,
    ensures
        bytes::position(r) == closing_brace(buf@, open as int, 0),
        r matches Some(close) ==> open < close < buf@.len(),
{
    assert(buf@.len() == buf.len());
    let mut depth: usize = 1;
    let mut j: usize = open + 1;
    while j < buf.len()
        invariant
            open < j <= buf@.len(),
            1 <= depth <= j - open,
            closing_brace(buf@, j as int, depth as int) == closing_brace(buf@, open as int, 0),
        decreases buf@.len() - j,
    {
        if buf[j] == OPEN_BRACE {
            depth += 1;
        } else if buf[j] == CLOSE_BRACE {
            if depth == 1 {
                return Some(j);
            }
            depth -= 1;
        }
        j += 1;
    }
    None
}

/// The first position at or after `from` that holds neither a space nor a comma.
fn skip_separators(buf: &[u8], from: usize) -> (r: usize)
    requires
        from <= buf@.len(),
    ensures
        r == bytes::skip_while(buf@, from as int, separator()),
        from <= r <= buf@.len(),
{
    let mut i: usize = from;
    while i < buf.len() && (buf[i] == SPACE || buf[i] == COMMA)
        invariant
            from <= i <= buf@.len(),
            bytes::skip_while(buf@, i as int, separator()) == bytes::skip_while(
                buf@,
                from as int,
                separator(),
            ),
        decreases buf@.len() - i,
    {
        i += 1;
    }
    i
}

/// The first position at or after `from` that holds a comma or a closing bracket.
fn skip_component(buf: &[u8], from: usize) -> (r: usize)
    requires
        from <= buf@.len(),
    ensures
        r == bytes::skip_while(buf@, from as int, component()),
        from <= r <= buf@.len(),
{
    let mut i: usize = from;
    while i < buf.len() && buf[i] != COMMA && buf[i] != CLOSE_BRACKET
        invariant
            from <= i <= buf@.len(),
            bytes::skip_while(buf@, i as int, component()) == bytes::skip_while(
                buf@,
                from as int,
                component(),
            ),
        decreases buf@.len() - i,
    {
        i += 1;
    }
    i
}

/// Where the components of an object's vector begin.
fn find_vector(obj: &[u8]) -> (r: Option<usize>)
    ensures
        bytes::position(r) == vector_start(obj@),
        r matches Some(p) ==> p <= obj@.len(),
{
    proof {
        reveal_strlit("\"vector\"");
    }
    let key = find_subseq(obj, ascii("\"vector\""))?;
    assert(obj@.len() == obj.len());
    let open: usize = skip_until(obj, key + 8, OPEN_BRACKET);
    if open < obj.len() {
        Some(open + 1)
    } else {
        None
    }
}

/// The components of a vector that begin at `start` in an object that begins at `base`.
fn read_components(obj: &[u8], base: usize, start: usize) -> (r: [Span; D])
    requires
        start <= obj@.len(),
        base + obj@.len() <= usize::MAX,
    ensures
        forall|k: int|
            0 <= k < D ==> #[trigger] r@[k] == component_span(obj@, base as int, start as int, k),
        components_within(r@, base + obj@.len()),
{
    let mut vector: [Span; D] = [Span { start: 0, end: 0 };D];
    let mut at: usize = start;
    let mut slot: usize = 0;
    while slot < D
        invariant
            slot <= D,
            start <= obj@.len(),
            base + obj@.len() <= usize::MAX,
            at == components_end(obj@, start as int, slot as nat),
            at <= obj@.len(),
            forall|k: int|
                0 <= k < D ==> (#[trigger] vector@[k]).start <= vector@[k].end <= base + obj@.len(),
            forall|k: int|
                0 <= k < slot ==> #[trigger] vector@[k] == component_span(
                    obj@,
                    base as int,
                    start as int,
                    k,
                ),
        decreases D - slot,
    {
        let from: usize = skip_separators(obj, at);
        at = skip_component(obj, from);
        vector[slot] = Span { start: base + from, end: base + at };
        slot += 1;
    }
    vector
}

/// The label of a record; `None` when no string follows its key.
fn read_label(obj: &[u8], key: usize) -> (r: Option<u8>)
    requires
        bytes::search(obj@, bytes::text("\"label\""@), 0) == Some(key as int),
        key + 7 <= obj@.len(),
    ensures
        match r {
            Some(label) => label_quote(obj@) < obj@.len() && label == label_of(obj@),
            None => label_quote(obj@) >= obj@.len(),
        },
{
    proof {
        reveal_strlit("\"label\"");
        reveal_strlit("fraud");
    }
    assert(obj@.len() == obj.len());
    let quote: usize = skip_until(obj, key + 7, QUOTE);
    if quote >= obj.len() {
        return None;
    }
    let end: usize = skip_until(obj, quote + 1, QUOTE);
    if same_bytes(&obj[quote + 1..end], ascii("fraud")) {
        Some(1)
    } else {
        Some(0)
    }
}

/// The records of decompressed reference data, one after the other.
pub struct References<'a> {
    /// The data.
    pub buf: &'a [u8],
    /// Where the data not yet read begins.
    pub at: usize,
}

impl<'a> References<'a> {
    /// What was read lies within the data.
    pub open spec fn wf(&self) -> bool {
        self.at <= self.buf@.len()
    }

    /// The records from the start of the data.
    pub fn new(buf: &'a [u8]) -> (r: Self)
        ensures
            r.wf(),
            r.buf == buf,
            r.at == 0,
    {
        References { buf, at: 0 }
    }

    /// The next record; objects that are no records are passed over. It fails, and stays where it
    /// is, at a record whose label is not followed by a string.
    pub fn next(&mut self) -> (r: Result<Option<Record>, ReferenceError>)
        requires
            old(self).wf(),
        ensures
            final(self).wf(),
            final(self).buf == old(self).buf,
            match record_from(old(self).buf@, old(self).at as int) {
                None => {
                    &&& r matches Ok(None)
                    &&& final(self).at == old(self).at
                },
                Some((open, close)) => {
                    let obj = old(self).buf@.subrange(open, close + 1);
                    if label_quote(obj) < obj.len() {
                        &&& r matches Ok(Some(record))
                        &&& record_is(old(self).buf@, (open, close), record)
                        &&& components_within(record.vector@, old(self).buf@.len() as int)
                        &&& final(self).at == close + 1
                    } else {
                        &&& r matches Err(e)
                        &&& e is LabelWithoutString
                        &&& final(self).at == old(self).at
                    }
                },
            },
    {
        proof {
            reveal_strlit("\"label\"");
        }
        let buf = self.buf;
        let mut from: usize = self.at;
        loop
            invariant
                self.wf(),
                *self == *old(self),
                buf == self.buf,
                from <= buf@.len(),
                vstd::string::is_ascii("\"label\""),
                "\"label\""@.len() == 7,
                record_from(buf@, from as int) == record_from(buf@, self.at as int),
            decreases buf@.len() - from,
        {
            proof {
                lemma_object(buf@, from as int);
            }
            let open: usize = skip_until(buf, from, OPEN_BRACE);
            if open >= buf.len() {
                return Ok(None);
            }
            let close: usize = match find_closing_brace(buf, open) {
                Some(close) => close,
                None => {
                    return Ok(None);
                },
            };
            let obj = &buf[open..close + 1];
            assert(buf@.len() == buf.len());
            let label = find_subseq(obj, ascii("\"label\""));
            match (find_vector(obj), label) {
                (Some(start), Some(key)) => {
                    let vector = read_components(obj, open, start);
                    let label: u8 = match read_label(obj, key) {
                        Some(label) => label,
                        None => {
                            return Err(ReferenceError::LabelWithoutString);
                        },
                    };
                    self.at = close + 1;
                    return Ok(Some(Record { vector, label }));
                },
                _ => {
                    from = close + 1;
                },
            }
        }
    }
}

/// A component stands from `start` to `end`: only separators come before it from `from` on, and a
/// comma or the closing bracket follows it.
pub open spec fn component_stands(obj: Seq<u8>, from: int, start: int, end: int) -> bool {
    &&& 0 <= from <= start < end < obj.len()
    &&& forall|i: int| from <= i < start ==> separator()(#[trigger] obj[i])
    &&& !separator()(obj[start])
    &&& forall|i: int| start <= i < end ==> component()(#[trigger] obj[i])
    &&& !component()(obj[end])
}

/// Component `k` of a vector stands from `starts[k]` to `ends[k]`, past the one before it.
pub open spec fn has_components(obj: Seq<u8>, start: int, starts: Seq<int>, ends: Seq<int>) -> bool {
    &&& starts.len() == ends.len()
    &&& forall|k: int|
        0 <= k < starts.len() ==> component_stands(
            obj,
            if k == 0 {
                start
            } else {
                ends[k - 1]
            },
            #[trigger] starts[k],
            ends[k],
        )
}

/// The components of a written vector are read whole, each up to the comma or bracket after it.
pub proof fn law_components_are_read_back(
    obj: Seq<u8>,
    base: int,
    start: int,
    starts: Seq<int>,
    ends: Seq<int>,
    k: int,
)
    requires
        has_components(obj, start, starts, ends),
        0 <= k < starts.len(),
        0 <= base,
        base + obj.len() <= usize::MAX,
    ensures
        component_span(obj, base, start, k) == (Span {
            start: (base + starts[k]) as usize,
            end: (base + ends[k]) as usize,
        }),
        components_end(obj, start, (k + 1) as nat) == ends[k],
    decreases k,
{
    if k > 0 {
        law_components_are_read_back(obj, base, start, starts, ends, k - 1);
    }
    let from = components_end(obj, start, k as nat);
    assert(starts[k] < ends[k]);
    bytes::lemma_skip_while_is(obj, from, separator(), starts[k]);
    bytes::lemma_skip_while_is(obj, starts[k], component(), ends[k]);
}

/// A written label is read whole: the record is a fraud exactly when the first string after the
/// first `label` key is `fraud`.
pub proof fn law_labels_are_read_back(obj: Seq<u8>, at: int, quote: int, end: int)
    requires
        bytes::is_first_match(obj, bytes::text("\"label\""@), 0, at),
        at + 7 <= quote < end < obj.len(),
        obj[quote] == QUOTE,
        obj[end] == QUOTE,
        forall|i: int| at + 7 <= i < quote ==> #[trigger] obj[i] != QUOTE,
        forall|i: int| quote < i < end ==> #[trigger] obj[i] != QUOTE,
    ensures
        label_quote(obj) == quote,
        label_of(obj) == 1 <==> obj.subrange(quote + 1, end) == bytes::text("fraud"@),
        label_of(obj) <= 1,
{
    reveal_strlit("\"label\"");
    bytes::lemma_search_is(obj, bytes::text("\"label\""@), 0, at);
    bytes::lemma_skip_while_is(obj, at + 7, bytes::other_than(QUOTE), quote);
    bytes::lemma_skip_while_is(obj, quote + 1, bytes::other_than(QUOTE), end);
}

/// The components of a vector begin past the first bracket after its key, right after it or not;
/// without the key or such a bracket there is no vector.
pub proof fn law_vectors_begin_past_the_first_bracket(obj: Seq<u8>)
    ensures
        match bytes::search(obj, bytes::text("\"vector\""@), 0) {
            None => vector_start(obj) is None,
            Some(at) => {
                &&& forall|open: int|
                    at + 8 <= open < obj.len() && #[trigger] obj[open] == 0x5b && (forall|i: int|
                        at + 8 <= i < open ==> #[trigger] obj[i] != 0x5b) ==> vector_start(obj)
                        == Some(open + 1)
                &&& (forall|i: int| at + 8 <= i < obj.len() ==> #[trigger] obj[i] != 0x5b)
                    ==> vector_start(obj) is None
            },
        },
{
    reveal_strlit("\"vector\"");
    let key = bytes::text("\"vector\""@);
    if let Some(at) = bytes::search(obj, key, 0) {
        let i = choose|i: int| bytes::is_first_match(obj, key, 0, i);
        assert(bytes::is_first_match(obj, key, 0, i));
        let not_open = bytes::other_than(OPEN_BRACKET);
        assert forall|open: int|
            at + 8 <= open < obj.len() && #[trigger] obj[open] == 0x5b && (forall|i: int|
                at + 8 <= i < open ==> #[trigger] obj[i] != 0x5b) implies vector_start(obj) == Some(
            open + 1,
        ) by {
            bytes::lemma_skip_while_is(obj, at + 8, not_open, open);
        }
        if forall|i: int| at + 8 <= i < obj.len() ==> #[trigger] obj[i] != 0x5b {
            bytes::lemma_skip_while_is(obj, at + 8, not_open, obj.len() as int);
        }
    }
}

/// The braces that are open at `j`, counted from `i` on.
pub open spec fn open_braces(s: Seq<u8>, i: int, j: int) -> int {
    bytes::times(s.subrange(i, j), 0x7b) - bytes::times(s.subrange(i, j), 0x7d)
}

proof fn lemma_braces(s: Seq<u8>, i: int, j: int)
    requires
        0 <= i < j <= s.len(),
        forall|k: int| i < k <= j ==> 1 <= #[trigger] open_braces(s, i, k),
    ensures
        match closing_brace(s, j, open_braces(s, i, j)) {
            Some(close) => {
                &&& j <= close < s.len()
                &&& s[close] == 0x7d
                &&& open_braces(s, i, close) == 1
                &&& forall|k: int| i < k <= close ==> 1 <= #[trigger] open_braces(s, i, k)
            },
            None => forall|k: int| i < k <= s.len() ==> 1 <= #[trigger] open_braces(s, i, k),
        },
    decreases s.len() - j,
{
    if j < s.len() {
        bytes::lemma_times_push(s, i, j, 0x7b);
        bytes::lemma_times_push(s, i, j, 0x7d);
        if !(s[j] == 0x7d && open_braces(s, i, j) == 1) {
            assert(open_braces(s, i, j + 1) >= 1);
            lemma_braces(s, i, j + 1);
        }
    }
}

/// An object reaches from the first brace that opens to the brace where as many have been closed
/// as were opened, and nowhere before. Without such a brace there is no object, nor any after it.
pub proof fn law_objects_end_where_their_braces_balance(s: Seq<u8>, from: int)
    requires
        0 <= from,
    ensures
        match object_from(s, from) {
            Some((open, close)) => {
                &&& from <= open < close < s.len()
                &&& s[open] == 0x7b
                &&& s[close] == 0x7d
                &&& forall|i: int| from <= i < open ==> #[trigger] s[i] != 0x7b
                &&& open_braces(s, open, close) == 1
                &&& forall|k: int| open < k <= close ==> 1 <= #[trigger] open_braces(s, open, k)
            },
            None => {
                ||| forall|i: int| from <= i < s.len() ==> #[trigger] s[i] != 0x7b
                ||| exists|open: int|
                    {
                        &&& from <= open < s.len()
                        &&& #[trigger] s[open] == 0x7b
                        &&& forall|i: int| from <= i < open ==> #[trigger] s[i] != 0x7b
                        &&& forall|k: int|
                            open < k <= s.len() ==> 1 <= #[trigger] open_braces(s, open, k)
                    }
            },
        },
{
    bytes::lemma_skip_while(s, from, bytes::other_than(OPEN_BRACE));
    lemma_object(s, from);
    let open = bytes::skip_while(s, from, bytes::other_than(OPEN_BRACE));
    assert forall|i: int| from <= i < open implies #[trigger] s[i] != 0x7b by {
        assert(bytes::other_than(OPEN_BRACE)(s[i]));
    }
    if open < s.len() {
        bytes::lemma_times_none(s, open, 0x7b);
        bytes::lemma_times_none(s, open, 0x7d);
        bytes::lemma_times_push(s, open, open, 0x7b);
        bytes::lemma_times_push(s, open, open, 0x7d);
        assert(open_braces(s, open, open + 1) == 1);
        lemma_braces(s, open, open + 1);
        assert(s[open] == 0x7b);
    }
}

/// A record is an object with a vector and a label, whatever else it holds; other objects are
/// passed over, and reading goes on past them.
pub proof fn law_other_objects_are_passed_over(s: Seq<u8>, from: int)
    requires
        0 <= from,
    ensures
        match object_from(s, from) {
            None => record_from(s, from) is None,
            Some((open, close)) => {
                let obj = s.subrange(open, close + 1);
                if vector_start(obj) is Some && bytes::search(
                    obj,
                    bytes::text("\"label\""@),
                    0,
                ) is Some {
                    record_from(s, from) == Some((open, close))
                } else {
                    record_from(s, from) == record_from(s, close + 1)
                }
            },
        },
{
    lemma_object(s, from);
}

/// What reading the records of `s` from a position on gives, one after the other: the texts of the
/// components, and the label.
pub open spec fn read_from(s: Seq<u8>, from: int) -> Seq<(Seq<Seq<u8>>, u8)>
    decreases s.len() - from,
{
    match record_from(s, from) {
        None => Seq::empty(),
        Some((open, close)) => {
            let obj = s.subrange(open, close + 1);
            let vector = Seq::new(
                D as nat,
                |k: int|
                    {
                        let span = component_span(obj, open, vector_start(obj)->0, k);
                        s.subrange(span.start as int, span.end as int)
                    },
            );
            if from <= close < s.len() {
                seq![(vector, label_of(obj))] + read_from(s, close + 1)
            } else {
                Seq::empty()
            }
        },
    }
}

/// Texts with a comma and spaces between them.
pub open spec fn comma_list(texts: Seq<Seq<u8>>, spaces: Seq<u8>) -> Seq<u8>
    decreases texts.len(),
{
    if texts.len() == 0 {
        Seq::empty()
    } else if texts.len() == 1 {
        texts[0]
    } else {
        texts[0] + seq![0x2cu8] + spaces + comma_list(texts.drop_first(), spaces)
    }
}

/// A record as it is written, with spaces after each colon and comma.
pub open spec fn record_text(texts: Seq<Seq<u8>>, label: Seq<u8>, spaces: Seq<u8>) -> Seq<u8> {
    bytes::text("{\"vector\":"@) + spaces + seq![0x5bu8] + comma_list(texts, spaces) + seq![
        0x5du8,
        0x2cu8,
    ] + spaces + bytes::text("\"label\":"@) + spaces + seq![0x22u8] + label + seq![0x22u8, 0x7du8]
}

/// A file of records, with `gap` before, between and after them.
pub open spec fn records_text(
    records: Seq<(Seq<Seq<u8>>, Seq<u8>)>,
    gap: Seq<u8>,
    spaces: Seq<u8>,
) -> Seq<u8>
    decreases records.len(),
{
    if records.len() == 0 {
        gap
    } else {
        gap + record_text(records[0].0, records[0].1, spaces) + records_text(
            records.drop_first(),
            gap,
            spaces,
        )
    }
}

/// What can be written as a record: 14 texts of numbers, and a label without quotes and braces.
pub open spec fn can_be_written(texts: Seq<Seq<u8>>, label: Seq<u8>) -> bool {
    &&& texts.len() == D
    &&& forall|k: int| 0 <= k < texts.len() ==> (#[trigger] texts[k]).len() > 0
    &&& forall|k: int, i: int|
        0 <= k < texts.len() && 0 <= i < texts[k].len() ==> parse::may_be_in_number(
            #[trigger] texts[k][i],
        )
    &&& forall|i: int|
        0 <= i < label.len() ==> #[trigger] label[i] != 0x22 && label[i] != 0x7b && label[i]
            != 0x7d
}

/// Where text `k` of a list begins.
spec fn place_in_list(texts: Seq<Seq<u8>>, spaces: Seq<u8>, k: int) -> int
    decreases k,
{
    if k <= 0 {
        0
    } else {
        place_in_list(texts, spaces, k - 1) + texts[k - 1].len() + 1 + spaces.len()
    }
}

proof fn lemma_place_shift(texts: Seq<Seq<u8>>, spaces: Seq<u8>, k: int)
    requires
        1 <= k <= texts.len(),
    ensures
        place_in_list(texts, spaces, k) == texts[0].len() + 1 + spaces.len() + place_in_list(
            texts.drop_first(),
            spaces,
            k - 1,
        ),
    decreases k,
{
    if k > 1 {
        lemma_place_shift(texts, spaces, k - 1);
        assert(texts.drop_first()[k - 2] == texts[k - 1]);
    } else {
        assert(place_in_list(texts, spaces, 0) == 0);
        assert(place_in_list(texts.drop_first(), spaces, 0) == 0);
    }
}

/// Text `k` of a list stands at its place, and a comma and spaces follow it but for the last.
proof fn lemma_comma_list(texts: Seq<Seq<u8>>, spaces: Seq<u8>, k: int)
    requires
        0 <= k < texts.len(),
    ensures
        ({
            let list = comma_list(texts, spaces);
            let at = place_in_list(texts, spaces, k);
            let end = at + texts[k].len();
            &&& 0 <= at <= end <= list.len()
            &&& forall|i: int| at <= i < end ==> #[trigger] list[i] == texts[k][i - at]
            &&& k == texts.len() - 1 ==> end == list.len()
            &&& k < texts.len() - 1 ==> {
                &&& end + 1 + spaces.len() <= list.len()
                &&& list[end] == 0x2c
                &&& forall|i: int|
                    end < i < end + 1 + spaces.len() ==> #[trigger] list[i] == spaces[i - end - 1]
            }
        }),
    decreases k,
{
    let list = comma_list(texts, spaces);
    if k > 0 {
        let rest = texts.drop_first();
        let skip = texts[0].len() + 1 + spaces.len();
        lemma_comma_list(rest, spaces, k - 1);
        lemma_place_shift(texts, spaces, k);
        assert(rest[k - 1] == texts[k]);
        let tail = comma_list(rest, spaces);
        assert(list.len() == skip + tail.len());
        assert forall|i: int| skip <= i < list.len() implies #[trigger] list[i] == tail[i - skip] by {}
    } else {
        assert(place_in_list(texts, spaces, 0) == 0);
    }
}

/// Where the first component of a written record begins.
spec fn list_place(spaces: Seq<u8>) -> int {
    spaces.len() as int + 11
}

/// Where the key of the label of a written record begins.
spec fn label_place(texts: Seq<Seq<u8>>, spaces: Seq<u8>) -> int {
    list_place(spaces) + comma_list(texts, spaces).len() + 2 + spaces.len()
}

/// Where the quote that opens the label of a written record stands.
spec fn quote_place(texts: Seq<Seq<u8>>, spaces: Seq<u8>) -> int {
    label_place(texts, spaces) + 8 + spaces.len()
}

/// The bytes of a written record.
spec fn has_shape(obj: Seq<u8>, texts: Seq<Seq<u8>>, label: Seq<u8>, spaces: Seq<u8>) -> bool {
    let list = comma_list(texts, spaces);
    let at = list_place(spaces);
    let l = label_place(texts, spaces);
    let q = quote_place(texts, spaces);
    &&& obj.len() == q + label.len() + 3
    &&& obj[0] == 0x7b
    &&& obj.subrange(1, 9) == bytes::text("\"vector\""@)
    &&& obj[9] == 0x3a
    &&& forall|i: int| 10 <= i < at - 1 ==> #[trigger] obj[i] == 0x20
    &&& obj[at - 1] == 0x5b
    &&& forall|i: int| at <= i < at + list.len() ==> #[trigger] obj[i] == list[i - at]
    &&& obj[at + list.len()] == 0x5d
    &&& obj[at + list.len() + 1] == 0x2c
    &&& forall|i: int| at + list.len() + 2 <= i < l ==> #[trigger] obj[i] == 0x20
    &&& obj.subrange(l, l + 7) == bytes::text("\"label\""@)
    &&& obj[l + 7] == 0x3a
    &&& forall|i: int| l + 8 <= i < q ==> #[trigger] obj[i] == 0x20
    &&& obj[q] == 0x22
    &&& forall|i: int| q < i <= q + label.len() ==> #[trigger] obj[i] == label[i - q - 1]
    &&& obj[q + label.len() + 1] == 0x22
    &&& obj[q + label.len() + 2] == 0x7d
}

proof fn lemma_shape(texts: Seq<Seq<u8>>, label: Seq<u8>, spaces: Seq<u8>)
    requires
        forall|i: int| 0 <= i < spaces.len() ==> #[trigger] spaces[i] == 0x20,
    ensures
        has_shape(record_text(texts, label, spaces), texts, label, spaces),
{
    reveal_strlit("{\"vector\":");
    reveal_strlit("\"vector\"");
    reveal_strlit("\"label\":");
    reveal_strlit("\"label\"");
    let obj = record_text(texts, label, spaces);
    let list = comma_list(texts, spaces);
    let at = list_place(spaces);
    let l = label_place(texts, spaces);
    let q = quote_place(texts, spaces);
    let n = spaces.len() as int;
    let a = bytes::text("{\"vector\":"@) + spaces + seq![0x5bu8];
    let b = a + list + seq![0x5du8, 0x2cu8] + spaces;
    let c = b + bytes::text("\"label\":"@) + spaces + seq![0x22u8];
    let d = c + label + seq![0x22u8, 0x7du8];
    assert(obj =~= d);
    assert(a.len() == at && b.len() == l && c.len() == q + 1);
    assert forall|i: int| 0 <= i < a.len() implies obj[i] == #[trigger] a[i] by {
        assert(b[i] == a[i]);
        assert(c[i] == b[i]);
    }
    assert forall|i: int| 0 <= i < b.len() implies obj[i] == #[trigger] b[i] by {
        assert(c[i] == b[i]);
    }
    assert forall|i: int| 0 <= i < c.len() implies obj[i] == #[trigger] c[i] by {}
    assert forall|i: int| 10 <= i < at - 1 implies #[trigger] obj[i] == 0x20 by {
        assert(a[i] == spaces[i - 10]);
    }
    assert(obj[0] == a[0] && obj[9] == a[9] && obj[at - 1] == a[at - 1]);
    assert(obj.subrange(1, 9) =~= bytes::text("\"vector\""@)) by {
        assert forall|i: int| 1 <= i < 9 implies #[trigger] obj[i] == bytes::text("\"vector\""@)[i
            - 1] by {
            assert(obj[i] == a[i]);
        }
    }
    assert forall|i: int| at <= i < at + list.len() implies #[trigger] obj[i] == list[i - at] by {
        assert(obj[i] == b[i]);
    }
    assert(obj[at + list.len()] == b[at + list.len()]);
    assert(obj[at + list.len() + 1] == b[at + list.len() + 1]);
    assert forall|i: int| at + list.len() + 2 <= i < l implies #[trigger] obj[i] == 0x20 by {
        assert(b[i] == spaces[i - (at + list.len() + 2)]);
    }
    assert(obj.subrange(l, l + 7) =~= bytes::text("\"label\""@)) by {
        assert forall|i: int| l <= i < l + 7 implies #[trigger] obj[i] == bytes::text(
            "\"label\""@,
        )[i - l] by {
            assert(obj[i] == c[i]);
            assert(c[i] == bytes::text("\"label\":"@)[i - l]);
        }
    }
    assert(obj[l + 7] == c[l + 7]);
    assert forall|i: int| l + 8 <= i < q implies #[trigger] obj[i] == 0x20 by {
        assert(c[i] == spaces[i - (l + 8)]);
    }
    assert(obj[q] == c[q]);
}

/// No quote and no brace stands in a list of numbers.
proof fn lemma_list_is_plain(texts: Seq<Seq<u8>>, spaces: Seq<u8>, i: int)
    requires
        forall|k: int, j: int|
            0 <= k < texts.len() && 0 <= j < texts[k].len() ==> parse::may_be_in_number(
                #[trigger] texts[k][j],
            ),
        forall|j: int| 0 <= j < spaces.len() ==> #[trigger] spaces[j] == 0x20,
        0 <= i < comma_list(texts, spaces).len(),
    ensures
        ({
            let b = comma_list(texts, spaces)[i];
            parse::may_be_in_number(b) || b == 0x2c || b == 0x20
        }),
    decreases texts.len(),
{
    if texts.len() == 1 {
        assert(comma_list(texts, spaces)[i] == texts[0][i]);
    } else if texts.len() > 1 {
        let skip = texts[0].len() + 1 + spaces.len();
        let list = comma_list(texts, spaces);
        let rest = texts.drop_first();
        if i < texts[0].len() {
            assert(list[i] == texts[0][i]);
        } else if i >= skip {
            assert forall|k: int, j: int|
                0 <= k < rest.len() && 0 <= j < rest[k].len() implies parse::may_be_in_number(
                #[trigger] rest[k][j],
            ) by {
                assert(rest[k][j] == texts[k + 1][j]);
            }
            lemma_list_is_plain(rest, spaces, i - skip);
            assert(list[i] == comma_list(rest, spaces)[i - skip]);
        } else if i > texts[0].len() {
            assert(list[i] == spaces[i - texts[0].len() - 1]);
        }
    }
}

/// A quote stands in a written record only where it was written, and a brace only at its ends.
#[verifier::rlimit(30)]
proof fn lemma_written_quotes(texts: Seq<Seq<u8>>, label: Seq<u8>, spaces: Seq<u8>)
    requires
        can_be_written(texts, label),
        forall|i: int| 0 <= i < spaces.len() ==> #[trigger] spaces[i] == 0x20,
    ensures
        ({
            let obj = record_text(texts, label, spaces);
            let l = label_place(texts, spaces);
            &&& forall|i: int|
                0 < i < obj.len() - 1 ==> #[trigger] obj[i] != 0x7b && obj[i] != 0x7d
            &&& forall|i: int| 0 <= i < l && #[trigger] obj[i] == 0x22 ==> i == 1 || i == 8
        }),
{
    lemma_shape(texts, label, spaces);
    let obj = record_text(texts, label, spaces);
    let list = comma_list(texts, spaces);
    let at = list_place(spaces);
    let l = label_place(texts, spaces);
    let q = quote_place(texts, spaces);
    assert forall|i: int| at <= i < at + list.len() implies #[trigger] obj[i] != 0x7b && obj[i]
        != 0x7d && obj[i] != 0x22 by {
        lemma_list_is_plain(texts, spaces, i - at);
    }
    assert forall|i: int| 1 <= i < 9 implies #[trigger] obj[i] != 0x7b && obj[i] != 0x7d && (obj[i]
        == 0x22 ==> i == 1 || i == 8) by {
        reveal_strlit("\"vector\"");
        assert(obj.subrange(1, 9)[i - 1] == obj[i]);
    }
    assert forall|i: int| l <= i < l + 7 implies #[trigger] obj[i] != 0x7b && obj[i] != 0x7d by {
        reveal_strlit("\"label\"");
        assert(obj.subrange(l, l + 7)[i - l] == obj[i]);
    }
    assert forall|i: int| 0 < i < obj.len() - 1 implies #[trigger] obj[i] != 0x7b && obj[i]
        != 0x7d by {
        if q < i <= q + label.len() {
            assert(obj[i] == label[i - q - 1]);
        }
    }
}

/// A written record has its vector.
proof fn lemma_written_vector(texts: Seq<Seq<u8>>, label: Seq<u8>, spaces: Seq<u8>)
    requires
        can_be_written(texts, label),
        forall|i: int| 0 <= i < spaces.len() ==> #[trigger] spaces[i] == 0x20,
    ensures
        vector_start(record_text(texts, label, spaces)) == Some(list_place(spaces)),
{
    lemma_shape(texts, label, spaces);
    reveal_strlit("\"vector\"");
    let obj = record_text(texts, label, spaces);
    let at = list_place(spaces);
    let key = bytes::text("\"vector\""@);
    if bytes::matches_at(obj, key, 0) {
        assert(obj.subrange(0, 8)[0] == obj[0]);
    }
    assert(bytes::is_first_match(obj, key, 0, 1));
    bytes::lemma_search_is(obj, key, 0, 1);
    bytes::lemma_skip_while_is(obj, 9, bytes::other_than(OPEN_BRACKET), at - 1);
}

/// A written record has its label.
proof fn lemma_written_label(texts: Seq<Seq<u8>>, label: Seq<u8>, spaces: Seq<u8>)
    requires
        can_be_written(texts, label),
        forall|i: int| 0 <= i < spaces.len() ==> #[trigger] spaces[i] == 0x20,
    ensures
        ({
            let obj = record_text(texts, label, spaces);
            &&& bytes::search(obj, bytes::text("\"label\""@), 0) is Some
            &&& label_quote(obj) < obj.len()
            &&& label_of(obj) == (if label == bytes::text("fraud"@) {
                1u8
            } else {
                0u8
            })
        }),
{
    lemma_shape(texts, label, spaces);
    lemma_written_quotes(texts, label, spaces);
    let obj = record_text(texts, label, spaces);
    let l = label_place(texts, spaces);
    let q = quote_place(texts, spaces);
    let e = q + label.len() + 1;
    let key = bytes::text("\"label\""@);
    assert(key.len() == 7 && key[0] == 0x22 && key[1] == 0x6c && key[6] == 0x22) by {
        reveal_strlit("\"label\"");
    }
    assert(obj[2] == 0x76) by {
        reveal_strlit("\"vector\"");
        assert(obj.subrange(1, 9)[1] == obj[2]);
    }
    assert forall|i: int| 0 <= i < l implies !#[trigger] bytes::matches_at(obj, key, i) by {
        if bytes::matches_at(obj, key, i) {
            let sub = obj.subrange(i, i + 7);
            assert(sub[0] == obj[i] && sub[1] == obj[i + 1]);
        }
    }
    assert(bytes::is_first_match(obj, key, 0, l));
    bytes::lemma_search_is(obj, key, 0, l);
    assert forall|i: int| q < i < e implies #[trigger] obj[i] != QUOTE by {
        assert(obj[i] == label[i - q - 1]);
    }
    law_labels_are_read_back(obj, l, q, e);
    assert(obj.subrange(q + 1, e) =~= label);
}

/// A written record is an object with its vector and its label, as they were written.
proof fn lemma_written_record(texts: Seq<Seq<u8>>, label: Seq<u8>, spaces: Seq<u8>)
    requires
        can_be_written(texts, label),
        forall|i: int| 0 <= i < spaces.len() ==> #[trigger] spaces[i] == 0x20,
    ensures
        ({
            let obj = record_text(texts, label, spaces);
            &&& obj.len() >= 2
            &&& obj[0] == 0x7b
            &&& obj[obj.len() - 1] == 0x7d
            &&& forall|i: int|
                0 < i < obj.len() - 1 ==> #[trigger] obj[i] != 0x7b && obj[i] != 0x7d
            &&& vector_start(obj) == Some(list_place(spaces))
            &&& is_record(obj)
            &&& label_quote(obj) < obj.len()
            &&& label_of(obj) == (if label == bytes::text("fraud"@) {
                1u8
            } else {
                0u8
            })
        }),
{
    lemma_shape(texts, label, spaces);
    lemma_written_quotes(texts, label, spaces);
    lemma_written_vector(texts, label, spaces);
    lemma_written_label(texts, label, spaces);
}

/// Where component `k` of a written record begins.
spec fn start_of(texts: Seq<Seq<u8>>, spaces: Seq<u8>, k: int) -> int {
    list_place(spaces) + place_in_list(texts, spaces, k)
}

/// Component `k` of a written record is its text.
#[verifier::rlimit(30)]
proof fn lemma_written_component(
    texts: Seq<Seq<u8>>,
    label: Seq<u8>,
    spaces: Seq<u8>,
    k: int,
)
    requires
        can_be_written(texts, label),
        forall|i: int| 0 <= i < spaces.len() ==> #[trigger] spaces[i] == 0x20,
        0 <= k < texts.len(),
    ensures
        ({
            let obj = record_text(texts, label, spaces);
            let start = start_of(texts, spaces, k);
            let end = start + texts[k].len();
            &&& list_place(spaces) <= start < end < obj.len()
            &&& !separator()(obj[start])
            &&& forall|i: int| start <= i < end ==> component()(#[trigger] obj[i])
            &&& !component()(obj[end])
            &&& obj.subrange(start, end) == texts[k]
            &&& k < texts.len() - 1 ==> {
                &&& start_of(texts, spaces, k + 1) == end + 1 + spaces.len()
                &&& forall|i: int|
                    end <= i < end + 1 + spaces.len() ==> separator()(#[trigger] obj[i])
            }
        }),
{
    lemma_shape(texts, label, spaces);
    lemma_comma_list(texts, spaces, k);
    let obj = record_text(texts, label, spaces);
    let list = comma_list(texts, spaces);
    let at = list_place(spaces);
    let start = start_of(texts, spaces, k);
    let end = start + texts[k].len();
    assert(texts[k].len() > 0);
    assert forall|i: int| start <= i < end implies #[trigger] obj[i] == texts[k][i - start]
        && parse::may_be_in_number(obj[i]) by {
        assert(obj[i] == list[i - at]);
        assert(parse::may_be_in_number(texts[k][i - start]));
    }
    assert(obj.subrange(start, end) =~= texts[k]);
    assert(parse::may_be_in_number(obj[start]));
    if k < texts.len() - 1 {
        assert forall|i: int| end <= i < end + 1 + spaces.len() implies separator()(
            #[trigger] obj[i],
        ) by {
            assert(obj[i] == list[i - at]);
            if i > end {
                assert(list[i - at] == spaces[i - end - 1]);
            }
        }
        assert(obj[end] == list[end - at]);
    }
}

/// The places at which the components of a written record begin and end.
spec fn starts_of(texts: Seq<Seq<u8>>, spaces: Seq<u8>) -> Seq<int> {
    Seq::new(texts.len(), |k: int| start_of(texts, spaces, k))
}

spec fn ends_of(texts: Seq<Seq<u8>>, spaces: Seq<u8>) -> Seq<int> {
    Seq::new(texts.len(), |k: int| start_of(texts, spaces, k) + texts[k].len())
}

/// The components of a written record stand where they were written.
proof fn lemma_written_components(texts: Seq<Seq<u8>>, label: Seq<u8>, spaces: Seq<u8>)
    requires
        can_be_written(texts, label),
        forall|i: int| 0 <= i < spaces.len() ==> #[trigger] spaces[i] == 0x20,
    ensures
        has_components(
            record_text(texts, label, spaces),
            list_place(spaces),
            starts_of(texts, spaces),
            ends_of(texts, spaces),
        ),
{
    let obj = record_text(texts, label, spaces);
    let at = list_place(spaces);
    let starts = starts_of(texts, spaces);
    let ends = ends_of(texts, spaces);
    assert forall|k: int| 0 <= k < starts.len() implies component_stands(
        obj,
        if k == 0 {
            at
        } else {
            ends[k - 1]
        },
        #[trigger] starts[k],
        ends[k],
    ) by {
        lemma_written_component(texts, label, spaces, k);
        if k > 0 {
            lemma_written_component(texts, label, spaces, k - 1);
        } else {
            assert(place_in_list(texts, spaces, 0) == 0);
        }
    }
}

/// A run without braces ends at the brace that closes it.
proof fn lemma_plain_object(s: Seq<u8>, i: int, close: int)
    requires
        0 <= i <= close < s.len(),
        s[close] == CLOSE_BRACE,
        forall|k: int| i <= k < close ==> #[trigger] s[k] != OPEN_BRACE && s[k] != CLOSE_BRACE,
    ensures
        closing_brace(s, i, 1) == Some(close),
    decreases close - i,
{
    if i < close {
        lemma_plain_object(s, i + 1, close);
    }
}

/// What a written record is read as.
pub open spec fn as_read(record: (Seq<Seq<u8>>, Seq<u8>)) -> (Seq<Seq<u8>>, u8) {
    (
        record.0,
        if record.1 == bytes::text("fraud"@) {
            1u8
        } else {
            0u8
        },
    )
}

/// A written record that comes next is found.
proof fn lemma_next_object(
    s: Seq<u8>,
    from: int,
    gap: Seq<u8>,
    record: (Seq<Seq<u8>>, Seq<u8>),
    spaces: Seq<u8>,
    rest: Seq<u8>,
)
    requires
        0 <= from <= s.len(),
        s.skip(from) == gap + record_text(record.0, record.1, spaces) + rest,
        can_be_written(record.0, record.1),
        forall|i: int| 0 <= i < spaces.len() ==> #[trigger] spaces[i] == 0x20,
        forall|i: int| 0 <= i < gap.len() ==> #[trigger] gap[i] != 0x7b,
    ensures
        ({
            let obj = record_text(record.0, record.1, spaces);
            let open = from + gap.len();
            let close = open + obj.len() - 1;
            &&& record_from(s, from) == Some((open, close))
            &&& s.subrange(open, close + 1) == obj
            &&& from <= close < s.len()
        }),
{
    let obj = record_text(record.0, record.1, spaces);
    let open = from + gap.len();
    let close = open + obj.len() - 1;
    let tail = s.skip(from);
    assert(tail.len() == s.len() - from);
    lemma_written_record(record.0, record.1, spaces);
    assert forall|i: int| 0 <= i < obj.len() implies s[open + i] == #[trigger] obj[i] by {
        assert(s[open + i] == tail[gap.len() + i]);
    }
    assert forall|i: int| from <= i < open implies #[trigger] s[i] != OPEN_BRACE by {
        assert(s[i] == tail[i - from]);
        assert(tail[i - from] == gap[i - from]);
    }
    assert(s[open + 0] == obj[0]);
    assert(s[open + (obj.len() - 1)] == obj[obj.len() - 1]);
    bytes::lemma_skip_while_is(s, from, bytes::other_than(OPEN_BRACE), open);
    assert forall|i: int| open < i < close implies #[trigger] s[i] != OPEN_BRACE && s[i]
        != CLOSE_BRACE by {
        assert(s[open + (i - open)] == obj[i - open]);
    }
    lemma_plain_object(s, open + 1, close);
    assert(closing_brace(s, open, 0) == Some(close));
    assert(s.subrange(open, close + 1) =~= obj);
}

/// The components of a written record that stands at `open` are read as its texts.
proof fn lemma_read_components(
    s: Seq<u8>,
    open: int,
    texts: Seq<Seq<u8>>,
    label: Seq<u8>,
    spaces: Seq<u8>,
    k: int,
)
    requires
        s.len() <= usize::MAX,
        0 <= open,
        open + record_text(texts, label, spaces).len() <= s.len(),
        s.subrange(open, open + record_text(texts, label, spaces).len()) == record_text(
            texts,
            label,
            spaces,
        ),
        can_be_written(texts, label),
        forall|i: int| 0 <= i < spaces.len() ==> #[trigger] spaces[i] == 0x20,
        0 <= k < D,
    ensures
        ({
            let span = component_span(
                record_text(texts, label, spaces),
                open,
                list_place(spaces),
                k,
            );
            s.subrange(span.start as int, span.end as int) == texts[k]
        }),
{
    let obj = record_text(texts, label, spaces);
    let starts = starts_of(texts, spaces);
    let ends = ends_of(texts, spaces);
    lemma_written_components(texts, label, spaces);
    lemma_written_component(texts, label, spaces, k);
    law_components_are_read_back(obj, open, list_place(spaces), starts, ends, k);
    assert(s.subrange(open + starts[k], open + ends[k]) =~= obj.subrange(starts[k], ends[k])) by {
        assert forall|i: int| starts[k] <= i < ends[k] implies s[open + i] == #[trigger] obj[i] by {
            assert(s.subrange(open, open + obj.len())[i] == obj[i]);
        }
    }
}

/// A written record that comes next is read, and reading goes on past it.
proof fn lemma_next_record(
    s: Seq<u8>,
    from: int,
    gap: Seq<u8>,
    record: (Seq<Seq<u8>>, Seq<u8>),
    spaces: Seq<u8>,
    rest: Seq<u8>,
)
    requires
        s.len() <= usize::MAX,
        0 <= from <= s.len(),
        s.skip(from) == gap + record_text(record.0, record.1, spaces) + rest,
        can_be_written(record.0, record.1),
        forall|i: int| 0 <= i < spaces.len() ==> #[trigger] spaces[i] == 0x20,
        forall|i: int| 0 <= i < gap.len() ==> #[trigger] gap[i] != 0x7b,
    ensures
        ({
            let next = from + gap.len() + record_text(record.0, record.1, spaces).len();
            read_from(s, from) == seq![as_read(record)] + read_from(s, next)
        }),
{
    let texts = record.0;
    let obj = record_text(texts, record.1, spaces);
    let open = from + gap.len();
    lemma_next_object(s, from, gap, record, spaces, rest);
    lemma_written_record(texts, record.1, spaces);
    let vector = Seq::new(
        D as nat,
        |k: int|
            {
                let span = component_span(obj, open, vector_start(obj)->0, k);
                s.subrange(span.start as int, span.end as int)
            },
    );
    assert(vector =~= texts) by {
        assert forall|k: int| 0 <= k < D implies vector[k] == #[trigger] texts[k] by {
            lemma_read_components(s, open, texts, record.1, spaces, k);
        }
    }
}

proof fn lemma_records_from(
    s: Seq<u8>,
    from: int,
    records: Seq<(Seq<Seq<u8>>, Seq<u8>)>,
    gap: Seq<u8>,
    spaces: Seq<u8>,
)
    requires
        s.len() <= usize::MAX,
        0 <= from <= s.len(),
        s.skip(from) == records_text(records, gap, spaces),
        forall|k: int| 0 <= k < records.len() ==> can_be_written(
            (#[trigger] records[k]).0,
            records[k].1,
        ),
        forall|i: int| 0 <= i < spaces.len() ==> #[trigger] spaces[i] == 0x20,
        forall|i: int| 0 <= i < gap.len() ==> #[trigger] gap[i] != 0x7b,
    ensures
        read_from(s, from) == records.map_values(|r: (Seq<Seq<u8>>, Seq<u8>)| as_read(r)),
    decreases records.len(),
{
    let f = |r: (Seq<Seq<u8>>, Seq<u8>)| as_read(r);
    if records.len() == 0 {
        assert forall|i: int| from <= i < s.len() implies #[trigger] s[i] != OPEN_BRACE by {
            assert(s[i] == s.skip(from)[i - from]);
        }
        bytes::lemma_skip_while_is(s, from, bytes::other_than(OPEN_BRACE), s.len() as int);
        assert(read_from(s, from) =~= records.map_values(f));
    } else {
        let first = records[0];
        let rest = records.drop_first();
        let text = record_text(first.0, first.1, spaces);
        let tail = records_text(rest, gap, spaces);
        let next = from + gap.len() + text.len();
        assert(s.skip(from).len() == s.len() - from);
        lemma_next_record(s, from, gap, first, spaces, tail);
        assert(s.skip(next) =~= tail) by {
            assert forall|i: int| next <= i < s.len() implies #[trigger] s[i] == tail[i - next] by {
                assert(s[i] == s.skip(from)[i - from]);
            }
        }
        assert forall|k: int| 0 <= k < rest.len() implies can_be_written(
            (#[trigger] rest[k]).0,
            rest[k].1,
        ) by {
            assert(rest[k] == records[k + 1]);
        }
        lemma_records_from(s, next, rest, gap, spaces);
        assert(records.map_values(f) =~= seq![as_read(first)] + rest.map_values(f));
    }
}

/// A file of written records is read back: reading it from the start gives exactly those records,
/// in order, each with the texts of its components and its label, and none besides.
pub proof fn law_written_records_are_read_back(
    records: Seq<(Seq<Seq<u8>>, Seq<u8>)>,
    gap: Seq<u8>,
    spaces: Seq<u8>,
)
    requires
        records_text(records, gap, spaces).len() <= usize::MAX,
        forall|k: int| 0 <= k < records.len() ==> can_be_written(
            (#[trigger] records[k]).0,
            records[k].1,
        ),
        forall|i: int| 0 <= i < spaces.len() ==> #[trigger] spaces[i] == 0x20,
        forall|i: int| 0 <= i < gap.len() ==> #[trigger] gap[i] != 0x7b,
    ensures
        read_from(records_text(records, gap, spaces), 0) == records.map_values(
            |r: (Seq<Seq<u8>>, Seq<u8>)| as_read(r),
        ),
{
    let s = records_text(records, gap, spaces);
    assert(s.skip(0) =~= s);
    lemma_records_from(s, 0, records, gap, spaces);
}


/// Only spaces and commas separate components, and only a comma or a closing bracket ends one.
pub proof fn law_separators_and_components(b: u8)
    ensures
        separator()(b) <==> b == 0x20 || b == 0x2c,
        component()(b) <==> b != 0x2c && b != 0x5d,
{
}


/// Components follow each other: each begins past the separators after the one before it, and ends
/// before the next comma or closing bracket, or with the object. Past the closing bracket there
/// are only empty ones.
pub proof fn law_components_follow_each_other(obj: Seq<u8>, start: int, k: nat)
    requires
        0 <= start <= obj.len() <= usize::MAX,
    ensures
        components_end(obj, start, 0) == start,
        ({
            let a = components_end(obj, start, k);
            let from = component_from(obj, start, k as int);
            let end = components_end(obj, start, k + 1);
            &&& start <= a <= end <= obj.len()
            &&& a <= from <= end
            &&& forall|i: int| a <= i < from ==> #[trigger] obj[i] == 0x20 || obj[i] == 0x2c
            &&& from < obj.len() ==> obj[from] != 0x20 && obj[from] != 0x2c
            &&& forall|i: int| from <= i < end ==> #[trigger] obj[i] != 0x2c && obj[i] != 0x5d
            &&& end < obj.len() ==> obj[end] == 0x2c || obj[end] == 0x5d
        }),
    decreases k,
{
    if k > 0 {
        law_components_follow_each_other(obj, start, (k - 1) as nat);
    }
    let a = components_end(obj, start, k);
    bytes::lemma_skip_while(obj, a, separator());
    let from = bytes::skip_while(obj, a, separator());
    bytes::lemma_skip_while(obj, from, component());
    let end = components_end(obj, start, k + 1);
    assert forall|i: int| a <= i < from implies #[trigger] obj[i] == 0x20 || obj[i] == 0x2c by {
        assert(separator()(obj[i]));
    }
    assert forall|i: int| from <= i < end implies #[trigger] obj[i] != 0x2c && obj[i] != 0x5d by {
        assert(component()(obj[i]));
    }
    assert(component_from(obj, start, k as int) == from);
}

/// Where the text of component `k` begins in its object.
pub open spec fn component_from(obj: Seq<u8>, start: int, k: int) -> int {
    component_span(obj, 0, start, k).start as int
}

/// What is known of a record that was read: each of its 14 components and its label.
pub proof fn law_a_record_has_all_its_components(s: Seq<u8>, object: (int, int), r: Record, k: int)
    requires
        record_is(s, object, r),
        0 <= k < 14,
    ensures
        ({
            let obj = s.subrange(object.0, object.1 + 1);
            &&& r.vector@.len() == 14
            &&& r.vector@[k] == component_span(obj, object.0, vector_start(obj)->0, k)
            &&& r.label == label_of(obj)
        }),
{
}

/// A component that stands at a place in its object stands that far from the object's own place.
pub proof fn law_components_move_with_their_object(obj: Seq<u8>, base: int, start: int, k: nat)
    requires
        0 <= base,
        0 <= start <= obj.len(),
        base + obj.len() <= usize::MAX,
    ensures
        component_span(obj, base, start, k as int).start == base + component_from(
            obj,
            start,
            k as int,
        ),
        component_span(obj, base, start, k as int).end == base + components_end(obj, start, k + 1),
{
    law_components_follow_each_other(obj, start, k);
    let a = components_end(obj, start, k);
    bytes::lemma_skip_while(obj, a, separator());
}

/// A label that is not closed is read to the end of its object, and a label that is no string is
/// none.
pub proof fn law_open_labels_are_read_to_the_end(obj: Seq<u8>, at: int)
    requires
        bytes::search(obj, bytes::text("\"label\""@), 0) == Some(at),
    ensures
        label_quote(obj) >= obj.len() <==> forall|i: int|
            at + 7 <= i < obj.len() ==> #[trigger] obj[i] != 0x22,
        forall|quote: int|
            at + 7 <= quote < obj.len() && #[trigger] obj[quote] == 0x22 && (forall|i: int|
                at + 7 <= i < obj.len() && #[trigger] obj[i] == 0x22 ==> i == quote) ==> label_quote(
                obj,
            ) == quote && (label_of(obj) == 1 <==> obj.skip(quote + 1) == bytes::text("fraud"@)),
        label_of(obj) <= 1,
{
    reveal_strlit("\"label\"");
    let key = bytes::text("\"label\""@);
    let i = choose|i: int| bytes::is_first_match(obj, key, 0, i);
    assert(bytes::is_first_match(obj, key, 0, i));
    let not_quote = bytes::other_than(QUOTE);
    bytes::lemma_skip_while(obj, at + 7, not_quote);
    let q = label_quote(obj);
    assert forall|i: int| at + 7 <= i < q implies #[trigger] obj[i] != 0x22 by {
        assert(not_quote(obj[i]));
    }
    assert forall|quote: int|
        at + 7 <= quote < obj.len() && #[trigger] obj[quote] == 0x22 && (forall|i: int|
            at + 7 <= i < obj.len() && #[trigger] obj[i] == 0x22 ==> i == quote) implies label_quote(
        obj,
    ) == quote && (label_of(obj) == 1 <==> obj.skip(quote + 1) == bytes::text("fraud"@)) by {
        assert(q < obj.len());
        assert(obj[q] == 0x22);
        bytes::lemma_skip_while_is(obj, quote + 1, not_quote, obj.len() as int);
        assert(obj.subrange(quote + 1, obj.len() as int) =~= obj.skip(quote + 1));
    }
}


/// Spans that are said to lie within a text can be cut out of it.
pub proof fn law_components_can_be_cut_out(vector: Seq<Span>, len: int)
    ensures
        components_within(vector, len) <==> forall|k: int|
            0 <= k < vector.len() ==> 0 <= (#[trigger] vector[k]).start <= vector[k].end && vector[k].end
                <= len,
{
}

} // verus!
