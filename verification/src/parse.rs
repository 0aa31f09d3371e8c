//! The payload of a scoring request: a linear scan that finds each field by its key.
//!
//! The shape of the payload is trusted and not checked beyond what the fields need. Where a field
//! is missing or cannot be read there is no query, and the caller approves the request.

use crate::bytes;
use crate::bytes::{
    ascii, find_after, find_key, has_at, same_bytes, skip_blanks, skip_digits, skip_until,
    CLOSE_BRACKET, COLON, NINE, OPEN_BRACKET, QUOTE, ZERO,
};
use crate::timestamp;
use crate::timestamp::{iso_to_epoch_secs, parse_hour_dow};
use crate::vector::{Feature, Query, Span, D};
use vstd::prelude::*;

verus! {

pub const DOT: u8 = 0x2e;

pub const PLUS: u8 = 0x2b;

pub const MINUS: u8 = 0x2d;

pub const LOWER_E: u8 = 0x65;

pub const UPPER_E: u8 = 0x45;

/// The bytes of a span.
pub open spec fn slice(buf: Seq<u8>, s: Span) -> Seq<u8> {
    buf.subrange(s.start as int, s.end as int)
}

/// The span of a byte string from `start` to `end`.
pub open spec fn span(start: int, end: int) -> Span {
    Span { start: start as usize, end: end as usize }
}

/// A span lies within a byte string.
pub open spec fn within(buf: Seq<u8>, s: Span) -> bool {
    s.start <= s.end <= buf.len()
}

/// The bytes of a span.
pub fn extract_str<'a>(body: &'a [u8], s: Span) -> (r: &'a [u8])
    requires
        within(body@, s),
    ensures
        r@ == slice(body@, s),
{
    &body[s.start..s.end]
}

/// Where the value of a key begins: past the next colon and the blanks after it.
pub open spec fn value_start(buf: Seq<u8>, from: int) -> int {
    bytes::skip_while(
        buf,
        bytes::skip_while(buf, from, bytes::other_than(COLON)) + 1,
        bytes::is_blank(),
    )
}

/// Where the value of a key begins: past the next colon and the blanks after it. Without a colon
/// this is past the end.
pub fn skip_to_value(buf: &[u8], from: usize) -> (r: Option<usize>)
    requires
        from < usize::MAX,
        buf@.len() < usize::MAX,
    ensures
        bytes::position(r) == Some(value_start(buf@, from as int)),
{
    let i: usize = skip_until(buf, from, COLON);
    Some(skip_blanks(buf, i + 1))
}

/// The position past an optional sign at `i`.
pub open spec fn after_sign(t: Seq<u8>, i: int) -> int {
    if 0 <= i < t.len() && (t[i] == MINUS || t[i] == PLUS) {
        i + 1
    } else {
        i
    }
}

/// An exponent stands from `i` to the end: the letter, an optional sign and digits.
pub open spec fn is_exponent(t: Seq<u8>, i: int) -> bool {
    let digits = after_sign(t, i + 1);
    &&& 0 <= i < t.len()
    &&& (t[i] == LOWER_E || t[i] == UPPER_E)
    &&& digits < bytes::skip_while(t, digits, bytes::digit())
    &&& bytes::skip_while(t, digits, bytes::digit()) == t.len()
}

/// A decimal number: an optional sign, digits with at most one point among or around them, at
/// least one digit, and an optional exponent.
pub open spec fn is_number(t: Seq<u8>) -> bool {
    let start = after_sign(t, 0);
    let point = bytes::skip_while(t, start, bytes::digit());
    let has_point = point < t.len() && t[point] == DOT;
    let end = if has_point {
        bytes::skip_while(t, point + 1, bytes::digit())
    } else {
        point
    };
    &&& point > start || (has_point && end > point + 1)
    &&& end == t.len() || is_exponent(t, end)
}

/// The bytes of which the text of a number is made.
pub open spec fn numeric() -> spec_fn(u8) -> bool {
    |b: u8|
        bytes::is_digit(b) || b == DOT || b == LOWER_E || b == UPPER_E || b == MINUS || b == PLUS
}

/// The number at `from`: the longest run of numeric bytes there, if it is a number.
pub open spec fn number_at(buf: Seq<u8>, from: int) -> Option<Span> {
    let end = bytes::skip_while(buf, after_sign(buf, from), numeric());
    if from <= buf.len() && is_number(buf.subrange(from, end)) {
        Some(span(from, end))
    } else {
        None
    }
}

/// A span lies within a byte string, and its text is a decimal number.
pub open spec fn is_number_span(buf: Seq<u8>, s: Span) -> bool {
    within(buf, s) && is_number(slice(buf, s))
}

/// Whether a text is a decimal number.
fn number_text(t: &[u8]) -> (r: bool)
    ensures
        r == is_number(t@),
{
    let n: usize = t.len();
    let start: usize = if n > 0 && (t[0] == MINUS || t[0] == PLUS) {
        1
    } else {
        0
    };
    let point: usize = skip_digits(t, start);
    let has_point: bool = point < n && t[point] == DOT;
    let end: usize = if has_point {
        skip_digits(t, point + 1)
    } else {
        point
    };
    if !(point > start || (has_point && end > point + 1)) {
        return false;
    }
    if end == n {
        return true;
    }
    if t[end] != LOWER_E && t[end] != UPPER_E {
        return false;
    }
    let digits: usize = if end + 1 < n && (t[end + 1] == MINUS || t[end + 1] == PLUS) {
        end + 2
    } else {
        end + 1
    };
    let stop: usize = skip_digits(t, digits);
    digits < stop && stop == n
}

/// The number at `from`.
pub fn parse_number(buf: &[u8], from: usize) -> (r: Option<Span>)
    ensures
        r == number_at(buf@, from as int),
        r matches Some(s) ==> is_number_span(buf@, s),
{
    if from > buf.len() {
        return None;
    }
    let start: usize = if from < buf.len() && (buf[from] == MINUS || buf[from] == PLUS) {
        from + 1
    } else {
        from
    };
    let mut i: usize = start;
    while i < buf.len() && ((ZERO <= buf[i] && buf[i] <= NINE) || buf[i] == DOT || buf[i] == LOWER_E
        || buf[i] == UPPER_E || buf[i] == MINUS || buf[i] == PLUS)
        invariant
            from <= start <= i <= buf@.len(),
            bytes::skip_while(buf@, i as int, numeric()) == bytes::skip_while(
                buf@,
                start as int,
                numeric(),
            ),
        decreases buf@.len() - i,
    {
        i += 1;
    }
    if number_text(&buf[from..i]) {
        Some(Span { start: from, end: i })
    } else {
        None
    }
}

/// The number that is the value of the first `key` at or after `from`.
pub open spec fn number_after(buf: Seq<u8>, key: Seq<u8>, from: int) -> Option<Span> {
    match bytes::after_key(buf, key, from) {
        Some(p) => number_at(buf, value_start(buf, p)),
        None => None,
    }
}

/// The number that is the value of the first `key` at or after `from`.
pub fn find_number_after(buf: &[u8], key: &[u8], from: usize) -> (r: Option<Span>)
    requires
        buf@.len() < usize::MAX,
    ensures
        r == number_after(buf@, key@, from as int),
        r matches Some(s) ==> is_number_span(buf@, s),
{
    let after: usize = match find_after(buf, key, from) {
        Some(p) => p,
        None => {
            return None;
        },
    };
    match skip_to_value(buf, after) {
        Some(i) => parse_number(buf, i),
        None => None,
    }
}

/// The number that is the value of the first `key`.
pub fn find_number(buf: &[u8], key: &[u8]) -> (r: Option<Span>)
    requires
        buf@.len() < usize::MAX,
    ensures
        r == number_after(buf@, key@, 0),
        r matches Some(s) ==> is_number_span(buf@, s),
{
    find_number_after(buf, key, 0)
}

/// The inside of the quoted string at `i`, up to the next quote.
pub open spec fn string_at(buf: Seq<u8>, i: int) -> Option<Span> {
    let end = bytes::skip_while(buf, i + 1, bytes::other_than(QUOTE));
    if 0 <= i < buf.len() && buf[i] == QUOTE && end < buf.len() {
        Some(span(i + 1, end))
    } else {
        None
    }
}

/// The inside of the quoted string that is the value of the first `key` at or after `from`.
pub open spec fn string_after(buf: Seq<u8>, key: Seq<u8>, from: int) -> Option<Span> {
    match bytes::after_key(buf, key, from) {
        Some(p) => string_at(buf, value_start(buf, p)),
        None => None,
    }
}

/// The inside of the quoted string that is the value of the first `key` at or after `from`.
pub fn find_string_after(buf: &[u8], key: &[u8], from: usize) -> (r: Option<Span>)
    requires
        buf@.len() < usize::MAX,
    ensures
        r == string_after(buf@, key@, from as int),
        r matches Some(s) ==> within(buf@, s),
{
    let after: usize = match find_after(buf, key, from) {
        Some(p) => p,
        None => {
            return None;
        },
    };
    let i: usize = match skip_to_value(buf, after) {
        Some(i) => i,
        None => {
            return None;
        },
    };
    if i >= buf.len() || buf[i] != QUOTE {
        return None;
    }
    let end: usize = skip_until(buf, i + 1, QUOTE);
    if end >= buf.len() {
        return None;
    }
    Some(Span { start: i + 1, end })
}

/// The literal `true` or `false` that is the value of the first `key` at or after `from`.
pub open spec fn bool_after(buf: Seq<u8>, key: Seq<u8>, from: int) -> Option<bool> {
    match bytes::after_key(buf, key, from) {
        Some(p) => {
            if bytes::matches_at(buf, bytes::text("true"@), value_start(buf, p)) {
                Some(true)
            } else if bytes::matches_at(buf, bytes::text("false"@), value_start(buf, p)) {
                Some(false)
            } else {
                None
            }
        },
        None => None,
    }
}

/// The literal `true` or `false` that is the value of the first `key` at or after `from`.
pub fn find_bool_after(buf: &[u8], key: &[u8], from: usize) -> (r: Option<bool>)
    requires
        buf@.len() < usize::MAX,
    ensures
        r == bool_after(buf@, key@, from as int),
{
    proof {
        reveal_strlit("true");
        reveal_strlit("false");
    }
    let after: usize = match find_after(buf, key, from) {
        Some(p) => p,
        None => {
            return None;
        },
    };
    let i: usize = match skip_to_value(buf, after) {
        Some(i) => i,
        None => {
            return None;
        },
    };
    if has_at(buf, ascii("true"), i) {
        Some(true)
    } else if has_at(buf, ascii("false"), i) {
        Some(false)
    } else {
        None
    }
}

/// The position of the bracket that closes the last of the open ones, of which there are `depth`
/// before `i`.
pub open spec fn closing_bracket(s: Seq<u8>, i: int, depth: int) -> Option<int>
    decreases s.len() - i,
{
    if i < 0 || i >= s.len() {
        None
    } else if s[i] == OPEN_BRACKET {
        closing_bracket(s, i + 1, depth + 1)
    } else if s[i] == CLOSE_BRACKET && depth == 1 {
        Some(i)
    } else if s[i] == CLOSE_BRACKET {
        closing_bracket(s, i + 1, depth - 1)
    } else {
        closing_bracket(s, i + 1, depth)
    }
}

/// The inside of the array at `i`, up to the bracket that closes it. An array that is never closed
/// is none.
pub open spec fn array_at(buf: Seq<u8>, i: int) -> Option<Seq<u8>> {
    if 0 <= i < buf.len() && buf[i] == OPEN_BRACKET {
        match closing_bracket(buf, i + 1, 1) {
            Some(close) => Some(buf.subrange(i + 1, close)),
            None => None,
        }
    } else {
        None
    }
}

/// The inside of the array that is the value of the first `key` at or after `from`.
pub open spec fn array_after(buf: Seq<u8>, key: Seq<u8>, from: int) -> Option<Seq<u8>> {
    match bytes::after_key(buf, key, from) {
        Some(p) => array_at(buf, value_start(buf, p)),
        None => None,
    }
}

/// The inside of the array that is the value of the first `key` at or after `from`.
pub fn find_array_after<'a>(buf: &'a [u8], key: &[u8], from: usize) -> (r: Option<&'a [u8]>)
    requires
        buf@.len() < usize::MAX,
    ensures
        match r {
            Some(inside) => array_after(buf@, key@, from as int) == Some(inside@),
            None => array_after(buf@, key@, from as int) is None,
        },
{
    let after: usize = match find_after(buf, key, from) {
        Some(p) => p,
        None => {
            return None;
        },
    };
    let i: usize = match skip_to_value(buf, after) {
        Some(i) => i,
        None => {
            return None;
        },
    };
    if i >= buf.len() || buf[i] != OPEN_BRACKET {
        return None;
    }
    let mut depth: usize = 1;
    let mut j: usize = i + 1;
    while j < buf.len()
        invariant
            i + 1 <= j <= buf@.len(),
            buf@.len() < usize::MAX,
            1 <= depth <= j - i,
            closing_bracket(buf@, j as int, depth as int) == closing_bracket(buf@, i + 1, 1),
            array_after(buf@, key@, from as int) == array_at(buf@, i as int),
            buf@[i as int] == OPEN_BRACKET,
        decreases buf@.len() - j,
    {
        if buf[j] == OPEN_BRACKET {
            depth += 1;
        } else if buf[j] == CLOSE_BRACKET {
            if depth == 1 {
                return Some(&buf[i + 1..j]);
            }
            depth -= 1;
        }
        j += 1;
    }
    None
}

/// The strings between quotes, read from `from` on. The last one may lack its closing quote.
pub open spec fn quoted_strings(s: Seq<u8>, from: int) -> Seq<Seq<u8>>
    decreases s.len() + 1 - from,
    when 0 <= from
{
    proof {
        bytes::lemma_skip_while(s, from, bytes::other_than(QUOTE));
    }
    let open = bytes::skip_while(s, from, bytes::other_than(QUOTE));
    if open < s.len() {
        proof {
            bytes::lemma_skip_while(s, open + 1, bytes::other_than(QUOTE));
        }
        let close = bytes::skip_while(s, open + 1, bytes::other_than(QUOTE));
        seq![s.subrange(open + 1, close)] + quoted_strings(s, close + 1)
    } else {
        Seq::empty()
    }
}

/// Whether `needle` is one of the quoted strings in the inside of an array.
pub fn array_contains(arr: &[u8], needle: &[u8]) -> (r: bool)
    ensures
        r == quoted_strings(arr@, 0).contains(needle@),
{
    let mut i: usize = 0;
    let ghost mut passed: Seq<Seq<u8>> = Seq::empty();
    assert(quoted_strings(arr@, 0) =~= passed + quoted_strings(arr@, 0));
    while i < arr.len()
        invariant
            quoted_strings(arr@, 0) == passed + quoted_strings(arr@, i as int),
            !passed.contains(needle@),
        decreases arr@.len() - i,
    {
        let open: usize = skip_until(arr, i, QUOTE);
        if open >= arr.len() {
            assert(quoted_strings(arr@, 0) =~= passed);
            return false;
        }
        let close: usize = skip_until(arr, open + 1, QUOTE);
        let ghost found = arr@.subrange(open + 1, close as int);
        let ghost rest = quoted_strings(arr@, close + 1);
        assert(quoted_strings(arr@, i as int) =~= seq![found] + rest);
        assert(quoted_strings(arr@, 0) =~= passed.push(found) + rest);
        if same_bytes(&arr[open + 1..close], needle) {
            assert(quoted_strings(arr@, 0)[passed.len() as int] == needle@);
            return true;
        }
        assert(!passed.push(found).contains(needle@)) by {
            assert forall|k: int| 0 <= k < passed.push(found).len() implies passed.push(found)[k]
                != needle@ by {
                if k < passed.len() {
                    assert(passed.contains(passed[k]));
                }
            }
        }
        proof {
            passed = passed.push(found);
        }
        if close >= arr.len() {
            assert(quoted_strings(arr@, 0) =~= passed);
            return false;
        }
        i = close + 1;
    }
    assert(quoted_strings(arr@, 0) =~= passed);
    false
}

/// The risk of a merchant category, in hundredths.
pub open spec fn risk_of(mcc: Seq<u8>) -> u32 {
    if mcc == bytes::text("5411"@) {
        15
    } else if mcc == bytes::text("5812"@) {
        30
    } else if mcc == bytes::text("5912"@) {
        20
    } else if mcc == bytes::text("5944"@) {
        45
    } else if mcc == bytes::text("7801"@) {
        80
    } else if mcc == bytes::text("7802"@) {
        75
    } else if mcc == bytes::text("7995"@) {
        85
    } else if mcc == bytes::text("4511"@) {
        35
    } else if mcc == bytes::text("5311"@) {
        25
    } else {
        50
    }
}

/// The risk of a merchant category, in hundredths.
pub fn mcc_lookup(mcc: &[u8]) -> (r: u32)
    ensures
        r == risk_of(mcc@),
{
    proof {
        reveal_strlit("5411");
        reveal_strlit("5812");
        reveal_strlit("5912");
        reveal_strlit("5944");
        reveal_strlit("7801");
        reveal_strlit("7802");
        reveal_strlit("7995");
        reveal_strlit("4511");
        reveal_strlit("5311");
    }
    if same_bytes(mcc, ascii("5411")) {
        15
    } else if same_bytes(mcc, ascii("5812")) {
        30
    } else if same_bytes(mcc, ascii("5912")) {
        20
    } else if same_bytes(mcc, ascii("5944")) {
        45
    } else if same_bytes(mcc, ascii("7801")) {
        80
    } else if same_bytes(mcc, ascii("7802")) {
        75
    } else if same_bytes(mcc, ascii("7995")) {
        85
    } else if same_bytes(mcc, ascii("4511")) {
        35
    } else if same_bytes(mcc, ascii("5311")) {
        25
    } else {
        50
    }
}

/// What a payload says of the transaction before the current one: the seconds since then, the
/// distance to it, and whether there is one at all.
pub open spec fn last_transaction(body: Seq<u8>, from: int, req_at: Span) -> (
    int,
    Option<Span>,
    bool,
) {
    match bytes::after_key(body, bytes::text("\"last_transaction\""@), from) {
        None => (0, None, false),
        Some(p) => {
            let i = value_start(body, p);
            if bytes::matches_at(body, bytes::text("null"@), i) {
                (0, None, false)
            } else {
                let km = number_after(body, bytes::text("\"km_from_current\""@), i);
                match string_after(body, bytes::text("\"timestamp\""@), i) {
                    None => (0, km, true),
                    Some(last) => {
                        let elapsed = timestamp::epoch_secs(slice(body, req_at))
                            - timestamp::epoch_secs(slice(body, last));
                        (
                            if elapsed > 0 {
                                elapsed
                            } else {
                                0
                            },
                            km,
                            true,
                        )
                    },
                }
            }
        },
    }
}

/// What a payload says of the transaction before the current one: the seconds since then, the
/// distance to it, and whether there is one at all.
pub fn parse_last_transaction(body: &[u8], from: usize, req_at: &Span) -> (r: (
    i64,
    Option<Span>,
    bool,
))
    requires
        body@.len() < usize::MAX,
        within(body@, *req_at),
    ensures
        r.0 == last_transaction(body@, from as int, *req_at).0,
        r.1 == last_transaction(body@, from as int, *req_at).1,
        r.2 == last_transaction(body@, from as int, *req_at).2,
        r.1 matches Some(km) ==> is_number_span(body@, km),
{
    proof {
        reveal_strlit("\"last_transaction\"");
        reveal_strlit("null");
        reveal_strlit("\"km_from_current\"");
        reveal_strlit("\"timestamp\"");
    }
    let after: usize = match find_after(body, ascii("\"last_transaction\""), from) {
        Some(p) => p,
        None => {
            return (0, None, false);
        },
    };
    let i: usize = match skip_to_value(body, after) {
        Some(i) => i,
        None => {
            return (0, None, false);
        },
    };
    if has_at(body, ascii("null"), i) {
        return (0, None, false);
    }
    let km = find_number_after(body, ascii("\"km_from_current\""), i);
    let last = match find_string_after(body, ascii("\"timestamp\""), i) {
        Some(s) => s,
        None => {
            return (0, km, true);
        },
    };
    let req_secs: i64 = iso_to_epoch_secs(extract_str(body, *req_at));
    let last_secs: i64 = iso_to_epoch_secs(extract_str(body, last));
    let elapsed: i64 = req_secs - last_secs;
    if elapsed > 0 {
        (elapsed, km, true)
    } else {
        (0, km, true)
    }
}

pub const MAX_AMOUNT: u32 = 10000;

pub const MAX_INSTALLMENTS: u32 = 12;

pub const AMOUNT_VS_AVG_RATIO: u32 = 10;

pub const MAX_MINUTES: u32 = 1440;

pub const MAX_KM: u32 = 1000;

pub const MAX_TX_COUNT_24H: u32 = 20;

pub const MAX_MERCHANT_AVG_AMOUNT: u32 = 10000;

/// Where a section of the payload begins: at its key, or at the start without one.
pub open spec fn section(body: Seq<u8>, key: Seq<u8>) -> int {
    match bytes::search(body, key, 0) {
        Some(i) => i,
        None => 0,
    }
}

/// Where the section on the last transaction begins: at its key, or at the end without one.
pub open spec fn last_section(body: Seq<u8>) -> int {
    match bytes::search(body, bytes::text("\"last_transaction\""@), 0) {
        Some(i) => i,
        None => body.len() as int,
    }
}

/// A flag as a component of a vector.
pub open spec fn flag(b: bool) -> Feature {
    Feature::Fraction {
        part: if b {
            1
        } else {
            0
        },
        whole: 1,
    }
}

/// A number as a component of a vector.
pub open spec fn scaled(number: Span, limit: u32) -> Feature {
    Feature::Scaled { number, limit }
}

/// The fields of a payload that a query needs.
pub struct Fields {
    pub amount: Span,
    pub installments: Span,
    pub requested_at: Span,
    pub avg_amount: Span,
    pub tx_count_24h: Span,
    pub merchant_id: Span,
    pub mcc: Span,
    pub merchant_avg_amount: Span,
    pub km_from_home: Span,
    pub is_online: bool,
    pub card_present: bool,
    pub unknown_merchant: bool,
}

/// The fields of a payload: each is the first of its key in its section. There are none when one
/// is missing or cannot be read.
pub open spec fn fields_of(body: Seq<u8>) -> Option<Fields> {
    let tx = section(body, bytes::text("\"transaction\""@));
    let cu = section(body, bytes::text("\"customer\""@));
    let me = section(body, bytes::text("\"merchant\""@));
    let te = section(body, bytes::text("\"terminal\""@));
    let any_amount = number_after(body, bytes::text("\"amount\""@), 0);
    let amount = number_after(body, bytes::text("\"amount\""@), tx);
    let installments = number_after(body, bytes::text("\"installments\""@), tx);
    let requested_at = string_after(body, bytes::text("\"requested_at\""@), tx);
    let avg_amount = number_after(body, bytes::text("\"avg_amount\""@), cu);
    let tx_count_24h = number_after(body, bytes::text("\"tx_count_24h\""@), cu);
    let known_merchants = array_after(body, bytes::text("\"known_merchants\""@), cu);
    let merchant_id = string_after(body, bytes::text("\"id\""@), me);
    let mcc = string_after(body, bytes::text("\"mcc\""@), me);
    let merchant_avg_amount = number_after(body, bytes::text("\"avg_amount\""@), me);
    let km_from_home = number_after(body, bytes::text("\"km_from_home\""@), te);
    let is_online = bool_after(body, bytes::text("\"is_online\""@), te);
    let card_present = bool_after(body, bytes::text("\"card_present\""@), te);
    if any_amount is Some && amount is Some && installments is Some && requested_at is Some
        && avg_amount is Some && tx_count_24h is Some && known_merchants is Some && merchant_id is Some
        && mcc is Some && merchant_avg_amount is Some && km_from_home is Some && is_online is Some
        && card_present is Some && timestamp::hour_is_readable(slice(body, requested_at->0)) {
        Some(
            Fields {
                amount: amount->0,
                installments: installments->0,
                requested_at: requested_at->0,
                avg_amount: avg_amount->0,
                tx_count_24h: tx_count_24h->0,
                merchant_id: merchant_id->0,
                mcc: mcc->0,
                merchant_avg_amount: merchant_avg_amount->0,
                km_from_home: km_from_home->0,
                is_online: is_online->0,
                card_present: card_present->0,
                unknown_merchant: !quoted_strings(known_merchants->0, 0).contains(
                    slice(body, merchant_id->0),
                ),
            },
        )
    } else {
        None
    }
}

/// The components of the query vector for the fields of a payload.
pub open spec fn features_of(body: Seq<u8>, f: Fields) -> Seq<Feature> {
    let (hour, dow) = timestamp::hour_dow(slice(body, f.requested_at));
    let (elapsed, km, has_history) = last_transaction(body, last_section(body), f.requested_at);
    seq![
        scaled(f.amount, MAX_AMOUNT),
        scaled(f.installments, MAX_INSTALLMENTS),
        Feature::Ratio { number: f.amount, base: f.avg_amount, limit: AMOUNT_VS_AVG_RATIO },
        Feature::Fraction { part: hour as u32, whole: 23 },
        Feature::Fraction { part: dow as u32, whole: 6 },
        if has_history {
            Feature::Elapsed { seconds: elapsed as i64, limit: MAX_MINUTES }
        } else {
            Feature::Missing
        },
        if has_history {
            match km {
                Some(number) => scaled(number, MAX_KM),
                None => Feature::Fraction { part: 0, whole: 1 },
            }
        } else {
            Feature::Missing
        },
        scaled(f.km_from_home, MAX_KM),
        scaled(f.tx_count_24h, MAX_TX_COUNT_24H),
        flag(f.is_online),
        flag(f.card_present),
        flag(f.unknown_merchant),
        Feature::Fraction { part: risk_of(slice(body, f.mcc)), whole: 100 },
        scaled(f.merchant_avg_amount, MAX_MERCHANT_AVG_AMOUNT),
    ]
}

/// The customer has no earlier transaction.
pub open spec fn has_no_history(body: Seq<u8>, f: Fields) -> bool {
    !last_transaction(body, last_section(body), f.requested_at).2
}

/// The numbers of a component stand within the payload, and their texts are decimal numbers.
pub open spec fn is_readable(body: Seq<u8>, feature: Feature) -> bool {
    match feature {
        Feature::Scaled { number, .. } => is_number_span(body, number),
        Feature::Ratio { number, base, .. } => is_number_span(body, number) && is_number_span(
            body,
            base,
        ),
        _ => true,
    }
}

/// Every number of a query can be read.
pub open spec fn numbers_are_readable(body: Seq<u8>, v: Seq<Feature>) -> bool {
    forall|k: int| 0 <= k < v.len() ==> is_readable(body, #[trigger] v[k])
}

/// The number fields of a payload can be read, and its text fields stand within it.
spec fn fields_are_readable(body: Seq<u8>, f: Fields) -> bool {
    &&& is_number_span(body, f.amount)
    &&& is_number_span(body, f.installments)
    &&& is_number_span(body, f.avg_amount)
    &&& is_number_span(body, f.tx_count_24h)
    &&& is_number_span(body, f.merchant_avg_amount)
    &&& is_number_span(body, f.km_from_home)
    &&& within(body, f.requested_at)
    &&& within(body, f.mcc)
    &&& timestamp::hour_is_readable(slice(body, f.requested_at))
}

/// A query made of readable fields is itself readable and well formed.
proof fn lemma_features_are_readable(body: Seq<u8>, f: Fields)
    requires
        fields_are_readable(body, f),
        last_transaction(body, last_section(body), f.requested_at).1 matches Some(km)
            ==> is_number_span(body, km),
    ensures
        features_of(body, f).len() == D,
        numbers_are_readable(body, features_of(body, f)),
        forall|k: int|
            0 <= k < D ==> (#[trigger] features_of(body, f)[k] is Missing <==> has_no_history(
                body,
                f,
            ) && (k == 5 || k == 6)),
{
    let v = features_of(body, f);
    assert(is_readable(body, v[0]) && is_readable(body, v[1]) && is_readable(body, v[2]));
    assert(is_readable(body, v[6]) && is_readable(body, v[7]) && is_readable(body, v[8]));
    assert(is_readable(body, v[13]));
}

/// The position of a section's key, or 0 without one.
fn find_section(body: &[u8], key: &[u8]) -> (r: usize)
    ensures
        r == section(body@, key@),
{
    match find_key(body, key) {
        Some(i) => i,
        None => 0,
    }
}

/// Finds the fields of a payload.
#[verifier::rlimit(40)]
fn find_fields(body: &[u8]) -> (r: Option<Fields>)
    requires
        body@.len() < usize::MAX,
    ensures
        r == fields_of(body@),
        r matches Some(f) ==> fields_are_readable(body@, f),
{
    proof {
        reveal_strlit("\"transaction\"");
        reveal_strlit("\"customer\"");
        reveal_strlit("\"merchant\"");
        reveal_strlit("\"terminal\"");
        reveal_strlit("\"amount\"");
        reveal_strlit("\"installments\"");
        reveal_strlit("\"requested_at\"");
        reveal_strlit("\"avg_amount\"");
        reveal_strlit("\"tx_count_24h\"");
        reveal_strlit("\"known_merchants\"");
        reveal_strlit("\"id\"");
        reveal_strlit("\"mcc\"");
        reveal_strlit("\"km_from_home\"");
        reveal_strlit("\"is_online\"");
        reveal_strlit("\"card_present\"");
    }
    let _ = find_number(body, ascii("\"amount\""))?;
    let tx: usize = find_section(body, ascii("\"transaction\""));
    let cu: usize = find_section(body, ascii("\"customer\""));
    let me: usize = find_section(body, ascii("\"merchant\""));
    let te: usize = find_section(body, ascii("\"terminal\""));
    let amount = find_number_after(body, ascii("\"amount\""), tx)?;
    let installments = find_number_after(body, ascii("\"installments\""), tx)?;
    let requested_at = find_string_after(body, ascii("\"requested_at\""), tx)?;
    let avg_amount = find_number_after(body, ascii("\"avg_amount\""), cu)?;
    let tx_count_24h = find_number_after(body, ascii("\"tx_count_24h\""), cu)?;
    let merchant_id = find_string_after(body, ascii("\"id\""), me)?;
    let mcc = find_string_after(body, ascii("\"mcc\""), me)?;
    let merchant_avg_amount = find_number_after(body, ascii("\"avg_amount\""), me)?;
    let km_from_home = find_number_after(body, ascii("\"km_from_home\""), te)?;
    let is_online = find_bool_after(body, ascii("\"is_online\""), te)?;
    let card_present = find_bool_after(body, ascii("\"card_present\""), te)?;
    let known_merchants = find_array_after(body, ascii("\"known_merchants\""), cu)?;
    let unknown_merchant = !array_contains(known_merchants, extract_str(body, merchant_id));
    let at = extract_str(body, requested_at);
    if at.len() >= 19 && (at[11] < ZERO || at[12] < ZERO) {
        return None;
    }
    Some(
        Fields {
            amount,
            installments,
            requested_at,
            avg_amount,
            tx_count_24h,
            merchant_id,
            mcc,
            merchant_avg_amount,
            km_from_home,
            is_online,
            card_present,
            unknown_merchant,
        },
    )
}

/// A flag as a component of a vector.
fn flag_feature(b: bool) -> (r: Feature)
    ensures
        r == flag(b),
{
    if b {
        Feature::Fraction { part: 1, whole: 1 }
    } else {
        Feature::Fraction { part: 0, whole: 1 }
    }
}

/// The two components on the transaction before the current one.
fn history_features(elapsed: i64, km: Option<Span>, has_history: bool) -> (r: (Feature, Feature))
    ensures
        r.0 == (if has_history {
            Feature::Elapsed { seconds: elapsed, limit: MAX_MINUTES }
        } else {
            Feature::Missing
        }),
        r.1 == (if has_history {
            match km {
                Some(number) => scaled(number, MAX_KM),
                None => Feature::Fraction { part: 0, whole: 1 },
            }
        } else {
            Feature::Missing
        }),
{
    if !has_history {
        return (Feature::Missing, Feature::Missing);
    }
    let distance = match km {
        Some(number) => Feature::Scaled { number, limit: MAX_KM },
        None => Feature::Fraction { part: 0, whole: 1 },
    };
    (Feature::Elapsed { seconds: elapsed, limit: MAX_MINUTES }, distance)
}

/// Builds the query vector for the fields of a payload.
fn build_query(body: &[u8], f: &Fields) -> (q: Query)
    requires
        body@.len() < usize::MAX,
        fields_are_readable(body@, *f),
    ensures
        q.v@ == features_of(body@, *f),
        q.no_history == has_no_history(body@, *f),
        q.wf(),
        numbers_are_readable(body@, q.v@),
{
    proof {
        reveal_strlit("\"last_transaction\"");
    }
    let p_lt: usize = match find_key(body, ascii("\"last_transaction\"")) {
        Some(i) => i,
        None => body.len(),
    };
    let (elapsed, km, has_history) = parse_last_transaction(body, p_lt, &f.requested_at);
    let risk: u32 = mcc_lookup(extract_str(body, f.mcc));
    let (hour, dow) = parse_hour_dow(extract_str(body, f.requested_at));
    let (since, distance) = history_features(elapsed, km, has_history);
    let v: [Feature; D] = [
        Feature::Scaled { number: f.amount, limit: MAX_AMOUNT },
        Feature::Scaled { number: f.installments, limit: MAX_INSTALLMENTS },
        Feature::Ratio { number: f.amount, base: f.avg_amount, limit: AMOUNT_VS_AVG_RATIO },
        Feature::Fraction { part: hour, whole: 23 },
        Feature::Fraction { part: dow, whole: 6 },
        since,
        distance,
        Feature::Scaled { number: f.km_from_home, limit: MAX_KM },
        Feature::Scaled { number: f.tx_count_24h, limit: MAX_TX_COUNT_24H },
        flag_feature(f.is_online),
        flag_feature(f.card_present),
        flag_feature(f.unknown_merchant),
        Feature::Fraction { part: risk, whole: 100 },
        Feature::Scaled { number: f.merchant_avg_amount, limit: MAX_MERCHANT_AVG_AMOUNT },
    ];
    assert(v@ =~= features_of(body@, *f));
    proof {
        lemma_features_are_readable(body@, *f);
    }
    Query { v, no_history: !has_history }
}

/// Reads a payload and gives its query vector; `None` when the payload is malformed.
pub fn parse_payload(body: &[u8]) -> (r: Option<Query>)
    requires
        body@.len() < usize::MAX,
    ensures
        r is Some == fields_of(body@) is Some,
        r matches Some(q) ==> {
            &&& q.v@ == features_of(body@, fields_of(body@)->0)
            &&& q.no_history == has_no_history(body@, fields_of(body@)->0)
            &&& q.wf()
            &&& numbers_are_readable(body@, q.v@)
        },
{
    let f = find_fields(body)?;
    Some(build_query(body, &f))
}

/// What `skip_while` does depends on what follows only.
proof fn lemma_skip_while_shift(pre: Seq<u8>, s: Seq<u8>, from: int, p: spec_fn(u8) -> bool)
    requires
        0 <= from,
    ensures
        bytes::skip_while(pre + s, pre.len() + from, p) == pre.len() + bytes::skip_while(
            s,
            from,
            p,
        ),
    decreases s.len() - from,
{
    if from < s.len() && p(s[from]) {
        lemma_skip_while_shift(pre, s, from + 1, p);
    }
}

/// The quoted strings from a position on are those of the bytes from there on.
proof fn lemma_quoted_strings_shift(pre: Seq<u8>, s: Seq<u8>, from: int)
    requires
        0 <= from,
    ensures
        quoted_strings(pre + s, pre.len() + from) == quoted_strings(s, from),
    decreases s.len() + 1 - from,
{
    let not_quote = bytes::other_than(QUOTE);
    lemma_skip_while_shift(pre, s, from, not_quote);
    bytes::lemma_skip_while(s, from, not_quote);
    let open = bytes::skip_while(s, from, not_quote);
    if open < s.len() {
        lemma_skip_while_shift(pre, s, open + 1, not_quote);
        bytes::lemma_skip_while(s, open + 1, not_quote);
        let close = bytes::skip_while(s, open + 1, not_quote);
        lemma_quoted_strings_shift(pre, s, close + 1);
        assert((pre + s).subrange(pre.len() + open + 1, pre.len() + close) =~= s.subrange(
            open + 1,
            close,
        ));
    }
}

/// The inside of a JSON array of strings: each in quotes, with `gap` between them.
pub open spec fn listed(items: Seq<Seq<u8>>, gap: Seq<u8>) -> Seq<u8>
    decreases items.len(),
{
    if items.len() == 0 {
        Seq::empty()
    } else {
        seq![QUOTE] + items[0] + seq![QUOTE] + (if items.len() > 1 {
            gap
        } else {
            Seq::empty()
        }) + listed(items.drop_first(), gap)
    }
}

/// The quoted strings in an array of strings are its items, so a lookup finds exactly those.
pub proof fn law_array_items_are_found(items: Seq<Seq<u8>>, gap: Seq<u8>)
    requires
        !gap.contains(QUOTE),
        forall|k: int| 0 <= k < items.len() ==> !(#[trigger] items[k]).contains(QUOTE),
    ensures
        quoted_strings(listed(items, gap), 0) == items,
    decreases items.len(),
{
    let s = listed(items, gap);
    let not_quote = bytes::other_than(QUOTE);
    if items.len() == 0 {
        assert(quoted_strings(s, 0) =~= items);
    } else {
        let item = items[0];
        let rest = items.drop_first();
        let sep = if items.len() > 1 {
            gap
        } else {
            Seq::empty()
        };
        let tail = sep + listed(rest, gap);
        let front = seq![QUOTE] + item + seq![QUOTE];
        assert(s =~= front + tail);
        bytes::lemma_skip_while_is(s, 0, not_quote, 0);
        assert forall|i: int| 1 <= i < 1 + item.len() implies not_quote(#[trigger] s[i]) by {
            assert(s[i] == item[i - 1]);
            assert(item.contains(item[i - 1]));
        }
        assert(s[1 + item.len() as int] == QUOTE);
        bytes::lemma_skip_while_is(s, 1, not_quote, 1 + item.len() as int);
        assert(s.subrange(1, 1 + item.len() as int) =~= item);
        lemma_quoted_strings_shift(front, tail, 0);
        assert forall|k: int| 0 <= k < rest.len() implies !(#[trigger] rest[k]).contains(
            QUOTE,
        ) by {
            assert(rest[k] == items[k + 1]);
        }
        law_array_items_are_found(rest, gap);
        lemma_gap(sep, listed(rest, gap));
        assert(quoted_strings(s, 0) =~= seq![item] + rest);
        assert(seq![item] + rest =~= items);
    }
}

/// Bytes without a quote before the first string change nothing.
proof fn lemma_gap(sep: Seq<u8>, s: Seq<u8>)
    requires
        !sep.contains(QUOTE),
    ensures
        quoted_strings(sep + s, 0) == quoted_strings(s, 0),
{
    let not_quote = bytes::other_than(QUOTE);
    lemma_quoted_strings_shift(sep, s, 0);
    lemma_skip_while_past(sep, s, 0, not_quote);
}

/// `skip_while` passes over a front that satisfies `p`.
proof fn lemma_skip_while_past(front: Seq<u8>, s: Seq<u8>, from: int, p: spec_fn(u8) -> bool)
    requires
        0 <= from <= front.len(),
        forall|i: int| 0 <= i < front.len() ==> p(#[trigger] front[i]),
    ensures
        bytes::skip_while(front + s, from, p) == bytes::skip_while(
            front + s,
            front.len() as int,
            p,
        ),
    decreases front.len() - from,
{
    if from < front.len() {
        lemma_skip_while_past(front, s, from + 1, p);
    }
}

/// Where the value of a key stands: past a colon and blanks.
pub proof fn lemma_value_start(buf: Seq<u8>, after: int, value: int)
    requires
        0 <= after < value < buf.len(),
        buf[after] == COLON,
        forall|i: int| after < i < value ==> bytes::is_blank()(#[trigger] buf[i]),
        !bytes::is_blank()(buf[value]),
    ensures
        value_start(buf, after) == value,
{
    bytes::lemma_skip_while_is(buf, after, bytes::other_than(COLON), after);
    bytes::lemma_skip_while_is(buf, after + 1, bytes::is_blank(), value);
}

/// The value of a field stands at `value`: the key comes first at `at`, at or after `from`, and a
/// colon and blanks follow it.
pub open spec fn has_field(buf: Seq<u8>, key: Seq<u8>, from: int, at: int, value: int) -> bool {
    let after = at + key.len();
    &&& bytes::is_first_match(buf, key, from, at)
    &&& after < value < buf.len()
    &&& buf[after] == COLON
    &&& forall|i: int| after < i < value ==> bytes::is_blank()(#[trigger] buf[i])
    &&& !bytes::is_blank()(buf[value])
}

/// A field that holds a number is found whole, whatever follows it that is not part of a number.
pub proof fn law_number_fields_are_found(
    buf: Seq<u8>,
    key: Seq<u8>,
    from: int,
    at: int,
    value: int,
    end: int,
)
    requires
        0 <= from,
        buf.len() <= usize::MAX,
        has_field(buf, key, from, at, value),
        value < end <= buf.len(),
        is_number(buf.subrange(value, end)),
        forall|i: int| value <= i < end ==> numeric()(#[trigger] buf[i]),
        end < buf.len() ==> !numeric()(buf[end]),
    ensures
        number_after(buf, key, from) == Some(span(value, end)),
{
    bytes::lemma_search_is(buf, key, from, at);
    lemma_value_start(buf, at + key.len(), value);
    let start = after_sign(buf, value);
    bytes::lemma_skip_while_is(buf, start, numeric(), end);
}

/// A field that holds a string is found whole, up to its closing quote.
pub proof fn law_string_fields_are_found(
    buf: Seq<u8>,
    key: Seq<u8>,
    from: int,
    at: int,
    value: int,
    end: int,
)
    requires
        0 <= from,
        buf.len() <= usize::MAX,
        has_field(buf, key, from, at, value),
        buf[value] == QUOTE,
        value < end < buf.len(),
        buf[end] == QUOTE,
        forall|i: int| value < i < end ==> #[trigger] buf[i] != QUOTE,
    ensures
        string_after(buf, key, from) == Some(span(value + 1, end)),
{
    bytes::lemma_search_is(buf, key, from, at);
    lemma_value_start(buf, at + key.len(), value);
    bytes::lemma_skip_while_is(buf, value + 1, bytes::other_than(QUOTE), end);
}

/// A run without brackets ends at the bracket that closes it.
proof fn lemma_closing_bracket(s: Seq<u8>, i: int, close: int)
    requires
        0 <= i <= close < s.len(),
        s[close] == CLOSE_BRACKET,
        forall|k: int|
            i <= k < close ==> #[trigger] s[k] != OPEN_BRACKET && s[k] != CLOSE_BRACKET,
    ensures
        closing_bracket(s, i, 1) == Some(close),
    decreases close - i,
{
    if i < close {
        lemma_closing_bracket(s, i + 1, close);
    }
}

/// A field that holds an array without arrays in it is found whole, up to its closing bracket.
pub proof fn law_array_fields_are_found(
    buf: Seq<u8>,
    key: Seq<u8>,
    from: int,
    at: int,
    value: int,
    end: int,
)
    requires
        0 <= from,
        has_field(buf, key, from, at, value),
        buf[value] == OPEN_BRACKET,
        value < end < buf.len(),
        buf[end] == CLOSE_BRACKET,
        forall|i: int|
            value < i < end ==> #[trigger] buf[i] != OPEN_BRACKET && buf[i] != CLOSE_BRACKET,
    ensures
        array_after(buf, key, from) == Some(buf.subrange(value + 1, end)),
{
    bytes::lemma_search_is(buf, key, from, at);
    lemma_value_start(buf, at + key.len(), value);
    lemma_closing_bracket(buf, value + 1, end);
}

/// A payload whose last transaction is `null` has no history; with anything else there it has.
pub proof fn law_null_means_no_history(body: Seq<u8>, f: Fields, at: int, value: int)
    requires
        has_field(body, bytes::text("\"last_transaction\""@), 0, at, value),
    ensures
        has_no_history(body, f) == bytes::matches_at(body, bytes::text("null"@), value),
{
    let key = bytes::text("\"last_transaction\""@);
    bytes::lemma_search_is(body, key, 0, at);
    assert(bytes::is_first_match(body, key, at, at));
    bytes::lemma_search_is(body, key, at, at);
    lemma_value_start(body, at + key.len(), value);
}

/// Decimal digits, any number of them.
pub open spec fn are_digits(s: Seq<u8>) -> bool {
    forall|i: int| 0 <= i < s.len() ==> 0x30 <= #[trigger] s[i] <= 0x39
}

/// A sign, or none.
pub open spec fn is_sign(s: Seq<u8>) -> bool {
    s.len() == 0 || (s.len() == 1 && (s[0] == 0x2b || s[0] == 0x2d))
}

/// A point and digits after it, or nothing.
pub open spec fn is_fraction(s: Seq<u8>) -> bool {
    s.len() == 0 || (s[0] == 0x2e && are_digits(s.skip(1)))
}

/// The letter `e`, a sign or none, and at least one digit, or nothing.
pub open spec fn is_power(s: Seq<u8>, sign: Seq<u8>, digits: Seq<u8>) -> bool {
    s.len() == 0 || {
        &&& s[0] == 0x65 || s[0] == 0x45
        &&& s.skip(1) == sign + digits
        &&& is_sign(sign)
        &&& are_digits(digits)
        &&& digits.len() > 0
    }
}

/// A text is spelled as a decimal number: a sign, digits, a fraction and a power of ten, of which
/// the sign, the fraction and the power may be missing, with a digit before or after the point.
pub open spec fn is_spelled(
    sign: Seq<u8>,
    whole: Seq<u8>,
    fraction: Seq<u8>,
    power: Seq<u8>,
    power_sign: Seq<u8>,
    power_digits: Seq<u8>,
) -> bool {
    &&& is_sign(sign)
    &&& are_digits(whole)
    &&& is_fraction(fraction)
    &&& is_power(power, power_sign, power_digits)
    &&& whole.len() > 0 || fraction.len() > 1
}

/// Every text that is spelled as a decimal number is one, however many digits it has, and is made
/// of numeric bytes alone.
pub proof fn law_spelled_numbers_are_numbers(
    sign: Seq<u8>,
    whole: Seq<u8>,
    fraction: Seq<u8>,
    power: Seq<u8>,
    power_sign: Seq<u8>,
    power_digits: Seq<u8>,
)
    requires
        is_spelled(sign, whole, fraction, power, power_sign, power_digits),
    ensures
        is_number(sign + whole + fraction + power),
        forall|i: int|
            0 <= i < (sign + whole + fraction + power).len() ==> numeric()(
                #[trigger] (sign + whole + fraction + power)[i],
            ),
{
    let t = sign + whole + fraction + power;
    let start = sign.len() as int;
    let point = start + whole.len();
    let end = point + fraction.len();
    assert forall|i: int| start <= i < point implies bytes::digit()(#[trigger] t[i]) by {
        assert(t[i] == whole[i - start]);
    }
    assert(fraction.len() > 0 ==> t[point] == fraction[0]);
    assert(power.len() > 0 ==> t[end] == power[0]);
    bytes::lemma_skip_while_is(t, start, bytes::digit(), point);
    assert(start == 0 ==> after_sign(t, 0) == 0) by {
        if start == 0 && whole.len() > 0 {
            assert(t[0] == whole[0]);
        }
    }
    assert(start > 0 ==> t[0] == sign[0]);
    if fraction.len() > 0 {
        assert forall|i: int| point + 1 <= i < end implies bytes::digit()(#[trigger] t[i]) by {
            assert(t[i] == fraction[i - point]);
            assert(fraction[i - point] == fraction.skip(1)[i - point - 1]);
        }
        bytes::lemma_skip_while_is(t, point + 1, bytes::digit(), end);
    }
    if power.len() > 0 {
        let digits = end + 1 + power_sign.len();
        assert(power.skip(1).len() == power.len() - 1);
        assert((power_sign + power_digits).len() == power_sign.len() + power_digits.len());
        assert forall|i: int| end + 1 <= i < t.len() implies #[trigger] t[i] == (power_sign
            + power_digits)[i - end - 1] by {
            assert(t[i] == power[i - end]);
            assert(power[i - end] == power.skip(1)[i - end - 1]);
        }
        assert forall|i: int| digits <= i < t.len() implies bytes::digit()(#[trigger] t[i]) by {
            assert(t[i] == power_digits[i - digits]);
        }
        bytes::lemma_skip_while_is(t, digits, bytes::digit(), t.len() as int);
        if power_sign.len() == 0 {
            assert(t[end + 1] == power_digits[0]);
        } else {
            assert(t[end + 1] == power_sign[0]);
        }
        assert(after_sign(t, end + 1) == digits);
        assert(is_exponent(t, end));
    }
    assert forall|i: int| 0 <= i < t.len() implies numeric()(#[trigger] t[i]) by {
        if i < start {
        } else if i < point {
        } else if i < end {
            if i > point {
                assert(bytes::digit()(t[i]));
            }
        } else if i > end {
            assert(t[i] == (power_sign + power_digits)[i - end - 1]);
            if i - end - 1 < power_sign.len() {
                assert(t[i] == power_sign[i - end - 1]);
            } else {
                assert(t[i] == power_digits[i - end - 1 - power_sign.len()]);
            }
        }
    }
}

/// The parts of a number from its fraction on.
proof fn lemma_tail_is_spelled(t: Seq<u8>, point: int, end: int) -> (r: (Seq<u8>, Seq<u8>))
    requires
        0 <= point <= end <= t.len(),
        end == t.len() || is_exponent(t, end),
        end > point ==> t[point] == DOT && forall|i: int|
            point < i < end ==> bytes::is_digit(#[trigger] t[i]),
    ensures
        is_fraction(t.subrange(point, end)),
        is_power(t.subrange(end, t.len() as int), r.0, r.1),
{
    let fraction = t.subrange(point, end);
    let power = t.subrange(end, t.len() as int);
    if end > point {
        assert forall|i: int| 0 <= i < fraction.skip(1).len() implies 0x30
            <= #[trigger] fraction.skip(1)[i] <= 0x39 by {
            assert(bytes::is_digit(t[point + 1 + i]));
        }
    }
    if end < t.len() {
        let digits = after_sign(t, end + 1);
        bytes::lemma_skip_while(t, digits, bytes::digit());
        let power_sign = t.subrange(end + 1, digits);
        let power_digits = t.subrange(digits, t.len() as int);
        assert(power.skip(1) =~= power_sign + power_digits);
        assert forall|i: int| 0 <= i < power_digits.len() implies 0x30
            <= #[trigger] power_digits[i] <= 0x39 by {
            assert(bytes::digit()(t[digits + i]));
        }
        (power_sign, power_digits)
    } else {
        (Seq::empty(), Seq::empty())
    }
}

/// Every number is spelled as one: nothing else is taken for a number.
pub proof fn law_numbers_are_spelled(t: Seq<u8>)
    requires
        is_number(t),
    ensures
        exists|
            sign: Seq<u8>,
            whole: Seq<u8>,
            fraction: Seq<u8>,
            power: Seq<u8>,
            power_sign: Seq<u8>,
            power_digits: Seq<u8>,
        |
            #[trigger] is_spelled(sign, whole, fraction, power, power_sign, power_digits) && t
                == sign + whole + fraction + power,
{
    let start = after_sign(t, 0);
    bytes::lemma_skip_while(t, start, bytes::digit());
    let point = bytes::skip_while(t, start, bytes::digit());
    let has_point = point < t.len() && t[point] == DOT;
    bytes::lemma_skip_while(t, point + 1, bytes::digit());
    let end = if has_point {
        bytes::skip_while(t, point + 1, bytes::digit())
    } else {
        point
    };
    let sign = t.subrange(0, start);
    let whole = t.subrange(start, point);
    let fraction = t.subrange(point, end);
    let power = t.subrange(end, t.len() as int);
    if has_point {
        assert forall|i: int| point < i < end implies bytes::is_digit(#[trigger] t[i]) by {
            assert(bytes::digit()(t[i]));
        }
    }
    let (power_sign, power_digits) = lemma_tail_is_spelled(t, point, end);
    assert(are_digits(whole)) by {
        assert forall|i: int| 0 <= i < whole.len() implies 0x30 <= #[trigger] whole[i] <= 0x39 by {
            assert(bytes::digit()(t[start + i]));
        }
    }
    assert(is_sign(sign));
    assert(is_spelled(sign, whole, fraction, power, power_sign, power_digits));
    assert(t =~= sign + whole + fraction + power);
}

/// A byte of which a number may be made: a digit, a point, a sign or the letter `e`.
pub open spec fn may_be_in_number(b: u8) -> bool {
    0x30 <= b <= 0x39 || b == 0x2e || b == 0x2b || b == 0x2d || b == 0x65 || b == 0x45
}

/// A number that is spelled out in a text is read whole, up to the first byte that can be in no
/// number.
pub proof fn law_spelled_numbers_are_read_whole(
    buf: Seq<u8>,
    from: int,
    end: int,
    sign: Seq<u8>,
    whole: Seq<u8>,
    fraction: Seq<u8>,
    power: Seq<u8>,
    power_sign: Seq<u8>,
    power_digits: Seq<u8>,
)
    requires
        0 <= from <= end <= buf.len(),
        is_spelled(sign, whole, fraction, power, power_sign, power_digits),
        buf.subrange(from, end) == sign + whole + fraction + power,
        end < buf.len() ==> !may_be_in_number(buf[end]),
    ensures
        number_at(buf, from) == Some(Span { start: from as usize, end: end as usize }),
{
    law_spelled_numbers_are_numbers(sign, whole, fraction, power, power_sign, power_digits);
    let t = buf.subrange(from, end);
    assert forall|i: int| from <= i < end implies numeric()(#[trigger] buf[i]) by {
        assert(buf[i] == t[i - from]);
    }
    let start = after_sign(buf, from);
    assert(start <= end) by {
        if start > end {
            assert(t.len() == 0);
        }
    }
    bytes::lemma_skip_while_is(buf, start, numeric(), end);
}

/// What is read as a number is spelled as one, and ends where the bytes of numbers end.
pub proof fn law_what_is_read_as_a_number_is_spelled(buf: Seq<u8>, from: int, s: Span)
    requires
        0 <= from,
        buf.len() <= usize::MAX,
        number_at(buf, from) == Some(s),
    ensures
        s.start == from,
        from <= s.end <= buf.len(),
        s.end < buf.len() ==> !may_be_in_number(buf[s.end as int]),
        exists|
            sign: Seq<u8>,
            whole: Seq<u8>,
            fraction: Seq<u8>,
            power: Seq<u8>,
            power_sign: Seq<u8>,
            power_digits: Seq<u8>,
        |
            #[trigger] is_spelled(sign, whole, fraction, power, power_sign, power_digits)
                && buf.subrange(from, s.end as int) == sign + whole + fraction + power,
{
    let start = after_sign(buf, from);
    bytes::lemma_skip_while(buf, start, numeric());
    let end = bytes::skip_while(buf, start, numeric());
    law_numbers_are_spelled(buf.subrange(from, end));
}

/// The value of a field begins past the first colon after its key and the blanks that follow it.
pub proof fn law_values_begin_past_the_colon(buf: Seq<u8>, after: int, colon: int, value: int)
    requires
        0 <= after <= colon < value <= buf.len(),
        buf[colon] == 0x3a,
        forall|i: int| after <= i < colon ==> #[trigger] buf[i] != 0x3a,
        forall|i: int| colon < i < value ==> #[trigger] buf[i] == 0x20 || buf[i] == 0x09,
        value < buf.len() ==> buf[value] != 0x20 && buf[value] != 0x09,
    ensures
        value_start(buf, after) == value,
{
    bytes::lemma_skip_while_is(buf, after, bytes::other_than(COLON), colon);
    bytes::lemma_skip_while_is(buf, colon + 1, bytes::is_blank(), value);
}

/// Without a colon there is no value.
pub proof fn law_no_value_without_a_colon(buf: Seq<u8>, key: Seq<u8>, from: int, after: int)
    requires
        0 <= after <= buf.len(),
        forall|i: int| after <= i < buf.len() ==> #[trigger] buf[i] != 0x3a,
        bytes::after_key(buf, key, from) == Some(after),
    ensures
        number_after(buf, key, from) is None,
        string_after(buf, key, from) is None,
        bool_after(buf, key, from) is None,
        array_after(buf, key, from) is None,
{
    bytes::lemma_skip_while_is(buf, after, bytes::other_than(COLON), buf.len() as int);
    bytes::lemma_skip_while(buf, buf.len() as int + 1, bytes::is_blank());
    reveal_strlit("true");
    reveal_strlit("false");
}

/// A field is looked up by the first occurrence of its key from a position on; without the key
/// there is no field.
pub proof fn law_fields_follow_the_first_key(buf: Seq<u8>, key: Seq<u8>, from: int)
    requires
        0 <= from,
    ensures
        match bytes::search(buf, key, from) {
            None => {
                &&& number_after(buf, key, from) is None
                &&& string_after(buf, key, from) is None
                &&& bool_after(buf, key, from) is None
                &&& array_after(buf, key, from) is None
            },
            Some(at) => {
                let value = value_start(buf, at + key.len());
                &&& number_after(buf, key, from) == number_at(buf, value)
                &&& string_after(buf, key, from) == string_at(buf, value)
                &&& array_after(buf, key, from) == array_at(buf, value)
            },
        },
{
}

/// A string is read from its opening quote to the next quote, however far that is.
pub proof fn law_strings_are_read_to_the_next_quote(buf: Seq<u8>, i: int)
    requires
        0 <= i,
        buf.len() <= usize::MAX,
    ensures
        match string_at(buf, i) {
            Some(s) => {
                &&& i < buf.len() && buf[i] == 0x22
                &&& s.start == i + 1
                &&& i + 1 <= s.end < buf.len()
                &&& buf[s.end as int] == 0x22
                &&& forall|k: int| i < k < s.end ==> #[trigger] buf[k] != 0x22
            },
            None => i >= buf.len() || buf[i] != 0x22 || forall|k: int|
                i < k < buf.len() ==> #[trigger] buf[k] != 0x22,
        },
{
    if i < buf.len() {
        bytes::lemma_skip_while(buf, i + 1, bytes::other_than(QUOTE));
    }
}

/// A truth value is the literal at the value of its field, and nothing else.
pub proof fn law_truth_values_are_literals(buf: Seq<u8>, key: Seq<u8>, from: int, after: int)
    requires
        0 <= from <= after,
        bytes::after_key(buf, key, from) == Some(after),
    ensures
        ({
            let v = value_start(buf, after);
            let yes = v + 4 <= buf.len() && buf[v] == 0x74 && buf[v + 1] == 0x72 && buf[v + 2]
                == 0x75 && buf[v + 3] == 0x65;
            let no = v + 5 <= buf.len() && buf[v] == 0x66 && buf[v + 1] == 0x61 && buf[v + 2]
                == 0x6c && buf[v + 3] == 0x73 && buf[v + 4] == 0x65;
            &&& bool_after(buf, key, from) == Some(true) <==> yes
            &&& bool_after(buf, key, from) == Some(false) <==> no
        }),
{
    reveal_strlit("true");
    reveal_strlit("false");
    bytes::lemma_skip_while(buf, after, bytes::other_than(COLON));
    bytes::lemma_skip_while(
        buf,
        bytes::skip_while(buf, after, bytes::other_than(COLON)) + 1,
        bytes::is_blank(),
    );
    let v = value_start(buf, after);
    let t = bytes::text("true"@);
    let f = bytes::text("false"@);
    if v + 4 <= buf.len() {
        let s = buf.subrange(v, v + 4);
        assert(s[0] == buf[v] && s[1] == buf[v + 1] && s[2] == buf[v + 2] && s[3] == buf[v + 3]);
        assert(s[0] == t[0] && s[1] == t[1] && s[2] == t[2] && s[3] == t[3] ==> s =~= t);
    }
    if v + 5 <= buf.len() {
        let s = buf.subrange(v, v + 5);
        assert(s[0] == buf[v] && s[1] == buf[v + 1] && s[2] == buf[v + 2] && s[3] == buf[v + 3]
            && s[4] == buf[v + 4]);
        assert(s[0] == f[0] && s[1] == f[1] && s[2] == f[2] && s[3] == f[3] && s[4] == f[4] ==> s
            =~= f);
    }
}

/// The brackets that are open at `j`, of which there are `depth` before `i`.
pub open spec fn open_brackets(s: Seq<u8>, i: int, j: int, depth: int) -> int {
    depth + bytes::times(s.subrange(i, j), 0x5b) - bytes::times(s.subrange(i, j), 0x5d)
}

proof fn lemma_brackets(s: Seq<u8>, i: int, j: int, depth: int)
    requires
        0 <= i <= j <= s.len(),
        1 <= depth,
        forall|k: int| i <= k <= j ==> 1 <= #[trigger] open_brackets(s, i, k, depth),
    ensures
        match closing_bracket(s, j, open_brackets(s, i, j, depth)) {
            Some(close) => {
                &&& j <= close < s.len()
                &&& s[close] == 0x5d
                &&& open_brackets(s, i, close, depth) == 1
                &&& forall|k: int| i <= k <= close ==> 1 <= #[trigger] open_brackets(s, i, k, depth)
            },
            None => forall|k: int|
                i <= k <= s.len() ==> 1 <= #[trigger] open_brackets(s, i, k, depth),
        },
    decreases s.len() - j,
{
    if j < s.len() {
        bytes::lemma_times_push(s, i, j, 0x5b);
        bytes::lemma_times_push(s, i, j, 0x5d);
        let d = open_brackets(s, i, j, depth);
        if !(s[j] == 0x5d && d == 1) {
            assert(open_brackets(s, i, j + 1, depth) >= 1);
            lemma_brackets(s, i, j + 1, depth);
        }
    }
}

/// An array ends at the bracket that closes it: there as many brackets have been closed as were
/// opened, and nowhere before. Without such a bracket there is no array.
pub proof fn law_arrays_end_where_their_brackets_balance(buf: Seq<u8>, i: int)
    requires
        0 <= i < buf.len(),
        buf[i] == 0x5b,
    ensures
        match array_at(buf, i) {
            Some(inside) => exists|close: int|
                {
                    &&& i < close < buf.len()
                    &&& buf[close] == 0x5d
                    &&& open_brackets(buf, i + 1, close, 1) == 1
                    &&& forall|k: int|
                        i < k <= close ==> 1 <= #[trigger] open_brackets(buf, i + 1, k, 1)
                    &&& inside == #[trigger] buf.subrange(i + 1, close)
                },
            None => forall|k: int|
                i < k <= buf.len() ==> 1 <= #[trigger] open_brackets(buf, i + 1, k, 1),
        },
{
    broadcast use vstd::seq_lib::group_to_multiset_ensures;

    assert(buf.subrange(i + 1, i + 1) =~= Seq::<u8>::empty());
    assert(Seq::<u8>::empty().to_multiset() =~= vstd::multiset::Multiset::empty());
    assert(open_brackets(buf, i + 1, i + 1, 1) == 1);
    lemma_brackets(buf, i + 1, i + 1, 1);
    match closing_bracket(buf, i + 1, 1) {
        Some(close) => {
            assert(array_at(buf, i) == Some(buf.subrange(i + 1, close)));
        },
        None => {},
    }
}

/// Only what begins with a bracket is an array.
pub proof fn law_arrays_begin_with_a_bracket(buf: Seq<u8>, i: int)
    ensures
        array_at(buf, i) is Some ==> 0 <= i < buf.len() && buf[i] == 0x5b,
{
}

/// The strings of an array are what stands between its first quote and the second, between its
/// third and the fourth, and so on: nothing before the first quote counts.
pub proof fn law_array_strings_stand_between_quotes(gap: Seq<u8>, x: Seq<u8>, rest: Seq<u8>)
    requires
        !gap.contains(0x22),
        !x.contains(0x22),
    ensures
        quoted_strings(gap, 0) == Seq::<Seq<u8>>::empty(),
        quoted_strings(gap + seq![0x22u8] + x, 0) == seq![x],
        quoted_strings(gap + seq![0x22u8] + x + seq![0x22u8] + rest, 0) == seq![x]
            + quoted_strings(rest, 0),
{
    let not_quote = bytes::other_than(QUOTE);
    let n = gap.len() as int;
    let m = n + 1 + x.len();
    assert forall|i: int| 0 <= i < gap.len() implies not_quote(#[trigger] gap[i]) by {
        assert(gap.contains(gap[i]));
    }
    bytes::lemma_skip_while_is(gap, 0, not_quote, n);
    let open = gap + seq![QUOTE] + x;
    let closed = gap + seq![QUOTE] + x + seq![QUOTE] + rest;
    let front = gap + seq![QUOTE] + x + seq![QUOTE];
    assert forall|i: int| 0 <= i < n implies not_quote(#[trigger] open[i]) && not_quote(
        closed[i],
    ) by {
        assert(not_quote(gap[i]));
    }
    assert forall|i: int| 0 <= i < n implies not_quote(#[trigger] closed[i]) by {
        assert(not_quote(gap[i]));
    }
    assert forall|i: int| n + 1 <= i < m implies not_quote(#[trigger] open[i]) by {
        assert(open[i] == x[i - n - 1]);
        assert(x.contains(x[i - n - 1]));
    }
    assert forall|i: int| n + 1 <= i < m implies not_quote(#[trigger] closed[i]) by {
        assert(closed[i] == x[i - n - 1]);
        assert(x.contains(x[i - n - 1]));
    }
    assert(open[n] == QUOTE && closed[n] == QUOTE && closed[m] == QUOTE);
    bytes::lemma_skip_while_is(open, 0, not_quote, n);
    bytes::lemma_skip_while_is(open, n + 1, not_quote, m);
    bytes::lemma_skip_while_is(closed, 0, not_quote, n);
    bytes::lemma_skip_while_is(closed, n + 1, not_quote, m);
    assert(open.subrange(n + 1, m) =~= x);
    assert(closed.subrange(n + 1, m) =~= x);
    assert(quoted_strings(open, m + 1) =~= Seq::empty()) by {
        bytes::lemma_skip_while(open, m + 1, not_quote);
    }
    assert(quoted_strings(open, 0) =~= seq![x]);
    assert(closed =~= front + rest);
    lemma_quoted_strings_shift(front, rest, 0);
    assert(quoted_strings(closed, 0) =~= seq![x] + quoted_strings(rest, 0));
}

/// Nine merchant categories have a risk of their own; that of every other one is a half.
pub proof fn law_every_category_has_its_risk(mcc: Seq<u8>)
    ensures
        mcc == seq![0x35u8, 0x34, 0x31, 0x31] ==> risk_of(mcc) == 15,
        mcc == seq![0x35u8, 0x38, 0x31, 0x32] ==> risk_of(mcc) == 30,
        mcc == seq![0x35u8, 0x39, 0x31, 0x32] ==> risk_of(mcc) == 20,
        mcc == seq![0x35u8, 0x39, 0x34, 0x34] ==> risk_of(mcc) == 45,
        mcc == seq![0x37u8, 0x38, 0x30, 0x31] ==> risk_of(mcc) == 80,
        mcc == seq![0x37u8, 0x38, 0x30, 0x32] ==> risk_of(mcc) == 75,
        mcc == seq![0x37u8, 0x39, 0x39, 0x35] ==> risk_of(mcc) == 85,
        mcc == seq![0x34u8, 0x35, 0x31, 0x31] ==> risk_of(mcc) == 35,
        mcc == seq![0x35u8, 0x33, 0x31, 0x31] ==> risk_of(mcc) == 25,
        risk_of(mcc) != 50 ==> {
            ||| mcc == seq![0x35u8, 0x34, 0x31, 0x31]
            ||| mcc == seq![0x35u8, 0x38, 0x31, 0x32]
            ||| mcc == seq![0x35u8, 0x39, 0x31, 0x32]
            ||| mcc == seq![0x35u8, 0x39, 0x34, 0x34]
            ||| mcc == seq![0x37u8, 0x38, 0x30, 0x31]
            ||| mcc == seq![0x37u8, 0x38, 0x30, 0x32]
            ||| mcc == seq![0x37u8, 0x39, 0x39, 0x35]
            ||| mcc == seq![0x34u8, 0x35, 0x31, 0x31]
            ||| mcc == seq![0x35u8, 0x33, 0x31, 0x31]
        },
{
    reveal_strlit("5411");
    reveal_strlit("5812");
    reveal_strlit("5912");
    reveal_strlit("5944");
    reveal_strlit("7801");
    reveal_strlit("7802");
    reveal_strlit("7995");
    reveal_strlit("4511");
    reveal_strlit("5311");
    assert(bytes::text("5411"@) =~= seq![0x35u8, 0x34, 0x31, 0x31]);
    assert(bytes::text("5812"@) =~= seq![0x35u8, 0x38, 0x31, 0x32]);
    assert(bytes::text("5912"@) =~= seq![0x35u8, 0x39, 0x31, 0x32]);
    assert(bytes::text("5944"@) =~= seq![0x35u8, 0x39, 0x34, 0x34]);
    assert(bytes::text("7801"@) =~= seq![0x37u8, 0x38, 0x30, 0x31]);
    assert(bytes::text("7802"@) =~= seq![0x37u8, 0x38, 0x30, 0x32]);
    assert(bytes::text("7995"@) =~= seq![0x37u8, 0x39, 0x39, 0x35]);
    assert(bytes::text("4511"@) =~= seq![0x34u8, 0x35, 0x31, 0x31]);
    assert(bytes::text("5311"@) =~= seq![0x35u8, 0x33, 0x31, 0x31]);
    if risk_of(mcc) == 15 {
        assert(mcc[0] == 0x35 && mcc[1] == 0x34 && mcc[2] == 0x31 && mcc[3] == 0x31);
    }
    assert(seq![0x35u8, 0x34, 0x31, 0x31][1] == 0x34 && seq![0x35u8, 0x38, 0x31, 0x32][1] == 0x38
        && seq![0x35u8, 0x39, 0x31, 0x32][1] == 0x39 && seq![0x35u8, 0x39, 0x34, 0x34][2] == 0x34
        && seq![0x35u8, 0x39, 0x31, 0x32][2] == 0x31);
    assert(seq![0x37u8, 0x38, 0x30, 0x31][0] == 0x37 && seq![0x37u8, 0x38, 0x30, 0x31][3] == 0x31
        && seq![0x37u8, 0x38, 0x30, 0x32][3] == 0x32 && seq![0x37u8, 0x39, 0x39, 0x35][1] == 0x39
        && seq![0x37u8, 0x38, 0x30, 0x32][1] == 0x38 && seq![0x37u8, 0x38, 0x30, 0x31][1] == 0x38
        && seq![0x37u8, 0x38, 0x30, 0x32][0] == 0x37 && seq![0x37u8, 0x39, 0x39, 0x35][0] == 0x37);
    assert(seq![0x34u8, 0x35, 0x31, 0x31][0] == 0x34 && seq![0x35u8, 0x33, 0x31, 0x31][1] == 0x33
        && seq![0x35u8, 0x33, 0x31, 0x31][0] == 0x35 && seq![0x35u8, 0x34, 0x31, 0x31][0] == 0x35
        && seq![0x35u8, 0x38, 0x31, 0x32][0] == 0x35 && seq![0x35u8, 0x39, 0x31, 0x32][0] == 0x35
        && seq![0x35u8, 0x39, 0x34, 0x34][0] == 0x35 && seq![0x35u8, 0x39, 0x34, 0x34][1] == 0x39);
}


/// A field that holds a number that is spelled out is found whole, with whatever stands between its
/// key and the colon, blanks before the number or not, and whatever follows that can be in no
/// number.
pub proof fn law_spelled_number_fields_are_found(
    buf: Seq<u8>,
    key: Seq<u8>,
    from: int,
    at: int,
    colon: int,
    value: int,
    end: int,
    sign: Seq<u8>,
    whole: Seq<u8>,
    fraction: Seq<u8>,
    power: Seq<u8>,
    power_sign: Seq<u8>,
    power_digits: Seq<u8>,
)
    requires
        0 <= from <= at,
        at + key.len() <= colon < value <= end <= buf.len(),
        buf.subrange(at, at + key.len()) == key,
        forall|j: int| from <= j < at ==> #[trigger] buf.subrange(j, j + key.len()) != key,
        buf[colon] == 0x3a,
        forall|i: int| at + key.len() <= i < colon ==> #[trigger] buf[i] != 0x3a,
        forall|i: int| colon < i < value ==> #[trigger] buf[i] == 0x20 || buf[i] == 0x09,
        is_spelled(sign, whole, fraction, power, power_sign, power_digits),
        buf.subrange(value, end) == sign + whole + fraction + power,
        end < buf.len() ==> !may_be_in_number(buf[end]),
    ensures
        number_after(buf, key, from) == Some(Span { start: value as usize, end: end as usize }),
{
    assert(bytes::matches_at(buf, key, at));
    assert forall|j: int| from <= j < at implies !#[trigger] bytes::matches_at(buf, key, j) by {
        assert(buf.subrange(j, j + key.len()) != key);
    }
    bytes::lemma_search_is(buf, key, from, at);
    law_spelled_numbers_are_numbers(sign, whole, fraction, power, power_sign, power_digits);
    let t = sign + whole + fraction + power;
    assert(t.len() > 0) by {
        if t.len() == 0 {
            assert(t =~= Seq::<u8>::empty());
            assert(!is_number(Seq::<u8>::empty()));
        }
    }
    assert(buf[value] == t[0]) by {
        assert(buf.subrange(value, end)[0] == buf[value]);
    }
    assert(numeric()(t[0]));
    law_values_begin_past_the_colon(buf, at + key.len(), colon, value);
    law_spelled_numbers_are_read_whole(
        buf,
        value,
        end,
        sign,
        whole,
        fraction,
        power,
        power_sign,
        power_digits,
    );
}

/// Where a section begins: at the first occurrence of its name, or at the start without one; the
/// one on the last transaction then begins at the end.
pub proof fn law_sections_begin_at_their_names(body: Seq<u8>, key: Seq<u8>)
    ensures
        bytes::search(body, key, 0) matches Some(i) ==> section(body, key) == i,
        bytes::search(body, key, 0) is None ==> section(body, key) == 0,
        bytes::search(body, bytes::text("\"last_transaction\""@), 0) matches Some(i)
            ==> last_section(body) == i,
        bytes::search(body, bytes::text("\"last_transaction\""@), 0) is None ==> last_section(body)
            == body.len(),
{
}

/// A payload is well formed exactly when each of its fields is found in its section and can be
/// read; each field is then the first one with its name from the start of its section on.
pub proof fn law_a_payload_has_its_fields(body: Seq<u8>)
    ensures
        ({
            let tx = section(body, bytes::text("\"transaction\""@));
            let cu = section(body, bytes::text("\"customer\""@));
            let me = section(body, bytes::text("\"merchant\""@));
            let te = section(body, bytes::text("\"terminal\""@));
            let at = string_after(body, bytes::text("\"requested_at\""@), tx);
            let known = array_after(body, bytes::text("\"known_merchants\""@), cu);
            let id = string_after(body, bytes::text("\"id\""@), me);
            &&& fields_of(body) is Some <==> {
                &&& number_after(body, bytes::text("\"amount\""@), 0) is Some
                &&& number_after(body, bytes::text("\"amount\""@), tx) is Some
                &&& number_after(body, bytes::text("\"installments\""@), tx) is Some
                &&& at is Some
                &&& timestamp::hour_is_readable(slice(body, at->0))
                &&& number_after(body, bytes::text("\"avg_amount\""@), cu) is Some
                &&& number_after(body, bytes::text("\"tx_count_24h\""@), cu) is Some
                &&& known is Some
                &&& id is Some
                &&& string_after(body, bytes::text("\"mcc\""@), me) is Some
                &&& number_after(body, bytes::text("\"avg_amount\""@), me) is Some
                &&& number_after(body, bytes::text("\"km_from_home\""@), te) is Some
                &&& bool_after(body, bytes::text("\"is_online\""@), te) is Some
                &&& bool_after(body, bytes::text("\"card_present\""@), te) is Some
            }
            &&& fields_of(body) matches Some(f) ==> {
                &&& Some(f.amount) == number_after(body, bytes::text("\"amount\""@), tx)
                &&& Some(f.installments) == number_after(body, bytes::text("\"installments\""@), tx)
                &&& Some(f.requested_at) == at
                &&& Some(f.avg_amount) == number_after(body, bytes::text("\"avg_amount\""@), cu)
                &&& Some(f.tx_count_24h) == number_after(body, bytes::text("\"tx_count_24h\""@), cu)
                &&& Some(f.merchant_id) == id
                &&& Some(f.mcc) == string_after(body, bytes::text("\"mcc\""@), me)
                &&& Some(f.merchant_avg_amount) == number_after(body, bytes::text("\"avg_amount\""@), me)
                &&& Some(f.km_from_home) == number_after(body, bytes::text("\"km_from_home\""@), te)
                &&& Some(f.is_online) == bool_after(body, bytes::text("\"is_online\""@), te)
                &&& Some(f.card_present) == bool_after(body, bytes::text("\"card_present\""@), te)
                &&& f.unknown_merchant <==> !quoted_strings(known->0, 0).contains(
                    slice(body, id->0),
                )
            }
        }),
{
}

/// The components of a query stand in a fixed order, each a field over its own limit.
pub proof fn law_components_are_fields_over_limits(body: Seq<u8>, f: Fields)
    ensures
        ({
            let v = features_of(body, f);
            let (hour, dow) = timestamp::hour_dow(slice(body, f.requested_at));
            let last = last_transaction(body, last_section(body), f.requested_at);
            &&& v.len() == 14
            &&& v[0] == (Feature::Scaled { number: f.amount, limit: 10000 })
            &&& v[1] == (Feature::Scaled { number: f.installments, limit: 12 })
            &&& v[2] == (Feature::Ratio { number: f.amount, base: f.avg_amount, limit: 10 })
            &&& v[3] == (Feature::Fraction { part: hour as u32, whole: 23 })
            &&& v[4] == (Feature::Fraction { part: dow as u32, whole: 6 })
            &&& v[7] == (Feature::Scaled { number: f.km_from_home, limit: 1000 })
            &&& v[8] == (Feature::Scaled { number: f.tx_count_24h, limit: 20 })
            &&& v[9] == (Feature::Fraction {
                part: if f.is_online {
                    1
                } else {
                    0
                },
                whole: 1,
            })
            &&& v[10] == (Feature::Fraction {
                part: if f.card_present {
                    1
                } else {
                    0
                },
                whole: 1,
            })
            &&& v[11] == (Feature::Fraction {
                part: if f.unknown_merchant {
                    1
                } else {
                    0
                },
                whole: 1,
            })
            &&& v[12] == (Feature::Fraction { part: risk_of(slice(body, f.mcc)), whole: 100 })
            &&& v[13] == (Feature::Scaled { number: f.merchant_avg_amount, limit: 10000 })
            &&& has_no_history(body, f) == !last.2
            &&& !last.2 ==> v[5] is Missing && v[6] is Missing
            &&& last.2 ==> v[5] == (Feature::Elapsed { seconds: last.0 as i64, limit: 1440 })
            &&& last.2 ==> v[6] == (match last.1 {
                Some(km) => Feature::Scaled { number: km, limit: 1000 },
                None => Feature::Fraction { part: 0, whole: 1 },
            })
        }),
{
}

/// What a payload says of the last transaction: nothing without the section or with `null` in it;
/// else the distance, if it is there, and the seconds since its time, which are none without a time
/// or with a later one.
pub proof fn law_the_last_transaction_is_optional(body: Seq<u8>, from: int, req_at: Span)
    requires
        0 <= from,
    ensures
        ({
            let last = last_transaction(body, from, req_at);
            match bytes::search(body, bytes::text("\"last_transaction\""@), from) {
                None => !last.2,
                Some(at) => {
                    let v = value_start(body, at + 18);
                    let null = v + 4 <= body.len() && body[v] == 0x6e && body[v + 1] == 0x75
                        && body[v + 2] == 0x6c && body[v + 3] == 0x6c;
                    &&& last.2 == !null
                    &&& !null ==> last.1 == number_after(body, bytes::text("\"km_from_current\""@), v)
                    &&& !null ==> match string_after(body, bytes::text("\"timestamp\""@), v) {
                        None => last.0 == 0,
                        Some(time) => {
                            let now = timestamp::epoch_secs(slice(body, req_at));
                            let then = timestamp::epoch_secs(slice(body, time));
                            &&& then <= now ==> last.0 == now - then
                            &&& now < then ==> last.0 == 0
                        },
                    }
                },
            }
        }),
{
    reveal_strlit("null");
    reveal_strlit("\"last_transaction\"");
    if let Some(at) = bytes::search(body, bytes::text("\"last_transaction\""@), from) {
        bytes::law_a_search_finds_the_first_occurrence(body, bytes::text("\"last_transaction\""@), from);
        bytes::lemma_skip_while(body, at + 18, bytes::other_than(COLON));
        bytes::lemma_skip_while(
            body,
            bytes::skip_while(body, at + 18, bytes::other_than(COLON)) + 1,
            bytes::is_blank(),
        );
        let v = value_start(body, at + 18);
        let t = bytes::text("null"@);
        if v + 4 <= body.len() {
            let s = body.subrange(v, v + 4);
            assert(s[0] == body[v] && s[1] == body[v + 1] && s[2] == body[v + 2] && s[3] == body[v
                + 3]);
            assert(s[0] == t[0] && s[1] == t[1] && s[2] == t[2] && s[3] == t[3] ==> s =~= t);
        }
    }
}


/// The bytes of a span are those from its start to its end, and a number within a text is read from
/// them.
pub proof fn law_spans_are_ranges(buf: Seq<u8>, s: Span)
    ensures
        slice(buf, s) == buf.subrange(s.start as int, s.end as int),
        within(buf, s) <==> s.start <= s.end <= buf.len(),
        is_number_span(buf, s) <==> s.start <= s.end <= buf.len() && is_number(
            buf.subrange(s.start as int, s.end as int),
        ),
{
}

} // verus!
