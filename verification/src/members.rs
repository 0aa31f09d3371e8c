//! Payloads by their members: what is read does not depend on the order of the sections.

use crate::bytes;
use crate::bytes::{
    CLOSE_BRACE, CLOSE_BRACKET, COLON, COMMA, OPEN_BRACE, OPEN_BRACKET, QUOTE,
};
use crate::parse;
use crate::timestamp;
use crate::vector::{Feature, Span};
use vstd::prelude::*;

verus! {

/// One component of a query vector, with the texts of its numbers in place of their positions.
pub enum Value {
    Scaled { number: Seq<u8>, limit: u32 },
    Ratio { number: Seq<u8>, base: Seq<u8>, limit: u32 },
    Elapsed { seconds: i64, limit: u32 },
    Fraction { part: u32, whole: u32 },
    Missing,
}

/// A component of the query of a payload, with the texts of its numbers.
pub open spec fn value_of(body: Seq<u8>, feature: Feature) -> Value {
    match feature {
        Feature::Scaled { number, limit } => Value::Scaled {
            number: parse::slice(body, number),
            limit,
        },
        Feature::Ratio { number, base, limit } => Value::Ratio {
            number: parse::slice(body, number),
            base: parse::slice(body, base),
            limit,
        },
        Feature::Elapsed { seconds, limit } => Value::Elapsed { seconds, limit },
        Feature::Fraction { part, whole } => Value::Fraction { part, whole },
        Feature::Missing => Value::Missing,
    }
}

/// The components of the query of a payload, with the texts of their numbers; none when the
/// payload is malformed.
pub open spec fn values_of(body: Seq<u8>) -> Option<Seq<Value>> {
    match parse::fields_of(body) {
        Some(f) => Some(
            parse::features_of(body, f).map_values(|feature: Feature| value_of(body, feature)),
        ),
        None => None,
    }
}

/// `key` stands somewhere in `s`.
pub open spec fn mentions(s: Seq<u8>, key: Seq<u8>) -> bool {
    exists|i: int| bytes::matches_at(s, key, i)
}

/// The members of an object from one on, and the brace that closes it.
pub open spec fn members_text(members: Seq<Seq<u8>>) -> Seq<u8>
    decreases members.len(),
{
    if members.len() == 0 {
        seq![CLOSE_BRACE]
    } else if members.len() == 1 {
        members[0] + seq![CLOSE_BRACE]
    } else {
        members[0] + seq![COMMA] + members_text(members.drop_first())
    }
}

/// The text of an object with the given members.
pub open spec fn object_text(members: Seq<Seq<u8>>) -> Seq<u8> {
    seq![OPEN_BRACE] + members_text(members)
}

/// What comes before member `j` of an object.
pub open spec fn front(members: Seq<Seq<u8>>, j: int) -> Seq<u8>
    decreases j,
{
    if j <= 0 {
        seq![OPEN_BRACE]
    } else {
        front(members, j - 1) + members[j - 1] + seq![COMMA]
    }
}

/// `m` stands in `body` from `at` on.
pub open spec fn placed(body: Seq<u8>, m: Seq<u8>, at: int) -> bool {
    0 <= at && at + m.len() <= body.len() && body.subrange(at, at + m.len()) == m
}

/// A comma or the closing brace follows `m`, which stands in `body` from `at` on.
pub open spec fn is_closed(body: Seq<u8>, m: Seq<u8>, at: int) -> bool {
    &&& at + m.len() < body.len()
    &&& body[at + m.len()] == COMMA || body[at + m.len()] == CLOSE_BRACE
}

/// What comes before a member, and then the members from there on, make up the object.
pub proof fn lemma_object_text(members: Seq<Seq<u8>>, j: int)
    requires
        0 <= j < members.len(),
    ensures
        object_text(members) == front(members, j) + members_text(members.skip(j)),
        placed(object_text(members), members[j], front(members, j).len() as int),
        is_closed(object_text(members), members[j], front(members, j).len() as int),
    decreases j,
{
    if j == 0 {
        assert(members.skip(0) =~= members);
    } else {
        lemma_object_text(members, j - 1);
        let rest = members.skip(j - 1);
        assert(rest[0] == members[j - 1]);
        assert(rest.drop_first() =~= members.skip(j));
        assert(object_text(members) =~= front(members, j) + members_text(members.skip(j)));
    }
    let tail = members.skip(j);
    assert(tail[0] == members[j]);
    let at = front(members, j).len() as int;
    assert(object_text(members).subrange(at, at + members[j].len()) =~= members[j]);
}

/// A key that stands across a byte contains the byte.
pub proof fn lemma_no_straddle(s: Seq<u8>, key: Seq<u8>, i: int, cut: int)
    requires
        bytes::matches_at(s, key, i),
        0 <= cut < s.len(),
        !key.contains(s[cut]),
    ensures
        i + key.len() <= cut || cut < i,
{
    if i <= cut < i + key.len() {
        assert(s.subrange(i, i + key.len())[cut - i] == s[cut]);
        assert(key[cut - i] == s[cut]);
    }
}

/// A key that none of the members before `j` mentions does not stand before member `j`.
proof fn lemma_front_is_silent(members: Seq<Seq<u8>>, j: int, key: Seq<u8>)
    requires
        0 <= j <= members.len(),
        key.len() > 0,
        !key.contains(OPEN_BRACE),
        !key.contains(COMMA),
        forall|k: int| 0 <= k < j ==> !mentions(#[trigger] members[k], key),
    ensures
        !mentions(front(members, j), key),
        front(members, j).len() > 0,
        !key.contains(front(members, j).last()),
    decreases j,
{
    let s = front(members, j);
    if j > 0 {
        let before = front(members, j - 1);
        let m = members[j - 1];
        lemma_front_is_silent(members, j - 1, key);
        assert(s =~= before + m + seq![COMMA]);
        if mentions(s, key) {
            let i = choose|i: int| bytes::matches_at(s, key, i);
            assert(bytes::matches_at(s, key, i));
            assert(s[before.len() - 1] == before.last());
            lemma_no_straddle(s, key, i, before.len() - 1);
            lemma_no_straddle(s, key, i, s.len() - 1);
            if i < before.len() {
                assert(before.subrange(i, i + key.len()) =~= s.subrange(i, i + key.len()));
                assert(bytes::matches_at(before, key, i));
            } else {
                let k = i - before.len();
                assert(m.subrange(k, k + key.len()) =~= s.subrange(i, i + key.len()));
                assert(bytes::matches_at(m, key, k));
                assert(mentions(members[j - 1], key));
            }
        }
    } else {
        if mentions(s, key) {
            let i = choose|i: int| bytes::matches_at(s, key, i);
            assert(bytes::matches_at(s, key, i));
            lemma_no_straddle(s, key, i, 0);
        }
    }
}

/// The first index at which `m` is a member.
proof fn lemma_first_index(members: Seq<Seq<u8>>, m: Seq<u8>) -> (j: int)
    requires
        members.contains(m),
    ensures
        0 <= j < members.len(),
        members[j] == m,
        forall|k: int| 0 <= k < j ==> #[trigger] members[k] != m,
    decreases members.len(),
{
    if members[0] == m {
        0
    } else {
        let rest = members.drop_first();
        let p = choose|p: int| 0 <= p < members.len() && members[p] == m;
        assert(rest[p - 1] == m);
        let j = lemma_first_index(rest, m);
        assert forall|k: int| 0 <= k < j + 1 implies #[trigger] members[k] != m by {
            if k > 0 {
                assert(rest[k - 1] == members[k]);
            }
        }
        assert(rest[j] == members[j + 1]);
        j + 1
    }
}

/// A key that only the member `m` mentions comes first in `m`.
pub proof fn lemma_key_of_member(members: Seq<Seq<u8>>, m: Seq<u8>, key: Seq<u8>, i: int) -> (at: int)
    requires
        members.contains(m),
        key.len() > 0,
        !key.contains(OPEN_BRACE),
        !key.contains(COMMA),
        forall|k: int|
            0 <= k < members.len() && mentions(#[trigger] members[k], key) ==> members[k] == m,
        bytes::is_first_match(m, key, 0, i),
    ensures
        placed(object_text(members), m, at),
        is_closed(object_text(members), m, at),
        bytes::search(object_text(members), key, 0) == Some(at + i),
{
    let body = object_text(members);
    let j = lemma_first_index(members, m);
    let before = front(members, j);
    let at = before.len() as int;
    lemma_object_text(members, j);
    lemma_front_is_silent(members, j, key);
    lemma_placed_match(body, m, at, key, i);
    assert forall|p: int| 0 <= p < at + i implies !#[trigger] bytes::matches_at(body, key, p) by {
        if bytes::matches_at(body, key, p) {
            assert(body[at - 1] == before.last());
            lemma_no_straddle(body, key, p, at - 1);
            if p < at {
                assert(before.subrange(p, p + key.len()) =~= body.subrange(p, p + key.len()));
                assert(bytes::matches_at(before, key, p));
            } else {
                lemma_placed_match(body, m, at, key, p - at);
            }
        }
    }
    bytes::lemma_search_is(body, key, 0, at + i);
    at
}

/// The bytes of a member are those of the body.
pub proof fn lemma_placed(body: Seq<u8>, m: Seq<u8>, at: int)
    requires
        placed(body, m, at),
    ensures
        forall|i: int| 0 <= i < m.len() ==> body[at + i] == #[trigger] m[i],
{
    assert forall|i: int| 0 <= i < m.len() implies body[at + i] == #[trigger] m[i] by {
        assert(body.subrange(at, at + m.len())[i] == m[i]);
    }
}

/// What stands within a member stands in the body.
pub proof fn lemma_placed_match(body: Seq<u8>, m: Seq<u8>, at: int, key: Seq<u8>, i: int)
    requires
        placed(body, m, at),
        0 <= i,
        i + key.len() <= m.len(),
    ensures
        bytes::matches_at(body, key, at + i) == bytes::matches_at(m, key, i),
{
    lemma_placed(body, m, at);
    assert(body.subrange(at + i, at + i + key.len()) =~= m.subrange(i, i + key.len()));
}

/// A key that is found within a member is found there in the body.
proof fn lemma_placed_search(body: Seq<u8>, m: Seq<u8>, at: int, key: Seq<u8>, from: int)
    requires
        placed(body, m, at),
        0 <= from,
        bytes::search(m, key, from) is Some,
    ensures
        bytes::search(body, key, at + from) == Some(at + bytes::search(m, key, from)->0),
        from <= bytes::search(m, key, from)->0,
        bytes::search(m, key, from)->0 + key.len() <= m.len(),
{
    let i = choose|i: int| bytes::is_first_match(m, key, from, i);
    assert(bytes::is_first_match(m, key, from, i));
    lemma_placed_match(body, m, at, key, i);
    assert forall|p: int| at + from <= p < at + i implies !#[trigger] bytes::matches_at(
        body,
        key,
        p,
    ) by {
        lemma_placed_match(body, m, at, key, p - at);
        assert(!bytes::matches_at(m, key, p - at));
    }
    bytes::lemma_search_is(body, key, at + from, at + i);
}

/// A run that stops within a member stops there in the body.
proof fn lemma_placed_run(body: Seq<u8>, m: Seq<u8>, at: int, from: int, p: spec_fn(u8) -> bool)
    requires
        placed(body, m, at),
        0 <= from,
        bytes::skip_while(m, from, p) < m.len(),
    ensures
        bytes::skip_while(body, at + from, p) == at + bytes::skip_while(m, from, p),
        from <= bytes::skip_while(m, from, p),
{
    bytes::lemma_skip_while(m, from, p);
    let stop = bytes::skip_while(m, from, p);
    lemma_placed(body, m, at);
    assert forall|i: int| at + from <= i < at + stop implies p(#[trigger] body[i]) by {
        assert(p(m[i - at]));
    }
    bytes::lemma_skip_while_is(body, at + from, p, at + stop);
}

/// Where the value of a field of a member begins.
proof fn lemma_placed_value(body: Seq<u8>, m: Seq<u8>, at: int, key: Seq<u8>, from: int)
    requires
        placed(body, m, at),
        0 <= from,
        bytes::search(m, key, from) is Some,
        parse::value_start(m, bytes::after_key(m, key, from)->0) < m.len(),
    ensures
        bytes::after_key(body, key, at + from) == Some(at + bytes::after_key(m, key, from)->0),
        parse::value_start(body, at + bytes::after_key(m, key, from)->0) == at
            + parse::value_start(m, bytes::after_key(m, key, from)->0),
        0 <= parse::value_start(m, bytes::after_key(m, key, from)->0),
{
    lemma_placed_search(body, m, at, key, from);
    let after = bytes::after_key(m, key, from)->0;
    bytes::lemma_skip_while(m, after, bytes::other_than(COLON));
    let colon = bytes::skip_while(m, after, bytes::other_than(COLON));
    bytes::lemma_skip_while(m, colon + 1, bytes::is_blank());
    lemma_placed_run(body, m, at, after, bytes::other_than(COLON));
    lemma_placed_run(body, m, at, colon + 1, bytes::is_blank());
}

/// A position of a member as one of the body.
pub open spec fn moved(s: Span, at: int) -> Span {
    parse::span(at + s.start, at + s.end)
}

/// The bytes of a span of a member are those of the span of the body.
proof fn lemma_placed_slice(body: Seq<u8>, m: Seq<u8>, at: int, s: Span)
    requires
        placed(body, m, at),
        parse::within(m, s),
        body.len() <= usize::MAX,
    ensures
        parse::slice(body, moved(s, at)) == parse::slice(m, s),
        parse::within(body, moved(s, at)),
{
    lemma_placed(body, m, at);
    assert(parse::slice(body, moved(s, at)) =~= parse::slice(m, s));
}

/// A number field of a member that ends with a brace.
proof fn lemma_placed_number(body: Seq<u8>, m: Seq<u8>, at: int, key: Seq<u8>, from: int)
    requires
        placed(body, m, at),
        body.len() <= usize::MAX,
        0 <= from,
        m.len() > 0,
        m.last() == CLOSE_BRACE,
        parse::number_after(m, key, from) is Some,
    ensures
        parse::number_after(body, key, at + from) == Some(
            moved(parse::number_after(m, key, from)->0, at),
        ),
        parse::within(m, parse::number_after(m, key, from)->0),
        parse::slice(body, parse::number_after(body, key, at + from)->0) == parse::slice(
            m,
            parse::number_after(m, key, from)->0,
        ),
{
    let after = bytes::after_key(m, key, from)->0;
    let value = parse::value_start(m, after);
    lemma_placed_search(body, m, at, key, from);
    bytes::lemma_skip_while(m, after, bytes::other_than(COLON));
    let colon = bytes::skip_while(m, after, bytes::other_than(COLON));
    bytes::lemma_skip_while(m, colon + 1, bytes::is_blank());
    let start = parse::after_sign(m, value);
    let end = bytes::skip_while(m, start, parse::numeric());
    bytes::lemma_skip_while(m, start, parse::numeric());
    assert(m.subrange(value, end).len() > 0) by {
        if end == value {
            let t = m.subrange(value, end);
            assert(!parse::is_number(t));
        }
    }
    if end == m.len() {
        assert(end > start ==> parse::numeric()(m[end - 1]));
        assert(m[end - 1] == CLOSE_BRACE);
    }
    lemma_placed_value(body, m, at, key, from);
    lemma_placed(body, m, at);
    lemma_placed_run(body, m, at, start, parse::numeric());
    lemma_placed_slice(body, m, at, parse::span(value, end));
    assert(body.subrange(at + value, at + end) =~= m.subrange(value, end)) by {
        assert(parse::slice(body, moved(parse::span(value, end), at)) == m.subrange(value, end));
    }
}

/// A string field of a member.
proof fn lemma_placed_string(body: Seq<u8>, m: Seq<u8>, at: int, key: Seq<u8>, from: int)
    requires
        placed(body, m, at),
        body.len() <= usize::MAX,
        0 <= from,
        parse::string_after(m, key, from) is Some,
    ensures
        parse::string_after(body, key, at + from) == Some(
            moved(parse::string_after(m, key, from)->0, at),
        ),
        parse::slice(body, parse::string_after(body, key, at + from)->0) == parse::slice(
            m,
            parse::string_after(m, key, from)->0,
        ),
{
    let value = parse::value_start(m, bytes::after_key(m, key, from)->0);
    lemma_placed_value(body, m, at, key, from);
    lemma_placed(body, m, at);
    bytes::lemma_skip_while(m, value + 1, bytes::other_than(QUOTE));
    lemma_placed_run(body, m, at, value + 1, bytes::other_than(QUOTE));
    lemma_placed_slice(body, m, at, parse::string_after(m, key, from)->0);
}

/// A truth value of a member.
proof fn lemma_placed_bool(body: Seq<u8>, m: Seq<u8>, at: int, key: Seq<u8>, from: int)
    requires
        placed(body, m, at),
        0 <= from,
        parse::bool_after(m, key, from) is Some,
    ensures
        parse::bool_after(body, key, at + from) == parse::bool_after(m, key, from),
{
    reveal_strlit("true");
    reveal_strlit("false");
    let value = parse::value_start(m, bytes::after_key(m, key, from)->0);
    lemma_placed_value(body, m, at, key, from);
    let yes = bytes::text("true"@);
    let no = bytes::text("false"@);
    if bytes::matches_at(m, yes, value) {
        lemma_placed_match(body, m, at, yes, value);
    } else {
        lemma_placed_match(body, m, at, no, value);
        assert(m.subrange(value, value + 5)[0] == no[0]);
        lemma_placed(body, m, at);
        if bytes::matches_at(body, yes, at + value) {
            assert(body.subrange(at + value, at + value + 4)[0] == yes[0]);
        }
    }
}

/// The bracket that closes an array within a member closes it in the body.
proof fn lemma_placed_bracket(body: Seq<u8>, m: Seq<u8>, at: int, i: int, depth: int)
    requires
        placed(body, m, at),
        0 <= i,
        parse::closing_bracket(m, i, depth) is Some,
    ensures
        parse::closing_bracket(body, at + i, depth) == Some(
            at + parse::closing_bracket(m, i, depth)->0,
        ),
        i <= parse::closing_bracket(m, i, depth)->0 < m.len(),
    decreases m.len() - i,
{
    lemma_placed(body, m, at);
    if m[i] == OPEN_BRACKET {
        lemma_placed_bracket(body, m, at, i + 1, depth + 1);
    } else if m[i] == CLOSE_BRACKET && depth == 1 {
    } else if m[i] == CLOSE_BRACKET {
        lemma_placed_bracket(body, m, at, i + 1, depth - 1);
    } else {
        lemma_placed_bracket(body, m, at, i + 1, depth);
    }
}

/// An array of a member.
proof fn lemma_placed_array(body: Seq<u8>, m: Seq<u8>, at: int, key: Seq<u8>, from: int)
    requires
        placed(body, m, at),
        0 <= from,
        parse::array_after(m, key, from) is Some,
    ensures
        parse::array_after(body, key, at + from) == parse::array_after(m, key, from),
{
    let value = parse::value_start(m, bytes::after_key(m, key, from)->0);
    lemma_placed_value(body, m, at, key, from);
    lemma_placed(body, m, at);
    lemma_placed_bracket(body, m, at, value + 1, 1);
    let close = parse::closing_bracket(m, value + 1, 1)->0;
    assert(body.subrange(at + value + 1, at + close) =~= m.subrange(value + 1, close));
}

/// The members of a payload that a query is made of, each as its text: the name in quotes, a colon
/// and the value.
pub struct Sections {
    pub transaction: Seq<u8>,
    pub customer: Seq<u8>,
    pub merchant: Seq<u8>,
    pub terminal: Seq<u8>,
    pub last_transaction: Seq<u8>,
}

/// The text of a number field of a member.
pub open spec fn number_text(m: Seq<u8>, key: Seq<char>, from: int) -> Seq<u8> {
    parse::slice(m, parse::number_after(m, bytes::text(key), from)->0)
}

/// The inside of a string field of a member.
pub open spec fn string_text(m: Seq<u8>, key: Seq<char>, from: int) -> Seq<u8> {
    parse::slice(m, parse::string_after(m, bytes::text(key), from)->0)
}

/// A member has a number field.
pub open spec fn has_number(m: Seq<u8>, key: Seq<char>, from: int) -> bool {
    parse::number_after(m, bytes::text(key), from) is Some
}

/// A member has a string field.
pub open spec fn has_string(m: Seq<u8>, key: Seq<char>, from: int) -> bool {
    parse::string_after(m, bytes::text(key), from) is Some
}

/// A member begins with its name, and its value is an object.
pub open spec fn is_object_member(m: Seq<u8>, key: Seq<char>) -> bool {
    bytes::matches_at(m, bytes::text(key), 0) && m.len() > 0 && m.last() == CLOSE_BRACE
}

/// Where the value of the member on the last transaction begins.
pub open spec fn last_value(m: Seq<u8>) -> int {
    parse::value_start(m, "\"last_transaction\""@.len() as int)
}

/// The member on the last transaction is `null`.
pub open spec fn last_is_null(m: Seq<u8>) -> bool {
    bytes::matches_at(m, bytes::text("null"@), last_value(m))
}

/// The member on the last transaction is `null`, or an object with both its fields.
pub open spec fn is_last_member(m: Seq<u8>) -> bool {
    &&& bytes::matches_at(m, bytes::text("\"last_transaction\""@), 0)
    &&& last_value(m) < m.len()
    &&& last_is_null(m) || {
        &&& m[last_value(m)] == OPEN_BRACE
        &&& m.last() == CLOSE_BRACE
        &&& has_number(m, "\"km_from_current\""@, last_value(m))
        &&& has_string(m, "\"timestamp\""@, last_value(m))
    }
}

/// Every section has its fields.
pub open spec fn are_complete(s: Sections) -> bool {
    &&& is_object_member(s.transaction, "\"transaction\""@)
    &&& has_number(s.transaction, "\"amount\""@, 0)
    &&& has_number(s.transaction, "\"installments\""@, 0)
    &&& has_string(s.transaction, "\"requested_at\""@, 0)
    &&& timestamp::hour_is_readable(string_text(s.transaction, "\"requested_at\""@, 0))
    &&& is_object_member(s.customer, "\"customer\""@)
    &&& has_number(s.customer, "\"avg_amount\""@, 0)
    &&& has_number(s.customer, "\"tx_count_24h\""@, 0)
    &&& parse::array_after(s.customer, bytes::text("\"known_merchants\""@), 0) is Some
    &&& is_object_member(s.merchant, "\"merchant\""@)
    &&& has_string(s.merchant, "\"id\""@, 0)
    &&& has_string(s.merchant, "\"mcc\""@, 0)
    &&& has_number(s.merchant, "\"avg_amount\""@, 0)
    &&& is_object_member(s.terminal, "\"terminal\""@)
    &&& has_number(s.terminal, "\"km_from_home\""@, 0)
    &&& parse::bool_after(s.terminal, bytes::text("\"is_online\""@), 0) is Some
    &&& parse::bool_after(s.terminal, bytes::text("\"card_present\""@), 0) is Some
    &&& is_last_member(s.last_transaction)
}

/// `m` is a member, and no other member mentions `key`.
pub open spec fn is_only_home(members: Seq<Seq<u8>>, m: Seq<u8>, key: Seq<char>) -> bool {
    &&& members.contains(m)
    &&& forall|k: int|
        0 <= k < members.len() && mentions(#[trigger] members[k], bytes::text(key)) ==> members[k]
            == m
}

/// The members of a payload: the sections, in any order, and whatever else mentions neither the
/// name of a section nor that of the amount, such as the payload's own id.
pub open spec fn is_payload(members: Seq<Seq<u8>>, s: Sections) -> bool {
    &&& are_complete(s)
    &&& is_only_home(members, s.transaction, "\"transaction\""@)
    &&& is_only_home(members, s.transaction, "\"amount\""@)
    &&& is_only_home(members, s.customer, "\"customer\""@)
    &&& is_only_home(members, s.merchant, "\"merchant\""@)
    &&& is_only_home(members, s.terminal, "\"terminal\""@)
    &&& is_only_home(members, s.last_transaction, "\"last_transaction\""@)
}

/// The components on the last transaction, given when the current one was requested.
pub open spec fn last_values(m: Seq<u8>, requested_at: Seq<u8>) -> (Value, Value) {
    if last_is_null(m) {
        (Value::Missing, Value::Missing)
    } else {
        let elapsed = timestamp::epoch_secs(requested_at) - timestamp::epoch_secs(
            string_text(m, "\"timestamp\""@, last_value(m)),
        );
        (
            Value::Elapsed {
                seconds: (if elapsed > 0 {
                    elapsed
                } else {
                    0
                }) as i64,
                limit: parse::MAX_MINUTES,
            },
            Value::Scaled {
                number: number_text(m, "\"km_from_current\""@, last_value(m)),
                limit: parse::MAX_KM,
            },
        )
    }
}

/// A flag as a component.
pub open spec fn flag_value(b: bool) -> Value {
    Value::Fraction {
        part: if b {
            1
        } else {
            0
        },
        whole: 1,
    }
}

/// The components that the sections of a payload state, each from its own section.
pub open spec fn section_values(s: Sections) -> Seq<Value> {
    let amount = number_text(s.transaction, "\"amount\""@, 0);
    let requested_at = string_text(s.transaction, "\"requested_at\""@, 0);
    let (hour, dow) = timestamp::hour_dow(requested_at);
    let known = parse::quoted_strings(
        parse::array_after(s.customer, bytes::text("\"known_merchants\""@), 0)->0,
        0,
    );
    let (since, distance) = last_values(s.last_transaction, requested_at);
    seq![
        Value::Scaled { number: amount, limit: parse::MAX_AMOUNT },
        Value::Scaled {
            number: number_text(s.transaction, "\"installments\""@, 0),
            limit: parse::MAX_INSTALLMENTS,
        },
        Value::Ratio {
            number: amount,
            base: number_text(s.customer, "\"avg_amount\""@, 0),
            limit: parse::AMOUNT_VS_AVG_RATIO,
        },
        Value::Fraction { part: hour as u32, whole: 23 },
        Value::Fraction { part: dow as u32, whole: 6 },
        since,
        distance,
        Value::Scaled {
            number: number_text(s.terminal, "\"km_from_home\""@, 0),
            limit: parse::MAX_KM,
        },
        Value::Scaled {
            number: number_text(s.customer, "\"tx_count_24h\""@, 0),
            limit: parse::MAX_TX_COUNT_24H,
        },
        flag_value(parse::bool_after(s.terminal, bytes::text("\"is_online\""@), 0)->0),
        flag_value(parse::bool_after(s.terminal, bytes::text("\"card_present\""@), 0)->0),
        flag_value(!known.contains(string_text(s.merchant, "\"id\""@, 0))),
        Value::Fraction {
            part: parse::risk_of(string_text(s.merchant, "\"mcc\""@, 0)),
            whole: 100,
        },
        Value::Scaled {
            number: number_text(s.merchant, "\"avg_amount\""@, 0),
            limit: parse::MAX_MERCHANT_AVG_AMOUNT,
        },
    ]
}

/// A section begins in the body where its member is placed.
proof fn lemma_section(members: Seq<Seq<u8>>, m: Seq<u8>, key: Seq<char>) -> (at: int)
    requires
        is_only_home(members, m, key),
        key.len() > 0,
        !bytes::text(key).contains(OPEN_BRACE),
        !bytes::text(key).contains(COMMA),
        bytes::matches_at(m, bytes::text(key), 0),
    ensures
        placed(object_text(members), m, at),
        bytes::search(object_text(members), bytes::text(key), 0) == Some(at),
        bytes::search(m, bytes::text(key), 0) == Some(0int),
{
    assert(bytes::is_first_match(m, bytes::text(key), 0, 0));
    bytes::lemma_search_is(m, bytes::text(key), 0, 0);
    lemma_key_of_member(members, m, bytes::text(key), 0)
}

/// A field that is found in a section's member is found in the body from the section on.
spec fn number_agrees(body: Seq<u8>, from: int, m: Seq<u8>, key: Seq<char>) -> bool {
    has_number(body, key, from) && number_text(body, key, from) == number_text(m, key, 0)
}

spec fn string_agrees(body: Seq<u8>, from: int, m: Seq<u8>, key: Seq<char>) -> bool {
    has_string(body, key, from) && string_text(body, key, from) == string_text(m, key, 0)
}

#[verifier::rlimit(40)]
proof fn lemma_transaction(members: Seq<Seq<u8>>, s: Sections)
    requires
        is_payload(members, s),
        object_text(members).len() <= usize::MAX,
    ensures
        ({
            let body = object_text(members);
            let tx = parse::section(body, bytes::text("\"transaction\""@));
            &&& has_number(body, "\"amount\""@, 0)
            &&& number_agrees(body, tx, s.transaction, "\"amount\""@)
            &&& number_agrees(body, tx, s.transaction, "\"installments\""@)
            &&& string_agrees(body, tx, s.transaction, "\"requested_at\""@)
        }),
{
    reveal_strlit("\"transaction\"");
    reveal_strlit("\"amount\"");
    let body = object_text(members);
    let m = s.transaction;
    let at = lemma_section(members, m, "\"transaction\""@);
    lemma_placed_number(body, m, at, bytes::text("\"amount\""@), 0);
    lemma_placed_number(body, m, at, bytes::text("\"installments\""@), 0);
    lemma_placed_string(body, m, at, bytes::text("\"requested_at\""@), 0);
    let amount = bytes::text("\"amount\""@);
    let i = choose|i: int| bytes::is_first_match(m, amount, 0, i);
    assert(bytes::is_first_match(m, amount, 0, i));
    let first = lemma_key_of_member(members, m, amount, i);
    lemma_placed_search(body, m, first, amount, 0);
    lemma_placed_number(body, m, first, amount, 0);
}

proof fn lemma_customer(members: Seq<Seq<u8>>, s: Sections)
    requires
        is_payload(members, s),
        object_text(members).len() <= usize::MAX,
    ensures
        ({
            let body = object_text(members);
            let cu = parse::section(body, bytes::text("\"customer\""@));
            &&& number_agrees(body, cu, s.customer, "\"avg_amount\""@)
            &&& number_agrees(body, cu, s.customer, "\"tx_count_24h\""@)
            &&& parse::array_after(body, bytes::text("\"known_merchants\""@), cu)
                == parse::array_after(s.customer, bytes::text("\"known_merchants\""@), 0)
        }),
{
    reveal_strlit("\"customer\"");
    let body = object_text(members);
    let m = s.customer;
    let at = lemma_section(members, m, "\"customer\""@);
    lemma_placed_number(body, m, at, bytes::text("\"avg_amount\""@), 0);
    lemma_placed_number(body, m, at, bytes::text("\"tx_count_24h\""@), 0);
    lemma_placed_array(body, m, at, bytes::text("\"known_merchants\""@), 0);
}

proof fn lemma_merchant(members: Seq<Seq<u8>>, s: Sections)
    requires
        is_payload(members, s),
        object_text(members).len() <= usize::MAX,
    ensures
        ({
            let body = object_text(members);
            let me = parse::section(body, bytes::text("\"merchant\""@));
            &&& string_agrees(body, me, s.merchant, "\"id\""@)
            &&& string_agrees(body, me, s.merchant, "\"mcc\""@)
            &&& number_agrees(body, me, s.merchant, "\"avg_amount\""@)
        }),
{
    reveal_strlit("\"merchant\"");
    let body = object_text(members);
    let m = s.merchant;
    let at = lemma_section(members, m, "\"merchant\""@);
    lemma_placed_string(body, m, at, bytes::text("\"id\""@), 0);
    lemma_placed_string(body, m, at, bytes::text("\"mcc\""@), 0);
    lemma_placed_number(body, m, at, bytes::text("\"avg_amount\""@), 0);
}

proof fn lemma_terminal(members: Seq<Seq<u8>>, s: Sections)
    requires
        is_payload(members, s),
        object_text(members).len() <= usize::MAX,
    ensures
        ({
            let body = object_text(members);
            let te = parse::section(body, bytes::text("\"terminal\""@));
            &&& number_agrees(body, te, s.terminal, "\"km_from_home\""@)
            &&& parse::bool_after(body, bytes::text("\"is_online\""@), te) == parse::bool_after(
                s.terminal,
                bytes::text("\"is_online\""@),
                0,
            )
            &&& parse::bool_after(body, bytes::text("\"card_present\""@), te)
                == parse::bool_after(s.terminal, bytes::text("\"card_present\""@), 0)
        }),
{
    reveal_strlit("\"terminal\"");
    let body = object_text(members);
    let m = s.terminal;
    let at = lemma_section(members, m, "\"terminal\""@);
    lemma_placed_number(body, m, at, bytes::text("\"km_from_home\""@), 0);
    lemma_placed_bool(body, m, at, bytes::text("\"is_online\""@), 0);
    lemma_placed_bool(body, m, at, bytes::text("\"card_present\""@), 0);
}

#[verifier::rlimit(40)]
proof fn lemma_last(members: Seq<Seq<u8>>, s: Sections, req_at: Span)
    requires
        is_payload(members, s),
        object_text(members).len() <= usize::MAX,
    ensures
        ({
            let body = object_text(members);
            let m = s.last_transaction;
            let last = parse::last_transaction(body, parse::last_section(body), req_at);
            let requested_at = parse::slice(body, req_at);
            if last_is_null(m) {
                !last.2
            } else {
                &&& last.2
                &&& last.1 is Some
                &&& last_values(m, requested_at) == (
                    (Value::Elapsed { seconds: last.0 as i64, limit: parse::MAX_MINUTES }),
                    (Value::Scaled {
                        number: parse::slice(body, last.1->0),
                        limit: parse::MAX_KM,
                    }),
                )
            }
        }),
{
    reveal_strlit("\"last_transaction\"");
    reveal_strlit("null");
    let body = object_text(members);
    let m = s.last_transaction;
    let key = bytes::text("\"last_transaction\""@);
    let null = bytes::text("null"@);
    let at = lemma_section(members, m, "\"last_transaction\""@);
    let value = last_value(m);
    lemma_placed_value(body, m, at, key, 0);
    if last_is_null(m) {
        lemma_placed_match(body, m, at, null, value);
    } else {
        lemma_placed(body, m, at);
        assert(body[at + value] == m[value]);
        if bytes::matches_at(body, null, at + value) {
            assert(body.subrange(at + value, at + value + 4)[0] == null[0]);
        }
        lemma_placed_number(body, m, at, bytes::text("\"km_from_current\""@), value);
        lemma_placed_string(body, m, at, bytes::text("\"timestamp\""@), value);
    }
}

/// The fields of a body are those of its sections.
spec fn fields_agree(body: Seq<u8>, f: parse::Fields, s: Sections) -> bool {
    let known = parse::quoted_strings(
        parse::array_after(s.customer, bytes::text("\"known_merchants\""@), 0)->0,
        0,
    );
    &&& parse::slice(body, f.amount) == number_text(s.transaction, "\"amount\""@, 0)
    &&& parse::slice(body, f.installments) == number_text(s.transaction, "\"installments\""@, 0)
    &&& parse::slice(body, f.requested_at) == string_text(s.transaction, "\"requested_at\""@, 0)
    &&& parse::slice(body, f.avg_amount) == number_text(s.customer, "\"avg_amount\""@, 0)
    &&& parse::slice(body, f.tx_count_24h) == number_text(s.customer, "\"tx_count_24h\""@, 0)
    &&& parse::slice(body, f.mcc) == string_text(s.merchant, "\"mcc\""@, 0)
    &&& parse::slice(body, f.merchant_avg_amount) == number_text(
        s.merchant,
        "\"avg_amount\""@,
        0,
    )
    &&& parse::slice(body, f.km_from_home) == number_text(s.terminal, "\"km_from_home\""@, 0)
    &&& f.is_online == parse::bool_after(s.terminal, bytes::text("\"is_online\""@), 0)->0
    &&& f.card_present == parse::bool_after(s.terminal, bytes::text("\"card_present\""@), 0)->0
    &&& f.unknown_merchant == !known.contains(string_text(s.merchant, "\"id\""@, 0))
}

proof fn lemma_fields(members: Seq<Seq<u8>>, s: Sections)
    requires
        is_payload(members, s),
        object_text(members).len() <= usize::MAX,
    ensures
        parse::fields_of(object_text(members)) is Some,
        fields_agree(object_text(members), parse::fields_of(object_text(members))->0, s),
{
    lemma_transaction(members, s);
    lemma_customer(members, s);
    lemma_merchant(members, s);
    lemma_terminal(members, s);
}

/// Fields that agree with the sections make the components that the sections state.
proof fn lemma_values(body: Seq<u8>, f: parse::Fields, s: Sections)
    requires
        fields_agree(body, f, s),
        ({
            let m = s.last_transaction;
            let last = parse::last_transaction(body, parse::last_section(body), f.requested_at);
            let values = last_values(m, parse::slice(body, f.requested_at));
            if last_is_null(m) {
                !last.2
            } else {
                &&& last.2
                &&& last.1 is Some
                &&& values.0 == (Value::Elapsed {
                    seconds: last.0 as i64,
                    limit: parse::MAX_MINUTES,
                })
                &&& values.1 == (Value::Scaled {
                    number: parse::slice(body, last.1->0),
                    limit: parse::MAX_KM,
                })
            }
        }),
    ensures
        parse::features_of(body, f).map_values(|feature: Feature| value_of(body, feature))
            == section_values(s),
{
    let v = parse::features_of(body, f);
    let w = v.map_values(|feature: Feature| value_of(body, feature));
    let t = section_values(s);
    assert(w.len() == 14 && t.len() == 14);
    assert(w[0] == t[0] && w[1] == t[1] && w[2] == t[2]);
    assert(w[3] == t[3] && w[4] == t[4]);
    assert(w[5] == t[5] && w[6] == t[6]);
    assert(w[7] == t[7] && w[8] == t[8]);
    assert(w[9] == t[9] && w[10] == t[10] && w[11] == t[11]);
    assert(w[12] == t[12] && w[13] == t[13]);
    assert forall|k: int| 0 <= k < 14 implies w[k] == t[k] by {
        assert(k == 0 || k == 1 || k == 2 || k == 3 || k == 4 || k == 5 || k == 6 || k == 7 || k
            == 8 || k == 9 || k == 10 || k == 11 || k == 12 || k == 13);
    }
    assert(w =~= t);
}

/// The query of a payload is made of what its sections state, each field found in its own section,
/// in whatever order the sections come and whatever other members stand among them.
pub proof fn law_fields_are_found_in_their_sections(members: Seq<Seq<u8>>, s: Sections)
    requires
        is_payload(members, s),
        object_text(members).len() < usize::MAX,
    ensures
        values_of(object_text(members)) == Some(section_values(s)),
{
    let body = object_text(members);
    lemma_fields(members, s);
    let f = parse::fields_of(body)->0;
    lemma_last(members, s, f.requested_at);
    lemma_values(body, f, s);
}

/// Neither the order of a payload's members nor those that are not sections, such as its id, have
/// an influence on the query: the text of every component is the same.
pub proof fn law_order_of_members_does_not_matter(
    members: Seq<Seq<u8>>,
    other: Seq<Seq<u8>>,
    s: Sections,
)
    requires
        is_payload(members, s),
        is_payload(other, s),
        object_text(members).len() < usize::MAX,
        object_text(other).len() < usize::MAX,
    ensures
        values_of(object_text(members)) is Some,
        values_of(object_text(other)) == values_of(object_text(members)),
{
    law_fields_are_found_in_their_sections(members, s);
    law_fields_are_found_in_their_sections(other, s);
}

} // verus!
