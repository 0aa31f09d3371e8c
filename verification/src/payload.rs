//! Payloads as they are written, and that they are read back.

use crate::bytes;
use crate::bytes::{
    CLOSE_BRACE, CLOSE_BRACKET, COLON, COMMA, OPEN_BRACE, OPEN_BRACKET, QUOTE,
};
use crate::members;
use crate::members::{Sections, Value};
use crate::parse;
use crate::timestamp;
use vstd::prelude::*;

verus! {

/// A key: a name in quotes, without any of the bytes that structure an object.
pub open spec fn is_key(key: Seq<u8>) -> bool {
    &&& key.len() >= 3
    &&& key[0] == QUOTE
    &&& key[key.len() - 1] == QUOTE
    &&& forall|i: int| 0 < i < key.len() - 1 ==> #[trigger] key[i] != QUOTE
    &&& !key.contains(COLON)
    &&& !key.contains(COMMA)
    &&& !key.contains(OPEN_BRACE)
    &&& !key.contains(CLOSE_BRACE)
    &&& !key.contains(OPEN_BRACKET)
    &&& !key.contains(CLOSE_BRACKET)
}

/// The keys of a payload.
pub open spec fn is_name(key: Seq<u8>) -> bool {
    ||| key == bytes::text("\"transaction\""@)
    ||| key == bytes::text("\"amount\""@)
    ||| key == bytes::text("\"installments\""@)
    ||| key == bytes::text("\"requested_at\""@)
    ||| key == bytes::text("\"customer\""@)
    ||| key == bytes::text("\"avg_amount\""@)
    ||| key == bytes::text("\"tx_count_24h\""@)
    ||| key == bytes::text("\"known_merchants\""@)
    ||| key == bytes::text("\"merchant\""@)
    ||| key == bytes::text("\"id\""@)
    ||| key == bytes::text("\"mcc\""@)
    ||| key == bytes::text("\"terminal\""@)
    ||| key == bytes::text("\"is_online\""@)
    ||| key == bytes::text("\"card_present\""@)
    ||| key == bytes::text("\"km_from_home\""@)
    ||| key == bytes::text("\"last_transaction\""@)
    ||| key == bytes::text("\"timestamp\""@)
    ||| key == bytes::text("\"km_from_current\""@)
}

/// A key of the given length, of which the second and third byte are given.
spec fn named(key: Seq<char>, len: int, second: u8, third: u8) -> bool {
    let k = bytes::text(key);
    is_key(k) && k.len() == len && k[1] == second && k[2] == third
}

/// The keys of a payload are told apart by their length and two of their bytes.
proof fn lemma_names()
    ensures
        named("\"transaction\""@, 13, 116, 114),
        named("\"amount\""@, 8, 97, 109),
        named("\"installments\""@, 14, 105, 110),
        named("\"requested_at\""@, 14, 114, 101),
        named("\"customer\""@, 10, 99, 117),
        named("\"avg_amount\""@, 12, 97, 118),
        named("\"tx_count_24h\""@, 14, 116, 120),
        named("\"known_merchants\""@, 17, 107, 110),
        named("\"merchant\""@, 10, 109, 101),
        named("\"id\""@, 4, 105, 100),
        named("\"mcc\""@, 5, 109, 99),
        named("\"terminal\""@, 10, 116, 101),
        named("\"is_online\""@, 11, 105, 115),
        named("\"card_present\""@, 14, 99, 97),
        named("\"km_from_home\""@, 14, 107, 109),
        named("\"last_transaction\""@, 18, 108, 97),
        named("\"timestamp\""@, 11, 116, 105),
        named("\"km_from_current\""@, 17, 107, 109),
{
    assert(named("\"transaction\""@, 13, 116, 114)) by {
        reveal_strlit("\"transaction\"");
    }
    assert(named("\"amount\""@, 8, 97, 109)) by {
        reveal_strlit("\"amount\"");
    }
    assert(named("\"installments\""@, 14, 105, 110)) by {
        reveal_strlit("\"installments\"");
    }
    assert(named("\"requested_at\""@, 14, 114, 101)) by {
        reveal_strlit("\"requested_at\"");
    }
    assert(named("\"customer\""@, 10, 99, 117)) by {
        reveal_strlit("\"customer\"");
    }
    assert(named("\"avg_amount\""@, 12, 97, 118)) by {
        reveal_strlit("\"avg_amount\"");
    }
    assert(named("\"tx_count_24h\""@, 14, 116, 120)) by {
        reveal_strlit("\"tx_count_24h\"");
    }
    assert(named("\"known_merchants\""@, 17, 107, 110)) by {
        reveal_strlit("\"known_merchants\"");
    }
    assert(named("\"merchant\""@, 10, 109, 101)) by {
        reveal_strlit("\"merchant\"");
    }
    assert(named("\"id\""@, 4, 105, 100)) by {
        reveal_strlit("\"id\"");
    }
    assert(named("\"mcc\""@, 5, 109, 99)) by {
        reveal_strlit("\"mcc\"");
    }
    assert(named("\"terminal\""@, 10, 116, 101)) by {
        reveal_strlit("\"terminal\"");
    }
    assert(named("\"is_online\""@, 11, 105, 115)) by {
        reveal_strlit("\"is_online\"");
    }
    assert(named("\"card_present\""@, 14, 99, 97)) by {
        reveal_strlit("\"card_present\"");
    }
    assert(named("\"km_from_home\""@, 14, 107, 109)) by {
        reveal_strlit("\"km_from_home\"");
    }
    assert(named("\"last_transaction\""@, 18, 108, 97)) by {
        reveal_strlit("\"last_transaction\"");
    }
    assert(named("\"timestamp\""@, 11, 116, 105)) by {
        reveal_strlit("\"timestamp\"");
    }
    assert(named("\"km_from_current\""@, 17, 107, 109)) by {
        reveal_strlit("\"km_from_current\"");
    }
}

/// The keys of a payload are keys.
proof fn lemma_name_is_key(key: Seq<u8>)
    requires
        is_name(key),
    ensures
        is_key(key),
{
    lemma_names();
}

/// A string in quotes.
pub open spec fn quoted(x: Seq<u8>) -> Seq<u8> {
    seq![QUOTE] + x + seq![QUOTE]
}

/// A member of an object: a key, a colon and a value.
pub open spec fn member(key: Seq<char>, value: Seq<u8>) -> Seq<u8> {
    bytes::text(key) + seq![COLON] + value
}

/// No key of a payload stands in a value.
pub open spec fn is_quiet(value: Seq<u8>) -> bool {
    forall|key: Seq<u8>| is_name(key) ==> !#[trigger] members::mentions(value, key)
}

/// A key that stands in a text with a structural byte stands before or after that byte.
proof fn lemma_mentions_split(a: Seq<u8>, c: u8, b: Seq<u8>, key: Seq<u8>)
    requires
        members::mentions(a + seq![c] + b, key),
        !key.contains(c),
    ensures
        members::mentions(a, key) || members::mentions(b, key),
{
    let s = a + seq![c] + b;
    let i = choose|i: int| bytes::matches_at(s, key, i);
    assert(bytes::matches_at(s, key, i));
    assert(s[a.len() as int] == c);
    members::lemma_no_straddle(s, key, i, a.len() as int);
    if i + key.len() <= a.len() {
        assert(a.subrange(i, i + key.len()) =~= s.subrange(i, i + key.len()));
        assert(bytes::matches_at(a, key, i));
    } else {
        let k = i - a.len() - 1;
        assert(b.subrange(k, k + key.len()) =~= s.subrange(i, i + key.len()));
        assert(bytes::matches_at(b, key, k));
    }
}

/// A key does not stand in a text without quotes.
proof fn lemma_bare_is_silent(s: Seq<u8>, key: Seq<u8>)
    requires
        !s.contains(QUOTE),
        is_key(key),
    ensures
        !members::mentions(s, key),
{
    if members::mentions(s, key) {
        let i = choose|i: int| bytes::matches_at(s, key, i);
        assert(bytes::matches_at(s, key, i));
        assert(s.subrange(i, i + key.len())[0] == s[i]);
        assert(s.contains(s[i]));
    }
}

/// The only key that stands in a string in quotes is the whole of it.
proof fn lemma_quoted_mentions(x: Seq<u8>, key: Seq<u8>)
    requires
        !x.contains(QUOTE),
        is_key(key),
        members::mentions(quoted(x), key),
    ensures
        quoted(x) == key,
{
    let s = quoted(x);
    let i = choose|i: int| bytes::matches_at(s, key, i);
    assert(bytes::matches_at(s, key, i));
    let sub = s.subrange(i, i + key.len());
    assert forall|k: int| 0 < k < s.len() - 1 implies #[trigger] s[k] != QUOTE by {
        assert(s[k] == x[k - 1]);
        assert(x.contains(x[k - 1]));
    }
    assert(sub[0] == s[i]);
    assert(i == 0);
    assert(sub[key.len() - 1] == s[key.len() - 1]);
    assert(key.len() == s.len());
    assert(s =~= sub);
}

/// The inside of a key has no quotes.
proof fn lemma_key_is_quoted(key: Seq<u8>) -> (x: Seq<u8>)
    requires
        is_key(key),
    ensures
        !x.contains(QUOTE),
        key == quoted(x),
{
    let x = key.subrange(1, key.len() - 1);
    assert(key =~= quoted(x));
    if x.contains(QUOTE) {
        let k = choose|k: int| 0 <= k < x.len() && x[k] == QUOTE;
        assert(key[k + 1] == QUOTE);
    }
    x
}

/// The only key that stands in a member with a quiet value is its own.
proof fn lemma_member_mentions(key: Seq<char>, value: Seq<u8>, other: Seq<u8>)
    requires
        is_name(bytes::text(key)),
        is_name(other),
        is_quiet(value),
        members::mentions(member(key, value), other),
    ensures
        other == bytes::text(key),
{
    lemma_name_is_key(bytes::text(key));
    lemma_name_is_key(other);
    lemma_mentions_split(bytes::text(key), COLON, value, other);
    let x = lemma_key_is_quoted(bytes::text(key));
    lemma_quoted_mentions(x, other);
}

/// A key that stands in an object stands in one of its members.
proof fn lemma_object_mentions(fields: Seq<Seq<u8>>, key: Seq<u8>)
    requires
        fields.len() > 0,
        is_key(key),
        members::mentions(members::object_text(fields), key),
    ensures
        exists|k: int| 0 <= k < fields.len() && members::mentions(#[trigger] fields[k], key),
{
    let none = Seq::<u8>::empty();
    let text = members::members_text(fields);
    assert(members::object_text(fields) =~= none + seq![OPEN_BRACE] + text);
    lemma_mentions_split(none, OPEN_BRACE, text, key);
    lemma_bare_is_silent(none, key);
    lemma_members_mention(fields, key);
}

proof fn lemma_members_mention(fields: Seq<Seq<u8>>, key: Seq<u8>)
    requires
        fields.len() > 0,
        is_key(key),
        members::mentions(members::members_text(fields), key),
    ensures
        exists|k: int| 0 <= k < fields.len() && members::mentions(#[trigger] fields[k], key),
    decreases fields.len(),
{
    let none = Seq::<u8>::empty();
    if fields.len() == 1 {
        assert(members::members_text(fields) =~= fields[0] + seq![CLOSE_BRACE] + none);
        lemma_mentions_split(fields[0], CLOSE_BRACE, none, key);
        lemma_bare_is_silent(none, key);
        assert(members::mentions(fields[0], key));
    } else {
        let rest = fields.drop_first();
        lemma_mentions_split(fields[0], COMMA, members::members_text(rest), key);
        if !members::mentions(fields[0], key) {
            lemma_members_mention(rest, key);
            let k = choose|k: int| 0 <= k < rest.len() && members::mentions(#[trigger] rest[k], key);
            assert(fields[k + 1] == rest[k]);
        }
    }
}

/// Where a field of a section stands: its key comes first there, and a comma or the closing brace
/// follows its value.
spec fn field_stands(m: Seq<u8>, from: int, key: Seq<char>, value: Seq<u8>, at: int) -> bool {
    &&& from <= at
    &&& bytes::is_first_match(m, bytes::text(key), 0, at)
    &&& members::placed(m, member(key, value), at)
    &&& members::is_closed(m, member(key, value), at)
}

/// A field of a section is found where it stands.
proof fn lemma_field_stands(
    name: Seq<char>,
    fields: Seq<Seq<u8>>,
    j: int,
    key: Seq<char>,
    value: Seq<u8>,
) -> (at: int)
    requires
        is_name(bytes::text(name)),
        is_name(bytes::text(key)),
        bytes::text(name) != bytes::text(key),
        0 <= j < fields.len(),
        fields[j] == member(key, value),
        forall|k: int|
            0 <= k < fields.len() && members::mentions(#[trigger] fields[k], bytes::text(key))
                ==> k == j,
    ensures
        field_stands(
            member(name, members::object_text(fields)),
            bytes::text(name).len() as int + 1,
            key,
            value,
            at,
        ),
{
    lemma_name_is_key(bytes::text(name));
    lemma_name_is_key(bytes::text(key));
    let k = bytes::text(key);
    let n = bytes::text(name);
    let f = fields[j];
    let object = members::object_text(fields);
    let m = member(name, object);
    assert(f.subrange(0, k.len() as int) =~= k);
    assert(bytes::is_first_match(f, k, 0, 0));
    assert(fields.contains(f));
    let inner = members::lemma_key_of_member(fields, f, k, 0);
    let at = n.len() + 1 + inner;
    let first = choose|i: int| bytes::is_first_match(object, k, 0, i);
    assert(bytes::is_first_match(object, k, 0, first));
    assert(first == inner);
    let base = n.len() as int + 1;
    assert(m.subrange(base, base + object.len()) =~= object);
    assert(members::placed(m, object, base));
    members::lemma_placed(m, object, base);
    members::lemma_placed(object, f, inner);
    assert(m.subrange(at, at + f.len()) =~= f);
    members::lemma_placed_match(m, object, base, k, inner);
    assert forall|p: int| 0 <= p < at implies !#[trigger] bytes::matches_at(m, k, p) by {
        if bytes::matches_at(m, k, p) {
            assert(m[n.len() as int] == COLON);
            members::lemma_no_straddle(m, k, p, n.len() as int);
            if p < base {
                assert(n.subrange(p, p + k.len()) =~= m.subrange(p, p + k.len()));
                assert(bytes::matches_at(n, k, p));
                assert(members::mentions(n, k));
                let x = lemma_key_is_quoted(n);
                lemma_quoted_mentions(x, k);
            } else {
                members::lemma_placed_match(m, object, base, k, p - base);
                assert(!bytes::matches_at(object, k, p - base));
            }
        }
    }
    assert(m[at + f.len()] == object[inner + f.len()]);
    at
}

/// A decimal number, written with nothing but the bytes of one.
pub open spec fn is_decimal(t: Seq<u8>) -> bool {
    parse::is_number(t) && forall|i: int| 0 <= i < t.len() ==> parse::numeric()(#[trigger] t[i])
}

/// A number field is read back.
proof fn lemma_number_is_read(
    m: Seq<u8>,
    start: int,
    key: Seq<char>,
    value: Seq<u8>,
    at: int,
    from: int,
)
    requires
        m.len() <= usize::MAX,
        field_stands(m, start, key, value, at),
        0 <= from <= start,
        is_decimal(value),
    ensures
        members::has_number(m, key, from),
        members::number_text(m, key, from) == value,
{
    let k = bytes::text(key);
    let begin = at + k.len() + 1;
    let end = begin + value.len();
    members::lemma_placed(m, member(key, value), at);
    assert(m.subrange(begin, end) =~= value) by {
        assert forall|i: int| 0 <= i < value.len() implies m[begin + i] == #[trigger] value[i] by {
            assert(member(key, value)[k.len() + 1 + i] == value[i]);
        }
    }
    assert(value.len() > 0) by {
        assert(!parse::is_number(Seq::<u8>::empty()));
        if value.len() == 0 {
            assert(value =~= Seq::<u8>::empty());
        }
    }
    assert forall|i: int| begin <= i < end implies parse::numeric()(#[trigger] m[i]) by {
        assert(m[i] == m.subrange(begin, end)[i - begin]);
        assert(parse::numeric()(value[i - begin]));
    }
    assert(member(key, value)[k.len() as int] == COLON);
    assert(m[at + k.len()] == COLON);
    assert(bytes::is_first_match(m, k, from, at));
    assert(parse::numeric()(m[begin]));
    assert(parse::has_field(m, k, from, at, begin));
    parse::law_number_fields_are_found(m, k, from, at, begin, end);
}

/// A string field is read back.
proof fn lemma_string_is_read(
    m: Seq<u8>,
    start: int,
    key: Seq<char>,
    x: Seq<u8>,
    at: int,
    from: int,
)
    requires
        m.len() <= usize::MAX,
        field_stands(m, start, key, quoted(x), at),
        0 <= from <= start,
        !x.contains(QUOTE),
    ensures
        members::has_string(m, key, from),
        members::string_text(m, key, from) == x,
{
    let k = bytes::text(key);
    let value = quoted(x);
    let begin = at + k.len() + 1;
    let end = begin + value.len() - 1;
    members::lemma_placed(m, member(key, value), at);
    assert forall|i: int| 0 <= i < value.len() implies m[begin + i] == #[trigger] value[i] by {
        assert(member(key, value)[k.len() + 1 + i] == value[i]);
    }
    assert(m[begin] == value[0]);
    assert(m[end] == value[value.len() - 1]);
    assert forall|i: int| begin < i < end implies #[trigger] m[i] != QUOTE by {
        assert(m[begin + (i - begin)] == value[i - begin]);
        assert(value[i - begin] == x[i - begin - 1]);
        assert(x.contains(x[i - begin - 1]));
    }
    assert(member(key, value)[k.len() as int] == COLON);
    assert(m[at + k.len()] == COLON);
    assert(bytes::is_first_match(m, k, from, at));
    assert(parse::has_field(m, k, from, at, begin));
    parse::law_string_fields_are_found(m, k, from, at, begin, end);
    assert(m.subrange(begin + 1, end) =~= x) by {
        assert forall|i: int| 0 <= i < x.len() implies m[begin + 1 + i] == #[trigger] x[i] by {
            assert(value[i + 1] == x[i]);
        }
    }
}

/// A truth value as it is written.
pub open spec fn bool_text(b: bool) -> Seq<u8> {
    if b {
        bytes::text("true"@)
    } else {
        bytes::text("false"@)
    }
}

/// A truth value is read back.
proof fn lemma_bool_is_read(m: Seq<u8>, start: int, key: Seq<char>, b: bool, at: int)
    requires
        0 <= start,
        field_stands(m, start, key, bool_text(b), at),
    ensures
        parse::bool_after(m, bytes::text(key), 0) == Some(b),
{
    reveal_strlit("true");
    reveal_strlit("false");
    let k = bytes::text(key);
    let value = bool_text(b);
    let begin = at + k.len() + 1;
    members::lemma_placed(m, member(key, value), at);
    assert forall|i: int| 0 <= i < value.len() implies m[begin + i] == #[trigger] value[i] by {
        assert(member(key, value)[k.len() + 1 + i] == value[i]);
    }
    assert(m[begin] == value[0]);
    assert(member(key, value)[k.len() as int] == COLON);
    assert(m[at + k.len()] == COLON);
    bytes::lemma_search_is(m, k, 0, at);
    parse::lemma_value_start(m, at + k.len(), begin);
    assert(m.subrange(begin, begin + value.len()) =~= value);
    if !b && bytes::matches_at(m, bytes::text("true"@), begin) {
        assert(m.subrange(begin, begin + 4)[0] == bytes::text("true"@)[0]);
    }
}

/// An array of strings as it is written.
pub open spec fn array_text(items: Seq<Seq<u8>>) -> Seq<u8> {
    seq![OPEN_BRACKET] + parse::listed(items, seq![COMMA]) + seq![CLOSE_BRACKET]
}

/// A string that is written in quotes: it has no quote, and it is not the name of a field.
pub open spec fn is_text(x: Seq<u8>) -> bool {
    !x.contains(QUOTE) && !is_name(quoted(x))
}

/// A string that is written in an array: it has no bracket either.
pub open spec fn is_item(x: Seq<u8>) -> bool {
    is_text(x) && !x.contains(OPEN_BRACKET) && !x.contains(CLOSE_BRACKET)
}

/// No bracket stands in a list of items.
proof fn lemma_listed_has_no_brackets(items: Seq<Seq<u8>>)
    requires
        forall|k: int| 0 <= k < items.len() ==> is_item(#[trigger] items[k]),
    ensures
        forall|i: int|
            0 <= i < parse::listed(items, seq![COMMA]).len() ==> #[trigger] parse::listed(
                items,
                seq![COMMA],
            )[i] != OPEN_BRACKET && parse::listed(items, seq![COMMA])[i] != CLOSE_BRACKET,
    decreases items.len(),
{
    if items.len() > 0 {
        let item = items[0];
        let rest = items.drop_first();
        assert forall|k: int| 0 <= k < rest.len() implies is_item(#[trigger] rest[k]) by {
            assert(rest[k] == items[k + 1]);
        }
        lemma_listed_has_no_brackets(rest);
        let gap = seq![COMMA];
        let sep = if items.len() > 1 {
            gap
        } else {
            Seq::empty()
        };
        let front = quoted(item) + sep;
        let back = parse::listed(rest, gap);
        let s = parse::listed(items, gap);
        assert(s =~= front + back);
        assert forall|i: int| 0 <= i < s.len() implies #[trigger] s[i] != OPEN_BRACKET && s[i]
            != CLOSE_BRACKET by {
            if i >= front.len() {
                assert(s[i] == back[i - front.len()]);
            } else if 0 < i < item.len() + 1 {
                assert(s[i] == item[i - 1]);
                assert(item.contains(item[i - 1]));
            }
        }
    }
}

/// An array of strings is read back.
proof fn lemma_array_is_read(
    m: Seq<u8>,
    start: int,
    key: Seq<char>,
    items: Seq<Seq<u8>>,
    at: int,
)
    requires
        0 <= start,
        field_stands(m, start, key, array_text(items), at),
        forall|k: int| 0 <= k < items.len() ==> is_item(#[trigger] items[k]),
    ensures
        parse::array_after(m, bytes::text(key), 0) is Some,
        parse::quoted_strings(parse::array_after(m, bytes::text(key), 0)->0, 0) == items,
{
    let k = bytes::text(key);
    let value = array_text(items);
    let inside = parse::listed(items, seq![COMMA]);
    let begin = at + k.len() + 1;
    let end = begin + value.len() - 1;
    members::lemma_placed(m, member(key, value), at);
    assert forall|i: int| 0 <= i < value.len() implies m[begin + i] == #[trigger] value[i] by {
        assert(member(key, value)[k.len() + 1 + i] == value[i]);
    }
    assert(m[begin] == value[0]);
    assert(m[end] == value[value.len() - 1]);
    lemma_listed_has_no_brackets(items);
    assert forall|i: int| begin < i < end implies #[trigger] m[i] != OPEN_BRACKET && m[i]
        != CLOSE_BRACKET by {
        assert(m[begin + (i - begin)] == value[i - begin]);
        assert(value[i - begin] == inside[i - begin - 1]);
    }
    assert(member(key, value)[k.len() as int] == COLON);
    assert(m[at + k.len()] == COLON);
    assert(parse::has_field(m, k, 0, at, begin));
    parse::law_array_fields_are_found(m, k, 0, at, begin, end);
    assert(m.subrange(begin + 1, end) =~= inside) by {
        assert forall|i: int| 0 <= i < inside.len() implies m[begin + 1 + i]
            == #[trigger] inside[i] by {
            assert(value[i + 1] == inside[i]);
        }
    }
    assert forall|k: int| 0 <= k < items.len() implies !(#[trigger] items[k]).contains(QUOTE) by {
        assert(is_item(items[k]));
    }
    parse::law_array_items_are_found(items, seq![COMMA]);
}

/// A text without quotes is quiet.
proof fn lemma_bare_is_quiet(s: Seq<u8>)
    requires
        !s.contains(QUOTE),
    ensures
        is_quiet(s),
{
    assert forall|key: Seq<u8>| is_name(key) implies !#[trigger] members::mentions(s, key) by {
        lemma_name_is_key(key);
        lemma_bare_is_silent(s, key);
    }
}

/// A number is quiet.
proof fn lemma_decimal_is_quiet(t: Seq<u8>)
    requires
        is_decimal(t),
    ensures
        is_quiet(t),
{
    if t.contains(QUOTE) {
        let i = choose|i: int| 0 <= i < t.len() && t[i] == QUOTE;
        assert(parse::numeric()(t[i]));
    }
    lemma_bare_is_quiet(t);
}

/// A string in quotes is quiet.
proof fn lemma_text_is_quiet(x: Seq<u8>)
    requires
        is_text(x),
    ensures
        is_quiet(quoted(x)),
{
    assert forall|key: Seq<u8>| is_name(key) implies !#[trigger] members::mentions(
        quoted(x),
        key,
    ) by {
        lemma_name_is_key(key);
        if members::mentions(quoted(x), key) {
            lemma_quoted_mentions(x, key);
        }
    }
}

/// A truth value is quiet.
proof fn lemma_bool_is_quiet(b: bool)
    ensures
        is_quiet(bool_text(b)),
{
    reveal_strlit("true");
    reveal_strlit("false");
    lemma_bare_is_quiet(bool_text(b));
}

/// A list of items is quiet.
proof fn lemma_listed_is_quiet(items: Seq<Seq<u8>>)
    requires
        forall|k: int| 0 <= k < items.len() ==> is_item(#[trigger] items[k]),
    ensures
        is_quiet(parse::listed(items, seq![COMMA])),
    decreases items.len(),
{
    let gap = seq![COMMA];
    if items.len() == 0 {
        lemma_bare_is_quiet(parse::listed(items, gap));
    } else {
        let rest = items.drop_first();
        assert forall|k: int| 0 <= k < rest.len() implies is_item(#[trigger] rest[k]) by {
            assert(rest[k] == items[k + 1]);
        }
        lemma_listed_is_quiet(rest);
        assert(is_item(items[0]));
        lemma_text_is_quiet(items[0]);
        let s = parse::listed(items, gap);
        let first = quoted(items[0]);
        assert forall|key: Seq<u8>| is_name(key) implies !#[trigger] members::mentions(s, key) by {
            lemma_name_is_key(key);
            if members::mentions(s, key) {
                if items.len() > 1 {
                    assert(s =~= first + seq![COMMA] + parse::listed(rest, gap));
                    lemma_mentions_split(first, COMMA, parse::listed(rest, gap), key);
                } else {
                    assert(s =~= first);
                }
            }
        }
    }
}

/// An array of strings is quiet.
proof fn lemma_array_is_quiet(items: Seq<Seq<u8>>)
    requires
        forall|k: int| 0 <= k < items.len() ==> is_item(#[trigger] items[k]),
    ensures
        is_quiet(array_text(items)),
{
    let s = array_text(items);
    let none = Seq::<u8>::empty();
    let inside = parse::listed(items, seq![COMMA]);
    lemma_listed_is_quiet(items);
    lemma_bare_is_quiet(none);
    assert forall|key: Seq<u8>| is_name(key) implies !#[trigger] members::mentions(s, key) by {
        lemma_name_is_key(key);
        if members::mentions(s, key) {
            let rest = inside + seq![CLOSE_BRACKET] + none;
            assert(s =~= none + seq![OPEN_BRACKET] + rest);
            lemma_mentions_split(none, OPEN_BRACKET, rest, key);
            lemma_mentions_split(inside, CLOSE_BRACKET, none, key);
        }
    }
}

/// The members of an object with the given keys and values.
pub open spec fn fields_text(keys: Seq<Seq<char>>, values: Seq<Seq<u8>>) -> Seq<Seq<u8>> {
    Seq::new(keys.len(), |k: int| member(keys[k], values[k]))
}

/// A section: a member whose value is an object.
pub open spec fn section(name: Seq<char>, keys: Seq<Seq<char>>, values: Seq<Seq<u8>>) -> Seq<u8> {
    member(name, members::object_text(fields_text(keys, values)))
}

/// The names of a section and its fields are those of a payload, each another, and its values are
/// quiet.
spec fn is_section(name: Seq<char>, keys: Seq<Seq<char>>, values: Seq<Seq<u8>>) -> bool {
    &&& keys.len() == values.len()
    &&& keys.len() > 0
    &&& is_name(bytes::text(name))
    &&& forall|k: int| 0 <= k < keys.len() ==> is_name(bytes::text(#[trigger] keys[k]))
    &&& forall|k: int| 0 <= k < keys.len() ==> bytes::text(#[trigger] keys[k]) != bytes::text(name)
    &&& forall|k: int| 0 <= k < values.len() ==> is_quiet(#[trigger] values[k])
    &&& forall|k: int, l: int|
        0 <= k < l < keys.len() ==> bytes::text(#[trigger] keys[k]) != bytes::text(
            #[trigger] keys[l],
        )
}

/// A field of a section is found where it stands.
proof fn lemma_section_field(
    name: Seq<char>,
    keys: Seq<Seq<char>>,
    values: Seq<Seq<u8>>,
    j: int,
) -> (at: int)
    requires
        is_section(name, keys, values),
        0 <= j < keys.len(),
    ensures
        field_stands(
            section(name, keys, values),
            bytes::text(name).len() as int + 1,
            keys[j],
            values[j],
            at,
        ),
{
    let fields = fields_text(keys, values);
    assert forall|k: int|
        0 <= k < fields.len() && members::mentions(
            #[trigger] fields[k],
            bytes::text(keys[j]),
        ) implies k == j by {
        assert(is_quiet(values[k]));
        assert(is_name(bytes::text(keys[k])) && is_name(bytes::text(keys[j])));
        lemma_member_mentions(keys[k], values[k], bytes::text(keys[j]));
    }
    lemma_field_stands(name, fields, j, keys[j], values[j])
}

/// The keys that stand in a section are its name and those of its fields.
proof fn lemma_section_mentions(
    name: Seq<char>,
    keys: Seq<Seq<char>>,
    values: Seq<Seq<u8>>,
    key: Seq<u8>,
)
    requires
        is_section(name, keys, values),
        is_name(key),
        members::mentions(section(name, keys, values), key),
    ensures
        key == bytes::text(name) || exists|k: int|
            0 <= k < keys.len() && key == bytes::text(#[trigger] keys[k]),
{
    lemma_name_is_key(bytes::text(name));
    lemma_name_is_key(key);
    let fields = fields_text(keys, values);
    let n = bytes::text(name);
    lemma_mentions_split(n, COLON, members::object_text(fields), key);
    if members::mentions(n, key) {
        let x = lemma_key_is_quoted(n);
        lemma_quoted_mentions(x, key);
    } else {
        lemma_object_mentions(fields, key);
        let k = choose|k: int|
            0 <= k < fields.len() && members::mentions(#[trigger] fields[k], key);
        assert(is_quiet(values[k]));
        assert(is_name(bytes::text(keys[k])));
        lemma_member_mentions(keys[k], values[k], key);
    }
}

/// An object ends with its brace.
proof fn lemma_members_end(fields: Seq<Seq<u8>>)
    ensures
        members::members_text(fields).len() > 0,
        members::members_text(fields).last() == CLOSE_BRACE,
    decreases fields.len(),
{
    if fields.len() > 1 {
        lemma_members_end(fields.drop_first());
    }
}

/// A section begins with its name and ends with a brace.
proof fn lemma_section_is_object(name: Seq<char>, keys: Seq<Seq<char>>, values: Seq<Seq<u8>>)
    ensures
        members::is_object_member(section(name, keys, values), name),
{
    let m = section(name, keys, values);
    lemma_members_end(fields_text(keys, values));
    assert(m.subrange(0, bytes::text(name).len() as int) =~= bytes::text(name));
}

/// What a payload states. Numbers are decimal texts; the last transaction has its time and its
/// distance.
pub struct Payload {
    pub id: Seq<u8>,
    pub amount: Seq<u8>,
    pub installments: Seq<u8>,
    pub requested_at: Seq<u8>,
    pub avg_amount: Seq<u8>,
    pub tx_count_24h: Seq<u8>,
    pub known_merchants: Seq<Seq<u8>>,
    pub merchant_id: Seq<u8>,
    pub mcc: Seq<u8>,
    pub merchant_avg_amount: Seq<u8>,
    pub is_online: bool,
    pub card_present: bool,
    pub km_from_home: Seq<u8>,
    pub last: Option<(Seq<u8>, Seq<u8>)>,
}

/// Numbers are decimal, and no string is the name of a field.
pub open spec fn is_well_formed(p: Payload) -> bool {
    &&& is_text(p.id)
    &&& is_decimal(p.amount)
    &&& is_decimal(p.installments)
    &&& is_text(p.requested_at)
    &&& timestamp::hour_is_readable(p.requested_at)
    &&& is_decimal(p.avg_amount)
    &&& is_decimal(p.tx_count_24h)
    &&& forall|k: int| 0 <= k < p.known_merchants.len() ==> is_item(#[trigger] p.known_merchants[k])
    &&& is_text(p.merchant_id)
    &&& is_text(p.mcc)
    &&& is_decimal(p.merchant_avg_amount)
    &&& is_decimal(p.km_from_home)
    &&& p.last matches Some((time, km)) ==> is_text(time) && is_decimal(km)
}

/// The id of a payload as it is written.
pub open spec fn id_member(p: Payload) -> Seq<u8> {
    member("\"id\""@, quoted(p.id))
}

/// The `transaction` section of a payload as it is written.
pub open spec fn transaction_section(p: Payload) -> Seq<u8> {
    section(
        "\"transaction\""@,
        seq!["\"amount\""@, "\"installments\""@, "\"requested_at\""@],
        seq![p.amount, p.installments, quoted(p.requested_at)],
    )
}

/// The `customer` section of a payload as it is written.
pub open spec fn customer_section(p: Payload) -> Seq<u8> {
    section(
        "\"customer\""@,
        seq!["\"avg_amount\""@, "\"tx_count_24h\""@, "\"known_merchants\""@],
        seq![p.avg_amount, p.tx_count_24h, array_text(p.known_merchants)],
    )
}

/// The `merchant` section of a payload as it is written.
pub open spec fn merchant_section(p: Payload) -> Seq<u8> {
    section(
        "\"merchant\""@,
        seq!["\"id\""@, "\"mcc\""@, "\"avg_amount\""@],
        seq![quoted(p.merchant_id), quoted(p.mcc), p.merchant_avg_amount],
    )
}

/// The `terminal` section of a payload as it is written.
pub open spec fn terminal_section(p: Payload) -> Seq<u8> {
    section(
        "\"terminal\""@,
        seq!["\"is_online\""@, "\"card_present\""@, "\"km_from_home\""@],
        seq![bool_text(p.is_online), bool_text(p.card_present), p.km_from_home],
    )
}

/// The `last_transaction` section of a payload with a last transaction.
pub open spec fn past_section(time: Seq<u8>, km: Seq<u8>) -> Seq<u8> {
    section(
        "\"last_transaction\""@,
        seq!["\"timestamp\""@, "\"km_from_current\""@],
        seq![quoted(time), km],
    )
}

/// The `last_transaction` section of a payload as it is written.
pub open spec fn last_section(p: Payload) -> Seq<u8> {
    match p.last {
        None => member("\"last_transaction\""@, bytes::text("null"@)),
        Some((time, km)) => past_section(time, km),
    }
}

/// The sections of a payload as they are written.
pub open spec fn sections_of(p: Payload) -> Sections {
    Sections {
        transaction: transaction_section(p),
        customer: customer_section(p),
        merchant: merchant_section(p),
        terminal: terminal_section(p),
        last_transaction: last_section(p),
    }
}

/// Members are those of a payload, in any order: its id and its sections.
pub open spec fn are_members_of(list: Seq<Seq<u8>>, p: Payload) -> bool {
    &&& forall|k: int|
        0 <= k < list.len() ==> {
            ||| #[trigger] list[k] == id_member(p)
            ||| list[k] == transaction_section(p)
            ||| list[k] == customer_section(p)
            ||| list[k] == merchant_section(p)
            ||| list[k] == terminal_section(p)
            ||| list[k] == last_section(p)
        }
    &&& list.contains(transaction_section(p))
    &&& list.contains(customer_section(p))
    &&& list.contains(merchant_section(p))
    &&& list.contains(terminal_section(p))
    &&& list.contains(last_section(p))
}

/// The components of the query that a payload states.
pub open spec fn stated(p: Payload) -> Seq<Value> {
    let (hour, dow) = timestamp::hour_dow(p.requested_at);
    let (since, distance) = match p.last {
        None => (Value::Missing, Value::Missing),
        Some((time, km)) => {
            let elapsed = timestamp::epoch_secs(p.requested_at) - timestamp::epoch_secs(time);
            (
                Value::Elapsed {
                    seconds: (if elapsed > 0 {
                        elapsed
                    } else {
                        0
                    }) as i64,
                    limit: parse::MAX_MINUTES,
                },
                Value::Scaled { number: km, limit: parse::MAX_KM },
            )
        },
    };
    seq![
        Value::Scaled { number: p.amount, limit: parse::MAX_AMOUNT },
        Value::Scaled { number: p.installments, limit: parse::MAX_INSTALLMENTS },
        Value::Ratio { number: p.amount, base: p.avg_amount, limit: parse::AMOUNT_VS_AVG_RATIO },
        Value::Fraction { part: hour as u32, whole: 23 },
        Value::Fraction { part: dow as u32, whole: 6 },
        since,
        distance,
        Value::Scaled { number: p.km_from_home, limit: parse::MAX_KM },
        Value::Scaled { number: p.tx_count_24h, limit: parse::MAX_TX_COUNT_24H },
        members::flag_value(p.is_online),
        members::flag_value(p.card_present),
        members::flag_value(!p.known_merchants.contains(p.merchant_id)),
        Value::Fraction { part: parse::risk_of(p.mcc), whole: 100 },
        Value::Scaled {
            number: p.merchant_avg_amount,
            limit: parse::MAX_MERCHANT_AVG_AMOUNT,
        },
    ]
}

/// The `transaction` section is read back, and only its own names stand in it.
proof fn lemma_transaction_section(p: Payload)
    requires
        is_well_formed(p),
    ensures
        members::is_object_member(transaction_section(p), "\"transaction\""@),
        transaction_section(p).len() <= usize::MAX ==> {
            &&& members::has_number(transaction_section(p), "\"amount\""@, 0)
            &&& members::number_text(transaction_section(p), "\"amount\""@, 0) == p.amount
            &&& members::has_number(transaction_section(p), "\"installments\""@, 0)
            &&& members::number_text(transaction_section(p), "\"installments\""@, 0) == p.installments
            &&& members::has_string(transaction_section(p), "\"requested_at\""@, 0)
            &&& members::string_text(transaction_section(p), "\"requested_at\""@, 0) == p.requested_at
        },
        forall|key: Seq<u8>|
            is_name(key) && #[trigger] members::mentions(transaction_section(p), key) ==> key == bytes::text(
                "\"transaction\""@,
            ) || key == bytes::text("\"amount\""@) || key == bytes::text("\"installments\""@) || key == bytes::text("\"requested_at\""@),
{
    let name = "\"transaction\""@;
    let keys = seq!["\"amount\""@, "\"installments\""@, "\"requested_at\""@];
    let values = seq![p.amount, p.installments, quoted(p.requested_at)];
    let m = transaction_section(p);
    let start = bytes::text(name).len() as int + 1;
    lemma_decimal_is_quiet(p.amount);
    lemma_decimal_is_quiet(p.installments);
    lemma_text_is_quiet(p.requested_at);
    assert(is_section(name, keys, values)) by {
        lemma_names();
    }
    lemma_section_is_object(name, keys, values);
    let at0 = lemma_section_field(name, keys, values, 0);
    let at1 = lemma_section_field(name, keys, values, 1);
    let at2 = lemma_section_field(name, keys, values, 2);
    if m.len() <= usize::MAX {
        lemma_number_is_read(m, start, keys[0], p.amount, at0, 0);
        lemma_number_is_read(m, start, keys[1], p.installments, at1, 0);
        lemma_string_is_read(m, start, keys[2], p.requested_at, at2, 0);
    }
    assert forall|key: Seq<u8>|
        is_name(key) && #[trigger] members::mentions(m, key) implies key == bytes::text(name)
        || key == bytes::text(keys[0]) || key == bytes::text(keys[1]) || key == bytes::text(
        keys[2],
    ) by {
        lemma_section_mentions(name, keys, values, key);
    }
}

/// The `customer` section is read back, and only its own names stand in it.
proof fn lemma_customer_section(p: Payload)
    requires
        is_well_formed(p),
    ensures
        members::is_object_member(customer_section(p), "\"customer\""@),
        customer_section(p).len() <= usize::MAX ==> {
            &&& members::has_number(customer_section(p), "\"avg_amount\""@, 0)
            &&& members::number_text(customer_section(p), "\"avg_amount\""@, 0) == p.avg_amount
            &&& members::has_number(customer_section(p), "\"tx_count_24h\""@, 0)
            &&& members::number_text(customer_section(p), "\"tx_count_24h\""@, 0) == p.tx_count_24h
            &&& parse::array_after(customer_section(p), bytes::text("\"known_merchants\""@), 0) is Some
            &&& parse::quoted_strings(parse::array_after(customer_section(p), bytes::text("\"known_merchants\""@), 0)->0, 0) == p.known_merchants
        },
        forall|key: Seq<u8>|
            is_name(key) && #[trigger] members::mentions(customer_section(p), key) ==> key == bytes::text(
                "\"customer\""@,
            ) || key == bytes::text("\"avg_amount\""@) || key == bytes::text("\"tx_count_24h\""@) || key == bytes::text("\"known_merchants\""@),
{
    let name = "\"customer\""@;
    let keys = seq!["\"avg_amount\""@, "\"tx_count_24h\""@, "\"known_merchants\""@];
    let values = seq![p.avg_amount, p.tx_count_24h, array_text(p.known_merchants)];
    let m = customer_section(p);
    let start = bytes::text(name).len() as int + 1;
    lemma_decimal_is_quiet(p.avg_amount);
    lemma_decimal_is_quiet(p.tx_count_24h);
    lemma_array_is_quiet(p.known_merchants);
    assert(is_section(name, keys, values)) by {
        lemma_names();
    }
    lemma_section_is_object(name, keys, values);
    let at0 = lemma_section_field(name, keys, values, 0);
    let at1 = lemma_section_field(name, keys, values, 1);
    let at2 = lemma_section_field(name, keys, values, 2);
    if m.len() <= usize::MAX {
        lemma_number_is_read(m, start, keys[0], p.avg_amount, at0, 0);
        lemma_number_is_read(m, start, keys[1], p.tx_count_24h, at1, 0);
        lemma_array_is_read(m, start, keys[2], p.known_merchants, at2);
    }
    assert forall|key: Seq<u8>|
        is_name(key) && #[trigger] members::mentions(m, key) implies key == bytes::text(name)
        || key == bytes::text(keys[0]) || key == bytes::text(keys[1]) || key == bytes::text(
        keys[2],
    ) by {
        lemma_section_mentions(name, keys, values, key);
    }
}

/// The `merchant` section is read back, and only its own names stand in it.
proof fn lemma_merchant_section(p: Payload)
    requires
        is_well_formed(p),
    ensures
        members::is_object_member(merchant_section(p), "\"merchant\""@),
        merchant_section(p).len() <= usize::MAX ==> {
            &&& members::has_string(merchant_section(p), "\"id\""@, 0)
            &&& members::string_text(merchant_section(p), "\"id\""@, 0) == p.merchant_id
            &&& members::has_string(merchant_section(p), "\"mcc\""@, 0)
            &&& members::string_text(merchant_section(p), "\"mcc\""@, 0) == p.mcc
            &&& members::has_number(merchant_section(p), "\"avg_amount\""@, 0)
            &&& members::number_text(merchant_section(p), "\"avg_amount\""@, 0) == p.merchant_avg_amount
        },
        forall|key: Seq<u8>|
            is_name(key) && #[trigger] members::mentions(merchant_section(p), key) ==> key == bytes::text(
                "\"merchant\""@,
            ) || key == bytes::text("\"id\""@) || key == bytes::text("\"mcc\""@) || key == bytes::text("\"avg_amount\""@),
{
    let name = "\"merchant\""@;
    let keys = seq!["\"id\""@, "\"mcc\""@, "\"avg_amount\""@];
    let values = seq![quoted(p.merchant_id), quoted(p.mcc), p.merchant_avg_amount];
    let m = merchant_section(p);
    let start = bytes::text(name).len() as int + 1;
    lemma_text_is_quiet(p.merchant_id);
    lemma_text_is_quiet(p.mcc);
    lemma_decimal_is_quiet(p.merchant_avg_amount);
    assert(is_section(name, keys, values)) by {
        lemma_names();
    }
    lemma_section_is_object(name, keys, values);
    let at0 = lemma_section_field(name, keys, values, 0);
    let at1 = lemma_section_field(name, keys, values, 1);
    let at2 = lemma_section_field(name, keys, values, 2);
    if m.len() <= usize::MAX {
        lemma_string_is_read(m, start, keys[0], p.merchant_id, at0, 0);
        lemma_string_is_read(m, start, keys[1], p.mcc, at1, 0);
        lemma_number_is_read(m, start, keys[2], p.merchant_avg_amount, at2, 0);
    }
    assert forall|key: Seq<u8>|
        is_name(key) && #[trigger] members::mentions(m, key) implies key == bytes::text(name)
        || key == bytes::text(keys[0]) || key == bytes::text(keys[1]) || key == bytes::text(
        keys[2],
    ) by {
        lemma_section_mentions(name, keys, values, key);
    }
}

/// The `terminal` section is read back, and only its own names stand in it.
#[verifier::rlimit(40)]
proof fn lemma_terminal_section(p: Payload)
    requires
        is_well_formed(p),
    ensures
        members::is_object_member(terminal_section(p), "\"terminal\""@),
        terminal_section(p).len() <= usize::MAX ==> {
            &&& parse::bool_after(terminal_section(p), bytes::text("\"is_online\""@), 0) == Some(p.is_online)
            &&& parse::bool_after(terminal_section(p), bytes::text("\"card_present\""@), 0) == Some(p.card_present)
            &&& members::has_number(terminal_section(p), "\"km_from_home\""@, 0)
            &&& members::number_text(terminal_section(p), "\"km_from_home\""@, 0) == p.km_from_home
        },
        forall|key: Seq<u8>|
            is_name(key) && #[trigger] members::mentions(terminal_section(p), key) ==> key == bytes::text(
                "\"terminal\""@,
            ) || key == bytes::text("\"is_online\""@) || key == bytes::text("\"card_present\""@) || key == bytes::text("\"km_from_home\""@),
{
    let name = "\"terminal\""@;
    let keys = seq!["\"is_online\""@, "\"card_present\""@, "\"km_from_home\""@];
    let values = seq![bool_text(p.is_online), bool_text(p.card_present), p.km_from_home];
    let m = terminal_section(p);
    let start = bytes::text(name).len() as int + 1;
    lemma_bool_is_quiet(p.is_online);
    lemma_bool_is_quiet(p.card_present);
    lemma_decimal_is_quiet(p.km_from_home);
    assert(is_section(name, keys, values)) by {
        lemma_names();
    }
    lemma_section_is_object(name, keys, values);
    let at0 = lemma_section_field(name, keys, values, 0);
    let at1 = lemma_section_field(name, keys, values, 1);
    let at2 = lemma_section_field(name, keys, values, 2);
    if m.len() <= usize::MAX {
        lemma_bool_is_read(m, start, keys[0], p.is_online, at0);
        lemma_bool_is_read(m, start, keys[1], p.card_present, at1);
        lemma_number_is_read(m, start, keys[2], p.km_from_home, at2, 0);
    }
    assert forall|key: Seq<u8>|
        is_name(key) && #[trigger] members::mentions(m, key) implies key == bytes::text(name)
        || key == bytes::text(keys[0]) || key == bytes::text(keys[1]) || key == bytes::text(
        keys[2],
    ) by {
        lemma_section_mentions(name, keys, values, key);
    }
}

/// Where the value of the `last_transaction` section begins.
proof fn lemma_last_value(p: Payload)
    requires
        is_well_formed(p),
    ensures
        members::last_value(last_section(p)) == "\"last_transaction\""@.len() + 1,
        bytes::matches_at(last_section(p), bytes::text("\"last_transaction\""@), 0),
        members::last_is_null(last_section(p)) <==> p.last is None,
        members::last_value(last_section(p)) < last_section(p).len(),
        p.last is Some ==> last_section(p)[members::last_value(last_section(p))] == OPEN_BRACE,
{
    reveal_strlit("null");
    let name = bytes::text("\"last_transaction\""@);
    let null = bytes::text("null"@);
    let m = last_section(p);
    let colon = name.len() as int;
    assert(m.subrange(0, colon) =~= name);
    assert(m[colon] == COLON);
    match p.last {
        None => {
            assert(m.subrange(colon + 1, colon + 5) =~= null);
            assert(m[colon + 1] == null[0]);
        },
        Some(_) => {
            assert(m[colon + 1] == OPEN_BRACE);
            if bytes::matches_at(m, null, colon + 1) {
                assert(m.subrange(colon + 1, colon + 5)[0] == null[0]);
            }
        },
    }
    parse::lemma_value_start(m, colon, colon + 1);
}

/// A `last_transaction` section with a last transaction is read back, and only its own names stand
/// in it.
proof fn lemma_past_section(time: Seq<u8>, km: Seq<u8>)
    requires
        is_text(time),
        is_decimal(km),
    ensures
        ({
            let m = past_section(time, km);
            let from = bytes::text("\"last_transaction\""@).len() as int + 1;
            &&& members::is_object_member(m, "\"last_transaction\""@)
            &&& m.len() <= usize::MAX ==> {
                &&& members::has_string(m, "\"timestamp\""@, from)
                &&& members::string_text(m, "\"timestamp\""@, from) == time
                &&& members::has_number(m, "\"km_from_current\""@, from)
                &&& members::number_text(m, "\"km_from_current\""@, from) == km
            }
        }),
        forall|key: Seq<u8>|
            is_name(key) && #[trigger] members::mentions(past_section(time, km), key) ==> key
                == bytes::text("\"last_transaction\""@) || key == bytes::text("\"timestamp\""@)
                || key == bytes::text("\"km_from_current\""@),
{
    let name = "\"last_transaction\""@;
    let keys = seq!["\"timestamp\""@, "\"km_from_current\""@];
    let values = seq![quoted(time), km];
    let m = past_section(time, km);
    let start = bytes::text(name).len() as int + 1;
    lemma_text_is_quiet(time);
    lemma_decimal_is_quiet(km);
    assert(is_section(name, keys, values)) by {
        lemma_names();
    }
    lemma_section_is_object(name, keys, values);
    let at0 = lemma_section_field(name, keys, values, 0);
    let at1 = lemma_section_field(name, keys, values, 1);
    if m.len() <= usize::MAX {
        lemma_string_is_read(m, start, keys[0], time, at0, start);
        lemma_number_is_read(m, start, keys[1], km, at1, start);
    }
    assert forall|key: Seq<u8>| is_name(key) && #[trigger] members::mentions(m, key) implies key
        == bytes::text(name) || key == bytes::text(keys[0]) || key == bytes::text(keys[1]) by {
        lemma_section_mentions(name, keys, values, key);
    }
}

/// A `last_transaction` section that is `null` mentions its name only.
proof fn lemma_null_section(key: Seq<u8>)
    requires
        is_name(key),
        members::mentions(member("\"last_transaction\""@, bytes::text("null"@)), key),
    ensures
        key == bytes::text("\"last_transaction\""@),
{
    assert(!bytes::text("null"@).contains(QUOTE)) by {
        reveal_strlit("null");
    }
    lemma_bare_is_quiet(bytes::text("null"@));
    lemma_member_mentions("\"last_transaction\""@, bytes::text("null"@), key);
}

/// The `last_transaction` section is read back, and only its own names stand in it.
proof fn lemma_last_section(p: Payload)
    requires
        is_well_formed(p),
    ensures
        last_section(p).len() <= usize::MAX ==> {
            &&& members::is_last_member(last_section(p))
            &&& p.last matches Some((time, km)) ==> {
                &&& members::string_text(
                    last_section(p),
                    "\"timestamp\""@,
                    members::last_value(last_section(p)),
                ) == time
                &&& members::number_text(
                    last_section(p),
                    "\"km_from_current\""@,
                    members::last_value(last_section(p)),
                ) == km
            }
        },
        forall|key: Seq<u8>|
            is_name(key) && #[trigger] members::mentions(last_section(p), key) ==> key
                == bytes::text("\"last_transaction\""@) || key == bytes::text("\"timestamp\""@)
                || key == bytes::text("\"km_from_current\""@),
{
    lemma_last_value(p);
    match p.last {
        None => {
            assert forall|key: Seq<u8>|
                is_name(key) && #[trigger] members::mentions(
                    last_section(p),
                    key,
                ) implies key == bytes::text("\"last_transaction\""@) by {
                lemma_null_section(key);
            }
        },
        Some((time, km)) => {
            lemma_past_section(time, km);
        },
    }
}

/// The keys that stand in a member of a payload.
proof fn lemma_mentioned(list: Seq<Seq<u8>>, p: Payload, k: int, key: Seq<u8>)
    requires
        is_well_formed(p),
        are_members_of(list, p),
        0 <= k < list.len(),
        is_name(key),
        members::mentions(list[k], key),
    ensures
        ({
            ||| key == bytes::text("\"id\""@)
            ||| list[k] == transaction_section(p) && (key == bytes::text("\"transaction\""@) || key == bytes::text("\"amount\""@) || key == bytes::text("\"installments\""@) || key == bytes::text("\"requested_at\""@))
            ||| list[k] == customer_section(p) && (key == bytes::text("\"customer\""@) || key == bytes::text("\"avg_amount\""@) || key == bytes::text("\"tx_count_24h\""@) || key == bytes::text("\"known_merchants\""@))
            ||| list[k] == merchant_section(p) && (key == bytes::text("\"merchant\""@) || key == bytes::text("\"id\""@) || key == bytes::text("\"mcc\""@) || key == bytes::text("\"avg_amount\""@))
            ||| list[k] == terminal_section(p) && (key == bytes::text("\"terminal\""@) || key == bytes::text("\"is_online\""@) || key == bytes::text("\"card_present\""@) || key == bytes::text("\"km_from_home\""@))
            ||| list[k] == last_section(p) && (key == bytes::text("\"last_transaction\""@) || key == bytes::text("\"timestamp\""@) || key == bytes::text("\"km_from_current\""@))
        }),
{
    lemma_transaction_section(p);
    lemma_customer_section(p);
    lemma_merchant_section(p);
    lemma_terminal_section(p);
    lemma_last_section(p);
    lemma_text_is_quiet(p.id);
    if list[k] == id_member(p) {
        lemma_member_mentions("\"id\""@, quoted(p.id), key);
    }
}

/// Each section is the only member that mentions its name, and the transaction the only one that
/// mentions an amount.
proof fn lemma_homes(list: Seq<Seq<u8>>, p: Payload)
    requires
        is_well_formed(p),
        are_members_of(list, p),
    ensures
        members::is_only_home(list, transaction_section(p), "\"transaction\""@),
        members::is_only_home(list, transaction_section(p), "\"amount\""@),
        members::is_only_home(list, customer_section(p), "\"customer\""@),
        members::is_only_home(list, merchant_section(p), "\"merchant\""@),
        members::is_only_home(list, terminal_section(p), "\"terminal\""@),
        members::is_only_home(list, last_section(p), "\"last_transaction\""@),
{
    lemma_names();
    assert forall|k: int|
        0 <= k < list.len() && members::mentions(
            #[trigger] list[k],
            bytes::text("\"transaction\""@),
        ) implies list[k] == transaction_section(p) by {
        lemma_mentioned(list, p, k, bytes::text("\"transaction\""@));
    }
    assert forall|k: int|
        0 <= k < list.len() && members::mentions(
            #[trigger] list[k],
            bytes::text("\"amount\""@),
        ) implies list[k] == transaction_section(p) by {
        lemma_mentioned(list, p, k, bytes::text("\"amount\""@));
    }
    assert forall|k: int|
        0 <= k < list.len() && members::mentions(
            #[trigger] list[k],
            bytes::text("\"customer\""@),
        ) implies list[k] == customer_section(p) by {
        lemma_mentioned(list, p, k, bytes::text("\"customer\""@));
    }
    assert forall|k: int|
        0 <= k < list.len() && members::mentions(
            #[trigger] list[k],
            bytes::text("\"merchant\""@),
        ) implies list[k] == merchant_section(p) by {
        lemma_mentioned(list, p, k, bytes::text("\"merchant\""@));
    }
    assert forall|k: int|
        0 <= k < list.len() && members::mentions(
            #[trigger] list[k],
            bytes::text("\"terminal\""@),
        ) implies list[k] == terminal_section(p) by {
        lemma_mentioned(list, p, k, bytes::text("\"terminal\""@));
    }
    assert forall|k: int|
        0 <= k < list.len() && members::mentions(
            #[trigger] list[k],
            bytes::text("\"last_transaction\""@),
        ) implies list[k] == last_section(p) by {
        lemma_mentioned(list, p, k, bytes::text("\"last_transaction\""@));
    }
}

/// A member is no longer than the object.
proof fn lemma_member_is_no_longer(list: Seq<Seq<u8>>, m: Seq<u8>)
    requires
        list.contains(m),
    ensures
        m.len() < members::object_text(list).len(),
{
    let j = choose|j: int| 0 <= j < list.len() && list[j] == m;
    members::lemma_object_text(list, j);
}

/// A payload as it is written has its sections, which state what it states.
proof fn lemma_sections(list: Seq<Seq<u8>>, p: Payload)
    requires
        is_well_formed(p),
        are_members_of(list, p),
        members::object_text(list).len() < usize::MAX,
    ensures
        members::is_payload(list, sections_of(p)),
        members::section_values(sections_of(p)) == stated(p),
{
    lemma_member_is_no_longer(list, transaction_section(p));
    lemma_member_is_no_longer(list, customer_section(p));
    lemma_member_is_no_longer(list, merchant_section(p));
    lemma_member_is_no_longer(list, terminal_section(p));
    lemma_member_is_no_longer(list, last_section(p));
    lemma_transaction_section(p);
    lemma_customer_section(p);
    lemma_merchant_section(p);
    lemma_terminal_section(p);
    lemma_last_section(p);
    lemma_last_value(p);
    lemma_homes(list, p);
    assert(members::section_values(sections_of(p)) =~= stated(p));
}

/// A payload is read back as it was written, in whatever order its members come: the components of
/// its query are those that it states.
pub proof fn law_payloads_are_read_back(list: Seq<Seq<u8>>, p: Payload)
    requires
        is_well_formed(p),
        are_members_of(list, p),
        members::object_text(list).len() < usize::MAX,
    ensures
        members::values_of(members::object_text(list)) == Some(stated(p)),
{
    lemma_sections(list, p);
    members::law_fields_are_found_in_their_sections(list, sections_of(p));
}

/// Neither the order of the members of a payload nor its id has an influence on the query.
pub proof fn law_order_and_id_have_no_influence(
    list: Seq<Seq<u8>>,
    p: Payload,
    other_list: Seq<Seq<u8>>,
    other_id: Seq<u8>,
)
    requires
        is_well_formed(p),
        is_text(other_id),
        are_members_of(list, p),
        are_members_of(other_list, (Payload { id: other_id, ..p })),
        members::object_text(list).len() < usize::MAX,
        members::object_text(other_list).len() < usize::MAX,
    ensures
        members::values_of(members::object_text(list)) is Some,
        members::values_of(members::object_text(other_list)) == members::values_of(
            members::object_text(list),
        ),
{
    law_payloads_are_read_back(list, p);
    law_payloads_are_read_back(other_list, Payload { id: other_id, ..p });
}

} // verus!
