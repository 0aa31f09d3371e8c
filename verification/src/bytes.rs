//! Byte strings: searching, skipping and decimal digits.

use vstd::prelude::*;

verus! {

pub const QUOTE: u8 = 0x22;

pub const COLON: u8 = 0x3a;

pub const COMMA: u8 = 0x2c;

pub const SPACE: u8 = 0x20;

pub const TAB: u8 = 0x09;

pub const NEWLINE: u8 = 0x0a;

pub const ZERO: u8 = 0x30;

pub const NINE: u8 = 0x39;

pub const OPEN_BRACKET: u8 = 0x5b;

pub const CLOSE_BRACKET: u8 = 0x5d;

pub const OPEN_BRACE: u8 = 0x7b;

pub const CLOSE_BRACE: u8 = 0x7d;

/// The bytes of an ASCII text.
pub open spec fn text(s: Seq<char>) -> Seq<u8> {
    s.map_values(|c: char| c as u8)
}

/// `key` stands in `buf` at position `i`.
pub open spec fn matches_at(buf: Seq<u8>, key: Seq<u8>, i: int) -> bool {
    0 <= i && i + key.len() <= buf.len() && buf.subrange(i, i + key.len()) == key
}

/// `i` is the first position at or after `from` at which `key` stands in `buf`.
pub open spec fn is_first_match(buf: Seq<u8>, key: Seq<u8>, from: int, i: int) -> bool {
    &&& from <= i
    &&& matches_at(buf, key, i)
    &&& forall|j: int| from <= j < i ==> !#[trigger] matches_at(buf, key, j)
}

/// The first position at or after `from` at which `key` stands in `buf`, if there is one.
pub open spec fn search(buf: Seq<u8>, key: Seq<u8>, from: int) -> Option<int> {
    if exists|i: int| is_first_match(buf, key, from, i) {
        Some(choose|i: int| is_first_match(buf, key, from, i))
    } else {
        None
    }
}

/// An optional position as a mathematical integer.
pub open spec fn position(p: Option<usize>) -> Option<int> {
    match p {
        Some(i) => Some(i as int),
        None => None,
    }
}

/// The first position at or after `from` whose byte does not satisfy `p`: `from` itself when it
/// lies at or past the end.
pub open spec fn skip_while(s: Seq<u8>, from: int, p: spec_fn(u8) -> bool) -> int
    decreases s.len() - from,
{
    if 0 <= from < s.len() && p(s[from]) {
        skip_while(s, from + 1, p)
    } else {
        from
    }
}

pub open spec fn other_than(c: u8) -> spec_fn(u8) -> bool {
    |b: u8| b != c
}

pub open spec fn is_blank() -> spec_fn(u8) -> bool {
    |b: u8| b == SPACE || b == TAB
}

pub open spec fn is_digit(b: u8) -> bool {
    ZERO <= b <= NINE
}

pub open spec fn digit() -> spec_fn(u8) -> bool {
    |b: u8| is_digit(b)
}

/// The number that a string of decimal digits writes down.
pub open spec fn decimal_value(s: Seq<u8>) -> int
    decreases s.len(),
{
    if s.len() == 0 {
        0
    } else {
        decimal_value(s.drop_last()) * 10 + (s.last() - ZERO)
    }
}

/// The run of decimal digits that begins at `from`.
pub open spec fn digit_run(s: Seq<u8>, from: int) -> Seq<u8> {
    s.subrange(from, skip_while(s, from, digit()))
}

/// Two positions that both come first are the same, so a first match is what `search` finds.
pub proof fn lemma_search_is(buf: Seq<u8>, key: Seq<u8>, from: int, i: int)
    requires
        is_first_match(buf, key, from, i),
    ensures
        search(buf, key, from) == Some(i),
{
    let k = choose|k: int| is_first_match(buf, key, from, k);
    assert(is_first_match(buf, key, from, k));
    if k < i {
        assert(!matches_at(buf, key, k));
    }
    if i < k {
        assert(!matches_at(buf, key, i));
    }
}

/// What is found stays found, at the same place, when more bytes follow.
pub proof fn lemma_search_in_prefix(buf: Seq<u8>, more: Seq<u8>, key: Seq<u8>, from: int)
    requires
        0 <= from,
        search(buf, key, from) is Some,
    ensures
        search(buf + more, key, from) == search(buf, key, from),
{
    let i = choose|i: int| is_first_match(buf, key, from, i);
    assert(is_first_match(buf, key, from, i));
    assert forall|j: int| from <= j <= i implies matches_at(buf + more, key, j) == matches_at(
        buf,
        key,
        j,
    ) by {
        assert((buf + more).subrange(j, j + key.len()) =~= buf.subrange(j, j + key.len()));
    }
    assert forall|j: int| from <= j < i implies !#[trigger] matches_at(buf + more, key, j) by {
        assert(!matches_at(buf, key, j));
    }
    lemma_search_is(buf + more, key, from, i);
}

/// Where `skip_while` stops: everything it passed satisfies `p`, and what it stopped at does not.
pub proof fn lemma_skip_while(s: Seq<u8>, from: int, p: spec_fn(u8) -> bool)
    requires
        0 <= from,
    ensures
        from <= skip_while(s, from, p),
        from <= s.len() ==> skip_while(s, from, p) <= s.len(),
        from > s.len() ==> skip_while(s, from, p) == from,
        forall|i: int| from <= i < skip_while(s, from, p) ==> p(#[trigger] s[i]),
        skip_while(s, from, p) < s.len() ==> !p(s[skip_while(s, from, p)]),
    decreases s.len() - from,
{
    if from < s.len() && p(s[from]) {
        lemma_skip_while(s, from + 1, p);
    }
}

/// A stop that has the two properties of `lemma_skip_while` is where `skip_while` stops.
pub proof fn lemma_skip_while_is(s: Seq<u8>, from: int, p: spec_fn(u8) -> bool, stop: int)
    requires
        0 <= from <= stop <= s.len(),
        forall|i: int| from <= i < stop ==> p(#[trigger] s[i]),
        stop < s.len() ==> !p(s[stop]),
    ensures
        skip_while(s, from, p) == stop,
    decreases stop - from,
{
    if from < stop {
        lemma_skip_while_is(s, from + 1, p, stop);
    }
}

/// The bytes of an ASCII text.
pub fn ascii(s: &str) -> (b: &[u8])
    requires
        vstd::string::is_ascii(s),
    ensures
        b@ == text(s@),
{
    proof {
        vstd::string::is_ascii_spec_bytes(s);
    }
    s.as_bytes()
}

/// Whether `key` stands in `buf` at position `i`.
pub fn has_at(buf: &[u8], key: &[u8], i: usize) -> (r: bool)
    ensures
        r == matches_at(buf@, key@, i as int),
{
    if key.len() > buf.len() || i > buf.len() - key.len() {
        return false;
    }
    let mut k: usize = 0;
    while k < key.len()
        invariant
            k <= key@.len(),
            i + key@.len() <= buf@.len(),
            buf@.len() == buf.len(),
            key@.len() == key.len(),
            forall|j: int| 0 <= j < k ==> buf@[i + j] == key@[j],
        decreases key@.len() - k,
    {
        if buf[i + k] != key[k] {
            assert(buf@.subrange(i as int, i + key@.len())[k as int] != key@[k as int]);
            return false;
        }
        k += 1;
    }
    assert(buf@.subrange(i as int, i + key@.len()) =~= key@);
    true
}

/// Whether two byte strings are equal.
pub fn same_bytes(a: &[u8], b: &[u8]) -> (r: bool)
    ensures
        r == (a@ == b@),
{
    if a.len() != b.len() {
        return false;
    }
    let r = has_at(a, b, 0);
    assert(a@.subrange(0, a@.len() as int) =~= a@);
    r
}

/// The first position at or after `from` at which `key` stands.
fn find_from(buf: &[u8], key: &[u8], from: usize) -> (r: Option<usize>)
    ensures
        position(r) == search(buf@, key@, from as int),
        r matches Some(i) ==> i + key@.len() <= buf@.len() && from <= i,
{
    if key.len() > buf.len() {
        return None;
    }
    let last: usize = buf.len() - key.len();
    let mut i: usize = from;
    while i <= last
        invariant
            from <= i,
            last == buf@.len() - key@.len(),
            buf@.len() == buf.len(),
            forall|j: int| from <= j < i ==> !#[trigger] matches_at(buf@, key@, j),
        decreases last + 1 - i,
    {
        if has_at(buf, key, i) {
            proof {
                lemma_search_is(buf@, key@, from as int, i as int);
            }
            return Some(i);
        }
        if i == last {
            return None;
        }
        i += 1;
    }
    None
}

/// The position of the first occurrence of `key`.
pub fn find_key(buf: &[u8], key: &[u8]) -> (r: Option<usize>)
    ensures
        position(r) == search(buf@, key@, 0),
        r matches Some(i) ==> i + key@.len() <= buf@.len(),
{
    find_from(buf, key, 0)
}

/// The position just past the first occurrence of `key` at or after `from`.
pub open spec fn after_key(buf: Seq<u8>, key: Seq<u8>, from: int) -> Option<int> {
    match search(buf, key, from) {
        Some(i) => Some(i + key.len()),
        None => None,
    }
}

/// The position just past the first occurrence of `key` at or after `from`.
pub fn find_after(buf: &[u8], key: &[u8], from: usize) -> (r: Option<usize>)
    ensures
        position(r) == after_key(buf@, key@, from as int),
        r matches Some(i) ==> i <= buf@.len(),
{
    match find_from(buf, key, from) {
        Some(i) => {
            assert(buf@.len() == buf.len());
            Some(i + key.len())
        },
        None => None,
    }
}

/// The position of the first occurrence of a non-empty `needle`; an empty one is never found.
pub fn find_subseq(haystack: &[u8], needle: &[u8]) -> (r: Option<usize>)
    ensures
        needle@.len() == 0 ==> r is None,
        needle@.len() > 0 ==> position(r) == search(haystack@, needle@, 0),
        r matches Some(i) ==> i + needle@.len() <= haystack@.len(),
{
    if needle.len() == 0 {
        return None;
    }
    find_from(haystack, needle, 0)
}

/// The first position at or after `from` that holds `c`.
pub fn skip_until(buf: &[u8], from: usize, c: u8) -> (r: usize)
    ensures
        r == skip_while(buf@, from as int, other_than(c)),
        from <= r,
        from <= buf@.len() ==> r <= buf@.len(),
        r < buf@.len() ==> buf@[r as int] == c,
{
    let mut i: usize = from;
    while i < buf.len() && buf[i] != c
        invariant
            from <= i,
            from <= buf@.len() ==> i <= buf@.len(),
            skip_while(buf@, i as int, other_than(c)) == skip_while(buf@, from as int, other_than(c)),
        decreases buf@.len() - i,
    {
        i += 1;
    }
    i
}

/// The first position at or after `from` that holds neither a space nor a tab.
pub fn skip_blanks(buf: &[u8], from: usize) -> (r: usize)
    ensures
        r == skip_while(buf@, from as int, is_blank()),
        from <= r,
        from <= buf@.len() ==> r <= buf@.len(),
{
    let mut i: usize = from;
    while i < buf.len() && (buf[i] == SPACE || buf[i] == TAB)
        invariant
            from <= i,
            from <= buf@.len() ==> i <= buf@.len(),
            skip_while(buf@, i as int, is_blank()) == skip_while(buf@, from as int, is_blank()),
        decreases buf@.len() - i,
    {
        i += 1;
    }
    i
}

/// The first position at or after `from` that does not hold a decimal digit.
pub fn skip_digits(buf: &[u8], from: usize) -> (r: usize)
    ensures
        r == skip_while(buf@, from as int, digit()),
        from <= r,
        from <= buf@.len() ==> r <= buf@.len(),
{
    let mut i: usize = from;
    while i < buf.len() && ZERO <= buf[i] && buf[i] <= NINE
        invariant
            from <= i,
            from <= buf@.len() ==> i <= buf@.len(),
            skip_while(buf@, i as int, digit()) == skip_while(buf@, from as int, digit()),
        decreases buf@.len() - i,
    {
        i += 1;
    }
    i
}

/// More digits never make the number smaller.
pub proof fn lemma_decimal_value_grows(s: Seq<u8>, k: int)
    requires
        0 <= k <= s.len(),
        forall|i: int| 0 <= i < s.len() ==> is_digit(#[trigger] s[i]),
    ensures
        0 <= decimal_value(s.take(k)) <= decimal_value(s),
    decreases s.len(), k,
{
    if k == s.len() {
        assert(s.take(k) =~= s);
        if k > 0 {
            lemma_decimal_value_grows(s.drop_last(), s.len() - 1);
            assert(s.drop_last().take(s.len() - 1) =~= s.drop_last());
        }
    } else {
        lemma_decimal_value_grows(s.drop_last(), k);
        assert(s.drop_last().take(k) =~= s.take(k));
    }
}

/// Reads the run of decimal digits at `from`; `None` when the number does not fit.
pub fn read_decimal(buf: &[u8], from: usize) -> (r: Option<usize>)
    requires
        from <= buf@.len(),
    ensures
        match r {
            Some(n) => n == decimal_value(digit_run(buf@, from as int)),
            None => decimal_value(digit_run(buf@, from as int)) > usize::MAX,
        },
{
    let end: usize = skip_digits(buf, from);
    let ghost run = digit_run(buf@, from as int);
    proof {
        lemma_skip_while(buf@, from as int, digit());
    }
    let mut n: usize = 0;
    let mut j: usize = from;
    while j < end
        invariant
            from <= j <= end <= buf@.len(),
            run == digit_run(buf@, from as int),
            run == buf@.subrange(from as int, end as int),
            forall|i: int| from <= i < end ==> is_digit(#[trigger] buf@[i]),
            n == decimal_value(run.take(j - from)),
        decreases end - j,
    {
        let ghost k = j - from;
        proof {
            assert(run.take(k + 1).drop_last() =~= run.take(k));
            assert(run.take(k + 1).last() == buf@[j as int]);
            assert forall|i: int| 0 <= i < run.len() implies is_digit(#[trigger] run[i]) by {
                assert(run[i] == buf@[from + i]);
            }
            lemma_decimal_value_grows(run, k + 1);
        }
        let tens = match n.checked_mul(10) {
            Some(t) => t,
            None => {
                return None;
            },
        };
        n = match tens.checked_add((buf[j] - ZERO) as usize) {
            Some(t) => t,
            None => {
                return None;
            },
        };
        j += 1;
    }
    assert(run.take(end - from) =~= run);
    Some(n)
}

/// Appends the bytes of `s`.
pub fn append(out: &mut Vec<u8>, s: &[u8])
    ensures
        final(out)@ == old(out)@ + s@,
{
    out.extend_from_slice(s);
    assert(out@ =~= old(out)@ + s@);
}

/// How often a byte occurs.
pub open spec fn times(s: Seq<u8>, b: u8) -> int {
    s.to_multiset().count(b) as int
}

/// One byte more is counted, if it is the one.
pub proof fn lemma_times_push(s: Seq<u8>, i: int, j: int, b: u8)
    requires
        0 <= i <= j < s.len(),
    ensures
        times(s.subrange(i, j + 1), b) == times(s.subrange(i, j), b) + (if s[j] == b {
            1int
        } else {
            0
        }),
{
    broadcast use vstd::seq_lib::group_to_multiset_ensures;

    assert(s.subrange(i, j + 1) =~= s.subrange(i, j).push(s[j]));
}

/// Nothing occurs in nothing.
pub proof fn lemma_times_none(s: Seq<u8>, i: int, b: u8)
    requires
        0 <= i <= s.len(),
    ensures
        times(s.subrange(i, i), b) == 0,
{
    broadcast use vstd::seq_lib::group_to_multiset_ensures;

    assert(s.subrange(i, i) =~= Seq::<u8>::empty());
    assert(Seq::<u8>::empty().to_multiset() =~= vstd::multiset::Multiset::empty());
}


/// Where a key stands, it stands somewhere first.
proof fn lemma_first_match_exists(buf: Seq<u8>, key: Seq<u8>, from: int, j: int)
    requires
        from <= j,
        matches_at(buf, key, j),
    ensures
        exists|i: int| is_first_match(buf, key, from, i),
    decreases j - from,
{
    if exists|k: int| from <= k < j && matches_at(buf, key, k) {
        let k = choose|k: int| from <= k < j && matches_at(buf, key, k);
        lemma_first_match_exists(buf, key, from, k);
    } else {
        assert(is_first_match(buf, key, from, j));
    }
}

/// A search finds the first place from a position on at which the bytes of the key stand, however
/// far that is, and fails only where there is none.
pub proof fn law_a_search_finds_the_first_occurrence(buf: Seq<u8>, key: Seq<u8>, from: int)
    requires
        0 <= from,
    ensures
        match search(buf, key, from) {
            Some(i) => {
                &&& from <= i
                &&& i + key.len() <= buf.len()
                &&& buf.subrange(i, i + key.len()) == key
                &&& forall|j: int|
                    from <= j < i ==> #[trigger] buf.subrange(j, j + key.len()) != key
            },
            None => forall|j: int|
                from <= j && j + key.len() <= buf.len() ==> #[trigger] buf.subrange(
                    j,
                    j + key.len(),
                ) != key,
        },
        after_key(buf, key, from) is Some <==> search(buf, key, from) is Some,
        search(buf, key, from) matches Some(i) ==> after_key(buf, key, from) == Some(
            i + key.len(),
        ),
{
    match search(buf, key, from) {
        Some(_) => {
            let i = choose|i: int| is_first_match(buf, key, from, i);
            assert(is_first_match(buf, key, from, i));
            assert forall|j: int| from <= j < i implies #[trigger] buf.subrange(j, j + key.len())
                != key by {
                assert(!matches_at(buf, key, j));
            }
        },
        None => {
            assert forall|j: int|
                from <= j && j + key.len() <= buf.len() implies #[trigger] buf.subrange(
                j,
                j + key.len(),
            ) != key by {
                if buf.subrange(j, j + key.len()) == key {
                    lemma_first_match_exists(buf, key, from, j);
                }
            }
        },
    }
}

/// Blanks are spaces and tabs, digits are the ten decimal digits, and a byte is other than another
/// exactly when the two differ.
pub proof fn law_classes_of_bytes(b: u8, c: u8)
    ensures
        is_blank()(b) <==> b == 0x20 || b == 0x09,
        digit()(b) <==> 0x30 <= b <= 0x39,
        is_digit(b) <==> 0x30 <= b <= 0x39,
        other_than(c)(b) <==> b != c,
{
}

/// Decimal digits have the value of their place: the first of a number stands for as many powers
/// of ten as digits follow it.
pub proof fn law_digits_have_the_value_of_their_place(d: u8, s: Seq<u8>)
    ensures
        decimal_value(Seq::empty()) == 0,
        decimal_value(seq![d] + s) == (d - 0x30) * vstd::arithmetic::power::pow(10, s.len())
            + decimal_value(s),
    decreases s.len(),
{
    let t = seq![d] + s;
    vstd::arithmetic::power::lemma_pow0(10);
    if s.len() == 0 {
        assert(t.drop_last() =~= Seq::<u8>::empty());
    } else {
        law_digits_have_the_value_of_their_place(d, s.drop_last());
        assert(t.drop_last() =~= seq![d] + s.drop_last());
        vstd::arithmetic::power::lemma_pow_adds(10, 1, (s.len() - 1) as nat);
        vstd::arithmetic::power::lemma_pow1(10);
        let p = vstd::arithmetic::power::pow(10, (s.len() - 1) as nat);
        assert(((d - 0x30) * p) * 10 == (d - 0x30) * (10 * p)) by (nonlinear_arith);
    }
}

/// The digits that are read as a number are all that follow each other from a position on.
pub proof fn law_digits_are_read_to_the_last(s: Seq<u8>, from: int, end: int)
    requires
        0 <= from <= end <= s.len(),
        forall|i: int| from <= i < end ==> 0x30 <= #[trigger] s[i] <= 0x39,
        end < s.len() ==> !(0x30 <= s[end] <= 0x39),
    ensures
        digit_run(s, from) == s.subrange(from, end),
{
    lemma_skip_while_is(s, from, digit(), end);
}

/// A position is itself.
pub proof fn law_positions_are_kept(p: Option<usize>)
    ensures
        position(p) is None <==> p is None,
        p matches Some(i) ==> position(p) == Some(i as int),
{
}

/// The bytes of an ASCII text are the codes of its characters.
pub proof fn law_texts_are_codes(s: Seq<char>)
    ensures
        text(s).len() == s.len(),
        forall|i: int| 0 <= i < s.len() ==> #[trigger] text(s)[i] == s[i] as u8,
{
}

} // verus!
