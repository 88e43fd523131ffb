//! The wire protocol: a client submits one integer as decimal text, and each
//! update it receives is the document's text behind a fixed prefix.
use vstd::prelude::*;
use crate::decimal::{all_digits, digits_value, is_digit, lemma_digits_value_prefix};

verus! {

/// The payload is not a decimal `i32`, once surrounding whitespace is gone.
#[derive(Debug, Clone, Copy, PartialEq, Eq)]
pub struct SubmissionError;

/// Tab, line feed, vertical tab, form feed, carriage return and space.
pub open spec fn is_space(b: u8) -> bool {
    b == 32 || (9 <= b && b <= 13)
}

/// The three-byte UTF-8 forms of Unicode white space: U+1680, U+2000 to
/// U+200A, U+2028, U+2029, U+202F, U+205F and U+3000.
pub open spec fn is_wide_space(a: u8, b: u8, c: u8) -> bool {
    (a == 0xE1 && b == 0x9A && c == 0x80) || (a == 0xE2 && b == 0x80 && ((0x80 <= c
        && c <= 0x8A) || c == 0xA8 || c == 0xA9 || c == 0xAF)) || (a == 0xE2 && b == 0x81 && c
        == 0x9F) || (a == 0xE3 && b == 0x80 && c == 0x80)
}

/// The two-byte UTF-8 forms of Unicode white space: U+0085 and U+00A0.
pub open spec fn is_narrow_space(a: u8, b: u8) -> bool {
    a == 0xC2 && (b == 0x85 || b == 0xA0)
}

/// The length of the white-space character that starts at `i`, or 0.
pub open spec fn space_len_at(p: Seq<u8>, i: int) -> int {
    if 0 <= i < p.len() && is_space(p[i]) {
        1
    } else if 0 <= i && i + 2 <= p.len() && is_narrow_space(p[i], p[i + 1]) {
        2
    } else if 0 <= i && i + 3 <= p.len() && is_wide_space(p[i], p[i + 1], p[i + 2]) {
        3
    } else {
        0
    }
}

/// The length of the white-space character that ends just before `j`, or 0.
pub open spec fn space_len_before(p: Seq<u8>, j: int) -> int {
    if 1 <= j <= p.len() && is_space(p[j - 1]) {
        1
    } else if 2 <= j <= p.len() && is_narrow_space(p[j - 2], p[j - 1]) {
        2
    } else if 3 <= j <= p.len() && is_wide_space(p[j - 3], p[j - 2], p[j - 1]) {
        3
    } else {
        0
    }
}

/// The first position at or after `i` where no white space starts.
pub open spec fn trim_start_at(p: Seq<u8>, i: int) -> int
    decreases p.len() - i,
{
    if space_len_at(p, i) > 0 {
        trim_start_at(p, i + space_len_at(p, i))
    } else {
        i
    }
}

/// The last position at or before `j` where no white space ends.
pub open spec fn trim_end_at(p: Seq<u8>, j: int) -> int
    decreases j,
{
    if space_len_before(p, j) > 0 {
        trim_end_at(p, j - space_len_before(p, j))
    } else {
        j
    }
}

/// The payload without its leading and trailing white space, as UTF-8
/// text. A payload that holds an integer is ASCII between the two, so the
/// bytes of a white-space character there cannot belong to another one.
pub open spec fn trimmed(p: Seq<u8>) -> Seq<u8> {
    let a = trim_start_at(p, 0);
    let b = trim_end_at(p, p.len() as int);
    if a < b {
        p.subrange(a, b)
    } else {
        seq![]
    }
}

/// An optional `+` or `-`, then one or more digits, whose value fits `i32`.
pub open spec fn decimal_i32(d: Seq<u8>) -> Option<i32> {
    let signed = d.len() > 0 && (d[0] == 43 || d[0] == 45);
    let body = if signed { d.subrange(1, d.len() as int) } else { d };
    let v = if signed && d[0] == 45 { -digits_value(body) } else { digits_value(body) };
    if body.len() > 0 && all_digits(body) && i32::MIN <= v <= i32::MAX {
        Some(v as i32)
    } else {
        None
    }
}

/// The integer that a payload submits.
pub open spec fn submission_value(p: Seq<u8>) -> Option<i32> {
    decimal_i32(trimmed(p))
}

/// The bytes `Updated JSON data: ` that precede each update.
pub open spec fn update_prefix() -> Seq<u8> {
    seq![
        85u8, 112u8, 100u8, 97u8, 116u8, 101u8, 100u8, 32u8, 74u8, 83u8, 79u8, 78u8, 32u8,
        100u8, 97u8, 116u8, 97u8, 58u8, 32u8,
    ]
}

/// What is left of `m` once every leading copy of the prefix is removed.
pub open spec fn without_prefixes(m: Seq<u8>) -> Seq<u8>
    decreases m.len(),
{
    let n = update_prefix().len();
    if m.len() >= n && m.subrange(0, n as int) == update_prefix() {
        without_prefixes(m.subrange(n as int, m.len() as int))
    } else {
        m
    }
}

fn prefix_bytes() -> (r: Vec<u8>)
    ensures
        r@ == update_prefix(),
{
    let r: Vec<u8> = vec![
        85u8, 112u8, 100u8, 97u8, 116u8, 101u8, 100u8, 32u8, 74u8, 83u8, 79u8, 78u8, 32u8,
        100u8, 97u8, 116u8, 97u8, 58u8, 32u8,
    ];
    assert(r@ =~= update_prefix());
    r
}

fn is_wide_space_bytes(a: u8, b: u8, c: u8) -> (r: bool)
    ensures
        r == is_wide_space(a, b, c),
{
    (a == 0xE1u8 && b == 0x9Au8 && c == 0x80u8) || (a == 0xE2u8 && b == 0x80u8 && ((0x80u8 <= c
        && c <= 0x8Au8) || c == 0xA8u8 || c == 0xA9u8 || c == 0xAFu8)) || (a == 0xE2u8 && b
        == 0x81u8 && c == 0x9Fu8) || (a == 0xE3u8 && b == 0x80u8 && c == 0x80u8)
}

fn space_len_from(p: &[u8], i: usize) -> (r: usize)
    requires
        i <= p@.len(),
    ensures
        r as int == space_len_at(p@, i as int),
{
    let n = p.len();
    if i < n && (p[i] == 32u8 || (9u8 <= p[i] && p[i] <= 13u8)) {
        1
    } else if n - i >= 2 && p[i] == 0xC2u8 && (p[i + 1] == 0x85u8 || p[i + 1] == 0xA0u8) {
        2
    } else if n - i >= 3 && is_wide_space_bytes(p[i], p[i + 1], p[i + 2]) {
        3
    } else {
        0
    }
}

fn space_len_until(p: &[u8], j: usize) -> (r: usize)
    requires
        j <= p@.len(),
    ensures
        r as int == space_len_before(p@, j as int),
{
    if j >= 1 && (p[j - 1] == 32u8 || (9u8 <= p[j - 1] && p[j - 1] <= 13u8)) {
        1
    } else if j >= 2 && p[j - 2] == 0xC2u8 && (p[j - 1] == 0x85u8 || p[j - 1] == 0xA0u8) {
        2
    } else if j >= 3 && is_wide_space_bytes(p[j - 3], p[j - 2], p[j - 1]) {
        3
    } else {
        0
    }
}

/// Reads the integer that a client submits: decimal text with an optional
/// sign, surrounded by any number of spaces.
pub fn parse_submission(payload: &[u8]) -> (r: Result<i32, SubmissionError>)
    ensures
        match r {
            Ok(v) => submission_value(payload@) == Some(v),
            Err(_) => submission_value(payload@) is None,
        },
{
    let p = payload;
    let n = p.len();
    let mut a: usize = 0;
    loop
        invariant
            a <= n == p@.len(),
            trim_start_at(p@, a as int) == trim_start_at(p@, 0),
        ensures
            a <= n,
            a as int == trim_start_at(p@, 0),
        decreases n - a,
    {
        let w = space_len_from(p, a);
        if w == 0 {
            break;
        }
        a = a + w;
    }
    let mut b: usize = n;
    loop
        invariant
            b <= n == p@.len(),
            trim_end_at(p@, b as int) == trim_end_at(p@, n as int),
        ensures
            b <= n,
            b as int == trim_end_at(p@, n as int),
        decreases b,
    {
        let w = space_len_until(p, b);
        if w == 0 {
            break;
        }
        b = b - w;
    }
    let ghost d = trimmed(p@);
    if a >= b {
        assert(d =~= Seq::<u8>::empty());
        return Err(SubmissionError);
    }
    assert(d =~= p@.subrange(a as int, b as int));
    assert(d[0] == p@[a as int]);
    let signed = p[a] == 43u8 || p[a] == 45u8;
    let neg = p[a] == 45u8;
    let s: usize = if signed { a + 1 } else { a };
    let ghost body = p@.subrange(s as int, b as int);
    assert(body =~= (if signed { d.subrange(1, d.len() as int) } else { d }));
    if s == b {
        return Err(SubmissionError);
    }
    let mut k: usize = s;
    let mut mag: i64 = 0;
    while k < b
        invariant
            s <= k <= b <= n == p@.len(),
            body == p@.subrange(s as int, b as int),
            d == trimmed(p@),
            p@ == payload@,
            body == (if signed { d.subrange(1, d.len() as int) } else { d }),
            signed == (d.len() > 0 && (d[0] == 43 || d[0] == 45)),
            neg == (signed && d[0] == 45),
            body.len() > 0,
            all_digits(p@.subrange(s as int, k as int)),
            mag == digits_value(p@.subrange(s as int, k as int)),
            0 <= mag <= 2147483648,
        decreases b - k,
    {
        let c = p[k];
        if c < 48u8 || c > 57u8 {
            assert(!is_digit(body[k - s]));
            return Err(SubmissionError);
        }
        let next = mag * 10 + (c - 48u8) as i64;
        let ghost w = p@.subrange(s as int, k as int + 1);
        proof {
            assert(w.drop_last() =~= p@.subrange(s as int, k as int));
            assert(next == digits_value(w));
            assert(all_digits(w));
        }
        if next > 2147483648 {
            proof {
                if all_digits(body) {
                    assert(body.subrange(0, k - s + 1) =~= w);
                    lemma_digits_value_prefix(body, k - s + 1);
                }
            }
            return Err(SubmissionError);
        }
        mag = next;
        k = k + 1;
    }
    assert(p@.subrange(s as int, k as int) =~= body);
    let v: i64 = if neg { -mag } else { mag };
    if v < -2147483648 || v > 2147483647 {
        return Err(SubmissionError);
    }
    Ok(v as i32)
}

/// The message that carries a document's text to subscribers: the prefix,
/// then the text.
pub fn update_message(document: &[u8]) -> (r: Vec<u8>)
    ensures
        r@ == update_prefix() + document@,
{
    let mut out = prefix_bytes();
    let mut i: usize = 0;
    while i < document.len()
        invariant
            i <= document@.len(),
            out@ == update_prefix() + document@.subrange(0, i as int),
        decreases document@.len() - i,
    {
        out.push(document[i]);
        assert(document@.subrange(0, i as int + 1) =~= document@.subrange(0, i as int).push(
            document@[i as int],
        ));
        i = i + 1;
    }
    assert(document@.subrange(0, document@.len() as int) =~= document@);
    out
}

fn prefix_at(m: &[u8], o: usize, prefix: &Vec<u8>) -> (r: bool)
    requires
        o <= m@.len(),
        prefix@ == update_prefix(),
    ensures
        r == (m@.len() - o >= update_prefix().len() && m@.subrange(
            o as int,
            o + update_prefix().len(),
        ) == update_prefix()),
{
    let n = prefix.len();
    if m.len() - o < n {
        return false;
    }
    let end = o + n;
    let mut k: usize = o;
    while k < end
        invariant
            o <= k <= end == o + n <= m@.len(),
            n == prefix@.len(),
            prefix@ == update_prefix(),
            forall|j: int| 0 <= j < k - o ==> m@[o + j] == prefix@[j],
        decreases end - k,
    {
        if m[k] != prefix[k - o] {
            assert(m@.subrange(o as int, o + n)[k - o] != update_prefix()[k - o]);
            return false;
        }
        k = k + 1;
    }
    assert(m@.subrange(o as int, o + n) =~= update_prefix());
    true
}

/// What a client keeps of an update: the message with every leading copy of
/// the prefix removed.
pub fn strip_update_prefix(message: &[u8]) -> (r: Vec<u8>)
    ensures
        r@ == without_prefixes(message@),
{
    let m = message;
    let prefix = prefix_bytes();
    let n = prefix.len();
    let len = m.len();
    let mut o: usize = 0;
    assert(m@.subrange(0, m@.len() as int) =~= m@);
    while prefix_at(m, o, &prefix)
        invariant
            o <= m@.len() == len,
            prefix@ == update_prefix(),
            n == prefix@.len(),
            without_prefixes(m@.subrange(o as int, m@.len() as int)) == without_prefixes(m@),
        decreases m@.len() - o,
    {
        proof {
            let rest = m@.subrange(o as int, m@.len() as int);
            assert(rest.subrange(0, n as int) =~= m@.subrange(o as int, o + n));
            assert(rest.subrange(n as int, rest.len() as int) =~= m@.subrange(
                o + n,
                m@.len() as int,
            ));
        }
        o = o + n;
    }
    proof {
        let rest = m@.subrange(o as int, m@.len() as int);
        if rest.len() >= n {
            assert(rest.subrange(0, n as int) =~= m@.subrange(o as int, o + n));
        }
    }
    let mut out: Vec<u8> = Vec::new();
    let mut i: usize = o;
    while i < m.len()
        invariant
            o <= i <= m@.len(),
            out@ == m@.subrange(o as int, i as int),
        decreases m@.len() - i,
    {
        out.push(m[i]);
        assert(m@.subrange(o as int, i as int + 1) =~= m@.subrange(o as int, i as int).push(
            m@[i as int],
        ));
        i = i + 1;
    }
    out
}

} // verus!
