//! The stored document: one field `integers` holding an array of `i32`,
//! written as `{"integers":[1,2,3]}`. Reading accepts JSON whitespace between
//! the tokens, so a pretty-printed document reads the same.
use vstd::prelude::*;
use crate::decimal::{
    all_digits, digits_of, digits_value, int_text, is_digit, lemma_digits_of,
    lemma_digits_value_prefix, push_int,
};

verus! {

/// The ordered integers that the store holds.
pub struct IntegerDocument {
    integers: Vec<i32>,
}

impl View for IntegerDocument {
    type V = Seq<i32>;

    closed spec fn view(&self) -> Seq<i32> {
        self.integers@
    }
}

/// The stored text is not a document.
#[derive(Debug, Clone, Copy, PartialEq, Eq)]
pub struct DecodeError;

pub open spec fn is_ws(b: u8) -> bool {
    b == 32 || b == 9 || b == 10 || b == 13
}

/// The bytes `"integers"`, quotes included.
pub open spec fn key_text() -> Seq<u8> {
    seq![34u8, 105u8, 110u8, 116u8, 101u8, 103u8, 101u8, 114u8, 115u8, 34u8]
}

/// The array's items, separated by commas.
pub open spec fn items_text(s: Seq<i32>) -> Seq<u8>
    decreases s.len(),
{
    if s.len() == 0 {
        seq![]
    } else if s.len() == 1 {
        int_text(s[0] as int)
    } else {
        int_text(s[0] as int) + seq![44u8] + items_text(s.subrange(1, s.len() as int))
    }
}

/// The text that the library writes for a document holding `s`.
pub open spec fn render(s: Seq<i32>) -> Seq<u8> {
    seq![123u8] + key_text() + seq![58u8, 91u8] + items_text(s) + seq![93u8, 125u8]
}

/// The first position at or after `i` that holds no whitespace.
pub open spec fn skip_ws(t: Seq<u8>, i: int) -> int
    decreases t.len() - i,
{
    if 0 <= i < t.len() && is_ws(t[i]) {
        skip_ws(t, i + 1)
    } else {
        i
    }
}

/// The first position at or after `i` that holds no digit.
pub open spec fn skip_digits(t: Seq<u8>, i: int) -> int
    decreases t.len() - i,
{
    if 0 <= i < t.len() && is_digit(t[i]) {
        skip_digits(t, i + 1)
    } else {
        i
    }
}

pub open spec fn token_at(t: Seq<u8>, i: int, b: u8) -> bool {
    0 <= i < t.len() && t[i] == b
}

/// The integer written at `i` (an optional `-`, then digits with no leading
/// zero), and the position after it; none where no digit follows, a `0` is
/// followed by another digit, or the value leaves `i32`.
pub open spec fn number_at(t: Seq<u8>, i: int) -> Option<(i32, int)> {
    let neg = token_at(t, i, 45);
    let s = if neg { i + 1 } else { i };
    let e = skip_digits(t, s);
    let mag = digits_value(t.subrange(s, e));
    let v = if neg { -mag } else { mag };
    if 0 <= i && s < e && !(e > s + 1 && t[s] == 48) && i32::MIN <= v <= i32::MAX {
        Some((v as i32, e))
    } else {
        None
    }
}

/// The items of a non-empty array from `i` to its closing bracket, after
/// those already read (`acc`), and the position after the bracket.
pub open spec fn items_from(t: Seq<u8>, i: int, acc: Seq<i32>) -> Option<(Seq<i32>, int)>
    decreases t.len() - i,
    via items_from_decreases
{
    match number_at(t, i) {
        None => None,
        Some((v, e)) => {
            let k = skip_ws(t, e);
            if token_at(t, k, 44) {
                items_from(t, skip_ws(t, k + 1), acc.push(v))
            } else if token_at(t, k, 93) {
                Some((acc.push(v), k + 1))
            } else {
                None
            }
        },
    }
}

/// The array's items from just after its opening bracket and whitespace, and
/// the position after its closing bracket.
pub open spec fn list_at(t: Seq<u8>, i: int) -> Option<(Seq<i32>, int)> {
    if token_at(t, i, 93) {
        Some((seq![], i + 1))
    } else {
        items_from(t, i, seq![])
    }
}

/// The integers of a document text, or none where the text is no document.
pub open spec fn decode(t: Seq<u8>) -> Option<Seq<i32>> {
    let a = skip_ws(t, 0);
    let b = skip_ws(t, a + 1);
    let c = skip_ws(t, b + 10);
    let d = skip_ws(t, c + 1);
    let e = skip_ws(t, d + 1);
    if token_at(t, a, 123) && b + 10 <= t.len() && t.subrange(b, b + 10) == key_text()
        && token_at(t, c, 58) && token_at(t, d, 91) {
        match list_at(t, e) {
            None => None,
            Some((s, f)) => {
                let g = skip_ws(t, f);
                if token_at(t, g, 125) && skip_ws(t, g + 1) == t.len() {
                    Some(s)
                } else {
                    None
                }
            },
        }
    } else {
        None
    }
}

pub proof fn lemma_skip_ws_bounds(t: Seq<u8>, i: int)
    requires
        0 <= i <= t.len(),
    ensures
        i <= skip_ws(t, i) <= t.len(),
    decreases t.len() - i,
{
    if i < t.len() && is_ws(t[i]) {
        lemma_skip_ws_bounds(t, i + 1);
    }
}

pub proof fn lemma_skip_digits_bounds(t: Seq<u8>, i: int)
    requires
        0 <= i <= t.len(),
    ensures
        i <= skip_digits(t, i) <= t.len(),
        forall|k: int| i <= k < skip_digits(t, i) ==> is_digit(#[trigger] t[k]),
    decreases t.len() - i,
{
    if i < t.len() && is_digit(t[i]) {
        lemma_skip_digits_bounds(t, i + 1);
    }
}

#[via_fn]
proof fn items_from_decreases(t: Seq<u8>, i: int, acc: Seq<i32>) {
    if let Some((v, e)) = number_at(t, i) {
        let s = if token_at(t, i, 45) { i + 1 } else { i };
        if s <= t.len() {
            lemma_skip_digits_bounds(t, s);
        }
        lemma_skip_ws_bounds(t, e);
        let k = skip_ws(t, e);
        if token_at(t, k, 44) {
            lemma_skip_ws_bounds(t, k + 1);
        }
    }
}

/// Writing one more item after a non-empty array adds a comma and the item.
pub proof fn lemma_items_text_push(s: Seq<i32>, x: i32)
    requires
        s.len() >= 1,
    ensures
        items_text(s.push(x)) == items_text(s) + seq![44u8] + int_text(x as int),
    decreases s.len(),
{
    let p = s.push(x);
    if s.len() == 1 {
        assert(p.subrange(1, p.len() as int) =~= seq![x]);
        assert(items_text(seq![x]) == int_text(x as int));
        assert(p[0] == s[0]);
        assert(items_text(p) == int_text(s[0] as int) + seq![44u8] + items_text(seq![x]));
        assert(items_text(p) =~= items_text(s) + seq![44u8] + int_text(x as int));
    } else {
        let r = s.subrange(1, s.len() as int);
        assert(p.subrange(1, p.len() as int) =~= r.push(x));
        lemma_items_text_push(r, x);
        assert(p[0] == s[0]);
        assert(items_text(p) == int_text(s[0] as int) + seq![44u8] + items_text(r.push(x)));
        assert(items_text(s) == int_text(s[0] as int) + seq![44u8] + items_text(r));
        assert(items_text(p) =~= items_text(s) + seq![44u8] + int_text(x as int));
    }
}

proof fn lemma_skip_digits_exact(t: Seq<u8>, i: int, e: int)
    requires
        0 <= i <= e <= t.len(),
        forall|k: int| i <= k < e ==> is_digit(#[trigger] t[k]),
        e == t.len() || !is_digit(t[e]),
    ensures
        skip_digits(t, i) == e,
    decreases e - i,
{
    if i < e {
        lemma_skip_digits_exact(t, i + 1, e);
    }
}

/// The text of `v`, followed by a byte that is no digit, reads back as `v`.
proof fn lemma_number_at_text(t: Seq<u8>, i: int, v: i32)
    requires
        0 <= i,
        i + int_text(v as int).len() < t.len(),
        t.subrange(i, i + int_text(v as int).len()) == int_text(v as int),
        !is_digit(t[i + int_text(v as int).len()]),
    ensures
        number_at(t, i) == Some((v, i + int_text(v as int).len())),
{
    let w = int_text(v as int);
    let end = i + w.len();
    let mag: nat = if v < 0 { (-v) as nat } else { v as nat };
    let d = digits_of(mag);
    lemma_digits_of(mag);
    let s = if v < 0 { i + 1 } else { i };
    assert(t[i] == w[0]);
    if v < 0 {
        assert(w[0] == 45u8);
    } else {
        assert(is_digit(d[0]));
    }
    assert forall|k: int| s <= k < end implies is_digit(#[trigger] t[k]) by {
        assert(t[k] == w[k - i]);
        assert(w[k - i] == d[k - s]);
    }
    lemma_skip_digits_exact(t, s, end);
    assert(t[s] == t.subrange(i, end)[s - i]);
    assert(w[s - i] == d[0]);
    assert(t[s] == d[0]);
    assert forall|k: int| 0 <= k < d.len() implies t.subrange(s, end)[k] == d[k] by {
        assert(t[s + k] == w[s + k - i]);
    }
    assert(t.subrange(s, end) =~= d);
}

/// The items written at `i` and closed by `]` read back after `acc`.
proof fn lemma_items_round_trip(t: Seq<u8>, i: int, s: Seq<i32>, acc: Seq<i32>)
    requires
        0 <= i,
        s.len() >= 1,
        i + items_text(s).len() < t.len(),
        t.subrange(i, i + items_text(s).len()) == items_text(s),
        t[i + items_text(s).len()] == 93u8,
    ensures
        items_from(t, i, acc) == Some((acc + s, i + items_text(s).len() + 1)),
    decreases s.len(),
{
    let w = int_text(s[0] as int);
    let e = i + w.len();
    let all = items_text(s);
    assert(all.subrange(0, w.len() as int) =~= w);
    assert(t.subrange(i, e) =~= all.subrange(0, w.len() as int));
    if s.len() == 1 {
        assert(all == w);
        lemma_number_at_text(t, i, s[0]);
        assert(skip_ws(t, e) == e);
        assert(acc.push(s[0]) =~= acc + s);
    } else {
        let r = s.subrange(1, s.len() as int);
        let rt = items_text(r);
        assert(all == w + seq![44u8] + rt);
        assert(t[e] == all[w.len() as int]);
        lemma_number_at_text(t, i, s[0]);
        assert(skip_ws(t, e) == e);
        lemma_digits_of(if r[0] < 0 { (-r[0]) as nat } else { r[0] as nat });
        assert(rt.subrange(0, int_text(r[0] as int).len() as int) =~= int_text(r[0] as int))
            by {
            if r.len() > 1 {
                assert(rt == int_text(r[0] as int) + seq![44u8] + items_text(
                    r.subrange(1, r.len() as int),
                ));
            }
        }
        assert(t[e + 1] == t.subrange(i, i + all.len())[w.len() as int + 1]);
        assert(all[w.len() as int + 1] == rt[0]);
        assert(t[e + 1] == rt[0]);
        assert(skip_ws(t, e + 1) == e + 1);
        assert(t.subrange(e + 1, e + 1 + rt.len()) =~= rt) by {
            assert forall|k: int| 0 <= k < rt.len() implies t.subrange(e + 1, e + 1 + rt.len())[k]
                == rt[k] by {
                assert(t[e + 1 + k] == all[w.len() + 1 + k]);
            }
        }
        lemma_items_round_trip(t, e + 1, r, acc.push(s[0]));
        assert(acc.push(s[0]) + r =~= acc + s);
    }
}

/// Writing a document and reading the text back gives the same integers, in
/// the same order.
pub proof fn lemma_round_trip(s: Seq<i32>)
    ensures
        decode(render(s)) == Some(s),
{
    let t = render(s);
    let it = items_text(s);
    let n = it.len() as int;
    assert(t.len() == 15 + n);
    assert(t[0] == 123u8);
    assert(skip_ws(t, 0) == 0);
    assert(t[1] == 34u8);
    assert(skip_ws(t, 1) == 1);
    assert(t.subrange(1, 11) =~= key_text());
    assert(t[11] == 58u8);
    assert(skip_ws(t, 11) == 11);
    assert(t[12] == 91u8);
    assert(skip_ws(t, 12) == 12);
    assert(t[13 + n] == 93u8);
    assert(t[14 + n] == 125u8);
    if s.len() == 0 {
        assert(it.len() == 0);
        assert(skip_ws(t, 13) == 13);
        assert(list_at(t, 13) == Some((Seq::<i32>::empty(), 14int)));
    } else {
        assert(t.subrange(13, 13 + n) =~= it);
        let w0 = int_text(s[0] as int);
        lemma_digits_of(if s[0] < 0 { (-s[0]) as nat } else { s[0] as nat });
        assert(it.subrange(0, w0.len() as int) =~= w0) by {
            if s.len() > 1 {
                assert(it == w0 + seq![44u8] + items_text(s.subrange(1, s.len() as int)));
            }
        }
        assert(t[13] == it[0]);
        assert(skip_ws(t, 13) == 13);
        lemma_items_round_trip(t, 13, s, seq![]);
        assert(seq![] + s =~= s);
    }
    assert(skip_ws(t, 14 + n) == 14 + n);
    assert(skip_ws(t, 15 + n) == 15 + n);
}

fn skip_ws_at(t: &[u8], i: usize) -> (r: usize)
    requires
        i <= t@.len(),
    ensures
        r as int == skip_ws(t@, i as int),
        i <= r <= t@.len(),
{
    let mut k = i;
    while k < t.len() && (t[k] == 32u8 || t[k] == 9u8 || t[k] == 10u8 || t[k] == 13u8)
        invariant
            i <= k <= t@.len(),
            skip_ws(t@, k as int) == skip_ws(t@, i as int),
        decreases t@.len() - k,
    {
        k = k + 1;
    }
    k
}

fn number_from(t: &[u8], i: usize) -> (r: Option<(i32, usize)>)
    requires
        i <= t@.len(),
    ensures
        match r {
            None => number_at(t@, i as int) is None,
            Some((v, e)) => number_at(t@, i as int) == Some((v, e as int)) && e <= t@.len(),
        },
{
    let neg = i < t.len() && t[i] == 45u8;
    let s: usize = if neg { i + 1 } else { i };
    let ghost e = skip_digits(t@, s as int);
    proof {
        lemma_skip_digits_bounds(t@, s as int);
    }
    let mut k = s;
    let mut mag: i64 = 0;
    while k < t.len() && 48u8 <= t[k] && t[k] <= 57u8
        invariant
            s <= k <= e <= t@.len(),
            neg == token_at(t@, i as int, 45),
            s == if neg { i + 1 } else { i as int },
            e == skip_digits(t@, s as int),
            skip_digits(t@, k as int) == e,
            all_digits(t@.subrange(s as int, e)),
            mag == digits_value(t@.subrange(s as int, k as int)),
            0 <= mag <= 2147483648,
        decreases t@.len() - k,
    {
        let d = (t[k] - 48u8) as i64;
        let next = mag * 10 + d;
        proof {
            lemma_skip_digits_bounds(t@, k as int + 1);
            let w = t@.subrange(s as int, k as int + 1);
            assert(w.drop_last() =~= t@.subrange(s as int, k as int));
            assert(next == digits_value(w));
        }
        if next > 2147483648 {
            proof {
                lemma_skip_digits_bounds(t@, k as int + 1);
                let full = t@.subrange(s as int, e);
                assert(full.subrange(0, k - s + 1) =~= t@.subrange(s as int, k as int + 1));
                lemma_digits_value_prefix(full, k - s + 1);
                assert(digits_value(full) > 2147483648);
            }
            return None;
        }
        mag = next;
        k = k + 1;
    }
    if k == s {
        return None;
    }
    if k > s + 1 && t[s] == 48u8 {
        return None;
    }
    let v: i64 = if neg { -mag } else { mag };
    if v < -2147483648 || v > 2147483647 {
        return None;
    }
    Some((v as i32, k))
}

/// Reads the items of a non-empty array, from `i` to its closing bracket.
fn items_from_at(t: &[u8], i: usize) -> (r: Option<(Vec<i32>, usize)>)
    requires
        i <= t@.len(),
    ensures
        match r {
            None => items_from(t@, i as int, seq![]) is None,
            Some((v, e)) => items_from(t@, i as int, seq![]) == Some((v@, e as int))
                && e <= t@.len(),
        },
{
    let ghost target = items_from(t@, i as int, seq![]);
    let mut acc: Vec<i32> = Vec::new();
    let mut j = i;
    loop
        invariant
            j <= t@.len(),
            items_from(t@, j as int, acc@) == target,
            target == items_from(t@, i as int, seq![]),
        decreases t@.len() - j,
    {
        match number_from(t, j) {
            None => {
                return None;
            },
            Some((v, e)) => {
                let ghost before = acc@;
                let k = skip_ws_at(t, e);
                acc.push(v);
                assert(items_from(t@, j as int, before) == if token_at(t@, k as int, 44) {
                    items_from(t@, skip_ws(t@, k + 1), acc@)
                } else if token_at(t@, k as int, 93) {
                    Some((acc@, k + 1))
                } else {
                    None
                });
                if k < t.len() && t[k] == 44u8 {
                    j = skip_ws_at(t, k + 1);
                } else if k < t.len() && t[k] == 93u8 {
                    return Some((acc, k + 1));
                } else {
                    return None;
                }
            },
        }
    }
}

fn list_from(t: &[u8], i: usize) -> (r: Option<(Vec<i32>, usize)>)
    requires
        i <= t@.len(),
    ensures
        match r {
            None => list_at(t@, i as int) is None,
            Some((v, e)) => list_at(t@, i as int) == Some((v@, e as int)) && e <= t@.len(),
        },
{
    if i < t.len() && t[i] == 93u8 {
        Some((Vec::new(), i + 1))
    } else {
        items_from_at(t, i)
    }
}

fn key_at(t: &[u8], b: usize) -> (r: bool)
    requires
        b <= t@.len(),
    ensures
        r == (b + 10 <= t@.len() && t@.subrange(b as int, b + 10) == key_text()),
{
    if t.len() - b < 10 {
        return false;
    }
    let r = t[b] == 34u8 && t[b + 1] == 105u8 && t[b + 2] == 110u8 && t[b + 3] == 116u8
        && t[b + 4] == 101u8 && t[b + 5] == 103u8 && t[b + 6] == 101u8 && t[b + 7] == 114u8
        && t[b + 8] == 115u8 && t[b + 9] == 34u8;
    proof {
        if r {
            assert(t@.subrange(b as int, b + 10) =~= key_text());
        } else {
            if t@.subrange(b as int, b + 10) == key_text() {
                assert(t@.subrange(b as int, b + 10)[0] == t@[b as int]);
                assert(t@.subrange(b as int, b + 10)[1] == t@[b + 1]);
                assert(t@.subrange(b as int, b + 10)[2] == t@[b + 2]);
                assert(t@.subrange(b as int, b + 10)[3] == t@[b + 3]);
                assert(t@.subrange(b as int, b + 10)[4] == t@[b + 4]);
                assert(t@.subrange(b as int, b + 10)[5] == t@[b + 5]);
                assert(t@.subrange(b as int, b + 10)[6] == t@[b + 6]);
                assert(t@.subrange(b as int, b + 10)[7] == t@[b + 7]);
                assert(t@.subrange(b as int, b + 10)[8] == t@[b + 8]);
                assert(t@.subrange(b as int, b + 10)[9] == t@[b + 9]);
            }
        }
    }
    r
}

impl IntegerDocument {
    /// The empty document.
    pub fn new() -> (r: Self)
        ensures
            r@ == Seq::<i32>::empty(),
    {
        IntegerDocument { integers: Vec::new() }
    }

    /// A document holding `integers`, in their order.
    pub fn from_integers(integers: Vec<i32>) -> (r: Self)
        ensures
            r@ == integers@,
    {
        IntegerDocument { integers }
    }

    /// The integers, in the order they were appended.
    pub fn integers(&self) -> (r: &Vec<i32>)
        ensures
            r@ == self@,
    {
        &self.integers
    }

    pub fn len(&self) -> (r: usize)
        ensures
            r == self@.len(),
    {
        self.integers.len()
    }

    /// Appends one integer at the end.
    pub fn append(&mut self, value: i32)
        ensures
            final(self)@ == old(self)@.push(value),
    {
        self.integers.push(value);
    }

    /// The document's text: `{"integers":[` then the items separated by
    /// commas, then `]}`.
    pub fn to_json(&self) -> (r: Vec<u8>)
        ensures
            r@ == render(self@),
    {
        let s = &self.integers;
        let mut out: Vec<u8> = Vec::new();
        out.push(123u8);
        out.push(34u8);
        out.push(105u8);
        out.push(110u8);
        out.push(116u8);
        out.push(101u8);
        out.push(103u8);
        out.push(101u8);
        out.push(114u8);
        out.push(115u8);
        out.push(34u8);
        out.push(58u8);
        out.push(91u8);
        let ghost head = out@;
        assert(head =~= seq![123u8] + key_text() + seq![58u8, 91u8]);
        let mut i: usize = 0;
        while i < s.len()
            invariant
                i <= s@.len(),
                out@ == head + items_text(s@.subrange(0, i as int)),
            decreases s@.len() - i,
        {
            proof {
                let p = s@.subrange(0, i as int);
                assert(s@.subrange(0, i as int + 1) =~= p.push(s@[i as int]));
                if i > 0 {
                    lemma_items_text_push(p, s@[i as int]);
                } else {
                    assert(p.push(s@[0]) =~= seq![s@[0]]);
                }
            }
            if i > 0 {
                out.push(44u8);
            }
            push_int(&mut out, s[i]);
            proof {
                let p = s@.subrange(0, i as int);
                if i > 0 {
                    assert(out@ =~= head + items_text(s@.subrange(0, i as int + 1)));
                } else {
                    assert(out@ =~= head + items_text(s@.subrange(0, i as int + 1)));
                }
            }
            i = i + 1;
        }
        out.push(93u8);
        out.push(125u8);
        assert(s@.subrange(0, s@.len() as int) =~= s@);
        assert(out@ =~= render(self@));
        out
    }

    /// Reads a document text: `{`, the key `"integers"`, `:`, then an array
    /// of integers and `}`, with whitespace allowed between the tokens.
    pub fn from_json(t: &[u8]) -> (r: Result<Self, DecodeError>)
        ensures
            match r {
                Ok(d) => decode(t@) == Some(d@),
                Err(_) => decode(t@) is None,
            },
    {
        let a = skip_ws_at(t, 0);
        if !(a < t.len() && t[a] == 123u8) {
            return Err(DecodeError);
        }
        let b = skip_ws_at(t, a + 1);
        if !key_at(t, b) {
            return Err(DecodeError);
        }
        let c = skip_ws_at(t, b + 10);
        if !(c < t.len() && t[c] == 58u8) {
            return Err(DecodeError);
        }
        let d = skip_ws_at(t, c + 1);
        if !(d < t.len() && t[d] == 91u8) {
            return Err(DecodeError);
        }
        let e = skip_ws_at(t, d + 1);
        match list_from(t, e) {
            None => Err(DecodeError),
            Some((integers, f)) => {
                let g = skip_ws_at(t, f);
                if !(g < t.len() && t[g] == 125u8) {
                    return Err(DecodeError);
                }
                let h = skip_ws_at(t, g + 1);
                if h != t.len() {
                    return Err(DecodeError);
                }
                Ok(IntegerDocument { integers })
            },
        }
    }
}

} // verus!
