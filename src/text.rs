//! Decimal text of element values: reading a literal and writing a value.

use vstd::prelude::*;

use crate::memory_reader::{FromLeBytes, in_range, lemma_pow256_values, signed_of, value_max, value_min};

verus! {

pub open spec fn is_digit(c: char) -> bool {
    '0' <= c <= '9'
}

pub open spec fn all_digits(s: Seq<char>) -> bool {
    forall|i: int| 0 <= i < s.len() ==> is_digit(#[trigger] s[i])
}

/// Value of a run of decimal digits.
pub open spec fn digits_value(s: Seq<char>) -> nat
    decreases s.len(),
{
    if s.len() == 0 {
        0
    } else {
        digits_value(s.drop_last()) * 10 + (s.last() as nat - '0' as nat) as nat
    }
}

/// Sign and magnitude written by a literal: an optional `+` or `-`
/// followed by one or more decimal digits.
pub open spec fn literal_parts(s: Seq<char>) -> Option<(bool, nat)> {
    let (neg, body) = if s.len() > 0 && s[0] == '-' {
        (true, s.drop_first())
    } else if s.len() > 0 && s[0] == '+' {
        (false, s.drop_first())
    } else {
        (false, s)
    };
    if body.len() > 0 && all_digits(body) {
        Some((neg, digits_value(body)))
    } else {
        None
    }
}

/// Whether `s` is a literal of the element type `T`: a `-` only for a
/// signed type, and a value that `T` holds.
pub open spec fn literal_fits<T: FromLeBytes>(s: Seq<char>) -> bool {
    match literal_parts(s) {
        Some((neg, mag)) => (!neg || T::spec_signed()) && in_range::<T>(signed_of(neg, mag)),
        None => false,
    }
}

/// Value written by a literal.
pub open spec fn literal_value(s: Seq<char>) -> int {
    match literal_parts(s) {
        Some((neg, mag)) => signed_of(neg, mag),
        None => 0,
    }
}

pub proof fn lemma_digits_value_prefix(s: Seq<char>, k: int)
    requires
        all_digits(s),
        0 <= k <= s.len(),
    ensures
        digits_value(s) >= digits_value(s.subrange(0, k)),
    decreases s.len(),
{
    if k < s.len() {
        let t = s.drop_last();
        assert(all_digits(t)) by {
            assert forall|i: int| 0 <= i < t.len() implies is_digit(#[trigger] t[i]) by {
                assert(t[i] == s[i]);
            }
        }
        lemma_digits_value_prefix(t, k);
        assert(t.subrange(0, k) =~= s.subrange(0, k));
    } else {
        assert(s.subrange(0, k) =~= s);
    }
}

/// Reads a decimal literal as a value of `T`.
pub fn parse_literal<T: FromLeBytes>(s: &str) -> (r: Option<T>)
    ensures
        r is Some <==> literal_fits::<T>(s@),
        r is Some ==> r->0.spec_int() == literal_value(s@),
{
    let len = s.unicode_len();
    if len == 0 {
        return None;
    }
    let first = s.get_char(0);
    let mut neg = false;
    let mut start: usize = 0;
    if first == '-' {
        neg = true;
        start = 1;
    } else if first == '+' {
        start = 1;
    }
    let ghost body = s@.subrange(start as int, len as int);
    proof {
        if start == 1 {
            assert(body =~= s@.drop_first());
        } else {
            assert(body =~= s@);
        }
    }
    let ghost parts = if body.len() > 0 && all_digits(body) {
        Some((neg, digits_value(body)))
    } else {
        None
    };
    assert(literal_parts(s@) == parts);
    if start == len {
        return None;
    }
    let mut i: usize = start;
    let mut mag: u128 = 0;
    while i < len
        invariant
            len == s@.len(),
            start <= i <= len,
            body == s@.subrange(start as int, len as int),
            literal_parts(s@) == parts,
            parts == (if body.len() > 0 && all_digits(body) {
                Some((neg, digits_value(body)))
            } else {
                None
            }),
            all_digits(s@.subrange(start as int, i as int)),
            mag == digits_value(s@.subrange(start as int, i as int)),
        decreases len - i,
    {
        let c = s.get_char(i);
        let ghost pre = s@.subrange(start as int, i as int);
        let ghost next = s@.subrange(start as int, i + 1);
        proof {
            assert(next.drop_last() =~= pre);
            assert(next[next.len() - 1] == c);
        }
        if !('0' <= c && c <= '9') {
            proof {
                assert(body[i - start] == c);
                assert(!is_digit(body[i - start]));
            }
            return None;
        }
        proof {
            assert(all_digits(next)) by {
                assert forall|j: int| 0 <= j < next.len() implies is_digit(#[trigger] next[j]) by {
                    if j < pre.len() {
                        assert(next[j] == pre[j]);
                    }
                }
            }
        }
        let d = (c as u32 - 48) as u128;
        let stepped = match mag.checked_mul(10) {
            Some(m) => m.checked_add(d),
            None => None,
        };
        match stepped {
            Some(x) => {
                mag = x;
            },
            None => {
                proof {
                    assert(digits_value(next) > u128::MAX);
                    if all_digits(body) {
                        assert(body.subrange(0, (i + 1 - start) as int) =~= next);
                        lemma_digits_value_prefix(body, (i + 1 - start) as int);
                        T::lemma_size();
                        lemma_pow256_values();
                    }
                }
                return None;
            },
        }
        i = i + 1;
    }
    if neg && !T::signed() {
        return None;
    }
    T::from_sign_magnitude(neg, mag)
}

/// The decimal digit `d` as a character.
pub open spec fn digit_char(d: nat) -> char {
    ((d + 48) as u8) as char
}

/// Decimal digits of `n`, most significant first.
pub open spec fn nat_text(n: nat) -> Seq<char>
    decreases n,
{
    if n < 10 {
        seq![digit_char(n)]
    } else {
        nat_text(n / 10).push(digit_char(n % 10))
    }
}

/// Decimal text of `v`, with a leading `-` when negative.
pub open spec fn int_text(v: int) -> Seq<char> {
    if v < 0 {
        seq!['-'] + nat_text((-v) as nat)
    } else {
        nat_text(v as nat)
    }
}

pub open spec fn reversed(s: Seq<char>) -> Seq<char> {
    Seq::new(s.len(), |i: int| s[s.len() - 1 - i])
}

/// Relies on `String::push`: appends one character to the string.
#[verifier::external_body]
pub(crate) fn push_char(s: &mut String, c: char)
    ensures
        final(s)@ == old(s)@.push(c),
{
    s.push(c);
}

fn digit(d: u128) -> (c: char)
    requires
        d < 10,
    ensures
        c == digit_char(d as nat),
{
    ((d as u8) + 48) as char
}

/// Decimal text of an element value.
pub fn value_text<T: FromLeBytes>(v: &T) -> (r: String)
    ensures
        r@ == int_text(v.spec_int()),
{
    let (neg, mag) = v.sign_magnitude();
    let mut n: u128 = mag;
    let mut rev: Vec<char> = Vec::new();
    while n >= 10
        invariant
            nat_text(mag as nat) == nat_text(n as nat) + reversed(rev@),
        decreases n,
    {
        let ghost before = rev@;
        rev.push(digit(n % 10));
        proof {
            assert(reversed(rev@) =~= seq![digit_char((n % 10) as nat)] + reversed(before));
            assert(nat_text(n as nat) == nat_text((n / 10) as nat).push(digit_char((n % 10) as nat)));
            assert(nat_text((n / 10) as nat).push(digit_char((n % 10) as nat)) + reversed(before)
                =~= nat_text((n / 10) as nat) + reversed(rev@));
        }
        n = n / 10;
    }
    let ghost before = rev@;
    rev.push(digit(n));
    proof {
        assert(reversed(rev@) =~= seq![digit_char(n as nat)] + reversed(before));
        assert(nat_text(n as nat) == seq![digit_char(n as nat)]);
        assert(nat_text(mag as nat) =~= reversed(rev@));
    }
    let mut out = String::new();
    if neg {
        push_char(&mut out, '-');
    }
    let ghost prefix = out@;
    let mut j: usize = rev.len();
    while j > 0
        invariant
            j <= rev@.len(),
            out@ == prefix + reversed(rev@).subrange(0, rev@.len() - j),
        decreases j,
    {
        j = j - 1;
        let ghost old_out = out@;
        push_char(&mut out, rev[j]);
        proof {
            assert(reversed(rev@).subrange(0, rev@.len() - j) =~= reversed(rev@).subrange(
                0,
                rev@.len() - j - 1,
            ).push(rev@[j as int]));
            assert(out@ =~= prefix + reversed(rev@).subrange(0, rev@.len() - j));
        }
    }
    proof {
        assert(reversed(rev@).subrange(0, rev@.len() as int) =~= reversed(rev@));
        if neg {
            assert(prefix =~= seq!['-']);
        } else {
            assert(prefix =~= Seq::<char>::empty());
        }
    }
    out
}

} // verus!
