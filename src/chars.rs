//! Scanning character sequences: whitespace-separated fields, digit runs.

use vstd::prelude::*;

use crate::text::{all_digits, digits_value, is_digit, lemma_digits_value_prefix};

verus! {

broadcast use {vstd::string::next_postcondition, vstd::string::axiom_spec_iter};

/// The characters of `s`.
pub fn chars_of(s: &str) -> (r: Vec<char>)
    ensures
        r@ == s@,
{
    let n = s.unicode_len();
    let mut it = s.chars();
    let mut out: Vec<char> = Vec::new();
    let mut i: usize = 0;
    while i < n
        invariant
            n == s@.len(),
            i <= n,
            vstd::std_specs::iter::IteratorSpec::remaining(&it) == s@.subrange(i as int, n as int),
            out@ == s@.subrange(0, i as int),
        decreases n - i,
    {
        match it.next() {
            Some(c) => {
                out.push(c);
            },
            None => {
                // the iterator still holds the characters from `i` on
                assert(false);
            },
        }
        proof {
            assert(out@ =~= s@.subrange(0, i + 1 as int));
            assert(s@.subrange(i as int, n as int).drop_first() =~= s@.subrange(i + 1 as int, n as int));
        }
        i = i + 1;
    }
    proof {
        assert(out@ =~= s@);
    }
    out
}

pub open spec fn is_space(c: char) -> bool {
    c == ' ' || c == '\t' || c == '\n' || c == '\r' || c == '\x0b' || c == '\x0c'
}

/// First position at or after `i` that is not whitespace.
pub open spec fn skip_spaces(s: Seq<char>, i: int) -> int
    decreases s.len() - i,
{
    if 0 <= i < s.len() && is_space(s[i]) {
        skip_spaces(s, i + 1)
    } else {
        i
    }
}

/// First position at or after `i` that is whitespace.
pub open spec fn word_end(s: Seq<char>, i: int) -> int
    decreases s.len() - i,
{
    if 0 <= i < s.len() && !is_space(s[i]) {
        word_end(s, i + 1)
    } else {
        i
    }
}

/// First position in `lo..hi` that holds `c`, or `hi`.
pub open spec fn find_char(s: Seq<char>, lo: int, hi: int, c: char) -> int
    decreases hi - lo,
{
    if lo < hi && s[lo] != c {
        find_char(s, lo + 1, hi, c)
    } else if lo < hi {
        lo
    } else {
        hi
    }
}

/// Bounds of the `k`-th whitespace-separated field, counting from zero.
pub open spec fn field(s: Seq<char>, k: nat) -> (int, int)
    decreases k,
{
    let from = if k == 0 {
        0
    } else {
        field(s, (k - 1) as nat).1
    };
    let a = skip_spaces(s, from);
    (a, word_end(s, a))
}

pub open spec fn field_text(s: Seq<char>, k: nat) -> Seq<char> {
    s.subrange(field(s, k).0, field(s, k).1)
}

/// End of `s[lo..hi]` with trailing whitespace dropped.
pub open spec fn trim_end(s: Seq<char>, lo: int, hi: int) -> int
    decreases hi - lo,
{
    if lo < hi && is_space(s[hi - 1]) {
        trim_end(s, lo, hi - 1)
    } else {
        hi
    }
}

pub fn skip_spaces_at(s: &Vec<char>, i: usize) -> (r: usize)
    requires
        i <= s@.len(),
    ensures
        r == skip_spaces(s@, i as int),
        i <= r <= s@.len(),
{
    let mut j = i;
    while j < s.len() && is_space_char(s[j])
        invariant
            i <= j <= s@.len(),
            skip_spaces(s@, j as int) == skip_spaces(s@, i as int),
        decreases s@.len() - j,
    {
        j = j + 1;
    }
    j
}

pub fn word_end_at(s: &Vec<char>, i: usize) -> (r: usize)
    requires
        i <= s@.len(),
    ensures
        r == word_end(s@, i as int),
        i <= r <= s@.len(),
{
    let mut j = i;
    while j < s.len() && !is_space_char(s[j])
        invariant
            i <= j <= s@.len(),
            word_end(s@, j as int) == word_end(s@, i as int),
        decreases s@.len() - j,
    {
        j = j + 1;
    }
    j
}

pub fn find_char_in(s: &Vec<char>, lo: usize, hi: usize, c: char) -> (r: usize)
    requires
        lo <= hi <= s@.len(),
    ensures
        r == find_char(s@, lo as int, hi as int, c),
        lo <= r <= hi,
{
    let mut j = lo;
    while j < hi && s[j] != c
        invariant
            lo <= j <= hi <= s@.len(),
            find_char(s@, j as int, hi as int, c) == find_char(s@, lo as int, hi as int, c),
        decreases hi - j,
    {
        j = j + 1;
    }
    j
}

pub fn trim_end_in(s: &Vec<char>, lo: usize, hi: usize) -> (r: usize)
    requires
        lo <= hi <= s@.len(),
    ensures
        r == trim_end(s@, lo as int, hi as int),
        lo <= r <= hi,
{
    let mut j = hi;
    while j > lo && is_space_char(s[j - 1])
        invariant
            lo <= j <= hi <= s@.len(),
            trim_end(s@, lo as int, j as int) == trim_end(s@, lo as int, hi as int),
        decreases j,
    {
        j = j - 1;
    }
    j
}

pub fn is_space_char(c: char) -> (r: bool)
    ensures
        r == is_space(c),
{
    c == ' ' || c == '\t' || c == '\n' || c == '\r' || c == '\x0b' || c == '\x0c'
}

/// Value of a hexadecimal digit, in either case.
pub open spec fn hex_digit(c: char) -> Option<nat> {
    if '0' <= c <= '9' {
        Some((c as nat - '0' as nat) as nat)
    } else if 'a' <= c <= 'f' {
        Some((c as nat - 'a' as nat + 10) as nat)
    } else if 'A' <= c <= 'F' {
        Some((c as nat - 'A' as nat + 10) as nat)
    } else {
        None
    }
}

pub open spec fn all_hex(s: Seq<char>) -> bool {
    forall|i: int| 0 <= i < s.len() ==> (#[trigger] hex_digit(s[i])) is Some
}

/// Value of a run of hexadecimal digits.
pub open spec fn hex_value(s: Seq<char>) -> nat
    decreases s.len(),
{
    if s.len() == 0 {
        0
    } else {
        hex_value(s.drop_last()) * 16 + hex_digit(s.last())->0
    }
}

/// A non-empty run of hexadecimal digits whose value fits in `usize`.
pub open spec fn hex_fits(s: Seq<char>) -> bool {
    s.len() > 0 && all_hex(s) && hex_value(s) <= usize::MAX
}

/// A non-empty run of decimal digits whose value fits in `usize`.
pub open spec fn dec_fits(s: Seq<char>) -> bool {
    s.len() > 0 && all_digits(s) && digits_value(s) <= usize::MAX
}

proof fn lemma_hex_prefix(s: Seq<char>, k: int)
    requires
        all_hex(s),
        0 <= k <= s.len(),
    ensures
        hex_value(s) >= hex_value(s.subrange(0, k)),
    decreases s.len(),
{
    if k < s.len() {
        let t = s.drop_last();
        assert(all_hex(t)) by {
            assert forall|i: int| 0 <= i < t.len() implies (#[trigger] hex_digit(t[i])) is Some by {
                assert(t[i] == s[i]);
            }
        }
        lemma_hex_prefix(t, k);
        assert(t.subrange(0, k) =~= s.subrange(0, k));
    } else {
        assert(s.subrange(0, k) =~= s);
    }
}

fn hex_digit_of(c: char) -> (r: Option<usize>)
    ensures
        r is Some <==> hex_digit(c) is Some,
        r is Some ==> r->0 == hex_digit(c)->0,
{
    if '0' <= c && c <= '9' {
        Some((c as u32 - 48) as usize)
    } else if 'a' <= c && c <= 'f' {
        Some((c as u32 - 97 + 10) as usize)
    } else if 'A' <= c && c <= 'F' {
        Some((c as u32 - 65 + 10) as usize)
    } else {
        None
    }
}

/// Reads `s[lo..hi]` as a hexadecimal number.
pub fn parse_hex(s: &Vec<char>, lo: usize, hi: usize) -> (r: Option<usize>)
    requires
        lo <= hi <= s@.len(),
    ensures
        r is Some <==> hex_fits(s@.subrange(lo as int, hi as int)),
        r is Some ==> r->0 == hex_value(s@.subrange(lo as int, hi as int)),
{
    let ghost w = s@.subrange(lo as int, hi as int);
    if lo == hi {
        return None;
    }
    let mut v: usize = 0;
    let mut i = lo;
    while i < hi
        invariant
            lo <= i <= hi <= s@.len(),
            w == s@.subrange(lo as int, hi as int),
            all_hex(s@.subrange(lo as int, i as int)),
            v == hex_value(s@.subrange(lo as int, i as int)),
        decreases hi - i,
    {
        let ghost pre = s@.subrange(lo as int, i as int);
        let ghost next = s@.subrange(lo as int, i + 1);
        proof {
            assert(next.drop_last() =~= pre);
            assert(next.last() == s@[i as int]);
            assert(w[i - lo] == s@[i as int]);
        }
        let d = match hex_digit_of(s[i]) {
            Some(d) => d,
            None => {
                return None;
            },
        };
        proof {
            assert(all_hex(next)) by {
                assert forall|j: int| 0 <= j < next.len() implies (#[trigger] hex_digit(
                    next[j],
                )) is Some by {
                    if j < pre.len() {
                        assert(next[j] == pre[j]);
                    }
                }
            }
        }
        let stepped = match v.checked_mul(16) {
            Some(m) => m.checked_add(d),
            None => None,
        };
        match stepped {
            Some(x) => {
                v = x;
            },
            None => {
                proof {
                    if all_hex(w) {
                        assert(w.subrange(0, (i + 1 - lo) as int) =~= next);
                        lemma_hex_prefix(w, (i + 1 - lo) as int);
                    }
                }
                return None;
            },
        }
        i = i + 1;
    }
    Some(v)
}

/// Reads `s[lo..hi]` as a decimal number.
pub fn parse_dec(s: &Vec<char>, lo: usize, hi: usize) -> (r: Option<usize>)
    requires
        lo <= hi <= s@.len(),
    ensures
        r is Some <==> dec_fits(s@.subrange(lo as int, hi as int)),
        r is Some ==> r->0 == digits_value(s@.subrange(lo as int, hi as int)),
{
    let ghost w = s@.subrange(lo as int, hi as int);
    if lo == hi {
        return None;
    }
    let mut v: usize = 0;
    let mut i = lo;
    while i < hi
        invariant
            lo <= i <= hi <= s@.len(),
            w == s@.subrange(lo as int, hi as int),
            all_digits(s@.subrange(lo as int, i as int)),
            v == digits_value(s@.subrange(lo as int, i as int)),
        decreases hi - i,
    {
        let ghost pre = s@.subrange(lo as int, i as int);
        let ghost next = s@.subrange(lo as int, i + 1);
        let c = s[i];
        proof {
            assert(next.drop_last() =~= pre);
            assert(next.last() == c);
            assert(w[i - lo] == c);
        }
        if !('0' <= c && c <= '9') {
            proof {
                assert(!is_digit(w[i - lo]));
            }
            return None;
        }
        proof {
            assert(all_digits(next)) by {
                assert forall|j: int| 0 <= j < next.len() implies is_digit(#[trigger] next[j]) by {
                    if j < pre.len() {
                        assert(next[j] == pre[j]);
                    }
                }
            }
        }
        let d = (c as u32 - 48) as usize;
        let stepped = match v.checked_mul(10) {
            Some(m) => m.checked_add(d),
            None => None,
        };
        match stepped {
            Some(x) => {
                v = x;
            },
            None => {
                proof {
                    if all_digits(w) {
                        assert(w.subrange(0, (i + 1 - lo) as int) =~= next);
                        lemma_digits_value_prefix(w, (i + 1 - lo) as int);
                    }
                }
                return None;
            },
        }
        i = i + 1;
    }
    Some(v)
}

} // verus!
