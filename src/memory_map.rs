//! The catalogue of a target's memory regions, one entry per line of its
//! memory-map listing.

use vstd::prelude::*;

use crate::chars::{
    chars_of, dec_fits, field, field_text, find_char, find_char_in, hex_fits, hex_value, parse_dec,
    parse_hex, skip_spaces, skip_spaces_at, trim_end, trim_end_in, word_end_at,
};
use crate::text::{digits_value, push_char};

verus! {

/// One region of a target's address space: the half-open range
/// `[addr_start, addr_end)` with its permissions and backing.
#[derive(Debug)]
pub struct MemoryMap {
    pub addr_start: usize,
    pub addr_end: usize,
    pub perms: Permissions,
    pub offset: usize,
    pub dev: Device,
    pub inode: usize,
    pub pathname: String,
}

#[derive(Debug, Clone, Copy, PartialEq, Eq, Structural)]
pub struct Permissions {
    pub read: bool,
    pub write: bool,
    pub execute: bool,
    pub private: bool,
    pub shared: bool,
}

#[derive(Debug, Clone, Copy, PartialEq, Eq, Structural)]
pub struct Device {
    pub major: i32,
    pub minor: i32,
}

/// Permissions written as four characters, `rwxp` or `rwxs` with `-` for
/// a missing right.
pub open spec fn perms_from(w: Seq<char>) -> Permissions {
    Permissions {
        read: w[0] == 'r',
        write: w[1] == 'w',
        execute: w[2] == 'x',
        private: w[3] == 'p',
        shared: w[3] == 's',
    }
}

/// Whether `w` is `major:minor`, two hexadecimal numbers that fit in `i32`.
pub open spec fn device_ok(w: Seq<char>) -> bool {
    let d = find_char(w, 0, w.len() as int, ':');
    &&& d < w.len()
    &&& hex_fits(w.subrange(0, d))
    &&& hex_value(w.subrange(0, d)) <= i32::MAX
    &&& hex_fits(w.subrange(d + 1, w.len() as int))
    &&& hex_value(w.subrange(d + 1, w.len() as int)) <= i32::MAX
}

pub open spec fn device_from(w: Seq<char>) -> Device {
    let d = find_char(w, 0, w.len() as int, ':');
    Device {
        major: hex_value(w.subrange(0, d)) as i32,
        minor: hex_value(w.subrange(d + 1, w.len() as int)) as i32,
    }
}

/// Whether `w` is `start-end`, two hexadecimal addresses.
pub open spec fn range_ok(w: Seq<char>) -> bool {
    let d = find_char(w, 0, w.len() as int, '-');
    d < w.len() && hex_fits(w.subrange(0, d)) && hex_fits(w.subrange(d + 1, w.len() as int))
}

/// The path: the rest of the line after the fifth field, without the
/// whitespace around it.
pub open spec fn pathname_text(s: Seq<char>) -> Seq<char> {
    let a = skip_spaces(s, field(s, 4).1);
    s.subrange(a, trim_end(s, a, s.len() as int))
}

/// Whether `s` is a line of a memory-map listing:
/// `start-end perms offset major:minor inode [pathname]`.
pub open spec fn line_ok(s: Seq<char>) -> bool {
    &&& range_ok(field_text(s, 0))
    &&& field_text(s, 1).len() == 4
    &&& hex_fits(field_text(s, 2))
    &&& device_ok(field_text(s, 3))
    &&& dec_fits(field_text(s, 4))
}

/// Whether `m` is the entry that the line `s` describes.
pub open spec fn describes(s: Seq<char>, m: MemoryMap) -> bool {
    let w = field_text(s, 0);
    let d = find_char(w, 0, w.len() as int, '-');
    &&& m.addr_start == hex_value(w.subrange(0, d))
    &&& m.addr_end == hex_value(w.subrange(d + 1, w.len() as int))
    &&& m.perms == perms_from(field_text(s, 1))
    &&& m.offset == hex_value(field_text(s, 2))
    &&& m.dev == device_from(field_text(s, 3))
    &&& m.inode == digits_value(field_text(s, 4))
    &&& m.pathname@ == pathname_text(s)
}

fn perms_in(s: &Vec<char>, lo: usize, hi: usize) -> (r: Option<Permissions>)
    requires
        lo <= hi <= s@.len(),
    ensures
        r is Some <==> hi - lo == 4,
        r is Some ==> r->0 == perms_from(s@.subrange(lo as int, hi as int)),
{
    if hi - lo != 4 {
        return None;
    }
    Some(
        Permissions {
            read: s[lo] == 'r',
            write: s[lo + 1] == 'w',
            execute: s[lo + 2] == 'x',
            private: s[lo + 3] == 'p',
            shared: s[lo + 3] == 's',
        },
    )
}

fn device_in(s: &Vec<char>, lo: usize, hi: usize) -> (r: Option<Device>)
    requires
        lo <= hi <= s@.len(),
    ensures
        r is Some <==> device_ok(s@.subrange(lo as int, hi as int)),
        r is Some ==> r->0 == device_from(s@.subrange(lo as int, hi as int)),
{
    let ghost w = s@.subrange(lo as int, hi as int);
    let d = find_char_in(s, lo, hi, ':');
    proof {
        lemma_find_shift(s@, lo as int, hi as int, ':');
    }
    if d == hi {
        return None;
    }
    proof {
        assert(w.subrange(0, d - lo) =~= s@.subrange(lo as int, d as int));
        assert(w.subrange(d - lo + 1, w.len() as int) =~= s@.subrange(d + 1, hi as int));
    }
    let major = match parse_hex(s, lo, d) {
        Some(v) => v,
        None => {
            return None;
        },
    };
    let minor = match parse_hex(s, d + 1, hi) {
        Some(v) => v,
        None => {
            return None;
        },
    };
    if major > 0x7fff_ffff || minor > 0x7fff_ffff {
        return None;
    }
    Some(Device { major: major as i32, minor: minor as i32 })
}

/// `find_char` over `s[lo..hi]` is `find_char` over the slice, shifted.
proof fn lemma_find_shift(s: Seq<char>, lo: int, hi: int, c: char)
    requires
        0 <= lo <= hi <= s.len(),
    ensures
        find_char(s, lo, hi, c) == lo + find_char(s.subrange(lo, hi), 0, hi - lo, c),
    decreases hi - lo,
{
    let w = s.subrange(lo, hi);
    if lo < hi {
        if s[lo] != c {
            lemma_find_shift(s, lo + 1, hi, c);
            lemma_find_offset(w, 1, hi - lo, c);
            assert(w.subrange(1, hi - lo) =~= s.subrange(lo + 1, hi));
        }
    }
}

/// Searching from position `k` of `w` is searching the tail of `w` from zero.
proof fn lemma_find_offset(w: Seq<char>, k: int, n: int, c: char)
    requires
        0 <= k <= n,
        n == w.len(),
    ensures
        find_char(w, k, n, c) == k + find_char(w.subrange(k, n), 0, n - k, c),
    decreases n - k,
{
    let t = w.subrange(k, n);
    if k < n && w[k] != c {
        lemma_find_offset(w, k + 1, n, c);
        let u = w.subrange(k + 1, n);
        lemma_find_offset(t, 1, n - k, c);
        assert(t.subrange(1, n - k) =~= u);
    }
}

impl Permissions {
    /// Reads a permission field such as `r-xp`.
    pub fn from(perms: &str) -> (r: Option<Permissions>)
        ensures
            r is Some <==> perms@.len() == 4,
            r is Some ==> r->0 == perms_from(perms@),
    {
        let s = chars_of(perms);
        proof {
            assert(s@.subrange(0, s@.len() as int) =~= s@);
        }
        perms_in(&s, 0, s.len())
    }
}

impl Device {
    /// Reads a device field such as `08:02`.
    pub fn from(dev: &str) -> (r: Option<Device>)
        ensures
            r is Some <==> device_ok(dev@),
            r is Some ==> r->0 == device_from(dev@),
    {
        let s = chars_of(dev);
        proof {
            assert(s@.subrange(0, s@.len() as int) =~= s@);
        }
        device_in(&s, 0, s.len())
    }
}

impl MemoryMap {
    /// Reads one line of a memory-map listing.
    pub fn from(line: &str) -> (r: Option<MemoryMap>)
        ensures
            r is Some <==> line_ok(line@),
            r matches Some(m) ==> describes(line@, m),
    {
        let s = chars_of(line);
        Self::from_chars(&s)
    }

    /// Reads one line of a memory-map listing, given as characters.
    pub fn from_chars(s: &Vec<char>) -> (r: Option<MemoryMap>)
        ensures
            r is Some <==> line_ok(s@),
            r matches Some(m) ==> describes(s@, m),
    {
        let ghost q = s@;
        let a0 = skip_spaces_at(s, 0);
        let e0 = word_end_at(s, a0);
        let a1 = skip_spaces_at(s, e0);
        let e1 = word_end_at(s, a1);
        let a2 = skip_spaces_at(s, e1);
        let e2 = word_end_at(s, a2);
        let a3 = skip_spaces_at(s, e2);
        let e3 = word_end_at(s, a3);
        let a4 = skip_spaces_at(s, e3);
        let e4 = word_end_at(s, a4);
        proof {
            assert(field(q, 0) == (a0 as int, e0 as int));
            assert(field(q, 1) == (a1 as int, e1 as int));
            assert(field(q, 2) == (a2 as int, e2 as int));
            assert(field(q, 3) == (a3 as int, e3 as int));
            assert(field(q, 4) == (a4 as int, e4 as int));
        }
        let ghost w0 = q.subrange(a0 as int, e0 as int);
        let d = find_char_in(s, a0, e0, '-');
        proof {
            lemma_find_shift(q, a0 as int, e0 as int, '-');
        }
        if d == e0 {
            return None;
        }
        proof {
            assert(w0.subrange(0, d - a0) =~= q.subrange(a0 as int, d as int));
            assert(w0.subrange(d - a0 + 1, w0.len() as int) =~= q.subrange(d + 1, e0 as int));
        }
        let addr_start = match parse_hex(s, a0, d) {
            Some(v) => v,
            None => {
                return None;
            },
        };
        let addr_end = match parse_hex(s, d + 1, e0) {
            Some(v) => v,
            None => {
                return None;
            },
        };
        let perms = match perms_in(s, a1, e1) {
            Some(p) => p,
            None => {
                return None;
            },
        };
        let offset = match parse_hex(s, a2, e2) {
            Some(v) => v,
            None => {
                return None;
            },
        };
        let dev = match device_in(s, a3, e3) {
            Some(v) => v,
            None => {
                return None;
            },
        };
        let inode = match parse_dec(s, a4, e4) {
            Some(v) => v,
            None => {
                return None;
            },
        };
        let p0 = skip_spaces_at(s, e4);
        let p1 = trim_end_in(s, p0, s.len());
        let mut pathname = String::new();
        let mut j = p0;
        while j < p1
            invariant
                p0 <= j <= p1 <= s@.len(),
                pathname@ == s@.subrange(p0 as int, j as int),
            decreases p1 - j,
        {
            push_char(&mut pathname, s[j]);
            j = j + 1;
            proof {
                assert(pathname@ =~= s@.subrange(p0 as int, j as int));
            }
        }
        Some(MemoryMap { addr_start, addr_end, perms, offset, dev, inode, pathname })
    }
}

} // verus!
