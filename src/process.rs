//! A target process: its identifier, command line and memory catalogue.

use vstd::prelude::*;

use crate::chars::{chars_of, find_char, find_char_in};
use crate::memory_map::{MemoryMap, describes, line_ok};
use crate::text::push_char;

verus! {

pub struct Process {
    pub pid: u32,
    pub command: String,
    pub memory_maps: Vec<MemoryMap>,
}

/// `s` without its trailing NUL characters.
pub open spec fn trim_nuls(s: Seq<char>) -> Seq<char>
    decreases s.len(),
{
    if s.len() > 0 && s.last() == '\0' {
        trim_nuls(s.drop_last())
    } else {
        s
    }
}

/// The command line of a NUL-separated argument list: trailing NULs
/// dropped, the others turned into spaces.
pub open spec fn command_text(s: Seq<char>) -> Seq<char> {
    trim_nuls(s).map_values(|c: char| if c == '\0' { ' ' } else { c })
}

/// `l` without a final carriage return.
pub open spec fn strip_cr(l: Seq<char>) -> Seq<char> {
    if l.len() > 0 && l.last() == '\r' {
        l.drop_last()
    } else {
        l
    }
}

proof fn lemma_find_bounds(s: Seq<char>, lo: int, hi: int, c: char)
    requires
        lo <= hi,
    ensures
        lo <= find_char(s, lo, hi, c) <= hi,
    decreases hi - lo,
{
    if lo < hi && s[lo] != c {
        lemma_find_bounds(s, lo + 1, hi, c);
    }
}

/// The lines of `s` from position `i`: split at each `\n`, a `\r` before
/// it dropped; text after the last `\n`, if any, is one more line.
pub open spec fn lines_from(s: Seq<char>, i: int) -> Seq<Seq<char>>
    decreases s.len() - i,
    via lines_from_decreases
{
    if i < 0 || i >= s.len() {
        Seq::empty()
    } else {
        let d = find_char(s, i, s.len() as int, '\n');
        let line = strip_cr(s.subrange(i, d));
        if d < s.len() {
            seq![line] + lines_from(s, d + 1)
        } else {
            seq![line]
        }
    }
}

#[via_fn]
proof fn lines_from_decreases(s: Seq<char>, i: int) {
    if 0 <= i < s.len() {
        lemma_find_bounds(s, i, s.len() as int, '\n');
    }
}

pub open spec fn lines(s: Seq<char>) -> Seq<Seq<char>> {
    lines_from(s, 0)
}

impl Process {
    /// A process from its identifier, the text of its argument list and
    /// the text of its memory-map listing. Fails if a line of the listing
    /// is malformed.
    pub fn from_listings(pid: u32, cmdline: &str, maps: &str) -> (r: Option<Process>)
        ensures
            r is Some <==> forall|k: int|
                0 <= k < lines(maps@).len() ==> line_ok(#[trigger] lines(maps@)[k]),
            r matches Some(p) ==> {
                &&& p.pid == pid
                &&& p.command@ == command_text(cmdline@)
                &&& p.memory_maps@.len() == lines(maps@).len()
                &&& forall|k: int|
                    0 <= k < lines(maps@).len() ==> describes(
                        #[trigger] lines(maps@)[k],
                        p.memory_maps@[k],
                    )
            },
    {
        let command = command_of(cmdline);
        let s = chars_of(maps);
        let n = s.len();
        let ghost all = lines(s@);
        let mut memory_maps: Vec<MemoryMap> = Vec::new();
        let mut pos: usize = 0;
        proof {
            assert(all == lines_from(s@, 0));
        }
        while pos < n
            invariant
                n == s@.len(),
                s@ == maps@,
                pos <= n,
                all == lines(s@),
                all == Seq::new(memory_maps@.len(), |k: int| all[k]) + lines_from(s@, pos as int),
                forall|k: int| 0 <= k < memory_maps@.len() ==> line_ok(#[trigger] all[k]),
                forall|k: int|
                    0 <= k < memory_maps@.len() ==> describes(#[trigger] all[k], memory_maps@[k]),
            decreases n - pos,
        {
            let d = find_char_in(&s, pos, n, '\n');
            let mut end = d;
            if d > pos && s[d - 1] == '\r' {
                end = d - 1;
            }
            let mut line: Vec<char> = Vec::new();
            let mut j = pos;
            while j < end
                invariant
                    pos <= j <= end <= d <= n == s@.len(),
                    line@ == s@.subrange(pos as int, j as int),
                decreases end - j,
            {
                line.push(s[j]);
                j = j + 1;
                proof {
                    assert(line@ =~= s@.subrange(pos as int, j as int));
                }
            }
            let ghost k = memory_maps@.len() as int;
            proof {
                assert(line@ =~= strip_cr(s@.subrange(pos as int, d as int)));
                assert(all[k] == line@);
            }
            match MemoryMap::from_chars(&line) {
                Some(m) => {
                    memory_maps.push(m);
                },
                None => {
                    proof {
                        assert(lines_from(s@, pos as int).len() > 0);
                        assert(k < all.len());
                        assert(!line_ok(lines(maps@)[k]));
                    }
                    return None;
                },
            }
            if d == n {
                pos = n;
            } else {
                pos = d + 1;
            }
            proof {
                assert(all =~= Seq::new(memory_maps@.len(), |k: int| all[k]) + lines_from(
                    s@,
                    pos as int,
                ));
            }
        }
        proof {
            assert(lines_from(s@, pos as int) =~= Seq::<Seq<char>>::empty());
        }
        Some(Process { pid, command, memory_maps })
    }
}

/// The command line of an argument list: trailing NULs dropped, the
/// others turned into spaces.
pub fn command_of(cmdline: &str) -> (r: String)
    ensures
        r@ == command_text(cmdline@),
{
    let s = chars_of(cmdline);
    let mut end = s.len();
    proof {
        assert(s@.subrange(0, s@.len() as int) =~= s@);
    }
    while end > 0 && s[end - 1] == '\0'
        invariant
            end <= s@.len(),
            trim_nuls(s@.subrange(0, end as int)) == trim_nuls(s@),
        decreases end,
    {
        proof {
            assert(s@.subrange(0, end as int).drop_last() =~= s@.subrange(0, end - 1));
        }
        end = end - 1;
    }
    let ghost t = s@.subrange(0, end as int);
    assert(trim_nuls(t) == t);
    let mut out = String::new();
    let mut j: usize = 0;
    while j < end
        invariant
            end <= s@.len(),
            j <= end,
            t == s@.subrange(0, end as int),
            out@ == t.subrange(0, j as int).map_values(|c: char| if c == '\0' { ' ' } else { c }),
        decreases end - j,
    {
        let c = s[j];
        if c == '\0' {
            push_char(&mut out, ' ');
        } else {
            push_char(&mut out, c);
        }
        j = j + 1;
        proof {
            assert(out@ =~= t.subrange(0, j as int).map_values(
                |c: char| if c == '\0' { ' ' } else { c },
            ));
        }
    }
    proof {
        assert(t.subrange(0, end as int) =~= t);
    }
    out
}

} // verus!
