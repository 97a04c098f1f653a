//! The address set and the predicates that narrow it.

use vstd::prelude::*;

use vstd::arithmetic::div_mod::{
    lemma_fundamental_div_mod, lemma_mod_multiples_basic, lemma_mod_multiples_vanish,
};

use crate::commands::ValType;
use crate::context::Context;
use crate::memory_map::MemoryMap;
use crate::memory_reader::{
    FromLeBytes, MemoryReader, decode, encode_i32, le_nat, pow256, read_result, read_value,
    value_from_read,
};
use crate::progress::{ProgressSink, Reporter, monotone_to_total};
use crate::text::{int_text, literal_fits, literal_value, parse_literal, value_text};

verus! {

/// Why an operation of the scanner did not go through.
#[derive(Debug, Clone, Copy, PartialEq, Eq, Structural)]
pub enum ScanError {
    /// The literal of a comparison is not a value of the element type.
    BadOperand,
    /// A comparison was asked for without a literal.
    MissingOperand,
    /// No target is attached.
    NoProcess,
    /// No element type is selected.
    NoType,
    /// The index names no entry of the address set.
    BadIndex,
    /// The target's memory could not be written.
    WriteFailed,
}

/// A scan predicate as the user writes it: comparisons carry their
/// literal as text.
#[derive(Debug)]
pub enum ScanExpr {
    Less(String),
    LessEqual(String),
    Greater(String),
    GreaterEqual(String),
    Equal(String),
    NotEqual(String),
    Changed,
    NotChanged,
    Refresh,
    Unknown,
}

/// A scan predicate whose literal has been read as a value of `T`.
///
/// Each candidate is tested on its stored value and on the value found
/// at its address now. `Changed` and `Refresh` keep the value found now,
/// so that a later `Changed` compares against the latest reading; the
/// comparisons, `NotChanged` and `Unknown` keep the stored value.
#[derive(Debug, Clone, Copy)]
pub enum Predicate<T> {
    Less(T),
    LessEqual(T),
    Greater(T),
    GreaterEqual(T),
    Equal(T),
    NotEqual(T),
    Changed,
    NotChanged,
    Refresh,
    Unknown,
}

impl<T: FromLeBytes> Predicate<T> {
    /// Whether a candidate with stored value `val` and present value
    /// `current` is kept.
    pub open spec fn holds(self, val: T, current: T) -> bool {
        match self {
            Predicate::Less(x) => val.spec_int() < x.spec_int(),
            Predicate::LessEqual(x) => val.spec_int() <= x.spec_int(),
            Predicate::Greater(x) => val.spec_int() > x.spec_int(),
            Predicate::GreaterEqual(x) => val.spec_int() >= x.spec_int(),
            Predicate::Equal(x) => val.spec_int() == x.spec_int(),
            Predicate::NotEqual(x) => val.spec_int() != x.spec_int(),
            Predicate::Changed => val.spec_int() != current.spec_int(),
            Predicate::NotChanged => val.spec_int() == current.spec_int(),
            Predicate::Refresh => true,
            Predicate::Unknown => true,
        }
    }

    /// The value a kept candidate stores.
    pub open spec fn stored(self, val: T, current: T) -> T {
        match self {
            Predicate::Changed => current,
            Predicate::Refresh => current,
            _ => val,
        }
    }

    /// Whether the predicate looks at the present value.
    pub open spec fn reads(self) -> bool {
        match self {
            Predicate::Changed => true,
            Predicate::NotChanged => true,
            Predicate::Refresh => true,
            _ => false,
        }
    }

    pub fn admits(&self, val: &T, current: &T) -> (r: bool)
        ensures
            r == self.holds(*val, *current),
    {
        match self {
            Predicate::Less(x) => val.less(x),
            Predicate::LessEqual(x) => !x.less(val),
            Predicate::Greater(x) => x.less(val),
            Predicate::GreaterEqual(x) => !val.less(x),
            Predicate::Equal(x) => val.equal(x),
            Predicate::NotEqual(x) => !val.equal(x),
            Predicate::Changed => !val.equal(current),
            Predicate::NotChanged => val.equal(current),
            Predicate::Refresh => true,
            Predicate::Unknown => true,
        }
    }

    pub fn looks(&self) -> (r: bool)
        ensures
            r == self.reads(),
    {
        match self {
            Predicate::Changed => true,
            Predicate::NotChanged => true,
            Predicate::Refresh => true,
            _ => false,
        }
    }

    pub fn store(&self, val: T, current: T) -> (r: T)
        ensures
            r == self.stored(val, current),
    {
        match self {
            Predicate::Changed => current,
            Predicate::Refresh => current,
            _ => val,
        }
    }

    /// The present value at `addr`, read only when the predicate looks at it.
    pub fn present<R: MemoryReader>(&self, reader: &mut R, val: T, addr: usize) -> (r: T)
        ensures
            !self.reads() ==> r == val,
            self.reads() ==> exists|bytes: Seq<u8>| r.spec_int() == #[trigger] read_result::<T>(
                bytes,
            ),
    {
        match self {
            Predicate::Changed => read_value(reader, addr),
            Predicate::NotChanged => read_value(reader, addr),
            Predicate::Refresh => read_value(reader, addr),
            _ => val,
        }
    }
}

/// Some value of `T` equal to `v`.
pub open spec fn value_of<T: FromLeBytes>(v: int) -> T {
    choose|t: T| t.spec_int() == v
}

impl ScanExpr {
    /// Whether every literal of the expression is a value of `T`.
    pub open spec fn parses<T: FromLeBytes>(self) -> bool {
        match self {
            ScanExpr::Less(s) => literal_fits::<T>(s@),
            ScanExpr::LessEqual(s) => literal_fits::<T>(s@),
            ScanExpr::Greater(s) => literal_fits::<T>(s@),
            ScanExpr::GreaterEqual(s) => literal_fits::<T>(s@),
            ScanExpr::Equal(s) => literal_fits::<T>(s@),
            ScanExpr::NotEqual(s) => literal_fits::<T>(s@),
            _ => true,
        }
    }

    /// The predicate the expression stands for over `T`.
    pub open spec fn predicate<T: FromLeBytes>(self) -> Predicate<T> {
        match self {
            ScanExpr::Less(s) => Predicate::Less(value_of(literal_value(s@))),
            ScanExpr::LessEqual(s) => Predicate::LessEqual(value_of(literal_value(s@))),
            ScanExpr::Greater(s) => Predicate::Greater(value_of(literal_value(s@))),
            ScanExpr::GreaterEqual(s) => Predicate::GreaterEqual(value_of(literal_value(s@))),
            ScanExpr::Equal(s) => Predicate::Equal(value_of(literal_value(s@))),
            ScanExpr::NotEqual(s) => Predicate::NotEqual(value_of(literal_value(s@))),
            ScanExpr::Changed => Predicate::Changed,
            ScanExpr::NotChanged => Predicate::NotChanged,
            ScanExpr::Refresh => Predicate::Refresh,
            ScanExpr::Unknown => Predicate::Unknown,
        }
    }

    /// Reads the literal of a comparison as a value of `T`.
    pub fn compile<T: FromLeBytes>(&self) -> (r: Result<Predicate<T>, ScanError>)
        ensures
            r is Ok <==> self.parses::<T>(),
            r is Ok ==> r->Ok_0 == self.predicate::<T>(),
            r is Err ==> r->Err_0 == ScanError::BadOperand,
    {
        let lit = match self {
            ScanExpr::Less(s) => s,
            ScanExpr::LessEqual(s) => s,
            ScanExpr::Greater(s) => s,
            ScanExpr::GreaterEqual(s) => s,
            ScanExpr::Equal(s) => s,
            ScanExpr::NotEqual(s) => s,
            ScanExpr::Changed => {
                return Ok(Predicate::Changed);
            },
            ScanExpr::NotChanged => {
                return Ok(Predicate::NotChanged);
            },
            ScanExpr::Refresh => {
                return Ok(Predicate::Refresh);
            },
            ScanExpr::Unknown => {
                return Ok(Predicate::Unknown);
            },
        };
        let x: T = match parse_literal::<T>(lit.as_str()) {
            Some(x) => x,
            None => {
                return Err(ScanError::BadOperand);
            },
        };
        proof {
            let w = value_of::<T>(literal_value(lit@));
            T::lemma_injective(x, w);
        }
        match self {
            ScanExpr::Less(_) => Ok(Predicate::Less(x)),
            ScanExpr::LessEqual(_) => Ok(Predicate::LessEqual(x)),
            ScanExpr::Greater(_) => Ok(Predicate::Greater(x)),
            ScanExpr::GreaterEqual(_) => Ok(Predicate::GreaterEqual(x)),
            ScanExpr::Equal(_) => Ok(Predicate::Equal(x)),
            _ => Ok(Predicate::NotEqual(x)),
        }
    }
}

/// The entries of `(vals, addrs)` that `p` keeps, in their order, with the
/// values they store; `cur[i]` is the value found at `addrs[i]` now.
pub open spec fn refine<T: FromLeBytes>(
    p: Predicate<T>,
    vals: Seq<T>,
    addrs: Seq<usize>,
    cur: Seq<T>,
) -> (Seq<T>, Seq<usize>)
    decreases vals.len(),
{
    if vals.len() == 0 {
        (Seq::empty(), Seq::empty())
    } else {
        let n = vals.len() - 1;
        let prev = refine(p, vals.subrange(0, n), addrs.subrange(0, n), cur.subrange(0, n));
        if p.holds(vals[n], cur[n]) {
            (prev.0.push(p.stored(vals[n], cur[n])), prev.1.push(addrs[n]))
        } else {
            prev
        }
    }
}

/// The entries of `(vals, addrs)` that `p` keeps, in their order, each
/// with the value it came with; `cur[i]` is the value found at `addrs[i]`
/// now. What a set stores for them is its own concern (`refine`).
pub open spec fn select<T: FromLeBytes>(
    p: Predicate<T>,
    vals: Seq<T>,
    addrs: Seq<usize>,
    cur: Seq<T>,
) -> (Seq<T>, Seq<usize>)
    decreases vals.len(),
{
    if vals.len() == 0 {
        (Seq::empty(), Seq::empty())
    } else {
        let n = vals.len() - 1;
        let prev = select(p, vals.subrange(0, n), addrs.subrange(0, n), cur.subrange(0, n));
        if p.holds(vals[n], cur[n]) {
            (prev.0.push(vals[n]), prev.1.push(addrs[n]))
        } else {
            prev
        }
    }
}

/// Positions of the entries that `p` keeps, ascending.
pub open spec fn kept<T: FromLeBytes>(p: Predicate<T>, vals: Seq<T>, cur: Seq<T>) -> Seq<int>
    decreases vals.len(),
{
    if vals.len() == 0 {
        Seq::empty()
    } else {
        let n = vals.len() - 1;
        let prev = kept(p, vals.subrange(0, n), cur.subrange(0, n));
        if p.holds(vals[n], cur[n]) {
            prev.push(n)
        } else {
            prev
        }
    }
}

/// `idx` picks `sub` out of `sup`: ascending positions of `sup` whose
/// entries, in order, are `sub`.
pub open spec fn embeds(idx: Seq<int>, sub: Seq<usize>, sup: Seq<usize>) -> bool {
    &&& idx.len() == sub.len()
    &&& forall|k: int| 0 <= k < idx.len() ==> 0 <= #[trigger] idx[k] < sup.len()
    &&& forall|k: int, l: int| 0 <= k < l < idx.len() ==> #[trigger] idx[k] < #[trigger] idx[l]
    &&& forall|k: int| 0 <= k < idx.len() ==> sub[k] == sup[#[trigger] idx[k]]
}

/// `sub` is `sup` with some entries left out and the rest in order.
pub open spec fn is_subsequence(sub: Seq<usize>, sup: Seq<usize>) -> bool {
    exists|idx: Seq<int>| #[trigger] embeds(idx, sub, sup)
}

/// What `refine` keeps, position by position.
pub proof fn lemma_refine_kept<T: FromLeBytes>(
    p: Predicate<T>,
    vals: Seq<T>,
    addrs: Seq<usize>,
    cur: Seq<T>,
)
    requires
        vals.len() == addrs.len(),
        vals.len() == cur.len(),
    ensures
        ({
            let (v, a) = refine(p, vals, addrs, cur);
            let idx = kept(p, vals, cur);
            &&& v.len() == a.len()
            &&& embeds(idx, a, addrs)
            &&& forall|k: int|
                0 <= k < idx.len() ==> #[trigger] v[k] == p.stored(vals[idx[k]], cur[idx[k]])
                    && p.holds(vals[idx[k]], cur[idx[k]])
            &&& forall|j: int|
                0 <= j < vals.len() && p.holds(vals[j], cur[j]) ==> exists|k: int|
                    0 <= k < idx.len() && #[trigger] idx[k] == j
        }),
    decreases vals.len(),
{
    if vals.len() > 0 {
        let n = vals.len() - 1;
        let vs = vals.subrange(0, n);
        let as_ = addrs.subrange(0, n);
        let cs = cur.subrange(0, n);
        lemma_refine_kept(p, vs, as_, cs);
        let (v, a) = refine(p, vals, addrs, cur);
        let idx = kept(p, vals, cur);
        let pidx = kept(p, vs, cs);
        assert forall|k: int| 0 <= k < pidx.len() implies vals[pidx[k]] == vs[pidx[k]] && cur[
            pidx[k]] == cs[pidx[k]] && addrs[pidx[k]] == as_[pidx[k]] by {}
        assert forall|j: int|
            0 <= j < vals.len() && p.holds(vals[j], cur[j]) implies exists|k: int|
                0 <= k < idx.len() && #[trigger] idx[k] == j by {
            if j == n {
                assert(idx[idx.len() - 1] == j);
            } else {
                assert(vs[j] == vals[j] && cs[j] == cur[j]);
                let k = choose|k: int| 0 <= k < pidx.len() && #[trigger] pidx[k] == j;
                assert(idx[k] == j);
            }
        }
    }
}

/// Refinement keeps a subset of the addresses, in their order.
pub proof fn lemma_refine_is_stable_subset<T: FromLeBytes>(
    p: Predicate<T>,
    vals: Seq<T>,
    addrs: Seq<usize>,
    cur: Seq<T>,
)
    requires
        vals.len() == addrs.len(),
        vals.len() == cur.len(),
    ensures
        is_subsequence(refine(p, vals, addrs, cur).1, addrs),
        forall|k: int|
            0 <= k < refine(p, vals, addrs, cur).1.len() ==> addrs.contains(
                #[trigger] refine(p, vals, addrs, cur).1[k],
            ),
{
    lemma_refine_kept(p, vals, addrs, cur);
    let idx = kept(p, vals, cur);
    let a = refine(p, vals, addrs, cur).1;
    assert(embeds(idx, a, addrs));
    assert forall|k: int| 0 <= k < a.len() implies addrs.contains(#[trigger] a[k]) by {
        assert(addrs[idx[k]] == a[k]);
    }
}

/// Refinement keeps the values and the addresses of equal length.
pub proof fn lemma_refine_lengths<T: FromLeBytes>(
    p: Predicate<T>,
    vals: Seq<T>,
    addrs: Seq<usize>,
    cur: Seq<T>,
)
    requires
        vals.len() == addrs.len(),
        vals.len() == cur.len(),
    ensures
        refine(p, vals, addrs, cur).0.len() == refine(p, vals, addrs, cur).1.len(),
        refine(p, vals, addrs, cur).1.len() <= addrs.len(),
{
    lemma_refine_kept(p, vals, addrs, cur);
    lemma_refine_bound(p, vals, addrs, cur);
}

proof fn lemma_refine_bound<T: FromLeBytes>(
    p: Predicate<T>,
    vals: Seq<T>,
    addrs: Seq<usize>,
    cur: Seq<T>,
)
    ensures
        refine(p, vals, addrs, cur).1.len() <= vals.len(),
    decreases vals.len(),
{
    if vals.len() > 0 {
        let n = vals.len() - 1;
        lemma_refine_bound(p, vals.subrange(0, n), addrs.subrange(0, n), cur.subrange(0, n));
    }
}

/// One step of `refine`: the prefix of length `i + 1` from the prefix of
/// length `i`.
pub proof fn lemma_refine_step<T: FromLeBytes>(
    p: Predicate<T>,
    vals: Seq<T>,
    addrs: Seq<usize>,
    cur: Seq<T>,
    i: int,
)
    requires
        0 <= i < vals.len(),
        i < addrs.len(),
        i < cur.len(),
    ensures
        refine(p, vals.subrange(0, i + 1), addrs.subrange(0, i + 1), cur.subrange(0, i + 1)) == (
        if p.holds(vals[i], cur[i]) {
            (
                refine(p, vals.subrange(0, i), addrs.subrange(0, i), cur.subrange(0, i)).0.push(
                    p.stored(vals[i], cur[i]),
                ),
                refine(p, vals.subrange(0, i), addrs.subrange(0, i), cur.subrange(0, i)).1.push(
                    addrs[i],
                ),
            )
        } else {
            refine(p, vals.subrange(0, i), addrs.subrange(0, i), cur.subrange(0, i))
        }),
{
    let vs = vals.subrange(0, i + 1);
    let as_ = addrs.subrange(0, i + 1);
    let cs = cur.subrange(0, i + 1);
    assert(vs.subrange(0, i) =~= vals.subrange(0, i));
    assert(as_.subrange(0, i) =~= addrs.subrange(0, i));
    assert(cs.subrange(0, i) =~= cur.subrange(0, i));
    assert(vs[i] == vals[i] && as_[i] == addrs[i] && cs[i] == cur[i]);
}

impl ScanExpr {
    /// Runs the expression over the entries `(vals[i], addrs[i])` and
    /// returns the entries it keeps, in order. Present values are read
    /// through `reader` when the expression looks at them.
    pub fn eval_expr<T: FromLeBytes, R: MemoryReader>(
        &self,
        reader: &mut R,
        vals: &Vec<T>,
        addrs: &Vec<usize>,
    ) -> (r: Result<(Vec<T>, Vec<usize>), ScanError>)
        requires
            vals@.len() == addrs@.len(),
        ensures
            r is Ok <==> self.parses::<T>(),
            r is Err ==> r->Err_0 == ScanError::BadOperand,
            r is Ok ==> exists|cur: Seq<T>|
                cur.len() == vals@.len() && #[trigger] select(
                    self.predicate::<T>(),
                    vals@,
                    addrs@,
                    cur,
                ) == (r->Ok_0.0@, r->Ok_0.1@),
    {
        let p = match self.compile::<T>() {
            Ok(p) => p,
            Err(e) => {
                return Err(e);
            },
        };
        let (out_vals, out_addrs, Ghost(cur)) = select_entries(&p, reader, vals, addrs);
        Ok((out_vals, out_addrs))
    }
}

/// Keeps the entries that `p` admits, with the values they came with.
fn select_entries<T: FromLeBytes, R: MemoryReader>(
    p: &Predicate<T>,
    reader: &mut R,
    vals: &Vec<T>,
    addrs: &Vec<usize>,
) -> (r: (Vec<T>, Vec<usize>, Ghost<Seq<T>>))
    requires
        vals@.len() == addrs@.len(),
    ensures
        r.2@.len() == vals@.len(),
        select(*p, vals@, addrs@, r.2@) == (r.0@, r.1@),
{
    let n = vals.len();
    let mut out_vals: Vec<T> = Vec::new();
    let mut out_addrs: Vec<usize> = Vec::new();
    let ghost mut cur: Seq<T> = Seq::empty();
    let mut i: usize = 0;
    while i < n
        invariant
            n == vals@.len() == addrs@.len(),
            i <= n,
            cur.len() == i,
            select(*p, vals@.subrange(0, i as int), addrs@.subrange(0, i as int), cur) == (
            out_vals@, out_addrs@),
        decreases n - i,
    {
        let val = vals[i];
        let addr = addrs[i];
        let now = p.present(reader, val, addr);
        proof {
            let c2 = cur.push(now);
            assert(c2.subrange(0, i as int) =~= cur);
            let vs = vals@.subrange(0, i + 1 as int);
            let as_ = addrs@.subrange(0, i + 1 as int);
            assert(vs.subrange(0, i as int) =~= vals@.subrange(0, i as int));
            assert(as_.subrange(0, i as int) =~= addrs@.subrange(0, i as int));
            assert(c2.subrange(0, i + 1 as int).subrange(0, i as int) =~= cur);
            cur = c2;
            assert(cur.subrange(0, i + 1 as int) =~= cur);
        }
        if p.admits(&val, &now) {
            out_vals.push(val);
            out_addrs.push(addr);
        }
        i = i + 1;
    }
    proof {
        assert(vals@.subrange(0, n as int) =~= vals@);
        assert(addrs@.subrange(0, n as int) =~= addrs@);
    }
    (out_vals, out_addrs, Ghost(cur))
}

pub proof fn lemma_refine_push<T: FromLeBytes>(
    p: Predicate<T>,
    vals: Seq<T>,
    addrs: Seq<usize>,
    cur: Seq<T>,
    v: T,
    a: usize,
    c: T,
)
    requires
        vals.len() == addrs.len(),
        vals.len() == cur.len(),
    ensures
        refine(p, vals.push(v), addrs.push(a), cur.push(c)) == (if p.holds(v, c) {
            (
                refine(p, vals, addrs, cur).0.push(p.stored(v, c)),
                refine(p, vals, addrs, cur).1.push(a),
            )
        } else {
            refine(p, vals, addrs, cur)
        }),
{
    let n = vals.len() as int;
    assert(vals.push(v).subrange(0, n) =~= vals);
    assert(addrs.push(a).subrange(0, n) =~= addrs);
    assert(cur.push(c).subrange(0, n) =~= cur);
}

/// First address of region `m` that is a multiple of `size`.
pub open spec fn region_first(m: MemoryMap, size: nat) -> int {
    let s = m.addr_start as nat;
    if s % size == 0 {
        s as int
    } else {
        ((s / size + 1) * size) as int
    }
}

/// Number of aligned `size`-byte fields that lie wholly inside region `m`.
pub open spec fn region_count(m: MemoryMap, size: nat) -> nat {
    let f = region_first(m, size);
    if f + size <= m.addr_end {
        ((m.addr_end - f) / size as int) as nat
    } else {
        0
    }
}

/// The aligned addresses of `size`-byte fields inside region `m`, ascending.
pub open spec fn region_candidates(m: MemoryMap, size: nat) -> Seq<usize> {
    Seq::new(region_count(m, size), |k: int| (region_first(m, size) + k * size) as usize)
}

/// The addresses an initial scan visits: those of every readable region,
/// region by region in catalogue order.
pub open spec fn candidates(maps: Seq<MemoryMap>, size: nat) -> Seq<usize>
    decreases maps.len(),
{
    if maps.len() == 0 {
        Seq::empty()
    } else {
        let prev = candidates(maps.drop_last(), size);
        if maps.last().perms.read {
            prev + region_candidates(maps.last(), size)
        } else {
            prev
        }
    }
}

/// Length of a region in bytes; an inverted range counts as empty.
pub open spec fn region_len(m: MemoryMap) -> nat {
    if m.addr_end >= m.addr_start {
        (m.addr_end - m.addr_start) as nat
    } else {
        0
    }
}

/// `a + b`, or `usize::MAX` when that is larger.
pub open spec fn sat_add(a: nat, b: nat) -> nat {
    if a + b > usize::MAX {
        usize::MAX as nat
    } else {
        a + b
    }
}

/// Logical addresses counted over the first `i` regions, readable or not.
pub open spec fn scanned_after(maps: Seq<MemoryMap>, i: int, size: nat) -> nat
    decreases i,
{
    if i <= 0 {
        0
    } else {
        sat_add(scanned_after(maps, i - 1, size), region_len(maps[i - 1]) / size)
    }
}

/// Logical addresses of the whole catalogue.
pub open spec fn scan_total(maps: Seq<MemoryMap>, size: nat) -> nat {
    scanned_after(maps, maps.len() as int, size)
}

/// Reports of an initial scan: one after each region, then `(total, total)`.
pub open spec fn initial_reports(maps: Seq<MemoryMap>, size: nat) -> Seq<(usize, usize)> {
    Seq::new(
        maps.len(),
        |i: int| (scanned_after(maps, i + 1, size) as usize, scan_total(maps, size) as usize),
    ).push((scan_total(maps, size) as usize, scan_total(maps, size) as usize))
}

/// Reports made while refining `i` of `total` entries: one at every
/// thousandth entry.
pub open spec fn ticks(i: nat, total: usize) -> Seq<(usize, usize)>
    decreases i,
{
    if i == 0 {
        Seq::empty()
    } else {
        let t = ticks((i - 1) as nat, total);
        if (i - 1) % 1000 == 0 {
            t.push(((i - 1) as usize, total))
        } else {
            t
        }
    }
}

/// Reports of a refinement of `n` entries.
pub open spec fn refine_reports(n: usize) -> Seq<(usize, usize)> {
    ticks(n as nat, n).push((n, n))
}

proof fn lemma_scanned_monotone(maps: Seq<MemoryMap>, i: int, j: int, size: nat)
    requires
        i <= j,
        size > 0,
    ensures
        scanned_after(maps, i, size) <= scanned_after(maps, j, size) <= usize::MAX,
    decreases j - i,
{
    if i < j {
        lemma_scanned_monotone(maps, i, j - 1, size);
    }
    if j > 0 {
        let a = scanned_after(maps, j - 1, size);
        let b = region_len(maps[j - 1]) / size;
        assert(scanned_after(maps, j, size) == sat_add(a, b));
        if i < j {
            assert(a <= usize::MAX);
            assert(sat_add(a, b) >= a);
        }
    }
}

proof fn lemma_ticks(i: nat, total: usize)
    requires
        i <= total,
    ensures
        forall|k: int| 0 <= k < ticks(i, total).len() ==> (#[trigger] ticks(i, total)[k]).0 < i,
        forall|k: int, l: int|
            0 <= k <= l < ticks(i, total).len() ==> (#[trigger] ticks(i, total)[k]).0 <= (
            #[trigger] ticks(i, total)[l]).0,
    decreases i,
{
    if i > 0 {
        let t = ticks((i - 1) as nat, total);
        lemma_ticks((i - 1) as nat, total);
        if (i - 1) % 1000 == 0 {
            let u = t.push(((i - 1) as usize, total));
            assert(ticks(i, total) == u);
            assert forall|k: int, l: int| 0 <= k <= l < u.len() implies (#[trigger] u[k]).0 <= (
            #[trigger] u[l]).0 by {
                if l < t.len() {
                    assert(u[k] == t[k] && u[l] == t[l]);
                }
            }
            assert forall|k: int| 0 <= k < u.len() implies (#[trigger] u[k]).0 < i by {
                if k < t.len() {
                    assert(u[k] == t[k]);
                }
            }
        } else {
            assert(ticks(i, total) == t);
        }
    }
}

/// Progress never goes back, and ends at `(total, total)`, in an initial
/// scan and in a refinement alike.
pub proof fn lemma_progress_monotone(maps: Seq<MemoryMap>, size: nat, n: usize)
    requires
        size > 0,
    ensures
        monotone_to_total(initial_reports(maps, size), scan_total(maps, size) as usize),
        monotone_to_total(refine_reports(n), n),
{
    let r = initial_reports(maps, size);
    let len = maps.len() as int;
    assert forall|i: int, j: int| 0 <= i <= j < r.len() implies #[trigger] r[i].0 <= #[trigger] r[
        j].0 by {
        let i1 = if i < len { i + 1 } else { len };
        let j1 = if j < len { j + 1 } else { len };
        lemma_scanned_monotone(maps, i1, len, size);
        lemma_scanned_monotone(maps, j1, len, size);
        lemma_scanned_monotone(maps, i1, j1, size);
    }
    lemma_scanned_monotone(maps, len, len, size);
    lemma_ticks(n as nat, n);
}

/// Some readable region of `maps` holds the `size` bytes at `a`.
pub open spec fn in_readable_region(maps: Seq<MemoryMap>, a: int, size: nat) -> bool {
    exists|i: int|
        0 <= i < maps.len() && (#[trigger] maps[i]).perms.read && maps[i].addr_start <= a && a
            + size <= maps[i].addr_end
}

proof fn lemma_region_candidate(m: MemoryMap, size: nat, k: int)
    requires
        size > 0,
        0 <= k < region_count(m, size),
    ensures
        region_candidates(m, size)[k] == region_first(m, size) + k * size,
        region_candidates(m, size)[k] as nat % size == 0,
        m.addr_start <= region_candidates(m, size)[k],
        region_candidates(m, size)[k] + size <= m.addr_end,
{
    let f = region_first(m, size);
    let st = m.addr_start as int;
    let sz = size as int;
    lemma_fundamental_div_mod(st, sz);
    if st % sz == 0 {
        assert(f % sz == 0);
    } else {
        lemma_mod_multiples_basic(st / sz + 1, sz);
        assert(f == (st / sz) * sz + sz) by (nonlinear_arith)
            requires
                f == (st / sz + 1) * sz,
        ;
        assert(sz * (st / sz) == (st / sz) * sz) by (nonlinear_arith);
    }
    lemma_step_fits(m.addr_end - f, sz, k);
    assert(k * sz >= 0) by (nonlinear_arith)
        requires
            k >= 0,
            sz > 0,
    ;
    lemma_mod_multiples_vanish(k, f, sz);
    assert(sz * k == k * sz) by (nonlinear_arith);
}

proof fn lemma_candidates(maps: Seq<MemoryMap>, size: nat)
    requires
        size > 0,
    ensures
        forall|k: int|
            0 <= k < candidates(maps, size).len() ==> (#[trigger] candidates(maps, size)[k]) as nat
                % size == 0 && in_readable_region(maps, candidates(maps, size)[k] as int, size),
    decreases maps.len(),
{
    if maps.len() > 0 {
        let init = maps.drop_last();
        let prev = candidates(init, size);
        let last = maps.last();
        let n = maps.len() - 1;
        lemma_candidates(init, size);
        let c = candidates(maps, size);
        assert forall|k: int| 0 <= k < c.len() implies (#[trigger] c[k]) as nat % size == 0
            && in_readable_region(maps, c[k] as int, size) by {
            if k < prev.len() {
                assert(c[k] == prev[k]);
                let i = choose|i: int|
                    0 <= i < init.len() && (#[trigger] init[i]).perms.read && init[i].addr_start
                        <= prev[k] && prev[k] + size <= init[i].addr_end;
                assert(maps[i] == init[i]);
            } else {
                let r = region_candidates(last, size);
                assert(c[k] == r[k - prev.len()]);
                lemma_region_candidate(last, size, k - prev.len());
                assert(maps[n] == last);
            }
        }
    }
}

/// After an initial scan every address of the set is a multiple of the
/// element width, and the whole value at it lies in a readable region of
/// the catalogue.
pub proof fn lemma_initial_scan_addresses<T: FromLeBytes>(
    p: Predicate<T>,
    maps: Seq<MemoryMap>,
    reads: Seq<T>,
    cur: Seq<T>,
)
    requires
        reads.len() == candidates(maps, T::spec_size()).len(),
        cur.len() == reads.len(),
    ensures
        forall|k: int|
            0 <= k < refine(p, reads, candidates(maps, T::spec_size()), cur).1.len() ==> {
                let a = #[trigger] refine(p, reads, candidates(maps, T::spec_size()), cur).1[k];
                &&& a as nat % T::spec_size() == 0
                &&& in_readable_region(maps, a as int, T::spec_size())
            },
{
    let size = T::spec_size();
    T::lemma_size();
    let c = candidates(maps, size);
    lemma_candidates(maps, size);
    lemma_refine_is_stable_subset(p, reads, c, cur);
    let a = refine(p, reads, c, cur).1;
    assert forall|k: int| 0 <= k < a.len() implies (#[trigger] a[k]) as nat % size == 0
        && in_readable_region(maps, a[k] as int, size) by {
        assert(c.contains(a[k]));
        let j = choose|j: int| 0 <= j < c.len() && c[j] == a[k];
        assert(c[j] as nat % size == 0);
    }
}

/// Keeping only the values equal to `x` and then only those different
/// from `x` leaves nothing, whatever the target holds in between.
pub proof fn lemma_equal_then_not_equal<T: FromLeBytes>(
    x: T,
    vals: Seq<T>,
    addrs: Seq<usize>,
    cur1: Seq<T>,
    cur2: Seq<T>,
)
    requires
        vals.len() == addrs.len(),
        vals.len() == cur1.len(),
        cur2.len() == refine(Predicate::Equal(x), vals, addrs, cur1).0.len(),
    ensures
        ({
            let first = refine(Predicate::Equal(x), vals, addrs, cur1);
            refine(Predicate::NotEqual(x), first.0, first.1, cur2).1.len() == 0
        }),
{
    let first = refine(Predicate::Equal(x), vals, addrs, cur1);
    lemma_refine_kept(Predicate::Equal(x), vals, addrs, cur1);
    lemma_refine_kept(Predicate::NotEqual(x), first.0, first.1, cur2);
    let idx = kept(Predicate::NotEqual(x), first.0, cur2);
    let second = refine(Predicate::NotEqual(x), first.0, first.1, cur2);
    if second.1.len() > 0 {
        let i0 = idx[0];
        let idx1 = kept(Predicate::Equal(x), vals, cur1);
        assert(embeds(idx, second.1, first.1));
        assert(0 <= i0 < first.1.len());
        assert(second.0[0] == first.0[i0]);
        assert(Predicate::NotEqual(x).holds(first.0[i0], cur2[i0]));
        assert(first.0[i0] == vals[idx1[i0]]);
        assert(Predicate::Equal(x).holds(vals[idx1[i0]], cur1[idx1[i0]]));
    }
}

/// A predicate that does not look at the present value and holds of every
/// stored value keeps every entry as it is.
pub proof fn lemma_refine_keeps_all<T: FromLeBytes>(
    p: Predicate<T>,
    vals: Seq<T>,
    addrs: Seq<usize>,
    cur: Seq<T>,
)
    requires
        vals.len() == addrs.len(),
        vals.len() == cur.len(),
        !p.reads(),
        forall|i: int| 0 <= i < vals.len() ==> p.holds(#[trigger] vals[i], cur[i]),
    ensures
        refine(p, vals, addrs, cur) == (vals, addrs),
    decreases vals.len(),
{
    if vals.len() > 0 {
        let n = vals.len() - 1;
        let vs = vals.subrange(0, n);
        let cs = cur.subrange(0, n);
        assert forall|i: int| 0 <= i < vs.len() implies p.holds(#[trigger] vs[i], cs[i]) by {
            assert(vs[i] == vals[i] && cs[i] == cur[i]);
        }
        lemma_refine_keeps_all(p, vs, addrs.subrange(0, n), cs);
        assert(p.holds(vals[n], cur[n]));
        assert(vs.push(vals[n]) =~= vals);
        assert(addrs.subrange(0, n).push(addrs[n]) =~= addrs);
    }
}

/// Scanning again for `Equal(x)` keeps every entry that a scan for
/// `Equal(x)` kept, whatever the target holds in between.
pub proof fn lemma_equal_twice<T: FromLeBytes>(
    x: T,
    vals: Seq<T>,
    addrs: Seq<usize>,
    cur1: Seq<T>,
    cur2: Seq<T>,
)
    requires
        vals.len() == addrs.len(),
        vals.len() == cur1.len(),
        cur2.len() == refine(Predicate::Equal(x), vals, addrs, cur1).0.len(),
    ensures
        ({
            let first = refine(Predicate::Equal(x), vals, addrs, cur1);
            refine(Predicate::Equal(x), first.0, first.1, cur2) == first
        }),
{
    let p = Predicate::Equal(x);
    let first = refine(p, vals, addrs, cur1);
    lemma_refine_kept(p, vals, addrs, cur1);
    let idx = kept(p, vals, cur1);
    assert forall|i: int| 0 <= i < first.0.len() implies p.holds(#[trigger] first.0[i], cur2[i]) by {
        assert(first.0[i] == vals[idx[i]]);
        assert(p.holds(vals[idx[i]], cur1[idx[i]]));
    }
    lemma_refine_keeps_all(p, first.0, first.1, cur2);
}

/// A `Refresh` keeps every entry and stores the values found now.
pub proof fn lemma_refresh<T: FromLeBytes>(vals: Seq<T>, addrs: Seq<usize>, cur: Seq<T>)
    requires
        vals.len() == addrs.len(),
        vals.len() == cur.len(),
    ensures
        refine(Predicate::Refresh, vals, addrs, cur) == (cur, addrs),
    decreases vals.len(),
{
    if vals.len() > 0 {
        let n = vals.len() - 1;
        lemma_refresh(vals.subrange(0, n), addrs.subrange(0, n), cur.subrange(0, n));
        assert(cur.subrange(0, n).push(cur[n]) =~= cur);
        assert(addrs.subrange(0, n).push(addrs[n]) =~= addrs);
    }
}

/// A `Refresh` followed by a comparison keeps what the comparison alone
/// keeps from the entries with their values found at the refresh; when
/// the target has not changed since the entries were stored, that is
/// exactly what the comparison alone keeps.
pub proof fn lemma_refresh_then_compare<T: FromLeBytes>(
    p: Predicate<T>,
    vals: Seq<T>,
    addrs: Seq<usize>,
    cur1: Seq<T>,
    cur2: Seq<T>,
)
    requires
        vals.len() == addrs.len(),
        vals.len() == cur1.len(),
        vals.len() == cur2.len(),
        !p.reads(),
    ensures
        ({
            let fresh = refine(Predicate::Refresh, vals, addrs, cur1);
            &&& refine(p, fresh.0, fresh.1, cur2) == refine(p, cur1, addrs, cur2)
            &&& cur1 == vals ==> refine(p, fresh.0, fresh.1, cur2) == refine(p, vals, addrs, cur2)
        }),
{
    lemma_refresh(vals, addrs, cur1);
}

/// Read requests for each of `addrs` in turn, `times` requests of `size`
/// bytes per address.
pub open spec fn read_requests(addrs: Seq<usize>, size: nat, times: nat) -> Seq<(usize, usize)>
    decreases addrs.len(),
{
    if addrs.len() == 0 {
        Seq::empty()
    } else {
        read_requests(addrs.drop_last(), size, times) + Seq::new(
            times,
            |i: int| (addrs.last(), size as usize),
        )
    }
}

/// How many reads a scan by `p` makes per candidate: the first scan reads
/// each value, and a predicate that looks at the present value reads again.
pub open spec fn reads_per_entry<T: FromLeBytes>(p: Predicate<T>, first: bool) -> nat {
    (if first {
        1nat
    } else {
        0nat
    }) + (if p.reads() {
        1nat
    } else {
        0nat
    })
}

proof fn lemma_read_requests_push(addrs: Seq<usize>, a: usize, size: nat, times: nat)
    ensures
        read_requests(addrs.push(a), size, times) == read_requests(addrs, size, times) + Seq::new(
            times,
            |i: int| (a, size as usize),
        ),
{
    assert(addrs.push(a).drop_last() =~= addrs);
}

/// The present values `cur` of a refinement by `p` of `vals` are those
/// decoded from the bytes `log[base + k]` the reader handed back, when `p`
/// looks at present values; else they are the stored values.
pub open spec fn refine_reads<T: FromLeBytes>(
    p: Predicate<T>,
    vals: Seq<T>,
    cur: Seq<T>,
    log: Seq<Seq<u8>>,
    base: int,
) -> bool {
    forall|k: int|
        0 <= k < vals.len() ==> if p.reads() {
            (#[trigger] cur[k]).spec_int() == read_result::<T>(log[base + k])
        } else {
            cur[k] == vals[k]
        }
}

/// The values `reads` and present values `cur` of a first scan by `p`
/// are those decoded from the bytes the reader handed back, starting at
/// `log[base]`: one read per candidate, two when `p` looks at present
/// values.
pub open spec fn initial_reads<T: FromLeBytes>(
    p: Predicate<T>,
    reads: Seq<T>,
    cur: Seq<T>,
    log: Seq<Seq<u8>>,
    base: int,
) -> bool {
    forall|k: int|
        0 <= k < reads.len() ==> if p.reads() {
            (#[trigger] reads[k]).spec_int() == read_result::<T>(log[base + 2 * k])
                && cur[k].spec_int() == read_result::<T>(log[base + 2 * k + 1])
        } else {
            (#[trigger] reads[k]).spec_int() == read_result::<T>(log[base + k]) && cur[k]
                == reads[k]
        }
}

proof fn lemma_initial_reads_push<T: FromLeBytes>(
    p: Predicate<T>,
    reads: Seq<T>,
    cur: Seq<T>,
    log0: Seq<Seq<u8>>,
    log: Seq<Seq<u8>>,
    base: int,
    val: T,
    now: T,
)
    requires
        0 <= base,
        reads.len() == cur.len(),
        initial_reads(p, reads, cur, log0, base),
        log0.len() == base + if p.reads() {
            (2 * reads.len()) as int
        } else {
            reads.len() as int
        },
        log.len() == log0.len() + if p.reads() {
            2int
        } else {
            1int
        },
        forall|j: int| 0 <= j < log0.len() ==> log[j] == log0[j],
        val.spec_int() == read_result::<T>(log[log0.len() as int]),
        p.reads() ==> now.spec_int() == read_result::<T>(log[log0.len() + 1int]),
        !p.reads() ==> now == val,
    ensures
        initial_reads(p, reads.push(val), cur.push(now), log, base),
{
    let n = reads.len() as int;
    let r2 = reads.push(val);
    let c2 = cur.push(now);
    assert forall|k: int| 0 <= k < r2.len() implies if p.reads() {
        (#[trigger] r2[k]).spec_int() == read_result::<T>(log[base + 2 * k]) && c2[k].spec_int()
            == read_result::<T>(log[base + 2 * k + 1])
    } else {
        (#[trigger] r2[k]).spec_int() == read_result::<T>(log[base + k]) && c2[k] == r2[k]
    } by {
        if k < n {
            assert(r2[k] == reads[k] && c2[k] == cur[k]);
            if p.reads() {
                assert(reads[k].spec_int() == read_result::<T>(log0[base + 2 * k]));
                assert(log[base + 2 * k] == log0[base + 2 * k]);
                assert(log[base + 2 * k + 1] == log0[base + 2 * k + 1]);
            } else {
                assert(reads[k].spec_int() == read_result::<T>(log0[base + k]));
                assert(log[base + k] == log0[base + k]);
            }
        }
    }
}

/// `t` is the decimal text of some value of `T`.
pub open spec fn is_text_of_some<T: FromLeBytes>(t: Seq<char>) -> bool {
    exists|v: T| #[trigger] int_text(v.spec_int()) == t
}

/// An address set of element type `T`: the addresses of the candidates
/// and, at the same positions, the values last seen there.
pub struct AddrsSimple<T, U> {
    values: Vec<T>,
    addresses: Vec<usize>,
    memory_reader: U,
    seeded: bool,
    written: Ghost<Seq<(usize, Seq<u8>)>>,
    requested: Ghost<Seq<(usize, usize)>>,
    returned: Ghost<Seq<Seq<u8>>>,
}

impl<T: FromLeBytes, U: MemoryReader> AddrsSimple<T, U> {
    pub closed spec fn values_view(&self) -> Seq<T> {
        self.values@
    }

    pub closed spec fn addresses_view(&self) -> Seq<usize> {
        self.addresses@
    }

    /// Whether a first scan has filled the set.
    pub closed spec fn is_seeded(&self) -> bool {
        self.seeded
    }

    /// The writes handed to the reader so far: address and bytes.
    pub closed spec fn writes(&self) -> Seq<(usize, Seq<u8>)> {
        self.written@
    }

    /// The reads asked of the reader so far: address and length.
    pub closed spec fn requests(&self) -> Seq<(usize, usize)> {
        self.requested@
    }

    /// The bytes the reader handed back for each request, in order.
    pub closed spec fn replies(&self) -> Seq<Seq<u8>> {
        self.returned@
    }

    /// Reads the value at `addr`, noting the request and what came back.
    fn fetch(&mut self, addr: usize) -> (r: T)
        ensures
            final(self).requested@ == old(self).requested@.push((addr, T::spec_size() as usize)),
            final(self).returned@.len() == old(self).returned@.len() + 1,
            final(self).returned@.drop_last() == old(self).returned@,
            r.spec_int() == read_result::<T>(final(self).returned@.last()),
            final(self).values == old(self).values,
            final(self).addresses == old(self).addresses,
            final(self).seeded == old(self).seeded,
            final(self).written == old(self).written,
    {
        self.requested = Ghost(self.requested@.push((addr, T::spec_size() as usize)));
        let bytes = self.memory_reader.read_bytes(addr, T::size());
        self.returned = Ghost(self.returned@.push(bytes@));
        proof {
            assert(self.returned@.drop_last() =~= old(self).returned@);
        }
        value_from_read(&bytes)
    }

    /// `next` is what a successful scan by `expr` makes of this set, the
    /// catalogue being `maps`: a refinement of the entries when the set is
    /// seeded, else the entries that `expr` keeps among the candidates of
    /// the readable regions; the values read are those decoded from the
    /// bytes the reader handed back, as `next.replies()` records them.
    pub open spec fn scan_outcome(&self, next: &Self, expr: ScanExpr, maps: Seq<MemoryMap>) -> bool {
        if self.is_seeded() {
            exists|cur: Seq<T>|
                cur.len() == self.values_view().len() && #[trigger] refine(
                    expr.predicate::<T>(),
                    self.values_view(),
                    self.addresses_view(),
                    cur,
                ) == (next.values_view(), next.addresses_view()) && refine_reads(
                    expr.predicate::<T>(),
                    self.values_view(),
                    cur,
                    next.replies(),
                    self.replies().len() as int,
                )
        } else {
            exists|reads: Seq<T>, cur: Seq<T>|
                reads.len() == candidates(maps, T::spec_size()).len() && cur.len() == reads.len()
                    && #[trigger] refine(
                    expr.predicate::<T>(),
                    reads,
                    candidates(maps, T::spec_size()),
                    cur,
                ) == (next.values_view(), next.addresses_view()) && initial_reads(
                    expr.predicate::<T>(),
                    reads,
                    cur,
                    next.replies(),
                    self.replies().len() as int,
                )
        }
    }

    /// Values and addresses pair up, and a set not yet seeded is empty.
    pub open spec fn wf(&self) -> bool {
        &&& self.values_view().len() == self.addresses_view().len()
        &&& !self.is_seeded() ==> self.addresses_view().len() == 0
    }

    /// An empty set that reads the target through `memory_reader`.
    pub fn new(memory_reader: U) -> (r: Self)
        ensures
            r.wf(),
            r.values_view() == Seq::<T>::empty(),
            r.addresses_view() == Seq::<usize>::empty(),
            !r.is_seeded(),
            r.writes() == Seq::<(usize, Seq<u8>)>::empty(),
    {
        AddrsSimple {
            values: Vec::new(),
            addresses: Vec::new(),
            memory_reader,
            seeded: false,
            written: Ghost(Seq::empty()),
            requested: Ghost(Seq::empty()),
            returned: Ghost(Seq::empty()),
        }
    }

    /// Name of the element type.
    pub fn get_type(&self) -> (r: String)
        ensures
            r@ == T::spec_val_type().spec_name(),
    {
        T::val_type().name()
    }

    /// The addresses of the set, in order.
    pub fn get_addrs(&self) -> (r: Vec<usize>)
        ensures
            r@ == self.addresses_view(),
    {
        let mut r: Vec<usize> = Vec::new();
        let mut i: usize = 0;
        while i < self.addresses.len()
            invariant
                i <= self.addresses@.len(),
                r@ == self.addresses@.subrange(0, i as int),
            decreases self.addresses@.len() - i,
        {
            r.push(self.addresses[i]);
            i = i + 1;
            proof {
                assert(r@ =~= self.addresses@.subrange(0, i as int));
            }
        }
        proof {
            assert(self.addresses@.subrange(0, i as int) =~= self.addresses@);
        }
        r
    }

    /// The stored values of the set, in decimal.
    pub fn get_vals(&self) -> (r: Vec<String>)
        requires
            self.wf(),
        ensures
            r@.len() == self.values_view().len(),
            forall|i: int|
                0 <= i < r@.len() ==> (#[trigger] r@[i])@ == int_text(self.values_view()[i].spec_int()),
    {
        let mut r: Vec<String> = Vec::new();
        let mut i: usize = 0;
        while i < self.values.len()
            invariant
                i <= self.values@.len(),
                r@.len() == i,
                forall|j: int|
                    0 <= j < i ==> (#[trigger] r@[j])@ == int_text(self.values@[j].spec_int()),
            decreases self.values@.len() - i,
        {
            r.push(value_text(&self.values[i]));
            i = i + 1;
        }
        r
    }

    /// For each entry: its address, its stored value and the value at the
    /// address now, both in decimal.
    pub fn get_vals_to_print(&mut self) -> (r: Vec<(usize, String, String)>)
        requires
            old(self).wf(),
        ensures
            final(self).wf(),
            final(self).values_view() == old(self).values_view(),
            final(self).addresses_view() == old(self).addresses_view(),
            final(self).is_seeded() == old(self).is_seeded(),
            final(self).requests() == old(self).requests() + read_requests(
                old(self).addresses_view(),
                T::spec_size(),
                1,
            ),
            r@.len() == old(self).addresses_view().len(),
            forall|i: int|
                0 <= i < r@.len() ==> {
                    &&& (#[trigger] r@[i]).0 == old(self).addresses_view()[i]
                    &&& r@[i].1@ == int_text(old(self).values_view()[i].spec_int())
                    &&& is_text_of_some::<T>(r@[i].2@)
                    &&& r@[i].2@ == int_text(
                        read_result::<T>(final(self).replies()[old(self).replies().len() + i]),
                    )
                },
    {
        let mut r: Vec<(usize, String, String)> = Vec::new();
        let n = self.addresses.len();
        let mut i: usize = 0;
        while i < n
            invariant
                n == self.addresses@.len() == self.values@.len(),
                self.values@ == old(self).values@,
                self.addresses@ == old(self).addresses@,
                self.seeded == old(self).seeded,
                self.requested@ == old(self).requested@ + read_requests(
                    self.addresses@.subrange(0, i as int),
                    T::spec_size(),
                    1,
                ),
                i <= n,
                r@.len() == i,
                forall|j: int|
                    0 <= j < i ==> {
                        &&& (#[trigger] r@[j]).0 == self.addresses@[j]
                        &&& r@[j].1@ == int_text(self.values@[j].spec_int())
                        &&& is_text_of_some::<T>(r@[j].2@)
                        &&& r@[j].2@ == int_text(
                            read_result::<T>(self.returned@[old(self).returned@.len() + j]),
                        )
                    },
                self.returned@.len() == old(self).returned@.len() + i,
            decreases n - i,
        {
            let addr = self.addresses[i];
            let ghost log0 = self.returned@;
            let now: T = self.fetch(addr);
            proof {
                assert forall|j: int| 0 <= j < log0.len() implies self.returned@[j] == log0[j] by {
                    assert(self.returned@.drop_last()[j] == log0[j]);
                }
                let pre = self.addresses@.subrange(0, i as int);
                lemma_read_requests_push(pre, addr, T::spec_size(), 1);
                assert(self.addresses@.subrange(0, i + 1 as int) =~= pre.push(addr));
                assert(self.requested@ =~= old(self).requested@ + read_requests(
                    pre.push(addr),
                    T::spec_size(),
                    1,
                ));
            }
            let row = (addr, value_text(&self.values[i]), value_text(&now));
            assert(int_text(now.spec_int()) == row.2@);
            r.push(row);
            i = i + 1;
        }
        proof {
            assert(self.addresses@.subrange(0, n as int) =~= self.addresses@);
        }
        r
    }

    /// Writes `value`, narrowed or sign-extended to `T`, at the address of
    /// entry `addr_idx`: the bytes handed to the reader are the
    /// little-endian encoding of `value` modulo `256^size`. When the write
    /// goes through, the entry also stores the value written, so that later
    /// comparisons see it.
    pub fn write(&mut self, value: i32, addr_idx: usize) -> (r: Result<(), ScanError>)
        requires
            old(self).wf(),
        ensures
            final(self).wf(),
            final(self).addresses_view() == old(self).addresses_view(),
            final(self).is_seeded() == old(self).is_seeded(),
            r is Err ==> final(self).values_view() == old(self).values_view(),
            addr_idx >= old(self).addresses_view().len() ==> r == Err::<(), ScanError>(
                ScanError::BadIndex,
            ) && final(self).writes() == old(self).writes(),
            addr_idx < old(self).addresses_view().len() && r is Err ==> r == Err::<(), ScanError>(
                ScanError::WriteFailed,
            ),
            addr_idx < old(self).addresses_view().len() ==> exists|bytes: Seq<u8>|
                {
                    &&& bytes.len() == T::spec_size()
                    &&& le_nat(bytes) == value as int % pow256(T::spec_size()) as int
                    &&& #[trigger] final(self).writes() == old(self).writes().push(
                        (old(self).addresses_view()[addr_idx as int], bytes),
                    )
                    &&& r is Ok ==> final(self).values_view() == old(self).values_view().update(
                        addr_idx as int,
                        final(self).values_view()[addr_idx as int],
                    ) && final(self).values_view()[addr_idx as int].spec_int() == decode(
                        bytes,
                        T::spec_signed(),
                    )
                },
    {
        if addr_idx >= self.addresses.len() {
            return Err(ScanError::BadIndex);
        }
        let addr = self.addresses[addr_idx];
        let bytes = encode_i32(value, T::size());
        self.written = Ghost(self.written@.push((addr, bytes@)));
        match self.memory_reader.write_bytes(addr, bytes.as_slice()) {
            Ok(()) => {
                let w = T::from_le_bytes(bytes.as_slice());
                self.values.set(addr_idx, w);
                proof {
                    assert(self.values@ =~= old(self).values@.update(addr_idx as int, w));
                }
                Ok(())
            },
            Err(_) => Err(ScanError::WriteFailed),
        }
    }

    /// A copy of the set with a copy of its reader.
    pub fn clone_box(&self) -> (r: Self)
        requires
            self.wf(),
        ensures
            r.wf(),
            r.values_view() == self.values_view(),
            r.addresses_view() == self.addresses_view(),
            r.is_seeded() == self.is_seeded(),
    {
        let mut values: Vec<T> = Vec::new();
        let mut i: usize = 0;
        while i < self.values.len()
            invariant
                i <= self.values@.len(),
                values@ == self.values@.subrange(0, i as int),
            decreases self.values@.len() - i,
        {
            values.push(self.values[i]);
            i = i + 1;
            proof {
                assert(values@ =~= self.values@.subrange(0, i as int));
            }
        }
        proof {
            assert(self.values@.subrange(0, i as int) =~= self.values@);
        }
        AddrsSimple {
            values,
            addresses: self.get_addrs(),
            memory_reader: self.memory_reader.clone(),
            seeded: self.seeded,
            written: Ghost(Seq::empty()),
            requested: Ghost(Seq::empty()),
            returned: Ghost(Seq::empty()),
        }
    }

    pub fn len(&self) -> (n: usize)
        ensures
            n == self.addresses_view().len(),
    {
        self.addresses.len()
    }

    pub fn is_empty(&self) -> (b: bool)
        ensures
            b == (self.addresses_view().len() == 0),
    {
        self.addresses.len() == 0
    }

    /// Narrows the set by `expr`. The first scan of a set visits every
    /// aligned address of the readable regions of the target; each later
    /// scan filters the entries already there, keeping their order.
    pub fn scan<S: ProgressSink>(&mut self, ctx: &Context<U>, expr: &ScanExpr, progress: &mut Reporter<S>) -> (r:
        Result<(), ScanError>)
        requires
            old(self).wf(),
        ensures
            final(self).wf(),
            !expr.parses::<T>() ==> r == Err::<(), ScanError>(ScanError::BadOperand),
            expr.parses::<T>() && !old(self).is_seeded() && ctx.process is None ==> r == Err::<
                (),
                ScanError,
            >(ScanError::NoProcess),
            r is Err ==> final(self).values_view() == old(self).values_view()
                && final(self).addresses_view() == old(self).addresses_view()
                && final(self).is_seeded() == old(self).is_seeded()
                && final(progress).reports() == old(progress).reports(),
            expr.parses::<T>() && !old(self).is_seeded() && ctx.process is Some ==> {
                let maps = ctx.process->0.memory_maps@;
                &&& r is Ok
                &&& final(self).is_seeded()
                &&& exists|reads: Seq<T>, cur: Seq<T>|
                    reads.len() == candidates(maps, T::spec_size()).len() && cur.len()
                        == reads.len() && #[trigger] refine(
                        expr.predicate::<T>(),
                        reads,
                        candidates(maps, T::spec_size()),
                        cur,
                    ) == (final(self).values_view(), final(self).addresses_view())
                        && initial_reads(
                        expr.predicate::<T>(),
                        reads,
                        cur,
                        final(self).replies(),
                        old(self).replies().len() as int,
                    )
                &&& final(progress).reports() == old(progress).reports() + initial_reports(
                    maps,
                    T::spec_size(),
                )
            },
            expr.parses::<T>() && old(self).is_seeded() ==> {
                &&& r is Ok
                &&& final(self).is_seeded()
                &&& exists|cur: Seq<T>|
                    cur.len() == old(self).values_view().len() && #[trigger] refine(
                        expr.predicate::<T>(),
                        old(self).values_view(),
                        old(self).addresses_view(),
                        cur,
                    ) == (final(self).values_view(), final(self).addresses_view())
                        && refine_reads(
                        expr.predicate::<T>(),
                        old(self).values_view(),
                        cur,
                        final(self).replies(),
                        old(self).replies().len() as int,
                    )
                &&& final(progress).reports() == old(progress).reports() + refine_reports(
                    old(self).addresses_view().len() as usize,
                )
            },
            r is Ok ==> old(self).scan_outcome(&*final(self), *expr, ctx.process->0.memory_maps@),
            r is Err ==> final(self).requests() == old(self).requests(),
            r is Ok && old(self).is_seeded() ==> final(self).requests() == old(self).requests()
                + read_requests(
                old(self).addresses_view(),
                T::spec_size(),
                reads_per_entry(expr.predicate::<T>(), false),
            ),
            r is Ok && !old(self).is_seeded() ==> final(self).requests() == old(self).requests()
                + read_requests(
                candidates(ctx.process->0.memory_maps@, T::spec_size()),
                T::spec_size(),
                reads_per_entry(expr.predicate::<T>(), true),
            ),
            r is Ok && old(self).is_seeded() ==> is_subsequence(
                final(self).addresses_view(),
                old(self).addresses_view(),
            ),
            r is Ok && !old(self).is_seeded() ==> forall|k: int|
                0 <= k < final(self).addresses_view().len() ==> {
                    let a = #[trigger] final(self).addresses_view()[k];
                    &&& a as nat % T::spec_size() == 0
                    &&& in_readable_region(ctx.process->0.memory_maps@, a as int, T::spec_size())
                },
            r is Ok && old(self).is_seeded() ==> monotone_to_total(
                final(progress).reports().subrange(
                    old(progress).reports().len() as int,
                    final(progress).reports().len() as int,
                ),
                old(self).addresses_view().len() as usize,
            ),
            r is Ok && !old(self).is_seeded() ==> monotone_to_total(
                final(progress).reports().subrange(
                    old(progress).reports().len() as int,
                    final(progress).reports().len() as int,
                ),
                scan_total(ctx.process->0.memory_maps@, T::spec_size()) as usize,
            ),
    {
        let ghost before = progress.reports();
        proof {
            T::lemma_size();
        }
        let p = match expr.compile::<T>() {
            Ok(p) => p,
            Err(e) => {
                return Err(e);
            },
        };
        if self.seeded {
            let ghost vals = self.values@;
            let ghost addrs = self.addresses@;
            self.noninitial_scan(&p, progress);
            proof {
                let cur = choose|cur: Seq<T>|
                    cur.len() == vals.len() && #[trigger] refine(p, vals, addrs, cur) == (
                        self.values@,
                        self.addresses@,
                    );
                lemma_refine_is_stable_subset(p, vals, addrs, cur);
                lemma_progress_monotone(Seq::empty(), 1, addrs.len() as usize);
                assert(progress.reports().subrange(before.len() as int, progress.reports().len() as int)
                    =~= refine_reports(addrs.len() as usize));
            }
            Ok(())
        } else {
            match &ctx.process {
                Some(process) => {
                    self.initial_scan(&process.memory_maps, &p, progress);
                    proof {
                        let maps = process.memory_maps@;
                        let c = candidates(maps, T::spec_size());
                        let (reads, cur) = choose|reads: Seq<T>, cur: Seq<T>|
                            reads.len() == c.len() && cur.len() == reads.len() && #[trigger] refine(
                                p,
                                reads,
                                c,
                                cur,
                            ) == (self.values@, self.addresses@);
                        lemma_initial_scan_addresses(p, maps, reads, cur);
                        assert forall|k: int| 0 <= k < self.addresses@.len() implies {
                            let a = #[trigger] self.addresses@[k];
                            &&& a as nat % T::spec_size() == 0
                            &&& in_readable_region(maps, a as int, T::spec_size())
                        } by {
                            assert(refine(p, reads, c, cur).1[k] == self.addresses@[k]);
                        }
                        lemma_progress_monotone(maps, T::spec_size(), 0);
                        assert(progress.reports().subrange(
                            before.len() as int,
                            progress.reports().len() as int,
                        ) =~= initial_reports(maps, T::spec_size()));
                    }
                    Ok(())
                },
                None => Err(ScanError::NoProcess),
            }
        }
    }

    fn noninitial_scan<S: ProgressSink>(&mut self, p: &Predicate<T>, progress: &mut Reporter<S>)
        requires
            old(self).wf(),
            old(self).seeded,
        ensures
            final(self).wf(),
            final(self).seeded == old(self).seeded,
            exists|cur: Seq<T>|
                cur.len() == old(self).values@.len() && #[trigger] refine(
                    *p,
                    old(self).values@,
                    old(self).addresses@,
                    cur,
                ) == (final(self).values@, final(self).addresses@) && refine_reads(
                    *p,
                    old(self).values@,
                    cur,
                    final(self).returned@,
                    old(self).returned@.len() as int,
                ),
            final(self).returned@.subrange(0, old(self).returned@.len() as int)
                == old(self).returned@,
            final(progress).reports() == old(progress).reports() + refine_reports(
                old(self).addresses@.len() as usize,
            ),
            final(self).requested@ == old(self).requested@ + read_requests(
                old(self).addresses@,
                T::spec_size(),
                reads_per_entry(*p, false),
            ),
    {
        let ghost rs = self.requested@;
        let ghost rr = self.returned@;
        let ghost rb = self.returned@.len() as int;
        let ghost t = reads_per_entry(*p, false);
        let ghost sz = T::spec_size();
        proof {
            assert(rs + read_requests(Seq::<usize>::empty(), sz, t) =~= rs);
        }
        let mut old_vals: Vec<T> = Vec::new();
        let mut old_addrs: Vec<usize> = Vec::new();
        std::mem::swap(&mut old_vals, &mut self.values);
        std::mem::swap(&mut old_addrs, &mut self.addresses);
        let n = old_addrs.len();
        let ghost start = progress.reports();
        let ghost mut cur: Seq<T> = Seq::empty();
        let mut i: usize = 0;
        proof {
            assert(start + ticks(0, n) =~= start);
        }
        while i < n
            invariant
                n == old_vals@.len() == old_addrs@.len(),
                i <= n,
                self.seeded,
                cur.len() == i,
                refine(*p, old_vals@.subrange(0, i as int), old_addrs@.subrange(0, i as int), cur)
                    == (self.values@, self.addresses@),
                progress.reports() == start + ticks(i as nat, n),
                t == reads_per_entry(*p, false),
                sz == T::spec_size(),
                self.requested@ == rs + read_requests(old_addrs@.subrange(0, i as int), sz, t),
                rb == rr.len(),
                self.returned@.len() == rb + if p.reads() {
                    i as int
                } else {
                    0
                },
                self.returned@.subrange(0, rb) == rr,
                refine_reads(*p, old_vals@.subrange(0, i as int), cur, self.returned@, rb),
            decreases n - i,
        {
            if i % 1000 == 0 {
                progress.report(i, n);
            }
            proof {
                assert(ticks((i + 1) as nat, n) == if i % 1000 == 0 {
                    ticks(i as nat, n).push((i, n))
                } else {
                    ticks(i as nat, n)
                });
                if i % 1000 == 0 {
                    assert(start + ticks((i + 1) as nat, n) =~= (start + ticks(i as nat, n)).push(
                        (i, n),
                    ));
                }
            }
            let val = old_vals[i];
            let addr = old_addrs[i];
            let ghost log0 = self.returned@;
            let ghost cur0 = cur;
            let now = if p.looks() {
                self.fetch(addr)
            } else {
                val
            };
            proof {
                let vs0 = old_vals@.subrange(0, i as int);
                let vs = old_vals@.subrange(0, i + 1 as int);
                let c2 = cur0.push(now);
                assert forall|k: int| 0 <= k < vs.len() implies if p.reads() {
                    (#[trigger] c2[k]).spec_int() == read_result::<T>(self.returned@[rb + k])
                } else {
                    c2[k] == vs[k]
                } by {
                    if k < i {
                        assert(c2[k] == cur0[k]);
                        assert(vs[k] == vs0[k]);
                        if p.reads() {
                            assert(self.returned@[rb + k] == log0[rb + k]);
                        }
                    }
                }
                assert(self.returned@.subrange(0, rb) =~= rr) by {
                    if p.reads() {
                        assert(self.returned@.subrange(0, rb) =~= log0.subrange(0, rb));
                    }
                }
            }
            proof {
                let pre = old_addrs@.subrange(0, i as int);
                lemma_read_requests_push(pre, addr, sz, t);
                assert(old_addrs@.subrange(0, i + 1 as int) =~= pre.push(addr));
                assert(self.requested@ =~= rs + read_requests(pre.push(addr), sz, t));
            }
            proof {
                let c2 = cur.push(now);
                assert(c2.subrange(0, i as int) =~= cur);
                lemma_refine_step(*p, old_vals@, old_addrs@, c2, i as int);
                cur = c2;
                assert(cur.subrange(0, i + 1 as int) =~= cur);
            }
            if p.admits(&val, &now) {
                self.values.push(p.store(val, now));
                self.addresses.push(addr);
            }
            i = i + 1;
        }
        progress.report(n, n);
        proof {
            assert(old_vals@.subrange(0, n as int) =~= old_vals@);
            assert(old_addrs@.subrange(0, n as int) =~= old_addrs@);
            assert(start + refine_reports(n) =~= (start + ticks(n as nat, n)).push((n, n)));
            lemma_refine_lengths(*p, old_vals@, old_addrs@, cur);
        }
    }

    fn initial_scan<S: ProgressSink>(
        &mut self,
        maps: &Vec<MemoryMap>,
        p: &Predicate<T>,
        progress: &mut Reporter<S>,
    )
        requires
            old(self).values@.len() == 0,
            old(self).addresses@.len() == 0,
        ensures
            final(self).wf(),
            final(self).seeded,
            exists|reads: Seq<T>, cur: Seq<T>|
                reads.len() == candidates(maps@, T::spec_size()).len() && cur.len() == reads.len()
                    && #[trigger] refine(*p, reads, candidates(maps@, T::spec_size()), cur) == (
                    final(self).values@,
                    final(self).addresses@,
                ) && initial_reads(
                    *p,
                    reads,
                    cur,
                    final(self).returned@,
                    old(self).returned@.len() as int,
                ),
            final(self).returned@.subrange(0, old(self).returned@.len() as int)
                == old(self).returned@,
            final(progress).reports() == old(progress).reports() + initial_reports(
                maps@,
                T::spec_size(),
            ),
            final(self).requested@ == old(self).requested@ + read_requests(
                candidates(maps@, T::spec_size()),
                T::spec_size(),
                reads_per_entry(*p, true),
            ),
    {
        let ghost rs = self.requested@;
        let ghost rr = self.returned@;
        let ghost rb = self.returned@.len() as int;
        let ghost t = reads_per_entry(*p, true);
        proof {
            assert(rs + read_requests(Seq::<usize>::empty(), T::spec_size(), t) =~= rs);
        }
        let size = T::size();
        let ghost sz = size as nat;
        let total = catalogue_total(maps, size);
        let ghost start = progress.reports();
        let ghost mut reads: Seq<T> = Seq::empty();
        let ghost mut cur: Seq<T> = Seq::empty();
        let ghost mut cands: Seq<usize> = Seq::empty();
        let mut scanned: usize = 0;
        let mut i: usize = 0;
        proof {
            assert(maps@.subrange(0, 0) =~= Seq::<MemoryMap>::empty());
            assert(refine(*p, reads, cands, cur) == (self.values@, self.addresses@)) by {
                assert(self.values@ =~= Seq::<T>::empty());
                assert(self.addresses@ =~= Seq::<usize>::empty());
            }
            assert(start =~= start + Seq::new(0, |j: int| (scanned_after(maps@, j + 1, sz) as usize, total)));
        }
        while i < maps.len()
            invariant
                sz == size == T::spec_size(),
                1 <= size <= 16,
                i <= maps@.len(),
                total == scan_total(maps@, sz),
                scanned == scanned_after(maps@, i as int, sz),
                reads.len() == cands.len() == cur.len(),
                cands == candidates(maps@.subrange(0, i as int), sz),
                refine(*p, reads, cands, cur) == (self.values@, self.addresses@),
                t == reads_per_entry(*p, true),
                self.requested@ == rs + read_requests(cands, sz, t),
                rb == rr.len(),
                self.returned@.len() == rb + if p.reads() {
                    (2 * cands.len()) as int
                } else {
                    cands.len() as int
                },
                self.returned@.subrange(0, rb) == rr,
                initial_reads(*p, reads, cur, self.returned@, rb),
                progress.reports() == start + Seq::new(
                    i as nat,
                    |j: int| (scanned_after(maps@, j + 1, sz) as usize, total),
                ),
            decreases maps@.len() - i,
        {
            let m = &maps[i];
            let ghost prefix = maps@.subrange(0, i as int);
            proof {
                assert(maps@.subrange(0, i + 1 as int).drop_last() =~= prefix);
                assert(maps@.subrange(0, i + 1 as int).last() == maps@[i as int]);
            }
            if m.perms.read {
                let ghost base = cands;
                let region = region_bounds(m, size);
                match region {
                    Some((first, count)) => {
                        let mut k: usize = 0;
                        let mut a: usize = first;
                        while k < count
                            invariant
                                sz == size == T::spec_size(),
                                1 <= size <= 16,
                                count == region_count(*m, sz),
                                first == region_first(*m, sz),
                                k <= count,
                                k < count ==> a == first + k * size,
                                k < count ==> a + size <= m.addr_end,
                                reads.len() == cands.len() == cur.len(),
                                cands == base + region_candidates(*m, sz).subrange(0, k as int),
                                refine(*p, reads, cands, cur) == (self.values@, self.addresses@),
                                t == reads_per_entry(*p, true),
                                self.requested@ == rs + read_requests(cands, sz, t),
                                rb == rr.len(),
                                self.returned@.len() == rb + if p.reads() {
                                    (2 * cands.len()) as int
                                } else {
                                    cands.len() as int
                                },
                                self.returned@.subrange(0, rb) == rr,
                                initial_reads(*p, reads, cur, self.returned@, rb),
                            decreases count - k,
                        {
                            let ghost log0 = self.returned@;
                            let ghost reads0 = reads;
                            let ghost cur0 = cur;
                            let val: T = self.fetch(a);
                            let ghost log1 = self.returned@;
                            let now = if p.looks() {
                                self.fetch(a)
                            } else {
                                val
                            };
                            proof {
                                let n = reads0.len() as int;
                                let log = self.returned@;
                                assert(log1.len() == log0.len() + 1);
                                assert forall|j: int| 0 <= j < log0.len() implies log[j] == log0[j] by {
                                    assert(log1[j] == log0[j]);
                                    if p.reads() {
                                        assert(log[j] == log1[j]);
                                    }
                                }
                                if p.reads() {
                                    assert(log[log0.len() as int] == log1[log0.len() as int]);
                                }
                                lemma_initial_reads_push(*p, reads0, cur0, log0, log, rb, val, now);
                                assert(log.subrange(0, rb) =~= rr) by {
                                    assert(log.subrange(0, rb) =~= log0.subrange(0, rb));
                                }
                            }
                            proof {
                                lemma_read_requests_push(cands, a, sz, t);
                                assert(self.requested@ =~= rs + read_requests(cands.push(a), sz, t));
                            }
                            proof {
                                lemma_refine_push(*p, reads, cands, cur, val, a, now);
                                assert(region_candidates(*m, sz)[k as int] == a);
                                assert(base + region_candidates(*m, sz).subrange(0, k + 1 as int)
                                    =~= cands.push(a));
                                reads = reads.push(val);
                                cands = cands.push(a);
                                cur = cur.push(now);
                            }
                            if p.admits(&val, &now) {
                                self.values.push(p.store(val, now));
                                self.addresses.push(a);
                            }
                            proof {
                                if k + 1 < count {
                                    lemma_step_fits(m.addr_end - first, size as int, (k + 1) as int);
                                }
                                assert((k + 1) * size == k * size + size) by (nonlinear_arith);
                            }
                            k = k + 1;
                            if k < count {
                                a = a + size;
                            }
                        }
                        proof {
                            assert(region_candidates(*m, sz).subrange(0, count as int)
                                =~= region_candidates(*m, sz));
                        }
                    },
                    None => {
                        proof {
                            assert(region_candidates(*m, sz) =~= Seq::<usize>::empty());
                            assert(cands =~= base + region_candidates(*m, sz));
                        }
                    },
                }
            }
            scanned = scanned.saturating_add(region_size(m) / size);
            progress.report(scanned, total);
            proof {
                assert(progress.reports() =~= start + Seq::new(
                    (i + 1) as nat,
                    |j: int| (scanned_after(maps@, j + 1, sz) as usize, total),
                ));
            }
            i = i + 1;
        }
        progress.report(total, total);
        self.seeded = true;
        proof {
            assert(maps@.subrange(0, maps@.len() as int) =~= maps@);
            lemma_refine_lengths(*p, reads, cands, cur);
            assert(progress.reports() =~= start + initial_reports(maps@, sz));
        }
    }
}

proof fn lemma_step_fits(x: int, d: int, k: int)
    requires
        0 <= x,
        0 < d,
        0 <= k < x / d,
    ensures
        k * d + d <= x,
{
    lemma_fundamental_div_mod(x, d);
    assert(k * d + d <= (x / d) * d) by (nonlinear_arith)
        requires
            k + 1 <= x / d,
            d > 0,
    ;
    assert(d * (x / d) == (x / d) * d) by (nonlinear_arith);
}

/// Length of region `m` in bytes.
fn region_size(m: &MemoryMap) -> (n: usize)
    ensures
        n == region_len(*m),
{
    if m.addr_end >= m.addr_start {
        m.addr_end - m.addr_start
    } else {
        0
    }
}

/// First aligned address of region `m` and how many fields fit, when any does.
fn region_bounds(m: &MemoryMap, size: usize) -> (r: Option<(usize, usize)>)
    requires
        1 <= size <= 16,
    ensures
        r is None ==> region_count(*m, size as nat) == 0,
        r matches Some((first, count)) ==> first == region_first(*m, size as nat) && count
            == region_count(*m, size as nat) && (count > 0 ==> first + size <= m.addr_end),
{
    let start = m.addr_start;
    let end = m.addr_end;
    let first: usize;
    if start % size == 0 {
        first = start;
    } else {
        let q0 = start / size;
        if q0 == usize::MAX {
            proof {
                assert((q0 + 1) * size >= q0 + 1) by (nonlinear_arith)
                    requires
                        size >= 1,
                ;
            }
            return None;
        }
        let q = q0 + 1;
        match q.checked_mul(size) {
            Some(f) => {
                first = f;
            },
            None => {
                return None;
            },
        }
    }
    if end < size || first > end - size {
        return None;
    }
    Some((first, (end - first) / size))
}

/// Logical addresses of the whole catalogue, counting `size` bytes as one.
fn catalogue_total(maps: &Vec<MemoryMap>, size: usize) -> (t: usize)
    requires
        1 <= size,
    ensures
        t == scan_total(maps@, size as nat),
{
    let mut t: usize = 0;
    let mut i: usize = 0;
    while i < maps.len()
        invariant
            1 <= size,
            i <= maps@.len(),
            t == scanned_after(maps@, i as int, size as nat),
        decreases maps@.len() - i,
    {
        t = t.saturating_add(region_size(&maps[i]) / size);
        i = i + 1;
    }
    t
}

/// An address set of any of the supported element types.
pub enum AnyAddrs<R> {
    I8(AddrsSimple<i8, R>),
    U8(AddrsSimple<u8, R>),
    I16(AddrsSimple<i16, R>),
    U16(AddrsSimple<u16, R>),
    I32(AddrsSimple<i32, R>),
    U32(AddrsSimple<u32, R>),
    I64(AddrsSimple<i64, R>),
    U64(AddrsSimple<u64, R>),
    I128(AddrsSimple<i128, R>),
    U128(AddrsSimple<u128, R>),
}

/// The operations of an address set that do not name its element type:
/// values cross this interface as decimal text.
pub trait Addresses<R>: Sized {
    spec fn addr_view(&self) -> Seq<usize>;

    spec fn well_formed(&self) -> bool;

    /// Whether a first scan has filled the set.
    spec fn seeded(&self) -> bool;

    spec fn val_type(&self) -> ValType;

    /// Width of the element type in bytes.
    spec fn elem_size(&self) -> nat;

    /// Whether the element type is read in two's complement.
    spec fn elem_signed(&self) -> bool;

    /// Whether the literal of `expr` is a value of the element type.
    spec fn accepts(&self, expr: ScanExpr) -> bool;

    /// Decimal text of the stored values, in order.
    spec fn value_texts(&self) -> Seq<Seq<char>>;

    /// Whether `t` is the decimal text of some value of the element type.
    spec fn is_value_text(&self, t: Seq<char>) -> bool;

    /// The writes handed to the reader so far: address and bytes.
    spec fn writes(&self) -> Seq<(usize, Seq<u8>)>;

    /// `next` is what a successful scan by `expr` makes of this set, the
    /// catalogue being `maps` (see `AddrsSimple::scan_outcome`).
    spec fn scan_outcome(&self, next: &Self, expr: ScanExpr, maps: Seq<MemoryMap>) -> bool;

    fn get_type(&self) -> (r: String)
        ensures
            r@ == self.val_type().spec_name(),
    ;

    fn len(&self) -> (n: usize)
        ensures
            n == self.addr_view().len(),
    ;

    fn is_empty(&self) -> (b: bool)
        ensures
            b == (self.addr_view().len() == 0),
    ;

    /// Narrows the set by `expr`: the first scan visits the readable
    /// regions of the catalogue, later ones refine the entries in order.
    fn scan<S: ProgressSink>(&mut self, ctx: &Context<R>, expr: &ScanExpr, progress: &mut Reporter<S>) -> (r:
        Result<(), ScanError>)
        requires
            old(self).well_formed(),
        ensures
            final(self).well_formed(),
            final(self).val_type() == old(self).val_type(),
            final(self).elem_size() == old(self).elem_size(),
            !old(self).accepts(*expr) ==> r == Err::<(), ScanError>(ScanError::BadOperand),
            old(self).accepts(*expr) && !old(self).seeded() && ctx.process is None ==> r == Err::<
                (),
                ScanError,
            >(ScanError::NoProcess),
            old(self).accepts(*expr) && (old(self).seeded() || ctx.process is Some) ==> r is Ok
                && final(self).seeded(),
            r is Err ==> final(self).addr_view() == old(self).addr_view() && final(self).seeded()
                == old(self).seeded() && final(progress).reports() == old(progress).reports(),
            r is Ok ==> old(self).scan_outcome(&*final(self), *expr, ctx.process->0.memory_maps@),
            r is Ok && old(self).seeded() ==> is_subsequence(
                final(self).addr_view(),
                old(self).addr_view(),
            ),
            r is Ok && !old(self).seeded() ==> forall|k: int|
                0 <= k < final(self).addr_view().len() ==> {
                    let a = #[trigger] final(self).addr_view()[k];
                    &&& a as nat % old(self).elem_size() == 0
                    &&& in_readable_region(
                        ctx.process->0.memory_maps@,
                        a as int,
                        old(self).elem_size(),
                    )
                },
            r is Ok && old(self).seeded() ==> final(progress).reports() == old(progress).reports()
                + refine_reports(old(self).addr_view().len() as usize),
            r is Ok && !old(self).seeded() ==> final(progress).reports() == old(progress).reports()
                + initial_reports(ctx.process->0.memory_maps@, old(self).elem_size()),
    ;

    fn get_addrs(&self) -> (r: Vec<usize>)
        ensures
            r@ == self.addr_view(),
    ;

    fn get_vals(&self) -> (r: Vec<String>)
        requires
            self.well_formed(),
        ensures
            r@.len() == self.addr_view().len(),
            r@.len() == self.value_texts().len(),
            forall|i: int| 0 <= i < r@.len() ==> (#[trigger] r@[i])@ == self.value_texts()[i],
    ;

    /// Address, stored value and present value of each entry.
    fn get_vals_to_print(&mut self) -> (r: Vec<(usize, String, String)>)
        requires
            old(self).well_formed(),
        ensures
            final(self).well_formed(),
            final(self).addr_view() == old(self).addr_view(),
            final(self).seeded() == old(self).seeded(),
            final(self).val_type() == old(self).val_type(),
            final(self).value_texts() == old(self).value_texts(),
            r@.len() == old(self).addr_view().len(),
            forall|i: int|
                0 <= i < r@.len() ==> (#[trigger] r@[i]).0 == old(self).addr_view()[i] && r@[i].1@
                    == old(self).value_texts()[i] && old(self).is_value_text(r@[i].2@),
    ;

    /// Writes `value`, narrowed or sign-extended to the element type, at
    /// the address of entry `addr_idx`; once written, the entry stores it.
    fn write(&mut self, value: i32, addr_idx: usize) -> (r: Result<(), ScanError>)
        requires
            old(self).well_formed(),
        ensures
            final(self).well_formed(),
            final(self).addr_view() == old(self).addr_view(),
            final(self).seeded() == old(self).seeded(),
            final(self).val_type() == old(self).val_type(),
            final(self).elem_size() == old(self).elem_size(),
            addr_idx >= old(self).addr_view().len() ==> r == Err::<(), ScanError>(
                ScanError::BadIndex,
            ) && final(self).writes() == old(self).writes(),
            addr_idx < old(self).addr_view().len() && r is Err ==> r == Err::<(), ScanError>(
                ScanError::WriteFailed,
            ),
            addr_idx < old(self).addr_view().len() ==> exists|bytes: Seq<u8>|
                {
                    &&& bytes.len() == old(self).elem_size()
                    &&& le_nat(bytes) == value as int % pow256(old(self).elem_size()) as int
                    &&& #[trigger] final(self).writes() == old(self).writes().push(
                        (old(self).addr_view()[addr_idx as int], bytes),
                    )
                    &&& r is Ok ==> final(self).value_texts() == old(self).value_texts().update(
                        addr_idx as int,
                        int_text(decode(bytes, old(self).elem_signed())),
                    )
                },
            r is Err ==> final(self).value_texts() == old(self).value_texts(),
    ;

    fn clone_box(&self) -> (r: Self)
        requires
            self.well_formed(),
        ensures
            r.well_formed(),
            r.addr_view() == self.addr_view(),
            r.seeded() == self.seeded(),
            r.val_type() == self.val_type(),
            r.value_texts() == self.value_texts(),
    ;
}

impl<R: MemoryReader> Addresses<R> for AnyAddrs<R> {
    open spec fn addr_view(&self) -> Seq<usize> {
        match self {
            AnyAddrs::I8(a) => a.addresses_view(),
            AnyAddrs::U8(a) => a.addresses_view(),
            AnyAddrs::I16(a) => a.addresses_view(),
            AnyAddrs::U16(a) => a.addresses_view(),
            AnyAddrs::I32(a) => a.addresses_view(),
            AnyAddrs::U32(a) => a.addresses_view(),
            AnyAddrs::I64(a) => a.addresses_view(),
            AnyAddrs::U64(a) => a.addresses_view(),
            AnyAddrs::I128(a) => a.addresses_view(),
            AnyAddrs::U128(a) => a.addresses_view(),
        }
    }

    open spec fn well_formed(&self) -> bool {
        match self {
            AnyAddrs::I8(a) => a.wf(),
            AnyAddrs::U8(a) => a.wf(),
            AnyAddrs::I16(a) => a.wf(),
            AnyAddrs::U16(a) => a.wf(),
            AnyAddrs::I32(a) => a.wf(),
            AnyAddrs::U32(a) => a.wf(),
            AnyAddrs::I64(a) => a.wf(),
            AnyAddrs::U64(a) => a.wf(),
            AnyAddrs::I128(a) => a.wf(),
            AnyAddrs::U128(a) => a.wf(),
        }
    }

    open spec fn seeded(&self) -> bool {
        match self {
            AnyAddrs::I8(a) => a.is_seeded(),
            AnyAddrs::U8(a) => a.is_seeded(),
            AnyAddrs::I16(a) => a.is_seeded(),
            AnyAddrs::U16(a) => a.is_seeded(),
            AnyAddrs::I32(a) => a.is_seeded(),
            AnyAddrs::U32(a) => a.is_seeded(),
            AnyAddrs::I64(a) => a.is_seeded(),
            AnyAddrs::U64(a) => a.is_seeded(),
            AnyAddrs::I128(a) => a.is_seeded(),
            AnyAddrs::U128(a) => a.is_seeded(),
        }
    }

    open spec fn val_type(&self) -> ValType {
        match self {
            AnyAddrs::I8(a) => ValType::I8,
            AnyAddrs::U8(a) => ValType::U8,
            AnyAddrs::I16(a) => ValType::I16,
            AnyAddrs::U16(a) => ValType::U16,
            AnyAddrs::I32(a) => ValType::I32,
            AnyAddrs::U32(a) => ValType::U32,
            AnyAddrs::I64(a) => ValType::I64,
            AnyAddrs::U64(a) => ValType::U64,
            AnyAddrs::I128(a) => ValType::I128,
            AnyAddrs::U128(a) => ValType::U128,
        }
    }

    open spec fn elem_size(&self) -> nat {
        match self {
            AnyAddrs::I8(a) => i8::spec_size(),
            AnyAddrs::U8(a) => u8::spec_size(),
            AnyAddrs::I16(a) => i16::spec_size(),
            AnyAddrs::U16(a) => u16::spec_size(),
            AnyAddrs::I32(a) => i32::spec_size(),
            AnyAddrs::U32(a) => u32::spec_size(),
            AnyAddrs::I64(a) => i64::spec_size(),
            AnyAddrs::U64(a) => u64::spec_size(),
            AnyAddrs::I128(a) => i128::spec_size(),
            AnyAddrs::U128(a) => u128::spec_size(),
        }
    }

    open spec fn elem_signed(&self) -> bool {
        match self {
            AnyAddrs::I8(a) => i8::spec_signed(),
            AnyAddrs::U8(a) => u8::spec_signed(),
            AnyAddrs::I16(a) => i16::spec_signed(),
            AnyAddrs::U16(a) => u16::spec_signed(),
            AnyAddrs::I32(a) => i32::spec_signed(),
            AnyAddrs::U32(a) => u32::spec_signed(),
            AnyAddrs::I64(a) => i64::spec_signed(),
            AnyAddrs::U64(a) => u64::spec_signed(),
            AnyAddrs::I128(a) => i128::spec_signed(),
            AnyAddrs::U128(a) => u128::spec_signed(),
        }
    }

    open spec fn accepts(&self, expr: ScanExpr) -> bool {
        match self {
            AnyAddrs::I8(a) => expr.parses::<i8>(),
            AnyAddrs::U8(a) => expr.parses::<u8>(),
            AnyAddrs::I16(a) => expr.parses::<i16>(),
            AnyAddrs::U16(a) => expr.parses::<u16>(),
            AnyAddrs::I32(a) => expr.parses::<i32>(),
            AnyAddrs::U32(a) => expr.parses::<u32>(),
            AnyAddrs::I64(a) => expr.parses::<i64>(),
            AnyAddrs::U64(a) => expr.parses::<u64>(),
            AnyAddrs::I128(a) => expr.parses::<i128>(),
            AnyAddrs::U128(a) => expr.parses::<u128>(),
        }
    }

    open spec fn value_texts(&self) -> Seq<Seq<char>> {
        match self {
            AnyAddrs::I8(a) => a.values_view().map_values(|v: i8| int_text(v.spec_int())),
            AnyAddrs::U8(a) => a.values_view().map_values(|v: u8| int_text(v.spec_int())),
            AnyAddrs::I16(a) => a.values_view().map_values(|v: i16| int_text(v.spec_int())),
            AnyAddrs::U16(a) => a.values_view().map_values(|v: u16| int_text(v.spec_int())),
            AnyAddrs::I32(a) => a.values_view().map_values(|v: i32| int_text(v.spec_int())),
            AnyAddrs::U32(a) => a.values_view().map_values(|v: u32| int_text(v.spec_int())),
            AnyAddrs::I64(a) => a.values_view().map_values(|v: i64| int_text(v.spec_int())),
            AnyAddrs::U64(a) => a.values_view().map_values(|v: u64| int_text(v.spec_int())),
            AnyAddrs::I128(a) => a.values_view().map_values(|v: i128| int_text(v.spec_int())),
            AnyAddrs::U128(a) => a.values_view().map_values(|v: u128| int_text(v.spec_int())),
        }
    }

    open spec fn is_value_text(&self, t: Seq<char>) -> bool {
        match self {
            AnyAddrs::I8(a) => is_text_of_some::<i8>(t),
            AnyAddrs::U8(a) => is_text_of_some::<u8>(t),
            AnyAddrs::I16(a) => is_text_of_some::<i16>(t),
            AnyAddrs::U16(a) => is_text_of_some::<u16>(t),
            AnyAddrs::I32(a) => is_text_of_some::<i32>(t),
            AnyAddrs::U32(a) => is_text_of_some::<u32>(t),
            AnyAddrs::I64(a) => is_text_of_some::<i64>(t),
            AnyAddrs::U64(a) => is_text_of_some::<u64>(t),
            AnyAddrs::I128(a) => is_text_of_some::<i128>(t),
            AnyAddrs::U128(a) => is_text_of_some::<u128>(t),
        }
    }

    open spec fn writes(&self) -> Seq<(usize, Seq<u8>)> {
        match self {
            AnyAddrs::I8(a) => a.writes(),
            AnyAddrs::U8(a) => a.writes(),
            AnyAddrs::I16(a) => a.writes(),
            AnyAddrs::U16(a) => a.writes(),
            AnyAddrs::I32(a) => a.writes(),
            AnyAddrs::U32(a) => a.writes(),
            AnyAddrs::I64(a) => a.writes(),
            AnyAddrs::U64(a) => a.writes(),
            AnyAddrs::I128(a) => a.writes(),
            AnyAddrs::U128(a) => a.writes(),
        }
    }

    open spec fn scan_outcome(&self, next: &Self, expr: ScanExpr, maps: Seq<MemoryMap>) -> bool {
        match (self, next) {
            (AnyAddrs::I8(a), AnyAddrs::I8(b)) => a.scan_outcome(b, expr, maps),
            (AnyAddrs::U8(a), AnyAddrs::U8(b)) => a.scan_outcome(b, expr, maps),
            (AnyAddrs::I16(a), AnyAddrs::I16(b)) => a.scan_outcome(b, expr, maps),
            (AnyAddrs::U16(a), AnyAddrs::U16(b)) => a.scan_outcome(b, expr, maps),
            (AnyAddrs::I32(a), AnyAddrs::I32(b)) => a.scan_outcome(b, expr, maps),
            (AnyAddrs::U32(a), AnyAddrs::U32(b)) => a.scan_outcome(b, expr, maps),
            (AnyAddrs::I64(a), AnyAddrs::I64(b)) => a.scan_outcome(b, expr, maps),
            (AnyAddrs::U64(a), AnyAddrs::U64(b)) => a.scan_outcome(b, expr, maps),
            (AnyAddrs::I128(a), AnyAddrs::I128(b)) => a.scan_outcome(b, expr, maps),
            (AnyAddrs::U128(a), AnyAddrs::U128(b)) => a.scan_outcome(b, expr, maps),
            _ => false,
        }
    }

    fn get_type(&self) -> String {
        match self {
            AnyAddrs::I8(a) => a.get_type(),
            AnyAddrs::U8(a) => a.get_type(),
            AnyAddrs::I16(a) => a.get_type(),
            AnyAddrs::U16(a) => a.get_type(),
            AnyAddrs::I32(a) => a.get_type(),
            AnyAddrs::U32(a) => a.get_type(),
            AnyAddrs::I64(a) => a.get_type(),
            AnyAddrs::U64(a) => a.get_type(),
            AnyAddrs::I128(a) => a.get_type(),
            AnyAddrs::U128(a) => a.get_type(),
        }
    }

    fn len(&self) -> usize {
        match self {
            AnyAddrs::I8(a) => a.len(),
            AnyAddrs::U8(a) => a.len(),
            AnyAddrs::I16(a) => a.len(),
            AnyAddrs::U16(a) => a.len(),
            AnyAddrs::I32(a) => a.len(),
            AnyAddrs::U32(a) => a.len(),
            AnyAddrs::I64(a) => a.len(),
            AnyAddrs::U64(a) => a.len(),
            AnyAddrs::I128(a) => a.len(),
            AnyAddrs::U128(a) => a.len(),
        }
    }

    fn is_empty(&self) -> bool {
        match self {
            AnyAddrs::I8(a) => a.is_empty(),
            AnyAddrs::U8(a) => a.is_empty(),
            AnyAddrs::I16(a) => a.is_empty(),
            AnyAddrs::U16(a) => a.is_empty(),
            AnyAddrs::I32(a) => a.is_empty(),
            AnyAddrs::U32(a) => a.is_empty(),
            AnyAddrs::I64(a) => a.is_empty(),
            AnyAddrs::U64(a) => a.is_empty(),
            AnyAddrs::I128(a) => a.is_empty(),
            AnyAddrs::U128(a) => a.is_empty(),
        }
    }

    fn scan<S: ProgressSink>(&mut self, ctx: &Context<R>, expr: &ScanExpr, progress: &mut Reporter<S>) -> Result<
        (),
        ScanError,
    > {
        match self {
            AnyAddrs::I8(a) => a.scan(ctx, expr, progress),
            AnyAddrs::U8(a) => a.scan(ctx, expr, progress),
            AnyAddrs::I16(a) => a.scan(ctx, expr, progress),
            AnyAddrs::U16(a) => a.scan(ctx, expr, progress),
            AnyAddrs::I32(a) => a.scan(ctx, expr, progress),
            AnyAddrs::U32(a) => a.scan(ctx, expr, progress),
            AnyAddrs::I64(a) => a.scan(ctx, expr, progress),
            AnyAddrs::U64(a) => a.scan(ctx, expr, progress),
            AnyAddrs::I128(a) => a.scan(ctx, expr, progress),
            AnyAddrs::U128(a) => a.scan(ctx, expr, progress),
        }
    }

    fn get_addrs(&self) -> Vec<usize> {
        match self {
            AnyAddrs::I8(a) => a.get_addrs(),
            AnyAddrs::U8(a) => a.get_addrs(),
            AnyAddrs::I16(a) => a.get_addrs(),
            AnyAddrs::U16(a) => a.get_addrs(),
            AnyAddrs::I32(a) => a.get_addrs(),
            AnyAddrs::U32(a) => a.get_addrs(),
            AnyAddrs::I64(a) => a.get_addrs(),
            AnyAddrs::U64(a) => a.get_addrs(),
            AnyAddrs::I128(a) => a.get_addrs(),
            AnyAddrs::U128(a) => a.get_addrs(),
        }
    }

    fn get_vals(&self) -> Vec<String> {
        match self {
            AnyAddrs::I8(a) => a.get_vals(),
            AnyAddrs::U8(a) => a.get_vals(),
            AnyAddrs::I16(a) => a.get_vals(),
            AnyAddrs::U16(a) => a.get_vals(),
            AnyAddrs::I32(a) => a.get_vals(),
            AnyAddrs::U32(a) => a.get_vals(),
            AnyAddrs::I64(a) => a.get_vals(),
            AnyAddrs::U64(a) => a.get_vals(),
            AnyAddrs::I128(a) => a.get_vals(),
            AnyAddrs::U128(a) => a.get_vals(),
        }
    }

    fn get_vals_to_print(&mut self) -> Vec<(usize, String, String)> {
        match self {
            AnyAddrs::I8(a) => a.get_vals_to_print(),
            AnyAddrs::U8(a) => a.get_vals_to_print(),
            AnyAddrs::I16(a) => a.get_vals_to_print(),
            AnyAddrs::U16(a) => a.get_vals_to_print(),
            AnyAddrs::I32(a) => a.get_vals_to_print(),
            AnyAddrs::U32(a) => a.get_vals_to_print(),
            AnyAddrs::I64(a) => a.get_vals_to_print(),
            AnyAddrs::U64(a) => a.get_vals_to_print(),
            AnyAddrs::I128(a) => a.get_vals_to_print(),
            AnyAddrs::U128(a) => a.get_vals_to_print(),
        }
    }

    fn write(&mut self, value: i32, addr_idx: usize) -> Result<(), ScanError> {
        match self {
            AnyAddrs::I8(a) => a.write(value, addr_idx),
            AnyAddrs::U8(a) => a.write(value, addr_idx),
            AnyAddrs::I16(a) => a.write(value, addr_idx),
            AnyAddrs::U16(a) => a.write(value, addr_idx),
            AnyAddrs::I32(a) => a.write(value, addr_idx),
            AnyAddrs::U32(a) => a.write(value, addr_idx),
            AnyAddrs::I64(a) => a.write(value, addr_idx),
            AnyAddrs::U64(a) => a.write(value, addr_idx),
            AnyAddrs::I128(a) => a.write(value, addr_idx),
            AnyAddrs::U128(a) => a.write(value, addr_idx),
        }
    }

    fn clone_box(&self) -> AnyAddrs<R> {
        match self {
            AnyAddrs::I8(a) => AnyAddrs::I8(a.clone_box()),
            AnyAddrs::U8(a) => AnyAddrs::U8(a.clone_box()),
            AnyAddrs::I16(a) => AnyAddrs::I16(a.clone_box()),
            AnyAddrs::U16(a) => AnyAddrs::U16(a.clone_box()),
            AnyAddrs::I32(a) => AnyAddrs::I32(a.clone_box()),
            AnyAddrs::U32(a) => AnyAddrs::U32(a.clone_box()),
            AnyAddrs::I64(a) => AnyAddrs::I64(a.clone_box()),
            AnyAddrs::U64(a) => AnyAddrs::U64(a.clone_box()),
            AnyAddrs::I128(a) => AnyAddrs::I128(a.clone_box()),
            AnyAddrs::U128(a) => AnyAddrs::U128(a.clone_box()),
        }
    }
}

} // verus!
