//! Fixed-width little-endian values and the reader that fetches them
//! from a target's memory.

use vstd::prelude::*;

use vstd::arithmetic::div_mod::{
    lemma_div_denominator, lemma_mod_breakdown, lemma_mod_multiples_vanish,
};

use crate::addresses::ScanError;
use crate::commands::ValType;

verus! {

/// 256 raised to the power `k`.
pub open spec fn pow256(k: nat) -> nat
    decreases k,
{
    if k == 0 {
        1
    } else {
        256 * pow256((k - 1) as nat)
    }
}

/// Unsigned value of a little-endian byte sequence.
pub open spec fn le_nat(bytes: Seq<u8>) -> nat
    decreases bytes.len(),
{
    if bytes.len() == 0 {
        0
    } else {
        bytes[0] as nat + 256 * le_nat(bytes.subrange(1, bytes.len() as int))
    }
}

/// Two's-complement reading of the unsigned value `n` of a `size`-byte field.
pub open spec fn twos(n: nat, size: nat, signed: bool) -> int {
    if signed && n >= pow256(size) / 2 {
        n - pow256(size)
    } else {
        n as int
    }
}

/// Value held by `bytes` read as a little-endian integer.
pub open spec fn decode(bytes: Seq<u8>, signed: bool) -> int {
    twos(le_nat(bytes), bytes.len(), signed)
}

pub proof fn lemma_pow256_values()
    ensures
        pow256(0) == 1,
        pow256(1) == 0x100,
        pow256(2) == 0x1_0000,
        pow256(4) == 0x1_0000_0000,
        pow256(8) == 0x1_0000_0000_0000_0000,
        pow256(16) == 0x1_0000_0000_0000_0000_0000_0000_0000_0000,
{
    reveal_with_fuel(pow256, 17);
}

pub proof fn lemma_pow256_positive(k: nat)
    ensures
        pow256(k) >= 1,
    decreases k,
{
    if k > 0 {
        lemma_pow256_positive((k - 1) as nat);
    }
}

pub proof fn lemma_le_nat_bound(bytes: Seq<u8>)
    ensures
        le_nat(bytes) < pow256(bytes.len()),
    decreases bytes.len(),
{
    if bytes.len() > 0 {
        let rest = bytes.subrange(1, bytes.len() as int);
        lemma_le_nat_bound(rest);
        assert(le_nat(bytes) <= 255 + 256 * (pow256(rest.len()) - 1)) by (nonlinear_arith)
            requires
                le_nat(bytes) == bytes[0] as nat + 256 * le_nat(rest),
                bytes[0] <= 255,
                le_nat(rest) <= pow256(rest.len()) - 1,
        ;
    }
}

/// Unsigned little-endian value of at most sixteen bytes.
pub fn le_unsigned(bytes: &[u8]) -> (n: u128)
    requires
        bytes@.len() <= 16,
    ensures
        n == le_nat(bytes@),
{
    let len = bytes.len();
    let mut i: usize = len;
    let mut n: u128 = 0;
    while i > 0
        invariant
            len == bytes@.len() <= 16,
            i <= len,
            n == le_nat(bytes@.subrange(i as int, len as int)),
        decreases i,
    {
        let ghost tail = bytes@.subrange(i as int, len as int);
        i = i - 1;
        let ghost cur = bytes@.subrange(i as int, len as int);
        proof {
            assert(cur.subrange(1, cur.len() as int) =~= tail);
            lemma_le_nat_bound(cur);
            lemma_le_nat_bound(tail);
            lemma_pow256_values();
            lemma_pow256_monotone(tail.len(), 15);
        }
        assert(n * 256 + bytes[i as int] < 0x1_0000_0000_0000_0000_0000_0000_0000_0000) by (nonlinear_arith)
            requires
                n < pow256(tail.len()),
                pow256(tail.len()) <= pow256(15),
                pow256(16) == 256 * pow256(15),
                pow256(16) == 0x1_0000_0000_0000_0000_0000_0000_0000_0000,
                bytes[i as int] <= 255,
        ;
        n = n * 256 + bytes[i] as u128;
    }
    proof {
        assert(bytes@.subrange(0, len as int) =~= bytes@);
    }
    n
}

pub proof fn lemma_pow256_monotone(a: nat, b: nat)
    requires
        a <= b,
    ensures
        pow256(a) <= pow256(b),
    decreases b,
{
    if a < b {
        lemma_pow256_monotone(a, (b - 1) as nat);
        lemma_pow256_positive((b - 1) as nat);
    }
}

/// Half of `pow256(size)`: the first unsigned value whose two's-complement
/// reading is negative.
pub fn half_range(size: usize) -> (h: u128)
    requires
        1 <= size <= 16,
    ensures
        h * 2 == pow256(size as nat),
{
    let mut h: u128 = 128;
    let mut k: usize = 1;
    proof {
        reveal_with_fuel(pow256, 2);
    }
    while k < size
        invariant
            1 <= k <= size <= 16,
            h * 2 == pow256(k as nat),
        decreases size - k,
    {
        proof {
            lemma_pow256_monotone((k + 1) as nat, 16);
            lemma_pow256_values();
        }
        h = h * 256;
        k = k + 1;
    }
    h
}

/// Smallest value of a `size`-byte integer.
pub open spec fn value_min(size: nat, signed: bool) -> int {
    if signed {
        -(pow256(size) / 2)
    } else {
        0
    }
}

/// Largest value of a `size`-byte integer.
pub open spec fn value_max(size: nat, signed: bool) -> int {
    if signed {
        pow256(size) / 2 - 1
    } else {
        pow256(size) - 1
    }
}

/// The integer written as a sign and a magnitude.
pub open spec fn signed_of(neg: bool, mag: nat) -> int {
    if neg {
        -mag
    } else {
        mag as int
    }
}

pub proof fn lemma_decode_range(bytes: Seq<u8>, signed: bool)
    requires
        1 <= bytes.len(),
    ensures
        value_min(bytes.len(), signed) <= decode(bytes, signed) <= value_max(bytes.len(), signed),
{
    lemma_le_nat_bound(bytes);
    lemma_pow256_positive((bytes.len() - 1) as nat);
}

/// Two's-complement little-endian value of one to sixteen bytes.
pub fn le_signed(bytes: &[u8]) -> (v: i128)
    requires
        1 <= bytes@.len() <= 16,
    ensures
        v == decode(bytes@, true),
{
    let n = le_unsigned(bytes);
    let h = half_range(bytes.len());
    proof {
        lemma_le_nat_bound(bytes@);
        lemma_pow256_monotone(bytes@.len(), 16);
        lemma_pow256_values();
    }
    if n >= h {
        let mag: u128 = h - (n - h);
        if mag == 0x8000_0000_0000_0000_0000_0000_0000_0000 {
            i128::MIN
        } else {
            -(mag as i128)
        }
    } else {
        n as i128
    }
}

/// Splits a signed value into a sign and a magnitude.
pub fn parts_of_signed(v: i128) -> (r: (bool, u128))
    ensures
        signed_of(r.0, r.1 as nat) == v,
        r.0 ==> r.1 > 0,
{
    if v == i128::MIN {
        (true, 0x8000_0000_0000_0000_0000_0000_0000_0000)
    } else if v < 0 {
        (true, (-v) as u128)
    } else {
        (false, v as u128)
    }
}

/// The signed value `±mag` when it lies in `-(max + 1) ..= max`.
pub fn signed_from_parts(neg: bool, mag: u128, max: u128) -> (r: Option<i128>)
    requires
        max < 0x8000_0000_0000_0000,
    ensures
        r is Some <==> -(max + 1) <= signed_of(neg, mag as nat) <= max,
        r is Some ==> r->0 == signed_of(neg, mag as nat),
{
    if neg {
        if mag <= max + 1 {
            Some(-(mag as i128))
        } else {
            None
        }
    } else if mag <= max {
        Some(mag as i128)
    } else {
        None
    }
}

/// The unsigned value `±mag` when it lies in `0 ..= max`.
pub fn unsigned_from_parts(neg: bool, mag: u128, max: u128) -> (r: Option<u128>)
    ensures
        r is Some <==> 0 <= signed_of(neg, mag as nat) <= max,
        r is Some ==> r->0 == signed_of(neg, mag as nat),
{
    if neg {
        if mag == 0 {
            Some(0)
        } else {
            None
        }
    } else if mag <= max {
        Some(mag)
    } else {
        None
    }
}

/// An integer element type of a scan: its width, its little-endian
/// decoding, its order and its conversion from and to sign and magnitude.
pub trait FromLeBytes: Sized + Copy {
    /// Width in bytes.
    spec fn spec_size() -> nat;

    /// Whether values are read in two's complement.
    spec fn spec_signed() -> bool;

    /// Mathematical value.
    spec fn spec_int(self) -> int;

    /// The element type's tag.
    spec fn spec_val_type() -> ValType;

    proof fn lemma_injective(a: Self, b: Self)
        ensures
            a.spec_int() == b.spec_int() ==> a == b,
    ;

    proof fn lemma_size()
        ensures
            Self::spec_size() == 1 || Self::spec_size() == 2 || Self::spec_size() == 4
                || Self::spec_size() == 8 || Self::spec_size() == 16,
    ;

    fn size() -> (n: usize)
        ensures
            n == Self::spec_size(),
            1 <= n <= 16,
    ;

    fn signed() -> (b: bool)
        ensures
            b == Self::spec_signed(),
    ;

    fn val_type() -> (t: ValType)
        ensures
            t == Self::spec_val_type(),
    ;

    fn from_le_bytes(bytes: &[u8]) -> (r: Self)
        requires
            bytes@.len() == Self::spec_size(),
        ensures
            r.spec_int() == decode(bytes@, Self::spec_signed()),
    ;

    /// The value `±mag`, if the type holds it.
    fn from_sign_magnitude(neg: bool, mag: u128) -> (r: Option<Self>)
        ensures
            r is Some <==> value_min(Self::spec_size(), Self::spec_signed()) <= signed_of(
                neg,
                mag as nat,
            ) <= value_max(Self::spec_size(), Self::spec_signed()),
            r is Some ==> r->0.spec_int() == signed_of(neg, mag as nat),
    ;

    fn sign_magnitude(&self) -> (r: (bool, u128))
        ensures
            signed_of(r.0, r.1 as nat) == self.spec_int(),
            r.0 ==> r.1 > 0,
    ;

    fn less(&self, other: &Self) -> (r: bool)
        ensures
            r == (self.spec_int() < other.spec_int()),
    ;

    fn equal(&self, other: &Self) -> (r: bool)
        ensures
            r == (self.spec_int() == other.spec_int()),
    ;
}

/// Whether the element type `T` holds the integer `v`.
pub open spec fn in_range<T: FromLeBytes>(v: int) -> bool {
    value_min(T::spec_size(), T::spec_signed()) <= v <= value_max(T::spec_size(), T::spec_signed())
}

impl FromLeBytes for i8 {
    open spec fn spec_size() -> nat {
        1
    }

    open spec fn spec_signed() -> bool {
        true
    }

    open spec fn spec_int(self) -> int {
        self as int
    }

    open spec fn spec_val_type() -> ValType {
        ValType::I8
    }

    proof fn lemma_size() {
    }

    proof fn lemma_injective(a: Self, b: Self) {
    }

    fn size() -> usize {
        1
    }

    fn signed() -> bool {
        true
    }

    fn val_type() -> ValType {
        ValType::I8
    }

    fn from_le_bytes(bytes: &[u8]) -> i8 {
        proof {
            lemma_decode_range(bytes@, true);
            lemma_pow256_values();
        }
        le_signed(bytes) as i8
    }

    fn from_sign_magnitude(neg: bool, mag: u128) -> Option<i8> {
        proof {
            lemma_pow256_values();
        }
        match signed_from_parts(neg, mag, 0x7f) {
            Some(v) => Some(v as i8),
            None => None,
        }
    }

    fn sign_magnitude(&self) -> (bool, u128) {
        parts_of_signed(*self as i128)
    }

    fn less(&self, other: &i8) -> bool {
        *self < *other
    }

    fn equal(&self, other: &i8) -> bool {
        *self == *other
    }
}

impl FromLeBytes for u8 {
    open spec fn spec_size() -> nat {
        1
    }

    open spec fn spec_signed() -> bool {
        false
    }

    open spec fn spec_int(self) -> int {
        self as int
    }

    open spec fn spec_val_type() -> ValType {
        ValType::U8
    }

    proof fn lemma_size() {
    }

    proof fn lemma_injective(a: Self, b: Self) {
    }

    fn size() -> usize {
        1
    }

    fn signed() -> bool {
        false
    }

    fn val_type() -> ValType {
        ValType::U8
    }

    fn from_le_bytes(bytes: &[u8]) -> u8 {
        proof {
            lemma_decode_range(bytes@, false);
            lemma_pow256_values();
        }
        le_unsigned(bytes) as u8
    }

    fn from_sign_magnitude(neg: bool, mag: u128) -> Option<u8> {
        proof {
            lemma_pow256_values();
        }
        match unsigned_from_parts(neg, mag, 0xff) {
            Some(v) => Some(v as u8),
            None => None,
        }
    }

    fn sign_magnitude(&self) -> (bool, u128) {
        (false, *self as u128)
    }

    fn less(&self, other: &u8) -> bool {
        *self < *other
    }

    fn equal(&self, other: &u8) -> bool {
        *self == *other
    }
}

impl FromLeBytes for i16 {
    open spec fn spec_size() -> nat {
        2
    }

    open spec fn spec_signed() -> bool {
        true
    }

    open spec fn spec_int(self) -> int {
        self as int
    }

    open spec fn spec_val_type() -> ValType {
        ValType::I16
    }

    proof fn lemma_size() {
    }

    proof fn lemma_injective(a: Self, b: Self) {
    }

    fn size() -> usize {
        2
    }

    fn signed() -> bool {
        true
    }

    fn val_type() -> ValType {
        ValType::I16
    }

    fn from_le_bytes(bytes: &[u8]) -> i16 {
        proof {
            lemma_decode_range(bytes@, true);
            lemma_pow256_values();
        }
        le_signed(bytes) as i16
    }

    fn from_sign_magnitude(neg: bool, mag: u128) -> Option<i16> {
        proof {
            lemma_pow256_values();
        }
        match signed_from_parts(neg, mag, 0x7fff) {
            Some(v) => Some(v as i16),
            None => None,
        }
    }

    fn sign_magnitude(&self) -> (bool, u128) {
        parts_of_signed(*self as i128)
    }

    fn less(&self, other: &i16) -> bool {
        *self < *other
    }

    fn equal(&self, other: &i16) -> bool {
        *self == *other
    }
}

impl FromLeBytes for u16 {
    open spec fn spec_size() -> nat {
        2
    }

    open spec fn spec_signed() -> bool {
        false
    }

    open spec fn spec_int(self) -> int {
        self as int
    }

    open spec fn spec_val_type() -> ValType {
        ValType::U16
    }

    proof fn lemma_size() {
    }

    proof fn lemma_injective(a: Self, b: Self) {
    }

    fn size() -> usize {
        2
    }

    fn signed() -> bool {
        false
    }

    fn val_type() -> ValType {
        ValType::U16
    }

    fn from_le_bytes(bytes: &[u8]) -> u16 {
        proof {
            lemma_decode_range(bytes@, false);
            lemma_pow256_values();
        }
        le_unsigned(bytes) as u16
    }

    fn from_sign_magnitude(neg: bool, mag: u128) -> Option<u16> {
        proof {
            lemma_pow256_values();
        }
        match unsigned_from_parts(neg, mag, 0xffff) {
            Some(v) => Some(v as u16),
            None => None,
        }
    }

    fn sign_magnitude(&self) -> (bool, u128) {
        (false, *self as u128)
    }

    fn less(&self, other: &u16) -> bool {
        *self < *other
    }

    fn equal(&self, other: &u16) -> bool {
        *self == *other
    }
}

impl FromLeBytes for i32 {
    open spec fn spec_size() -> nat {
        4
    }

    open spec fn spec_signed() -> bool {
        true
    }

    open spec fn spec_int(self) -> int {
        self as int
    }

    open spec fn spec_val_type() -> ValType {
        ValType::I32
    }

    proof fn lemma_size() {
    }

    proof fn lemma_injective(a: Self, b: Self) {
    }

    fn size() -> usize {
        4
    }

    fn signed() -> bool {
        true
    }

    fn val_type() -> ValType {
        ValType::I32
    }

    fn from_le_bytes(bytes: &[u8]) -> i32 {
        proof {
            lemma_decode_range(bytes@, true);
            lemma_pow256_values();
        }
        le_signed(bytes) as i32
    }

    fn from_sign_magnitude(neg: bool, mag: u128) -> Option<i32> {
        proof {
            lemma_pow256_values();
        }
        match signed_from_parts(neg, mag, 0x7fffffff) {
            Some(v) => Some(v as i32),
            None => None,
        }
    }

    fn sign_magnitude(&self) -> (bool, u128) {
        parts_of_signed(*self as i128)
    }

    fn less(&self, other: &i32) -> bool {
        *self < *other
    }

    fn equal(&self, other: &i32) -> bool {
        *self == *other
    }
}

impl FromLeBytes for u32 {
    open spec fn spec_size() -> nat {
        4
    }

    open spec fn spec_signed() -> bool {
        false
    }

    open spec fn spec_int(self) -> int {
        self as int
    }

    open spec fn spec_val_type() -> ValType {
        ValType::U32
    }

    proof fn lemma_size() {
    }

    proof fn lemma_injective(a: Self, b: Self) {
    }

    fn size() -> usize {
        4
    }

    fn signed() -> bool {
        false
    }

    fn val_type() -> ValType {
        ValType::U32
    }

    fn from_le_bytes(bytes: &[u8]) -> u32 {
        proof {
            lemma_decode_range(bytes@, false);
            lemma_pow256_values();
        }
        le_unsigned(bytes) as u32
    }

    fn from_sign_magnitude(neg: bool, mag: u128) -> Option<u32> {
        proof {
            lemma_pow256_values();
        }
        match unsigned_from_parts(neg, mag, 0xffffffff) {
            Some(v) => Some(v as u32),
            None => None,
        }
    }

    fn sign_magnitude(&self) -> (bool, u128) {
        (false, *self as u128)
    }

    fn less(&self, other: &u32) -> bool {
        *self < *other
    }

    fn equal(&self, other: &u32) -> bool {
        *self == *other
    }
}

impl FromLeBytes for i64 {
    open spec fn spec_size() -> nat {
        8
    }

    open spec fn spec_signed() -> bool {
        true
    }

    open spec fn spec_int(self) -> int {
        self as int
    }

    open spec fn spec_val_type() -> ValType {
        ValType::I64
    }

    proof fn lemma_size() {
    }

    proof fn lemma_injective(a: Self, b: Self) {
    }

    fn size() -> usize {
        8
    }

    fn signed() -> bool {
        true
    }

    fn val_type() -> ValType {
        ValType::I64
    }

    fn from_le_bytes(bytes: &[u8]) -> i64 {
        proof {
            lemma_decode_range(bytes@, true);
            lemma_pow256_values();
        }
        le_signed(bytes) as i64
    }

    fn from_sign_magnitude(neg: bool, mag: u128) -> Option<i64> {
        proof {
            lemma_pow256_values();
        }
        match signed_from_parts(neg, mag, 0x7fffffffffffffff) {
            Some(v) => Some(v as i64),
            None => None,
        }
    }

    fn sign_magnitude(&self) -> (bool, u128) {
        parts_of_signed(*self as i128)
    }

    fn less(&self, other: &i64) -> bool {
        *self < *other
    }

    fn equal(&self, other: &i64) -> bool {
        *self == *other
    }
}

impl FromLeBytes for u64 {
    open spec fn spec_size() -> nat {
        8
    }

    open spec fn spec_signed() -> bool {
        false
    }

    open spec fn spec_int(self) -> int {
        self as int
    }

    open spec fn spec_val_type() -> ValType {
        ValType::U64
    }

    proof fn lemma_size() {
    }

    proof fn lemma_injective(a: Self, b: Self) {
    }

    fn size() -> usize {
        8
    }

    fn signed() -> bool {
        false
    }

    fn val_type() -> ValType {
        ValType::U64
    }

    fn from_le_bytes(bytes: &[u8]) -> u64 {
        proof {
            lemma_decode_range(bytes@, false);
            lemma_pow256_values();
        }
        le_unsigned(bytes) as u64
    }

    fn from_sign_magnitude(neg: bool, mag: u128) -> Option<u64> {
        proof {
            lemma_pow256_values();
        }
        match unsigned_from_parts(neg, mag, 0xffffffffffffffff) {
            Some(v) => Some(v as u64),
            None => None,
        }
    }

    fn sign_magnitude(&self) -> (bool, u128) {
        (false, *self as u128)
    }

    fn less(&self, other: &u64) -> bool {
        *self < *other
    }

    fn equal(&self, other: &u64) -> bool {
        *self == *other
    }
}

impl FromLeBytes for i128 {
    open spec fn spec_size() -> nat {
        16
    }

    open spec fn spec_signed() -> bool {
        true
    }

    open spec fn spec_int(self) -> int {
        self as int
    }

    open spec fn spec_val_type() -> ValType {
        ValType::I128
    }

    proof fn lemma_size() {
    }

    proof fn lemma_injective(a: Self, b: Self) {
    }

    fn size() -> usize {
        16
    }

    fn signed() -> bool {
        true
    }

    fn val_type() -> ValType {
        ValType::I128
    }

    fn from_le_bytes(bytes: &[u8]) -> i128 {
        proof {
            lemma_decode_range(bytes@, true);
            lemma_pow256_values();
        }
        le_signed(bytes)
    }

    fn from_sign_magnitude(neg: bool, mag: u128) -> Option<i128> {
        proof {
            lemma_pow256_values();
        }
        if neg {
            if mag < 0x8000_0000_0000_0000_0000_0000_0000_0000 {
                Some(-(mag as i128))
            } else if mag == 0x8000_0000_0000_0000_0000_0000_0000_0000 {
                Some(i128::MIN)
            } else {
                None
            }
        } else if mag <= 0x7fff_ffff_ffff_ffff_ffff_ffff_ffff_ffff {
            Some(mag as i128)
        } else {
            None
        }
    }

    fn sign_magnitude(&self) -> (bool, u128) {
        parts_of_signed(*self)
    }

    fn less(&self, other: &i128) -> bool {
        *self < *other
    }

    fn equal(&self, other: &i128) -> bool {
        *self == *other
    }
}

impl FromLeBytes for u128 {
    open spec fn spec_size() -> nat {
        16
    }

    open spec fn spec_signed() -> bool {
        false
    }

    open spec fn spec_int(self) -> int {
        self as int
    }

    open spec fn spec_val_type() -> ValType {
        ValType::U128
    }

    proof fn lemma_size() {
    }

    proof fn lemma_injective(a: Self, b: Self) {
    }

    fn size() -> usize {
        16
    }

    fn signed() -> bool {
        false
    }

    fn val_type() -> ValType {
        ValType::U128
    }

    fn from_le_bytes(bytes: &[u8]) -> u128 {
        proof {
            lemma_decode_range(bytes@, false);
            lemma_pow256_values();
        }
        le_unsigned(bytes)
    }

    fn from_sign_magnitude(neg: bool, mag: u128) -> Option<u128> {
        proof {
            lemma_pow256_values();
        }
        unsigned_from_parts(neg, mag, u128::MAX)
    }

    fn sign_magnitude(&self) -> (bool, u128) {
        (false, *self)
    }

    fn less(&self, other: &u128) -> bool {
        *self < *other
    }

    fn equal(&self, other: &u128) -> bool {
        *self == *other
    }
}

/// Access to the memory of a target: reads and writes of raw bytes at
/// absolute addresses.
pub trait MemoryReader: Clone {
    /// Reads `len` bytes at `addr`. A read that fails hands back bytes of
    /// no particular value, possibly fewer than asked for.
    fn read_bytes(&mut self, addr: usize, len: usize) -> Vec<u8>;

    /// Writes `bytes` at `addr`.
    fn write_bytes(&mut self, addr: usize, bytes: &[u8]) -> Result<(), ScanError>;
}

/// The value a read of `T` yields from the bytes that came back: their
/// little-endian value when there are `size` of them, else zero.
pub open spec fn read_result<T: FromLeBytes>(bytes: Seq<u8>) -> int {
    if bytes.len() == T::spec_size() {
        decode(bytes, T::spec_signed())
    } else {
        0
    }
}

proof fn lemma_le_nat_zeros(s: Seq<u8>)
    requires
        forall|i: int| 0 <= i < s.len() ==> s[i] == 0,
    ensures
        le_nat(s) == 0,
    decreases s.len(),
{
    if s.len() > 0 {
        lemma_le_nat_zeros(s.subrange(1, s.len() as int));
    }
}

/// Decodes the bytes that a read of `T` handed back; a short or long read
/// counts as zero.
pub fn value_from_read<T: FromLeBytes>(bytes: &Vec<u8>) -> (r: T)
    ensures
        r.spec_int() == read_result::<T>(bytes@),
{
    let size = T::size();
    if bytes.len() == size {
        T::from_le_bytes(bytes.as_slice())
    } else {
        let zeros: Vec<u8> = vec![0u8; size];
        proof {
            lemma_le_nat_zeros(zeros@);
            lemma_pow256_positive(zeros@.len());
            T::lemma_size();
            lemma_pow256_values();
            lemma_pow256_monotone(1, zeros@.len());
        }
        T::from_le_bytes(zeros.as_slice())
    }
}

/// Reads a value of `T` at `addr`: asks the reader for `T::size()` bytes
/// there and decodes what comes back, zero when the read falls short.
pub fn read_value<T: FromLeBytes, R: MemoryReader>(reader: &mut R, addr: usize) -> (r: T)
    ensures
        exists|bytes: Seq<u8>| r.spec_int() == #[trigger] read_result::<T>(bytes),
{
    let bytes = reader.read_bytes(addr, T::size());
    value_from_read(&bytes)
}

pub proof fn lemma_le_nat_push(s: Seq<u8>, b: u8)
    ensures
        le_nat(s.push(b)) == le_nat(s) + b * pow256(s.len()),
    decreases s.len(),
{
    if s.len() == 0 {
        assert(s.push(b).subrange(1, 1) =~= Seq::<u8>::empty());
        assert(le_nat(Seq::<u8>::empty()) == 0);
        assert(pow256(0) == 1);
    } else {
        let rest = s.subrange(1, s.len() as int);
        lemma_le_nat_push(rest, b);
        assert(s.push(b).subrange(1, s.len() + 1 as int) =~= rest.push(b));
        assert(s.push(b)[0] == s[0]);
        assert(pow256(s.len()) == 256 * pow256(rest.len()));
        assert(256 * (le_nat(rest) + b * pow256(rest.len())) == 256 * le_nat(rest) + b * (256
            * pow256(rest.len()))) by (nonlinear_arith);
    }
}

pub proof fn lemma_pow256_add(a: nat, b: nat)
    ensures
        pow256(a + b) == pow256(a) * pow256(b),
    decreases a,
{
    if a > 0 {
        lemma_pow256_add((a - 1) as nat, b);
        let a1 = (a - 1) as nat;
        assert(a1 + b == (a + b - 1) as nat);
        assert(pow256(a + b) == 256 * pow256(a1 + b));
        assert(pow256(a) == 256 * pow256(a1));
        assert(256 * (pow256((a - 1) as nat) * pow256(b)) == (256 * pow256((a - 1) as nat))
            * pow256(b)) by (nonlinear_arith);
    } else {
        assert(pow256(0) == 1);
        assert(a + b == b);
    }
}

/// Little-endian bytes of `v` narrowed or sign-extended to `size` bytes:
/// the unsigned value of the result is `v` modulo `256^size`.
pub fn encode_i32(v: i32, size: usize) -> (r: Vec<u8>)
    requires
        1 <= size <= 16,
    ensures
        r@.len() == size,
        le_nat(r@) == v as int % pow256(size as nat) as int,
{
    let w: u128 = if v >= 0 {
        v as u128
    } else {
        u128::MAX - ((-(v as i128)) as u128 - 1)
    };
    proof {
        lemma_pow256_values();
        assert(w == v + (if v < 0 { pow256(16) as int } else { 0 }));
    }
    let mut x: u128 = w;
    let mut out: Vec<u8> = Vec::new();
    let mut k: usize = 0;
    assert(le_nat(out@) == 0);
    assert(w as nat % 1 == 0 && w as nat / 1 == w);
    while k < size
        invariant
            k <= size <= 16,
            out@.len() == k,
            pow256(k as nat) > 0,
            x == w as nat / pow256(k as nat),
            le_nat(out@) == w as nat % pow256(k as nat),
        decreases size - k,
    {
        let byte = (x % 256) as u8;
        proof {
            lemma_le_nat_push(out@, byte);
            lemma_mod_breakdown(w as int, pow256(k as nat) as int, 256);
            lemma_div_denominator(w as int, pow256(k as nat) as int, 256);
            assert(pow256((k + 1) as nat) == pow256(k as nat) * 256);
            assert(byte * pow256(k as nat) == pow256(k as nat) * byte) by (nonlinear_arith);
        }
        out.push(byte);
        x = x / 256;
        k = k + 1;
    }
    proof {
        let m = pow256(size as nat) as int;
        lemma_pow256_add(size as nat, (16 - size) as nat);
        lemma_pow256_positive((16 - size) as nat);
        if v < 0 {
            lemma_mod_multiples_vanish(pow256((16 - size) as nat) as int, v as int, m);
        }
    }
    out
}

} // verus!
