//! Serial number arithmetic (RFC 1982) for sequence numbers that wrap.
//!
//! Transmission sequence numbers are 32 bits wide and stream sequence numbers
//! 16 bits wide. Both wrap around, so "earlier" and "later" are decided by the
//! distance between two numbers on the circle, never by integer comparison.

use vstd::prelude::*;

verus! {

/// Half of the 32-bit sequence space.
pub const HALF_32: u32 = 0x8000_0000;

/// Half of the 16-bit sequence space.
pub const HALF_16: u16 = 0x8000;

/// The number of steps forward on the 32-bit circle that lead from `from` to `to`.
pub open spec fn dist32(from: u32, to: u32) -> int {
    if to >= from {
        to - from
    } else {
        to - from + 0x1_0000_0000
    }
}

/// The number of steps forward on the 16-bit circle that lead from `from` to `to`.
pub open spec fn dist16(from: u16, to: u16) -> int {
    if to >= from {
        to - from
    } else {
        to - from + 0x1_0000
    }
}

/// The sequence number `n` steps after `base` on the 32-bit circle.
pub open spec fn add32(base: u32, n: int) -> u32 {
    ((base + n) % 0x1_0000_0000) as u32
}

/// The sequence number `n` steps after `base` on the 16-bit circle.
pub open spec fn add16(base: u16, n: int) -> u16 {
    ((base + n) % 0x1_0000) as u16
}

/// `a` precedes `b`: `b` is reached from `a` in fewer than 2^31 steps, and at least one.
pub open spec fn lt32(a: u32, b: u32) -> bool {
    0 < dist32(a, b) < 0x8000_0000
}

/// `a` precedes or equals `b`.
pub open spec fn lte32(a: u32, b: u32) -> bool {
    a == b || lt32(a, b)
}

/// `a` follows `b`: `a` is reached from `b` in at most 2^31 steps, and at least one.
pub open spec fn gt32(a: u32, b: u32) -> bool {
    0 < dist32(b, a) <= 0x8000_0000
}

/// `a` follows or equals `b`.
pub open spec fn gte32(a: u32, b: u32) -> bool {
    a == b || gt32(a, b)
}

/// `a` precedes `b` on the 16-bit circle.
pub open spec fn lt16(a: u16, b: u16) -> bool {
    0 < dist16(a, b) < 0x8000
}

/// `a` precedes or equals `b` on the 16-bit circle.
pub open spec fn lte16(a: u16, b: u16) -> bool {
    a == b || lt16(a, b)
}

/// `a` follows `b` on the 16-bit circle.
pub open spec fn gt16(a: u16, b: u16) -> bool {
    0 < dist16(b, a) <= 0x8000
}

/// `a` follows or equals `b` on the 16-bit circle.
pub open spec fn gte16(a: u16, b: u16) -> bool {
    a == b || gt16(a, b)
}

/// Whether `i1` precedes `i2` in 32-bit serial number order.
pub fn sna32lt(i1: u32, i2: u32) -> (r: bool)
    ensures
        r == lt32(i1, i2),
{
    (i1 < i2 && i2 - i1 < HALF_32) || (i1 > i2 && i1 - i2 > HALF_32)
}

/// Whether `i1` precedes or equals `i2` in 32-bit serial number order.
pub fn sna32lte(i1: u32, i2: u32) -> (r: bool)
    ensures
        r == lte32(i1, i2),
{
    i1 == i2 || sna32lt(i1, i2)
}

/// Whether `i1` follows `i2` in 32-bit serial number order.
pub fn sna32gt(i1: u32, i2: u32) -> (r: bool)
    ensures
        r == gt32(i1, i2),
{
    (i1 < i2 && i2 - i1 >= HALF_32) || (i1 > i2 && i1 - i2 <= HALF_32)
}

/// Whether `i1` follows or equals `i2` in 32-bit serial number order.
pub fn sna32gte(i1: u32, i2: u32) -> (r: bool)
    ensures
        r == gte32(i1, i2),
{
    i1 == i2 || sna32gt(i1, i2)
}

/// Whether two 32-bit serial numbers are the same.
pub fn sna32eq(i1: u32, i2: u32) -> (r: bool)
    ensures
        r == (i1 == i2),
{
    i1 == i2
}

/// Whether `i1` precedes `i2` in 16-bit serial number order.
pub fn sna16lt(i1: u16, i2: u16) -> (r: bool)
    ensures
        r == lt16(i1, i2),
{
    (i1 < i2 && i2 - i1 < HALF_16) || (i1 > i2 && i1 - i2 > HALF_16)
}

/// Whether `i1` precedes or equals `i2` in 16-bit serial number order.
pub fn sna16lte(i1: u16, i2: u16) -> (r: bool)
    ensures
        r == lte16(i1, i2),
{
    i1 == i2 || sna16lt(i1, i2)
}

/// Whether `i1` follows `i2` in 16-bit serial number order.
pub fn sna16gt(i1: u16, i2: u16) -> (r: bool)
    ensures
        r == gt16(i1, i2),
{
    (i1 < i2 && i2 - i1 >= HALF_16) || (i1 > i2 && i1 - i2 <= HALF_16)
}

/// Whether `i1` follows or equals `i2` in 16-bit serial number order.
pub fn sna16gte(i1: u16, i2: u16) -> (r: bool)
    ensures
        r == gte16(i1, i2),
{
    i1 == i2 || sna16gt(i1, i2)
}

/// Whether two 16-bit serial numbers are the same.
pub fn sna16eq(i1: u16, i2: u16) -> (r: bool)
    ensures
        r == (i1 == i2),
{
    i1 == i2
}

/// The forward distance from `from` to `to`, as a machine integer.
pub fn distance32(from: u32, to: u32) -> (d: u32)
    ensures
        d == dist32(from, to),
        to == add32(from, d as int),
{
    to.wrapping_sub(from)
}

/// The sequence number `n` steps after `base`.
pub fn advance32(base: u32, n: u32) -> (r: u32)
    ensures
        r == add32(base, n as int),
        dist32(base, r) == n,
{
    base.wrapping_add(n)
}

/// The stream sequence number one step after `ssn`.
pub fn next16(ssn: u16) -> (r: u16)
    ensures
        r == add16(ssn, 1),
{
    ssn.wrapping_add(1)
}

/// No number precedes itself, and of two numbers at most one precedes the other.
pub proof fn lemma_lt32_strict(a: u32, b: u32)
    ensures
        !lt32(a, a),
        lt32(a, b) ==> !lt32(b, a),
        lt32(a, b) ==> gt32(b, a),
{
}

/// Walking forward fewer than 2^31 steps, and at least one, leads to a later number.
pub proof fn lemma_add32_later(base: u32, n: int)
    requires
        0 < n < 0x8000_0000,
    ensures
        lt32(base, add32(base, n)),
        dist32(base, add32(base, n)) == n,
{
}

/// Stepping forward step by step is the same as stepping forward at once.
pub proof fn lemma_add32_add(base: u32, n: int, m: int)
    requires
        0 <= n,
        0 <= m,
    ensures
        add32(add32(base, n), m) == add32(base, n + m),
{
    let w: int = 0x1_0000_0000;
    let x: int = base + n;
    assert((x % w + m) % w == (x + m) % w) by {
        vstd::arithmetic::div_mod::lemma_add_mod_noop(x, m, w);
        vstd::arithmetic::div_mod::lemma_add_mod_noop(x % w, m, w);
        vstd::arithmetic::div_mod::lemma_mod_twice(x, w);
    }
}

/// Stepping forward step by step on the 16-bit circle is the same as stepping forward at once.
pub proof fn lemma_add16_add(base: u16, n: int, m: int)
    requires
        0 <= n,
        0 <= m,
    ensures
        add16(add16(base, n), m) == add16(base, n + m),
{
    let w: int = 0x1_0000;
    let x: int = base + n;
    assert((x % w + m) % w == (x + m) % w) by {
        vstd::arithmetic::div_mod::lemma_add_mod_noop(x, m, w);
        vstd::arithmetic::div_mod::lemma_add_mod_noop(x % w, m, w);
        vstd::arithmetic::div_mod::lemma_mod_twice(x, w);
    }
}

/// Two numbers reached from one base in fewer than 2^32 steps each are equal only if the step counts are.
pub proof fn lemma_add32_injective(base: u32, n: int, m: int)
    requires
        0 <= n < 0x1_0000_0000,
        0 <= m < 0x1_0000_0000,
        add32(base, n) == add32(base, m),
    ensures
        n == m,
{
}

} // verus!
