//! Geometric primitives: points and directed line segments.
//!
//! A stored coordinate is the IEEE-754 binary32 bit pattern of the
//! coordinate value, kept as a `u32` so that a grid read from a stream
//! survives re-encoding bit for bit.  The outline extractor computes
//! coordinates as exact integer pixel positions (`PxPoint`, `PxLine`)
//! and converts them to their stored form at the end.

use vstd::arithmetic::power2::{
    lemma2_to64, lemma_pow2_adds, lemma_pow2_pos, lemma_pow2_unfold, pow2,
};
use vstd::prelude::*;

verus! {

/// A point of a traced outline, in cell-local pixel units, y axis
/// pointing down.  Each field holds the IEEE-754 binary32 bit pattern
/// of the coordinate.
#[derive(Clone, Copy, PartialEq, Eq, Structural, Debug)]
pub struct Point {
    pub x: u32,
    pub y: u32,
}

/// A directed segment of a traced outline.  The direction records the
/// traversal order of the trace and is preserved end to end.
#[derive(Clone, Copy, PartialEq, Eq, Structural, Debug)]
pub struct Line {
    pub start: Point,
    pub end: Point,
}

/// A point with exact integer pixel coordinates, as the outline
/// extractor computes it before storage.
#[derive(Clone, Copy, PartialEq, Eq, Structural, Debug)]
pub struct PxPoint {
    pub x: u32,
    pub y: u32,
}

/// A directed segment with exact integer pixel coordinates.
#[derive(Clone, Copy, PartialEq, Eq, Structural, Debug)]
pub struct PxLine {
    pub start: PxPoint,
    pub end: PxPoint,
}

/// Position of the highest set bit of `v`: the floor of the base-2
/// logarithm for `v >= 1`.
pub open spec fn msb(v: nat) -> nat
    decreases v,
{
    if v < 2 {
        0
    } else {
        1 + msb((v / 2) as nat)
    }
}

/// The IEEE-754 binary32 bit pattern of the non-negative integer `v`,
/// rounded to nearest, ties to even: the value a conversion of `v` to a
/// 32-bit float yields on the renderer's side.
pub open spec fn f32_bits_of(v: nat) -> nat {
    if v == 0 {
        0
    } else {
        let e = msb(v);
        if e <= 23 {
            ((e + 127) * 0x800000 + (v * pow2((23 - e) as nat) - 0x800000)) as nat
        } else {
            let s = (e - 23) as nat;
            let q = v / pow2(s);
            let r = v % pow2(s);
            let h = pow2((s - 1) as nat);
            let q2 = if r > h || (r == h && q % 2 == 1) {
                q + 1
            } else {
                q
            };
            if q2 == 0x1000000 {
                (e + 128) * 0x800000
            } else {
                ((e + 127) * 0x800000 + (q2 - 0x800000)) as nat
            }
        }
    }
}

proof fn lemma_msb_range(v: nat, e: nat)
    requires
        pow2(e) <= v < pow2(e + 1),
    ensures
        msb(v) == e,
    decreases e,
{
    lemma_pow2_unfold(e + 1);
    if e == 0 {
        assert(pow2(0) == 1) by { lemma2_to64(); };
    } else {
        lemma_pow2_unfold(e);
        assert(pow2((e - 1) as nat) <= v / 2 < pow2(e)) by {
            assert(2 * pow2((e - 1) as nat) <= v < 2 * pow2(e));
            assert(pow2((e - 1) as nat) <= v / 2 < pow2(e)) by (nonlinear_arith)
                requires
                    2 * pow2((e - 1) as nat) <= v < 2 * pow2(e),
            ;
        };
        lemma_msb_range((v / 2) as nat, (e - 1) as nat);
        assert(v >= 2) by { lemma_pow2_pos((e - 1) as nat); };
    }
}

/// The stored form of the integer pixel coordinate `v`.
pub fn f32_bits(v: u32) -> (r: u32)
    ensures
        r == f32_bits_of(v as nat),
{
    if v == 0 {
        return 0;
    }
    let mut e: u32 = 0;
    let mut p: u64 = 1;
    proof {
        assert(pow2(0) == 1) by { lemma2_to64(); };
    }
    while 2 * p <= v as u64
        invariant
            1 <= v,
            1 <= p,
            p == pow2(e as nat),
            p <= v as u64,
            e <= 31,
        decreases v as u64 - p,
    {
        proof {
            lemma_pow2_unfold((e + 1) as nat);
            if e + 1 > 31 {
                assert(pow2(32) == 0x100000000) by { lemma2_to64(); };
                assert(false);
            }
        }
        p = 2 * p;
        e = e + 1;
    }
    proof {
        lemma_pow2_unfold((e + 1) as nat);
        lemma_msb_range(v as nat, e as nat);
    }
    if e <= 23 {
        let factor: u64 = 0x800000 / p;
        proof {
            lemma_pow2_adds((e) as nat, (23 - e) as nat);
            assert(pow2(23) == 0x800000) by { lemma2_to64(); };
            assert(factor == pow2((23 - e) as nat)) by (nonlinear_arith)
                requires
                    p == pow2(e as nat),
                    pow2(e as nat) * pow2((23 - e) as nat) == 0x800000,
                    pow2(e as nat) > 0,
                    factor == 0x800000 as u64 / p,
                    p > 0,
            ;
            lemma_pow2_pos((23 - e) as nat);
            assert((v as u64) * factor < 0x1000000 && 0x800000 <= (v as u64) * factor)
                by (nonlinear_arith)
                requires
                    factor == pow2((23 - e) as nat),
                    pow2(e as nat) <= v as u64,
                    (v as u64) < 2 * pow2(e as nat),
                    pow2(e as nat) * pow2((23 - e) as nat) == 0x800000,
                    pow2((23 - e) as nat) > 0,
            ;
        }
        let m: u64 = (v as u64) * factor;
        ((e as u64 + 127) * 0x800000 + (m - 0x800000)) as u32
    } else {
        let ps: u64 = p / 0x800000;
        proof {
            lemma_pow2_adds(((e - 23)) as nat, 23);
            assert(pow2(23) == 0x800000) by { lemma2_to64(); };
            assert(ps == pow2((e - 23) as nat)) by (nonlinear_arith)
                requires
                    p == pow2(e as nat),
                    pow2((e - 23) as nat) * 0x800000 == pow2(e as nat),
                    ps == p / (0x800000 as u64),
            ;
            lemma_pow2_unfold((e - 23) as nat);
            lemma_pow2_pos(((e - 23) - 1) as nat);
        }
        let q: u64 = (v as u64) / ps;
        let r: u64 = (v as u64) % ps;
        let h: u64 = ps / 2;
        proof {
            assert(h == pow2(((e - 23) - 1) as nat)) by (nonlinear_arith)
                requires
                    ps == 2 * pow2(((e - 23) - 1) as nat),
                    h == ps / 2,
            ;
            assert(0x800000 <= q < 0x1000000) by (nonlinear_arith)
                requires
                    q == (v as u64) / ps,
                    pow2(e as nat) <= v as u64,
                    (v as u64) < 2 * pow2(e as nat),
                    ps * 0x800000 == pow2(e as nat),
                    ps > 0,
            ;
        }
        let q2: u64 = if r > h || (r == h && q % 2 == 1) {
            q + 1
        } else {
            q
        };
        if q2 == 0x1000000 {
            ((e as u64 + 128) * 0x800000) as u32
        } else {
            ((e as u64 + 127) * 0x800000 + (q2 - 0x800000)) as u32
        }
    }
}

/// The stored form of the exact pixel point `p`.
pub open spec fn point_bits_of(p: PxPoint) -> Point {
    Point { x: f32_bits_of(p.x as nat) as u32, y: f32_bits_of(p.y as nat) as u32 }
}

/// The stored form of the exact pixel segment `l`.
pub open spec fn line_bits_of(l: PxLine) -> Line {
    Line { start: point_bits_of(l.start), end: point_bits_of(l.end) }
}

impl Point {
    /// Converts an exact pixel point into its stored form.
    pub fn from_px(p: PxPoint) -> (r: Point)
        ensures
            r == point_bits_of(p),
    {
        Point { x: f32_bits(p.x), y: f32_bits(p.y) }
    }
}

impl Line {
    /// Converts an exact pixel segment into its stored form.
    pub fn from_px(l: PxLine) -> (r: Line)
        ensures
            r == line_bits_of(l),
    {
        Line { start: Point::from_px(l.start), end: Point::from_px(l.end) }
    }
}

} // verus!
