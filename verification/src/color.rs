//! Color tags held as four channel bytes, and their packed storage form.

use vstd::prelude::*;

verus! {

/// A color tag: red, green, blue and alpha channel bytes.
#[derive(Clone, Copy, PartialEq, Eq, Structural, Debug)]
pub struct Rgba {
    pub r: u8,
    pub g: u8,
    pub b: u8,
    pub a: u8,
}

/// The packed storage form of a color: the alpha byte highest, then
/// blue, green and red, as in `(a << 24) | (b << 16) | (g << 8) | r`.
pub open spec fn packed_of(c: Rgba) -> int {
    c.a * 0x100_0000 + c.b * 0x1_0000 + c.g * 0x100 + c.r
}

/// The channels a packed value holds: red lowest, alpha highest.
pub open spec fn unpacked_of(v: int) -> Rgba {
    Rgba {
        r: (v % 0x100) as u8,
        g: ((v / 0x100) % 0x100) as u8,
        b: ((v / 0x1_0000) % 0x100) as u8,
        a: ((v / 0x100_0000) % 0x100) as u8,
    }
}

/// Packing then unpacking gives the channels back.
pub proof fn lemma_unpack_pack(c: Rgba)
    ensures
        unpacked_of(packed_of(c)) == c,
{
    let v = packed_of(c);
    assert(v % 0x100 == c.r as int) by (nonlinear_arith)
        requires
            v == c.a * 0x100_0000 + c.b * 0x1_0000 + c.g * 0x100 + c.r,
            c.r < 0x100,
    ;
    assert((v / 0x100) % 0x100 == c.g as int) by (nonlinear_arith)
        requires
            v == c.a * 0x100_0000 + c.b * 0x1_0000 + c.g * 0x100 + c.r,
            c.r < 0x100 && c.g < 0x100,
    ;
    assert((v / 0x1_0000) % 0x100 == c.b as int) by (nonlinear_arith)
        requires
            v == c.a * 0x100_0000 + c.b * 0x1_0000 + c.g * 0x100 + c.r,
            c.r < 0x100 && c.g < 0x100 && c.b < 0x100,
    ;
    assert((v / 0x100_0000) % 0x100 == c.a as int) by (nonlinear_arith)
        requires
            v == c.a * 0x100_0000 + c.b * 0x1_0000 + c.g * 0x100 + c.r,
            c.r < 0x100 && c.g < 0x100 && c.b < 0x100 && c.a < 0x100,
    ;
}

/// Unpacking then packing gives the packed value back, for any value a
/// `u32` can hold.
pub proof fn lemma_pack_unpack(v: int)
    requires
        0 <= v < 0x1_0000_0000,
    ensures
        packed_of(unpacked_of(v)) == v,
{
    assert((v / 0x100_0000) % 0x100 * 0x100_0000 + (v / 0x1_0000) % 0x100 * 0x1_0000 + (v
        / 0x100) % 0x100 * 0x100 + v % 0x100 == v) by (nonlinear_arith)
        requires
            0 <= v < 0x1_0000_0000,
    ;
}

/// The packed form of a color, as the storage file carries it.
pub fn pack_color(c: &Rgba) -> (v: u32)
    ensures
        v as int == packed_of(*c),
{
    (c.a as u32) * 0x100_0000 + (c.b as u32) * 0x1_0000 + (c.g as u32) * 0x100 + (c.r as u32)
}

/// The channels of a packed value read from the storage file.
pub fn unpack_color(v: u32) -> (c: Rgba)
    ensures
        c == unpacked_of(v as int),
{
    Rgba {
        r: (v % 0x100) as u8,
        g: ((v / 0x100) % 0x100) as u8,
        b: ((v / 0x1_0000) % 0x100) as u8,
        a: ((v / 0x100_0000) % 0x100) as u8,
    }
}

} // verus!
