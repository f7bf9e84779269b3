use vstd::prelude::*;

verus! {

/// A signed integer type, paired with the unsigned type of its width (which is `Unsigned`,
/// paired back with this one).
pub trait Signed {
    type Unsigned;
}

/// An unsigned integer type, paired with the signed type of its width.
pub trait Unsigned {
    type Signed: Signed;
}

impl Signed for i8 {
    type Unsigned = u8;
}

impl Unsigned for u8 {
    type Signed = i8;
}

impl Signed for i16 {
    type Unsigned = u16;
}

impl Unsigned for u16 {
    type Signed = i16;
}

impl Signed for i32 {
    type Unsigned = u32;
}

impl Unsigned for u32 {
    type Signed = i32;
}

impl Signed for i64 {
    type Unsigned = u64;
}

impl Unsigned for u64 {
    type Signed = i64;
}

impl Signed for isize {
    type Unsigned = usize;
}

impl Unsigned for usize {
    type Signed = isize;
}

impl Signed for i128 {
    type Unsigned = u128;
}

impl Unsigned for u128 {
    type Signed = i128;
}

} // verus!
