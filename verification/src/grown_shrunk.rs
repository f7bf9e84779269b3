use vstd::prelude::*;

verus! {

/// An integer type, paired with the type of half its width.
pub trait DoubleWidth {
    type HalfWidth: HalfWidth;
}

/// An integer type, paired with the type of twice its width (which is `DoubleWidth`, paired
/// back with this one).
pub trait HalfWidth {
    type DoubleWidth;
}

impl DoubleWidth for u16 {
    type HalfWidth = u8;
}

impl HalfWidth for u8 {
    type DoubleWidth = u16;
}

impl DoubleWidth for u32 {
    type HalfWidth = u16;
}

impl HalfWidth for u16 {
    type DoubleWidth = u32;
}

impl DoubleWidth for u64 {
    type HalfWidth = u32;
}

impl HalfWidth for u32 {
    type DoubleWidth = u64;
}

impl DoubleWidth for u128 {
    type HalfWidth = u64;
}

impl HalfWidth for u64 {
    type DoubleWidth = u128;
}

impl DoubleWidth for i16 {
    type HalfWidth = i8;
}

impl HalfWidth for i8 {
    type DoubleWidth = i16;
}

impl DoubleWidth for i32 {
    type HalfWidth = i16;
}

impl HalfWidth for i16 {
    type DoubleWidth = i32;
}

impl DoubleWidth for i64 {
    type HalfWidth = i32;
}

impl HalfWidth for i32 {
    type DoubleWidth = i64;
}

impl DoubleWidth for i128 {
    type HalfWidth = i64;
}

impl HalfWidth for i64 {
    type DoubleWidth = i128;
}

} // verus!
