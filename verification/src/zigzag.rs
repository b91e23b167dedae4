//! The zigzag bijection between signed and unsigned integers: small
//! magnitudes, of either sign, become small unsigned values, so they encode
//! in few wire bytes.  `zz(x) = 2x` for `x >= 0` and `-2x - 1` for `x < 0`.

use vstd::prelude::*;

verus! {

pub open spec fn zigzag_of_i8(x: i8) -> u8 {
    if x >= 0 {
        (2 * x) as u8
    } else {
        (-2 * x - 1) as u8
    }
}

pub open spec fn unzigzag_of_u8(u: u8) -> i8 {
    if u % 2 == 0 {
        (u / 2) as i8
    } else {
        (-(u / 2) - 1) as i8
    }
}

pub open spec fn zigzag_of_i16(x: i16) -> u16 {
    if x >= 0 {
        (2 * x) as u16
    } else {
        (-2 * x - 1) as u16
    }
}

pub open spec fn unzigzag_of_u16(u: u16) -> i16 {
    if u % 2 == 0 {
        (u / 2) as i16
    } else {
        (-(u / 2) - 1) as i16
    }
}

pub open spec fn zigzag_of_i32(x: i32) -> u32 {
    if x >= 0 {
        (2 * x) as u32
    } else {
        (-2 * x - 1) as u32
    }
}

pub open spec fn unzigzag_of_u32(u: u32) -> i32 {
    if u % 2 == 0 {
        (u / 2) as i32
    } else {
        (-(u / 2) - 1) as i32
    }
}

pub open spec fn zigzag_of_i64(x: i64) -> u64 {
    if x >= 0 {
        (2 * x) as u64
    } else {
        (-2 * x - 1) as u64
    }
}

pub open spec fn unzigzag_of_u64(u: u64) -> i64 {
    if u % 2 == 0 {
        (u / 2) as i64
    } else {
        (-(u / 2) - 1) as i64
    }
}

pub open spec fn zigzag_of_i128(x: i128) -> u128 {
    if x >= 0 {
        (2 * x) as u128
    } else {
        (-2 * x - 1) as u128
    }
}

pub open spec fn unzigzag_of_u128(u: u128) -> i128 {
    if u % 2 == 0 {
        (u / 2) as i128
    } else {
        (-(u / 2) - 1) as i128
    }
}

pub fn zigzag_i8(x: i8) -> (u: u8)
    ensures
        u == zigzag_of_i8(x),
{
    if x >= 0 {
        (x as u8) * 2
    } else {
        (-(x + 1)) as u8 * 2 + 1
    }
}

pub fn unzigzag_i8(u: u8) -> (x: i8)
    ensures
        x == unzigzag_of_u8(u),
{
    if u % 2 == 0 {
        (u / 2) as i8
    } else {
        -((u / 2) as i8) - 1
    }
}

pub fn zigzag_i16(x: i16) -> (u: u16)
    ensures
        u == zigzag_of_i16(x),
{
    if x >= 0 {
        (x as u16) * 2
    } else {
        (-(x + 1)) as u16 * 2 + 1
    }
}

pub fn unzigzag_i16(u: u16) -> (x: i16)
    ensures
        x == unzigzag_of_u16(u),
{
    if u % 2 == 0 {
        (u / 2) as i16
    } else {
        -((u / 2) as i16) - 1
    }
}

pub fn zigzag_i32(x: i32) -> (u: u32)
    ensures
        u == zigzag_of_i32(x),
{
    if x >= 0 {
        (x as u32) * 2
    } else {
        (-(x + 1)) as u32 * 2 + 1
    }
}

pub fn unzigzag_i32(u: u32) -> (x: i32)
    ensures
        x == unzigzag_of_u32(u),
{
    if u % 2 == 0 {
        (u / 2) as i32
    } else {
        -((u / 2) as i32) - 1
    }
}

pub fn zigzag_i64(x: i64) -> (u: u64)
    ensures
        u == zigzag_of_i64(x),
{
    if x >= 0 {
        (x as u64) * 2
    } else {
        (-(x + 1)) as u64 * 2 + 1
    }
}

pub fn unzigzag_i64(u: u64) -> (x: i64)
    ensures
        x == unzigzag_of_u64(u),
{
    if u % 2 == 0 {
        (u / 2) as i64
    } else {
        -((u / 2) as i64) - 1
    }
}

pub fn zigzag_i128(x: i128) -> (u: u128)
    ensures
        u == zigzag_of_i128(x),
{
    if x >= 0 {
        (x as u128) * 2
    } else {
        (-(x + 1)) as u128 * 2 + 1
    }
}

pub fn unzigzag_i128(u: u128) -> (x: i128)
    ensures
        x == unzigzag_of_u128(u),
{
    if u % 2 == 0 {
        (u / 2) as i128
    } else {
        -((u / 2) as i128) - 1
    }
}

/// Zigzag is undone exactly by its inverse, at every width.
pub proof fn lemma_zigzag_round_trip()
    ensures
        forall|x: i8| #[trigger] unzigzag_of_u8(zigzag_of_i8(x)) == x,
        forall|x: i16| #[trigger] unzigzag_of_u16(zigzag_of_i16(x)) == x,
        forall|x: i32| #[trigger] unzigzag_of_u32(zigzag_of_i32(x)) == x,
        forall|x: i64| #[trigger] unzigzag_of_u64(zigzag_of_i64(x)) == x,
        forall|x: i128| #[trigger] unzigzag_of_u128(zigzag_of_i128(x)) == x,
{
}

} // verus!
