//! Element types and the safe-cast rules.
//!
//! A host number is either an integer or a floating-point value; the latter
//! is carried as its IEEE 754 binary64 bit pattern, so that the exactness
//! checks below are plain integer arithmetic. A safe cast never loses
//! precision and never overflows: an integer moves to a narrower integer
//! type only when it is in range, an integer becomes a float only when the
//! float denotes it exactly, and a float becomes an integer only when it
//! denotes an integer in range.

use vstd::arithmetic::div_mod::lemma_fundamental_div_mod;
use vstd::arithmetic::power2::{
    lemma2_to64, lemma2_to64_rest, lemma_pow2_adds, lemma_pow2_pos,
    lemma_pow2_strictly_increases, pow2,
};
use vstd::prelude::*;

verus! {

/// The numeric element types an extraction can target.
#[derive(Clone, Copy, Debug, PartialEq, Eq, Structural)]
pub enum ElemType {
    I32,
    I64,
    U32,
    U64,
    Usize,
    F64,
}

/// A host numeric value: an integer, or a floating-point number carried as
/// its IEEE 754 binary64 bit pattern.
#[derive(Clone, Copy, Debug, PartialEq, Eq, Structural)]
pub enum Num {
    Int(i128),
    Float(u64),
}

pub open spec fn is_int_type(t: ElemType) -> bool {
    !(t is F64)
}

/// Smallest integer an integer element type can hold.
pub open spec fn int_min(t: ElemType) -> int {
    match t {
        ElemType::I32 => i32::MIN as int,
        ElemType::I64 => i64::MIN as int,
        ElemType::U32 => 0,
        ElemType::U64 => 0,
        ElemType::Usize => 0,
        ElemType::F64 => 0,
    }
}

/// Largest integer an integer element type can hold.
pub open spec fn int_max(t: ElemType) -> int {
    match t {
        ElemType::I32 => i32::MAX as int,
        ElemType::I64 => i64::MAX as int,
        ElemType::U32 => u32::MAX as int,
        ElemType::U64 => u64::MAX as int,
        ElemType::Usize => usize::MAX as int,
        ElemType::F64 => 0,
    }
}

/// Whether a stored value is well typed for element type `t`.
pub open spec fn elem_fits(t: ElemType, n: Num) -> bool {
    match n {
        Num::Int(i) => is_int_type(t) && int_min(t) <= i as int && i as int <= int_max(t),
        Num::Float(_) => t is F64,
    }
}

pub open spec fn f64_exp_field(b: u64) -> int {
    (b as int / 0x10_0000_0000_0000) % 0x800
}

pub open spec fn f64_frac_field(b: u64) -> int {
    b as int % 0x10_0000_0000_0000
}

pub open spec fn f64_is_neg(b: u64) -> bool {
    b as int / 0x8000_0000_0000_0000 == 1
}

pub open spec fn with_sign(neg: bool, mag: int) -> int {
    if neg {
        -mag
    } else {
        mag
    }
}

/// The exact integer a binary64 bit pattern denotes, if it denotes one.
/// A normal value is (-1)^sign * (2^52 + frac) * 2^(exp - 1075); it is an
/// integer exactly when that product is one.
pub open spec fn float_as_int(b: u64) -> Option<int> {
    let ex = f64_exp_field(b);
    let fr = f64_frac_field(b);
    if ex == 0x7ff {
        // infinity or not-a-number
        None
    } else if ex == 0 {
        // zero (either sign) is the integer 0; nonzero subnormals are below 1
        if fr == 0 {
            Some(0)
        } else {
            None
        }
    } else {
        let m = fr + 0x10_0000_0000_0000;
        if ex >= 1075 {
            Some(with_sign(f64_is_neg(b), m * pow2((ex - 1075) as nat)))
        } else if ex <= 1022 {
            // magnitude strictly between 0 and 1
            None
        } else if m % (pow2((1075 - ex) as nat) as int) == 0 {
            Some(with_sign(f64_is_neg(b), m / (pow2((1075 - ex) as nat) as int)))
        } else {
            None
        }
    }
}

/// Number of binary digits of `m`, for `m >= 1`.
pub open spec fn bit_len(m: int) -> nat
    decreases m,
{
    if m <= 1 {
        1
    } else {
        (1 + bit_len(m / 2)) as nat
    }
}

pub open spec fn f64_bits_of(neg: bool, len: int, m53: int) -> u64 {
    (((if neg {
        0x8000_0000_0000_0000int
    } else {
        0int
    }) + (len + 1022) * 0x10_0000_0000_0000 + (m53 - 0x10_0000_0000_0000)) as u64)
}

/// The binary64 bit pattern that denotes integer `v` exactly, if one exists:
/// `v` must fit in a 53-bit significand once trailing zero bits are shifted
/// into the exponent.
pub open spec fn int_as_float(v: int) -> Option<u64> {
    if v == 0 {
        Some(0u64)
    } else {
        let m = if v < 0 {
            -v
        } else {
            v
        };
        let len = bit_len(m) as int;
        if len > 1024 {
            None
        } else if len <= 53 {
            Some(f64_bits_of(v < 0, len, m * (pow2((53 - len) as nat) as int)))
        } else if m % (pow2((len - 53) as nat) as int) == 0 {
            Some(f64_bits_of(v < 0, len, m / (pow2((len - 53) as nat) as int)))
        } else {
            None
        }
    }
}

/// Lossless conversion of a host number into element type `t`.
pub open spec fn cast_num(n: Num, t: ElemType) -> Option<Num> {
    match n {
        Num::Int(i) => if is_int_type(t) {
            if int_min(t) <= i as int && i as int <= int_max(t) {
                Some(n)
            } else {
                None
            }
        } else {
            match int_as_float(i as int) {
                Some(b) => Some(Num::Float(b)),
                None => None,
            }
        },
        Num::Float(b) => if t is F64 {
            Some(n)
        } else {
            match float_as_int(b) {
                Some(v) => if int_min(t) <= v && v <= int_max(t) {
                    Some(Num::Int(v as i128))
                } else {
                    None
                },
                None => None,
            }
        },
    }
}

/// A successful safe cast always yields a value well typed for the target.
pub proof fn lemma_cast_fits(n: Num, t: ElemType)
    ensures
        cast_num(n, t) is Some ==> elem_fits(t, cast_num(n, t)->Some_0),
{
}

proof fn lemma_pow2_step(e: nat)
    ensures
        pow2(e + 1) == 2 * pow2(e),
{
    lemma_pow2_adds(e, 1);
    lemma2_to64();
}

proof fn lemma_bit_len_bounds(m: int)
    requires
        m >= 1,
    ensures
        pow2((bit_len(m) - 1) as nat) <= m < pow2(bit_len(m)),
    decreases m,
{
    if m == 1 {
        lemma2_to64();
    } else {
        lemma_bit_len_bounds(m / 2);
        let l = bit_len(m / 2);
        lemma_pow2_step((l - 1) as nat);
        lemma_pow2_step(l);
    }
}

proof fn lemma_bit_len_le(m: int, k: nat)
    requires
        1 <= m,
        m < pow2(k),
    ensures
        bit_len(m) <= k,
{
    lemma_bit_len_bounds(m);
    if bit_len(m) > k {
        if bit_len(m) - 1 > k {
            lemma_pow2_strictly_increases(k, (bit_len(m) - 1) as nat);
        }
        assert(false);
    }
}

fn pow2_u64(e: u64) -> (r: u64)
    requires
        e < 64,
    ensures
        r as nat == pow2(e as nat),
{
    let mut r: u64 = 1;
    let mut i: u64 = 0;
    proof {
        lemma2_to64();
    }
    while i < e
        invariant
            i <= e,
            e < 64,
            r as nat == pow2(i as nat),
        decreases e - i,
    {
        proof {
            lemma_pow2_step(i as nat);
            lemma_pow2_strictly_increases((i + 1) as nat, 64);
            lemma2_to64();
        }
        r = r * 2;
        i = i + 1;
    }
    r
}

fn pow2_u128(e: u64) -> (r: u128)
    requires
        e < 128,
    ensures
        r as nat == pow2(e as nat),
{
    let mut r: u128 = 1;
    let mut i: u64 = 0;
    proof {
        lemma2_to64();
    }
    while i < e
        invariant
            i <= e,
            e < 128,
            r as nat == pow2(i as nat),
        decreases e - i,
    {
        proof {
            lemma_pow2_step(i as nat);
            lemma_pow2_strictly_increases((i + 1) as nat, 128);
            lemma_pow2_adds(64, 64);
            lemma2_to64();
        }
        r = r * 2;
        i = i + 1;
    }
    r
}

fn num_bit_len(m: u128) -> (r: u64)
    requires
        m >= 1,
    ensures
        r as nat == bit_len(m as int),
        1 <= r <= 128,
    decreases m,
{
    if m <= 1 {
        1
    } else {
        let rec = num_bit_len(m / 2);
        proof {
            lemma_pow2_adds(64, 64);
            lemma2_to64();
            lemma_bit_len_le(m as int, 128);
        }
        rec + 1
    }
}

fn int_to_bits(i: i128) -> (r: Option<u64>)
    ensures
        r == int_as_float(i as int),
{
    if i == 0 {
        return Some(0);
    }
    let neg = i < 0;
    let m: u128 = if i < 0 {
        (-(i + 1)) as u128 + 1
    } else {
        i as u128
    };
    let len = num_bit_len(m);
    proof {
        lemma_bit_len_bounds(m as int);
        lemma2_to64_rest();
    }
    if len <= 53 {
        let p = pow2_u128(53 - len);
        proof {
            lemma_pow2_pos((53 - len) as nat);
            lemma_pow2_adds((len - 1) as nat, (53 - len) as nat);
            lemma_pow2_adds(len as nat, (53 - len) as nat);
            let ghost lo = pow2((len - 1) as nat) as int;
            let ghost hi = pow2(len as nat) as int;
            assert(m as int * p as int >= pow2(52)) by (nonlinear_arith)
                requires
                    m as int >= lo,
                    p as int >= 0,
                    lo * p as int == pow2(52),
                    lo >= 0;
            assert(m as int * (p as int) < pow2(53)) by (nonlinear_arith)
                requires
                    (m as int) < hi,
                    p as int >= 1,
                    hi * p as int == pow2(53),
                    hi >= 1;
        }
        let m53: u64 = (m * p) as u64;
        let expf: u64 = len + 1022;
        let bits: u64 = (if neg {
            0x8000_0000_0000_0000u64
        } else {
            0u64
        }) + expf * 0x10_0000_0000_0000u64 + (m53 - 0x10_0000_0000_0000u64);
        Some(bits)
    } else {
        let p = pow2_u128(len - 53);
        proof {
            lemma_pow2_pos((len - 53) as nat);
        }
        if m % p == 0 {
            let q: u128 = m / p;
            proof {
                lemma_fundamental_div_mod(m as int, p as int);
                lemma_pow2_adds((len - 53) as nat, 52);
                lemma_pow2_adds((len - 53) as nat, 53);
                lemma2_to64_rest();
                let ghost pi = p as int;
                let ghost qi = q as int;
                assert(qi >= pow2(52)) by (nonlinear_arith)
                    requires
                        m as int == pi * qi + 0,
                        m as int >= pow2((len - 1) as nat),
                        pow2((len - 1) as nat) == pi * pow2(52),
                        pi >= 1,
                        qi >= 0;
                assert(qi < pow2(53)) by (nonlinear_arith)
                    requires
                        m as int == pi * qi + 0,
                        (m as int) < pow2(len as nat),
                        pow2(len as nat) == pi * pow2(53),
                        pi >= 1,
                        qi >= 0;
            }
            let m53: u64 = q as u64;
            let expf: u64 = len + 1022;
            let bits: u64 = (if neg {
                0x8000_0000_0000_0000u64
            } else {
                0u64
            }) + expf * 0x10_0000_0000_0000u64 + (m53 - 0x10_0000_0000_0000u64);
            Some(bits)
        } else {
            None
        }
    }
}

fn bits_to_int(b: u64) -> (r: Option<i128>)
    ensures
        match r {
            Some(v) => float_as_int(b) == Some(v as int),
            None => match float_as_int(b) {
                Some(v) => v > u64::MAX as int || v < -(u64::MAX as int),
                None => true,
            },
        },
{
    let ex: u64 = (b / 0x10_0000_0000_0000) % 0x800;
    let fr: u64 = b % 0x10_0000_0000_0000;
    let neg: bool = b / 0x8000_0000_0000_0000 == 1;
    if ex == 0x7ff {
        None
    } else if ex == 0 {
        if fr == 0 {
            Some(0)
        } else {
            None
        }
    } else {
        let m: u64 = fr + 0x10_0000_0000_0000;
        if ex >= 1075 {
            let e = ex - 1075;
            if e >= 12 {
                proof {
                    lemma2_to64();
                    lemma2_to64_rest();
                    if e > 12 {
                        lemma_pow2_strictly_increases(12, e as nat);
                    }
                    assert(m as int * pow2(e as nat) >= pow2(64)) by (nonlinear_arith)
                        requires
                            m as int >= pow2(52),
                            pow2(e as nat) >= pow2(12),
                            pow2(52) * pow2(12) == pow2(64),
                            pow2(52) >= 0,
                            pow2(12) >= 0;
                }
                None
            } else {
                let p = pow2_u64(e);
                proof {
                    lemma2_to64();
                    lemma2_to64_rest();
                    if e < 11 {
                        lemma_pow2_strictly_increases(e as nat, 11);
                    }
                    assert(m as int * (p as int) < pow2(64)) by (nonlinear_arith)
                        requires
                            (m as int) < pow2(53),
                            p as int <= pow2(11),
                            p as int >= 0,
                            pow2(53) >= 1,
                            pow2(11) >= 1,
                            pow2(53) * pow2(11) == pow2(64);
                }
                let mag: u64 = m * p;
                let v: i128 = if neg {
                    -(mag as i128)
                } else {
                    mag as i128
                };
                Some(v)
            }
        } else if ex <= 1022 {
            None
        } else {
            let d = 1075 - ex;
            let p = pow2_u64(d);
            proof {
                lemma_pow2_pos(d as nat);
            }
            if m % p == 0 {
                let q = m / p;
                let v: i128 = if neg {
                    -(q as i128)
                } else {
                    q as i128
                };
                Some(v)
            } else {
                None
            }
        }
    }
}

fn int_in_range(v: i128, t: ElemType) -> (r: bool)
    requires
        is_int_type(t),
    ensures
        r == (int_min(t) <= v as int && v as int <= int_max(t)),
{
    match t {
        ElemType::I32 => i32::MIN as i128 <= v && v <= i32::MAX as i128,
        ElemType::I64 => i64::MIN as i128 <= v && v <= i64::MAX as i128,
        ElemType::U32 => 0 <= v && v <= u32::MAX as i128,
        ElemType::U64 => 0 <= v && v <= u64::MAX as i128,
        ElemType::Usize => 0 <= v && v <= usize::MAX as i128,
        ElemType::F64 => false,
    }
}

/// Whether a stored value is well typed for element type `t`.
pub fn elem_ok(t: ElemType, n: Num) -> (r: bool)
    ensures
        r == elem_fits(t, n),
{
    match n {
        Num::Int(i) => match t {
            ElemType::F64 => false,
            _ => int_in_range(i, t),
        },
        Num::Float(_) => match t {
            ElemType::F64 => true,
            _ => false,
        },
    }
}

/// Lossless conversion of a host number into element type `t`; `None` when
/// the value cannot be represented exactly.
pub fn safe_cast(n: Num, t: ElemType) -> (r: Option<Num>)
    ensures
        r == cast_num(n, t),
{
    match n {
        Num::Int(i) => {
            if let ElemType::F64 = t {
                match int_to_bits(i) {
                    Some(b) => Some(Num::Float(b)),
                    None => None,
                }
            } else {
                if int_in_range(i, t) {
                    Some(n)
                } else {
                    None
                }
            }
        },
        Num::Float(b) => {
            if let ElemType::F64 = t {
                Some(n)
            } else {
                match bits_to_int(b) {
                    Some(v) => if int_in_range(v, t) {
                        Some(Num::Int(v))
                    } else {
                        None
                    },
                    None => None,
                }
            }
        },
    }
}

} // verus!
