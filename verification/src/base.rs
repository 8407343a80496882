//! The four-symbol alphabet of the rewriter, and its ASCII encoding.

use vstd::prelude::*;

verus! {

/// One symbol of the sequence alphabet. Persisted as the ASCII letters
/// of the same names.
#[derive(Debug, PartialEq, Eq, Copy, Clone, Structural)]
pub enum Base {
    I,
    C,
    F,
    P,
}

/// The ASCII byte that encodes a base.
pub open spec fn base_to_byte(b: Base) -> u8 {
    match b {
        Base::I => 73,
        Base::C => 67,
        Base::F => 70,
        Base::P => 80,
    }
}

/// Whether a byte is the ASCII encoding of some base.
pub open spec fn byte_is_base(c: u8) -> bool {
    c == 73 || c == 67 || c == 70 || c == 80
}

/// The base a valid ASCII byte encodes.
pub open spec fn byte_to_base(c: u8) -> Base {
    if c == 73 {
        Base::I
    } else if c == 67 {
        Base::C
    } else if c == 70 {
        Base::F
    } else {
        Base::P
    }
}

/// Decodes an ASCII run into bases. Callers must have checked the input;
/// a byte outside the alphabet is a malformed-input error at the boundary.
pub fn to_base_vec(data: &[u8]) -> (r: Vec<Base>)
    requires
        forall|i: int| 0 <= i < data@.len() ==> byte_is_base(data@[i]),
    ensures
        r@ == data@.map_values(|c: u8| byte_to_base(c)),
{
    let mut r: Vec<Base> = Vec::new();
    let mut i: usize = 0;
    while i < data.len()
        invariant
            i <= data@.len(),
            forall|j: int| 0 <= j < data@.len() ==> byte_is_base(data@[j]),
            r@ == data@.take(i as int).map_values(|c: u8| byte_to_base(c)),
        decreases data@.len() - i,
    {
        let c = data[i];
        let b = if c == 73 {
            Base::I
        } else if c == 67 {
            Base::C
        } else if c == 70 {
            Base::F
        } else {
            Base::P
        };
        r.push(b);
        proof {
            assert(data@.take(i + 1).map_values(|c: u8| byte_to_base(c)) =~= data@.take(
                i as int,
            ).map_values(|c: u8| byte_to_base(c)).push(byte_to_base(data@[i as int])));
        }
        i = i + 1;
    }
    proof {
        assert(data@.take(data@.len() as int) =~= data@);
    }
    r
}

/// Encodes bases back into their ASCII letters.
pub fn to_u8_vec(bases: &[Base]) -> (r: Vec<u8>)
    ensures
        r@ == bases@.map_values(|b: Base| base_to_byte(b)),
{
    let mut r: Vec<u8> = Vec::new();
    let mut i: usize = 0;
    while i < bases.len()
        invariant
            i <= bases@.len(),
            r@ == bases@.take(i as int).map_values(|b: Base| base_to_byte(b)),
        decreases bases@.len() - i,
    {
        let c = match bases[i] {
            Base::I => 73,
            Base::C => 67,
            Base::F => 70,
            Base::P => 80,
        };
        r.push(c);
        proof {
            assert(bases@.take(i + 1).map_values(|b: Base| base_to_byte(b)) =~= bases@.take(
                i as int,
            ).map_values(|b: Base| base_to_byte(b)).push(base_to_byte(bases@[i as int])));
        }
        i = i + 1;
    }
    proof {
        assert(bases@.take(bases@.len() as int) =~= bases@);
    }
    r
}

} // verus!
