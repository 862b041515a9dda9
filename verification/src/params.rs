//! Typed spawn parameters and their wire encoding.
//!
//! An entry point declares a list of parameter kinds; a spawn call supplies a
//! list of typed values.  The values are serialized as a tagged byte
//! sequence: one tag byte followed by a 16-byte little-endian payload per
//! parameter, in call order.  32- and 64-bit integers are sign-extended into
//! the 128-bit payload.

use vstd::prelude::*;

verus! {

/// The closed set of primitive kinds an entry point parameter can have.
#[derive(Clone, Copy, PartialEq, Eq, Structural, Debug)]
pub enum ParamKind {
    I32,
    I64,
    V128,
}

/// A typed parameter value handed to an entry point at spawn time.
#[derive(Clone, Copy, PartialEq, Eq, Structural, Debug)]
pub enum Param {
    I32(i32),
    I64(i64),
    V128(u128),
}

/// The kind a parameter value belongs to.
pub open spec fn kind_of(p: Param) -> ParamKind {
    match p {
        Param::I32(_) => ParamKind::I32,
        Param::I64(_) => ParamKind::I64,
        Param::V128(_) => ParamKind::V128,
    }
}

/// The tag byte that introduces a parameter of the given kind.
pub open spec fn tag_of(p: Param) -> u8 {
    match p {
        Param::I32(_) => 0x7f,
        Param::I64(_) => 0x7e,
        Param::V128(_) => 0x7b,
    }
}

/// A 32-bit integer sign-extended into 128 bits (two's complement).
pub open spec fn sign_extend_32(v: i32) -> u128 {
    if v >= 0 {
        v as u128
    } else {
        (v + 0x1_0000_0000_0000_0000_0000_0000_0000_0000) as u128
    }
}

/// A 64-bit integer sign-extended into 128 bits (two's complement).
pub open spec fn sign_extend_64(v: i64) -> u128 {
    if v >= 0 {
        v as u128
    } else {
        (v + 0x1_0000_0000_0000_0000_0000_0000_0000_0000) as u128
    }
}

/// The 128-bit payload carried for a parameter value.
pub open spec fn payload_of(p: Param) -> u128 {
    match p {
        Param::I32(v) => sign_extend_32(v),
        Param::I64(v) => sign_extend_64(v),
        Param::V128(v) => v,
    }
}

/// Byte `i` (little-endian) of a 128-bit value.
pub open spec fn byte_of(v: u128, i: int) -> u8 {
    ((v >> ((8 * i) as u128)) & 0xff) as u8
}

/// The 16 little-endian bytes of a 128-bit value.
pub open spec fn le_bytes_16(v: u128) -> Seq<u8> {
    Seq::new(16, |i: int| byte_of(v, i))
}

/// The encoding of a single parameter: tag byte, then 16 payload bytes.
pub open spec fn param_bytes(p: Param) -> Seq<u8> {
    seq![tag_of(p)] + le_bytes_16(payload_of(p))
}

/// The encoding of a parameter list, in call order.
pub open spec fn params_bytes(s: Seq<Param>) -> Seq<u8>
    decreases s.len(),
{
    if s.len() == 0 {
        Seq::empty()
    } else {
        params_bytes(s.drop_last()) + param_bytes(s.last())
    }
}

/// Whether a list of supplied values matches a declared list of kinds
/// exactly: same arity, and the kind of each value equals the declared kind
/// at the same position.
pub open spec fn kinds_match(ps: Seq<Param>, ks: Seq<ParamKind>) -> bool {
    &&& ps.len() == ks.len()
    &&& forall|i: int| 0 <= i < ps.len() ==> kind_of(ps[i]) == ks[i]
}

/// The kind of a parameter value.
pub fn param_kind(p: &Param) -> (k: ParamKind)
    ensures
        k == kind_of(*p),
{
    match p {
        Param::I32(_) => ParamKind::I32,
        Param::I64(_) => ParamKind::I64,
        Param::V128(_) => ParamKind::V128,
    }
}

fn extend_i32(v: i32) -> (r: u128)
    ensures
        r == sign_extend_32(v),
{
    if v >= 0 {
        v as u128
    } else {
        let m: u64 = (-(v as i64)) as u64;
        u128::MAX - (m as u128) + 1
    }
}

fn extend_i64(v: i64) -> (r: u128)
    ensures
        r == sign_extend_64(v),
{
    if v >= 0 {
        v as u128
    } else {
        let m: u64 = (-(v as i128)) as u64;
        u128::MAX - (m as u128) + 1
    }
}

/// Whether the supplied parameter values match the declared kinds exactly.
pub fn params_match(ps: &[Param], ks: &[ParamKind]) -> (r: bool)
    ensures
        r == kinds_match(ps@, ks@),
{
    if ps.len() != ks.len() {
        return false;
    }
    let mut i: usize = 0;
    while i < ps.len()
        invariant
            0 <= i <= ps@.len(),
            ps@.len() == ks@.len(),
            forall|j: int| 0 <= j < i ==> kind_of(ps@[j]) == ks@[j],
        decreases ps@.len() - i,
    {
        let k = param_kind(&ps[i]);
        if k != ks[i] {
            return false;
        }
        i += 1;
    }
    true
}

/// Serializes a parameter list as a tagged byte sequence: for each parameter
/// in call order, one tag byte and 16 little-endian payload bytes.
pub fn params_to_vec(params: &[Param]) -> (r: Vec<u8>)
    ensures
        r@ == params_bytes(params@),
{
    let mut result: Vec<u8> = Vec::new();
    let mut i: usize = 0;
    proof {
        assert(params@.subrange(0, 0) =~= Seq::<Param>::empty());
    }
    while i < params.len()
        invariant
            0 <= i <= params@.len(),
            result@ == params_bytes(params@.subrange(0, i as int)),
        decreases params@.len() - i,
    {
        let p = params[i];
        let tag: u8;
        let v: u128;
        match p {
            Param::I32(x) => {
                tag = 0x7f;
                v = extend_i32(x);
            },
            Param::I64(x) => {
                tag = 0x7e;
                v = extend_i64(x);
            },
            Param::V128(x) => {
                tag = 0x7b;
                v = x;
            },
        }
        result.push(tag);
        proof {
            assert(result@ == params_bytes(params@.subrange(0, i as int)) + seq![tag_of(p)]
                + le_bytes_16(v).subrange(0, 0)) by {
                assert(le_bytes_16(v).subrange(0, 0) =~= Seq::<u8>::empty());
                assert(params_bytes(params@.subrange(0, i as int)).push(tag_of(p)) =~= params_bytes(
                    params@.subrange(0, i as int),
                ) + seq![tag_of(p)] + Seq::<u8>::empty());
            }
        }
        let mut k: usize = 0;
        while k < 16
            invariant
                0 <= k <= 16,
                0 <= i < params@.len(),
                p == params@[i as int],
                tag == tag_of(p),
                v == payload_of(p),
                result@ == params_bytes(params@.subrange(0, i as int)) + seq![tag_of(p)]
                    + le_bytes_16(v).subrange(0, k as int),
            decreases 16 - k,
        {
            let b: u8 = ((v >> ((8 * k) as u128)) & 0xff) as u8;
            proof {
                assert(b == byte_of(v, k as int));
                assert(le_bytes_16(v).subrange(0, k as int + 1) =~= le_bytes_16(v).subrange(
                    0,
                    k as int,
                ).push(byte_of(v, k as int)));
            }
            result.push(b);
            k += 1;
        }
        proof {
            assert(le_bytes_16(v).subrange(0, 16) =~= le_bytes_16(v));
            assert(params@.subrange(0, i as int + 1).drop_last() =~= params@.subrange(0, i as int));
            assert(params@.subrange(0, i as int + 1).last() == p);
            assert(params_bytes(params@.subrange(0, i as int + 1)) == params_bytes(
                params@.subrange(0, i as int),
            ) + param_bytes(p));
            assert(result@ == params_bytes(params@.subrange(0, i as int)) + (seq![tag_of(p)]
                + le_bytes_16(payload_of(p))));
        }
        i += 1;
    }
    proof {
        assert(params@.subrange(0, params@.len() as int) =~= params@);
    }
    result
}

} // verus!
