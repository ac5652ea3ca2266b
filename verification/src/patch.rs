//! Encodings of x86 relative call and jump instructions: a one- or
//! two-byte opcode followed by a 32-bit little-endian displacement from
//! the end of the instruction to its target.

use vstd::prelude::*;

verus! {

/// The 32-bit displacement a relative instruction at `from` of size
/// `inst_size` carries to reach `to`, reduced modulo 2^32.
pub open spec fn spec_rel_offset(from: int, to: int, inst_size: int) -> int {
    (to - from - inst_size) % 0x1_0000_0000
}

/// The four little-endian bytes of a 32-bit value.
pub open spec fn le_bytes32(x: int) -> Seq<u8>
    recommends
        0 <= x < 0x1_0000_0000,
{
    seq![
        (x % 256) as u8,
        ((x / 256) % 256) as u8,
        ((x / 65536) % 256) as u8,
        ((x / 16777216) % 256) as u8,
    ]
}

/// The displacement bytes for an instruction of size `inst_size` at
/// `from` targeting `to`, as they appear in the instruction's tail.
pub fn addr_offset(from: usize, to: usize, inst_size: usize) -> (r: [u8; 4])
    ensures
        r@ == le_bytes32(spec_rel_offset(from as int, to as int, inst_size as int)),
{
    let m: u128 = 0x1_0000_0000;
    let t: u128 = (to as u128) % m;
    let f: u128 = ((from as u128) + (inst_size as u128)) % m;
    let off: u128 = (t + m - f) % m;
    proof {
        vstd::arithmetic::div_mod::lemma_mod_add_multiples_vanish(
            (to as int) % (m as int) - ((from as int) + (inst_size as int)) % (m as int),
            m as int,
        );
        vstd::arithmetic::div_mod::lemma_sub_mod_noop(
            to as int,
            (from as int) + (inst_size as int),
            m as int,
        );
        assert(off as int == spec_rel_offset(from as int, to as int, inst_size as int));
    }
    let b0 = (off % 256) as u8;
    let b1 = ((off / 256) % 256) as u8;
    let b2 = ((off / 65536) % 256) as u8;
    let b3 = ((off / 16777216) % 256) as u8;
    let r = [b0, b1, b2, b3];
    proof {
        assert(r@ =~= le_bytes32(spec_rel_offset(from as int, to as int, inst_size as int)));
    }
    r
}

/// A five-byte relative `call` from `from` to `to`.
pub fn call(from: usize, to: usize) -> (r: [u8; 5])
    ensures
        r@ == seq![0xE8u8] + le_bytes32(spec_rel_offset(from as int, to as int, 5)),
{
    let bytes = addr_offset(from, to, 5);
    let r = [0xE8, bytes[0], bytes[1], bytes[2], bytes[3]];
    proof {
        assert(r@ =~= seq![0xE8u8] + le_bytes32(spec_rel_offset(from as int, to as int, 5)));
    }
    r
}

/// A five-byte relative (non-short) `jmp` from `from` to `to`.
pub fn jmp(from: usize, to: usize) -> (r: [u8; 5])
    ensures
        r@ == seq![0xE9u8] + le_bytes32(spec_rel_offset(from as int, to as int, 5)),
{
    let bytes = addr_offset(from, to, 5);
    let r = [0xE9, bytes[0], bytes[1], bytes[2], bytes[3]];
    proof {
        assert(r@ =~= seq![0xE9u8] + le_bytes32(spec_rel_offset(from as int, to as int, 5)));
    }
    r
}

/// A six-byte relative `jl` (jump if less) from `from` to `to`.
pub fn jl(from: usize, to: usize) -> (r: [u8; 6])
    ensures
        r@ == seq![0x0Fu8, 0x8Cu8] + le_bytes32(spec_rel_offset(from as int, to as int, 6)),
{
    let bytes = addr_offset(from, to, 6);
    let r = [0x0F, 0x8C, bytes[0], bytes[1], bytes[2], bytes[3]];
    proof {
        assert(r@ =~= seq![0x0Fu8, 0x8Cu8] + le_bytes32(spec_rel_offset(from as int, to as int, 6)));
    }
    r
}

/// A six-byte relative `jge` (jump if greater or equal) from `from` to `to`.
pub fn jge(from: usize, to: usize) -> (r: [u8; 6])
    ensures
        r@ == seq![0x0Fu8, 0x8Du8] + le_bytes32(spec_rel_offset(from as int, to as int, 6)),
{
    let bytes = addr_offset(from, to, 6);
    let r = [0x0F, 0x8D, bytes[0], bytes[1], bytes[2], bytes[3]];
    proof {
        assert(r@ =~= seq![0x0Fu8, 0x8Du8] + le_bytes32(spec_rel_offset(from as int, to as int, 6)));
    }
    r
}

} // verus!
