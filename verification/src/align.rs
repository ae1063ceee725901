//! Rounding to the alignment that direct SSD transfers need.
use vstd::prelude::*;
use vstd::arithmetic::div_mod::*;

use crate::error::ArgumentError;

verus! {

/// Alignment in bytes of every direct SSD transfer.
pub const SSD_ALIGNMENT: usize = 512;

/// The same alignment, for lengths and offsets.
pub const SSD_ALIGNMENT_BYTES: u64 = 512;

/// The least multiple of `alignment` that is not below `value`.
pub open spec fn aligned_up(value: int, alignment: int) -> int {
    (value + alignment - 1) / alignment * alignment
}

/// `r` is a multiple of `alignment`, reaches `value` and passes it by less than `alignment`.
pub proof fn lemma_aligned_up(value: int, alignment: int)
    requires
        value >= 0,
        alignment > 0,
    ensures
        aligned_up(value, alignment) % alignment == 0,
        value <= aligned_up(value, alignment) < value + alignment,
        value % alignment == 0 ==> aligned_up(value, alignment) == value,
{
    let v = value + alignment - 1;
    let q = v / alignment;
    lemma_fundamental_div_mod(v, alignment);
    lemma_mod_multiples_basic(q, alignment);
    assert(aligned_up(value, alignment) == v - v % alignment) by (nonlinear_arith)
        requires
            v == alignment * q + v % alignment,
            aligned_up(value, alignment) == q * alignment,
    ;
    lemma_mod_bound(v, alignment);
    if value % alignment == 0 {
        lemma_fundamental_div_mod(value, alignment);
        let q0 = value / alignment;
        assert(value == q0 * alignment + 0) by (nonlinear_arith)
            requires
                value == alignment * q0 + 0,
        ;
        lemma_fundamental_div_mod_converse(v, alignment, q0, alignment - 1);
    }
}

/// Rounding up twice changes nothing.
pub proof fn aligning_twice_changes_nothing(value: int, alignment: int)
    requires
        value >= 0,
        alignment > 0,
    ensures
        aligned_up(aligned_up(value, alignment), alignment) == aligned_up(value, alignment),
{
    lemma_aligned_up(value, alignment);
    lemma_aligned_up(aligned_up(value, alignment), alignment);
}

/// Rounds a length up to a multiple of `alignment`.
pub fn align_up_usize(value: usize, alignment: usize) -> (r: Result<usize, ArgumentError>)
    requires
        alignment > 0,
    ensures
        match r {
            Ok(v) => value + alignment - 1 <= usize::MAX && v == aligned_up(
                value as int,
                alignment as int,
            ),
            Err(e) => value + alignment - 1 > usize::MAX && e == (
            ArgumentError::AlignmentOverflow { value: value as u64 }),
        },
{
    match value.checked_add(alignment - 1) {
        Some(v) => {
            proof {
                lemma_aligned_up(value as int, alignment as int);
                lemma_fundamental_div_mod(v as int, alignment as int);
                lemma_mod_bound(v as int, alignment as int);
                assert(v / alignment * alignment <= v) by (nonlinear_arith)
                    requires
                        v == alignment * (v / alignment) + v % alignment,
                        v % alignment >= 0,
                ;
            }
            Ok(v / alignment * alignment)
        },
        None => Err(ArgumentError::AlignmentOverflow { value: value as u64 }),
    }
}

/// Rounds a length or offset up to a multiple of `alignment`.
pub fn align_up_u64(value: u64, alignment: u64) -> (r: Result<u64, ArgumentError>)
    requires
        alignment > 0,
    ensures
        match r {
            Ok(v) => value + alignment - 1 <= u64::MAX && v == aligned_up(
                value as int,
                alignment as int,
            ),
            Err(e) => value + alignment - 1 > u64::MAX && e == (
            ArgumentError::AlignmentOverflow { value }),
        },
{
    match value.checked_add(alignment - 1) {
        Some(v) => {
            proof {
                lemma_aligned_up(value as int, alignment as int);
                lemma_fundamental_div_mod(v as int, alignment as int);
                lemma_mod_bound(v as int, alignment as int);
                assert(v / alignment * alignment <= v) by (nonlinear_arith)
                    requires
                        v == alignment * (v / alignment) + v % alignment,
                        v % alignment >= 0,
                ;
            }
            Ok(v / alignment * alignment)
        },
        None => Err(ArgumentError::AlignmentOverflow { value }),
    }
}

/// The number of bytes that a transfer of `len` bytes moves.
pub fn align_ssd_io_len(len: u64) -> (r: Result<u64, ArgumentError>)
    ensures
        match r {
            Ok(v) => len + SSD_ALIGNMENT_BYTES - 1 <= u64::MAX && v == aligned_up(
                len as int,
                SSD_ALIGNMENT_BYTES as int,
            ),
            Err(e) => len + SSD_ALIGNMENT_BYTES - 1 > u64::MAX && e == (
            ArgumentError::AlignmentOverflow { value: len }),
        },
{
    align_up_u64(len, SSD_ALIGNMENT_BYTES)
}

/// Rounds the address of a staging buffer up to the next aligned address.
pub fn align_ssd_stage_addr(raw_addr: u64) -> (r: Result<u64, ArgumentError>)
    ensures
        match r {
            Ok(v) => raw_addr + SSD_ALIGNMENT_BYTES - 1 <= u64::MAX && v == aligned_up(
                raw_addr as int,
                SSD_ALIGNMENT_BYTES as int,
            ),
            Err(e) => raw_addr + SSD_ALIGNMENT_BYTES - 1 > u64::MAX && e == (
            ArgumentError::AlignmentOverflow { value: raw_addr }),
        },
{
    align_up_u64(raw_addr, SSD_ALIGNMENT_BYTES)
}

/// Adds two numbers, or reports that the sum leaves the integer range.
pub fn checked_add_u64(lhs: u64, rhs: u64) -> (r: Result<u64, ArgumentError>)
    ensures
        match r {
            Ok(v) => v == lhs + rhs,
            Err(e) => lhs + rhs > u64::MAX && e == (ArgumentError::SumOverflow { lhs, rhs }),
        },
{
    match lhs.checked_add(rhs) {
        Some(v) => Ok(v),
        None => Err(ArgumentError::SumOverflow { lhs, rhs }),
    }
}

/// The part of a direct transfer that is not aligned.
#[derive(Clone, Copy, Debug, PartialEq, Eq, Structural)]
pub enum DirectIoPart {
    Offset,
    BufferAddress,
    IovecLength,
}

/// A direct transfer was asked for with a part that is not aligned.
#[derive(Clone, Copy, Debug, PartialEq, Eq, Structural)]
pub struct Misaligned {
    pub part: DirectIoPart,
    pub value: usize,
}

/// Accepts exactly the multiples of the alignment.
pub fn ensure_aligned(part: DirectIoPart, value: usize) -> (r: Result<(), Misaligned>)
    ensures
        match r {
            Ok(_) => value % SSD_ALIGNMENT == 0,
            Err(e) => value % SSD_ALIGNMENT != 0 && e == (Misaligned { part, value }),
        },
{
    if value % SSD_ALIGNMENT == 0 {
        Ok(())
    } else {
        Err(Misaligned { part, value })
    }
}

/// Whether address and length of one buffer are aligned.
pub open spec fn iovec_aligned(iovec: (usize, usize)) -> bool {
    iovec.0 % SSD_ALIGNMENT == 0 && iovec.1 % SSD_ALIGNMENT == 0
}

/// What is wrong with one buffer: the address comes first.
pub open spec fn iovec_fault(iovec: (usize, usize)) -> Misaligned {
    if iovec.0 % SSD_ALIGNMENT != 0 {
        Misaligned { part: DirectIoPart::BufferAddress, value: iovec.0 }
    } else {
        Misaligned { part: DirectIoPart::IovecLength, value: iovec.1 }
    }
}

/// A direct transfer was checked.
pub open spec fn transfer_checked(
    iovecs: Seq<(usize, usize)>,
    offset: usize,
    r: Result<(), Misaligned>,
) -> bool {
    match r {
        Ok(_) => offset % SSD_ALIGNMENT == 0 && forall|i: int|
            0 <= i < iovecs.len() ==> iovec_aligned(#[trigger] iovecs[i]),
        Err(e) => {
            ||| offset % SSD_ALIGNMENT != 0 && e == (Misaligned {
                part: DirectIoPart::Offset,
                value: offset,
            })
            ||| offset % SSD_ALIGNMENT == 0 && exists|i: int|
                {
                    &&& 0 <= i < iovecs.len()
                    &&& !iovec_aligned(#[trigger] iovecs[i])
                    &&& e == iovec_fault(iovecs[i])
                    &&& forall|j: int| 0 <= j < i ==> iovec_aligned(#[trigger] iovecs[j])
                }
        },
    }
}

/// A transfer is accepted exactly if its offset and the addresses and lengths of all its buffers are multiples of
/// the block size; what is named otherwise is indeed none.
pub proof fn only_whole_blocks_are_transferred(
    iovecs: Seq<(usize, usize)>,
    offset: usize,
    r: Result<(), Misaligned>,
    i: int,
)
    requires
        transfer_checked(iovecs, offset, r),
        0 <= i < iovecs.len(),
    ensures
        r is Ok ==> offset % 512 == 0 && iovecs[i].0 % 512 == 0 && iovecs[i].1 % 512 == 0,
        offset % 512 != 0 || iovecs[i].0 % 512 != 0 || iovecs[i].1 % 512 != 0 ==> r is Err,
        r matches Err(e) ==> e.value % 512 != 0,
        offset % 512 != 0 ==> (r matches Err(e) && e.part == DirectIoPart::Offset && e.value
            == offset),
{
    if r is Ok {
        assert(iovec_aligned(iovecs[i]));
    }
}

/// Accepts a direct transfer whose offset and whose buffers are all aligned, and names the
/// first part that is not.
pub fn validate_direct_io(iovecs: &Vec<(usize, usize)>, offset: usize) -> (r: Result<
    (),
    Misaligned,
>)
    ensures
        transfer_checked(iovecs@, offset, r),
{
    match ensure_aligned(DirectIoPart::Offset, offset) {
        Ok(_) => {},
        Err(e) => {
            return Err(e);
        },
    }
    let mut i: usize = 0;
    while i < iovecs.len()
        invariant
            offset % SSD_ALIGNMENT == 0,
            i <= iovecs@.len(),
            forall|j: int| 0 <= j < i ==> iovec_aligned(#[trigger] iovecs@[j]),
        decreases iovecs@.len() - i,
    {
        let (addr, len) = iovecs[i];
        match ensure_aligned(DirectIoPart::BufferAddress, addr) {
            Ok(_) => {},
            Err(e) => {
                assert(!iovec_aligned(iovecs@[i as int]));
                return Err(e);
            },
        }
        match ensure_aligned(DirectIoPart::IovecLength, len) {
            Ok(_) => {},
            Err(e) => {
                assert(!iovec_aligned(iovecs@[i as int]));
                return Err(e);
            },
        }
        i += 1;
    }
    Ok(())
}

} // verus!
