//! The peripheral assembler: wrapping a parsed register fragment as a new
//! peripheral, appending further fragments onto an existing one, and
//! computing a peripheral's observed address extent for reporting.

use crate::model::{ExtractError, Peripheral, PeripheralEntry, Register, RegisterView};
use vstd::prelude::*;

verus! {

/// Wrap one parsed register fragment as a new peripheral, under weak
/// validation: any name and any fragment are accepted, and a peripheral
/// with zero registers is a legal value.
pub fn create_peripheral(name: Vec<u8>, base_address: u64, fragment: Vec<Register>) -> (p:
    Peripheral)
    ensures
        p@.name == name@,
        p@.base_address == base_address,
        p@.registers == fragment@.map_values(|r: Register| r@),
{
    Peripheral { name, base_address, registers: fragment }
}

/// Append a further fragment's registers onto an existing peripheral, in
/// fragment order, altering nothing that was already there. Defined only
/// for a single-instance peripheral: an array variant is refused with
/// `ArrayPeripheralNotSupported` and left unchanged.
pub fn extend_peripheral(entry: &mut PeripheralEntry, fragment: Vec<Register>) -> (r: Result<
    (),
    ExtractError,
>)
    ensures
        (*old(entry) matches PeripheralEntry::Array(_, _) ==> r == Err::<(), ExtractError>(
            ExtractError::ArrayPeripheralNotSupported,
        ) && *final(entry) == *old(entry)),
        (*old(entry) matches PeripheralEntry::Single(p0) ==> r == Ok::<(), ExtractError>(())
            && (*final(entry) matches PeripheralEntry::Single(p1) && p1@.name == p0@.name
            && p1@.base_address == p0@.base_address && p1@.registers == p0@.registers
            + fragment@.map_values(|x: Register| x@))),
{
    match entry {
        PeripheralEntry::Single(p) => {
            let ghost regs0 = p.registers@;
            let mut frag = fragment;
            p.registers.append(&mut frag);
            proof {
                assert(p.registers@.map_values(|x: Register| x@) =~= regs0.map_values(
                    |x: Register| x@,
                ) + fragment@.map_values(|x: Register| x@));
            }
            Ok(())
        },
        PeripheralEntry::Array(_, _) => Err(ExtractError::ArrayPeripheralNotSupported),
    }
}

/// The largest register offset of the sequence; zero when it is empty.
pub open spec fn max_offset(regs: Seq<RegisterView>) -> int
    decreases regs.len(),
{
    if regs.len() == 0 {
        0
    } else {
        let m = max_offset(regs.drop_last());
        if regs.last().address_offset >= m {
            regs.last().address_offset as int
        } else {
            m
        }
    }
}

proof fn lemma_max_offset_bounds(regs: Seq<RegisterView>)
    ensures
        0 <= max_offset(regs) <= u32::MAX,
    decreases regs.len(),
{
    if regs.len() > 0 {
        lemma_max_offset_bounds(regs.drop_last());
    }
}

proof fn lemma_max_offset_take_step(regs: Seq<RegisterView>, i: int)
    requires
        0 <= i < regs.len(),
    ensures
        max_offset(regs.take(i + 1)) == if regs[i].address_offset >= max_offset(regs.take(i)) {
            regs[i].address_offset as int
        } else {
            max_offset(regs.take(i))
        },
{
    assert(regs.take(i + 1).drop_last() =~= regs.take(i));
    assert(regs.take(i + 1).last() == regs[i]);
}

/// The address extent a peripheral's registers occupy: its base address and
/// the highest base-relative register address, `base + max(offset)`. A
/// side-effect-free diagnostic query, not a validation gate.
pub fn compute_extent(p: &Peripheral) -> (r: (u64, u64))
    requires
        p@.base_address + max_offset(p@.registers) <= u64::MAX,
    ensures
        r.0 == p@.base_address,
        r.1 == p@.base_address + max_offset(p@.registers),
{
    let ghost regs = p@.registers;
    let n = p.registers.len();
    let mut m: u32 = 0;
    let mut i: usize = 0;
    proof {
        assert(regs.take(0) =~= Seq::<RegisterView>::empty());
    }
    while i < n
        invariant
            i <= n,
            n == p.registers@.len(),
            regs == p@.registers,
            m == max_offset(regs.take(i as int)),
        decreases n - i,
    {
        proof {
            lemma_max_offset_take_step(regs, i as int);
            assert(regs[i as int] == p.registers@[i as int]@);
        }
        let off = p.registers[i].address_offset;
        if off >= m {
            m = off;
        }
        i += 1;
    }
    proof {
        assert(regs.take(n as int) =~= regs);
        lemma_max_offset_bounds(regs);
    }
    (p.base_address, p.base_address + m as u64)
}

} // verus!
