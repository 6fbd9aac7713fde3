//! The machine's flat byte memory.

use vstd::prelude::*;

verus! {

/// Largest memory the machine addresses.
pub const MEMORY_SIZE: usize = 1024;

/// Whether a program image fits in memory.
pub fn assert_memory_size(mem: &[u8]) -> (r: bool)
    ensures
        r == (mem@.len() < MEMORY_SIZE),
{
    if mem.len() >= MEMORY_SIZE {
        return false;
    }
    true
}

/// Stores one byte at `addr`.
pub fn write_to_memory(mem: &mut [u8], addr: usize, val: u8)
    requires
        addr < MEMORY_SIZE,
        addr < old(mem)@.len(),
    ensures
        final(mem)@ == old(mem)@.update(addr as int, val),
{
    mem[addr] = val;
}

/// Loads one byte from `addr`.
pub fn read_from_memory(mem: &[u8], addr: usize) -> (r: u8)
    requires
        addr < MEMORY_SIZE,
        addr < mem@.len(),
    ensures
        r == mem@[addr as int],
{
    mem[addr]
}

/// Zeroes the whole memory.
pub fn reset_memory(mem: &mut [u8])
    ensures
        final(mem)@.len() == old(mem)@.len(),
        forall|k: int| 0 <= k < final(mem)@.len() ==> final(mem)@[k] == 0,
{
    let mut i: usize = 0;
    while i < mem.len()
        invariant
            i <= mem@.len(),
            mem@.len() == old(mem)@.len(),
            forall|k: int| 0 <= k < i ==> mem@[k] == 0,
        decreases mem@.len() - i,
    {
        mem[i] = 0;
        i = i + 1;
    }
}

/// Reads the two-byte instruction at `*index` and advances `*index` past it.
pub fn fetch_instruction(index: &mut u8, mem: &[u8]) -> (r: (u8, u8))
    requires
        *old(index) + 1 < mem@.len(),
        *old(index) + 2 <= u8::MAX,
    ensures
        r == (mem@[*old(index) as int], mem@[*old(index) + 1]),
        *final(index) == *old(index) + 2,
{
    let i = (mem[*index as usize], mem[*index as usize + 1]);
    *index += 2;
    i
}

} // verus!
