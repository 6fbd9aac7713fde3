//! The fetch-decode-execute engine's state and its step function.
//!
//! A machine instruction is two bytes: the high four bits of the first byte
//! are the opcode, its low four bits name the first register, and the whole
//! second byte is a register name or an immediate.  The step function
//! applies one decoded instruction to the machine state; the host runs it in
//! a loop until the state stops running.

use vstd::prelude::*;

use crate::memory;
use crate::stack::Stack;

verus! {

/// Number of general-purpose registers.
pub const NUM_REGS: usize = 16;

/// The machine's register file, program counter, and run flag.
pub struct CpuState {
    pub registers: [u8; 16],
    pub pc: u8,
    pub running: bool,
}

impl CpuState {
    /// The state a machine powers on in: all registers zero, the program
    /// counter at the first instruction, running.
    pub fn new_state() -> (s: Self)
        ensures
            s.pc == 0,
            s.running,
            forall|k: int| 0 <= k < 16 ==> s.registers@[k] == 0,
    {
        Self { registers: [0; NUM_REGS], pc: 0, running: true }
    }
}

/// One instruction split into its opcode and arguments.
pub struct DecodedInstruction {
    pub upcode: u8,
    pub arg1: u8,
    pub arg2: u8,
}

impl DecodedInstruction {
    /// Splits a two-byte instruction: opcode from the first byte's high
    /// four bits, first argument from its low four bits, second argument
    /// from the second byte.
    pub fn multibyte_decode(instr: &(u8, u8)) -> (d: Self)
        ensures
            d.upcode == instr.0 / 16,
            d.arg1 == instr.0 % 16,
            d.arg2 == instr.1,
    {
        let hi = instr.0;
        proof {
            assert((hi >> 4) == hi / 16 && (hi & 0xf) == hi % 16) by (bit_vector);
        }
        Self { upcode: (hi >> 4), arg1: (hi & 0xf), arg2: (instr.1) }
    }
}

/// Applies one instruction to the machine state.  Every failure — a load or
/// store outside memory, an arithmetic overflow, an underflowing
/// subtraction or jump target, a register name past the register file, a
/// call-stack overflow or a return with no caller — comes back as an error,
/// with the state otherwise intact, so the host decides whether to die.
pub fn execute_instruction(
    instr: &(u8, u8),
    state: &mut CpuState,
    stack: &mut Stack,
    mem: &mut Vec<u8>,
) -> (r: Result<(), &'static str>)
    requires
        old(stack).wf(),
        old(mem)@.len() <= 1024,
    ensures
        final(stack).wf(),
        ({
            let up = instr.0 / 16;
            let a1 = (instr.0 % 16) as int;
            let a2 = instr.1;
            let regs0 = old(state).registers@;
            let regs1 = final(state).registers@;
            let pc0 = old(state).pc;
            let pc1 = final(state).pc;
            let run0 = old(state).running;
            let run1 = final(state).running;
            let same_state = (pc1 == pc0 && run1 == run0 && regs1 == regs0);
            let same_mem = (*final(mem) == *old(mem));
            let same_stack = (*final(stack) == *old(stack));
            let only_reg_set = (|v: u8|
                {
                    &&& regs1 == regs0.update((instr.0 % 16) as int, v)
                    &&& pc1 == pc0
                    &&& run1 == run0
                });
            &&& (up == 0 ==> r is Ok && only_reg_set(a2) && same_mem && same_stack)
            &&& (up == 1 ==> same_mem && same_stack
                && (r is Ok <==> a2 < 16 && regs0[a2 as int] < old(mem)@.len())
                && (r is Ok ==> only_reg_set(old(mem)@[regs0[a2 as int] as int]))
                && (r is Err ==> same_state))
            &&& (up == 2 ==> same_stack
                && (r is Ok <==> a2 < 16 && regs0[a1] < old(mem)@.len())
                && (r is Ok ==> same_state
                    && final(mem)@ == old(mem)@.update(regs0[a1] as int, regs0[a2 as int]))
                && (r is Err ==> same_state && same_mem))
            &&& (up == 3 ==> same_mem && same_stack && (r is Ok <==> a2 < 16)
                && (r is Ok ==> only_reg_set(regs0[a2 as int])) && (r is Err ==> same_state))
            &&& (up == 4 ==> same_mem && same_stack
                && (r is Ok <==> a2 < 16 && regs0[a1] + regs0[a2 as int] <= 255)
                && (r is Ok ==> only_reg_set((regs0[a1] + regs0[a2 as int]) as u8))
                && (r is Err ==> same_state))
            &&& (up == 5 ==> same_mem && same_stack
                && (r is Ok <==> a2 < 16 && regs0[a1] >= regs0[a2 as int])
                && (r is Ok ==> only_reg_set((regs0[a1] - regs0[a2 as int]) as u8))
                && (r is Err ==> same_state))
            &&& (up == 6 ==> same_mem && same_stack
                && (r is Ok <==> a2 < 16 && regs0[a1] * regs0[a2 as int] <= 255)
                && (r is Ok ==> only_reg_set((regs0[a1] * regs0[a2 as int]) as u8))
                && (r is Err ==> same_state))
            &&& (up == 7 ==> same_mem && same_stack
                && (r is Ok <==> regs0[a1] + a2 <= 255)
                && (r is Ok ==> only_reg_set((regs0[a1] + a2) as u8))
                && (r is Err ==> same_state))
            &&& (up == 8 ==> same_mem && same_stack && (r is Ok <==> a2 < 16)
                && (r is Ok ==> only_reg_set(regs0[a1] & regs0[a2 as int]))
                && (r is Err ==> same_state))
            &&& (up == 9 ==> same_mem && same_stack && (r is Ok <==> a2 < 16)
                && (r is Ok ==> only_reg_set(regs0[a1] | regs0[a2 as int]))
                && (r is Err ==> same_state))
            &&& (up == 10 ==> same_mem && same_stack && (r is Ok <==> a2 < 16)
                && (r is Ok ==> only_reg_set(regs0[a1] ^ regs0[a2 as int]))
                && (r is Err ==> same_state))
            &&& (up == 11 ==> r is Ok && only_reg_set(!regs0[a1]) && same_mem && same_stack)
            &&& (up == 12 ==> same_mem && same_stack && regs1 == regs0 && run1 == run0
                && (r is Ok <==> a2 < 16 && (regs0[a2 as int] != 0 || regs0[a1] >= 2))
                && (r is Ok && regs0[a2 as int] != 0 ==> pc1 == pc0)
                && (r is Ok && regs0[a2 as int] == 0 ==> pc1 == regs0[a1] - 2)
                && (r is Err ==> pc1 == pc0))
            &&& (up == 13 ==> same_mem
                && (r is Ok <==> old(stack).top > 0)
                && (r is Ok ==> pc1 == old(stack).contents().last() && regs1 == regs0
                    && run1 == run0
                    && final(stack).contents() == old(stack).contents().drop_last())
                && (r is Err ==> same_state && same_stack))
            &&& (up == 14 ==> same_mem
                && (r is Ok <==> old(stack).top < 64)
                && (r is Ok ==> pc1 == a2 && regs1 == regs0 && run1 == run0
                    && final(stack).contents() == old(stack).contents().push(pc0))
                && (r is Err ==> same_state && same_stack))
            &&& (up == 15 ==> r is Ok && run1 == false && pc1 == pc0 && regs1 == regs0 && same_mem
                && same_stack)
        }),
{
    let inst = DecodedInstruction::multibyte_decode(instr);

    match inst.upcode {
        0x0 => {
            // LDI: load an immediate into a register.
            state.registers[inst.arg1 as usize] = inst.arg2;
            Ok(())
        },
        0x1 => {
            // LD: load from memory at the address in the second register.
            if inst.arg2 as usize >= NUM_REGS {
                return Err("Error: Unknown register name.");
            }
            let addr = state.registers[inst.arg2 as usize] as usize;
            if addr >= mem.len() {
                return Err("Error: Load address outside memory.");
            }
            state.registers[inst.arg1 as usize] = memory::read_from_memory(
                mem.as_slice(),
                addr,
            );
            Ok(())
        },
        0x2 => {
            // ST: store to memory at the address in the first register.
            if inst.arg2 as usize >= NUM_REGS {
                return Err("Error: Unknown register name.");
            }
            let addr = state.registers[inst.arg1 as usize] as usize;
            if addr >= mem.len() {
                return Err("Error: Store address outside memory.");
            }
            memory::write_to_memory(
                mem.as_mut_slice(),
                addr,
                state.registers[inst.arg2 as usize],
            );
            Ok(())
        },
        0x3 => {
            // MOV: copy one register into another.
            if inst.arg2 as usize >= NUM_REGS {
                return Err("Error: Unknown register name.");
            }
            state.registers[inst.arg1 as usize] = state.registers[inst.arg2 as usize];
            Ok(())
        },
        0x4 => {
            // ADD: add two registers into the first.
            if inst.arg2 as usize >= NUM_REGS {
                return Err("Error: Unknown register name.");
            }
            match state.registers[inst.arg1 as usize].checked_add(
                state.registers[inst.arg2 as usize],
            ) {
                Some(t) => {
                    state.registers[inst.arg1 as usize] = t;
                    Ok(())
                },
                None => Err("Error: Overflow happened in add."),
            }
        },
        0x5 => {
            // SUB: subtract the second register from the first.
            if inst.arg2 as usize >= NUM_REGS {
                return Err("Error: Unknown register name.");
            }
            if state.registers[inst.arg1 as usize] < state.registers[inst.arg2 as usize] {
                return Err("Error: Underflow happened in sub.");
            }
            state.registers[inst.arg1 as usize] = state.registers[inst.arg1 as usize]
                - state.registers[inst.arg2 as usize];
            Ok(())
        },
        0x6 => {
            // MUL: multiply two registers into the first.
            if inst.arg2 as usize >= NUM_REGS {
                return Err("Error: Unknown register name.");
            }
            match state.registers[inst.arg1 as usize].checked_mul(
                state.registers[inst.arg2 as usize],
            ) {
                Some(t) => {
                    state.registers[inst.arg1 as usize] = t;
                    Ok(())
                },
                None => Err("Error: Overflow happened in mul."),
            }
        },
        0x7 => {
            // ADDI: add an immediate to a register.
            match state.registers[inst.arg1 as usize].checked_add(inst.arg2) {
                Some(t) => {
                    state.registers[inst.arg1 as usize] = t;
                    Ok(())
                },
                None => Err("Error: Overflow happened in addi."),
            }
        },
        0x8 => {
            // AND: bitwise and.
            if inst.arg2 as usize >= NUM_REGS {
                return Err("Error: Unknown register name.");
            }
            state.registers[inst.arg1 as usize] = state.registers[inst.arg1 as usize]
                & state.registers[inst.arg2 as usize];
            Ok(())
        },
        0x9 => {
            // OR: bitwise or.
            if inst.arg2 as usize >= NUM_REGS {
                return Err("Error: Unknown register name.");
            }
            state.registers[inst.arg1 as usize] = state.registers[inst.arg1 as usize]
                | state.registers[inst.arg2 as usize];
            Ok(())
        },
        0xA => {
            // XOR: bitwise exclusive or.
            if inst.arg2 as usize >= NUM_REGS {
                return Err("Error: Unknown register name.");
            }
            state.registers[inst.arg1 as usize] = state.registers[inst.arg1 as usize]
                ^ state.registers[inst.arg2 as usize];
            Ok(())
        },
        0xB => {
            // NOT: bitwise complement of a register.
            state.registers[inst.arg1 as usize] = !state.registers[inst.arg1 as usize];
            Ok(())
        },
        0xC => {
            // JMPZ: jump to the first register's address if the second is
            // zero.  The program counter lands two bytes short, because the
            // fetch that follows advances it.
            if inst.arg2 as usize >= NUM_REGS {
                return Err("Error: Unknown register name.");
            }
            if state.registers[inst.arg2 as usize] == 0 {
                if state.registers[inst.arg1 as usize] < 2 {
                    return Err("Error: Jump target before the first instruction.");
                }
                state.pc = state.registers[inst.arg1 as usize] - 2;
            }
            Ok(())
        },
        0xD => {
            // RET: return to the address saved on the call stack.
            match stack.stack_pop() {
                Ok(ret) => {
                    state.pc = ret;
                    Ok(())
                },
                Err(_) => Err("Error in CPU: Stack pop failed in RET."),
            }
        },
        0xE => {
            // CALL: save the program counter and jump to the function.
            match stack.stack_push(state.pc) {
                Ok(_) => {
                    state.pc = inst.arg2;
                    Ok(())
                },
                Err(e) => Err(e),
            }
        },
        _ => {
            // HLT: the opcode is four bits, so everything else is 0xF.
            proof {
                assert(instr.0 / 16 <= 15);
            }
            state.running = false;
            Ok(())
        },
    }
}

} // verus!
