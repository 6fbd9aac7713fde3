//! The instruction set's opcode table and register-name mapping.

use vstd::prelude::*;
use vstd::string::{StrSliceExecFns, StringExecFns};

use crate::cpu::NUM_REGS;
use crate::text::{parse_u8, spec_parse_u8, str_eq, strip_colons};

verus! {

/// A name resolves either to an instruction's opcode byte or to a label.
pub enum InstructionNameMap {
    Instruction(u8),
    Label(String),
}

/// The opcode an instruction name encodes to, in the high four bits of the
/// first instruction byte.
pub open spec fn spec_upcode(s: Seq<char>) -> Option<u8> {
    if s == "LDI"@ {
        Some(0u8)
    } else if s == "LD"@ {
        Some(16u8)
    } else if s == "ST"@ {
        Some(32u8)
    } else if s == "MOV"@ {
        Some(48u8)
    } else if s == "ADD"@ {
        Some(64u8)
    } else if s == "SUB"@ {
        Some(80u8)
    } else if s == "MUL"@ {
        Some(96u8)
    } else if s == "ADDI"@ {
        Some(112u8)
    } else if s == "AND"@ {
        Some(128u8)
    } else if s == "OR"@ {
        Some(144u8)
    } else if s == "XOR"@ {
        Some(160u8)
    } else if s == "NOT"@ {
        Some(176u8)
    } else if s == "JMPZ"@ {
        Some(192u8)
    } else if s == "RET"@ {
        Some(208u8)
    } else if s == "CALL"@ {
        Some(224u8)
    } else if s == "HLT"@ {
        Some(240u8)
    } else {
        None
    }
}

/// The name ends in a colon, which marks a label declaration.
pub open spec fn is_label_name(s: Seq<char>) -> bool {
    s.len() > 0 && s.last() == ':'
}

/// Resolves an instruction name to its opcode, or a name ending in a colon
/// to a label with the trailing colons removed.  Any other name is an
/// error.
pub fn get_upcodes(name: &str) -> (r: Result<InstructionNameMap, &'static str>)
    ensures
        match spec_upcode(name@) {
            Some(u) => r == Ok::<InstructionNameMap, &'static str>(
                InstructionNameMap::Instruction(u),
            ),
            None => {
                if is_label_name(name@) {
                    r is Ok && r->Ok_0 is Label && r->Ok_0->Label_0@ == strip_colons(name@)
                } else {
                    r is Err
                }
            },
        },
{
    if str_eq(name, "LDI") {
        return Ok(InstructionNameMap::Instruction(0b0000_0000));
    }
    if str_eq(name, "LD") {
        return Ok(InstructionNameMap::Instruction(0b0001_0000));
    }
    if str_eq(name, "ST") {
        return Ok(InstructionNameMap::Instruction(0b0010_0000));
    }
    if str_eq(name, "MOV") {
        return Ok(InstructionNameMap::Instruction(0b0011_0000));
    }
    if str_eq(name, "ADD") {
        return Ok(InstructionNameMap::Instruction(0b0100_0000));
    }
    if str_eq(name, "SUB") {
        return Ok(InstructionNameMap::Instruction(0b0101_0000));
    }
    if str_eq(name, "MUL") {
        return Ok(InstructionNameMap::Instruction(0b0110_0000));
    }
    if str_eq(name, "ADDI") {
        return Ok(InstructionNameMap::Instruction(0b0111_0000));
    }
    if str_eq(name, "AND") {
        return Ok(InstructionNameMap::Instruction(0b1000_0000));
    }
    if str_eq(name, "OR") {
        return Ok(InstructionNameMap::Instruction(0b1001_0000));
    }
    if str_eq(name, "XOR") {
        return Ok(InstructionNameMap::Instruction(0b1010_0000));
    }
    if str_eq(name, "NOT") {
        return Ok(InstructionNameMap::Instruction(0b1011_0000));
    }
    if str_eq(name, "JMPZ") {
        return Ok(InstructionNameMap::Instruction(0b1100_0000));
    }
    if str_eq(name, "RET") {
        return Ok(InstructionNameMap::Instruction(0b1101_0000));
    }
    if str_eq(name, "CALL") {
        return Ok(InstructionNameMap::Instruction(0b1110_0000));
    }
    if str_eq(name, "HLT") {
        return Ok(InstructionNameMap::Instruction(0b1111_0000));
    }
    let n = name.unicode_len();
    if n > 0 && name.get_char(n - 1) == ':' {
        // A label: remove every trailing colon.
        proof {
            assert(name@.take(n as int) =~= name@);
        }
        let mut end = n;
        while end > 0 && name.get_char(end - 1) == ':'
            invariant
                end <= n,
                n == name@.len(),
                strip_colons(name@.take(end as int)) == strip_colons(name@),
            decreases end,
        {
            proof {
                assert(name@.take(end as int).drop_last() =~= name@.take(end - 1));
            }
            end -= 1;
        }
        let lab = name.substring_char(0, end);
        proof {
            assert(name@.take(end as int) =~= name@.subrange(0, end as int));
        }
        return Ok(InstructionNameMap::Label(String::from_str(lab)));
    }
    Err("Error: Instruction does not exist.")
}

/// The byte a register name or immediate argument encodes to: `rN` maps to
/// the register number, bare decimal text to its value.  `rN` with a number
/// that is not a register, or text that is neither form, encodes to
/// nothing.
pub open spec fn spec_reg_value(s: Seq<char>) -> Option<u8> {
    if s.len() > 0 && s[0] == 'r' {
        match spec_parse_u8(s.subrange(1, s.len() as int)) {
            Some(v) => if v < 16 {
                Some(v)
            } else {
                None
            },
            None => None,
        }
    } else {
        spec_parse_u8(s)
    }
}

/// [`spec_reg_value`], computed: `None` where [`map_register_to_value`]
/// would be a caller error.
pub fn try_register_value(reg: &str) -> (r: Option<u8>)
    ensures
        r == spec_reg_value(reg@),
{
    let n = reg.unicode_len();
    if n > 0 && reg.get_char(0) == 'r' {
        let rest = reg.substring_char(1, n);
        proof {
            assert(rest@ =~= reg@.subrange(1, reg@.len() as int));
        }
        match parse_u8(rest) {
            Some(v) => {
                if (v as usize) < NUM_REGS {
                    Some(v)
                } else {
                    None
                }
            },
            None => None,
        }
    } else {
        parse_u8(reg)
    }
}

/// The byte a register name or immediate encodes to.  Text in neither form
/// is a caller programming error and is ruled out up front.
pub fn map_register_to_value(reg: &str) -> (r: u8)
    requires
        spec_reg_value(reg@) is Some,
    ensures
        Some(r) == spec_reg_value(reg@),
{
    match try_register_value(reg) {
        Some(v) => v,
        None => {
            proof {
                assert(false);
            }
            0
        },
    }
}

} // verus!
