//! Validation of tokenized assembly instructions.

use vstd::prelude::*;

use crate::assembler::InstructionTokenized;
use crate::instruction_mapping::{is_label_name, spec_upcode};
use crate::text::{parse_u8, spec_parse_u8, str_eq};
use vstd::string::StrSliceExecFns;

verus! {

/// The token names one of the sixteen registers.
pub open spec fn is_register_token(s: Seq<char>) -> bool {
    ||| s == "r0"@
    ||| s == "r1"@
    ||| s == "r2"@
    ||| s == "r3"@
    ||| s == "r4"@
    ||| s == "r5"@
    ||| s == "r6"@
    ||| s == "r7"@
    ||| s == "r8"@
    ||| s == "r9"@
    ||| s == "r10"@
    ||| s == "r11"@
    ||| s == "r12"@
    ||| s == "r13"@
    ||| s == "r14"@
    ||| s == "r15"@
}

/// What makes a tokenized line valid: a function label (underscore first,
/// colon last), or a known instruction name whose arguments fit — two
/// arguments need a register first and a register or immediate second; a
/// single argument may be an immediate, a label reference, or a register; a
/// second argument without a first is never valid.
pub open spec fn spec_valid_instruction(
    t: (Option<Seq<char>>, Option<Seq<char>>, Option<Seq<char>>),
) -> bool {
    match t.0 {
        None => false,
        Some(n) => {
            if spec_upcode(n) is None {
                is_label_name(n) && n.len() > 0 && n[0] == '_'
            } else {
                match (t.1, t.2) {
                    (Some(a1), Some(a2)) => is_register_token(a1) && (is_register_token(a2)
                        || spec_parse_u8(a2) is Some),
                    (None, None) => true,
                    (Some(a1), None) => spec_parse_u8(a1) is Some || (a1.len() > 0 && a1[0] == '_')
                        || is_register_token(a1),
                    (None, Some(_)) => false,
                }
            }
        },
    }
}

/// Whether the token names one of the sixteen registers.
fn is_register_token_exec(s: &str) -> (r: bool)
    ensures
        r == is_register_token(s@),
{
    str_eq(s, "r0") || str_eq(s, "r1") || str_eq(s, "r2") || str_eq(s, "r3") || str_eq(s, "r4")
        || str_eq(s, "r5") || str_eq(s, "r6") || str_eq(s, "r7") || str_eq(s, "r8") || str_eq(
        s,
        "r9",
    ) || str_eq(s, "r10") || str_eq(s, "r11") || str_eq(s, "r12") || str_eq(s, "r13") || str_eq(
        s,
        "r14",
    ) || str_eq(s, "r15")
}

/// Whether the token names one of the sixteen instructions.
fn is_instruction_name_exec(s: &str) -> (r: bool)
    ensures
        r == (spec_upcode(s@) is Some),
{
    str_eq(s, "LDI") || str_eq(s, "LD") || str_eq(s, "ST") || str_eq(s, "MOV") || str_eq(s, "ADD")
        || str_eq(s, "SUB") || str_eq(s, "MUL") || str_eq(s, "ADDI") || str_eq(s, "AND") || str_eq(
        s,
        "OR",
    ) || str_eq(s, "XOR") || str_eq(s, "NOT") || str_eq(s, "JMPZ") || str_eq(s, "RET") || str_eq(
        s,
        "CALL",
    ) || str_eq(s, "HLT")
}

/// Checks one tokenized line; accepted exactly when
/// [`spec_valid_instruction`] holds of its tokens.
pub fn is_valid_instruction(inst: &InstructionTokenized) -> (r: Result<(), &'static str>)
    ensures
        r is Ok <==> spec_valid_instruction(
            (inst.name_view(), inst.arg1_view(), inst.arg2_view()),
        ),
{
    let name = match &inst.name {
        Some(n) => n,
        None => {
            return Err("Error: Name was None, should never happen.");
        },
    };

    // A name that is no instruction must be a function label.
    if !is_instruction_name_exec(name.as_str()) {
        let s = name.as_str();
        let n = s.unicode_len();
        if n > 0 && s.get_char(n - 1) == ':' && s.get_char(0) == '_' {
            return Ok(());
        }
        return Err("Error: Instruction name does not exist, and is not a function label.");
    }

    // It is an instruction: check the arguments.
    match (&inst.arg1, &inst.arg2) {
        (Some(arg1), Some(arg2)) => {
            if is_register_token_exec(arg1.as_str()) {
                if is_register_token_exec(arg2.as_str()) {
                    Ok(())
                } else if parse_u8(arg2.as_str()).is_some() {
                    Ok(())
                } else {
                    Err("Error: Arg2 is not valid.")
                }
            } else {
                Err("Error: Arg1 is not valid")
            }
        },
        (None, None) => Ok(()),
        (Some(arg1), None) => {
            let s = arg1.as_str();
            if parse_u8(s).is_some() || (s.unicode_len() > 0 && s.get_char(0) == '_')
                || is_register_token_exec(s) {
                Ok(())
            } else {
                Err("Error: Instruction had 1 argument, but the argument was invalid.")
            }
        },
        (None, Some(_)) => Err("Error: Has arg2 but not arg1"),
    }
}

} // verus!
