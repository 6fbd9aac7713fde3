//! From assembly text to the machine's two-byte instructions.
//!
//! A source line is split on whitespace into an instruction name and up to
//! two arguments.  Labels (names ending in a colon) go to the symbol table
//! at the address of the instruction that follows them; every other line
//! encodes to an opcode byte carrying the first argument and a second byte
//! carrying the other argument, a register number, an immediate, or a
//! label's address.

use vstd::prelude::*;
use vstd::string::{StrSliceExecFns, StringExecFns};

use crate::instruction_mapping::{
    get_upcodes, is_label_name, spec_reg_value, spec_upcode, try_register_value,
    InstructionNameMap,
};
use crate::memory;
use crate::parser;
use crate::symtab::{lookup_spec, Function, SymTab};
use crate::text::{
    is_space_char, semi_end, semi_end_exec, skip_spaces, skip_spaces_exec, str_eq, strip_colons,
    token_end, token_end_exec, trim_leading, trim_trailing,
};

verus! {

/// One source line split into an instruction name and up to two arguments.
pub struct InstructionTokenized {
    pub name: Option<String>,
    pub arg1: Option<String>,
    pub arg2: Option<String>,
}

impl InstructionTokenized {
    /// The name's characters, when there is one.
    pub open spec fn name_view(&self) -> Option<Seq<char>> {
        match self.name {
            Some(s) => Some(s@),
            None => None,
        }
    }

    /// The first argument's characters, when there is one.
    pub open spec fn arg1_view(&self) -> Option<Seq<char>> {
        match self.arg1 {
            Some(s) => Some(s@),
            None => None,
        }
    }

    /// The second argument's characters, when there is one.
    pub open spec fn arg2_view(&self) -> Option<Seq<char>> {
        match self.arg2 {
            Some(s) => Some(s@),
            None => None,
        }
    }
}

/// The first three whitespace-separated tokens of a line, each `None` when
/// the line runs out.
pub open spec fn spec_tokens3(s: Seq<char>) -> (Option<Seq<char>>, Option<Seq<char>>, Option<
    Seq<char>,
>) {
    let a = skip_spaces(s, 0);
    if a >= s.len() {
        (None, None, None)
    } else {
        let b = token_end(s, a);
        let t1 = s.subrange(a, b);
        let c = skip_spaces(s, b);
        if c >= s.len() {
            (Some(t1), None, None)
        } else {
            let d = token_end(s, c);
            let t2 = s.subrange(c, d);
            let e = skip_spaces(s, d);
            if e >= s.len() {
                (Some(t1), Some(t2), None)
            } else {
                (Some(t1), Some(t2), Some(s.subrange(e, token_end(s, e))))
            }
        }
    }
}

/// Splits one source line into its first three whitespace-separated tokens.
fn tokenize_helper(inst: String) -> (token: InstructionTokenized)
    ensures
        token.name_view() == spec_tokens3(inst@).0,
        token.arg1_view() == spec_tokens3(inst@).1,
        token.arg2_view() == spec_tokens3(inst@).2,
{
    let s = inst.as_str();
    let n = s.unicode_len();

    let a = skip_spaces_exec(s, 0);
    if a >= n {
        return InstructionTokenized { name: None, arg1: None, arg2: None };
    }
    let b = token_end_exec(s, a);
    let name = String::from_str(s.substring_char(a, b));

    let c = skip_spaces_exec(s, b);
    if c >= n {
        return InstructionTokenized { name: Some(name), arg1: None, arg2: None };
    }
    let d = token_end_exec(s, c);
    let arg1 = String::from_str(s.substring_char(c, d));

    let e = skip_spaces_exec(s, d);
    if e >= n {
        return InstructionTokenized { name: Some(name), arg1: Some(arg1), arg2: None };
    }
    let f = token_end_exec(s, e);
    let arg2 = String::from_str(s.substring_char(e, f));
    InstructionTokenized { name: Some(name), arg1: Some(arg1), arg2: Some(arg2) }
}

/// Tokenizes every source line and validates each token; the first invalid
/// line makes the whole program invalid.
pub fn tokenize_instructions(insts: Vec<String>) -> (r: Result<
    Vec<InstructionTokenized>,
    &'static str,
>)
    ensures
        r is Ok <==> (forall|k: int|
            0 <= k < insts@.len() ==> parser::spec_valid_instruction(
                #[trigger] spec_tokens3(insts@[k]@),
            )),
        r is Ok ==> {
            let ts = r->Ok_0;
            &&& ts@.len() == insts@.len()
            &&& forall|k: int|
                0 <= k < insts@.len() ==> (#[trigger] ts@[k]).name_view() == spec_tokens3(
                    insts@[k]@,
                ).0 && ts@[k].arg1_view() == spec_tokens3(insts@[k]@).1 && ts@[k].arg2_view()
                    == spec_tokens3(insts@[k]@).2
        },
{
    let mut tokens: Vec<InstructionTokenized> = Vec::new();
    let mut i: usize = 0;
    while i < insts.len()
        invariant
            i <= insts@.len(),
            tokens@.len() == i,
            forall|k: int|
                0 <= k < i ==> (#[trigger] tokens@[k]).name_view() == spec_tokens3(insts@[k]@).0
                    && tokens@[k].arg1_view() == spec_tokens3(insts@[k]@).1
                    && tokens@[k].arg2_view() == spec_tokens3(insts@[k]@).2,
            forall|k: int|
                0 <= k < i ==> parser::spec_valid_instruction(#[trigger] spec_tokens3(insts@[k]@)),
        decreases insts@.len() - i,
    {
        let s = insts[i].clone();
        proof {
            // A clone of a string keeps its characters.
            assert(s@ == insts@[i as int]@);
        }
        let t = tokenize_helper(s);
        match parser::is_valid_instruction(&t) {
            Ok(_) => {},
            Err(e) => {
                return Err(e);
            },
        }
        tokens.push(t);
        i += 1;
    }
    Ok(tokens)
}

/// The tokens of one line, as character sequences.
pub open spec fn tok_view(t: InstructionTokenized) -> (
    Option<Seq<char>>,
    Option<Seq<char>>,
    Option<Seq<char>>,
) {
    (t.name_view(), t.arg1_view(), t.arg2_view())
}

/// The two instruction bytes a token encodes to, given the symbol table:
/// the opcode plus the first argument's register number in the first byte,
/// and the second argument — a register number, an immediate, or for `CALL`
/// the called label's address — in the second.  Nothing when the name is no
/// instruction, an argument is malformed, a called label is unknown, or the
/// first byte overflows.
pub open spec fn spec_token_value(
    t: (Option<Seq<char>>, Option<Seq<char>>, Option<Seq<char>>),
    entries: Seq<(Seq<char>, u8)>,
) -> Option<(u8, u8)> {
    match t.0 {
        None => None,
        Some(n) => match spec_upcode(n) {
            None => None,
            Some(up) => match (t.1, t.2) {
                (Some(a1), Some(a2)) => match (spec_reg_value(a1), spec_reg_value(a2)) {
                    (Some(v1), Some(v2)) => if up + v1 <= 255 {
                        Some(((up + v1) as u8, v2))
                    } else {
                        None
                    },
                    _ => None,
                },
                (Some(a1), None) => if n == "CALL"@ {
                    match lookup_spec(entries, a1) {
                        Some(addr) => Some((up, addr)),
                        None => None,
                    }
                } else {
                    match spec_reg_value(a1) {
                        Some(v1) => if up + v1 <= 255 {
                            Some(((up + v1) as u8, 0u8))
                        } else {
                            None
                        },
                        None => None,
                    }
                },
                (None, None) => Some((up, 0u8)),
                (None, Some(_)) => None,
            },
        },
    }
}

/// Encodes one token into its two instruction bytes, looking called labels
/// up in the symbol table.
fn token_to_value(token: &InstructionTokenized, symtab: &SymTab) -> (r: Result<
    (u8, u8),
    &'static str,
>)
    ensures
        r is Ok <==> spec_token_value(tok_view(*token), symtab.entries()) is Some,
        r is Ok ==> r->Ok_0 == spec_token_value(tok_view(*token), symtab.entries())->Some_0,
{
    let name = match &token.name {
        Some(n) => n,
        None => {
            return Err("Error: Name is none");
        },
    };
    let upcode: u8;
    match get_upcodes(name.as_str()) {
        Ok(InstructionNameMap::Instruction(u)) => {
            upcode = u;
        },
        Ok(InstructionNameMap::Label(_)) => {
            return Err("Error: Name was not an instruction.");
        },
        Err(_) => {
            return Err("Error: Could not retrieve upcode.");
        },
    }

    match (&token.arg1, &token.arg2) {
        (Some(a1), Some(a2)) => {
            let v1 = match try_register_value(a1.as_str()) {
                Some(v) => v,
                None => {
                    return Err("Error: Unidentified register name or immediate value.");
                },
            };
            let v2 = match try_register_value(a2.as_str()) {
                Some(v) => v,
                None => {
                    return Err("Error: Unidentified register name or immediate value.");
                },
            };
            if v1 > u8::MAX - upcode {
                return Err("Error: First argument does not fit the instruction byte.");
            }
            Ok((upcode + v1, v2))
        },
        (Some(a1), None) => {
            if str_eq(name.as_str(), "CALL") {
                match symtab.symtab_lookup(a1.as_str()) {
                    Ok(f) => Ok((upcode, f)),
                    Err(_) => Err("Error: Symbol not found in symtab."),
                }
            } else {
                let v1 = match try_register_value(a1.as_str()) {
                    Some(v) => v,
                    None => {
                        return Err("Error: Unidentified register name or immediate value.");
                    },
                };
                if v1 > u8::MAX - upcode {
                    return Err("Error: First argument does not fit the instruction byte.");
                }
                Ok((upcode + v1, 0))
            }
        },
        (None, None) => Ok((upcode, 0)),
        (None, Some(_)) => Err("Error: Token had only a second arg"),
    }
}

/// The symbol table after filing every label at the address of the
/// instruction that follows it, each instruction taking two bytes.  Nothing
/// when a name is missing or unknown, a label is declared twice, or the
/// address space runs out.
pub open spec fn spec_labels(
    toks: Seq<(Option<Seq<char>>, Option<Seq<char>>, Option<Seq<char>>)>,
    k: int,
    entries: Seq<(Seq<char>, u8)>,
    addr: int,
) -> Option<Seq<(Seq<char>, u8)>>
    decreases toks.len() - k
        when 0 <= k <= toks.len()
{
    if k == toks.len() {
        Some(entries)
    } else {
        match toks[k].0 {
            None => None,
            Some(n) => match spec_upcode(n) {
                Some(_) => if addr + 2 > 255 {
                    None
                } else {
                    spec_labels(toks, k + 1, entries, addr + 2)
                },
                None => if is_label_name(n) {
                    if lookup_spec(entries, strip_colons(n)) is Some {
                        None
                    } else {
                        spec_labels(toks, k + 1, entries.push((strip_colons(n), addr as u8)), addr)
                    }
                } else {
                    None
                },
            },
        }
    }
}

/// The instruction bytes the tokens encode to, labels contributing nothing,
/// given the finished symbol table.
pub open spec fn spec_emit(
    toks: Seq<(Option<Seq<char>>, Option<Seq<char>>, Option<Seq<char>>)>,
    k: int,
    entries: Seq<(Seq<char>, u8)>,
) -> Option<Seq<u8>>
    decreases toks.len() - k
        when 0 <= k <= toks.len()
{
    if k == toks.len() {
        Some(Seq::<u8>::empty())
    } else {
        match toks[k].0 {
            None => None,
            Some(n) => match spec_upcode(n) {
                Some(_) => match spec_token_value(toks[k], entries) {
                    Some(bs) => match spec_emit(toks, k + 1, entries) {
                        Some(rest) => Some(seq![bs.0, bs.1] + rest),
                        None => None,
                    },
                    None => None,
                },
                None => if is_label_name(n) {
                    spec_emit(toks, k + 1, entries)
                } else {
                    None
                },
            },
        }
    }
}

/// The views of a token list.
pub open spec fn toks_view(insts: Seq<InstructionTokenized>) -> Seq<
    (Option<Seq<char>>, Option<Seq<char>>, Option<Seq<char>>),
> {
    insts.map_values(|t: InstructionTokenized| tok_view(t))
}

/// Turns tokenized instructions into the program's bytes: a first pass
/// files every label in the symbol table at the address of the instruction
/// that follows it, a second pass encodes each instruction into two bytes,
/// and a program too large for the machine's memory is refused.
#[verifier::loop_isolation(false)]
fn write_tokens_to_mem(insts: Vec<InstructionTokenized>, symtab: &mut SymTab) -> (r: Result<
    Vec<u8>,
    &'static str,
>)
    ensures
        match spec_labels(toks_view(insts@), 0, old(symtab).entries(), 0) {
            None => r is Err,
            Some(entries2) => {
                &&& final(symtab).entries() == entries2
                &&& match spec_emit(toks_view(insts@), 0, entries2) {
                    None => r is Err,
                    Some(bytes) => if bytes.len() < 1024 {
                        r is Ok && r->Ok_0@ == bytes
                    } else {
                        r is Err
                    },
                }
            },
        },
{
    let ghost toks = toks_view(insts@);
    let ghost es0 = symtab.entries();

    // First pass: file the labels, counting two bytes per instruction.
    let mut current_address: u8 = 0;
    let mut i: usize = 0;
    while i < insts.len()
        invariant
            i <= insts@.len(),
            spec_labels(toks, i as int, symtab.entries(), current_address as int) == spec_labels(
                toks,
                0,
                es0,
                0,
            ),
        decreases insts@.len() - i,
    {
        proof {
            assert(toks[i as int] == tok_view(insts@[i as int]));
        }
        match &insts[i].name {
            Some(name) => {
                match get_upcodes(name.as_str()) {
                    Ok(InstructionNameMap::Instruction(_)) => {
                        if current_address > 253 {
                            return Err("Error: Program address space exhausted.");
                        }
                        current_address += 2;
                    },
                    Ok(InstructionNameMap::Label(l)) => {
                        let fun = Function::new(l, current_address);
                        match symtab.symtab_insert(fun) {
                            Ok(_) => {},
                            Err(e) => {
                                return Err(e);
                            },
                        }
                    },
                    Err(e) => {
                        return Err(e);
                    },
                }
            },
            None => {
                return Err("Error: Empty instruction, name is None.");
            },
        }
        i += 1;
    }
    let ghost entries2 = symtab.entries();

    // Second pass: encode every instruction, skipping the labels.
    let mut mem: Vec<u8> = Vec::new();
    let mut j: usize = 0;
    while j < insts.len()
        invariant
            j <= insts@.len(),
            symtab.entries() == entries2,
            spec_labels(toks, 0, es0, 0) == Some(entries2),
            spec_emit(toks, 0, entries2) is Some <==> spec_emit(toks, j as int, entries2) is Some,
            spec_emit(toks, 0, entries2) is Some ==> spec_emit(toks, 0, entries2)->Some_0 == mem@
                + spec_emit(toks, j as int, entries2)->Some_0,
        decreases insts@.len() - j,
    {
        proof {
            assert(toks[j as int] == tok_view(insts@[j as int]));
        }
        match &insts[j].name {
            Some(name) => {
                match get_upcodes(name.as_str()) {
                    Ok(InstructionNameMap::Instruction(_)) => {
                        match token_to_value(&insts[j], symtab) {
                            Ok((e1, e2)) => {
                                mem.push(e1);
                                mem.push(e2);
                                proof {
                                    if spec_emit(toks, 0, entries2) is Some {
                                        assert(mem@ + spec_emit(toks, j + 1, entries2)->Some_0
                                            =~= mem@.drop_last().drop_last() + spec_emit(
                                            toks,
                                            j as int,
                                            entries2,
                                        )->Some_0);
                                    }
                                }
                            },
                            Err(e) => {
                                return Err(e);
                            },
                        }
                    },
                    Ok(InstructionNameMap::Label(_)) => {},
                    Err(e) => {
                        return Err(e);
                    },
                }
            },
            None => {
                return Err("Error: Empty instruction, name is None.");
            },
        }
        j += 1;
    }
    proof {
        if spec_emit(toks, 0, entries2) is Some {
            assert(spec_emit(toks, 0, entries2)->Some_0 =~= mem@);
        }
    }

    // The program must fit in memory.
    if memory::assert_memory_size(mem.as_slice()) {
        Ok(mem)
    } else {
        Err("Error: Program exceeded maximum size.")
    }
}

/// One source line with its comment cut off and surrounding whitespace
/// trimmed.
pub open spec fn spec_clean(s: Seq<char>) -> Seq<char> {
    trim_leading(trim_trailing(s.take(semi_end(s, 0))))
}

/// The cleaned lines of a program, the empty ones dropped.
pub open spec fn cleaned_lines(ls: Seq<Seq<char>>, k: int) -> Seq<Seq<char>>
    decreases ls.len() - k
        when 0 <= k <= ls.len()
{
    if k == ls.len() {
        Seq::empty()
    } else {
        let c = spec_clean(ls[k]);
        if c.len() == 0 {
            cleaned_lines(ls, k + 1)
        } else {
            seq![c] + cleaned_lines(ls, k + 1)
        }
    }
}

/// The views of a list of lines.
pub open spec fn lines_view(ls: Seq<String>) -> Seq<Seq<char>> {
    ls.map_values(|l: String| l@)
}

/// Strips comments and whitespace from the program's source lines, drops
/// the lines left empty, and refuses a program with no entry point: one of
/// the remaining lines must read exactly `_START:`.
#[verifier::loop_isolation(false)]
pub fn prepare_program(lines: Vec<String>) -> (r: Result<Vec<String>, &'static str>)
    ensures
        ({
            let cl = cleaned_lines(lines_view(lines@), 0);
            &&& (r is Ok <==> exists|k: int| 0 <= k < cl.len() && #[trigger] cl[k] == "_START:"@)
            &&& (r is Ok ==> lines_view(r->Ok_0@) == cl)
        }),
{
    let ghost lv = lines_view(lines@);
    let mut out: Vec<String> = Vec::new();
    let mut i: usize = 0;
    proof {
        assert(lines_view(out@) + cleaned_lines(lv, 0) =~= cleaned_lines(lv, 0));
    }
    while i < lines.len()
        invariant
            i <= lines@.len(),
            cleaned_lines(lv, 0) == lines_view(out@) + cleaned_lines(lv, i as int),
        decreases lines@.len() - i,
    {
        let s = lines[i].as_str();

        // Cut the comment off.
        let cut = semi_end_exec(s, 0);
        let ghost piece = s@.take(cut as int);

        // Trim trailing whitespace.
        let mut end = cut;
        proof {
            assert(s@.take(end as int) =~= piece);
        }
        while end > 0 && is_space_char(s.get_char(end - 1))
            invariant
                end <= cut,
                cut <= s@.len(),
                trim_trailing(s@.take(end as int)) == trim_trailing(piece),
            decreases end,
        {
            proof {
                assert(s@.take(end as int).drop_last() =~= s@.take(end - 1));
            }
            end -= 1;
        }
        let ghost tt = trim_trailing(piece);
        proof {
            assert(s@.take(end as int) == tt);
        }

        // Trim leading whitespace.
        let mut start: usize = 0;
        proof {
            assert(s@.subrange(0, end as int) =~= s@.take(end as int));
        }
        while start < end && is_space_char(s.get_char(start))
            invariant
                start <= end,
                end <= s@.len(),
                trim_leading(s@.subrange(start as int, end as int)) == trim_leading(tt),
            decreases end - start,
        {
            proof {
                assert(s@.subrange(start as int, end as int).drop_first() =~= s@.subrange(
                    start + 1,
                    end as int,
                ));
            }
            start += 1;
        }
        let ghost cleaned = spec_clean(lv[i as int]);
        proof {
            assert(s@.subrange(start as int, end as int) == cleaned);
        }

        let ghost out_pre = out@;
        if start < end {
            let piece_str = s.substring_char(start, end);
            out.push(String::from_str(piece_str));
            proof {
                assert(lines_view(out@) =~= lines_view(out_pre).push(cleaned));
            }
        }
        proof {
            if cleaned.len() > 0 {
                assert(lines_view(out_pre) + (seq![cleaned] + cleaned_lines(lv, i + 1)) =~=
                lines_view(out@) + cleaned_lines(lv, i + 1));
            }
        }
        i += 1;
    }
    proof {
        assert(cleaned_lines(lv, i as int) =~= Seq::<Seq<char>>::empty());
        assert(lines_view(out@) + cleaned_lines(lv, i as int) =~= lines_view(out@));
    }

    // The program must declare its entry point.
    let mut j: usize = 0;
    while j < out.len()
        invariant
            j <= out@.len(),
            cleaned_lines(lv, 0) == lines_view(out@),
            forall|k: int| 0 <= k < j ==> #[trigger] lines_view(out@)[k] != "_START:"@,
        decreases out@.len() - j,
    {
        if str_eq(out[j].as_str(), "_START:") {
            proof {
                assert(cleaned_lines(lv, 0)[j as int] == "_START:"@);
            }
            return Ok(out);
        }
        j += 1;
    }
    Err("Error: Program has no entry point.")
}

/// The whole pipeline in one statement: a program's bytes, or nothing when
/// any stage refuses the source — no entry point, an invalid line, a bad
/// label or argument, or a program too large for memory.
pub open spec fn spec_assemble(ls: Seq<Seq<char>>) -> Option<Seq<u8>> {
    let cl = cleaned_lines(ls, 0);
    if !(exists|k: int| 0 <= k < cl.len() && #[trigger] cl[k] == "_START:"@) {
        None
    } else if !(forall|k: int|
        0 <= k < cl.len() ==> parser::spec_valid_instruction(#[trigger] spec_tokens3(cl[k]))) {
        None
    } else {
        let toks = cl.map_values(|l: Seq<char>| spec_tokens3(l));
        match spec_labels(toks, 0, Seq::empty(), 0) {
            None => None,
            Some(es) => match spec_emit(toks, 0, es) {
                None => None,
                Some(bytes) => if bytes.len() < 1024 {
                    Some(bytes)
                } else {
                    None
                },
            },
        }
    }
}

/// Assembles a program's source lines into its memory image: cleans the
/// lines, tokenizes and validates them, files the labels, and encodes every
/// instruction into two bytes.
pub fn init_program_in_memory(lines: Vec<String>) -> (r: Result<Vec<u8>, &'static str>)
    ensures
        r is Ok <==> spec_assemble(lines_view(lines@)) is Some,
        r is Ok ==> Some(r->Ok_0@) == spec_assemble(lines_view(lines@)),
{
    let ghost cl = cleaned_lines(lines_view(lines@), 0);
    let mut symtab = SymTab::new();
    let parsed_prg = match prepare_program(lines) {
        Ok(p) => p,
        Err(e) => {
            return Err(e);
        },
    };
    proof {
        assert(lines_view(parsed_prg@) == cl);
        assert(forall|k: int|
            0 <= k < parsed_prg@.len() ==> (#[trigger] parsed_prg@[k])@ == cl[k]);
    }
    let tokens = match tokenize_instructions(parsed_prg) {
        Ok(t) => t,
        Err(e) => {
            return Err(e);
        },
    };
    proof {
        assert(toks_view(tokens@) =~= cl.map_values(|l: Seq<char>| spec_tokens3(l)));
    }
    match write_tokens_to_mem(tokens, &mut symtab) {
        Ok(mem) => Ok(mem),
        Err(e) => Err(e),
    }
}

} // verus!
