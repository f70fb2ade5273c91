//! Instruction sequences that appear in no program.

use vstd::prelude::*;

use crate::decoder::{
    is_illegal_opcode, mnemonic_of_opcode, opcode_is_illegal, opcode_mnemonic, Argument, Ins,
    ParseMode, ParsedIns, Reg, Register,
};
use crate::text::same_text;

verus! {

/// Detects illegal code sequences that never appear in any game.
#[derive(Clone, Copy, Debug, PartialEq, Eq)]
pub enum IllegalCodeState {
    Start,
    /// The last instruction shifted the value of `reg`.
    ShiftedRegisterValue { reg: Register },
    Illegal { reason: &'static str },
}

impl Default for IllegalCodeState {
    fn default() -> (res: Self)
        ensures
            res == IllegalCodeState::Start,
    {
        IllegalCodeState::Start
    }
}

/// Byte sequences that are found in data only.
pub const ILLEGAL_CODE_PATTERNS: [[u8; 8]; 1] = [[0x00, 0x02, 0x03, 0x00, 0x04, 0x00, 0x00, 0x00]];

/// Whether `mnemonic` is that of a shift or a rotation.
pub open spec fn is_shift(mnemonic: Seq<char>) -> bool {
    ||| mnemonic == "lsl"@
    ||| mnemonic == "lsls"@
    ||| mnemonic == "lsr"@
    ||| mnemonic == "lsrs"@
    ||| mnemonic == "asr"@
    ||| mnemonic == "asrs"@
    ||| mnemonic == "ror"@
    ||| mnemonic == "rors"@
}

/// `lsl r0, r0, #0`, which in Thumb with divided syntax is 0000 in hex and does
/// nothing.
pub open spec fn is_no_op(thumb: bool, parsed: ParsedIns) -> bool {
    &&& thumb
    &&& parsed.mnemonic@ == "lsl"@
    &&& parsed.args@[0] matches Argument::Reg(Reg { reg: Register::R0, .. })
    &&& parsed.args@[1] matches Argument::Reg(Reg { reg: Register::R0, .. })
    &&& parsed.args@[2] == Argument::UImm(0)
}

/// The register that an instruction shifts, if it shifts one.
pub open spec fn shifted_register(opcode: Seq<char>, parsed: ParsedIns) -> Option<Register> {
    match parsed.args@[0] {
        Argument::Reg(Reg { reg, .. }) if is_shift(opcode) => Some(reg),
        _ => None,
    }
}

/// An instruction that stores several registers at the address in `reg`.
pub open spec fn stores_at(opcode: Seq<char>, parsed: ParsedIns, reg: Register) -> bool {
    &&& opcode == "stm"@ || opcode == "stmia"@
    &&& parsed.args@[0] matches Argument::Reg(base)
    &&& base.reg == reg
}

/// An instruction that stores at a register's value plus that same value.
pub open spec fn stores_at_double(opcode: Seq<char>, parsed: ParsedIns) -> bool {
    &&& opcode == "str"@
    &&& parsed.args@[1] matches Argument::Reg(base)
    &&& base.deref
    &&& parsed.args@[2] matches Argument::OffsetReg { reg: offset }
    &&& base.reg == offset
}

/// An instruction that loads the program counter from where it points.
pub open spec fn loads_pc_from_pc(opcode: Seq<char>, parsed: ParsedIns) -> bool {
    &&& opcode == "ldm"@
    &&& parsed.args@[0] matches Argument::Reg(Reg { reg: Register::Pc, .. })
    &&& parsed.args@[1] matches Argument::RegList(list)
    &&& list.has_pc()
}

impl IllegalCodeState {
    /// The state after one more instruction: one that is Thumb code or not, whose
    /// opcode is unknown or has the mnemonic `opcode`, and that is written as
    /// `parsed`.
    pub open spec fn after(
        self,
        thumb: bool,
        unknown: bool,
        opcode: Seq<char>,
        parsed: ParsedIns,
    ) -> Self {
        if unknown || parsed.mnemonic@ == "<illegal>"@ {
            IllegalCodeState::Illegal { reason: "illegal opcode" }
        } else if is_no_op(thumb, parsed) {
            IllegalCodeState::Illegal { reason: "Thumb no-op 'lsl r0, r0, #0' or 0000 in hex" }
        } else if shifted_register(opcode, parsed) is Some {
            IllegalCodeState::ShiftedRegisterValue { reg: shifted_register(opcode, parsed)->0 }
        } else if self is ShiftedRegisterValue && stores_at(
            opcode,
            parsed,
            self->ShiftedRegisterValue_reg,
        ) {
            IllegalCodeState::Illegal { reason: "dereferencing shifted registers" }
        } else if stores_at_double(opcode, parsed) {
            IllegalCodeState::Illegal { reason: "dereferencing registers offset by itself" }
        } else if loads_pc_from_pc(opcode, parsed) {
            IllegalCodeState::Illegal { reason: "reading from PC into PC" }
        } else {
            IllegalCodeState::Start
        }
    }

    /// The state after `ins`, which is written as `parsed_ins`.
    pub fn handle(self, ins: Ins, parsed_ins: &ParsedIns) -> (res: Self)
        ensures
            res == self.after(
                ins.mode is Thumb,
                opcode_is_illegal(ins),
                opcode_mnemonic(ins),
                *parsed_ins,
            ),
    {
        let unknown = is_illegal_opcode(ins);
        let opcode = mnemonic_of_opcode(ins);
        self.handle_decoded(ins.mode == ParseMode::Thumb, unknown, opcode, parsed_ins)
    }

    /// The state after an instruction of which the decoder has said whether it
    /// knows the opcode, and the opcode's mnemonic.
    pub fn handle_decoded(
        self,
        thumb: bool,
        unknown: bool,
        opcode: &str,
        parsed_ins: &ParsedIns,
    ) -> (res: Self)
        ensures
            res == self.after(thumb, unknown, opcode@, *parsed_ins),
    {
        if unknown || parsed_ins.is_illegal() {
            return IllegalCodeState::Illegal { reason: "illegal opcode" };
        }
        let args = parsed_ins.args;
        if thumb && same_text(parsed_ins.mnemonic, "lsl") {
            match (args[0], args[1], args[2]) {
                (
                    Argument::Reg(Reg { reg: Register::R0, .. }),
                    Argument::Reg(Reg { reg: Register::R0, .. }),
                    Argument::UImm(0),
                ) => {
                    // In Thumb with divided syntax, 0000 disassembles into
                    // lsl r0, r0, #0x0 and is a no-op
                    return IllegalCodeState::Illegal {
                        reason: "Thumb no-op 'lsl r0, r0, #0' or 0000 in hex",
                    };
                },
                _ => {},
            }
        }
        // Find registers with shifted value

        if same_text(opcode, "lsl") || same_text(opcode, "lsls") || same_text(opcode, "lsr")
            || same_text(opcode, "lsrs") || same_text(opcode, "asr") || same_text(opcode, "asrs")
            || same_text(opcode, "ror") || same_text(opcode, "rors") {
            if let Argument::Reg(Reg { reg, .. }) = args[0] {
                return IllegalCodeState::ShiftedRegisterValue { reg };
            }
        }
        // Dereferencing shifted registers

        if same_text(opcode, "stm") || same_text(opcode, "stmia") {
            if let IllegalCodeState::ShiftedRegisterValue { reg } = self {
                if let Argument::Reg(base) = args[0] {
                    if reg == base.reg {
                        return IllegalCodeState::Illegal {
                            reason: "dereferencing shifted registers",
                        };
                    }
                }
            }
        }
        // Dereferencing registers offset by the same register

        if same_text(opcode, "str") {
            if let Argument::Reg(base) = args[1] {
                if let Argument::OffsetReg { reg: offset } = args[2] {
                    if base.deref && base.reg == offset {
                        return IllegalCodeState::Illegal {
                            reason: "dereferencing registers offset by itself",
                        };
                    }
                }
            }
        }
        // Reading from PC into PC

        if same_text(opcode, "ldm") {
            if let Argument::Reg(base) = args[0] {
                if let Argument::RegList(reg_list) = args[1] {
                    if base.reg == Register::Pc && reg_list.contains_pc() {
                        return IllegalCodeState::Illegal { reason: "reading from PC into PC" };
                    }
                }
            }
        }
        IllegalCodeState::Start
    }
}

/// Whether a state is illegal for the reason given.
pub open spec fn is_illegal_for(state: IllegalCodeState, reason: Seq<char>) -> bool {
    state matches IllegalCodeState::Illegal { reason: r } && r@ == reason
}

proof fn lemma_reasons_differ()
    ensures
        "illegal opcode"@.len() == 14,
        "Thumb no-op 'lsl r0, r0, #0' or 0000 in hex"@.len() == 43,
        "dereferencing shifted registers"@.len() == 31,
        "dereferencing registers offset by itself"@.len() == 40,
        "reading from PC into PC"@.len() == 23,
{
    reveal_strlit("illegal opcode");
    reveal_strlit("Thumb no-op 'lsl r0, r0, #0' or 0000 in hex");
    reveal_strlit("dereferencing shifted registers");
    reveal_strlit("dereferencing registers offset by itself");
    reveal_strlit("reading from PC into PC");
}

proof fn lemma_opcodes_differ()
    ensures
        "lsl"@.len() == 3,
        "lsl"@[1] == 's',
        "lsr"@.len() == 3,
        "lsr"@[1] == 's',
        "asr"@.len() == 3,
        "asr"@[1] == 's',
        "ror"@.len() == 3,
        "ror"@[1] == 'o',
        "lsls"@.len() == 4,
        "lsrs"@.len() == 4,
        "asrs"@.len() == 4,
        "rors"@.len() == 4,
        "stm"@.len() == 3,
        "stm"@[1] == 't',
        "stm"@[2] == 'm',
        "stmia"@.len() == 5,
        "str"@.len() == 3,
        "str"@[1] == 't',
        "str"@[2] == 'r',
        "ldm"@.len() == 3,
        "ldm"@[1] == 'd',
{
    reveal_strlit("lsl");
    reveal_strlit("lsr");
    reveal_strlit("asr");
    reveal_strlit("ror");
    reveal_strlit("lsls");
    reveal_strlit("lsrs");
    reveal_strlit("asrs");
    reveal_strlit("rors");
    reveal_strlit("stm");
    reveal_strlit("stmia");
    reveal_strlit("str");
    reveal_strlit("ldm");
}

/// An instruction is illegal for its opcode exactly where the decoder knows no opcode
/// for it, or could not make sense of its operands.
pub proof fn law_illegal_opcodes(
    state: IllegalCodeState,
    thumb: bool,
    unknown: bool,
    opcode: Seq<char>,
    parsed: ParsedIns,
)
    ensures
        is_illegal_for(state.after(thumb, unknown, opcode, parsed), "illegal opcode"@) <==> unknown
            || parsed.mnemonic@ == "<illegal>"@,
{
    lemma_reasons_differ();
}

/// An instruction is the Thumb no-op exactly where it is a readable Thumb `lsl` of
/// `r0` into `r0` by the number zero, and by no other number.
pub proof fn law_no_op_shifts_by_zero(
    state: IllegalCodeState,
    thumb: bool,
    unknown: bool,
    opcode: Seq<char>,
    parsed: ParsedIns,
)
    ensures
        is_illegal_for(
            state.after(thumb, unknown, opcode, parsed),
            "Thumb no-op 'lsl r0, r0, #0' or 0000 in hex"@,
        ) <==> {
            &&& !unknown
            &&& parsed.mnemonic@ != "<illegal>"@
            &&& thumb
            &&& parsed.mnemonic@ == "lsl"@
            &&& parsed.args@[0] matches Argument::Reg(first)
            &&& first.reg == Register::R0
            &&& parsed.args@[1] matches Argument::Reg(second)
            &&& second.reg == Register::R0
            &&& parsed.args@[2] matches Argument::UImm(n)
            &&& n == 0
        },
{
    lemma_reasons_differ();
}

/// A Thumb `lsl r0, r0, #n` is illegal exactly where `n` is zero; otherwise `r0` is
/// remembered as shifted.
pub proof fn law_shift_of_r0(state: IllegalCodeState, n: u32, parsed: ParsedIns)
    requires
        parsed.mnemonic@ == "lsl"@,
        parsed.args@[0] matches Argument::Reg(first) && first.reg == Register::R0,
        parsed.args@[1] matches Argument::Reg(second) && second.reg == Register::R0,
        parsed.args@[2] == Argument::UImm(n),
    ensures
        n == 0 ==> state.after(true, false, "lsl"@, parsed) is Illegal,
        n != 0 ==> state.after(true, false, "lsl"@, parsed)
            == (IllegalCodeState::ShiftedRegisterValue { reg: Register::R0 }),
{
    reveal_strlit("<illegal>");
    lemma_opcodes_differ();
}

/// A register is remembered as shifted exactly behind a readable instruction with the
/// opcode of a shift or a rotation whose first operand is that register, and that is
/// not the Thumb no-op.
pub proof fn law_shifted_registers(
    state: IllegalCodeState,
    thumb: bool,
    unknown: bool,
    opcode: Seq<char>,
    parsed: ParsedIns,
    reg: Register,
)
    ensures
        state.after(thumb, unknown, opcode, parsed) == (IllegalCodeState::ShiftedRegisterValue {
            reg,
        }) <==> {
            &&& !unknown
            &&& parsed.mnemonic@ != "<illegal>"@
            &&& opcode == "lsl"@ || opcode == "lsls"@ || opcode == "lsr"@ || opcode == "lsrs"@
                || opcode == "asr"@ || opcode == "asrs"@ || opcode == "ror"@ || opcode == "rors"@
            &&& parsed.args@[0] matches Argument::Reg(first)
            &&& first.reg == reg
            &&& !(thumb && parsed.mnemonic@ == "lsl"@ && reg == Register::R0 && (
            parsed.args@[1] matches Argument::Reg(second) && second.reg == Register::R0)
                && parsed.args@[2] == Argument::UImm(0))
        },
{
}

/// Whether an instruction can be read, and is not the Thumb no-op.
pub open spec fn is_ordinary(thumb: bool, unknown: bool, parsed: ParsedIns) -> bool {
    &&& !unknown
    &&& parsed.mnemonic@ != "<illegal>"@
    &&& !(thumb && parsed.mnemonic@ == "lsl"@ && (parsed.args@[0] matches Argument::Reg(first)
        && first.reg == Register::R0) && (parsed.args@[1] matches Argument::Reg(second)
        && second.reg == Register::R0) && parsed.args@[2] == Argument::UImm(0))
}

/// Three more kinds of instructions are illegal, exactly these: a store of several
/// registers at a register that was just shifted, a store at a register that is used
/// as a base address, plus that same register, and a load of several registers, the
/// program counter among them, from the program counter.
pub proof fn law_illegal_accesses(
    state: IllegalCodeState,
    thumb: bool,
    unknown: bool,
    opcode: Seq<char>,
    parsed: ParsedIns,
)
    ensures
        is_illegal_for(
            state.after(thumb, unknown, opcode, parsed),
            "dereferencing shifted registers"@,
        ) <==> {
            &&& is_ordinary(thumb, unknown, parsed)
            &&& opcode == "stm"@ || opcode == "stmia"@
            &&& state matches IllegalCodeState::ShiftedRegisterValue { reg }
            &&& parsed.args@[0] matches Argument::Reg(base)
            &&& base.reg == reg
        },
        is_illegal_for(
            state.after(thumb, unknown, opcode, parsed),
            "dereferencing registers offset by itself"@,
        ) <==> {
            &&& is_ordinary(thumb, unknown, parsed)
            &&& opcode == "str"@
            &&& parsed.args@[1] matches Argument::Reg(base)
            &&& base.deref
            &&& parsed.args@[2] matches Argument::OffsetReg { reg }
            &&& base.reg == reg
        },
        is_illegal_for(
            state.after(thumb, unknown, opcode, parsed),
            "reading from PC into PC"@,
        ) <==> {
            &&& is_ordinary(thumb, unknown, parsed)
            &&& opcode == "ldm"@
            &&& parsed.args@[0] matches Argument::Reg(base)
            &&& base.reg == Register::Pc
            &&& parsed.args@[1] matches Argument::RegList(list)
            &&& (list.regs / 0x8000) % 2 == 1
        },
{
    lemma_reasons_differ();
    lemma_opcodes_differ();
    if let Argument::RegList(list) = parsed.args@[1] {
        let regs = list.regs;
        assert((regs & 0x8000 != 0) == ((regs / 0x8000) % 2 == 1)) by (bit_vector);
    }
}

/// A state is the start exactly where nothing is illegal and no register was shifted:
/// there are no other reasons than the five.
pub proof fn law_no_other_reasons(
    state: IllegalCodeState,
    thumb: bool,
    unknown: bool,
    opcode: Seq<char>,
    parsed: ParsedIns,
)
    ensures
        state.after(thumb, unknown, opcode, parsed) matches IllegalCodeState::Illegal { reason }
            ==> reason@ == "illegal opcode"@ || reason@
            == "Thumb no-op 'lsl r0, r0, #0' or 0000 in hex"@ || reason@
            == "dereferencing shifted registers"@ || reason@
            == "dereferencing registers offset by itself"@ || reason@ == "reading from PC into PC"@,
{
}

/// An unknown opcode is illegal in every state.
pub proof fn law_unknown_opcode_is_illegal(
    state: IllegalCodeState,
    thumb: bool,
    opcode: Seq<char>,
    parsed: ParsedIns,
)
    ensures
        state.after(thumb, true, opcode, parsed) is Illegal,
{
}

/// Only a register that was just shifted is remembered: from every other state, an
/// instruction leads to where it leads from the start.
pub proof fn law_only_shifts_are_remembered(
    state: IllegalCodeState,
    thumb: bool,
    unknown: bool,
    opcode: Seq<char>,
    parsed: ParsedIns,
)
    requires
        !(state is ShiftedRegisterValue),
    ensures
        state.after(thumb, unknown, opcode, parsed) == IllegalCodeState::Start.after(
            thumb,
            unknown,
            opcode,
            parsed,
        ),
{
}

/// The memory of a shift matters only to an instruction that stores several
/// registers at the value of that same register: every other one leads to where it
/// leads from the start.
pub proof fn law_shifts_matter_to_stores_only(
    state: IllegalCodeState,
    thumb: bool,
    unknown: bool,
    opcode: Seq<char>,
    parsed: ParsedIns,
)
    requires
        state matches IllegalCodeState::ShiftedRegisterValue { reg } ==> !stores_at(
            opcode,
            parsed,
            reg,
        ),
    ensures
        state.after(thumb, unknown, opcode, parsed) == IllegalCodeState::Start.after(
            thumb,
            unknown,
            opcode,
            parsed,
        ),
{
}

/// A shift of a register, and right behind it an instruction that stores several
/// registers at that register's value, are illegal together, from every state.
pub proof fn law_store_at_shifted_register_is_illegal(
    state: IllegalCodeState,
    shift_thumb: bool,
    shift_opcode: Seq<char>,
    shift: ParsedIns,
    store_thumb: bool,
    store_opcode: Seq<char>,
    store: ParsedIns,
)
    requires
        shifted_register(shift_opcode, shift) is Some,
        shift.mnemonic@ != "<illegal>"@,
        !is_no_op(shift_thumb, shift),
        stores_at(store_opcode, store, shifted_register(shift_opcode, shift)->0),
    ensures
        state.after(shift_thumb, false, shift_opcode, shift).after(
            store_thumb,
            false,
            store_opcode,
            store,
        ) is Illegal,
{
    lemma_opcodes_differ();
}

} // verus!
