use dsd::decoder::{
    ArmVersion, Argument, Ins, ParseFlags, ParseMode, ParsedIns, Reg, RegList, Register,
};
use dsd::illegal_code::{IllegalCodeState, ILLEGAL_CODE_PATTERNS};

fn register(reg: unarm::args::Register) -> Register {
    match reg {
        unarm::args::Register::R0 => Register::R0,
        unarm::args::Register::R1 => Register::R1,
        unarm::args::Register::R2 => Register::R2,
        unarm::args::Register::R3 => Register::R3,
        unarm::args::Register::R4 => Register::R4,
        unarm::args::Register::R5 => Register::R5,
        unarm::args::Register::R6 => Register::R6,
        unarm::args::Register::R7 => Register::R7,
        unarm::args::Register::R8 => Register::R8,
        unarm::args::Register::R9 => Register::R9,
        unarm::args::Register::R10 => Register::R10,
        unarm::args::Register::R11 => Register::R11,
        unarm::args::Register::R12 => Register::R12,
        unarm::args::Register::Sp => Register::Sp,
        unarm::args::Register::Lr => Register::Lr,
        unarm::args::Register::Pc => Register::Pc,
        unarm::args::Register::Illegal => Register::Illegal,
    }
}

fn argument(arg: &unarm::args::Argument) -> Argument {
    match arg {
        unarm::args::Argument::None => Argument::Absent,
        unarm::args::Argument::Reg(r) => {
            Argument::Reg(Reg { deref: r.deref, reg: register(r.reg) })
        }
        unarm::args::Argument::RegList(l) => Argument::RegList(RegList { regs: l.regs }),
        unarm::args::Argument::UImm(n) => Argument::UImm(*n),
        unarm::args::Argument::OffsetReg(o) => Argument::OffsetReg { reg: register(o.reg) },
        _ => Argument::Other,
    }
}

/// An instruction, read by the decoder.
fn decode(mode: ParseMode, code: u32, ual: bool) -> (Ins, ParsedIns) {
    let flags = unarm::ParseFlags { ual, version: unarm::ArmVersion::V5Te };
    let parsed = match mode {
        ParseMode::Arm => unarm::arm::Ins::new(code, &flags).parse(&flags),
        ParseMode::Thumb => unarm::thumb::Ins::new(code, &flags).parse(&flags),
        ParseMode::Data => unarm::ParsedIns::default(),
    };
    let mut args = [Argument::Absent; 6];
    for (i, arg) in parsed.args.iter().enumerate() {
        args[i] = argument(arg);
    }
    let flags = ParseFlags { ual, version: ArmVersion::V5Te };
    (Ins { mode, code, flags }, ParsedIns { mnemonic: parsed.mnemonic, args })
}

fn after(state: IllegalCodeState, mode: ParseMode, code: u32, ual: bool) -> IllegalCodeState {
    let (ins, parsed) = decode(mode, code, ual);
    state.handle(ins, &parsed)
}

fn reg(reg: Register) -> Argument {
    Argument::Reg(Reg { deref: false, reg })
}

fn written(
    mnemonic: &'static str,
    first: Argument,
    second: Argument,
    third: Argument,
) -> ParsedIns {
    ParsedIns {
        mnemonic,
        args: [first, second, third, Argument::Absent, Argument::Absent, Argument::Absent],
    }
}

const START: IllegalCodeState = IllegalCodeState::Start;

#[test]
fn default_state_is_start() {
    assert_eq!(IllegalCodeState::default(), START);
}

#[test]
fn unknown_opcode_is_illegal() {
    let flags = unarm::ParseFlags { ual: false, version: unarm::ArmVersion::V5Te };
    let mut seen = 0;
    for code in 0..0x10000 {
        let unknown = unarm::Ins::Thumb(unarm::thumb::Ins::new(code, &flags)).is_illegal();
        let state = after(START, ParseMode::Thumb, code, false);
        if unknown {
            seen += 1;
            assert_eq!(state, IllegalCodeState::Illegal { reason: "illegal opcode" });
        }
    }
    assert!(seen > 0);
    let state = after(START, ParseMode::Arm, 0xffff_ffff, false);
    assert_eq!(state, IllegalCodeState::Illegal { reason: "illegal opcode" });
}

#[test]
fn unreadable_operands_are_illegal() {
    let (ins, _) = decode(ParseMode::Arm, 0xe3a00001, false);
    let parsed = written("<illegal>", Argument::Absent, Argument::Absent, Argument::Absent);
    assert_eq!(
        START.handle(ins, &parsed),
        IllegalCodeState::Illegal { reason: "illegal opcode" }
    );
}

#[test]
fn zero_halfword_is_illegal_in_divided_syntax() {
    assert_eq!(
        after(START, ParseMode::Thumb, 0x0000, false),
        IllegalCodeState::Illegal { reason: "Thumb no-op 'lsl r0, r0, #0' or 0000 in hex" }
    );
    assert_eq!(after(START, ParseMode::Thumb, 0x0000, true), START);
}

#[test]
fn shifts_are_remembered() {
    // lsl r1, r1, #2
    assert_eq!(
        after(START, ParseMode::Thumb, 0x0089, false),
        IllegalCodeState::ShiftedRegisterValue { reg: Register::R1 }
    );
    // lsr r2, r3, #1
    assert_eq!(
        after(START, ParseMode::Thumb, 0x085a, true),
        IllegalCodeState::ShiftedRegisterValue { reg: Register::R2 }
    );
    for mnemonic in ["lsl", "lsls", "lsr", "lsrs", "asr", "asrs", "ror", "rors"] {
        let parsed = written(mnemonic, reg(Register::R5), reg(Register::R6), Argument::UImm(1));
        assert_eq!(
            START.handle_decoded(false, false, mnemonic, &parsed),
            IllegalCodeState::ShiftedRegisterValue { reg: Register::R5 }
        );
    }
}

#[test]
fn store_at_shifted_register_is_illegal() {
    let shifted = after(START, ParseMode::Thumb, 0x0089, false);
    // stmia r1!, {r0}
    assert_eq!(
        after(shifted, ParseMode::Thumb, 0xc101, false),
        IllegalCodeState::Illegal { reason: "dereferencing shifted registers" }
    );
    // stmia r2!, {r0}
    assert_eq!(after(shifted, ParseMode::Thumb, 0xc201, false), START);
    assert_eq!(after(START, ParseMode::Thumb, 0xc101, false), START);
    // stmia r1, {r0}
    assert_eq!(
        after(shifted, ParseMode::Arm, 0xe8810001, false),
        IllegalCodeState::Illegal { reason: "dereferencing shifted registers" }
    );
}

#[test]
fn shift_is_forgotten_after_one_instruction() {
    let shifted = after(START, ParseMode::Thumb, 0x0089, false);
    // mov r0, #1
    let moved = after(shifted, ParseMode::Thumb, 0x2001, false);
    assert_eq!(moved, START);
    assert_eq!(after(moved, ParseMode::Thumb, 0xc101, false), START);
}

#[test]
fn store_at_register_offset_by_itself_is_illegal() {
    let illegal = IllegalCodeState::Illegal { reason: "dereferencing registers offset by itself" };
    // str r0, [r1, r1]
    assert_eq!(after(START, ParseMode::Thumb, 0x5048, false), illegal);
    assert_eq!(after(START, ParseMode::Arm, 0xe7810001, false), illegal);
    // str r0, [r1, r2]
    assert_eq!(after(START, ParseMode::Thumb, 0x5088, false), START);
    assert_eq!(after(START, ParseMode::Arm, 0xe7810002, false), START);
}

#[test]
fn load_from_pc_into_pc_is_illegal() {
    // ldmia pc, {pc}
    assert_eq!(
        after(START, ParseMode::Arm, 0xe89f8000, false),
        IllegalCodeState::Illegal { reason: "reading from PC into PC" }
    );
    // ldmia pc, {r0}
    assert_eq!(after(START, ParseMode::Arm, 0xe89f0001, false), START);
    // ldmia r0, {pc}
    assert_eq!(after(START, ParseMode::Arm, 0xe8908000, false), START);
}

#[test]
fn illegal_state_is_left_again() {
    let illegal = after(START, ParseMode::Thumb, 0x0000, false);
    assert_eq!(after(illegal, ParseMode::Thumb, 0x2001, false), START);
    assert_eq!(
        after(illegal, ParseMode::Thumb, 0x0089, false),
        IllegalCodeState::ShiftedRegisterValue { reg: Register::R1 }
    );
}

#[test]
fn data_is_not_illegal() {
    assert_eq!(after(START, ParseMode::Data, 0, false), START);
}

#[test]
fn only_shifts_change_what_follows() {
    let illegal = IllegalCodeState::Illegal { reason: "illegal opcode" };
    for code in (0..0x10000).step_by(7) {
        assert_eq!(
            after(illegal, ParseMode::Thumb, code, false),
            after(START, ParseMode::Thumb, code, false)
        );
    }
}

#[test]
fn pattern_is_one_sequence_of_eight_bytes() {
    assert_eq!(ILLEGAL_CODE_PATTERNS, [[0x00, 0x02, 0x03, 0x00, 0x04, 0x00, 0x00, 0x00]]);
}
