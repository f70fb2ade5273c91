use std::collections::BTreeSet;

use dsd::decoder::{can_decode, keeps_side, ArmVersion, ParseFlags, ParseMode};
use dsd::functions::{
    write_decoded_instruction, write_jump_table_case, write_numerical_jump_table_entry,
    AssemblyError, Function, FunctionExt,
};
use dsd::symbols::{
    Answer, InlineTable, JumpTableKind, Reference, SymData, SymJumpTable, Symbol, SymbolKind,
    SymbolLookup, SymbolMap, SymbolMapError, ThumbJumpTableJump, ThumbJumpTableKind,
};

const BASE: u32 = 0x0200_0000;

fn function(thumb: bool, first: u32, size: u32, pool: &[u32]) -> Function {
    Function {
        name: "func".to_string(),
        start_address: BASE,
        end_address: BASE + size,
        first_instruction_address: BASE + first,
        thumb,
        pool_constants: pool.iter().map(|offset| BASE + offset).collect(),
    }
}

fn symbol(name: &str, offset: u32, kind: SymbolKind) -> Symbol {
    Symbol { name: name.to_string(), kind, addr: BASE + offset }
}

fn lookup(symbols: Vec<Symbol>) -> SymbolLookup {
    SymbolLookup {
        symbol_map: SymbolMap { symbols },
        references: vec![],
        data_relocations: BTreeSet::new(),
        inline_tables: vec![],
    }
}

fn reference(source: u32, destination: u32) -> Reference {
    Reference { source, destination, name: None, word: Answer::Nothing, comment: Answer::Nothing }
}

fn words(words: &[u32]) -> Vec<u8> {
    words.iter().flat_map(|word| word.to_le_bytes()).collect()
}

fn halfwords(halfwords: &[u16]) -> Vec<u8> {
    halfwords.iter().flat_map(|halfword| halfword.to_le_bytes()).collect()
}

fn write(function: &Function, symbols: &SymbolLookup, code: &[u8]) -> String {
    let mut w = String::new();
    let outcome = function.try_write_assembly(&mut w, symbols, code, BASE, false);
    assert!(matches!(outcome, Some(Ok(()))), "{outcome:?} after {w:?}");
    w
}

fn fail(function: &Function, symbols: &SymbolLookup, code: &[u8]) -> (String, AssemblyError) {
    let mut w = String::new();
    match function.try_write_assembly(&mut w, symbols, code, BASE, false) {
        Some(Err(error)) => (w, error),
        outcome => panic!("{outcome:?} after {w:?}"),
    }
}

fn has_none(function: &Function, symbols: &SymbolLookup, code: &[u8]) -> bool {
    let mut w = "kept".to_string();
    let outcome = function.try_write_assembly(&mut w, symbols, code, BASE, false);
    outcome.is_none() && w == "kept"
}

const ARM_OPENING: &str = "    .global func\n    arm_func_start func\nfunc: ; 0x02000000\n";
const THUMB_OPENING: &str = "    .global func\n    thumb_func_start func\nfunc: ; 0x02000000\n";
const ARM_CLOSING: &str = "    arm_func_end func\n\n";
const THUMB_CLOSING: &str = "    thumb_func_end func\n\n";

#[test]
fn arm_function_is_listed() {
    // mov r0, #1; bx lr
    let code = words(&[0xe3a00001, 0xe12fff1e]);
    let text = write(&function(false, 0, 8, &[]), &lookup(vec![]), &code);
    assert_eq!(text, format!("{ARM_OPENING}    mov r0, #0x1\n    bx lr\n{ARM_CLOSING}"));
}

#[test]
fn thumb_function_is_listed() {
    // mov r0, #1; bx lr
    let code = halfwords(&[0x2001, 0x4770]);
    let text = write(&function(true, 0, 4, &[]), &lookup(vec![]), &code);
    assert_eq!(text, format!("{THUMB_OPENING}    mov r0, #0x1\n    bx lr\n{THUMB_CLOSING}"));
}

#[test]
fn syntax_is_divided_or_unified() {
    let code = halfwords(&[0x2001, 0x4770]);
    let mut w = String::new();
    let function = function(true, 0, 4, &[]);
    let outcome = function.write_assembly(&mut w, &lookup(vec![]), &code, BASE, true);
    assert!(outcome.is_ok());
    assert_eq!(w, format!("{THUMB_OPENING}    movs r0, #0x1\n    bx lr\n{THUMB_CLOSING}"));
}

#[test]
fn listing_is_appended() {
    let code = words(&[0xe12fff1e]);
    let function = function(false, 0, 4, &[]);
    let mut w = "; listing\n".to_string();
    let outcome = function.write_assembly(&mut w, &lookup(vec![]), &code, BASE, false);
    assert!(outcome.is_ok());
    assert_eq!(w, format!("; listing\n{ARM_OPENING}    bx lr\n{ARM_CLOSING}"));
}

#[test]
fn function_in_the_middle_of_a_module_is_listed() {
    let code = words(&[0xffffffff, 0xe12fff1e, 0xffffffff]);
    let function = Function {
        name: "inner".to_string(),
        start_address: BASE + 4,
        end_address: BASE + 8,
        first_instruction_address: BASE + 4,
        thumb: false,
        pool_constants: BTreeSet::new(),
    };
    assert_eq!(
        write(&function, &lookup(vec![]), &code),
        "    .global inner\n    arm_func_start inner\ninner: ; 0x02000004\n    bx lr\n    \
         arm_func_end inner\n\n"
    );
}

#[test]
fn register_twelve_is_called_ip() {
    // mov ip, #0
    let code = words(&[0xe3a0c000]);
    let text = write(&function(false, 0, 4, &[]), &lookup(vec![]), &code);
    assert_eq!(text, format!("{ARM_OPENING}    mov ip, #0x0\n{ARM_CLOSING}"));
}

#[test]
fn labels_stand_on_their_own_lines() {
    let code = words(&[0xe3a00001, 0xe12fff1e]);
    let symbols = lookup(vec![symbol("end", 4, SymbolKind::Label)]);
    let text = write(&function(false, 0, 8, &[]), &symbols, &code);
    assert_eq!(text, format!("{ARM_OPENING}    mov r0, #0x1\nend:\n    bx lr\n{ARM_CLOSING}"));
}

#[test]
fn operands_are_written_with_names() {
    // b 0x02000008; ldr r0, [pc, #-4]; bx lr
    let code = words(&[0xea000000, 0xe51f0004, 0xe12fff1e]);
    let mut symbols = lookup(vec![]);
    let mut branch = reference(BASE, BASE + 8);
    branch.name = Some("end".to_string());
    let mut load = reference(BASE + 4, BASE + 8);
    load.name = Some("constant".to_string());
    symbols.references = vec![branch, load];
    let text = write(&function(false, 0, 12, &[]), &symbols, &code);
    assert_eq!(
        text,
        format!("{ARM_OPENING}    b end\n    ldr r0, constant\n    bx lr\n{ARM_CLOSING}")
    );
}

#[test]
fn thumb_loads_count_from_four_bytes_ahead() {
    // ldr r0, [pc, #4] at offset 2: (2 + 4 + 4) & !3
    let code = halfwords(&[0x2001, 0x4801, 0x4770, 0x46c0, 0x5678, 0x1234]);
    let mut symbols = lookup(vec![symbol("pool", 8, SymbolKind::PoolConstant)]);
    let mut load = reference(BASE + 2, BASE + 8);
    load.name = Some("pool".to_string());
    load.comment = Answer::Text(" ; also other".to_string());
    symbols.references = vec![load];
    let text = write(&function(true, 0, 12, &[8]), &symbols, &code);
    assert_eq!(
        text,
        format!(
            "{THUMB_OPENING}    mov r0, #0x1\n    ldr r0, pool ; also other\n    bx lr\n    \
             mov r8, r8\npool: .word 0x12345678\n{THUMB_CLOSING}"
        )
    );
}

#[test]
fn decoded_instruction_is_written_with_its_comment() {
    let mut symbols = lookup(vec![]);
    let mut known = reference(BASE, BASE + 8);
    known.comment = Answer::Text(" ; or other".to_string());
    symbols.references = vec![known];
    let kind = SymbolKind::JumpTable(SymJumpTable { size: 8, kind: JumpTableKind::Arm });
    let table = symbol("table", 4, kind);
    let active = Some((SymJumpTable { size: 8, kind: JumpTableKind::Arm }, &table));
    let (arm, data) = (ParseMode::Arm, ParseMode::Data);
    let mut w = "-".to_string();
    let to = Some(BASE + 8);
    assert!(write_decoded_instruction(&mut w, &symbols, arm, BASE, 4, "b x", to, None).is_ok());
    let to = Some(BASE + 12);
    let at = BASE + 8;
    assert!(write_decoded_instruction(&mut w, &symbols, arm, at, 4, "b y", to, active).is_ok());
    assert!(write_decoded_instruction(&mut w, &symbols, data, BASE, 4, "d", None, None).is_ok());
    assert!(write_decoded_instruction(&mut w, &symbols, data, 0, 0, "e", None, None).is_ok());
    assert_eq!(w, "-    b x ; or other\n    b y ; case 1\nd\ne\n");
}

#[test]
fn cases_are_counted_by_instruction_size() {
    let jump_table = SymJumpTable { size: 8, kind: JumpTableKind::Arm };
    let table = symbol("table", 4, SymbolKind::JumpTable(jump_table));
    let mut w = String::new();
    write_jump_table_case(&mut w, None, 4, BASE);
    write_jump_table_case(&mut w, None, 0, 0);
    write_jump_table_case(&mut w, Some((jump_table, &table)), 4, BASE + 44);
    write_jump_table_case(&mut w, Some((jump_table, &table)), 1, BASE + 44);
    let other = SymJumpTable {
        size: 0,
        kind: JumpTableKind::Thumb {
            kind: ThumbJumpTableKind::Byte,
            jump: ThumbJumpTableJump::Bx,
        },
    };
    write_jump_table_case(&mut w, Some((other, &table)), 1, BASE + 44);
    assert_eq!(w, "\n\n ; case 10\n ; case 40\n ; case 40\n");
}

#[test]
fn failing_comment_ends_the_listing() {
    let code = words(&[0xe3a00001, 0xea000000]);
    let mut symbols = lookup(vec![]);
    let mut branch = reference(BASE + 4, BASE + 12);
    branch.comment = Answer::Failure("no such overlay".to_string());
    symbols.references = vec![branch];
    let (text, error) = fail(&function(false, 0, 8, &[]), &symbols, &code);
    assert_eq!(text, format!("{ARM_OPENING}    mov r0, #0x1\n    b #0x8"));
    assert_eq!(error.message(), "no such overlay");
}

#[test]
fn pool_behind_thumb_branch_is_labelled() {
    // bl +0; pool; bx lr
    let code = halfwords(&[0xf000, 0xf800, 0x5678, 0x1234, 0x4770]);
    let symbols = lookup(vec![symbol("pool", 4, SymbolKind::PoolConstant)]);
    let text = write(&function(true, 0, 10, &[4]), &symbols, &code);
    assert_eq!(
        text,
        format!(
            "{THUMB_OPENING}    bl #0x4\npool: .word 0x12345678\n    bx lr\n{THUMB_CLOSING}"
        )
    );
}

#[test]
fn known_pool_constants_are_written_with_names() {
    let code = words(&[0xe12fff1e, 0x02000000, 7]);
    let mut symbols = lookup(vec![
        symbol("first", 4, SymbolKind::PoolConstant),
        symbol("second", 8, SymbolKind::PoolConstant),
    ]);
    let mut known = reference(BASE + 4, BASE);
    known.word = Answer::Text(".word func\n".to_string());
    symbols.references = vec![known];
    let text = write(&function(false, 0, 12, &[4, 8]), &symbols, &code);
    assert_eq!(
        text,
        format!("{ARM_OPENING}    bx lr\nfirst: .word func\nsecond: .word 0x7\n{ARM_CLOSING}")
    );
}

#[test]
fn pool_constant_that_cannot_be_written_ends_the_listing() {
    let code = words(&[0xe12fff1e, 0x02000000]);
    let mut symbols = lookup(vec![symbol("pool", 4, SymbolKind::PoolConstant)]);
    let mut known = reference(BASE + 4, BASE);
    known.word = Answer::Failure("symbol not found".to_string());
    symbols.references = vec![known];
    let (text, error) = fail(&function(false, 0, 8, &[4]), &symbols, &code);
    assert_eq!(text, format!("{ARM_OPENING}    bx lr\npool: "));
    assert_eq!(error.message(), "symbol not found");
}

#[test]
fn pool_constant_without_symbol_ends_the_listing() {
    let code = words(&[0xe12fff1e, 5]);
    let (text, error) = fail(&function(false, 0, 8, &[4]), &lookup(vec![]), &code);
    assert_eq!(text, format!("{ARM_OPENING}    bx lr\n"));
    assert_eq!(error.message(), "Pool constant at 0x02000004 in function func has no symbol");
}

#[test]
fn leading_pool_is_labelled() {
    let code = words(&[0x5a827999, 0x6ed9eba1, 0xe3a00001, 0xe12fff1e]);
    let symbols = lookup(vec![
        symbol("k0", 0, SymbolKind::PoolConstant),
        symbol("k1", 4, SymbolKind::PoolConstant),
    ]);
    let text = write(&function(false, 8, 16, &[0, 4]), &symbols, &code);
    assert_eq!(
        text,
        "k0: .word 0x5a827999\nk1: .word 0x6ed9eba1\n    .global func\n    arm_func_start \
         func\nfunc: ; 0x02000008\n    mov r0, #0x1\n    bx lr\n    arm_func_end func\n\n"
    );
}

#[test]
fn leading_data_without_symbol_is_written_as_immediate() {
    let code = words(&[0x5a827999, 0xe12fff1e]);
    let text = write(&function(false, 4, 8, &[]), &lookup(vec![]), &code);
    assert_eq!(
        text,
        ".word #0x5a827999\n    .global func\n    arm_func_start func\nfunc: ; 0x02000004\n    \
         bx lr\n    arm_func_end func\n\n"
    );
}

#[test]
fn leading_halfword_is_written_as_immediate() {
    let code = halfwords(&[0x4770, 0x1234, 0x4770]);
    let function = Function {
        name: "func".to_string(),
        start_address: BASE + 2,
        end_address: BASE + 6,
        first_instruction_address: BASE + 4,
        thumb: true,
        pool_constants: BTreeSet::new(),
    };
    assert_eq!(
        write(&function, &lookup(vec![]), &code),
        ".hword #0x1234\n    .global func\n    thumb_func_start func\nfunc: ; 0x02000004\n    bx \
         lr\n    thumb_func_end func\n\n"
    );
}

#[test]
fn relocated_word_is_data() {
    let code = words(&[0xe12fff1e, 0x02000000, 0x1]);
    let mut symbols = lookup(vec![]);
    symbols.data_relocations = [BASE + 4, BASE + 8].into_iter().collect();
    let mut known = reference(BASE + 4, BASE);
    known.word = Answer::Text(".word func\n".to_string());
    symbols.references = vec![known];
    let text = write(&function(false, 0, 12, &[]), &symbols, &code);
    assert_eq!(
        text,
        format!("{ARM_OPENING}    bx lr\n    .word func\n    .word 0x1\n{ARM_CLOSING}")
    );
}

#[test]
fn relocated_word_takes_four_bytes_of_thumb_code() {
    let code = halfwords(&[0x4770, 0x46c0, 0x5678, 0x1234, 0x4770]);
    let mut symbols = lookup(vec![]);
    symbols.data_relocations = [BASE + 4].into_iter().collect();
    let text = write(&function(true, 0, 10, &[]), &symbols, &code);
    assert_eq!(
        text,
        format!(
            "{THUMB_OPENING}    bx lr\n    mov r8, r8\n    .word 0x12345678\n    bx \
             lr\n{THUMB_CLOSING}"
        )
    );
}

#[test]
fn inline_table_is_skipped() {
    let code = words(&[0xe3a00001, 0x04030201, 0xe12fff1e]);
    let data = SymData::Byte { count: Some(4) };
    let mut symbols = lookup(vec![symbol("table", 4, SymbolKind::Data(data))]);
    let lines = Answer::Text("    .byte 0x1, 0x2, 0x3, 0x4\n".to_string());
    let bytes = vec![1, 2, 3, 4];
    symbols.inline_tables = vec![InlineTable { address: BASE + 4, data, bytes, lines }];
    let text = write(&function(false, 0, 12, &[]), &symbols, &code);
    assert_eq!(
        text,
        format!(
            "{ARM_OPENING}    mov r0, #0x1\ntable: ; inline table\n    .byte 0x1, 0x2, 0x3, \
             0x4\n    bx lr\n{ARM_CLOSING}"
        )
    );
}

#[test]
fn inline_table_is_written_with_the_lines_for_its_bytes() {
    let code = words(&[0xe3a00001, 0x04030201, 0xe12fff1e]);
    let data = SymData::Byte { count: Some(4) };
    let lines = |text: &str| Answer::Text(format!("    {text}\n"));
    let address = BASE + 4;
    let tables = vec![
        InlineTable { address, data, bytes: vec![1, 2, 3, 5], lines: lines("other bytes") },
        InlineTable { address, data, bytes: vec![1, 2, 3], lines: lines("fewer bytes") },
        InlineTable {
            address,
            data: SymData::Short { count: Some(2) },
            bytes: vec![1, 2, 3, 4],
            lines: lines("other elements"),
        },
        InlineTable { address, data, bytes: vec![1, 2, 3, 4], lines: lines("these bytes") },
    ];
    let mut symbols = lookup(vec![symbol("table", 4, SymbolKind::Data(data))]);
    symbols.inline_tables = tables;
    let function = function(false, 0, 12, &[]);
    let before = format!("{ARM_OPENING}    mov r0, #0x1\ntable: ; inline table\n");
    let after = format!("    bx lr\n{ARM_CLOSING}");
    let text = write(&function, &symbols, &code);
    assert_eq!(text, format!("{before}    these bytes\n{after}"));
    symbols.inline_tables.pop();
    assert_eq!(write(&function, &symbols, &code), format!("{before}{after}"));
}

#[test]
fn pools_are_listed_behind_tables_and_data_words() {
    // mov r0, #1; inline table; pool; data word; pool
    let code = words(&[0xe3a00001, 1, 2, 3, 4]);
    let data = SymData::Word { count: Some(1) };
    let mut symbols = lookup(vec![
        symbol("table", 4, SymbolKind::Data(data)),
        symbol("p1", 8, SymbolKind::PoolConstant),
        symbol("p2", 16, SymbolKind::PoolConstant),
    ]);
    symbols.data_relocations = [BASE + 12].into_iter().collect();
    let text = write(&function(false, 0, 20, &[8, 16]), &symbols, &code);
    assert_eq!(
        text,
        format!(
            "{ARM_OPENING}    mov r0, #0x1\ntable: ; inline table\np1: .word 0x2\n    .word \
             0x3\np2: .word 0x4\n{ARM_CLOSING}"
        )
    );
    let code = halfwords(&[0x4487, 0x0008, 0x0009, 0x46c0, 0x5678, 0x1234, 0x4770]);
    let kind = thumb_table(6, ThumbJumpTableKind::Halfword, ThumbJumpTableJump::AddPc);
    let symbols = lookup(vec![
        symbol("table", 2, kind),
        symbol("end", 12, SymbolKind::Label),
        symbol("far", 0x46c4, SymbolKind::Label),
        symbol("pool", 8, SymbolKind::PoolConstant),
    ]);
    let text = write(&function(true, 0, 14, &[8]), &symbols, &code);
    assert_eq!(
        text,
        format!(
            "{THUMB_OPENING}    add pc, r0\ntable: ; jump table\n    .short end - table - 2\n    \
             .short end - table - 2\n    .short far - table - 2\npool: .word 0x12345678\nend:\n    \
             bx lr\n{THUMB_CLOSING}"
        )
    );
}

#[test]
fn inline_table_without_size_ends_the_listing() {
    let code = words(&[0xe3a00001, 0x04030201]);
    for data in [SymData::Any, SymData::Word { count: None }] {
        let symbols = lookup(vec![symbol("table", 4, SymbolKind::Data(data))]);
        let (text, error) = fail(&function(false, 0, 8, &[]), &symbols, &code);
        assert_eq!(text, format!("{ARM_OPENING}    mov r0, #0x1\n"));
        assert_eq!(error.message(), "Inline tables must have a known size");
    }
}

#[test]
fn inline_table_that_cannot_be_written_ends_the_listing() {
    let code = words(&[0x04030201]);
    let data = SymData::Short { count: Some(2) };
    let mut symbols = lookup(vec![symbol("table", 0, SymbolKind::Data(data))]);
    let lines = Answer::Failure("not enough bytes".to_string());
    let bytes = vec![1, 2, 3, 4];
    symbols.inline_tables = vec![InlineTable { address: BASE, data, bytes, lines }];
    let (text, error) = fail(&function(false, 0, 4, &[]), &symbols, &code);
    assert_eq!(text, format!("{ARM_OPENING}table: ; inline table\n"));
    assert_eq!(error.message(), "not enough bytes");
}

fn thumb_table(size: u32, kind: ThumbJumpTableKind, jump: ThumbJumpTableJump) -> SymbolKind {
    SymbolKind::JumpTable(SymJumpTable { size, kind: JumpTableKind::Thumb { kind, jump } })
}

#[test]
fn halfword_jump_table_is_listed() {
    // add pc, r0; table of 6 - 2 - 2 and 8 - 2 - 2; bx lr; bx lr
    let code = halfwords(&[0x4487, 0x0002, 0x0004, 0x4770, 0x4770]);
    let kind = thumb_table(4, ThumbJumpTableKind::Halfword, ThumbJumpTableJump::AddPc);
    let symbols = lookup(vec![
        symbol("table", 2, kind),
        symbol("one", 6, SymbolKind::Label),
        symbol("two", 8, SymbolKind::Label),
    ]);
    let text = write(&function(true, 0, 10, &[]), &symbols, &code);
    assert_eq!(
        text,
        format!(
            "{THUMB_OPENING}    add pc, r0\ntable: ; jump table\n    .short one - table - 2\n    \
             .short two - table - 2\none:\n    bx lr\ntwo:\n    bx lr\n{THUMB_CLOSING}"
        )
    );
}

#[test]
fn jump_table_entries_are_signed() {
    // a distance of -4, back to the first instruction
    let code = halfwords(&[0x4770, 0x4487, 0xfffc, 0x4770]);
    let kind = thumb_table(2, ThumbJumpTableKind::Halfword, ThumbJumpTableJump::Bx);
    let symbols =
        lookup(vec![symbol("back", 0, SymbolKind::Label), symbol("table", 4, kind)]);
    let text = write(&function(true, 0, 8, &[]), &symbols, &code);
    assert_eq!(
        text,
        format!(
            "{THUMB_OPENING}back:\n    bx lr\n    add pc, r0\ntable: ; jump table\n    .short \
             back - table + 1\n    bx lr\n{THUMB_CLOSING}"
        )
    );
}

#[test]
fn byte_jump_table_is_listed_with_cases() {
    // entries 2 and 5, the latter odd, and 0xfc, which is -4
    let code = halfwords(&[0x4770, 0x4487, 0x0502, 0x02fc, 0x4770]);
    let kind = thumb_table(4, ThumbJumpTableKind::Byte, ThumbJumpTableJump::Bx);
    let symbols = lookup(vec![
        symbol("back", 0, SymbolKind::Label),
        symbol("table", 4, kind),
        symbol("inside", 6, SymbolKind::Label),
        symbol("end", 8, SymbolKind::Label),
    ]);
    let text = write(&function(true, 0, 10, &[]), &symbols, &code);
    assert_eq!(
        text,
        format!(
            "{THUMB_OPENING}back:\n    bx lr\n    add pc, r0\ntable: ; jump table\n    .byte \
             inside - table + 1\n ; case 0\n    .byte end - table + 1\n ; case \
             1\ninside:\n    .byte back - table + 1\n ; case 2\n    .byte inside - table + 1\n ; \
             case 3\nend:\n    bx lr\n{THUMB_CLOSING}"
        )
    );
}

#[test]
fn arm_jump_table_is_listed_with_cases() {
    // addls pc, pc, r0, lsl #2; b +4; b +0; bx lr
    let code = words(&[0x908ff100, 0xea000000, 0xeaffffff, 0xe12fff1e]);
    let kind = SymbolKind::JumpTable(SymJumpTable { size: 8, kind: JumpTableKind::Arm });
    let symbols = lookup(vec![symbol("table", 4, kind)]);
    let text = write(&function(false, 0, 16, &[]), &symbols, &code);
    assert_eq!(
        text,
        format!(
            "{ARM_OPENING}    addls pc, pc, r0, lsl #0x2\ntable: ; jump table\n    b #0x8 ; case \
             0\n    b #0x4 ; case 1\n    bx lr\n{ARM_CLOSING}"
        )
    );
}

#[test]
fn relocation_in_a_jump_table_marks_no_data() {
    let code = words(&[0xea000000, 0xe12fff1e]);
    let kind = SymbolKind::JumpTable(SymJumpTable { size: 4, kind: JumpTableKind::Arm });
    let mut symbols = lookup(vec![symbol("table", 0, kind)]);
    symbols.data_relocations = [BASE].into_iter().collect();
    let text = write(&function(false, 0, 8, &[]), &symbols, &code);
    assert_eq!(
        text,
        format!("{ARM_OPENING}table: ; jump table\n    b #0x8 ; case 0\n    bx lr\n{ARM_CLOSING}")
    );
}

#[test]
fn jump_table_entry_without_label_ends_the_listing() {
    let code = halfwords(&[0x4487, 0x0002]);
    let kind = thumb_table(2, ThumbJumpTableKind::Halfword, ThumbJumpTableJump::AddPc);
    let symbols = lookup(vec![symbol("table", 2, kind)]);
    let (text, error) = fail(&function(true, 0, 4, &[]), &symbols, &code);
    assert_eq!(text, format!("{THUMB_OPENING}    add pc, r0\ntable: ; jump table\n"));
    assert_eq!(
        error.message(),
        "Expected label for jump table destination from 0x02000002 to 0x02000006"
    );
}

#[test]
fn symbols_that_share_an_address_end_the_listing() {
    let code = words(&[0xe12fff1e]);
    let symbols =
        lookup(vec![symbol("a", 0, SymbolKind::Label), symbol("b", 0, SymbolKind::Label)]);
    let (text, error) = fail(&function(false, 0, 4, &[]), &symbols, &code);
    assert_eq!(text, ARM_OPENING);
    assert!(matches!(
        error,
        AssemblyError::Symbols(SymbolMapError::MultipleSymbols { address: BASE })
    ));
    assert_eq!(error.message(), "Multiple symbols at 0x02000000");
}

#[test]
fn half_of_a_thumb_branch_at_the_end_is_left_out() {
    let code = halfwords(&[0x4770, 0xf000]);
    let text = write(&function(true, 0, 4, &[]), &lookup(vec![]), &code);
    assert_eq!(text, format!("{THUMB_OPENING}    bx lr\n{THUMB_CLOSING}"));
}

#[test]
fn empty_function_is_closed_only() {
    assert_eq!(write(&function(false, 0, 0, &[]), &lookup(vec![]), &[]), ARM_CLOSING);
}

#[test]
fn nothing_is_listed_outside_of_the_module() {
    let code = words(&[0xe12fff1e]);
    assert!(has_none(&function(false, 0, 8, &[]), &lookup(vec![]), &code));
    let mut early = function(false, 0, 4, &[]);
    early.start_address = BASE - 4;
    assert!(has_none(&early, &lookup(vec![]), &code));
    let mut backwards = function(false, 0, 4, &[]);
    backwards.start_address = BASE + 4;
    backwards.end_address = BASE;
    assert!(has_none(&backwards, &lookup(vec![]), &words(&[0xe12fff1e, 0xe12fff1e])));
    // a pool constant behind the module
    let symbols = lookup(vec![symbol("pool", 4, SymbolKind::PoolConstant)]);
    assert!(has_none(&function(false, 0, 4, &[4]), &symbols, &code));
    // an inline table that is smaller than the instruction at its address
    let data = SymData::Byte { count: Some(1) };
    let symbols = lookup(vec![symbol("table", 0, SymbolKind::Data(data))]);
    assert!(has_none(&function(false, 0, 4, &[]), &symbols, &code));
    // and one that is larger than the function
    let data = SymData::Word { count: Some(2) };
    let symbols = lookup(vec![symbol("table", 0, SymbolKind::Data(data))]);
    assert!(has_none(&function(false, 0, 4, &[]), &symbols, &code));
}

// The lines for one ARM instruction at `address`, if there is a listing.
fn lone_instruction(address: u32, code: u32) -> Option<String> {
    let function = Function {
        name: "func".to_string(),
        start_address: address,
        end_address: address + 4,
        first_instruction_address: address,
        thumb: false,
        pool_constants: BTreeSet::new(),
    };
    let mut w = String::new();
    let code = words(&[code]);
    function.try_write_assembly(&mut w, &lookup(vec![]), &code, address, false)?.unwrap();
    let start = w.find("; 0x").unwrap() + 13;
    let end = w.find("    arm_func_end").unwrap();
    Some(w[start..end].to_string())
}

#[test]
fn instruction_without_reference_is_listed_everywhere() {
    for address in [0x7f80_0000, 0x7fff_fffc, 0x8000_0000, 0x807f_fffc, 0xffff_0000] {
        assert_eq!(lone_instruction(address, 0xe12fff1e).unwrap(), "    bx lr\n");
    }
}

#[test]
fn reference_may_not_cross_the_middle_of_the_address_space() {
    assert_eq!(lone_instruction(0x7fff_fff0, 0xea000000).unwrap(), "    b #0x8\n");
    assert_eq!(lone_instruction(0x7fff_fff0, 0xea000001).unwrap(), "    b #0xc\n");
    assert_eq!(lone_instruction(0x7fff_fff0, 0xea000002), None);
    assert_eq!(lone_instruction(0x8000_0000, 0xeafffffe).unwrap(), "    b #0x0\n");
    assert_eq!(lone_instruction(0x8000_0000, 0xeafffffd), None);
    assert_eq!(lone_instruction(0x8000_0004, 0xeafffffd).unwrap(), "    b #-0x4\n");
    // the distance is added first, and then the offset of the program counter
    assert_eq!(lone_instruction(0x8000_0000, 0xe59f0000).unwrap(), "    ldr r0, [pc, #0x0]\n");
    assert_eq!(lone_instruction(0x8000_0000, 0xe51f0004), None);
    assert_eq!(lone_instruction(0x8000_0004, 0xe51f0004).unwrap(), "    ldr r0, [pc, #-0x4]\n");
    assert_eq!(lone_instruction(0x7fff_fff0, 0xe59f0004).unwrap(), "    ldr r0, [pc, #0x4]\n");
    assert_eq!(lone_instruction(0x7fff_fff0, 0xe59f0008), None);
}

#[test]
fn sides_are_told_by_the_probe() {
    assert!(keeps_side(0x7fff_fff0, None));
    assert!(keeps_side(0x7fff_fff0, Some(0x4000_000c)));
    assert!(!keeps_side(0x7fff_fff0, Some(0x4000_0010)));
    assert!(keeps_side(0x8000_0004, Some(0x3fff_fffc)));
    assert!(!keeps_side(0x8000_0004, Some(0x3fff_fff8)));
    assert!(keeps_side(0x7fff_fff2, Some(0x4000_000c)));
    let flags = ParseFlags { ual: false, version: ArmVersion::V5Te };
    let branch = words(&[0xea000002]);
    assert!(can_decode(ParseMode::Arm, 0x0200_0000, flags, &branch, 8));
    assert!(!can_decode(ParseMode::Arm, 0x7fff_fff0, flags, &branch, 8));
    assert!(can_decode(ParseMode::Data, 0x7fff_fff0, flags, &branch, 8));
}

#[test]
fn numerical_entries_lead_to_labels() {
    let symbols = lookup(vec![
        symbol("near", 6, SymbolKind::Label),
        symbol("far", 0x10_0000, SymbolKind::Label),
        symbol("a", 0x20, SymbolKind::Label),
        symbol("b", 0x20, SymbolKind::Label),
    ]);
    let kind = SymbolKind::JumpTable(SymJumpTable { size: 4, kind: JumpTableKind::Arm });
    let table = symbol("table", 2, kind);
    let (add, bx) = (ThumbJumpTableJump::AddPc, ThumbJumpTableJump::Bx);
    let mut w = String::new();
    for (value, directive, address, jump) in [
        (2, ".short", BASE, add),
        (3, ".short", 0, add),
        (5, ".byte", BASE, bx),
        (4, ".byte", 0, bx),
        (0xf_fffe, ".word", BASE, bx),
        (0xf_fffc, ".word", BASE, add),
    ] {
        let outcome = write_numerical_jump_table_entry(
            &mut w, &symbols, &table, value, directive, address, jump,
        );
        assert!(outcome.is_ok());
    }
    assert_eq!(
        w,
        "    .short near - table - 2\n    .short near - table - 2\n    .byte near - table + 1\n    \
         .byte near - table + 1\n    .word far - table + 1\n    .word far - table - 2\n"
    );
    let outcome =
        write_numerical_jump_table_entry(&mut w, &symbols, &table, -3, ".byte", BASE + 9, bx);
    assert_eq!(
        outcome.unwrap_err().message(),
        "Expected label for jump table destination from 0x02000009 to 0x01fffffe"
    );
    let outcome =
        write_numerical_jump_table_entry(&mut w, &symbols, &table, 0x1e, ".byte", BASE, bx);
    assert_eq!(outcome.unwrap_err().message(), "Multiple symbols at 0x02000020");
}

#[test]
fn bytes_around_the_function_do_not_matter() {
    let code = words(&[0xe12fff1e, 0x12345678]);
    let symbols = lookup(vec![symbol("pool", 4, SymbolKind::PoolConstant)]);
    let function = function(false, 0, 8, &[4]);
    let text = write(&function, &symbols, &code);
    let mut wide = vec![0xaa; 12];
    wide.extend_from_slice(&code);
    wide.extend_from_slice(&[0xbb; 5]);
    let mut w = String::new();
    let outcome = function.try_write_assembly(&mut w, &symbols, &wide, BASE - 12, false);
    assert!(matches!(outcome, Some(Ok(()))));
    assert_eq!(w, text);
}

#[test]
fn function_high_in_memory_is_listed() {
    let mut function = function(false, 0, 4, &[]);
    function.start_address = 0xffff_0000;
    function.end_address = 0xffff_0004;
    function.first_instruction_address = 0xffff_0000;
    let mut w = String::new();
    let code = words(&[0xeafffffe]);
    let outcome = function.try_write_assembly(&mut w, &lookup(vec![]), &code, 0xffff_0000, false);
    assert!(matches!(outcome, Some(Ok(()))));
    assert_eq!(
        w,
        "    .global func\n    arm_func_start func\nfunc: ; 0xffff0000\n    b #0x0\n    \
         arm_func_end func\n\n"
    );
}

#[test]
fn every_thumb_halfword_is_taken_alone_or_in_a_pair() {
    for ual in [false, true] {
        let flags = unarm::ParseFlags { ual, version: unarm::ArmVersion::V5Te };
        for first in 0..=0xffffu16 {
            let code = halfwords(&[first, 0xf801]);
            let mode = unarm::ParseMode::Thumb;
            let mut parser =
                unarm::Parser::new(mode, BASE, unarm::Endian::Little, flags, &code);
            let (_, ins, _) = parser.next().unwrap();
            let pair = (0xf000..0xf800).contains(&first);
            assert_eq!(parser.address - BASE, if pair { 4 } else { 2 });
            assert_eq!(ins.code(), if pair { 0xf801 } else { first as u32 });
        }
    }
}

#[test]
fn no_distance_is_over_eight_mebibytes() {
    let flags = unarm::ParseFlags { ual: false, version: unarm::ArmVersion::V5Te };
    let middle = 0x4000_0000u32;
    for high in 0..0x10000u32 {
        for low in [0u32, 0x7ff, 0xffff, 0x8000, 0x5555] {
            let code = words(&[high << 16 | low]);
            for mode in [unarm::ParseMode::Arm, unarm::ParseMode::Thumb] {
                let mut parser =
                    unarm::Parser::new(mode, middle, unarm::Endian::Little, flags, &code);
                let Some((_, _, parsed)) = parser.next() else { continue };
                if let Some(destination) = parsed.pc_relative_reference(middle, 8) {
                    let distance = destination as i64 - middle as i64;
                    assert!(distance.abs() <= 0x80_0000);
                }
            }
        }
    }
}
