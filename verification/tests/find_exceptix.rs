use dsd::find_exceptix::{
    ExceptionData, ExceptionSymbols, ExceptionTableEntry, FindExceptix, ModuleAnalysis, RunAction,
    RunError, RunEvent, RunOutcome, RunState,
};
use dsd::program::{AutoloadKind, ModuleKind, ModuleSymbols, Program, SymbolMaps};
use dsd::symbols::{SymData, Symbol, SymbolKind, SymbolMap, SymbolMapError};

fn command(dry: bool) -> FindExceptix {
    FindExceptix { config_path: "config.yaml".to_string(), dry }
}

fn symbol(name: &str, addr: u32, kind: SymbolKind) -> Symbol {
    Symbol { name: name.to_string(), kind, addr }
}

fn program(symbols: Vec<Symbol>) -> Program {
    let itcm = ModuleKind::Autoload(AutoloadKind::Itcm);
    let elsewhere = vec![symbol("elsewhere", 0x0200_1000, SymbolKind::Bss)];
    Program {
        symbol_maps: SymbolMaps {
            maps: vec![
                ModuleSymbols { module: itcm, symbols: SymbolMap { symbols: elsewhere } },
                ModuleSymbols { module: ModuleKind::Arm9, symbols: SymbolMap { symbols } },
            ],
        },
    }
}

fn entry(function_address: u32, function_length: u32, record: u32) -> ExceptionTableEntry {
    ExceptionTableEntry { function_address, function_length, exception_record: record }
}

fn data(entries: &[ExceptionTableEntry]) -> ExceptionData {
    ExceptionData {
        find_exception_table_fn_addr: 0x0200_0800,
        find_exception_table_fn: vec![0x1e, 0xff, 0x2f, 0xe1],
        exceptix_start: 0x0200_1000,
        exception_table: entries.to_vec(),
    }
}

fn contents(program: &Program, module: ModuleKind) -> Vec<(String, SymbolKind, u32)> {
    let maps = &program.symbol_maps.maps;
    let map = maps.iter().find(|map| map.module == module).unwrap();
    map.symbols.symbols.iter().map(|s| (s.name.clone(), s.kind, s.addr)).collect()
}

fn named(name: &str, data: SymData, addr: u32) -> (String, SymbolKind, u32) {
    (name.to_string(), SymbolKind::Data(data), addr)
}

const THREE_WORDS: SymData = SymData::Word { count: Some(3) };

#[test]
fn entries_and_records_are_named() {
    let mut program = program(vec![]);
    let data = data(&[
        entry(0x0200_0100, 0x20, 0x0200_2000),
        entry(0x0200_0200, 0x21, 0x0200_2010),
        entry(0x0abc_def0, 0x40, 0x0200_2020),
    ]);
    let count = command(false).add_exception_table_symbols(&mut program, &data);
    assert_eq!(count, Ok(ExceptionSymbols { ex_symbols: 3, et_symbols: 2 }));
    assert_eq!(
        contents(&program, ModuleKind::Arm9),
        [
            named("@EX@02000100", THREE_WORDS, 0x0200_1000),
            named("@ET@02000100", SymData::Any, 0x0200_2000),
            named("@EX@02000200", THREE_WORDS, 0x0200_100c),
            named("@EX@0abcdef0", THREE_WORDS, 0x0200_1018),
            named("@ET@0abcdef0", SymData::Any, 0x0200_2020),
        ]
    );
}

#[test]
fn other_names_are_replaced_and_right_ones_kept() {
    let mut program = program(vec![
        symbol("data_02001000", 0x0200_1000, SymbolKind::Bss),
        symbol("@ET@other", 0x0200_2000, SymbolKind::Label),
        symbol("main", 0x0200_0000, SymbolKind::Function),
        symbol("@EX@other", 0x0200_100c, SymbolKind::Label),
        symbol("@EX@record", 0x0200_2010, SymbolKind::Label),
    ]);
    let data = data(&[
        entry(0x0200_0100, 0x20, 0x0200_2000),
        entry(0x0200_0200, 0x20, 0x0200_2010),
    ]);
    let count = command(false).add_exception_table_symbols(&mut program, &data);
    assert_eq!(count, Ok(ExceptionSymbols { ex_symbols: 2, et_symbols: 2 }));
    assert_eq!(
        contents(&program, ModuleKind::Arm9),
        [
            ("@ET@other".to_string(), SymbolKind::Label, 0x0200_2000),
            ("main".to_string(), SymbolKind::Function, 0x0200_0000),
            ("@EX@other".to_string(), SymbolKind::Label, 0x0200_100c),
            named("@EX@02000100", THREE_WORDS, 0x0200_1000),
            named("@ET@02000200", SymData::Any, 0x0200_2010),
        ]
    );
}

#[test]
fn other_modules_are_left_alone() {
    let mut program = program(vec![]);
    let itcm = ModuleKind::Autoload(AutoloadKind::Itcm);
    let before = contents(&program, itcm);
    let data = data(&[entry(0x0200_0100, 0x20, 0x0200_2000)]);
    assert!(command(false).add_exception_table_symbols(&mut program, &data).is_ok());
    assert_eq!(contents(&program, itcm), before);
}

#[test]
fn naming_twice_changes_nothing() {
    let mut program = program(vec![symbol("data", 0x0200_2000, SymbolKind::Bss)]);
    let data = data(&[
        entry(0x0200_0100, 0x20, 0x0200_2000),
        entry(0x0200_0200, 0x20, 0x0200_2010),
    ]);
    let first = command(false).add_exception_table_symbols(&mut program, &data);
    let once = contents(&program, ModuleKind::Arm9);
    let second = command(false).add_exception_table_symbols(&mut program, &data);
    assert_eq!(first, second);
    assert_eq!(contents(&program, ModuleKind::Arm9), once);
}

#[test]
fn shared_record_is_named_after_the_first_function() {
    let mut program = program(vec![]);
    let data = data(&[
        entry(0x0200_0100, 0x21, 0x0200_2000),
        entry(0x0200_0200, 0x20, 0x0200_2000),
        entry(0x0200_0300, 0x20, 0x0200_2000),
    ]);
    let count = command(false).add_exception_table_symbols(&mut program, &data);
    assert_eq!(count, Ok(ExceptionSymbols { ex_symbols: 3, et_symbols: 2 }));
    let main = contents(&program, ModuleKind::Arm9);
    assert_eq!(main.len(), 4);
    assert!(main.contains(&named("@ET@02000200", SymData::Any, 0x0200_2000)));
}

#[test]
fn record_inside_the_table_is_named_as_the_last_it_was_used_for() {
    let mut program = program(vec![]);
    let data = data(&[entry(0x0200_0100, 0x20, 0x0200_1000)]);
    for _ in 0..2 {
        assert!(command(false).add_exception_table_symbols(&mut program, &data).is_ok());
        assert_eq!(
            contents(&program, ModuleKind::Arm9),
            [named("@ET@02000100", SymData::Any, 0x0200_1000)]
        );
    }
}

#[test]
fn main_module_gets_symbols_if_it_had_none() {
    let mut program = Program { symbol_maps: SymbolMaps { maps: vec![] } };
    let data = data(&[entry(0x0200_0100, 1, 0)]);
    assert!(command(false).add_exception_table_symbols(&mut program, &data).is_ok());
    assert_eq!(
        contents(&program, ModuleKind::Arm9),
        [named("@EX@02000100", THREE_WORDS, 0x0200_1000)]
    );
}

#[test]
fn several_symbols_at_an_entry_are_an_error() {
    let mut program = program(vec![
        symbol("a", 0x0200_100c, SymbolKind::Label),
        symbol("b", 0x0200_100c, SymbolKind::Label),
    ]);
    let data = data(&[entry(0x0200_0100, 1, 0), entry(0x0200_0200, 1, 0)]);
    let count = command(false).add_exception_table_symbols(&mut program, &data);
    assert_eq!(count, Err(SymbolMapError::MultipleSymbols { address: 0x0200_100c }));
    let main = contents(&program, ModuleKind::Arm9);
    assert_eq!(main.len(), 3);
    assert_eq!(main[2], named("@EX@02000100", THREE_WORDS, 0x0200_1000));
}

#[test]
fn last_entry_may_end_at_the_last_address() {
    let mut program = program(vec![]);
    let mut data = data(&[entry(0x0200_0100, 1, 0), entry(0x0200_0200, 1, 0)]);
    data.exceptix_start = u32::MAX - 12;
    assert!(data.has_addresses());
    assert!(command(false).add_exception_table_symbols(&mut program, &data).is_ok());
    assert_eq!(
        contents(&program, ModuleKind::Arm9)[1],
        named("@EX@02000200", THREE_WORDS, u32::MAX)
    );
}

#[test]
fn table_behind_the_last_address_has_no_addresses() {
    let mut data = data(&[entry(0x0200_0100, 1, 0), entry(0x0200_0200, 1, 0)]);
    assert!(data.has_addresses());
    data.exceptix_start = u32::MAX - 11;
    assert!(!data.has_addresses());
    data.exception_table.pop();
    assert!(data.has_addresses());
    data.exception_table.pop();
    data.exceptix_start = u32::MAX;
    assert!(data.has_addresses());
}

fn all_autoloads() -> Vec<AutoloadKind> {
    vec![
        AutoloadKind::Unknown(2),
        AutoloadKind::Itcm,
        AutoloadKind::Unknown(3),
        AutoloadKind::Dtcm,
    ]
}

fn module_event(analysis: ModuleAnalysis) -> RunEvent {
    RunEvent::ModuleAnalyzed { analysis }
}

// Runs up to where the modules are searched.
fn search(command: &FindExceptix, program: &mut Program) -> (RunState, RunAction) {
    let loaded = RunEvent::Loaded { autoloads: all_autoloads() };
    let (state, action) = command.run(program, RunState::Start, loaded);
    let RunAction::Analyze { autoloads } = action else { panic!("{action:?}") };
    assert_eq!(autoloads, [AutoloadKind::Itcm, AutoloadKind::Dtcm]);
    let exception_data = Some(data(&[entry(0x0200_0100, 0x20, 0x0200_2000)]));
    command.run(program, state, RunEvent::Analyzed { exception_data })
}

#[test]
fn run_without_exception_table_changes_nothing() {
    let mut program = program(vec![]);
    let command = command(false);
    let loaded = RunEvent::Loaded { autoloads: all_autoloads() };
    let (state, _) = command.run(&mut program, RunState::Start, loaded);
    let analyzed = RunEvent::Analyzed { exception_data: None };
    let (state, action) = command.run(&mut program, state, analyzed);
    assert!(matches!(state, RunState::Stopped));
    assert!(matches!(action, RunAction::Stop { result: Ok(RunOutcome::NothingFound) }));
    assert!(contents(&program, ModuleKind::Arm9).is_empty());
}

#[test]
fn run_writes_files_when_the_function_was_found() {
    let mut program = program(vec![]);
    let command = command(false);
    let (state, action) = search(&command, &mut program);
    let RunAction::FixModule { module, address, code } = action else { panic!("{action:?}") };
    assert_eq!((module, address), (ModuleKind::Arm9, 0x0200_0800));
    assert_eq!(code, [0x1e, 0xff, 0x2f, 0xe1]);
    let found = module_event(ModuleAnalysis::Done { found: true });
    let (state, action) = command.run(&mut program, state, found);
    let count = ExceptionSymbols { ex_symbols: 1, et_symbols: 1 };
    let RunAction::WriteFiles { symbols } = action else { panic!("{action:?}") };
    assert_eq!(symbols, count);
    assert_eq!(contents(&program, ModuleKind::Arm9).len(), 2);
    let (state, action) = command.run(&mut program, state, RunEvent::FilesWritten);
    assert!(matches!(state, RunState::Stopped));
    let RunAction::Stop { result: Ok(RunOutcome::Finished(symbols)) } = action else {
        panic!("{action:?}")
    };
    assert_eq!(symbols, count);
}

#[test]
fn dry_run_writes_no_files() {
    let mut program = program(vec![]);
    let command = command(true);
    let (state, _) = search(&command, &mut program);
    let found = module_event(ModuleAnalysis::Done { found: true });
    let (state, action) = command.run(&mut program, state, found);
    assert!(matches!(state, RunState::Stopped));
    let RunAction::Stop { result: Ok(RunOutcome::DryRun(symbols)) } = action else {
        panic!("{action:?}")
    };
    assert_eq!(symbols, ExceptionSymbols { ex_symbols: 1, et_symbols: 1 });
}

#[test]
fn modules_are_searched_up_to_the_one_with_the_function() {
    let mut program = program(vec![]);
    let command = command(false);
    let (mut state, mut action) = search(&command, &mut program);
    let mut asked = vec![];
    while let RunAction::FixModule { module, address, code } = action {
        assert_eq!((address, code.len()), (0x0200_0800, 4));
        asked.push(module);
        let found = module == ModuleKind::Autoload(AutoloadKind::Itcm);
        let event = module_event(ModuleAnalysis::Done { found });
        (state, action) = command.run(&mut program, state, event);
    }
    assert_eq!(asked, [ModuleKind::Arm9, ModuleKind::Autoload(AutoloadKind::Itcm)]);
    assert!(matches!(action, RunAction::WriteFiles { .. }));
    assert!(matches!(state, RunState::Writing { .. }));
}

#[test]
fn function_in_no_module_is_an_error() {
    let mut program = program(vec![]);
    let command = command(false);
    let (mut state, mut action) = search(&command, &mut program);
    let mut asked = vec![];
    while let RunAction::FixModule { module, address, code } = action {
        assert_eq!((address, code.len()), (0x0200_0800, 4));
        asked.push(module);
        let event = module_event(ModuleAnalysis::Done { found: false });
        (state, action) = command.run(&mut program, state, event);
    }
    assert_eq!(
        asked,
        [
            ModuleKind::Arm9,
            ModuleKind::Autoload(AutoloadKind::Itcm),
            ModuleKind::Autoload(AutoloadKind::Dtcm),
        ]
    );
    assert!(matches!(state, RunState::Stopped));
    assert!(matches!(action, RunAction::Stop { result: Err(RunError::InNoModule) }));
    assert!(contents(&program, ModuleKind::Arm9).is_empty());
}

#[test]
fn missing_module_is_an_error() {
    let mut program = program(vec![]);
    let command = command(false);
    let (state, _) = search(&command, &mut program);
    let absent = module_event(ModuleAnalysis::Done { found: false });
    let (state, _) = command.run(&mut program, state, absent);
    let (_, action) = command.run(&mut program, state, module_event(ModuleAnalysis::NoModule));
    let RunAction::Stop { result: Err(RunError::ModuleNotFound(module)) } = action else {
        panic!("{action:?}")
    };
    assert_eq!(module, ModuleKind::Autoload(AutoloadKind::Itcm));
}

#[test]
fn failed_analysis_is_an_error() {
    let mut program = program(vec![]);
    let command = command(false);
    let (state, _) = search(&command, &mut program);
    let failed = module_event(ModuleAnalysis::Failed("no such function".to_string()));
    let (_, action) = command.run(&mut program, state, failed);
    let RunAction::Stop { result: Err(RunError::Analysis(reason)) } = action else {
        panic!("{action:?}")
    };
    assert_eq!(reason, "no such function");
}

#[test]
fn ambiguous_symbols_stop_a_run() {
    let mut program = program(vec![
        symbol("a", 0x0200_2000, SymbolKind::Label),
        symbol("b", 0x0200_2000, SymbolKind::Label),
    ]);
    let command = command(false);
    let (state, _) = search(&command, &mut program);
    let found = module_event(ModuleAnalysis::Done { found: true });
    let (state, action) = command.run(&mut program, state, found);
    assert!(matches!(state, RunState::Stopped));
    let RunAction::Stop { result: Err(RunError::Symbols(error)) } = action else {
        panic!("{action:?}")
    };
    assert_eq!(error, SymbolMapError::MultipleSymbols { address: 0x0200_2000 });
}

#[test]
fn module_analysis_decides() {
    let command = command(false);
    let module = ModuleKind::Overlay(7);
    assert!(matches!(
        command.fix_module(module, ModuleAnalysis::Done { found: true }),
        Ok(true)
    ));
    assert!(matches!(
        command.fix_module(module, ModuleAnalysis::Done { found: false }),
        Ok(false)
    ));
    assert!(matches!(
        command.fix_module(module, ModuleAnalysis::NoModule),
        Err(RunError::ModuleNotFound(ModuleKind::Overlay(7)))
    ));
}

#[test]
fn errors_say_what_happened() {
    let name = "FindExceptionTable";
    let message = |module: ModuleKind| RunError::ModuleNotFound(module).message(name);
    assert_eq!(message(ModuleKind::Arm9), "Module not found: ARM9 main");
    assert_eq!(message(ModuleKind::Overlay(12)), "Module not found: overlay 12");
    let kinds = [
        (AutoloadKind::Itcm, "ITCM"),
        (AutoloadKind::Dtcm, "DTCM"),
        (AutoloadKind::Unknown(3), "Unknown(3)"),
    ];
    for (kind, text) in kinds {
        let expected = format!("Module not found: autoload {text}");
        assert_eq!(message(ModuleKind::Autoload(kind)), expected);
    }
    assert_eq!(RunError::Analysis("no such symbol".to_string()).message(name), "no such symbol");
    assert_eq!(
        RunError::InNoModule.message(name),
        "FindExceptionTable found but it did not belong to ARM9 main or custom autoloads?"
    );
    let error = SymbolMapError::MultipleSymbols { address: 0x0200_2000 };
    assert_eq!(RunError::Symbols(error).message(name), "Multiple symbols at 0x02002000");
}

#[test]
fn naming_twice_may_reorder_records_that_are_entries() {
    let mut program = program(vec![]);
    let data = data(&[
        entry(0x0200_0100, 0x20, 0x0200_100c),
        entry(0x0200_0200, 0x20, 0x0200_2000),
    ]);
    assert!(command(false).add_exception_table_symbols(&mut program, &data).is_ok());
    let mut once = contents(&program, ModuleKind::Arm9);
    assert!(command(false).add_exception_table_symbols(&mut program, &data).is_ok());
    let mut twice = contents(&program, ModuleKind::Arm9);
    assert_ne!(once, twice);
    once.sort_by_key(|symbol| symbol.2);
    twice.sort_by_key(|symbol| symbol.2);
    assert_eq!(once, twice);
}

// The outcome of a run to which `answers` come back when modules are searched.
fn outcome(dry: bool, symbols: Vec<Symbol>, answers: &[bool]) -> (RunAction, usize) {
    let mut program = program(symbols);
    let command = command(dry);
    let (mut state, mut action) = search(&command, &mut program);
    for &found in answers {
        if matches!(state, RunState::Searching { .. }) {
            let event = module_event(ModuleAnalysis::Done { found });
            (state, action) = command.run(&mut program, state, event);
        }
    }
    if matches!(state, RunState::Writing { .. }) {
        (_, action) = command.run(&mut program, state, RunEvent::FilesWritten);
    }
    (action, contents(&program, ModuleKind::Arm9).len())
}

#[test]
fn dry_run_foretells_the_run() {
    let (dry, named) = outcome(true, vec![], &[false, true]);
    let (wet, written) = outcome(false, vec![], &[false, true]);
    let RunAction::Stop { result: Ok(RunOutcome::DryRun(foretold)) } = dry else {
        panic!("{dry:?}")
    };
    let RunAction::Stop { result: Ok(RunOutcome::Finished(found)) } = wet else {
        panic!("{wet:?}")
    };
    assert_eq!((foretold, named), (found, written));
    let twice = || {
        vec![
            symbol("a", 0x0200_1000, SymbolKind::Label),
            symbol("b", 0x0200_1000, SymbolKind::Label),
        ]
    };
    for (symbols, answers) in [(vec![], [false, false, false]), (twice(), [true, false, false])] {
        let copy = if symbols.is_empty() { vec![] } else { twice() };
        let (dry, _) = outcome(true, symbols, &answers);
        let (wet, _) = outcome(false, copy, &answers);
        assert!(matches!(dry, RunAction::Stop { result: Err(_) }));
        assert_eq!(format!("{dry:?}"), format!("{wet:?}"));
    }
}
