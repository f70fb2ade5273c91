//! Finds the exception table of a program, and names its entries.

use vstd::prelude::*;
use vstd::string::*;

use crate::program::{lemma_symbols_in_update, AutoloadKind, ModuleKind, Program};
use crate::symbols::{
    lemma_remove_only, sole, without, Found, SymData, SymbolKind, SymbolMap, SymbolMapError,
    SymbolView, Wanted,
};
use crate::text::{begins_with, hex_padded, push_hex8};

verus! {

/// An entry of an exception table: three words.
#[derive(Clone, Copy, Debug, PartialEq, Eq, Structural)]
pub struct ExceptionTableEntry {
    pub function_address: u32,
    /// The length of the function; even, where the third word is the address of an
    /// exception record.
    pub function_length: u32,
    pub exception_record: u32,
}

/// The size of an [`ExceptionTableEntry`].
pub const ENTRY_SIZE: u32 = 12;

/// What is known of the exception table of a program.
#[derive(Debug)]
pub struct ExceptionData {
    /// The address of the function that searches the table.
    pub find_exception_table_fn_addr: u32,
    /// The bytes of that function.
    pub find_exception_table_fn: Vec<u8>,
    /// The address of the table.
    pub exceptix_start: u32,
    pub exception_table: Vec<ExceptionTableEntry>,
}

/// The value of [`ExceptionData`].
pub struct ExceptionView {
    pub find_exception_table_fn_addr: u32,
    pub find_exception_table_fn: Seq<u8>,
    pub exceptix_start: u32,
    pub exception_table: Seq<ExceptionTableEntry>,
}

impl View for ExceptionData {
    type V = ExceptionView;

    open spec fn view(&self) -> ExceptionView {
        ExceptionView {
            find_exception_table_fn_addr: self.find_exception_table_fn_addr,
            find_exception_table_fn: self.find_exception_table_fn@,
            exceptix_start: self.exceptix_start,
            exception_table: self.exception_table@,
        }
    }
}

impl ExceptionView {
    /// The address of the entry at place `i`.
    pub open spec fn slot(self, i: int) -> int {
        self.exceptix_start + ENTRY_SIZE * i
    }

    /// Whether all entries have an address.
    pub open spec fn is_addressable(self) -> bool {
        self.exception_table.len() > 0 ==> self.slot(self.exception_table.len() - 1) <= u32::MAX
    }
}

impl ExceptionData {
    /// Whether all entries have an address.
    pub fn has_addresses(&self) -> (res: bool)
        ensures
            res == self@.is_addressable(),
    {
        let n = self.exception_table.len();
        n == 0 || (n - 1) as u64 <= ((u32::MAX - self.exceptix_start) / ENTRY_SIZE) as u64
    }
}

/// Whether the third word of an entry is the address of an exception record.
pub open spec fn has_record(entry: ExceptionTableEntry) -> bool {
    entry.function_length % 2 == 0
}

/// What some symbols are after names were given to addresses.
pub struct Naming {
    pub symbols: Seq<SymbolView>,
    /// An address with several symbols, if one stood in the way.
    pub ambiguous: Option<u32>,
}

/// What an address is called that belongs to the exceptions of a function.
pub open spec fn exception_name(prefix: Seq<char>, function_address: u32) -> Seq<char> {
    prefix + hex_padded(function_address as nat, 8)
}

/// Gives `address` the name `prefix` and the function's address, unless the symbol
/// there already begins with `prefix`. Any other symbol there goes.
pub open spec fn name_address(
    symbols: Seq<SymbolView>,
    address: u32,
    prefix: Seq<char>,
    function_address: u32,
    data: SymData,
) -> Naming {
    let named = SymbolView {
        name: exception_name(prefix, function_address),
        kind: SymbolKind::Data(data),
        addr: address,
    };
    match sole(symbols, address, Wanted::Any) {
        Found::Several => Naming { symbols, ambiguous: Some(address) },
        Found::Nothing => Naming { symbols: symbols.push(named), ambiguous: None },
        Found::One(symbol) => if prefix.is_prefix_of(symbol.name) {
            Naming { symbols, ambiguous: None }
        } else {
            Naming { symbols: without(symbols, address).push(named), ambiguous: None }
        },
    }
}

/// Names the entry at `address`, three words, and the exception record that it
/// points at, if it does.
pub open spec fn name_entry(
    symbols: Seq<SymbolView>,
    address: u32,
    entry: ExceptionTableEntry,
) -> Naming {
    let first = name_address(
        symbols,
        address,
        "@EX@"@,
        entry.function_address,
        SymData::Word { count: Some(3) },
    );
    if first.ambiguous is None && has_record(entry) {
        name_address(
            first.symbols,
            entry.exception_record,
            "@ET@"@,
            entry.function_address,
            SymData::Any,
        )
    } else {
        first
    }
}

/// Names the first `n` entries of an exception table, up to one that cannot be
/// named.
pub open spec fn name_entries(symbols: Seq<SymbolView>, data: ExceptionView, n: nat) -> Naming
    decreases n,
{
    if n == 0 {
        Naming { symbols, ambiguous: None }
    } else {
        let before = name_entries(symbols, data, (n - 1) as nat);
        if before.ambiguous is None {
            name_entry(before.symbols, data.slot(n - 1) as u32, data.exception_table[n - 1])
        } else {
            before
        }
    }
}

/// Names all entries of an exception table.
pub open spec fn name_table(symbols: Seq<SymbolView>, data: ExceptionView) -> Naming {
    name_entries(symbols, data, data.exception_table.len())
}

proof fn lemma_entries_stop(symbols: Seq<SymbolView>, data: ExceptionView, m: nat, n: nat)
    requires
        m <= n,
        name_entries(symbols, data, m).ambiguous is Some,
    ensures
        name_entries(symbols, data, n) == name_entries(symbols, data, m),
    decreases n,
{
    if m < n {
        lemma_entries_stop(symbols, data, m, (n - 1) as nat);
    }
}

/// How many of some entries point at an exception record.
pub open spec fn record_count(table: Seq<ExceptionTableEntry>) -> nat
    decreases table.len(),
{
    if table.len() == 0 {
        0
    } else {
        record_count(table.drop_last()) + if has_record(table.last()) {
            1nat
        } else {
            0nat
        }
    }
}

/// How many symbols the exception table of a program has.
#[derive(Clone, Copy, Debug, PartialEq, Eq, Structural)]
pub struct ExceptionSymbols {
    /// For entries.
    pub ex_symbols: usize,
    /// For exception records.
    pub et_symbols: usize,
}

fn name_symbol(
    map: &mut SymbolMap,
    address: u32,
    prefix: &str,
    function_address: u32,
    data: SymData,
) -> (res: Result<(), SymbolMapError>)
    ensures
        final(map)@ == name_address(old(map)@, address, prefix@, function_address, data).symbols,
        match res {
            Ok(()) => name_address(
                old(map)@,
                address,
                prefix@,
                function_address,
                data,
            ).ambiguous is None,
            Err(e) => name_address(
                old(map)@,
                address,
                prefix@,
                function_address,
                data,
            ).ambiguous == Some(address) && e == (SymbolMapError::MultipleSymbols { address }),
        },
{
    let present: Option<usize> = match map.by_address(address) {
        Err(error) => {
            return Err(error);
        },
        Ok(Some((id, symbol))) => {
            if begins_with(symbol.name.as_str(), prefix) {
                return Ok(());
            }
            Some(id)
        },
        Ok(None) => None,
    };
    if let Some(id) = present {
        proof {
            lemma_remove_only(map@, address, id as int);
        }
        map.remove(id);
    }
    let mut name = String::new();
    name.append(prefix);
    push_hex8(&mut name, function_address);
    assert(name@ =~= exception_name(prefix@, function_address));
    map.add_data(name, address, data);
    Ok(())
}

/// Names all entries of an exception table.
fn name_exception_table(map: &mut SymbolMap, exception_data: &ExceptionData) -> (res: Result<
    ExceptionSymbols,
    SymbolMapError,
>)
    requires
        exception_data@.is_addressable(),
    ensures
        final(map)@ == name_table(old(map)@, exception_data@).symbols,
        match res {
            Ok(count) => {
                &&& name_table(old(map)@, exception_data@).ambiguous is None
                &&& count.ex_symbols == exception_data.exception_table@.len()
                &&& count.et_symbols == record_count(exception_data.exception_table@)
            },
            Err(SymbolMapError::MultipleSymbols { address }) => name_table(
                old(map)@,
                exception_data@,
            ).ambiguous == Some(address),
        },
{
    let ghost data = exception_data@;
    let ghost table = exception_data.exception_table@;
    let mut et_symbols: usize = 0;
    let mut i: usize = 0;
    assert(table.take(0) =~= seq![]);
    while i < exception_data.exception_table.len()
        invariant
            data == exception_data@,
            table == exception_data.exception_table@,
            i <= exception_data.exception_table.len(),
            data.is_addressable(),
            map@ == name_entries(old(map)@, data, i as nat).symbols,
            name_entries(old(map)@, data, i as nat).ambiguous is None,
            et_symbols == record_count(table.take(i as int)),
            et_symbols <= i,
        decreases exception_data.exception_table.len() - i,
    {
        assert(data.slot(i as int) <= data.slot(table.len() - 1));
        let entry = exception_data.exception_table[i];
        let address = exception_data.exceptix_start + ENTRY_SIZE * (i as u32);
        assert(address == data.slot(i as int));
        proof {
            assert(table.take(i + 1).drop_last() =~= table.take(i as int));
            assert(table.take(i + 1).last() == entry);
        }
        let word = SymData::Word { count: Some(3) };
        if let Err(error) = name_symbol(map, address, "@EX@", entry.function_address, word) {
            proof {
                lemma_entries_stop(old(map)@, data, (i + 1) as nat, table.len());
            }
            return Err(error);
        }
        if entry.function_length % 2 == 0 {
            let record = entry.exception_record;
            let outcome = name_symbol(map, record, "@ET@", entry.function_address, SymData::Any);
            if let Err(error) = outcome {
                proof {
                    lemma_entries_stop(old(map)@, data, (i + 1) as nat, table.len());
                }
                return Err(error);
            }
            et_symbols += 1;
        }
        i += 1;
    }
    assert(table.take(i as int) =~= table);
    Ok(ExceptionSymbols { ex_symbols: i, et_symbols })
}

/// What the analysis of a module for the search function came to.
#[derive(Debug)]
pub enum ModuleAnalysis {
    /// The program has no such module.
    NoModule,
    /// The analysis failed, for the reason given.
    Failed(String),
    /// The search function is in the module, or is not.
    Done { found: bool },
}

/// Why a run failed.
#[derive(Debug)]
pub enum RunError {
    ModuleNotFound(ModuleKind),
    Analysis(String),
    /// The search function is in none of the modules.
    InNoModule,
    Symbols(SymbolMapError),
}

/// How a run ended.
#[derive(Debug)]
pub enum RunOutcome {
    /// The program has no search function, and nothing was changed.
    NothingFound,
    /// The entries were named, but not in any file.
    DryRun(ExceptionSymbols),
    /// The entries were named.
    Finished(ExceptionSymbols),
}

/// Where a run is.
#[derive(Debug)]
pub enum RunState {
    Start,
    /// The program is searched for the exception table.
    Analyzing { autoloads: Vec<AutoloadKind> },
    /// The module at place `next` is searched for the search function.
    Searching { modules: Vec<ModuleKind>, next: usize, exception_data: ExceptionData },
    Writing { symbols: ExceptionSymbols },
    Stopped,
}

/// What a run waits for.
#[derive(Debug)]
pub enum RunEvent {
    /// The program was loaded, and has these autoloads.
    Loaded { autoloads: Vec<AutoloadKind> },
    /// The program was searched for the exception table.
    Analyzed { exception_data: Option<ExceptionData> },
    /// A module was searched for the search function.
    ModuleAnalyzed { analysis: ModuleAnalysis },
    FilesWritten,
}

/// What a run asks for.
#[derive(Debug)]
pub enum RunAction {
    /// Search the main module and the autoloads for the exception table.
    Analyze { autoloads: Vec<AutoloadKind> },
    /// Search a module for the search function, which has this address and these
    /// bytes, and mark its link-time constants.
    FixModule { module: ModuleKind, address: u32, code: Vec<u8> },
    /// Write the program to its files.
    WriteFiles { symbols: ExceptionSymbols },
    Stop { result: Result<RunOutcome, RunError> },
}

/// The value of a [`RunError`].
pub enum ErrorView {
    ModuleNotFound(ModuleKind),
    Analysis(Seq<char>),
    InNoModule,
    Ambiguous(u32),
}

impl View for RunError {
    type V = ErrorView;

    open spec fn view(&self) -> ErrorView {
        match self {
            RunError::ModuleNotFound(module) => ErrorView::ModuleNotFound(*module),
            RunError::Analysis(reason) => ErrorView::Analysis(reason@),
            RunError::InNoModule => ErrorView::InNoModule,
            RunError::Symbols(SymbolMapError::MultipleSymbols { address }) => {
                ErrorView::Ambiguous(*address)
            },
        }
    }
}

/// What there is to say of an error, where `function` is the name of the search
/// function.
pub open spec fn error_message(error: ErrorView, function: Seq<char>) -> Seq<char> {
    match error {
        ErrorView::ModuleNotFound(module) => "Module not found: "@ + module.spec_name(),
        ErrorView::Analysis(reason) => reason,
        ErrorView::InNoModule => function
            + " found but it did not belong to ARM9 main or custom autoloads?"@,
        ErrorView::Ambiguous(address) => "Multiple symbols at 0x"@ + hex_padded(address as nat, 8),
    }
}

impl RunError {
    /// What there is to say of the error, where `function` is the name of the search
    /// function.
    pub fn message(&self, function: &str) -> (res: String)
        ensures
            res@ == error_message(self@, function@),
    {
        let mut res = String::new();
        match self {
            RunError::ModuleNotFound(module) => {
                res.append("Module not found: ");
                let name = module.name();
                res.append(name.as_str());
            },
            RunError::Analysis(reason) => {
                res.append(reason.as_str());
            },
            RunError::InNoModule => {
                res.append(function);
                res.append(" found but it did not belong to ARM9 main or custom autoloads?");
            },
            RunError::Symbols(SymbolMapError::MultipleSymbols { address }) => {
                res.append("Multiple symbols at 0x");
                push_hex8(&mut res, *address);
            },
        }
        assert(res@ =~= error_message(self@, function@));
        res
    }
}

/// The value of a [`RunState`].
pub enum StateView {
    Start,
    Analyzing { autoloads: Seq<AutoloadKind> },
    Searching { modules: Seq<ModuleKind>, next: nat, exception_data: ExceptionView },
    Writing { symbols: ExceptionSymbols },
    Stopped,
}

impl View for RunState {
    type V = StateView;

    open spec fn view(&self) -> StateView {
        match self {
            RunState::Start => StateView::Start,
            RunState::Analyzing { autoloads } => StateView::Analyzing { autoloads: autoloads@ },
            RunState::Searching { modules, next, exception_data } => StateView::Searching {
                modules: modules@,
                next: *next as nat,
                exception_data: exception_data@,
            },
            RunState::Writing { symbols } => StateView::Writing { symbols: *symbols },
            RunState::Stopped => StateView::Stopped,
        }
    }
}

/// The value of a [`RunEvent`].
pub enum EventView {
    Loaded { autoloads: Seq<AutoloadKind> },
    Analyzed { exception_data: Option<ExceptionView> },
    ModuleMissing,
    ModuleFailed { reason: Seq<char> },
    ModuleAnalyzed { found: bool },
    FilesWritten,
}

impl View for RunEvent {
    type V = EventView;

    open spec fn view(&self) -> EventView {
        match self {
            RunEvent::Loaded { autoloads } => EventView::Loaded { autoloads: autoloads@ },
            RunEvent::Analyzed { exception_data: Some(data) } => EventView::Analyzed {
                exception_data: Some(data@),
            },
            RunEvent::Analyzed { exception_data: None } => EventView::Analyzed {
                exception_data: None,
            },
            RunEvent::ModuleAnalyzed { analysis } => analysis@,
            RunEvent::FilesWritten => EventView::FilesWritten,
        }
    }
}

impl View for ModuleAnalysis {
    type V = EventView;

    open spec fn view(&self) -> EventView {
        match self {
            ModuleAnalysis::NoModule => EventView::ModuleMissing,
            ModuleAnalysis::Failed(reason) => EventView::ModuleFailed { reason: reason@ },
            ModuleAnalysis::Done { found } => EventView::ModuleAnalyzed { found: *found },
        }
    }
}

/// The value of a [`RunAction`].
pub enum ActionView {
    Analyze { autoloads: Seq<AutoloadKind> },
    FixModule { module: ModuleKind, address: u32, code: Seq<u8> },
    WriteFiles { symbols: ExceptionSymbols },
    /// Stop because nothing was found.
    Nothing,
    /// Stop without writing.
    DryRun { symbols: ExceptionSymbols },
    /// Stop after writing.
    Finish { symbols: ExceptionSymbols },
    Fail { error: ErrorView },
}

impl View for RunAction {
    type V = ActionView;

    open spec fn view(&self) -> ActionView {
        match self {
            RunAction::Analyze { autoloads } => ActionView::Analyze { autoloads: autoloads@ },
            RunAction::FixModule { module, address, code } => ActionView::FixModule {
                module: *module,
                address: *address,
                code: code@,
            },
            RunAction::WriteFiles { symbols } => ActionView::WriteFiles { symbols: *symbols },
            RunAction::Stop { result: Ok(RunOutcome::NothingFound) } => ActionView::Nothing,
            RunAction::Stop { result: Ok(RunOutcome::DryRun(symbols)) } => ActionView::DryRun {
                symbols: *symbols,
            },
            RunAction::Stop { result: Ok(RunOutcome::Finished(symbols)) } => ActionView::Finish {
                symbols: *symbols,
            },
            RunAction::Stop { result: Err(error) } => ActionView::Fail { error: error@ },
        }
    }
}

/// The autoloads that are searched: all but those of unknown purpose.
pub open spec fn searched_autoloads(autoloads: Seq<AutoloadKind>) -> Seq<AutoloadKind> {
    autoloads.filter(|kind: AutoloadKind| !(kind is Unknown))
}

/// The modules that are searched, in this order: the main module, and the autoloads.
pub open spec fn searched_modules(autoloads: Seq<AutoloadKind>) -> Seq<ModuleKind> {
    seq![ModuleKind::Arm9] + autoloads.map_values(|kind: AutoloadKind| ModuleKind::Autoload(kind))
}

/// What one event leads to.
pub struct Reaction {
    pub state: StateView,
    pub action: ActionView,
    /// The symbols of the main module.
    pub symbols: Seq<SymbolView>,
}

pub open spec fn failure(error: ErrorView, symbols: Seq<SymbolView>) -> Reaction {
    Reaction { state: StateView::Stopped, action: ActionView::Fail { error }, symbols }
}

/// The request to search a module for the search function of an exception table.
pub open spec fn fix_request(module: ModuleKind, exception_data: ExceptionView) -> ActionView {
    ActionView::FixModule {
        module,
        address: exception_data.find_exception_table_fn_addr,
        code: exception_data.find_exception_table_fn,
    }
}

/// Whether an event is one that a run waits for in `state`. The entries of a table
/// have to have addresses for the search function to be found.
pub open spec fn is_awaited(state: StateView, event: EventView) -> bool {
    match state {
        StateView::Start => event is Loaded,
        StateView::Analyzing { .. } => event is Analyzed,
        StateView::Searching { modules, next, exception_data } => {
            &&& event is ModuleMissing || event is ModuleFailed || event is ModuleAnalyzed
            &&& next < modules.len()
            &&& event == (EventView::ModuleAnalyzed { found: true })
                ==> exception_data.is_addressable()
        },
        StateView::Writing { .. } => event is FilesWritten,
        StateView::Stopped => false,
    }
}

/// What a run does when the search function was found: it names the exception
/// table among the symbols of the main module.
pub open spec fn after_found(
    dry: bool,
    exception_data: ExceptionView,
    symbols: Seq<SymbolView>,
) -> Reaction {
    let naming = name_table(symbols, exception_data);
    let count = ExceptionSymbols {
        ex_symbols: exception_data.exception_table.len() as usize,
        et_symbols: record_count(exception_data.exception_table) as usize,
    };
    match naming.ambiguous {
        Some(address) => failure(ErrorView::Ambiguous(address), naming.symbols),
        None => if dry {
            Reaction {
                state: StateView::Stopped,
                action: ActionView::DryRun { symbols: count },
                symbols: naming.symbols,
            }
        } else {
            Reaction {
                state: StateView::Writing { symbols: count },
                action: ActionView::WriteFiles { symbols: count },
                symbols: naming.symbols,
            }
        },
    }
}

/// What a run does when `event` comes in `state`, which waits for it.
pub open spec fn react(
    dry: bool,
    state: StateView,
    event: EventView,
    symbols: Seq<SymbolView>,
) -> Reaction {
    match (state, event) {
        (StateView::Start, EventView::Loaded { autoloads }) => {
            let autoloads = searched_autoloads(autoloads);
            Reaction {
                state: StateView::Analyzing { autoloads },
                action: ActionView::Analyze { autoloads },
                symbols,
            }
        },
        (StateView::Analyzing { .. }, EventView::Analyzed { exception_data: None }) => Reaction {
            state: StateView::Stopped,
            action: ActionView::Nothing,
            symbols,
        },
        (
            StateView::Analyzing { autoloads },
            EventView::Analyzed { exception_data: Some(exception_data) },
        ) => Reaction {
            state: StateView::Searching {
                modules: searched_modules(autoloads),
                next: 0,
                exception_data,
            },
            action: fix_request(ModuleKind::Arm9, exception_data),
            symbols,
        },
        (StateView::Searching { modules, next, .. }, EventView::ModuleMissing) => failure(
            ErrorView::ModuleNotFound(modules[next as int]),
            symbols,
        ),
        (StateView::Searching { .. }, EventView::ModuleFailed { reason }) => failure(
            ErrorView::Analysis(reason),
            symbols,
        ),
        (
            StateView::Searching { modules, next, exception_data },
            EventView::ModuleAnalyzed { found },
        ) => if found {
            after_found(dry, exception_data, symbols)
        } else if next + 1 < modules.len() {
            Reaction {
                state: StateView::Searching { modules, next: next + 1, exception_data },
                action: fix_request(modules[next as int + 1], exception_data),
                symbols,
            }
        } else {
            failure(ErrorView::InNoModule, symbols)
        },
        (StateView::Writing { symbols: count }, _) => Reaction {
            state: StateView::Stopped,
            action: ActionView::Finish { symbols: count },
            symbols,
        },
        _ => failure(ErrorView::InNoModule, symbols),
    }
}

/// Locates the link-time constants for the start and the end of the exception
/// table.
#[derive(Debug)]
pub struct FindExceptix {
    /// Path to config.yaml.
    pub config_path: String,
    /// Dry run, do not write to any files.
    pub dry: bool,
}

fn known_autoloads(autoloads: &Vec<AutoloadKind>) -> (res: Vec<AutoloadKind>)
    ensures
        res@ == searched_autoloads(autoloads@),
{
    let ghost p = |kind: AutoloadKind| !(kind is Unknown);
    let mut res: Vec<AutoloadKind> = Vec::new();
    let mut i: usize = 0;
    proof {
        reveal(Seq::filter);
        assert(autoloads@.take(0).filter(p) =~= seq![]);
    }
    while i < autoloads.len()
        invariant
            i <= autoloads.len(),
            p == (|kind: AutoloadKind| !(kind is Unknown)),
            res@ == autoloads@.take(i as int).filter(p),
        decreases autoloads.len() - i,
    {
        proof {
            reveal(Seq::filter);
            assert(autoloads@.take(i + 1).drop_last() =~= autoloads@.take(i as int));
        }
        match autoloads[i] {
            AutoloadKind::Unknown(_) => {},
            kind => {
                res.push(kind);
            },
        }
        i += 1;
    }
    assert(autoloads@.take(i as int) =~= autoloads@);
    res
}

fn modules_of(autoloads: &Vec<AutoloadKind>) -> (res: Vec<ModuleKind>)
    ensures
        res@ == searched_modules(autoloads@),
{
    let mut res: Vec<ModuleKind> = Vec::new();
    res.push(ModuleKind::Arm9);
    let mut i: usize = 0;
    while i < autoloads.len()
        invariant
            i <= autoloads.len(),
            res@.len() == i + 1,
            forall|j: int| 0 <= j <= i ==> res@[j] == searched_modules(autoloads@)[j],
        decreases autoloads.len() - i,
    {
        res.push(ModuleKind::Autoload(autoloads[i]));
        i += 1;
    }
    assert(res@ =~= searched_modules(autoloads@));
    res
}

fn request_fix(module: ModuleKind, exception_data: &ExceptionData) -> (res: RunAction)
    ensures
        res@ == fix_request(module, exception_data@),
{
    let code = exception_data.find_exception_table_fn.clone();
    assert(code@ =~= exception_data.find_exception_table_fn@);
    RunAction::FixModule { module, address: exception_data.find_exception_table_fn_addr, code }
}

impl FindExceptix {
    /// Does the next part of a run: what is to be done when `event` comes in
    /// `state`, which waits for it.
    pub fn run(&self, program: &mut Program, state: RunState, event: RunEvent) -> (res: (
        RunState,
        RunAction,
    ))
        requires
            is_awaited(state@, event@),
        ensures
            ({
                let reaction = react(
                    self.dry,
                    state@,
                    event@,
                    old(program).symbol_maps.symbols_of(ModuleKind::Arm9),
                );
                &&& res.0@ == reaction.state
                &&& res.1@ == reaction.action
                &&& final(program).symbol_maps.symbols_of(ModuleKind::Arm9) == reaction.symbols
            }),
            forall|other: ModuleKind|
                other != ModuleKind::Arm9 ==> #[trigger] final(program).symbol_maps.symbols_of(
                    other,
                ) == old(program).symbol_maps.symbols_of(other),
    {
        match (state, event) {
            (RunState::Start, RunEvent::Loaded { autoloads }) => {
                let autoloads = known_autoloads(&autoloads);
                let asked = autoloads.clone();
                assert(asked@ =~= autoloads@);
                (RunState::Analyzing { autoloads }, RunAction::Analyze { autoloads: asked })
            },
            (RunState::Analyzing { autoloads }, RunEvent::Analyzed { exception_data }) => {
                match exception_data {
                    None => (
                        RunState::Stopped,
                        RunAction::Stop { result: Ok(RunOutcome::NothingFound) },
                    ),
                    Some(exception_data) => {
                        let modules = modules_of(&autoloads);
                        let action = request_fix(ModuleKind::Arm9, &exception_data);
                        (RunState::Searching { modules, next: 0, exception_data }, action)
                    },
                }
            },
            (
                RunState::Searching { modules, next, exception_data },
                RunEvent::ModuleAnalyzed { analysis },
            ) => {
                let module = modules[next];
                let count = modules.len();
                match self.fix_module(module, analysis) {
                    Err(error) => (RunState::Stopped, RunAction::Stop { result: Err(error) }),
                    Ok(true) => self.finish_search(program, &exception_data),
                    Ok(false) => {
                        if next + 1 < count {
                            let action = request_fix(modules[next + 1], &exception_data);
                            (
                                RunState::Searching { modules, next: next + 1, exception_data },
                                action,
                            )
                        } else {
                            (
                                RunState::Stopped,
                                RunAction::Stop { result: Err(RunError::InNoModule) },
                            )
                        }
                    },
                }
            },
            (RunState::Writing { symbols }, _) => (
                RunState::Stopped,
                RunAction::Stop { result: Ok(RunOutcome::Finished(symbols)) },
            ),
            _ => (RunState::Stopped, RunAction::Stop { result: Err(RunError::InNoModule) }),
        }
    }

    /// Whether the search function was found in a module.
    pub fn fix_module(&self, module_kind: ModuleKind, analysis: ModuleAnalysis) -> (res: Result<
        bool,
        RunError,
    >)
        ensures
            match analysis {
                ModuleAnalysis::NoModule => res matches Err(e) && e@ == ErrorView::ModuleNotFound(
                    module_kind,
                ),
                ModuleAnalysis::Failed(reason) => res matches Err(e) && e@ == ErrorView::Analysis(
                    reason@,
                ),
                ModuleAnalysis::Done { found } => res == Ok::<bool, RunError>(found),
            },
    {
        match analysis {
            ModuleAnalysis::NoModule => Err(RunError::ModuleNotFound(module_kind)),
            ModuleAnalysis::Failed(reason) => Err(RunError::Analysis(reason)),
            ModuleAnalysis::Done { found } => Ok(found),
        }
    }

    fn finish_search(&self, program: &mut Program, exception_data: &ExceptionData) -> (res: (
        RunState,
        RunAction,
    ))
        requires
            exception_data@.is_addressable(),
        ensures
            ({
                let reaction = after_found(
                    self.dry,
                    exception_data@,
                    old(program).symbol_maps.symbols_of(ModuleKind::Arm9),
                );
                &&& res.0@ == reaction.state
                &&& res.1@ == reaction.action
                &&& final(program).symbol_maps.symbols_of(ModuleKind::Arm9) == reaction.symbols
            }),
            forall|other: ModuleKind|
                other != ModuleKind::Arm9 ==> #[trigger] final(program).symbol_maps.symbols_of(
                    other,
                ) == old(program).symbol_maps.symbols_of(other),
    {
        match self.add_exception_table_symbols(program, exception_data) {
            Err(error) => (
                RunState::Stopped,
                RunAction::Stop { result: Err(RunError::Symbols(error)) },
            ),
            Ok(symbols) => {
                if self.dry {
                    (
                        RunState::Stopped,
                        RunAction::Stop { result: Ok(RunOutcome::DryRun(symbols)) },
                    )
                } else {
                    (RunState::Writing { symbols }, RunAction::WriteFiles { symbols })
                }
            },
        }
    }

    /// Names the exception table among the symbols of the main module, and counts
    /// its symbols.
    pub fn add_exception_table_symbols(
        &self,
        program: &mut Program,
        exception_data: &ExceptionData,
    ) -> (res: Result<ExceptionSymbols, SymbolMapError>)
        requires
            exception_data@.is_addressable(),
        ensures
            ({
                let naming = name_table(
                    old(program).symbol_maps.symbols_of(ModuleKind::Arm9),
                    exception_data@,
                );
                &&& final(program).symbol_maps.symbols_of(ModuleKind::Arm9) == naming.symbols
                &&& match res {
                    Ok(count) => {
                        &&& naming.ambiguous is None
                        &&& count.ex_symbols == exception_data.exception_table@.len()
                        &&& count.et_symbols == record_count(exception_data.exception_table@)
                    },
                    Err(SymbolMapError::MultipleSymbols { address }) => naming.ambiguous == Some(
                        address,
                    ),
                }
            }),
            forall|other: ModuleKind|
                other != ModuleKind::Arm9 ==> #[trigger] final(program).symbol_maps.symbols_of(
                    other,
                ) == old(program).symbol_maps.symbols_of(other),
    {
        let place = program.symbol_maps.place_of(ModuleKind::Arm9);
        let ghost made = program.symbol_maps;
        let res = name_exception_table(
            &mut program.symbol_maps.maps[place].symbols,
            exception_data,
        );
        proof {
            let maps = program.symbol_maps;
            lemma_symbols_in_update(made.maps@, maps.maps@, place as int, ModuleKind::Arm9);
            assert(made.symbols_of(ModuleKind::Arm9) == old(program).symbol_maps.symbols_of(
                ModuleKind::Arm9,
            ));
            assert forall|other: ModuleKind|
                other != ModuleKind::Arm9 implies #[trigger] maps.symbols_of(other) == old(
                program,
            ).symbol_maps.symbols_of(other) by {
                assert(made.symbols_of(other) == old(program).symbol_maps.symbols_of(other));
            }
        }
        res
    }
}

} // verus!
