//! What a run asks for, what comes of it, and which names it gives.

use vstd::prelude::*;

use crate::exception_laws::{
    entry_renaming, is_named, is_touched, law_entries_are_named, law_naming_fails_on_ambiguity_only,
    law_other_symbols_are_kept, law_records_are_named, lemma_address_is_named, points_at,
    record_renaming, renamed_symbol, touches, Renaming,
};
use crate::find_exceptix::{
    error_message, exception_name, is_awaited, name_address, name_entries, name_entry, name_table,
    react, record_count, ActionView, ErrorView, EventView, ExceptionData, ExceptionSymbols,
    ExceptionTableEntry, ExceptionView, ModuleAnalysis, Naming, RunAction, RunError, RunEvent,
    RunOutcome, RunState, StateView,
};
use crate::program::{is_first, AutoloadKind, ModuleKind, SymbolMaps};
use crate::symbol_laws::{any_at, are_several, is_one, law_searches_find_the_only_one};
use crate::symbols::{
    matches_at, sole, Found, SymData, SymbolKind, SymbolMapError, SymbolView, Wanted,
};
use crate::text_laws::{are_digits, law_address_reads_back, law_decimal_reads_back, reading};

verus! {

/// How often `kind` is among some autoloads.
pub open spec fn occurrences(autoloads: Seq<AutoloadKind>, kind: AutoloadKind) -> nat
    decreases autoloads.len(),
{
    if autoloads.len() == 0 {
        0
    } else {
        occurrences(autoloads.drop_last(), kind) + if autoloads.last() == kind {
            1nat
        } else {
            0nat
        }
    }
}

/// The autoloads that a run asks to be analyzed when a program was loaded that has
/// `autoloads`.
pub open spec fn asked_for(autoloads: Seq<AutoloadKind>) -> Seq<AutoloadKind> {
    react(
        false,
        StateView::Start,
        EventView::Loaded { autoloads },
        seq![],
    ).action->Analyze_autoloads
}

/// When a program was loaded, a run asks for the analysis of some of its autoloads, and
/// for nothing else, and remembers which ones, dry or not.
pub proof fn law_loaded_program_is_analyzed(
    dry: bool,
    autoloads: Seq<AutoloadKind>,
    symbols: Seq<SymbolView>,
)
    ensures
        ({
            let next = react(dry, StateView::Start, EventView::Loaded { autoloads }, symbols);
            &&& next.action == (ActionView::Analyze { autoloads: asked_for(autoloads) })
            &&& next.state == (StateView::Analyzing { autoloads: asked_for(autoloads) })
            &&& next.symbols == symbols
        }),
{
}

/// The autoloads that are asked for when more of them were loaded are those that would
/// have been asked for before, and behind them those of the others: where an autoload
/// stands does not matter, and their order is kept.
pub proof fn law_autoloads_are_asked_for_in_order(
    first: Seq<AutoloadKind>,
    second: Seq<AutoloadKind>,
)
    ensures
        asked_for(first + second) == asked_for(first) + asked_for(second),
    decreases second.len(),
{
    reveal(Seq::filter);
    if second.len() == 0 {
        assert(first + second =~= first);
        assert(asked_for(second) =~= seq![]);
    } else {
        law_autoloads_are_asked_for_in_order(first, second.drop_last());
        assert((first + second).drop_last() =~= first + second.drop_last());
        assert(asked_for(first + second) =~= asked_for(first) + asked_for(second));
    }
}

/// An autoload by itself is asked for unless its purpose is unknown.
pub proof fn law_one_autoload(kind: AutoloadKind)
    ensures
        asked_for(seq![kind]) == if kind is Unknown {
            seq![]
        } else {
            seq![kind]
        },
{
    reveal(Seq::filter);
    assert(seq![kind].drop_last() =~= seq![]);
    assert(asked_for(seq![kind].drop_last()) =~= seq![]);
    assert(asked_for(seq![kind]) =~= if kind is Unknown {
        seq![]
    } else {
        seq![kind]
    });
}

/// Each autoload whose purpose is not unknown is asked for as often as it was loaded,
/// and no other one is asked for at all.
pub proof fn law_all_known_autoloads_are_asked_for(
    autoloads: Seq<AutoloadKind>,
    kind: AutoloadKind,
)
    ensures
        occurrences(asked_for(autoloads), kind) == if kind is Unknown {
            0
        } else {
            occurrences(autoloads, kind)
        },
    decreases autoloads.len(),
{
    if autoloads.len() == 0 {
        reveal(Seq::filter);
        assert(asked_for(autoloads) =~= seq![]);
    } else {
        let front = autoloads.drop_last();
        let last = autoloads.last();
        law_all_known_autoloads_are_asked_for(front, kind);
        law_autoloads_are_asked_for_in_order(front, seq![last]);
        law_one_autoload(last);
        assert(autoloads =~= front + seq![last]);
        if last is Unknown {
            assert(asked_for(autoloads) =~= asked_for(front));
        } else {
            assert(asked_for(autoloads).drop_last() =~= asked_for(front));
            assert(asked_for(autoloads).last() == last);
        }
    }
}

/// If the purpose of all autoloads is known, all of them are asked for as they are.
pub proof fn law_known_autoloads_are_asked_for_as_they_are(autoloads: Seq<AutoloadKind>)
    requires
        forall|i: int| 0 <= i < autoloads.len() ==> !(#[trigger] autoloads[i] is Unknown),
    ensures
        asked_for(autoloads) == autoloads,
    decreases autoloads.len(),
{
    if autoloads.len() == 0 {
        reveal(Seq::filter);
        assert(asked_for(autoloads) =~= autoloads);
    } else {
        let front = autoloads.drop_last();
        law_known_autoloads_are_asked_for_as_they_are(front);
        law_autoloads_are_asked_for_in_order(front, seq![autoloads.last()]);
        law_one_autoload(autoloads.last());
        assert(autoloads =~= front + seq![autoloads.last()]);
    }
}

/// When an exception table was found, the main module is searched first, and then the
/// autoloads that were analyzed, each one, in their order. Without a table the run ends.
pub proof fn law_search_begins_with_the_main_module(
    dry: bool,
    autoloads: Seq<AutoloadKind>,
    data: ExceptionView,
    symbols: Seq<SymbolView>,
)
    ensures
        ({
            let state = StateView::Analyzing { autoloads };
            let found = EventView::Analyzed { exception_data: Some(data) };
            let next = react(dry, state, found, symbols);
            &&& next.symbols == symbols
            &&& next.state matches StateView::Searching { modules, next: place, exception_data }
            &&& place == 0
            &&& exception_data == data
            &&& modules.len() == autoloads.len() + 1
            &&& modules[0] == ModuleKind::Arm9
            &&& forall|i: int|
                0 <= i < autoloads.len() ==> modules[i + 1] == ModuleKind::Autoload(
                    #[trigger] autoloads[i],
                )
            &&& next.action == (ActionView::FixModule {
                module: ModuleKind::Arm9,
                address: data.find_exception_table_fn_addr,
                code: data.find_exception_table_fn,
            })
        }),
        ({
            let state = StateView::Analyzing { autoloads };
            let absent = EventView::Analyzed { exception_data: None };
            let next = react(dry, state, absent, symbols);
            next.state is Stopped && next.action is Nothing && next.symbols == symbols
        }),
{
}

/// While the search function is not found, the next module is searched for it, and
/// after the last one the run fails. A module that is missing or cannot be analyzed
/// ends the run with that error.
pub proof fn law_search_goes_on(
    dry: bool,
    modules: Seq<ModuleKind>,
    place: nat,
    data: ExceptionView,
    symbols: Seq<SymbolView>,
    reason: Seq<char>,
)
    requires
        place < modules.len(),
    ensures
        ({
            let state = StateView::Searching { modules, next: place, exception_data: data };
            let next = react(dry, state, EventView::ModuleAnalyzed { found: false }, symbols);
            let missing = react(dry, state, EventView::ModuleMissing, symbols);
            let failed = react(dry, state, EventView::ModuleFailed { reason }, symbols);
            &&& next.symbols == symbols && missing.symbols == symbols && failed.symbols == symbols
            &&& place + 1 < modules.len() ==> next.state == (StateView::Searching {
                modules,
                next: place + 1,
                exception_data: data,
            }) && next.action == (ActionView::FixModule {
                module: modules[place as int + 1],
                address: data.find_exception_table_fn_addr,
                code: data.find_exception_table_fn,
            })
            &&& place + 1 == modules.len() ==> next.state is Stopped && next.action == (
            ActionView::Fail { error: ErrorView::InNoModule })
            &&& missing.state is Stopped && missing.action == (ActionView::Fail {
                error: ErrorView::ModuleNotFound(modules[place as int]),
            })
            &&& failed.state is Stopped && failed.action == (ActionView::Fail {
                error: ErrorView::Analysis(reason),
            })
        }),
{
}

/// How many of some entries have a function of even length.
pub open spec fn even_lengths(table: Seq<ExceptionTableEntry>) -> nat {
    table.filter(|entry: ExceptionTableEntry| entry.function_length % 2 == 0).len()
}

proof fn lemma_even_lengths(table: Seq<ExceptionTableEntry>)
    ensures
        record_count(table) == even_lengths(table),
        even_lengths(table) <= table.len(),
    decreases table.len(),
{
    reveal(Seq::filter);
    if table.len() > 0 {
        lemma_even_lengths(table.drop_last());
    }
}

/// When the search function is found, the table is named among the symbols of the main
/// module. The counts are those of all entries, and of the entries whose function has
/// an even length. Then the files are written, unless the run is dry.
pub proof fn law_found_function_names_the_table(
    dry: bool,
    modules: Seq<ModuleKind>,
    place: nat,
    data: ExceptionView,
    symbols: Seq<SymbolView>,
)
    requires
        data.exception_table.len() <= usize::MAX,
    ensures
        ({
            let state = StateView::Searching { modules, next: place, exception_data: data };
            let next = react(dry, state, EventView::ModuleAnalyzed { found: true }, symbols);
            let naming = name_table(symbols, data);
            &&& next.symbols == naming.symbols
            &&& naming.ambiguous matches Some(address) ==> next.state is Stopped && next.action == (
            ActionView::Fail { error: ErrorView::Ambiguous(address) })
            &&& naming.ambiguous is None && dry ==> next.state is Stopped && (
            next.action matches ActionView::DryRun { symbols: count } && are_counts(count, data))
            &&& naming.ambiguous is None && !dry ==> (
            next.action matches ActionView::WriteFiles { symbols: count } && are_counts(count, data)
                && next.state == (StateView::Writing { symbols: count }))
        }),
{
    lemma_even_lengths(data.exception_table);
}

/// Whether the counts are those of all entries, and of those with an even length.
pub open spec fn are_counts(count: ExceptionSymbols, data: ExceptionView) -> bool {
    count.ex_symbols == data.exception_table.len() && count.et_symbols == even_lengths(
        data.exception_table,
    )
}

/// When the files were written, the run ends with the counts that it had.
pub proof fn law_written_files_end_the_run(
    dry: bool,
    count: ExceptionSymbols,
    symbols: Seq<SymbolView>,
)
    ensures
        ({
            let state = StateView::Writing { symbols: count };
            let next = react(dry, state, EventView::FilesWritten, symbols);
            &&& next.state is Stopped
            &&& next.action == (ActionView::Finish { symbols: count })
            &&& next.symbols == symbols
        }),
{
}

/// The number of entries of even length is the number that is counted, for a table
/// that is named by itself.
pub proof fn law_record_count_is_of_even_lengths(table: Seq<ExceptionTableEntry>)
    ensures
        record_count(table) == even_lengths(table),
{
    lemma_even_lengths(table);
}

/// The address of the entry at place `i`: three words for each entry in front of it.
pub open spec fn entry_address(data: ExceptionView, i: int) -> int {
    data.exceptix_start + 12 * i
}

/// Whether all entries have an address.
pub open spec fn have_addresses(data: ExceptionView) -> bool {
    forall|i: int|
        0 <= i < data.exception_table.len() ==> #[trigger] entry_address(data, i) <= u32::MAX
}

/// A table can be named if and only if all of its entries have an address.
pub proof fn law_addressable(data: ExceptionView)
    ensures
        data.is_addressable() <==> have_addresses(data),
{
    let n = data.exception_table.len();
    if n > 0 {
        assert(entry_address(data, n - 1) == data.slot(n - 1));
        if data.is_addressable() {
            assert forall|i: int| 0 <= i < n implies #[trigger] entry_address(data, i)
                <= u32::MAX by {
                assert(entry_address(data, i) <= entry_address(data, n - 1));
            }
        }
    }
}

/// Whether the entry at place `i` has an exception record at `address`: its function has
/// an even length, and its third word is that address.
pub open spec fn has_record_at(data: ExceptionView, i: int, address: int) -> bool {
    data.exception_table[i].function_length % 2 == 0 && data.exception_table[i].exception_record
        == address
}

/// Whether a name begins with an at sign, the letter E, the letter `c`, and an at sign.
pub open spec fn begins(name: Seq<char>, c: char) -> bool {
    name.len() >= 4 && name[0] == '@' && name[1] == 'E' && name[2] == c && name[3] == '@'
}

/// Whether a name is made of a beginning as above and the address of a function as eight
/// hexadecimal digits.
pub open spec fn is_name_of(name: Seq<char>, c: char, function_address: u32) -> bool {
    &&& name.len() == 12
    &&& begins(name, c)
    &&& are_digits(name.skip(4), 16)
    &&& reading(name.skip(4), 16) == function_address
}

/// Whether `symbol` is the only one at `address`, and its name begins right.
pub open spec fn is_named_so(
    symbols: Seq<SymbolView>,
    address: int,
    c: char,
    symbol: SymbolView,
) -> bool {
    is_one(symbols, any_at(address as nat), symbol) && begins(symbol.name, c)
}

/// Whether `symbol` is the only one at `address` after a naming, and the right one: the
/// only one there before, if its name began right, and else a new one, which is data of
/// the given kind, and is named after the function.
pub open spec fn is_right_symbol(
    before: Seq<SymbolView>,
    after: Seq<SymbolView>,
    address: int,
    c: char,
    function_address: u32,
    data: SymData,
    symbol: SymbolView,
) -> bool {
    &&& is_one(after, any_at(address as nat), symbol)
    &&& symbol.addr == address
    &&& is_named_so(before, address, c, symbol) || {
        &&& forall|t: SymbolView| !#[trigger] is_named_so(before, address, c, t)
        &&& symbol.kind == SymbolKind::Data(data)
        &&& is_name_of(symbol.name, c, function_address)
    }
}

/// Whether the symbols after a naming are right at `address`.
pub open spec fn is_right_at(
    before: Seq<SymbolView>,
    after: Seq<SymbolView>,
    address: int,
    c: char,
    function_address: u32,
    data: SymData,
) -> bool {
    exists|symbol: SymbolView| #[trigger]
        is_right_symbol(before, after, address, c, function_address, data, symbol)
}

proof fn lemma_prefix(prefix: Seq<char>, c: char, name: Seq<char>)
    requires
        prefix == "@EX@"@ && c == 'X' || prefix == "@ET@"@ && c == 'T',
    ensures
        prefix.is_prefix_of(name) <==> begins(name, c),
        prefix.len() == 4,
        begins(prefix, c),
{
    reveal_strlit("@EX@");
    reveal_strlit("@ET@");
    if begins(name, c) {
        assert(prefix =~= name.subrange(0, 4));
    }
    if prefix.is_prefix_of(name) {
        assert(name.subrange(0, 4)[0] == prefix[0] && name.subrange(0, 4)[1] == prefix[1]
            && name.subrange(0, 4)[2] == prefix[2] && name.subrange(0, 4)[3] == prefix[3]);
    }
}

proof fn lemma_right_at(
    before: Seq<SymbolView>,
    after: Seq<SymbolView>,
    renaming: Renaming,
    c: char,
    function_address: u32,
    data: SymData,
)
    requires
        renaming.prefix == "@EX@"@ && c == 'X' || renaming.prefix == "@ET@"@ && c == 'T',
        renaming.named.name == renaming.prefix + crate::text::hex_padded(
            function_address as nat,
            8,
        ),
        renaming.named.kind == SymbolKind::Data(data),
        sole(after, renaming.named.addr, Wanted::Any) == Found::One(
            renamed_symbol(before, renaming),
        ),
    ensures
        is_right_at(before, after, renaming.named.addr as int, c, function_address, data),
{
    let address = renaming.named.addr;
    let s = renamed_symbol(before, renaming);
    law_searches_find_the_only_one(before, address);
    law_searches_find_the_only_one(after, address);
    assert(is_one(after, any_at(address as nat), s));
    let k = choose|k: int| #[trigger]
        crate::symbol_laws::is_only(after, any_at(address as nat), k) && after[k] == s;
    assert(s.addr == address);
    let p = any_at((address as int) as nat);
    assert(p == any_at(address as nat));
    assert(is_one(after, p, s));
    if is_named(before, address, renaming.prefix) {
        lemma_prefix(renaming.prefix, c, s.name);
        assert(is_named_so(before, address as int, c, s));
    } else {
        assert forall|t: SymbolView| !#[trigger] is_named_so(before, address as int, c, t) by {
            lemma_prefix(renaming.prefix, c, t.name);
        }
        law_address_reads_back(function_address);
        lemma_prefix(renaming.prefix, c, s.name);
        assert(s.name.skip(4) =~= crate::text::hex_padded(function_address as nat, 8));
        assert(renaming.prefix =~= s.name.subrange(0, 4));
        assert(is_name_of(s.name, c, function_address));
    }
    assert(is_right_symbol(before, after, address as int, c, function_address, data, s));
}

/// After a table was named, each entry that is not an exception record as well has
/// exactly one symbol, at its own address: three words, named after its function, unless
/// what was there was already named as an entry.
pub proof fn law_each_entry_gets_its_name(symbols: Seq<SymbolView>, data: ExceptionView, i: int)
    requires
        have_addresses(data),
        name_table(symbols, data).ambiguous is None,
        0 <= i < data.exception_table.len(),
        forall|j: int|
            0 <= j < data.exception_table.len() ==> !#[trigger] has_record_at(
                data,
                j,
                entry_address(data, i),
            ),
    ensures
        is_right_at(
            symbols,
            name_table(symbols, data).symbols,
            entry_address(data, i),
            'X',
            data.exception_table[i].function_address,
            SymData::Word { count: Some(3) },
        ),
{
    law_addressable(data);
    assert(entry_address(data, i) == data.slot(i));
    assert forall|j: int| 0 <= j < data.exception_table.len() implies !#[trigger] points_at(
        data,
        j,
        data.slot(i) as u32,
    ) by {
        assert(!has_record_at(data, j, entry_address(data, i)));
    }
    law_entries_are_named(symbols, data, i);
    lemma_right_at(
        symbols,
        name_table(symbols, data).symbols,
        entry_renaming(data, i),
        'X',
        data.exception_table[i].function_address,
        SymData::Word { count: Some(3) },
    );
}

/// After a table was named, each third word of an entry whose function has an even
/// length, whatever else its length is, is the address of exactly one symbol: data,
/// named after the function of the first such entry, unless what was there was already
/// named as an exception record. This is so unless there is an entry at that address.
pub proof fn law_each_record_gets_its_name(symbols: Seq<SymbolView>, data: ExceptionView, i: int)
    requires
        have_addresses(data),
        name_table(symbols, data).ambiguous is None,
        0 <= i < data.exception_table.len(),
        data.exception_table[i].function_length % 2 == 0,
        forall|j: int|
            0 <= j < data.exception_table.len() ==> #[trigger] entry_address(data, j)
                != data.exception_table[i].exception_record,
        forall|j: int|
            0 <= j < i ==> !#[trigger] has_record_at(
                data,
                j,
                data.exception_table[i].exception_record as int,
            ),
    ensures
        is_right_at(
            symbols,
            name_table(symbols, data).symbols,
            data.exception_table[i].exception_record as int,
            'T',
            data.exception_table[i].function_address,
            SymData::Any,
        ),
{
    law_addressable(data);
    let record = data.exception_table[i].exception_record;
    assert forall|j: int| 0 <= j < data.exception_table.len() implies #[trigger] data.slot(j)
        != record by {
        assert(entry_address(data, j) != record);
    }
    assert forall|j: int| 0 <= j < i implies !#[trigger] points_at(data, j, record) by {
        assert(!has_record_at(data, j, record as int));
    }
    law_records_are_named(symbols, data, i);
    lemma_right_at(
        symbols,
        name_table(symbols, data).symbols,
        record_renaming(data, i),
        'T',
        data.exception_table[i].function_address,
        SymData::Any,
    );
}

/// Whether `address` is that of the entry at place `i` or of its exception record.
pub open spec fn concerns(data: ExceptionView, i: int, address: int) -> bool {
    entry_address(data, i) == address || has_record_at(data, i, address)
}

/// Whether `address` is that of an entry or of an exception record.
pub open spec fn belongs_to(data: ExceptionView, address: int) -> bool {
    exists|i: int| 0 <= i < data.exception_table.len() && #[trigger] concerns(data, i, address)
}

proof fn lemma_belongs(data: ExceptionView, address: u32)
    ensures
        belongs_to(data, address as int) <==> is_touched(data, address),
{
    if belongs_to(data, address as int) {
        let i = choose|i: int|
            0 <= i < data.exception_table.len() && #[trigger] concerns(data, i, address as int);
        assert(entry_address(data, i) == data.slot(i));
        assert(touches(data, i, address));
    }
    if is_touched(data, address) {
        let i = choose|i: int|
            0 <= i < data.exception_table.len() && #[trigger] touches(data, i, address);
        assert(entry_address(data, i) == data.slot(i));
        assert(concerns(data, i, address as int));
    }
}

proof fn lemma_any(symbols: Seq<SymbolView>, address: u32)
    ensures
        matches_at(symbols, address, Wanted::Any) == symbols.filter(any_at(address as nat)),
{
    let q = |s: SymbolView| crate::symbols::is_match(s, address, Wanted::Any);
    assert(q =~= any_at(address as nat));
}

/// The symbols at all other addresses than those of entries and of exception records
/// stay as they were.
pub proof fn law_symbols_elsewhere_are_kept(
    symbols: Seq<SymbolView>,
    data: ExceptionView,
    address: u32,
)
    requires
        have_addresses(data),
        !belongs_to(data, address as int),
    ensures
        name_table(symbols, data).symbols.filter(any_at(address as nat)) == symbols.filter(
            any_at(address as nat),
        ),
{
    law_addressable(data);
    lemma_belongs(data, address);
    law_other_symbols_are_kept(symbols, data, address);
    lemma_any(symbols, address);
    lemma_any(name_table(symbols, data).symbols, address);
}

/// A table can be named to its end exactly where no entry and no exception record has
/// several symbols at its address, and if it cannot be, such an address is the reason.
pub proof fn law_only_ambiguity_stops_a_naming(
    symbols: Seq<SymbolView>,
    data: ExceptionView,
    address: u32,
)
    requires
        have_addresses(data),
    ensures
        name_table(symbols, data).ambiguous is None && belongs_to(data, address as int)
            ==> !are_several(symbols, any_at(address as nat)),
        name_table(symbols, data).ambiguous == Some(address) ==> belongs_to(data, address as int)
            && are_several(symbols, any_at(address as nat)),
{
    law_addressable(data);
    lemma_belongs(data, address);
    law_naming_fails_on_ambiguity_only(symbols, data);
    law_searches_find_the_only_one(symbols, address);
    let found = matches_at(symbols, address, Wanted::Any);
    if name_table(symbols, data).ambiguous is None && belongs_to(data, address as int) {
        assert(found.len() <= 1);
    }
}

/// A table is named entry by entry: with one more entry, it is named as far as before,
/// and then, if that worked, the last entry is named as a table of its own, at its
/// place.
pub proof fn law_tables_are_named_entry_by_entry(
    symbols: Seq<SymbolView>,
    data: ExceptionView,
    entry: ExceptionTableEntry,
)
    requires
        have_addresses(
            (ExceptionView { exception_table: data.exception_table.push(entry), ..data }),
        ),
    ensures
        ({
            let longer = ExceptionView {
                exception_table: data.exception_table.push(entry),
                ..data
            };
            let last = ExceptionView {
                exceptix_start: entry_address(data, data.exception_table.len() as int) as u32,
                exception_table: seq![entry],
                ..data
            };
            let first = name_table(symbols, data);
            name_table(symbols, longer) == if first.ambiguous is None {
                name_table(first.symbols, last)
            } else {
                first
            }
        }),
{
    let n = data.exception_table.len();
    let longer = ExceptionView { exception_table: data.exception_table.push(entry), ..data };
    let last = ExceptionView {
        exceptix_start: entry_address(data, n as int) as u32,
        exception_table: seq![entry],
        ..data
    };
    lemma_same_entries(symbols, data, longer, n);
    assert(entry_address(longer, n as int) <= u32::MAX);
    assert(longer.exception_table[n as int] == entry);
    let first = name_table(symbols, data);
    assert(name_entries(first.symbols, last, 0).symbols == first.symbols);
    assert(last.slot(0) as u32 == longer.slot(n as int) as u32);
    assert(name_entries(first.symbols, last, 1) == name_entry(
        first.symbols,
        last.slot(0) as u32,
        entry,
    ));
}

proof fn lemma_same_entries(
    symbols: Seq<SymbolView>,
    data: ExceptionView,
    longer: ExceptionView,
    n: nat,
)
    requires
        n <= data.exception_table.len() <= longer.exception_table.len(),
        data.exceptix_start == longer.exceptix_start,
        forall|i: int|
            0 <= i < data.exception_table.len() ==> data.exception_table[i]
                == longer.exception_table[i],
    ensures
        name_entries(symbols, data, n) == name_entries(symbols, longer, n),
    decreases n,
{
    if n > 0 {
        lemma_same_entries(symbols, data, longer, (n - 1) as nat);
        assert(data.exception_table[n - 1] == longer.exception_table[n - 1]);
    }
}

/// Two entries whose functions have lengths that are both even or both odd are treated
/// alike, whatever the lengths are.
pub proof fn law_only_the_lowest_bit_of_a_length_matters(
    symbols: Seq<SymbolView>,
    address: u32,
    one: ExceptionTableEntry,
    other: ExceptionTableEntry,
)
    requires
        one.function_address == other.function_address,
        one.exception_record == other.exception_record,
        one.function_length % 2 == other.function_length % 2,
    ensures
        name_entry(symbols, address, one) == name_entry(symbols, address, other),
        record_count(seq![one]) == record_count(seq![other]),
{
    lemma_even_lengths(seq![one]);
    lemma_even_lengths(seq![other]);
    reveal(Seq::filter);
    assert(seq![one].drop_last() =~= seq![]);
    assert(seq![other].drop_last() =~= seq![]);
    assert(even_lengths(seq![]) == 0);
}

/// What is said of an error that ends a run, in full.
pub proof fn law_errors_are_told(function: Seq<char>, reason: Seq<char>, address: u32, id: u16)
    ensures
        error_message(ErrorView::Analysis(reason), function) == reason,
        error_message(ErrorView::InNoModule, function) == function
            + " found but it did not belong to ARM9 main or custom autoloads?"@,
        error_message(ErrorView::ModuleNotFound(ModuleKind::Arm9), function)
            == "Module not found: "@ + "ARM9 main"@,
        exists|digits: Seq<char>| #[trigger]
            are_digits(digits, 16) && digits.len() == 8 && reading(digits, 16) == address
                && error_message(ErrorView::Ambiguous(address), function)
                == "Multiple symbols at 0x"@ + digits,
        exists|digits: Seq<char>| #[trigger]
            are_digits(digits, 10) && reading(digits, 10) == id && error_message(
                ErrorView::ModuleNotFound(ModuleKind::Overlay(id)),
                function,
            ) == "Module not found: "@ + ("overlay "@ + digits),
{
    law_address_reads_back(address);
    law_decimal_reads_back(id as nat);
    let digits = crate::text::hex_padded(address as nat, 8);
    assert(are_digits(digits, 16));
    let number = crate::text::decimal(id as nat);
    assert(are_digits(number, 10));
}

/// The symbols at all other addresses than `address`, in their order.
pub open spec fn elsewhere(symbols: Seq<SymbolView>, address: u32) -> Seq<SymbolView> {
    symbols.filter(|s: SymbolView| s.addr != address)
}

proof fn lemma_elsewhere(symbols: Seq<SymbolView>, address: u32, named: SymbolView)
    requires
        named.addr == address,
    ensures
        elsewhere(elsewhere(symbols, address), address) == elsewhere(symbols, address),
        elsewhere(symbols.push(named), address) == elsewhere(symbols, address),
    decreases symbols.len(),
{
    reveal(Seq::filter);
    assert(symbols.push(named).drop_last() =~= symbols);
    if symbols.len() > 0 {
        let front = symbols.drop_last();
        lemma_elsewhere(front, address, named);
        if symbols.last().addr != address {
            let rest = elsewhere(front, address);
            assert(elsewhere(symbols, address) =~= rest.push(symbols.last()));
            assert(rest.push(symbols.last()).drop_last() =~= rest);
        }
    }
}

/// Whether `after` is what becomes of the symbols `before` when `address` is named: they
/// are right there, and as they were elsewhere, in the same order.
pub open spec fn is_naming_of(
    before: Seq<SymbolView>,
    after: Seq<SymbolView>,
    address: u32,
    c: char,
    function_address: u32,
    data: SymData,
) -> bool {
    &&& is_right_at(before, after, address as int, c, function_address, data)
    &&& elsewhere(after, address) == elsewhere(before, address)
    &&& forall|other: u32|
        other != address ==> #[trigger] after.filter(any_at(other as nat)) == before.filter(
            any_at(other as nat),
        )
}

proof fn lemma_naming(
    symbols: Seq<SymbolView>,
    address: u32,
    prefix: Seq<char>,
    c: char,
    function_address: u32,
    data: SymData,
)
    requires
        prefix == "@EX@"@ && c == 'X' || prefix == "@ET@"@ && c == 'T',
    ensures
        ({
            let after = name_address(symbols, address, prefix, function_address, data);
            if are_several(symbols, any_at(address as nat)) {
                after.symbols == symbols && after.ambiguous == Some(address)
            } else {
                after.ambiguous is None && is_naming_of(
                    symbols,
                    after.symbols,
                    address,
                    c,
                    function_address,
                    data,
                )
            }
        }),
{
    let after = name_address(symbols, address, prefix, function_address, data);
    let named = SymbolView {
        name: exception_name(prefix, function_address),
        kind: SymbolKind::Data(data),
        addr: address,
    };
    law_searches_find_the_only_one(symbols, address);
    lemma_address_is_named(symbols, address, prefix, function_address, data);
    if !are_several(symbols, any_at(address as nat)) {
        lemma_elsewhere(symbols, address, named);
        lemma_elsewhere(elsewhere(symbols, address), address, named);
        assert(crate::symbols::without(symbols, address) == elsewhere(symbols, address));
        assert(elsewhere(after.symbols, address) == elsewhere(symbols, address));
        lemma_right_at(
            symbols,
            after.symbols,
            Renaming { prefix, named },
            c,
            function_address,
            data,
        );
        assert forall|other: u32| other != address implies #[trigger] after.symbols.filter(
            any_at(other as nat),
        ) == symbols.filter(any_at(other as nat)) by {
            lemma_any(symbols, other);
            lemma_any(after.symbols, other);
            assert(matches_at(after.symbols, other, Wanted::Any) == matches_at(
                symbols,
                other,
                Wanted::Any,
            ));
        }
    }
}

/// A table of one entry is named in two turns. First the address of the entry is named,
/// as three words. Then, if the function has an even length, so is the third word of the
/// entry, even where that is the address of the entry itself. Several symbols at an
/// address end the naming right there.
pub proof fn law_an_entry_is_named_before_its_record(symbols: Seq<SymbolView>, data: ExceptionView)
    -> (middle: Seq<SymbolView>)
    requires
        data.exception_table.len() == 1,
    ensures
        ({
            let entry = data.exception_table[0];
            let start = data.exceptix_start;
            let record = entry.exception_record;
            let after = name_table(symbols, data);
            if are_several(symbols, any_at(start as nat)) {
                after == (Naming { symbols, ambiguous: Some(start) })
            } else {
                &&& is_naming_of(
                    symbols,
                    middle,
                    start,
                    'X',
                    entry.function_address,
                    SymData::Word { count: Some(3) },
                )
                &&& entry.function_length % 2 == 1 ==> after == (Naming {
                    symbols: middle,
                    ambiguous: None,
                })
                &&& entry.function_length % 2 == 0 ==> if are_several(
                    middle,
                    any_at(record as nat),
                ) {
                    after == (Naming { symbols: middle, ambiguous: Some(record) })
                } else {
                    after.ambiguous is None && is_naming_of(
                        middle,
                        after.symbols,
                        record,
                        'T',
                        entry.function_address,
                        SymData::Any,
                    )
                }
            }
        }),
{
    let entry = data.exception_table[0];
    let start = data.exceptix_start;
    let word = SymData::Word { count: Some(3) };
    let middle = name_address(symbols, start, "@EX@"@, entry.function_address, word).symbols;
    assert(data.slot(0) as u32 == start);
    assert(name_entries(symbols, data, 0).symbols == symbols);
    assert(name_entries(symbols, data, 1) == name_entry(symbols, start, entry));
    lemma_naming(symbols, start, "@EX@"@, 'X', entry.function_address, word);
    lemma_naming(
        middle,
        entry.exception_record,
        "@ET@"@,
        'T',
        entry.function_address,
        SymData::Any,
    );
    middle
}

/// What is said of a module that is missing: which one it is, an autoload by its purpose
/// or, if that is unknown, by its number.
pub proof fn law_modules_have_names(kind: ModuleKind)
    ensures
        match kind {
            ModuleKind::Arm9 => kind.spec_name() == "ARM9 main"@,
            ModuleKind::Overlay(id) => exists|digits: Seq<char>| #[trigger]
                are_digits(digits, 10) && reading(digits, 10) == id && kind.spec_name()
                    == "overlay "@ + digits,
            ModuleKind::Autoload(AutoloadKind::Itcm) => kind.spec_name() == "autoload ITCM"@,
            ModuleKind::Autoload(AutoloadKind::Dtcm) => kind.spec_name() == "autoload DTCM"@,
            ModuleKind::Autoload(AutoloadKind::Unknown(n)) => exists|digits: Seq<char>| #[trigger]
                are_digits(digits, 10) && reading(digits, 10) == n && kind.spec_name()
                    == "autoload Unknown("@ + digits + ")"@,
        },
{
    match kind {
        ModuleKind::Overlay(id) => {
            law_decimal_reads_back(id as nat);
            assert(are_digits(crate::text::decimal(id as nat), 10));
        },
        ModuleKind::Autoload(AutoloadKind::Unknown(n)) => {
            law_decimal_reads_back(n as nat);
            assert(are_digits(crate::text::decimal(n as nat), 10));
        },
        _ => {},
    }
}

/// Each error of a run is told in words of its own.
pub proof fn law_each_error_is_told(error: RunError, function: Seq<char>)
    ensures
        match error {
            RunError::ModuleNotFound(module) => error_message(error@, function)
                == "Module not found: "@ + module.spec_name(),
            RunError::Analysis(reason) => error_message(error@, function) == reason@,
            RunError::InNoModule => error_message(error@, function) == function
                + " found but it did not belong to ARM9 main or custom autoloads?"@,
            RunError::Symbols(SymbolMapError::MultipleSymbols { address }) => error_message(
                error@,
                function,
            ) == "Multiple symbols at 0x"@ + crate::text::hex_padded(address as nat, 8),
        },
{
}

/// The value of what is known of an exception table has all of it.
pub proof fn law_exception_data_is_its_value(data: ExceptionData)
    ensures
        data@.find_exception_table_fn_addr == data.find_exception_table_fn_addr,
        data@.find_exception_table_fn == data.find_exception_table_fn@,
        data@.exceptix_start == data.exceptix_start,
        data@.exception_table == data.exception_table@,
{
}

/// The value of a state says all that the state says.
pub proof fn law_states_are_their_values(state: RunState)
    ensures
        match state {
            RunState::Start => state@ is Start,
            RunState::Analyzing { autoloads } => state@ == (StateView::Analyzing {
                autoloads: autoloads@,
            }),
            RunState::Searching { modules, next, exception_data } => state@ == (
            StateView::Searching {
                modules: modules@,
                next: next as nat,
                exception_data: exception_data@,
            }),
            RunState::Writing { symbols } => state@ == (StateView::Writing { symbols }),
            RunState::Stopped => state@ is Stopped,
        },
{
}

/// The value of an event says all that the event says.
pub proof fn law_events_are_their_values(event: RunEvent)
    ensures
        match event {
            RunEvent::Loaded { autoloads } => event@ == (EventView::Loaded {
                autoloads: autoloads@,
            }),
            RunEvent::Analyzed { exception_data: Some(data) } => event@ == (EventView::Analyzed {
                exception_data: Some(data@),
            }),
            RunEvent::Analyzed { exception_data: None } => event@ == (EventView::Analyzed {
                exception_data: None,
            }),
            RunEvent::ModuleAnalyzed { analysis: ModuleAnalysis::NoModule } => {
                event@ is ModuleMissing
            },
            RunEvent::ModuleAnalyzed { analysis: ModuleAnalysis::Failed(reason) } => event@ == (
            EventView::ModuleFailed { reason: reason@ }),
            RunEvent::ModuleAnalyzed { analysis: ModuleAnalysis::Done { found } } => event@ == (
            EventView::ModuleAnalyzed { found }),
            RunEvent::FilesWritten => event@ is FilesWritten,
        },
{
}

/// The value of a request says all that the request says.
pub proof fn law_requests_are_their_values(action: RunAction)
    ensures
        match action {
            RunAction::Analyze { autoloads } => action@ == (ActionView::Analyze {
                autoloads: autoloads@,
            }),
            RunAction::FixModule { module, address, code } => action@ == (ActionView::FixModule {
                module,
                address,
                code: code@,
            }),
            RunAction::WriteFiles { symbols } => action@ == (ActionView::WriteFiles { symbols }),
            RunAction::Stop { result: Ok(RunOutcome::NothingFound) } => action@ is Nothing,
            RunAction::Stop { result: Ok(RunOutcome::DryRun(symbols)) } => action@ == (
            ActionView::DryRun { symbols }),
            RunAction::Stop { result: Ok(RunOutcome::Finished(symbols)) } => action@ == (
            ActionView::Finish { symbols }),
            RunAction::Stop { result: Err(RunError::ModuleNotFound(module)) } => action@ == (
            ActionView::Fail { error: ErrorView::ModuleNotFound(module) }),
            RunAction::Stop { result: Err(RunError::Analysis(reason)) } => action@ == (
            ActionView::Fail { error: ErrorView::Analysis(reason@) }),
            RunAction::Stop { result: Err(RunError::InNoModule) } => action@ == (
            ActionView::Fail { error: ErrorView::InNoModule }),
            RunAction::Stop {
                result: Err(RunError::Symbols(SymbolMapError::MultipleSymbols { address })),
            } => action@ == (ActionView::Fail { error: ErrorView::Ambiguous(address) }),
        },
{
}

/// Which events a run waits for: at the start that the program was loaded, then that it
/// was analyzed, then for each module how its search went, and at the end that the files
/// were written. A run that has stopped waits for nothing.
pub proof fn law_events_are_awaited(state: StateView, event: EventView)
    ensures
        state is Start ==> (is_awaited(state, event) <==> event is Loaded),
        state is Analyzing ==> (is_awaited(state, event) <==> event is Analyzed),
        state matches StateView::Searching { modules, next, exception_data } ==> (is_awaited(
            state,
            event,
        ) <==> next < modules.len() && match event {
            EventView::ModuleMissing => true,
            EventView::ModuleFailed { .. } => true,
            EventView::ModuleAnalyzed { found } => !found || have_addresses(exception_data),
            _ => false,
        }),
        state is Writing ==> (is_awaited(state, event) <==> event is FilesWritten),
        state is Stopped ==> !is_awaited(state, event),
{
    if let StateView::Searching { exception_data, .. } = state {
        law_addressable(exception_data);
    }
}

/// The symbols of a module are those of the first map that is for it.
pub proof fn law_modules_have_their_symbols(maps: SymbolMaps, module: ModuleKind, i: int)
    requires
        0 <= i < maps.maps@.len(),
        maps.maps@[i].module == module,
        forall|j: int| 0 <= j < i ==> (#[trigger] maps.maps@[j]).module != module,
    ensures
        maps.symbols_of(module) == maps.maps@[i].symbols@,
        is_first(maps.maps@, module, i),
{
    crate::symbol_laws::law_first_map_counts(maps.maps@, module, i);
}

/// There is only one first map for a module, and it is for that module.
pub proof fn law_one_map_is_first(maps: SymbolMaps, module: ModuleKind, i: int, j: int)
    requires
        is_first(maps.maps@, module, i),
        0 <= j <= i,
        maps.maps@[j].module == module,
    ensures
        j == i,
        i < maps.maps@.len(),
        maps.symbols_of(module) == maps.maps@[j].symbols@,
{
    crate::symbol_laws::law_first_map_counts(maps.maps@, module, i);
}

} // verus!
