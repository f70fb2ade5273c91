//! When a function has a listing, and why a listing ends early.

use vstd::prelude::*;

use crate::coverage_laws::extent;
use crate::decoder::{fetch, Fetched, ParseMode};
use crate::functions::assembly_of;
use crate::item_laws::{
    are_labels_before, are_lines_of, as_signed, bytes_of, destination_of, is_constant, is_data_of,
    is_entry, is_in_module, is_label_of, is_word, lemma_destination, lemma_fetch, lemma_find,
    lemma_one_holds, lemma_word, lines_of, number_at, read_code, read_size, reference_of,
    symbols_of,
};
use crate::listing::{
    byte_entry_lines, code_lines, constant_line, content_lines, data_word_line, entry_line,
    first_cursor, inline_table_lines, instruction_line, items_of, label_lines, lemma_step_advances,
    lines_from, listing, pool_lines, step, ActiveTable, Cursor, EntrySize, Item, Problem,
    Progress, Source,
};
use crate::symbol_laws::{
    are_several, constant_at, data_at, is_none, is_one, is_only, label_at, table_at,
};
use crate::symbols::{
    Found, JumpTableKind, Reply, SymbolKind, SymbolView, ThumbJumpTableJump, ThumbJumpTableKind,
    Wanted,
};

verus! {

/// Whether a symbol fits into the function, if it is in it: a piece of data has at least
/// four bytes, all of them in the function, and a jump table ends where addresses do, at
/// the latest.
pub open spec fn is_fitting(source: Source, symbol: SymbolView) -> bool {
    source.function.start_address <= symbol.addr < source.function.end_address
        ==> match symbol.kind {
        SymbolKind::Data(data) => bytes_of(data) matches Some(n) ==> 4 <= n && symbol.addr + n
            <= source.function.end_address,
        SymbolKind::JumpTable(table) => symbol.addr + table.size <= u32::MAX,
        _ => true,
    }
}

/// Whether the function is in the module, in front of the middle of the address space,
/// and all that is known of it fits into it: the constants that it loads, the words that
/// relocations say are data, and the symbols.
pub open spec fn is_listable(source: Source) -> bool {
    let start = source.function.start_address;
    let end = source.function.end_address;
    &&& source.base <= start <= end < 0x7f80_0000
    &&& end - source.base <= source.code.len()
    &&& forall|p: u32| #[trigger]
        source.function.pool_constants@.contains(p) ==> start <= p && p + 4 <= end
    &&& forall|r: u32| #[trigger]
        source.symbols.data_relocations@.contains(r) && start <= r < end ==> r + 4 <= end
    &&& forall|i: int|
        0 <= i < symbols_of(source).len() ==> is_fitting(source, #[trigger] symbols_of(source)[i])
}

spec fn is_fitting_table(source: Source, table: Option<ActiveTable>) -> bool {
    table matches Some(t) ==> t.symbol.addr < source.function.end_address && t.symbol.addr
        + t.table.size <= u32::MAX
}

proof fn lemma_one_fits(source: Source, p: spec_fn(SymbolView) -> bool, s: SymbolView)
    requires
        is_listable(source),
        is_one(symbols_of(source), p, s),
    ensures
        is_fitting(source, s),
        p(s),
{
    let symbols = symbols_of(source);
    let i = choose|i: int| #[trigger] is_only(symbols, p, i) && symbols[i] == s;
    assert(p(symbols[i]));
}

proof fn lemma_pool_exists(source: Source, address: nat)
    requires
        is_listable(source),
        address <= source.function.end_address,
    ensures
        !(pool_lines(source, address) is Stuck),
        pool_lines(source, address) matches Progress::Go { value, .. } ==> value
            <= source.function.end_address,
    decreases source.function.end_address - address,
{
    if source.is_pool_constant(address) {
        lemma_pool_exists(source, address + 4);
    }
}

proof fn lemma_code_exists(
    source: Source,
    mode: ParseMode,
    address: nat,
    table: Option<ActiveTable>,
)
    requires
        is_listable(source),
        source.function.start_address <= address < source.function.end_address,
        fetch(mode, address, source.rest(address)) is Some,
        is_fitting_table(source, table),
    ensures
        ({
            let fetched = fetch(mode, address, source.rest(address))->0;
            let lines = code_lines(source, mode, address, fetched, table);
            &&& !(lines is Stuck)
            &&& lines matches Progress::Go { value, .. } ==> address + value.size
                <= source.function.end_address && is_fitting_table(source, value.table)
        }),
{
    let fetched = fetch(mode, address, source.rest(address))->0;
    lemma_fetch(source, mode, address);
    if let Some(t) = table {
        if let JumpTableKind::Thumb { kind, jump } = t.table.kind {
            assert(-0x8000 <= crate::decoder::signed(fetched.code % 0x10000, 0x8000) < 0x8000);
            assert(-0x80 <= crate::decoder::signed(fetched.code % 0x100, 0x80) < 0x80);
            assert(-0x80 <= crate::decoder::signed((fetched.code / 0x100) % 0x100, 0x80) < 0x80);
        }
    }
}

proof fn lemma_content_exists(
    source: Source,
    mode: ParseMode,
    address: nat,
    table: Option<ActiveTable>,
)
    requires
        is_listable(source),
        source.function.start_address <= address < source.function.end_address,
        fetch(mode, address, source.rest(address)) is Some,
        is_fitting_table(source, table),
    ensures
        ({
            let fetched = fetch(mode, address, source.rest(address))->0;
            let lines = content_lines(source, mode, address, fetched, table);
            &&& !(lines is Stuck)
            &&& lines matches Progress::Go { value, .. } ==> address + value.size
                <= source.function.end_address && is_fitting_table(source, value.table)
        }),
{
    let fetched = fetch(mode, address, source.rest(address))->0;
    lemma_fetch(source, mode, address);
    lemma_find(source, address);
    lemma_code_exists(source, mode, address, table);
    if let Found::One(symbol) = source.find(address, Wanted::Data) {
        assert(is_one(symbols_of(source), data_at(address), symbol));
        lemma_one_fits(source, data_at(address), symbol);
    }
}

proof fn lemma_labels_exist(source: Source, address: nat, table: Option<ActiveTable>)
    requires
        is_listable(source),
        source.function.start_address <= address < source.function.end_address,
        is_fitting_table(source, table),
    ensures
        !(label_lines(source, address, table) is Stuck),
        label_lines(source, address, table) matches Progress::Go { value, .. } ==> is_fitting_table(
            source,
            value,
        ),
{
    lemma_find(source, address);
    if let Found::One(symbol) = source.find(address, Wanted::JumpTable) {
        assert(is_one(symbols_of(source), table_at(address), symbol));
        lemma_one_fits(source, table_at(address), symbol);
    }
}

proof fn lemma_lines_exist(source: Source, cursor: Cursor)
    requires
        is_listable(source),
        source.function.start_address <= cursor.address <= source.function.end_address,
        is_fitting_table(source, cursor.table),
    ensures
        !(lines_from(source, cursor) is Stuck),
    decreases source.function.end_address - cursor.address,
{
    if let Some(fetched) = fetch(cursor.mode, cursor.address, source.rest(cursor.address)) {
        lemma_step_advances(source, cursor);
        lemma_fetch(source, cursor.mode, cursor.address);
        reveal(step);
        lemma_labels_exist(source, cursor.address, cursor.table);
        if let Progress::Go { value: table, .. } = label_lines(
            source,
            cursor.address,
            cursor.table,
        ) {
            lemma_content_exists(source, cursor.mode, cursor.address, table);
            if let Progress::Go { value: passed, .. } = content_lines(
                source,
                cursor.mode,
                cursor.address,
                fetched,
                table,
            ) {
                lemma_pool_exists(source, cursor.address + passed.size);
            }
        }
        if let Progress::Go { value: next, .. } = step(source, cursor, fetched) {
            lemma_lines_exist(source, next);
        }
    }
}

/// A function in the lower half of the address space has a listing, complete or up to a
/// problem, if it is in the module and what is known of it fits into it.
pub proof fn law_listable_functions_are_listed(source: Source)
    requires
        is_listable(source),
    ensures
        assembly_of(source) is Some,
{
    lemma_lines_exist(source, first_cursor(source));
}

/// Whether the word at `address` could not be written.
pub open spec fn is_unwritable_word(source: Source, address: nat, reason: Seq<char>) -> bool {
    &&& is_in_module(source, address, 4)
    &&& source.symbols.word_reply(address as u32, number_at(source, address) as u32)
        == Reply::Failure(reason)
}

/// Whether the comment on what an instruction of `size` bytes at `address` refers to could
/// not be written.
pub open spec fn is_unwritable_comment(
    source: Source,
    mode: ParseMode,
    address: nat,
    size: nat,
    reason: Seq<char>,
) -> bool {
    let data = source.code.subrange(address - source.base, address - source.base + size);
    &&& is_in_module(source, address, size)
    &&& source.symbols.comment_on(address as u32, reference_of(source, mode, address, data))
        == Reply::Failure(reason)
}

/// Whether the lines of the inline table `symbol` at `address` could not be written.
pub open spec fn is_unwritable_table(
    source: Source,
    symbol: SymbolView,
    address: nat,
    size: nat,
    reason: Seq<char>,
) -> bool {
    &&& is_in_module(source, address, size)
    &&& is_data_of(source, address, symbol, symbol.name, size)
    &&& lines_of(source, address, symbol, size) == Reply::Failure(reason)
}

/// Whether the piece of data `symbol` at `address` has no size.
pub open spec fn is_without_size(source: Source, symbol: SymbolView, address: nat) -> bool {
    &&& is_one(symbols_of(source), data_at(address), symbol)
    &&& symbol.kind matches SymbolKind::Data(data)
    &&& bytes_of(data) is None
}

/// Whether no label is at `destination`, which is where an entry at `address` of `table`
/// leads, in what was read at `start`.
pub open spec fn is_missing(
    source: Source,
    table: SymbolView,
    mode: ParseMode,
    start: nat,
    address: nat,
    destination: nat,
) -> bool {
    let code = read_code(source, mode, start);
    &&& is_none(symbols_of(source), label_at(destination))
    &&& is_one(symbols_of(source), table_at(table.addr as nat), table)
    &&& table.kind matches SymbolKind::JumpTable(jump_table)
    &&& start < table.addr + jump_table.size
    &&& jump_table.kind matches JumpTableKind::Thumb { kind, jump }
    &&& match kind {
        ThumbJumpTableKind::Halfword => address == start && destination == destination_of(
            table,
            as_signed(code % 0x10000, 16),
            jump,
        ),
        ThumbJumpTableKind::Byte => {
            ||| address == start && destination == destination_of(
                table,
                as_signed(code % 0x100, 8),
                jump,
            )
            ||| address == start + 1 && destination == destination_of(
                table,
                as_signed((code / 0x100) % 0x100, 8),
                jump,
            )
        },
    }
}

/// Whether a listing has to end early for `problem`: several symbols of one kind share an
/// address, something could not be written, a piece of data in the code has no size, a
/// constant that the function loads has no name, or no label is where an entry of a jump
/// table leads.
pub open spec fn is_reason(source: Source, problem: Problem) -> bool {
    match problem {
        Problem::MultipleSymbols { address } => {
            ||| are_several(symbols_of(source), label_at(address as nat))
            ||| are_several(symbols_of(source), table_at(address as nat))
            ||| are_several(symbols_of(source), constant_at(address as nat))
            ||| are_several(symbols_of(source), data_at(address as nat))
        },
        Problem::Lookup { reason } => {
            ||| exists|address: nat| #[trigger] is_unwritable_word(source, address, reason)
            ||| exists|mode: ParseMode, address: nat, size: nat| #[trigger]
                is_unwritable_comment(source, mode, address, size, reason)
            ||| exists|symbol: SymbolView, address: nat, size: nat| #[trigger]
                is_unwritable_table(source, symbol, address, size, reason)
        },
        Problem::InlineTableWithoutSize => exists|symbol: SymbolView, address: nat| #[trigger]
            is_without_size(source, symbol, address),
        Problem::PoolConstantWithoutSymbol { address, function } => {
            &&& source.function.pool_constants@.contains(address)
            &&& is_none(symbols_of(source), constant_at(address as nat))
            &&& function == source.function.name@
        },
        Problem::MissingLabel { address, destination } => exists|
            table: SymbolView,
            mode: ParseMode,
            start: nat,
        | #[trigger]
            is_missing(source, table, mode, start, address as nat, destination as nat),
    }
}

spec fn has_reason<T>(source: Source, progress: Progress<T>) -> bool {
    progress matches Progress::Fail { problem, .. } ==> is_reason(source, problem)
}

proof fn lemma_constant_reason(source: Source, address: nat, name: Seq<char>)
    ensures
        has_reason(source, constant_line(source, address, name)),
{
    if let Progress::Fail { problem: Problem::Lookup { reason }, .. } = constant_line(
        source,
        address,
        name,
    ) {
        assert(source.word(address) == number_at(source, address));
        assert(is_unwritable_word(source, address, reason));
    }
}

proof fn lemma_pool_reason(source: Source, address: nat)
    ensures
        has_reason(source, pool_lines(source, address)),
    decreases u32::MAX + 4 - address,
{
    if address <= u32::MAX {
        lemma_find(source, address);
        if source.is_pool_constant(address) && source.holds_word(address) {
            if let Found::One(symbol) = source.find(address, Wanted::PoolConstant) {
                lemma_constant_reason(source, address, symbol.name);
                lemma_pool_reason(source, address + 4);
            }
        }
    }
}

proof fn lemma_inline_table_reason(
    source: Source,
    symbol: SymbolView,
    address: nat,
    read_to: nat,
    table: Option<ActiveTable>,
)
    requires
        source.is_loaded(),
        source.function.start_address <= address <= source.function.end_address,
        is_one(symbols_of(source), data_at(address), symbol),
    ensures
        has_reason(source, inline_table_lines(source, symbol, address, read_to, table)),
{
    lemma_one_holds(symbols_of(source), data_at(address), symbol);
    let data = symbol.kind->Data_0;
    assert(data.spec_size() == bytes_of(data));
    if let Some(size) = data.spec_size() {
        if let Progress::Fail { problem: Problem::Lookup { reason }, .. } = inline_table_lines(
            source,
            symbol,
            address,
            read_to,
            table,
        ) {
            assert(source.rest(address).take(size as int) =~= source.code.subrange(
                address - source.base,
                address - source.base + size,
            ));
            assert(is_unwritable_table(source, symbol, address, size, reason));
        }
    } else {
        assert(is_without_size(source, symbol, address));
    }
}

proof fn lemma_instruction_reason(
    source: Source,
    mode: ParseMode,
    address: nat,
    table: Option<ActiveTable>,
)
    requires
        source.is_loaded(),
        source.function.start_address <= address <= source.function.end_address,
        fetch(mode, address, source.rest(address)) is Some,
    ensures
        has_reason(
            source,
            instruction_line(
                source,
                mode,
                address,
                fetch(mode, address, source.rest(address))->0.size,
                table,
            ),
        ),
{
    let size = fetch(mode, address, source.rest(address))->0.size;
    lemma_fetch(source, mode, address);
    if let Progress::Fail { problem: Problem::Lookup { reason }, .. } = instruction_line(
        source,
        mode,
        address,
        size,
        table,
    ) {
        assert(is_unwritable_comment(source, mode, address, size, reason));
    }
}

proof fn lemma_data_word_reason(source: Source, address: nat)
    ensures
        has_reason(source, data_word_line(source, address)),
{
    if let Progress::Fail { problem: Problem::Lookup { reason }, .. } = data_word_line(
        source,
        address,
    ) {
        assert(source.word(address) == number_at(source, address));
        assert(is_unwritable_word(source, address, reason));
    }
}

spec fn is_known_table(source: Source, table: Option<ActiveTable>) -> bool {
    table matches Some(t) ==> is_one(
        symbols_of(source),
        table_at(t.symbol.addr as nat),
        t.symbol,
    ) && t.symbol.kind == SymbolKind::JumpTable(t.table)
}

proof fn lemma_entry_reason(
    source: Source,
    symbol: SymbolView,
    size: EntrySize,
    value: int,
    address: nat,
    taken: nat,
    second: bool,
    jump: ThumbJumpTableJump,
)
    requires
        address <= u32::MAX,
    ensures
        ({
            let lines = entry_line(source, symbol, size, value, address, taken, second, jump);
            let destination = destination_of(symbol, value, jump);
            match lines {
                Progress::Fail { problem: Problem::MissingLabel { address: a, destination: d }, .. }
                => a == address && d == destination && is_none(
                    symbols_of(source),
                    label_at(d as nat),
                ),
                Progress::Fail { problem, .. } => is_reason(source, problem),
                _ => true,
            }
        }),
{
    if crate::listing::entry_fits(symbol.addr, value, jump) {
        lemma_destination(symbol, value, jump);
        lemma_find(source, destination_of(symbol, value, jump) as nat);
    }
}

proof fn lemma_halfword_reason(
    source: Source,
    mode: ParseMode,
    address: nat,
    fetched: Fetched,
    active: ActiveTable,
    jump: ThumbJumpTableJump,
)
    requires
        address < u32::MAX,
        fetched.code == read_code(source, mode, address),
        is_known_table(source, Some(active)),
        address < active.symbol.addr + active.table.size,
        active.table.kind == (JumpTableKind::Thumb { kind: ThumbJumpTableKind::Halfword, jump }),
    ensures
        has_reason(
            source,
            entry_line(
                source,
                active.symbol,
                EntrySize::Short,
                crate::decoder::signed(fetched.code % 0x10000, 0x8000),
                address,
                fetched.size,
                false,
                jump,
            ),
        ),
{
    let value = crate::decoder::signed(fetched.code % 0x10000, 0x8000);
    let code = read_code(source, mode, address);
    assert(value == as_signed(code % 0x10000, 16));
    lemma_entry_reason(
        source,
        active.symbol,
        EntrySize::Short,
        value,
        address,
        fetched.size,
        false,
        jump,
    );
    let destination = destination_of(active.symbol, value, jump);
    if is_none(symbols_of(source), label_at(destination as nat)) && destination >= 0 {
        assert(is_missing(source, active.symbol, mode, address, address, destination as nat));
    }
}

proof fn lemma_bytes_reason(
    source: Source,
    mode: ParseMode,
    address: nat,
    fetched: Fetched,
    active: ActiveTable,
    jump: ThumbJumpTableJump,
)
    requires
        address < u32::MAX,
        fetched.code == read_code(source, mode, address),
        is_known_table(source, Some(active)),
        address < active.symbol.addr + active.table.size,
        active.table.kind == (JumpTableKind::Thumb { kind: ThumbJumpTableKind::Byte, jump }),
    ensures
        has_reason(source, byte_entry_lines(source, active.symbol, fetched, address, jump)),
{
    let code = read_code(source, mode, address);
    let low = crate::decoder::signed(fetched.code % 0x100, 0x80);
    let high = crate::decoder::signed((fetched.code / 0x100) % 0x100, 0x80);
    assert(low == as_signed(code % 0x100, 8));
    assert(high == as_signed((code / 0x100) % 0x100, 8));
    let symbol = active.symbol;
    lemma_entry_reason(source, symbol, EntrySize::Byte, low, address, 1, false, jump);
    lemma_entry_reason(
        source,
        symbol,
        EntrySize::Byte,
        high,
        address + 1,
        (fetched.size - 1) as nat,
        true,
        jump,
    );
    let first = destination_of(symbol, low, jump);
    let second = destination_of(symbol, high, jump);
    if is_none(symbols_of(source), label_at(first as nat)) && first >= 0 {
        assert(is_missing(source, symbol, mode, address, address, first as nat));
    }
    if is_none(symbols_of(source), label_at(second as nat)) && second >= 0 {
        assert(is_missing(source, symbol, mode, address, address + 1, second as nat));
    }
}

proof fn lemma_code_reason(
    source: Source,
    mode: ParseMode,
    address: nat,
    table: Option<ActiveTable>,
)
    requires
        source.is_loaded(),
        source.function.start_address <= address < source.function.end_address,
        fetch(mode, address, source.rest(address)) is Some,
        is_known_table(source, table),
    ensures
        ({
            let fetched = fetch(mode, address, source.rest(address))->0;
            let lines = code_lines(source, mode, address, fetched, table);
            &&& has_reason(source, lines)
            &&& lines matches Progress::Go { value, .. } ==> is_known_table(source, value.table)
        }),
{
    let fetched = fetch(mode, address, source.rest(address))->0;
    lemma_fetch(source, mode, address);
    lemma_data_word_reason(source, address);
    let active = crate::listing::table_at(table, address);
    lemma_instruction_reason(source, mode, address, active);
    if let Some(t) = active {
        if let JumpTableKind::Thumb { kind, jump } = t.table.kind {
            match kind {
                ThumbJumpTableKind::Halfword => {
                    lemma_halfword_reason(source, mode, address, fetched, t, jump);
                },
                ThumbJumpTableKind::Byte => {
                    lemma_bytes_reason(source, mode, address, fetched, t, jump);
                },
            }
        }
    }
}

proof fn lemma_content_reason(
    source: Source,
    mode: ParseMode,
    address: nat,
    table: Option<ActiveTable>,
)
    requires
        source.is_loaded(),
        source.function.start_address <= address < source.function.end_address,
        fetch(mode, address, source.rest(address)) is Some,
        is_known_table(source, table),
    ensures
        ({
            let fetched = fetch(mode, address, source.rest(address))->0;
            let lines = content_lines(source, mode, address, fetched, table);
            &&& has_reason(source, lines)
            &&& lines matches Progress::Go { value, .. } ==> is_known_table(source, value.table)
        }),
{
    let fetched = fetch(mode, address, source.rest(address))->0;
    lemma_find(source, address);
    lemma_code_reason(source, mode, address, table);
    if let Found::One(symbol) = source.find(address, Wanted::PoolConstant) {
        lemma_constant_reason(source, address, symbol.name);
    }
    if let Found::One(symbol) = source.find(address, Wanted::Data) {
        assert(is_one(symbols_of(source), data_at(address), symbol));
        lemma_inline_table_reason(source, symbol, address, address + fetched.size, table);
    }
}

proof fn lemma_labels_reason(source: Source, address: nat, table: Option<ActiveTable>)
    requires
        address <= u32::MAX,
        is_known_table(source, table),
    ensures
        has_reason(source, label_lines(source, address, table)),
        label_lines(source, address, table) matches Progress::Go { value, .. } ==> is_known_table(
            source,
            value,
        ),
{
    lemma_find(source, address);
    if let Found::One(symbol) = source.find(address, Wanted::JumpTable) {
        assert(is_one(symbols_of(source), table_at(address), symbol));
        lemma_one_holds(symbols_of(source), table_at(address), symbol);
        assert(symbol.addr as nat == address);
    }
}

proof fn lemma_lines_reason(source: Source, cursor: Cursor)
    requires
        source.is_loaded(),
        source.function.start_address <= cursor.address <= source.function.end_address,
        is_known_table(source, cursor.table),
    ensures
        has_reason(source, lines_from(source, cursor)),
    decreases source.function.end_address - cursor.address,
{
    if let Some(fetched) = fetch(cursor.mode, cursor.address, source.rest(cursor.address)) {
        lemma_step_advances(source, cursor);
        lemma_fetch(source, cursor.mode, cursor.address);
        reveal(step);
        lemma_labels_reason(source, cursor.address, cursor.table);
        if let Progress::Go { value: table, .. } = label_lines(
            source,
            cursor.address,
            cursor.table,
        ) {
            lemma_content_reason(source, cursor.mode, cursor.address, table);
            if let Progress::Go { value: passed, .. } = content_lines(
                source,
                cursor.mode,
                cursor.address,
                fetched,
                table,
            ) {
                lemma_pool_reason(source, cursor.address + passed.size);
            }
        }
        if let Progress::Go { value: next, .. } = step(source, cursor, fetched) {
            lemma_lines_reason(source, next);
        }
    }
}

/// A listing ends early only for a reason that there is.
pub proof fn law_problems_have_a_reason(source: Source)
    ensures
        assembly_of(source) matches Some(assembly) ==> (assembly.problem matches Some(problem)
            ==> is_reason(source, problem)),
{
    if source.is_loaded() {
        lemma_lines_reason(source, first_cursor(source));
    }
}

/// Whether the lines are those of the inline table `symbol` at `address`.
pub open spec fn are_lines_at(
    source: Source,
    lines: Seq<char>,
    symbol: SymbolView,
    address: nat,
    size: nat,
) -> bool {
    is_in_module(source, address, size) && are_lines_of(
        source,
        lines,
        address,
        symbol,
        symbol.name,
        size,
    )
}

/// Whether `text` is the comment on what an instruction of `size` bytes at `address`
/// refers to.
pub open spec fn is_comment_at(
    source: Source,
    text: Seq<char>,
    mode: ParseMode,
    address: nat,
    size: nat,
) -> bool {
    let data = source.code.subrange(address - source.base, address - source.base + size);
    &&& is_in_module(source, address, size)
    &&& source.symbols.comment_on(address as u32, reference_of(source, mode, address, data))
        == Reply::Text(text)
}

/// Whether an entry is right for `table` and what was read at `start`.
pub open spec fn is_entry_of(
    source: Source,
    entry: Item,
    table: SymbolView,
    mode: ParseMode,
    start: nat,
) -> bool {
    is_one(symbols_of(source), table_at(table.addr as nat), table) && is_entry(
        source,
        entry,
        table,
        mode,
        start,
    )
}

/// Whether `name` is that of the piece of data of `size` bytes at `address`.
pub open spec fn is_data_label(source: Source, address: nat, name: Seq<char>, size: nat) -> bool {
    exists|symbol: SymbolView| #[trigger] is_data_of(source, address, symbol, name, size)
}

/// Whether the lines are those of some inline table.
pub open spec fn are_known_lines(source: Source, lines: Seq<char>) -> bool {
    exists|symbol: SymbolView, address: nat, size: nat| #[trigger]
        are_lines_at(source, lines, symbol, address, size)
}

/// Whether `text` is the comment on what some instruction refers to.
pub open spec fn is_known_comment(source: Source, text: Seq<char>) -> bool {
    exists|mode: ParseMode, address: nat, size: nat| #[trigger]
        is_comment_at(source, text, mode, address, size)
}

/// Whether an item is right by itself, in terms of the bytes and the symbols of the
/// module.
pub open spec fn is_sound(source: Source, item: Item) -> bool {
    match item {
        Item::Label { address, name } => is_label_of(source, address, name),
        Item::TableLabel { symbol } => is_one(
            symbols_of(source),
            table_at(symbol.addr as nat),
            symbol,
        ),
        Item::ConstantLabel { address, name } => is_constant(source, address, name),
        Item::KnownWord { address, indented, .. } => is_word(source, item, address, indented),
        Item::PlainWord { address, indented, .. } => is_word(source, item, address, indented),
        Item::InlineTableLabel { address, taken, name } => is_data_label(
            source,
            address,
            name,
            taken,
        ),
        Item::InlineTableLines { lines } => are_known_lines(source, lines),
        Item::Entry { .. } => exists|table: SymbolView, mode: ParseMode, start: nat| #[trigger]
            is_entry_of(source, item, table, mode, start),
        Item::Instruction { address, mode, data, .. } => {
            &&& is_in_module(source, address, data.len())
            &&& data.len() == read_size(source, mode, address)
            &&& data == source.code.subrange(
                address - source.base,
                address - source.base + data.len(),
            )
        },
        Item::Comment { text } => is_known_comment(source, text),
        _ => true,
    }
}

spec fn are_sound(source: Source, items: Seq<Item>) -> bool {
    forall|i: int| 0 <= i < items.len() ==> #[trigger] is_sound(source, items[i])
}

proof fn lemma_sound_concat(source: Source, first: Seq<Item>, second: Seq<Item>)
    requires
        are_sound(source, first),
        are_sound(source, second),
    ensures
        are_sound(source, first + second),
{
    let all = first + second;
    assert forall|i: int| 0 <= i < all.len() implies #[trigger] is_sound(source, all[i]) by {
        if i < first.len() {
            assert(is_sound(source, first[i]));
        } else {
            assert(is_sound(source, second[i - first.len()]));
        }
    }
}

proof fn lemma_constant_sound(source: Source, address: nat, symbol: SymbolView)
    requires
        address <= u32::MAX,
        source.is_pool_constant(address),
        source.find(address, Wanted::PoolConstant) == Found::One(symbol),
    ensures
        are_sound(source, items_of(constant_line(source, address, symbol.name))),
{
    lemma_find(source, address);
    assert(is_one(symbols_of(source), constant_at(address), symbol));
    if source.holds_word(address) {
        lemma_word(source, address);
    }
}

proof fn lemma_pool_sound(source: Source, address: nat)
    ensures
        are_sound(source, items_of(pool_lines(source, address))),
    decreases u32::MAX + 4 - address,
{
    if address <= u32::MAX && source.is_pool_constant(address) && source.holds_word(address) {
        if let Found::One(symbol) = source.find(address, Wanted::PoolConstant) {
            lemma_constant_sound(source, address, symbol);
            if let Progress::Go { items, .. } = constant_line(source, address, symbol.name) {
                lemma_pool_sound(source, address + 4);
                lemma_sound_concat(source, items, items_of(pool_lines(source, address + 4)));
            }
        }
    }
}

proof fn lemma_labels_sound(source: Source, address: nat, table: Option<ActiveTable>)
    requires
        address <= u32::MAX,
    ensures
        are_sound(source, items_of(label_lines(source, address, table))),
{
    lemma_find(source, address);
    if let Found::One(symbol) = source.find(address, Wanted::Label) {
        assert(is_one(symbols_of(source), label_at(address), symbol));
    }
    if let Found::One(symbol) = source.find(address, Wanted::JumpTable) {
        assert(is_one(symbols_of(source), table_at(address), symbol));
        lemma_one_holds(symbols_of(source), table_at(address), symbol);
        assert(symbol.addr as nat == address);
    }
}

proof fn lemma_inline_table_sound(
    source: Source,
    symbol: SymbolView,
    address: nat,
    read_to: nat,
    table: Option<ActiveTable>,
)
    requires
        source.is_loaded(),
        source.function.start_address <= address <= source.function.end_address,
        is_one(symbols_of(source), data_at(address), symbol),
    ensures
        are_sound(source, items_of(inline_table_lines(source, symbol, address, read_to, table))),
{
    lemma_one_holds(symbols_of(source), data_at(address), symbol);
    let data = symbol.kind->Data_0;
    assert(data.spec_size() == bytes_of(data));
    if let Some(size) = data.spec_size() {
        if address + size <= source.function.end_address {
            assert(source.rest(address).take(size as int) =~= source.code.subrange(
                address - source.base,
                address - source.base + size,
            ));
            assert(is_data_of(source, address, symbol, symbol.name, size));
            let label = Item::InlineTableLabel { address, taken: size, name: symbol.name };
            assert(is_sound(source, label));
            if let Reply::Text(lines) = lines_of(source, address, symbol, size) {
                assert(are_lines_at(source, lines, symbol, address, size));
                assert(is_sound(source, Item::InlineTableLines { lines }));
            }
        }
    }
}

proof fn lemma_instruction_sound(
    source: Source,
    mode: ParseMode,
    address: nat,
    table: Option<ActiveTable>,
)
    requires
        source.is_loaded(),
        source.function.start_address <= address <= source.function.end_address,
        fetch(mode, address, source.rest(address)) is Some,
    ensures
        are_sound(
            source,
            items_of(
                instruction_line(
                    source,
                    mode,
                    address,
                    fetch(mode, address, source.rest(address))->0.size,
                    table,
                ),
            ),
        ),
{
    let size = fetch(mode, address, source.rest(address))->0.size;
    lemma_fetch(source, mode, address);
    let data = source.code.subrange(address - source.base, address - source.base + size);
    if let Reply::Text(text) = source.symbols.comment_on(
        address as u32,
        reference_of(source, mode, address, data),
    ) {
        assert(is_comment_at(source, text, mode, address, size));
        assert(is_sound(source, Item::Comment { text }));
    }
    let line = instruction_line(source, mode, address, size, table);
    let instruction = Item::Instruction { address, mode, data, in_table: table is Some };
    assert(is_sound(source, instruction));
    let items = items_of(line);
    assert forall|i: int| 0 <= i < items.len() implies #[trigger] is_sound(source, items[i]) by {
        assert(items[i] == instruction || items[i] is Comment || items[i] is EndOfLine);
    }
}

proof fn lemma_entry_sound(
    source: Source,
    symbol: SymbolView,
    size: EntrySize,
    value: int,
    address: nat,
    taken: nat,
    second: bool,
    jump: ThumbJumpTableJump,
)
    ensures
        entry_line(source, symbol, size, value, address, taken, second, jump) matches Progress::Go {
            items,
            ..
        } ==> {
            &&& items.len() == 1
            &&& items[0] matches Item::Entry {
                address: a,
                taken: t,
                second: s,
                size: z,
                label,
                table,
                jump: j,
            }
            &&& a == address && t == taken && s == second && z == size && table == symbol.name && j
                == jump
            &&& is_label_of(source, destination_of(symbol, value, jump) as nat, label)
        },
{
    if crate::listing::entry_fits(symbol.addr, value, jump) {
        lemma_destination(symbol, value, jump);
        let destination = destination_of(symbol, value, jump) as nat;
        lemma_find(source, destination);
        if let Found::One(label) = source.find(destination, Wanted::Label) {
            assert(is_one(symbols_of(source), label_at(destination), label));
        }
    }
}

proof fn lemma_halfword_sound(
    source: Source,
    mode: ParseMode,
    address: nat,
    fetched: Fetched,
    active: ActiveTable,
    jump: ThumbJumpTableJump,
)
    requires
        fetched.code == read_code(source, mode, address),
        fetched.size == read_size(source, mode, address),
        is_known_table(source, Some(active)),
        active.table.kind == (JumpTableKind::Thumb { kind: ThumbJumpTableKind::Halfword, jump }),
    ensures
        are_sound(
            source,
            items_of(
                entry_line(
                    source,
                    active.symbol,
                    EntrySize::Short,
                    crate::decoder::signed(fetched.code % 0x10000, 0x8000),
                    address,
                    fetched.size,
                    false,
                    jump,
                ),
            ),
        ),
{
    let value = crate::decoder::signed(fetched.code % 0x10000, 0x8000);
    assert(value == as_signed(read_code(source, mode, address) % 0x10000, 16));
    lemma_entry_sound(
        source,
        active.symbol,
        EntrySize::Short,
        value,
        address,
        fetched.size,
        false,
        jump,
    );
    if let Progress::Go { items, .. } = entry_line(
        source,
        active.symbol,
        EntrySize::Short,
        value,
        address,
        fetched.size,
        false,
        jump,
    ) {
        assert(is_entry_of(source, items[0], active.symbol, mode, address));
    }
}

proof fn lemma_bytes_sound(
    source: Source,
    mode: ParseMode,
    address: nat,
    fetched: Fetched,
    active: ActiveTable,
    jump: ThumbJumpTableJump,
)
    requires
        fetched.code == read_code(source, mode, address),
        fetched.size == read_size(source, mode, address),
        is_known_table(source, Some(active)),
        active.table.kind == (JumpTableKind::Thumb { kind: ThumbJumpTableKind::Byte, jump }),
    ensures
        are_sound(
            source,
            items_of(byte_entry_lines(source, active.symbol, fetched, address, jump)),
        ),
{
    let code = read_code(source, mode, address);
    let symbol = active.symbol;
    let low = crate::decoder::signed(fetched.code % 0x100, 0x80);
    let high = crate::decoder::signed((fetched.code / 0x100) % 0x100, 0x80);
    let taken = (fetched.size - 1) as nat;
    assert(low == as_signed(code % 0x100, 8));
    assert(high == as_signed((code / 0x100) % 0x100, 8));
    lemma_entry_sound(source, symbol, EntrySize::Byte, low, address, 1, false, jump);
    lemma_entry_sound(source, symbol, EntrySize::Byte, high, address + 1, taken, true, jump);
    let one = entry_line(source, symbol, EntrySize::Byte, low, address, 1, false, jump);
    let two = entry_line(source, symbol, EntrySize::Byte, high, address + 1, taken, true, jump);
    if one is Go {
        assert(is_entry_of(source, one->Go_items[0], symbol, mode, address));
        if two is Go {
            assert(is_entry_of(source, two->Go_items[0], symbol, mode, address));
        }
    }
}

proof fn lemma_code_sound(
    source: Source,
    mode: ParseMode,
    address: nat,
    table: Option<ActiveTable>,
)
    requires
        source.is_loaded(),
        source.function.start_address <= address < source.function.end_address,
        fetch(mode, address, source.rest(address)) is Some,
        is_known_table(source, table),
    ensures
        are_sound(
            source,
            items_of(
                code_lines(
                    source,
                    mode,
                    address,
                    fetch(mode, address, source.rest(address))->0,
                    table,
                ),
            ),
        ),
{
    let fetched = fetch(mode, address, source.rest(address))->0;
    lemma_fetch(source, mode, address);
    if source.holds_word(address) {
        lemma_word(source, address);
    }
    assert(are_sound(source, items_of(data_word_line(source, address))));
    let active = crate::listing::table_at(table, address);
    lemma_instruction_sound(source, mode, address, active);
    if let Some(t) = active {
        if let JumpTableKind::Thumb { kind, jump } = t.table.kind {
            match kind {
                ThumbJumpTableKind::Halfword => {
                    lemma_halfword_sound(source, mode, address, fetched, t, jump);
                },
                ThumbJumpTableKind::Byte => {
                    lemma_bytes_sound(source, mode, address, fetched, t, jump);
                },
            }
        }
    }
}

proof fn lemma_content_sound(
    source: Source,
    mode: ParseMode,
    address: nat,
    table: Option<ActiveTable>,
)
    requires
        source.is_loaded(),
        source.function.start_address <= address < source.function.end_address,
        fetch(mode, address, source.rest(address)) is Some,
        is_known_table(source, table),
    ensures
        are_sound(
            source,
            items_of(
                content_lines(
                    source,
                    mode,
                    address,
                    fetch(mode, address, source.rest(address))->0,
                    table,
                ),
            ),
        ),
{
    let fetched = fetch(mode, address, source.rest(address))->0;
    lemma_find(source, address);
    lemma_code_sound(source, mode, address, table);
    if let Found::One(symbol) = source.find(address, Wanted::PoolConstant) {
        if source.is_pool_constant(address) {
            lemma_constant_sound(source, address, symbol);
        }
    }
    if let Found::One(symbol) = source.find(address, Wanted::Data) {
        assert(is_one(symbols_of(source), data_at(address), symbol));
        lemma_inline_table_sound(source, symbol, address, address + fetched.size, table);
    }
}

proof fn lemma_step_sound(source: Source, cursor: Cursor, fetched: Fetched)
    requires
        source.is_loaded(),
        source.function.start_address <= cursor.address < source.function.end_address,
        fetch(cursor.mode, cursor.address, source.rest(cursor.address)) == Some(fetched),
        is_known_table(source, cursor.table),
    ensures
        are_sound(source, items_of(step(source, cursor, fetched))),
        step(source, cursor, fetched) matches Progress::Go { value, .. } ==> is_known_table(
            source,
            value.table,
        ),
{
    reveal(step);
    let labels = label_lines(source, cursor.address, cursor.table);
    lemma_labels_sound(source, cursor.address, cursor.table);
    lemma_labels_reason(source, cursor.address, cursor.table);
    if let Progress::Go { items: first, value: table } = labels {
        lemma_content_sound(source, cursor.mode, cursor.address, table);
        lemma_content_reason(source, cursor.mode, cursor.address, table);
        let content = content_lines(source, cursor.mode, cursor.address, fetched, table);
        let second = items_of(content);
        lemma_sound_concat(source, first, second);
        if let Progress::Go { value: passed, .. } = content {
            let third = items_of(pool_lines(source, cursor.address + passed.size));
            lemma_pool_sound(source, cursor.address + passed.size);
            lemma_sound_concat(source, first + second, third);
        }
    }
}

proof fn lemma_lines_sound(source: Source, cursor: Cursor)
    requires
        source.is_loaded(),
        source.function.start_address <= cursor.address <= source.function.end_address,
        is_known_table(source, cursor.table),
    ensures
        are_sound(source, items_of(lines_from(source, cursor))),
    decreases source.function.end_address - cursor.address,
{
    if let Some(fetched) = fetch(cursor.mode, cursor.address, source.rest(cursor.address)) {
        lemma_step_advances(source, cursor);
        lemma_fetch(source, cursor.mode, cursor.address);
        lemma_step_sound(source, cursor, fetched);
        if let Progress::Go { items, value: next } = step(source, cursor, fetched) {
            lemma_lines_sound(source, next);
            lemma_sound_concat(source, items, items_of(lines_from(source, next)));
        }
    }
}

/// Every item of a listing is right by itself, also where the listing ends early, up to
/// its very end.
pub proof fn law_items_are_sound(source: Source, k: int)
    requires
        0 <= k < items_of(listing(source)).len(),
    ensures
        is_sound(source, items_of(listing(source))[k]),
{
    if source.is_loaded() {
        lemma_lines_sound(source, first_cursor(source));
    }
}

/// A word without a known line is listed as the number that the four bytes of the module
/// at its address stand for, low byte first, and nothing else is known to be written for
/// that number there. A word with a known line is listed with the line that is known for
/// that number there. This is so in every listing, also where it ends early.
pub proof fn law_words_are_those_of_the_module(source: Source, k: int)
    requires
        0 <= k < items_of(listing(source)).len(),
    ensures
        match items_of(listing(source))[k] {
            Item::PlainWord { address, value, .. } => {
                let i = address - source.base;
                &&& 0 <= i && i + 4 <= source.code.len()
                &&& value == source.code[i] + 0x100 * source.code[i + 1] + 0x10000 * source.code[i
                    + 2] + 0x1000000 * source.code[i + 3]
                &&& source.symbols.word_reply(address as u32, value as u32) is Nothing
            },
            Item::KnownWord { address, line, .. } => {
                let i = address - source.base;
                let value = source.code[i] + 0x100 * source.code[i + 1] + 0x10000 * source.code[i
                    + 2] + 0x1000000 * source.code[i + 3];
                &&& 0 <= i && i + 4 <= source.code.len()
                &&& source.symbols.word_reply(address as u32, value as u32) == Reply::Text(line)
            },
            _ => true,
        },
{
    law_items_are_sound(source, k);
}

/// Whether the item at place `k` is for bytes up to `end`.
pub open spec fn is_up_to(items: Seq<Item>, k: int, end: nat) -> bool {
    0 <= k < items.len() && (extent(items[k]) matches Some(e) && e.end == end)
}

/// Whether one of the items is for bytes up to `end`.
pub open spec fn is_reached(items: Seq<Item>, end: nat) -> bool {
    exists|k: int| #[trigger] is_up_to(items, k, end)
}

/// Whether a listing ends among the labels for `address`, of which several of one kind are
/// there: behind the opening of the function, or behind the one label.
pub open spec fn is_cut_in_labels(
    source: Source,
    items: Seq<Item>,
    address: nat,
    problem: Problem,
) -> bool {
    let n = items.len() as int;
    let opens = address == source.function.first_instruction_address;
    &&& problem matches Problem::MultipleSymbols { address: a }
    &&& a == address
    &&& if are_several(symbols_of(source), label_at(address)) {
        opens ==> 1 <= n && items[n - 1] is Opening
    } else {
        let labels = if is_none(symbols_of(source), label_at(address)) {
            0int
        } else {
            1int
        };
        &&& are_several(symbols_of(source), table_at(address))
        &&& labels == 1 ==> 1 <= n && (items[n - 1] matches Item::Label { address: b, name } && b
            == address && is_label_of(source, address, name))
        &&& opens ==> 1 + labels <= n && items[n - 1 - labels] is Opening
    }
}

/// Whether a listing ends right behind the labels for `address`: of what lies there
/// nothing could be written.
pub open spec fn is_cut_behind_labels(
    source: Source,
    items: Seq<Item>,
    address: nat,
    problem: Problem,
) -> bool {
    &&& are_labels_before(source, items, items.len() as int, address)
    &&& match problem {
        Problem::MultipleSymbols { address: a } => {
            ||| a == address && are_several(symbols_of(source), constant_at(address))
            ||| a == address && are_several(symbols_of(source), data_at(address))
            ||| are_several(symbols_of(source), label_at(a as nat))
        },
        Problem::Lookup { reason } => is_unwritable_word(source, address, reason)
            && source.symbols.data_relocations@.contains(address as u32),
        Problem::InlineTableWithoutSize => !is_none(symbols_of(source), data_at(address)),
        Problem::PoolConstantWithoutSymbol { .. } => false,
        Problem::MissingLabel { address: a, .. } => a == address,
    }
}

/// Whether a listing ends in the middle of what lies at `address`: behind the label of a
/// constant or of an inline table, behind an instruction, or behind the first of two
/// entries of a jump table.
pub open spec fn is_cut_in_content(
    source: Source,
    items: Seq<Item>,
    address: nat,
    problem: Problem,
) -> bool {
    let n = items.len() as int;
    &&& 0 < n
    &&& match (items[n - 1], problem) {
        (Item::ConstantLabel { address: a, .. }, Problem::Lookup { reason }) => a == address
            && is_unwritable_word(source, address, reason),
        (Item::InlineTableLabel { address: a, .. }, Problem::Lookup { reason }) => a == address
            && is_table_unwritable(source, address, reason),
        (Item::Instruction { address: a, mode, data, .. }, Problem::Lookup { reason }) => a
            == address && is_unwritable_comment(source, mode, address, data.len(), reason),
        (Item::EndOfLine { .. }, Problem::MissingLabel { address: a, .. }) => a == address + 1
            && is_first_entry(items, n - 2, address),
        (Item::EndOfLine { .. }, Problem::MultipleSymbols { address: a }) => are_several(
            symbols_of(source),
            label_at(a as nat),
        ) && is_first_entry(items, n - 2, address),
        _ => false,
    }
}

/// Whether the lines of the inline table at `address` could not be written.
pub open spec fn is_table_unwritable(source: Source, address: nat, reason: Seq<char>) -> bool {
    exists|symbol: SymbolView, size: nat| #[trigger]
        is_unwritable_table(source, symbol, address, size, reason)
}

/// Whether the item at place `k` is the first of two entries, at `address`.
pub open spec fn is_first_entry(items: Seq<Item>, k: int, address: nat) -> bool {
    0 <= k < items.len() && (items[k] matches Item::Entry { address: a, second, .. } && a
        == address && !second)
}

/// Whether a listing ends right in front of the pool constant at `address`, which has no
/// name or several.
pub open spec fn is_cut_in_pool(
    source: Source,
    items: Seq<Item>,
    address: nat,
    problem: Problem,
) -> bool {
    &&& is_reached(items, address)
    &&& address <= u32::MAX && source.function.pool_constants@.contains(address as u32)
    &&& match problem {
        Problem::MultipleSymbols { address: a } => a == address && are_several(
            symbols_of(source),
            constant_at(address),
        ),
        Problem::PoolConstantWithoutSymbol { address: a, .. } => a == address,
        _ => false,
    }
}

/// Whether a listing has all that is in front of a problem at `address`.
pub open spec fn is_cut_at(
    source: Source,
    items: Seq<Item>,
    address: nat,
    problem: Problem,
) -> bool {
    ||| is_cut_in_labels(source, items, address, problem)
    ||| is_cut_behind_labels(source, items, address, problem)
    ||| is_cut_in_content(source, items, address, problem)
    ||| is_cut_in_pool(source, items, address, problem)
}

proof fn lemma_pool_cut(source: Source, before: Seq<Item>, address: nat) -> (at: nat)
    requires
        is_reached(before, address),
        pool_lines(source, address) is Fail,
    ensures
        is_cut_at(
            source,
            before + items_of(pool_lines(source, address)),
            at,
            pool_lines(source, address)->Fail_problem,
        ),
    decreases u32::MAX + 4 - address,
{
    lemma_find(source, address);
    let lines = items_of(pool_lines(source, address));
    let all = before + lines;
    let problem = pool_lines(source, address)->Fail_problem;
    if let Found::One(symbol) = source.find(address, Wanted::PoolConstant) {
        let constant = constant_line(source, address, symbol.name);
        let items = items_of(constant);
        if constant is Fail {
            lemma_word(source, address);
            assert(lines =~= items);
            assert(all[all.len() - 1] == items[0]);
            assert(is_cut_in_content(source, all, address, problem));
            address
        } else {
            let next = before + items;
            let n = before.len() as int;
            assert(next[n] == items[0]);
            assert(is_up_to(next, n, address + 4));
            assert(all =~= next + items_of(pool_lines(source, address + 4)));
            lemma_pool_cut(source, next, address + 4)
        }
    } else {
        assert(all =~= before);
        assert(is_cut_in_pool(source, all, address, problem));
        address
    }
}

proof fn lemma_labels_cut(
    source: Source,
    before: Seq<Item>,
    address: nat,
    table: Option<ActiveTable>,
)
    requires
        address <= u32::MAX,
    ensures
        ({
            let labels = label_lines(source, address, table);
            let all = before + items_of(labels);
            match labels {
                Progress::Go { .. } => are_labels_before(source, all, all.len() as int, address),
                Progress::Fail { problem, .. } => is_cut_in_labels(source, all, address, problem),
                Progress::Stuck => true,
            }
        }),
{
    lemma_find(source, address);
    let items = items_of(label_lines(source, address, table));
    let all = before + items;
    let n = before.len() as int;
    assert forall|i: int| 0 <= i < items.len() implies #[trigger] all[n + i] == items[i] by {}
    if let Found::One(symbol) = source.find(address, Wanted::Label) {
        assert(is_one(symbols_of(source), label_at(address), symbol));
        lemma_one_holds(symbols_of(source), label_at(address), symbol);
    }
    if let Found::One(symbol) = source.find(address, Wanted::JumpTable) {
        assert(is_one(symbols_of(source), table_at(address), symbol));
        lemma_one_holds(symbols_of(source), table_at(address), symbol);
    }
}

proof fn lemma_content_end(
    source: Source,
    mode: ParseMode,
    address: nat,
    fetched: Fetched,
    table: Option<ActiveTable>,
)
    requires
        source.is_loaded(),
        source.function.start_address <= address < source.function.end_address,
        fetch(mode, address, source.rest(address)) == Some(fetched),
    ensures
        content_lines(source, mode, address, fetched, table) matches Progress::Go { items, value }
            ==> is_reached(items, address + value.size),
{
    lemma_fetch(source, mode, address);
    if let Progress::Go { items, value } = content_lines(source, mode, address, fetched, table) {
        let end = address + value.size;
        assert(is_up_to(items, 0, end) || is_up_to(items, 2, end));
    }
}

proof fn lemma_content_cut(
    source: Source,
    before: Seq<Item>,
    mode: ParseMode,
    address: nat,
    fetched: Fetched,
    table: Option<ActiveTable>,
)
    requires
        source.is_loaded(),
        source.function.start_address <= address < source.function.end_address,
        fetch(mode, address, source.rest(address)) == Some(fetched),
        are_labels_before(source, before, before.len() as int, address),
        content_lines(source, mode, address, fetched, table) is Fail,
    ensures
        ({
            let content = content_lines(source, mode, address, fetched, table);
            is_cut_at(source, before + items_of(content), address, content->Fail_problem)
        }),
{
    let content = content_lines(source, mode, address, fetched, table);
    let items = items_of(content);
    let problem = content->Fail_problem;
    let all = before + items;
    lemma_fetch(source, mode, address);
    lemma_find(source, address);
    if items.len() == 0 {
        assert(all =~= before);
    } else {
        assert(all[all.len() - 1] == items[items.len() - 1]);
    }
    let constant = source.find(address, Wanted::PoolConstant);
    if constant is Several {
    } else if constant is One && source.is_pool_constant(address) {
        lemma_word(source, address);
        assert(is_cut_in_content(source, all, address, problem));
    } else if let Found::One(symbol) = source.find(address, Wanted::Data) {
        assert(is_one(symbols_of(source), data_at(address), symbol));
        lemma_one_holds(symbols_of(source), data_at(address), symbol);
        lemma_inline_table_cut(source, all, symbol, address, address + fetched.size, table);
    } else if source.find(address, Wanted::Data) is Nothing {
        lemma_code_cut(source, before, mode, address, fetched, table);
    }
}

proof fn lemma_inline_table_cut(
    source: Source,
    all: Seq<Item>,
    symbol: SymbolView,
    address: nat,
    read_to: nat,
    table: Option<ActiveTable>,
)
    requires
        source.is_loaded(),
        source.function.start_address <= address <= source.function.end_address,
        is_one(symbols_of(source), data_at(address), symbol),
        inline_table_lines(source, symbol, address, read_to, table) is Fail,
        ({
            let items = items_of(inline_table_lines(source, symbol, address, read_to, table));
            items.len() > 0 ==> all.len() > 0 && all.last() == items.last()
        }),
    ensures
        inline_table_lines(source, symbol, address, read_to, table) matches Progress::Fail {
            items,
            problem,
        } ==> {
            ||| items.len() == 0 && problem is InlineTableWithoutSize
            ||| items.len() > 0 && is_cut_in_content(source, all, address, problem)
        },
{
    lemma_one_holds(symbols_of(source), data_at(address), symbol);
    let data = symbol.kind->Data_0;
    assert(data.spec_size() == bytes_of(data));
    if let Some(size) = data.spec_size() {
        assert(source.rest(address).take(size as int) =~= source.code.subrange(
            address - source.base,
            address - source.base + size,
        ));
        if let Progress::Fail { problem: Problem::Lookup { reason }, .. } = inline_table_lines(
            source,
            symbol,
            address,
            read_to,
            table,
        ) {
            assert(is_unwritable_table(source, symbol, address, size, reason));
            assert(is_table_unwritable(source, address, reason));
        }
    }
}

proof fn lemma_code_cut(
    source: Source,
    before: Seq<Item>,
    mode: ParseMode,
    address: nat,
    fetched: Fetched,
    table: Option<ActiveTable>,
)
    requires
        source.is_loaded(),
        source.function.start_address <= address < source.function.end_address,
        fetch(mode, address, source.rest(address)) == Some(fetched),
        are_labels_before(source, before, before.len() as int, address),
        code_lines(source, mode, address, fetched, table) is Fail,
    ensures
        ({
            let code = code_lines(source, mode, address, fetched, table);
            is_cut_at(source, before + items_of(code), address, code->Fail_problem)
        }),
{
    let code = code_lines(source, mode, address, fetched, table);
    let items = items_of(code);
    let problem = code->Fail_problem;
    let all = before + items;
    lemma_fetch(source, mode, address);
    if items.len() == 0 {
        assert(all =~= before);
    } else {
        assert(all[all.len() - 1] == items[items.len() - 1]);
    }
    if source.holds_word(address) {
        lemma_word(source, address);
    }
    match crate::listing::table_at(table, address) {
        Some(
            ActiveTable {
                table: crate::symbols::SymJumpTable {
                    kind: JumpTableKind::Thumb { kind, jump },
                    ..
                },
                symbol,
            },
        ) => {
            let low = crate::decoder::signed(fetched.code % 0x100, 0x80);
            let high = crate::decoder::signed((fetched.code / 0x100) % 0x100, 0x80);
            let short = crate::decoder::signed(fetched.code % 0x10000, 0x8000);
            let taken = (fetched.size - 1) as nat;
            let size = fetched.size;
            lemma_entry_reason(source, symbol, EntrySize::Short, short, address, size, false, jump);
            lemma_entry_reason(source, symbol, EntrySize::Byte, low, address, 1, false, jump);
            lemma_entry_reason(
                source,
                symbol,
                EntrySize::Byte,
                high,
                address + 1,
                taken,
                true,
                jump,
            );
            lemma_entry_several(
                source,
                symbol,
                EntrySize::Short,
                short,
                address,
                size,
                false,
                jump,
            );
            lemma_entry_several(source, symbol, EntrySize::Byte, low, address, 1, false, jump);
            lemma_entry_several(
                source,
                symbol,
                EntrySize::Byte,
                high,
                address + 1,
                taken,
                true,
                jump,
            );
            if items.len() > 0 {
                assert(all[all.len() - 2] == items[items.len() - 2]);
                assert(is_first_entry(all, all.len() - 2, address));
                assert(is_cut_in_content(source, all, address, problem));
            } else {
                assert(is_cut_behind_labels(source, all, address, problem));
            }
        },
        _ => {
            if items.len() > 0 {
                assert(is_cut_in_content(source, all, address, problem));
            } else {
                assert(is_cut_behind_labels(source, all, address, problem));
            }
        },
    }
}

proof fn lemma_entry_several(
    source: Source,
    symbol: SymbolView,
    size: EntrySize,
    value: int,
    address: nat,
    taken: nat,
    second: bool,
    jump: ThumbJumpTableJump,
)
    ensures
        entry_line(
            source,
            symbol,
            size,
            value,
            address,
            taken,
            second,
            jump,
        ) matches Progress::Fail { items, problem } ==> items.len() == 0 && match problem {
            Problem::MultipleSymbols { address: a } => are_several(
                symbols_of(source),
                label_at(a as nat),
            ),
            Problem::MissingLabel { address: a, .. } => a == address as u32,
            _ => false,
        },
{
    if crate::listing::entry_fits(symbol.addr, value, jump) {
        lemma_destination(symbol, value, jump);
        lemma_find(source, destination_of(symbol, value, jump) as nat);
    }
}

proof fn lemma_content_step_cut(
    source: Source,
    before: Seq<Item>,
    first: Seq<Item>,
    cursor: Cursor,
    fetched: Fetched,
    table: Option<ActiveTable>,
) -> (at: nat)
    requires
        source.is_loaded(),
        source.function.start_address <= cursor.address < source.function.end_address,
        fetch(cursor.mode, cursor.address, source.rest(cursor.address)) == Some(fetched),
        are_labels_before(
            source,
            before + first,
            (before + first).len() as int,
            cursor.address,
        ),
        label_lines(source, cursor.address, cursor.table) == (Progress::Go {
            items: first,
            value: table,
        }),
        step(source, cursor, fetched) is Fail,
    ensures
        is_cut_at(
            source,
            before + items_of(step(source, cursor, fetched)),
            at,
            step(source, cursor, fetched)->Fail_problem,
        ),
{
    let address = cursor.address;
    let content = content_lines(source, cursor.mode, address, fetched, table);
    let second = items_of(content);
    let items = items_of(step(source, cursor, fetched));
    let x = before + first + second;
    if let Progress::Go { value: passed, .. } = content {
        let behind = address + passed.size;
        let pool = pool_lines(source, behind);
        let third = items_of(pool);
        assert(pool is Fail && items == first + second + third && step(
            source,
            cursor,
            fetched,
        )->Fail_problem == pool->Fail_problem) by {
            reveal(step);
        }
        lemma_content_end(source, cursor.mode, address, fetched, table);
        let k = choose|k: int| #[trigger] is_up_to(second, k, behind);
        assert(x[k + before.len() + first.len()] == second[k]);
        assert(is_up_to(x, k + before.len() + first.len(), behind));
        assert(before + items =~= x + third);
        lemma_pool_cut(source, x, behind)
    } else {
        assert(content is Fail && items == first + second && step(
            source,
            cursor,
            fetched,
        )->Fail_problem == content->Fail_problem) by {
            reveal(step);
        }
        lemma_content_cut(source, before + first, cursor.mode, address, fetched, table);
        assert(before + items =~= x);
        address
    }
}

proof fn lemma_step_cut(source: Source, before: Seq<Item>, cursor: Cursor, fetched: Fetched) -> (
    at: nat)
    requires
        source.is_loaded(),
        source.function.start_address <= cursor.address < source.function.end_address,
        fetch(cursor.mode, cursor.address, source.rest(cursor.address)) == Some(fetched),
        step(source, cursor, fetched) is Fail,
    ensures
        is_cut_at(
            source,
            before + items_of(step(source, cursor, fetched)),
            at,
            step(source, cursor, fetched)->Fail_problem,
        ),
{
    let labels = label_lines(source, cursor.address, cursor.table);
    lemma_labels_cut(source, before, cursor.address, cursor.table);
    if let Progress::Go { items: first, value: table } = labels {
        lemma_content_step_cut(source, before, first, cursor, fetched, table)
    } else {
        assert(labels is Fail && items_of(labels) == items_of(step(source, cursor, fetched))
            && step(source, cursor, fetched)->Fail_problem == labels->Fail_problem) by {
            reveal(step);
        }
        cursor.address
    }
}

proof fn lemma_lines_cut(source: Source, before: Seq<Item>, cursor: Cursor) -> (at: nat)
    requires
        source.is_loaded(),
        source.function.start_address <= cursor.address <= source.function.end_address,
        lines_from(source, cursor) is Fail,
    ensures
        is_cut_at(
            source,
            before + items_of(lines_from(source, cursor)),
            at,
            lines_from(source, cursor)->Fail_problem,
        ),
    decreases source.function.end_address - cursor.address,
{
    let lines = lines_from(source, cursor);
    let fetched = fetch(cursor.mode, cursor.address, source.rest(cursor.address))->0;
    lemma_step_advances(source, cursor);
    lemma_fetch(source, cursor.mode, cursor.address);
    if let Progress::Go { items, value: next } = step(source, cursor, fetched) {
        assert(before + items_of(lines) =~= before + items + items_of(lines_from(source, next)));
        lemma_lines_cut(source, before + items, next)
    } else {
        lemma_step_cut(source, before, cursor, fetched)
    }
}

/// A listing that ends early has all that is in front of the problem: the labels for the
/// address where it is, save for those that are the problem, and what lies there as far as
/// it could be written.
pub proof fn law_listings_go_up_to_their_problem(source: Source) -> (at: nat)
    requires
        listing(source) is Fail,
    ensures
        is_cut_at(
            source,
            items_of(listing(source)),
            at,
            listing(source)->Fail_problem,
        ),
{
    let none: Seq<Item> = seq![];
    assert(none + items_of(listing(source)) =~= items_of(listing(source)));
    lemma_lines_cut(source, none, first_cursor(source))
}

} // verus!
