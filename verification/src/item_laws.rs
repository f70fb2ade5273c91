//! What each item of a listing says of the function, in terms of the function's bytes
//! and symbols.

use vstd::prelude::*;

use crate::coverage_laws::{extent, is_listed, lemma_listed_concat, lemma_step_is_listed};
use crate::decoder::{fetch, operand_reference, ArmVersion, Fetched, ParseFlags, ParseMode};
use crate::listing::{
    byte_entry_lines, code_lines, constant_line, content_lines, data_word_line, entry_line,
    first_cursor, inline_table_lines, instruction_line, items_of, label_lines, lemma_step_advances,
    lines_from, listing, pool_lines, step, ActiveTable, Cursor, EntrySize, Item, Progress, Source,
};
use crate::symbol_laws::{
    are_several, constant_at, data_at, is_found, is_none, is_one, label_at,
    law_searches_find_the_only_one, table_at,
};
use crate::symbols::{
    JumpTableKind, Reply, SymData, SymbolKind, SymbolView, ThumbJumpTableJump, ThumbJumpTableKind,
    Wanted,
};

verus! {

/// The symbols of the module.
pub open spec fn symbols_of(source: Source) -> Seq<SymbolView> {
    source.symbols.symbol_map@
}

/// The byte of the module at `address`.
pub open spec fn byte_at(source: Source, address: nat) -> int {
    source.code[address - source.base] as int
}

/// The number that the two bytes at `address` stand for, low byte first.
pub open spec fn half_at(source: Source, address: nat) -> int {
    byte_at(source, address) + 0x100 * byte_at(source, address + 1)
}

/// The number that the four bytes at `address` stand for, low byte first.
pub open spec fn number_at(source: Source, address: nat) -> int {
    byte_at(source, address) + 0x100 * byte_at(source, address + 1) + 0x10000 * byte_at(
        source,
        address + 2,
    ) + 0x1000000 * byte_at(source, address + 3)
}

/// Whether the module holds `n` bytes at `address`.
pub open spec fn is_in_module(source: Source, address: nat, n: nat) -> bool {
    source.base <= address && address - source.base + n <= source.code.len()
}

/// The jump table whose label is the last among some items.
pub open spec fn last_table(items: Seq<Item>) -> Option<SymbolView>
    decreases items.len(),
{
    if items.len() == 0 {
        None
    } else if let Item::TableLabel { symbol } = items.last() {
        Some(symbol)
    } else {
        last_table(items.drop_last())
    }
}

/// The size of a jump table.
pub open spec fn table_size(table: SymbolView) -> nat {
    match table.kind {
        SymbolKind::JumpTable(jump_table) => jump_table.size as nat,
        _ => 0,
    }
}

/// The jump table that `address` is in, behind some items: the last one, if it reaches
/// that far.
pub open spec fn table_around(items: Seq<Item>, address: nat) -> Option<SymbolView> {
    match last_table(items) {
        Some(table) if address < table.addr + table_size(table) => Some(table),
        _ => None,
    }
}

/// Whether the function is opened among some items.
pub open spec fn is_opened(items: Seq<Item>) -> bool
    decreases items.len(),
{
    items.len() > 0 && (items.last() is Opening || is_opened(items.drop_last()))
}

/// What bytes are read as, behind some items: as data in front of the first instruction,
/// if the function begins in front of it, and as code from there on.
pub open spec fn mode_behind(source: Source, items: Seq<Item>) -> ParseMode {
    if source.function.start_address < source.function.first_instruction_address && !is_opened(
        items,
    ) {
        ParseMode::Data
    } else if source.function.thumb {
        ParseMode::Thumb
    } else {
        ParseMode::Arm
    }
}

/// How many bytes are read at once at `address`. In Thumb code, four make up a `bl` or
/// `blx`, which begins with the five bits 11110.
pub open spec fn read_size(source: Source, mode: ParseMode, address: nat) -> nat {
    match mode {
        ParseMode::Arm => 4,
        ParseMode::Thumb => if 0xf000 <= half_at(source, address) < 0xf800 {
            4
        } else {
            2
        },
        ParseMode::Data => if address % 4 >= 2 {
            2
        } else {
            4
        },
    }
}

/// The code of what is read at `address`: the second half of a Thumb `bl`, and nothing
/// for data.
pub open spec fn read_code(source: Source, mode: ParseMode, address: nat) -> int {
    match mode {
        ParseMode::Arm => number_at(source, address),
        ParseMode::Thumb => if 0xf000 <= half_at(source, address) < 0xf800 {
            half_at(source, address + 2)
        } else {
            half_at(source, address)
        },
        ParseMode::Data => 0,
    }
}

/// Whether `name` is that of the only pool constant at `address`, and the function loads
/// that.
pub open spec fn is_constant(source: Source, address: nat, name: Seq<char>) -> bool {
    &&& address <= u32::MAX
    &&& source.function.pool_constants@.contains(address as u32)
    &&& exists|s: SymbolView| #[trigger]
        is_one(symbols_of(source), constant_at(address), s) && s.name == name
}

/// Whether there is a pool constant with a name at `address` that the function loads.
pub open spec fn has_constant(source: Source, address: nat) -> bool {
    address <= u32::MAX && source.function.pool_constants@.contains(address as u32) && !is_none(
        symbols_of(source),
        constant_at(address),
    )
}

/// Whether an item is the line for the word at `address`: as it is known to be written,
/// or else as the number that its four bytes stand for.
pub open spec fn is_word(source: Source, item: Item, address: nat, indented: bool) -> bool {
    &&& is_in_module(source, address, 4)
    &&& match item {
        Item::PlainWord { address: a, indented: i, value } => {
            &&& a == address && i == indented
            &&& value == number_at(source, address)
            &&& source.symbols.word_reply(address as u32, value as u32) is Nothing
        },
        Item::KnownWord { address: a, indented: i, line } => {
            &&& a == address && i == indented
            &&& source.symbols.word_reply(address as u32, number_at(source, address) as u32)
                == Reply::Text(line)
        },
        _ => false,
    }
}

/// Whether an item is the first for what was read at its address.
pub open spec fn is_head(source: Source, item: Item) -> bool {
    match item {
        Item::Instruction { .. } => true,
        Item::ConstantLabel { address, .. } => address == source.function.start_address,
        Item::KnownWord { indented, .. } => indented,
        Item::PlainWord { indented, .. } => indented,
        Item::InlineTableLabel { .. } => true,
        Item::Entry { second, .. } => !second,
        _ => false,
    }
}

/// Whether the item at place `k` is the first for what was read at `address`.
pub open spec fn is_head_at(source: Source, items: Seq<Item>, k: int, address: nat) -> bool {
    &&& 0 <= k < items.len()
    &&& is_head(source, items[k])
    &&& extent(items[k]) matches Some(e)
    &&& e.start == address
}

/// Whether the item at place `k` is the label of a jump table, and right in front of what
/// is at `address`.
pub open spec fn is_table_label_in_front(
    source: Source,
    items: Seq<Item>,
    k: int,
    address: nat,
) -> bool {
    0 <= k < items.len() && items[k] is TableLabel && is_head_at(source, items, k + 1, address)
}

/// Whether the item at place `k` is a label, and in front of what is at `address`, save
/// for the label of a jump table.
pub open spec fn is_label_in_front(
    source: Source,
    items: Seq<Item>,
    k: int,
    address: nat,
) -> bool {
    0 <= k < items.len() && items[k] is Label && (is_head_at(source, items, k + 1, address)
        || is_table_label_in_front(source, items, k + 1, address))
}

/// Whether the item at place `k` opens the function, and is in front of what is at
/// `address`, save for labels.
pub open spec fn is_opening_in_front(
    source: Source,
    items: Seq<Item>,
    k: int,
    address: nat,
) -> bool {
    0 <= k < items.len() && items[k] is Opening && (is_head_at(source, items, k + 1, address)
        || is_table_label_in_front(source, items, k + 1, address) || is_label_in_front(
        source,
        items,
        k + 1,
        address,
    ))
}

/// Whether the labels for `address` are there, in front of place `k`: the opening of the
/// function, the label, and the label of a jump table, whatever jump table `address` is
/// in.
pub open spec fn are_labels_before(
    source: Source,
    items: Seq<Item>,
    k: int,
    address: nat,
) -> bool {
    let tables = if is_none(symbols_of(source), table_at(address)) {
        0int
    } else {
        1int
    };
    let labels = if is_none(symbols_of(source), label_at(address)) {
        0int
    } else {
        1int
    };
    &&& tables == 1 ==> 1 <= k && (items[k - 1] matches Item::TableLabel { symbol } && is_one(
        symbols_of(source),
        table_at(address),
        symbol,
    ))
    &&& labels == 1 ==> 1 + tables <= k && (items[k - 1 - tables] matches Item::Label {
        address: a,
        name,
    } && a == address && is_label_of(source, address, name))
    &&& address == source.function.first_instruction_address ==> 1 + tables + labels <= k
        && items[k - 1 - tables - labels] is Opening
}

/// Whether the labels that belong in front of what is at `address` are in front of place
/// `k`. No two pool constants are there, and none that the function loads, but at its
/// very beginning.
pub open spec fn are_labels_in_front(
    source: Source,
    items: Seq<Item>,
    k: int,
    address: nat,
) -> bool {
    &&& !are_several(symbols_of(source), constant_at(address))
    &&& source.function.pool_constants@.contains(address as u32) ==> address
        == source.function.start_address
    &&& are_labels_before(source, items, k, address)
}

/// Whether `name` is that of the only label at `address`.
pub open spec fn is_label_of(source: Source, address: nat, name: Seq<char>) -> bool {
    exists|s: SymbolView| #[trigger]
        is_one(symbols_of(source), label_at(address), s) && s.name == name
}

/// The size of a piece of data.
pub open spec fn bytes_of(data: SymData) -> Option<nat> {
    match data {
        SymData::Any => None,
        SymData::Byte { count: Some(n) } => Some(n as nat),
        SymData::Short { count: Some(n) } => Some((n + n) as nat),
        SymData::Word { count: Some(n) } => Some((n + n + n + n) as nat),
        _ => None,
    }
}

/// Whether `name` is that of the only piece of data at `address`, and `size` its size.
pub open spec fn is_data_of(
    source: Source,
    address: nat,
    symbol: SymbolView,
    name: Seq<char>,
    size: nat,
) -> bool {
    &&& is_one(symbols_of(source), data_at(address), symbol)
    &&& symbol.name == name
    &&& symbol.kind matches SymbolKind::Data(data)
    &&& bytes_of(data) == Some(size)
}

/// What is to be written for the `size` bytes at `address`, an inline table.
pub open spec fn lines_of(source: Source, address: nat, symbol: SymbolView, size: nat) -> Reply {
    source.symbols.table_reply(
        address as u32,
        symbol.kind->Data_0,
        source.code.subrange(address - source.base, address - source.base + size),
    )
}

/// A number of eight or sixteen bits as a signed number.
pub open spec fn as_signed(n: int, bits: int) -> int {
    if bits == 8 {
        if n >= 0x80 {
            n - 0x100
        } else {
            n
        }
    } else {
        if n >= 0x8000 {
            n - 0x10000
        } else {
            n
        }
    }
}

/// Where an entry of a jump table leads: that far from the table, and two bytes further
/// for `add pc`, without the lowest bit.
pub open spec fn destination_of(
    table: SymbolView,
    value: int,
    jump: ThumbJumpTableJump,
) -> int {
    let sum = table.addr + value + (if jump is AddPc {
        2int
    } else {
        0int
    });
    let address = sum % 0x1_0000_0000;
    address - address % 2
}

/// Whether an entry is the right one, for the table that it is in and for the bytes that
/// were read for it at `start`.
pub open spec fn is_entry(
    source: Source,
    entry: Item,
    table: SymbolView,
    mode: ParseMode,
    start: nat,
) -> bool {
    let code = read_code(source, mode, start);
    let size = read_size(source, mode, start);
    &&& entry matches Item::Entry {
        address,
        taken,
        second,
        size: entry_size,
        label,
        table: name,
        jump,
    }
    &&& table.kind matches SymbolKind::JumpTable(jump_table)
    &&& jump_table.kind matches JumpTableKind::Thumb { kind, jump: table_jump }
    &&& name == table.name
    &&& jump == table_jump
    &&& match kind {
        ThumbJumpTableKind::Halfword => {
            &&& entry_size is Short && !second && address == start && taken == size
            &&& is_label_of(
                source,
                destination_of(table, as_signed(code % 0x10000, 16), jump) as nat,
                label,
            )
        },
        ThumbJumpTableKind::Byte => {
            let value = if second {
                (code / 0x100) % 0x100
            } else {
                code % 0x100
            };
            &&& entry_size is Byte
            &&& second ==> address == start + 1 && taken == size - 1
            &&& !second ==> address == start && taken == 1
            &&& is_label_of(source, destination_of(table, as_signed(value, 8), jump) as nat, label)
        },
    }
}

/// The number of the case that what is at `address`, of `size` bytes, is for.
pub open spec fn case_of(table: Option<SymbolView>, address: nat, size: nat) -> Option<nat> {
    match table {
        Some(table) => Some(((address - table.addr) / size as int) as nat),
        None => None,
    }
}

/// What the instruction in `data` at `address` refers to.
pub open spec fn reference_of(
    source: Source,
    mode: ParseMode,
    address: nat,
    data: Seq<u8>,
) -> Option<u32> {
    operand_reference(
        mode,
        address as u32,
        ParseFlags { ual: source.ual, version: ArmVersion::V5Te },
        data,
        if source.function.thumb {
            4
        } else {
            8
        },
    )
}

/// Whether an instruction is the right one, where it is in `table` or in none, and the
/// bytes are read as `mode`: what lies at its address is nothing else, and its bytes are
/// those of the module.
pub open spec fn is_instruction(
    source: Source,
    item: Item,
    table: Option<SymbolView>,
    expected: ParseMode,
) -> bool {
    &&& item matches Item::Instruction { address, mode, data, in_table }
    &&& mode == expected
    &&& in_table == (table is Some)
    &&& data.len() == read_size(source, mode, address)
    &&& is_in_module(source, address, data.len())
    &&& data == source.code.subrange(
        address - source.base,
        address - source.base + data.len(),
    )
    &&& table matches Some(t) ==> (t.kind matches SymbolKind::JumpTable(jump_table)
        && jump_table.kind is Arm)
    &&& table is None && mode != ParseMode::Data
        ==> !source.symbols.data_relocations@.contains(address as u32)
}

/// Whether what follows an instruction is right: the comment on what it refers to, if
/// there is one, and the end of its line, with the number of the case that it is for.
pub open spec fn is_instruction_followed(
    source: Source,
    items: Seq<Item>,
    k: int,
    table: Option<SymbolView>,
) -> bool {
    let address = items[k]->Instruction_address;
    let data = items[k]->Instruction_data;
    let mode = items[k]->Instruction_mode;
    let end = Item::EndOfLine { case: case_of(table, address, data.len()) };
    match source.symbols.comment_on(
        address as u32,
        reference_of(source, mode, address, data),
    ) {
        Reply::Nothing => k + 1 < items.len() && items[k + 1] == end,
        Reply::Text(text) => k + 2 < items.len() && items[k + 1] == (Item::Comment { text })
            && items[k + 2] == end,
        Reply::Failure(_) => false,
    }
}

/// Whether the item at place `k` is right, with what is in front of it and behind it.
pub open spec fn is_right(source: Source, items: Seq<Item>, k: int) -> bool {
    match items[k] {
        Item::Opening => is_opening_in_front(
            source,
            items,
            k,
            source.function.first_instruction_address as nat,
        ),
        Item::Label { address, name } => is_label_of(source, address, name) && is_label_in_front(
            source,
            items,
            k,
            address,
        ),
        Item::TableLabel { symbol } => is_one(
            symbols_of(source),
            table_at(symbol.addr as nat),
            symbol,
        ) && is_table_label_in_front(source, items, k, symbol.addr as nat),
        Item::ConstantLabel { address, name } => is_right_constant(
            source,
            items,
            k,
            address,
            name,
        ),
        Item::KnownWord { address, indented, .. } => is_right_word(
            source,
            items,
            k,
            address,
            indented,
        ),
        Item::PlainWord { address, indented, .. } => is_right_word(
            source,
            items,
            k,
            address,
            indented,
        ),
        Item::InlineTableLabel { address, taken, name } => is_right_table(
            source,
            items,
            k,
            address,
            taken,
            name,
        ),
        Item::InlineTableLines { lines } => are_right_lines(source, items, k, lines),
        Item::Entry { .. } => is_right_entry(source, items, k),
        Item::Instruction { address, .. } => is_right_instruction(source, items, k, address),
        Item::Comment { .. } => 0 < k && items[k - 1] is Instruction,
        Item::EndOfLine { .. } => 0 < k && (items[k - 1] is Instruction || items[k - 1] is Comment
            || items[k - 1] is Entry && items[k - 1]->Entry_size is Byte),
        Item::Closing => true,
    }
}

/// Whether the label of a constant is right, and in front of the constant.
pub open spec fn is_right_constant(
    source: Source,
    items: Seq<Item>,
    k: int,
    address: nat,
    name: Seq<char>,
) -> bool {
    &&& is_constant(source, address, name)
    &&& k + 1 < items.len()
    &&& is_word(source, items[k + 1], address, false)
    &&& is_head(source, items[k]) ==> are_labels_in_front(source, items, k, address)
}

/// Whether the label of an inline table is right, and in front of the table's lines.
pub open spec fn is_right_table(
    source: Source,
    items: Seq<Item>,
    k: int,
    address: nat,
    taken: nat,
    name: Seq<char>,
) -> bool {
    &&& !has_constant(source, address)
    &&& are_labels_in_front(source, items, k, address)
    &&& is_in_module(source, address, taken)
    &&& exists|s: SymbolView| #[trigger]
        is_table_listed(source, items, k, address, s, name, taken)
}

/// Whether the lines of an inline table are right, and behind its label.
pub open spec fn are_right_lines(
    source: Source,
    items: Seq<Item>,
    k: int,
    lines: Seq<char>,
) -> bool {
    &&& 0 < k
    &&& items[k - 1] is InlineTableLabel
    &&& exists|s: SymbolView| #[trigger] are_lines_behind(source, lines, items[k - 1], s)
}

/// Whether the lines are those of the inline table `symbol`, whose label is `label`.
pub open spec fn are_lines_behind(
    source: Source,
    lines: Seq<char>,
    label: Item,
    symbol: SymbolView,
) -> bool {
    label matches Item::InlineTableLabel { address, taken, name } && are_lines_of(
        source,
        lines,
        address,
        symbol,
        name,
        taken,
    )
}

/// Whether an entry of a jump table is right: for the table around it, with the number
/// of its case behind it if it is one byte, and the second one of two behind the first.
pub open spec fn is_right_entry(source: Source, items: Seq<Item>, k: int) -> bool {
    &&& items[k] matches Item::Entry { address, second, size, .. }
    &&& {
        let before = items.take(k);
        let start = if second {
            (address - 1) as nat
        } else {
            address
        };
        &&& !has_constant(source, start)
        &&& is_none(symbols_of(source), data_at(start))
        &&& table_around(before, start) matches Some(t)
        &&& is_entry(source, items[k], t, mode_behind(source, before), start)
        &&& !second ==> are_labels_in_front(source, items, k, start)
        &&& size is Byte ==> k + 1 < items.len() && items[k + 1] == (Item::EndOfLine {
            case: case_of(Some(t), address, 1),
        })
        &&& size is Byte && !second ==> k + 2 < items.len() && is_second_entry(
            items[k + 2],
            address + 1,
        )
        &&& second ==> 2 <= k && items[k - 2] is Entry
    }
}

/// Whether an instruction is right, with what is in front of it and behind it: nothing
/// else lies at its address.
pub open spec fn is_right_instruction(
    source: Source,
    items: Seq<Item>,
    k: int,
    address: nat,
) -> bool {
    let before = items.take(k);
    let table = table_around(before, address);
    &&& !has_constant(source, address)
    &&& is_none(symbols_of(source), data_at(address))
    &&& is_instruction(source, items[k], table, mode_behind(source, before))
    &&& are_labels_in_front(source, items, k, address)
    &&& is_instruction_followed(source, items, k, table)
}

/// Whether the inline table with the label at place `k` is that of `symbol`, and its
/// lines are behind the label, if there are any.
pub open spec fn is_table_listed(
    source: Source,
    items: Seq<Item>,
    k: int,
    address: nat,
    symbol: SymbolView,
    name: Seq<char>,
    size: nat,
) -> bool {
    &&& is_data_of(source, address, symbol, name, size)
    &&& match lines_of(source, address, symbol, size) {
        Reply::Text(lines) => k + 1 < items.len() && items[k + 1] == (Item::InlineTableLines {
            lines,
        }),
        Reply::Nothing => true,
        Reply::Failure(_) => false,
    }
}

/// Whether the lines are those of the inline table `symbol`.
pub open spec fn are_lines_of(
    source: Source,
    lines: Seq<char>,
    address: nat,
    symbol: SymbolView,
    name: Seq<char>,
    size: nat,
) -> bool {
    is_data_of(source, address, symbol, name, size) && lines_of(source, address, symbol, size)
        == Reply::Text(lines)
}

/// Whether an item is the second of two entries that were read together, at `address`.
pub open spec fn is_second_entry(item: Item, address: nat) -> bool {
    item matches Item::Entry { address: a, second, .. } && a == address && second
}

/// Whether the line for a word is right: behind the label of a constant, or as a data
/// word at an address that a relocation marks, in code, outside of jump tables.
pub open spec fn is_right_word(
    source: Source,
    items: Seq<Item>,
    k: int,
    address: nat,
    indented: bool,
) -> bool {
    &&& is_word(source, items[k], address, indented)
    &&& !indented ==> 0 < k && (items[k - 1] matches Item::ConstantLabel { address: a, .. } && a
        == address)
    &&& indented ==> {
        &&& !has_constant(source, address)
        &&& is_none(symbols_of(source), data_at(address))
        &&& table_around(items.take(k), address) is None
        &&& mode_behind(source, items.take(k)) != ParseMode::Data
        &&& source.symbols.data_relocations@.contains(address as u32)
        &&& are_labels_in_front(source, items, k, address)
    }
}

pub(crate) proof fn lemma_find(source: Source, address: nat)
    requires
        address <= u32::MAX,
    ensures
        is_found(source.find(address, Wanted::Label), symbols_of(source), label_at(address)),
        is_found(
            source.find(address, Wanted::PoolConstant),
            symbols_of(source),
            constant_at(address),
        ),
        is_found(source.find(address, Wanted::JumpTable), symbols_of(source), table_at(address)),
        is_found(source.find(address, Wanted::Data), symbols_of(source), data_at(address)),
{
    law_searches_find_the_only_one(symbols_of(source), address as u32);
}

pub(crate) proof fn lemma_one_holds(
    symbols: Seq<SymbolView>,
    p: spec_fn(SymbolView) -> bool,
    s: SymbolView,
)
    requires
        is_one(symbols, p, s),
    ensures
        p(s),
        !is_none(symbols, p),
{
    let i = choose|i: int| #[trigger]
        crate::symbol_laws::is_only(symbols, p, i) && symbols[i] == s;
    assert(p(symbols[i]));
}

pub(crate) proof fn lemma_fetch(source: Source, mode: ParseMode, address: nat)
    requires
        source.is_loaded(),
        source.function.start_address <= address <= source.function.end_address,
        fetch(mode, address, source.rest(address)) is Some,
    ensures
        ({
            let fetched = fetch(mode, address, source.rest(address))->0;
            &&& fetched.size == read_size(source, mode, address)
            &&& fetched.code == read_code(source, mode, address)
            &&& is_in_module(source, address, fetched.size)
            &&& address + fetched.size <= source.function.end_address
            &&& source.rest(address).take(fetched.size as int) == source.code.subrange(
                address - source.base,
                address - source.base + fetched.size,
            )
        }),
{
    let fetched = fetch(mode, address, source.rest(address))->0;
    let rest = source.rest(address);
    assert(rest.len() == source.function.end_address - address);
    assert(fetched.size <= rest.len());
    assert forall|i: int| 0 <= i < rest.len() implies rest[i] == byte_at(
        source,
        (address + i) as nat,
    ) by {}
    assert(rest.take(fetched.size as int) =~= source.code.subrange(
        address - source.base,
        address - source.base + fetched.size,
    ));
    if mode is Thumb {
        assert(rest[0] == byte_at(source, address) && rest[1] == byte_at(source, address + 1));
        if fetched.size == 4 {
            assert(rest[2] == byte_at(source, address + 2) && rest[3] == byte_at(
                source,
                address + 3,
            ));
        }
    } else if mode is Arm {
        assert(rest[0] == byte_at(source, address) && rest[1] == byte_at(source, address + 1)
            && rest[2] == byte_at(source, address + 2) && rest[3] == byte_at(source, address + 3));
    }
}

pub(crate) proof fn lemma_word(source: Source, address: nat)
    requires
        source.holds_word(address),
    ensures
        is_in_module(source, address, 4),
        source.word(address) == number_at(source, address),
{
}

proof fn lemma_right_extends(source: Source, items: Seq<Item>, more: Seq<Item>, k: int)
    requires
        0 <= k < items.len(),
        is_right(source, items, k),
    ensures
        is_right(source, items + more, k),
{
    let all = items + more;
    assert(all.take(k) =~= items.take(k));
    assert forall|i: int| 0 <= i < items.len() implies #[trigger] all[i] == items[i] by {}
    assert(all[k] == items[k]);
    lemma_labels_extend(source, items, more, k);
    if let Item::InlineTableLabel { address, taken, name } = items[k] {
        let s = choose|s: SymbolView| #[trigger]
            is_table_listed(source, items, k, address, s, name, taken);
        assert(is_table_listed(source, all, k, address, s, name, taken));
    }
}

proof fn lemma_labels_extend(source: Source, items: Seq<Item>, more: Seq<Item>, k: int)
    requires
        0 <= k <= items.len(),
    ensures
        forall|address: nat|
            are_labels_in_front(source, items, k, address) ==> #[trigger] are_labels_in_front(
                source,
                items + more,
                k,
                address,
            ),
        forall|address: nat|
            is_table_label_in_front(source, items, k, address)
                ==> #[trigger] is_table_label_in_front(source, items + more, k, address),
        forall|address: nat|
            is_label_in_front(source, items, k, address) ==> #[trigger] is_label_in_front(
                source,
                items + more,
                k,
                address,
            ),
        forall|address: nat|
            is_opening_in_front(source, items, k, address) ==> #[trigger] is_opening_in_front(
                source,
                items + more,
                k,
                address,
            ),
{
    let all = items + more;
    assert forall|i: int| 0 <= i < items.len() implies #[trigger] all[i] == items[i] by {}
}

/// Whether none of the items opens the function, or is the label of a jump table.
spec fn are_quiet(items: Seq<Item>) -> bool {
    forall|i: int|
        0 <= i < items.len() ==> !(#[trigger] items[i] is TableLabel) && !(items[i] is Opening)
}

proof fn lemma_quiet(items: Seq<Item>, more: Seq<Item>)
    requires
        are_quiet(more),
    ensures
        last_table(items + more) == last_table(items),
        is_opened(items + more) == is_opened(items),
    decreases more.len(),
{
    if more.len() == 0 {
        assert(items + more =~= items);
    } else {
        let front = more.drop_last();
        assert forall|i: int| 0 <= i < front.len() implies !(#[trigger] front[i] is TableLabel)
            && !(front[i] is Opening) by {
            assert(front[i] == more[i]);
        }
        lemma_quiet(items, front);
        assert((items + more).drop_last() =~= items + front);
        assert((items + more).last() == more[more.len() - 1]);
    }
}

/// Whether a listing that is at the cursor agrees with the items in front of it.
spec fn is_cursor_of(source: Source, before: Seq<Item>, cursor: Cursor) -> bool {
    &&& is_table_of(before, cursor.table, cursor.address)
    &&& cursor.mode == if cursor.address == source.function.first_instruction_address {
        source.main_mode()
    } else {
        mode_behind(source, before)
    }
}

/// Whether the active jump table is the last one among the items, if that reaches as far
/// as `address`.
spec fn is_table_of(before: Seq<Item>, table: Option<ActiveTable>, address: nat) -> bool {
    match table {
        Some(active) => last_table(before) == Some(active.symbol) && active.symbol.kind
            == SymbolKind::JumpTable(active.table),
        None => last_table(before) matches Some(t) ==> t.addr + table_size(t) <= address,
    }
}

proof fn lemma_table_around(before: Seq<Item>, table: Option<ActiveTable>, address: nat)
    requires
        is_table_of(before, table, address),
    ensures
        table_around(before, address) == match crate::listing::table_at(table, address) {
            Some(active) => Some(active.symbol),
            None => None,
        },
        is_table_of(before, crate::listing::table_at(table, address), address),
{
}

/// The labels in front of what lies at an address.
#[verifier::rlimit(30)]
proof fn lemma_labels(
    source: Source,
    before: Seq<Item>,
    address: nat,
    table: Option<ActiveTable>,
)
    requires
        address <= u32::MAX,
        is_table_of(before, table, address),
        label_lines(source, address, table) is Go,
        !(source.find(address, Wanted::PoolConstant) is Several),
        address == source.function.start_address || !source.is_pool_constant(address),
    ensures
        ({
            let labels = label_lines(source, address, table)->Go_items;
            let after = label_lines(source, address, table)->Go_value;
            let all = before + labels;
            &&& is_table_of(all, after, address)
            &&& is_opened(all) == (is_opened(before) || address
                == source.function.first_instruction_address)
            &&& are_labels_in_front(source, all, all.len() as int, address)
            &&& labels.len() <= 3
            &&& are_labels(source, labels, address)
        }),
{
    lemma_find(source, address);
    let labels = label_lines(source, address, table)->Go_items;
    let all = before + labels;
    let n = before.len() as int;
    let label = source.find(address, Wanted::Label);
    let found = source.find(address, Wanted::JumpTable);
    let opening: Seq<Item> = if address == source.function.first_instruction_address {
        seq![Item::Opening]
    } else {
        seq![]
    };
    let named: Seq<Item> = match label {
        crate::symbols::Found::One(symbol) => seq![
            Item::Label { address, name: symbol.name },
        ],
        _ => seq![],
    };
    let tabled: Seq<Item> = match found {
        crate::symbols::Found::One(symbol) => seq![Item::TableLabel { symbol }],
        _ => seq![],
    };
    if let crate::symbols::Found::One(symbol) = label {
        assert(is_one(symbols_of(source), label_at(address), symbol));
        lemma_one_holds(symbols_of(source), label_at(address), symbol);
    }
    if let crate::symbols::Found::One(symbol) = found {
        assert(is_one(symbols_of(source), table_at(address), symbol));
        lemma_one_holds(symbols_of(source), table_at(address), symbol);
    }
    assert(labels =~= opening + named + tabled);
    // opening
    let x = before + opening;
    assert(is_opened(x) == (is_opened(before) || address
        == source.function.first_instruction_address) && last_table(x) == last_table(before)) by {
        if opening.len() > 0 {
            assert(x.drop_last() =~= before);
            assert(x.last() is Opening);
        } else {
            assert(x =~= before);
        }
    }
    // label
    let y = x + named;
    lemma_quiet(x, named);
    // jump table
    assert(all =~= y + tabled);
    if let crate::symbols::Found::One(symbol) = found {
        assert(all.drop_last() =~= y);
        assert(all.last() == (Item::TableLabel { symbol }));
        assert(last_table(all) == Some(symbol));
        assert(is_opened(all) == is_opened(y));
    } else {
        assert(all =~= y);
    }
}

/// Whether the items are labels for `address`, in their order.
spec fn are_labels(source: Source, labels: Seq<Item>, address: nat) -> bool {
    forall|i: int|
        0 <= i < labels.len() ==> {
            &&& is_label_here(source, #[trigger] labels[i], address)
            &&& labels[i] is Opening ==> i == 0
            &&& labels[i] is TableLabel ==> i == labels.len() - 1
            &&& labels[i] is Label ==> i == labels.len() - 1 || i == labels.len() - 2 && labels[i
                + 1] is TableLabel
        }
}

/// Whether an item is one of the labels for `address`.
spec fn is_label_here(source: Source, item: Item, address: nat) -> bool {
    match item {
        Item::Opening => address == source.function.first_instruction_address,
        Item::Label { address: a, name } => a == address && is_label_of(source, address, name),
        Item::TableLabel { symbol } => symbol.addr == address && is_one(
            symbols_of(source),
            table_at(address),
            symbol,
        ),
        _ => false,
    }
}

/// Whether all items from place `n` on are right.
spec fn are_right_from(source: Source, items: Seq<Item>, n: int) -> bool {
    forall|k: int| n <= k < items.len() ==> #[trigger] is_right(source, items, k)
}

/// What is known where the lines for what lies at `address` begin, behind `before`.
spec fn is_ready(
    source: Source,
    before: Seq<Item>,
    mode: ParseMode,
    address: nat,
    fetched: Fetched,
    table: Option<ActiveTable>,
) -> bool {
    &&& source.is_loaded()
    &&& source.function.start_address <= address <= source.function.end_address
    &&& fetch(mode, address, source.rest(address)) == Some(fetched)
    &&& is_table_of(before, table, address)
    &&& mode == mode_behind(source, before)
    &&& are_labels_in_front(source, before, before.len() as int, address)
}

proof fn lemma_constant_right(source: Source, before: Seq<Item>, address: nat, name: Seq<char>)
    requires
        is_constant(source, address, name),
        constant_line(source, address, name) is Go,
        address == source.function.start_address ==> are_labels_in_front(
            source,
            before,
            before.len() as int,
            address,
        ),
    ensures
        are_right_from(
            source,
            before + constant_line(source, address, name)->Go_items,
            before.len() as int,
        ),
{
    let line = constant_line(source, address, name)->Go_items;
    let all = before + line;
    let n = before.len() as int;
    lemma_word(source, address);
    lemma_labels_extend(source, before, line, n);
    assert(line.len() == 2);
    assert(all[n] == line[0] && all[n + 1] == line[1]);
    assert(is_word(source, all[n + 1], address, false));
    assert(is_right(source, all, n));
    assert(is_right(source, all, n + 1));
}

proof fn lemma_pool_right(source: Source, before: Seq<Item>, address: nat)
    requires
        address > source.function.start_address,
        pool_lines(source, address) is Go,
    ensures
        are_right_from(
            source,
            before + pool_lines(source, address)->Go_items,
            before.len() as int,
        ),
        are_quiet(pool_lines(source, address)->Go_items),
    decreases u32::MAX + 4 - address,
{
    let pool = pool_lines(source, address)->Go_items;
    if source.is_pool_constant(address) {
        lemma_find(source, address);
        let symbol = source.find(address, Wanted::PoolConstant)->One_0;
        let line = constant_line(source, address, symbol.name)->Go_items;
        let rest = pool_lines(source, address + 4)->Go_items;
        assert(is_one(symbols_of(source), constant_at(address), symbol));
        assert(is_constant(source, address, symbol.name));
        lemma_constant_right(source, before, address, symbol.name);
        lemma_pool_right(source, before + line, address + 4);
        assert(before + pool =~= before + line + rest);
        assert forall|k: int| before.len() <= k < (before + pool).len() implies #[trigger] is_right(
            source,
            before + pool,
            k,
        ) by {
            if k < (before + line).len() {
                assert(is_right(source, before + line, k));
                lemma_right_extends(source, before + line, rest, k);
            } else {
                assert(is_right(source, before + line + rest, k));
            }
        }
        assert(line.len() == 2);
        assert(are_quiet(pool)) by {
            assert forall|i: int| 0 <= i < pool.len() implies !(#[trigger] pool[i] is TableLabel)
                && !(pool[i] is Opening) by {
                if i < 2 {
                    assert(pool[i] == line[i]);
                } else {
                    assert(pool[i] == rest[i - 2]);
                }
            }
        }
    }
}

proof fn lemma_right_lines(
    source: Source,
    items: Seq<Item>,
    k: int,
    lines: Seq<char>,
    address: nat,
    taken: nat,
    name: Seq<char>,
    symbol: SymbolView,
)
    requires
        0 < k,
        items[k - 1] == (Item::InlineTableLabel { address, taken, name }),
        are_lines_of(source, lines, address, symbol, name, taken),
    ensures
        are_right_lines(source, items, k, lines),
{
    assert(are_lines_behind(source, lines, items[k - 1], symbol));
}

proof fn lemma_inline_table_right(
    source: Source,
    before: Seq<Item>,
    mode: ParseMode,
    address: nat,
    fetched: Fetched,
    table: Option<ActiveTable>,
    symbol: SymbolView,
)
    requires
        is_ready(source, before, mode, address, fetched, table),
        !has_constant(source, address),
        is_one(symbols_of(source), data_at(address), symbol),
        inline_table_lines(source, symbol, address, address + fetched.size, table) is Go,
    ensures
        ({
            let lines = inline_table_lines(
                source,
                symbol,
                address,
                address + fetched.size,
                table,
            )->Go_items;
            are_right_from(source, before + lines, before.len() as int) && are_quiet(lines)
        }),
{
    let lines = inline_table_lines(
        source,
        symbol,
        address,
        address + fetched.size,
        table,
    )->Go_items;
    let all = before + lines;
    let n = before.len() as int;
    lemma_one_holds(symbols_of(source), data_at(address), symbol);
    lemma_labels_extend(source, before, lines, n);
    let data = symbol.kind->Data_0;
    let size = data.spec_size()->0;
    assert(bytes_of(data) == Some(size));
    assert(source.rest(address).take(size as int) =~= source.code.subrange(
        address - source.base,
        address - source.base + size,
    ));
    assert(is_data_of(source, address, symbol, symbol.name, size));
    assert(lines[0] == (Item::InlineTableLabel { address, taken: size, name: symbol.name }));
    assert(all[n] == lines[0]);
    assert(is_in_module(source, address, size));
    if lines.len() > 1 {
        assert(all[n + 1] == lines[1]);
        assert(all[n + 1 - 1] == lines[0]);
        let text = lines_of(source, address, symbol, size)->Text_0;
        assert(lines[1] == (Item::InlineTableLines { lines: text }));
        assert(are_lines_of(source, text, address, symbol, symbol.name, size));
        lemma_right_lines(source, all, n + 1, text, address, size, symbol.name, symbol);
        assert(is_right(source, all, n + 1));
    }
    assert(is_table_listed(source, all, n, address, symbol, symbol.name, size));
    assert(is_right_table(source, all, n, address, size, symbol.name));
    assert(is_right(source, all, n));
}

proof fn lemma_data_word_right(
    source: Source,
    before: Seq<Item>,
    mode: ParseMode,
    address: nat,
    fetched: Fetched,
    table: Option<ActiveTable>,
)
    requires
        is_ready(source, before, mode, address, fetched, table),
        !has_constant(source, address),
        is_none(symbols_of(source), data_at(address)),
        crate::listing::table_at(table, address) is None,
        mode != ParseMode::Data,
        source.symbols.data_relocations@.contains(address as u32),
        data_word_line(source, address) is Go,
    ensures
        are_right_from(
            source,
            before + data_word_line(source, address)->Go_items,
            before.len() as int,
        ),
        are_quiet(data_word_line(source, address)->Go_items),
{
    let lines = data_word_line(source, address)->Go_items;
    let all = before + lines;
    let n = before.len() as int;
    lemma_labels_extend(source, before, lines, n);
    lemma_table_around(before, table, address);
    lemma_word(source, address);
    assert(all.take(n) =~= before);
    assert(all[n] == lines[0]);
    assert(lines.len() == 1);
    assert(is_right(source, all, n));
}

proof fn lemma_instruction_right(
    source: Source,
    before: Seq<Item>,
    mode: ParseMode,
    address: nat,
    fetched: Fetched,
    table: Option<ActiveTable>,
)
    requires
        is_ready(source, before, mode, address, fetched, table),
        !has_constant(source, address),
        is_none(symbols_of(source), data_at(address)),
        ({
            let active = crate::listing::table_at(table, address);
            &&& active matches Some(t) ==> t.table.kind is Arm
            &&& active is None && mode != ParseMode::Data
                ==> !source.symbols.data_relocations@.contains(address as u32)
            &&& instruction_line(source, mode, address, fetched.size, active) is Go
        }),
    ensures
        ({
            let active = crate::listing::table_at(table, address);
            let lines = instruction_line(source, mode, address, fetched.size, active)->Go_items;
            are_right_from(source, before + lines, before.len() as int) && are_quiet(lines)
        }),
{
    let active = crate::listing::table_at(table, address);
    let lines = instruction_line(source, mode, address, fetched.size, active)->Go_items;
    let all = before + lines;
    let n = before.len() as int;
    lemma_labels_extend(source, before, lines, n);
    lemma_table_around(before, table, address);
    lemma_fetch(source, mode, address);
    let around = table_around(before, address);
    let data = source.rest(address).take(fetched.size as int);
    assert(all.take(n) =~= before);
    assert(all[n] == lines[0]);
    assert(lines[0] == (Item::Instruction { address, mode, data, in_table: active is Some }));
    assert(is_instruction(source, all[n], around, mode));
    let end = Item::EndOfLine { case: case_of(around, address, data.len()) };
    let reference = reference_of(source, mode, address, data);
    match source.symbols.comment_on(address as u32, reference) {
        Reply::Nothing => {
            assert(lines =~= seq![lines[0], end]);
            assert(all[n + 1] == lines[1]);
            assert(is_instruction_followed(source, all, n, around));
            assert(is_right(source, all, n + 1));
        },
        Reply::Text(text) => {
            assert(lines =~= seq![lines[0], Item::Comment { text }, end]);
            assert(all[n + 1] == lines[1] && all[n + 2] == lines[2]);
            assert(is_instruction_followed(source, all, n, around));
            assert(is_right(source, all, n + 1));
            assert(is_right(source, all, n + 2));
        },
        Reply::Failure(_) => {},
    }
    assert(is_right(source, all, n));
}

pub(crate) proof fn lemma_destination(symbol: SymbolView, value: int, jump: ThumbJumpTableJump)
    requires
        crate::listing::entry_fits(symbol.addr, value, jump),
    ensures
        crate::listing::even_address(crate::listing::entry_target(symbol.addr, value, jump))
            == destination_of(symbol, value, jump),
        0 <= destination_of(symbol, value, jump) <= u32::MAX,
{
    let target = crate::listing::entry_target(symbol.addr, value, jump);
    let sum = symbol.addr + value + (if jump is AddPc {
        2int
    } else {
        0int
    });
    let address = if target < 0 {
        target + 0x1_0000_0000
    } else {
        target
    };
    assert(sum == target || sum == target + 0x1_0000_0000);
    assert(sum % 0x1_0000_0000 == address);
}

proof fn lemma_entry_label(
    source: Source,
    symbol: SymbolView,
    size: EntrySize,
    value: int,
    address: nat,
    taken: nat,
    second: bool,
    jump: ThumbJumpTableJump,
)
    requires
        entry_line(source, symbol, size, value, address, taken, second, jump) is Go,
    ensures
        ({
            let items = entry_line(
                source,
                symbol,
                size,
                value,
                address,
                taken,
                second,
                jump,
            )->Go_items;
            &&& items.len() == 1
            &&& items[0] matches Item::Entry {
                address: a,
                taken: t,
                second: s,
                size: z,
                label,
                table,
                jump: j,
            }
            &&& a == address && t == taken && s == second && z == size && table == symbol.name && j
                == jump
            &&& is_label_of(source, destination_of(symbol, value, jump) as nat, label)
        }),
{
    lemma_destination(symbol, value, jump);
    let destination = destination_of(symbol, value, jump) as nat;
    lemma_find(source, destination);
    let label = source.find(destination, Wanted::Label)->One_0;
    assert(is_one(symbols_of(source), label_at(destination), label));
}

/// What is known of an entry where it is listed, behind `before`.
spec fn is_entry_ready(
    source: Source,
    before: Seq<Item>,
    mode: ParseMode,
    address: nat,
    symbol: SymbolView,
) -> bool {
    &&& !has_constant(source, address)
    &&& is_none(symbols_of(source), data_at(address))
    &&& table_around(before, address) == Some(symbol)
    &&& mode == mode_behind(source, before)
}

proof fn lemma_right_entry(
    source: Source,
    items: Seq<Item>,
    k: int,
    mode: ParseMode,
    address: nat,
    symbol: SymbolView,
)
    requires
        0 <= k < items.len(),
        is_entry_ready(source, items.take(k), mode, address, symbol),
        is_entry(source, items[k], symbol, mode, address),
        items[k] matches Item::Entry { address: a, second, size, .. } && {
            &&& !second ==> a == address && are_labels_in_front(source, items, k, address)
            &&& second ==> a == address + 1 && 2 <= k && items[k - 2] is Entry
            &&& size is Byte ==> k + 1 < items.len() && items[k + 1] == (Item::EndOfLine {
                case: case_of(Some(symbol), a, 1),
            })
            &&& size is Byte && !second ==> k + 2 < items.len() && is_second_entry(
                items[k + 2],
                a + 1,
            )
        },
    ensures
        is_right(source, items, k),
{
}

proof fn lemma_halfword_right(
    source: Source,
    before: Seq<Item>,
    mode: ParseMode,
    address: nat,
    fetched: Fetched,
    symbol: SymbolView,
    jump: ThumbJumpTableJump,
)
    requires
        is_entry_ready(source, before, mode, address, symbol),
        are_labels_in_front(source, before, before.len() as int, address),
        fetched.size == read_size(source, mode, address),
        fetched.code == read_code(source, mode, address),
        symbol.kind matches SymbolKind::JumpTable(t) && t.kind == (JumpTableKind::Thumb {
            kind: ThumbJumpTableKind::Halfword,
            jump,
        }),
        entry_line(
            source,
            symbol,
            EntrySize::Short,
            crate::decoder::signed(fetched.code % 0x10000, 0x8000),
            address,
            fetched.size,
            false,
            jump,
        ) is Go,
    ensures
        ({
            let lines = entry_line(
                source,
                symbol,
                EntrySize::Short,
                crate::decoder::signed(fetched.code % 0x10000, 0x8000),
                address,
                fetched.size,
                false,
                jump,
            )->Go_items;
            are_right_from(source, before + lines, before.len() as int) && are_quiet(lines)
        }),
{
    let value = crate::decoder::signed(fetched.code % 0x10000, 0x8000);
    let lines = entry_line(
        source,
        symbol,
        EntrySize::Short,
        value,
        address,
        fetched.size,
        false,
        jump,
    )->Go_items;
    let all = before + lines;
    let n = before.len() as int;
    lemma_labels_extend(source, before, lines, n);
    lemma_entry_label(
        source,
        symbol,
        EntrySize::Short,
        value,
        address,
        fetched.size,
        false,
        jump,
    );
    assert(all.take(n) =~= before);
    assert(all[n] == lines[0]);
    assert(value == as_signed(read_code(source, mode, address) % 0x10000, 16));
    assert(is_entry(source, all[n], symbol, mode, address));
    lemma_right_entry(source, all, n, mode, address, symbol);
}

#[verifier::rlimit(30)]
proof fn lemma_bytes_right(
    source: Source,
    before: Seq<Item>,
    mode: ParseMode,
    address: nat,
    fetched: Fetched,
    symbol: SymbolView,
    jump: ThumbJumpTableJump,
)
    requires
        is_entry_ready(source, before, mode, address, symbol),
        are_labels_in_front(source, before, before.len() as int, address),
        fetched.size == read_size(source, mode, address),
        fetched.code == read_code(source, mode, address),
        symbol.addr <= address,
        symbol.kind matches SymbolKind::JumpTable(t) && t.kind == (JumpTableKind::Thumb {
            kind: ThumbJumpTableKind::Byte,
            jump,
        }),
        byte_entry_lines(source, symbol, fetched, address, jump) is Go,
    ensures
        ({
            let lines = byte_entry_lines(source, symbol, fetched, address, jump)->Go_items;
            are_right_from(source, before + lines, before.len() as int) && are_quiet(lines)
        }),
{
    let lines = byte_entry_lines(source, symbol, fetched, address, jump)->Go_items;
    let all = before + lines;
    let n = before.len() as int;
    let code = read_code(source, mode, address);
    let first = crate::decoder::signed(fetched.code % 0x100, 0x80);
    let second = crate::decoder::signed((fetched.code / 0x100) % 0x100, 0x80);
    let taken = (fetched.size - 1) as nat;
    lemma_labels_extend(source, before, lines, n);
    lemma_entry_label(source, symbol, EntrySize::Byte, first, address, 1, false, jump);
    lemma_entry_label(source, symbol, EntrySize::Byte, second, address + 1, taken, true, jump);
    let case = (address - symbol.addr) as nat;
    let one = entry_line(
        source,
        symbol,
        EntrySize::Byte,
        first,
        address,
        1,
        false,
        jump,
    )->Go_items[0];
    let two = entry_line(
        source,
        symbol,
        EntrySize::Byte,
        second,
        address + 1,
        taken,
        true,
        jump,
    )->Go_items[0];
    assert(lines =~= seq![
        one,
        Item::EndOfLine { case: Some(case) },
        two,
        Item::EndOfLine { case: Some(case + 1) },
    ]);
    assert(all[n] == one && all[n + 1] == lines[1] && all[n + 2] == two && all[n + 3] == lines[3]);
    assert(first == as_signed(code % 0x100, 8));
    assert(second == as_signed((code / 0x100) % 0x100, 8));
    assert(case_of(Some(symbol), address, 1) == Some(case));
    assert(case_of(Some(symbol), address + 1, 1) == Some(case + 1));
    assert(all.take(n) =~= before);
    assert(is_entry(source, one, symbol, mode, address));
    lemma_right_entry(source, all, n, mode, address, symbol);
    let middle = seq![lines[0], lines[1]];
    lemma_quiet(before, middle);
    assert(all.take(n + 2) =~= before + middle);
    assert(is_entry(source, two, symbol, mode, address));
    lemma_right_entry(source, all, n + 2, mode, address, symbol);
    assert(is_right(source, all, n + 1));
    assert(is_right(source, all, n + 3));
}

proof fn lemma_code_right(
    source: Source,
    before: Seq<Item>,
    mode: ParseMode,
    address: nat,
    fetched: Fetched,
    table: Option<ActiveTable>,
)
    requires
        is_ready(source, before, mode, address, fetched, table),
        table matches Some(t) ==> t.symbol.addr <= address,
        !has_constant(source, address),
        is_none(symbols_of(source), data_at(address)),
        code_lines(source, mode, address, fetched, table) is Go,
    ensures
        ({
            let lines = code_lines(source, mode, address, fetched, table);
            &&& are_right_from(source, before + lines->Go_items, before.len() as int)
            &&& are_quiet(lines->Go_items)
            &&& lines->Go_value.table == crate::listing::table_at(table, address)
        }),
{
    lemma_table_around(before, table, address);
    lemma_fetch(source, mode, address);
    match crate::listing::table_at(table, address) {
        Some(active) => {
            if let JumpTableKind::Thumb { kind, jump } = active.table.kind {
                if kind is Halfword {
                    lemma_halfword_right(
                        source,
                        before,
                        mode,
                        address,
                        fetched,
                        active.symbol,
                        jump,
                    );
                } else {
                    lemma_bytes_right(source, before, mode, address, fetched, active.symbol, jump);
                }
            } else {
                lemma_instruction_right(source, before, mode, address, fetched, table);
            }
        },
        None => {
            if mode != ParseMode::Data && source.symbols.data_relocations@.contains(
                address as u32,
            ) {
                lemma_data_word_right(source, before, mode, address, fetched, table);
            } else {
                lemma_instruction_right(source, before, mode, address, fetched, table);
            }
        },
    }
}

proof fn lemma_content_right(
    source: Source,
    before: Seq<Item>,
    mode: ParseMode,
    address: nat,
    fetched: Fetched,
    table: Option<ActiveTable>,
)
    requires
        is_ready(source, before, mode, address, fetched, table),
        table matches Some(t) ==> t.symbol.addr <= address,
        content_lines(source, mode, address, fetched, table) is Go,
    ensures
        ({
            let lines = content_lines(source, mode, address, fetched, table);
            &&& are_right_from(source, before + lines->Go_items, before.len() as int)
            &&& are_quiet(lines->Go_items)
            &&& is_table_of(before, lines->Go_value.table, address)
            &&& lines->Go_value.table matches Some(t) ==> t.symbol.addr <= address
        }),
{
    lemma_find(source, address);
    lemma_table_around(before, table, address);
    let constant = source.find(address, Wanted::PoolConstant);
    if constant is One && source.is_pool_constant(address) {
        let symbol = constant->One_0;
        assert(is_one(symbols_of(source), constant_at(address), symbol));
        assert(is_constant(source, address, symbol.name));
        lemma_constant_right(source, before, address, symbol.name);
    } else {
        assert(!has_constant(source, address));
        match source.find(address, Wanted::Data) {
            crate::symbols::Found::One(symbol) => {
                assert(is_one(symbols_of(source), data_at(address), symbol));
                lemma_inline_table_right(source, before, mode, address, fetched, table, symbol);
            },
            _ => {
                lemma_code_right(source, before, mode, address, fetched, table);
            },
        }
    }
}

proof fn lemma_pool_stop(source: Source, address: nat)
    requires
        pool_lines(source, address) is Go,
    ensures
        address <= pool_lines(source, address)->Go_value <= u32::MAX,
        !source.is_pool_constant(pool_lines(source, address)->Go_value),
    decreases u32::MAX + 4 - address,
{
    if source.is_pool_constant(address) {
        lemma_pool_stop(source, address + 4);
    }
}

proof fn lemma_content_head(
    source: Source,
    mode: ParseMode,
    address: nat,
    fetched: Fetched,
    table: Option<ActiveTable>,
)
    requires
        source.is_loaded(),
        source.function.start_address <= address <= source.function.end_address,
        fetch(mode, address, source.rest(address)) == Some(fetched),
        address == source.function.start_address || !source.is_pool_constant(address),
    ensures
        ({
            let content = content_lines(source, mode, address, fetched, table);
            let items = items_of(content);
            &&& content is Go ==> items.len() > 0
            &&& items.len() > 0 ==> is_head_at(source, items, 0, address)
            &&& forall|i: int| 0 < i < items.len() ==> !is_head(source, #[trigger] items[i])
            &&& content matches Progress::Go { value, .. } ==> address < value.address <= address
                + value.size
        }),
{
    lemma_fetch(source, mode, address);
}

proof fn lemma_pool_heads(source: Source, address: nat)
    requires
        address > source.function.start_address,
    ensures
        forall|i: int|
            0 <= i < items_of(pool_lines(source, address)).len() ==> !is_head(
                source,
                #[trigger] items_of(pool_lines(source, address))[i],
            ),
    decreases u32::MAX + 4 - address,
{
    if address <= u32::MAX && source.is_pool_constant(address) {
        if let crate::symbols::Found::One(symbol) = source.find(address, Wanted::PoolConstant) {
            if let Progress::Go { items, .. } = constant_line(source, address, symbol.name) {
                lemma_pool_heads(source, address + 4);
                let rest = items_of(pool_lines(source, address + 4));
                assert forall|i: int| 0 <= i < (items + rest).len() implies !is_head(
                    source,
                    #[trigger] (items + rest)[i],
                ) by {
                    if i >= items.len() {
                        assert((items + rest)[i] == rest[i - items.len()]);
                    }
                }
            }
        }
    }
}

/// Whether no two of the items are the first for what was read at their addresses.
spec fn has_one_head(source: Source, items: Seq<Item>) -> bool {
    forall|i: int, j: int|
        0 <= i < j < items.len() ==> !(is_head(source, #[trigger] items[i]) && is_head(
            source,
            #[trigger] items[j],
        ))
}

proof fn lemma_step_heads(source: Source, cursor: Cursor, fetched: Fetched)
    requires
        source.is_loaded(),
        source.function.start_address <= cursor.address <= source.function.end_address,
        fetch(cursor.mode, cursor.address, source.rest(cursor.address)) == Some(fetched),
        cursor.address == source.function.start_address || !source.is_pool_constant(
            cursor.address,
        ),
    ensures
        has_one_head(source, items_of(step(source, cursor, fetched))),
{
    reveal(step);
    let address = cursor.address;
    let labels = label_lines(source, address, cursor.table);
    if let Progress::Go { items: first, value: table } = labels {
        let content = content_lines(source, cursor.mode, address, fetched, table);
        let second = items_of(content);
        lemma_content_head(source, cursor.mode, address, fetched, table);
        assert(has_one_head(source, first + second));
        if let Progress::Go { value: passed, .. } = content {
            lemma_pool_heads(source, address + passed.size);
            let third = items_of(pool_lines(source, address + passed.size));
            assert(has_one_head(source, first + second + third));
        }
    }
}

/// The labels are right where what they are for comes behind them.
proof fn lemma_labels_right(
    source: Source,
    before: Seq<Item>,
    labels: Seq<Item>,
    content: Seq<Item>,
    address: nat,
)
    requires
        labels.len() <= 3,
        are_labels(source, labels, address),
        is_head_at(source, content, 0, address),
    ensures
        forall|k: int|
            before.len() <= k < before.len() + labels.len() ==> #[trigger] is_right(
                source,
                before + labels + content,
                k,
            ),
{
    let all = before + labels + content;
    let n = before.len() as int;
    let m = labels.len() as int;
    assert(all[n + m] == content[0]);
    assert(is_head_at(source, all, n + m, address));
    assert forall|i: int| 0 <= i < m implies #[trigger] all[n + i] == labels[i] by {}
    assert forall|k: int| n <= k < n + m implies #[trigger] is_right(source, all, k) by {
        let i = k - n;
        assert(all[n + i] == labels[i]);
        if i + 1 < m {
            assert(all[n + (i + 1)] == labels[i + 1]);
        }
        if i + 2 < m {
            assert(all[n + (i + 2)] == labels[i + 2]);
        }
        if labels[i] is TableLabel {
            assert(is_table_label_in_front(source, all, k, address));
        } else if labels[i] is Label {
            if i + 1 < m {
                assert(is_table_label_in_front(source, all, k + 1, address));
            }
            assert(is_label_in_front(source, all, k, address));
        } else {
            if i + 1 < m {
                if labels[i + 1] is TableLabel {
                    assert(is_table_label_in_front(source, all, k + 1, address));
                } else {
                    if i + 2 < m {
                        assert(is_table_label_in_front(source, all, k + 2, address));
                    }
                    assert(is_label_in_front(source, all, k + 1, address));
                }
            }
            assert(is_opening_in_front(source, all, k, address));
        }
    }
}

proof fn lemma_step_right(source: Source, before: Seq<Item>, cursor: Cursor, fetched: Fetched)
    requires
        source.is_loaded(),
        source.function.start_address <= cursor.address <= source.function.end_address,
        fetch(cursor.mode, cursor.address, source.rest(cursor.address)) == Some(fetched),
        cursor.address == source.function.start_address || !source.is_pool_constant(
            cursor.address,
        ),
        is_cursor_of(source, before, cursor),
        cursor.table matches Some(t) ==> t.symbol.addr <= cursor.address,
        step(source, cursor, fetched) is Go,
    ensures
        ({
            let items = step(source, cursor, fetched)->Go_items;
            let next = step(source, cursor, fetched)->Go_value;
            &&& are_right_from(source, before + items, before.len() as int)
            &&& is_cursor_of(source, before + items, next)
            &&& next.table matches Some(t) ==> t.symbol.addr <= next.address
            &&& !source.is_pool_constant(next.address)
        }),
{
    reveal(step);
    let address = cursor.address;
    let labels = label_lines(source, address, cursor.table);
    let first = labels->Go_items;
    let table = labels->Go_value;
    lemma_find(source, address);
    lemma_labels(source, before, address, cursor.table);
    let x = before + first;
    assert(cursor.mode == mode_behind(source, x));
    assert(table matches Some(t) ==> t.symbol.addr <= address) by {
        if let crate::symbols::Found::One(symbol) = source.find(address, Wanted::JumpTable) {
            assert(is_one(symbols_of(source), table_at(address), symbol));
            lemma_one_holds(symbols_of(source), table_at(address), symbol);
        }
    }
    let content = content_lines(source, cursor.mode, address, fetched, table);
    let second = content->Go_items;
    let passed = content->Go_value;
    lemma_content_head(source, cursor.mode, address, fetched, table);
    lemma_content_right(source, x, cursor.mode, address, fetched, table);
    lemma_labels_right(source, before, first, second, address);
    let y = x + second;
    lemma_quiet(x, second);
    let behind = address + passed.size;
    let third = pool_lines(source, behind)->Go_items;
    let stop = pool_lines(source, behind)->Go_value;
    lemma_pool_right(source, y, behind);
    lemma_pool_stop(source, behind);
    let z = y + third;
    lemma_quiet(y, third);
    let items = step(source, cursor, fetched)->Go_items;
    let next = step(source, cursor, fetched)->Go_value;
    assert(before + items =~= z);
    assert(next.address == stop);
    assert(is_cursor_of(source, z, next));
    assert forall|k: int| before.len() <= k < z.len() implies #[trigger] is_right(source, z, k) by {
        if k < y.len() {
            assert(is_right(source, y, k));
            lemma_right_extends(source, y, third, k);
        }
    }
}

/// Whether every item is right that is not behind the last item but one that is the
/// first for what was read at its address.
spec fn are_right_so_far(source: Source, items: Seq<Item>) -> bool {
    forall|k: int, i: int, j: int|
        0 <= k <= i < j < items.len() && is_head(source, #[trigger] items[i]) && is_head(
            source,
            #[trigger] items[j],
        ) ==> #[trigger] is_right(source, items, k)
}

proof fn lemma_lines_right(source: Source, before: Seq<Item>, cursor: Cursor)
    requires
        source.is_loaded(),
        source.function.start_address <= cursor.address <= source.function.end_address,
        cursor.address == source.function.start_address || !source.is_pool_constant(
            cursor.address,
        ),
        is_cursor_of(source, before, cursor),
        cursor.table matches Some(t) ==> t.symbol.addr <= cursor.address,
        are_right_from(source, before, 0),
    ensures
        ({
            let lines = lines_from(source, cursor);
            &&& lines is Go ==> are_right_from(source, before + items_of(lines), 0)
            &&& lines is Fail ==> are_right_so_far(source, before + items_of(lines))
        }),
    decreases source.function.end_address - cursor.address,
{
    let lines = lines_from(source, cursor);
    if let Some(fetched) = fetch(cursor.mode, cursor.address, source.rest(cursor.address)) {
        lemma_step_advances(source, cursor);
        match step(source, cursor, fetched) {
            Progress::Go { items, value: next } => {
                lemma_step_right(source, before, cursor, fetched);
                let all = before + items;
                assert forall|k: int| 0 <= k < all.len() implies #[trigger] is_right(
                    source,
                    all,
                    k,
                ) by {
                    if k < before.len() {
                        assert(is_right(source, before, k));
                        lemma_right_extends(source, before, items, k);
                    }
                }
                lemma_lines_right(source, all, next);
                if !(lines is Stuck) {
                    assert(before + items_of(lines) =~= all + items_of(lines_from(source, next)));
                }
            },
            Progress::Fail { items, .. } => {
                lemma_step_heads(source, cursor, fetched);
                let all = before + items;
                let n = before.len() as int;
                assert forall|k: int, i: int, j: int|
                    0 <= k <= i < j < all.len() && is_head(source, #[trigger] all[i]) && is_head(
                        source,
                        #[trigger] all[j],
                    ) implies #[trigger] is_right(source, all, k) by {
                    if i >= n {
                        assert(all[i] == items[i - n] && all[j] == items[j - n]);
                    }
                    assert(is_right(source, before, k));
                    lemma_right_extends(source, before, items, k);
                }
            },
            Progress::Stuck => {},
        }
    } else {
        let all = before + items_of(lines);
        assert forall|k: int| 0 <= k < all.len() implies #[trigger] is_right(source, all, k) by {
            if k < before.len() {
                assert(is_right(source, before, k));
                lemma_right_extends(source, before, items_of(lines), k);
            } else {
                assert(all[k] is Closing);
            }
        }
    }
}

proof fn lemma_listing_right(source: Source)
    requires
        source.is_loaded(),
    ensures
        listing(source) is Go ==> are_right_from(source, items_of(listing(source)), 0),
        listing(source) is Fail ==> are_right_so_far(source, items_of(listing(source))),
{
    let none: Seq<Item> = seq![];
    lemma_lines_right(source, none, first_cursor(source));
    assert(none + items_of(listing(source)) =~= items_of(listing(source)));
}

/// Every item of a listing that does not end early is right, in terms of the bytes and
/// the symbols of the module: labels, constants, data words, inline tables, entries of
/// jump tables and instructions, with what is in front of them and behind them.
pub proof fn law_items_are_right(source: Source, k: int)
    requires
        listing(source) is Go,
        0 <= k < items_of(listing(source)).len(),
    ensures
        is_right(source, items_of(listing(source)), k),
{
    lemma_listing_right(source);
}

/// The same holds of a listing that ends early, up to the last but one item that is the
/// first for what was read at its address.
pub proof fn law_items_are_right_so_far(source: Source, k: int, i: int, j: int)
    requires
        0 <= k <= i < j < items_of(listing(source)).len(),
        is_head(source, items_of(listing(source))[i]),
        is_head(source, items_of(listing(source))[j]),
    ensures
        is_right(source, items_of(listing(source)), k),
{
    if source.is_loaded() {
        lemma_listing_right(source);
    }
}

/// Whether the labels are in front of all that was read.
spec fn have_labels(source: Source, items: Seq<Item>) -> bool {
    forall|k: int, address: nat| #[trigger]
        is_head_at(source, items, k, address) ==> are_labels_in_front(source, items, k, address)
}

proof fn lemma_step_labels(source: Source, before: Seq<Item>, cursor: Cursor, fetched: Fetched)
    requires
        source.is_loaded(),
        source.function.start_address <= cursor.address <= source.function.end_address,
        fetch(cursor.mode, cursor.address, source.rest(cursor.address)) == Some(fetched),
        cursor.address == source.function.start_address || !source.is_pool_constant(
            cursor.address,
        ),
        is_cursor_of(source, before, cursor),
        have_labels(source, before),
    ensures
        have_labels(source, before + items_of(step(source, cursor, fetched))),
{
    reveal(step);
    let a = cursor.address;
    let labels = label_lines(source, a, cursor.table);
    let first = items_of(labels);
    let items = items_of(step(source, cursor, fetched));
    let all = before + items;
    let n = before.len() as int;
    lemma_find(source, a);
    if let Progress::Go { value: table, .. } = labels {
        let content = content_lines(source, cursor.mode, a, fetched, table);
        let second = items_of(content);
        let m = n + first.len();
        lemma_content_head(source, cursor.mode, a, fetched, table);
        if second.len() > 0 {
            lemma_labels(source, before, a, cursor.table);
            let rest = items.skip(first.len() as int);
            assert(items =~= first + rest || items.len() == 0);
            if items.len() > 0 {
                assert(all =~= before + first + rest);
                lemma_labels_extend(source, before + first, rest, m);
                assert(are_labels_in_front(source, all, m, a));
            }
        }
        if let Progress::Go { value: passed, .. } = content {
            lemma_pool_heads(source, a + passed.size);
        }
    }
    assert forall|k: int, address: nat| #[trigger]
        is_head_at(source, all, k, address) implies are_labels_in_front(
        source,
        all,
        k,
        address,
    ) by {
        if k < n {
            assert(all[k] == before[k]);
            assert(is_head_at(source, before, k, address));
            lemma_labels_extend(source, before, items, k);
        } else {
            lemma_step_head_place(source, cursor, fetched, k - n);
            assert(all[k] == items[k - n]);
        }
    }
}

/// What was read in a step comes right behind its labels.
proof fn lemma_step_head_place(source: Source, cursor: Cursor, fetched: Fetched, i: int)
    requires
        source.is_loaded(),
        source.function.start_address <= cursor.address <= source.function.end_address,
        fetch(cursor.mode, cursor.address, source.rest(cursor.address)) == Some(fetched),
        cursor.address == source.function.start_address || !source.is_pool_constant(
            cursor.address,
        ),
        0 <= i < items_of(step(source, cursor, fetched)).len(),
        is_head(source, items_of(step(source, cursor, fetched))[i]),
    ensures
        ({
            let labels = label_lines(source, cursor.address, cursor.table);
            let items = items_of(step(source, cursor, fetched));
            &&& labels is Go
            &&& i == items_of(labels).len()
            &&& extent(items[i]) matches Some(e)
            &&& e.start == cursor.address
            &&& items_of(
                content_lines(
                    source,
                    cursor.mode,
                    cursor.address,
                    fetched,
                    labels->Go_value,
                ),
            ).len() > 0
        }),
{
    reveal(step);
    let labels = label_lines(source, cursor.address, cursor.table);
    let first = items_of(labels);
    let items = items_of(step(source, cursor, fetched));
    assert forall|j: int| 0 <= j < first.len() implies !is_head(source, #[trigger] first[j]) by {}
    if let Progress::Go { value: table, .. } = labels {
        let content = content_lines(source, cursor.mode, cursor.address, fetched, table);
        let second = items_of(content);
        lemma_content_head(source, cursor.mode, cursor.address, fetched, table);
        let n = first.len() as int;
        let m = n + second.len();
        if i < n {
            assert(items[i] == first[i]);
        } else if i < m {
            assert(items[i] == second[i - n]);
        } else if let Progress::Go { value: passed, .. } = content {
            lemma_pool_heads(source, cursor.address + passed.size);
            let third = items_of(pool_lines(source, cursor.address + passed.size));
            assert(items[i] == third[i - m]);
        }
    } else {
        assert(items[i] == first[i]);
    }
}

proof fn lemma_lines_labels(source: Source, before: Seq<Item>, cursor: Cursor)
    requires
        source.is_loaded(),
        source.function.start_address <= cursor.address <= source.function.end_address,
        cursor.address == source.function.start_address || !source.is_pool_constant(
            cursor.address,
        ),
        is_cursor_of(source, before, cursor),
        cursor.table matches Some(t) ==> t.symbol.addr <= cursor.address,
        have_labels(source, before),
    ensures
        !(lines_from(source, cursor) is Stuck) ==> have_labels(
            source,
            before + items_of(lines_from(source, cursor)),
        ),
    decreases source.function.end_address - cursor.address,
{
    let lines = lines_from(source, cursor);
    if let Some(fetched) = fetch(cursor.mode, cursor.address, source.rest(cursor.address)) {
        lemma_step_advances(source, cursor);
        lemma_step_labels(source, before, cursor, fetched);
        if let Progress::Go { items, value: next } = step(source, cursor, fetched) {
            lemma_step_right(source, before, cursor, fetched);
            lemma_lines_labels(source, before + items, next);
            if !(lines is Stuck) {
                assert(before + items_of(lines) =~= before + items + items_of(
                    lines_from(source, next),
                ));
            }
        }
    } else {
        let all = before + items_of(lines);
        assert forall|k: int, address: nat| #[trigger]
            is_head_at(source, all, k, address) implies are_labels_in_front(
            source,
            all,
            k,
            address,
        ) by {
            assert(k < before.len());
            assert(is_head_at(source, before, k, address));
            lemma_labels_extend(source, before, items_of(lines), k);
        }
    }
}

/// In front of what is read at an address are the labels that belong there, also where
/// the listing ends early.
pub proof fn law_labels_are_in_front(source: Source, k: int, address: nat)
    requires
        is_head_at(source, items_of(listing(source)), k, address),
    ensures
        are_labels_in_front(source, items_of(listing(source)), k, address),
{
    if source.is_loaded() {
        let none: Seq<Item> = seq![];
        lemma_lines_labels(source, none, first_cursor(source));
        assert(none + items_of(listing(source)) =~= items_of(listing(source)));
    }
}

/// In front of what is read at an address that has a label, that label is listed,
/// whatever jump table the address is in. Only the label of a jump table at the same
/// address may be in between.
pub proof fn law_labels_are_listed(source: Source, k: int, address: nat, symbol: SymbolView)
    requires
        is_head_at(source, items_of(listing(source)), k, address),
        is_one(symbols_of(source), label_at(address), symbol),
    ensures
        ({
            let items = items_of(listing(source));
            let label = Item::Label { address, name: symbol.name };
            ||| 1 <= k && items[k - 1] == label
            ||| 2 <= k && items[k - 2] == label && items[k - 1] is TableLabel
        }),
{
    law_labels_are_in_front(source, k, address);
    let symbols = symbols_of(source);
    lemma_one_holds(symbols, label_at(address), symbol);
    if address <= u32::MAX {
        lemma_find(source, address);
        assert forall|s: SymbolView| #[trigger] is_one(symbols, label_at(address), s) implies s
            == symbol by {
            assert(source.find(address, Wanted::Label) == crate::symbols::Found::One(s));
        }
    }
}

/// A label is listed only in front of what is read at its address, and is that of the
/// only label there.
pub proof fn law_labels_are_listed_nowhere_else(source: Source, k: int)
    requires
        listing(source) is Go,
        0 <= k < items_of(listing(source)).len(),
    ensures
        items_of(listing(source))[k] matches Item::Label { address, name } ==> {
            let items = items_of(listing(source));
            &&& is_label_of(source, address, name)
            &&& is_head_at(source, items, k + 1, address) || items[k + 1] is TableLabel
                && is_head_at(source, items, k + 2, address)
        },
{
    law_items_are_right(source, k);
}

/// In front of what is read where a jump table begins, the label of the table is listed.
pub proof fn law_tables_are_listed(source: Source, k: int, address: nat, symbol: SymbolView)
    requires
        is_head_at(source, items_of(listing(source)), k, address),
        is_one(symbols_of(source), table_at(address), symbol),
    ensures
        1 <= k,
        items_of(listing(source))[k - 1] == (Item::TableLabel { symbol }),
{
    law_labels_are_in_front(source, k, address);
    let symbols = symbols_of(source);
    lemma_one_holds(symbols, table_at(address), symbol);
    lemma_find(source, address);
    assert(source.find(address, Wanted::JumpTable) == crate::symbols::Found::One(symbol));
}

/// What is listed as an instruction holds the bytes of the module at its address: two for
/// most of Thumb code and four for a branch of two halves and for ARM code. In front of
/// the first instruction, bytes are listed as data.
pub proof fn law_instructions_hold_the_bytes_of_the_module(source: Source, k: int)
    requires
        listing(source) is Go,
        0 <= k < items_of(listing(source)).len(),
    ensures
        items_of(listing(source))[k] matches Item::Instruction { address, mode, data, .. } ==> {
            let i = address - source.base;
            &&& 0 <= i && i + data.len() <= source.code.len()
            &&& data == source.code.subrange(i, i + data.len())
            &&& mode is Arm ==> !source.function.thumb && data.len() == 4
            &&& mode is Thumb ==> source.function.thumb && data.len() == if source.code[i + 1] / 8
                == 0x1e {
                4nat
            } else {
                2nat
            }
            &&& mode is Data ==> !is_opened(items_of(listing(source)).take(k)) && data.len()
                == if address % 4 < 2 {
                4nat
            } else {
                2nat
            }
        },
{
    law_items_are_right(source, k);
}

/// Whether too few bytes are left at `end` to be read.
pub open spec fn is_too_short(source: Source, mode: ParseMode, end: nat) -> bool {
    let left = source.function.end_address - end;
    match mode {
        ParseMode::Arm => left < 4,
        ParseMode::Thumb => left < 2 || left < 4 && 0xf000 <= half_at(source, end) < 0xf800,
        ParseMode::Data => left < if end % 4 >= 2 {
            2int
        } else {
            4int
        },
    }
}

/// Whether the items list all of the function up to `end`, and what is left from there on
/// is too short to be read.
pub open spec fn is_listed_up_to(source: Source, items: Seq<Item>, end: nat) -> bool {
    &&& source.function.start_address <= end <= source.function.end_address
    &&& forall|address: nat|
        source.function.start_address <= address < end ==> #[trigger] is_listed(items, address)
    &&& is_too_short(
        source,
        if end != source.function.first_instruction_address {
            mode_behind(source, items)
        } else if source.function.thumb {
            ParseMode::Thumb
        } else {
            ParseMode::Arm
        },
        end,
    )
}

proof fn lemma_too_short(source: Source, mode: ParseMode, end: nat)
    requires
        source.is_loaded(),
        source.function.start_address <= end <= source.function.end_address,
        fetch(mode, end, source.rest(end)) is None,
    ensures
        is_too_short(source, mode, end),
{
    let rest = source.rest(end);
    assert(rest.len() == source.function.end_address - end);
    if rest.len() >= 2 {
        assert(rest[0] == byte_at(source, end) && rest[1] == byte_at(source, end + 1));
    }
}

proof fn lemma_lines_end(source: Source, before: Seq<Item>, cursor: Cursor) -> (end: nat)
    requires
        source.is_loaded(),
        source.function.start_address <= cursor.address <= source.function.end_address,
        cursor.address == source.function.start_address || !source.is_pool_constant(
            cursor.address,
        ),
        is_cursor_of(source, before, cursor),
        cursor.table matches Some(t) ==> t.symbol.addr <= cursor.address,
        forall|address: nat|
            source.function.start_address <= address < cursor.address ==> #[trigger] is_listed(
                before,
                address,
            ),
        lines_from(source, cursor) is Go,
    ensures
        is_listed_up_to(source, before + items_of(lines_from(source, cursor)), end),
    decreases source.function.end_address - cursor.address,
{
    let lines = lines_from(source, cursor);
    if let Some(fetched) = fetch(cursor.mode, cursor.address, source.rest(cursor.address)) {
        lemma_step_advances(source, cursor);
        lemma_step_right(source, before, cursor, fetched);
        lemma_step_is_listed(source, cursor, fetched);
        let items = step(source, cursor, fetched)->Go_items;
        let next = step(source, cursor, fetched)->Go_value;
        assert forall|address: nat|
            source.function.start_address <= address < next.address implies #[trigger] is_listed(
            before + items,
            address,
        ) by {
            if address < cursor.address {
                assert(is_listed(before, address));
            } else {
                assert(is_listed(items, address));
            }
            lemma_listed_concat(before, items, address);
        }
        assert(before + items_of(lines) =~= before + items + items_of(lines_from(source, next)));
        lemma_lines_end(source, before + items, next)
    } else {
        let all = before + items_of(lines);
        lemma_too_short(source, cursor.mode, cursor.address);
        lemma_quiet(before, items_of(lines));
        assert forall|address: nat|
            source.function.start_address <= address < cursor.address implies #[trigger] is_listed(
            all,
            address,
        ) by {
            assert(is_listed(before, address));
            lemma_listed_concat(before, items_of(lines), address);
        }
        cursor.address
    }
}

/// A listing that does not end early lists every byte of the function, up to an end from
/// where on too few bytes are left for one more instruction, if any.
pub proof fn law_functions_are_listed_to_their_end(source: Source) -> (end: nat)
    requires
        listing(source) is Go,
    ensures
        is_listed_up_to(source, items_of(listing(source)), end),
{
    let none: Seq<Item> = seq![];
    let end = lemma_lines_end(source, none, first_cursor(source));
    assert(none + items_of(listing(source)) =~= items_of(listing(source)));
    end
}

} // verus!
