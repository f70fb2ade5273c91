//! What the assembly listing of a function is.
//!
//! A listing is a sequence of [`Item`]s. Which items they are is worked out
//! instruction by instruction: [`step`] gives the items for what lies at one
//! address and the address at which to go on.

use vstd::prelude::*;

use crate::decoder::{
    fetch, fits_i32, instruction_text, is_decodable, operand_names, operand_reference, signed,
    word_at, ArmVersion, Fetched, ParseFlags, ParseMode,
};
use crate::functions::Function;
use crate::symbols::{
    sole, Found, JumpTableKind, Reply, SymJumpTable, SymbolLookup, SymbolView, ThumbJumpTableJump,
    ThumbJumpTableKind, Wanted,
};
use crate::text::{decimal, hex, hex_padded};

verus! {

/// What a listing is made from.
pub struct Source {
    pub function: Function,
    pub symbols: SymbolLookup,
    /// The bytes of the module that holds the function.
    pub code: Seq<u8>,
    /// The address of the module's first byte.
    pub base: u32,
    /// Whether to use the unified syntax.
    pub ual: bool,
}

impl Source {
    /// What the function's instructions are read as.
    pub open spec fn main_mode(self) -> ParseMode {
        if self.function.thumb {
            ParseMode::Thumb
        } else {
            ParseMode::Arm
        }
    }

    /// How the function's instructions are read.
    pub open spec fn flags(self) -> ParseFlags {
        ParseFlags { ual: self.ual, version: ArmVersion::V5Te }
    }

    /// How far ahead of an instruction the program counter reads.
    pub open spec fn pc_load_offset(self) -> i32 {
        if self.function.thumb {
            4
        } else {
            8
        }
    }

    /// Whether the module holds all of the function.
    pub open spec fn is_loaded(self) -> bool {
        &&& self.base <= self.function.start_address <= self.function.end_address
        &&& self.function.end_address - self.base <= self.code.len()
    }

    /// The function's bytes from `address` on.
    pub open spec fn rest(self, address: nat) -> Seq<u8> {
        self.code.subrange(address - self.base, self.function.end_address - self.base)
    }

    /// Whether the module holds a whole word at `address`.
    pub open spec fn holds_word(self, address: nat) -> bool {
        self.base <= address && address - self.base + 4 <= self.code.len()
    }

    /// The word at `address`.
    pub open spec fn word(self, address: nat) -> nat {
        word_at(self.code, address - self.base)
    }

    /// Whether one of the function's instructions loads the constant at `address`.
    pub open spec fn is_pool_constant(self, address: nat) -> bool {
        address <= u32::MAX && self.function.pool_constants@.contains(address as u32)
    }

    /// What the symbols of the module say of `address`.
    pub open spec fn find(self, address: nat, wanted: Wanted) -> Found {
        sole(self.symbols.symbol_map@, address as u32, wanted)
    }
}

/// A jump table that the listing is in the middle of.
pub struct ActiveTable {
    pub table: SymJumpTable,
    pub symbol: SymbolView,
}

/// The size of a jump table entry.
pub enum EntrySize {
    Byte,
    Short,
}

/// A piece of a listing.
pub enum Item {
    /// The directives that open the function, and its label.
    Opening,
    Label { address: nat, name: Seq<char> },
    TableLabel { symbol: SymbolView },
    /// The label of a pool constant, in front of the constant on its line.
    ConstantLabel { address: nat, name: Seq<char> },
    /// The line for a word that refers to something known. It is indented where no
    /// label is in front of it.
    KnownWord { address: nat, indented: bool, line: Seq<char> },
    /// The line for any other word.
    PlainWord { address: nat, indented: bool, value: nat },
    /// The label of a table of `taken` bytes in the middle of code.
    InlineTableLabel { address: nat, taken: nat, name: Seq<char> },
    InlineTableLines { lines: Seq<char> },
    /// An entry of a jump table, for which `taken` bytes were read: the distance from
    /// the table to a label. It may be the second of two that were read together.
    Entry {
        address: nat,
        taken: nat,
        second: bool,
        size: EntrySize,
        label: Seq<char>,
        table: Seq<char>,
        jump: ThumbJumpTableJump,
    },
    /// An instruction, without the end of its line.
    Instruction { address: nat, mode: ParseMode, data: Seq<u8>, in_table: bool },
    Comment { text: Seq<char> },
    /// The end of a line, with the number of the case that it is for.
    EndOfLine { case: Option<nat> },
    /// The directives that close the function.
    Closing,
}

/// Why a listing ends early.
pub enum Problem {
    /// Several symbols of one kind share an address.
    MultipleSymbols { address: u32 },
    /// Something that is referred to could not be written.
    Lookup { reason: Seq<char> },
    InlineTableWithoutSize,
    PoolConstantWithoutSymbol { address: u32, function: Seq<char> },
    /// No label is where the jump table entry at `address` leads.
    MissingLabel { address: u32, destination: u32 },
}

/// How a part of a listing went.
pub enum Progress<T> {
    /// The items of the part, and what the next part needs to know.
    Go { items: Seq<Item>, value: T },
    /// The items up to the problem.
    Fail { items: Seq<Item>, problem: Problem },
    /// There is no such part: what it is about lies outside of the module or of
    /// the function, or of the range of addresses.
    Stuck,
}

impl<T> Progress<T> {
    /// The part with some items put in front of it.
    pub open spec fn behind(self, first: Seq<Item>) -> Self {
        match self {
            Progress::Go { items, value } => Progress::Go { items: first + items, value },
            Progress::Fail { items, problem } => Progress::Fail { items: first + items, problem },
            Progress::Stuck => Progress::Stuck,
        }
    }
}

/// The items of a part of a listing, up to the problem if there is one.
pub open spec fn items_of<T>(progress: Progress<T>) -> Seq<Item> {
    match progress {
        Progress::Go { items, .. } => items,
        Progress::Fail { items, .. } => items,
        Progress::Stuck => seq![],
    }
}

pub open spec fn multiple_symbols<T>(items: Seq<Item>, address: nat) -> Progress<T> {
    Progress::Fail { items, problem: Problem::MultipleSymbols { address: address as u32 } }
}

/// The line for the word `value` at `address`.
pub open spec fn word_line(
    source: Source,
    address: nat,
    value: nat,
    indented: bool,
) -> Progress<()> {
    match source.symbols.word_reply(address as u32, value as u32) {
        Reply::Nothing => Progress::Go {
            items: seq![Item::PlainWord { address, indented, value }],
            value: (),
        },
        Reply::Text(line) => Progress::Go {
            items: seq![Item::KnownWord { address, indented, line }],
            value: (),
        },
        Reply::Failure(reason) => Progress::Fail {
            items: seq![],
            problem: Problem::Lookup { reason },
        },
    }
}

/// The pool constant `name` at `address`.
pub open spec fn constant_line(source: Source, address: nat, name: Seq<char>) -> Progress<()> {
    if source.holds_word(address) {
        word_line(source, address, source.word(address), false).behind(
            seq![Item::ConstantLabel { address, name }],
        )
    } else {
        Progress::Stuck
    }
}

/// The pool constants from `address` on, and the first address behind them.
pub open spec fn pool_lines(source: Source, address: nat) -> Progress<nat>
    decreases u32::MAX + 4 - address,
{
    if address > u32::MAX {
        Progress::Stuck
    } else if !source.is_pool_constant(address) {
        Progress::Go { items: seq![], value: address }
    } else if !source.holds_word(address) {
        Progress::Stuck
    } else {
        match source.find(address, Wanted::PoolConstant) {
            Found::Several => multiple_symbols(seq![], address),
            Found::Nothing => Progress::Fail {
                items: seq![],
                problem: Problem::PoolConstantWithoutSymbol {
                    address: address as u32,
                    function: source.function.name@,
                },
            },
            Found::One(symbol) => match constant_line(source, address, symbol.name) {
                Progress::Go { items, .. } => pool_lines(source, address + 4).behind(items),
                Progress::Fail { items, problem } => Progress::Fail { items, problem },
                Progress::Stuck => Progress::Stuck,
            },
        }
    }
}

/// The labels at `address`, and the jump table that is active behind them.
pub open spec fn label_lines(source: Source, address: nat, table: Option<ActiveTable>) -> Progress<
    Option<ActiveTable>,
> {
    let opening = if address == source.function.first_instruction_address {
        seq![Item::Opening]
    } else {
        seq![]
    };
    let label = source.find(address, Wanted::Label);
    let labels = match label {
        Found::One(symbol) => opening.push(Item::Label { address, name: symbol.name }),
        _ => opening,
    };
    if label is Several {
        multiple_symbols(opening, address)
    } else {
        match source.find(address, Wanted::JumpTable) {
            Found::Several => multiple_symbols(labels, address),
            Found::Nothing => Progress::Go { items: labels, value: table },
            Found::One(symbol) => Progress::Go {
                items: labels.push(Item::TableLabel { symbol }),
                value: Some(ActiveTable { table: symbol.kind->JumpTable_0, symbol }),
            },
        }
    }
}

/// The even address that the signed number `n` stands for.
pub open spec fn even_address(n: int) -> nat {
    let address = if n < 0 {
        n + 0x1_0000_0000
    } else {
        n
    };
    (address - address % 2) as nat
}

/// How far ahead of a jump table its entries count from.
pub open spec fn jump_offset(jump: ThumbJumpTableJump) -> int {
    match jump {
        ThumbJumpTableJump::AddPc => 2,
        ThumbJumpTableJump::Bx => 0,
    }
}

/// Where the entry `value` of a jump table at `origin` leads, as a signed number.
pub open spec fn entry_target(origin: u32, value: int, jump: ThumbJumpTableJump) -> int {
    signed(origin as nat, 0x8000_0000) + value + jump_offset(jump)
}

/// Whether where an entry leads is an address, with and without the offset of its
/// jump.
pub open spec fn entry_fits(origin: u32, value: int, jump: ThumbJumpTableJump) -> bool {
    fits_i32(signed(origin as nat, 0x8000_0000) + value) && fits_i32(
        entry_target(origin, value, jump),
    )
}

/// The entry `value` of a Thumb jump table, for which `taken` bytes at `address` were
/// read, and which may be the second of two that were read together.
pub open spec fn entry_line(
    source: Source,
    symbol: SymbolView,
    size: EntrySize,
    value: int,
    address: nat,
    taken: nat,
    second: bool,
    jump: ThumbJumpTableJump,
) -> Progress<()> {
    let destination = even_address(entry_target(symbol.addr, value, jump));
    if !entry_fits(symbol.addr, value, jump) {
        Progress::Stuck
    } else {
        match source.find(destination, Wanted::Label) {
            Found::Several => multiple_symbols(seq![], destination),
            Found::Nothing => Progress::Fail {
                items: seq![],
                problem: Problem::MissingLabel {
                    address: address as u32,
                    destination: destination as u32,
                },
            },
            Found::One(label) => Progress::Go {
                items: seq![
                    Item::Entry {
                        address,
                        taken,
                        second,
                        size,
                        label: label.name,
                        table: symbol.name,
                        jump,
                    },
                ],
                value: (),
            },
        }
    }
}

/// The two entries in one halfword of a jump table with entries of one byte. All that
/// was fetched behind the first byte is for the second entry.
pub open spec fn byte_entry_lines(
    source: Source,
    symbol: SymbolView,
    fetched: Fetched,
    address: nat,
    jump: ThumbJumpTableJump,
) -> Progress<()> {
    let case = (address - symbol.addr) as nat;
    match entry_line(
        source,
        symbol,
        EntrySize::Byte,
        signed(fetched.code % 0x100, 0x80),
        address,
        1,
        false,
        jump,
    ) {
        Progress::Go { items: first, .. } => match entry_line(
            source,
            symbol,
            EntrySize::Byte,
            signed((fetched.code / 0x100) % 0x100, 0x80),
            address + 1,
            (fetched.size - 1) as nat,
            true,
            jump,
        ).behind(first.push(Item::EndOfLine { case: Some(case) })) {
            Progress::Go { items, .. } => Progress::Go {
                items: items.push(Item::EndOfLine { case: Some(case + 1) }),
                value: (),
            },
            other => other,
        },
        other => other,
    }
}

/// What is known behind the lines for what lies at one address.
pub struct Passed {
    /// Up to where the function's bytes have been read.
    pub address: nat,
    /// The size of what was written.
    pub size: nat,
    pub table: Option<ActiveTable>,
}

/// The table `symbol` at `address`, in the middle of code. `read_to` is the end of
/// the instruction that was read there.
pub open spec fn inline_table_lines(
    source: Source,
    symbol: SymbolView,
    address: nat,
    read_to: nat,
    table: Option<ActiveTable>,
) -> Progress<Passed> {
    let data = symbol.kind->Data_0;
    match data.spec_size() {
        None => Progress::Fail { items: seq![], problem: Problem::InlineTableWithoutSize },
        Some(size) => if read_to <= address + size <= source.function.end_address {
            let label = seq![Item::InlineTableLabel { address, taken: size, name: symbol.name }];
            let bytes = source.rest(address).take(size as int);
            let passed = Passed { address: address + size, size, table };
            match source.symbols.table_reply(address as u32, data, bytes) {
                Reply::Nothing => Progress::Go { items: label, value: passed },
                Reply::Text(lines) => Progress::Go {
                    items: label.push(Item::InlineTableLines { lines }),
                    value: passed,
                },
                Reply::Failure(reason) => Progress::Fail {
                    items: label,
                    problem: Problem::Lookup { reason },
                },
            }
        } else {
            Progress::Stuck
        },
    }
}

/// A word of data at `address`, in the middle of code.
pub open spec fn data_word_line(source: Source, address: nat) -> Progress<Passed> {
    if !source.holds_word(address) {
        Progress::Stuck
    } else {
        match word_line(source, address, source.word(address), true) {
            Progress::Go { items, .. } => if address + 4 <= source.function.end_address {
                Progress::Go { items, value: Passed { address: address + 4, size: 4, table: None } }
            } else {
                Progress::Stuck
            },
            Progress::Fail { items, problem } => Progress::Fail { items, problem },
            Progress::Stuck => Progress::Stuck,
        }
    }
}

/// The number of the case that the entry of size `size` at `address` is for.
pub open spec fn case_number(table: Option<ActiveTable>, address: nat, size: nat) -> Option<nat> {
    match table {
        Some(active) => Some(((address - active.symbol.addr) / size as int) as nat),
        None => None,
    }
}

/// The comment on what the instruction at `address` refers to.
pub open spec fn comment_lines(
    source: Source,
    address: nat,
    reference: Option<u32>,
) -> Progress<()> {
    match source.symbols.comment_on(address as u32, reference) {
        Reply::Nothing => Progress::Go { items: seq![], value: () },
        Reply::Text(text) => Progress::Go { items: seq![Item::Comment { text }], value: () },
        Reply::Failure(reason) => Progress::Fail {
            items: seq![],
            problem: Problem::Lookup { reason },
        },
    }
}

/// The instruction of `size` bytes at `address`.
pub open spec fn instruction_line(
    source: Source,
    mode: ParseMode,
    address: nat,
    size: nat,
    table: Option<ActiveTable>,
) -> Progress<Passed> {
    let data = source.rest(address).take(size as int);
    let instruction = Item::Instruction { address, mode, data, in_table: table is Some };
    let reference = operand_reference(
        mode,
        address as u32,
        source.flags(),
        data,
        source.pc_load_offset(),
    );
    if !is_decodable(mode, address as u32, source.flags(), data, source.pc_load_offset()) {
        Progress::Stuck
    } else {
        match comment_lines(source, address, reference).behind(seq![instruction]) {
            Progress::Go { items, .. } => Progress::Go {
                items: items.push(Item::EndOfLine { case: case_number(table, address, size) }),
                value: Passed { address: address + size, size, table },
            },
            Progress::Fail { items, problem } => Progress::Fail { items, problem },
            Progress::Stuck => Progress::Stuck,
        }
    }
}

/// The jump table that is still active at `address`.
pub open spec fn table_at(table: Option<ActiveTable>, address: nat) -> Option<ActiveTable> {
    match table {
        Some(active) if address >= active.symbol.addr + active.table.size => None,
        _ => table,
    }
}

/// An entry of a jump table, a word of data, or an instruction.
pub open spec fn code_lines(
    source: Source,
    mode: ParseMode,
    address: nat,
    fetched: Fetched,
    table: Option<ActiveTable>,
) -> Progress<Passed> {
    let active = table_at(table, address);
    let passed = Passed { address: address + fetched.size, size: fetched.size, table: active };
    if table matches Some(t) && t.symbol.addr + t.table.size > u32::MAX {
        Progress::Stuck
    } else {
        match active {
            Some(
                ActiveTable {
                    table: SymJumpTable { kind: JumpTableKind::Thumb { kind, jump }, .. },
                    symbol,
                },
            ) => {
                let entries = match kind {
                    ThumbJumpTableKind::Halfword => entry_line(
                        source,
                        symbol,
                        EntrySize::Short,
                        signed(fetched.code % 0x10000, 0x8000),
                        address,
                        fetched.size,
                        false,
                        jump,
                    ),
                    ThumbJumpTableKind::Byte => byte_entry_lines(
                        source,
                        symbol,
                        fetched,
                        address,
                        jump,
                    ),
                };
                match entries {
                    Progress::Go { items, .. } => Progress::Go { items, value: passed },
                    Progress::Fail { items, problem } => Progress::Fail { items, problem },
                    Progress::Stuck => Progress::Stuck,
                }
            },
            _ => if active is None && mode != ParseMode::Data
                && source.symbols.data_relocations@.contains(address as u32) {
                data_word_line(source, address)
            } else {
                instruction_line(source, mode, address, fetched.size, active)
            },
        }
    }
}

/// The lines for what lies at `address`, without labels.
pub open spec fn content_lines(
    source: Source,
    mode: ParseMode,
    address: nat,
    fetched: Fetched,
    table: Option<ActiveTable>,
) -> Progress<Passed> {
    let constant = source.find(address, Wanted::PoolConstant);
    if constant is Several {
        multiple_symbols(seq![], address)
    } else if constant is One && source.is_pool_constant(address) {
        match constant_line(source, address, constant->One_0.name) {
            Progress::Go { items, .. } => Progress::Go {
                items,
                value: Passed { address: address + fetched.size, size: 4, table },
            },
            Progress::Fail { items, problem } => Progress::Fail { items, problem },
            Progress::Stuck => Progress::Stuck,
        }
    } else {
        match source.find(address, Wanted::Data) {
            Found::Several => multiple_symbols(seq![], address),
            Found::One(symbol) => inline_table_lines(
                source,
                symbol,
                address,
                address + fetched.size,
                table,
            ),
            Found::Nothing => code_lines(source, mode, address, fetched, table),
        }
    }
}

/// Where a listing is.
pub struct Cursor {
    /// What the bytes at `address` are read as.
    pub mode: ParseMode,
    pub address: nat,
    pub table: Option<ActiveTable>,
}

/// The lines for what lies at the cursor, with the pool constants behind it, and
/// where to go on.
#[verifier::opaque]
pub open spec fn step(source: Source, cursor: Cursor, fetched: Fetched) -> Progress<Cursor> {
    match label_lines(source, cursor.address, cursor.table) {
        Progress::Stuck => Progress::Stuck,
        Progress::Fail { items, problem } => Progress::Fail { items, problem },
        Progress::Go { items: labels, value: table } => match content_lines(
            source,
            cursor.mode,
            cursor.address,
            fetched,
            table,
        ).behind(labels) {
            Progress::Stuck => Progress::Stuck,
            Progress::Fail { items, problem } => Progress::Fail { items, problem },
            Progress::Go { items: lines, value: passed } => match pool_lines(
                source,
                cursor.address + passed.size,
            ).behind(lines) {
                Progress::Stuck => Progress::Stuck,
                Progress::Fail { items, problem } => Progress::Fail { items, problem },
                Progress::Go { items, value: stop } => if stop > passed.address && stop
                    > source.function.end_address {
                    Progress::Stuck
                } else {
                    Progress::Go {
                        items,
                        value: Cursor {
                            mode: if stop == source.function.first_instruction_address {
                                source.main_mode()
                            } else {
                                cursor.mode
                            },
                            address: if stop > passed.address {
                                stop
                            } else {
                                passed.address
                            },
                            table: passed.table,
                        },
                    }
                },
            },
        },
    }
}

/// A step that goes on does so further ahead, but not behind the function.
pub proof fn lemma_step_advances(source: Source, cursor: Cursor)
    requires
        source.is_loaded(),
        source.function.start_address <= cursor.address <= source.function.end_address,
        fetch(cursor.mode, cursor.address, source.rest(cursor.address)) is Some,
    ensures
        step(
            source,
            cursor,
            fetch(cursor.mode, cursor.address, source.rest(cursor.address))->0,
        ) matches Progress::Go { value, .. } ==> cursor.address < value.address
            <= source.function.end_address,
{
    reveal(step);
}

/// The items from the cursor on.
pub open spec fn lines_from(source: Source, cursor: Cursor) -> Progress<()>
    recommends
        source.is_loaded(),
        source.function.start_address <= cursor.address <= source.function.end_address,
    decreases source.function.end_address - cursor.address,
    when source.is_loaded() && source.function.start_address <= cursor.address
        <= source.function.end_address
{
    match fetch(cursor.mode, cursor.address, source.rest(cursor.address)) {
        None => Progress::Go { items: seq![Item::Closing], value: () },
        Some(fetched) => match step(source, cursor, fetched) {
            Progress::Stuck => Progress::Stuck,
            Progress::Fail { items, problem } => Progress::Fail { items, problem },
            Progress::Go { items, value } => {
                proof {
                    lemma_step_advances(source, cursor);
                }
                lines_from(source, value).behind(items)
            },
        },
    }
}

/// Where a listing begins: at the function's first byte, which is read as data
/// where the function begins with constants.
pub open spec fn first_cursor(source: Source) -> Cursor {
    Cursor {
        mode: if source.function.start_address < source.function.first_instruction_address {
            ParseMode::Data
        } else {
            source.main_mode()
        },
        address: source.function.start_address as nat,
        table: None,
    }
}

/// The listing of a function.
pub open spec fn listing(source: Source) -> Progress<()> {
    if source.is_loaded() {
        lines_from(source, first_cursor(source))
    } else {
        Progress::Stuck
    }
}

pub open spec fn indentation(indented: bool) -> Seq<char> {
    if indented {
        "    "@
    } else {
        ""@
    }
}

/// The directive for an entry of a jump table.
pub open spec fn directive_of(size: EntrySize) -> Seq<char> {
    match size {
        EntrySize::Byte => ".byte"@,
        EntrySize::Short => ".short"@,
    }
}

/// The line for an entry of a jump table.
pub open spec fn entry_text(
    directive: Seq<char>,
    label: Seq<char>,
    table: Seq<char>,
    jump: ThumbJumpTableJump,
) -> Seq<char> {
    "    "@ + directive + " "@ + label + " - "@ + table + " "@ + (match jump {
        ThumbJumpTableJump::AddPc => "- 2"@,
        ThumbJumpTableJump::Bx => "+ 1"@,
    }) + "\n"@
}

/// The end of a line, with the number of the case that it is for.
pub open spec fn end_of_line(case: Option<nat>) -> Seq<char> {
    match case {
        Some(case) => " ; case "@ + decimal(case) + "\n"@,
        None => "\n"@,
    }
}

/// What an item is written as.
pub open spec fn render(source: Source, item: Item) -> Seq<char> {
    let name = source.function.name@;
    match item {
        Item::Opening => "    .global "@ + name + "\n"@ + (if source.function.thumb {
            "    thumb_func_start "@
        } else {
            "    arm_func_start "@
        }) + name + "\n"@ + name + ": ; 0x"@ + hex_padded(
            source.function.first_instruction_address as nat,
            8,
        ) + "\n"@,
        Item::Label { name, .. } => name + ":\n"@,
        Item::TableLabel { symbol } => symbol.name + ": ; jump table\n"@,
        Item::ConstantLabel { name, .. } => name + ": "@,
        Item::KnownWord { indented, line, .. } => indentation(indented) + line,
        Item::PlainWord { indented, value, .. } => indentation(indented) + ".word 0x"@ + hex(value)
            + "\n"@,
        Item::InlineTableLabel { name, .. } => name + ": ; inline table\n"@,
        Item::InlineTableLines { lines } => lines,
        Item::Entry { size, label, table, jump, .. } => entry_text(
            directive_of(size),
            label,
            table,
            jump,
        ),
        Item::Instruction { address, mode, data, .. } => indentation(mode != ParseMode::Data)
            + instruction_text(
            mode,
            address as u32,
            source.flags(),
            data,
            operand_names(source.symbols, address as u32),
            source.pc_load_offset(),
            true,
        ),
        Item::Comment { text } => text,
        Item::EndOfLine { case } => end_of_line(case),
        Item::Closing => (if source.function.thumb {
            "    thumb_func_end "@
        } else {
            "    arm_func_end "@
        }) + name + "\n\n"@,
    }
}

/// What some items are written as.
pub open spec fn render_all(source: Source, items: Seq<Item>) -> Seq<char>
    decreases items.len(),
{
    if items.len() == 0 {
        seq![]
    } else {
        render_all(source, items.drop_last()) + render(source, items.last())
    }
}

pub proof fn lemma_render_push(source: Source, items: Seq<Item>, item: Item)
    ensures
        render_all(source, items.push(item)) == render_all(source, items) + render(source, item),
{
    assert(items.push(item).drop_last() =~= items);
}

pub proof fn lemma_render_one(source: Source, item: Item)
    ensures
        render_all(source, seq![item]) == render(source, item),
{
    lemma_render_push(source, seq![], item);
    assert(seq![item] =~= Seq::<Item>::empty().push(item));
    assert(render_all(source, seq![]) =~= seq![]);
    assert(render_all(source, seq![item]) =~= render(source, item));
}

pub proof fn lemma_render_concat(source: Source, first: Seq<Item>, second: Seq<Item>)
    ensures
        render_all(source, first + second) == render_all(source, first) + render_all(
            source,
            second,
        ),
    decreases second.len(),
{
    if second.len() == 0 {
        assert(first + second =~= first);
        assert(render_all(source, first) + render_all(source, second) =~= render_all(
            source,
            first,
        ));
    } else {
        lemma_render_concat(source, first, second.drop_last());
        assert((first + second).drop_last() =~= first + second.drop_last());
        assert(render_all(source, first + second) =~= render_all(source, first) + render_all(
            source,
            second,
        ));
    }
}

} // verus!
