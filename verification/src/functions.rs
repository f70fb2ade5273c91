//! Functions, and how their assembly listings are written.

use std::collections::BTreeSet;

use vstd::prelude::*;
use vstd::slice::slice_subrange;
use vstd::string::*;

use crate::decoder::{
    can_decode, fetch, instruction_text, next_instruction, operand_names, read_word,
    reference_of_operand, signed, text_of_instruction, ArmVersion, Fetched, ParseFlags, ParseMode,
};
use crate::listing::{
    byte_entry_lines, case_number, code_lines, comment_lines, constant_line, content_lines,
    data_word_line, end_of_line, entry_fits, entry_line, entry_target, entry_text, even_address,
    indentation, inline_table_lines, instruction_line, items_of, jump_offset, label_lines,
    lemma_render_concat, lemma_render_one, lemma_render_push, lemma_step_advances, lines_from,
    listing, pool_lines, render, render_all, step, word_line, ActiveTable, Cursor, EntrySize, Item,
    Passed, Problem, Progress, Source,
};
use crate::symbols::{
    sole, Found, JumpTableKind, Reply, SymData, SymJumpTable, Symbol, SymbolKind, SymbolLookup,
    SymbolMapError, ThumbJumpTableJump, ThumbJumpTableKind, Wanted,
};
use crate::text::{decimal, hex, hex_padded, push_decimal, push_hex, push_hex8};

verus! {

/// A function of a program.
#[derive(Debug)]
pub struct Function {
    pub name: String,
    /// The address of the first byte, which may belong to a constant.
    pub start_address: u32,
    /// The address behind the last byte.
    pub end_address: u32,
    pub first_instruction_address: u32,
    /// Whether the function is Thumb code.
    pub thumb: bool,
    /// The addresses of the constants that the function's instructions load.
    pub pool_constants: BTreeSet<u32>,
}

/// Why a listing ends early.
#[derive(Debug)]
pub enum AssemblyError {
    /// Several symbols of one kind share an address.
    Symbols(SymbolMapError),
    /// Something that is referred to could not be written.
    Lookup(String),
    InlineTableWithoutSize,
    PoolConstantWithoutSymbol { address: u32, function: String },
    /// No label is where the jump table entry at `address` leads.
    MissingLabel { address: u32, destination: u32 },
}

impl View for AssemblyError {
    type V = Problem;

    open spec fn view(&self) -> Problem {
        match self {
            AssemblyError::Symbols(SymbolMapError::MultipleSymbols { address }) => {
                Problem::MultipleSymbols { address: *address }
            },
            AssemblyError::Lookup(reason) => Problem::Lookup { reason: reason@ },
            AssemblyError::InlineTableWithoutSize => Problem::InlineTableWithoutSize,
            AssemblyError::PoolConstantWithoutSymbol { address, function } => {
                Problem::PoolConstantWithoutSymbol { address: *address, function: function@ }
            },
            AssemblyError::MissingLabel { address, destination } => Problem::MissingLabel {
                address: *address,
                destination: *destination,
            },
        }
    }
}

/// What there is to say of a problem.
pub open spec fn message_of(problem: Problem) -> Seq<char> {
    match problem {
        Problem::MultipleSymbols { address } => "Multiple symbols at 0x"@ + hex_padded(
            address as nat,
            8,
        ),
        Problem::Lookup { reason } => reason,
        Problem::InlineTableWithoutSize => "Inline tables must have a known size"@,
        Problem::PoolConstantWithoutSymbol { address, function } => "Pool constant at 0x"@
            + hex_padded(address as nat, 8) + " in function "@ + function + " has no symbol"@,
        Problem::MissingLabel { address, destination } => {
            "Expected label for jump table destination from 0x"@ + hex_padded(address as nat, 8)
                + " to 0x"@ + hex_padded(destination as nat, 8)
        },
    }
}

impl AssemblyError {
    pub fn message(&self) -> (res: String)
        ensures
            res@ == message_of(self@),
    {
        let mut res = String::new();
        match self {
            AssemblyError::Symbols(SymbolMapError::MultipleSymbols { address }) => {
                res.append("Multiple symbols at 0x");
                push_hex8(&mut res, *address);
            },
            AssemblyError::Lookup(reason) => {
                res.append(reason.as_str());
            },
            AssemblyError::InlineTableWithoutSize => {
                res.append("Inline tables must have a known size");
            },
            AssemblyError::PoolConstantWithoutSymbol { address, function } => {
                res.append("Pool constant at 0x");
                push_hex8(&mut res, *address);
                res.append(" in function ");
                res.append(function.as_str());
                res.append(" has no symbol");
            },
            AssemblyError::MissingLabel { address, destination } => {
                res.append("Expected label for jump table destination from 0x");
                push_hex8(&mut res, *address);
                res.append(" to 0x");
                push_hex8(&mut res, *destination);
            },
        }
        assert(res@ =~= message_of(self@));
        res
    }
}

/// How writing a part of a listing went.
enum Flow<T> {
    Go(T),
    Fail(AssemblyError),
    Stuck,
}

/// Whether `progress` went as `flow` says, and what it says was written between
/// `before` and `after`.
spec fn wrote<T, U>(
    source: Source,
    flow: Flow<T>,
    progress: Progress<U>,
    before: Seq<char>,
    after: Seq<char>,
) -> bool {
    match (flow, progress) {
        (Flow::Go(_), Progress::Go { items, .. }) => after == before + render_all(source, items),
        (Flow::Fail(error), Progress::Fail { items, problem }) => error@ == problem && after
            == before + render_all(source, items),
        (Flow::Stuck, Progress::Stuck) => true,
        _ => false,
    }
}

/// A function together with all that its listing depends on.
struct Writer<'a> {
    function: &'a Function,
    symbols: &'a SymbolLookup,
    code: &'a [u8],
    base: u32,
    ual: bool,
}

impl<'a> Writer<'a> {
    spec fn source(self) -> Source {
        Source {
            function: *self.function,
            symbols: *self.symbols,
            code: self.code@,
            base: self.base,
            ual: self.ual,
        }
    }

    fn is_pool_constant(&self, address: u32) -> (res: bool)
        ensures
            res == self.source().is_pool_constant(address as nat),
    {
        broadcast use vstd::std_specs::btree::group_btree_axioms;

        self.function.pool_constants.contains(&address)
    }

    fn holds_word(&self, address: u32) -> (res: bool)
        ensures
            res == self.source().holds_word(address as nat),
    {
        self.base <= address && self.code.len() >= 4 && (address - self.base) as usize
            <= self.code.len() - 4
    }

    fn word(&self, address: u32) -> (res: u32)
        requires
            self.source().holds_word(address as nat),
        ensures
            res == self.source().word(address as nat),
    {
        read_word(self.code, (address - self.base) as usize)
    }

    fn write_word(&self, w: &mut String, address: u32, value: u32, indented: bool) -> (res: Flow<
        (),
    >)
        ensures
            wrote(
                self.source(),
                res,
                word_line(self.source(), address as nat, value as nat, indented),
                old(w)@,
                final(w)@,
            ),
    {
        let indent = if indented {
            "    "
        } else {
            ""
        };
        match self.symbols.write_symbol(w, address, value, indent) {
            Ok(true) => {
                proof {
                    let line = self.symbols.word_reply(address, value)->Text_0;
                    lemma_render_one(
                        self.source(),
                        Item::KnownWord { address: address as nat, indented, line },
                    );
                    assert(w@ =~= old(w)@ + (indentation(indented) + line));
                }
                Flow::Go(())
            },
            Ok(false) => {
                w.append(indent);
                w.append(".word 0x");
                push_hex(w, value);
                w.append("\n");
                proof {
                    lemma_render_one(
                        self.source(),
                        Item::PlainWord { address: address as nat, indented, value: value as nat },
                    );
                    assert(w@ =~= old(w)@ + (indentation(indented) + ".word 0x"@ + hex(
                        value as nat,
                    ) + "\n"@));
                }
                Flow::Go(())
            },
            Err(reason) => {
                assert(w@ =~= old(w)@ + render_all(self.source(), seq![]));
                Flow::Fail(AssemblyError::Lookup(reason))
            },
        }
    }

    fn write_constant(&self, w: &mut String, address: u32, name: &str) -> (res: Flow<()>)
        ensures
            wrote(
                self.source(),
                res,
                constant_line(self.source(), address as nat, name@),
                old(w)@,
                final(w)@,
            ),
    {
        if !self.holds_word(address) {
            return Flow::Stuck;
        }
        let value = self.word(address);
        w.append(name);
        w.append(": ");
        let res = self.write_word(w, address, value, false);
        proof {
            let source = self.source();
            let label = Item::ConstantLabel { address: address as nat, name: name@ };
            lemma_render_one(source, label);
            match word_line(source, address as nat, value as nat, false) {
                Progress::Go { items, .. } => {
                    lemma_render_concat(source, seq![label], items);
                    assert(w@ =~= old(w)@ + render_all(source, seq![label] + items));
                },
                Progress::Fail { items, .. } => {
                    lemma_render_concat(source, seq![label], items);
                    assert(w@ =~= old(w)@ + render_all(source, seq![label] + items));
                },
                Progress::Stuck => {},
            }
        }
        res
    }

    /// Writes the pool constants from `start` on.
    fn write_pool_constants(&self, w: &mut String, start: u64) -> (res: Flow<u32>)
        requires
            start <= 2 * u32::MAX,
        ensures
            wrote(
                self.source(),
                res,
                pool_lines(self.source(), start as nat),
                old(w)@,
                final(w)@,
            ),
            res matches Flow::Go(stop) ==> ({
                let lines = pool_lines(self.source(), start as nat);
                lines matches Progress::Go { value, .. } && value == stop
            }),
    {
        let ghost source = self.source();
        let ghost mut done: Seq<Item> = seq![];
        let mut at: u64 = start;
        proof {
            lemma_behind_nothing(pool_lines(source, start as nat));
            assert(w@ =~= old(w)@ + render_all(source, done));
        }
        while at <= u32::MAX as u64
            invariant
                start <= 2 * u32::MAX,
                at <= 2 * u32::MAX + 4,
                source == self.source(),
                pool_lines(source, start as nat) == pool_lines(source, at as nat).behind(done),
                w@ == old(w)@ + render_all(source, done),
            decreases u32::MAX + 4 - at,
        {
            let address = at as u32;
            if !self.is_pool_constant(address) {
                assert(done + Seq::<Item>::empty() =~= done);
                return Flow::Go(address);
            }
            if !self.holds_word(address) {
                return Flow::Stuck;
            }
            match self.symbols.symbol_map.get_pool_constant(address) {
                Err(error) => {
                    assert(done + Seq::<Item>::empty() =~= done);
                    return Flow::Fail(AssemblyError::Symbols(error));
                },
                Ok(None) => {
                    assert(done + Seq::<Item>::empty() =~= done);
                    return Flow::Fail(
                        AssemblyError::PoolConstantWithoutSymbol {
                            address,
                            function: self.function.name.clone(),
                        },
                    );
                },
                Ok(Some(symbol)) => {
                    let ghost line = constant_line(source, address as nat, symbol.name@);
                    match self.write_constant(w, address, symbol.name.as_str()) {
                        Flow::Go(()) => {
                            proof {
                                let items = line->Go_items;
                                lemma_render_concat(source, done, items);
                                lemma_behind_twice(
                                    pool_lines(source, at as nat + 4),
                                    items,
                                    done,
                                );
                                assert(w@ =~= old(w)@ + render_all(source, done + items));
                                done = done + items;
                            }
                        },
                        Flow::Fail(error) => {
                            proof {
                                let items = line->Fail_items;
                                lemma_render_concat(source, done, items);
                                assert(w@ =~= old(w)@ + render_all(source, done + items));
                            }
                            return Flow::Fail(error);
                        },
                        Flow::Stuck => {
                            return Flow::Stuck;
                        },
                    }
                },
            }
            at += 4;
        }
        Flow::Stuck
    }

    fn write_opening(&self, w: &mut String)
        ensures
            final(w)@ == old(w)@ + render(self.source(), Item::Opening),
    {
        let name = self.function.name.as_str();
        w.append("    .global ");
        w.append(name);
        w.append("\n");
        if self.function.thumb {
            w.append("    thumb_func_start ");
        } else {
            w.append("    arm_func_start ");
        }
        w.append(name);
        w.append("\n");
        w.append(name);
        w.append(": ; 0x");
        push_hex8(w, self.function.first_instruction_address);
        w.append("\n");
        assert(w@ =~= old(w)@ + render(self.source(), Item::Opening));
    }

    fn write_label(&self, w: &mut String, address: u32, name: &str)
        ensures
            final(w)@ == old(w)@ + render(
                self.source(),
                Item::Label { address: address as nat, name: name@ },
            ),
    {
        w.append(name);
        w.append(":\n");
        assert(w@ =~= old(w)@ + render(
            self.source(),
            Item::Label { address: address as nat, name: name@ },
        ));
    }

    fn write_table_label(&self, w: &mut String, symbol: &Symbol)
        ensures
            final(w)@ == old(w)@ + render(self.source(), Item::TableLabel { symbol: symbol@ }),
    {
        w.append(symbol.name.as_str());
        w.append(": ; jump table\n");
        assert(w@ =~= old(w)@ + render(self.source(), Item::TableLabel { symbol: symbol@ }));
    }

    /// Writes the labels at `address`, and says which jump table is active behind
    /// them.
    fn write_labels(
        &self,
        w: &mut String,
        address: u32,
        table: Option<(SymJumpTable, &'a Symbol)>,
    ) -> (res: Flow<Option<(SymJumpTable, &'a Symbol)>>)
        requires
            is_behind(table, address),
        ensures
            wrote(
                self.source(),
                res,
                label_lines(self.source(), address as nat, active(table)),
                old(w)@,
                final(w)@,
            ),
            res matches Flow::Go(next) ==> is_behind(next, address) && (label_lines(
                self.source(),
                address as nat,
                active(table),
            ) matches Progress::Go { value, .. } && value == active(next)),
    {
        let ghost source = self.source();
        let ghost mut done: Seq<Item> = seq![];
        assert(w@ =~= old(w)@ + render_all(source, done));
        if address == self.function.first_instruction_address {
            self.write_opening(w);
            proof {
                lemma_render_one(source, Item::Opening);
                done = seq![Item::Opening];
            }
        }
        match self.symbols.symbol_map.get_label(address) {
            Err(error) => {
                return Flow::Fail(AssemblyError::Symbols(error));
            },
            Ok(Some(label)) => {
                self.write_label(w, address, label.name.as_str());
                proof {
                    let item = Item::Label { address: address as nat, name: label.name@ };
                    lemma_render_push(source, done, item);
                    assert(w@ =~= old(w)@ + render_all(source, done.push(item)));
                    done = done.push(item);
                }
            },
            Ok(None) => {},
        }
        match self.symbols.symbol_map.get_jump_table(address) {
            Err(error) => Flow::Fail(AssemblyError::Symbols(error)),
            Ok(Some((table, symbol))) => {
                self.write_table_label(w, symbol);
                proof {
                    let item = Item::TableLabel { symbol: symbol@ };
                    lemma_render_push(source, done, item);
                    assert(w@ =~= old(w)@ + render_all(source, done.push(item)));
                }
                Flow::Go(Some((table, symbol)))
            },
            Ok(None) => Flow::Go(table),
        }
    }

    /// Writes the entry `value` of a jump table, if it leads to an address.
    fn write_entry(
        &self,
        w: &mut String,
        symbol: &Symbol,
        short: bool,
        value: i32,
        address: u32,
        jump: ThumbJumpTableJump,
        Ghost(taken): Ghost<nat>,
        Ghost(second): Ghost<bool>,
    ) -> (res: Flow<()>)
        ensures
            wrote(
                self.source(),
                res,
                entry_line(
                    self.source(),
                    symbol@,
                    if short {
                        EntrySize::Short
                    } else {
                        EntrySize::Byte
                    },
                    value as int,
                    address as nat,
                    taken,
                    second,
                    jump,
                ),
                old(w)@,
                final(w)@,
            ),
    {
        let ghost source = self.source();
        assert(w@ =~= old(w)@ + render_all(source, seq![]));
        let origin: i64 = signed_address(symbol.addr);
        let near: i64 = origin + value as i64;
        let target: i64 = near + offset_of(jump);
        let low = i32::MIN as i64;
        let high = i32::MAX as i64;
        if near < low || near > high || target < low || target > high {
            return Flow::Stuck;
        }
        let directive = if short {
            ".short"
        } else {
            ".byte"
        };
        let ghost size = if short {
            EntrySize::Short
        } else {
            EntrySize::Byte
        };
        proof {
            if let Progress::Go { items, .. } = entry_line(
                source,
                symbol@,
                size,
                value as int,
                address as nat,
                taken,
                second,
                jump,
            ) {
                lemma_render_one(source, items[0]);
            }
        }
        let outcome = write_numerical_jump_table_entry(
            w,
            self.symbols,
            symbol,
            value,
            directive,
            address,
            jump,
        );
        match outcome {
            Ok(()) => Flow::Go(()),
            Err(error) => Flow::Fail(error),
        }
    }

    /// Writes the two entries of one byte in `code`.
    fn write_byte_entries(
        &self,
        w: &mut String,
        table: SymJumpTable,
        symbol: &'a Symbol,
        code: u32,
        address: u32,
        jump: ThumbJumpTableJump,
        Ghost(fetched): Ghost<Fetched>,
    ) -> (res: Flow<()>)
        requires
            symbol.addr <= address,
            address < u32::MAX,
            fetched.code == code,
        ensures
            wrote(
                self.source(),
                res,
                byte_entry_lines(self.source(), symbol@, fetched, address as nat, jump),
                old(w)@,
                final(w)@,
            ),
    {
        let ghost source = self.source();
        let first = sign_extend(code % 0x100, 0x80);
        let second = sign_extend((code / 0x100) % 0x100, 0x80);
        let ghost case = (address - symbol.addr) as nat;
        let ghost first_line = entry_line(
            source,
            symbol@,
            EntrySize::Byte,
            first as int,
            address as nat,
            1,
            false,
            jump,
        );
        let ghost second_line = entry_line(
            source,
            symbol@,
            EntrySize::Byte,
            second as int,
            address as nat + 1,
            (fetched.size - 1) as nat,
            true,
            jump,
        );
        match self.write_entry(w, symbol, false, first, address, jump, Ghost(1), Ghost(false)) {
            Flow::Go(()) => {},
            other => {
                return other;
            },
        }
        write_jump_table_case(w, Some((table, symbol)), 1, address);
        let ghost head = first_line->Go_items.push(Item::EndOfLine { case: Some(case) });
        proof {
            lemma_render_push(source, first_line->Go_items, Item::EndOfLine { case: Some(case) });
            assert(w@ =~= old(w)@ + render_all(source, head));
        }
        let ghost taken = (fetched.size - 1) as nat;
        let outcome = self.write_entry(
            w,
            symbol,
            false,
            second,
            address + 1,
            jump,
            Ghost(taken),
            Ghost(true),
        );
        match outcome {
            Flow::Go(()) => {},
            other => {
                proof {
                    if second_line is Fail {
                        lemma_render_concat(source, head, second_line->Fail_items);
                        assert(w@ =~= old(w)@ + render_all(
                            source,
                            head + second_line->Fail_items,
                        ));
                    }
                }
                return other;
            },
        }
        write_jump_table_case(w, Some((table, symbol)), 1, address + 1);
        proof {
            let both = head + second_line->Go_items;
            lemma_render_concat(source, head, second_line->Go_items);
            lemma_render_push(source, both, Item::EndOfLine { case: Some(case + 1) });
            assert(w@ =~= old(w)@ + render_all(
                source,
                both.push(Item::EndOfLine { case: Some(case + 1) }),
            ));
        }
        Flow::Go(())
    }

    /// Writes the table `symbol` in the middle of code. `read_to` is the end of the
    /// instruction that was read at its address.
    fn write_inline_table(
        &self,
        w: &mut String,
        data: SymData,
        symbol: &'a Symbol,
        read_to: u32,
        table: Option<(SymJumpTable, &'a Symbol)>,
    ) -> (res: Flow<Position<'a>>)
        requires
            symbol.kind == SymbolKind::Data(data),
            symbol.addr <= read_to,
            is_behind(table, symbol.addr),
            self.source().is_loaded(),
            self.function.start_address <= symbol.addr,
        ensures
            wrote(
                self.source(),
                res,
                inline_table_lines(
                    self.source(),
                    symbol@,
                    symbol.addr as nat,
                    read_to as nat,
                    active(table),
                ),
                old(w)@,
                final(w)@,
            ),
            res matches Flow::Go(position) ==> position.agrees(
                inline_table_lines(
                    self.source(),
                    symbol@,
                    symbol.addr as nat,
                    read_to as nat,
                    active(table),
                ),
                symbol.addr,
            ),
    {
        let ghost source = self.source();
        let size: u64 = match data.size() {
            Some(size) => size,
            None => {
                assert(w@ =~= old(w)@ + render_all(source, seq![]));
                return Flow::Fail(AssemblyError::InlineTableWithoutSize);
            },
        };
        let next: u64 = symbol.addr as u64 + size;
        if next < read_to as u64 || next > self.function.end_address as u64 {
            return Flow::Stuck;
        }
        let start = (symbol.addr - self.base) as usize;
        let bytes = slice_subrange(self.code, start, start + size as usize);
        assert(bytes@ =~= source.rest(symbol.addr as nat).take(size as int));
        let ghost label = Item::InlineTableLabel {
            address: symbol.addr as nat,
            taken: size as nat,
            name: symbol.name@,
        };
        w.append(symbol.name.as_str());
        w.append(": ; inline table\n");
        proof {
            lemma_render_one(source, label);
            assert(w@ =~= old(w)@ + render(source, label));
        }
        match self.symbols.write_inline_table(w, symbol.addr, data, bytes) {
            Ok(()) => {
                proof {
                    if let Reply::Text(lines) = self.symbols.table_reply(
                        symbol.addr,
                        data,
                        bytes@,
                    ) {
                        let item = Item::InlineTableLines { lines };
                        lemma_render_push(source, seq![label], item);
                        assert(w@ =~= old(w)@ + render_all(source, seq![label].push(item)));
                    }
                }
                Flow::Go(Position { address: next as u32, size: size as u32, table })
            },
            Err(reason) => Flow::Fail(AssemblyError::Lookup(reason)),
        }
    }

    /// Writes a word of data in the middle of code.
    fn write_data_word(&self, w: &mut String, address: u32) -> (res: Flow<Position<'a>>)
        ensures
            wrote(
                self.source(),
                res,
                data_word_line(self.source(), address as nat),
                old(w)@,
                final(w)@,
            ),
            res matches Flow::Go(position) ==> position.agrees(
                data_word_line(self.source(), address as nat),
                address,
            ),
    {
        if !self.holds_word(address) {
            return Flow::Stuck;
        }
        let value = self.word(address);
        match self.write_word(w, address, value, true) {
            Flow::Go(()) => {
                let next: u64 = address as u64 + 4;
                if next <= self.function.end_address as u64 {
                    Flow::Go(Position { address: next as u32, size: 4, table: None })
                } else {
                    Flow::Stuck
                }
            },
            Flow::Fail(error) => Flow::Fail(error),
            Flow::Stuck => Flow::Stuck,
        }
    }

    /// Writes the instruction of `size` bytes at `address`.
    fn write_instruction(
        &self,
        w: &mut String,
        mode: ParseMode,
        address: u32,
        size: u32,
        table: Option<(SymJumpTable, &'a Symbol)>,
    ) -> (res: Flow<Position<'a>>)
        requires
            self.is_at(mode, address),
            fetch(mode, address as nat, self.source().rest(address as nat))->0.size == size,
            is_behind(table, address),
        ensures
            wrote(
                self.source(),
                res,
                instruction_line(
                    self.source(),
                    mode,
                    address as nat,
                    size as nat,
                    active(table),
                ),
                old(w)@,
                final(w)@,
            ),
            res matches Flow::Go(position) ==> position.agrees(
                instruction_line(
                    self.source(),
                    mode,
                    address as nat,
                    size as nat,
                    active(table),
                ),
                address,
            ),
    {
        let ghost source = self.source();
        let start = (address - self.base) as usize;
        let data = slice_subrange(self.code, start, start + size as usize);
        assert(data@ =~= source.rest(address as nat).take(size as int));
        proof {
            lemma_fetch_alone(mode, address as nat, source.rest(address as nat));
        }
        let ghost item = Item::Instruction {
            address: address as nat,
            mode,
            data: data@,
            in_table: table is Some,
        };
        let flags = self.flags();
        let pc_load_offset: i32 = if self.function.thumb {
            4
        } else {
            8
        };
        if !can_decode(mode, address, flags, data, pc_load_offset) {
            return Flow::Stuck;
        }
        let text = text_of_instruction(
            mode,
            address,
            flags,
            data,
            self.symbols,
            pc_load_offset,
            true,
        );
        let reference = reference_of_operand(mode, address, flags, data, pc_load_offset);
        let ghost case = case_number(active(table), address as nat, size as nat);
        let ghost progress = instruction_line(
            source,
            mode,
            address as nat,
            size as nat,
            active(table),
        );
        proof {
            lemma_instruction_items(source, old(w)@, item, address, reference, case);
            assert(items_of(progress) == instruction_items(source, item, address, reference, case));
        }
        let outcome = write_decoded_instruction(
            w,
            self.symbols,
            mode,
            address,
            size,
            text.as_str(),
            reference,
            table,
        );
        match outcome {
            Ok(()) => Flow::Go(Position { address: address + size, size, table }),
            Err(reason) => Flow::Fail(AssemblyError::Lookup(reason)),
        }
    }

    /// Writes an entry of a jump table, a word of data, or an instruction.
    fn write_code(
        &self,
        w: &mut String,
        mode: ParseMode,
        address: u32,
        size: u32,
        code: u32,
        table: Option<(SymJumpTable, &'a Symbol)>,
    ) -> (res: Flow<Position<'a>>)
        requires
            self.is_at(mode, address),
            fetch(mode, address as nat, self.source().rest(address as nat)) == Some(
                Fetched { size: size as nat, code: code as nat },
            ),
            is_behind(table, address),
        ensures
            wrote(
                self.source(),
                res,
                code_lines(
                    self.source(),
                    mode,
                    address as nat,
                    Fetched { size: size as nat, code: code as nat },
                    active(table),
                ),
                old(w)@,
                final(w)@,
            ),
            res matches Flow::Go(position) ==> position.agrees(
                code_lines(
                    self.source(),
                    mode,
                    address as nat,
                    Fetched { size: size as nat, code: code as nat },
                    active(table),
                ),
                address,
            ),
    {
        // possibly terminate jump table
        let mut table = table;
        if let Some((jump_table, symbol)) = table {
            let end: u64 = symbol.addr as u64 + jump_table.size as u64;
            if end > u32::MAX as u64 {
                return Flow::Stuck;
            }
            if address as u64 >= end {
                table = None;
            }
        }
        if let Some((jump_table, symbol)) = table {
            if let JumpTableKind::Thumb { kind, jump } = jump_table.kind {
                let entries = match kind {
                    ThumbJumpTableKind::Halfword => {
                        let value = sign_extend(code % 0x10000, 0x8000);
                        self.write_entry(
                            w,
                            symbol,
                            true,
                            value,
                            address,
                            jump,
                            Ghost(size as nat),
                            Ghost(false),
                        )
                    },
                    ThumbJumpTableKind::Byte => {
                        let ghost fetched = Fetched { size: size as nat, code: code as nat };
                        self.write_byte_entries(
                            w,
                            jump_table,
                            symbol,
                            code,
                            address,
                            jump,
                            Ghost(fetched),
                        )
                    },
                };
                return match entries {
                    Flow::Go(()) => Flow::Go(Position { address: address + size, size, table }),
                    Flow::Fail(error) => Flow::Fail(error),
                    Flow::Stuck => Flow::Stuck,
                };
            }
        }
        // A `load` relocation applies to a data word, never to an instruction. If one
        // turns up where an instruction was expected, the word is data which no
        // instruction in the function loads, so it was never found as a pool constant.
        if table.is_none() && mode != ParseMode::Data && self.symbols.has_data_relocation(address) {
            self.write_data_word(w, address)
        } else {
            self.write_instruction(w, mode, address, size, table)
        }
    }

    /// Writes what lies at `address`, without labels.
    fn write_content(
        &self,
        w: &mut String,
        mode: ParseMode,
        address: u32,
        size: u32,
        code: u32,
        table: Option<(SymJumpTable, &'a Symbol)>,
    ) -> (res: Flow<Position<'a>>)
        requires
            self.is_at(mode, address),
            fetch(mode, address as nat, self.source().rest(address as nat)) == Some(
                Fetched { size: size as nat, code: code as nat },
            ),
            is_behind(table, address),
        ensures
            wrote(
                self.source(),
                res,
                content_lines(
                    self.source(),
                    mode,
                    address as nat,
                    Fetched { size: size as nat, code: code as nat },
                    active(table),
                ),
                old(w)@,
                final(w)@,
            ),
            res matches Flow::Go(position) ==> position.agrees(
                content_lines(
                    self.source(),
                    mode,
                    address as nat,
                    Fetched { size: size as nat, code: code as nat },
                    active(table),
                ),
                address,
            ),
    {
        assert(w@ =~= old(w)@ + render_all(self.source(), seq![]));
        // A constant pool the function's own code sits after is written behind the
        // instruction in front of it. A function whose start was moved back onto a
        // pool ahead of its code has no such instruction for its first constant.
        match self.symbols.symbol_map.get_pool_constant(address) {
            Err(error) => {
                return Flow::Fail(AssemblyError::Symbols(error));
            },
            Ok(Some(symbol)) => {
                if self.is_pool_constant(address) {
                    return match self.write_constant(w, address, symbol.name.as_str()) {
                        Flow::Go(()) => Flow::Go(
                            Position { address: address + size, size: 4, table },
                        ),
                        Flow::Fail(error) => Flow::Fail(error),
                        Flow::Stuck => Flow::Stuck,
                    };
                }
            },
            Ok(None) => {},
        }
        match self.symbols.symbol_map.get_data(address) {
            Err(error) => Flow::Fail(AssemblyError::Symbols(error)),
            Ok(Some((data, symbol))) => {
                self.write_inline_table(w, data, symbol, address + size, table)
            },
            Ok(None) => self.write_code(w, mode, address, size, code, table),
        }
    }

    /// Writes what lies at `place` and the pool constants behind it, and says where
    /// to go on.
    fn write_step(&self, w: &mut String, place: Place<'a>, size: u32, code: u32) -> (res: Flow<
        Place<'a>,
    >)
        requires
            self.is_at(place.mode, place.address),
            fetch(place.mode, place.address as nat, self.source().rest(place.address as nat))
                == Some(Fetched { size: size as nat, code: code as nat }),
            is_behind(place.table, place.address),
        ensures
            wrote(
                self.source(),
                res,
                step(
                    self.source(),
                    place@,
                    Fetched { size: size as nat, code: code as nat },
                ),
                old(w)@,
                final(w)@,
            ),
            res matches Flow::Go(next) ==> is_behind(next.table, next.address) && (step(
                self.source(),
                place@,
                Fetched { size: size as nat, code: code as nat },
            ) matches Progress::Go { value, .. } && value == next@),
    {
        let ghost source = self.source();
        let ghost fetched = Fetched { size: size as nat, code: code as nat };
        let address = place.address;
        let ghost labels = label_lines(source, address as nat, active(place.table));
        proof {
            reveal(step);
            lemma_step_advances(source, place@);
        }
        let table = match self.write_labels(w, address, place.table) {
            Flow::Go(table) => table,
            Flow::Fail(error) => {
                return Flow::Fail(error);
            },
            Flow::Stuck => {
                return Flow::Stuck;
            },
        };
        let ghost content = content_lines(
            source,
            place.mode,
            address as nat,
            fetched,
            active(table),
        );
        let position = match self.write_content(w, place.mode, address, size, code, table) {
            Flow::Go(position) => {
                proof {
                    lemma_render_concat(source, labels->Go_items, content->Go_items);
                    assert(w@ =~= old(w)@ + render_all(
                        source,
                        labels->Go_items + content->Go_items,
                    ));
                }
                position
            },
            Flow::Fail(error) => {
                proof {
                    lemma_render_concat(source, labels->Go_items, content->Fail_items);
                    assert(w@ =~= old(w)@ + render_all(
                        source,
                        labels->Go_items + content->Fail_items,
                    ));
                }
                return Flow::Fail(error);
            },
            Flow::Stuck => {
                return Flow::Stuck;
            },
        };
        let ghost lines = labels->Go_items + content->Go_items;
        let start: u64 = address as u64 + position.size as u64;
        let ghost pool = pool_lines(source, start as nat);
        let stop = match self.write_pool_constants(w, start) {
            Flow::Go(stop) => {
                proof {
                    lemma_render_concat(source, lines, pool->Go_items);
                    assert(w@ =~= old(w)@ + render_all(source, lines + pool->Go_items));
                }
                stop
            },
            Flow::Fail(error) => {
                proof {
                    lemma_render_concat(source, lines, pool->Fail_items);
                    assert(w@ =~= old(w)@ + render_all(source, lines + pool->Fail_items));
                }
                return Flow::Fail(error);
            },
            Flow::Stuck => {
                return Flow::Stuck;
            },
        };
        let mut next = position.address;
        if stop > next {
            if stop > self.function.end_address {
                return Flow::Stuck;
            }
            next = stop;
        }
        let mode = if stop == self.function.first_instruction_address {
            // No more pre-code pool constants, start disassembling
            self.main_mode()
        } else {
            place.mode
        };
        Flow::Go(Place { mode, address: next, table: position.table })
    }

    fn flags(&self) -> (res: ParseFlags)
        ensures
            res == self.source().flags(),
    {
        ParseFlags { ual: self.ual, version: ArmVersion::V5Te }
    }

    fn main_mode(&self) -> (res: ParseMode)
        ensures
            res == self.source().main_mode(),
    {
        if self.function.thumb {
            ParseMode::Thumb
        } else {
            ParseMode::Arm
        }
    }

    /// Writes the whole listing.
    fn write_listing(&self, w: &mut String) -> (res: Flow<()>)
        ensures
            wrote(self.source(), res, listing(self.source()), old(w)@, final(w)@),
    {
        let ghost source = self.source();
        let function = self.function;
        if self.base > function.start_address || function.start_address > function.end_address || (
        function.end_address - self.base) as usize > self.code.len() {
            return Flow::Stuck;
        }
        let end = (function.end_address - self.base) as usize;
        let mode = if function.start_address < function.first_instruction_address {
            ParseMode::Data
        } else {
            self.main_mode()
        };
        let mut place = Place { mode, address: function.start_address, table: None };
        let ghost mut done: Seq<Item> = seq![];
        proof {
            lemma_behind_nothing(lines_from(source, place@));
            assert(w@ =~= old(w)@ + render_all(source, done));
        }
        loop
            invariant
                source == self.source(),
                source.is_loaded(),
                end == self.function.end_address - self.base,
                self.function.start_address <= place.address <= self.function.end_address,
                is_behind(place.table, place.address),
                listing(source) == lines_from(source, place@).behind(done),
                w@ == old(w)@ + render_all(source, done),
            decreases self.function.end_address - place.address,
        {
            let rest = slice_subrange(self.code, (place.address - self.base) as usize, end);
            assert(rest@ =~= source.rest(place.address as nat));
            match next_instruction(place.mode, place.address, self.flags(), rest) {
                None => {
                    self.write_closing(w);
                    proof {
                        lemma_render_push(source, done, Item::Closing);
                        assert(done + seq![Item::Closing] =~= done.push(Item::Closing));
                        assert(w@ =~= old(w)@ + render_all(source, done + seq![Item::Closing]));
                    }
                    return Flow::Go(());
                },
                Some((next, code)) => {
                    let size = next - place.address;
                    let ghost fetched = Fetched { size: size as nat, code: code as nat };
                    let ghost lines = step(source, place@, fetched);
                    proof {
                        lemma_step_advances(source, place@);
                    }
                    match self.write_step(w, place, size, code) {
                        Flow::Go(next) => {
                            proof {
                                let items = lines->Go_items;
                                lemma_render_concat(source, done, items);
                                lemma_behind_twice(lines_from(source, next@), items, done);
                                assert(w@ =~= old(w)@ + render_all(source, done + items));
                                done = done + items;
                            }
                            place = next;
                        },
                        Flow::Fail(error) => {
                            proof {
                                let items = lines->Fail_items;
                                lemma_render_concat(source, done, items);
                                assert(w@ =~= old(w)@ + render_all(source, done + items));
                            }
                            return Flow::Fail(error);
                        },
                        Flow::Stuck => {
                            return Flow::Stuck;
                        },
                    }
                },
            }
        }
    }

    fn write_closing(&self, w: &mut String)
        ensures
            final(w)@ == old(w)@ + render(self.source(), Item::Closing),
    {
        if self.function.thumb {
            w.append("    thumb_func_end ");
        } else {
            w.append("    arm_func_end ");
        }
        w.append(self.function.name.as_str());
        w.append("\n\n");
        assert(w@ =~= old(w)@ + render(self.source(), Item::Closing));
    }

    /// Whether `address` is inside of the function, with a whole instruction at it.
    spec fn is_at(self, mode: ParseMode, address: u32) -> bool {
        &&& self.source().is_loaded()
        &&& self.function.start_address <= address < self.function.end_address
        &&& fetch(mode, address as nat, self.source().rest(address as nat)) is Some
    }
}

/// Where the listing is.
struct Place<'a> {
    mode: ParseMode,
    address: u32,
    table: Option<(SymJumpTable, &'a Symbol)>,
}

impl<'a> View for Place<'a> {
    type V = Cursor;

    closed spec fn view(&self) -> Cursor {
        Cursor { mode: self.mode, address: self.address as nat, table: active(self.table) }
    }
}

/// Where the listing is behind the lines for what lies at one address.
struct Position<'a> {
    address: u32,
    size: u32,
    table: Option<(SymJumpTable, &'a Symbol)>,
}

impl<'a> Position<'a> {
    /// Whether `progress`, the lines for what lies at `start`, ends here.
    spec fn agrees(self, progress: Progress<Passed>, start: u32) -> bool {
        &&& is_behind(self.table, start)
        &&& progress matches Progress::Go { value, .. }
        &&& value == (Passed {
            address: self.address as nat,
            size: self.size as nat,
            table: active(self.table),
        })
    }
}

/// `n`, of which `half` is the highest bit, as a signed number.
fn sign_extend(n: u32, half: u32) -> (res: i32)
    requires
        half <= 0x8000,
        n < 2 * half,
    ensures
        res == signed(n as nat, half as nat),
        -half <= res < half,
{
    if n < half {
        n as i32
    } else {
        n as i32 - 2 * (half as i32)
    }
}

/// An instruction is the same with and without what lies behind it.
proof fn lemma_fetch_alone(mode: ParseMode, address: nat, data: Seq<u8>)
    requires
        fetch(mode, address, data) is Some,
    ensures
        fetch(mode, address, data.take(fetch(mode, address, data)->0.size as int)) == fetch(
            mode,
            address,
            data,
        ),
{
}

/// The items for an instruction, with the comment on what it refers to.
spec fn instruction_items(
    source: Source,
    item: Item,
    address: u32,
    reference: Option<u32>,
    case: Option<nat>,
) -> Seq<Item> {
    let commented = seq![item] + items_of(comment_lines(source, address as nat, reference));
    if source.symbols.comment_on(address, reference) is Failure {
        commented
    } else {
        commented.push(Item::EndOfLine { case })
    }
}

proof fn lemma_instruction_items(
    source: Source,
    before: Seq<char>,
    item: Item,
    address: u32,
    reference: Option<u32>,
    case: Option<nat>,
)
    requires
        item matches Item::Instruction { .. },
    ensures
        ({
            let mode = item->Instruction_mode;
            let text = instruction_text(
                mode,
                item->Instruction_address as u32,
                source.flags(),
                item->Instruction_data,
                operand_names(source.symbols, item->Instruction_address as u32),
                source.pc_load_offset(),
                true,
            );
            let line = before + indentation(mode != ParseMode::Data) + text;
            before + render_all(source, instruction_items(source, item, address, reference, case))
                == match source.symbols.comment_on(address, reference) {
                Reply::Nothing => line + end_of_line(case),
                Reply::Text(comment) => line + comment + end_of_line(case),
                Reply::Failure(_) => line,
            }
        }),
{
    let comment = items_of(comment_lines(source, address as nat, reference));
    let all = before + render_all(
        source,
        instruction_items(source, item, address, reference, case),
    );
    lemma_render_one(source, item);
    lemma_render_concat(source, seq![item], comment);
    lemma_render_push(source, seq![item] + comment, Item::EndOfLine { case });
    match source.symbols.comment_on(address, reference) {
        Reply::Nothing => {
            assert(all =~= before + render(source, item) + end_of_line(case));
        },
        Reply::Text(text) => {
            lemma_render_one(source, Item::Comment { text });
            assert(all =~= before + render(source, item) + text + end_of_line(case));
        },
        Reply::Failure(_) => {
            assert(all =~= before + render(source, item));
        },
    }
    assert(before + render(source, item) =~= before + indentation(
        item->Instruction_mode != ParseMode::Data,
    ) + instruction_text(
        item->Instruction_mode,
        item->Instruction_address as u32,
        source.flags(),
        item->Instruction_data,
        operand_names(source.symbols, item->Instruction_address as u32),
        source.pc_load_offset(),
        true,
    ));
}

/// The jump table that is active, as a value.
pub open spec fn active(table: Option<(SymJumpTable, &Symbol)>) -> Option<ActiveTable> {
    match table {
        Some((table, symbol)) => Some(ActiveTable { table, symbol: symbol@ }),
        None => None,
    }
}

/// Whether the jump table that is active begins at `address` or in front of it.
pub open spec fn is_behind(table: Option<(SymJumpTable, &Symbol)>, address: u32) -> bool {
    table matches Some((_, symbol)) ==> symbol.addr <= address
}

fn signed_address(address: u32) -> (res: i64)
    ensures
        res == signed(address as nat, 0x8000_0000),
{
    if address < 0x8000_0000 {
        address as i64
    } else {
        address as i64 - 0x1_0000_0000
    }
}

fn offset_of(jump: ThumbJumpTableJump) -> (res: i64)
    ensures
        res == jump_offset(jump),
{
    match jump {
        ThumbJumpTableJump::AddPc => 2,
        ThumbJumpTableJump::Bx => 0,
    }
}

/// Writes the entry `value` of the jump table `sym`, which lies at `address`: the
/// distance from the table to the label that the entry leads to.
pub fn write_numerical_jump_table_entry(
    w: &mut String,
    symbols: &SymbolLookup,
    sym: &Symbol,
    value: i32,
    directive: &str,
    address: u32,
    jump: ThumbJumpTableJump,
) -> (res: Result<(), AssemblyError>)
    requires
        entry_fits(sym.addr, value as int, jump),
    ensures
        ({
            let destination = even_address(entry_target(sym.addr, value as int, jump)) as u32;
            match sole(symbols.symbol_map@, destination, Wanted::Label) {
                Found::One(label) => res is Ok && final(w)@ == old(w)@ + entry_text(
                    directive@,
                    label.name,
                    sym.name@,
                    jump,
                ),
                Found::Nothing => final(w)@ == old(w)@ && (res matches Err(e) && e@ == (
                Problem::MissingLabel { address, destination })),
                Found::Several => final(w)@ == old(w)@ && (res matches Err(e) && e@ == (
                Problem::MultipleSymbols { address: destination })),
            }
        }),
{
    let target: i64 = signed_address(sym.addr) + value as i64 + offset_of(jump);
    let unsigned: i64 = if target < 0 {
        target + 0x1_0000_0000
    } else {
        target
    };
    let destination = (unsigned - unsigned % 2) as u32;
    assert(destination == even_address(target as int));
    let label: &str = match symbols.symbol_map.get_label(destination) {
        Err(error) => {
            return Err(AssemblyError::Symbols(error));
        },
        Ok(None) => {
            return Err(AssemblyError::MissingLabel { address, destination });
        },
        Ok(Some(label)) => label.name.as_str(),
    };
    let distance = match jump {
        ThumbJumpTableJump::AddPc => "- 2",
        ThumbJumpTableJump::Bx => "+ 1",
    };
    w.append("    ");
    w.append(directive);
    w.append(" ");
    w.append(label);
    w.append(" - ");
    w.append(sym.name.as_str());
    w.append(" ");
    w.append(distance);
    w.append("\n");
    assert(w@ =~= old(w)@ + entry_text(directive@, label@, sym.name@, jump));
    Ok(())
}

/// Ends a line, with the number of the case that it is for.
pub fn write_jump_table_case(
    w: &mut String,
    jump_table: Option<(SymJumpTable, &Symbol)>,
    ins_size: u32,
    address: u32,
)
    requires
        is_behind(jump_table, address),
        jump_table is Some ==> ins_size > 0,
    ensures
        final(w)@ == old(w)@ + end_of_line(
            case_number(active(jump_table), address as nat, ins_size as nat),
        ),
{
    match jump_table {
        Some((_, symbol)) => {
            w.append(" ; case ");
            push_decimal(w, (address - symbol.addr) / ins_size);
            w.append("\n");
            assert(w@ =~= old(w)@ + (" ; case "@ + decimal(
                ((address - symbol.addr) / ins_size as int) as nat,
            ) + "\n"@));
        },
        None => {
            w.append("\n");
        },
    }
}

/// Writes the line for the instruction of `ins_size` bytes at `address`, of which
/// the decoder has said that it reads `text`, and what it refers to.
pub fn write_decoded_instruction(
    w: &mut String,
    symbols: &SymbolLookup,
    mode: ParseMode,
    address: u32,
    ins_size: u32,
    text: &str,
    reference: Option<u32>,
    jump_table: Option<(SymJumpTable, &Symbol)>,
) -> (res: Result<(), String>)
    requires
        is_behind(jump_table, address),
        jump_table is Some ==> ins_size > 0,
    ensures
        ({
            let line = old(w)@ + indentation(mode != ParseMode::Data) + text@;
            let end = end_of_line(
                case_number(active(jump_table), address as nat, ins_size as nat),
            );
            match symbols.comment_on(address, reference) {
                Reply::Nothing => res is Ok && final(w)@ == line + end,
                Reply::Text(comment) => res is Ok && final(w)@ == line + comment + end,
                Reply::Failure(reason) => final(w)@ == line && (res matches Err(e) && e@ == reason),
            }
        }),
{
    if mode != ParseMode::Data {
        w.append("    ");
    }
    w.append(text);
    proof {
        reveal_strlit("");
        assert(w@ =~= old(w)@ + indentation(mode != ParseMode::Data) + text@);
    }
    if let Some(destination) = reference {
        symbols.write_ambiguous_symbols_comment(w, address, destination)?;
    }
    write_jump_table_case(w, jump_table, ins_size, address);
    Ok(())
}

/// The listing of a function, as text.
pub struct Assembly {
    pub text: Seq<char>,
    /// Why the listing ends early, if it does.
    pub problem: Option<Problem>,
}

/// The listing of the function in `source` as text, if there is one: the function
/// and its constants lie in the module, what is listed of it ends where the function
/// does at the latest, and no sum of addresses that an instruction or a jump table
/// calls for leaves the range that it is made in.
pub open spec fn assembly_of(source: Source) -> Option<Assembly> {
    match listing(source) {
        Progress::Go { items, .. } => Some(
            Assembly { text: render_all(source, items), problem: None },
        ),
        Progress::Fail { items, problem } => Some(
            Assembly { text: render_all(source, items), problem: Some(problem) },
        ),
        Progress::Stuck => None,
    }
}

pub trait FunctionExt {
    /// The assembly listing of the function.
    spec fn assembly(
        &self,
        symbols: SymbolLookup,
        module_code: Seq<u8>,
        base_address: u32,
        ual: bool,
    ) -> Option<Assembly>;

    /// Appends the assembly listing of the function to `w`. Where the listing ends
    /// early, `w` has what is in front of the problem.
    fn write_assembly(
        &self,
        w: &mut String,
        symbols: &SymbolLookup,
        module_code: &[u8],
        base_address: u32,
        ual: bool,
    ) -> (res: Result<(), AssemblyError>)
        requires
            self.assembly(*symbols, module_code@, base_address, ual) is Some,
        ensures
            final(w)@ == old(w)@ + self.assembly(
                *symbols,
                module_code@,
                base_address,
                ual,
            )->0.text,
            match res {
                Ok(()) => self.assembly(
                    *symbols,
                    module_code@,
                    base_address,
                    ual,
                )->0.problem is None,
                Err(error) => self.assembly(
                    *symbols,
                    module_code@,
                    base_address,
                    ual,
                )->0.problem == Some(error@),
            },
    ;
}

impl FunctionExt for Function {
    open spec fn assembly(
        &self,
        symbols: SymbolLookup,
        module_code: Seq<u8>,
        base_address: u32,
        ual: bool,
    ) -> Option<Assembly> {
        assembly_of(
            Source { function: *self, symbols, code: module_code, base: base_address, ual },
        )
    }

    fn write_assembly(
        &self,
        w: &mut String,
        symbols: &SymbolLookup,
        module_code: &[u8],
        base_address: u32,
        ual: bool,
    ) -> (res: Result<(), AssemblyError>) {
        let writer = Writer {
            function: self,
            symbols,
            code: module_code,
            base: base_address,
            ual,
        };
        match writer.write_listing(w) {
            Flow::Fail(error) => Err(error),
            _ => Ok(()),
        }
    }
}

impl Function {
    /// Appends the assembly listing of the function to `w`, if there is one.
    pub fn try_write_assembly(
        &self,
        w: &mut String,
        symbols: &SymbolLookup,
        module_code: &[u8],
        base_address: u32,
        ual: bool,
    ) -> (res: Option<Result<(), AssemblyError>>)
        ensures
            match self.assembly(*symbols, module_code@, base_address, ual) {
                None => res is None && final(w)@ == old(w)@,
                Some(assembly) => {
                    &&& final(w)@ == old(w)@ + assembly.text
                    &&& res matches Some(outcome)
                    &&& match outcome {
                        Ok(()) => assembly.problem is None,
                        Err(error) => assembly.problem == Some(error@),
                    }
                },
            },
    {
        let writer = Writer {
            function: self,
            symbols,
            code: module_code,
            base: base_address,
            ual,
        };
        let mut draft = String::new();
        let ghost assembly = self.assembly(*symbols, module_code@, base_address, ual);
        assert(assembly matches Some(a) ==> Seq::<char>::empty() + a.text =~= a.text);
        match writer.write_listing(&mut draft) {
            Flow::Stuck => None,
            Flow::Go(()) => {
                w.append(draft.as_str());
                Some(Ok(()))
            },
            Flow::Fail(error) => {
                w.append(draft.as_str());
                Some(Err(error))
            },
        }
    }
}

proof fn lemma_behind_nothing<T>(progress: Progress<T>)
    ensures
        progress.behind(seq![]) == progress,
{
    match progress {
        Progress::Go { items, .. } => {
            assert(Seq::<Item>::empty() + items =~= items);
        },
        Progress::Fail { items, .. } => {
            assert(Seq::<Item>::empty() + items =~= items);
        },
        Progress::Stuck => {},
    }
}

proof fn lemma_behind_twice<T>(progress: Progress<T>, second: Seq<Item>, first: Seq<Item>)
    ensures
        progress.behind(second).behind(first) == progress.behind(first + second),
{
    match progress {
        Progress::Go { items, .. } => {
            assert(first + (second + items) =~= first + second + items);
        },
        Progress::Fail { items, .. } => {
            assert(first + (second + items) =~= first + second + items);
        },
        Progress::Stuck => {},
    }
}

} // verus!
