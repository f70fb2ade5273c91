//! How the items of a listing are written, and what is said of problems.

use vstd::prelude::*;

use crate::decoder::{
    halfword_at, instruction_text, is_decodable, operand_reference, signed, stays_on_side, word_at,
    ArmVersion, ParseFlags, ParseMode,
};
use crate::functions::{
    active, assembly_of, message_of, AssemblyError, Function, FunctionExt,
};
use crate::listing::{
    case_number, end_of_line, entry_fits, entry_target, entry_text, even_address, indentation,
    listing, render, render_all, EntrySize, Item, Problem, Progress, Source,
};
use crate::symbols::{
    Symbol, SymbolLookup, SymbolMapError, SymJumpTable, ThumbJumpTableJump,
};
use crate::text::{decimal, hex, hex_padded};

verus! {

/// Whether `names` are those that operands at `address` are written with.
pub open spec fn are_names(
    lookup: SymbolLookup,
    address: u32,
    names: Map<u32, Seq<char>>,
) -> bool {
    forall|destination: u32|
        match lookup.operand_name(address, destination) {
            Some(name) => #[trigger] names.dom().contains(destination) && names[destination]
                == name,
            None => !names.dom().contains(destination),
        }
}

/// Whether `text` is what the decoder makes of an instruction, with the names that are
/// known, and where the program counter reads as two instructions ahead.
pub open spec fn is_instruction_text(
    source: Source,
    mode: ParseMode,
    address: nat,
    data: Seq<u8>,
    names: Map<u32, Seq<char>>,
    text: Seq<char>,
) -> bool {
    &&& are_names(source.symbols, address as u32, names)
    &&& text == instruction_text(
        mode,
        address as u32,
        ParseFlags { ual: source.ual, version: ArmVersion::V5Te },
        data,
        names,
        if source.function.thumb {
            4
        } else {
            8
        },
        true,
    )
}

/// Whether `text` is how an item is written.
pub open spec fn is_written(source: Source, item: Item, text: Seq<char>) -> bool {
    let name = source.function.name@;
    match item {
        Item::Opening => {
            let address = hex_padded(source.function.first_instruction_address as nat, 8);
            if source.function.thumb {
                text == "    .global "@ + name + "\n"@ + "    thumb_func_start "@ + name + "\n"@
                    + name + ": ; 0x"@ + address + "\n"@
            } else {
                text == "    .global "@ + name + "\n"@ + "    arm_func_start "@ + name + "\n"@
                    + name + ": ; 0x"@ + address + "\n"@
            }
        },
        Item::Label { name, .. } => text == name + ":\n"@,
        Item::TableLabel { symbol } => text == symbol.name + ": ; jump table\n"@,
        Item::ConstantLabel { name, .. } => text == name + ": "@,
        Item::KnownWord { indented: true, line, .. } => text == "    "@ + line,
        Item::KnownWord { indented: false, line, .. } => text == line,
        Item::PlainWord { indented: true, value, .. } => text == "    "@ + ".word 0x"@ + hex(value)
            + "\n"@,
        Item::PlainWord { indented: false, value, .. } => text == ".word 0x"@ + hex(value)
            + "\n"@,
        Item::InlineTableLabel { name, .. } => text == name + ": ; inline table\n"@,
        Item::InlineTableLines { lines } => text == lines,
        Item::Entry { size, label, table, jump, .. } => match (size, jump) {
            (EntrySize::Byte, ThumbJumpTableJump::AddPc) => text == "    "@ + ".byte"@ + " "@
                + label + " - "@ + table + " "@ + "- 2"@ + "\n"@,
            (EntrySize::Byte, ThumbJumpTableJump::Bx) => text == "    "@ + ".byte"@ + " "@ + label
                + " - "@ + table + " "@ + "+ 1"@ + "\n"@,
            (EntrySize::Short, ThumbJumpTableJump::AddPc) => text == "    "@ + ".short"@ + " "@
                + label + " - "@ + table + " "@ + "- 2"@ + "\n"@,
            (EntrySize::Short, ThumbJumpTableJump::Bx) => text == "    "@ + ".short"@ + " "@
                + label + " - "@ + table + " "@ + "+ 1"@ + "\n"@,
        },
        Item::Instruction { address, mode: ParseMode::Data, data, .. } => {
            exists|names: Map<u32, Seq<char>>| #[trigger]
                is_instruction_text(source, ParseMode::Data, address, data, names, text)
        },
        Item::Instruction { address, mode, data, .. } => {
            &&& text.len() >= 4
            &&& text.take(4) == seq![' ', ' ', ' ', ' ']
            &&& exists|names: Map<u32, Seq<char>>| #[trigger]
                is_instruction_text(source, mode, address, data, names, text.skip(4))
        },
        Item::Comment { text: comment } => text == comment,
        Item::EndOfLine { case: Some(case) } => text == " ; case "@ + decimal(case) + "\n"@,
        Item::EndOfLine { case: None } => text == "\n"@,
        Item::Closing => if source.function.thumb {
            text == "    thumb_func_end "@ + name + "\n\n"@
        } else {
            text == "    arm_func_end "@ + name + "\n\n"@
        },
    }
}

/// The text of each item is as [`is_written`] says: labels with a colon, words in
/// hexadecimal, entries as distances between labels, and instructions as the decoder
/// writes them, indented, and with the names of registers and symbols.
pub proof fn law_items_are_written(source: Source, item: Item)
    ensures
        is_written(source, item, render(source, item)),
{
    reveal_strlit("");
    reveal_strlit("    ");
    let text = render(source, item);
    if let Item::Instruction { address, mode, data, .. } = item {
        let names = crate::decoder::operand_names(source.symbols, address as u32);
        let body = instruction_text(
            mode,
            address as u32,
            source.flags(),
            data,
            names,
            source.pc_load_offset(),
            true,
        );
        assert(are_names(source.symbols, address as u32, names));
        if mode is Data {
            assert(text =~= body);
            assert(is_instruction_text(source, mode, address, data, names, text));
        } else {
            assert("    "@ =~= seq![' ', ' ', ' ', ' ']);
            assert(text.take(4) =~= "    "@);
            assert(text.skip(4) =~= body);
            assert(is_instruction_text(source, mode, address, data, names, text.skip(4)));
        }
    } else if let Item::Opening = item {
        assert(is_written(source, item, text));
    } else if let Item::KnownWord { line, .. } = item {
        assert(""@ + line =~= line);
    } else if let Item::PlainWord { value, .. } = item {
        assert(""@ + ".word 0x"@ + hex(value) + "\n"@ =~= ".word 0x"@ + hex(value) + "\n"@);
    }
}

/// Whether the text of the item at place `k` is between the places `cuts[k]` and
/// `cuts[k + 1]` of `text`.
pub open spec fn is_piece(
    source: Source,
    items: Seq<Item>,
    text: Seq<char>,
    cuts: Seq<int>,
    k: int,
) -> bool {
    &&& 0 <= cuts[k]
    &&& cuts[k] <= cuts[k + 1]
    &&& cuts[k + 1] <= text.len()
    &&& is_written(source, items[k], text.subrange(cuts[k], cuts[k + 1]))
}

/// Whether `text` is made of the texts of the items, one behind the other.
pub open spec fn is_made_of(
    source: Source,
    items: Seq<Item>,
    text: Seq<char>,
    cuts: Seq<int>,
) -> bool {
    &&& cuts.len() == items.len() + 1
    &&& cuts[0] == 0
    &&& cuts[items.len() as int] == text.len()
    &&& forall|k: int| 0 <= k < items.len() ==> #[trigger] is_piece(source, items, text, cuts, k)
}

proof fn lemma_made_of(source: Source, items: Seq<Item>) -> (cuts: Seq<int>)
    ensures
        is_made_of(source, items, render_all(source, items), cuts),
    decreases items.len(),
{
    let text = render_all(source, items);
    if items.len() == 0 {
        let cuts = seq![0int];
        assert(text.len() == 0 && cuts[items.len() as int] == 0);
        assert(is_made_of(source, items, text, cuts));
        cuts
    } else {
        let front = items.drop_last();
        let start = render_all(source, front);
        let before = lemma_made_of(source, front);
        let cuts = before.push(text.len() as int);
        let n = front.len() as int;
        law_items_are_written(source, items.last());
        assert forall|k: int| 0 <= k < items.len() implies #[trigger] is_piece(
            source,
            items,
            text,
            cuts,
            k,
        ) by {
            if k < n {
                assert(is_piece(source, front, start, before, k));
                assert(cuts[k] == before[k] && cuts[k + 1] == before[k + 1]);
                assert(text.subrange(cuts[k], cuts[k + 1]) =~= start.subrange(
                    before[k],
                    before[k + 1],
                ));
            } else {
                assert(cuts[k] == start.len());
                assert(text.subrange(cuts[k], cuts[k + 1]) =~= render(source, items[k]));
            }
        }
        assert(cuts[0] == before[0]);
        assert(is_made_of(source, items, text, cuts));
        cuts
    }
}

/// The listing as text is made of the texts of its items, one behind the other. Where it
/// ends early, it says why, and has the items up to there.
pub proof fn law_text_is_made_of_the_items(source: Source) -> (cuts: Seq<int>)
    ensures
        match listing(source) {
            Progress::Go { items, .. } => assembly_of(source) matches Some(a) && a.problem is None
                && is_made_of(source, items, a.text, cuts),
            Progress::Fail { items, problem } => assembly_of(source) matches Some(a) && a.problem
                == Some(problem) && is_made_of(source, items, a.text, cuts),
            Progress::Stuck => assembly_of(source) is None,
        },
{
    match listing(source) {
        Progress::Go { items, .. } => lemma_made_of(source, items),
        Progress::Fail { items, .. } => lemma_made_of(source, items),
        Progress::Stuck => seq![],
    }
}

/// An entry of a jump table is written as the distance from the table to a label, with
/// what its jump adds: two bytes less for `add pc`, and one more for `bx`.
pub proof fn law_entries_are_distances(
    directive: Seq<char>,
    label: Seq<char>,
    table: Seq<char>,
)
    ensures
        entry_text(directive, label, table, ThumbJumpTableJump::AddPc) == "    "@ + directive
            + " "@ + label + " - "@ + table + " "@ + "- 2"@ + "\n"@,
        entry_text(directive, label, table, ThumbJumpTableJump::Bx) == "    "@ + directive + " "@
            + label + " - "@ + table + " "@ + "+ 1"@ + "\n"@,
{
}

/// An entry leads that far from its table, and two bytes further for `add pc`, to an
/// even address.
pub proof fn law_entries_lead_away_from_their_table(
    origin: u32,
    value: int,
    jump: ThumbJumpTableJump,
)
    requires
        entry_fits(origin, value, jump),
    ensures
        ({
            let distance = if jump is AddPc {
                value + 2
            } else {
                value
            };
            let destination = even_address(entry_target(origin, value, jump));
            &&& destination <= u32::MAX
            &&& destination % 2 == 0
            &&& destination <= (origin + distance) % 0x1_0000_0000 <= destination + 1
        }),
{
}

/// An entry leads to an address if its distance does not cross the middle of the address
/// space, with or without the two bytes that `add pc` adds.
pub proof fn law_entries_fit(origin: u32, value: int, jump: ThumbJumpTableJump)
    ensures
        entry_fits(origin, value, jump) <==> ({
            let high = origin >= 0x8000_0000;
            let near = if high {
                origin + value - 0x8000_0000
            } else {
                origin + value
            };
            let far = if jump is AddPc {
                near + 2
            } else {
                near
            };
            if high {
                0 <= near < 0x1_0000_0000 && 0 <= far < 0x1_0000_0000
            } else {
                -0x8000_0000 <= near < 0x8000_0000 && -0x8000_0000 <= far < 0x8000_0000
            }
        }),
{
}

/// The line of an instruction in a jump table ends with the number of its case: how many
/// instructions of its size are in front of it in the table. Other lines just end.
pub proof fn law_cases_are_counted(
    table: Option<(SymJumpTable, &Symbol)>,
    address: nat,
    size: nat,
)
    requires
        size > 0,
        table matches Some((_, symbol)) ==> symbol.addr <= address,
    ensures
        match table {
            Some((_, symbol)) => exists|case: nat| #[trigger]
                end_of_line(case_number(active(table), address, size)) == " ; case "@ + decimal(
                    case,
                ) + "\n"@ && case * size <= address - symbol.addr < (case + 1) * size,
            None => end_of_line(case_number(active(table), address, size)) == "\n"@,
        },
{
    if let Some((_, symbol)) = table {
        let distance = address - symbol.addr;
        let case = (distance / size as int) as nat;
        vstd::arithmetic::div_mod::lemma_fundamental_div_mod(distance, size as int);
        vstd::arithmetic::div_mod::lemma_mod_bound(distance, size as int);
        vstd::arithmetic::div_mod::lemma_div_pos_is_pos(distance, size as int);
        assert(case * size <= distance < (case + 1) * size) by (nonlinear_arith)
            requires
                distance == size * case + distance % size as int,
                0 <= distance % size as int,
                distance % (size as int) < size,
        ;
        assert(end_of_line(case_number(active(table), address, size)) == " ; case "@ + decimal(
            case,
        ) + "\n"@);
    }
}

/// Code is indented, and data is not.
pub proof fn law_indentation()
    ensures
        indentation(true) == seq![' ', ' ', ' ', ' '],
        indentation(false).len() == 0,
{
    reveal_strlit("");
    reveal_strlit("    ");
    assert(indentation(true) =~= seq![' ', ' ', ' ', ' ']);
}

/// What an error says: the address at which several symbols are, the reason why something
/// could not be written, that an inline table has no size, the pool constant that has no
/// name and its function, or from where to where a jump table leads without a label.
pub proof fn law_errors_are_told(error: AssemblyError)
    ensures
        match error {
            AssemblyError::Symbols(SymbolMapError::MultipleSymbols { address }) => error@ == (
            Problem::MultipleSymbols { address }) && message_of(error@)
                == "Multiple symbols at 0x"@ + hex_padded(address as nat, 8),
            AssemblyError::Lookup(reason) => error@ == (Problem::Lookup { reason: reason@ })
                && message_of(error@) == reason@,
            AssemblyError::InlineTableWithoutSize => error@ == Problem::InlineTableWithoutSize
                && message_of(error@) == "Inline tables must have a known size"@,
            AssemblyError::PoolConstantWithoutSymbol { address, function } => error@ == (
            Problem::PoolConstantWithoutSymbol { address, function: function@ }) && message_of(
                error@,
            ) == "Pool constant at 0x"@ + hex_padded(address as nat, 8) + " in function "@
                + function@ + " has no symbol"@,
            AssemblyError::MissingLabel { address, destination } => error@ == (
            Problem::MissingLabel { address, destination }) && message_of(error@)
                == "Expected label for jump table destination from 0x"@ + hex_padded(
                address as nat,
                8,
            ) + " to 0x"@ + hex_padded(destination as nat, 8),
        },
{
}

/// The decoder is asked about every instruction that is far from the middle of the
/// address space, and about data wherever it is.
pub proof fn law_far_instructions_are_decodable(
    mode: ParseMode,
    address: u32,
    flags: ParseFlags,
    data: Seq<u8>,
    pc_load_offset: i32,
)
    requires
        mode is Data || address < 0x7f80_0000 || 0x8080_0000 <= address,
    ensures
        is_decodable(mode, address, flags, data, pc_load_offset),
{
}

/// Whether `distance` from `address` does not lead across the middle of the address
/// space. It may lead across the end.
pub open spec fn is_on_side(address: u32, distance: int) -> bool {
    if address < 0x8000_0000 {
        -0x8000_0000 <= address + distance < 0x8000_0000
    } else {
        0x8000_0000 <= address + distance < 0x1_8000_0000
    }
}

/// Close to the middle, the decoder is asked about an instruction only if what it refers
/// to is not across it. How far that is shows from where the instruction would refer
/// to from another address with the same place in its word, with and without the offset
/// of the program counter.
pub proof fn law_near_instructions_are_decodable_on_their_side(
    mode: ParseMode,
    address: u32,
    flags: ParseFlags,
    data: Seq<u8>,
    pc_load_offset: i32,
)
    requires
        !(mode is Data),
        0x7f80_0000 <= address < 0x8080_0000,
    ensures
        ({
            let probe = (0x4000_0000 + address % 4) as u32;
            let plain = operand_reference(mode, probe, flags, data, 0);
            let ahead = operand_reference(mode, probe, flags, data, pc_load_offset);
            is_decodable(mode, address, flags, data, pc_load_offset) <==> (plain matches Some(
                destination,
            ) ==> is_on_side(address, destination - probe)) && (ahead matches Some(destination)
                ==> is_on_side(address, destination - probe))
        }),
{
}

/// What a reference from the probe address says of one from `address`.
pub proof fn law_references_keep_their_side(address: u32, probed: Option<u32>)
    ensures
        stays_on_side(address, probed) <==> (probed matches Some(destination) ==> is_on_side(
            address,
            destination - 0x4000_0000 - address % 4,
        )),
{
}

/// Numbers are read low byte first, and signed ones as two's complement.
pub proof fn law_numbers_are_little_endian(data: Seq<u8>, i: int)
    ensures
        halfword_at(data, i) == data[i] + 0x100 * data[i + 1],
        word_at(data, i) == data[i] + 0x100 * data[i + 1] + 0x10000 * data[i + 2] + 0x1000000
            * data[i + 3],
{
}

/// A number of eight, sixteen or thirty-two bits is signed as two's complement: it is
/// the same, or less by two to the power of the number of bits.
pub proof fn law_signed_numbers(n: nat)
    ensures
        signed(n, 0x80) == if n < 0x80 {
            n as int
        } else {
            n - 0x100
        },
        signed(n, 0x8000) == if n < 0x8000 {
            n as int
        } else {
            n - 0x10000
        },
        signed(n, 0x8000_0000) == if n < 0x8000_0000 {
            n as int
        } else {
            n - 0x1_0000_0000
        },
{
}

/// The listing of a function is made from the function, the symbols, and the bytes and the
/// address of the module, in the syntax that was asked for.
pub proof fn law_functions_are_listed(
    function: Function,
    symbols: SymbolLookup,
    code: Seq<u8>,
    base: u32,
    ual: bool,
    source: Source,
)
    requires
        source.function == function,
        source.symbols == symbols,
        source.code == code,
        source.base == base,
        source.ual == ual,
    ensures
        function.assembly(symbols, code, base, ual) == assembly_of(source),
{
}

} // verus!
