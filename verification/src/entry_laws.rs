//! What holds of every entry of a Thumb jump table.

use vstd::prelude::*;

use crate::decoder::signed;
use crate::listing::{
    entry_fits, entry_line, entry_target, even_address, items_of, lemma_render_one, render_all,
    EntrySize, Source,
};
use crate::symbols::{lemma_sole_matches, Found, SymbolView, ThumbJumpTableJump, Wanted};

verus! {

/// The symbols of the line for an entry, put into the line, give the entry back:
/// the label less the table, less two or plus one. The table is at an even address,
/// and the entry leads to one, or to one plus the Thumb bit where it is for `bx`.
pub proof fn law_entry_evaluates_to_its_value(
    source: Source,
    symbol: SymbolView,
    size: EntrySize,
    value: int,
    address: nat,
    taken: nat,
    second: bool,
    jump: ThumbJumpTableJump,
)
    requires
        entry_line(source, symbol, size, value, address, taken, second, jump) is Go,
        symbol.addr % 2 == 0,
        value % 2 == match jump {
            ThumbJumpTableJump::AddPc => 0int,
            ThumbJumpTableJump::Bx => 1int,
        },
    ensures
        ({
            let destination = even_address(entry_target(symbol.addr, value, jump));
            &&& source.find(destination, Wanted::Label) matches Found::One(label)
            &&& signed(label.addr as nat, 0x8000_0000) - signed(symbol.addr as nat, 0x8000_0000)
                + (match jump {
                ThumbJumpTableJump::AddPc => -2int,
                ThumbJumpTableJump::Bx => 1int,
            }) == value
        }),
{
    let destination = even_address(entry_target(symbol.addr, value, jump));
    lemma_sole_matches(source.symbols.symbol_map@, destination as u32, Wanted::Label);
}

/// The lowest bit of where an entry leads, the Thumb bit, picks no other label.
pub proof fn law_thumb_bit_picks_no_other_label(
    source: Source,
    symbol: SymbolView,
    size: EntrySize,
    value: int,
    address: nat,
    taken: nat,
    second: bool,
    jump: ThumbJumpTableJump,
)
    requires
        symbol.addr % 2 == 0,
        value % 2 == 0,
        entry_fits(symbol.addr, value, jump),
        entry_fits(symbol.addr, value + 1, jump),
    ensures
        entry_line(source, symbol, size, value + 1, address, taken, second, jump) == entry_line(
            source,
            symbol,
            size,
            value,
            address,
            taken,
            second,
            jump,
        ),
{
}

/// The address of an entry does not matter to its line, but only to the problem
/// where there is no label.
pub proof fn law_entry_address_is_for_problems(
    source: Source,
    symbol: SymbolView,
    size: EntrySize,
    value: int,
    address: nat,
    other: nat,
    taken: nat,
    second: bool,
    jump: ThumbJumpTableJump,
)
    ensures
        ({
            let here = entry_line(source, symbol, size, value, address, taken, second, jump);
            let there = entry_line(source, symbol, size, value, other, taken, second, jump);
            &&& here is Go <==> there is Go
            &&& here is Go ==> render_all(source, items_of(here)) == render_all(
                source,
                items_of(there),
            )
            &&& here is Stuck <==> there is Stuck
        }),
{
    let here = entry_line(source, symbol, size, value, address, taken, second, jump);
    let there = entry_line(source, symbol, size, value, other, taken, second, jump);
    if here is Go {
        lemma_render_one(source, here->Go_items[0]);
        lemma_render_one(source, there->Go_items[0]);
    }
}

} // verus!
