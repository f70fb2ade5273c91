//! Every byte of a function is listed, and listed once.

use vstd::prelude::*;

use crate::decoder::{fetch, Fetched, ParseMode};
use crate::listing::{
    byte_entry_lines, code_lines, constant_line, content_lines, first_cursor, items_of,
    label_lines, lemma_step_advances, lines_from, listing, pool_lines, step, table_at, ActiveTable,
    Cursor, Item, Progress, Source,
};
use crate::listing_laws::law_labelled_constants_are_pool_constants;
use crate::symbols::{Found, JumpTableKind, Wanted};

verus! {

/// The bytes that an item is for: from `start` up to `end`.
pub struct Extent {
    pub start: nat,
    pub end: nat,
}

/// The bytes that an item is for, if it is for any. Those of a constant belong to its
/// label.
pub open spec fn extent(item: Item) -> Option<Extent> {
    match item {
        Item::Instruction { address, data, .. } => Some(
            Extent { start: address, end: address + data.len() },
        ),
        Item::ConstantLabel { address, .. } => Some(Extent { start: address, end: address + 4 }),
        Item::KnownWord { address, indented: true, .. } => Some(
            Extent { start: address, end: address + 4 },
        ),
        Item::PlainWord { address, indented: true, .. } => Some(
            Extent { start: address, end: address + 4 },
        ),
        Item::InlineTableLabel { address, taken, .. } => Some(
            Extent { start: address, end: address + taken },
        ),
        Item::Entry { address, taken, .. } => Some(
            Extent { start: address, end: address + taken },
        ),
        _ => None,
    }
}

/// Whether an item is for the byte at `address`.
pub open spec fn holds_byte(item: Item, address: nat) -> bool {
    extent(item) matches Some(e) && e.start <= address < e.end
}

/// Whether one of the items is for the byte at `address`.
pub open spec fn is_listed(items: Seq<Item>, address: nat) -> bool {
    exists|i: int| 0 <= i < items.len() && #[trigger] holds_byte(items[i], address)
}

/// Whether the items are for bytes from `low` on, in the order of their addresses, and
/// no two for the same.
spec fn are_in_order(items: Seq<Item>, low: nat) -> bool {
    &&& forall|i: int|
        0 <= i < items.len() && (#[trigger] extent(items[i])) is Some ==> low <= extent(
            items[i],
        )->0.start
    &&& forall|i: int, j: int|
        0 <= i < j < items.len() && (#[trigger] extent(items[i])) is Some && (#[trigger] extent(
            items[j],
        )) is Some ==> extent(items[i])->0.end <= extent(items[j])->0.start
}

/// Whether the items are for all bytes from `low` up to `high`, once each, and for no
/// others.
spec fn are_tiles(items: Seq<Item>, low: nat, high: nat) -> bool {
    &&& are_in_order(items, low)
    &&& forall|i: int|
        0 <= i < items.len() && (#[trigger] extent(items[i])) is Some ==> extent(items[i])->0.end
            <= high
    &&& forall|address: nat| low <= address < high ==> #[trigger] is_listed(items, address)
}

pub(crate) proof fn lemma_listed_concat(first: Seq<Item>, second: Seq<Item>, address: nat)
    requires
        is_listed(first, address) || is_listed(second, address),
    ensures
        is_listed(first + second, address),
{
    let items = first + second;
    if is_listed(first, address) {
        let i = choose|i: int| 0 <= i < first.len() && #[trigger] holds_byte(first[i], address);
        assert(holds_byte(items[i], address));
    } else {
        let i = choose|i: int| 0 <= i < second.len() && #[trigger] holds_byte(second[i], address);
        assert(items[i + first.len()] == second[i]);
        assert(holds_byte(items[i + first.len()], address));
    }
}

proof fn lemma_order_concat(first: Seq<Item>, second: Seq<Item>, low: nat, middle: nat)
    requires
        are_tiles(first, low, middle),
        are_in_order(second, middle),
        low <= middle,
    ensures
        are_in_order(first + second, low),
{
    let items = first + second;
    let n = first.len() as int;
    assert forall|i: int|
        0 <= i < items.len() && (#[trigger] extent(items[i])) is Some implies low <= extent(
        items[i],
    )->0.start by {
        if i < n {
            assert(extent(first[i]) is Some);
        } else {
            assert(extent(second[i - n]) is Some);
        }
    }
    assert forall|i: int, j: int|
        0 <= i < j < items.len() && (#[trigger] extent(items[i])) is Some && (#[trigger] extent(
            items[j],
        )) is Some implies extent(items[i])->0.end <= extent(items[j])->0.start by {
        if j < n {
            assert(extent(first[i]) is Some && extent(first[j]) is Some);
        } else if i < n {
            assert(extent(first[i]) is Some && extent(second[j - n]) is Some);
        } else {
            assert(extent(second[i - n]) is Some && extent(second[j - n]) is Some);
        }
    }
}

proof fn lemma_tiles_concat(first: Seq<Item>, second: Seq<Item>, low: nat, middle: nat, high: nat)
    requires
        are_tiles(first, low, middle),
        are_tiles(second, middle, high),
        low <= middle <= high,
    ensures
        are_tiles(first + second, low, high),
{
    let items = first + second;
    let n = first.len() as int;
    lemma_order_concat(first, second, low, middle);
    assert forall|i: int|
        0 <= i < items.len() && (#[trigger] extent(items[i])) is Some implies extent(
        items[i],
    )->0.end <= high by {
        if i < n {
            assert(extent(first[i]) is Some);
        } else {
            assert(extent(second[i - n]) is Some);
        }
    }
    assert forall|address: nat| low <= address < high implies #[trigger] is_listed(
        items,
        address,
    ) by {
        if address < middle {
            assert(is_listed(first, address));
        } else {
            assert(is_listed(second, address));
        }
        lemma_listed_concat(first, second, address);
    }
}

/// Items of which only the first is for bytes are for those bytes.
proof fn lemma_one_tile(items: Seq<Item>, low: nat, high: nat)
    requires
        items.len() > 0,
        extent(items[0]) == Some(Extent { start: low, end: high }),
        forall|i: int| 0 < i < items.len() ==> (#[trigger] extent(items[i])) is None,
    ensures
        are_tiles(items, low, high),
{
    assert forall|address: nat| low <= address < high implies #[trigger] is_listed(
        items,
        address,
    ) by {
        assert(holds_byte(items[0], address));
    }
}

proof fn lemma_constant(source: Source, address: nat, name: Seq<char>)
    ensures
        are_in_order(items_of(constant_line(source, address, name)), address),
        constant_line(source, address, name) matches Progress::Go { items, .. } ==> are_tiles(
            items,
            address,
            address + 4,
        ),
{
    let items = items_of(constant_line(source, address, name));
    if items.len() > 0 {
        lemma_one_tile(items, address, address + 4);
    }
}

proof fn lemma_pool(source: Source, address: nat)
    ensures
        are_in_order(items_of(pool_lines(source, address)), address),
        pool_lines(source, address) matches Progress::Go { items, value } ==> address <= value
            && are_tiles(items, address, value),
    decreases u32::MAX + 4 - address,
{
    if address <= u32::MAX && source.is_pool_constant(address) {
        if let Found::One(symbol) = source.find(address, Wanted::PoolConstant) {
            lemma_constant(source, address, symbol.name);
            if let Progress::Go { items, .. } = constant_line(source, address, symbol.name) {
                lemma_pool(source, address + 4);
                let rest = pool_lines(source, address + 4);
                lemma_order_concat(items, items_of(rest), address, address + 4);
                if let Progress::Go { value, .. } = rest {
                    lemma_tiles_concat(items, items_of(rest), address, address + 4, value);
                }
            }
        }
    }
}

/// Whether `content`, what is listed for what lies at `address`, is for all bytes up to
/// where it ends.
spec fn is_tiled<T>(content: Progress<T>, address: nat, end: nat) -> bool {
    &&& are_in_order(items_of(content), address)
    &&& content is Go ==> are_tiles(items_of(content), address, end)
}

/// Whether the entries of a jump table have one byte.
spec fn is_byte_table(active: ActiveTable) -> bool {
    active.table.kind matches JumpTableKind::Thumb { kind, .. } && kind is Byte
}

proof fn lemma_byte_entries(
    source: Source,
    active: ActiveTable,
    fetched: Fetched,
    address: nat,
)
    requires
        fetched.size >= 2,
        is_byte_table(active),
    ensures
        is_tiled(
            byte_entry_lines(
                source,
                active.symbol,
                fetched,
                address,
                active.table.kind->Thumb_jump,
            ),
            address,
            address + fetched.size,
        ),
{
    let lines = byte_entry_lines(
        source,
        active.symbol,
        fetched,
        address,
        active.table.kind->Thumb_jump,
    );
    let items = items_of(lines);
    if lines is Go {
        assert(items.len() == 4);
        assert(extent(items[0]) == Some(Extent { start: address, end: address + 1 }));
        assert(extent(items[2]) == Some(
            Extent { start: address + 1, end: address + fetched.size },
        ));
        assert(extent(items[1]) is None && extent(items[3]) is None);
        assert forall|x: nat| address <= x < address + fetched.size implies #[trigger] is_listed(
            items,
            x,
        ) by {
            if x == address {
                assert(holds_byte(items[0], x));
            } else {
                assert(holds_byte(items[2], x));
            }
        }
    }
}

proof fn lemma_code(
    source: Source,
    mode: ParseMode,
    address: nat,
    fetched: Fetched,
    table: Option<ActiveTable>,
)
    requires
        source.is_loaded(),
        source.function.start_address <= address <= source.function.end_address,
        fetch(mode, address, source.rest(address)) == Some(fetched),
    ensures
        ({
            let code = code_lines(source, mode, address, fetched, table);
            is_tiled(code, address, address + code->Go_value.size)
        }),
{
    let code = code_lines(source, mode, address, fetched, table);
    let items = items_of(code);
    assert(source.rest(address).take(fetched.size as int).len() == fetched.size);
    match table_at(table, address) {
        Some(active) if is_byte_table(active) => {
            lemma_byte_entries(source, active, fetched, address);
        },
        _ => {
            if items.len() > 0 {
                lemma_one_tile(items, address, extent(items[0])->0.end);
            }
        },
    }
}

proof fn lemma_content(
    source: Source,
    mode: ParseMode,
    address: nat,
    fetched: Fetched,
    table: Option<ActiveTable>,
)
    requires
        source.is_loaded(),
        source.function.start_address <= address <= source.function.end_address,
        fetch(mode, address, source.rest(address)) == Some(fetched),
    ensures
        ({
            let content = content_lines(source, mode, address, fetched, table);
            &&& is_tiled(content, address, address + content->Go_value.size)
            &&& content matches Progress::Go { value, .. } ==> value.address <= address + value.size
        }),
{
    let content = content_lines(source, mode, address, fetched, table);
    let items = items_of(content);
    let constant = source.find(address, Wanted::PoolConstant);
    if constant is One && source.is_pool_constant(address) {
        lemma_constant(source, address, constant->One_0.name);
    } else if source.find(address, Wanted::Data) is One {
        if items.len() > 0 {
            lemma_one_tile(items, address, extent(items[0])->0.end);
        }
    } else {
        lemma_code(source, mode, address, fetched, table);
    }
}

proof fn lemma_step(source: Source, cursor: Cursor, fetched: Fetched)
    requires
        source.is_loaded(),
        source.function.start_address <= cursor.address <= source.function.end_address,
        fetch(cursor.mode, cursor.address, source.rest(cursor.address)) == Some(fetched),
    ensures
        ({
            let progress = step(source, cursor, fetched);
            &&& are_in_order(items_of(progress), cursor.address)
            &&& progress matches Progress::Go { items, value } ==> are_tiles(
                items,
                cursor.address,
                value.address,
            )
        }),
{
    reveal(step);
    let address = cursor.address;
    let labels = label_lines(source, address, cursor.table);
    let first = items_of(labels);
    assert(are_tiles(first, address, address));
    if let Progress::Go { value: table, .. } = labels {
        let content = content_lines(source, cursor.mode, address, fetched, table);
        let second = items_of(content);
        lemma_content(source, cursor.mode, address, fetched, table);
        lemma_order_concat(first, second, address, address);
        if let Progress::Go { value: passed, .. } = content {
            let behind = address + passed.size;
            let pool = pool_lines(source, behind);
            lemma_tiles_concat(first, second, address, address, behind);
            lemma_pool(source, behind);
            lemma_order_concat(first + second, items_of(pool), address, behind);
            if let Progress::Go { value: stop, .. } = pool {
                lemma_tiles_concat(first + second, items_of(pool), address, behind, stop);
            }
        }
    }
}

/// A step that goes on lists every byte that it passes.
pub(crate) proof fn lemma_step_is_listed(source: Source, cursor: Cursor, fetched: Fetched)
    requires
        source.is_loaded(),
        source.function.start_address <= cursor.address <= source.function.end_address,
        fetch(cursor.mode, cursor.address, source.rest(cursor.address)) == Some(fetched),
    ensures
        step(source, cursor, fetched) matches Progress::Go { items, value } ==> forall|
            address: nat,
        |
            cursor.address <= address < value.address ==> #[trigger] is_listed(items, address),
{
    lemma_step(source, cursor, fetched);
}

proof fn lemma_lines(source: Source, cursor: Cursor)
    requires
        source.is_loaded(),
        source.function.start_address <= cursor.address <= source.function.end_address,
    ensures
        are_in_order(items_of(lines_from(source, cursor)), cursor.address),
        lines_from(source, cursor) is Go ==> forall|address: nat|
            cursor.address <= address && address + 4 <= source.function.end_address
                ==> #[trigger] is_listed(items_of(lines_from(source, cursor)), address),
    decreases source.function.end_address - cursor.address,
{
    if let Some(fetched) = fetch(cursor.mode, cursor.address, source.rest(cursor.address)) {
        lemma_step(source, cursor, fetched);
        lemma_step_advances(source, cursor);
        if let Progress::Go { items: first, value: next } = step(source, cursor, fetched) {
            lemma_lines(source, next);
            let second = items_of(lines_from(source, next));
            lemma_order_concat(first, second, cursor.address, next.address);
            if lines_from(source, next) is Go {
                assert forall|address: nat|
                    cursor.address <= address && address + 4
                        <= source.function.end_address implies #[trigger] is_listed(
                    first + second,
                    address,
                ) by {
                    if address < next.address {
                        assert(is_listed(first, address));
                    } else {
                        assert(is_listed(second, address));
                    }
                    lemma_listed_concat(first, second, address);
                }
            }
        }
    } else {
        assert(source.rest(cursor.address).len() < 4);
    }
}

/// What is listed is in the order of the addresses that it is for, and no byte is
/// listed twice: instructions, entries of jump tables, data words, inline tables and
/// constants alike.
pub proof fn law_bytes_are_listed_in_order(source: Source, i: int, j: int)
    requires
        0 <= i < j < items_of(listing(source)).len(),
        extent(items_of(listing(source))[i]) is Some,
        extent(items_of(listing(source))[j]) is Some,
    ensures
        extent(items_of(listing(source))[i])->0.end <= extent(
            items_of(listing(source))[j],
        )->0.start,
{
    if source.is_loaded() {
        lemma_lines(source, first_cursor(source));
    }
}

/// A listing that does not end early lists every byte of the function, except that the
/// last three may be too few for an instruction.
pub proof fn law_every_byte_is_listed(source: Source, address: nat)
    requires
        listing(source) is Go,
        source.function.start_address <= address,
        address + 4 <= source.function.end_address,
    ensures
        is_listed(items_of(listing(source)), address),
{
    lemma_lines(source, first_cursor(source));
}

/// Whether the item at place `i` is the label of the pool constant at `address`, and no
/// other item is.
pub open spec fn is_only_label(source: Source, items: Seq<Item>, address: nat, i: int) -> bool {
    &&& 0 <= i < items.len()
    &&& source.find(address, Wanted::PoolConstant) matches Found::One(symbol)
    &&& items[i] == (Item::ConstantLabel { address, name: symbol.name })
    &&& forall|j: int|
        0 <= j < items.len() && (#[trigger] items[j] matches Item::ConstantLabel {
            address: other,
            ..
        } && other == address) ==> j == i
}

/// In a listing that does not end early, every pool constant that lies in the function
/// is listed exactly once, under its name, unless its first byte is listed as something
/// else: as part of an instruction, of a jump table, of a data word or of an inline
/// table. Constants lie at multiples of four.
pub proof fn law_every_pool_constant_is_listed_once(source: Source, address: nat)
    requires
        listing(source) is Go,
        forall|p: u32| #[trigger] source.function.pool_constants@.contains(p) ==> p % 4 == 0,
        source.is_pool_constant(address),
        source.function.start_address <= address,
        address + 4 <= source.function.end_address,
        forall|i: int|
            0 <= i < items_of(listing(source)).len() && #[trigger] holds_byte(
                items_of(listing(source))[i],
                address,
            ) ==> items_of(listing(source))[i] is ConstantLabel,
    ensures
        exists|i: int| #[trigger] is_only_label(source, items_of(listing(source)), address, i),
{
    let items = items_of(listing(source));
    law_every_byte_is_listed(source, address);
    let i = choose|i: int| 0 <= i < items.len() && #[trigger] holds_byte(items[i], address);
    law_labelled_constants_are_pool_constants(source, i);
    let start = items[i]->ConstantLabel_address;
    assert(source.function.pool_constants@.contains(start as u32));
    assert(source.function.pool_constants@.contains(address as u32));
    assert(start == address);
    assert forall|j: int|
        0 <= j < items.len() && (#[trigger] items[j] matches Item::ConstantLabel {
            address: other,
            ..
        } && other == address) implies j == i by {
        if j < i {
            law_bytes_are_listed_in_order(source, j, i);
        } else if i < j {
            law_bytes_are_listed_in_order(source, i, j);
        }
    }
    assert(is_only_label(source, items, address, i));
}

} // verus!
