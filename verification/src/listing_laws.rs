//! What holds of every listing.

use vstd::prelude::*;

use crate::decoder::{fetch, Fetched, ParseMode};
use crate::functions::{assembly_of, Assembly};
use crate::listing::{
    constant_line, content_lines, first_cursor, items_of, label_lines, lemma_render_push,
    lemma_step_advances, lines_from, listing, pool_lines, render, render_all, step, ActiveTable,
    Cursor, Item, Progress, Source,
};
use crate::symbols::{Found, Wanted};

verus! {

/// Whether no item is an instruction, or opens or closes the function.
spec fn are_plain(items: Seq<Item>) -> bool {
    forall|i: int|
        0 <= i < items.len() ==> !(#[trigger] items[i] is Instruction) && !(items[i] is Opening)
            && !(items[i] is Closing)
}

proof fn lemma_plain_concat(first: Seq<Item>, second: Seq<Item>)
    requires
        are_plain(first),
        are_plain(second),
    ensures
        are_plain(first + second),
{
}

proof fn lemma_pool_lines(source: Source, address: nat)
    ensures
        are_plain(items_of(pool_lines(source, address))),
        pool_lines(source, address) matches Progress::Go { value, .. } ==> {
            &&& address <= value <= u32::MAX
            &&& !source.is_pool_constant(value)
        },
    decreases u32::MAX + 4 - address,
{
    if address <= u32::MAX && source.is_pool_constant(address) {
        if let Found::One(symbol) = source.find(address, Wanted::PoolConstant) {
            if let Progress::Go { items, .. } = constant_line(source, address, symbol.name) {
                lemma_pool_lines(source, address + 4);
                lemma_plain_concat(items, items_of(pool_lines(source, address + 4)));
            }
        }
    }
}

/// Whether an instruction in a listing is what the function holds at its address,
/// and nothing says that it is not code.
pub open spec fn is_code(source: Source, item: Item) -> bool {
    item matches Item::Instruction { address, mode, data, in_table } ==> {
        &&& source.function.start_address <= address
        &&& data.len() > 0
        &&& address + data.len() <= source.function.end_address
        &&& data == source.rest(address).take(data.len() as int)
        &&& source.is_pool_constant(address) ==> address == source.function.start_address
            && source.find(address, Wanted::PoolConstant) is Nothing
        &&& source.find(address, Wanted::Data) is Nothing
        &&& !in_table && mode != ParseMode::Data
            ==> !source.symbols.data_relocations@.contains(address as u32)
    }
}

/// Whether no other item than the first is an instruction, and none opens or
/// closes the function.
spec fn are_plain_but_first(items: Seq<Item>) -> bool {
    forall|i: int|
        0 <= i < items.len() ==> (#[trigger] items[i] is Instruction ==> i == 0) && !(
        items[i] is Opening) && !(items[i] is Closing)
}

#[verifier::rlimit(30)]
proof fn lemma_content_lines(
    source: Source,
    mode: ParseMode,
    address: nat,
    table: Option<ActiveTable>,
)
    requires
        source.is_loaded(),
        source.function.start_address <= address <= source.function.end_address,
        fetch(mode, address, source.rest(address)) is Some,
        address == source.function.start_address || !source.is_pool_constant(address),
    ensures
        ({
            let fetched = fetch(mode, address, source.rest(address))->0;
            let content = content_lines(source, mode, address, fetched, table);
            &&& are_plain_but_first(items_of(content))
            &&& items_of(content).len() > 0 && items_of(content)[0] is Instruction ==> {
                &&& is_code(source, items_of(content)[0])
                &&& items_of(content)[0]->Instruction_address == address
            }
            &&& content matches Progress::Go { items, value } ==> {
                &&& items.len() > 0
                &&& items[0] is Instruction ==> address + items[0]->Instruction_data.len()
                    == value.address
                &&& address < value.address <= address + value.size
            }
        }),
{
    let fetched = fetch(mode, address, source.rest(address))->0;
    assert(source.rest(address).take(fetched.size as int).len() == fetched.size);
}

/// Whether the items are those of one step at `address`: at most one of them is an
/// instruction, and only the first may open the function.
spec fn are_of_step(source: Source, items: Seq<Item>, address: nat) -> bool {
    &&& forall|i: int|
        0 <= i < items.len() ==> {
            &&& is_code(source, #[trigger] items[i])
            &&& items[i] is Instruction ==> items[i]->Instruction_address == address
            &&& items[i] is Opening ==> i == 0 && address
                == source.function.first_instruction_address
            &&& !(items[i] is Closing)
        }
    &&& forall|i: int, j: int|
        0 <= i < j < items.len() ==> !(#[trigger] items[i] is Instruction
            && #[trigger] items[j] is Instruction)
}

proof fn lemma_step(source: Source, cursor: Cursor)
    requires
        source.is_loaded(),
        source.function.start_address <= cursor.address <= source.function.end_address,
        fetch(cursor.mode, cursor.address, source.rest(cursor.address)) is Some,
        cursor.address == source.function.start_address || !source.is_pool_constant(
            cursor.address,
        ),
    ensures
        ({
            let fetched = fetch(cursor.mode, cursor.address, source.rest(cursor.address))->0;
            let progress = step(source, cursor, fetched);
            &&& are_of_step(source, items_of(progress), cursor.address)
            &&& progress matches Progress::Go { items, value } ==> {
                &&& !source.is_pool_constant(value.address)
                &&& forall|i: int|
                    0 <= i < items.len() && #[trigger] items[i] is Instruction ==> cursor.address
                        + items[i]->Instruction_data.len() <= value.address
            }
        }),
{
    reveal(step);
    let fetched = fetch(cursor.mode, cursor.address, source.rest(cursor.address))->0;
    let labels = label_lines(source, cursor.address, cursor.table);
    if let Progress::Go { items: first, value: table } = labels {
        let content = content_lines(source, cursor.mode, cursor.address, fetched, table);
        lemma_content_lines(source, cursor.mode, cursor.address, table);
        let second = items_of(content);
        assert(are_of_step(source, first + second, cursor.address));
        if let Progress::Go { value: passed, .. } = content {
            let pool = pool_lines(source, cursor.address + passed.size);
            lemma_pool_lines(source, cursor.address + passed.size);
            let third = items_of(pool);
            assert(are_of_step(source, first + second + third, cursor.address));
        }
    }
}

/// What holds of the items from a cursor on.
spec fn are_in_order(source: Source, items: Seq<Item>, address: nat) -> bool {
    &&& forall|i: int|
        0 <= i < items.len() ==> {
            &&& is_code(source, #[trigger] items[i])
            &&& items[i] is Instruction ==> address <= items[i]->Instruction_address
            &&& items[i] is Opening ==> address <= source.function.first_instruction_address
            &&& items[i] is Closing ==> i == items.len() - 1
        }
    &&& forall|i: int, j: int|
        0 <= i < j < items.len() ==> {
            &&& #[trigger] items[i] is Instruction && #[trigger] items[j] is Instruction
                ==> items[i]->Instruction_address + items[i]->Instruction_data.len()
                <= items[j]->Instruction_address
            &&& !(items[i] is Opening && items[j] is Opening)
        }
}

proof fn lemma_lines_from(source: Source, cursor: Cursor)
    requires
        source.is_loaded(),
        source.function.start_address <= cursor.address <= source.function.end_address,
        cursor.address == source.function.start_address || !source.is_pool_constant(
            cursor.address,
        ),
    ensures
        are_in_order(source, items_of(lines_from(source, cursor)), cursor.address),
        lines_from(source, cursor) matches Progress::Go { items, .. } ==> items.len() > 0
            && items.last() is Closing,
    decreases source.function.end_address - cursor.address,
{
    if let Some(fetched) = fetch(cursor.mode, cursor.address, source.rest(cursor.address)) {
        lemma_step(source, cursor);
        lemma_step_advances(source, cursor);
        if let Progress::Go { items: first, value: next } = step(source, cursor, fetched) {
            lemma_lines_from(source, next);
            let second = items_of(lines_from(source, next));
            assert(are_in_order(source, first + second, cursor.address));
            if lines_from(source, next) is Go {
                assert((first + second).last() == second.last());
            }
        }
    }
}

/// Every instruction in a listing is read off the function's bytes at its address,
/// and is nothing that is known to be data: no inline table; no pool constant, save
/// for one without a name at the very start; and, outside of jump tables, no word
/// that a relocation marks as data.
pub proof fn law_instructions_are_code(source: Source, i: int)
    requires
        0 <= i < items_of(listing(source)).len(),
    ensures
        is_code(source, items_of(listing(source))[i]),
{
    if source.is_loaded() {
        lemma_lines_from(source, first_cursor(source));
    }
}

/// Instructions are listed in the order of their addresses, and no byte is listed
/// in two of them.
pub proof fn law_instructions_are_in_order(source: Source, i: int, j: int)
    requires
        0 <= i < j < items_of(listing(source)).len(),
        items_of(listing(source))[i] is Instruction,
        items_of(listing(source))[j] is Instruction,
    ensures
        end_of(items_of(listing(source))[i]) <= items_of(listing(source))[j]->Instruction_address,
{
    if source.is_loaded() {
        lemma_lines_from(source, first_cursor(source));
    }
}

/// A function is opened once at most.
pub proof fn law_function_is_opened_once(source: Source, i: int, j: int)
    requires
        0 <= i < items_of(listing(source)).len(),
        0 <= j < items_of(listing(source)).len(),
        items_of(listing(source))[i] is Opening,
        items_of(listing(source))[j] is Opening,
    ensures
        i == j,
{
    if source.is_loaded() {
        lemma_lines_from(source, first_cursor(source));
    }
}

/// Whether the function is opened in front of its first instruction.
spec fn first_is_opened(source: Source, items: Seq<Item>) -> bool {
    forall|i: int|
        0 <= i < items.len() && is_first_instruction(source, #[trigger] items[i]) ==> exists|k: int|
            0 <= k < i && #[trigger] items[k] is Opening
}

/// Whether an item is the function's first instruction.
pub open spec fn is_first_instruction(source: Source, item: Item) -> bool {
    item is Instruction && item->Instruction_address == source.function.first_instruction_address
}

proof fn lemma_step_opens(source: Source, cursor: Cursor, fetched: Fetched)
    requires
        are_of_step(source, items_of(step(source, cursor, fetched)), cursor.address),
    ensures
        first_is_opened(source, items_of(step(source, cursor, fetched))),
{
    reveal(step);
    let items = items_of(step(source, cursor, fetched));
    let labels = items_of(label_lines(source, cursor.address, cursor.table));
    assert forall|i: int|
        0 <= i < items.len() && is_first_instruction(source, #[trigger] items[i]) implies exists|
        k: int,
    |
        0 <= k < i && #[trigger] items[k] is Opening by {
        assert(cursor.address == source.function.first_instruction_address);
        assert(labels[0] is Opening);
        assert(items[0] is Opening);
        assert(i != 0);
    }
}

proof fn lemma_lines_open(source: Source, cursor: Cursor)
    requires
        source.is_loaded(),
        source.function.start_address <= cursor.address <= source.function.end_address,
        cursor.address == source.function.start_address || !source.is_pool_constant(
            cursor.address,
        ),
    ensures
        first_is_opened(source, items_of(lines_from(source, cursor))),
    decreases source.function.end_address - cursor.address,
{
    if let Some(fetched) = fetch(cursor.mode, cursor.address, source.rest(cursor.address)) {
        lemma_step(source, cursor);
        lemma_step_advances(source, cursor);
        lemma_step_opens(source, cursor, fetched);
        if let Progress::Go { items: first, value: next } = step(source, cursor, fetched) {
            lemma_lines_open(source, next);
            let second = items_of(lines_from(source, next));
            let items = first + second;
            assert forall|i: int|
                0 <= i < items.len() && is_first_instruction(
                    source,
                    #[trigger] items[i],
                ) implies exists|k: int| 0 <= k < i && #[trigger] items[k] is Opening by {
                if i < first.len() {
                    assert(first[i] == items[i]);
                    let k = choose|k: int| 0 <= k < i && #[trigger] first[k] is Opening;
                    assert(items[k] is Opening);
                } else {
                    let n = first.len() as int;
                    assert(second[i - n] == items[i]);
                    let k = choose|k: int| 0 <= k < i - n && #[trigger] second[k] is Opening;
                    assert(items[k + n] is Opening);
                }
            }
        }
    }
}

/// Where the first instruction of a function is listed, the function is opened
/// exactly once, and in front of it.
pub proof fn law_first_instruction_is_opened(source: Source, i: int)
    requires
        0 <= i < items_of(listing(source)).len(),
        is_first_instruction(source, items_of(listing(source))[i]),
    ensures
        exists|k: int| 0 <= k < i && #[trigger] items_of(listing(source))[k] is Opening,
        forall|j: int, k: int|
            0 <= j < items_of(listing(source)).len() && 0 <= k < items_of(listing(source)).len()
                && #[trigger] items_of(listing(source))[j] is Opening && #[trigger] items_of(
                listing(source),
            )[k] is Opening ==> j == k,
{
    if source.is_loaded() {
        lemma_lines_from(source, first_cursor(source));
        lemma_lines_open(source, first_cursor(source));
    }
}

/// Whether an item is the label of a pool constant at `low` or behind it, and of one
/// that the function has under that name.
pub open spec fn is_constant_from(source: Source, item: Item, low: nat) -> bool {
    item matches Item::ConstantLabel { address, name } ==> {
        &&& low <= address
        &&& source.is_pool_constant(address)
        &&& source.find(address, Wanted::PoolConstant) matches Found::One(symbol)
        &&& symbol.name == name
    }
}

/// Whether all constants among the items are right, and in order.
spec fn are_constants_in_order(source: Source, items: Seq<Item>, low: nat) -> bool {
    &&& forall|i: int| 0 <= i < items.len() ==> is_constant_from(source, #[trigger] items[i], low)
    &&& forall|i: int, j: int|
        0 <= i < j < items.len() && #[trigger] items[i] is ConstantLabel
            && #[trigger] items[j] is ConstantLabel ==> items[i]->ConstantLabel_address + 4
            <= items[j]->ConstantLabel_address
}

/// Whether all constants among the items end at `high` or in front of it.
spec fn are_constants_below(items: Seq<Item>, high: nat) -> bool {
    forall|i: int|
        0 <= i < items.len() && #[trigger] items[i] is ConstantLabel
            ==> items[i]->ConstantLabel_address + 4 <= high
}

proof fn lemma_constants_concat(
    source: Source,
    first: Seq<Item>,
    second: Seq<Item>,
    low: nat,
    middle: nat,
)
    requires
        are_constants_in_order(source, first, low),
        are_constants_below(first, middle),
        are_constants_in_order(source, second, middle),
        low <= middle,
    ensures
        are_constants_in_order(source, first + second, low),
        forall|high: nat|
            middle <= high && #[trigger] are_constants_below(second, high) ==> are_constants_below(
                first + second,
                high,
            ),
{
}

proof fn lemma_pool_constants(source: Source, address: nat)
    ensures
        are_constants_in_order(source, items_of(pool_lines(source, address)), address),
        pool_lines(source, address) matches Progress::Go { items, value } ==> are_constants_below(
            items,
            value,
        ),
    decreases u32::MAX + 4 - address,
{
    if address <= u32::MAX && source.is_pool_constant(address) {
        if let Found::One(symbol) = source.find(address, Wanted::PoolConstant) {
            if let Progress::Go { items, .. } = constant_line(source, address, symbol.name) {
                lemma_pool_constants(source, address + 4);
                lemma_pool_lines(source, address + 4);
                lemma_constants_concat(
                    source,
                    items,
                    items_of(pool_lines(source, address + 4)),
                    address,
                    address + 4,
                );
            }
        }
    }
}

proof fn lemma_content_constants(
    source: Source,
    mode: ParseMode,
    address: nat,
    fetched: Fetched,
    table: Option<ActiveTable>,
)
    ensures
        ({
            let content = content_lines(source, mode, address, fetched, table);
            &&& are_constants_in_order(source, items_of(content), address)
            &&& content matches Progress::Go { items, value } ==> are_constants_below(
                items,
                address + value.size,
            )
        }),
{
}

proof fn lemma_step_constants(source: Source, cursor: Cursor, fetched: Fetched)
    ensures
        ({
            let progress = step(source, cursor, fetched);
            &&& are_constants_in_order(source, items_of(progress), cursor.address)
            &&& progress matches Progress::Go { items, value } ==> are_constants_below(
                items,
                value.address,
            )
        }),
{
    reveal(step);
    let address = cursor.address;
    let labels = label_lines(source, address, cursor.table);
    if let Progress::Go { items: first, value: table } = labels {
        let content = content_lines(source, cursor.mode, address, fetched, table);
        lemma_content_constants(source, cursor.mode, address, fetched, table);
        lemma_constants_concat(source, first, items_of(content), address, address);
        if let Progress::Go { items: second, value: passed } = content {
            let behind = address + passed.size;
            assert(are_constants_below(second, behind));
            lemma_pool_constants(source, behind);
            lemma_pool_lines(source, behind);
            let third = items_of(pool_lines(source, behind));
            lemma_constants_concat(source, first + second, third, address, behind);
            if let Progress::Go { value: stop, .. } = pool_lines(source, behind) {
                assert(are_constants_below(third, stop));
                assert(are_constants_below(first + second + third, stop));
            }
        }
    }
}

proof fn lemma_lines_constants(source: Source, cursor: Cursor)
    requires
        source.is_loaded(),
        source.function.start_address <= cursor.address <= source.function.end_address,
    ensures
        are_constants_in_order(source, items_of(lines_from(source, cursor)), cursor.address),
    decreases source.function.end_address - cursor.address,
{
    if let Some(fetched) = fetch(cursor.mode, cursor.address, source.rest(cursor.address)) {
        lemma_step_constants(source, cursor, fetched);
        lemma_step_advances(source, cursor);
        if let Progress::Go { items: first, value: next } = step(source, cursor, fetched) {
            lemma_lines_constants(source, next);
            lemma_constants_concat(
                source,
                first,
                items_of(lines_from(source, next)),
                cursor.address,
                next.address,
            );
        }
    }
}

/// Whatever is labelled as a pool constant is one that the function loads, inside of
/// the function or behind it, under the name that it has.
pub proof fn law_labelled_constants_are_pool_constants(source: Source, i: int)
    requires
        0 <= i < items_of(listing(source)).len(),
    ensures
        is_constant_from(
            source,
            items_of(listing(source))[i],
            source.function.start_address as nat,
        ),
{
    if source.is_loaded() {
        lemma_lines_constants(source, first_cursor(source));
    }
}

/// Pool constants are listed in the order of their addresses, and none is listed
/// twice, not even in part.
pub proof fn law_constants_are_in_order(source: Source, i: int, j: int)
    requires
        0 <= i < j < items_of(listing(source)).len(),
        items_of(listing(source))[i] is ConstantLabel,
        items_of(listing(source))[j] is ConstantLabel,
    ensures
        items_of(listing(source))[i]->ConstantLabel_address + 4 <= items_of(
            listing(source),
        )[j]->ConstantLabel_address,
{
    if source.is_loaded() {
        lemma_lines_constants(source, first_cursor(source));
    }
}

/// The listing of a function that begins with an instruction begins with the
/// directives that open the function, even where the listing ends early.
pub proof fn law_listing_begins_with_opening(source: Source)
    requires
        source.function.start_address == source.function.first_instruction_address,
        source.is_loaded(),
        fetch(
            source.main_mode(),
            source.function.start_address as nat,
            source.rest(source.function.start_address as nat),
        ) is Some,
        !(listing(source) is Stuck),
    ensures
        items_of(listing(source)).len() > 0,
        items_of(listing(source))[0] is Opening,
{
    reveal(step);
    lemma_step_advances(source, first_cursor(source));
    let labels = label_lines(source, source.function.start_address as nat, None);
    assert(items_of(labels)[0] is Opening);
    let fetched = fetch(
        source.main_mode(),
        source.function.start_address as nat,
        source.rest(source.function.start_address as nat),
    )->0;
    assert(items_of(step(source, first_cursor(source), fetched))[0] is Opening);
}

/// A listing that does not end early ends with the directives that close the
/// function, and has them nowhere else.
pub proof fn law_listing_ends_with_closing(source: Source)
    requires
        listing(source) is Go,
    ensures
        items_of(listing(source)).len() > 0,
        items_of(listing(source)).last() is Closing,
        forall|i: int|
            0 <= i < items_of(listing(source)).len() - 1 ==> !(#[trigger] items_of(
                listing(source),
            )[i] is Closing),
        assembly_of(source) matches Some(Assembly { text, problem }) && problem is None
            && render(source, Item::Closing).is_suffix_of(text),
{
    lemma_lines_from(source, first_cursor(source));
    let items = items_of(listing(source));
    let front = items.drop_last();
    lemma_render_push(source, front, Item::Closing);
    assert(front.push(Item::Closing) =~= items);
    let text = render_all(source, items);
    let closing = render(source, Item::Closing);
    assert(closing =~= text.subrange(text.len() - closing.len(), text.len() as int));
}

/// Whether the name of the pool constant at `address` labels one of the items
/// behind `i`.
pub open spec fn is_labelled_behind(
    source: Source,
    items: Seq<Item>,
    i: int,
    address: nat,
) -> bool {
    &&& source.find(address, Wanted::PoolConstant) is One
    &&& exists|k: int|
        i < k < items.len() && #[trigger] items[k] == (Item::ConstantLabel {
            address,
            name: source.find(address, Wanted::PoolConstant)->One_0.name,
        })
}

/// The address behind an instruction.
pub open spec fn end_of(item: Item) -> nat {
    item->Instruction_address + item->Instruction_data.len()
}

/// Whether `item` is an instruction right in front of a pool constant.
pub open spec fn is_before_pool(source: Source, item: Item) -> bool {
    item is Instruction && source.is_pool_constant(end_of(item))
}

spec fn pools_are_labelled(source: Source, items: Seq<Item>) -> bool {
    forall|i: int|
        0 <= i < items.len() && is_before_pool(source, #[trigger] items[i]) ==> is_labelled_behind(
            source,
            items,
            i,
            end_of(items[i]),
        )
}

proof fn lemma_step_labels_pool(source: Source, cursor: Cursor)
    requires
        source.is_loaded(),
        source.function.start_address <= cursor.address <= source.function.end_address,
        fetch(cursor.mode, cursor.address, source.rest(cursor.address)) is Some,
        cursor.address == source.function.start_address || !source.is_pool_constant(
            cursor.address,
        ),
        step(
            source,
            cursor,
            fetch(cursor.mode, cursor.address, source.rest(cursor.address))->0,
        ) is Go,
    ensures
        pools_are_labelled(
            source,
            items_of(
                step(
                    source,
                    cursor,
                    fetch(cursor.mode, cursor.address, source.rest(cursor.address))->0,
                ),
            ),
        ),
{
    reveal(step);
    let address = cursor.address;
    let fetched = fetch(cursor.mode, address, source.rest(address))->0;
    let labels = label_lines(source, address, cursor.table);
    let table = labels->Go_value;
    let content = content_lines(source, cursor.mode, address, fetched, table);
    lemma_content_lines(source, cursor.mode, address, table);
    lemma_step(source, cursor);
    let lines = labels->Go_items + content->Go_items;
    let behind = address + content->Go_value.size;
    let pool = pool_lines(source, behind);
    lemma_pool_lines(source, behind);
    let items = lines + pool->Go_items;
    assert forall|i: int|
        0 <= i < items.len() && is_before_pool(
            source,
            #[trigger] items[i],
        ) implies is_labelled_behind(source, items, i, end_of(items[i])) by {
        assert(i < lines.len());
        assert(content->Go_items[0] is Instruction) by {
            assert(i >= labels->Go_items.len());
            assert(items[i] == content->Go_items[i - labels->Go_items.len()]);
        }
        assert(items[i] == content->Go_items[0]);
        assert(behind == address + items[i]->Instruction_data.len());
        let symbol = source.find(behind, Wanted::PoolConstant)->One_0;
        assert(pool->Go_items[0] == (Item::ConstantLabel {
            address: behind,
            name: symbol.name,
        }));
        assert(items[lines.len() as int] == pool->Go_items[0]);
    }
}

proof fn lemma_lines_label_pools(source: Source, cursor: Cursor)
    requires
        source.is_loaded(),
        source.function.start_address <= cursor.address <= source.function.end_address,
        cursor.address == source.function.start_address || !source.is_pool_constant(
            cursor.address,
        ),
        lines_from(source, cursor) is Go,
    ensures
        pools_are_labelled(source, items_of(lines_from(source, cursor))),
    decreases source.function.end_address - cursor.address,
{
    if let Some(fetched) = fetch(cursor.mode, cursor.address, source.rest(cursor.address)) {
        lemma_step(source, cursor);
        lemma_step_advances(source, cursor);
        lemma_step_labels_pool(source, cursor);
        let first = step(source, cursor, fetched)->Go_items;
        let next = step(source, cursor, fetched)->Go_value;
        lemma_lines_label_pools(source, next);
        let second = lines_from(source, next)->Go_items;
        let items = first + second;
        assert forall|i: int|
            0 <= i < items.len() && is_before_pool(
                source,
                #[trigger] items[i],
            ) implies is_labelled_behind(source, items, i, end_of(items[i])) by {
            let end = end_of(items[i]);
            let label = Item::ConstantLabel {
                address: end,
                name: source.find(end, Wanted::PoolConstant)->One_0.name,
            };
            if i < first.len() {
                assert(first[i] == items[i]);
                let k = choose|k: int| i < k < first.len() && #[trigger] first[k] == label;
                assert(items[k] == label);
            } else {
                let n = first.len() as int;
                assert(second[i - n] == items[i]);
                let k = choose|k: int| i - n < k < second.len() && #[trigger] second[k] == label;
                assert(items[k + n] == label);
            }
        }
    }
}

/// In a listing that does not end early, a pool constant right behind an
/// instruction is labelled behind it, also behind a Thumb `bl` or `blx`, which takes
/// four bytes.
pub proof fn law_pool_behind_instruction_is_labelled(source: Source, i: int)
    requires
        listing(source) is Go,
        0 <= i < items_of(listing(source)).len(),
        is_before_pool(source, items_of(listing(source))[i]),
    ensures
        is_labelled_behind(
            source,
            items_of(listing(source)),
            i,
            end_of(items_of(listing(source))[i]),
        ),
{
    lemma_lines_label_pools(source, first_cursor(source));
}

/// Whether `item` is a pool constant right in front of another one.
pub open spec fn is_before_constant(source: Source, item: Item) -> bool {
    item is ConstantLabel && source.is_pool_constant(item->ConstantLabel_address + 4)
}

spec fn pools_go_on(source: Source, items: Seq<Item>) -> bool {
    forall|i: int|
        0 <= i < items.len() && is_before_constant(source, #[trigger] items[i])
            ==> is_labelled_behind(source, items, i, items[i]->ConstantLabel_address + 4)
}

proof fn lemma_labelled_concat(
    source: Source,
    first: Seq<Item>,
    second: Seq<Item>,
    i: int,
    address: nat,
)
    requires
        0 <= i,
    ensures
        is_labelled_behind(source, first, i, address) ==> is_labelled_behind(
            source,
            first + second,
            i,
            address,
        ),
        is_labelled_behind(source, second, i, address) ==> is_labelled_behind(
            source,
            first + second,
            i + first.len(),
            address,
        ),
{
    let items = first + second;
    let label = Item::ConstantLabel {
        address,
        name: source.find(address, Wanted::PoolConstant)->One_0.name,
    };
    if is_labelled_behind(source, first, i, address) {
        let k = choose|k: int| i < k < first.len() && #[trigger] first[k] == label;
        assert(items[k] == label);
    }
    if is_labelled_behind(source, second, i, address) {
        let k = choose|k: int| i < k < second.len() && #[trigger] second[k] == label;
        assert(items[k + first.len()] == label);
    }
}

proof fn lemma_pools_concat(source: Source, first: Seq<Item>, second: Seq<Item>)
    requires
        pools_go_on(source, first),
        pools_go_on(source, second),
    ensures
        pools_go_on(source, first + second),
{
    let items = first + second;
    let n = first.len() as int;
    assert forall|i: int|
        0 <= i < items.len() && is_before_constant(
            source,
            #[trigger] items[i],
        ) implies is_labelled_behind(source, items, i, items[i]->ConstantLabel_address + 4) by {
        let address = items[i]->ConstantLabel_address + 4;
        if i < n {
            assert(first[i] == items[i]);
            lemma_labelled_concat(source, first, second, i, address);
        } else {
            assert(second[i - n] == items[i]);
            lemma_labelled_concat(source, first, second, i - n, address);
        }
    }
}

/// A pool that begins at `address` goes on behind items whose only constant ends
/// there.
proof fn lemma_pool_goes_on(source: Source, first: Seq<Item>, address: nat)
    requires
        pool_lines(source, address) is Go,
        pools_go_on(source, pool_lines(source, address)->Go_items),
        forall|i: int|
            0 <= i < first.len() && #[trigger] first[i] is ConstantLabel
                ==> first[i]->ConstantLabel_address + 4 == address,
    ensures
        pools_go_on(source, first + pool_lines(source, address)->Go_items),
{
    let pool = pool_lines(source, address)->Go_items;
    let items = first + pool;
    let n = first.len() as int;
    assert forall|i: int|
        0 <= i < items.len() && is_before_constant(
            source,
            #[trigger] items[i],
        ) implies is_labelled_behind(source, items, i, items[i]->ConstantLabel_address + 4) by {
        if i < n {
            assert(first[i] == items[i]);
            let symbol = source.find(address, Wanted::PoolConstant)->One_0;
            assert(pool[0] == (Item::ConstantLabel { address, name: symbol.name }));
            assert(items[n] == pool[0]);
        } else {
            assert(pool[i - n] == items[i]);
            let behind = items[i]->ConstantLabel_address + 4;
            lemma_labelled_concat(source, first, pool, i - n, behind);
        }
    }
}

proof fn lemma_pool_lines_go_on(source: Source, address: nat)
    requires
        pool_lines(source, address) is Go,
    ensures
        pools_go_on(source, pool_lines(source, address)->Go_items),
    decreases u32::MAX + 4 - address,
{
    if source.is_pool_constant(address) {
        let symbol = source.find(address, Wanted::PoolConstant)->One_0;
        let line = constant_line(source, address, symbol.name)->Go_items;
        lemma_pool_lines_go_on(source, address + 4);
        lemma_pool_goes_on(source, line, address + 4);
    }
}

proof fn lemma_content_constant_ends(
    source: Source,
    mode: ParseMode,
    address: nat,
    fetched: Fetched,
    table: Option<ActiveTable>,
)
    ensures
        content_lines(source, mode, address, fetched, table) matches Progress::Go { items, value }
            ==> forall|i: int|
            0 <= i < items.len() && #[trigger] items[i] is ConstantLabel
                ==> items[i]->ConstantLabel_address + 4 == address + value.size,
{
}

proof fn lemma_step_goes_on(source: Source, cursor: Cursor, fetched: Fetched)
    requires
        step(source, cursor, fetched) is Go,
    ensures
        pools_go_on(source, step(source, cursor, fetched)->Go_items),
{
    reveal(step);
    let address = cursor.address;
    let labels = label_lines(source, address, cursor.table);
    let table = labels->Go_value;
    let content = content_lines(source, cursor.mode, address, fetched, table);
    let behind = address + content->Go_value.size;
    lemma_content_constant_ends(source, cursor.mode, address, fetched, table);
    lemma_pool_lines_go_on(source, behind);
    lemma_pool_goes_on(source, labels->Go_items + content->Go_items, behind);
}

proof fn lemma_lines_go_on(source: Source, cursor: Cursor)
    requires
        source.is_loaded(),
        source.function.start_address <= cursor.address <= source.function.end_address,
        lines_from(source, cursor) is Go,
    ensures
        pools_go_on(source, lines_from(source, cursor)->Go_items),
    decreases source.function.end_address - cursor.address,
{
    if let Some(fetched) = fetch(cursor.mode, cursor.address, source.rest(cursor.address)) {
        lemma_step_advances(source, cursor);
        let first = step(source, cursor, fetched)->Go_items;
        let next = step(source, cursor, fetched)->Go_value;
        lemma_step_goes_on(source, cursor, fetched);
        lemma_lines_go_on(source, next);
        lemma_pools_concat(source, first, lines_from(source, next)->Go_items);
    }
}

/// In a listing that does not end early, a pool constant right behind a listed pool
/// constant is labelled behind it: a pool is listed to its end.
pub proof fn law_pool_is_listed_to_its_end(source: Source, i: int)
    requires
        listing(source) is Go,
        0 <= i < items_of(listing(source)).len(),
        is_before_constant(source, items_of(listing(source))[i]),
    ensures
        is_labelled_behind(
            source,
            items_of(listing(source)),
            i,
            items_of(listing(source))[i]->ConstantLabel_address + 4,
        ),
{
    lemma_lines_go_on(source, first_cursor(source));
}

/// Whether all words from `address` to `end` are pool constants.
pub open spec fn is_pool(source: Source, address: nat, end: nat) -> bool {
    forall|a: nat|
        address <= a < end && (a - address) % 4 == 0 ==> #[trigger] source.is_pool_constant(a)
}

proof fn lemma_pool_end(source: Source, address: nat, end: nat)
    requires
        address <= end,
        (end - address) % 4 == 0,
        is_pool(source, address, end),
        !source.is_pool_constant(end),
        pool_lines(source, address) is Go,
    ensures
        pool_lines(source, address)->Go_value == end,
    decreases end - address,
{
    if address < end {
        assert(source.is_pool_constant(address));
        assert(is_pool(source, address + 4, end)) by {
            assert forall|a: nat| address + 4 <= a < end && (a - (address + 4)) % 4
                == 0 implies #[trigger] source.is_pool_constant(a) by {
                assert((a - address) % 4 == 0);
            }
        }
        lemma_pool_end(source, address + 4, end);
    }
}

/// Where a function's code sits behind a pool with a name for its first constant,
/// the first step of the listing writes the whole pool, beginning with that name,
/// and goes on with the first instruction, which it reads as code.
pub proof fn law_leading_pool_is_labelled(source: Source, fetched: Fetched)
    requires
        source.is_loaded(),
        source.function.start_address < source.function.first_instruction_address,
        (source.function.first_instruction_address - source.function.start_address) % 4 == 0,
        is_pool(
            source,
            source.function.start_address as nat,
            source.function.first_instruction_address as nat,
        ),
        !source.is_pool_constant(source.function.first_instruction_address as nat),
        source.find(source.function.start_address as nat, Wanted::PoolConstant) is One,
        fetch(
            ParseMode::Data,
            source.function.start_address as nat,
            source.rest(source.function.start_address as nat),
        ) == Some(fetched),
        step(source, first_cursor(source), fetched) is Go,
    ensures
        ({
            let start = source.function.start_address as nat;
            let items = step(source, first_cursor(source), fetched)->Go_items;
            let next = step(source, first_cursor(source), fetched)->Go_value;
            let labels = items_of(label_lines(source, start, None)).len() as int;
            &&& next.address == source.function.first_instruction_address
            &&& next.mode == source.main_mode()
            &&& labels < items.len()
            &&& items[labels] == (Item::ConstantLabel {
                address: start,
                name: source.find(start, Wanted::PoolConstant)->One_0.name,
            })
            &&& forall|i: int| 0 <= i < items.len() ==> !(#[trigger] items[i] is Instruction)
        }),
{
    reveal(step);
    let start = source.function.start_address as nat;
    let first = source.function.first_instruction_address as nat;
    assert(source.is_pool_constant(start));
    let labels = label_lines(source, start, None);
    let content = content_lines(source, ParseMode::Data, start, fetched, labels->Go_value);
    let pool = pool_lines(source, start + 4);
    assert(is_pool(source, start + 4, first)) by {
        assert forall|a: nat| start + 4 <= a < first && (a - (start + 4)) % 4
            == 0 implies #[trigger] source.is_pool_constant(a) by {
            assert((a - start) % 4 == 0);
        }
    }
    lemma_pool_end(source, start + 4, first);
    lemma_pool_lines(source, start + 4);
    let items = labels->Go_items + content->Go_items + pool->Go_items;
    assert(items =~= step(source, first_cursor(source), fetched)->Go_items);
    assert(items[labels->Go_items.len() as int] == content->Go_items[0]);
}

} // verus!
