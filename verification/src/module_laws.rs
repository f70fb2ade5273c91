//! Which bytes of a module matter to a listing.

use vstd::prelude::*;

use crate::decoder::{fetch, Fetched, ParseMode};
use crate::functions::assembly_of;
use crate::listing::{
    code_lines, constant_line, content_lines, data_word_line, first_cursor, label_lines,
    lemma_step_advances, lines_from, listing, pool_lines, render, render_all, step, ActiveTable,
    Cursor, Item, Progress, Source,
};
use crate::symbols::{Found, Wanted};

verus! {

/// Whether two sources are for the same function, with the same bytes of it.
pub open spec fn have_same_function(a: Source, b: Source) -> bool {
    &&& a.function == b.function
    &&& a.symbols == b.symbols
    &&& a.ual == b.ual
    &&& a.is_loaded()
    &&& b.is_loaded()
    &&& a.rest(a.function.start_address as nat) == b.rest(b.function.start_address as nat)
}

/// Whether `b` has the word at `address`, if `a` has it.
spec fn has_word_of(a: Source, b: Source, address: nat) -> bool {
    a.holds_word(address) ==> b.holds_word(address) && b.word(address) == a.word(address)
}

/// Whether `b` has the pool constants that `a` has.
spec fn has_pool_of(a: Source, b: Source) -> bool {
    forall|address: nat| #[trigger] a.is_pool_constant(address) ==> has_word_of(a, b, address)
}

/// Whether `b` has all words that `a` has.
spec fn has_words_of(a: Source, b: Source) -> bool {
    forall|address: nat| #[trigger] has_word_of(a, b, address)
}

proof fn lemma_same_rest(a: Source, b: Source, address: nat)
    requires
        have_same_function(a, b),
        a.function.start_address <= address <= a.function.end_address,
    ensures
        a.rest(address) == b.rest(address),
        address + 4 <= a.function.end_address ==> has_word_of(a, b, address),
{
    let start = a.function.start_address as nat;
    assert(a.rest(address) =~= a.rest(start).skip(address - start));
    assert(b.rest(address) =~= b.rest(start).skip(address - start));
    if address + 4 <= a.function.end_address {
        let x = a.rest(address);
        let y = b.rest(address);
        let i = address - a.base;
        let j = address - b.base;
        assert(a.code[i] == x[0] && a.code[i + 1] == x[1] && a.code[i + 2] == x[2] && a.code[i + 3]
            == x[3]);
        assert(b.code[j] == y[0] && b.code[j + 1] == y[1] && b.code[j + 2] == y[2] && b.code[j + 3]
            == y[3]);
    }
}

proof fn lemma_same_pool(a: Source, b: Source, address: nat)
    requires
        have_same_function(a, b),
        has_pool_of(a, b),
        !(pool_lines(a, address) is Stuck),
    ensures
        pool_lines(b, address) == pool_lines(a, address),
    decreases u32::MAX + 4 - address,
{
    if address <= u32::MAX && a.is_pool_constant(address) {
        assert(has_word_of(a, b, address));
        if let Found::One(symbol) = a.find(address, Wanted::PoolConstant) {
            assert(constant_line(a, address, symbol.name) == constant_line(
                b,
                address,
                symbol.name,
            ));
            if constant_line(a, address, symbol.name) is Go {
                lemma_same_pool(a, b, address + 4);
            }
        }
    }
}

proof fn lemma_same_code(
    a: Source,
    b: Source,
    mode: ParseMode,
    address: nat,
    fetched: Fetched,
    table: Option<ActiveTable>,
)
    requires
        have_same_function(a, b),
        a.function.start_address <= address <= a.function.end_address,
        ({
            let lines = code_lines(a, mode, address, fetched, table);
            lines is Go || has_words_of(a, b) && !(lines is Stuck)
        }),
    ensures
        code_lines(b, mode, address, fetched, table) == code_lines(
            a,
            mode,
            address,
            fetched,
            table,
        ),
{
    lemma_same_rest(a, b, address);
    let word = data_word_line(a, address);
    if word is Go || has_words_of(a, b) && !(word is Stuck) {
        assert(has_word_of(a, b, address));
        assert(data_word_line(b, address) == word);
    }
}

proof fn lemma_same_content(
    a: Source,
    b: Source,
    mode: ParseMode,
    address: nat,
    fetched: Fetched,
    table: Option<ActiveTable>,
)
    requires
        have_same_function(a, b),
        has_pool_of(a, b),
        a.function.start_address <= address <= a.function.end_address,
        ({
            let lines = content_lines(a, mode, address, fetched, table);
            lines is Go || has_words_of(a, b) && !(lines is Stuck)
        }),
    ensures
        content_lines(b, mode, address, fetched, table) == content_lines(
            a,
            mode,
            address,
            fetched,
            table,
        ),
{
    let constant = a.find(address, Wanted::PoolConstant);
    if constant is Several {
    } else if constant is One && a.is_pool_constant(address) {
        assert(has_word_of(a, b, address));
        assert(constant_line(a, address, constant->One_0.name) == constant_line(
            b,
            address,
            constant->One_0.name,
        ));
    } else if let Found::One(symbol) = a.find(address, Wanted::Data) {
        lemma_same_rest(a, b, address);
    } else if a.find(address, Wanted::Data) is Nothing {
        lemma_same_code(a, b, mode, address, fetched, table);
    }
}

proof fn lemma_same_step(a: Source, b: Source, cursor: Cursor, fetched: Fetched)
    requires
        have_same_function(a, b),
        has_pool_of(a, b),
        a.function.start_address <= cursor.address <= a.function.end_address,
        step(a, cursor, fetched) is Go || has_words_of(a, b) && !(step(
            a,
            cursor,
            fetched,
        ) is Stuck),
    ensures
        step(b, cursor, fetched) == step(a, cursor, fetched),
{
    reveal(step);
    let labels = label_lines(a, cursor.address, cursor.table);
    assert(label_lines(b, cursor.address, cursor.table) == labels);
    if let Progress::Go { value: table, .. } = labels {
        lemma_same_content(a, b, cursor.mode, cursor.address, fetched, table);
        let content = content_lines(a, cursor.mode, cursor.address, fetched, table);
        if let Progress::Go { value: passed, .. } = content {
            lemma_same_pool(a, b, cursor.address + passed.size);
        }
    }
}

proof fn lemma_same_lines(a: Source, b: Source, cursor: Cursor)
    requires
        have_same_function(a, b),
        has_pool_of(a, b),
        a.function.start_address <= cursor.address <= a.function.end_address,
        lines_from(a, cursor) is Go || has_words_of(a, b) && !(lines_from(a, cursor) is Stuck),
    ensures
        lines_from(b, cursor) == lines_from(a, cursor),
    decreases a.function.end_address - cursor.address,
{
    lemma_same_rest(a, b, cursor.address);
    if let Some(fetched) = fetch(cursor.mode, cursor.address, a.rest(cursor.address)) {
        lemma_same_step(a, b, cursor, fetched);
        lemma_step_advances(a, cursor);
        if let Progress::Go { value, .. } = step(a, cursor, fetched) {
            lemma_same_lines(a, b, value);
        }
    }
}

proof fn lemma_same_text(a: Source, b: Source, items: Seq<Item>)
    requires
        have_same_function(a, b),
    ensures
        render_all(a, items) == render_all(b, items),
    decreases items.len(),
{
    if items.len() > 0 {
        lemma_same_text(a, b, items.drop_last());
        assert(render(a, items.last()) == render(b, items.last()));
    }
}

proof fn lemma_same_listing(a: Source, b: Source)
    requires
        have_same_function(a, b),
        has_pool_of(a, b),
        listing(a) is Go || has_words_of(a, b) && !(listing(a) is Stuck),
    ensures
        listing(b) == listing(a),
        assembly_of(b) == assembly_of(a),
{
    lemma_same_lines(a, b, first_cursor(a));
    match listing(a) {
        Progress::Go { items, .. } => {
            lemma_same_text(a, b, items);
        },
        Progress::Fail { items, .. } => {
            lemma_same_text(a, b, items);
        },
        Progress::Stuck => {},
    }
}

/// Of a module, only the bytes of the function matter to a listing that does not end
/// early, wherever the module begins and ends, if the function's constants are all
/// inside of it.
pub proof fn law_only_bytes_of_the_function_matter(a: Source, b: Source)
    requires
        have_same_function(a, b),
        forall|p: u32| #[trigger]
            a.function.pool_constants@.contains(p) ==> a.function.start_address <= p && p + 4
                <= a.function.end_address,
        listing(a) is Go,
    ensures
        listing(b) == listing(a),
        assembly_of(b) == assembly_of(a),
{
    assert forall|address: nat| #[trigger] a.is_pool_constant(address) implies has_word_of(
        a,
        b,
        address,
    ) by {
        assert(a.function.pool_constants@.contains(address as u32));
        lemma_same_rest(a, b, address);
    }
    lemma_same_listing(a, b);
}

/// A module with more bytes in front of it and behind it, as far as there are
/// addresses for them.
pub open spec fn with_bytes_around(source: Source, front: Seq<u8>, back: Seq<u8>) -> Source {
    Source {
        code: front + source.code + back,
        base: (source.base - front.len()) as u32,
        ..source
    }
}

/// Bytes in front of a module and behind it do not matter to a listing, even where it
/// ends early.
pub proof fn law_bytes_around_the_module_do_not_matter(
    source: Source,
    front: Seq<u8>,
    back: Seq<u8>,
)
    requires
        front.len() <= source.base,
        !(listing(source) is Stuck),
    ensures
        listing(with_bytes_around(source, front, back)) == listing(source),
        assembly_of(with_bytes_around(source, front, back)) == assembly_of(source),
{
    let wide = with_bytes_around(source, front, back);
    let start = source.function.start_address as nat;
    assert(wide.rest(start) =~= source.rest(start));
    assert forall|address: nat| #[trigger] has_word_of(source, wide, address) by {
        if source.holds_word(address) {
            let i = address - source.base;
            let j = address - wide.base;
            assert(j == i + front.len());
            assert(wide.code[j] == source.code[i]);
            assert(wide.code[j + 1] == source.code[i + 1]);
            assert(wide.code[j + 2] == source.code[i + 2]);
            assert(wide.code[j + 3] == source.code[i + 3]);
        }
    }
    lemma_same_listing(source, wide);
}

} // verus!
