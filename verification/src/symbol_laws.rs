//! What searches among symbols and references find.

use vstd::prelude::*;

use crate::program::{symbols_in, ModuleKind, ModuleSymbols};
use crate::symbols::{
    find_inline_table, find_reference, matches_at, search_agrees, sole, Answer, Found, InlineTable,
    Reference, Reply, SymData, Symbol, SymbolLookup, SymbolMap, SymbolMapError, SymbolView, Wanted,
};

verus! {

/// Whether the symbol at place `i` is the only one that `p` holds of.
pub open spec fn is_only(
    symbols: Seq<SymbolView>,
    p: spec_fn(SymbolView) -> bool,
    i: int,
) -> bool {
    &&& 0 <= i < symbols.len()
    &&& p(symbols[i])
    &&& forall|j: int| 0 <= j < symbols.len() && p(#[trigger] symbols[j]) ==> j == i
}

/// Whether `p` holds of no symbol.
pub open spec fn is_none(symbols: Seq<SymbolView>, p: spec_fn(SymbolView) -> bool) -> bool {
    forall|i: int| 0 <= i < symbols.len() ==> !p(#[trigger] symbols[i])
}

/// Whether `symbol` is the only one that `p` holds of.
pub open spec fn is_one(
    symbols: Seq<SymbolView>,
    p: spec_fn(SymbolView) -> bool,
    symbol: SymbolView,
) -> bool {
    exists|i: int| #[trigger] is_only(symbols, p, i) && symbols[i] == symbol
}

/// Whether `p` holds of the symbols at two places.
pub open spec fn are_two(
    symbols: Seq<SymbolView>,
    p: spec_fn(SymbolView) -> bool,
    i: int,
    j: int,
) -> bool {
    0 <= i < j < symbols.len() && p(symbols[i]) && p(symbols[j])
}

/// Whether `p` holds of several symbols.
pub open spec fn are_several(symbols: Seq<SymbolView>, p: spec_fn(SymbolView) -> bool) -> bool {
    exists|i: int, j: int| #[trigger] are_two(symbols, p, i, j)
}

pub open spec fn label_at(address: nat) -> spec_fn(SymbolView) -> bool {
    |s: SymbolView| s.addr == address && s.kind is Label
}

pub open spec fn constant_at(address: nat) -> spec_fn(SymbolView) -> bool {
    |s: SymbolView| s.addr == address && s.kind is PoolConstant
}

pub open spec fn table_at(address: nat) -> spec_fn(SymbolView) -> bool {
    |s: SymbolView| s.addr == address && s.kind is JumpTable
}

pub open spec fn data_at(address: nat) -> spec_fn(SymbolView) -> bool {
    |s: SymbolView| s.addr == address && s.kind is Data
}

pub open spec fn any_at(address: nat) -> spec_fn(SymbolView) -> bool {
    |s: SymbolView| s.addr == address
}

proof fn lemma_filter(symbols: Seq<SymbolView>, p: spec_fn(SymbolView) -> bool)
    ensures
        symbols.filter(p).len() == 0 <==> is_none(symbols, p),
        symbols.filter(p).len() == 1 ==> is_one(symbols, p, symbols.filter(p)[0]),
        symbols.filter(p).len() > 1 ==> are_several(symbols, p),
    decreases symbols.len(),
{
    reveal(Seq::filter);
    if symbols.len() > 0 {
        let front = symbols.drop_last();
        let last = symbols.len() - 1;
        lemma_filter(front, p);
        assert forall|i: int| 0 <= i < front.len() implies front[i] == #[trigger] symbols[i] by {}
        if is_none(front, p) {
            if p(symbols[last]) {
                assert(is_only(symbols, p, last)) by {
                    assert forall|j: int| 0 <= j < symbols.len() && p(
                        #[trigger] symbols[j],
                    ) implies j == last by {
                        if j < last {
                            assert(!p(front[j]));
                        }
                    }
                }
                assert(symbols.filter(p)[0] == symbols[last]);
            } else {
                assert(is_none(symbols, p)) by {
                    assert forall|i: int| 0 <= i < symbols.len() implies !p(
                        #[trigger] symbols[i],
                    ) by {
                        if i < last {
                            assert(!p(front[i]));
                        }
                    }
                }
            }
        } else if front.filter(p).len() == 1 {
            let i = choose|i: int| #[trigger]
                is_only(front, p, i) && front[i] == front.filter(p)[0];
            assert(p(symbols[i]));
            if p(symbols[last]) {
                assert(are_two(symbols, p, i, last));
            } else {
                assert(is_only(symbols, p, i)) by {
                    assert forall|j: int| 0 <= j < symbols.len() && p(
                        #[trigger] symbols[j],
                    ) implies j == i by {
                        if j < last {
                            assert(p(front[j]));
                        }
                    }
                }
            }
        } else {
            let (i, j) = choose|i: int, j: int| #[trigger] are_two(front, p, i, j);
            assert(are_two(symbols, p, i, j));
            assert(p(symbols[i]));
        }
    }
}

/// Whether `found` is what a search for the one symbol that `p` holds of has to find.
pub open spec fn is_found(
    found: Found,
    symbols: Seq<SymbolView>,
    p: spec_fn(SymbolView) -> bool,
) -> bool {
    &&& found is Nothing <==> is_none(symbols, p)
    &&& forall|s: SymbolView| found == Found::One(s) <==> #[trigger] is_one(symbols, p, s)
    &&& found is Several <==> are_several(symbols, p)
}

proof fn lemma_found(
    symbols: Seq<SymbolView>,
    address: u32,
    wanted: Wanted,
    p: spec_fn(SymbolView) -> bool,
)
    requires
        forall|s: SymbolView|
            #![auto]
            p(s) <==> crate::symbols::is_match(s, address, wanted),
    ensures
        is_found(sole(symbols, address, wanted), symbols, p),
{
    let q = |s: SymbolView| crate::symbols::is_match(s, address, wanted);
    assert(p =~= q);
    lemma_filter(symbols, p);
    let found = matches_at(symbols, address, wanted);
    assert(found == symbols.filter(p));
    assert forall|s: SymbolView| #[trigger] is_one(symbols, p, s) implies sole(
        symbols,
        address,
        wanted,
    ) == Found::One(s) by {
        let i = choose|i: int| #[trigger] is_only(symbols, p, i) && symbols[i] == s;
        assert(p(symbols[i]));
        if found.len() > 1 {
            let (j, k) = choose|j: int, k: int| #[trigger] are_two(symbols, p, j, k);
            assert(j == i && k == i);
        } else {
            let k = choose|k: int| #[trigger] is_only(symbols, p, k) && symbols[k] == found[0];
            assert(k == i);
        }
    }
    if are_several(symbols, p) {
        let (j, k) = choose|j: int, k: int| #[trigger] are_two(symbols, p, j, k);
        assert(p(symbols[j]));
        if found.len() == 1 {
            let i = choose|i: int| #[trigger] is_only(symbols, p, i) && symbols[i] == found[0];
            assert(j == i && k == i);
        }
    }
}

/// A search finds the one symbol of the kind that it is for, at the very address: a
/// label, a pool constant, a jump table, a piece of data, or any symbol.
pub proof fn law_searches_find_the_only_one(symbols: Seq<SymbolView>, address: u32)
    ensures
        is_found(sole(symbols, address, Wanted::Label), symbols, label_at(address as nat)),
        is_found(
            sole(symbols, address, Wanted::PoolConstant),
            symbols,
            constant_at(address as nat),
        ),
        is_found(sole(symbols, address, Wanted::JumpTable), symbols, table_at(address as nat)),
        is_found(sole(symbols, address, Wanted::Data), symbols, data_at(address as nat)),
        is_found(sole(symbols, address, Wanted::Any), symbols, any_at(address as nat)),
{
    lemma_found(symbols, address, Wanted::Label, label_at(address as nat));
    lemma_found(symbols, address, Wanted::PoolConstant, constant_at(address as nat));
    lemma_found(symbols, address, Wanted::JumpTable, table_at(address as nat));
    lemma_found(symbols, address, Wanted::Data, data_at(address as nat));
    lemma_found(symbols, address, Wanted::Any, any_at(address as nat));
}

/// The size of a piece of data is one byte for each byte, two for each short and four
/// for each word, where it is known how many there are.
pub proof fn law_data_size(n: u32)
    ensures
        (SymData::Byte { count: Some(n) }).spec_size() == Some(n as nat),
        (SymData::Short { count: Some(n) }).spec_size() == Some((n + n) as nat),
        (SymData::Word { count: Some(n) }).spec_size() == Some((n + n + n + n) as nat),
        (SymData::Byte { count: None }).spec_size() is None,
        (SymData::Short { count: None }).spec_size() is None,
        (SymData::Word { count: None }).spec_size() is None,
        SymData::Any.spec_size() is None,
{
}

/// Whether the reference at place `i` is the first from `source` to `destination`.
pub open spec fn is_first_reference(
    references: Seq<Reference>,
    source: u32,
    destination: u32,
    i: int,
) -> bool {
    &&& 0 <= i < references.len()
    &&& references[i].source == source && references[i].destination == destination
    &&& forall|j: int|
        0 <= j < i ==> (#[trigger] references[j]).source != source || references[j].destination
            != destination
}

/// Whether there is no reference from `source` to `destination`.
pub open spec fn is_unknown(references: Seq<Reference>, source: u32, destination: u32) -> bool {
    forall|j: int|
        0 <= j < references.len() ==> (#[trigger] references[j]).source != source
            || references[j].destination != destination
}

proof fn lemma_first_reference(
    references: Seq<Reference>,
    source: u32,
    destination: u32,
)
    ensures
        is_unknown(references, source, destination) <==> find_reference(
            references,
            source,
            destination,
        ) is None,
        forall|i: int| #[trigger]
            is_first_reference(references, source, destination, i) ==> find_reference(
                references,
                source,
                destination,
            ) == Some(references[i]),
    decreases references.len(),
{
    if references.len() > 0 {
        let rest = references.drop_first();
        lemma_first_reference(rest, source, destination);
        assert forall|i: int| #[trigger]
            is_first_reference(references, source, destination, i) implies find_reference(
            references,
            source,
            destination,
        ) == Some(references[i]) by {
            if i > 0 {
                assert(references[0].source != source || references[0].destination != destination);
                assert forall|j: int| 0 <= j < i - 1 implies (#[trigger] rest[j]).source != source
                    || rest[j].destination != destination by {
                    assert(references[j + 1] == rest[j]);
                }
                assert(is_first_reference(rest, source, destination, i - 1));
            }
        }
        if is_unknown(references, source, destination) {
            assert(references[0].source != source || references[0].destination != destination);
            assert forall|j: int| 0 <= j < rest.len() implies (#[trigger] rest[j]).source != source
                || rest[j].destination != destination by {
                assert(references[j + 1] == rest[j]);
            }
        } else if find_reference(references, source, destination) is None {
            let j = choose|j: int|
                0 <= j < references.len() && !((#[trigger] references[j]).source != source
                    || references[j].destination != destination);
            assert(rest[j - 1] == references[j]);
        }
    }
}

/// What an answer says.
pub open spec fn is_said(reply: Reply, answer: Answer) -> bool {
    match answer {
        Answer::Nothing => reply is Nothing,
        Answer::Text(text) => reply == Reply::Text(text@),
        Answer::Failure(reason) => reply == Reply::Failure(reason@),
    }
}

/// What is written for a reference is what the first of its kind says: for a data word,
/// for a comment, and for an operand each its own.
pub proof fn law_first_reference_counts(
    lookup: SymbolLookup,
    source: u32,
    destination: u32,
    i: int,
)
    requires
        is_first_reference(lookup.references@, source, destination, i),
    ensures
        is_said(lookup.word_reply(source, destination), lookup.references@[i].word),
        is_said(lookup.comment_reply(source, destination), lookup.references@[i].comment),
        is_said(lookup.comment_on(source, Some(destination)), lookup.references@[i].comment),
        match lookup.references@[i].name {
            Some(name) => lookup.operand_name(source, destination) == Some(name@),
            None => lookup.operand_name(source, destination) is None,
        },
{
    lemma_first_reference(lookup.references@, source, destination);
}

/// Nothing is written for a reference that is not known.
pub proof fn law_unknown_reference_says_nothing(
    lookup: SymbolLookup,
    source: u32,
    destination: u32,
)
    requires
        is_unknown(lookup.references@, source, destination),
    ensures
        lookup.word_reply(source, destination) is Nothing,
        lookup.comment_reply(source, destination) is Nothing,
        lookup.comment_on(source, Some(destination)) is Nothing,
        lookup.comment_on(source, None) is Nothing,
        lookup.operand_name(source, destination) is None,
{
    lemma_first_reference(lookup.references@, source, destination);
}

/// Whether the lines of the table at place `i` are for these bytes at `address`.
pub open spec fn is_for(
    tables: Seq<InlineTable>,
    i: int,
    address: u32,
    data: SymData,
    bytes: Seq<u8>,
) -> bool {
    tables[i].address == address && tables[i].data == data && tables[i].bytes@ == bytes
}

proof fn lemma_first_table(
    tables: Seq<InlineTable>,
    address: u32,
    data: SymData,
    bytes: Seq<u8>,
    i: int,
)
    requires
        0 <= i <= tables.len(),
        forall|j: int| 0 <= j < i ==> !#[trigger] is_for(tables, j, address, data, bytes),
        i < tables.len() ==> is_for(tables, i, address, data, bytes),
    ensures
        find_inline_table(tables, address, data, bytes) == if i < tables.len() {
            Some(tables[i])
        } else {
            None
        },
    decreases i,
{
    if i > 0 {
        assert(!is_for(tables, 0, address, data, bytes));
        let rest = tables.drop_first();
        assert forall|j: int| 0 <= j < i - 1 implies !#[trigger] is_for(
            rest,
            j,
            address,
            data,
            bytes,
        ) by {
            assert(!is_for(tables, j + 1, address, data, bytes));
        }
        if i < tables.len() {
            assert(rest[i - 1] == tables[i]);
        }
        lemma_first_table(rest, address, data, bytes, i - 1);
    }
}

/// The lines of an inline table are those of the first known table with its address,
/// its elements and its very bytes, if there is one.
pub proof fn law_first_inline_table_counts(
    lookup: SymbolLookup,
    address: u32,
    data: SymData,
    bytes: Seq<u8>,
    i: int,
)
    requires
        0 <= i <= lookup.inline_tables@.len(),
        forall|j: int|
            0 <= j < i ==> !#[trigger] is_for(lookup.inline_tables@, j, address, data, bytes),
        i < lookup.inline_tables@.len() ==> is_for(lookup.inline_tables@, i, address, data, bytes),
    ensures
        i < lookup.inline_tables@.len() ==> is_said(
            lookup.table_reply(address, data, bytes),
            lookup.inline_tables@[i].lines,
        ),
        i == lookup.inline_tables@.len() ==> lookup.table_reply(address, data, bytes) is Nothing,
{
    lemma_first_table(lookup.inline_tables@, address, data, bytes, i);
}

/// The symbols of a module are those of the first map for that very module, and none
/// if there is no such map.
pub proof fn law_first_map_counts(maps: Seq<ModuleSymbols>, module: ModuleKind, i: int)
    requires
        0 <= i <= maps.len(),
        forall|j: int| 0 <= j < i ==> (#[trigger] maps[j]).module != module,
        i < maps.len() ==> maps[i].module == module,
    ensures
        i < maps.len() ==> symbols_in(maps, module) == maps[i].symbols@,
        i == maps.len() ==> symbols_in(maps, module).len() == 0,
    decreases i,
{
    if i > 0 {
        assert(maps[0].module != module);
        let rest = maps.drop_first();
        assert forall|j: int| 0 <= j < i - 1 implies (#[trigger] rest[j]).module != module by {
            assert(maps[j + 1].module != module);
        }
        law_first_map_counts(rest, module, i - 1);
    }
}

/// Whether a search for the one symbol that `p` holds of ended as it has to: with that
/// symbol, with nothing, or with the address that has several.
pub open spec fn is_answered(
    res: Result<Option<&Symbol>, SymbolMapError>,
    symbols: Seq<SymbolView>,
    p: spec_fn(SymbolView) -> bool,
    address: u32,
) -> bool {
    match res {
        Ok(Some(symbol)) => is_one(symbols, p, symbol@),
        Ok(None) => is_none(symbols, p),
        Err(SymbolMapError::MultipleSymbols { address: a }) => a == address && are_several(
            symbols,
            p,
        ),
    }
}

/// A search for a label or a pool constant ends as it has to.
pub proof fn law_searches_are_answered(
    map: SymbolMap,
    res: Result<Option<&Symbol>, SymbolMapError>,
    address: u32,
)
    ensures
        search_agrees(res, sole(map@, address, Wanted::Label), address) <==> is_answered(
            res,
            map@,
            label_at(address as nat),
            address,
        ),
        search_agrees(res, sole(map@, address, Wanted::PoolConstant), address) <==> is_answered(
            res,
            map@,
            constant_at(address as nat),
            address,
        ),
{
    law_searches_find_the_only_one(map@, address);
}

/// The value of a map has all of its symbols, in their order, with what is known of
/// each.
pub proof fn law_maps_are_their_values(map: SymbolMap, i: int)
    ensures
        map@.len() == map.symbols@.len(),
        0 <= i < map@.len() ==> {
            &&& map@[i].name == map.symbols@[i].name@
            &&& map@[i].kind == map.symbols@[i].kind
            &&& map@[i].addr == map.symbols@[i].addr
        },
{
}

} // verus!
