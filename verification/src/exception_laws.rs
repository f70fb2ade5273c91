//! What holds of every exception table that is named, and of every run.

use vstd::prelude::*;

use crate::find_exceptix::{
    exception_name, fix_request, has_record, is_awaited, name_address, name_entries, name_entry,
    name_table, react, searched_modules, ActionView, EventView, ExceptionView, Naming, Reaction,
    StateView,
};
use crate::program::{AutoloadKind, ModuleKind};
use crate::symbols::{
    lemma_matches_push, lemma_matches_without, matches_at, sole, without, Found, SymData,
    SymbolKind, SymbolView, Wanted,
};
use crate::text::{hex_padded, law_hex8_injective};

verus! {

/// What is done to an address that belongs to an exception table: it is given the
/// symbol `named`, unless the name of the symbol there begins with `prefix`.
pub struct Renaming {
    pub prefix: Seq<char>,
    pub named: SymbolView,
}

/// What is done to the address of an entry.
pub open spec fn entry_renaming(data: ExceptionView, i: int) -> Renaming {
    Renaming {
        prefix: "@EX@"@,
        named: SymbolView {
            name: exception_name("@EX@"@, data.exception_table[i].function_address),
            kind: SymbolKind::Data(SymData::Word { count: Some(3) }),
            addr: data.slot(i) as u32,
        },
    }
}

/// What is done to the exception record that an entry points at.
pub open spec fn record_renaming(data: ExceptionView, i: int) -> Renaming {
    Renaming {
        prefix: "@ET@"@,
        named: SymbolView {
            name: exception_name("@ET@"@, data.exception_table[i].function_address),
            kind: SymbolKind::Data(SymData::Any),
            addr: data.exception_table[i].exception_record,
        },
    }
}

/// Whether the entry at place `i` points at an exception record at `address`.
pub open spec fn points_at(data: ExceptionView, i: int, address: u32) -> bool {
    has_record(data.exception_table[i]) && data.exception_table[i].exception_record == address
}

/// Whether `address` is that of the entry at place `i`, or of an exception record
/// that it points at.
pub open spec fn touches(data: ExceptionView, i: int, address: u32) -> bool {
    data.slot(i) == address || points_at(data, i, address)
}

/// Whether `address` is that of an entry, or of an exception record that an entry
/// points at.
pub open spec fn is_touched(data: ExceptionView, address: u32) -> bool {
    exists|i: int| 0 <= i < data.exception_table.len() && #[trigger] touches(data, i, address)
}

/// What is done to `address` for the first `n` entries.
spec fn renamings(data: ExceptionView, n: nat, address: u32) -> Seq<Renaming>
    decreases n,
{
    if n == 0 {
        seq![]
    } else {
        let before = renamings(data, (n - 1) as nat, address);
        let first = if data.slot(n - 1) as u32 == address {
            before.push(entry_renaming(data, n - 1))
        } else {
            before
        };
        if points_at(data, n - 1, address) {
            first.push(record_renaming(data, n - 1))
        } else {
            first
        }
    }
}

/// The symbols at an address, `found`, after one renaming.
spec fn renamed(found: Seq<SymbolView>, renaming: Renaming) -> Seq<SymbolView> {
    if found.len() > 1 || found.len() == 1 && renaming.prefix.is_prefix_of(found[0].name) {
        found
    } else {
        seq![renaming.named]
    }
}

/// The symbols at an address, `found`, after some renamings.
spec fn all_renamed(found: Seq<SymbolView>, list: Seq<Renaming>) -> Seq<SymbolView>
    decreases list.len(),
{
    if list.len() == 0 {
        found
    } else {
        renamed(all_renamed(found, list.drop_last()), list.last())
    }
}

proof fn lemma_name_address(
    symbols: Seq<SymbolView>,
    address: u32,
    prefix: Seq<char>,
    function_address: u32,
    data: SymData,
)
    ensures
        ({
            let after = name_address(symbols, address, prefix, function_address, data);
            let named = SymbolView {
                name: exception_name(prefix, function_address),
                kind: SymbolKind::Data(data),
                addr: address,
            };
            let found = matches_at(symbols, address, Wanted::Any);
            &&& after.ambiguous is None <==> found.len() <= 1
            &&& after.ambiguous matches Some(a) ==> a == address
            &&& matches_at(after.symbols, address, Wanted::Any) == renamed(
                found,
                Renaming { prefix, named },
            )
            &&& forall|other: u32|
                other != address ==> #[trigger] matches_at(after.symbols, other, Wanted::Any)
                    == matches_at(symbols, other, Wanted::Any)
        }),
{
    let named = SymbolView {
        name: exception_name(prefix, function_address),
        kind: SymbolKind::Data(data),
        addr: address,
    };
    let rest = without(symbols, address);
    lemma_matches_push(symbols, named, address, Wanted::Any);
    lemma_matches_push(rest, named, address, Wanted::Any);
    lemma_matches_without(symbols, address, address, Wanted::Any);
    let after = name_address(symbols, address, prefix, function_address, data);
    let found = matches_at(symbols, address, Wanted::Any);
    assert(matches_at(after.symbols, address, Wanted::Any) =~= renamed(
        found,
        Renaming { prefix, named },
    ));
    assert forall|other: u32| other != address implies #[trigger] matches_at(
        after.symbols,
        other,
        Wanted::Any,
    ) == matches_at(symbols, other, Wanted::Any) by {
        lemma_matches_push(symbols, named, other, Wanted::Any);
        lemma_matches_push(rest, named, other, Wanted::Any);
        lemma_matches_without(symbols, address, other, Wanted::Any);
    }
}

proof fn lemma_several_stay(found: Seq<SymbolView>, list: Seq<Renaming>)
    requires
        found.len() > 1,
    ensures
        all_renamed(found, list) == found,
    decreases list.len(),
{
    if list.len() > 0 {
        lemma_several_stay(found, list.drop_last());
    }
}

proof fn lemma_slots_are_addresses(data: ExceptionView)
    requires
        data.is_addressable(),
    ensures
        forall|i: int|
            0 <= i < data.exception_table.len() ==> 0 <= #[trigger] data.slot(i) <= u32::MAX,
{
    assert forall|i: int| 0 <= i < data.exception_table.len() implies 0 <= #[trigger] data.slot(i)
        <= u32::MAX by {
        assert(data.slot(i) <= data.slot(data.exception_table.len() - 1));
    }
}

/// What the naming of an entry does, at every address.
proof fn lemma_name_entry(symbols: Seq<SymbolView>, data: ExceptionView, m: nat)
    requires
        m < data.exception_table.len(),
        data.is_addressable(),
    ensures
        ({
            let slot = data.slot(m as int) as u32;
            let entry = data.exception_table[m as int];
            let after = name_entry(symbols, slot, entry);
            let first = renamed(
                matches_at(symbols, slot, Wanted::Any),
                entry_renaming(data, m as int),
            );
            let record = if entry.exception_record == slot {
                first
            } else {
                matches_at(symbols, entry.exception_record, Wanted::Any)
            };
            &&& after.ambiguous is None <==> matches_at(symbols, slot, Wanted::Any).len() <= 1 && (
            has_record(entry) ==> record.len() <= 1)
            &&& after.ambiguous matches Some(a) ==> matches_at(symbols, a, Wanted::Any).len() > 1
                && (a == slot || points_at(data, m as int, a))
            &&& after.ambiguous is None && points_at(data, m as int, entry.exception_record)
                ==> matches_at(after.symbols, entry.exception_record, Wanted::Any) == renamed(
                record,
                record_renaming(data, m as int),
            )
            &&& !points_at(data, m as int, slot) ==> matches_at(after.symbols, slot, Wanted::Any)
                == first
            &&& forall|other: u32|
                other != slot && !points_at(data, m as int, other) ==> #[trigger] matches_at(
                    after.symbols,
                    other,
                    Wanted::Any,
                ) == matches_at(symbols, other, Wanted::Any)
        }),
{
    let slot = data.slot(m as int) as u32;
    let entry = data.exception_table[m as int];
    let word = SymData::Word { count: Some(3) };
    lemma_name_address(symbols, slot, "@EX@"@, entry.function_address, word);
    let first = name_address(symbols, slot, "@EX@"@, entry.function_address, word);
    lemma_name_address(
        first.symbols,
        entry.exception_record,
        "@ET@"@,
        entry.function_address,
        SymData::Any,
    );
    assert(matches_at(first.symbols, slot, Wanted::Any) == renamed(
        matches_at(symbols, slot, Wanted::Any),
        entry_renaming(data, m as int),
    ));
}

proof fn lemma_one_more(found: Seq<SymbolView>, list: Seq<Renaming>, renaming: Renaming)
    ensures
        all_renamed(found, list.push(renaming)) == renamed(all_renamed(found, list), renaming),
{
    assert(list.push(renaming).drop_last() =~= list);
}

/// Where the first entries could be named, each address has the symbols that come
/// of its renamings.
proof fn lemma_entries_at(symbols: Seq<SymbolView>, data: ExceptionView, n: nat, address: u32)
    requires
        n <= data.exception_table.len(),
        data.is_addressable(),
        name_entries(symbols, data, n).ambiguous is None,
    ensures
        matches_at(name_entries(symbols, data, n).symbols, address, Wanted::Any) == all_renamed(
            matches_at(symbols, address, Wanted::Any),
            renamings(data, n, address),
        ),
        renamings(data, n, address).len() > 0 ==> matches_at(symbols, address, Wanted::Any).len()
            <= 1,
    decreases n,
{
    if n > 0 {
        let m = (n - 1) as nat;
        lemma_entries_at(symbols, data, m, address);
        let before = name_entries(symbols, data, m).symbols;
        lemma_name_entry(before, data, m);
        let list = renamings(data, m, address);
        let found = matches_at(symbols, address, Wanted::Any);
        if found.len() > 1 {
            lemma_several_stay(found, list);
        }
        let a = entry_renaming(data, m as int);
        let b = record_renaming(data, m as int);
        lemma_one_more(found, list, a);
        lemma_one_more(found, list.push(a), b);
        lemma_one_more(found, list, b);
    }
}

proof fn lemma_renamings(data: ExceptionView, n: nat, address: u32)
    requires
        n <= data.exception_table.len(),
        data.is_addressable(),
    ensures
        renamings(data, n, address).len() > 0 <==> exists|i: int|
            0 <= i < n && #[trigger] touches(data, i, address),
    decreases n,
{
    lemma_slots_are_addresses(data);
    if n > 0 {
        let m = (n - 1) as nat;
        lemma_renamings(data, m, address);
        assert(data.slot(m as int) as u32 == data.slot(m as int));
        assert(renamings(data, n, address).len() > 0 <==> renamings(data, m, address).len() > 0
            || touches(data, m as int, address));
        if exists|i: int| 0 <= i < m && #[trigger] touches(data, i, address) {
            let i = choose|i: int| 0 <= i < m && #[trigger] touches(data, i, address);
            assert(0 <= i < n && touches(data, i, address));
        }
        if exists|i: int| 0 <= i < n && #[trigger] touches(data, i, address) {
            let i = choose|i: int| 0 <= i < n && #[trigger] touches(data, i, address);
            assert(i == m || 0 <= i < m && touches(data, i, address));
        }
    }
}

proof fn lemma_all_renamed_len(found: Seq<SymbolView>, list: Seq<Renaming>)
    requires
        found.len() <= 1,
    ensures
        all_renamed(found, list).len() <= 1,
    decreases list.len(),
{
    if list.len() > 0 {
        lemma_all_renamed_len(found, list.drop_last());
    }
}

/// Entries can be named where no address that belongs to them has several symbols.
proof fn lemma_entries_succeed(symbols: Seq<SymbolView>, data: ExceptionView, n: nat)
    requires
        n <= data.exception_table.len(),
        data.is_addressable(),
        forall|a: u32|
            is_touched(data, a) ==> (#[trigger] matches_at(symbols, a, Wanted::Any)).len() <= 1,
    ensures
        name_entries(symbols, data, n).ambiguous is None,
    decreases n,
{
    if n > 0 {
        let m = (n - 1) as nat;
        lemma_entries_succeed(symbols, data, m);
        lemma_slots_are_addresses(data);
        let before = name_entries(symbols, data, m).symbols;
        let slot = data.slot(m as int) as u32;
        let record = data.exception_table[m as int].exception_record;
        lemma_name_entry(before, data, m);
        lemma_entries_at(symbols, data, m, slot);
        lemma_entries_at(symbols, data, m, record);
        assert(touches(data, m as int, slot));
        assert(is_touched(data, slot));
        lemma_all_renamed_len(
            matches_at(symbols, slot, Wanted::Any),
            renamings(data, m, slot),
        );
        if has_record(data.exception_table[m as int]) {
            assert(touches(data, m as int, record));
            assert(is_touched(data, record));
            lemma_all_renamed_len(
                matches_at(symbols, record, Wanted::Any),
                renamings(data, m, record),
            );
        }
    }
}

proof fn lemma_ambiguous(symbols: Seq<SymbolView>, data: ExceptionView, n: nat)
    requires
        n <= data.exception_table.len(),
        data.is_addressable(),
    ensures
        name_entries(symbols, data, n).ambiguous matches Some(a) ==> is_touched(data, a)
            && matches_at(symbols, a, Wanted::Any).len() > 1,
    decreases n,
{
    if n > 0 {
        let m = (n - 1) as nat;
        lemma_ambiguous(symbols, data, m);
        if name_entries(symbols, data, m).ambiguous is None {
            let before = name_entries(symbols, data, m).symbols;
            lemma_name_entry(before, data, m);
            lemma_slots_are_addresses(data);
            if let Some(a) = name_entries(symbols, data, n).ambiguous {
                lemma_entries_at(symbols, data, m, a);
                assert(touches(data, m as int, a));
                let found = matches_at(symbols, a, Wanted::Any);
                if found.len() <= 1 {
                    lemma_all_renamed_len(found, renamings(data, m, a));
                }
            }
        }
    }
}

/// An exception table can be named unless several symbols share the address of an
/// entry or of an exception record, and if it cannot, then because of such an
/// address.
pub proof fn law_naming_fails_on_ambiguity_only(symbols: Seq<SymbolView>, data: ExceptionView)
    requires
        data.is_addressable(),
    ensures
        name_table(symbols, data).ambiguous is None <==> forall|a: u32|
            is_touched(data, a) ==> (#[trigger] matches_at(symbols, a, Wanted::Any)).len() <= 1,
        name_table(symbols, data).ambiguous matches Some(a) ==> is_touched(data, a) && matches_at(
            symbols,
            a,
            Wanted::Any,
        ).len() > 1,
{
    let n = data.exception_table.len();
    lemma_ambiguous(symbols, data, n);
    if name_table(symbols, data).ambiguous is None {
        assert forall|a: u32| is_touched(data, a) implies (#[trigger] matches_at(
            symbols,
            a,
            Wanted::Any,
        )).len() <= 1 by {
            lemma_entries_at(symbols, data, n, a);
            lemma_renamings(data, n, a);
        }
    } else {
        let a = name_table(symbols, data).ambiguous->0;
        assert(matches_at(symbols, a, Wanted::Any).len() > 1);
    }
    if forall|a: u32|
        is_touched(data, a) ==> (#[trigger] matches_at(symbols, a, Wanted::Any)).len() <= 1 {
        lemma_entries_succeed(symbols, data, n);
    }
}

proof fn lemma_entries_keep(symbols: Seq<SymbolView>, data: ExceptionView, n: nat, address: u32)
    requires
        n <= data.exception_table.len(),
        data.is_addressable(),
        !is_touched(data, address),
    ensures
        matches_at(name_entries(symbols, data, n).symbols, address, Wanted::Any) == matches_at(
            symbols,
            address,
            Wanted::Any,
        ),
    decreases n,
{
    if n > 0 {
        let m = (n - 1) as nat;
        lemma_entries_keep(symbols, data, m, address);
        lemma_name_entry(name_entries(symbols, data, m).symbols, data, m);
        lemma_slots_are_addresses(data);
        assert(!touches(data, m as int, address));
    }
}

/// Symbols at addresses that belong neither to the exception table nor to an
/// exception record stay as they are, also where the table could not be named to
/// its end.
pub proof fn law_other_symbols_are_kept(
    symbols: Seq<SymbolView>,
    data: ExceptionView,
    address: u32,
)
    requires
        data.is_addressable(),
        !is_touched(data, address),
    ensures
        matches_at(name_table(symbols, data).symbols, address, Wanted::Any) == matches_at(
            symbols,
            address,
            Wanted::Any,
        ),
{
    lemma_entries_keep(symbols, data, data.exception_table.len(), address);
}

/// Whether all renamings are for the same prefix.
spec fn are_alike(list: Seq<Renaming>) -> bool {
    forall|i: int, j: int|
        0 <= i < list.len() && 0 <= j < list.len() ==> (#[trigger] list[i]).prefix == (
        #[trigger] list[j]).prefix
}

/// Whether a renaming is one for an entry or one for an exception record.
spec fn are_usual(list: Seq<Renaming>) -> bool {
    forall|i: int|
        0 <= i < list.len() ==> {
            &&& (#[trigger] list[i]).prefix == "@EX@"@ || list[i].prefix == "@ET@"@
            &&& list[i].prefix.is_prefix_of(list[i].named.name)
        }
}

proof fn lemma_renamings_are_usual(data: ExceptionView, n: nat, address: u32)
    ensures
        are_usual(renamings(data, n, address)),
    decreases n,
{
    if n > 0 {
        lemma_renamings_are_usual(data, (n - 1) as nat, address);
        let a = entry_renaming(data, n - 1);
        let b = record_renaming(data, n - 1);
        assert(a.prefix =~= a.named.name.subrange(0, a.prefix.len() as int));
        assert(b.prefix =~= b.named.name.subrange(0, b.prefix.len() as int));
    }
}

/// Renamings leave one symbol, whose name begins as the last of them says.
proof fn lemma_last_prefix(found: Seq<SymbolView>, list: Seq<Renaming>)
    requires
        found.len() <= 1,
        list.len() > 0,
        are_usual(list),
    ensures
        all_renamed(found, list).len() == 1,
        list.last().prefix.is_prefix_of(all_renamed(found, list)[0].name),
{
    lemma_all_renamed_len(found, list.drop_last());
    assert(list.last() == list[list.len() - 1]);
}

/// Renamings that are all alike do what the first of them does.
proof fn lemma_alike(found: Seq<SymbolView>, list: Seq<Renaming>)
    requires
        found.len() <= 1,
        list.len() > 0,
        are_usual(list),
        are_alike(list),
    ensures
        all_renamed(found, list) == renamed(found, list[0]),
    decreases list.len(),
{
    let front = list.drop_last();
    if front.len() == 0 {
        assert(all_renamed(found, front) == found);
    } else {
        lemma_alike(found, front);
        lemma_last_prefix(found, front);
        assert(front.last().prefix == list.last().prefix) by {
            assert(list[list.len() - 2].prefix == list[list.len() - 1].prefix);
        }
    }
}

/// What renamings that are not all alike leave does not depend on what was there.
proof fn lemma_unlike(found: Seq<SymbolView>, other: Seq<SymbolView>, list: Seq<Renaming>)
    requires
        found.len() <= 1,
        other.len() <= 1,
        are_usual(list),
        !are_alike(list),
    ensures
        all_renamed(found, list) == all_renamed(other, list),
    decreases list.len(),
{
    let front = list.drop_last();
    if !are_alike(front) {
        lemma_unlike(found, other, front);
    } else {
        assert(front.len() > 0);
        lemma_last_prefix(found, front);
        lemma_last_prefix(other, front);
        let p = front.last().prefix;
        let q = list.last().prefix;
        assert(p != q) by {
            if p == q {
                assert forall|i: int, j: int| 0 <= i < list.len() && 0 <= j < list.len() implies (
                #[trigger] list[i]).prefix == (#[trigger] list[j]).prefix by {
                    assert(list[i].prefix == p) by {
                        if i < front.len() {
                            assert(front[i].prefix == front[front.len() - 1].prefix);
                        }
                    }
                    assert(list[j].prefix == p) by {
                        if j < front.len() {
                            assert(front[j].prefix == front[front.len() - 1].prefix);
                        }
                    }
                }
            }
        }
        assert(list[list.len() - 2].prefix == p && list[list.len() - 1].prefix == q);
        lemma_prefixes_differ(all_renamed(found, front)[0].name);
        lemma_prefixes_differ(all_renamed(other, front)[0].name);
    }
}

/// No name is both that of an entry and that of an exception record.
proof fn lemma_prefixes_differ(name: Seq<char>)
    ensures
        !("@EX@"@.is_prefix_of(name) && "@ET@"@.is_prefix_of(name)),
{
    reveal_strlit("@EX@");
    reveal_strlit("@ET@");
    assert("@EX@"@[2] == 'X' && "@ET@"@[2] == 'T');
    if "@EX@"@.is_prefix_of(name) && "@ET@"@.is_prefix_of(name) {
        assert(name[2] == name.subrange(0, 4)[2]);
    }
}

proof fn lemma_renamed_twice(found: Seq<SymbolView>, list: Seq<Renaming>)
    requires
        found.len() <= 1,
        are_usual(list),
    ensures
        all_renamed(all_renamed(found, list), list) == all_renamed(found, list),
{
    let once = all_renamed(found, list);
    lemma_all_renamed_len(found, list);
    if list.len() > 0 {
        if are_alike(list) {
            lemma_alike(once, list);
            lemma_last_prefix(found, list);
            assert(list[0].prefix == list[list.len() - 1].prefix);
        } else {
            lemma_unlike(found, once, list);
        }
    }
}

/// An exception table that was named can be named again, and every address has the
/// same symbols after that as before.
pub proof fn law_naming_is_idempotent(symbols: Seq<SymbolView>, data: ExceptionView, address: u32)
    requires
        data.is_addressable(),
        name_table(symbols, data).ambiguous is None,
    ensures
        name_table(name_table(symbols, data).symbols, data).ambiguous is None,
        matches_at(
            name_table(name_table(symbols, data).symbols, data).symbols,
            address,
            Wanted::Any,
        ) == matches_at(name_table(symbols, data).symbols, address, Wanted::Any),
{
    let n = data.exception_table.len();
    let after = name_table(symbols, data).symbols;
    assert forall|a: u32| is_touched(data, a) implies (#[trigger] matches_at(
        after,
        a,
        Wanted::Any,
    )).len() <= 1 by {
        lemma_entries_at(symbols, data, n, a);
        lemma_renamings(data, n, a);
        lemma_all_renamed_len(matches_at(symbols, a, Wanted::Any), renamings(data, n, a));
    }
    lemma_entries_succeed(after, data, n);
    lemma_entries_at(symbols, data, n, address);
    lemma_entries_at(after, data, n, address);
    lemma_renamings_are_usual(data, n, address);
    let list = renamings(data, n, address);
    if list.len() > 0 {
        lemma_renamed_twice(matches_at(symbols, address, Wanted::Any), list);
    }
}

/// Whether the only symbol at `address` has a name that begins with `prefix`.
pub open spec fn is_named(symbols: Seq<SymbolView>, address: u32, prefix: Seq<char>) -> bool {
    sole(symbols, address, Wanted::Any) matches Found::One(symbol) && prefix.is_prefix_of(
        symbol.name,
    )
}

/// The symbol that an address has after a renaming: the one that was there, if its
/// name begins right, or else a new one.
pub open spec fn renamed_symbol(symbols: Seq<SymbolView>, renaming: Renaming) -> SymbolView {
    let address = renaming.named.addr;
    if is_named(symbols, address, renaming.prefix) {
        sole(symbols, address, Wanted::Any)->One_0
    } else {
        renaming.named
    }
}

proof fn lemma_renamed_symbol(symbols: Seq<SymbolView>, after: Seq<SymbolView>, renaming: Renaming)
    requires
        matches_at(after, renaming.named.addr, Wanted::Any) == renamed(
            matches_at(symbols, renaming.named.addr, Wanted::Any),
            renaming,
        ),
        matches_at(symbols, renaming.named.addr, Wanted::Any).len() <= 1,
    ensures
        sole(after, renaming.named.addr, Wanted::Any) == Found::One(
            renamed_symbol(symbols, renaming),
        ),
{
}

/// What the naming of one address does there and elsewhere.
pub(crate) proof fn lemma_address_is_named(
    symbols: Seq<SymbolView>,
    address: u32,
    prefix: Seq<char>,
    function_address: u32,
    data: SymData,
)
    ensures
        ({
            let after = name_address(symbols, address, prefix, function_address, data);
            let named = SymbolView {
                name: exception_name(prefix, function_address),
                kind: SymbolKind::Data(data),
                addr: address,
            };
            let several = sole(symbols, address, Wanted::Any) is Several;
            &&& several ==> after.ambiguous == Some(address) && after.symbols == symbols
            &&& !several ==> after.ambiguous is None && sole(after.symbols, address, Wanted::Any)
                == Found::One(renamed_symbol(symbols, Renaming { prefix, named }))
            &&& forall|other: u32|
                other != address ==> #[trigger] matches_at(after.symbols, other, Wanted::Any)
                    == matches_at(symbols, other, Wanted::Any)
        }),
{
    lemma_name_address(symbols, address, prefix, function_address, data);
    let named = SymbolView {
        name: exception_name(prefix, function_address),
        kind: SymbolKind::Data(data),
        addr: address,
    };
    let found = matches_at(symbols, address, Wanted::Any);
    assert(renamed(found, Renaming { prefix, named }).len() > 0);
}

proof fn lemma_only_entry(data: ExceptionView, n: nat, i: int)
    requires
        n <= data.exception_table.len(),
        data.is_addressable(),
        0 <= i < data.exception_table.len(),
        forall|j: int|
            0 <= j < data.exception_table.len() ==> !#[trigger] points_at(
                data,
                j,
                data.slot(i) as u32,
            ),
    ensures
        renamings(data, n, data.slot(i) as u32) == if i < n {
            seq![entry_renaming(data, i)]
        } else {
            seq![]
        },
    decreases n,
{
    if n > 0 {
        lemma_only_entry(data, (n - 1) as nat, i);
        lemma_slots_are_addresses(data);
        assert(data.slot(n - 1) as u32 == data.slot(n - 1));
        assert(data.slot(i) as u32 == data.slot(i));
        assert(!points_at(data, n - 1, data.slot(i) as u32));
        assert(Seq::<Renaming>::empty().push(entry_renaming(data, i)) =~= seq![
            entry_renaming(data, i),
        ]);
    }
}

/// After an exception table was named, each of its entries has exactly one symbol:
/// the one that it had, if its name said that it is an entry, or else a new one
/// that says so and is named after the entry's function. This is so unless the
/// entry is also an exception record.
pub proof fn law_entries_are_named(symbols: Seq<SymbolView>, data: ExceptionView, i: int)
    requires
        data.is_addressable(),
        name_table(symbols, data).ambiguous is None,
        0 <= i < data.exception_table.len(),
        forall|j: int|
            0 <= j < data.exception_table.len() ==> !#[trigger] points_at(
                data,
                j,
                data.slot(i) as u32,
            ),
    ensures
        sole(name_table(symbols, data).symbols, data.slot(i) as u32, Wanted::Any) == Found::One(
            renamed_symbol(symbols, entry_renaming(data, i)),
        ),
{
    let n = data.exception_table.len();
    let address = data.slot(i) as u32;
    let renaming = entry_renaming(data, i);
    lemma_entries_at(symbols, data, n, address);
    lemma_only_entry(data, n, i);
    let found = matches_at(symbols, address, Wanted::Any);
    assert(seq![renaming].drop_last() =~= seq![]);
    assert(all_renamed(found, seq![]) == found);
    assert(all_renamed(found, seq![renaming]) == renamed(found, renaming));
    lemma_renamed_symbol(symbols, name_table(symbols, data).symbols, renaming);
}

proof fn lemma_only_records(data: ExceptionView, n: nat, i: int)
    requires
        n <= data.exception_table.len(),
        data.is_addressable(),
        0 <= i < data.exception_table.len(),
        has_record(data.exception_table[i]),
        forall|j: int|
            0 <= j < data.exception_table.len() ==> #[trigger] data.slot(j)
                != data.exception_table[i].exception_record,
        forall|j: int|
            0 <= j < i ==> !#[trigger] points_at(data, j, data.exception_table[i].exception_record),
    ensures
        ({
            let list = renamings(data, n, data.exception_table[i].exception_record);
            &&& forall|k: int| 0 <= k < list.len() ==> (#[trigger] list[k]).prefix == "@ET@"@
            &&& list.len() > 0 <==> i < n
            &&& i < n ==> list[0] == record_renaming(data, i)
        }),
    decreases n,
{
    if n > 0 {
        lemma_only_records(data, (n - 1) as nat, i);
        lemma_slots_are_addresses(data);
        let address = data.exception_table[i].exception_record;
        assert(data.slot(n - 1) != address);
        if n - 1 < i {
            assert(!points_at(data, n - 1, address));
        }
    }
}

/// After an exception table was named, each exception record that an entry points
/// at has exactly one symbol: the one that it had, if its name said that it is an
/// exception record, or else a new one that says so and is named after the function
/// of the first such entry. This is so unless the record is also an entry.
pub proof fn law_records_are_named(symbols: Seq<SymbolView>, data: ExceptionView, i: int)
    requires
        data.is_addressable(),
        name_table(symbols, data).ambiguous is None,
        0 <= i < data.exception_table.len(),
        has_record(data.exception_table[i]),
        forall|j: int|
            0 <= j < data.exception_table.len() ==> #[trigger] data.slot(j)
                != data.exception_table[i].exception_record,
        forall|j: int|
            0 <= j < i ==> !#[trigger] points_at(data, j, data.exception_table[i].exception_record),
    ensures
        sole(
            name_table(symbols, data).symbols,
            data.exception_table[i].exception_record,
            Wanted::Any,
        ) == Found::One(renamed_symbol(symbols, record_renaming(data, i))),
{
    let n = data.exception_table.len();
    let address = data.exception_table[i].exception_record;
    let list = renamings(data, n, address);
    lemma_entries_at(symbols, data, n, address);
    lemma_only_records(data, n, i);
    lemma_renamings_are_usual(data, n, address);
    lemma_alike(matches_at(symbols, address, Wanted::Any), list);
    lemma_renamed_symbol(symbols, name_table(symbols, data).symbols, record_renaming(data, i));
}

/// Whether no exception record is inside the exception table, where an entry is.
pub open spec fn are_apart(data: ExceptionView) -> bool {
    forall|i: int, j: int|
        0 <= i < data.exception_table.len() && 0 <= j < data.exception_table.len()
            ==> !#[trigger] points_at(data, j, #[trigger] data.slot(i) as u32)
}

proof fn lemma_list_has_prefix(data: ExceptionView, n: nat, address: u32, prefix: Seq<char>)
    requires
        n <= data.exception_table.len(),
        prefix == "@EX@"@ && (forall|j: int| 0 <= j < n ==> !#[trigger] points_at(data, j, address))
            || prefix == "@ET@"@ && (forall|j: int|
            0 <= j < n ==> #[trigger] data.slot(j) as u32 != address),
    ensures
        forall|k: int|
            0 <= k < renamings(data, n, address).len() ==> (#[trigger] renamings(
                data,
                n,
                address,
            )[k]).prefix == prefix,
    decreases n,
{
    if n > 0 {
        lemma_list_has_prefix(data, (n - 1) as nat, address, prefix);
        assert(prefix == "@EX@"@ && !points_at(data, n - 1, address) || prefix == "@ET@"@
            && data.slot(n - 1) as u32 != address);
    }
}

/// An address that is renamed for one prefix only has a name with it in the end.
proof fn lemma_is_named(
    symbols: Seq<SymbolView>,
    data: ExceptionView,
    i: int,
    address: u32,
    prefix: Seq<char>,
)
    requires
        data.is_addressable(),
        name_table(symbols, data).ambiguous is None,
        0 <= i < data.exception_table.len(),
        touches(data, i, address),
        prefix == "@EX@"@ && (forall|j: int|
            0 <= j < data.exception_table.len() ==> !#[trigger] points_at(data, j, address))
            || prefix == "@ET@"@ && (forall|j: int|
            0 <= j < data.exception_table.len() ==> #[trigger] data.slot(j) as u32 != address),
    ensures
        is_named(name_table(symbols, data).symbols, address, prefix),
{
    let n = data.exception_table.len();
    let list = renamings(data, n, address);
    lemma_entries_at(symbols, data, n, address);
    lemma_renamings(data, n, address);
    lemma_renamings_are_usual(data, n, address);
    lemma_list_has_prefix(data, n, address, prefix);
    assert(list.len() > 0);
    lemma_last_prefix(matches_at(symbols, address, Wanted::Any), list);
    assert(list[list.len() - 1].prefix == prefix);
}

/// Whether the entry at place `i` and the record that it points at have their names.
spec fn has_names(symbols: Seq<SymbolView>, data: ExceptionView, i: int) -> bool {
    &&& is_named(symbols, data.slot(i) as u32, "@EX@"@)
    &&& has_record(data.exception_table[i]) ==> is_named(
        symbols,
        data.exception_table[i].exception_record,
        "@ET@"@,
    )
}

proof fn lemma_named_entries_stay(symbols: Seq<SymbolView>, data: ExceptionView, n: nat)
    requires
        n <= data.exception_table.len(),
        forall|i: int|
            0 <= i < data.exception_table.len() ==> #[trigger] has_names(symbols, data, i),
    ensures
        name_entries(symbols, data, n) == (Naming { symbols, ambiguous: None }),
    decreases n,
{
    if n > 0 {
        lemma_named_entries_stay(symbols, data, (n - 1) as nat);
        assert(has_names(symbols, data, n - 1));
    }
}

/// Where no exception record is an entry, to name an exception table again changes
/// nothing at all, not even the order of the symbols.
pub proof fn law_naming_again_changes_nothing(symbols: Seq<SymbolView>, data: ExceptionView)
    requires
        data.is_addressable(),
        are_apart(data),
        name_table(symbols, data).ambiguous is None,
    ensures
        name_table(name_table(symbols, data).symbols, data) == name_table(symbols, data),
{
    let after = name_table(symbols, data).symbols;
    let n = data.exception_table.len();
    lemma_slots_are_addresses(data);
    assert forall|i: int| 0 <= i < n implies #[trigger] has_names(after, data, i) by {
        let slot = data.slot(i) as u32;
        assert(touches(data, i, slot));
        lemma_is_named(symbols, data, i, slot, "@EX@"@);
        if has_record(data.exception_table[i]) {
            let record = data.exception_table[i].exception_record;
            assert(touches(data, i, record));
            assert forall|j: int| 0 <= j < n implies #[trigger] data.slot(j) as u32 != record by {
                assert(!points_at(data, i, data.slot(j) as u32));
            }
            lemma_is_named(symbols, data, i, record, "@ET@"@);
        }
    }
    lemma_named_entries_stay(after, data, n);
}

/// Entries of different functions have different names.
pub proof fn law_names_tell_functions_apart(prefix: Seq<char>, f: u32, g: u32)
    requires
        exception_name(prefix, f) == exception_name(prefix, g),
    ensures
        f == g,
{
    let n = prefix.len() as int;
    let a = exception_name(prefix, f);
    let b = exception_name(prefix, g);
    assert(a.skip(n) =~= hex_padded(f as nat, 8));
    assert(b.skip(n) =~= hex_padded(g as nat, 8));
    law_hex8_injective(f, g);
}

/// A dry run never asks for files to be written.
pub proof fn law_dry_run_writes_nothing(
    state: StateView,
    event: EventView,
    symbols: Seq<SymbolView>,
)
    ensures
        !(react(true, state, event, symbols).action is WriteFiles),
{
}

/// Symbols change only when the search function was found.
pub proof fn law_symbols_change_only_when_found(
    dry: bool,
    state: StateView,
    event: EventView,
    symbols: Seq<SymbolView>,
)
    requires
        event != (EventView::ModuleAnalyzed { found: true }),
    ensures
        react(dry, state, event, symbols).symbols == symbols,
{
}

/// Files are written only when the search function was found.
pub proof fn law_files_are_written_only_when_found(
    dry: bool,
    state: StateView,
    event: EventView,
    symbols: Seq<SymbolView>,
)
    requires
        react(dry, state, event, symbols).action is WriteFiles,
    ensures
        event == (EventView::ModuleAnalyzed { found: true }),
        !dry,
{
}

/// Whatever a dry run asks for, it asks for the same as a run that writes, and ends
/// where that one writes, with the same symbols.
pub proof fn law_dry_run_agrees(state: StateView, event: EventView, symbols: Seq<SymbolView>)
    ensures
        ({
            let dry = react(true, state, event, symbols);
            let wet = react(false, state, event, symbols);
            &&& dry.symbols == wet.symbols
            &&& match wet.action {
                ActionView::WriteFiles { symbols: count } => dry.action == (ActionView::DryRun {
                    symbols: count,
                }) && dry.state is Stopped,
                _ => dry == wet,
            }
        }),
{
}

/// What comes back to a run that has asked for something, and the symbols of the main
/// module then, which the search of a module may have changed.
pub struct Turn {
    pub event: EventView,
    pub symbols: Seq<SymbolView>,
}

/// Where a run is after some turns, or where it stopped in the middle of them.
pub open spec fn after_turns(dry: bool, reaction: Reaction, turns: Seq<Turn>) -> Reaction
    decreases turns.len(),
{
    if reaction.state is Stopped || turns.len() == 0 {
        reaction
    } else {
        after_turns(
            dry,
            react(dry, reaction.state, turns[0].event, turns[0].symbols),
            turns.drop_first(),
        )
    }
}

/// Where a run is that starts with the first of some turns.
pub open spec fn run_through(dry: bool, turns: Seq<Turn>) -> Reaction
    recommends
        turns.len() > 0,
{
    after_turns(
        dry,
        react(dry, StateView::Start, turns[0].event, turns[0].symbols),
        turns.drop_first(),
    )
}

/// Whether where a dry run is agrees with where a run is that writes: they are at the
/// same place, or the dry run has ended, and the other one writes or has written.
pub open spec fn agree(dry: Reaction, wet: Reaction) -> bool {
    ||| {
        &&& dry == wet
        &&& !(wet.state is Writing)
        &&& !(wet.action is Finish || wet.action is WriteFiles || wet.action is DryRun)
    }
    ||| {
        &&& dry.action matches ActionView::DryRun { symbols: count }
        &&& dry.state is Stopped
        &&& wet.action == (ActionView::WriteFiles { symbols: count }) && wet.state == (
        StateView::Writing { symbols: count })
            || wet.action == (ActionView::Finish { symbols: count }) && wet.state is Stopped
    }
}

proof fn lemma_turns_agree(dry: Reaction, wet: Reaction, turns: Seq<Turn>)
    requires
        agree(dry, wet),
    ensures
        agree(after_turns(true, dry, turns), after_turns(false, wet, turns)),
        wet.state is Writing ==> after_turns(true, dry, turns) == dry,
    decreases turns.len(),
{
    if turns.len() > 0 && !(wet.state is Stopped) {
        let turn = turns[0];
        let next = react(false, wet.state, turn.event, turn.symbols);
        if dry.state is Stopped {
            lemma_turns_agree(dry, next, turns.drop_first());
            assert(after_turns(true, dry, turns.drop_first()) == dry);
        } else {
            law_dry_run_agrees(wet.state, turn.event, turn.symbols);
            let same = react(true, dry.state, turn.event, turn.symbols);
            lemma_turns_agree(same, next, turns.drop_first());
        }
    }
}

/// A dry run and a run that writes, to which the same comes back, are at the same place
/// until the one that writes does so. So a dry run fails just where the other one does,
/// with the same error, and a run that writes and finishes is a dry run that ends well,
/// with the same counts.
pub proof fn law_dry_run_foretells_the_run(turns: Seq<Turn>)
    requires
        turns.len() > 0,
    ensures
        ({
            let dry = run_through(true, turns);
            let wet = run_through(false, turns);
            &&& agree(dry, wet)
            &&& dry.action is Fail <==> wet.action is Fail
            &&& dry.action is Fail ==> dry == wet
            &&& wet.action matches ActionView::Finish { symbols: count } ==> dry.action == (
            ActionView::DryRun { symbols: count }) && dry.state is Stopped
            &&& dry.action matches ActionView::DryRun { symbols: count } ==> wet.action == (
            ActionView::WriteFiles { symbols: count }) || wet.action == (ActionView::Finish {
                symbols: count,
            })
        }),
{
    law_dry_run_agrees(StateView::Start, turns[0].event, turns[0].symbols);
    lemma_turns_agree(
        react(true, StateView::Start, turns[0].event, turns[0].symbols),
        react(false, StateView::Start, turns[0].event, turns[0].symbols),
        turns.drop_first(),
    );
}

/// Every request to search a module is for the search function of the exception
/// table.
pub proof fn law_requests_are_for_the_search_function(
    dry: bool,
    state: StateView,
    event: EventView,
    symbols: Seq<SymbolView>,
)
    requires
        react(dry, state, event, symbols).action is FixModule,
    ensures
        ({
            let next = react(dry, state, event, symbols);
            &&& next.state matches StateView::Searching { modules, next: place, exception_data }
            &&& next.action == fix_request(modules[place as int], exception_data)
        }),
{
}

/// A run that ends with its files written has asked for that before.
pub proof fn law_run_finishes_after_writing(
    dry: bool,
    state: StateView,
    event: EventView,
    symbols: Seq<SymbolView>,
)
    ensures
        react(dry, state, event, symbols).action is Finish ==> state is Writing,
        react(dry, state, event, symbols).state is Writing <==> react(
            dry,
            state,
            event,
            symbols,
        ).action is WriteFiles,
{
}

/// Whether an event is an answer to what a run asks for.
pub open spec fn is_answer(action: ActionView, event: EventView) -> bool {
    match action {
        ActionView::Analyze { .. } => event is Analyzed,
        ActionView::FixModule { .. } => event is ModuleMissing || event is ModuleFailed
            || event is ModuleAnalyzed,
        ActionView::WriteFiles { .. } => event is FilesWritten,
        _ => false,
    }
}

/// A run waits for every answer to what it asks for, save for one that finds the
/// search function of a table whose entries have no addresses, and is at its end
/// when it asks for nothing.
pub proof fn law_answers_are_awaited(
    dry: bool,
    state: StateView,
    event: EventView,
    symbols: Seq<SymbolView>,
    answer: EventView,
)
    requires
        is_awaited(state, event),
    ensures
        ({
            let next = react(dry, state, event, symbols);
            let addressable = next.state matches StateView::Searching { exception_data, .. }
                ==> exception_data.is_addressable();
            &&& is_awaited(next.state, answer) <==> is_answer(next.action, answer) && (answer == (
            EventView::ModuleAnalyzed { found: true }) ==> addressable)
            &&& next.state is Stopped <==> !(next.action is Analyze) && !(next.action is FixModule)
                && !(next.action is WriteFiles)
        }),
{
}

/// The modules that a run asks for when it is in `state` with the request
/// `action`, and is told one after the other whether the search function was found.
pub open spec fn modules_asked_for(
    dry: bool,
    state: StateView,
    action: ActionView,
    answers: Seq<bool>,
    symbols: Seq<SymbolView>,
) -> Seq<ModuleKind>
    decreases answers.len(),
{
    match action {
        ActionView::FixModule { module, .. } => if answers.len() == 0 {
            seq![module]
        } else {
            let next = react(
                dry,
                state,
                EventView::ModuleAnalyzed { found: answers[0] },
                symbols,
            );
            seq![module] + modules_asked_for(
                dry,
                next.state,
                next.action,
                answers.drop_first(),
                next.symbols,
            )
        },
        _ => seq![],
    }
}

/// How many modules a run asks for, of `n`: one more than the answers up to the
/// first yes.
pub open spec fn number_asked_for(answers: Seq<bool>, n: nat) -> nat
    decreases answers.len(),
{
    if n == 0 {
        0
    } else if answers.len() == 0 || answers[0] {
        1
    } else {
        1 + number_asked_for(answers.drop_first(), (n - 1) as nat)
    }
}

proof fn lemma_search(
    dry: bool,
    modules: Seq<ModuleKind>,
    next: nat,
    data: ExceptionView,
    answers: Seq<bool>,
    symbols: Seq<SymbolView>,
)
    requires
        next < modules.len(),
    ensures
        number_asked_for(answers, (modules.len() - next) as nat) <= modules.len() - next,
        modules_asked_for(
            dry,
            StateView::Searching { modules, next, exception_data: data },
            fix_request(modules[next as int], data),
            answers,
            symbols,
        ) == modules.subrange(
            next as int,
            next as int + number_asked_for(answers, (modules.len() - next) as nat),
        ),
    decreases answers.len(),
{
    reveal_with_fuel(modules_asked_for, 2);
    let state = StateView::Searching { modules, next, exception_data: data };
    let action = fix_request(modules[next as int], data);
    let n = number_asked_for(answers, (modules.len() - next) as nat);
    let asked = modules_asked_for(dry, state, action, answers, symbols);
    if answers.len() > 0 && !answers[0] {
        if next + 1 < modules.len() {
            lemma_search(dry, modules, next + 1, data, answers.drop_first(), symbols);
        } else {
            assert(number_asked_for(answers.drop_first(), 0) == 0);
        }
    }
    assert(asked =~= modules.subrange(next as int, next as int + n));
}

/// A run asks for the main module first, then for the autoloads that were searched
/// for the table in their order, and for none behind the first one in which the
/// search function was found.
pub proof fn law_modules_are_searched_in_order(
    dry: bool,
    autoloads: Seq<AutoloadKind>,
    data: ExceptionView,
    answers: Seq<bool>,
    symbols: Seq<SymbolView>,
)
    ensures
        ({
            let first = react(
                dry,
                StateView::Analyzing { autoloads },
                EventView::Analyzed { exception_data: Some(data) },
                symbols,
            );
            let modules = searched_modules(autoloads);
            modules_asked_for(dry, first.state, first.action, answers, symbols) == modules.take(
                number_asked_for(answers, modules.len()) as int,
            )
        }),
{
    let modules = searched_modules(autoloads);
    lemma_search(dry, modules, 0, data, answers, symbols);
}

} // verus!
