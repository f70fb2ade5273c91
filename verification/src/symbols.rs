//! What is known of addresses: symbols, and references between addresses.

use std::collections::BTreeSet;

use vstd::prelude::*;
use vstd::string::*;

use crate::text::same_bytes;

verus! {

/// How a Thumb jump table adds its entries to the program counter.
#[derive(Clone, Copy, Debug, PartialEq, Eq, Structural)]
pub enum ThumbJumpTableJump {
    /// `add pc, pc, entry`
    AddPc,
    /// `bx` to the table's address plus the entry
    Bx,
}

/// How large the entries of a Thumb jump table are.
#[derive(Clone, Copy, Debug, PartialEq, Eq, Structural)]
pub enum ThumbJumpTableKind {
    Halfword,
    Byte,
}

/// What the entries of a jump table are.
#[derive(Clone, Copy, Debug, PartialEq, Eq, Structural)]
pub enum JumpTableKind {
    /// Branch instructions.
    Arm,
    /// Distances from the table.
    Thumb { kind: ThumbJumpTableKind, jump: ThumbJumpTableJump },
}

/// A table of the destinations of one indirect jump.
#[derive(Clone, Copy, Debug, PartialEq, Eq, Structural)]
pub struct SymJumpTable {
    /// Number of bytes.
    pub size: u32,
    pub kind: JumpTableKind,
}

/// The elements of a piece of data.
#[derive(Clone, Copy, Debug, PartialEq, Eq, Structural)]
pub enum SymData {
    Any,
    Byte { count: Option<u32> },
    Short { count: Option<u32> },
    Word { count: Option<u32> },
}

impl SymData {
    /// Number of bytes, where the number of elements is known.
    pub open spec fn spec_size(self) -> Option<nat> {
        match self {
            SymData::Byte { count: Some(n) } => Some(n as nat),
            SymData::Short { count: Some(n) } => Some(2 * n as nat),
            SymData::Word { count: Some(n) } => Some(4 * n as nat),
            _ => None,
        }
    }

    pub fn size(self) -> (res: Option<u64>)
        ensures
            match res {
                Some(n) => self.spec_size() == Some(n as nat),
                None => self.spec_size() is None,
            },
    {
        match self {
            SymData::Byte { count: Some(n) } => Some(n as u64),
            SymData::Short { count: Some(n) } => Some(2 * (n as u64)),
            SymData::Word { count: Some(n) } => Some(4 * (n as u64)),
            _ => None,
        }
    }
}

#[derive(Clone, Copy, Debug, PartialEq, Eq, Structural)]
pub enum SymbolKind {
    Undefined,
    Function,
    Label,
    PoolConstant,
    JumpTable(SymJumpTable),
    Data(SymData),
    Bss,
}

/// A name for an address.
#[derive(Debug)]
pub struct Symbol {
    pub name: String,
    pub kind: SymbolKind,
    pub addr: u32,
}

/// The value of a [`Symbol`].
pub struct SymbolView {
    pub name: Seq<char>,
    pub kind: SymbolKind,
    pub addr: u32,
}

impl View for Symbol {
    type V = SymbolView;

    open spec fn view(&self) -> SymbolView {
        SymbolView { name: self.name@, kind: self.kind, addr: self.addr }
    }
}

/// Which kinds of symbols a search is for.
#[derive(Clone, Copy, Debug, PartialEq, Eq, Structural)]
pub enum Wanted {
    Any,
    Label,
    PoolConstant,
    JumpTable,
    Data,
}

impl Wanted {
    pub open spec fn spec_accepts(self, kind: SymbolKind) -> bool {
        match self {
            Wanted::Any => true,
            Wanted::Label => kind is Label,
            Wanted::PoolConstant => kind is PoolConstant,
            Wanted::JumpTable => kind is JumpTable,
            Wanted::Data => kind is Data,
        }
    }

    fn accepts(self, kind: SymbolKind) -> (res: bool)
        ensures
            res == self.spec_accepts(kind),
    {
        match (self, kind) {
            (Wanted::Any, _) => true,
            (Wanted::Label, SymbolKind::Label) => true,
            (Wanted::PoolConstant, SymbolKind::PoolConstant) => true,
            (Wanted::JumpTable, SymbolKind::JumpTable(_)) => true,
            (Wanted::Data, SymbolKind::Data(_)) => true,
            _ => false,
        }
    }
}

/// Whether `symbol` is one of the wanted kind at `address`.
pub open spec fn is_match(symbol: SymbolView, address: u32, wanted: Wanted) -> bool {
    symbol.addr == address && wanted.spec_accepts(symbol.kind)
}

/// The symbols of the wanted kind at `address`, in their order in the map.
pub open spec fn matches_at(symbols: Seq<SymbolView>, address: u32, wanted: Wanted) -> Seq<
    SymbolView,
> {
    symbols.filter(|s: SymbolView| is_match(s, address, wanted))
}

/// The answer to a search that expects no more than one symbol.
pub enum Found {
    Nothing,
    One(SymbolView),
    Several,
}

/// What a search for the wanted kind of symbol at `address` finds.
pub open spec fn sole(symbols: Seq<SymbolView>, address: u32, wanted: Wanted) -> Found {
    let found = matches_at(symbols, address, wanted);
    if found.len() == 0 {
        Found::Nothing
    } else if found.len() == 1 {
        Found::One(found[0])
    } else {
        Found::Several
    }
}

/// The symbols that are not at `address`.
pub open spec fn without(symbols: Seq<SymbolView>, address: u32) -> Seq<SymbolView> {
    symbols.filter(|s: SymbolView| s.addr != address)
}

pub proof fn lemma_matches_push(
    symbols: Seq<SymbolView>,
    symbol: SymbolView,
    address: u32,
    wanted: Wanted,
)
    ensures
        matches_at(symbols.push(symbol), address, wanted) == if is_match(symbol, address, wanted) {
            matches_at(symbols, address, wanted).push(symbol)
        } else {
            matches_at(symbols, address, wanted)
        },
{
    reveal(Seq::filter);
    assert(symbols.push(symbol).drop_last() =~= symbols);
}

/// The symbols at an address are all gone without them, and those at another
/// address are as they were.
pub proof fn lemma_matches_without(
    symbols: Seq<SymbolView>,
    removed: u32,
    address: u32,
    wanted: Wanted,
)
    ensures
        matches_at(without(symbols, removed), address, wanted) == if address == removed {
            seq![]
        } else {
            matches_at(symbols, address, wanted)
        },
    decreases symbols.len(),
{
    reveal(Seq::filter);
    if symbols.len() == 0 {
        assert(without(symbols, removed) =~= seq![]);
        assert(matches_at(symbols, address, wanted) =~= seq![]);
        assert(matches_at(without(symbols, removed), address, wanted) =~= seq![]);
    } else {
        lemma_matches_without(symbols.drop_last(), removed, address, wanted);
        assert(symbols =~= symbols.drop_last().push(symbols.last()));
        lemma_matches_push(symbols.drop_last(), symbols.last(), address, wanted);
        if symbols.last().addr != removed {
            assert(without(symbols, removed) == without(symbols.drop_last(), removed).push(
                symbols.last(),
            ));
            lemma_matches_push(
                without(symbols.drop_last(), removed),
                symbols.last(),
                address,
                wanted,
            );
        }
    }
}

proof fn lemma_matches_match(symbols: Seq<SymbolView>, address: u32, wanted: Wanted, i: int)
    requires
        0 <= i < matches_at(symbols, address, wanted).len(),
    ensures
        is_match(matches_at(symbols, address, wanted)[i], address, wanted),
    decreases symbols.len(),
{
    reveal(Seq::filter);
    if symbols.len() > 0 {
        let front = symbols.drop_last();
        assert(symbols =~= front.push(symbols.last()));
        lemma_matches_push(front, symbols.last(), address, wanted);
        if i < matches_at(front, address, wanted).len() {
            lemma_matches_match(front, address, wanted, i);
        }
    }
}

/// What a search finds is of the wanted kind, and at the address.
pub proof fn lemma_sole_matches(symbols: Seq<SymbolView>, address: u32, wanted: Wanted)
    ensures
        sole(symbols, address, wanted) matches Found::One(symbol) ==> is_match(
            symbol,
            address,
            wanted,
        ),
{
    if sole(symbols, address, wanted) is One {
        lemma_matches_match(symbols, address, wanted, 0);
    }
}

/// To take the only symbol at an address out is to take out all that are there.
pub proof fn lemma_remove_only(symbols: Seq<SymbolView>, address: u32, i: int)
    requires
        0 <= i < symbols.len(),
        symbols[i].addr == address,
        matches_at(symbols, address, Wanted::Any).len() == 1,
    ensures
        symbols.remove(i) == without(symbols, address),
    decreases symbols.len(),
{
    reveal(Seq::filter);
    let front = symbols.drop_last();
    assert(symbols =~= front.push(symbols.last()));
    lemma_matches_push(front, symbols.last(), address, Wanted::Any);
    if i == symbols.len() - 1 {
        assert(symbols.remove(i) =~= front);
        lemma_without_nothing(front, address);
    } else {
        if symbols.last().addr == address {
            lemma_matches_nonempty(front, address, i);
        }
        lemma_remove_only(front, address, i);
        assert(symbols.remove(i) =~= front.remove(i).push(symbols.last()));
    }
}

proof fn lemma_matches_nonempty(symbols: Seq<SymbolView>, address: u32, i: int)
    requires
        0 <= i < symbols.len(),
        symbols[i].addr == address,
    ensures
        matches_at(symbols, address, Wanted::Any).len() > 0,
    decreases symbols.len(),
{
    let front = symbols.drop_last();
    assert(symbols =~= front.push(symbols.last()));
    lemma_matches_push(front, symbols.last(), address, Wanted::Any);
    if i < front.len() {
        lemma_matches_nonempty(front, address, i);
    }
}

proof fn lemma_without_nothing(symbols: Seq<SymbolView>, address: u32)
    requires
        matches_at(symbols, address, Wanted::Any).len() == 0,
    ensures
        without(symbols, address) == symbols,
    decreases symbols.len(),
{
    reveal(Seq::filter);
    if symbols.len() > 0 {
        let front = symbols.drop_last();
        assert(symbols =~= front.push(symbols.last()));
        lemma_matches_push(front, symbols.last(), address, Wanted::Any);
        lemma_without_nothing(front, address);
    } else {
        assert(without(symbols, address) =~= symbols);
    }
}

/// Why a search in a [`SymbolMap`] failed.
#[derive(Clone, Copy, Debug, PartialEq, Eq, Structural)]
pub enum SymbolMapError {
    /// Several symbols are at an address where one was expected.
    MultipleSymbols { address: u32 },
}

/// The symbols of one module.
#[derive(Debug)]
pub struct SymbolMap {
    pub symbols: Vec<Symbol>,
}

impl View for SymbolMap {
    type V = Seq<SymbolView>;

    open spec fn view(&self) -> Seq<SymbolView> {
        self.symbols@.map_values(|s: Symbol| s@)
    }
}

/// Whether a search ended as it should: with `expected`, or with the error for
/// `address` where several symbols were found.
pub open spec fn search_agrees(
    res: Result<Option<&Symbol>, SymbolMapError>,
    expected: Found,
    address: u32,
) -> bool {
    match res {
        Ok(Some(symbol)) => expected == Found::One(symbol@),
        Ok(None) => expected == Found::Nothing,
        Err(e) => expected is Several && e == (SymbolMapError::MultipleSymbols { address }),
    }
}

impl SymbolMap {
    pub fn new() -> (res: Self)
        ensures
            res@ == Seq::<SymbolView>::empty(),
    {
        let res = SymbolMap { symbols: Vec::new() };
        assert(res@ =~= Seq::<SymbolView>::empty());
        res
    }

    /// Finds the only symbol of the wanted kind at `address`.
    fn find_sole(&self, address: u32, wanted: Wanted) -> (res: Result<
        Option<usize>,
        SymbolMapError,
    >)
        ensures
            match res {
                Ok(Some(i)) => {
                    &&& i < self@.len()
                    &&& is_match(self@[i as int], address, wanted)
                    &&& matches_at(self@, address, wanted) == seq![self@[i as int]]
                },
                Ok(None) => matches_at(self@, address, wanted).len() == 0,
                Err(e) => {
                    &&& matches_at(self@, address, wanted).len() >= 2
                    &&& e == (SymbolMapError::MultipleSymbols { address })
                },
            },
    {
        let ghost p = |s: SymbolView| is_match(s, address, wanted);
        let mut found: Option<usize> = None;
        let mut several = false;
        let mut i: usize = 0;
        assert(self@.take(0).filter(p) =~= Seq::<SymbolView>::empty()) by {
            reveal(Seq::filter);
        }
        while i < self.symbols.len()
            invariant
                i <= self.symbols.len(),
                self@.len() == self.symbols.len(),
                p == (|s: SymbolView| is_match(s, address, wanted)),
                several ==> found is Some && self@.take(i as int).filter(p).len() >= 2,
                !several ==> match found {
                    Some(k) => {
                        &&& k < i
                        &&& p(self@[k as int])
                        &&& self@.take(i as int).filter(p) == seq![self@[k as int]]
                    },
                    None => self@.take(i as int).filter(p).len() == 0,
                },
            decreases self.symbols.len() - i,
        {
            proof {
                reveal(Seq::filter);
                assert(self@.take(i + 1).drop_last() =~= self@.take(i as int));
                assert(self@.take(i + 1).last() == self@[i as int]);
            }
            let symbol = &self.symbols[i];
            assert(self@[i as int] == symbol@);
            if symbol.addr == address && wanted.accepts(symbol.kind) {
                if found.is_some() {
                    several = true;
                } else {
                    found = Some(i);
                    assert(self@.take(i + 1).filter(p) =~= seq![self@[i as int]]);
                }
            }
            i += 1;
        }
        assert(self@.take(i as int) =~= self@);
        if several {
            Err(SymbolMapError::MultipleSymbols { address })
        } else {
            Ok(found)
        }
    }

    fn get_sole(&self, address: u32, wanted: Wanted) -> (res: Result<
        Option<&Symbol>,
        SymbolMapError,
    >)
        ensures
            search_agrees(res, sole(self@, address, wanted), address),
            res matches Ok(Some(symbol)) ==> is_match(symbol@, address, wanted),
    {
        match self.find_sole(address, wanted) {
            Ok(Some(i)) => Ok(Some(&self.symbols[i])),
            Ok(None) => Ok(None),
            Err(e) => Err(e),
        }
    }

    /// The only symbol at `address`, and its place in the map.
    pub fn by_address(&self, address: u32) -> (res: Result<
        Option<(usize, &Symbol)>,
        SymbolMapError,
    >)
        ensures
            match res {
                Ok(Some((i, symbol))) => {
                    &&& i < self@.len()
                    &&& symbol@ == self@[i as int]
                    &&& symbol.addr == address
                    &&& sole(self@, address, Wanted::Any) == Found::One(symbol@)
                },
                Ok(None) => sole(self@, address, Wanted::Any) == Found::Nothing,
                Err(e) => sole(self@, address, Wanted::Any) is Several && e == (
                SymbolMapError::MultipleSymbols { address }),
            },
    {
        match self.find_sole(address, Wanted::Any) {
            Ok(Some(i)) => Ok(Some((i, &self.symbols[i]))),
            Ok(None) => Ok(None),
            Err(e) => Err(e),
        }
    }

    /// The only label at `address`.
    pub fn get_label(&self, address: u32) -> (res: Result<Option<&Symbol>, SymbolMapError>)
        ensures
            search_agrees(res, sole(self@, address, Wanted::Label), address),
    {
        self.get_sole(address, Wanted::Label)
    }

    /// The only pool constant at `address`.
    pub fn get_pool_constant(&self, address: u32) -> (res: Result<Option<&Symbol>, SymbolMapError>)
        ensures
            search_agrees(res, sole(self@, address, Wanted::PoolConstant), address),
    {
        self.get_sole(address, Wanted::PoolConstant)
    }

    /// The only jump table at `address`.
    pub fn get_jump_table(&self, address: u32) -> (res: Result<
        Option<(SymJumpTable, &Symbol)>,
        SymbolMapError,
    >)
        ensures
            match res {
                Ok(Some((table, symbol))) => {
                    &&& symbol.addr == address
                    &&& symbol.kind == SymbolKind::JumpTable(table)
                    &&& sole(self@, address, Wanted::JumpTable) == Found::One(symbol@)
                },
                Ok(None) => sole(self@, address, Wanted::JumpTable) == Found::Nothing,
                Err(e) => sole(self@, address, Wanted::JumpTable) is Several && e == (
                SymbolMapError::MultipleSymbols { address }),
            },
    {
        match self.get_sole(address, Wanted::JumpTable) {
            Ok(Some(symbol)) => match symbol.kind {
                SymbolKind::JumpTable(table) => Ok(Some((table, symbol))),
                _ => Ok(None),
            },
            Ok(None) => Ok(None),
            Err(e) => Err(e),
        }
    }

    /// The only piece of data at `address`.
    pub fn get_data(&self, address: u32) -> (res: Result<
        Option<(SymData, &Symbol)>,
        SymbolMapError,
    >)
        ensures
            match res {
                Ok(Some((data, symbol))) => {
                    &&& symbol.addr == address
                    &&& symbol.kind == SymbolKind::Data(data)
                    &&& sole(self@, address, Wanted::Data) == Found::One(symbol@)
                },
                Ok(None) => sole(self@, address, Wanted::Data) == Found::Nothing,
                Err(e) => sole(self@, address, Wanted::Data) is Several && e == (
                SymbolMapError::MultipleSymbols { address }),
            },
    {
        match self.get_sole(address, Wanted::Data) {
            Ok(Some(symbol)) => match symbol.kind {
                SymbolKind::Data(data) => Ok(Some((data, symbol))),
                _ => Ok(None),
            },
            Ok(None) => Ok(None),
            Err(e) => Err(e),
        }
    }

    /// Takes the symbol at place `index` out of the map.
    pub fn remove(&mut self, index: usize)
        requires
            index < old(self)@.len(),
        ensures
            final(self)@ == old(self)@.remove(index as int),
    {
        self.symbols.remove(index);
        assert(self@ =~= old(self)@.remove(index as int));
    }

    /// Puts a piece of data behind the other symbols.
    pub fn add_data(&mut self, name: String, address: u32, data: SymData)
        ensures
            final(self)@ == old(self)@.push(
                SymbolView { name: name@, kind: SymbolKind::Data(data), addr: address },
            ),
    {
        self.symbols.push(Symbol { name, kind: SymbolKind::Data(data), addr: address });
        assert(self@ =~= old(self)@.push(
            SymbolView { name: name@, kind: SymbolKind::Data(data), addr: address },
        ));
    }
}

/// What there is to write for a reference.
#[derive(Debug)]
pub enum Answer {
    Nothing,
    Text(String),
    /// Nothing can be written, for the reason given.
    Failure(String),
}

/// The value of an [`Answer`].
pub enum Reply {
    Nothing,
    Text(Seq<char>),
    Failure(Seq<char>),
}

impl View for Answer {
    type V = Reply;

    open spec fn view(&self) -> Reply {
        match self {
            Answer::Nothing => Reply::Nothing,
            Answer::Text(text) => Reply::Text(text@),
            Answer::Failure(reason) => Reply::Failure(reason@),
        }
    }
}

/// What is known of the place `source` that refers to `destination`.
#[derive(Debug)]
pub struct Reference {
    pub source: u32,
    pub destination: u32,
    /// What an operand that refers to `destination` is written as.
    pub name: Option<String>,
    /// The line for a data word that refers to `destination`, without
    /// indentation.
    pub word: Answer,
    /// The comment on other meanings of the reference.
    pub comment: Answer,
}

/// The lines for a table in the middle of code.
#[derive(Debug)]
pub struct InlineTable {
    pub address: u32,
    /// The elements of the table.
    pub data: SymData,
    /// The bytes that the lines are for.
    pub bytes: Vec<u8>,
    pub lines: Answer,
}

/// What is known of the addresses that a function refers to.
#[derive(Debug)]
pub struct SymbolLookup {
    /// Symbols of the module that holds the function.
    pub symbol_map: SymbolMap,
    pub references: Vec<Reference>,
    /// Where relocations apply to data words.
    pub data_relocations: BTreeSet<u32>,
    pub inline_tables: Vec<InlineTable>,
}

/// The first reference from `source` to `destination`.
pub open spec fn find_reference(
    references: Seq<Reference>,
    source: u32,
    destination: u32,
) -> Option<Reference>
    decreases references.len(),
{
    if references.len() == 0 {
        None
    } else if references[0].source == source && references[0].destination == destination {
        Some(references[0])
    } else {
        find_reference(references.drop_first(), source, destination)
    }
}

/// Whether the lines of `table` are for `bytes` at `address`, with the elements that
/// `data` says.
pub open spec fn is_table_of(
    table: InlineTable,
    address: u32,
    data: SymData,
    bytes: Seq<u8>,
) -> bool {
    table.address == address && table.data == data && table.bytes@ == bytes
}

/// The first inline table whose lines are for `bytes` at `address`.
pub open spec fn find_inline_table(
    tables: Seq<InlineTable>,
    address: u32,
    data: SymData,
    bytes: Seq<u8>,
) -> Option<InlineTable>
    decreases tables.len(),
{
    if tables.len() == 0 {
        None
    } else if is_table_of(tables[0], address, data, bytes) {
        Some(tables[0])
    } else {
        find_inline_table(tables.drop_first(), address, data, bytes)
    }
}

impl SymbolLookup {
    /// What an operand at `source` that refers to `destination` is written as.
    pub open spec fn operand_name(&self, source: u32, destination: u32) -> Option<Seq<char>> {
        match find_reference(self.references@, source, destination) {
            Some(Reference { name: Some(name), .. }) => Some(name@),
            _ => None,
        }
    }

    /// The line for the data word `destination` at `source`.
    pub open spec fn word_reply(&self, source: u32, destination: u32) -> Reply {
        match find_reference(self.references@, source, destination) {
            Some(reference) => reference.word@,
            None => Reply::Nothing,
        }
    }

    /// The comment on a reference from `source` to `destination`.
    pub open spec fn comment_reply(&self, source: u32, destination: u32) -> Reply {
        match find_reference(self.references@, source, destination) {
            Some(reference) => reference.comment@,
            None => Reply::Nothing,
        }
    }

    /// The comment on what the instruction at `source` refers to, if it does.
    pub open spec fn comment_on(&self, source: u32, reference: Option<u32>) -> Reply {
        match reference {
            Some(destination) => self.comment_reply(source, destination),
            None => Reply::Nothing,
        }
    }

    /// The lines for `bytes` at `address`, an inline table.
    pub open spec fn table_reply(&self, address: u32, data: SymData, bytes: Seq<u8>) -> Reply {
        match find_inline_table(self.inline_tables@, address, data, bytes) {
            Some(table) => table.lines@,
            None => Reply::Nothing,
        }
    }

    fn reference(&self, source: u32, destination: u32) -> (res: Option<&Reference>)
        ensures
            match res {
                Some(r) => find_reference(self.references@, source, destination) == Some(*r),
                None => find_reference(self.references@, source, destination) is None,
            },
    {
        let mut i: usize = 0;
        assert(self.references@.skip(0) =~= self.references@);
        while i < self.references.len()
            invariant
                i <= self.references.len(),
                find_reference(self.references@, source, destination) == find_reference(
                    self.references@.skip(i as int),
                    source,
                    destination,
                ),
            decreases self.references.len() - i,
        {
            let r = &self.references[i];
            assert(self.references@.skip(i as int)[0] == *r);
            if r.source == source && r.destination == destination {
                return Some(r);
            }
            assert(self.references@.skip(i as int).drop_first() =~= self.references@.skip(i + 1));
            i += 1;
        }
        None
    }

    fn inline_table(&self, address: u32, data: SymData, bytes: &[u8]) -> (res: Option<
        &InlineTable,
    >)
        ensures
            match res {
                Some(t) => find_inline_table(self.inline_tables@, address, data, bytes@) == Some(
                    *t,
                ),
                None => find_inline_table(self.inline_tables@, address, data, bytes@) is None,
            },
    {
        let mut i: usize = 0;
        assert(self.inline_tables@.skip(0) =~= self.inline_tables@);
        while i < self.inline_tables.len()
            invariant
                i <= self.inline_tables.len(),
                find_inline_table(self.inline_tables@, address, data, bytes@) == find_inline_table(
                    self.inline_tables@.skip(i as int),
                    address,
                    data,
                    bytes@,
                ),
            decreases self.inline_tables.len() - i,
        {
            let t = &self.inline_tables[i];
            assert(self.inline_tables@.skip(i as int)[0] == *t);
            if t.address == address && t.data == data && same_bytes(t.bytes.as_slice(), bytes) {
                return Some(t);
            }
            assert(self.inline_tables@.skip(i as int).drop_first() =~= self.inline_tables@.skip(
                i + 1,
            ));
            i += 1;
        }
        None
    }

    /// Whether a relocation says that the word at `address` is data.
    pub fn has_data_relocation(&self, address: u32) -> (res: bool)
        ensures
            res == self.data_relocations@.contains(address),
    {
        broadcast use vstd::std_specs::btree::group_btree_axioms;

        self.data_relocations.contains(&address)
    }

    /// Writes the line for the data word `destination` at `source`, if it refers
    /// to something that has a name, and says whether it did.
    pub fn write_symbol(
        &self,
        w: &mut String,
        source: u32,
        destination: u32,
        indent: &str,
    ) -> (res: Result<bool, String>)
        ensures
            match self.word_reply(source, destination) {
                Reply::Nothing => res == Ok::<bool, String>(false) && final(w)@ == old(w)@,
                Reply::Text(text) => res == Ok::<bool, String>(true) && final(w)@ == old(w)@
                    + indent@ + text,
                Reply::Failure(reason) => final(w)@ == old(w)@ && (res matches Err(e) && e@
                    == reason),
            },
    {
        match self.reference(source, destination) {
            Some(r) => match &r.word {
                Answer::Nothing => Ok(false),
                Answer::Text(text) => {
                    w.append(indent);
                    w.append(text.as_str());
                    Ok(true)
                },
                Answer::Failure(reason) => Err(reason.clone()),
            },
            None => Ok(false),
        }
    }

    /// Writes the comment on a reference from `source` to `destination`, if there
    /// is one.
    pub fn write_ambiguous_symbols_comment(
        &self,
        w: &mut String,
        source: u32,
        destination: u32,
    ) -> (res: Result<(), String>)
        ensures
            match self.comment_reply(source, destination) {
                Reply::Nothing => res is Ok && final(w)@ == old(w)@,
                Reply::Text(text) => res is Ok && final(w)@ == old(w)@ + text,
                Reply::Failure(reason) => final(w)@ == old(w)@ && (res matches Err(e) && e@
                    == reason),
            },
    {
        match self.reference(source, destination) {
            Some(r) => match &r.comment {
                Answer::Nothing => Ok(()),
                Answer::Text(text) => {
                    w.append(text.as_str());
                    Ok(())
                },
                Answer::Failure(reason) => Err(reason.clone()),
            },
            None => Ok(()),
        }
    }

    /// Writes the lines for `bytes` at `address`, an inline table with the elements that
    /// `data` says.
    pub fn write_inline_table(
        &self,
        w: &mut String,
        address: u32,
        data: SymData,
        bytes: &[u8],
    ) -> (res: Result<(), String>)
        ensures
            match self.table_reply(address, data, bytes@) {
                Reply::Nothing => res is Ok && final(w)@ == old(w)@,
                Reply::Text(text) => res is Ok && final(w)@ == old(w)@ + text,
                Reply::Failure(reason) => final(w)@ == old(w)@ && (res matches Err(e) && e@
                    == reason),
            },
    {
        match self.inline_table(address, data, bytes) {
            Some(t) => match &t.lines {
                Answer::Nothing => Ok(()),
                Answer::Text(text) => {
                    w.append(text.as_str());
                    Ok(())
                },
                Answer::Failure(reason) => Err(reason.clone()),
            },
            None => Ok(()),
        }
    }
}

impl unarm::LookupSymbol for SymbolLookup {
    fn lookup_symbol_name(&self, source: u32, destination: u32) -> (res: Option<&str>)
        ensures
            match res {
                Some(name) => self.operand_name(source, destination) == Some(name@),
                None => self.operand_name(source, destination) is None,
            },
    {
        match self.reference(source, destination) {
            Some(r) => match &r.name {
                Some(name) => Some(name.as_str()),
                None => None,
            },
            None => None,
        }
    }
}

} // verus!
