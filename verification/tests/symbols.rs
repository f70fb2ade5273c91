use std::collections::BTreeSet;

use dsd::symbols::{
    Answer, InlineTable, JumpTableKind, Reference, SymData, SymJumpTable, Symbol, SymbolKind,
    SymbolLookup, SymbolMap, SymbolMapError,
};
use unarm::LookupSymbol;

fn symbol(name: &str, addr: u32, kind: SymbolKind) -> Symbol {
    Symbol { name: name.to_string(), kind, addr }
}

fn names(map: &SymbolMap) -> Vec<&str> {
    map.symbols.iter().map(|symbol| symbol.name.as_str()).collect()
}

#[test]
fn data_size_is_that_of_all_elements() {
    assert_eq!(SymData::Any.size(), None);
    assert_eq!(SymData::Byte { count: None }.size(), None);
    assert_eq!(SymData::Byte { count: Some(5) }.size(), Some(5));
    assert_eq!(SymData::Short { count: Some(5) }.size(), Some(10));
    assert_eq!(SymData::Word { count: Some(5) }.size(), Some(20));
    assert_eq!(SymData::Word { count: Some(u32::MAX) }.size(), Some(4 * u32::MAX as u64));
}

#[test]
fn searches_look_for_one_kind() {
    let table = SymJumpTable { size: 8, kind: JumpTableKind::Arm };
    let data = SymData::Word { count: Some(1) };
    let map = SymbolMap {
        symbols: vec![
            symbol("f", 0x100, SymbolKind::Function),
            symbol("l", 0x100, SymbolKind::Label),
            symbol("t", 0x100, SymbolKind::JumpTable(table)),
            symbol("p", 0x104, SymbolKind::PoolConstant),
            symbol("d", 0x108, SymbolKind::Data(data)),
        ],
    };
    assert_eq!(map.get_label(0x100).unwrap().unwrap().name, "l");
    let (found, sym) = map.get_jump_table(0x100).unwrap().unwrap();
    assert_eq!((found, sym.name.as_str()), (table, "t"));
    assert!(map.get_pool_constant(0x100).unwrap().is_none());
    assert!(map.get_data(0x100).unwrap().is_none());
    assert_eq!(map.get_pool_constant(0x104).unwrap().unwrap().name, "p");
    let (found, sym) = map.get_data(0x108).unwrap().unwrap();
    assert_eq!((found, sym.name.as_str()), (data, "d"));
    let (index, sym) = map.by_address(0x108).unwrap().unwrap();
    assert_eq!((index, sym.name.as_str()), (4, "d"));
    assert!(map.by_address(0x10c).unwrap().is_none());
}

#[test]
fn several_symbols_are_an_error() {
    let map = SymbolMap {
        symbols: vec![
            symbol("a", 0x100, SymbolKind::Label),
            symbol("b", 0x100, SymbolKind::Label),
            symbol("c", 0x100, SymbolKind::Bss),
        ],
    };
    let error = SymbolMapError::MultipleSymbols { address: 0x100 };
    assert_eq!(map.get_label(0x100).unwrap_err(), error);
    assert_eq!(map.by_address(0x100).unwrap_err(), error);
    assert!(map.get_data(0x100).unwrap().is_none());
}

#[test]
fn symbols_come_and_go() {
    let mut map = SymbolMap::new();
    map.add_data("a".to_string(), 0x100, SymData::Any);
    map.add_data("b".to_string(), 0x104, SymData::Any);
    map.add_data("c".to_string(), 0x108, SymData::Any);
    assert_eq!(names(&map), ["a", "b", "c"]);
    map.remove(1);
    assert_eq!(names(&map), ["a", "c"]);
    assert_eq!(map.symbols[1].kind, SymbolKind::Data(SymData::Any));
    assert_eq!(map.symbols[1].addr, 0x108);
}

const BYTE: SymData = SymData::Byte { count: Some(1) };

fn lookup() -> SymbolLookup {
    SymbolLookup {
        symbol_map: SymbolMap::new(),
        references: vec![
            Reference {
                source: 0x100,
                destination: 0x200,
                name: Some("callee".to_string()),
                word: Answer::Text(".word callee\n".to_string()),
                comment: Answer::Text(" ; or other".to_string()),
            },
            Reference {
                source: 0x104,
                destination: 0x200,
                name: None,
                word: Answer::Failure("bad word".to_string()),
                comment: Answer::Failure("bad comment".to_string()),
            },
            Reference {
                source: 0x100,
                destination: 0x200,
                name: Some("shadowed".to_string()),
                word: Answer::Nothing,
                comment: Answer::Nothing,
            },
        ],
        data_relocations: BTreeSet::from([0x108]),
        inline_tables: vec![
            InlineTable {
                address: 0x10c,
                data: BYTE,
                bytes: vec![0],
                lines: Answer::Text("    .byte 0x0\n".to_string()),
            },
            InlineTable {
                address: 0x110,
                data: BYTE,
                bytes: vec![1],
                lines: Answer::Failure("bad table".to_string()),
            },
        ],
    }
}

#[test]
fn first_reference_names_operands() {
    let lookup = lookup();
    assert_eq!(lookup.lookup_symbol_name(0x100, 0x200), Some("callee"));
    assert_eq!(lookup.lookup_symbol_name(0x104, 0x200), None);
    assert_eq!(lookup.lookup_symbol_name(0x200, 0x100), None);
}

#[test]
fn words_are_written_where_they_are_known() {
    let lookup = lookup();
    let mut w = "-".to_string();
    assert_eq!(lookup.write_symbol(&mut w, 0x100, 0x200, "  "), Ok(true));
    assert_eq!(w, "-  .word callee\n");
    assert_eq!(lookup.write_symbol(&mut w, 0x100, 0x204, "  "), Ok(false));
    assert_eq!(lookup.write_symbol(&mut w, 0x104, 0x200, "  "), Err("bad word".to_string()));
    assert_eq!(w, "-  .word callee\n");
}

#[test]
fn comments_are_written_where_there_are_any() {
    let lookup = lookup();
    let mut w = "-".to_string();
    assert_eq!(lookup.write_ambiguous_symbols_comment(&mut w, 0x100, 0x200), Ok(()));
    assert_eq!(lookup.write_ambiguous_symbols_comment(&mut w, 0x108, 0x200), Ok(()));
    assert_eq!(
        lookup.write_ambiguous_symbols_comment(&mut w, 0x104, 0x200),
        Err("bad comment".to_string())
    );
    assert_eq!(w, "- ; or other");
}

#[test]
fn inline_tables_are_written_by_address_and_bytes() {
    let lookup = lookup();
    let mut w = "-".to_string();
    assert_eq!(lookup.write_inline_table(&mut w, 0x10c, BYTE, &[0]), Ok(()));
    assert_eq!(lookup.write_inline_table(&mut w, 0x10c, BYTE, &[1]), Ok(()));
    assert_eq!(lookup.write_inline_table(&mut w, 0x10c, BYTE, &[0, 0]), Ok(()));
    assert_eq!(lookup.write_inline_table(&mut w, 0x10c, SymData::Any, &[0]), Ok(()));
    assert_eq!(lookup.write_inline_table(&mut w, 0x100, BYTE, &[0]), Ok(()));
    assert_eq!(
        lookup.write_inline_table(&mut w, 0x110, BYTE, &[1]),
        Err("bad table".to_string())
    );
    assert_eq!(w, "-    .byte 0x0\n");
}

#[test]
fn data_relocations_are_known_by_address() {
    assert!(lookup().has_data_relocation(0x108));
    assert!(!lookup().has_data_relocation(0x10c));
}
