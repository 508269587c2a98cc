use ll1_parser::symbols::SymbolMap;

#[test]
fn finds_first_covering_symbol() {
    let mut m = SymbolMap::new();
    m.add_symbol("main".to_string(), 0x1000, 0x40);
    m.add_symbol("inner".to_string(), 0x1010, 0x10);
    m.add_symbol("data".to_string(), 0x2000, 8);
    assert_eq!(m.symbols.len(), 3);
    assert_eq!(m.find_symbol(0x1000).unwrap().name, "main");
    assert_eq!(m.find_symbol(0x1018).unwrap().name, "main");
    assert_eq!(m.find_symbol(0x2007).unwrap().name, "data");
    assert!(m.find_symbol(0x2008).is_none());
    assert!(m.find_symbol(0x0fff).is_none());
}

#[test]
fn empty_symbols_cover_nothing() {
    let mut m = SymbolMap::new();
    assert!(m.find_symbol(0).is_none());
    m.add_symbol("zero".to_string(), 5, 0);
    assert!(m.find_symbol(5).is_none());
}

#[test]
fn region_reaching_the_top_of_the_address_space() {
    let mut m = SymbolMap::new();
    m.add_symbol("top".to_string(), u64::MAX - 1, 10);
    assert_eq!(m.find_symbol(u64::MAX).unwrap().address, u64::MAX - 1);
}
