use rustfst::error::FstError;
use rustfst::symbol_table::SymbolTable;

fn symt(syms: &[&str]) -> SymbolTable {
    let mut t = SymbolTable::new();
    for s in syms {
        t.add_symbol(s);
    }
    t
}

#[test]
fn test_symt_write() {
    let s = symt(&["a", "b"]);
    let text = s.text().unwrap();
    println!("symt = \n{}", text);
    assert_eq!(text, "<eps>\t0\na\t1\nb\t2\n");
}

#[test]
fn new_table_holds_epsilon() {
    let t = SymbolTable::new();
    assert_eq!(t.len(), 1);
    assert!(!t.is_empty());
    assert_eq!(t.get_symbol(0), Some("<eps>"));
    assert_eq!(t.get_label("<eps>"), Some(0));
}

#[test]
fn add_symbol_assigns_dense_labels() {
    let mut t = symt(&["a", "b"]);
    assert_eq!(t.len(), 3);
    let label = t.add_symbol("c");
    assert_eq!(label, 3);
    assert_eq!(t.len(), 4);
    assert_eq!(t.get_label("c"), Some(label));
    assert_eq!(t.get_label("d"), None);
    assert_eq!(t.get_symbol(label), Some("c"));
    assert_eq!(t.get_symbol(label + 1), None);
    assert!(t.contains_symbol("a"));
    assert!(!t.contains_symbol("z"));
    assert!(t.contains_label(label));
    assert!(!t.contains_label(label + 1));
}

#[test]
fn duplicate_symbol_keeps_first_label() {
    let mut t = symt(&["a", "b"]);
    let l = t.add_symbol("a");
    assert_eq!(l, 3);
    assert_eq!(t.len(), 4);
    assert_eq!(t.get_label("a"), Some(1));
    assert_eq!(t.get_symbol(3), Some("a"));
    assert_eq!(t.symbols(), vec!["<eps>".to_string(), "a".to_string(), "b".to_string()]);
}

#[test]
fn labels_iter_and_reserve() {
    let mut t = symt(&["x"]);
    t.reserve(10);
    assert_eq!(t.labels(), vec![0, 1]);
    assert_eq!(t.iter(), vec![(0, "<eps>".to_string()), (1, "x".to_string())]);
}

#[test]
fn add_table_appends_distinct_symbols() {
    let mut t = symt(&["a"]);
    let mut other = symt(&["b", "b", "c"]);
    other.add_symbol("a");
    t.add_table(&other);
    assert_eq!(t.len(), 2 + 4);
    assert_eq!(t.get_symbol(2), Some("<eps>"));
    assert_eq!(t.get_symbol(3), Some("b"));
    assert_eq!(t.get_symbol(4), Some("c"));
    assert_eq!(t.get_symbol(5), Some("a"));
    assert_eq!(t.get_label("a"), Some(1));
}

#[test]
fn text_of_larger_labels() {
    let names: Vec<String> = (1..=12).map(|i| format!("s{}", i)).collect();
    let refs: Vec<&str> = names.iter().map(|s| s.as_str()).collect();
    let t = symt(&refs);
    let text = t.text().unwrap();
    assert!(text.ends_with("s10\t10\ns11\t11\ns12\t12\n"));
}

#[test]
fn text_round_trip() {
    let t = symt(&["a", "b", "c"]);
    let text = t.text().unwrap();
    let back = SymbolTable::from_text_string(&text).unwrap();
    assert_eq!(back.iter(), t.iter());
    assert_eq!(
        back.iter(),
        vec![
            (0, "<eps>".to_string()),
            (1, "a".to_string()),
            (2, "b".to_string()),
            (3, "c".to_string())
        ]
    );
}

#[test]
fn text_round_trip_many_labels() {
    let names: Vec<String> = (0..25).map(|i| format!("w{}", i)).collect();
    let refs: Vec<&str> = names.iter().map(|s| s.as_str()).collect();
    let t = symt(&refs);
    let back = SymbolTable::from_text_string(&t.text().unwrap()).unwrap();
    assert_eq!(back.iter(), t.iter());
}

#[test]
fn parse_rejects_malformed_text() {
    assert!(SymbolTable::from_text_string("").is_err());
    assert!(SymbolTable::from_text_string("a\t0\n").is_err());
    assert!(SymbolTable::from_text_string("<eps>\t0\n\n").is_err());
    assert!(SymbolTable::from_text_string("<eps>\t0\n#x\t1\n").is_err());
    assert!(SymbolTable::from_text_string("<eps>\t0\na\t2\n").is_err());
    assert!(SymbolTable::from_text_string("<eps>\t0\na\t01\n").is_err());
    assert!(SymbolTable::from_text_string("<eps>\t0\na\t1").is_err());
    assert!(SymbolTable::from_text_string("<eps>\t0\na 1\n").is_err());
    assert!(SymbolTable::from_text_string("<eps>\t0\n").is_ok());
}

#[test]
fn from_parsed_pairs() {
    let pairs = vec![("<eps>".to_string(), 0), ("x".to_string(), 1)];
    let t = SymbolTable::from_parsed_symt_text(pairs).unwrap();
    assert_eq!(t.get_label("x"), Some(1));
    let bad = vec![("<eps>".to_string(), 0), ("x".to_string(), 5)];
    assert!(SymbolTable::from_parsed_symt_text(bad).is_err());
}

#[test]
fn parse_accepts_lines_in_any_label_order() {
    let t = SymbolTable::from_text_string("b\t2\n<eps>\t0\na\t1\n").unwrap();
    assert_eq!(
        t.iter(),
        vec![(0, "<eps>".to_string()), (1, "a".to_string()), (2, "b".to_string())]
    );
    assert!(SymbolTable::from_text_string("a\t1\nb\t1\n<eps>\t0\n").is_err());
    assert!(SymbolTable::from_text_string("a\t0\n<eps>\t1\n").is_err());
}

#[test]
fn parse_errors_are_invalid_format() {
    assert!(matches!(SymbolTable::from_text_string("#c\t0\n"), Err(FstError::InvalidFormat(_))));
    assert!(matches!(SymbolTable::from_text_string("\n"), Err(FstError::InvalidFormat(_))));
}

#[test]
fn from_parsed_pairs_out_of_order() {
    let pairs = vec![("a".to_string(), 1), ("<eps>".to_string(), 0)];
    let t = SymbolTable::from_parsed_symt_text(pairs).unwrap();
    assert_eq!(t.len(), 2);
    assert_eq!(t.get_symbol(0), Some("<eps>"));
    assert_eq!(t.get_symbol(1), Some("a"));
    assert_eq!(t.get_label("a"), Some(1));
    let dup = vec![("a".to_string(), 0), ("b".to_string(), 0)];
    assert!(SymbolTable::from_parsed_symt_text(dup).is_err());
}

#[test]
fn parse_requires_every_label() {
    assert!(SymbolTable::from_text_string("a\t1\n").is_err());
    assert!(SymbolTable::from_text_string("<eps>\t0\nb\t2\n").is_err());
}
