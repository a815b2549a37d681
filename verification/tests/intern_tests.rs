use dpc_common::intern::{Interner, StaticInterner, Symbol};

#[test]
fn interning_twice_gives_the_same_symbol() {
    let mut interner = StaticInterner::new();
    let first = interner.intern("hello");
    let second = interner.intern("hello");
    assert_eq!(first, second);
    assert_eq!(first, Symbol(1));
    assert_eq!(interner.resolve(first), Some("hello"));
    assert_eq!(interner.len(), 1);
}

#[test]
fn symbols_count_up_from_one() {
    let mut interner = StaticInterner::new();
    assert_eq!(interner.len(), 0);
    let words = ["a", "b", "", "a", "c", "b", "€"];
    let ids: Vec<u32> = words.iter().map(|w| interner.intern(w).get()).collect();
    assert_eq!(ids, vec![1, 2, 3, 1, 4, 2, 5]);
    assert_eq!(interner.len(), 5);
    for (word, id) in words.iter().zip(ids) {
        assert_eq!(interner.resolve(Symbol(id)), Some(*word));
    }
}

#[test]
fn symbols_never_issued_resolve_to_nothing() {
    let mut interner = StaticInterner::new();
    assert_eq!(interner.resolve(Symbol(1)), None);
    interner.intern("x");
    assert_eq!(interner.resolve(Symbol(0)), None);
    assert_eq!(interner.resolve(Symbol(2)), None);
    assert_eq!(interner.resolve(Symbol(u32::MAX)), None);
    assert_eq!(interner.resolve(Symbol(1)), Some("x"));
}

#[test]
fn try_intern_gives_what_intern_gives() {
    let mut interner = StaticInterner::new();
    assert_eq!(interner.try_intern("say"), Some(Symbol(1)));
    assert_eq!(interner.try_intern("tp"), Some(Symbol(2)));
    assert_eq!(interner.intern("say"), Symbol(1));
    assert_eq!(interner.try_intern("tp"), Some(Symbol(2)));
    assert_eq!(interner.len(), 2);
}

#[test]
fn earlier_symbols_survive_later_interning() {
    let mut interner = StaticInterner::new();
    let mut symbols = Vec::new();
    for i in 0..500 {
        symbols.push(interner.intern(&format!("name-{}", i)));
    }
    for (i, symbol) in symbols.iter().enumerate() {
        assert_eq!(symbol.get() as usize, i + 1);
        assert_eq!(interner.resolve(*symbol), Some(format!("name-{}", i).as_str()));
    }
}

#[test]
fn a_string_keeps_its_symbol_whatever_is_interned_between() {
    let mut interner = StaticInterner::new();
    let empty = interner.intern("");
    let first = interner.intern("first");
    for i in 0..50 {
        interner.intern(&format!("other-{}", i));
        assert_eq!(interner.intern("first"), first);
        assert_eq!(interner.intern(""), empty);
        assert_eq!(interner.resolve(first), Some("first"));
        assert_eq!(interner.resolve(empty), Some(""));
    }
    assert_eq!(interner.len(), 52);
    assert_eq!(empty, Symbol(1));
    assert_eq!(first, Symbol(2));
}
