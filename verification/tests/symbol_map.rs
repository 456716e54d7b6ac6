use automata::symbol_map::SymbolMap;

#[test]
fn new_map_is_empty() {
    let map: SymbolMap<usize> = SymbolMap::new();
    assert_eq!(map.len(), 0);
    assert!(!map.contains_key('a'));
    assert_eq!(map.get('a'), None);
    assert_eq!(map.nth(0), None);
}

#[test]
fn insert_then_get() {
    let mut map = SymbolMap::new();
    assert_eq!(map.insert('b', 7usize), None);
    assert_eq!(map.get('b'), Some(&7));
    assert!(map.contains_key('b'));
    assert!(!map.contains_key('a'));
    assert_eq!(map.len(), 1);
}

#[test]
fn insert_overwrites_and_returns_the_old_value() {
    let mut map = SymbolMap::new();
    map.insert('x', 1usize);
    assert_eq!(map.insert('x', 2), Some(1));
    assert_eq!(map.get('x'), Some(&2));
    assert_eq!(map.len(), 1);
}

#[test]
fn entries_come_in_ascending_order_of_their_symbols() {
    let mut map = SymbolMap::new();
    map.insert('m', 13usize);
    map.insert('a', 1);
    map.insert('z', 26);
    map.insert('c', 3);
    assert_eq!(map.len(), 4);
    assert_eq!(map.nth(0), Some(('a', &1)));
    assert_eq!(map.nth(1), Some(('c', &3)));
    assert_eq!(map.nth(2), Some(('m', &13)));
    assert_eq!(map.nth(3), Some(('z', &26)));
    assert_eq!(map.nth(4), None);
}

#[test]
fn remove_takes_the_entry_out() {
    let mut map = SymbolMap::new();
    map.insert('a', 1usize);
    map.insert('b', 2);
    map.insert('c', 3);
    assert_eq!(map.remove('b'), Some(2));
    assert_eq!(map.remove('b'), None);
    assert_eq!(map.len(), 2);
    assert_eq!(map.get('a'), Some(&1));
    assert_eq!(map.get('b'), None);
    assert_eq!(map.get('c'), Some(&3));
    assert_eq!(map.nth(1), Some(('c', &3)));
}

#[test]
fn maps_with_the_same_contents_are_equal() {
    let mut first = SymbolMap::new();
    first.insert('a', 1usize);
    first.insert('b', 2);
    let mut second = SymbolMap::new();
    second.insert('b', 2usize);
    second.insert('a', 0);
    second.insert('a', 1);
    assert_eq!(first, second);
    second.remove('a');
    assert_ne!(first, second);
}
