//! Symbols and the tables keyed by them.

use std::collections::HashSet;
use std::hash::Hasher;

use backtester::symbol::{Symbol, SymbolHasher, SymbolMap, SymbolSet, SymbolVec};

#[test]
fn a_symbol_is_its_ticker_id() {
    let sym = Symbol::from_ticker_id(17_309);
    assert_eq!(sym.ticker_id(), 17_309);
    assert_eq!(sym.index(), 17_309);
}

#[test]
fn symbol_vec_grows_and_defaults() {
    let (a, z) = (Symbol::from_ticker_id(1), Symbol::from_ticker_id(900));

    let mut prices: SymbolVec<Option<f64>> = SymbolVec::new();
    assert_eq!(prices.copied(z), None);
    prices.set(z, Some(10.0));
    assert_eq!(prices.copied(z), Some(10.0));
    assert_eq!(prices.copied(a), None, "untouched slots stay defaulted");
    assert_eq!(prices.take(z), Some(10.0));
    assert_eq!(prices.copied(z), None);
}

#[test]
fn symbol_map_round_trips() {
    let mut map: SymbolMap<f64> = SymbolMap::default();
    for id in [0u16, 1, 47, 17_309, u16::MAX] {
        map.insert(Symbol::from_ticker_id(id), id as f64);
    }
    assert_eq!(map.len(), 5);
    assert_eq!(map.get(&Symbol::from_ticker_id(47)), Some(&47.0));
    assert_eq!(map.get(&Symbol::from_ticker_id(48)), None);
}

#[test]
fn symbol_map_walks_in_id_order_and_removes() {
    let mut map: SymbolMap<u32> = SymbolMap::new();
    for id in [9u16, 3, 700] {
        map.insert(Symbol::from_ticker_id(id), id as u32);
    }
    let ids: Vec<u16> = map.symbols().iter().map(|s| s.ticker_id()).collect();
    assert_eq!(ids, vec![3, 9, 700]);
    assert_eq!(map.remove(&Symbol::from_ticker_id(9)), Some(9));
    assert_eq!(map.remove(&Symbol::from_ticker_id(9)), None);
    assert!(!map.contains_key(&Symbol::from_ticker_id(9)));
    map.clear();
    assert!(map.is_empty());
}

#[test]
fn symbol_set_holds_a_member_once() {
    let mut set = SymbolSet::default();
    assert!(set.insert(Symbol::from_ticker_id(5)));
    assert!(!set.insert(Symbol::from_ticker_id(5)), "already there");
    assert!(set.contains(&Symbol::from_ticker_id(5)));
    assert_eq!(set.symbols().len(), 1);
}

#[test]
fn symbol_vec_with_len_covers_its_ids() {
    let mut counts: SymbolVec<u32> = SymbolVec::with_len(4);
    assert_eq!(counts.get(Symbol::from_ticker_id(3)), None, "not written yet");
    assert_eq!(counts.get(Symbol::from_ticker_id(4)), None);
    *counts.slot(Symbol::from_ticker_id(9)) += 7;
    assert_eq!(counts.get(Symbol::from_ticker_id(9)), Some(&7));
    assert_eq!(counts.get(Symbol::from_ticker_id(8)), None, "the gap was not written");
    assert_eq!(counts.copied(Symbol::from_ticker_id(8)), 0, "but reads as the default");
}

#[test]
fn symbol_vec_hands_out_written_slots_only() {
    let mut counts: SymbolVec<u32> = SymbolVec::new();
    assert!(counts.get_mut(Symbol::from_ticker_id(2)).is_none());
    counts.set(Symbol::from_ticker_id(900), 1);
    assert_eq!(counts.get(Symbol::from_ticker_id(900)), Some(&1));
    assert_eq!(counts.get(Symbol::from_ticker_id(901)), None);
    assert_eq!(counts.get(Symbol::from_ticker_id(1)), None);
    counts.set(Symbol::from_ticker_id(2), 5);
    *counts.get_mut(Symbol::from_ticker_id(2)).unwrap() += 1;
    assert_eq!(counts.copied(Symbol::from_ticker_id(2)), 6);
}

#[test]
fn ids_hash_apart() {
    let mut seen = HashSet::new();
    for id in 0..=u16::MAX {
        let mut hasher = SymbolHasher::default();
        hasher.write_u16(id);
        assert!(seen.insert(hasher.finish()), "{id} collides");
    }
    let mut hasher = SymbolHasher::default();
    hasher.write_u16(1);
    assert_eq!(hasher.finish(), 0x9E37_79B9_7F4A_7C15);
    let mut wide = SymbolHasher::default();
    wide.write_u32(1);
    assert_eq!(wide.finish(), hasher.finish());
    let mut bytes = SymbolHasher::default();
    bytes.write(&[1]);
    assert_eq!(bytes.finish(), hasher.finish());
}

#[test]
fn symbols_are_ordered_by_id() {
    let (low, high) = (Symbol::from_ticker_id(3), Symbol::from_ticker_id(900));
    assert!(low < high && high > low && low <= low);
    assert_eq!(low.partial_cmp(&high), Some(low.cmp(&high)));
    assert_eq!(high.max(low), high);
}
