use jsbuiltins::error::ErrorKind;
use jsbuiltins::set_data::{get_set_record, other_read, JSSet, OtherRead, SetMethod, SetMethodResult, SizeArg};
use jsbuiltins::symbol::{SymbolArg, SymbolTable, SymbolTextArg};
use jsbuiltins::weak::{
    is_weakmap_object, is_weakref_object, is_weakset_object, JSWeakMap, JSWeakRef, JSWeakSet, WeakRefArg,
    WeakSlot, WeakTarget,
};

fn u(s: &str) -> Vec<u16> {
    s.encode_utf16().collect()
}

fn set_of(keys: &[u64]) -> JSSet {
    let mut s = JSSet::new();
    for k in keys {
        s.add(*k);
    }
    s
}

fn keys(s: &JSSet) -> Vec<u64> {
    let mut out = Vec::new();
    let mut i = 0;
    while let Some((k, next)) = s.iterator_next(i) {
        out.push(k);
        i = next;
    }
    out
}

#[test]
fn set_add_has_delete() {
    let mut s = set_of(&[3, 1, 3, 2]);
    assert_eq!(s.size(), 3);
    assert!(s.has(1));
    assert!(!s.has(9));
    assert_eq!(keys(&s), vec![3, 1, 2]);
    assert!(s.delete(1));
    assert!(!s.delete(1));
    assert!(!s.has(1));
    assert_eq!(s.size(), 2);
    assert_eq!(keys(&s), vec![3, 2]);
    s.add(1);
    assert_eq!(keys(&s), vec![3, 2, 1]);
    s.clear();
    assert_eq!(s.size(), 0);
    assert_eq!(s.iterator_next(0), None);
}

#[test]
fn set_iteration_skips_deleted_entries() {
    let mut s = set_of(&[5, 6, 7]);
    s.delete(6);
    assert_eq!(s.iterator_next(0), Some((5, 1)));
    assert_eq!(s.iterator_next(1), Some((7, 3)));
    assert_eq!(s.iterator_next(3), None);
    let c = s.compacted();
    assert_eq!(c.values, vec![Some(5), Some(7)]);
}

#[test]
fn set_algebra() {
    let a = set_of(&[1, 2, 3]);
    assert_eq!(keys(&a.union(&vec![3, 4, 1, 5])), vec![1, 2, 3, 4, 5]);
    assert_eq!(keys(&a.intersection_by_keys(&vec![3, 9, 1])), vec![3, 1]);
    assert_eq!(keys(&a.intersection_by_has(&vec![false, true, true])), vec![2, 3]);
    assert_eq!(keys(&a.difference_by_has(&vec![false, true, false])), vec![1, 3]);
    assert_eq!(keys(&a.difference_by_keys(&vec![2, 7])), vec![1, 3]);
    assert_eq!(keys(&a.symmetric_difference(&vec![3, 4, 4])), vec![1, 2, 4]);
}

#[test]
fn set_relations() {
    let a = set_of(&[1, 2]);
    assert!(a.is_subset_of(3, &vec![true, true]));
    assert!(!a.is_subset_of(3, &vec![true, false]));
    assert!(!a.is_subset_of(1, &vec![true, true]));
    assert!(a.is_superset_of(1, &vec![2]));
    assert!(!a.is_superset_of(1, &vec![4]));
    assert!(!a.is_superset_of(3, &vec![1, 2]));
    assert!(a.is_disjoint_from_by_has(&vec![false, false]));
    assert!(!a.is_disjoint_from_by_keys(&vec![9, 2]));
    assert!(a.is_disjoint_from_by_keys(&vec![9]));
}

#[test]
fn set_methods_through_the_dispatcher() {
    let a = set_of(&[1, 2, 3]);
    assert_eq!(other_read(SetMethod::Intersection, 3, 10), OtherRead::HasAnswers);
    assert_eq!(other_read(SetMethod::Intersection, 3, 1), OtherRead::Keys);
    assert_eq!(other_read(SetMethod::IsSubsetOf, 3, 1), OtherRead::Nothing);
    assert_eq!(other_read(SetMethod::Union, 0, 0), OtherRead::Keys);
    match a.handle_set_method(SetMethod::Difference, 1, &vec![], &vec![2]) {
        SetMethodResult::NewSet(s) => assert_eq!(keys(&s), vec![1, 3]),
        _ => panic!("expected a set"),
    }
    match a.handle_set_method(SetMethod::IsSubsetOf, 1, &vec![], &vec![]) {
        SetMethodResult::Boolean(b) => assert!(!b),
        _ => panic!("expected a boolean"),
    }
    match a.handle_set_method(SetMethod::IsDisjointFrom, 5, &vec![false, false, false], &vec![]) {
        SetMethodResult::Boolean(b) => assert!(b),
        _ => panic!("expected a boolean"),
    }
}

#[test]
fn set_record_checks() {
    assert_eq!(get_set_record(true, SizeArg::Integral(4), true, true), Ok(4));
    assert_eq!(get_set_record(true, SizeArg::Integral(-4), true, true), Ok(0));
    assert_eq!(get_set_record(true, SizeArg::Integral(i64::MAX), true, true), Ok(usize::MAX));
    assert_eq!(get_set_record(false, SizeArg::Integral(1), true, true), Err(ErrorKind::TypeError));
    assert_eq!(get_set_record(true, SizeArg::NaN, true, true), Err(ErrorKind::TypeError));
    assert_eq!(get_set_record(true, SizeArg::Integral(1), false, true), Err(ErrorKind::TypeError));
    assert_eq!(get_set_record(true, SizeArg::Integral(1), true, false), Err(ErrorKind::TypeError));
}

#[test]
fn weakmap_set_get_delete() {
    let mut m = JSWeakMap::new();
    assert_eq!(m.set(Some(10), 1), Ok(()));
    assert_eq!(m.set(Some(20), 2), Ok(()));
    assert_eq!(m.set(Some(10), 3), Ok(()));
    assert_eq!(m.get(Some(10)), Some(3));
    assert_eq!(m.get(Some(20)), Some(2));
    assert_eq!(m.get(Some(30)), None);
    assert!(m.has(Some(20)));
    assert!(!m.has(None));
    assert!(m.delete(Some(20)));
    assert!(!m.delete(Some(20)));
    assert_eq!(m.get(Some(20)), None);
    assert_eq!(m.set(None, 1), Err(ErrorKind::TypeError));
    assert_eq!(m.get(None), None);
}

#[test]
fn weakmap_get_or_insert() {
    let mut m = JSWeakMap::new();
    assert_eq!(m.get_or_insert(Some(1), 5), Ok(5));
    assert_eq!(m.get_or_insert(Some(1), 6), Ok(5));
    assert_eq!(m.get_or_insert(None, 6), Err(ErrorKind::TypeError));
    assert_eq!(m.insert_computed(2, 8), 8);
    assert_eq!(m.get(Some(2)), Some(8));
    assert_eq!(m.insert_computed(1, 9), 9);
    assert_eq!(m.get(Some(1)), Some(9));
}

#[test]
fn weakset_add_has_delete() {
    let mut s = JSWeakSet::new();
    assert_eq!(s.add(Some(4)), Ok(()));
    assert_eq!(s.add(Some(4)), Ok(()));
    assert_eq!(s.add(Some(5)), Ok(()));
    assert!(s.has(Some(4)));
    assert!(!s.has(Some(6)));
    assert!(!s.has(None));
    assert!(s.delete(Some(4)));
    assert!(!s.has(Some(4)));
    assert!(!s.delete(Some(4)));
    assert_eq!(s.add(None), Err(ErrorKind::TypeError));
    assert_eq!(s.values, vec![Some(5)]);
}

#[test]
fn weakset_drops_reclaimed_values() {
    let mut s = JSWeakSet { values: vec![None, Some(1), None, Some(2)] };
    assert!(s.has(Some(2)));
    assert_eq!(s.values, vec![Some(1), Some(2)]);
}

#[test]
fn weakref_targets() {
    let r = JSWeakRef::new(WeakRefArg::Object(7)).unwrap();
    assert_eq!(r.deref(), WeakTarget::Object(7));
    let s = JSWeakRef::new(WeakRefArg::Symbol { id: 3, registered: false }).unwrap();
    assert_eq!(s.deref(), WeakTarget::Symbol(3));
    assert!(JSWeakRef::new(WeakRefArg::Symbol { id: 3, registered: true }).is_err());
    assert!(JSWeakRef::new(WeakRefArg::Other).is_err());
}

#[test]
fn brand_checks() {
    assert!(is_weakmap_object(Some(WeakSlot::WeakMap)));
    assert!(!is_weakmap_object(Some(WeakSlot::WeakSet)));
    assert!(!is_weakmap_object(None));
    assert!(is_weakset_object(Some(WeakSlot::WeakSet)));
    assert!(!is_weakset_object(Some(WeakSlot::Other)));
    assert!(is_weakref_object(true));
    assert!(!is_weakref_object(false));
}

#[test]
fn symbols_are_distinct_and_registered_once() {
    let mut t = SymbolTable::new();
    let a = t.new_symbol(SymbolTextArg::Text(u("x"))).unwrap();
    let b = t.new_symbol(SymbolTextArg::Text(u("x"))).unwrap();
    assert_ne!(a, b);
    let f1 = t.symbol_for(SymbolTextArg::Text(u("k"))).unwrap();
    let f2 = t.symbol_for(SymbolTextArg::Text(u("k"))).unwrap();
    assert_eq!(f1, f2);
    assert_ne!(f1, a);
    assert_eq!(t.key_for(SymbolArg::Symbol(f1)), Ok(Some(u("k"))));
    assert_eq!(t.key_for(SymbolArg::Symbol(a)), Ok(None));
    assert_eq!(t.key_for(SymbolArg::Other), Err(ErrorKind::TypeError));
    let undef = t.symbol_for(SymbolTextArg::Undefined).unwrap();
    assert_eq!(t.key_for(SymbolArg::Symbol(undef)), Ok(Some(u("undefined"))));
    assert_eq!(t.symbol_for(SymbolTextArg::Symbol), Err(ErrorKind::TypeError));
    assert_eq!(t.new_symbol(SymbolTextArg::Symbol), Err(ErrorKind::TypeError));
}

#[test]
fn symbol_text_and_description() {
    let mut t = SymbolTable::new();
    let a = t.new_symbol(SymbolTextArg::Text(u("desc"))).unwrap();
    let b = t.new_symbol(SymbolTextArg::Undefined).unwrap();
    assert_eq!(t.to_string(SymbolArg::Symbol(a)), Ok(u("Symbol(desc)")));
    assert_eq!(t.to_string(SymbolArg::Wrapper(b)), Ok(u("Symbol()")));
    assert_eq!(t.to_string(SymbolArg::Other), Err(ErrorKind::TypeError));
    assert_eq!(t.description(SymbolArg::Symbol(a)), Ok(Some(u("desc"))));
    assert_eq!(t.description(SymbolArg::Symbol(b)), Ok(None));
    assert_eq!(t.this_symbol_value(SymbolArg::Wrapper(a)), Ok(a));
    assert_eq!(t.this_symbol_value(SymbolArg::Other), Err(ErrorKind::TypeError));
    assert_eq!(t.description(SymbolArg::Symbol(99)), Err(ErrorKind::TypeError));
}
