use jsbuiltins::error::ErrorKind;
use jsbuiltins::reflect_proto::{
    ordinary_has_property, ordinary_set_prototype_of, reflect_get_prototype_of, reflect_has, reflect_is_extensible,
    reflect_prevent_extensions, reflect_set_prototype_of, BoolOutcome, PrototypeAnswer, ProtoModel,
    ReflectValue,
};

// 0: Object.prototype (immutable), 1: a (proto 0), 2: b (proto 1),
// 3: a sealed object (proto 0), 4: a proxy (proto 1).
fn model() -> ProtoModel {
    ProtoModel {
        proto: vec![None, Some(0), Some(1), Some(0), Some(1)],
        extensible: vec![true, true, true, false, true],
        immutable: vec![true, false, false, false, false],
        proxy: vec![false, false, false, false, true],
    }
}

#[test]
fn set_prototype_changes_the_link() {
    let mut m = model();
    let r = reflect_set_prototype_of(&mut m, &[ReflectValue::Object(2), ReflectValue::Null]);
    assert_eq!(r, Ok(BoolOutcome::Done(true)));
    assert_eq!(m.proto[2], None);
    let r = reflect_set_prototype_of(&mut m, &[ReflectValue::Object(2), ReflectValue::Object(3)]);
    assert_eq!(r, Ok(BoolOutcome::Done(true)));
    assert_eq!(m.proto[2], Some(3));
}

#[test]
fn set_prototype_refuses_a_cycle() {
    let mut m = model();
    assert!(!ordinary_set_prototype_of(&mut m, 1, Some(2)));
    assert_eq!(m.proto, vec![None, Some(0), Some(1), Some(0), Some(1)]);
    assert!(!ordinary_set_prototype_of(&mut m, 1, Some(1)));
}

#[test]
fn set_prototype_walk_stops_at_a_proxy() {
    let mut m = model();
    assert!(ordinary_set_prototype_of(&mut m, 1, Some(4)));
    assert_eq!(m.proto[1], Some(4));
}

#[test]
fn immutable_prototype_accepts_only_the_same_value() {
    let mut m = model();
    assert!(!ordinary_set_prototype_of(&mut m, 0, Some(1)));
    assert!(ordinary_set_prototype_of(&mut m, 0, None));
    assert_eq!(m.proto[0], None);
}

#[test]
fn non_extensible_object_keeps_its_prototype() {
    let mut m = model();
    assert!(!ordinary_set_prototype_of(&mut m, 3, Some(1)));
    assert!(ordinary_set_prototype_of(&mut m, 3, Some(0)));
    assert_eq!(m.proto[3], Some(0));
}

#[test]
fn proxy_target_goes_to_its_trap() {
    let mut m = model();
    let r = reflect_set_prototype_of(&mut m, &[ReflectValue::Object(4), ReflectValue::Null]);
    assert_eq!(r, Ok(BoolOutcome::ProxyTrap));
    assert_eq!(m.proto[4], Some(1));
}

#[test]
fn set_prototype_argument_errors() {
    let mut m = model();
    assert_eq!(
        reflect_set_prototype_of(&mut m, &[ReflectValue::Object(1)]),
        Err(ErrorKind::TypeError)
    );
    assert_eq!(
        reflect_set_prototype_of(&mut m, &[ReflectValue::Null, ReflectValue::Null]),
        Err(ErrorKind::TypeError)
    );
    assert_eq!(
        reflect_set_prototype_of(&mut m, &[ReflectValue::Object(1), ReflectValue::Other]),
        Err(ErrorKind::TypeError)
    );
    assert_eq!(m.proto, vec![None, Some(0), Some(1), Some(0), Some(1)]);
}

#[test]
fn get_prototype_and_extensibility() {
    let m = model();
    assert_eq!(
        reflect_get_prototype_of(&m, &[ReflectValue::Object(2)]),
        Ok(PrototypeAnswer::Proto(Some(1)))
    );
    assert_eq!(reflect_get_prototype_of(&m, &[ReflectValue::Object(0)]), Ok(PrototypeAnswer::Proto(None)));
    assert_eq!(reflect_get_prototype_of(&m, &[ReflectValue::Object(4)]), Ok(PrototypeAnswer::ProxyTrap));
    assert_eq!(reflect_get_prototype_of(&m, &[]), Err(ErrorKind::TypeError));
    assert_eq!(reflect_get_prototype_of(&m, &[ReflectValue::Other]), Err(ErrorKind::TypeError));
    assert_eq!(reflect_is_extensible(&m, &[ReflectValue::Object(3)]), Ok(BoolOutcome::Done(false)));
    assert_eq!(reflect_is_extensible(&m, &[ReflectValue::Object(1)]), Ok(BoolOutcome::Done(true)));
    assert_eq!(reflect_is_extensible(&m, &[ReflectValue::Object(4)]), Ok(BoolOutcome::ProxyTrap));
    assert_eq!(reflect_is_extensible(&m, &[ReflectValue::Null]), Err(ErrorKind::TypeError));
}

#[test]
fn prevent_extensions_fixes_the_prototype() {
    let mut m = model();
    assert_eq!(reflect_prevent_extensions(&mut m, &[ReflectValue::Object(2)]), Ok(BoolOutcome::Done(true)));
    assert_eq!(reflect_is_extensible(&m, &[ReflectValue::Object(2)]), Ok(BoolOutcome::Done(false)));
    let r = reflect_set_prototype_of(&mut m, &[ReflectValue::Object(2), ReflectValue::Null]);
    assert_eq!(r, Ok(BoolOutcome::Done(false)));
    assert_eq!(
        reflect_get_prototype_of(&m, &[ReflectValue::Object(2)]),
        Ok(PrototypeAnswer::Proto(Some(1)))
    );
    let same = reflect_set_prototype_of(&mut m, &[ReflectValue::Object(2), ReflectValue::Object(1)]);
    assert_eq!(same, Ok(BoolOutcome::Done(true)));
    assert_eq!(reflect_prevent_extensions(&mut m, &[ReflectValue::Object(4)]), Ok(BoolOutcome::ProxyTrap));
    assert_eq!(reflect_prevent_extensions(&mut m, &[]), Err(ErrorKind::TypeError));
}

// Own keys: Object.prototype has 7, a has 1, b has 2, the sealed object has 3.
fn own_keys() -> Vec<Vec<u64>> {
    vec![vec![7], vec![1], vec![2], vec![3], vec![]]
}

#[test]
fn has_walks_the_prototype_links() {
    let m = model();
    let own = own_keys();
    assert_eq!(ordinary_has_property(&m, &own, 2, 2), BoolOutcome::Done(true));
    assert_eq!(ordinary_has_property(&m, &own, 2, 1), BoolOutcome::Done(true));
    assert_eq!(ordinary_has_property(&m, &own, 2, 7), BoolOutcome::Done(true));
    assert_eq!(ordinary_has_property(&m, &own, 2, 3), BoolOutcome::Done(false));
    assert_eq!(ordinary_has_property(&m, &own, 4, 1), BoolOutcome::ProxyTrap);
    assert_eq!(reflect_has(&m, &own, &[ReflectValue::Object(2), ReflectValue::Other], 1), Ok(BoolOutcome::Done(true)));
    assert_eq!(reflect_has(&m, &own, &[ReflectValue::Object(2)], 1), Err(ErrorKind::TypeError));
    assert_eq!(reflect_has(&m, &own, &[ReflectValue::Null, ReflectValue::Other], 1), Err(ErrorKind::TypeError));
}

#[test]
fn has_follows_a_new_prototype() {
    let mut m = model();
    let own = own_keys();
    assert!(ordinary_set_prototype_of(&mut m, 2, Some(3)));
    assert_eq!(ordinary_has_property(&m, &own, 2, 3), BoolOutcome::Done(true));
    assert_eq!(ordinary_has_property(&m, &own, 2, 1), BoolOutcome::Done(false));
    assert!(ordinary_set_prototype_of(&mut m, 1, Some(4)));
    assert_eq!(ordinary_has_property(&m, &own, 1, 9), BoolOutcome::ProxyTrap);
    assert!(ordinary_set_prototype_of(&mut m, 2, None));
    assert_eq!(ordinary_has_property(&m, &own, 2, 7), BoolOutcome::Done(false));
}
