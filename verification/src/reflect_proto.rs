//! `Reflect.getPrototypeOf`, `setPrototypeOf`, `has`, `isExtensible` and
//! `preventExtensions` over a model of the objects' prototype links,
//! extensibility and own property keys: the ordinary [[SetPrototypeOf]]
//! with its immutable-prototype rule, its extensibility check and its walk
//! that refuses a prototype cycle, and the lookup up the prototype links
//! that `has` makes, which ends because no cycle can form.
use crate::error::ErrorKind;
use vstd::prelude::*;

verus! {

/// The objects, numbered from 0: each one's prototype (`None` for null),
/// whether it is extensible, whether its prototype is immutable (as
/// `Object.prototype`'s is), and whether it is a proxy, whose
/// [[GetPrototypeOf]] is not the ordinary one.
pub struct ProtoModel {
    pub proto: Vec<Option<usize>>,
    pub extensible: Vec<bool>,
    pub immutable: Vec<bool>,
    pub proxy: Vec<bool>,
}

/// The walk up the prototype links from `p`, for at most `fuel` links,
/// ends: at null, or at a proxy (where the ordinary walk stops).
pub open spec fn chain_ends(proto: Seq<Option<usize>>, proxy: Seq<bool>, p: Option<usize>, fuel: nat) -> bool
    decreases fuel,
{
    match p {
        None => true,
        Some(q) => proxy[q as int] || (fuel > 0 && chain_ends(
            proto,
            proxy,
            proto[q as int],
            (fuel - 1) as nat,
        )),
    }
}

/// The walk up from `p`, for at most `fuel` links, meets object `o` before
/// it ends.
pub open spec fn walk_meets(
    proto: Seq<Option<usize>>,
    proxy: Seq<bool>,
    p: Option<usize>,
    o: usize,
    fuel: nat,
) -> bool
    decreases fuel,
{
    match p {
        None => false,
        Some(q) => if q == o {
            true
        } else if proxy[q as int] {
            false
        } else if fuel == 0 {
            false
        } else {
            walk_meets(proto, proxy, proto[q as int], o, (fuel - 1) as nat)
        },
    }
}

/// The walk up from `p` ends after finitely many links.
pub open spec fn chain_finite(proto: Seq<Option<usize>>, proxy: Seq<bool>, p: Option<usize>) -> bool {
    exists|f: nat| chain_ends(proto, proxy, p, f)
}

/// As many links as the walk from `p` takes to end.
pub open spec fn chain_fuel(proto: Seq<Option<usize>>, proxy: Seq<bool>, p: Option<usize>) -> nat {
    choose|f: nat| chain_ends(proto, proxy, p, f)
}

/// The walk up from `p` meets `o` (on a walk that ends).
pub open spec fn chain_meets(proto: Seq<Option<usize>>, proxy: Seq<bool>, p: Option<usize>, o: usize) -> bool {
    walk_meets(proto, proxy, p, o, chain_fuel(proto, proxy, p))
}

/// `p` is null or one of the `len` objects.
pub open spec fn in_model(p: Option<usize>, len: nat) -> bool {
    match p {
        None => true,
        Some(q) => q < len,
    }
}

/// Every link of `proto` is null or one of its objects, and `proxy` has
/// an entry for each.
pub open spec fn links_in_model(proto: Seq<Option<usize>>, proxy: Seq<bool>) -> bool {
    &&& proxy.len() == proto.len()
    &&& forall|x: int| 0 <= x < proto.len() ==> in_model(#[trigger] proto[x], proto.len())
}

impl ProtoModel {
    pub open spec fn len(&self) -> nat {
        self.proto@.len()
    }

    /// Every object has one entry in each table, every prototype is null or
    /// one of the objects, and no walk up the ordinary prototype links goes
    /// round forever.
    pub open spec fn wf(&self) -> bool {
        &&& self.extensible@.len() == self.len()
        &&& self.immutable@.len() == self.len()
        &&& self.proxy@.len() == self.len()
        &&& forall|x: int| 0 <= x < self.len() ==> in_model(#[trigger] self.proto@[x], self.len())
        &&& forall|x: usize|
            x < self.len() ==> #[trigger] chain_finite(self.proto@, self.proxy@, Some(x))
    }
}

/// OrdinarySetPrototypeOf(O, V): with an immutable prototype, whether `p`
/// is the current one; `true` when it is; `false` for an object that is not
/// extensible; else whether the walk up from `p` stays clear of `o`.
pub open spec fn spec_set_proto(m: ProtoModel, o: usize, p: Option<usize>) -> bool {
    if m.immutable@[o as int] {
        p == m.proto@[o as int]
    } else if p == m.proto@[o as int] {
        true
    } else if !m.extensible@[o as int] {
        false
    } else {
        !chain_meets(m.proto@, m.proxy@, p, o)
    }
}

proof fn lemma_chain_more_fuel(
    proto: Seq<Option<usize>>,
    proxy: Seq<bool>,
    p: Option<usize>,
    o: usize,
    f: nat,
    g: nat,
)
    requires
        links_in_model(proto, proxy),
        in_model(p, proto.len()),
        chain_ends(proto, proxy, p, f),
        f <= g,
    ensures
        chain_ends(proto, proxy, p, g),
        walk_meets(proto, proxy, p, o, f) == walk_meets(proto, proxy, p, o, g),
    decreases f,
{
    if let Some(q) = p {
        if !proxy[q as int] && f > 0 {
            lemma_chain_more_fuel(proto, proxy, proto[q as int], o, (f - 1) as nat, (g - 1) as nat);
        }
    }
}

/// A walk that never meets `o` is the same after `o`'s link changes.
proof fn lemma_walk_clear_of(
    proto: Seq<Option<usize>>,
    proxy: Seq<bool>,
    p: Option<usize>,
    o: usize,
    v: Option<usize>,
    f: nat,
)
    requires
        links_in_model(proto, proxy),
        in_model(p, proto.len()),
        in_model(v, proto.len()),
        chain_ends(proto, proxy, p, f),
        !walk_meets(proto, proxy, p, o, f),
        o < proto.len(),
    ensures
        chain_ends(proto.update(o as int, v), proxy, p, f),
    decreases f,
{
    if let Some(q) = p {
        if !proxy[q as int] {
            assert(q != o);
            lemma_walk_clear_of(proto, proxy, proto[q as int], o, v, (f - 1) as nat);
        }
    }
}

/// A walk that meets `o` continues, after `o`'s link is set to `v`, along
/// the walk from `v`.
proof fn lemma_walk_through(
    proto: Seq<Option<usize>>,
    proxy: Seq<bool>,
    p: Option<usize>,
    o: usize,
    v: Option<usize>,
    f: nat,
    g: nat,
)
    requires
        links_in_model(proto, proxy),
        links_in_model(proto.update(o as int, v), proxy),
        in_model(p, proto.len()),
        in_model(v, proto.len()),
        walk_meets(proto, proxy, p, o, f),
        chain_ends(proto.update(o as int, v), proxy, v, g),
        o < proto.len(),
        !proxy[o as int],
    ensures
        chain_ends(proto.update(o as int, v), proxy, p, f + g + 1),
    decreases f,
{
    let np = proto.update(o as int, v);
    if let Some(q) = p {
        if q == o {
            lemma_chain_more_fuel(np, proxy, v, o, g, f + g);
            assert(np[o as int] == v);
        } else {
            lemma_walk_through(proto, proxy, proto[q as int], o, v, (f - 1) as nat, g);
            assert(np[q as int] == proto[q as int]);
        }
    }
}

/// The prototype links stay free of cycles when `o`'s link is set to a `v`
/// whose walk stays clear of `o`.
proof fn lemma_set_keeps_wf(m: ProtoModel, o: usize, v: Option<usize>, proto2: Seq<Option<usize>>)
    requires
        m.wf(),
        o < m.len(),
        !m.proxy@[o as int],
        in_model(v, m.len()),
        chain_finite(m.proto@, m.proxy@, v),
        !chain_meets(m.proto@, m.proxy@, v, o),
        proto2 == m.proto@.update(o as int, v),
    ensures
        forall|x: int| 0 <= x < proto2.len() ==> in_model(#[trigger] proto2[x], proto2.len()),
        forall|x: usize| x < proto2.len() ==> #[trigger] chain_finite(proto2, m.proxy@, Some(x)),
{
    let proto = m.proto@;
    let proxy = m.proxy@;
    assert forall|x: int| 0 <= x < proto2.len() implies in_model(#[trigger] proto2[x], proto2.len()) by {
        if x != o {
            assert(in_model(proto[x], m.len()));
        }
    }
    assert(links_in_model(proto, proxy));
    assert(links_in_model(proto2, proxy));
    let gv = chain_fuel(proto, proxy, v);
    lemma_walk_clear_of(proto, proxy, v, o, v, gv);
    assert forall|x: usize| x < proto2.len() implies #[trigger] chain_finite(proto2, proxy, Some(x)) by {
        assert(chain_finite(proto, proxy, Some(x)));
        let fx = chain_fuel(proto, proxy, Some(x));
        if walk_meets(proto, proxy, Some(x), o, fx) {
            lemma_walk_through(proto, proxy, Some(x), o, v, fx, gv);
            assert(chain_ends(proto2, proxy, Some(x), fx + gv + 1));
        } else {
            lemma_walk_clear_of(proto, proxy, Some(x), o, v, fx);
            assert(chain_ends(proto2, proxy, Some(x), fx));
        }
    }
}

/// A walk from `p` that meets `o` gives `o` a walk that ends within the
/// fuel of `p`'s.
proof fn lemma_meet_fuel(
    proto: Seq<Option<usize>>,
    proxy: Seq<bool>,
    p: Option<usize>,
    o: usize,
    k: nat,
    f: nat,
) -> (g: nat)
    requires
        links_in_model(proto, proxy),
        in_model(p, proto.len()),
        walk_meets(proto, proxy, p, o, k),
        chain_ends(proto, proxy, p, f),
    ensures
        g <= f,
        chain_ends(proto, proxy, Some(o), g),
    decreases k,
{
    let q = p->Some_0;
    if q == o {
        f
    } else {
        lemma_meet_fuel(proto, proxy, proto[q as int], o, (k - 1) as nat, (f - 1) as nat)
    }
}

proof fn lemma_not_own_ancestor(
    proto: Seq<Option<usize>>,
    proxy: Seq<bool>,
    o: usize,
    f: nat,
    k: nat,
)
    requires
        links_in_model(proto, proxy),
        o < proto.len(),
        !proxy[o as int],
        chain_ends(proto, proxy, Some(o), f),
    ensures
        !walk_meets(proto, proxy, proto[o as int], o, k),
    decreases f,
{
    if walk_meets(proto, proxy, proto[o as int], o, k) {
        let g = lemma_meet_fuel(proto, proxy, proto[o as int], o, k, (f - 1) as nat);
        lemma_not_own_ancestor(proto, proxy, o, g, k);
    }
}

/// No object that is not a proxy is its own ancestor: the walk up from its
/// prototype never comes back to it. `ordinary_set_prototype_of` keeps
/// `wf`, so this holds in every state it leads to.
pub proof fn law_no_object_is_its_own_ancestor(m: ProtoModel, o: usize)
    requires
        m.wf(),
        o < m.len(),
        !m.proxy@[o as int],
    ensures
        !chain_meets(m.proto@, m.proxy@, m.proto@[o as int], o),
{
    assert(links_in_model(m.proto@, m.proxy@));
    assert(chain_finite(m.proto@, m.proxy@, Some(o)));
    let f = chain_fuel(m.proto@, m.proxy@, Some(o));
    lemma_not_own_ancestor(
        m.proto@,
        m.proxy@,
        o,
        f,
        chain_fuel(m.proto@, m.proxy@, m.proto@[o as int]),
    );
}

/// Whether the walk up the prototype links from `p` meets `o`: stops at
/// null, at `o`, or at a proxy.
fn walk_reaches(m: &ProtoModel, p: Option<usize>, o: usize) -> (r: bool)
    requires
        m.wf(),
        in_model(p, m.len()),
        chain_finite(m.proto@, m.proxy@, p),
    ensures
        r == chain_meets(m.proto@, m.proxy@, p, o),
{
    let ghost proto = m.proto@;
    let ghost proxy = m.proxy@;
    let ghost f0 = chain_fuel(proto, proxy, p);
    let ghost mut fuel = f0;
    let mut cur = p;
    loop
        invariant
            m.wf(),
            proto == m.proto@,
            proxy == m.proxy@,
            in_model(cur, m.len()),
            chain_ends(proto, proxy, cur, fuel),
            walk_meets(proto, proxy, cur, o, fuel) == chain_meets(proto, proxy, p, o),
        decreases fuel,
    {
        match cur {
            None => {
                return false;
            },
            Some(q) => {
                if q == o {
                    return true;
                }
                if m.proxy[q] {
                    return false;
                }
                let next = m.proto[q];
                proof {
                    assert(in_model(proto[q as int], m.len()));
                    fuel = (fuel - 1) as nat;
                }
                cur = next;
            },
        }
    }
}

/// OrdinarySetPrototypeOf: sets `o`'s prototype to `p` and answers `true`,
/// or answers `false` and changes nothing (see `spec_set_proto`). The links
/// stay free of cycles.
pub fn ordinary_set_prototype_of(m: &mut ProtoModel, o: usize, p: Option<usize>) -> (r: bool)
    requires
        old(m).wf(),
        o < old(m).len(),
        !old(m).proxy@[o as int],
        in_model(p, old(m).len()),
    ensures
        r == spec_set_proto(*old(m), o, p),
        r ==> final(m).proto@ == old(m).proto@.update(o as int, p),
        !r ==> final(m).proto@ == old(m).proto@,
        final(m).extensible@ == old(m).extensible@,
        final(m).immutable@ == old(m).immutable@,
        final(m).proxy@ == old(m).proxy@,
        final(m).wf(),
{
    let current = m.proto[o];
    if m.immutable[o] {
        return p == current;
    }
    if p == current {
        proof {
            assert(old(m).proto@.update(o as int, p) =~= old(m).proto@);
        }
        return true;
    }
    if !m.extensible[o] {
        return false;
    }
    proof {
        if let Some(q) = p {
            assert(chain_finite(m.proto@, m.proxy@, Some(q)));
        } else {
            assert(chain_ends(m.proto@, m.proxy@, None, 0));
        }
    }
    if walk_reaches(m, p, o) {
        return false;
    }
    let ghost before = *m;
    proof {
        lemma_set_keeps_wf(before, o, p, before.proto@.update(o as int, p));
    }
    m.proto.set(o, p);
    true
}

/// An argument of `Reflect.setPrototypeOf`: an object of the model, null,
/// or any other value.
#[derive(Clone, Copy, Debug, PartialEq, Eq, Structural)]
pub enum ReflectValue {
    Object(usize),
    Null,
    Other,
}

/// What `Reflect.setPrototypeOf`, `isExtensible` or `preventExtensions`
/// answers, or that a proxy's trap decides.
#[derive(Clone, Copy, Debug, PartialEq, Eq, Structural)]
pub enum BoolOutcome {
    Done(bool),
    ProxyTrap,
}

/// The arguments of `Reflect.setPrototypeOf` are two or more, the first an
/// object and the second an object or null.
pub open spec fn set_prototype_args_ok(args: Seq<ReflectValue>) -> bool {
    &&& args.len() >= 2
    &&& args[0] is Object
    &&& !(args[1] is Other)
}

/// The prototype that the second argument names.
pub open spec fn proto_of(v: ReflectValue) -> Option<usize> {
    match v {
        ReflectValue::Object(i) => Some(i),
        _ => None,
    }
}

/// `Reflect.setPrototypeOf(target, proto)`: a TypeError with fewer than two
/// arguments, a target that is not an object or a prototype that is neither
/// an object nor null; a proxy target leaves the answer to its trap;
/// otherwise OrdinarySetPrototypeOf.
pub fn reflect_set_prototype_of(m: &mut ProtoModel, args: &[ReflectValue]) -> (r: Result<
    BoolOutcome,
    ErrorKind,
>)
    requires
        old(m).wf(),
        forall|i: int|
            0 <= i < args@.len() ==> (#[trigger] args@[i] matches ReflectValue::Object(x) ==> x
                < old(m).len()),
    ensures
        !set_prototype_args_ok(args@) ==> r == Err::<BoolOutcome, ErrorKind>(
            ErrorKind::TypeError,
        ) && *final(m) == *old(m),
        set_prototype_args_ok(args@) && old(m).proxy@[args@[0]->Object_0 as int] ==> r == Ok::<
            BoolOutcome,
            ErrorKind,
        >(BoolOutcome::ProxyTrap) && *final(m) == *old(m),
        set_prototype_args_ok(args@) && !old(m).proxy@[args@[0]->Object_0 as int] ==> {
            let o = args@[0]->Object_0;
            let p = proto_of(args@[1]);
            let ok = spec_set_proto(*old(m), o, p);
            &&& r == Ok::<BoolOutcome, ErrorKind>(BoolOutcome::Done(ok))
            &&& final(m).proto@ == (if ok {
                old(m).proto@.update(o as int, p)
            } else {
                old(m).proto@
            })
            &&& final(m).extensible@ == old(m).extensible@
            &&& final(m).immutable@ == old(m).immutable@
            &&& final(m).proxy@ == old(m).proxy@
        },
        final(m).wf(),
{
    if args.len() < 2 {
        return Err(ErrorKind::TypeError);
    }
    let o = match args[0] {
        ReflectValue::Object(o) => o,
        _ => return Err(ErrorKind::TypeError),
    };
    let p = match args[1] {
        ReflectValue::Object(q) => Some(q),
        ReflectValue::Null => None,
        ReflectValue::Other => return Err(ErrorKind::TypeError),
    };
    assert(args@[0] matches ReflectValue::Object(x) ==> x < old(m).len());
    assert(args@[1] matches ReflectValue::Object(x) ==> x < old(m).len());
    if m.proxy[o] {
        return Ok(BoolOutcome::ProxyTrap);
    }
    let ok = ordinary_set_prototype_of(m, o, p);
    Ok(BoolOutcome::Done(ok))
}

/// The target of a one-argument Reflect method: the first argument, when
/// there is one and it is an object.
pub open spec fn object_target(args: Seq<ReflectValue>) -> Option<usize> {
    if args.len() >= 1 && args[0] is Object {
        Some(args[0]->Object_0)
    } else {
        None
    }
}

fn target_of(args: &[ReflectValue]) -> (r: Option<usize>)
    ensures
        r == object_target(args@),
{
    if args.len() < 1 {
        return None;
    }
    match args[0] {
        ReflectValue::Object(o) => Some(o),
        _ => None,
    }
}

/// What `Reflect.getPrototypeOf` answers, or that a proxy's trap decides.
#[derive(Clone, Copy, Debug, PartialEq, Eq, Structural)]
pub enum PrototypeAnswer {
    /// The prototype: an object of the model, or null.
    Proto(Option<usize>),
    ProxyTrap,
}

/// `Reflect.getPrototypeOf(target)`: a TypeError without an object target;
/// a proxy's trap decides; else the target's prototype.
pub fn reflect_get_prototype_of(m: &ProtoModel, args: &[ReflectValue]) -> (r: Result<
    PrototypeAnswer,
    ErrorKind,
>)
    requires
        m.wf(),
        object_target(args@) matches Some(o) ==> o < m.len(),
    ensures
        r == match object_target(args@) {
            None => Err(ErrorKind::TypeError),
            Some(o) => if m.proxy@[o as int] {
                Ok(PrototypeAnswer::ProxyTrap)
            } else {
                Ok(PrototypeAnswer::Proto(m.proto@[o as int]))
            },
        },
{
    match target_of(args) {
        None => Err(ErrorKind::TypeError),
        Some(o) => if m.proxy[o] {
            Ok(PrototypeAnswer::ProxyTrap)
        } else {
            Ok(PrototypeAnswer::Proto(m.proto[o]))
        },
    }
}

/// `Reflect.isExtensible(target)`: a TypeError without an object target; a
/// proxy's trap decides; else whether the target is extensible.
pub fn reflect_is_extensible(m: &ProtoModel, args: &[ReflectValue]) -> (r: Result<
    BoolOutcome,
    ErrorKind,
>)
    requires
        m.wf(),
        object_target(args@) matches Some(o) ==> o < m.len(),
    ensures
        r == match object_target(args@) {
            None => Err(ErrorKind::TypeError),
            Some(o) => if m.proxy@[o as int] {
                Ok(BoolOutcome::ProxyTrap)
            } else {
                Ok(BoolOutcome::Done(m.extensible@[o as int]))
            },
        },
{
    match target_of(args) {
        None => Err(ErrorKind::TypeError),
        Some(o) => if m.proxy[o] {
            Ok(BoolOutcome::ProxyTrap)
        } else {
            Ok(BoolOutcome::Done(m.extensible[o]))
        },
    }
}

/// `Reflect.preventExtensions(target)`: a TypeError without an object
/// target; a proxy's trap decides; else the target stops being extensible
/// and the answer is `true`.
pub fn reflect_prevent_extensions(m: &mut ProtoModel, args: &[ReflectValue]) -> (r: Result<
    BoolOutcome,
    ErrorKind,
>)
    requires
        old(m).wf(),
        object_target(args@) matches Some(o) ==> o < old(m).len(),
    ensures
        final(m).wf(),
        final(m).proto@ == old(m).proto@,
        final(m).immutable@ == old(m).immutable@,
        final(m).proxy@ == old(m).proxy@,
        match object_target(args@) {
            None => r == Err::<BoolOutcome, ErrorKind>(ErrorKind::TypeError) && final(m).extensible@
                == old(m).extensible@,
            Some(o) => if old(m).proxy@[o as int] {
                r == Ok::<BoolOutcome, ErrorKind>(BoolOutcome::ProxyTrap) && final(m).extensible@
                    == old(m).extensible@
            } else {
                r == Ok::<BoolOutcome, ErrorKind>(BoolOutcome::Done(true)) && final(m).extensible@
                    == old(m).extensible@.update(o as int, false)
            },
        },
{
    match target_of(args) {
        None => Err(ErrorKind::TypeError),
        Some(o) => if m.proxy[o] {
            Ok(BoolOutcome::ProxyTrap)
        } else {
            m.extensible.set(o, false);
            proof {
                assert(forall|x: usize|
                    x < m.len() ==> #[trigger] chain_finite(m.proto@, m.proxy@, Some(x))
                        == chain_finite(old(m).proto@, old(m).proxy@, Some(x)));
            }
            Ok(BoolOutcome::Done(true))
        },
    }
}

/// After `preventExtensions`, the prototype is fixed: setting any other
/// prototype answers `false` (and so changes nothing).
pub proof fn law_prevent_extensions_fixes_prototype(
    m: ProtoModel,
    after: ProtoModel,
    o: usize,
    p: Option<usize>,
)
    requires
        m.wf(),
        o < m.len(),
        !m.proxy@[o as int],
        after.proto@ == m.proto@,
        after.immutable@ == m.immutable@,
        after.proxy@ == m.proxy@,
        after.extensible@ == m.extensible@.update(o as int, false),
        p != m.proto@[o as int],
    ensures
        !spec_set_proto(after, o, p),
{
}

/// The own property keys of each object, as plain keys.
pub open spec fn keys_view(own: Seq<Vec<u64>>) -> Seq<Seq<u64>> {
    own.map_values(|k: Vec<u64>| k@)
}

/// OrdinaryHasProperty from `p` for at most `fuel` links: a proxy on the
/// way decides by its trap; else found on the first object that has `key`
/// as an own key; not found at null.
pub open spec fn has_from(
    proto: Seq<Option<usize>>,
    proxy: Seq<bool>,
    own: Seq<Seq<u64>>,
    p: Option<usize>,
    key: u64,
    fuel: nat,
) -> BoolOutcome
    decreases fuel,
{
    match p {
        None => BoolOutcome::Done(false),
        Some(q) => if proxy[q as int] {
            BoolOutcome::ProxyTrap
        } else if own[q as int].contains(key) {
            BoolOutcome::Done(true)
        } else if fuel == 0 {
            BoolOutcome::Done(false)
        } else {
            has_from(proto, proxy, own, proto[q as int], key, (fuel - 1) as nat)
        },
    }
}

/// `key` is found from `p` (null finds nothing), on a walk that ends.
pub open spec fn spec_has_from(m: ProtoModel, own: Seq<Seq<u64>>, p: Option<usize>, key: u64) -> BoolOutcome {
    has_from(m.proto@, m.proxy@, own, p, key, chain_fuel(m.proto@, m.proxy@, p))
}

/// [[HasProperty]] of object `o` for `key`.
pub open spec fn spec_has(m: ProtoModel, own: Seq<Seq<u64>>, o: usize, key: u64) -> BoolOutcome {
    spec_has_from(m, own, Some(o), key)
}

proof fn lemma_has_more_fuel(
    proto: Seq<Option<usize>>,
    proxy: Seq<bool>,
    own: Seq<Seq<u64>>,
    p: Option<usize>,
    key: u64,
    f: nat,
    g: nat,
)
    requires
        links_in_model(proto, proxy),
        in_model(p, proto.len()),
        chain_ends(proto, proxy, p, f),
        f <= g,
    ensures
        has_from(proto, proxy, own, p, key, f) == has_from(proto, proxy, own, p, key, g),
    decreases f,
{
    if let Some(q) = p {
        if !proxy[q as int] && f > 0 {
            lemma_has_more_fuel(proto, proxy, own, proto[q as int], key, (f - 1) as nat, (g - 1) as nat);
        }
    }
}

/// Any two fuels on which the walk from `p` ends give the same answer.
proof fn lemma_has_fuel_agnostic(
    proto: Seq<Option<usize>>,
    proxy: Seq<bool>,
    own: Seq<Seq<u64>>,
    p: Option<usize>,
    key: u64,
    f: nat,
    g: nat,
)
    requires
        links_in_model(proto, proxy),
        in_model(p, proto.len()),
        chain_ends(proto, proxy, p, f),
        chain_ends(proto, proxy, p, g),
    ensures
        has_from(proto, proxy, own, p, key, f) == has_from(proto, proxy, own, p, key, g),
{
    if f <= g {
        lemma_has_more_fuel(proto, proxy, own, p, key, f, g);
    } else {
        lemma_has_more_fuel(proto, proxy, own, p, key, g, f);
    }
}

/// A lookup whose walk never meets `o` is the same after `o`'s link changes.
proof fn lemma_has_clear_of(
    proto: Seq<Option<usize>>,
    proxy: Seq<bool>,
    own: Seq<Seq<u64>>,
    p: Option<usize>,
    o: usize,
    v: Option<usize>,
    key: u64,
    f: nat,
)
    requires
        links_in_model(proto, proxy),
        in_model(p, proto.len()),
        chain_ends(proto, proxy, p, f),
        !walk_meets(proto, proxy, p, o, f),
        o < proto.len(),
    ensures
        has_from(proto.update(o as int, v), proxy, own, p, key, f) == has_from(proto, proxy, own, p, key, f),
    decreases f,
{
    if let Some(q) = p {
        if !proxy[q as int] {
            assert(q != o);
            if f > 0 {
                lemma_has_clear_of(proto, proxy, own, proto[q as int], o, v, key, (f - 1) as nat);
            }
        }
    }
}

fn has_own_key(keys: &Vec<u64>, key: u64) -> (r: bool)
    ensures
        r == keys@.contains(key),
{
    let mut i: usize = 0;
    while i < keys.len()
        invariant
            i <= keys@.len(),
            forall|k: int| 0 <= k < i ==> keys@[k] != key,
        decreases keys.len() - i,
    {
        if keys[i] == key {
            assert(keys@[i as int] == key);
            return true;
        }
        i = i + 1;
    }
    false
}

/// OrdinaryHasProperty(O, key) up the prototype links (a proxy met on the
/// way, or `o` itself, leaves the answer to its trap). The links being
/// free of cycles, the walk ends.
pub fn ordinary_has_property(m: &ProtoModel, own: &Vec<Vec<u64>>, o: usize, key: u64) -> (r: BoolOutcome)
    requires
        m.wf(),
        own@.len() == m.len(),
        o < m.len(),
    ensures
        r == spec_has(*m, keys_view(own@), o, key),
{
    let ghost proto = m.proto@;
    let ghost proxy = m.proxy@;
    let ghost keys = keys_view(own@);
    assert(chain_finite(proto, proxy, Some(o)));
    let ghost mut fuel = chain_fuel(proto, proxy, Some(o));
    let mut cur: Option<usize> = Some(o);
    loop
        invariant
            m.wf(),
            proto == m.proto@,
            proxy == m.proxy@,
            own@.len() == m.len(),
            keys == keys_view(own@),
            in_model(cur, m.len()),
            chain_ends(proto, proxy, cur, fuel),
            has_from(proto, proxy, keys, cur, key, fuel) == spec_has(*m, keys, o, key),
        decreases fuel,
    {
        match cur {
            None => {
                return BoolOutcome::Done(false);
            },
            Some(q) => {
                if m.proxy[q] {
                    return BoolOutcome::ProxyTrap;
                }
                assert(keys[q as int] == own@[q as int]@);
                if has_own_key(&own[q], key) {
                    return BoolOutcome::Done(true);
                }
                let next = m.proto[q];
                proof {
                    assert(in_model(proto[q as int], m.len()));
                    fuel = (fuel - 1) as nat;
                }
                cur = next;
            },
        }
    }
}

/// `Reflect.has(target, key)`, with the key already converted: a TypeError
/// with fewer than two arguments or a target that is not an object; else
/// OrdinaryHasProperty (or a proxy's trap).
pub fn reflect_has(m: &ProtoModel, own: &Vec<Vec<u64>>, args: &[ReflectValue], key: u64) -> (r: Result<
    BoolOutcome,
    ErrorKind,
>)
    requires
        m.wf(),
        own@.len() == m.len(),
        object_target(args@) matches Some(o) ==> o < m.len(),
    ensures
        r == if args@.len() < 2 {
            Err(ErrorKind::TypeError)
        } else {
            match object_target(args@) {
                None => Err(ErrorKind::TypeError),
                Some(o) => Ok(spec_has(*m, keys_view(own@), o, key)),
            }
        },
{
    if args.len() < 2 {
        return Err(ErrorKind::TypeError);
    }
    match target_of(args) {
        None => Err(ErrorKind::TypeError),
        Some(o) => Ok(ordinary_has_property(m, own, o, key)),
    }
}

/// Lookup follows the prototype link that a successful
/// `setPrototypeOf(o, p)` set: for a key that `o` does not have itself, `o`
/// has it afterwards exactly as `p` had it before (null has nothing).
pub proof fn law_has_follows_new_prototype(
    m: ProtoModel,
    after: ProtoModel,
    own: Seq<Seq<u64>>,
    o: usize,
    p: Option<usize>,
    key: u64,
)
    requires
        m.wf(),
        o < m.len(),
        !m.proxy@[o as int],
        in_model(p, m.len()),
        own.len() == m.len(),
        !own[o as int].contains(key),
        spec_set_proto(m, o, p),
        after.proto@ == m.proto@.update(o as int, p),
        after.proxy@ == m.proxy@,
    ensures
        spec_has(after, own, o, key) == spec_has_from(m, own, p, key),
{
    let proto = m.proto@;
    let proxy = m.proxy@;
    let np = after.proto@;
    assert(links_in_model(proto, proxy));
    assert(chain_finite(proto, proxy, Some(o)));
    if p == proto[o as int] {
        assert(np =~= proto);
        let fo = chain_fuel(proto, proxy, Some(o));
        assert(in_model(proto[o as int], m.len()));
        if let Some(q) = p {
            assert(chain_finite(proto, proxy, Some(q)));
        } else {
            assert(chain_ends(proto, proxy, None, 0));
        }
        let fp = chain_fuel(proto, proxy, p);
        lemma_has_fuel_agnostic(proto, proxy, own, p, key, (fo - 1) as nat, fp);
    } else {
        if let Some(q) = p {
            assert(chain_finite(proto, proxy, Some(q)));
        } else {
            assert(chain_ends(proto, proxy, None, 0));
        }
        lemma_set_keeps_wf(m, o, p, np);
        assert(links_in_model(np, proxy));
        assert(chain_finite(np, proxy, Some(o)));
        let fo = chain_fuel(np, proxy, Some(o));
        assert(np[o as int] == p);
        let gv = chain_fuel(proto, proxy, p);
        lemma_walk_clear_of(proto, proxy, p, o, p, gv);
        lemma_has_clear_of(proto, proxy, own, p, o, p, key, gv);
        lemma_has_fuel_agnostic(np, proxy, own, p, key, (fo - 1) as nat, gv);
    }
}

} // verus!
