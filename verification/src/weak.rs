//! WeakMap, WeakSet and WeakRef.
//!
//! An object is named by a `u64` identity; a value stored in a WeakMap by a
//! `u64` handle. An entry whose key the collector has reclaimed holds
//! `None` in place of the key: it matches no lookup.
use crate::error::ErrorKind;
use vstd::prelude::*;

verus! {

/// The entries of a WeakMap in insertion order.
pub struct JSWeakMap {
    pub entries: Vec<(Option<u64>, u64)>,
}

/// The value of the first live entry for `k`.
pub open spec fn map_lookup(entries: Seq<(Option<u64>, u64)>, k: u64) -> Option<u64>
    decreases entries.len(),
{
    if entries.len() == 0 {
        None
    } else {
        let prefix = map_lookup(entries.drop_last(), k);
        if prefix is Some {
            prefix
        } else if entries.last().0 == Some(k) {
            Some(entries.last().1)
        } else {
            None
        }
    }
}

/// `entries` without the live entries for `k`.
pub open spec fn map_remove(entries: Seq<(Option<u64>, u64)>, k: u64) -> Seq<(Option<u64>, u64)>
    decreases entries.len(),
{
    if entries.len() == 0 {
        Seq::empty()
    } else {
        let prefix = map_remove(entries.drop_last(), k);
        if entries.last().0 == Some(k) {
            prefix
        } else {
            prefix.push(entries.last())
        }
    }
}

/// `WeakMap.prototype.set`: the old entries for `k` leave and a new one
/// goes to the end.
pub open spec fn map_set(entries: Seq<(Option<u64>, u64)>, k: u64, v: u64) -> Seq<(Option<u64>, u64)> {
    map_remove(entries, k).push((Some(k), v))
}

/// `entries` with the value of the first live entry for `k` replaced.
pub open spec fn map_overwrite(entries: Seq<(Option<u64>, u64)>, k: u64, v: u64) -> Seq<
    (Option<u64>, u64),
>
    decreases entries.len(),
{
    if entries.len() == 0 {
        Seq::empty()
    } else {
        let prefix = entries.drop_last();
        if map_lookup(prefix, k) is Some {
            map_overwrite(prefix, k, v).push(entries.last())
        } else if entries.last().0 == Some(k) {
            prefix.push((Some(k), v))
        } else {
            prefix.push(entries.last())
        }
    }
}

impl JSWeakMap {
    /// An empty WeakMap.
    pub fn new() -> (m: Self)
        ensures
            m.entries@ == Seq::<(Option<u64>, u64)>::empty(),
    {
        JSWeakMap { entries: Vec::new() }
    }

    fn lookup(&self, k: u64) -> (r: Option<u64>)
        ensures
            r == map_lookup(self.entries@, k),
    {
        let mut i: usize = 0;
        while i < self.entries.len()
            invariant
                i <= self.entries@.len(),
                map_lookup(self.entries@.take(i as int), k) is None,
            decreases self.entries@.len() - i,
        {
            assert(self.entries@.take(i + 1).drop_last() =~= self.entries@.take(i as int));
            let (key, value) = self.entries[i];
            if key == Some(k) {
                proof {
                    lemma_lookup_prefix(self.entries@, k, i + 1);
                }
                return Some(value);
            }
            i = i + 1;
        }
        assert(self.entries@.take(i as int) =~= self.entries@);
        None
    }

    fn remove_key(&mut self, k: u64)
        ensures
            final(self).entries@ == map_remove(old(self).entries@, k),
    {
        let mut kept: Vec<(Option<u64>, u64)> = Vec::new();
        let mut i: usize = 0;
        while i < self.entries.len()
            invariant
                i <= self.entries@.len(),
                self.entries@ == old(self).entries@,
                kept@ == map_remove(self.entries@.take(i as int), k),
            decreases self.entries@.len() - i,
        {
            assert(self.entries@.take(i + 1).drop_last() =~= self.entries@.take(i as int));
            let e = self.entries[i];
            if e.0 != Some(k) {
                kept.push(e);
            }
            i = i + 1;
        }
        assert(self.entries@.take(i as int) =~= self.entries@);
        self.entries = kept;
    }

    /// `WeakMap.prototype.set(key, value)`; `key` is `None` when the
    /// argument is not an object.
    pub fn set(&mut self, key: Option<u64>, value: u64) -> (r: Result<(), ErrorKind>)
        ensures
            match key {
                None => r == Err::<(), ErrorKind>(ErrorKind::TypeError) && final(self).entries@
                    == old(self).entries@,
                Some(k) => r is Ok && final(self).entries@ == map_set(old(self).entries@, k, value),
            },
    {
        let k = match key {
            None => return Err(ErrorKind::TypeError),
            Some(k) => k,
        };
        self.remove_key(k);
        self.entries.push((Some(k), value));
        Ok(())
    }

    /// `WeakMap.prototype.get(key)`; `None` stands for `undefined`.
    pub fn get(&self, key: Option<u64>) -> (r: Option<u64>)
        ensures
            r == match key {
                None => None,
                Some(k) => map_lookup(self.entries@, k),
            },
    {
        match key {
            None => None,
            Some(k) => self.lookup(k),
        }
    }

    /// `WeakMap.prototype.has(key)`.
    pub fn has(&self, key: Option<u64>) -> (r: bool)
        ensures
            r == match key {
                None => false,
                Some(k) => map_lookup(self.entries@, k) is Some,
            },
    {
        match key {
            None => false,
            Some(k) => self.lookup(k).is_some(),
        }
    }

    /// `WeakMap.prototype.delete(key)`: whether an entry left.
    pub fn delete(&mut self, key: Option<u64>) -> (r: bool)
        ensures
            match key {
                None => !r && final(self).entries@ == old(self).entries@,
                Some(k) => final(self).entries@ == map_remove(old(self).entries@, k) && r == (
                map_remove(old(self).entries@, k).len() < old(self).entries@.len()),
            },
    {
        match key {
            None => false,
            Some(k) => {
                let before = self.entries.len();
                self.remove_key(k);
                self.entries.len() < before
            },
        }
    }

    /// `WeakMap.prototype.getOrInsert(key, value)`: the present value, or
    /// `value` after inserting it.
    pub fn get_or_insert(&mut self, key: Option<u64>, value: u64) -> (r: Result<u64, ErrorKind>)
        ensures
            match key {
                None => r == Err::<u64, ErrorKind>(ErrorKind::TypeError) && final(self).entries@
                    == old(self).entries@,
                Some(k) => match map_lookup(old(self).entries@, k) {
                    Some(v) => r == Ok::<u64, ErrorKind>(v) && final(self).entries@ == old(
                        self,
                    ).entries@,
                    None => r == Ok::<u64, ErrorKind>(value) && final(self).entries@ == old(
                        self,
                    ).entries@.push((Some(k), value)),
                },
            },
    {
        let k = match key {
            None => return Err(ErrorKind::TypeError),
            Some(k) => k,
        };
        match self.lookup(k) {
            Some(v) => Ok(v),
            None => {
                self.entries.push((Some(k), value));
                Ok(value)
            },
        }
    }

    /// The last step of `getOrInsertComputed`, once the callback returned
    /// `computed`: the first live entry for `key` (which the callback may
    /// have made) takes `computed`, or a new entry does.
    pub fn insert_computed(&mut self, key: u64, computed: u64) -> (r: u64)
        ensures
            r == computed,
            map_lookup(old(self).entries@, key) is Some ==> final(self).entries@ == map_overwrite(
                old(self).entries@,
                key,
                computed,
            ),
            map_lookup(old(self).entries@, key) is None ==> final(self).entries@ == old(
                self,
            ).entries@.push((Some(key), computed)),
    {
        let mut i: usize = 0;
        while i < self.entries.len()
            invariant
                i <= self.entries@.len(),
                self.entries@ == old(self).entries@,
                map_lookup(self.entries@.take(i as int), key) is None,
            decreases self.entries@.len() - i,
        {
            assert(self.entries@.take(i + 1).drop_last() =~= self.entries@.take(i as int));
            if self.entries[i].0 == Some(key) {
                proof {
                    lemma_overwrite_at(self.entries@, key, computed, i as int);
                }
                self.entries.set(i, (Some(key), computed));
                return computed;
            }
            i = i + 1;
        }
        assert(self.entries@.take(i as int) =~= self.entries@);
        self.entries.push((Some(key), computed));
        computed
    }
}

proof fn lemma_lookup_prefix(entries: Seq<(Option<u64>, u64)>, k: u64, n: int)
    requires
        0 < n <= entries.len(),
        map_lookup(entries.take(n - 1), k) is None,
        entries[n - 1].0 == Some(k),
    ensures
        map_lookup(entries, k) == Some(entries[n - 1].1),
    decreases entries.len() - n,
{
    if n == entries.len() {
        assert(entries.drop_last() =~= entries.take(n - 1));
    } else {
        let p = entries.drop_last();
        assert(p.take(n - 1) =~= entries.take(n - 1));
        lemma_lookup_prefix(p, k, n);
    }
}

/// Writing the value of the first live entry for `k`, found at `i`.
proof fn lemma_overwrite_at(entries: Seq<(Option<u64>, u64)>, k: u64, v: u64, i: int)
    requires
        0 <= i < entries.len(),
        map_lookup(entries.take(i), k) is None,
        entries[i].0 == Some(k),
    ensures
        map_overwrite(entries, k, v) == entries.update(i, (Some(k), v)),
        map_lookup(entries, k) is Some,
    decreases entries.len(),
{
    lemma_lookup_prefix(entries, k, i + 1);
    let p = entries.drop_last();
    if i == entries.len() - 1 {
        assert(p =~= entries.take(i));
        assert(entries.update(i, (Some(k), v)) =~= p.push((Some(k), v)));
    } else {
        assert(p.take(i) =~= entries.take(i));
        lemma_overwrite_at(p, k, v, i);
        assert(entries.update(i, (Some(k), v)) =~= p.update(i, (Some(k), v)).push(entries.last()));
    }
}

proof fn lemma_remove_lookup(entries: Seq<(Option<u64>, u64)>, k: u64, x: u64)
    ensures
        map_lookup(map_remove(entries, k), x) == if x == k {
            None
        } else {
            map_lookup(entries, x)
        },
        map_remove(entries, k).len() <= entries.len(),
        map_remove(entries, k).len() < entries.len() <==> map_lookup(entries, k) is Some,
    decreases entries.len(),
{
    if entries.len() > 0 {
        let p = entries.drop_last();
        lemma_remove_lookup(p, k, x);
        lemma_remove_lookup(p, k, k);
        let rp = map_remove(p, k);
        if entries.last().0 != Some(k) {
            assert(rp.push(entries.last()).drop_last() =~= rp);
        }
    }
}

proof fn lemma_lookup_push(entries: Seq<(Option<u64>, u64)>, e: (Option<u64>, u64), x: u64)
    ensures
        map_lookup(entries.push(e), x) == if map_lookup(entries, x) is Some {
            map_lookup(entries, x)
        } else if e.0 == Some(x) {
            Some(e.1)
        } else {
            None
        },
{
    assert(entries.push(e).drop_last() =~= entries);
}

/// After `set(k, v)`, `get(k)` is `v`, and every other key reads as before.
pub proof fn law_weakmap_set_get(entries: Seq<(Option<u64>, u64)>, k: u64, v: u64, other: u64)
    requires
        other != k,
    ensures
        map_lookup(map_set(entries, k, v), k) == Some(v),
        map_lookup(map_set(entries, k, v), other) == map_lookup(entries, other),
{
    lemma_remove_lookup(entries, k, k);
    lemma_remove_lookup(entries, k, other);
    lemma_lookup_push(map_remove(entries, k), (Some(k), v), k);
    lemma_lookup_push(map_remove(entries, k), (Some(k), v), other);
}

/// After `delete(k)`, `has(k)` is false, every other key reads as before,
/// and `delete` answered whether `k` was there.
pub proof fn law_weakmap_delete(entries: Seq<(Option<u64>, u64)>, k: u64, other: u64)
    requires
        other != k,
    ensures
        map_lookup(map_remove(entries, k), k) is None,
        map_lookup(map_remove(entries, k), other) == map_lookup(entries, other),
        (map_remove(entries, k).len() < entries.len()) == (map_lookup(entries, k) is Some),
{
    lemma_remove_lookup(entries, k, k);
    lemma_remove_lookup(entries, k, other);
}

/// After `getOrInsert(k, v)`, `get(k)` is what it returned.
pub proof fn law_weakmap_get_or_insert(entries: Seq<(Option<u64>, u64)>, k: u64, v: u64)
    ensures
        map_lookup(entries, k) is None ==> map_lookup(entries.push((Some(k), v)), k) == Some(v),
{
    lemma_lookup_push(entries, (Some(k), v), k);
}

/// The values of a WeakSet in insertion order; `None` is a value the
/// collector reclaimed.
pub struct JSWeakSet {
    pub values: Vec<Option<u64>>,
}

/// The live values of `vals` other than `k`, in order (`k == None` keeps
/// every live value).
pub open spec fn live_without(vals: Seq<Option<u64>>, k: Option<u64>) -> Seq<Option<u64>>
    decreases vals.len(),
{
    if vals.len() == 0 {
        Seq::empty()
    } else {
        let prefix = live_without(vals.drop_last(), k);
        if vals.last() is Some && vals.last() != k {
            prefix.push(vals.last())
        } else {
            prefix
        }
    }
}

/// `v` is a live value of `vals`.
pub open spec fn set_holds(vals: Seq<Option<u64>>, v: u64) -> bool {
    vals.contains(Some(v))
}

impl JSWeakSet {
    /// An empty WeakSet.
    pub fn new() -> (s: Self)
        ensures
            s.values@ == Seq::<Option<u64>>::empty(),
    {
        JSWeakSet { values: Vec::new() }
    }

    /// Drops the reclaimed values and `k`; reports whether `k` was live.
    fn sweep(&mut self, k: Option<u64>) -> (found: bool)
        ensures
            final(self).values@ == live_without(old(self).values@, k),
            k is Some ==> found == set_holds(old(self).values@, k->0),
    {
        let mut kept: Vec<Option<u64>> = Vec::new();
        let mut found = false;
        let mut i: usize = 0;
        while i < self.values.len()
            invariant
                i <= self.values@.len(),
                self.values@ == old(self).values@,
                kept@ == live_without(self.values@.take(i as int), k),
                k is Some ==> found == self.values@.take(i as int).contains(k),
            decreases self.values@.len() - i,
        {
            let ghost pre = self.values@.take(i as int);
            assert(self.values@.take(i + 1).drop_last() =~= pre);
            assert(self.values@.take(i + 1) =~= pre.push(self.values@[i as int]));
            let v = self.values[i];
            if v.is_some() && v == k {
                found = true;
            }
            if v.is_some() && v != k {
                kept.push(v);
            }
            proof {
                if k is Some {
                    let q = pre.push(self.values@[i as int]);
                    if q.contains(k) {
                        let w = choose|w: int| 0 <= w < q.len() && q[w] == k;
                        if w < pre.len() {
                            assert(pre[w] == k);
                        }
                    }
                    if pre.contains(k) {
                        let w = choose|w: int| 0 <= w < pre.len() && pre[w] == k;
                        assert(q[w] == k);
                    }
                    if v == k {
                        assert(q[pre.len() as int] == k);
                    }
                }
            }
            i = i + 1;
        }
        assert(self.values@.take(i as int) =~= self.values@);
        self.values = kept;
        found
    }

    /// `WeakSet.prototype.add(value)`: drops the reclaimed values and any
    /// old entry for `value`, then appends it; `None` when the argument is
    /// not an object.
    pub fn add(&mut self, value: Option<u64>) -> (r: Result<(), ErrorKind>)
        ensures
            match value {
                None => r == Err::<(), ErrorKind>(ErrorKind::TypeError) && final(self).values@
                    == old(self).values@,
                Some(v) => r is Ok && final(self).values@ == live_without(
                    old(self).values@,
                    Some(v),
                ).push(Some(v)),
            },
    {
        match value {
            None => Err(ErrorKind::TypeError),
            Some(v) => {
                self.sweep(Some(v));
                self.values.push(Some(v));
                Ok(())
            },
        }
    }

    /// `WeakSet.prototype.has(value)`; it also drops the reclaimed values.
    pub fn has(&mut self, value: Option<u64>) -> (r: bool)
        ensures
            match value {
                None => !r && final(self).values@ == old(self).values@,
                Some(v) => r == set_holds(old(self).values@, v) && final(self).values@
                    == live_without(old(self).values@, None),
            },
    {
        match value {
            None => false,
            Some(v) => {
                let mut found = false;
                let mut kept: Vec<Option<u64>> = Vec::new();
                let mut i: usize = 0;
                while i < self.values.len()
                    invariant
                        i <= self.values@.len(),
                        self.values@ == old(self).values@,
                        kept@ == live_without(self.values@.take(i as int), None),
                        found == self.values@.take(i as int).contains(Some(v)),
                    decreases self.values@.len() - i,
                {
                    let ghost pre = self.values@.take(i as int);
                    assert(self.values@.take(i + 1).drop_last() =~= pre);
                    assert(self.values@.take(i + 1) =~= pre.push(self.values@[i as int]));
                    let e = self.values[i];
                    if e == Some(v) {
                        found = true;
                    }
                    if e.is_some() {
                        kept.push(e);
                    }
                    proof {
                        let q = pre.push(self.values@[i as int]);
                        if q.contains(Some(v)) {
                            let w = choose|w: int| 0 <= w < q.len() && q[w] == Some(v);
                            if w < pre.len() {
                                assert(pre[w] == Some(v));
                            }
                        }
                        if pre.contains(Some(v)) {
                            let w = choose|w: int| 0 <= w < pre.len() && pre[w] == Some(v);
                            assert(q[w] == Some(v));
                        }
                        if e == Some(v) {
                            assert(q[pre.len() as int] == Some(v));
                        }
                    }
                    i = i + 1;
                }
                assert(self.values@.take(i as int) =~= self.values@);
                self.values = kept;
                found
            },
        }
    }

    /// `WeakSet.prototype.delete(value)`: whether `value` was there; it
    /// also drops the reclaimed values.
    pub fn delete(&mut self, value: Option<u64>) -> (r: bool)
        ensures
            match value {
                None => !r && final(self).values@ == old(self).values@,
                Some(v) => r == set_holds(old(self).values@, v) && final(self).values@
                    == live_without(old(self).values@, Some(v)),
            },
    {
        match value {
            None => false,
            Some(v) => self.sweep(Some(v)),
        }
    }
}

proof fn lemma_live_without(vals: Seq<Option<u64>>, k: Option<u64>, x: u64)
    ensures
        set_holds(live_without(vals, k), x) <==> (set_holds(vals, x) && Some(x) != k),
    decreases vals.len(),
{
    if vals.len() > 0 {
        let p = vals.drop_last();
        lemma_live_without(p, k, x);
        let lp = live_without(p, k);
        let q = lp.push(vals.last());
        if q.contains(Some(x)) {
            let w = choose|w: int| 0 <= w < q.len() && q[w] == Some(x);
            if w < lp.len() {
                assert(lp[w] == Some(x));
            }
        }
        if lp.contains(Some(x)) {
            let w = choose|w: int| 0 <= w < lp.len() && lp[w] == Some(x);
            assert(q[w] == Some(x));
        }
        if vals.last() == Some(x) {
            assert(q[lp.len() as int] == Some(x));
        }
        if vals.contains(Some(x)) {
            let w = choose|w: int| 0 <= w < vals.len() && vals[w] == Some(x);
            if w < p.len() {
                assert(p[w] == Some(x));
            }
        }
        if p.contains(Some(x)) {
            let w = choose|w: int| 0 <= w < p.len() && p[w] == Some(x);
            assert(vals[w] == Some(x));
        }
    }
}

/// After `add(v)`, `has(v)` is true and `v` is held once; after
/// `delete(v)`, `has(v)` is false; `has` changes no answer.
pub proof fn law_weakset(vals: Seq<Option<u64>>, v: u64, other: u64)
    requires
        other != v,
    ensures
        set_holds(live_without(vals, Some(v)).push(Some(v)), v),
        set_holds(live_without(vals, Some(v)).push(Some(v)), other) == set_holds(vals, other),
        !set_holds(live_without(vals, Some(v)), v),
        set_holds(live_without(vals, Some(v)), other) == set_holds(vals, other),
        set_holds(live_without(vals, None), other) == set_holds(vals, other),
        set_holds(live_without(vals, None), v) == set_holds(vals, v),
{
    lemma_live_without(vals, Some(v), v);
    lemma_live_without(vals, Some(v), other);
    lemma_live_without(vals, None, other);
    lemma_live_without(vals, None, v);
    let l = live_without(vals, Some(v));
    let q = l.push(Some(v));
    assert(q[l.len() as int] == Some(v));
    if q.contains(Some(other)) {
        let w = choose|w: int| 0 <= w < q.len() && q[w] == Some(other);
        if w < l.len() {
            assert(l[w] == Some(other));
        }
    }
    if l.contains(Some(other)) {
        let w = choose|w: int| 0 <= w < l.len() && l[w] == Some(other);
        assert(q[w] == Some(other));
    }
}

/// The target of a WeakRef: an object, or a symbol that is not in the
/// global registry.
#[derive(Clone, Copy, Debug, PartialEq, Eq, Structural)]
pub enum WeakTarget {
    Object(u64),
    Symbol(u64),
}

/// What `new WeakRef(target)` was given.
#[derive(Clone, Copy, Debug, PartialEq, Eq, Structural)]
pub enum WeakRefArg {
    Object(u64),
    /// A symbol, with whether `Symbol.for` registered it.
    Symbol { id: u64, registered: bool },
    /// Any other value.
    Other,
}

/// A WeakRef.
#[derive(Clone, Copy, Debug, PartialEq, Eq, Structural)]
pub struct JSWeakRef {
    pub target: WeakTarget,
}

impl JSWeakRef {
    /// `new WeakRef(target)`: only objects and unregistered symbols can be
    /// held weakly.
    pub fn new(target: WeakRefArg) -> (r: Result<JSWeakRef, ErrorKind>)
        ensures
            r == match target {
                WeakRefArg::Object(o) => Ok(JSWeakRef { target: WeakTarget::Object(o) }),
                WeakRefArg::Symbol { id, registered } => if registered {
                    Err(ErrorKind::TypeError)
                } else {
                    Ok(JSWeakRef { target: WeakTarget::Symbol(id) })
                },
                WeakRefArg::Other => Err(ErrorKind::TypeError),
            },
    {
        match target {
            WeakRefArg::Object(o) => Ok(JSWeakRef { target: WeakTarget::Object(o) }),
            WeakRefArg::Symbol { id, registered } => {
                if registered {
                    Err(ErrorKind::TypeError)
                } else {
                    Ok(JSWeakRef { target: WeakTarget::Symbol(id) })
                }
            },
            WeakRefArg::Other => Err(ErrorKind::TypeError),
        }
    }

    /// `WeakRef.prototype.deref()`: the target.
    pub fn deref(&self) -> (r: WeakTarget)
        ensures
            r == self.target,
    {
        self.target
    }
}

/// What an object's internal slot for a weak collection holds.
#[derive(Clone, Copy, Debug, PartialEq, Eq, Structural)]
pub enum WeakSlot {
    WeakMap,
    WeakSet,
    Other,
}

/// Whether an object is a WeakMap: `slot` is what its `[[WeakMapData]]`
/// slot holds, `None` when it has none.
pub fn is_weakmap_object(slot: Option<WeakSlot>) -> (r: bool)
    ensures
        r == (slot == Some(WeakSlot::WeakMap)),
{
    match slot {
        Some(WeakSlot::WeakMap) => true,
        _ => false,
    }
}

/// Whether an object is a WeakSet: `slot` is what its `[[WeakSetData]]`
/// slot holds.
pub fn is_weakset_object(slot: Option<WeakSlot>) -> (r: bool)
    ensures
        r == (slot == Some(WeakSlot::WeakSet)),
{
    match slot {
        Some(WeakSlot::WeakSet) => true,
        _ => false,
    }
}

/// Whether an object is a WeakRef: it carries the WeakRef marker slot.
pub fn is_weakref_object(has_marker: bool) -> (r: bool)
    ensures
        r == has_marker,
{
    has_marker
}

} // verus!
