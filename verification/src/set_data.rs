//! The data of a JavaScript `Set`: entries in insertion order, deleted
//! entries left as holes so that live iterators keep their place.
//!
//! A key is the SameValueZero identity of a JavaScript value (the engine
//! maps `-0` and `+0` to one key, and every NaN to one key).
use crate::error::ErrorKind;
use vstd::prelude::*;

verus! {

/// The entries of a Set; `None` is a deleted entry.
pub struct JSSet {
    pub values: Vec<Option<u64>>,
}

/// `k` is a live entry of `vals`.
pub open spec fn spec_has(vals: Seq<Option<u64>>, k: u64) -> bool {
    exists|i: int| 0 <= i < vals.len() && vals[i] == Some(k)
}

/// `i` is the first live entry of `vals` that holds `k`.
pub open spec fn is_first_entry(vals: Seq<Option<u64>>, k: u64, i: int) -> bool {
    &&& 0 <= i < vals.len()
    &&& vals[i] == Some(k)
    &&& forall|j: int| 0 <= j < i ==> vals[j] != Some(k)
}

/// No key is live twice.
pub open spec fn unique_entries(vals: Seq<Option<u64>>) -> bool {
    forall|i: int, j: int|
        0 <= i < vals.len() && 0 <= j < vals.len() && i != j && vals[i] is Some ==> vals[i]
            != vals[j]
}

/// `Set.prototype.add`: a new key goes to the end; a present one stays.
pub open spec fn spec_add(vals: Seq<Option<u64>>, k: u64) -> Seq<Option<u64>> {
    if spec_has(vals, k) {
        vals
    } else {
        vals.push(Some(k))
    }
}

/// `Set.prototype.delete`: the first entry holding `k` becomes a hole.
pub open spec fn spec_delete(vals: Seq<Option<u64>>, k: u64) -> Seq<Option<u64>> {
    if spec_has(vals, k) {
        vals.update(choose|i: int| is_first_entry(vals, k, i), None)
    } else {
        vals
    }
}

/// The live keys in iteration (insertion) order.
pub open spec fn live_seq(vals: Seq<Option<u64>>) -> Seq<u64>
    decreases vals.len(),
{
    if vals.len() == 0 {
        Seq::empty()
    } else {
        let prefix = live_seq(vals.drop_last());
        match vals.last() {
            Some(k) => prefix.push(k),
            None => prefix,
        }
    }
}

/// The live keys as a set.
pub open spec fn live_set(vals: Seq<Option<u64>>) -> Set<u64> {
    Set::new(|k: u64| spec_has(vals, k))
}

/// Entries holding exactly the keys of `keys`, in order.
pub open spec fn as_entries(keys: Seq<u64>) -> Seq<Option<u64>> {
    keys.map_values(|k: u64| Some(k))
}

/// `vals` after adding each key of `keys` in turn.
pub open spec fn add_all(vals: Seq<Option<u64>>, keys: Seq<u64>) -> Seq<Option<u64>>
    decreases keys.len(),
{
    if keys.len() == 0 {
        vals
    } else {
        spec_add(add_all(vals, keys.drop_last()), keys.last())
    }
}

/// `vals` after deleting each key of `keys` in turn.
pub open spec fn delete_all(vals: Seq<Option<u64>>, keys: Seq<u64>) -> Seq<Option<u64>>
    decreases keys.len(),
{
    if keys.len() == 0 {
        vals
    } else {
        spec_delete(delete_all(vals, keys.drop_last()), keys.last())
    }
}

/// The keys of `keys` that `this` holds, each once, in the order of `keys`.
pub open spec fn keep_present(this: Seq<Option<u64>>, keys: Seq<u64>) -> Seq<Option<u64>>
    decreases keys.len(),
{
    if keys.len() == 0 {
        Seq::empty()
    } else {
        let prefix = keep_present(this, keys.drop_last());
        if spec_has(this, keys.last()) {
            spec_add(prefix, keys.last())
        } else {
            prefix
        }
    }
}

/// `result` after the symmetric-difference pass over `keys`: a key that
/// `this` holds leaves, another joins.
pub open spec fn toggle_all(this: Seq<Option<u64>>, result: Seq<Option<u64>>, keys: Seq<u64>) -> Seq<
    Option<u64>,
>
    decreases keys.len(),
{
    if keys.len() == 0 {
        result
    } else {
        let prefix = toggle_all(this, result, keys.drop_last());
        if spec_has(this, keys.last()) {
            spec_delete(prefix, keys.last())
        } else {
            spec_add(prefix, keys.last())
        }
    }
}

/// The live entries of `vals` whose answer in `flags` is `want`, in order.
pub open spec fn select(vals: Seq<Option<u64>>, flags: Seq<bool>, want: bool) -> Seq<Option<u64>>
    decreases vals.len(),
{
    if vals.len() == 0 || flags.len() == 0 {
        Seq::empty()
    } else {
        let prefix = select(vals.drop_last(), flags.drop_last(), want);
        match vals.last() {
            Some(k) => if flags.last() == want {
                prefix.push(Some(k))
            } else {
                prefix
            },
            None => prefix,
        }
    }
}

/// Every live entry of `vals` is answered `true` in `flags`.
pub open spec fn all_answered(vals: Seq<Option<u64>>, flags: Seq<bool>) -> bool {
    forall|i: int| 0 <= i < vals.len() && vals[i] is Some ==> flags[i]
}

/// Some live entry of `vals` is answered `true` in `flags`.
pub open spec fn any_answered(vals: Seq<Option<u64>>, flags: Seq<bool>) -> bool {
    exists|i: int| 0 <= i < vals.len() && vals[i] is Some && flags[i]
}

/// The first live entry at or after `from`.
pub open spec fn next_live(vals: Seq<Option<u64>>, from: int) -> Option<int>
    decreases vals.len() - from,
{
    if from < 0 || from >= vals.len() {
        None
    } else if vals[from] is Some {
        Some(from)
    } else {
        next_live(vals, from + 1)
    }
}

impl JSSet {
    pub open spec fn view(&self) -> Seq<Option<u64>> {
        self.values@
    }

    /// An empty Set.
    pub fn new() -> (s: Self)
        ensures
            s.values@ == Seq::<Option<u64>>::empty(),
    {
        JSSet { values: Vec::new() }
    }

    /// `Set.prototype.has(k)`.
    pub fn has(&self, k: u64) -> (r: bool)
        ensures
            r == spec_has(self.values@, k),
    {
        let mut i: usize = 0;
        while i < self.values.len()
            invariant
                i <= self.values@.len(),
                forall|j: int| 0 <= j < i ==> self.values@[j] != Some(k),
            decreases self.values@.len() - i,
        {
            if self.values[i] == Some(k) {
                return true;
            }
            i = i + 1;
        }
        false
    }

    /// `Set.prototype.add(k)`.
    pub fn add(&mut self, k: u64)
        ensures
            final(self).values@ == spec_add(old(self).values@, k),
    {
        if !self.has(k) {
            self.values.push(Some(k));
        }
    }

    /// `Set.prototype.delete(k)`: whether `k` was present.
    pub fn delete(&mut self, k: u64) -> (r: bool)
        ensures
            r == spec_has(old(self).values@, k),
            final(self).values@ == spec_delete(old(self).values@, k),
    {
        let mut i: usize = 0;
        while i < self.values.len()
            invariant
                i <= self.values@.len(),
                self.values@ == old(self).values@,
                forall|j: int| 0 <= j < i ==> self.values@[j] != Some(k),
            decreases self.values@.len() - i,
        {
            if self.values[i] == Some(k) {
                proof {
                    let vals = old(self).values@;
                    assert(is_first_entry(vals, k, i as int));
                    let c = choose|c: int| is_first_entry(vals, k, c);
                    assert(c == i) by {
                        if c < i {
                            assert(vals[c] != Some(k));
                        } else if c > i {
                            assert(vals[i as int] != Some(k));
                        }
                    }
                }
                self.values.set(i, None);
                return true;
            }
            i = i + 1;
        }
        false
    }

    /// `Set.prototype.clear()`.
    pub fn clear(&mut self)
        ensures
            final(self).values@ == Seq::<Option<u64>>::empty(),
    {
        self.values.clear();
    }

    /// `get Set.prototype.size`.
    pub fn size(&self) -> (r: usize)
        ensures
            r == live_seq(self.values@).len(),
    {
        let mut count: usize = 0;
        let mut i: usize = 0;
        while i < self.values.len()
            invariant
                i <= self.values@.len(),
                count == live_seq(self.values@.take(i as int)).len(),
                count <= i,
            decreases self.values@.len() - i,
        {
            assert(self.values@.take(i + 1).drop_last() =~= self.values@.take(i as int));
            if self.values[i].is_some() {
                count = count + 1;
            }
            i = i + 1;
        }
        assert(self.values@.take(i as int) =~= self.values@);
        count
    }

    /// One step of a Set iterator at position `index`: the next live key
    /// and the position after it, or `None` when the iterator is done.
    pub fn iterator_next(&self, index: usize) -> (r: Option<(u64, usize)>)
        ensures
            match next_live(self.values@, index as int) {
                None => r is None,
                Some(j) => r == Some((self.values@[j]->0, (j + 1) as usize)),
            },
    {
        let mut j: usize = index;
        while j < self.values.len()
            invariant
                index <= j,
                j <= self.values@.len() || j == index,
                next_live(self.values@, index as int) == next_live(self.values@, j as int),
            decreases self.values@.len() - j,
        {
            match self.values[j] {
                Some(k) => {
                    return Some((k, j + 1));
                },
                None => {
                    j = j + 1;
                },
            }
        }
        None
    }

    /// The entries of a Set made from its live keys, holes dropped.
    pub fn compacted(&self) -> (s: JSSet)
        ensures
            s.values@ == as_entries(live_seq(self.values@)),
    {
        let mut out: Vec<Option<u64>> = Vec::new();
        let mut i: usize = 0;
        while i < self.values.len()
            invariant
                i <= self.values@.len(),
                out@ == as_entries(live_seq(self.values@.take(i as int))),
            decreases self.values@.len() - i,
        {
            assert(self.values@.take(i + 1).drop_last() =~= self.values@.take(i as int));
            match self.values[i] {
                Some(k) => {
                    out.push(Some(k));
                    assert(out@ =~= as_entries(live_seq(self.values@.take(i + 1))));
                },
                None => {
                },
            }
            i = i + 1;
        }
        assert(self.values@.take(i as int) =~= self.values@);
        JSSet { values: out }
    }
}


impl JSSet {
    /// The union of this Set with the keys that `other.keys()` yields:
    /// this Set's live keys, then each new key of `other_keys` in order.
    pub fn union(&self, other_keys: &Vec<u64>) -> (s: JSSet)
        ensures
            s.values@ == add_all(as_entries(live_seq(self.values@)), other_keys@),
    {
        let mut out = self.compacted();
        let ghost start = out.values@;
        let mut i: usize = 0;
        while i < other_keys.len()
            invariant
                i <= other_keys@.len(),
                out.values@ == add_all(start, other_keys@.take(i as int)),
            decreases other_keys@.len() - i,
        {
            assert(other_keys@.take(i + 1).drop_last() =~= other_keys@.take(i as int));
            out.add(other_keys[i]);
            i = i + 1;
        }
        assert(other_keys@.take(i as int) =~= other_keys@);
        out
    }

    /// The intersection when this Set is walked: `in_other[i]` is what
    /// `other.has` answered for entry `i`.
    pub fn intersection_by_has(&self, in_other: &Vec<bool>) -> (s: JSSet)
        requires
            in_other@.len() == self.values@.len(),
        ensures
            s.values@ == select(self.values@, in_other@, true),
    {
        self.select_answered(in_other, true)
    }

    /// The intersection when `other.keys()` is walked.
    pub fn intersection_by_keys(&self, other_keys: &Vec<u64>) -> (s: JSSet)
        ensures
            s.values@ == keep_present(self.values@, other_keys@),
    {
        let mut out = JSSet::new();
        let mut i: usize = 0;
        while i < other_keys.len()
            invariant
                i <= other_keys@.len(),
                out.values@ == keep_present(self.values@, other_keys@.take(i as int)),
            decreases other_keys@.len() - i,
        {
            assert(other_keys@.take(i + 1).drop_last() =~= other_keys@.take(i as int));
            let k = other_keys[i];
            if self.has(k) {
                out.add(k);
            }
            i = i + 1;
        }
        assert(other_keys@.take(i as int) =~= other_keys@);
        out
    }

    /// The difference when this Set is walked: entries `other.has` denied.
    pub fn difference_by_has(&self, in_other: &Vec<bool>) -> (s: JSSet)
        requires
            in_other@.len() == self.values@.len(),
        ensures
            s.values@ == select(self.values@, in_other@, false),
    {
        self.select_answered(in_other, false)
    }

    /// The difference when `other.keys()` is walked: a copy of this Set's
    /// live keys with each key of `other_keys` deleted.
    pub fn difference_by_keys(&self, other_keys: &Vec<u64>) -> (s: JSSet)
        ensures
            s.values@ == delete_all(as_entries(live_seq(self.values@)), other_keys@),
    {
        let mut out = self.compacted();
        let ghost start = out.values@;
        let mut i: usize = 0;
        while i < other_keys.len()
            invariant
                i <= other_keys@.len(),
                out.values@ == delete_all(start, other_keys@.take(i as int)),
            decreases other_keys@.len() - i,
        {
            assert(other_keys@.take(i + 1).drop_last() =~= other_keys@.take(i as int));
            out.delete(other_keys[i]);
            i = i + 1;
        }
        assert(other_keys@.take(i as int) =~= other_keys@);
        out
    }

    /// The symmetric difference: a copy of this Set's live keys; each key
    /// of `other_keys` leaves it when this Set holds it, and joins it
    /// otherwise.
    pub fn symmetric_difference(&self, other_keys: &Vec<u64>) -> (s: JSSet)
        ensures
            s.values@ == toggle_all(
                self.values@,
                as_entries(live_seq(self.values@)),
                other_keys@,
            ),
    {
        let mut out = self.compacted();
        let ghost start = out.values@;
        let mut i: usize = 0;
        while i < other_keys.len()
            invariant
                i <= other_keys@.len(),
                out.values@ == toggle_all(self.values@, start, other_keys@.take(i as int)),
            decreases other_keys@.len() - i,
        {
            assert(other_keys@.take(i + 1).drop_last() =~= other_keys@.take(i as int));
            let k = other_keys[i];
            if self.has(k) {
                out.delete(k);
            } else {
                out.add(k);
            }
            i = i + 1;
        }
        assert(other_keys@.take(i as int) =~= other_keys@);
        out
    }

    /// `isSubsetOf`: false at once when this Set is larger than `other_size`,
    /// else whether `other.has` accepted every live entry.
    pub fn is_subset_of(&self, other_size: usize, in_other: &Vec<bool>) -> (r: bool)
        requires
            live_seq(self.values@).len() <= other_size ==> in_other@.len() == self.values@.len(),
        ensures
            r == (live_seq(self.values@).len() <= other_size && all_answered(
                self.values@,
                in_other@,
            )),
    {
        if self.size() > other_size {
            return false;
        }
        self.all_answered_true(in_other)
    }

    /// `isSupersetOf`: false at once when this Set is smaller than
    /// `other_size`, else whether every key of `other.keys()` is here.
    pub fn is_superset_of(&self, other_size: usize, other_keys: &Vec<u64>) -> (r: bool)
        ensures
            r == (live_seq(self.values@).len() >= other_size && forall|j: int|
                0 <= j < other_keys@.len() ==> spec_has(self.values@, #[trigger] other_keys@[j])),
    {
        if self.size() < other_size {
            return false;
        }
        let mut i: usize = 0;
        while i < other_keys.len()
            invariant
                i <= other_keys@.len(),
                forall|j: int| 0 <= j < i ==> spec_has(self.values@, #[trigger] other_keys@[j]),
            decreases other_keys@.len() - i,
        {
            if !self.has(other_keys[i]) {
                return false;
            }
            i = i + 1;
        }
        true
    }

    /// `isDisjointFrom` when this Set is walked.
    pub fn is_disjoint_from_by_has(&self, in_other: &Vec<bool>) -> (r: bool)
        requires
            in_other@.len() == self.values@.len(),
        ensures
            r == !any_answered(self.values@, in_other@),
    {
        let mut i: usize = 0;
        while i < self.values.len()
            invariant
                i <= self.values@.len(),
                in_other@.len() == self.values@.len(),
                forall|j: int| 0 <= j < i && self.values@[j] is Some ==> !in_other@[j],
            decreases self.values@.len() - i,
        {
            if self.values[i].is_some() && in_other[i] {
                return false;
            }
            i = i + 1;
        }
        true
    }

    /// `isDisjointFrom` when `other.keys()` is walked.
    pub fn is_disjoint_from_by_keys(&self, other_keys: &Vec<u64>) -> (r: bool)
        ensures
            r == forall|j: int|
                0 <= j < other_keys@.len() ==> !spec_has(self.values@, #[trigger] other_keys@[j]),
    {
        let mut i: usize = 0;
        while i < other_keys.len()
            invariant
                i <= other_keys@.len(),
                forall|j: int| 0 <= j < i ==> !spec_has(self.values@, #[trigger] other_keys@[j]),
            decreases other_keys@.len() - i,
        {
            if self.has(other_keys[i]) {
                return false;
            }
            i = i + 1;
        }
        true
    }

    fn select_answered(&self, flags: &Vec<bool>, want: bool) -> (s: JSSet)
        requires
            flags@.len() == self.values@.len(),
        ensures
            s.values@ == select(self.values@, flags@, want),
    {
        let mut out: Vec<Option<u64>> = Vec::new();
        let mut i: usize = 0;
        while i < self.values.len()
            invariant
                i <= self.values@.len(),
                flags@.len() == self.values@.len(),
                out@ == select(self.values@.take(i as int), flags@.take(i as int), want),
            decreases self.values@.len() - i,
        {
            assert(self.values@.take(i + 1).drop_last() =~= self.values@.take(i as int));
            assert(flags@.take(i + 1).drop_last() =~= flags@.take(i as int));
            match self.values[i] {
                Some(k) => {
                    if flags[i] == want {
                        out.push(Some(k));
                    }
                },
                None => {
                },
            }
            i = i + 1;
        }
        assert(self.values@.take(i as int) =~= self.values@);
        assert(flags@.take(i as int) =~= flags@);
        JSSet { values: out }
    }

    fn all_answered_true(&self, flags: &Vec<bool>) -> (r: bool)
        requires
            flags@.len() == self.values@.len(),
        ensures
            r == all_answered(self.values@, flags@),
    {
        let mut i: usize = 0;
        while i < self.values.len()
            invariant
                i <= self.values@.len(),
                flags@.len() == self.values@.len(),
                forall|j: int| 0 <= j < i && self.values@[j] is Some ==> flags@[j],
            decreases self.values@.len() - i,
        {
            if self.values[i].is_some() && !flags[i] {
                return false;
            }
            i = i + 1;
        }
        true
    }
}


/// The result of `other.size` after ToNumber, floored: `Integral` holds
/// `i64::MAX` for +∞ and for anything at or above 2^63.
#[derive(Clone, Copy, Debug, PartialEq, Eq, Structural)]
pub enum SizeArg {
    Undefined,
    NaN,
    Integral(i64),
}

/// GetSetRecord: the size it reads from `other`, or the TypeError it throws.
pub open spec fn spec_set_record(
    other_is_object: bool,
    size: SizeArg,
    has_callable: bool,
    keys_callable: bool,
) -> Result<usize, ErrorKind> {
    if !other_is_object {
        Err(ErrorKind::TypeError)
    } else {
        match size {
            SizeArg::Undefined | SizeArg::NaN => Err(ErrorKind::TypeError),
            SizeArg::Integral(n) => if !has_callable || !keys_callable {
                Err(ErrorKind::TypeError)
            } else if n < 0 {
                Ok(0usize)
            } else if n == i64::MAX || n > usize::MAX {
                Ok(usize::MAX)
            } else {
                Ok(n as usize)
            },
        }
    }
}

/// GetSetRecord over what the engine read from the `other` argument.
pub fn get_set_record(other_is_object: bool, size: SizeArg, has_callable: bool, keys_callable: bool) -> (r:
    Result<usize, ErrorKind>)
    ensures
        r == spec_set_record(other_is_object, size, has_callable, keys_callable),
{
    if !other_is_object {
        return Err(ErrorKind::TypeError);
    }
    let n = match size {
        SizeArg::Undefined | SizeArg::NaN => return Err(ErrorKind::TypeError),
        SizeArg::Integral(n) => n,
    };
    if !has_callable || !keys_callable {
        return Err(ErrorKind::TypeError);
    }
    if n < 0 {
        Ok(0)
    } else if n == i64::MAX || n as u64 > usize::MAX as u64 {
        Ok(usize::MAX)
    } else {
        Ok(n as usize)
    }
}

/// The Set methods that take another set-like object.
#[derive(Clone, Copy, Debug, PartialEq, Eq, Structural)]
pub enum SetMethod {
    Union,
    Intersection,
    Difference,
    SymmetricDifference,
    IsSubsetOf,
    IsSupersetOf,
    IsDisjointFrom,
}

/// What a Set method reads from `other`: nothing, the answers of
/// `other.has` for this Set's entries, or the keys of `other.keys()`.
#[derive(Clone, Copy, Debug, PartialEq, Eq, Structural)]
pub enum OtherRead {
    Nothing,
    HasAnswers,
    Keys,
}

pub open spec fn spec_other_read(method: SetMethod, this_size: nat, other_size: nat) -> OtherRead {
    match method {
        SetMethod::Union | SetMethod::SymmetricDifference => OtherRead::Keys,
        SetMethod::Intersection | SetMethod::Difference | SetMethod::IsDisjointFrom => if this_size
            <= other_size {
            OtherRead::HasAnswers
        } else {
            OtherRead::Keys
        },
        SetMethod::IsSubsetOf => if this_size > other_size {
            OtherRead::Nothing
        } else {
            OtherRead::HasAnswers
        },
        SetMethod::IsSupersetOf => if this_size < other_size {
            OtherRead::Nothing
        } else {
            OtherRead::Keys
        },
    }
}

/// What `method` will read from `other` for a Set of `this_size` live keys.
pub fn other_read(method: SetMethod, this_size: usize, other_size: usize) -> (r: OtherRead)
    ensures
        r == spec_other_read(method, this_size as nat, other_size as nat),
{
    match method {
        SetMethod::Union | SetMethod::SymmetricDifference => OtherRead::Keys,
        SetMethod::Intersection | SetMethod::Difference | SetMethod::IsDisjointFrom => {
            if this_size <= other_size {
                OtherRead::HasAnswers
            } else {
                OtherRead::Keys
            }
        },
        SetMethod::IsSubsetOf => {
            if this_size > other_size {
                OtherRead::Nothing
            } else {
                OtherRead::HasAnswers
            }
        },
        SetMethod::IsSupersetOf => {
            if this_size < other_size {
                OtherRead::Nothing
            } else {
                OtherRead::Keys
            }
        },
    }
}

/// The answer of a Set method: a new Set or a boolean.
pub enum SetMethodResult {
    NewSet(JSSet),
    Boolean(bool),
}

impl JSSet {
    /// `union`, `intersection`, `difference`, `symmetricDifference`,
    /// `isSubsetOf`, `isSupersetOf` and `isDisjointFrom`, given what
    /// `other_read` said to read from `other` (`in_other` aligned with this
    /// Set's entries, or `other_keys` in the order `other.keys()` gave them).
    pub fn handle_set_method(
        &self,
        method: SetMethod,
        other_size: usize,
        in_other: &Vec<bool>,
        other_keys: &Vec<u64>,
    ) -> (r: SetMethodResult)
        requires
            spec_other_read(method, live_seq(self.values@).len(), other_size as nat)
                == OtherRead::HasAnswers ==> in_other@.len() == self.values@.len(),
        ensures
            ({
                let vals = self.values@;
                let reads = spec_other_read(method, live_seq(vals).len(), other_size as nat);
                match method {
                    SetMethod::Union => r matches SetMethodResult::NewSet(s) && s.values@ == add_all(
                        as_entries(live_seq(vals)),
                        other_keys@,
                    ),
                    SetMethod::Intersection => r matches SetMethodResult::NewSet(s) && s.values@
                        == if reads == OtherRead::HasAnswers {
                        select(vals, in_other@, true)
                    } else {
                        keep_present(vals, other_keys@)
                    },
                    SetMethod::Difference => r matches SetMethodResult::NewSet(s) && s.values@
                        == if reads == OtherRead::HasAnswers {
                        select(vals, in_other@, false)
                    } else {
                        delete_all(as_entries(live_seq(vals)), other_keys@)
                    },
                    SetMethod::SymmetricDifference => r matches SetMethodResult::NewSet(s)
                        && s.values@ == toggle_all(vals, as_entries(live_seq(vals)), other_keys@),
                    SetMethod::IsSubsetOf => r matches SetMethodResult::Boolean(b) && b == (
                    reads == OtherRead::HasAnswers && all_answered(vals, in_other@)),
                    SetMethod::IsSupersetOf => r matches SetMethodResult::Boolean(b) && b == (
                    reads == OtherRead::Keys && forall|j: int|
                        0 <= j < other_keys@.len() ==> spec_has(vals, #[trigger] other_keys@[j])),
                    SetMethod::IsDisjointFrom => r matches SetMethodResult::Boolean(b) && b == if reads
                        == OtherRead::HasAnswers {
                        !any_answered(vals, in_other@)
                    } else {
                        forall|j: int|
                            0 <= j < other_keys@.len() ==> !spec_has(
                                vals,
                                #[trigger] other_keys@[j],
                            )
                    },
                }
            }),
    {
        let this_size = self.size();
        let reads = other_read(method, this_size, other_size);
        match method {
            SetMethod::Union => SetMethodResult::NewSet(self.union(other_keys)),
            SetMethod::Intersection => {
                if reads == OtherRead::HasAnswers {
                    SetMethodResult::NewSet(self.intersection_by_has(in_other))
                } else {
                    SetMethodResult::NewSet(self.intersection_by_keys(other_keys))
                }
            },
            SetMethod::Difference => {
                if reads == OtherRead::HasAnswers {
                    SetMethodResult::NewSet(self.difference_by_has(in_other))
                } else {
                    SetMethodResult::NewSet(self.difference_by_keys(other_keys))
                }
            },
            SetMethod::SymmetricDifference => SetMethodResult::NewSet(
                self.symmetric_difference(other_keys),
            ),
            SetMethod::IsSubsetOf => SetMethodResult::Boolean(
                self.is_subset_of(other_size, in_other),
            ),
            SetMethod::IsSupersetOf => SetMethodResult::Boolean(
                self.is_superset_of(other_size, other_keys),
            ),
            SetMethod::IsDisjointFrom => {
                if reads == OtherRead::HasAnswers {
                    SetMethodResult::Boolean(self.is_disjoint_from_by_has(in_other))
                } else {
                    SetMethodResult::Boolean(self.is_disjoint_from_by_keys(other_keys))
                }
            },
        }
    }
}


// ---------------------------------------------------------------------------
// Facts about the model.

proof fn lemma_first_entry_exists(vals: Seq<Option<u64>>, k: u64)
    requires
        spec_has(vals, k),
    ensures
        exists|i: int| is_first_entry(vals, k, i),
    decreases vals.len(),
{
    let prefix = vals.drop_last();
    if spec_has(prefix, k) {
        lemma_first_entry_exists(prefix, k);
        let i = choose|i: int| is_first_entry(prefix, k, i);
        assert(vals[i] == prefix[i]);
        assert forall|j: int| 0 <= j < i implies vals[j] != Some(k) by {
            assert(prefix[j] != Some(k));
        }
        assert(is_first_entry(vals, k, i));
    } else {
        let last = vals.len() - 1;
        let w = choose|w: int| 0 <= w < vals.len() && vals[w] == Some(k);
        if w < last {
            assert(prefix[w] == Some(k));
        }
        assert forall|j: int| 0 <= j < last implies vals[j] != Some(k) by {
            if vals[j] == Some(k) {
                assert(prefix[j] == Some(k));
            }
        }
        assert(is_first_entry(vals, k, last));
    }
}

/// The entry `spec_delete` empties, when `k` is present.
proof fn lemma_delete_shape(vals: Seq<Option<u64>>, k: u64) -> (c: int)
    requires
        spec_has(vals, k),
    ensures
        is_first_entry(vals, k, c),
        spec_delete(vals, k) == vals.update(c, None),
{
    lemma_first_entry_exists(vals, k);
    choose|i: int| is_first_entry(vals, k, i)
}

proof fn lemma_push_has(vals: Seq<Option<u64>>, e: Option<u64>, x: u64)
    ensures
        spec_has(vals.push(e), x) <==> (spec_has(vals, x) || e == Some(x)),
{
    let s = vals.push(e);
    if spec_has(vals, x) {
        let w = choose|w: int| 0 <= w < vals.len() && vals[w] == Some(x);
        assert(s[w] == Some(x));
    }
    if e == Some(x) {
        assert(s[vals.len() as int] == Some(x));
    }
    if spec_has(s, x) {
        let w = choose|w: int| 0 <= w < s.len() && s[w] == Some(x);
        if w < vals.len() {
            assert(vals[w] == Some(x));
        }
    }
}

proof fn lemma_add_has(vals: Seq<Option<u64>>, k: u64, x: u64)
    ensures
        spec_has(spec_add(vals, k), x) <==> (spec_has(vals, x) || x == k),
{
    lemma_push_has(vals, Some(k), x);
}

proof fn lemma_add_unique(vals: Seq<Option<u64>>, k: u64)
    requires
        unique_entries(vals),
    ensures
        unique_entries(spec_add(vals, k)),
{
    if !spec_has(vals, k) {
        let s = vals.push(Some(k));
        assert forall|i: int, j: int|
            0 <= i < s.len() && 0 <= j < s.len() && i != j && s[i] is Some implies s[i] != s[j] by {
            if i == vals.len() && s[j] == s[i] {
                assert(vals[j] == Some(k));
            } else if j == vals.len() && s[i] == s[j] {
                assert(vals[i] == Some(k));
            }
        }
    }
}

proof fn lemma_delete_has(vals: Seq<Option<u64>>, k: u64, x: u64)
    requires
        unique_entries(vals),
    ensures
        spec_has(spec_delete(vals, k), x) <==> (spec_has(vals, x) && x != k),
        unique_entries(spec_delete(vals, k)),
        spec_delete(vals, k).len() == vals.len(),
{
    if spec_has(vals, k) {
        let c = lemma_delete_shape(vals, k);
        let d = vals.update(c, None);
        if spec_has(d, x) {
            let w = choose|w: int| 0 <= w < d.len() && d[w] == Some(x);
            assert(vals[w] == Some(x));
            if x == k {
                assert(vals[c] == vals[w]);
            }
        }
        if spec_has(vals, x) && x != k {
            let w = choose|w: int| 0 <= w < vals.len() && vals[w] == Some(x);
            assert(d[w] == Some(x));
        }
        assert forall|i: int, j: int|
            0 <= i < d.len() && 0 <= j < d.len() && i != j && d[i] is Some implies d[i] != d[j] by {
            if i != c && j != c {
                assert(vals[i] != vals[j]);
            }
        }
    }
}

proof fn lemma_live_seq_has(vals: Seq<Option<u64>>, x: u64)
    ensures
        live_seq(vals).contains(x) <==> spec_has(vals, x),
    decreases vals.len(),
{
    if vals.len() > 0 {
        let prefix = vals.drop_last();
        lemma_live_seq_has(prefix, x);
        assert(vals =~= prefix.push(vals.last()));
        lemma_push_has(prefix, vals.last(), x);
        let p = live_seq(prefix);
        match vals.last() {
            Some(k) => {
                let q = p.push(k);
                if q.contains(x) {
                    let w = choose|w: int| 0 <= w < q.len() && q[w] == x;
                    if w < p.len() {
                        assert(p[w] == x);
                    }
                }
                if p.contains(x) {
                    let w = choose|w: int| 0 <= w < p.len() && p[w] == x;
                    assert(q[w] == x);
                }
                if x == k {
                    assert(q[p.len() as int] == x);
                }
            },
            None => {
            },
        }
    }
}

proof fn lemma_live_seq_no_dup(vals: Seq<Option<u64>>)
    requires
        unique_entries(vals),
    ensures
        live_seq(vals).no_duplicates(),
    decreases vals.len(),
{
    if vals.len() > 0 {
        let prefix = vals.drop_last();
        assert(unique_entries(prefix)) by {
            assert forall|i: int, j: int|
                0 <= i < prefix.len() && 0 <= j < prefix.len() && i != j && prefix[i] is Some implies
                prefix[i] != prefix[j] by {
                assert(vals[i] != vals[j]);
            }
        }
        lemma_live_seq_no_dup(prefix);
        match vals.last() {
            Some(k) => {
                let p = live_seq(prefix);
                lemma_live_seq_has(prefix, k);
                if spec_has(prefix, k) {
                    let w = choose|w: int| 0 <= w < prefix.len() && prefix[w] == Some(k);
                    assert(vals[w] == vals[vals.len() - 1]);
                }
                let q = p.push(k);
                assert forall|i: int, j: int| 0 <= i < q.len() && 0 <= j < q.len() && i != j implies q[i]
                    != q[j] by {
                    if i == p.len() {
                        assert(!p.contains(k));
                        if q[j] == k {
                            assert(p[j] == k);
                        }
                    } else if j == p.len() {
                        assert(!p.contains(k));
                        if q[i] == k {
                            assert(p[i] == k);
                        }
                    }
                }
            },
            None => {
            },
        }
    }
}

proof fn lemma_as_entries_has(keys: Seq<u64>, x: u64)
    ensures
        spec_has(as_entries(keys), x) <==> keys.contains(x),
{
    let e = as_entries(keys);
    if keys.contains(x) {
        let w = choose|w: int| 0 <= w < keys.len() && keys[w] == x;
        assert(e[w] == Some(x));
    }
    if spec_has(e, x) {
        let w = choose|w: int| 0 <= w < e.len() && e[w] == Some(x);
        assert(keys[w] == x);
    }
}

proof fn lemma_as_entries_unique(keys: Seq<u64>)
    requires
        keys.no_duplicates(),
    ensures
        unique_entries(as_entries(keys)),
{
    let e = as_entries(keys);
    assert forall|i: int, j: int|
        0 <= i < e.len() && 0 <= j < e.len() && i != j && e[i] is Some implies e[i] != e[j] by {
        assert(keys[i] != keys[j]);
    }
}

/// A copy of a Set's live keys holds the same keys, each once.
proof fn lemma_compacted(vals: Seq<Option<u64>>)
    requires
        unique_entries(vals),
    ensures
        unique_entries(as_entries(live_seq(vals))),
        forall|x: u64| #[trigger]
            spec_has(as_entries(live_seq(vals)), x) <==> spec_has(vals, x),
{
    lemma_live_seq_no_dup(vals);
    lemma_as_entries_unique(live_seq(vals));
    assert forall|x: u64| #[trigger] spec_has(as_entries(live_seq(vals)), x) <==> spec_has(vals, x) by {
        lemma_as_entries_has(live_seq(vals), x);
        lemma_live_seq_has(vals, x);
    }
}

proof fn lemma_contains_drop_last(keys: Seq<u64>, x: u64)
    requires
        keys.len() > 0,
    ensures
        keys.contains(x) <==> (keys.drop_last().contains(x) || keys.last() == x),
{
    let p = keys.drop_last();
    if keys.contains(x) {
        let w = choose|w: int| 0 <= w < keys.len() && keys[w] == x;
        if w < p.len() {
            assert(p[w] == x);
        }
    }
    if p.contains(x) {
        let w = choose|w: int| 0 <= w < p.len() && p[w] == x;
        assert(keys[w] == x);
    }
}

proof fn lemma_add_all(vals: Seq<Option<u64>>, keys: Seq<u64>, x: u64)
    requires
        unique_entries(vals),
    ensures
        unique_entries(add_all(vals, keys)),
        spec_has(add_all(vals, keys), x) <==> (spec_has(vals, x) || keys.contains(x)),
    decreases keys.len(),
{
    if keys.len() > 0 {
        lemma_add_all(vals, keys.drop_last(), x);
        lemma_add_unique(add_all(vals, keys.drop_last()), keys.last());
        lemma_add_has(add_all(vals, keys.drop_last()), keys.last(), x);
        lemma_contains_drop_last(keys, x);
    }
}

proof fn lemma_delete_all(vals: Seq<Option<u64>>, keys: Seq<u64>, x: u64)
    requires
        unique_entries(vals),
    ensures
        unique_entries(delete_all(vals, keys)),
        spec_has(delete_all(vals, keys), x) <==> (spec_has(vals, x) && !keys.contains(x)),
    decreases keys.len(),
{
    if keys.len() > 0 {
        lemma_delete_all(vals, keys.drop_last(), x);
        lemma_delete_has(delete_all(vals, keys.drop_last()), keys.last(), x);
        lemma_contains_drop_last(keys, x);
    }
}

proof fn lemma_keep_present(this: Seq<Option<u64>>, keys: Seq<u64>, x: u64)
    ensures
        unique_entries(keep_present(this, keys)),
        spec_has(keep_present(this, keys), x) <==> (spec_has(this, x) && keys.contains(x)),
    decreases keys.len(),
{
    if keys.len() == 0 {
        assert(!spec_has(keep_present(this, keys), x));
    } else {
        lemma_keep_present(this, keys.drop_last(), x);
        let prefix = keep_present(this, keys.drop_last());
        lemma_add_unique(prefix, keys.last());
        lemma_add_has(prefix, keys.last(), x);
        lemma_contains_drop_last(keys, x);
    }
}

proof fn lemma_toggle_all(this: Seq<Option<u64>>, result: Seq<Option<u64>>, keys: Seq<u64>, x: u64)
    requires
        unique_entries(result),
    ensures
        unique_entries(toggle_all(this, result, keys)),
        spec_has(toggle_all(this, result, keys), x) <==> if keys.contains(x) {
            !spec_has(this, x)
        } else {
            spec_has(result, x)
        },
    decreases keys.len(),
{
    if keys.len() > 0 {
        lemma_toggle_all(this, result, keys.drop_last(), x);
        let prefix = toggle_all(this, result, keys.drop_last());
        let k = keys.last();
        lemma_contains_drop_last(keys, x);
        if spec_has(this, k) {
            lemma_delete_has(prefix, k, x);
        } else {
            lemma_add_unique(prefix, k);
            lemma_add_has(prefix, k, x);
        }
    }
}

proof fn lemma_select_has(vals: Seq<Option<u64>>, flags: Seq<bool>, want: bool, x: u64)
    requires
        flags.len() == vals.len(),
    ensures
        spec_has(select(vals, flags, want), x) <==> exists|i: int|
            0 <= i < vals.len() && vals[i] == Some(x) && flags[i] == want,
    decreases vals.len(),
{
    if vals.len() > 0 {
        let pv = vals.drop_last();
        let pf = flags.drop_last();
        lemma_select_has(pv, pf, want, x);
        let prefix = select(pv, pf, want);
        let last = vals.len() - 1;
        match vals.last() {
            Some(k) => {
                if flags.last() == want {
                    lemma_push_has(prefix, Some(k), x);
                }
            },
            None => {
            },
        }
        if exists|i: int| 0 <= i < vals.len() && vals[i] == Some(x) && flags[i] == want {
            let w = choose|w: int| 0 <= w < vals.len() && vals[w] == Some(x) && flags[w] == want;
            if w < last {
                assert(pv[w] == Some(x) && pf[w] == want);
            }
        }
        if exists|i: int| 0 <= i < pv.len() && pv[i] == Some(x) && pf[i] == want {
            let w = choose|w: int| 0 <= w < pv.len() && pv[w] == Some(x) && pf[w] == want;
            assert(vals[w] == Some(x) && flags[w] == want);
        }
    }
}

// ---------------------------------------------------------------------------
// Laws.

/// The answers of `other.has` for the entries of `vals` agree with the
/// set `other`.
pub open spec fn answers_match(vals: Seq<Option<u64>>, flags: Seq<bool>, other: Set<u64>) -> bool {
    &&& flags.len() == vals.len()
    &&& forall|i: int|
        0 <= i < vals.len() && vals[i] is Some ==> (flags[i] <==> other.contains(vals[i]->0))
}

/// After `add(k)`, `has(k)` is true; adding twice is adding once; a Set
/// never holds a key twice; and the size grows by one exactly when `k` was
/// absent.
pub proof fn law_add(vals: Seq<Option<u64>>, k: u64)
    requires
        unique_entries(vals),
    ensures
        spec_has(spec_add(vals, k), k),
        spec_add(spec_add(vals, k), k) == spec_add(vals, k),
        unique_entries(spec_add(vals, k)),
        live_set(spec_add(vals, k)) == live_set(vals).insert(k),
        live_seq(spec_add(vals, k)).len() == live_seq(vals).len() + if spec_has(vals, k) {
            0int
        } else {
            1int
        },
{
    lemma_add_has(vals, k, k);
    lemma_add_unique(vals, k);
    assert forall|x: u64| live_set(spec_add(vals, k)).contains(x) <==> live_set(vals).insert(
        k,
    ).contains(x) by {
        lemma_add_has(vals, k, x);
    }
    assert(live_set(spec_add(vals, k)) =~= live_set(vals).insert(k));
    if !spec_has(vals, k) {
        assert(vals.push(Some(k)).drop_last() =~= vals);
    }
}

/// After `delete(k)`, `has(k)` is false and every other key stays; no
/// entry moves, so live iterators keep their place.
pub proof fn law_delete(vals: Seq<Option<u64>>, k: u64)
    requires
        unique_entries(vals),
    ensures
        !spec_has(spec_delete(vals, k), k),
        unique_entries(spec_delete(vals, k)),
        live_set(spec_delete(vals, k)) == live_set(vals).remove(k),
        spec_delete(vals, k).len() == vals.len(),
        forall|i: int|
            0 <= i < vals.len() && vals[i] != Some(k) ==> #[trigger] spec_delete(vals, k)[i]
                == vals[i],
{
    lemma_delete_has(vals, k, k);
    assert forall|x: u64| live_set(spec_delete(vals, k)).contains(x) <==> live_set(vals).remove(
        k,
    ).contains(x) by {
        lemma_delete_has(vals, k, x);
    }
    assert(live_set(spec_delete(vals, k)) =~= live_set(vals).remove(k));
    if spec_has(vals, k) {
        lemma_delete_shape(vals, k);
    }
}

/// Iteration visits the live entries in insertion order: a step from
/// `from` lands on the first live entry at or after it, skipping only holes.
pub proof fn law_iteration_step(vals: Seq<Option<u64>>, from: int)
    requires
        0 <= from,
    ensures
        match next_live(vals, from) {
            Some(j) => from <= j < vals.len() && vals[j] is Some && forall|m: int|
                from <= m < j ==> vals[m] is None,
            None => forall|m: int| from <= m < vals.len() ==> vals[m] is None,
        },
    decreases vals.len() - from,
{
    if from < vals.len() && vals[from] is None {
        law_iteration_step(vals, from + 1);
    }
}

/// `union` holds the keys of both, each once.
pub proof fn law_union(vals: Seq<Option<u64>>, other_keys: Seq<u64>)
    requires
        unique_entries(vals),
    ensures
        unique_entries(add_all(as_entries(live_seq(vals)), other_keys)),
        live_set(add_all(as_entries(live_seq(vals)), other_keys)) == live_set(vals).union(
            other_keys.to_set(),
        ),
{
    lemma_compacted(vals);
    let start = as_entries(live_seq(vals));
    lemma_add_all(start, other_keys, 0);
    assert forall|x: u64| live_set(add_all(start, other_keys)).contains(x) <==> live_set(
        vals,
    ).union(other_keys.to_set()).contains(x) by {
        lemma_add_all(start, other_keys, x);
    }
    assert(live_set(add_all(start, other_keys)) =~= live_set(vals).union(other_keys.to_set()));
}

/// `intersection` holds the keys present in both, each once, whether it
/// walks this Set (asking `other.has`) or walks `other.keys()`.
pub proof fn law_intersection(vals: Seq<Option<u64>>, flags: Seq<bool>, other_keys: Seq<u64>)
    requires
        unique_entries(vals),
        answers_match(vals, flags, other_keys.to_set()),
    ensures
        unique_entries(select(vals, flags, true)),
        unique_entries(keep_present(vals, other_keys)),
        live_set(select(vals, flags, true)) == live_set(vals).intersect(other_keys.to_set()),
        live_set(keep_present(vals, other_keys)) == live_set(vals).intersect(other_keys.to_set()),
{
    lemma_keep_present(vals, other_keys, 0);
    lemma_select_unique(vals, flags, true);
    assert forall|x: u64| live_set(select(vals, flags, true)).contains(x) <==> live_set(
        vals,
    ).intersect(other_keys.to_set()).contains(x) by {
        lemma_select_has(vals, flags, true, x);
        if spec_has(vals, x) {
            let w = choose|w: int| 0 <= w < vals.len() && vals[w] == Some(x);
            assert(vals[w] is Some);
        }
    }
    assert forall|x: u64| live_set(keep_present(vals, other_keys)).contains(x) <==> live_set(
        vals,
    ).intersect(other_keys.to_set()).contains(x) by {
        lemma_keep_present(vals, other_keys, x);
    }
    assert(live_set(select(vals, flags, true)) =~= live_set(vals).intersect(other_keys.to_set()));
    assert(live_set(keep_present(vals, other_keys)) =~= live_set(vals).intersect(
        other_keys.to_set(),
    ));
}

/// `difference` holds the keys of this Set that `other` lacks, by either
/// walk.
pub proof fn law_difference(vals: Seq<Option<u64>>, flags: Seq<bool>, other_keys: Seq<u64>)
    requires
        unique_entries(vals),
        answers_match(vals, flags, other_keys.to_set()),
    ensures
        unique_entries(select(vals, flags, false)),
        unique_entries(delete_all(as_entries(live_seq(vals)), other_keys)),
        live_set(select(vals, flags, false)) == live_set(vals).difference(other_keys.to_set()),
        live_set(delete_all(as_entries(live_seq(vals)), other_keys)) == live_set(vals).difference(
            other_keys.to_set(),
        ),
{
    lemma_compacted(vals);
    let start = as_entries(live_seq(vals));
    lemma_delete_all(start, other_keys, 0);
    lemma_select_unique(vals, flags, false);
    assert forall|x: u64| live_set(select(vals, flags, false)).contains(x) <==> live_set(
        vals,
    ).difference(other_keys.to_set()).contains(x) by {
        lemma_select_has(vals, flags, false, x);
        if spec_has(vals, x) {
            let w = choose|w: int| 0 <= w < vals.len() && vals[w] == Some(x);
            assert(vals[w] is Some);
        }
    }
    assert forall|x: u64| live_set(delete_all(start, other_keys)).contains(x) <==> live_set(
        vals,
    ).difference(other_keys.to_set()).contains(x) by {
        lemma_delete_all(start, other_keys, x);
    }
    assert(live_set(select(vals, flags, false)) =~= live_set(vals).difference(
        other_keys.to_set(),
    ));
    assert(live_set(delete_all(start, other_keys)) =~= live_set(vals).difference(
        other_keys.to_set(),
    ));
}

/// `symmetricDifference` holds the keys in exactly one of the two.
pub proof fn law_symmetric_difference(vals: Seq<Option<u64>>, other_keys: Seq<u64>)
    requires
        unique_entries(vals),
    ensures
        unique_entries(toggle_all(vals, as_entries(live_seq(vals)), other_keys)),
        live_set(toggle_all(vals, as_entries(live_seq(vals)), other_keys)) == live_set(
            vals,
        ).difference(other_keys.to_set()).union(other_keys.to_set().difference(live_set(vals))),
{
    lemma_compacted(vals);
    let start = as_entries(live_seq(vals));
    lemma_toggle_all(vals, start, other_keys, 0);
    assert forall|x: u64| live_set(toggle_all(vals, start, other_keys)).contains(x) <==> live_set(
        vals,
    ).difference(other_keys.to_set()).union(
        other_keys.to_set().difference(live_set(vals)),
    ).contains(x) by {
        lemma_toggle_all(vals, start, other_keys, x);
    }
    assert(live_set(toggle_all(vals, start, other_keys)) =~= live_set(vals).difference(
        other_keys.to_set(),
    ).union(other_keys.to_set().difference(live_set(vals))));
}

/// The walks of `isSubsetOf`, `isSupersetOf` and `isDisjointFrom` decide
/// the set relations they are named after.
pub proof fn law_relations(vals: Seq<Option<u64>>, flags: Seq<bool>, other_keys: Seq<u64>)
    requires
        answers_match(vals, flags, other_keys.to_set()),
    ensures
        all_answered(vals, flags) <==> live_set(vals).subset_of(other_keys.to_set()),
        (forall|j: int| 0 <= j < other_keys.len() ==> spec_has(vals, #[trigger] other_keys[j]))
            <==> other_keys.to_set().subset_of(live_set(vals)),
        !any_answered(vals, flags) <==> live_set(vals).disjoint(other_keys.to_set()),
        (forall|j: int| 0 <= j < other_keys.len() ==> !spec_has(vals, #[trigger] other_keys[j]))
            <==> live_set(vals).disjoint(other_keys.to_set()),
{
    let other = other_keys.to_set();
    if all_answered(vals, flags) {
        assert forall|x: u64| live_set(vals).contains(x) implies other.contains(x) by {
            let w = choose|w: int| 0 <= w < vals.len() && vals[w] == Some(x);
            assert(flags[w]);
        }
    }
    if live_set(vals).subset_of(other) {
        assert forall|i: int| 0 <= i < vals.len() && vals[i] is Some implies flags[i] by {
            assert(live_set(vals).contains(vals[i]->0));
        }
    }
    if forall|j: int| 0 <= j < other_keys.len() ==> spec_has(vals, #[trigger] other_keys[j]) {
        assert forall|x: u64| other.contains(x) implies live_set(vals).contains(x) by {
            let w = choose|w: int| 0 <= w < other_keys.len() && other_keys[w] == x;
            assert(spec_has(vals, other_keys[w]));
        }
    }
    if other.subset_of(live_set(vals)) {
        assert forall|j: int| 0 <= j < other_keys.len() implies spec_has(
            vals,
            #[trigger] other_keys[j],
        ) by {
            assert(other.contains(other_keys[j]));
        }
    }
    if any_answered(vals, flags) {
        let w = choose|w: int| 0 <= w < vals.len() && vals[w] is Some && flags[w];
        assert(live_set(vals).contains(vals[w]->0));
    }
    if !any_answered(vals, flags) {
        assert forall|x: u64| live_set(vals).contains(x) implies !other.contains(x) by {
            let w = choose|w: int| 0 <= w < vals.len() && vals[w] == Some(x);
            assert(!flags[w]);
        }
    }
    if forall|j: int| 0 <= j < other_keys.len() ==> !spec_has(vals, #[trigger] other_keys[j]) {
        assert forall|x: u64| live_set(vals).contains(x) implies !other.contains(x) by {
            if other.contains(x) {
                let w = choose|w: int| 0 <= w < other_keys.len() && other_keys[w] == x;
                assert(!spec_has(vals, other_keys[w]));
            }
        }
    }
    if live_set(vals).disjoint(other) {
        assert forall|j: int| 0 <= j < other_keys.len() implies !spec_has(
            vals,
            #[trigger] other_keys[j],
        ) by {
            assert(other.contains(other_keys[j]));
        }
    }
}

proof fn lemma_select_unique(vals: Seq<Option<u64>>, flags: Seq<bool>, want: bool)
    requires
        unique_entries(vals),
        flags.len() == vals.len(),
    ensures
        unique_entries(select(vals, flags, want)),
    decreases vals.len(),
{
    if vals.len() > 0 {
        let pv = vals.drop_last();
        let pf = flags.drop_last();
        assert(unique_entries(pv)) by {
            assert forall|i: int, j: int|
                0 <= i < pv.len() && 0 <= j < pv.len() && i != j && pv[i] is Some implies pv[i]
                != pv[j] by {
                assert(vals[i] != vals[j]);
            }
        }
        lemma_select_unique(pv, pf, want);
        match vals.last() {
            Some(k) => {
                if flags.last() == want {
                    lemma_select_has(pv, pf, want, k);
                    if spec_has(select(pv, pf, want), k) {
                        let w = choose|w: int| 0 <= w < pv.len() && pv[w] == Some(k) && pf[w] == want;
                        assert(vals[w] == vals[vals.len() - 1]);
                    }
                    lemma_add_unique(select(pv, pf, want), k);
                }
            },
            None => {
            },
        }
    }
}

} // verus!
