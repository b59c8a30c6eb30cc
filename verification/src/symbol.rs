//! Symbols and the global symbol registry (`Symbol.for` / `Symbol.keyFor`).
//!
//! A symbol is named by its index in the table, so two symbols are the
//! same exactly when their indices are equal.
use crate::error::ErrorKind;
use crate::string_replace::units_equal;
use crate::utf16::append_all;
use vstd::prelude::*;

verus! {

/// What the table knows of one symbol.
pub struct SymbolInfo {
    pub description: Option<Vec<u16>>,
    /// Made by `Symbol.for`.
    pub registered: bool,
}

/// Every symbol made so far, and the registry of `Symbol.for` keys in the
/// order they were first used.
pub struct SymbolTable {
    pub symbols: Vec<SymbolInfo>,
    pub registry: Vec<(Vec<u16>, usize)>,
}

/// The registry as keys and symbols.
pub open spec fn registry_view(reg: Seq<(Vec<u16>, usize)>) -> Seq<(Seq<u16>, usize)> {
    reg.map_values(|e: (Vec<u16>, usize)| (e.0@, e.1))
}

/// The symbol registered for `key`.
pub open spec fn registry_lookup(reg: Seq<(Seq<u16>, usize)>, key: Seq<u16>) -> Option<usize>
    decreases reg.len(),
{
    if reg.len() == 0 {
        None
    } else {
        let prefix = registry_lookup(reg.drop_last(), key);
        if prefix is Some {
            prefix
        } else if reg.last().0 == key {
            Some(reg.last().1)
        } else {
            None
        }
    }
}

/// The key under which symbol `id` is registered.
pub open spec fn registry_key_of(reg: Seq<(Seq<u16>, usize)>, id: usize) -> Option<Seq<u16>>
    decreases reg.len(),
{
    if reg.len() == 0 {
        None
    } else {
        let prefix = registry_key_of(reg.drop_last(), id);
        if prefix is Some {
            prefix
        } else if reg.last().1 == id {
            Some(reg.last().0)
        } else {
            None
        }
    }
}

/// The text of `Symbol.prototype.toString`: `Symbol(description)`.
pub open spec fn symbol_text(description: Seq<u16>) -> Seq<u16> {
    seq![83u16, 121u16, 109u16, 98u16, 111u16, 108u16, 40u16] + description + seq![41u16]
}

/// The argument of `Symbol(description)`, or the key of `Symbol.for(key)`,
/// after ToString: a symbol does not convert.
#[derive(Debug)]
pub enum SymbolTextArg {
    Undefined,
    Symbol,
    Text(Vec<u16>),
}

/// The receiver of a `Symbol.prototype` method, or the argument of
/// `Symbol.keyFor`.
#[derive(Clone, Copy, Debug, PartialEq, Eq, Structural)]
pub enum SymbolArg {
    /// A symbol value.
    Symbol(usize),
    /// A Symbol wrapper object holding this symbol.
    Wrapper(usize),
    /// Anything else.
    Other,
}

impl SymbolTable {
    /// Every registered symbol exists, is marked registered, and is
    /// registered under exactly one key; no key is registered twice.
    pub open spec fn wf(&self) -> bool {
        let reg = registry_view(self.registry@);
        &&& forall|i: int| 0 <= i < reg.len() ==> (#[trigger] reg[i]).1 < self.symbols@.len()
        &&& forall|i: int|
            0 <= i < reg.len() ==> self.symbols@[(#[trigger] reg[i]).1 as int].registered
        &&& forall|i: int, j: int|
            0 <= i < reg.len() && 0 <= j < reg.len() && i != j ==> (#[trigger] reg[i]).0 != (
            #[trigger] reg[j]).0 && reg[i].1 != reg[j].1
    }

    /// An empty table.
    pub fn new() -> (t: Self)
        ensures
            t.wf(),
            t.symbols@.len() == 0,
            t.registry@.len() == 0,
    {
        SymbolTable { symbols: Vec::new(), registry: Vec::new() }
    }

    /// `Symbol(description)`: a new symbol, distinct from every other.
    pub fn new_symbol(&mut self, description: SymbolTextArg) -> (r: Result<usize, ErrorKind>)
        requires
            old(self).wf(),
            old(self).symbols@.len() < usize::MAX,
        ensures
            final(self).wf(),
            match description {
                SymbolTextArg::Symbol => r == Err::<usize, ErrorKind>(ErrorKind::TypeError) && final(self).symbols@ == old(self).symbols@,
                _ => r == Ok::<usize, ErrorKind>(old(self).symbols@.len() as usize) && final(self).symbols@.len() == old(self).symbols@.len() + 1 && final(self).symbols@.subrange(
                    0,
                    old(self).symbols@.len() as int,
                ) == old(self).symbols@ && !final(self).symbols@.last().registered && match description {
                    SymbolTextArg::Text(t) => final(self).symbols@.last().description matches Some(
                        d,
                    ) && d@ == t@,
                    _ => final(self).symbols@.last().description is None,
                },
            },
            final(self).registry@ == old(self).registry@,
    {
        let desc = match description {
            SymbolTextArg::Symbol => return Err(ErrorKind::TypeError),
            SymbolTextArg::Undefined => None,
            SymbolTextArg::Text(t) => Some(t),
        };
        let id = self.symbols.len();
        self.symbols.push(SymbolInfo { description: desc, registered: false });
        proof {
            let reg = registry_view(self.registry@);
            assert forall|i: int| 0 <= i < reg.len() implies self.symbols@[(#[trigger] reg[i]).1 as int].registered by {
                assert(old(self).symbols@[reg[i].1 as int].registered);
            }
        }
        assert(self.symbols@.subrange(0, id as int) =~= old(self).symbols@);
        Ok(id)
    }

    fn lookup(&self, key: &Vec<u16>) -> (r: Option<usize>)
        ensures
            r == registry_lookup(registry_view(self.registry@), key@),
    {
        let ghost reg = registry_view(self.registry@);
        let mut i: usize = 0;
        while i < self.registry.len()
            invariant
                i <= self.registry@.len(),
                reg == registry_view(self.registry@),
                registry_lookup(reg.take(i as int), key@) is None,
            decreases self.registry@.len() - i,
        {
            assert(reg.take(i + 1).drop_last() =~= reg.take(i as int));
            if units_equal(self.registry[i].0.as_slice(), key.as_slice()) {
                proof {
                    assert(reg[i as int] == (self.registry@[i as int].0@, self.registry@[i as int].1));
                    lemma_lookup_at(reg, key@, i as int);
                }
                return Some(self.registry[i].1);
            }
            i = i + 1;
        }
        assert(reg.take(i as int) =~= reg);
        None
    }

    /// `Symbol.for(key)`: the symbol registered for `key`, made and
    /// registered when there is none.
    pub fn symbol_for(&mut self, key: SymbolTextArg) -> (r: Result<usize, ErrorKind>)
        requires
            old(self).wf(),
            old(self).symbols@.len() < usize::MAX,
        ensures
            final(self).wf(),
            match key_text(key) {
                None => r == Err::<usize, ErrorKind>(ErrorKind::TypeError) && final(self).symbols@
                    == old(self).symbols@ && final(self).registry@ == old(self).registry@,
                Some(t) => match registry_lookup(registry_view(old(self).registry@), t) {
                    Some(id) => r == Ok::<usize, ErrorKind>(id) && final(self).symbols@ == old(self).symbols@ && final(self).registry@ == old(self).registry@,
                    None => r == Ok::<usize, ErrorKind>(old(self).symbols@.len() as usize)
                        && registry_view(final(self).registry@) == registry_view(
                        old(self).registry@,
                    ).push((t, old(self).symbols@.len() as usize)) && final(self).symbols@.len()
                        == old(self).symbols@.len() + 1 && final(self).symbols@.subrange(
                        0,
                        old(self).symbols@.len() as int,
                    ) == old(self).symbols@ && final(self).symbols@.last().registered,
                },
            },
    {
        let text = match key {
            SymbolTextArg::Symbol => return Err(ErrorKind::TypeError),
            SymbolTextArg::Undefined => undefined_text(),
            SymbolTextArg::Text(t) => t,
        };
        match self.lookup(&text) {
            Some(id) => Ok(id),
            None => {
                let id = self.symbols.len();
                let ghost old_reg = registry_view(self.registry@);
                let mut desc: Vec<u16> = Vec::new();
                append_all(&mut desc, text.as_slice());
                self.symbols.push(SymbolInfo { description: Some(desc), registered: true });
                self.registry.push((text, id));
                proof {
                    let reg = registry_view(self.registry@);
                    assert(reg =~= old_reg.push((reg.last().0, id)));
                    assert forall|i: int| 0 <= i < old_reg.len() implies old_reg[i].0 != reg.last().0 by {
                        if old_reg[i].0 == reg.last().0 {
                            lemma_lookup_found(old_reg, reg.last().0, i);
                        }
                    }
                    assert forall|i: int| 0 <= i < reg.len() implies self.symbols@[(#[trigger] reg[i]).1 as int].registered by {
                        if i < old_reg.len() {
                            assert(old(self).symbols@[old_reg[i].1 as int].registered);
                        }
                    }
                }
                assert(self.symbols@.subrange(0, id as int) =~= old(self).symbols@);
                Ok(id)
            },
        }
    }

    /// `Symbol.keyFor(sym)`: the key `sym` is registered under (`None` for
    /// `undefined`); a value that is not a symbol is a TypeError.
    pub fn key_for(&self, arg: SymbolArg) -> (r: Result<Option<Vec<u16>>, ErrorKind>)
        ensures
            match arg {
                SymbolArg::Symbol(id) => r is Ok && match registry_key_of(
                    registry_view(self.registry@),
                    id,
                ) {
                    None => r->Ok_0 is None,
                    Some(k) => r->Ok_0 matches Some(v) && v@ == k,
                },
                _ => r is Err && r->Err_0 == ErrorKind::TypeError,
            },
    {
        let id = match arg {
            SymbolArg::Symbol(id) => id,
            _ => return Err(ErrorKind::TypeError),
        };
        let ghost reg = registry_view(self.registry@);
        let mut i: usize = 0;
        while i < self.registry.len()
            invariant
                i <= self.registry@.len(),
                reg == registry_view(self.registry@),
                arg == SymbolArg::Symbol(id),
                registry_key_of(reg.take(i as int), id) is None,
            decreases self.registry@.len() - i,
        {
            assert(reg.take(i + 1).drop_last() =~= reg.take(i as int));
            if self.registry[i].1 == id {
                proof {
                    assert(reg[i as int] == (self.registry@[i as int].0@, self.registry@[i as int].1));
                    lemma_key_of_at(reg, id, i as int);
                }
                let mut out: Vec<u16> = Vec::new();
                append_all(&mut out, self.registry[i].0.as_slice());
                assert(out@ =~= reg[i as int].0);
                return Ok(Some(out));
            }
            i = i + 1;
        }
        assert(reg.take(i as int) =~= reg);
        Ok(None)
    }

    /// thisSymbolValue: the symbol a `Symbol.prototype` method works on.
    pub fn this_symbol_value(&self, receiver: SymbolArg) -> (r: Result<usize, ErrorKind>)
        ensures
            r == match receiver {
                SymbolArg::Symbol(id) => Ok::<usize, ErrorKind>(id),
                SymbolArg::Wrapper(id) => Ok::<usize, ErrorKind>(id),
                SymbolArg::Other => Err::<usize, ErrorKind>(ErrorKind::TypeError),
            },
    {
        match receiver {
            SymbolArg::Symbol(id) => Ok(id),
            SymbolArg::Wrapper(id) => Ok(id),
            SymbolArg::Other => Err(ErrorKind::TypeError),
        }
    }

    /// `Symbol.prototype.toString()`: `Symbol(description)`, with an absent
    /// description written as empty.
    pub fn to_string(&self, receiver: SymbolArg) -> (r: Result<Vec<u16>, ErrorKind>)
        ensures
            match receiver {
                SymbolArg::Symbol(id) | SymbolArg::Wrapper(id) => if id < self.symbols@.len() {
                    r is Ok && r->Ok_0@ == symbol_text(
                        match self.symbols@[id as int].description {
                            Some(d) => d@,
                            None => Seq::empty(),
                        },
                    )
                } else {
                    r == Err::<Vec<u16>, ErrorKind>(ErrorKind::TypeError)
                },
                SymbolArg::Other => r == Err::<Vec<u16>, ErrorKind>(ErrorKind::TypeError),
            },
    {
        let id = match self.this_symbol_value(receiver) {
            Ok(id) => id,
            Err(e) => return Err(e),
        };
        if id >= self.symbols.len() {
            return Err(ErrorKind::TypeError);
        }
        let mut out: Vec<u16> = Vec::new();
        out.push(83u16);
        out.push(121u16);
        out.push(109u16);
        out.push(98u16);
        out.push(111u16);
        out.push(108u16);
        out.push(40u16);
        match &self.symbols[id].description {
            Some(d) => append_all(&mut out, d.as_slice()),
            None => {
            },
        }
        out.push(41u16);
        proof {
            let d = match self.symbols@[id as int].description {
                Some(d) => d@,
                None => Seq::empty(),
            };
            assert(out@ =~= symbol_text(d));
        }
        Ok(out)
    }

    /// `get Symbol.prototype.description`: `None` stands for `undefined`.
    pub fn description(&self, receiver: SymbolArg) -> (r: Result<Option<Vec<u16>>, ErrorKind>)
        ensures
            match receiver {
                SymbolArg::Symbol(id) | SymbolArg::Wrapper(id) => if id < self.symbols@.len() {
                    r is Ok && match self.symbols@[id as int].description {
                        None => r->Ok_0 is None,
                        Some(d) => r->Ok_0 matches Some(v) && v@ == d@,
                    }
                } else {
                    r is Err && r->Err_0 == ErrorKind::TypeError
                },
                SymbolArg::Other => r is Err && r->Err_0 == ErrorKind::TypeError,
            },
    {
        let id = match self.this_symbol_value(receiver) {
            Ok(id) => id,
            Err(e) => return Err(e),
        };
        if id >= self.symbols.len() {
            return Err(ErrorKind::TypeError);
        }
        match &self.symbols[id].description {
            Some(d) => {
                let mut out: Vec<u16> = Vec::new();
                append_all(&mut out, d.as_slice());
                Ok(Some(out))
            },
            None => Ok(None),
        }
    }
}

/// The key `Symbol.for` registers: ToString of its argument.
pub open spec fn key_text(key: SymbolTextArg) -> Option<Seq<u16>> {
    match key {
        SymbolTextArg::Symbol => None,
        SymbolTextArg::Undefined => Some(undefined_units()),
        SymbolTextArg::Text(t) => Some(t@),
    }
}

/// The string "undefined", which ToString gives for an absent key.
pub open spec fn undefined_units() -> Seq<u16> {
    seq![117u16, 110u16, 100u16, 101u16, 102u16, 105u16, 110u16, 101u16, 100u16]
}

fn undefined_text() -> (r: Vec<u16>)
    ensures
        r@ == undefined_units(),
{
    let mut v: Vec<u16> = Vec::new();
    v.push(117u16);
    v.push(110u16);
    v.push(100u16);
    v.push(101u16);
    v.push(102u16);
    v.push(105u16);
    v.push(110u16);
    v.push(101u16);
    v.push(100u16);
    assert(v@ =~= undefined_units());
    v
}

proof fn lemma_lookup_at(reg: Seq<(Seq<u16>, usize)>, key: Seq<u16>, i: int)
    requires
        0 <= i < reg.len(),
        registry_lookup(reg.take(i), key) is None,
        reg[i].0 == key,
    ensures
        registry_lookup(reg, key) == Some(reg[i].1),
    decreases reg.len(),
{
    let p = reg.drop_last();
    if i == reg.len() - 1 {
        assert(p =~= reg.take(i));
    } else {
        assert(p.take(i) =~= reg.take(i));
        lemma_lookup_at(p, key, i);
    }
}

proof fn lemma_key_of_at(reg: Seq<(Seq<u16>, usize)>, id: usize, i: int)
    requires
        0 <= i < reg.len(),
        registry_key_of(reg.take(i), id) is None,
        reg[i].1 == id,
    ensures
        registry_key_of(reg, id) == Some(reg[i].0),
    decreases reg.len(),
{
    let p = reg.drop_last();
    if i == reg.len() - 1 {
        assert(p =~= reg.take(i));
    } else {
        assert(p.take(i) =~= reg.take(i));
        lemma_key_of_at(p, id, i);
    }
}

/// A key that some entry holds is found.
proof fn lemma_lookup_found(reg: Seq<(Seq<u16>, usize)>, key: Seq<u16>, i: int)
    requires
        0 <= i < reg.len(),
        reg[i].0 == key,
    ensures
        registry_lookup(reg, key) is Some,
    decreases reg.len(),
{
    let p = reg.drop_last();
    if i < reg.len() - 1 {
        lemma_lookup_found(p, key, i);
    }
}

proof fn lemma_key_of_found(reg: Seq<(Seq<u16>, usize)>, id: usize, i: int)
    requires
        0 <= i < reg.len(),
        reg[i].1 == id,
    ensures
        registry_key_of(reg, id) is Some,
    decreases reg.len(),
{
    let p = reg.drop_last();
    if i < reg.len() - 1 {
        lemma_key_of_found(p, id, i);
    }
}

proof fn lemma_key_of_absent(reg: Seq<(Seq<u16>, usize)>, id: usize)
    requires
        forall|i: int| 0 <= i < reg.len() ==> (#[trigger] reg[i]).1 != id,
    ensures
        registry_key_of(reg, id) is None,
    decreases reg.len(),
{
    if reg.len() > 0 {
        let p = reg.drop_last();
        assert forall|i: int| 0 <= i < p.len() implies (#[trigger] p[i]).1 != id by {
            assert(reg[i].1 != id);
        }
        lemma_key_of_absent(p, id);
    }
}

proof fn lemma_lookup_entry(reg: Seq<(Seq<u16>, usize)>, key: Seq<u16>)
    requires
        registry_lookup(reg, key) is Some,
    ensures
        exists|i: int| 0 <= i < reg.len() && reg[i] == (key, registry_lookup(reg, key)->0),
    decreases reg.len(),
{
    let p = reg.drop_last();
    if registry_lookup(p, key) is Some {
        lemma_lookup_entry(p, key);
        let i = choose|i: int| 0 <= i < p.len() && p[i] == (key, registry_lookup(p, key)->0);
        assert(reg[i] == p[i]);
    } else {
        assert(reg[reg.len() - 1] == (key, registry_lookup(reg, key)->0));
    }
}

proof fn lemma_key_of_entry(reg: Seq<(Seq<u16>, usize)>, id: usize)
    requires
        registry_key_of(reg, id) is Some,
    ensures
        exists|i: int| 0 <= i < reg.len() && reg[i] == (registry_key_of(reg, id)->0, id),
    decreases reg.len(),
{
    let p = reg.drop_last();
    if registry_key_of(p, id) is Some {
        lemma_key_of_entry(p, id);
        let i = choose|i: int| 0 <= i < p.len() && p[i] == (registry_key_of(p, id)->0, id);
        assert(reg[i] == p[i]);
    } else {
        assert(reg[reg.len() - 1] == (registry_key_of(reg, id)->0, id));
    }
}

/// `Symbol.for(key)` answers the same symbol every time, and
/// `Symbol.keyFor` of that symbol is `key`: for a key already registered,
/// and for a new key once it is registered.
pub proof fn law_symbol_for(t: SymbolTable, key: Seq<u16>)
    requires
        t.wf(),
        t.symbols@.len() < usize::MAX,
    ensures
        ({
            let reg = registry_view(t.registry@);
            match registry_lookup(reg, key) {
                Some(id) => registry_key_of(reg, id) == Some(key),
                None => {
                    let id = t.symbols@.len() as usize;
                    let reg2 = reg.push((key, id));
                    &&& registry_lookup(reg2, key) == Some(id)
                    &&& registry_key_of(reg2, id) == Some(key)
                }
            }
        }),
{
    let reg = registry_view(t.registry@);
    match registry_lookup(reg, key) {
        Some(id) => {
            lemma_lookup_entry(reg, key);
            let i = choose|i: int| 0 <= i < reg.len() && reg[i] == (key, id);
            lemma_key_of_found(reg, id, i);
            lemma_key_of_entry(reg, id);
            let j = choose|j: int| 0 <= j < reg.len() && reg[j] == (registry_key_of(reg, id)->0, id);
            if i != j {
                assert(reg[i].1 != reg[j].1);
            }
        },
        None => {
            let id = t.symbols@.len() as usize;
            let reg2 = reg.push((key, id));
            assert(reg2.drop_last() =~= reg);
            assert forall|i: int| 0 <= i < reg.len() implies (#[trigger] reg[i]).1 != id by {
                assert(reg[i].1 < t.symbols@.len());
            }
            lemma_key_of_absent(reg, id);
        },
    }
}

/// A symbol made by `Symbol()` is registered under no key.
pub proof fn law_new_symbol_unregistered(t: SymbolTable)
    requires
        t.wf(),
        t.symbols@.len() < usize::MAX,
    ensures
        registry_key_of(registry_view(t.registry@), t.symbols@.len() as usize) is None,
{
    let reg = registry_view(t.registry@);
    let id = t.symbols@.len() as usize;
    assert forall|i: int| 0 <= i < reg.len() implies (#[trigger] reg[i]).1 != id by {
        assert(reg[i].1 < t.symbols@.len());
    }
    lemma_key_of_absent(reg, id);
}

} // verus!
