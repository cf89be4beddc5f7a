use vstd::prelude::*;
use vstd::string::StrSliceExecFns;
use vstd::string::StringExecFns;
use crate::error::Error;
use crate::error::ErrorTree;
use crate::index_vec::Idx;
use crate::index_vec::IndexVec;
use crate::text::quoted;
use crate::text::quoted_text;

verus! {

/// What a scope knows of a name: nothing yet, that its definition failed, or
/// its definition.
pub enum DefinitionState<T> {
    Undefined,
    Poisoned,
    Defined(T),
}

/// One entry of a scope, as contracts see it.
pub struct ScopeEntry<T> {
    pub name: Seq<char>,
    pub state: DefinitionState<T>,
}

struct Definition<T> {
    name: String,
    state: DefinitionState<T>,
}

/// A table of named items. A name may be used before it is defined; an entry
/// whose definition failed is poisoned, and stays so.
pub struct Scope<K: Idx, T> {
    vec: IndexVec<K, Definition<T>>,
}

/// The message for a use of a name that has no definition.
pub open spec fn undefined_text(kind: Seq<char>, name: Seq<char>) -> Seq<char> {
    "undefined "@ + kind + " "@ + quoted_text(name)
}

/// The message for a use of a name whose definition failed.
pub open spec fn poisoned_text(kind: Seq<char>, name: Seq<char>) -> Seq<char> {
    "previous error in "@ + kind + " "@ + quoted_text(name)
}

/// The message for a second definition of a name.
pub open spec fn duplicate_text(kind: Seq<char>, name: Seq<char>) -> Seq<char> {
    "duplicate definition of "@ + kind + " "@ + quoted_text(name)
}

/// An error that says `message` and has nothing under it.
pub open spec fn leaf(message: Seq<char>) -> ErrorTree {
    ErrorTree { message, causes: Seq::empty() }
}

impl<K: Idx, T> View for Scope<K, T> {
    type V = Seq<ScopeEntry<T>>;

    closed spec fn view(&self) -> Seq<ScopeEntry<T>> {
        Seq::new(
            self.vec@.len(),
            |i: int| ScopeEntry { name: self.vec@[i].name@, state: self.vec@[i].state },
        )
    }
}

impl<K: Idx, T: Copy> Clone for Scope<K, T> {
    fn clone(&self) -> (r: Self)
        ensures
            r@ == self@,
    {
        let mut vec: IndexVec<K, Definition<T>> = IndexVec::new();
        let n = self.vec.count();
        let mut i: usize = 0;
        while i < n
            invariant
                n == self.vec@.len(),
                i <= n,
                vec@.len() == i,
                forall|j: int|
                    0 <= j < i ==> (#[trigger] vec@[j]).name@ == self.vec@[j].name@ && vec@[j].state
                        == self.vec@[j].state,
            decreases n - i,
        {
            let def = self.vec.at(K::from_usize(i));
            let state = match &def.state {
                DefinitionState::Undefined => DefinitionState::Undefined,
                DefinitionState::Poisoned => DefinitionState::Poisoned,
                DefinitionState::Defined(value) => DefinitionState::Defined(*value),
            };
            vec.push(Definition { name: def.name.clone(), state });
            i += 1;
        }
        let r = Scope { vec };
        assert(r@ =~= self@);
        r
    }
}

impl<K: Idx, T> Default for Scope<K, T> {
    fn default() -> (r: Self)
        ensures
            r@ == Seq::<ScopeEntry<T>>::empty(),
    {
        let r = Scope { vec: IndexVec::new() };
        assert(r@ =~= Seq::<ScopeEntry<T>>::empty());
        r
    }
}

impl<K: Idx, T> Scope<K, T> {
    /// Whether `index` names an entry that is defined.
    pub open spec fn defined(&self, index: K) -> bool {
        index.index() < self@.len() && self@[index.index() as int].state is Defined
    }

    /// The definition of a defined entry.
    pub open spec fn value(&self, index: K) -> T {
        self@[index.index() as int].state->Defined_0
    }

    /// The name of an entry.
    pub open spec fn spec_name(&self, index: K) -> Seq<char> {
        self@[index.index() as int].name
    }

    /// The names of the entries, in order.
    pub open spec fn names(&self) -> Seq<Seq<char>> {
        Seq::new(self@.len(), |i: int| self@[i].name)
    }

    /// The number of entries fits the machine.
    pub proof fn lemma_count_fits(&self)
        ensures
            self@.len() <= usize::MAX,
    {
        self.vec.lemma_count_fits();
    }

    /// A scope without entries.
    pub fn new() -> (r: Self)
        ensures
            r@ == Seq::<ScopeEntry<T>>::empty(),
    {
        let r = Scope { vec: IndexVec::new() };
        assert(r@ =~= Seq::<ScopeEntry<T>>::empty());
        r
    }

    /// The index that the next `push` will return.
    pub fn len(&self) -> (n: K)
        ensures
            n.index() == self@.len(),
    {
        self.vec.len()
    }

    /// The number of entries.
    pub fn count(&self) -> (n: usize)
        ensures
            n == self@.len(),
    {
        self.vec.count()
    }

    /// The definition of the entry at `index`. An entry without a definition
    /// gives an error that names it; a poisoned one gives an error that refers
    /// to the earlier failure.
    pub fn get(&self, index: K) -> (r: Result<&T, Error>)
        requires
            index.index() < self@.len(),
        ensures
            match self@[index.index() as int].state {
                DefinitionState::Defined(value) => r == Ok::<&T, Error>(&value),
                DefinitionState::Undefined => r.is_err() && r->Err_0@ == leaf(
                    undefined_text(K::kind_name(), self.spec_name(index)),
                ),
                DefinitionState::Poisoned => r.is_err() && r->Err_0@ == leaf(
                    poisoned_text(K::kind_name(), self.spec_name(index)),
                ),
            },
    {
        let def = self.vec.at(index);
        match &def.state {
            DefinitionState::Defined(value) => Ok(value),
            DefinitionState::Undefined => Err(Self::undefined_error(def.name.as_str())),
            DefinitionState::Poisoned => Err(Self::poisoned_error(def.name.as_str())),
        }
    }

    /// The definition of the entry at `index`, which must be defined.
    pub fn at(&self, index: K) -> (r: &T)
        requires
            self.defined(index),
        ensures
            *r == self.value(index),
    {
        let def = self.vec.at(index);
        match &def.state {
            DefinitionState::Defined(value) => value,
            _ => vstd::pervasive::unreached(),
        }
    }

    /// The definition of the entry at `index`, if it is in the scope and defined.
    pub fn peek(&self, index: K) -> (r: Option<&T>)
        ensures
            r == (if self.defined(index) {
                Some(&self.value(index))
            } else {
                None
            }),
    {
        match self.vec.get(index) {
            Some(def) => match &def.state {
                DefinitionState::Defined(value) => Some(value),
                _ => None,
            },
            None => None,
        }
    }

    /// The definition of the entry at `index` to write to, if the entry is in
    /// the scope and defined. The scope afterwards differs from the scope
    /// before at most in that definition.
    pub fn peek_mut(&mut self, index: K) -> (r: Option<&mut T>)
        ensures
            match r {
                Some(value) => {
                    &&& old(self).defined(index)
                    &&& *value == old(self).value(index)
                    &&& final(self)@ == old(self)@.update(
                        index.index() as int,
                        ScopeEntry {
                            name: old(self).spec_name(index),
                            state: DefinitionState::Defined(*final(value)),
                        },
                    )
                },
                None => !old(self).defined(index) && final(self)@ == old(self)@,
            },
    {
        if !self.is_defined(index) {
            assert(self@ =~= old(self)@);
            return None;
        }
        let ghost before = self@;
        match self.vec.get_mut(index) {
            Some(def) => {
                match &mut def.state {
                    DefinitionState::Defined(value) => {
                        Some(value)
                    },
                    _ => vstd::pervasive::unreached(),
                }
            },
            None => vstd::pervasive::unreached(),
        }
    }

    /// Marks the entry at `index` as failed.
    pub fn poison(&mut self, index: K)
        requires
            index.index() < old(self)@.len(),
        ensures
            final(self)@ == old(self)@.update(
                index.index() as int,
                ScopeEntry { name: old(self).spec_name(index), state: DefinitionState::Poisoned },
            ),
    {
        match self.vec.get_mut(index) {
            Some(def) => {
                def.state = DefinitionState::Poisoned;
            },
            None => {},
        }
        assert(self@ =~= old(self)@.update(
            index.index() as int,
            ScopeEntry { name: old(self).spec_name(index), state: DefinitionState::Poisoned },
        ));
    }

    /// Appends an entry, defined where a value is given, and returns its index.
    pub fn push(&mut self, name: String, value: Option<T>) -> (index: K)
        ensures
            index.index() == old(self)@.len(),
            final(self)@ == old(self)@.push(
                ScopeEntry {
                    name: name@,
                    state: match value {
                        Some(v) => DefinitionState::Defined(v),
                        None => DefinitionState::Undefined,
                    },
                },
            ),
    {
        let state = match value {
            Some(v) => DefinitionState::Defined(v),
            None => DefinitionState::Undefined,
        };
        let index = self.vec.push(Definition { name, state });
        assert(self@ =~= old(self)@.push(ScopeEntry { name: name@, state }));
        index
    }

    /// The name of the entry at `index`.
    pub fn name(&self, index: K) -> (s: &str)
        requires
            index.index() < self@.len(),
        ensures
            s@ == self.spec_name(index),
    {
        self.vec.at(index).name.as_str()
    }

    /// Whether the entry at `index` is marked as failed.
    pub fn poisoned(&self, index: K) -> (b: bool)
        requires
            index.index() < self@.len(),
        ensures
            b == (self@[index.index() as int].state is Poisoned),
    {
        match &self.vec.at(index).state {
            DefinitionState::Poisoned => true,
            _ => false,
        }
    }

    /// Whether the entry at `index` is defined.
    pub fn is_defined(&self, index: K) -> (b: bool)
        ensures
            b == self.defined(index),
    {
        match self.vec.get(index) {
            Some(def) => match &def.state {
                DefinitionState::Defined(_) => true,
                _ => false,
            },
            None => false,
        }
    }

    /// The defined entries, in order: for each its index, its name and its
    /// definition.
    pub fn iter(&self) -> (r: Vec<(K, &str, &T)>)
        ensures
            forall|i: int|
                0 <= i < r@.len() ==> {
                    &&& self.defined((#[trigger] r@[i]).0)
                    &&& r@[i].1@ == self.spec_name(r@[i].0)
                    &&& *r@[i].2 == self.value(r@[i].0)
                },
            forall|i: int, j: int|
                0 <= i < j < r@.len() ==> (#[trigger] r@[i]).0.index() < (#[trigger] r@[j]).0.index(),
            forall|k: int|
                0 <= k < self@.len() && self@[k].state is Defined ==> exists|i: int|
                    0 <= i < r@.len() && (#[trigger] r@[i]).0.index() == k,
    {
        let mut out: Vec<(K, &str, &T)> = Vec::new();
        let n = self.vec.count();
        let mut k: usize = 0;
        while k < n
            invariant
                n == self@.len(),
                n == self.vec@.len(),
                k <= n,
                forall|i: int|
                    0 <= i < out@.len() ==> {
                        &&& self.defined((#[trigger] out@[i]).0)
                        &&& out@[i].1@ == self.spec_name(out@[i].0)
                        &&& *out@[i].2 == self.value(out@[i].0)
                        &&& out@[i].0.index() < k
                    },
                forall|i: int, j: int|
                    0 <= i < j < out@.len() ==> (#[trigger] out@[i]).0.index() < (
                    #[trigger] out@[j]).0.index(),
                forall|m: int|
                    0 <= m < k && self@[m].state is Defined ==> exists|i: int|
                        0 <= i < out@.len() && (#[trigger] out@[i]).0.index() == m,
            decreases n - k,
        {
            let key = K::from_usize(k);
            let def = self.vec.at(key);
            match &def.state {
                DefinitionState::Defined(value) => {
                    let ghost before = out@;
                    out.push((key, def.name.as_str(), value));
                    assert forall|m: int|
                        0 <= m < k + 1 && self@[m].state is Defined implies exists|i: int|
                        0 <= i < out@.len() && (#[trigger] out@[i]).0.index() == m by {
                        if m < k {
                            let i = choose|i: int|
                                0 <= i < before.len() && (#[trigger] before[i]).0.index() == m;
                            assert(out@[i] == before[i]);
                        } else {
                            assert(out@[out@.len() - 1].0.index() == m);
                        }
                    }
                },
                _ => {},
            }
            k += 1;
        }
        out
    }

    /// An error unless the entry at `index` has no definition yet.
    pub fn expect_undefined(&self, index: K) -> (r: Result<(), Error>)
        requires
            index.index() < self@.len(),
        ensures
            self@[index.index() as int].state is Undefined ==> r.is_ok(),
            !(self@[index.index() as int].state is Undefined) ==> r.is_err() && r->Err_0@ == leaf(
                duplicate_text(K::kind_name(), self.spec_name(index)),
            ),
    {
        let def = self.vec.at(index);
        match &def.state {
            DefinitionState::Undefined => Ok(()),
            _ => {
                let mut message = String::from_str("duplicate definition of ");
                message.append(K::kind());
                message.append(" ");
                message.append(quoted(def.name.as_str()).as_str());
                Err(Error::new(message))
            },
        }
    }

    /// Defines the entry at `index`. Where it is defined or poisoned already,
    /// the entry is poisoned and the error says that the definition is a
    /// duplicate.
    pub fn try_define(&mut self, index: K, value: T) -> (r: Result<(), Error>)
        requires
            index.index() < old(self)@.len(),
        ensures
            old(self)@[index.index() as int].state is Undefined ==> r.is_ok() && final(self)@
                == old(self)@.update(
                index.index() as int,
                ScopeEntry {
                    name: old(self).spec_name(index),
                    state: DefinitionState::Defined(value),
                },
            ),
            !(old(self)@[index.index() as int].state is Undefined) ==> r.is_err() && r->Err_0@
                == leaf(duplicate_text(K::kind_name(), old(self).spec_name(index))),
            !(old(self)@[index.index() as int].state is Undefined) ==> final(self)@ == old(self)@.update(
                index.index() as int,
                ScopeEntry { name: old(self).spec_name(index), state: DefinitionState::Poisoned },
            ),
    {
        match self.expect_undefined(index) {
            Err(err) => {
                self.poison(index);
                Err(err)
            },
            Ok(()) => {
                match self.vec.get_mut(index) {
                    Some(def) => {
                        def.state = DefinitionState::Defined(value);
                    },
                    None => {},
                }
                assert(self@ =~= old(self)@.update(
                    index.index() as int,
                    ScopeEntry {
                        name: old(self).spec_name(index),
                        state: DefinitionState::Defined(value),
                    },
                ));
                Ok(())
            },
        }
    }

    /// Defines the entry at `index` with `value` unless it is defined already,
    /// and hands out its definition to write to. The scope afterwards holds at
    /// `index` what is written.
    pub fn or_define(&mut self, index: K, value: T) -> (r: &mut T)
        requires
            index.index() < old(self)@.len(),
        ensures
            old(self).defined(index) ==> *r == old(self).value(index),
            !old(self).defined(index) ==> *r == value,
            final(self)@ == old(self)@.update(
                index.index() as int,
                ScopeEntry {
                    name: old(self).spec_name(index),
                    state: DefinitionState::Defined(*final(r)),
                },
            ),
    {
        if !self.is_defined(index) {
            match self.vec.get_mut(index) {
                Some(def) => {
                    def.state = DefinitionState::Defined(value);
                },
                None => {},
            }
            assert(self@ =~= old(self)@.update(
                index.index() as int,
                ScopeEntry {
                    name: old(self).spec_name(index),
                    state: DefinitionState::Defined(value),
                },
            ));
        }
        match self.peek_mut(index) {
            Some(found) => found,
            None => vstd::pervasive::unreached(),
        }
    }

    /// Replaces the definition of the entry at `index`, which must be defined.
    pub fn replace(&mut self, index: K, value: T)
        requires
            old(self).defined(index),
        ensures
            final(self)@ == old(self)@.update(
                index.index() as int,
                ScopeEntry {
                    name: old(self).spec_name(index),
                    state: DefinitionState::Defined(value),
                },
            ),
    {
        match self.vec.get_mut(index) {
            Some(def) => {
                def.state = DefinitionState::Defined(value);
            },
            None => {},
        }
        assert(self@ =~= old(self)@.update(
            index.index() as int,
            ScopeEntry { name: old(self).spec_name(index), state: DefinitionState::Defined(value) },
        ));
    }

    fn undefined_error(name: &str) -> (e: Error)
        ensures
            e@ == leaf(undefined_text(K::kind_name(), name@)),
    {
        let mut message = String::from_str("undefined ");
        message.append(K::kind());
        message.append(" ");
        message.append(quoted(name).as_str());
        Error::new(message)
    }

    fn poisoned_error(name: &str) -> (e: Error)
        ensures
            e@ == leaf(poisoned_text(K::kind_name(), name@)),
    {
        let mut message = String::from_str("previous error in ");
        message.append(K::kind());
        message.append(" ");
        message.append(quoted(name).as_str());
        Error::new(message)
    }
}

/// Whether `j` is the first position at which a list of names with their
/// positions holds `name`.
pub open spec fn first_match(lookup: Seq<(Seq<char>, usize)>, name: Seq<char>, j: int) -> bool {
    &&& 0 <= j < lookup.len()
    &&& lookup[j].0 == name
    &&& forall|k: int| 0 <= k < j ==> (#[trigger] lookup[k]).0 != name
}

/// The position that a list of names with their positions holds for `name`:
/// that of the first entry of the name, if there is one.
pub open spec fn lookup_find(lookup: Seq<(Seq<char>, usize)>, name: Seq<char>) -> Option<usize> {
    if exists|j: int| first_match(lookup, name, j) {
        Some(lookup[choose|j: int| first_match(lookup, name, j)].1)
    } else {
        None
    }
}

/// The first entry of a name decides what `lookup_find` gives.
pub proof fn lemma_lookup_find(lookup: Seq<(Seq<char>, usize)>, name: Seq<char>, j: int)
    requires
        first_match(lookup, name, j),
    ensures
        lookup_find(lookup, name) == Some(lookup[j].1),
{
    let found = choose|k: int| first_match(lookup, name, k);
    if found < j {
        assert(lookup[found].0 != name);
    } else if j < found {
        assert(lookup[j].0 != name);
    }
}

/// A name that no entry holds has no position.
pub proof fn lemma_lookup_find_none(lookup: Seq<(Seq<char>, usize)>, name: Seq<char>)
    requires
        forall|j: int| 0 <= j < lookup.len() ==> (#[trigger] lookup[j]).0 != name,
    ensures
        lookup_find(lookup, name) is None,
{
    if exists|j: int| first_match(lookup, name, j) {
        let j = choose|j: int| first_match(lookup, name, j);
        assert(lookup[j].0 != name);
    }
}

/// A scope under construction, with the names that it holds so far. A name
/// that is looked up for the first time gets an entry without a definition.
pub struct ScopeBuilder<K: Idx, T> {
    pub scope: Scope<K, T>,
    pub lookup: Vec<(String, K)>,
}

impl<K: Idx, T> Default for ScopeBuilder<K, T> {
    fn default() -> (r: Self)
        ensures
            r.wf(),
            r.scope@.len() == 0,
            r.lookup@.len() == 0,
    {
        ScopeBuilder { scope: Scope::new(), lookup: Vec::new() }
    }
}

impl<K: Idx, T> ScopeBuilder<K, T> {
    /// The validity of a builder: every name that it holds stands for an entry
    /// of its scope.
    pub open spec fn wf(&self) -> bool {
        forall|j: int|
            0 <= j < self.lookup@.len() ==> (#[trigger] self.lookup@[j]).1.index() < self.scope@.len()
    }

    /// The names that the builder holds, each with the position of its entry.
    pub open spec fn lookup_model(&self) -> Seq<(Seq<char>, usize)> {
        Seq::new(self.lookup@.len(), |j: int| (self.lookup@[j].0@, self.lookup@[j].1.index()))
    }

    /// The first position at which the builder holds `name`, if it holds it.
    pub open spec fn position(&self, name: Seq<char>) -> Option<int> {
        if exists|j: int| 0 <= j < self.lookup@.len() && (#[trigger] self.lookup@[j]).0@ == name {
            Some(
                choose|j: int|
                    0 <= j < self.lookup@.len() && (#[trigger] self.lookup@[j]).0@ == name
                        && forall|k: int| 0 <= k < j ==> (#[trigger] self.lookup@[k]).0@ != name,
            )
        } else {
            None
        }
    }

    /// The index that the builder holds for `name`, if it holds one.
    pub fn find(&self, name: &str) -> (r: Option<K>)
        ensures
            match r {
                Some(key) => exists|j: int|
                    0 <= j < self.lookup@.len() && (#[trigger] self.lookup@[j]).0@ == name@
                        && self.lookup@[j].1 == key && forall|k: int|
                        0 <= k < j ==> (#[trigger] self.lookup@[k]).0@ != name@,
                None => forall|j: int|
                    0 <= j < self.lookup@.len() ==> (#[trigger] self.lookup@[j]).0@ != name@,
            },
            match r {
                Some(key) => lookup_find(self.lookup_model(), name@) == Some(key.index()),
                None => lookup_find(self.lookup_model(), name@) is None,
            },
    {
        let mut i: usize = 0;
        while i < self.lookup.len()
            invariant
                i <= self.lookup@.len(),
                forall|j: int| 0 <= j < i ==> (#[trigger] self.lookup@[j]).0@ != name@,
            decreases self.lookup@.len() - i,
        {
            if str_eq(self.lookup[i].0.as_str(), name) {
                proof {
                    let model = self.lookup_model();
                    assert forall|k: int| 0 <= k < i implies (#[trigger] model[k]).0 != name@ by {
                        assert(self.lookup@[k].0@ != name@);
                    }
                    lemma_lookup_find(model, name@, i as int);
                }
                return Some(self.lookup[i].1);
            }
            i += 1;
        }
        proof {
            let model = self.lookup_model();
            assert forall|k: int| 0 <= k < model.len() implies (#[trigger] model[k]).0 != name@ by {
                assert(self.lookup@[k].0@ != name@);
            }
            lemma_lookup_find_none(model, name@);
        }
        None
    }

    /// Holds `name` for the entry at `key` from now on.
    pub fn remember(&mut self, name: &str, key: K)
        requires
            old(self).wf(),
            key.index() < old(self).scope@.len(),
        ensures
            final(self).wf(),
            final(self).scope == old(self).scope,
            final(self).lookup@.len() == old(self).lookup@.len() + 1,
            forall|j: int|
                0 <= j < old(self).lookup@.len() ==> #[trigger] final(self).lookup@[j] == old(self).lookup@[j],
            final(self).lookup@.last().0@ == name@,
            final(self).lookup@.last().1 == key,
            final(self).lookup_model() == old(self).lookup_model().push((name@, key.index())),
    {
        self.lookup.push((String::from_str(name), key));
        assert(self.lookup_model() =~= old(self).lookup_model().push((name@, key.index())));
    }

    /// The index of the entry of `name`: the one that the builder holds, or that
    /// of a new entry without a definition.
    pub fn get(&mut self, name: &str) -> (key: K)
        requires
            old(self).wf(),
        ensures
            final(self).wf(),
            key.index() < final(self).scope@.len(),
            match old(self).find_spec(name@) {
                Some(found) => key == found && final(self).scope@ == old(self).scope@ && final(self).lookup@ == old(self).lookup@,
                None => key.index() == old(self).scope@.len() && final(self).scope@ == old(self).scope@.push(ScopeEntry { name: name@, state: DefinitionState::Undefined })
                    && final(self).lookup@.len() == old(self).lookup@.len() + 1,
            },
            match lookup_find(old(self).lookup_model(), name@) {
                Some(found) => key.index() == found && final(self).scope@ == old(self).scope@
                    && final(self).lookup_model() == old(self).lookup_model(),
                None => key.index() == old(self).scope@.len() && final(self).scope@ == old(self).scope@.push(ScopeEntry { name: name@, state: DefinitionState::Undefined })
                    && final(self).lookup_model() == old(self).lookup_model().push(
                    (name@, key.index()),
                ),
            },
    {
        match self.find(name) {
            Some(key) => {
                proof {
                    let j = choose|j: int|
                        0 <= j < self.lookup@.len() && (#[trigger] self.lookup@[j]).0@ == name@
                            && self.lookup@[j].1 == key && forall|k: int|
                            0 <= k < j ==> (#[trigger] self.lookup@[k]).0@ != name@;
                    self.lemma_find(name@, j);
                }
                key
            },
            None => {
                proof {
                    self.lemma_find_none(name@);
                }
                let key = self.scope.push(String::from_str(name), None);
                self.lookup.push((String::from_str(name), key));
                assert(self.lookup_model() =~= old(self).lookup_model().push((name@, key.index())));
                key
            },
        }
    }

    /// The index that the builder holds for `name`, if it holds one.
    pub open spec fn find_spec(&self, name: Seq<char>) -> Option<K> {
        match self.position(name) {
            Some(j) => Some(self.lookup@[j].1),
            None => None,
        }
    }

    /// The first position of a name is the position that `find_spec` reads.
    pub proof fn lemma_find(&self, name: Seq<char>, j: int)
        requires
            0 <= j < self.lookup@.len(),
            self.lookup@[j].0@ == name,
            forall|k: int| 0 <= k < j ==> (#[trigger] self.lookup@[k]).0@ != name,
        ensures
            self.find_spec(name) == Some(self.lookup@[j].1),
    {
        let found = self.position(name)->0;
        if found < j {
            assert(self.lookup@[found].0@ != name);
        } else if j < found {
            assert(self.lookup@[j].0@ != name);
        }
    }

    /// A name that the builder does not hold has no index.
    pub proof fn lemma_find_none(&self, name: Seq<char>)
        requires
            forall|j: int| 0 <= j < self.lookup@.len() ==> (#[trigger] self.lookup@[j]).0@ != name,
        ensures
            self.find_spec(name) is None,
    {
    }

    /// Whether the builder holds no name.
    pub open spec fn is_empty(&self) -> bool {
        self.lookup@.len() == 0
    }

    /// States that the builder holds no name: a builder is used for one
    /// declaration at a time, and `finish` leaves it empty.
    pub fn ensure_empty(&self)
        requires
            self.is_empty(),
        ensures
            self.find_spec(Seq::empty()) is None,
    {
    }

    /// Hands out the scope and leaves the builder empty.
    pub fn finish(&mut self) -> (scope: Scope<K, T>)
        ensures
            scope@ == old(self).scope@,
            final(self).scope@.len() == 0,
            final(self).lookup@.len() == 0,
            final(self).wf(),
            final(self).lookup_model() == Seq::<(Seq<char>, usize)>::empty(),
    {
        self.lookup.clear();
        assert(self.lookup_model() =~= Seq::<(Seq<char>, usize)>::empty());
        let mut scope = Scope::new();
        core::mem::swap(&mut scope, &mut self.scope);
        scope
    }
}

/// Whether two string slices hold the same characters.
pub fn str_eq(a: &str, b: &str) -> (r: bool)
    ensures
        r == (a@ == b@),
{
    let n = a.unicode_len();
    if n != b.unicode_len() {
        return false;
    }
    let mut i: usize = 0;
    while i < n
        invariant
            n == a@.len(),
            n == b@.len(),
            i <= n,
            forall|k: int| 0 <= k < i ==> a@[k] == b@[k],
        decreases n - i,
    {
        if a.get_char(i) != b.get_char(i) {
            return false;
        }
        i += 1;
    }
    assert(a@ =~= b@);
    true
}

} // verus!
