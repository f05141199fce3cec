//! The environment: the one table from names to values.

use super::model::{bind_all, restore_model, Table};
use super::prim::{arg_models, Prim};
use super::{symbol_models, Object, ObjectModel, Symbol};
use crate::lexer::Span;
use vstd::prelude::*;

verus! {

/// The table from names to values. There is one scope; a definition of a
/// name that is already bound replaces its value.
///
/// The entries are kept in a vector, no two under the same name: vstd has
/// no model of how a string hashes, so nothing could be proved of a hash
/// map with such keys.
#[derive(Debug)]
pub struct Env {
    defines: Vec<(Symbol, Object)>,
}

/// Whether some entry of `entries` is filed under `key`.
pub open spec fn has_key(entries: Seq<(Symbol, Object)>, key: Seq<char>) -> bool {
    exists|i: int| 0 <= i < entries.len() && (#[trigger] entries[i]).0@ == key
}

/// The position of an entry of `entries` that is filed under `key`.
pub open spec fn position_of(entries: Seq<(Symbol, Object)>, key: Seq<char>) -> int {
    choose|i: int| 0 <= i < entries.len() && (#[trigger] entries[i]).0@ == key
}

/// No two entries are filed under the same name.
pub open spec fn distinct_keys(entries: Seq<(Symbol, Object)>) -> bool {
    forall|i: int, j: int|
        0 <= i < j < entries.len() ==> (#[trigger] entries[i]).0@ != (#[trigger] entries[j]).0@
}

/// The table that the entries spell out.
pub open spec fn table_of(entries: Seq<(Symbol, Object)>) -> Map<Seq<char>, ObjectModel> {
    Map::new(
        |key: Seq<char>| has_key(entries, key),
        |key: Seq<char>| entries[position_of(entries, key)].1@,
    )
}

/// The table with which every environment starts: the four operators under
/// their signs.
pub open spec fn seed() -> Map<Seq<char>, ObjectModel> {
    Map::<Seq<char>, ObjectModel>::empty().insert("+"@, ObjectModel::PrimOp(Prim::Add)).insert(
        "*"@,
        ObjectModel::PrimOp(Prim::Mul),
    ).insert("-"@, ObjectModel::PrimOp(Prim::Sub)).insert("/"@, ObjectModel::PrimOp(Prim::Div))
}

/// The models of values that were set aside, one for each parameter: the
/// value that the parameter had, or nothing when it was not bound.
pub open spec fn saved_models(saved: Seq<Option<Object>>) -> Seq<Option<ObjectModel>> {
    Seq::new(
        saved.len(),
        |i: int|
            match saved[i] {
                Some(value) => Some(value@),
                None => None,
            },
    )
}

/// What the names `params` are bound to in `env`, name by name.
pub open spec fn snapshot(env: Table, params: Seq<Seq<char>>) -> Seq<Option<ObjectModel>> {
    Seq::new(
        params.len(),
        |i: int|
            if env.contains_key(params[i]) {
                Some(env[params[i]])
            } else {
                None
            },
    )
}

/// The environment `env` with each of the names `params` put back to what
/// `saved` holds for it: bound to the value set aside, or unbound.
pub open spec fn restore_saved(
    env: Table,
    params: Seq<Seq<char>>,
    saved: Seq<Option<ObjectModel>>,
) -> Table
    decreases params.len(),
{
    if params.len() == 0 || saved.len() != params.len() {
        env
    } else {
        let rest = restore_saved(env, params.drop_last(), saved.drop_last());
        match saved.last() {
            Some(value) => rest.insert(params.last(), value),
            None => rest.remove(params.last()),
        }
    }
}

/// Putting back a snapshot of `before` binds every parameter as `before`
/// did and leaves every other name alone.
pub proof fn lemma_restore_snapshot(after: Table, before: Table, params: Seq<Seq<char>>)
    ensures
        restore_saved(after, params, snapshot(before, params)) == restore_model(
            after,
            before,
            params,
        ),
    decreases params.len(),
{
    let saved = snapshot(before, params);
    if params.len() == 0 {
        assert(restore_model(after, before, params) =~= after);
    } else {
        let shorter = params.drop_last();
        lemma_restore_snapshot(after, before, shorter);
        assert(saved.drop_last() =~= snapshot(before, shorter));
        assert forall|name: Seq<char>|
            params.contains(name) == (shorter.contains(name) || name == params.last()) by {
            if params.contains(name) {
                let i = choose|i: int| 0 <= i < params.len() && params[i] == name;
                if i < shorter.len() {
                    assert(shorter[i] == name);
                }
            }
            if shorter.contains(name) {
                let i = choose|i: int| 0 <= i < shorter.len() && shorter[i] == name;
                assert(params[i] == name);
            }
            if name == params.last() {
                assert(params[params.len() - 1] == name);
            }
        }
        assert(restore_saved(after, params, saved) =~= restore_model(after, before, params));
    }
}

/// With distinct names, the entry at a position is the entry of its name.
proof fn lemma_entry(entries: Seq<(Symbol, Object)>, i: int)
    requires
        distinct_keys(entries),
        0 <= i < entries.len(),
    ensures
        has_key(entries, entries[i].0@),
        position_of(entries, entries[i].0@) == i,
        table_of(entries)[entries[i].0@] == entries[i].1@,
{
    let key = entries[i].0@;
    let j = position_of(entries, key);
    assert(entries[j].0@ == key);
    if j < i {
        assert(entries[j].0@ != entries[i].0@);
    } else if i < j {
        assert(entries[i].0@ != entries[j].0@);
    }
}

impl View for Env {
    type V = Map<Seq<char>, ObjectModel>;

    closed spec fn view(&self) -> Map<Seq<char>, ObjectModel> {
        table_of(self.defines@)
    }
}

impl Default for Env {
    /// The environment in which the four operators are bound and nothing
    /// else.
    fn default() -> (r: Env)
        ensures
            r@ == seed(),
    {
        let mut env = Env { defines: Vec::new() };
        assert(env@ =~= Map::<Seq<char>, ObjectModel>::empty());
        env.define(Symbol("+".to_owned()), Object::PrimOp(Prim::Add));
        env.define(Symbol("*".to_owned()), Object::PrimOp(Prim::Mul));
        env.define(Symbol("-".to_owned()), Object::PrimOp(Prim::Sub));
        env.define(Symbol("/".to_owned()), Object::PrimOp(Prim::Div));
        env
    }
}

impl Env {
    #[verifier::type_invariant]
    spec fn well_formed(&self) -> bool {
        distinct_keys(self.defines@)
    }

    /// The position of the entry of `name`, or the number of entries when
    /// the name is not bound.
    fn find(&self, name: &Symbol) -> (i: usize)
        ensures
            i <= self.defines.len(),
            i < self.defines.len() ==> self.defines[i as int].0@ == name@,
            i == self.defines.len() ==> !has_key(self.defines@, name@),
    {
        let mut i: usize = 0;
        while i < self.defines.len()
            invariant
                i <= self.defines.len(),
                forall|j: int| 0 <= j < i ==> (#[trigger] self.defines[j]).0@ != name@,
            decreases self.defines.len() - i,
        {
            if self.defines[i].0.0 == name.0 {
                return i;
            }
            i += 1;
        }
        i
    }

    /// The value that `name` is bound to, if it is bound.
    pub fn lookup(&self, name: &Symbol) -> (r: Option<Object>)
        ensures
            match r {
                Some(value) => self@.contains_key(name@) && value@ == self@[name@],
                None => !self@.contains_key(name@),
            },
    {
        let i = self.find(name);
        if i < self.defines.len() {
            proof {
                use_type_invariant(self);
                lemma_entry(self.defines@, i as int);
            }
            Some(self.defines[i].1.clone())
        } else {
            None
        }
    }

    /// Binds `name` to `value`, whether or not it was bound before, and
    /// gives the empty value.
    pub fn define(&mut self, name: Symbol, value: Object) -> (r: Object)
        ensures
            final(self)@ == old(self)@.insert(name@, value@),
            r@ == ObjectModel::Nil,
    {
        let i = self.find(&name);
        let ghost before = self.defines@;
        proof {
            use_type_invariant(&*self);
        }
        let mut entries: Vec<(Symbol, Object)> = Vec::new();
        core::mem::swap(&mut self.defines, &mut entries);
        if i < entries.len() {
            entries.set(i, (name, value));
        } else {
            entries.push((name, value));
        }
        proof {
            assert(distinct_keys(entries@)) by {
                assert forall|a: int, b: int| 0 <= a < b < entries.len() implies (
                #[trigger] entries[a]).0@ != (#[trigger] entries[b]).0@ by {
                    if a < before.len() && b < before.len() {
                        assert(before[a].0@ != before[b].0@);
                    }
                }
            }
        }
        self.defines = entries;
        proof {
            let after = self.defines@;
            assert(distinct_keys(after));
            assert forall|key: Seq<char>| has_key(after, key) == (key == name@ || has_key(
                before,
                key,
            )) by {
                if has_key(after, key) {
                    let j = position_of(after, key);
                    if j != i {
                        assert(before[j].0@ == key);
                    }
                }
                if key == name@ {
                    assert(after[i as int].0@ == key);
                }
                if has_key(before, key) {
                    let j = position_of(before, key);
                    if j != i {
                        assert(after[j].0@ == key);
                    } else {
                        assert(after[i as int].0@ == key);
                    }
                }
            }
            assert forall|key: Seq<char>| has_key(after, key) implies table_of(after)[key]
                == table_of(before).insert(name@, value@)[key] by {
                let j = position_of(after, key);
                lemma_entry(after, j);
                if j != i {
                    lemma_entry(before, j);
                }
            }
            assert(table_of(after) =~= table_of(before).insert(name@, value@));
        }
        Object::Nil
    }

    /// Takes the binding of `name` away, if there is one.
    pub(crate) fn unbind(&mut self, name: &Symbol)
        ensures
            final(self)@ == old(self)@.remove(name@),
    {
        let i = self.find(name);
        let ghost before = self.defines@;
        proof {
            use_type_invariant(&*self);
        }
        if i < self.defines.len() {
            let mut entries: Vec<(Symbol, Object)> = Vec::new();
            core::mem::swap(&mut self.defines, &mut entries);
            entries.remove(i);
            proof {
                assert(distinct_keys(entries@)) by {
                    assert forall|a: int, b: int| 0 <= a < b < entries.len() implies (
                    #[trigger] entries[a]).0@ != (#[trigger] entries[b]).0@ by {
                        let x = if a < i { a } else { a + 1 };
                        let y = if b < i { b } else { b + 1 };
                        assert(before[x].0@ != before[y].0@);
                    }
                }
            }
            self.defines = entries;
            proof {
                let after = self.defines@;
                assert forall|key: Seq<char>| has_key(after, key) == (key != name@ && has_key(
                    before,
                    key,
                )) by {
                    if has_key(after, key) {
                        let j = position_of(after, key);
                        let x = if j < i { j } else { j + 1 };
                        assert(before[x].0@ == key);
                        if x < i {
                            assert(before[x].0@ != before[i as int].0@);
                        } else {
                            assert(before[i as int].0@ != before[x].0@);
                        }
                    }
                    if key != name@ && has_key(before, key) {
                        let j = position_of(before, key);
                        let x = if j < i { j } else { j - 1 };
                        assert(after[x].0@ == key);
                    }
                }
                assert forall|key: Seq<char>| has_key(after, key) implies table_of(after)[key]
                    == table_of(before)[key] by {
                    let j = position_of(after, key);
                    lemma_entry(after, j);
                    let x = if j < i { j } else { j + 1 };
                    lemma_entry(before, x);
                }
                assert(table_of(after) =~= table_of(before).remove(name@));
            }
        } else {
            assert(table_of(before) =~= table_of(before).remove(name@));
        }
    }

    /// Sets aside what the names `params` are bound to.
    pub(crate) fn save(&self, params: &Vec<Symbol>) -> (saved: Vec<Option<Object>>)
        ensures
            saved_models(saved@) == snapshot(self@, symbol_models(params@)),
    {
        let mut saved: Vec<Option<Object>> = Vec::new();
        let mut i: usize = 0;
        while i < params.len()
            invariant
                i <= params.len(),
                saved.len() == i,
                forall|j: int|
                    0 <= j < i ==> (#[trigger] saved_models(saved@)[j]) == snapshot(
                        self@,
                        symbol_models(params@),
                    )[j],
            decreases params.len() - i,
        {
            let ghost before = saved@;
            let found = self.lookup(&params[i]);
            saved.push(found);
            proof {
                assert forall|j: int| 0 <= j < i + 1 implies (#[trigger] saved_models(saved@)[j])
                    == snapshot(self@, symbol_models(params@))[j] by {
                    if j < i {
                        assert(saved_models(before)[j] == snapshot(
                            self@,
                            symbol_models(params@),
                        )[j]);
                    }
                }
            }
            i += 1;
        }
        assert(saved_models(saved@) =~= snapshot(self@, symbol_models(params@)));
        saved
    }

    /// Binds each of the names `params` to the value at its position.
    pub(crate) fn bind(&mut self, params: &Vec<Symbol>, values: &Vec<(Object, Span)>)
        requires
            params.len() == values.len(),
        ensures
            final(self)@ == bind_all(old(self)@, symbol_models(params@), arg_models(values@)),
    {
        let ghost names = symbol_models(params@);
        let ghost args = arg_models(values@);
        let mut i: usize = 0;
        proof {
            assert(names.take(0) =~= Seq::empty());
        }
        while i < params.len()
            invariant
                i <= params.len(),
                params.len() == values.len(),
                names == symbol_models(params@),
                args == arg_models(values@),
                self@ == bind_all(old(self)@, names.take(i as int), args.take(i as int)),
            decreases params.len() - i,
        {
            self.define(params[i].clone(), values[i].0.clone());
            proof {
                assert(names.take(i + 1).drop_last() =~= names.take(i as int));
                assert(args.take(i + 1).drop_last() =~= args.take(i as int));
            }
            i += 1;
        }
        proof {
            assert(names.take(i as int) =~= names);
            assert(args.take(i as int) =~= args);
        }
    }

    /// Puts each of the names `params` back to what `saved` holds for it.
    pub(crate) fn restore(&mut self, params: &Vec<Symbol>, saved: &Vec<Option<Object>>)
        requires
            params.len() == saved.len(),
        ensures
            final(self)@ == restore_saved(
                old(self)@,
                symbol_models(params@),
                saved_models(saved@),
            ),
    {
        let ghost names = symbol_models(params@);
        let ghost held = saved_models(saved@);
        let mut i: usize = 0;
        proof {
            assert(names.take(0) =~= Seq::empty());
        }
        while i < params.len()
            invariant
                i <= params.len(),
                params.len() == saved.len(),
                names == symbol_models(params@),
                held == saved_models(saved@),
                self@ == restore_saved(old(self)@, names.take(i as int), held.take(i as int)),
            decreases params.len() - i,
        {
            match &saved[i] {
                Some(value) => {
                    self.define(params[i].clone(), value.clone());
                },
                None => {
                    self.unbind(&params[i]);
                },
            }
            proof {
                assert(names.take(i + 1).drop_last() =~= names.take(i as int));
                assert(held.take(i + 1).drop_last() =~= held.take(i as int));
            }
            i += 1;
        }
        proof {
            assert(names.take(i as int) =~= names);
            assert(held.take(i as int) =~= held);
        }
    }
}

} // verus!
