//! Runtime values and the variable store.

use vstd::prelude::*;

use crate::commands::{cmds_view, Command, CommandView};
use crate::tokens::strs_view;

verus! {

/// A runtime datum stored in a variable: a number, a string, an array of
/// either, a declared function (parameter names plus body), or a boolean.
#[derive(Debug)]
pub enum Value {
    String(String),
    Number(i64),
    ArrayString(Vec<String>),
    ArrayNumber(Vec<i64>),
    Function(Vec<String>, Vec<Command>),
    Boolean(bool),
}

/// The mathematical model of a `Value`.
pub enum ValueView {
    String(Seq<char>),
    Number(i64),
    ArrayString(Seq<Seq<char>>),
    ArrayNumber(Seq<i64>),
    Function(Seq<Seq<char>>, Seq<CommandView>),
    Boolean(bool),
}

/// Model of a single value.
pub open spec fn val_view(v: Value) -> ValueView {
    match v {
        Value::String(s) => ValueView::String(s@),
        Value::Number(n) => ValueView::Number(n),
        Value::ArrayString(a) => ValueView::ArrayString(strs_view(a@)),
        Value::ArrayNumber(a) => ValueView::ArrayNumber(a@),
        Value::Function(params, body) => ValueView::Function(strs_view(params@), cmds_view(body@)),
        Value::Boolean(b) => ValueView::Boolean(b),
    }
}

/// No two entries of the store carry the same name.
pub open spec fn keys_unique(s: Seq<(String, Value)>) -> bool {
    forall|i: int, j: int| 0 <= i < j < s.len() ==> s[i].0@ != s[j].0@
}

/// Some entry of `s` carries the name `k`.
pub open spec fn has_name(s: Seq<(String, Value)>, k: Seq<char>) -> bool {
    exists|i: int| 0 <= i < s.len() && s[i].0@ == k
}

/// The index of the entry carrying `k` (meaningful when `has_name` holds).
pub open spec fn name_index(s: Seq<(String, Value)>, k: Seq<char>) -> int {
    choose|i: int| 0 <= i < s.len() && s[i].0@ == k
}

/// The mapping from names to value models that an entry sequence denotes.
pub open spec fn map_of(s: Seq<(String, Value)>) -> Map<Seq<char>, ValueView> {
    Map::new(|k: Seq<char>| has_name(s, k), |k: Seq<char>| val_view(s[name_index(s, k)].1))
}

pub proof fn lemma_name_index(s: Seq<(String, Value)>, i: int)
    requires
        keys_unique(s),
        0 <= i < s.len(),
    ensures
        has_name(s, s[i].0@),
        name_index(s, s[i].0@) == i,
        map_of(s).contains_key(s[i].0@),
        map_of(s)[s[i].0@] == val_view(s[i].1),
{
    let k = s[i].0@;
    assert(has_name(s, k));
    let j = name_index(s, k);
    if j != i {
        assert(s[i].0@ != s[j].0@);
    }
}

/// The single, global name-to-value store of an interpreter run. A name
/// maps to at most one value at a time; writing an already-bound name
/// overwrites the binding and hands back the previous value.
pub struct State {
    pub variables: Vec<(String, Value)>,
}

impl View for State {
    type V = Map<Seq<char>, ValueView>;

    open spec fn view(&self) -> Map<Seq<char>, ValueView> {
        map_of(self.variables@)
    }
}

impl State {
    /// The store is well formed when its names are pairwise distinct.
    pub open spec fn wf(&self) -> bool {
        keys_unique(self.variables@)
    }

    /// An empty store.
    pub fn new() -> (r: State)
        ensures
            r.wf(),
            r@ == Map::<Seq<char>, ValueView>::empty(),
    {
        let r = State { variables: Vec::new() };
        proof {
            assert(r@ =~= Map::<Seq<char>, ValueView>::empty());
        }
        r
    }

    /// The index of the entry named `name`, if one exists.
    fn find_index(&self, name: &String) -> (r: Option<usize>)
        ensures
            match r {
                Some(i) => i < self.variables@.len() && self.variables@[i as int].0@ == name@,
                None => !has_name(self.variables@, name@),
            },
    {
        let n = self.variables.len();
        let mut i: usize = 0;
        while i < n
            invariant
                i <= n,
                n == self.variables@.len(),
                forall|j: int| 0 <= j < i ==> self.variables@[j].0@ != name@,
            decreases n - i,
        {
            if self.variables[i].0 == *name {
                return Some(i);
            }
            i = i + 1;
        }
        None
    }

    /// Binds `name` to `value`, overwriting any prior binding, and returns
    /// the previous value if one existed.
    pub fn add_variable(&mut self, name: &String, value: Value) -> (r: Option<Value>)
        requires
            old(self).wf(),
        ensures
            final(self).wf(),
            final(self)@ == old(self)@.insert(name@, val_view(value)),
            match r {
                Some(v) => old(self)@.contains_key(name@) && val_view(v) == old(self)@[name@],
                None => !old(self)@.contains_key(name@),
            },
    {
        let ghost s_old = self.variables@;
        match self.find_index(name) {
            Some(i) => {
                proof {
                    lemma_name_index(s_old, i as int);
                }
                let pair = self.variables.remove(i);
                self.variables.insert(i, (name.clone(), value));
                proof {
                    let s_new = self.variables@;
                    assert(s_new =~= s_old.update(i as int, s_new[i as int]));
                    assert forall|a: int, b: int| 0 <= a < b < s_new.len() implies s_new[a].0@
                        != s_new[b].0@ by {
                        assert(s_old[a].0@ != s_old[b].0@);
                    }
                    assert(self@ =~= old(self)@.insert(name@, val_view(value))) by {
                        assert forall|k: Seq<char>| true implies (has_name(s_new, k) == (has_name(
                            s_old,
                            k,
                        ) || k == name@)) by {
                            if has_name(s_new, k) {
                                let a = choose|a: int|
                                    0 <= a < s_new.len() && s_new[a].0@ == k;
                                assert(s_old[a].0@ == k || k == name@);
                            }
                            if has_name(s_old, k) {
                                let a = choose|a: int|
                                    0 <= a < s_old.len() && s_old[a].0@ == k;
                                assert(s_new[a].0@ == k);
                            }
                            if k == name@ {
                                assert(s_new[i as int].0@ == k);
                            }
                        }
                        assert forall|k: Seq<char>| has_name(s_new, k) implies map_of(s_new)[k]
                            == old(self)@.insert(name@, val_view(value))[k] by {
                            if k == name@ {
                                lemma_name_index(s_new, i as int);
                            } else {
                                let a = choose|a: int|
                                    0 <= a < s_new.len() && s_new[a].0@ == k;
                                lemma_name_index(s_new, a);
                                lemma_name_index(s_old, a);
                            }
                        }
                    }
                }
                Some(pair.1)
            },
            None => {
                self.variables.push((name.clone(), value));
                proof {
                    let s_new = self.variables@;
                    let i = s_old.len() as int;
                    assert(s_new[i].0@ == name@);
                    assert forall|a: int, b: int| 0 <= a < b < s_new.len() implies s_new[a].0@
                        != s_new[b].0@ by {
                        if b < i {
                            assert(s_old[a].0@ != s_old[b].0@);
                        } else {
                            assert(s_new[a] == s_old[a]);
                            assert(!has_name(s_old, name@));
                        }
                    }
                    assert(self@ =~= old(self)@.insert(name@, val_view(value))) by {
                        assert forall|k: Seq<char>| true implies (has_name(s_new, k) == (has_name(
                            s_old,
                            k,
                        ) || k == name@)) by {
                            if has_name(s_new, k) {
                                let a = choose|a: int|
                                    0 <= a < s_new.len() && s_new[a].0@ == k;
                                if a < i {
                                    assert(s_old[a].0@ == k);
                                }
                            }
                            if has_name(s_old, k) {
                                let a = choose|a: int|
                                    0 <= a < s_old.len() && s_old[a].0@ == k;
                                assert(s_new[a].0@ == k);
                            }
                        }
                        assert forall|k: Seq<char>| has_name(s_new, k) implies map_of(s_new)[k]
                            == old(self)@.insert(name@, val_view(value))[k] by {
                            if k == name@ {
                                lemma_name_index(s_new, i);
                            } else {
                                let a = choose|a: int|
                                    0 <= a < s_new.len() && s_new[a].0@ == k;
                                lemma_name_index(s_new, a);
                                lemma_name_index(s_old, a);
                            }
                        }
                    }
                    if has_name(s_old, name@) {
                        let a = choose|a: int| 0 <= a < s_old.len() && s_old[a].0@ == name@;
                        assert(false);
                    }
                }
                None
            },
        }
    }

    /// The current value bound to `name`, if any.
    pub fn get_variable(&self, name: &String) -> (r: Option<&Value>)
        requires
            self.wf(),
        ensures
            match r {
                Some(v) => self@.contains_key(name@) && val_view(*v) == self@[name@],
                None => !self@.contains_key(name@),
            },
    {
        match self.find_index(name) {
            Some(i) => {
                proof {
                    lemma_name_index(self.variables@, i as int);
                }
                Some(&self.variables[i].1)
            },
            None => None,
        }
    }
}

} // verus!
