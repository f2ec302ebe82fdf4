//! Scopes of variables: a chain from the innermost scope out to the global
//! one.

use vstd::prelude::*;
use crate::object::{Object, Value};
use crate::runtime_error::InterpreterError;
use crate::token::Token;

verus! {

/// The bindings of one scope; a later entry for a name hides an earlier one.
pub open spec fn scope_map(v: Seq<(String, Object)>) -> Map<Seq<char>, Value>
    decreases v.len(),
{
    if v.len() == 0 {
        Map::empty()
    } else {
        scope_map(v.drop_last()).insert(v.last().0@, v.last().1@)
    }
}

/// The value of `name` in the innermost scope that binds it.
pub open spec fn lookup(scopes: Seq<Map<Seq<char>, Value>>, name: Seq<char>) -> Option<Value>
    decreases scopes.len(),
{
    if scopes.len() == 0 {
        None
    } else if scopes[0].contains_key(name) {
        Some(scopes[0][name])
    } else {
        lookup(scopes.drop_first(), name)
    }
}

/// The scopes after `name` is set to `v` in the innermost scope that binds
/// it; unchanged when none does.
pub open spec fn assign_in(scopes: Seq<Map<Seq<char>, Value>>, name: Seq<char>, v: Value) -> Seq<
    Map<Seq<char>, Value>,
>
    decreases scopes.len(),
{
    if scopes.len() == 0 {
        scopes
    } else if scopes[0].contains_key(name) {
        scopes.update(0, scopes[0].insert(name, v))
    } else {
        seq![scopes[0]] + assign_in(scopes.drop_first(), name, v)
    }
}

/// The scopes after `name` is bound to `v` in the innermost scope.
pub open spec fn define_in(scopes: Seq<Map<Seq<char>, Value>>, name: Seq<char>, v: Value) -> Seq<
    Map<Seq<char>, Value>,
> {
    scopes.update(0, scopes[0].insert(name, v))
}

proof fn lemma_scope_update(v: Seq<(String, Object)>, j: int, p: (String, Object))
    requires
        0 <= j < v.len(),
        v[j].0@ == p.0@,
        forall|k: int| j < k < v.len() ==> v[k].0@ != p.0@,
    ensures
        scope_map(v.update(j, p)) == scope_map(v).insert(p.0@, p.1@),
    decreases v.len(),
{
    let w = v.update(j, p);
    if j == v.len() - 1 {
        assert(w.drop_last() =~= v.drop_last());
        assert(scope_map(w) =~= scope_map(v).insert(p.0@, p.1@));
    } else {
        assert(w.drop_last() =~= v.drop_last().update(j, p));
        lemma_scope_update(v.drop_last(), j, p);
        assert(scope_map(w) =~= scope_map(v).insert(p.0@, p.1@));
    }
}

pub struct Environment {
    values: Vec<(String, Object)>,
    enclosing: Option<Box<Environment>>,
}

impl Environment {
    /// The scopes of the chain, innermost first.
    pub closed spec fn scopes(&self) -> Seq<Map<Seq<char>, Value>>
        decreases self,
    {
        seq![scope_map(self.values@)] + match &self.enclosing {
            Some(e) => e.scopes(),
            None => seq![],
        }
    }

    proof fn lemma_scopes(&self)
        ensures
            self.scopes().len() >= 1,
            self.scopes()[0] == scope_map(self.values@),
            self.enclosing is None ==> self.scopes().len() == 1,
            self.enclosing matches Some(e) ==> self.scopes().drop_first() == e.scopes(),
    {
        match &self.enclosing {
            Some(e) => assert(self.scopes().drop_first() =~= e.scopes()),
            None => {},
        }
    }

    /// A chain holds at least one scope.
    pub proof fn lemma_nonempty(&self)
        ensures
            self.scopes().len() >= 1,
    {
        self.lemma_scopes();
    }

    /// A global scope with no bindings.
    pub fn new() -> (r: Environment)
        ensures
            r.scopes() == seq![Map::<Seq<char>, Value>::empty()],
    {
        let r = Environment { values: Vec::new(), enclosing: None };
        assert(r.scopes() =~= seq![Map::<Seq<char>, Value>::empty()]);
        r
    }

    /// An empty scope inside `enclosing`.
    pub fn from_enclosing(enclosing: Environment) -> (r: Environment)
        ensures
            r.scopes() == seq![Map::<Seq<char>, Value>::empty()] + enclosing.scopes(),
    {
        Environment { values: Vec::new(), enclosing: Some(Box::new(enclosing)) }
    }

    /// The enclosing chain, without the innermost scope.
    pub fn into_enclosing(self) -> (r: Environment)
        requires
            self.scopes().len() >= 2,
        ensures
            r.scopes() == self.scopes().drop_first(),
    {
        proof {
            self.lemma_scopes();
        }
        match self.enclosing {
            Some(e) => *e,
            None => Environment::new(),
        }
    }

    /// Binds `name` to `value` in the innermost scope, over any binding of
    /// it there.
    pub fn define(&mut self, name: String, value: Object)
        ensures
            final(self).scopes() == define_in(old(self).scopes(), name@, value@),
    {
        proof {
            self.lemma_scopes();
        }
        let ghost v0 = self.values@;
        let ghost p = (name, value);
        self.values.push((name, value));
        proof {
            assert(self.values@.drop_last() =~= v0);
            self.lemma_scopes();
            assert(self.scopes() =~= define_in(old(self).scopes(), name@, value@));
        }
    }

    /// The position of the last entry for `name` in the innermost scope.
    fn find(&self, name: &String) -> (r: Option<usize>)
        ensures
            r is None ==> !scope_map(self.values@).contains_key(name@),
            r matches Some(j) ==> j < self.values@.len() && self.values@[j as int].0@ == name@
                && (forall|k: int| j < k < self.values@.len() ==> self.values@[k].0@ != name@)
                && scope_map(self.values@).contains_key(name@)
                && scope_map(self.values@)[name@] == self.values@[j as int].1@,
    {
        let mut i = self.values.len();
        assert(self.values@.subrange(0, i as int) =~= self.values@);
        while i > 0
            invariant
                i <= self.values@.len(),
                forall|k: int| i <= k < self.values@.len() ==> self.values@[k].0@ != name@,
                scope_map(self.values@).contains_key(name@) == scope_map(
                    self.values@.subrange(0, i as int),
                ).contains_key(name@),
                scope_map(self.values@).contains_key(name@) ==> scope_map(self.values@)[name@]
                    == scope_map(self.values@.subrange(0, i as int))[name@],
            decreases i,
        {
            let ghost pre = self.values@.subrange(0, i as int);
            assert(pre.drop_last() =~= self.values@.subrange(0, i - 1));
            assert(pre.last() == self.values@[i - 1]);
            if self.values[i - 1].0 == *name {
                return Some(i - 1);
            }
            i = i - 1;
        }
        assert(self.values@.subrange(0, 0) =~= Seq::<(String, Object)>::empty());
        None
    }

    /// The value of `name` in the innermost scope that binds it.
    pub fn get(&self, name: &Token) -> (r: Result<Object, InterpreterError>)
        ensures
            match lookup(self.scopes(), name.lexeme@) {
                Some(v) => r is Ok && r->Ok_0@ == v,
                None => r == Err::<Object, InterpreterError>(
                    InterpreterError::UndefinedVariable { name: name.lexeme, line: name.line },
                ),
            },
        decreases self.scopes().len(),
    {
        proof {
            self.lemma_scopes();
        }
        let ghost s = self.scopes();
        match self.find(&name.lexeme) {
            Some(j) => {
                assert(s[0].contains_key(name.lexeme@));
                assert(lookup(s, name.lexeme@) == Some(s[0][name.lexeme@]));
                Ok(self.values[j].1.clone())
            },
            None => {
                assert(lookup(s, name.lexeme@) == lookup(s.drop_first(), name.lexeme@));
                match &self.enclosing {
                    Some(e) => {
                        proof {
                            e.lemma_scopes();
                        }
                        e.get(name)
                    },
                    None => {
                        assert(s.drop_first().len() == 0);
                        Err(InterpreterError::UndefinedVariable { name: name.lexeme.clone(), line: name.line })
                    },
                }
            },
        }
    }

    /// Sets `name` to `value` in the innermost scope that binds it; never
    /// makes a new binding.
    pub fn assign(&mut self, name: &Token, value: Object) -> (r: Result<(), InterpreterError>)
        ensures
            lookup(old(self).scopes(), name.lexeme@) is Some ==> r is Ok && final(self).scopes()
                == assign_in(old(self).scopes(), name.lexeme@, value@),
            lookup(old(self).scopes(), name.lexeme@) is None ==> final(self).scopes() == old(
                self,
            ).scopes() && r == Err::<(), InterpreterError>(
                InterpreterError::UndefinedVariable { name: name.lexeme, line: name.line },
            ),
        decreases old(self).scopes().len(),
    {
        proof {
            self.lemma_scopes();
        }
        match self.find(&name.lexeme) {
            Some(j) => {
                let ghost v0 = self.values@;
                let ghost p = (name.lexeme, value);
                proof {
                    lemma_scope_update(v0, j as int, (name.lexeme, value));
                }
                let ghost s0 = self.scopes();
                let key = name.lexeme.clone();
                self.values.set(j, (key, value));
                proof {
                    assert(self.values@ == v0.update(j as int, p));
                    assert(scope_map(self.values@) == s0[0].insert(name.lexeme@, value@));
                    self.lemma_scopes();
                    assert(s0[0].contains_key(name.lexeme@));
                    assert(self.scopes().drop_first() == s0.drop_first());
                    assert(self.scopes() =~= assign_in(s0, name.lexeme@, value@));
                }
                Ok(())
            },
            None => {
                let ghost s0 = self.scopes();
                assert(lookup(s0, name.lexeme@) == lookup(s0.drop_first(), name.lexeme@));
                assert(assign_in(s0, name.lexeme@, value@) == seq![s0[0]] + assign_in(
                    s0.drop_first(),
                    name.lexeme@,
                    value@,
                ));
                match &mut self.enclosing {
                Some(e) => {
                    proof {
                        e.lemma_scopes();
                    }
                    let ghost es0 = e.scopes();
                    let r = e.assign(name, value);
                    proof {
                        self.lemma_scopes();
                        assert(es0 == s0.drop_first());
                        if lookup(es0, name.lexeme@) is Some {
                            assert(self.scopes() =~= seq![s0[0]] + assign_in(es0, name.lexeme@, value@));
                        } else {
                            assert(self.scopes() =~= s0);
                        }
                    }
                    r
                },
                None => {
                    assert(s0.drop_first().len() == 0);
                    Err(InterpreterError::UndefinedVariable { name: name.lexeme.clone(), line: name.line })
                },
            }
            },
        }
    }

    /// The chain `distance` scopes out, if there is one.
    pub fn ancestor(&self, distance: usize) -> (r: Option<&Environment>)
        ensures
            r is Some <==> distance < self.scopes().len(),
            r matches Some(e) ==> e.scopes() == self.scopes().subrange(
                distance as int,
                self.scopes().len() as int,
            ),
        decreases distance,
    {
        proof {
            self.lemma_scopes();
        }
        if distance == 0 {
            assert(self.scopes().subrange(0, self.scopes().len() as int) =~= self.scopes());
            Some(self)
        } else {
            match &self.enclosing {
                Some(e) => {
                    let r = e.ancestor(distance - 1);
                    proof {
                        e.lemma_scopes();
                        if distance < self.scopes().len() {
                            assert(self.scopes().subrange(distance as int, self.scopes().len() as int)
                                =~= e.scopes().subrange(distance - 1, e.scopes().len() as int));
                        }
                    }
                    r
                },
                None => None,
            }
        }
    }

    /// The value of `name` in the scope `distance` scopes out, looking in
    /// that scope only.
    pub fn get_at(&self, distance: usize, name: &str) -> (r: Option<Object>)
        ensures
            (distance < self.scopes().len() && self.scopes()[distance as int].contains_key(name@))
                ==> r is Some && r->0@ == self.scopes()[distance as int][name@],
            !(distance < self.scopes().len() && self.scopes()[distance as int].contains_key(name@))
                ==> r is None,
    {
        match self.ancestor(distance) {
            None => None,
            Some(env) => {
                proof {
                    env.lemma_scopes();
                    assert(env.scopes()[0] == self.scopes()[distance as int]);
                }
                let key = String::from_str(name);
                match env.find(&key) {
                    Some(j) => Some(env.values[j].1.clone()),
                    None => None,
                }
            },
        }
    }

    /// Binds `name` to `value` in the scope `distance` scopes out; does
    /// nothing when the chain is shorter.
    pub fn assign_at(&mut self, distance: usize, name: &Token, value: Object)
        ensures
            final(self).scopes() == if distance < old(self).scopes().len() {
                old(self).scopes().update(
                    distance as int,
                    old(self).scopes()[distance as int].insert(name.lexeme@, value@),
                )
            } else {
                old(self).scopes()
            },
        decreases distance,
    {
        proof {
            self.lemma_scopes();
        }
        let ghost s0 = self.scopes();
        if distance == 0 {
            self.define(name.lexeme.clone(), value);
        } else {
            match &mut self.enclosing {
                Some(e) => {
                    proof {
                        e.lemma_scopes();
                    }
                    let ghost es0 = e.scopes();
                    e.assign_at(distance - 1, name, value);
                    proof {
                        self.lemma_scopes();
                        assert(es0 == s0.drop_first());
                        if distance < s0.len() {
                            assert(self.scopes() =~= s0.update(
                                distance as int,
                                s0[distance as int].insert(name.lexeme@, value@),
                            ));
                        } else {
                            assert(self.scopes() =~= s0);
                        }
                    }
                },
                None => {},
            }
        }
    }
}

} // verus!
