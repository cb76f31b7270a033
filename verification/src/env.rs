//! Environments: the executable scope chain.
//!
//! An [`Environment`] is the innermost node of a chain of scopes.  Each
//! node owns its own bindings, stored as an association list of
//! name/value pairs with pairwise-distinct names, plus an optional owned
//! enclosing scope.  The view of an `Environment` is the whole chain it
//! heads, as a [`Chain`]: outermost scope first, this node's scope last.

use vstd::prelude::*;

use crate::chain::{chain_assign, chain_define, chain_defines, chain_lookup, opt_int, Chain};

verus! {

/// The mapping described by an association list: later pairs win, so a
/// push behaves as a map insert.
pub open spec fn map_of(pairs: Seq<(String, i32)>) -> Map<Seq<char>, int>
    decreases pairs.len(),
{
    if pairs.len() == 0 {
        Map::empty()
    } else {
        map_of(pairs.drop_last()).insert(pairs.last().0@, pairs.last().1 as int)
    }
}

/// The names of an association list's pairs are pairwise distinct.
pub open spec fn scope_wf(pairs: Seq<(String, i32)>) -> bool {
    forall|i: int, j: int| 0 <= i < j < pairs.len() ==> pairs[i].0@ != pairs[j].0@
}

/// A name is in the mapping's domain exactly when some pair carries it.
pub proof fn lemma_map_of_dom(pairs: Seq<(String, i32)>, name: Seq<char>)
    ensures
        map_of(pairs).dom().contains(name) <==> exists|i: int|
            0 <= i < pairs.len() && #[trigger] pairs[i].0@ == name,
    decreases pairs.len(),
{
    if pairs.len() > 0 {
        lemma_map_of_dom(pairs.drop_last(), name);
        if pairs.last().0@ == name {
            assert(pairs[pairs.len() - 1].0@ == name);
        } else if map_of(pairs.drop_last()).dom().contains(name) {
            let i = choose|i: int|
                0 <= i < pairs.drop_last().len() && #[trigger] pairs.drop_last()[i].0@ == name;
            assert(pairs[i].0@ == name);
        } else {
            assert forall|i: int| 0 <= i < pairs.len() implies !(#[trigger] pairs[i].0@
                == name) by {
                if i < pairs.len() - 1 {
                    assert(pairs.drop_last()[i].0@ == pairs[i].0@);
                }
            }
        }
    }
}

/// With distinct names, the pair that carries `name` gives its value.
pub proof fn lemma_map_of_at(pairs: Seq<(String, i32)>, i: int)
    requires
        scope_wf(pairs),
        0 <= i < pairs.len(),
    ensures
        map_of(pairs).dom().contains(pairs[i].0@),
        map_of(pairs)[pairs[i].0@] == pairs[i].1 as int,
    decreases pairs.len(),
{
    if i < pairs.len() - 1 {
        assert(pairs.drop_last()[i] == pairs[i]);
        lemma_map_of_at(pairs.drop_last(), i);
        assert(pairs[i].0@ != pairs.last().0@);
    }
}

/// With distinct names, replacing the pair that carries `name` is a map
/// insert, and the names stay distinct.
pub proof fn lemma_map_of_update(pairs: Seq<(String, i32)>, i: int, p: (String, i32))
    requires
        scope_wf(pairs),
        0 <= i < pairs.len(),
        p.0@ == pairs[i].0@,
    ensures
        scope_wf(pairs.update(i, p)),
        map_of(pairs.update(i, p)) == map_of(pairs).insert(p.0@, p.1 as int),
    decreases pairs.len(),
{
    let updated = pairs.update(i, p);
    assert forall|x: int, y: int| 0 <= x < y < updated.len() implies updated[x].0@
        != updated[y].0@ by {
        assert(pairs[x].0@ != pairs[y].0@);
    }
    if i == pairs.len() - 1 {
        assert(updated.drop_last() =~= pairs.drop_last());
        assert(map_of(updated) =~= map_of(pairs).insert(p.0@, p.1 as int));
    } else {
        assert(updated.drop_last() =~= pairs.drop_last().update(i, p));
        assert(pairs.drop_last()[i] == pairs[i]);
        lemma_map_of_update(pairs.drop_last(), i, p);
        assert(pairs.last().0@ != p.0@);
        assert(updated.last() == pairs.last());
        assert(map_of(updated) =~= map_of(pairs).insert(p.0@, p.1 as int));
    }
}

/// Pushing a pair with a fresh name keeps the names distinct; the
/// mapping gains the pair as an insert by the definition of `map_of`.
pub proof fn lemma_scope_wf_push(pairs: Seq<(String, i32)>, p: (String, i32))
    requires
        scope_wf(pairs),
        forall|i: int| 0 <= i < pairs.len() ==> #[trigger] pairs[i].0@ != p.0@,
    ensures
        scope_wf(pairs.push(p)),
        map_of(pairs.push(p)) == map_of(pairs).insert(p.0@, p.1 as int),
{
    let pushed = pairs.push(p);
    assert forall|x: int, y: int| 0 <= x < y < pushed.len() implies pushed[x].0@
        != pushed[y].0@ by {
        if y < pairs.len() {
            assert(pairs[x].0@ != pairs[y].0@);
        } else {
            assert(pairs[x].0@ != p.0@);
        }
    }
    assert(pushed.drop_last() =~= pairs);
}

/// The error raised when an assignment finds no binding for its name in
/// any scope of the chain.
pub struct UndefinedVariable {
    pub name: String,
}

/// One node of the scope chain: its own bindings plus an optional owned
/// enclosing scope.  `enclosing == None` marks the global (root) scope.
pub struct Environment {
    values: Vec<(String, i32)>,
    enclosing: Option<Box<Environment>>,
}

impl Environment {
    /// The chain this node heads: outermost scope first, this node last.
    pub closed spec fn view(&self) -> Chain
        decreases self,
    {
        match self.enclosing {
            Some(parent) => parent.view().push(map_of(self.values@)),
            None => seq![map_of(self.values@)],
        }
    }

    /// Every scope in the chain keeps its names pairwise distinct.
    pub closed spec fn wf(&self) -> bool
        decreases self,
    {
        scope_wf(self.values@) && match self.enclosing {
            Some(parent) => parent.wf(),
            None => true,
        }
    }

    /// A chain always holds at least its global scope.
    pub proof fn lemma_chain_nonempty(&self)
        ensures
            self@.len() >= 1,
        decreases *self,
    {
        match self.enclosing {
            Some(parent) => parent.lemma_chain_nonempty(),
            None => {},
        }
    }

    /// A fresh global scope with no bindings and no enclosing scope.
    pub fn new() -> (r: Environment)
        ensures
            r.wf(),
            r@ =~= seq![Map::<Seq<char>, int>::empty()],
    {
        Environment { values: Vec::new(), enclosing: None }
    }

    /// A fresh, empty scope whose enclosing scope is `enclosing`: the
    /// chain grows by one empty innermost scope.
    pub fn enclosed_by(enclosing: Environment) -> (r: Environment)
        ensures
            r@ =~= enclosing@.push(Map::empty()),
            enclosing.wf() ==> r.wf(),
    {
        Environment { values: Vec::new(), enclosing: Some(Box::new(enclosing)) }
    }

    /// Binds `name` to `val` in this node's own scope, inserting or
    /// overwriting; enclosing scopes are never touched, so a same-named
    /// binding in one is shadowed, not altered.
    #[verifier::loop_isolation(false)]
    pub fn define(&mut self, name: &str, val: i32)
        requires
            old(self).wf(),
        ensures
            final(self).wf(),
            final(self)@ == chain_define(old(self)@, name@, val as int),
    {
        let key = name.to_owned();
        let n = self.values.len();
        let mut i: usize = 0;
        while i < n
            invariant
                n == self.values.len(),
                i <= n,
                *self == *old(self),
                forall|j: int| 0 <= j < i ==> #[trigger] self.values@[j].0@ != key@,
                key@ == name@,
            decreases n - i,
        {
            if self.values[i].0 == key {
                proof {
                    lemma_map_of_update(self.values@, i as int, (key, val));
                }
                self.values[i] = (key, val);
                proof {
                    assert(self@ =~= chain_define(old(self)@, name@, val as int));
                }
                return ;
            }
            i += 1;
        }
        proof {
            lemma_scope_wf_push(self.values@, (key, val));
        }
        self.values.push((key, val));
        proof {
            assert(self@ =~= chain_define(old(self)@, name@, val as int));
        }
    }

    /// Resolves `name` by searching this node's own bindings first and
    /// then the enclosing scopes, innermost first.  Returns `None` when
    /// no scope in the chain defines `name`; absence is distinct from
    /// any bound value.
    pub fn get(&self, name: &str) -> (r: Option<i32>)
        requires
            self.wf(),
        ensures
            opt_int(r) == chain_lookup(self@, name@),
    {
        let key = name.to_owned();
        self.lookup_key(&key)
    }

    /// The outward search behind [`Environment::get`], keyed once.
    #[verifier::loop_isolation(false)]
    fn lookup_key(&self, key: &String) -> (r: Option<i32>)
        requires
            self.wf(),
        ensures
            opt_int(r) == chain_lookup(self@, key@),
        decreases *self,
    {
        let n = self.values.len();
        let mut i: usize = 0;
        while i < n
            invariant
                i <= n,
                forall|j: int| 0 <= j < i ==> #[trigger] self.values@[j].0@ != key@,
            decreases n - i,
        {
            if self.values[i].0 == *key {
                proof {
                    lemma_map_of_at(self.values@, i as int);
                }
                return Some(self.values[i].1);
            }
            i += 1;
        }
        proof {
            lemma_map_of_dom(self.values@, key@);
        }
        match &self.enclosing {
            Some(parent) => {
                proof {
                    assert(self@.drop_last() =~= parent.view());
                }
                parent.lookup_key(key)
            },
            None => {
                proof {
                    assert(self@.drop_last() =~= Seq::<Map<Seq<char>, int>>::empty());
                }
                None
            },
        }
    }

    /// Overwrites the binding of `name` in the innermost scope that
    /// already defines it, searching outward from this node.  When no
    /// scope in the chain defines `name`, no scope is changed and the
    /// `UndefinedVariable` error is returned; an assignment never
    /// introduces a binding.
    pub fn assign(&mut self, name: &str, val: i32) -> (r: Result<(), UndefinedVariable>)
        requires
            old(self).wf(),
        ensures
            final(self).wf(),
            match r {
                Ok(()) => chain_defines(old(self)@, name@) && final(self)@ == chain_assign(
                    old(self)@,
                    name@,
                    val as int,
                ),
                Err(e) => !chain_defines(old(self)@, name@) && final(self)@ == old(self)@
                    && e.name@ == name@,
            },
    {
        let key = name.to_owned();
        self.assign_key(key, val)
    }

    /// The outward search behind [`Environment::assign`], keyed once.
    #[verifier::loop_isolation(false)]
    fn assign_key(&mut self, key: String, val: i32) -> (r: Result<(), UndefinedVariable>)
        requires
            old(self).wf(),
        ensures
            final(self).wf(),
            match r {
                Ok(()) => chain_defines(old(self)@, key@) && final(self)@ == chain_assign(
                    old(self)@,
                    key@,
                    val as int,
                ),
                Err(e) => !chain_defines(old(self)@, key@) && final(self)@ == old(self)@
                    && e.name@ == key@,
            },
        decreases *old(self),
    {
        let n = self.values.len();
        let mut i: usize = 0;
        while i < n
            invariant
                n == self.values.len(),
                i <= n,
                *self == *old(self),
                forall|j: int| 0 <= j < i ==> #[trigger] self.values@[j].0@ != key@,
            decreases n - i,
        {
            if self.values[i].0 == key {
                proof {
                    lemma_map_of_at(self.values@, i as int);
                    lemma_map_of_update(self.values@, i as int, (key, val));
                }
                self.values[i] = (key, val);
                proof {
                    assert(self@ =~= chain_assign(old(self)@, key@, val as int));
                }
                return Ok(());
            }
            i += 1;
        }
        proof {
            lemma_map_of_dom(self.values@, key@);
        }
        match &mut self.enclosing {
            Some(parent) => {
                proof {
                    assert(old(self)@.drop_last() =~= old(self).enclosing->Some_0.view());
                }
                let r = parent.assign_key(key, val);
                proof {
                    if r is Ok {
                        assert(self@ =~= chain_assign(old(self)@, key@, val as int));
                    } else {
                        assert(self@ =~= old(self)@);
                    }
                }
                r
            },
            None => {
                proof {
                    assert(old(self)@.drop_last() =~= Seq::<Map<Seq<char>, int>>::empty());
                }
                Err(UndefinedVariable { name: key })
            },
        }
    }

    /// Drops this node and returns its enclosing scope: the chain
    /// shrinks by its innermost scope.
    pub fn into_enclosing(self) -> (r: Environment)
        requires
            self@.len() > 1,
            self.wf(),
        ensures
            r.wf(),
            r@ == self@.drop_last(),
    {
        match self.enclosing {
            Some(parent) => *parent,
            None => vstd::pervasive::unreached(),
        }
    }
}

} // verus!
