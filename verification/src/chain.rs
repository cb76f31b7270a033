//! The mathematical model of a lexical environment chain.
//!
//! A `Chain` is a sequence of scopes, outermost first and innermost
//! last.  Each scope is a mapping from variable names (sequences of
//! characters) to integer values.  Lookup and assignment search from the
//! innermost scope outward; definition always touches the innermost
//! scope only.

use vstd::prelude::*;

verus! {

/// A chain of scopes: outermost scope first, innermost (current) last.
pub type Chain = Seq<Map<Seq<char>, int>>;

/// The integer value of an optional machine integer.
pub open spec fn opt_int(v: Option<i32>) -> Option<int> {
    match v {
        Some(x) => Some(x as int),
        None => None,
    }
}

/// The value bound to `name` in the innermost scope that defines it,
/// or `None` when no scope in the chain defines `name`.
pub open spec fn chain_lookup(c: Chain, name: Seq<char>) -> Option<int>
    decreases c.len(),
{
    if c.len() == 0 {
        None
    } else if c.last().dom().contains(name) {
        Some(c.last()[name])
    } else {
        chain_lookup(c.drop_last(), name)
    }
}

/// Whether some scope in the chain defines `name`.
pub open spec fn chain_defines(c: Chain, name: Seq<char>) -> bool {
    chain_lookup(c, name) is Some
}

/// The chain after binding `name` to `val` in the innermost scope,
/// shadowing (not altering) any binding of `name` in an enclosing scope.
pub open spec fn chain_define(c: Chain, name: Seq<char>, val: int) -> Chain {
    c.drop_last().push(c.last().insert(name, val))
}

/// The chain after overwriting `name` with `val` in the innermost scope
/// that already defines it.  When no scope defines `name`, the chain is
/// returned unchanged.
pub open spec fn chain_assign(c: Chain, name: Seq<char>, val: int) -> Chain
    decreases c.len(),
{
    if c.len() == 0 {
        c
    } else if c.last().dom().contains(name) {
        c.drop_last().push(c.last().insert(name, val))
    } else {
        chain_assign(c.drop_last(), name, val).push(c.last())
    }
}

/// A name is found by lookup exactly when some scope's domain holds it.
pub proof fn lemma_chain_defines_dom(c: Chain, name: Seq<char>)
    ensures
        chain_defines(c, name) <==> exists|i: int|
            0 <= i < c.len() && #[trigger] c[i].dom().contains(name),
    decreases c.len(),
{
    if c.len() > 0 {
        lemma_chain_defines_dom(c.drop_last(), name);
        if c.last().dom().contains(name) {
            assert(c[c.len() - 1].dom().contains(name));
        } else if chain_defines(c.drop_last(), name) {
            let i = choose|i: int|
                0 <= i < c.drop_last().len() && #[trigger] c.drop_last()[i].dom().contains(name);
            assert(c[i].dom().contains(name));
        } else {
            assert forall|i: int| 0 <= i < c.len() implies !(#[trigger] c[i].dom().contains(
                name,
            )) by {
                if i < c.len() - 1 {
                    assert(c.drop_last()[i].dom().contains(name) == c[i].dom().contains(name));
                }
            }
        }
    }
}

} // verus!
