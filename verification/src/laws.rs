//! Laws of statement execution, proved once and for all over the
//! specification model that [`crate::interp::Interpreter::execute`] is
//! verified against.

use vstd::prelude::*;

use crate::chain::{chain_assign, chain_define, chain_defines, chain_lookup, Chain};
use crate::interp::{stmt_effect, stmts_effect_from, ReportV, Stmt};

verus! {

/// Overwriting a binding never changes which names any scope defines.
pub proof fn lemma_chain_assign_domains(c: Chain, name: Seq<char>, val: int)
    ensures
        chain_assign(c, name, val).len() == c.len(),
        forall|k: int| 0 <= k < c.len() ==> #[trigger] chain_assign(c, name, val)[k].dom()
            == c[k].dom(),
    decreases c.len(),
{
    if c.len() > 0 {
        let r = chain_assign(c, name, val);
        if c.last().dom().contains(name) {
            assert(c.last().insert(name, val).dom() =~= c.last().dom());
            assert forall|k: int| 0 <= k < c.len() implies #[trigger] r[k].dom()
                == c[k].dom() by {
                if k < c.len() - 1 {
                    assert(r[k] == c.drop_last()[k]);
                }
            }
        } else {
            lemma_chain_assign_domains(c.drop_last(), name, val);
            assert forall|k: int| 0 <= k < c.len() implies #[trigger] r[k].dom()
                == c[k].dom() by {
                if k < c.len() - 1 {
                    assert(r[k] == chain_assign(c.drop_last(), name, val)[k]);
                    assert(c.drop_last()[k] == c[k]);
                }
            }
        }
    }
}

/// Executing one statement never changes which names the enclosing
/// scopes (all but the innermost) define; a block, which works in a
/// scope of its own, changes no scope's names at all.
pub proof fn lemma_stmt_effect_domains(c: Chain, s: Stmt)
    requires
        c.len() > 0,
    ensures
        stmt_effect(c, s).0.len() == c.len(),
        forall|k: int| 0 <= k < c.len() - 1 ==> #[trigger] stmt_effect(c, s).0[k].dom()
            == c[k].dom(),
        s is Block ==> forall|k: int|
            0 <= k < c.len() ==> #[trigger] stmt_effect(c, s).0[k].dom() == c[k].dom(),
    decreases s, 0nat,
{
    let r = stmt_effect(c, s).0;
    match &s {
        Stmt::Block(stmts) => {
            let entered = c.push(Map::empty());
            let inner = stmts_effect_from(entered, stmts@, 0).0;
            lemma_stmts_effect_from_domains(entered, stmts@, 0);
            assert forall|k: int| 0 <= k < c.len() implies #[trigger] r[k].dom()
                == c[k].dom() by {
                assert(inner[k].dom() == entered[k].dom());
                assert(r[k] == inner[k]);
                assert(entered[k] == c[k]);
            }
        },
        Stmt::Let(name, val) => {
            assert forall|k: int| 0 <= k < c.len() - 1 implies #[trigger] r[k].dom()
                == c[k].dom() by {
                assert(r[k] == c.drop_last()[k]);
            }
        },
        Stmt::Assign(name, val) => {
            if chain_defines(c, name@) {
                lemma_chain_assign_domains(c, name@, val as int);
            }
        },
        Stmt::Print(name) => {},
    }
}

/// Executing a statement sequence never changes which names the
/// enclosing scopes (all but the innermost) define.
pub proof fn lemma_stmts_effect_from_domains(c: Chain, ss: Seq<Stmt>, i: int)
    requires
        c.len() > 0,
    ensures
        stmts_effect_from(c, ss, i).0.len() == c.len(),
        forall|k: int| 0 <= k < c.len() - 1 ==> #[trigger] stmts_effect_from(c, ss, i).0[k].dom()
            == c[k].dom(),
    decreases ss, ss.len() - i,
{
    if 0 <= i < ss.len() {
        let mid = stmt_effect(c, ss[i]).0;
        lemma_stmt_effect_domains(c, ss[i]);
        lemma_stmts_effect_from_domains(mid, ss, i + 1);
    }
}

/// Scope cleanup: a block leaves every scope with exactly the names it
/// had before the block ran.  In particular, a name first defined by a
/// `Let` inside the block is not visible once the block has exited.
pub proof fn lemma_block_scope_cleanup(c: Chain, stmts: Vec<Stmt>)
    requires
        c.len() > 0,
    ensures
        stmt_effect(c, Stmt::Block(stmts)).0.len() == c.len(),
        forall|k: int| 0 <= k < c.len() ==> #[trigger] stmt_effect(c, Stmt::Block(stmts)).0[k].dom()
            == c[k].dom(),
        forall|n: Seq<char>| chain_defines(stmt_effect(c, Stmt::Block(stmts)).0, n)
            <==> chain_defines(c, n),
{
    let r = stmt_effect(c, Stmt::Block(stmts)).0;
    lemma_stmt_effect_domains(c, Stmt::Block(stmts));
    assert forall|n: Seq<char>| chain_defines(r, n) <==> chain_defines(c, n) by {
        crate::chain::lemma_chain_defines_dom(c, n);
        crate::chain::lemma_chain_defines_dom(r, n);
        if chain_defines(c, n) {
            let k = choose|k: int| 0 <= k < c.len() && #[trigger] c[k].dom().contains(n);
            assert(r[k].dom().contains(n));
        }
        if chain_defines(r, n) {
            let k = choose|k: int| 0 <= k < r.len() && #[trigger] r[k].dom().contains(n);
            assert(c[k].dom().contains(n));
        }
    }
}

/// An empty block is a pure no-op: it pushes one scope, runs nothing,
/// discards the scope again, and neither reports anything nor leaves
/// any trace in the chain.
pub proof fn lemma_empty_block_noop(c: Chain, stmts: Vec<Stmt>)
    requires
        c.len() > 0,
        stmts@.len() == 0,
    ensures
        stmt_effect(c, Stmt::Block(stmts)).0 == c,
        stmt_effect(c, Stmt::Block(stmts)).1 == Seq::<ReportV>::empty(),
{
    assert(c.push(Map::empty()).drop_last() =~= c);
}

/// A `Let` followed by a `Print` of the same name, in the same scope,
/// reports exactly the value that was bound, and the `Let` itself
/// reports nothing.
pub proof fn lemma_let_then_print(c: Chain, n: String, v: i32)
    requires
        c.len() > 0,
    ensures
        stmt_effect(c, Stmt::Let(n, v)).1 == Seq::<ReportV>::empty(),
        stmt_effect(stmt_effect(c, Stmt::Let(n, v)).0, Stmt::Print(n)).1 == seq![
            ReportV::Printed(n@, Some(v as int)),
        ],
{
    let c1 = stmt_effect(c, Stmt::Let(n, v)).0;
    assert(c1.last() == c.last().insert(n@, v as int));
    assert(chain_lookup(c1, n@) == Some(v as int));
}

/// Shadowing: after an outer `Let(n, 1)`, a block that runs `Let(n, 2)`
/// prints 2 for `n` inside the block, and once the block has exited a
/// `Print(n)` reports 1 again: the outer binding was hidden, not
/// changed.
pub proof fn lemma_shadowing(c: Chain, n: String, inner: Vec<Stmt>)
    requires
        c.len() > 0,
        inner@ =~= seq![Stmt::Let(n, 2), Stmt::Print(n)],
    ensures
        ({
            let c1 = stmt_effect(c, Stmt::Let(n, 1)).0;
            let b = stmt_effect(c1, Stmt::Block(inner));
            b.1 == seq![ReportV::Printed(n@, Some(2))] && stmt_effect(b.0, Stmt::Print(n)).1
                == seq![ReportV::Printed(n@, Some(1))]
        }),
{
    reveal_with_fuel(stmts_effect_from, 4);
    reveal_with_fuel(chain_lookup, 4);
    let c1 = stmt_effect(c, Stmt::Let(n, 1)).0;
    assert(c1.last() == c.last().insert(n@, 1));
    let entered = c1.push(Map::empty());
    let c2 = chain_define(entered, n@, 2);
    let e0 = stmt_effect(entered, inner@[0]);
    assert(inner@[0] == Stmt::Let(n, 2));
    assert(e0.0 == c2 && e0.1 == Seq::<ReportV>::empty());
    assert(c2.last() == Map::<Seq<char>, int>::empty().insert(n@, 2)) by {
        assert(entered.last() == Map::<Seq<char>, int>::empty());
    }
    assert(chain_lookup(c2, n@) == Some(2int));
    let e1 = stmt_effect(c2, inner@[1]);
    assert(inner@[1] == Stmt::Print(n));
    assert(e1.0 == c2 && e1.1 == seq![ReportV::Printed(n@, Some(2int))]);
    assert(stmts_effect_from(c2, inner@, 2) == (c2, Seq::<ReportV>::empty()));
    assert(stmts_effect_from(c2, inner@, 1).0 == c2);
    assert(stmts_effect_from(c2, inner@, 1).1 =~= seq![ReportV::Printed(n@, Some(2int))]);
    assert(stmts_effect_from(entered, inner@, 0).0 == c2);
    assert(stmts_effect_from(entered, inner@, 0).1 =~= seq![ReportV::Printed(n@, Some(2int))]);
    let b = stmt_effect(c1, Stmt::Block(inner));
    assert(b.1 =~= seq![ReportV::Printed(n@, Some(2))]);
    assert(b.0 == stmts_effect_from(entered, inner@, 0).0.drop_last());
    assert(c2.drop_last() =~= c1);
    assert(chain_lookup(c1, n@) == Some(1int));
}

/// Assignment visibility: after an outer `Let(n, 1)`, a block that runs
/// `Assign(n, 9)` prints 9 for `n` inside the block, and the `Print(n)`
/// after the block also reports 9: the assignment reached the outer
/// binding, because the block itself never defined `n`.
pub proof fn lemma_assign_inside_block(c: Chain, n: String, inner: Vec<Stmt>)
    requires
        c.len() > 0,
        inner@ =~= seq![Stmt::Assign(n, 9), Stmt::Print(n)],
    ensures
        ({
            let c1 = stmt_effect(c, Stmt::Let(n, 1)).0;
            let b = stmt_effect(c1, Stmt::Block(inner));
            b.1 == seq![ReportV::Printed(n@, Some(9))] && stmt_effect(b.0, Stmt::Print(n)).1
                == seq![ReportV::Printed(n@, Some(9))]
        }),
{
    reveal_with_fuel(stmts_effect_from, 4);
    reveal_with_fuel(chain_lookup, 4);
    reveal_with_fuel(chain_assign, 4);
    let c1 = stmt_effect(c, Stmt::Let(n, 1)).0;
    assert(c1.last() == c.last().insert(n@, 1));
    let entered = c1.push(Map::empty());
    assert(entered.last() == Map::<Seq<char>, int>::empty());
    assert(entered.drop_last() =~= c1);
    assert(chain_lookup(c1, n@) == Some(1int));
    assert(chain_lookup(entered, n@) == Some(1int));
    assert(chain_defines(entered, n@));
    let c2 = chain_assign(entered, n@, 9);
    assert(c2 == chain_assign(c1, n@, 9).push(entered.last()));
    assert(chain_assign(c1, n@, 9) == c1.drop_last().push(c1.last().insert(n@, 9)));
    assert(inner@[0] == Stmt::Assign(n, 9));
    assert(c2 == stmt_effect(entered, inner@[0]).0);
    assert(c2.last() == Map::<Seq<char>, int>::empty());
    assert(c2.drop_last() =~= chain_assign(c1, n@, 9));
    assert(chain_assign(c1, n@, 9).last() == c1.last().insert(n@, 9));
    assert(chain_lookup(chain_assign(c1, n@, 9), n@) == Some(9int));
    assert(chain_lookup(c2, n@) == Some(9int));
    let e1 = stmt_effect(c2, inner@[1]);
    assert(inner@[1] == Stmt::Print(n));
    assert(e1.0 == c2 && e1.1 == seq![ReportV::Printed(n@, Some(9int))]);
    assert(stmts_effect_from(c2, inner@, 2) == (c2, Seq::<ReportV>::empty()));
    assert(stmts_effect_from(entered, inner@, 0).0 == c2);
    assert(stmts_effect_from(entered, inner@, 0).1 =~= seq![ReportV::Printed(n@, Some(9int))]);
    let b = stmt_effect(c1, Stmt::Block(inner));
    assert(b.1 =~= seq![ReportV::Printed(n@, Some(9))]);
    assert(b.0 == stmts_effect_from(entered, inner@, 0).0.drop_last());
    assert(chain_lookup(b.0, n@) == Some(9int));
}

/// An undefined read is reported, not fatal: `Print(n)` for a name that
/// no scope defines reports "undefined", changes nothing, and every
/// following statement executes exactly as it would have.
pub proof fn lemma_undefined_print(c: Chain, n: String, ss: Seq<Stmt>, i: int)
    requires
        !chain_defines(c, n@),
        0 <= i < ss.len(),
        ss[i] == Stmt::Print(n),
    ensures
        stmt_effect(c, Stmt::Print(n)).0 == c,
        stmt_effect(c, Stmt::Print(n)).1 == seq![ReportV::Printed(n@, None::<int>)],
        stmts_effect_from(c, ss, i).0 == stmts_effect_from(c, ss, i + 1).0,
        stmts_effect_from(c, ss, i).1 == seq![ReportV::Printed(n@, None::<int>)]
            + stmts_effect_from(c, ss, i + 1).1,
{
}

/// An undefined assignment is reported, not performed: `Assign(n, v)`
/// for a name that no scope defines reports the undefined-variable
/// notice and leaves every scope's bindings unchanged.
pub proof fn lemma_undefined_assign(c: Chain, n: String, v: i32)
    requires
        !chain_defines(c, n@),
    ensures
        stmt_effect(c, Stmt::Assign(n, v)).0 == c,
        stmt_effect(c, Stmt::Assign(n, v)).1 == seq![ReportV::UndefinedAssign(n@)],
{
}

} // verus!
