//! Statements, reports, and the interpreter that executes them.

use vstd::prelude::*;

use crate::chain::{chain_assign, chain_define, chain_defines, chain_lookup, opt_int, Chain};
use crate::env::Environment;

verus! {

/// A statement of the toy language.  Statements are immutable input:
/// execution traverses them and never changes them.
pub enum Stmt {
    /// A block: execute the inner statements in order inside one fresh
    /// scope, discarded when the block exits.
    Block(Vec<Stmt>),
    /// Bind a name to a value in the innermost scope.
    Let(String, i32),
    /// Overwrite the binding of a name in the innermost scope that
    /// defines it; report an error when no scope does.
    Assign(String, i32),
    /// Look a name up through the chain and report the outcome.
    Print(String),
}

/// What the report sink sees, at the specification level.
pub ghost enum ReportV {
    /// The outcome of a `Print`: the name and its resolved value, or
    /// `None` when the name is undefined in every scope.
    Printed(Seq<char>, Option<int>),
    /// The notice of an `Assign` whose name no scope defines.
    UndefinedAssign(Seq<char>),
}

/// One entry handed to the report sink.
pub enum Report {
    /// The outcome of a `Print` statement.
    Printed(String, Option<i32>),
    /// The notice of a failed `Assign` statement.
    UndefinedAssign(String),
}

impl View for Report {
    type V = ReportV;

    open spec fn view(&self) -> ReportV {
        match self {
            Report::Printed(name, value) => ReportV::Printed(name@, opt_int(*value)),
            Report::UndefinedAssign(name) => ReportV::UndefinedAssign(name@),
        }
    }
}

/// The views of a sequence of reports.
pub open spec fn reports_view(rs: Seq<Report>) -> Seq<ReportV> {
    rs.map_values(|r: Report| r@)
}

/// The chain and the reports produced by executing one statement.
///
/// A `Block` pushes one fresh scope, executes its statements in order
/// against it, and discards it again.  A `Let` binds in the innermost
/// scope.  An `Assign` overwrites the nearest binding, or reports the
/// undefined-variable notice and changes nothing.  A `Print` reports
/// the name with its resolved value, or with `None` when undefined.
/// Execution never stops early: a failed statement only reports.
pub open spec fn stmt_effect(c: Chain, s: Stmt) -> (Chain, Seq<ReportV>)
    decreases s, 0nat,
{
    match s {
        Stmt::Block(stmts) => {
            let inner = stmts_effect_from(c.push(Map::empty()), stmts@, 0);
            (inner.0.drop_last(), inner.1)
        },
        Stmt::Let(name, val) => (chain_define(c, name@, val as int), Seq::empty()),
        Stmt::Assign(name, val) => {
            if chain_defines(c, name@) {
                (chain_assign(c, name@, val as int), Seq::empty())
            } else {
                (c, seq![ReportV::UndefinedAssign(name@)])
            }
        },
        Stmt::Print(name) => (c, seq![ReportV::Printed(name@, chain_lookup(c, name@))]),
    }
}

/// The chain and the reports produced by executing the statements of
/// `ss` from position `i` on, in order.
pub open spec fn stmts_effect_from(c: Chain, ss: Seq<Stmt>, i: int) -> (Chain, Seq<ReportV>)
    decreases ss, ss.len() - i,
{
    if i < 0 || i >= ss.len() {
        (c, Seq::empty())
    } else {
        let head = stmt_effect(c, ss[i]);
        let rest = stmts_effect_from(head.0, ss, i + 1);
        (rest.0, head.1 + rest.1)
    }
}

/// Executing a statement preserves the number of scopes in the chain.
pub proof fn lemma_stmt_effect_len(c: Chain, s: Stmt)
    requires
        c.len() > 0,
    ensures
        stmt_effect(c, s).0.len() == c.len(),
    decreases s, 0nat,
{
    match &s {
        Stmt::Block(stmts) => {
            lemma_stmts_effect_from_len(c.push(Map::empty()), stmts@, 0);
        },
        Stmt::Let(name, val) => {},
        Stmt::Assign(name, val) => {
            if chain_defines(c, name@) {
                lemma_chain_assign_len(c, name@, val as int);
            }
        },
        Stmt::Print(name) => {},
    }
}

/// Executing a statement sequence preserves the number of scopes.
pub proof fn lemma_stmts_effect_from_len(c: Chain, ss: Seq<Stmt>, i: int)
    requires
        c.len() > 0,
    ensures
        stmts_effect_from(c, ss, i).0.len() == c.len(),
    decreases ss, ss.len() - i,
{
    if 0 <= i < ss.len() {
        lemma_stmt_effect_len(c, ss[i]);
        lemma_stmts_effect_from_len(stmt_effect(c, ss[i]).0, ss, i + 1);
    }
}

/// Assignment rewrites one binding and never adds or removes a scope.
pub proof fn lemma_chain_assign_len(c: Chain, name: Seq<char>, val: int)
    ensures
        chain_assign(c, name, val).len() == c.len(),
    decreases c.len(),
{
    if c.len() > 0 && !c.last().dom().contains(name) {
        lemma_chain_assign_len(c.drop_last(), name, val);
    }
}

/// The interpreter: the current (innermost) environment of a running
/// program.  Its view is the whole scope chain.
pub struct Interpreter {
    environment: Environment,
}

impl Default for Interpreter {
    /// A fresh interpreter, exactly as [`Interpreter::new`] builds it.
    fn default() -> (r: Self)
        ensures
            r.wf(),
            r@ =~= seq![Map::<Seq<char>, int>::empty()],
    {
        Interpreter { environment: Environment::new() }
    }
}

impl Interpreter {
    /// The chain of scopes, outermost first.
    pub closed spec fn view(&self) -> Chain {
        self.environment@
    }

    /// Every scope of the chain is well formed.
    pub closed spec fn wf(&self) -> bool {
        self.environment.wf()
    }

    /// A fresh interpreter: one global scope with no bindings.
    pub fn new() -> (r: Interpreter)
        ensures
            r.wf(),
            r@ =~= seq![Map::<Seq<char>, int>::empty()],
    {
        Interpreter::default()
    }

    /// Executes one statement against the current scope chain,
    /// appending every report it produces to `reports` in execution
    /// order.
    pub fn execute(&mut self, stmt: &Stmt, reports: &mut Vec<Report>)
        requires
            old(self).wf(),
        ensures
            final(self).wf(),
            final(self)@ == stmt_effect(old(self)@, *stmt).0,
            reports_view(final(reports)@) == reports_view(old(reports)@) + stmt_effect(
                old(self)@,
                *stmt,
            ).1,
        decreases *stmt,
    {
        match stmt {
            Stmt::Block(stmts) => {
                self.execute_block(stmts, reports);
            },
            Stmt::Let(name, val) => {
                self.environment.define(name.as_str(), *val);
                proof {
                    assert(reports_view(reports@) =~= reports_view(reports@) + Seq::<
                        ReportV,
                    >::empty());
                }
            },
            Stmt::Assign(name, val) => {
                let r = self.environment.assign(name.as_str(), *val);
                match r {
                    Ok(()) => {
                        proof {
                            assert(reports_view(reports@) =~= reports_view(reports@) + Seq::<
                                ReportV,
                            >::empty());
                        }
                    },
                    Err(e) => {
                        reports.push(Report::UndefinedAssign(e.name));
                        proof {
                            assert(reports_view(reports@) =~= reports_view(old(reports)@) + seq![
                                ReportV::UndefinedAssign(name@),
                            ]);
                        }
                    },
                }
            },
            Stmt::Print(name) => {
                let value = self.environment.get(name.as_str());
                reports.push(Report::Printed(name.clone(), value));
                proof {
                    assert(reports_view(reports@) =~= reports_view(old(reports)@) + seq![
                        ReportV::Printed(name@, chain_lookup(old(self)@, name@)),
                    ]);
                }
            },
        }
    }

    /// Executes the statements of a block in order inside one fresh
    /// scope, pushed on entry and discarded on exit — also when the
    /// block is empty.
    #[verifier::loop_isolation(false)]
    fn execute_block(&mut self, stmts: &Vec<Stmt>, reports: &mut Vec<Report>)
        requires
            old(self).wf(),
        ensures
            final(self).wf(),
            final(self)@ == stmts_effect_from(
                old(self)@.push(Map::empty()),
                stmts@,
                0,
            ).0.drop_last(),
            reports_view(final(reports)@) == reports_view(old(reports)@) + stmts_effect_from(
                old(self)@.push(Map::empty()),
                stmts@,
                0,
            ).1,
        decreases stmts@,
    {
        let ghost entered: Chain = old(self)@.push(Map::empty());
        let ghost total = stmts_effect_from(entered, stmts@, 0);
        proof {
            old(self).environment.lemma_chain_nonempty();
        }
        let mut previous = Environment::new();
        core::mem::swap(&mut self.environment, &mut previous);
        self.environment = Environment::enclosed_by(previous);

        let n = stmts.len();
        let mut i: usize = 0;
        while i < n
            invariant
                n == stmts.len(),
                i <= n,
                self.wf(),
                self@.len() == entered.len(),
                stmts_effect_from(self@, stmts@, i as int).0 == total.0,
                reports_view(reports@) + stmts_effect_from(self@, stmts@, i as int).1
                    =~= reports_view(old(reports)@) + total.1,
            decreases n - i,
        {
            let ghost before: Chain = self@;
            self.execute(&stmts[i], reports);
            proof {
                lemma_stmt_effect_len(before, stmts@[i as int]);
            }
            i += 1;
        }
        proof {
            assert(self@.len() > 1);
        }
        let mut finished = Environment::new();
        core::mem::swap(&mut self.environment, &mut finished);
        self.environment = finished.into_enclosing();
    }
}

} // verus!
