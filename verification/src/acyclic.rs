//! Programs whose expressions do not depend on each other in a cycle: a
//! check of such a program never stops for want of fuel.

use crate::error::{IrFault, PilError};
use crate::evaluator::{
    eval_spec, malformed, materialize, materialize_children, materialize_operands, PolsView,
};
use crate::pil::{op_of, Expression, Op, Pil};
use crate::pil_verify::{
    check_identities, check_identity, fresh_state, materialize_all, resolve_public,
    resolve_publics, verify_run, verify_spec,
};
use crate::violation::Violation;
use vstd::prelude::*;

verus! {

/// The fault that reports a cycle.
pub open spec fn circular() -> PilError {
    PilError::IrMalformed(IrFault::CircularDependency)
}

/// Whether every node of the tree `exp` that refers to an expression refers
/// to one whose rank is below `bound`.
pub open spec fn refers_below(exp: Expression, rank: spec_fn(int) -> nat, bound: nat) -> bool
    decreases exp, 1nat,
{
    &&& op_of(exp.op@) == Some(Op::Exp) && exp.id is Some ==> rank(exp.id->0 as int) < bound
    &&& match exp.values {
        Some(children) => all_refer_below(children@, children@.len() as int, rank, bound),
        None => true,
    }
}

/// Whether each of the first `upto` trees refers to expressions of ranks
/// below `bound` only.
pub open spec fn all_refer_below(
    children: Seq<Expression>,
    upto: int,
    rank: spec_fn(int) -> nat,
    bound: nat,
) -> bool
    decreases children, upto,
{
    if upto <= 0 || upto > children.len() {
        true
    } else {
        refers_below(children[upto - 1], rank, bound) && all_refer_below(
            children,
            upto - 1,
            rank,
            bound,
        )
    }
}

/// Whether `rank` orders the expressions of the program: each refers to
/// expressions of lower rank only, and no rank reaches the number of
/// expressions. A program has such an order exactly if its expressions do
/// not depend on each other in a cycle.
pub open spec fn ranked(pil: Pil, rank: spec_fn(int) -> nat) -> bool {
    forall|e: int|
        0 <= e < pil.expressions@.len() ==> rank(e) < pil.expressions@.len() && refers_below(
            #[trigger] pil.expressions@[e],
            rank,
            rank(e),
        )
}

proof fn lemma_each_refers_below(
    children: Seq<Expression>,
    upto: int,
    rank: spec_fn(int) -> nat,
    bound: nat,
    k: int,
)
    requires
        all_refer_below(children, upto, rank, bound),
        0 <= k < upto <= children.len(),
    ensures
        refers_below(children[k], rank, bound),
    decreases upto,
{
    if k < upto - 1 {
        lemma_each_refers_below(children, upto - 1, rank, bound, k);
    }
}

/// No evaluation reports a cycle.
pub proof fn lemma_eval_not_circular(st: PolsView, n: nat, e: Expression)
    ensures
        eval_spec(st, n, e) != Err::<Seq<nat>, PilError>(circular()),
    decreases e,
{
    if e.values is Some {
        let children = e.values->0@;
        if children.len() > 0 {
            lemma_eval_not_circular(st, n, children[0]);
        }
        if children.len() > 1 {
            lemma_eval_not_circular(st, n, children[1]);
        }
    }
}

/// With more fuel than the rank of an expression, making its column present
/// does not report a cycle.
pub proof fn lemma_materialize_not_circular(
    pil: Pil,
    rank: spec_fn(int) -> nat,
    st: PolsView,
    n: nat,
    e: int,
    fuel: nat,
)
    requires
        ranked(pil, rank),
        0 <= e < pil.expressions@.len() ==> rank(e) < fuel,
    ensures
        materialize(pil, st, n, e, fuel) != Err::<PolsView, PilError>(circular()),
    decreases fuel, 0nat,
{
    if 0 <= e < pil.expressions@.len() && e < st.exps.len() && st.exps[e].len() == 0 {
        let tree = pil.expressions@[e];
        assert(refers_below(tree, rank, rank(e)));
        lemma_operands_not_circular(pil, rank, st, n, tree, rank(e), (fuel - 1) as nat);
        if materialize_operands(pil, st, n, tree, (fuel - 1) as nat) is Ok {
            let ready = materialize_operands(pil, st, n, tree, (fuel - 1) as nat)->Ok_0;
            lemma_eval_not_circular(ready, n, tree);
        }
    }
}

proof fn lemma_operands_not_circular(
    pil: Pil,
    rank: spec_fn(int) -> nat,
    st: PolsView,
    n: nat,
    exp: Expression,
    bound: nat,
    fuel: nat,
)
    requires
        ranked(pil, rank),
        refers_below(exp, rank, bound),
        bound <= fuel,
    ensures
        materialize_operands(pil, st, n, exp, fuel) != Err::<PolsView, PilError>(circular()),
    decreases fuel, 1nat, exp,
{
    let own = if op_of(exp.op@) == Some(Op::Exp) {
        match exp.id {
            None => malformed(IrFault::MissingField),
            Some(id) => materialize(pil, st, n, id as int, fuel),
        }
    } else {
        Ok(st)
    };
    if op_of(exp.op@) == Some(Op::Exp) && exp.id is Some {
        let id = exp.id->0 as int;
        if 0 <= id < pil.expressions@.len() {
            lemma_materialize_not_circular(pil, rank, st, n, id, fuel);
        }
    }
    if own is Ok && exp.values is Some {
        lemma_children_not_circular(pil, rank, own->Ok_0, n, exp.values->0@, 0, bound, fuel);
    }
}

proof fn lemma_children_not_circular(
    pil: Pil,
    rank: spec_fn(int) -> nat,
    st: PolsView,
    n: nat,
    children: Seq<Expression>,
    from: int,
    bound: nat,
    fuel: nat,
)
    requires
        ranked(pil, rank),
        all_refer_below(children, children.len() as int, rank, bound),
        bound <= fuel,
    ensures
        materialize_children(pil, st, n, children, from, fuel) != Err::<PolsView, PilError>(
            circular(),
        ),
    decreases fuel, 1nat, children, children.len() - from,
{
    if 0 <= from < children.len() {
        lemma_each_refers_below(children, children.len() as int, rank, bound, from);
        lemma_operands_not_circular(pil, rank, st, n, children[from], bound, fuel);
        if materialize_operands(pil, st, n, children[from], fuel) is Ok {
            let ready = materialize_operands(pil, st, n, children[from], fuel)->Ok_0;
            lemma_children_not_circular(pil, rank, ready, n, children, from + 1, bound, fuel);
        }
    }
}

proof fn lemma_all_not_circular(
    pil: Pil,
    rank: spec_fn(int) -> nat,
    st: PolsView,
    n: nat,
    ids: Seq<usize>,
    from: int,
)
    requires
        ranked(pil, rank),
    ensures
        materialize_all(pil, st, n, ids, from) != Err::<PolsView, PilError>(circular()),
    decreases ids.len() - from,
{
    if 0 <= from < ids.len() {
        let fuel = pil.expressions@.len();
        lemma_materialize_not_circular(pil, rank, st, n, ids[from] as int, fuel);
        if materialize(pil, st, n, ids[from] as int, fuel) is Ok {
            let ready = materialize(pil, st, n, ids[from] as int, fuel)->Ok_0;
            lemma_all_not_circular(pil, rank, ready, n, ids, from + 1);
        }
    }
}

proof fn lemma_publics_not_circular(
    pil: Pil,
    rank: spec_fn(int) -> nat,
    st: PolsView,
    n: nat,
    from: int,
)
    requires
        ranked(pil, rank),
    ensures
        resolve_publics(pil, st, n, from) != Err::<PolsView, PilError>(circular()),
    decreases pil.publics@.len() - from,
{
    if 0 <= from < pil.publics@.len() {
        let p = pil.publics@[from];
        lemma_materialize_not_circular(pil, rank, st, n, p.pol_id as int, pil.expressions@.len());
        if resolve_public(pil, st, n, from) is Ok {
            lemma_publics_not_circular(pil, rank, resolve_public(pil, st, n, from)->Ok_0, n, from + 1);
        }
    }
}

proof fn lemma_identities_not_circular(
    pil: Pil,
    rank: spec_fn(int) -> nat,
    st: PolsView,
    n: nat,
    log_n: nat,
    from: int,
    found: Seq<Violation>,
)
    requires
        ranked(pil, rank),
    ensures
        check_identities(pil, st, n, log_n, from, found) != Err::<
            (Seq<Violation>, PolsView),
            PilError,
        >(circular()),
    decreases pil.connection_identities@.len() - from,
{
    if 0 <= from < pil.connection_identities@.len() {
        let ci = pil.connection_identities@[from];
        lemma_all_not_circular(pil, rank, st, n, ci.pols@, 0);
        if materialize_all(pil, st, n, ci.pols@, 0) is Ok {
            let sources = materialize_all(pil, st, n, ci.pols@, 0)->Ok_0;
            lemma_all_not_circular(pil, rank, sources, n, ci.connections@, 0);
        }
        if check_identity(pil, st, n, log_n, from) is Ok {
            let (violations, next) = check_identity(pil, st, n, log_n, from)->Ok_0;
            lemma_identities_not_circular(pil, rank, next, n, log_n, from + 1, found + violations);
        }
    }
}

/// The check of a program whose expressions do not depend on each other in
/// a cycle does not report one.
pub proof fn lemma_verify_not_circular(
    pil: Pil,
    rank: spec_fn(int) -> nat,
    cm: Seq<Seq<nat>>,
    consts: Seq<Seq<nat>>,
    n: nat,
    log_n: nat,
)
    requires
        ranked(pil, rank),
    ensures
        verify_run(pil, cm, consts, n, log_n) != Err::<(Seq<Violation>, PolsView), PilError>(
            circular(),
        ),
        verify_spec(pil, cm, consts, n, log_n) != Err::<Seq<Violation>, PilError>(circular()),
{
    let fresh = fresh_state(pil, cm, consts);
    lemma_publics_not_circular(pil, rank, fresh, n, 0);
    if resolve_publics(pil, fresh, n, 0) is Ok {
        lemma_identities_not_circular(
            pil,
            rank,
            resolve_publics(pil, fresh, n, 0)->Ok_0,
            n,
            log_n,
            0,
            Seq::empty(),
        );
    }
}

} // verus!
