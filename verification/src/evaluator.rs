//! The working set of the verifier and the evaluation of expression trees
//! over it.

use crate::columns::{
    combine_columns, combine_constant, constant_column, copy_column, fill_column, has_rows,
    pointwise, pointwise_const, rotate, rotate_column, table_has_rows,
};
use crate::error::{IrFault, PilError};
use crate::field::{gl_reduce, Fgl};
use crate::pil::{decimal_value, op_of, parse_decimal, Expression, Op, Pil};
use vstd::prelude::*;

verus! {

/// The columns that the verifier works on: the commitments and the constants
/// that it was given, the expression columns that it has computed so far, and
/// the public values. An expression column that is not there is empty.
#[derive(Debug, Clone, PartialEq, Eq)]
pub struct Pols {
    pub cm: Vec<Vec<Fgl>>,
    pub exps: Vec<Vec<Fgl>>,
    pub consts: Vec<Vec<Fgl>>,
    pub publics: Vec<Fgl>,
}

/// The working set as sequences of canonical values.
pub struct PolsView {
    pub cm: Seq<Seq<nat>>,
    pub exps: Seq<Seq<nat>>,
    pub consts: Seq<Seq<nat>>,
    pub publics: Seq<nat>,
}

impl View for Pols {
    type V = PolsView;

    open spec fn view(&self) -> PolsView {
        PolsView {
            cm: self.cm.deep_view(),
            exps: self.exps.deep_view(),
            consts: self.consts.deep_view(),
            publics: self.publics.deep_view(),
        }
    }
}

impl Default for Pols {
    fn default() -> (r: Pols)
        ensures
            r.cm@.len() == 0,
            r.exps@.len() == 0,
            r.consts@.len() == 0,
            r.publics@.len() == 0,
    {
        Pols { cm: Vec::new(), exps: Vec::new(), consts: Vec::new(), publics: Vec::new() }
    }
}

impl Pols {
    /// Whether every commitment and constant column has `n` rows, and every
    /// expression column has `n` rows or none.
    pub fn is_shaped(&self, n: usize) -> (r: bool)
        ensures
            r == self@.shaped(n as nat),
    {
        if n == 0 || !table_has_rows(&self.cm, n) || !table_has_rows(&self.consts, n) {
            return false;
        }
        let mut i: usize = 0;
        while i < self.exps.len()
            invariant
                i <= self.exps.len(),
                forall|k: int|
                    0 <= k < i ==> (#[trigger] self@.exps[k]).len() == n || self@.exps[k].len() == 0,
            decreases self.exps.len() - i,
        {
            assert(self@.exps[i as int] == self.exps[i as int].deep_view());
            let rows: usize = self.exps[i].len();
            if rows != n && rows != 0 {
                return false;
            }
            i = i + 1;
        }
        true
    }
}

impl PolsView {
    /// Every commitment and constant column has `n` rows, and every
    /// expression column has `n` rows or none.
    pub open spec fn shaped(self, n: nat) -> bool {
        &&& n > 0
        &&& has_rows(self.cm, n)
        &&& has_rows(self.consts, n)
        &&& forall|i: int|
            0 <= i < self.exps.len() ==> (#[trigger] self.exps[i]).len() == n || self.exps[i].len()
                == 0
    }

    /// The working set with the expression column `e` set to `column`.
    pub open spec fn with_expression(self, e: int, column: Seq<nat>) -> PolsView {
        PolsView { exps: self.exps.update(e, column), ..self }
    }

    /// The working set with the public value `i` set to `value`.
    pub open spec fn with_public(self, i: int, value: nat) -> PolsView {
        PolsView { publics: self.publics.update(i, value), ..self }
    }
}

/// The outcome that stops an operation on a malformed program.
pub open spec fn malformed<T>(fault: IrFault) -> Result<T, PilError> {
    Err(PilError::IrMalformed(fault))
}

/// The column of a source node: column `id` of `table`, read one row ahead
/// where `next` is set. An expression column must be there.
pub open spec fn source_column(
    table: Seq<Seq<nat>>,
    id: Option<usize>,
    next: bool,
    cached: bool,
) -> Result<Seq<nat>, PilError> {
    match id {
        None => malformed(IrFault::MissingField),
        Some(id) => if id >= table.len() {
            malformed(IrFault::IndexOutOfRange)
        } else if cached && table[id as int].len() == 0 {
            malformed(IrFault::NotMaterialized)
        } else if next {
            Ok(rotate(table[id as int]))
        } else {
            Ok(table[id as int])
        },
    }
}

/// The column of operand `k` of the node `e`.
pub open spec fn eval_operand(st: PolsView, n: nat, e: Expression, k: int) -> Result<
    Seq<nat>,
    PilError,
>
    decreases e, 0nat,
{
    match e.values {
        None => malformed(IrFault::MissingField),
        Some(children) => if 0 <= k < children@.len() {
            eval_spec(st, n, children@[k])
        } else {
            malformed(IrFault::MissingField)
        },
    }
}

/// The column that the expression tree `e` denotes over the working set
/// `st` with `n` rows, or the fault that stops its evaluation. Operands are
/// evaluated from left to right, and a constant is read after its operand.
pub open spec fn eval_spec(st: PolsView, n: nat, e: Expression) -> Result<Seq<nat>, PilError>
    decreases e, 1nat,
{
    match op_of(e.op@) {
        None => malformed(IrFault::UnknownOp),
        Some(op) => match op {
            Op::Add | Op::Sub | Op::Mul => match eval_operand(st, n, e, 0) {
                Err(x) => Err(x),
                Ok(a) => match eval_operand(st, n, e, 1) {
                    Err(x) => Err(x),
                    Ok(b) => Ok(pointwise(op, a, b)),
                },
            },
            Op::Neg => match eval_operand(st, n, e, 0) {
                Err(x) => Err(x),
                Ok(a) => Ok(pointwise_const(op, a, 0)),
            },
            Op::Addc | Op::Mulc => match eval_operand(st, n, e, 0) {
                Err(x) => Err(x),
                Ok(a) => match e.const_ {
                    None => malformed(IrFault::MissingField),
                    Some(c) => Ok(pointwise_const(op, a, gl_reduce(c as int))),
                },
            },
            Op::Cm => source_column(st.cm, e.id, e.is_next(), false),
            Op::Const => source_column(st.consts, e.id, e.is_next(), false),
            Op::Exp => source_column(st.exps, e.id, e.is_next(), true),
            Op::Number => match e.value {
                None => malformed(IrFault::MissingField),
                Some(text) => match decimal_value(text@) {
                    None => malformed(IrFault::InvalidNumber),
                    Some(v) => Ok(constant_column(gl_reduce(v as int), n)),
                },
            },
            Op::Public => match e.id {
                None => malformed(IrFault::MissingField),
                Some(id) => if id >= st.publics.len() {
                    malformed(IrFault::IndexOutOfRange)
                } else {
                    Ok(constant_column(st.publics[id as int], n))
                },
            },
        },
    }
}

/// Whether `r` is the outcome `spec`, its column taken by its values.
pub open spec fn column_outcome(r: Result<Vec<Fgl>, PilError>, spec: Result<Seq<nat>, PilError>) -> bool {
    match r {
        Ok(c) => spec == Ok::<Seq<nat>, PilError>(c.deep_view()),
        Err(x) => spec == Err::<Seq<nat>, PilError>(x),
    }
}

fn fetch_column(table: &Vec<Vec<Fgl>>, id: Option<usize>, next: bool, cached: bool) -> (r: Result<
    Vec<Fgl>,
    PilError,
>)
    ensures
        column_outcome(r, source_column(table.deep_view(), id, next, cached)),
        r is Ok ==> id is Some && id->0 < table.len() && r->Ok_0.len() == table[id->0 as int].len(),
{
    match id {
        None => Err(PilError::IrMalformed(IrFault::MissingField)),
        Some(id) => {
            if id >= table.len() {
                Err(PilError::IrMalformed(IrFault::IndexOutOfRange))
            } else if cached && table[id].len() == 0 {
                Err(PilError::IrMalformed(IrFault::NotMaterialized))
            } else if next {
                Ok(rotate_column(&table[id]))
            } else {
                let c = copy_column(&table[id]);
                assert(c.deep_view() =~= table[id as int].deep_view());
                Ok(c)
            }
        },
    }
}

fn operand<'a>(e: &'a Expression, k: usize) -> (r: Option<&'a Expression>)
    ensures
        match r {
            Some(child) => e.values is Some && k < e.values->0@.len() && *child
                == e.values->0@[k as int],
            None => e.values is None || k >= e.values->0@.len(),
        },
{
    match &e.values {
        None => None,
        Some(children) => if k < children.len() {
            Some(&children[k])
        } else {
            None
        },
    }
}

/// Evaluates the expression tree `e` over the working set `pols` with `n`
/// rows.
pub fn eval_expression(pols: &Pols, n: usize, e: &Expression) -> (r: Result<Vec<Fgl>, PilError>)
    requires
        pols@.shaped(n as nat),
    ensures
        column_outcome(r, eval_spec(pols@, n as nat, *e)),
        r is Ok ==> r->Ok_0.len() == n,
    decreases e,
{
    let op = match e.operation() {
        None => {
            return Err(PilError::IrMalformed(IrFault::UnknownOp));
        },
        Some(op) => op,
    };
    match op {
        Op::Add | Op::Sub | Op::Mul => {
            let first = match operand(e, 0) {
                None => {
                    return Err(PilError::IrMalformed(IrFault::MissingField));
                },
                Some(child) => child,
            };
            let a = match eval_expression(pols, n, first) {
                Err(x) => {
                    return Err(x);
                },
                Ok(a) => a,
            };
            let second = match operand(e, 1) {
                None => {
                    return Err(PilError::IrMalformed(IrFault::MissingField));
                },
                Some(child) => child,
            };
            let b = match eval_expression(pols, n, second) {
                Err(x) => {
                    return Err(x);
                },
                Ok(b) => b,
            };
            Ok(combine_columns(op, &a, &b))
        },
        Op::Neg => {
            let first = match operand(e, 0) {
                None => {
                    return Err(PilError::IrMalformed(IrFault::MissingField));
                },
                Some(child) => child,
            };
            let a = match eval_expression(pols, n, first) {
                Err(x) => {
                    return Err(x);
                },
                Ok(a) => a,
            };
            Ok(combine_constant(op, &a, Fgl::zero()))
        },
        Op::Addc | Op::Mulc => {
            let first = match operand(e, 0) {
                None => {
                    return Err(PilError::IrMalformed(IrFault::MissingField));
                },
                Some(child) => child,
            };
            let a = match eval_expression(pols, n, first) {
                Err(x) => {
                    return Err(x);
                },
                Ok(a) => a,
            };
            match e.const_ {
                None => Err(PilError::IrMalformed(IrFault::MissingField)),
                Some(c) => Ok(combine_constant(op, &a, Fgl::from_i64(c))),
            }
        },
        Op::Cm => {
            let r = fetch_column(&pols.cm, e.id, e.next(), false);
            proof {
                if r is Ok {
                    assert(pols@.cm[e.id->0 as int].len() == pols.cm[e.id->0 as int].len());
                }
            }
            r
        },
        Op::Const => {
            let r = fetch_column(&pols.consts, e.id, e.next(), false);
            proof {
                if r is Ok {
                    assert(pols@.consts[e.id->0 as int].len() == pols.consts[e.id->0 as int].len());
                }
            }
            r
        },
        Op::Exp => {
            let r = fetch_column(&pols.exps, e.id, e.next(), true);
            proof {
                if r is Ok {
                    assert(pols@.exps[e.id->0 as int].len() == pols.exps[e.id->0 as int].len());
                }
            }
            r
        },
        Op::Number => match &e.value {
            None => Err(PilError::IrMalformed(IrFault::MissingField)),
            Some(text) => match parse_decimal(text.as_str()) {
                None => Err(PilError::IrMalformed(IrFault::InvalidNumber)),
                Some(v) => Ok(fill_column(Fgl::from_u64(v), n)),
            },
        },
        Op::Public => match e.id {
            None => Err(PilError::IrMalformed(IrFault::MissingField)),
            Some(id) => if id >= pols.publics.len() {
                Err(PilError::IrMalformed(IrFault::IndexOutOfRange))
            } else {
                Ok(fill_column(pols.publics[id], n))
            },
        },
    }
}

/// The working set after the column of expression `e` has been made
/// present: a column that is there is kept; otherwise the columns that the
/// tree of `e` refers to are made present first, then the tree is evaluated
/// and its column stored. `fuel` bounds how deep expressions may refer to
/// expressions; where it runs out, the references are taken to be circular.
pub open spec fn materialize(pil: Pil, st: PolsView, n: nat, e: int, fuel: nat) -> Result<
    PolsView,
    PilError,
>
    decreases fuel, 0nat,
{
    if !(0 <= e < pil.expressions@.len() && e < st.exps.len()) {
        malformed(IrFault::IndexOutOfRange)
    } else if st.exps[e].len() > 0 {
        Ok(st)
    } else if fuel == 0 {
        malformed(IrFault::CircularDependency)
    } else {
        match materialize_operands(pil, st, n, pil.expressions@[e], (fuel - 1) as nat) {
            Err(x) => Err(x),
            Ok(ready) => match eval_spec(ready, n, pil.expressions@[e]) {
                Err(x) => Err(x),
                Ok(column) => Ok(ready.with_expression(e, column)),
            },
        }
    }
}

/// The working set after every expression that the tree `exp` refers to has
/// been made present: the node's own reference first, then those of its
/// operands from left to right.
pub open spec fn materialize_operands(
    pil: Pil,
    st: PolsView,
    n: nat,
    exp: Expression,
    fuel: nat,
) -> Result<PolsView, PilError>
    decreases fuel, 1nat, exp,
{
    let own = if op_of(exp.op@) == Some(Op::Exp) {
        match exp.id {
            None => malformed(IrFault::MissingField),
            Some(id) => materialize(pil, st, n, id as int, fuel),
        }
    } else {
        Ok(st)
    };
    match own {
        Err(x) => Err(x),
        Ok(ready) => match exp.values {
            None => Ok(ready),
            Some(children) => materialize_children(pil, ready, n, children@, 0, fuel),
        },
    }
}

/// The working set after the references of the operands from `from` on have
/// been made present.
pub open spec fn materialize_children(
    pil: Pil,
    st: PolsView,
    n: nat,
    children: Seq<Expression>,
    from: int,
    fuel: nat,
) -> Result<PolsView, PilError>
    decreases fuel, 1nat, children, children.len() - from,
{
    if 0 <= from < children.len() {
        match materialize_operands(pil, st, n, children[from], fuel) {
            Err(x) => Err(x),
            Ok(ready) => materialize_children(pil, ready, n, children, from + 1, fuel),
        }
    } else {
        Ok(st)
    }
}

/// Whether `r`, with the working set `st` that it left, is the outcome `spec`.
pub open spec fn state_outcome(r: Result<(), PilError>, st: PolsView, spec: Result<PolsView, PilError>) -> bool {
    match r {
        Ok(_) => spec == Ok::<PolsView, PilError>(st),
        Err(x) => spec == Err::<PolsView, PilError>(x),
    }
}

/// Whether `after` differs from `before` in its expression columns at most.
pub open spec fn inputs_kept(before: Pols, after: Pols) -> bool {
    &&& after.cm == before.cm
    &&& after.consts == before.consts
    &&& after.publics == before.publics
    &&& after.exps@.len() == before.exps@.len()
}

/// Whether every expression column that is present in `before` is the
/// same in `after`.
pub open spec fn kept_present(before: PolsView, after: PolsView) -> bool {
    forall|t: int|
        0 <= t < before.exps.len() && (#[trigger] before.exps[t]).len() > 0 ==> after.exps[t]
            == before.exps[t]
}

/// Makes the column of expression `e` present in `pols`.
pub fn materialize_expression(pil: &Pil, pols: &mut Pols, n: usize, e: usize, fuel: usize) -> (r:
    Result<(), PilError>)
    requires
        old(pols)@.shaped(n as nat),
    ensures
        final(pols)@.shaped(n as nat),
        inputs_kept(*old(pols), *final(pols)),
        kept_present(old(pols)@, final(pols)@),
        r is Ok ==> e < final(pols)@.exps.len() && final(pols)@.exps[e as int].len() == n,
        state_outcome(r, final(pols)@, materialize(*pil, old(pols)@, n as nat, e as int, fuel as nat)),
    decreases fuel, 0nat,
{
    if e >= pil.expressions.len() || e >= pols.exps.len() {
        return Err(PilError::IrMalformed(IrFault::IndexOutOfRange));
    }
    if pols.exps[e].len() > 0 {
        return Ok(());
    }
    if fuel == 0 {
        return Err(PilError::IrMalformed(IrFault::CircularDependency));
    }
    match materialize_expression_operands(pil, pols, n, &pil.expressions[e], fuel - 1) {
        Err(x) => {
            return Err(x);
        },
        Ok(()) => {},
    }
    let ghost ready = pols@;
    match eval_expression(pols, n, &pil.expressions[e]) {
        Err(x) => Err(x),
        Ok(column) => {
            let ghost values = column.deep_view();
            pols.exps.set(e, column);
            assert(pols@.exps =~= ready.exps.update(e as int, values));
            assert(pols@ == ready.with_expression(e as int, values));
            Ok(())
        },
    }
}

/// Makes the column of every expression that the tree `exp` refers to
/// present in `pols`.
pub fn materialize_expression_operands(
    pil: &Pil,
    pols: &mut Pols,
    n: usize,
    exp: &Expression,
    fuel: usize,
) -> (r: Result<(), PilError>)
    requires
        old(pols)@.shaped(n as nat),
    ensures
        final(pols)@.shaped(n as nat),
        inputs_kept(*old(pols), *final(pols)),
        kept_present(old(pols)@, final(pols)@),
        state_outcome(
            r,
            final(pols)@,
            materialize_operands(*pil, old(pols)@, n as nat, *exp, fuel as nat),
        ),
    decreases fuel, 1nat, exp,
{
    let refers = match exp.operation() {
        Some(Op::Exp) => true,
        _ => false,
    };
    if refers {
        match exp.id {
            None => {
                return Err(PilError::IrMalformed(IrFault::MissingField));
            },
            Some(id) => match materialize_expression(pil, pols, n, id, fuel) {
                Err(x) => {
                    return Err(x);
                },
                Ok(()) => {},
            },
        }
    }
    match &exp.values {
        None => Ok(()),
        Some(children) => {
            let ghost ready = pols@;
            let mut i: usize = 0;
            while i < children.len()
                invariant
                    i <= children.len(),
                    pols@.shaped(n as nat),
                    inputs_kept(*old(pols), *pols),
                    kept_present(old(pols)@, pols@),
                    exp.values == Some(*children),
                    materialize_operands(*pil, old(pols)@, n as nat, *exp, fuel as nat)
                        == materialize_children(*pil, ready, n as nat, children@, 0, fuel as nat),
                    materialize_children(*pil, ready, n as nat, children@, 0, fuel as nat)
                        == materialize_children(*pil, pols@, n as nat, children@, i as int, fuel as nat),
                decreases children.len() - i,
            {
                match materialize_expression_operands(pil, pols, n, &children[i], fuel) {
                    Err(x) => {
                        return Err(x);
                    },
                    Ok(()) => {},
                }
                i = i + 1;
            }
            Ok(())
        },
    }
}

/// A column that an evaluation gives has as many rows as the working set.
pub proof fn lemma_eval_rows(st: PolsView, n: nat, e: Expression)
    requires
        st.shaped(n),
    ensures
        eval_spec(st, n, e) is Ok ==> eval_spec(st, n, e)->Ok_0.len() == n,
    decreases e,
{
    if e.values is Some && e.values->0@.len() > 0 {
        lemma_eval_rows(st, n, e.values->0@[0]);
    }
}

/// Whether the tree `e` has no node that refers to an expression column:
/// its sources are commitments, constants, publics and numbers.
pub open spec fn reads_inputs_only(e: Expression) -> bool
    decreases e, 1nat,
{
    if op_of(e.op@) == Some(Op::Exp) {
        false
    } else {
        match e.values {
            Some(children) => all_read_inputs_only(children@, children@.len() as int),
            None => true,
        }
    }
}

/// Whether none of the first `upto` trees has a node that refers to an
/// expression column.
pub open spec fn all_read_inputs_only(children: Seq<Expression>, upto: int) -> bool
    decreases children, upto,
{
    if upto <= 0 || upto > children.len() {
        true
    } else {
        reads_inputs_only(children[upto - 1]) && all_read_inputs_only(children, upto - 1)
    }
}

proof fn lemma_each_reads_inputs_only(children: Seq<Expression>, upto: int, k: int)
    requires
        all_read_inputs_only(children, upto),
        0 <= k < upto <= children.len(),
    ensures
        reads_inputs_only(children[k]),
    decreases upto,
{
    if k < upto - 1 {
        lemma_each_reads_inputs_only(children, upto - 1, k);
    }
}

/// Whether two working sets hold the same commitments, constants and
/// publics.
pub open spec fn same_inputs(a: PolsView, b: PolsView) -> bool {
    a.cm == b.cm && a.consts == b.consts && a.publics == b.publics
}

/// The evaluation of a tree that refers to no expression column depends on
/// the commitments, the constants and the publics alone: whatever the
/// expression columns hold, it gives the same column or the same fault.
pub proof fn lemma_eval_reads_inputs_only(a: PolsView, b: PolsView, n: nat, e: Expression)
    requires
        same_inputs(a, b),
        reads_inputs_only(e),
    ensures
        eval_spec(a, n, e) == eval_spec(b, n, e),
    decreases e,
{
    if e.values is Some {
        let children = e.values->0@;
        if children.len() > 0 {
            lemma_each_reads_inputs_only(children, children.len() as int, 0);
            lemma_eval_reads_inputs_only(a, b, n, children[0]);
        }
        if children.len() > 1 {
            lemma_each_reads_inputs_only(children, children.len() as int, 1);
            lemma_eval_reads_inputs_only(a, b, n, children[1]);
        }
    }
}

/// Whether `after` is a working set that making columns present in `before`
/// can leave: of the same shape, with the same inputs, and with every column
/// that was present unchanged.
pub open spec fn extends(before: PolsView, after: PolsView, n: nat) -> bool {
    &&& after.shaped(n)
    &&& same_inputs(before, after)
    &&& after.exps.len() == before.exps.len()
    &&& kept_present(before, after)
}

/// Making the column of an expression present keeps the shape and the
/// inputs of the working set and every column that was present, and leaves
/// the column of the expression with all its rows.
pub proof fn lemma_materialize_extends(pil: Pil, st: PolsView, n: nat, e: int, fuel: nat)
    requires
        st.shaped(n),
    ensures
        materialize(pil, st, n, e, fuel) is Ok ==> {
            let after = materialize(pil, st, n, e, fuel)->Ok_0;
            &&& extends(st, after, n)
            &&& 0 <= e < after.exps.len()
            &&& after.exps[e].len() == n
        },
    decreases fuel, 0nat,
{
    if 0 <= e < pil.expressions@.len() && e < st.exps.len() && st.exps[e].len() == 0 && fuel > 0 {
        let tree = pil.expressions@[e];
        lemma_materialize_operands_extends(pil, st, n, tree, (fuel - 1) as nat);
        if materialize_operands(pil, st, n, tree, (fuel - 1) as nat) is Ok {
            let ready = materialize_operands(pil, st, n, tree, (fuel - 1) as nat)->Ok_0;
            lemma_eval_rows(ready, n, tree);
        }
    }
}

/// Making the columns that a tree refers to present keeps the shape and the
/// inputs of the working set and every column that was present.
pub proof fn lemma_materialize_operands_extends(
    pil: Pil,
    st: PolsView,
    n: nat,
    exp: Expression,
    fuel: nat,
)
    requires
        st.shaped(n),
    ensures
        materialize_operands(pil, st, n, exp, fuel) is Ok ==> extends(
            st,
            materialize_operands(pil, st, n, exp, fuel)->Ok_0,
            n,
        ),
    decreases fuel, 1nat, exp,
{
    let own = if op_of(exp.op@) == Some(Op::Exp) {
        match exp.id {
            None => malformed(IrFault::MissingField),
            Some(id) => materialize(pil, st, n, id as int, fuel),
        }
    } else {
        Ok(st)
    };
    if op_of(exp.op@) == Some(Op::Exp) && exp.id is Some {
        lemma_materialize_extends(pil, st, n, exp.id->0 as int, fuel);
    }
    if own is Ok && exp.values is Some {
        lemma_materialize_children_extends(pil, own->Ok_0, n, exp.values->0@, 0, fuel);
    }
}

proof fn lemma_materialize_children_extends(
    pil: Pil,
    st: PolsView,
    n: nat,
    children: Seq<Expression>,
    from: int,
    fuel: nat,
)
    requires
        st.shaped(n),
    ensures
        materialize_children(pil, st, n, children, from, fuel) is Ok ==> extends(
            st,
            materialize_children(pil, st, n, children, from, fuel)->Ok_0,
            n,
        ),
    decreases fuel, 1nat, children, children.len() - from,
{
    if 0 <= from < children.len() {
        lemma_materialize_operands_extends(pil, st, n, children[from], fuel);
        if materialize_operands(pil, st, n, children[from], fuel) is Ok {
            let ready = materialize_operands(pil, st, n, children[from], fuel)->Ok_0;
            lemma_materialize_children_extends(pil, ready, n, children, from + 1, fuel);
        }
    }
}

/// Once the column of an expression has been made present, making it
/// present again changes nothing, whatever the fuel: the column is the one
/// that is kept, and nothing is evaluated.
pub proof fn lemma_materialize_again(
    pil: Pil,
    st: PolsView,
    n: nat,
    e: int,
    fuel: nat,
    again: nat,
)
    requires
        st.shaped(n),
        materialize(pil, st, n, e, fuel) is Ok,
    ensures
        materialize(pil, materialize(pil, st, n, e, fuel)->Ok_0, n, e, again) == materialize(
            pil,
            st,
            n,
            e,
            fuel,
        ),
{
    lemma_materialize_extends(pil, st, n, e, fuel);
}

/// An evaluation that succeeds gives the same column after more columns
/// have been made present.
pub proof fn lemma_eval_stable(st: PolsView, after: PolsView, n: nat, e: Expression)
    requires
        extends(st, after, n),
        eval_spec(st, n, e) is Ok,
    ensures
        eval_spec(after, n, e) == eval_spec(st, n, e),
    decreases e,
{
    if e.values is Some {
        let children = e.values->0@;
        if children.len() > 0 && eval_spec(st, n, children[0]) is Ok {
            lemma_eval_stable(st, after, n, children[0]);
        }
        if children.len() > 1 && eval_spec(st, n, children[1]) is Ok {
            lemma_eval_stable(st, after, n, children[1]);
        }
    }
}

/// Whether every expression column that is present is what the evaluation
/// of its tree over the working set gives.
pub open spec fn settled(pil: Pil, st: PolsView, n: nat) -> bool {
    forall|i: int|
        0 <= i < st.exps.len() && i < pil.expressions@.len() && (#[trigger] st.exps[i]).len() > 0
            ==> eval_spec(st, n, pil.expressions@[i]) == Ok::<Seq<nat>, PilError>(st.exps[i])
}

/// Making the column of an expression present keeps a settled working set
/// settled: the column of the expression, like every other that is present,
/// is what the evaluation of its tree over the working set gives.
pub proof fn lemma_materialize_settled(pil: Pil, st: PolsView, n: nat, e: int, fuel: nat)
    requires
        st.shaped(n),
        settled(pil, st, n),
        materialize(pil, st, n, e, fuel) is Ok,
    ensures
        settled(pil, materialize(pil, st, n, e, fuel)->Ok_0, n),
        eval_spec(materialize(pil, st, n, e, fuel)->Ok_0, n, pil.expressions@[e]) == Ok::<
            Seq<nat>,
            PilError,
        >(materialize(pil, st, n, e, fuel)->Ok_0.exps[e]),
    decreases fuel, 0nat,
{
    lemma_materialize_extends(pil, st, n, e, fuel);
    if st.exps[e].len() == 0 {
        let tree = pil.expressions@[e];
        let ready = materialize_operands(pil, st, n, tree, (fuel - 1) as nat)->Ok_0;
        let column = eval_spec(ready, n, tree)->Ok_0;
        let after = ready.with_expression(e, column);
        lemma_materialize_operands_extends(pil, st, n, tree, (fuel - 1) as nat);
        lemma_materialize_operands_settled(pil, st, n, tree, (fuel - 1) as nat);
        lemma_eval_rows(ready, n, tree);
        if ready.exps[e].len() > 0 {
            assert(after.exps =~= ready.exps);
        } else {
            assert(extends(ready, after, n));
            lemma_eval_stable(ready, after, n, tree);
            assert forall|i: int|
                0 <= i < after.exps.len() && i < pil.expressions@.len() && (
                #[trigger] after.exps[i]).len() > 0 implies eval_spec(after, n, pil.expressions@[i])
                == Ok::<Seq<nat>, PilError>(after.exps[i]) by {
                if i != e {
                    assert(ready.exps[i].len() > 0);
                    lemma_eval_stable(ready, after, n, pil.expressions@[i]);
                }
            }
        }
    }
}

/// Making the columns that a tree refers to present keeps a settled working
/// set settled.
pub proof fn lemma_materialize_operands_settled(
    pil: Pil,
    st: PolsView,
    n: nat,
    exp: Expression,
    fuel: nat,
)
    requires
        st.shaped(n),
        settled(pil, st, n),
        materialize_operands(pil, st, n, exp, fuel) is Ok,
    ensures
        settled(pil, materialize_operands(pil, st, n, exp, fuel)->Ok_0, n),
    decreases fuel, 1nat, exp,
{
    let own = if op_of(exp.op@) == Some(Op::Exp) {
        match exp.id {
            None => malformed(IrFault::MissingField),
            Some(id) => materialize(pil, st, n, id as int, fuel),
        }
    } else {
        Ok(st)
    };
    if op_of(exp.op@) == Some(Op::Exp) {
        lemma_materialize_extends(pil, st, n, exp.id->0 as int, fuel);
        lemma_materialize_settled(pil, st, n, exp.id->0 as int, fuel);
    }
    if exp.values is Some {
        lemma_materialize_children_settled(pil, own->Ok_0, n, exp.values->0@, 0, fuel);
    }
}

proof fn lemma_materialize_children_settled(
    pil: Pil,
    st: PolsView,
    n: nat,
    children: Seq<Expression>,
    from: int,
    fuel: nat,
)
    requires
        st.shaped(n),
        settled(pil, st, n),
        materialize_children(pil, st, n, children, from, fuel) is Ok,
    ensures
        settled(pil, materialize_children(pil, st, n, children, from, fuel)->Ok_0, n),
    decreases fuel, 1nat, children, children.len() - from,
{
    if 0 <= from < children.len() {
        let ready = materialize_operands(pil, st, n, children[from], fuel)->Ok_0;
        lemma_materialize_operands_extends(pil, st, n, children[from], fuel);
        lemma_materialize_operands_settled(pil, st, n, children[from], fuel);
        lemma_materialize_children_settled(pil, ready, n, children, from + 1, fuel);
    }
}

} // verus!
