//! The verifier: it resolves the public values, then checks each connection
//! identity row by row against the map of the cosets.

use crate::columns::{
    copy_column, copy_table, empty_table, fill_column, has_rows, rotate, rotate_column,
    table_has_rows,
};
use crate::connection_map::{
    build_connection_map, coset_position, is_coset_map, lemma_coset_map_position, ConnectionMap,
};
use crate::domain::{
    coset_shift, get_ks, get_roots, is_domain_size, log2_exact, root_of_unity, MAX_COSETS,
    MAX_LOG_SIZE,
};
use crate::error::{IrFault, PilError};
use crate::evaluator::{
    column_outcome, eval_expression, eval_spec, extends, inputs_kept, kept_present,
    lemma_materialize_settled, malformed, materialize, materialize_expression,
    materialize_expression_operands, materialize_operands, settled, state_outcome, Pols, PolsView,
};
use crate::field::Fgl;
use crate::pil::{
    public_kind_of, reference_kind_of, Expression, Pil, PilConnectionIdentity, PublicKind,
};
use crate::polarray::PolsArray;
use crate::violation::{report_of, Violation};
use std::collections::HashMap;
use vstd::arithmetic::power2::*;
use vstd::prelude::*;

verus! {

broadcast use vstd::std_specs::hash::group_hash_axioms;

/// The working set before anything is computed: the given columns, no
/// expression column, and every public value zero.
pub open spec fn fresh_state(pil: Pil, cm: Seq<Seq<nat>>, consts: Seq<Seq<nat>>) -> PolsView {
    PolsView {
        cm,
        consts,
        exps: Seq::new(pil.expressions@.len(), |i: int| Seq::<nat>::empty()),
        publics: Seq::new(pil.publics@.len(), |i: int| 0nat),
    }
}

/// The working set after public `i` has been resolved: a public of a
/// commitment reads its cell; a public of an expression has the column made
/// present, reads its cell and releases the column.
pub open spec fn resolve_public(pil: Pil, st: PolsView, n: nat, i: int) -> Result<
    PolsView,
    PilError,
> {
    let p = pil.publics@[i];
    match public_kind_of(p.pol_type@) {
        None => malformed(IrFault::UnknownPublicKind),
        Some(PublicKind::Commit) => if p.pol_id < st.cm.len() && p.idx < n {
            Ok(st.with_public(i, st.cm[p.pol_id as int][p.idx as int]))
        } else {
            malformed(IrFault::IndexOutOfRange)
        },
        Some(PublicKind::Intermediate) => match materialize(
            pil,
            st,
            n,
            p.pol_id as int,
            pil.expressions@.len(),
        ) {
            Err(x) => Err(x),
            Ok(ready) => if p.idx < n {
                Ok(
                    ready.with_public(i, ready.exps[p.pol_id as int][p.idx as int]).with_expression(
                        p.pol_id as int,
                        Seq::empty(),
                    ),
                )
            } else {
                malformed(IrFault::IndexOutOfRange)
            },
        },
    }
}

/// The working set after the publics from `from` on have been resolved, in
/// their order.
pub open spec fn resolve_publics(pil: Pil, st: PolsView, n: nat, from: int) -> Result<
    PolsView,
    PilError,
>
    decreases pil.publics@.len() - from,
{
    if 0 <= from < pil.publics@.len() {
        match resolve_public(pil, st, n, from) {
            Err(x) => Err(x),
            Ok(next) => resolve_publics(pil, next, n, from + 1),
        }
    } else {
        Ok(st)
    }
}

/// The working set after the columns of the expressions `ids`, from place
/// `from` on, have been made present, in their order.
pub open spec fn materialize_all(pil: Pil, st: PolsView, n: nat, ids: Seq<usize>, from: int) -> Result<
    PolsView,
    PilError,
>
    decreases ids.len() - from,
{
    if 0 <= from < ids.len() {
        match materialize(pil, st, n, ids[from] as int, pil.expressions@.len()) {
            Err(x) => Err(x),
            Ok(ready) => materialize_all(pil, ready, n, ids, from + 1),
        }
    } else {
        Ok(st)
    }
}

/// The working set after the columns of the first `upto` expressions of
/// `ids` have been released.
pub open spec fn release_all(st: PolsView, ids: Seq<usize>, upto: int) -> PolsView
    decreases upto,
{
    if upto <= 0 {
        st
    } else {
        release_all(st, ids, upto - 1).with_expression(ids[upto - 1] as int, Seq::empty())
    }
}

/// What the check finds at row `i` of source `j` of the identity `ci`: the
/// destination value must be an element of the cosets, and the source cell
/// at the position of that element must hold the value of this source cell.
pub open spec fn cell_violation(
    st: PolsView,
    log_n: nat,
    ci: PilConnectionIdentity,
    identity: usize,
    j: int,
    i: int,
) -> Option<Violation> {
    let v1 = st.exps[ci.pols@[j] as int][i];
    let a = st.exps[ci.connections@[j] as int][i];
    match coset_position(log_n, ci.pols@.len(), a) {
        None => Some(
            Violation::InvalidCopyValue { identity, j: j as usize, i: i as usize, v1: v1 as u64 },
        ),
        Some((cp, cw)) => {
            let v2 = st.exps[ci.pols@[cp as int] as int][cw as int];
            if v1 != v2 {
                Some(
                    Violation::ConnectionMismatch {
                        identity,
                        j: j as usize,
                        i: i as usize,
                        cp: cp as usize,
                        cw: cw as usize,
                        v1: v1 as u64,
                        v2: v2 as u64,
                    },
                )
            } else {
                None
            }
        },
    }
}

/// The violations in the first `rows` rows of source `j`, in their order.
pub open spec fn column_scan(
    st: PolsView,
    log_n: nat,
    ci: PilConnectionIdentity,
    identity: usize,
    j: int,
    rows: int,
) -> Seq<Violation>
    decreases rows,
{
    if rows <= 0 {
        Seq::empty()
    } else {
        let before = column_scan(st, log_n, ci, identity, j, rows - 1);
        match cell_violation(st, log_n, ci, identity, j, rows - 1) {
            Some(v) => before.push(v),
            None => before,
        }
    }
}

/// The violations in all `n` rows of the first `cols` sources, source after
/// source. Every violation is reported: the scan does not stop at the first.
pub open spec fn identity_scan(
    st: PolsView,
    log_n: nat,
    n: nat,
    ci: PilConnectionIdentity,
    identity: usize,
    cols: int,
) -> Seq<Violation>
    decreases cols,
{
    if cols <= 0 {
        Seq::empty()
    } else {
        identity_scan(st, log_n, n, ci, identity, cols - 1) + column_scan(
            st,
            log_n,
            ci,
            identity,
            cols - 1,
            n as int,
        )
    }
}

/// Whether the cell at row `i` of source `j` satisfies the identity `ci`: its
/// destination value is the element at some row `cw` of some coset `cp`, and
/// the source cell at row `cw` of source `cp` holds the value of this cell.
pub open spec fn cell_satisfied(
    st: PolsView,
    log_n: nat,
    ci: PilConnectionIdentity,
    j: int,
    i: int,
) -> bool {
    match coset_position(
        log_n,
        ci.pols@.len(),
        st.exps[ci.connections@[j] as int][i],
    ) {
        Some((cp, cw)) => st.exps[ci.pols@[j] as int][i] == st.exps[ci.pols@[cp as int] as int][cw
            as int],
        None => false,
    }
}

/// A scan of a source finds no violation exactly if every cell of its rows
/// satisfies the identity.
pub proof fn lemma_column_scan_empty(
    st: PolsView,
    log_n: nat,
    ci: PilConnectionIdentity,
    identity: usize,
    j: int,
    rows: int,
)
    ensures
        column_scan(st, log_n, ci, identity, j, rows).len() == 0 <==> forall|i: int|
            0 <= i < rows ==> cell_satisfied(st, log_n, ci, j, i),
    decreases rows,
{
    if rows > 0 {
        lemma_column_scan_empty(st, log_n, ci, identity, j, rows - 1);
        if column_scan(st, log_n, ci, identity, j, rows).len() == 0 {
            assert forall|i: int| 0 <= i < rows implies cell_satisfied(st, log_n, ci, j, i) by {
                if i == rows - 1 {
                    assert(cell_violation(st, log_n, ci, identity, j, rows - 1) is None);
                }
            }
        } else {
            if column_scan(st, log_n, ci, identity, j, rows - 1).len() == 0 {
                assert(!cell_satisfied(st, log_n, ci, j, rows - 1));
            }
        }
    }
}

/// A scan of an identity finds no violation exactly if every cell of every
/// source satisfies the identity.
pub proof fn lemma_identity_scan_empty(
    st: PolsView,
    log_n: nat,
    n: nat,
    ci: PilConnectionIdentity,
    identity: usize,
    cols: int,
)
    ensures
        identity_scan(st, log_n, n, ci, identity, cols).len() == 0 <==> forall|j: int, i: int|
            0 <= j < cols && 0 <= i < n ==> cell_satisfied(st, log_n, ci, j, i),
    decreases cols,
{
    if cols > 0 {
        lemma_identity_scan_empty(st, log_n, n, ci, identity, cols - 1);
        lemma_column_scan_empty(st, log_n, ci, identity, cols - 1, n as int);
        if identity_scan(st, log_n, n, ci, identity, cols).len() == 0 {
            assert forall|j: int, i: int| 0 <= j < cols && 0 <= i < n implies cell_satisfied(
                st,
                log_n,
                ci,
                j,
                i,
            ) by {
                if j == cols - 1 {
                    assert(column_scan(st, log_n, ci, identity, cols - 1, n as int).len() == 0);
                }
            }
        } else {
            let last = cols - 1;
            if identity_scan(st, log_n, n, ci, identity, last).len() == 0 {
                assert(column_scan(st, log_n, ci, identity, last, n as int).len() != 0);
                let i = choose|i: int|
                    0 <= i < n && !#[trigger] cell_satisfied(st, log_n, ci, last, i);
                assert(!cell_satisfied(st, log_n, ci, last, i));
            } else {
                let (j, i) = choose|j: int, i: int|
                    0 <= j < last && 0 <= i < n && !#[trigger] cell_satisfied(st, log_n, ci, j, i);
                assert(!cell_satisfied(st, log_n, ci, j, i));
            }
        }
    }
}

/// The violations of identity `c` and the working set that its check leaves:
/// the sources and then the destinations are made present, every row is
/// checked, and the columns of both are released.
pub open spec fn check_identity(pil: Pil, st: PolsView, n: nat, log_n: nat, c: int) -> Result<
    (Seq<Violation>, PolsView),
    PilError,
> {
    let ci = pil.connection_identities@[c];
    let k = ci.pols@.len();
    if k != ci.connections@.len() || k > MAX_COSETS {
        malformed(IrFault::InvalidConnection)
    } else {
        match materialize_all(pil, st, n, ci.pols@, 0) {
            Err(x) => Err(x),
            Ok(sources) => match materialize_all(pil, sources, n, ci.connections@, 0) {
                Err(x) => Err(x),
                Ok(ready) => Ok(
                    (
                        identity_scan(ready, log_n, n, ci, c as usize, k as int),
                        release_all(
                            release_all(ready, ci.pols@, k as int),
                            ci.connections@,
                            k as int,
                        ),
                    ),
                ),
            },
        }
    }
}

/// The violations of the identities from `from` on, after those in `found`,
/// and the working set that the check of the last one leaves.
pub open spec fn check_identities(
    pil: Pil,
    st: PolsView,
    n: nat,
    log_n: nat,
    from: int,
    found: Seq<Violation>,
) -> Result<(Seq<Violation>, PolsView), PilError>
    decreases pil.connection_identities@.len() - from,
{
    if 0 <= from < pil.connection_identities@.len() {
        match check_identity(pil, st, n, log_n, from) {
            Err(x) => Err(x),
            Ok((violations, next)) => check_identities(
                pil,
                next,
                n,
                log_n,
                from + 1,
                found + violations,
            ),
        }
    } else {
        Ok((found, st))
    }
}

/// Whether some reference of the program has a kind that is not known.
pub open spec fn has_unknown_reference(pil: Pil) -> bool {
    exists|i: int|
        0 <= i < pil.references@.len() && reference_kind_of(
            (#[trigger] pil.references@[i]).inner.reference_type@,
        ) is None
}

/// The violations that the program's connection identities have over the
/// given columns of `n = 2^log_n` rows, with the working set that the check
/// leaves, or the fault that stops the check: a reference of unknown kind
/// first; then the publics are resolved over a fresh working set, in their
/// order; then the identities are checked, in their order.
pub open spec fn verify_run(pil: Pil, cm: Seq<Seq<nat>>, consts: Seq<Seq<nat>>, n: nat, log_n: nat) -> Result<
    (Seq<Violation>, PolsView),
    PilError,
> {
    if has_unknown_reference(pil) {
        malformed(IrFault::UnknownReferenceKind)
    } else {
        match resolve_publics(pil, fresh_state(pil, cm, consts), n, 0) {
            Err(x) => Err(x),
            Ok(st) => check_identities(pil, st, n, log_n, 0, Seq::empty()),
        }
    }
}

/// The violations that the program's connection identities have over the
/// given columns of `n = 2^log_n` rows, or the fault that stops the check.
pub open spec fn verify_spec(pil: Pil, cm: Seq<Seq<nat>>, consts: Seq<Seq<nat>>, n: nat, log_n: nat) -> Result<
    Seq<Violation>,
    PilError,
> {
    match verify_run(pil, cm, consts, n, log_n) {
        Ok((found, _)) => Ok(found),
        Err(x) => Err(x),
    }
}

/// Whether the working set fits the program: one slot for each expression
/// and for each public.
pub open spec fn fits(pil: Pil, st: PolsView) -> bool {
    &&& st.exps.len() == pil.expressions@.len()
    &&& st.publics.len() == pil.publics@.len()
}

fn resolve_public_values(pil: &Pil, pols: &mut Pols, n: usize) -> (r: Result<(), PilError>)
    requires
        old(pols)@.shaped(n as nat),
        fits(*pil, old(pols)@),
    ensures
        final(pols)@.shaped(n as nat),
        fits(*pil, final(pols)@),
        final(pols).cm == old(pols).cm,
        final(pols).consts == old(pols).consts,
        state_outcome(r, final(pols)@, resolve_publics(*pil, old(pols)@, n as nat, 0)),
{
    let mut i: usize = 0;
    while i < pil.publics.len()
        invariant
            i <= pil.publics.len(),
            pols@.shaped(n as nat),
            fits(*pil, pols@),
            pols.cm == old(pols).cm,
            pols.consts == old(pols).consts,
            resolve_publics(*pil, old(pols)@, n as nat, 0) == resolve_publics(
                *pil,
                pols@,
                n as nat,
                i as int,
            ),
        decreases pil.publics.len() - i,
    {
        let p = &pil.publics[i];
        let ghost before = pols@;
        match p.kind() {
            None => {
                return Err(PilError::IrMalformed(IrFault::UnknownPublicKind));
            },
            Some(PublicKind::Commit) => {
                if p.pol_id < pols.cm.len() && p.idx < n {
                    assert(pols@.cm[p.pol_id as int].len() == n);
                    assert(pols@.cm[p.pol_id as int] == pols.cm[p.pol_id as int].deep_view());
                    let value = pols.cm[p.pol_id][p.idx];
                    pols.publics.set(i, value);
                    assert(pols@.publics =~= before.publics.update(i as int, value@));
                    assert(pols@ == before.with_public(i as int, value@));
                } else {
                    return Err(PilError::IrMalformed(IrFault::IndexOutOfRange));
                }
            },
            Some(PublicKind::Intermediate) => {
                match materialize_expression(pil, pols, n, p.pol_id, pil.expressions.len()) {
                    Err(x) => {
                        return Err(x);
                    },
                    Ok(()) => {},
                }
                let ghost ready = pols@;
                if p.idx < n {
                    assert(pols@.exps[p.pol_id as int] == pols.exps[p.pol_id as int].deep_view());
                    let value = pols.exps[p.pol_id][p.idx];
                    pols.publics.set(i, value);
                    let released: Vec<Fgl> = Vec::new();
                    assert(released.deep_view() =~= Seq::<nat>::empty());
                    pols.exps.set(p.pol_id, released);
                    assert(pols@.publics =~= ready.publics.update(i as int, value@));
                    assert(pols@.exps =~= ready.exps.update(p.pol_id as int, Seq::empty()));
                    assert(pols@ == ready.with_public(i as int, value@).with_expression(
                        p.pol_id as int,
                        Seq::empty(),
                    ));
                } else {
                    return Err(PilError::IrMalformed(IrFault::IndexOutOfRange));
                }
            },
        }
        i = i + 1;
    }
    Ok(())
}

/// Whether the columns of all the expressions `ids` are present in `st`.
pub open spec fn all_present(st: PolsView, n: nat, ids: Seq<usize>, upto: int) -> bool {
    forall|t: int|
        0 <= t < upto ==> (#[trigger] ids[t]) < st.exps.len() && st.exps[ids[t] as int].len() == n
}

fn materialize_list(pil: &Pil, pols: &mut Pols, n: usize, ids: &Vec<usize>) -> (r: Result<
    (),
    PilError,
>)
    requires
        old(pols)@.shaped(n as nat),
    ensures
        final(pols)@.shaped(n as nat),
        inputs_kept(*old(pols), *final(pols)),
        kept_present(old(pols)@, final(pols)@),
        state_outcome(r, final(pols)@, materialize_all(*pil, old(pols)@, n as nat, ids@, 0)),
        r is Ok ==> all_present(final(pols)@, n as nat, ids@, ids@.len() as int),
{
    let mut t: usize = 0;
    while t < ids.len()
        invariant
            t <= ids.len(),
            pols@.shaped(n as nat),
            inputs_kept(*old(pols), *pols),
            kept_present(old(pols)@, pols@),
            all_present(pols@, n as nat, ids@, t as int),
            materialize_all(*pil, old(pols)@, n as nat, ids@, 0) == materialize_all(
                *pil,
                pols@,
                n as nat,
                ids@,
                t as int,
            ),
        decreases ids.len() - t,
    {
        let ghost before = pols@;
        match materialize_expression(pil, pols, n, ids[t], pil.expressions.len()) {
            Err(x) => {
                return Err(x);
            },
            Ok(()) => {},
        }
        proof {
            assert forall|u: int| 0 <= u < t + 1 implies (#[trigger] ids@[u]) < pols@.exps.len()
                && pols@.exps[ids@[u] as int].len() == n by {
                if u < t {
                    assert(before.exps[ids@[u] as int].len() > 0);
                }
            }
        }
        t = t + 1;
    }
    Ok(())
}

fn release_list(pols: &mut Pols, n: usize, ids: &Vec<usize>)
    requires
        old(pols)@.shaped(n as nat),
        forall|t: int| 0 <= t < ids@.len() ==> (#[trigger] ids@[t]) < old(pols)@.exps.len(),
    ensures
        final(pols)@.shaped(n as nat),
        inputs_kept(*old(pols), *final(pols)),
        final(pols)@ == release_all(old(pols)@, ids@, ids@.len() as int),
{
    let mut t: usize = 0;
    while t < ids.len()
        invariant
            t <= ids.len(),
            pols@.shaped(n as nat),
            inputs_kept(*old(pols), *pols),
            forall|u: int| 0 <= u < ids@.len() ==> (#[trigger] ids@[u]) < pols@.exps.len(),
            pols@ == release_all(old(pols)@, ids@, t as int),
        decreases ids.len() - t,
    {
        let ghost before = pols@;
        let id: usize = ids[t];
        let released: Vec<Fgl> = Vec::new();
        assert(released.deep_view() =~= Seq::<nat>::empty());
        pols.exps.set(id, released);
        assert(pols@.exps =~= before.exps.update(id as int, Seq::empty()));
        assert(pols@ == before.with_expression(id as int, Seq::empty()));
        t = t + 1;
    }
}

fn check_cell(
    pols: &Pols,
    n: usize,
    log_n: u32,
    map: &ConnectionMap,
    ci: &PilConnectionIdentity,
    identity: usize,
    j: usize,
    i: usize,
) -> (r: Option<Violation>)
    requires
        n as nat == pow2(log_n as nat),
        log_n <= MAX_LOG_SIZE,
        ci.pols@.len() == ci.connections@.len(),
        ci.pols@.len() <= MAX_COSETS,
        is_coset_map(*map, log_n as nat, ci.pols@.len()),
        all_present(pols@, n as nat, ci.pols@, ci.pols@.len() as int),
        all_present(pols@, n as nat, ci.connections@, ci.pols@.len() as int),
        j < ci.pols@.len(),
        i < n,
    ensures
        r == cell_violation(pols@, log_n as nat, *ci, identity, j as int, i as int),
{
    let source: usize = ci.pols[j];
    let destination: usize = ci.connections[j];
    assert(ci.pols@[j as int] < pols@.exps.len());
    assert(ci.connections@[j as int] < pols@.exps.len());
    assert(pols@.exps[source as int] == pols.exps[source as int].deep_view());
    assert(pols@.exps[destination as int] == pols.exps[destination as int].deep_view());
    let v1: u64 = pols.exps[source][i].as_int();
    let a: u64 = pols.exps[destination][i].as_int();
    proof {
        lemma_coset_map_position(*map, log_n as nat, ci.pols@.len(), a);
    }
    match map.get(a) {
        None => Some(Violation::InvalidCopyValue { identity, j, i, v1 }),
        Some((cp, cw)) => {
            let wired: usize = ci.pols[cp as usize];
            assert(ci.pols@[cp as int] < pols@.exps.len());
            assert(pols@.exps[wired as int] == pols.exps[wired as int].deep_view());
            let v2: u64 = pols.exps[wired][cw as usize].as_int();
            if v1 != v2 {
                Some(
                    Violation::ConnectionMismatch {
                        identity,
                        j,
                        i,
                        cp: cp as usize,
                        cw: cw as usize,
                        v1,
                        v2,
                    },
                )
            } else {
                None
            }
        },
    }
}

fn scan_identity(
    pols: &Pols,
    n: usize,
    log_n: u32,
    map: &ConnectionMap,
    ci: &PilConnectionIdentity,
    identity: usize,
    found: &mut Vec<Violation>,
)
    requires
        n as nat == pow2(log_n as nat),
        log_n <= MAX_LOG_SIZE,
        ci.pols@.len() == ci.connections@.len(),
        ci.pols@.len() <= MAX_COSETS,
        is_coset_map(*map, log_n as nat, ci.pols@.len()),
        all_present(pols@, n as nat, ci.pols@, ci.pols@.len() as int),
        all_present(pols@, n as nat, ci.connections@, ci.pols@.len() as int),
    ensures
        final(found)@ == old(found)@ + identity_scan(
            pols@,
            log_n as nat,
            n as nat,
            *ci,
            identity,
            ci.pols@.len() as int,
        ),
        forall|t: int|
            old(found)@.len() <= t < final(found)@.len() ==> (#[trigger] final(found)@[t]).identity_index()
                == identity,
{
    let k: usize = ci.pols.len();
    let mut j: usize = 0;
    assert(found@ =~= old(found)@ + Seq::<Violation>::empty());
    while j < k
        invariant
            j <= k,
            k == ci.pols@.len(),
            n as nat == pow2(log_n as nat),
            log_n <= MAX_LOG_SIZE,
            ci.pols@.len() == ci.connections@.len(),
            ci.pols@.len() <= MAX_COSETS,
            is_coset_map(*map, log_n as nat, ci.pols@.len()),
            all_present(pols@, n as nat, ci.pols@, ci.pols@.len() as int),
            all_present(pols@, n as nat, ci.connections@, ci.pols@.len() as int),
            found@ == old(found)@ + identity_scan(
                pols@,
                log_n as nat,
                n as nat,
                *ci,
                identity,
                j as int,
            ),
            forall|t: int|
                old(found)@.len() <= t < found@.len() ==> (#[trigger] found@[t]).identity_index()
                    == identity,
        decreases k - j,
    {
        let ghost base = found@;
        let mut i: usize = 0;
        assert(found@ =~= base + Seq::<Violation>::empty());
        while i < n
            invariant
                i <= n,
                j < k,
                k == ci.pols@.len(),
                n as nat == pow2(log_n as nat),
                log_n <= MAX_LOG_SIZE,
                ci.pols@.len() == ci.connections@.len(),
                ci.pols@.len() <= MAX_COSETS,
                is_coset_map(*map, log_n as nat, ci.pols@.len()),
                all_present(pols@, n as nat, ci.pols@, ci.pols@.len() as int),
                all_present(pols@, n as nat, ci.connections@, ci.pols@.len() as int),
                found@ == base + column_scan(
                    pols@,
                    log_n as nat,
                    *ci,
                    identity,
                    j as int,
                    i as int,
                ),
                old(found)@.len() <= base.len(),
                forall|t: int|
                    old(found)@.len() <= t < found@.len() ==> (#[trigger] found@[t]).identity_index()
                        == identity,
            decreases n - i,
        {
            let ghost scanned = column_scan(pols@, log_n as nat, *ci, identity, j as int, i as int);
            match check_cell(pols, n, log_n, map, ci, identity, j, i) {
                Some(v) => {
                    found.push(v);
                    assert(found@ =~= base + scanned.push(v));
                },
                None => {},
            }
            i = i + 1;
        }
        assert(found@ =~= old(found)@ + identity_scan(
            pols@,
            log_n as nat,
            n as nat,
            *ci,
            identity,
            j + 1,
        ));
        j = j + 1;
    }
}

/// Whether each map that is kept is the map of the cosets for its number
/// of cosets.
pub open spec fn maps_kept(cache: Map<usize, ConnectionMap>, log_n: nat) -> bool {
    forall|k: usize| #[trigger]
        cache.contains_key(k) ==> k <= MAX_COSETS && is_coset_map(cache[k], log_n, k as nat)
}

fn prepare_connection_map(cache: &mut HashMap<usize, ConnectionMap>, log_n: u32, k: usize)
    requires
        log_n <= MAX_LOG_SIZE,
        k <= MAX_COSETS,
        maps_kept(old(cache)@, log_n as nat),
    ensures
        maps_kept(final(cache)@, log_n as nat),
        final(cache)@.contains_key(k),
        final(cache)@.dom() == old(cache)@.dom().insert(k),
        forall|j: usize| #[trigger]
            old(cache)@.contains_key(j) ==> final(cache)@[j] == old(cache)@[j],
        old(cache)@.contains_key(k) ==> *final(cache) == *old(cache),
{
    if !cache.contains_key(&k) {
        let built = build_connection_map(log_n, k);
        cache.insert(k, built);
    } else {
        assert(cache@.dom() =~= old(cache)@.dom().insert(k));
    }
}

/// Why a verifier cannot be made of a program and two column stores, if
/// it cannot: the stores must hold as many columns as the program says, the
/// number of rows must be a size that a domain can have, and every column
/// must have that many rows.
pub open spec fn input_fault(pil: Pil, cm_pols: PolsArray, const_pols: PolsArray) -> Option<
    PilError,
> {
    if cm_pols.array@.len() != pil.n_commitments || const_pols.array@.len() != pil.n_constants {
        Some(PilError::IrMalformed(IrFault::InconsistentColumns))
    } else if !is_domain_size(cm_pols.n as nat) {
        Some(PilError::IrMalformed(IrFault::UnsupportedDomain))
    } else if !has_rows(cm_pols.array.deep_view(), cm_pols.n as nat) || !has_rows(
        const_pols.array.deep_view(),
        cm_pols.n as nat,
    ) {
        Some(PilError::IrMalformed(IrFault::InconsistentColumns))
    } else {
        None
    }
}

/// Whether `lines` are the reports of the violations `found`, one for one.
pub open spec fn reports_match(pil: Pil, lines: Seq<String>, found: Seq<Violation>) -> bool {
    &&& lines.len() == found.len()
    &&& forall|t: int|
        0 <= t < found.len() ==> (#[trigger] lines[t])@ == report_of(
            pil.connection_identities@[found[t].identity_index() as int],
            found[t],
        )
}

/// A verifier of one program over one pair of column stores.
pub struct PilVerify<'a> {
    pil: &'a Pil,
    cm_pols: &'a PolsArray,
    const_pols: &'a PolsArray,
    pols: Pols,
    n: usize,
    log_n: u32,
    cache_connections_map: HashMap<usize, ConnectionMap>,
}

impl<'a> PilVerify<'a> {
    /// The program.
    pub closed spec fn program(&self) -> Pil {
        *self.pil
    }

    /// The working set.
    pub closed spec fn state(&self) -> PolsView {
        self.pols@
    }

    /// The number of rows, `N`.
    pub closed spec fn rows(&self) -> nat {
        self.n as nat
    }

    /// `log2 N`.
    pub closed spec fn log_rows(&self) -> nat {
        self.log_n as nat
    }

    /// The commitment columns that were given.
    pub closed spec fn commitments(&self) -> Seq<Seq<nat>> {
        self.cm_pols.array.deep_view()
    }

    /// The constant columns that were given.
    pub closed spec fn constants(&self) -> Seq<Seq<nat>> {
        self.const_pols.array.deep_view()
    }

    /// The maps of the cosets that are kept, by their numbers of cosets.
    pub closed spec fn cached_maps(&self) -> Map<usize, ConnectionMap> {
        self.cache_connections_map@
    }

    /// The working set holds the given columns and fits the program, all
    /// columns have `N = 2^log N` rows, and each map that is kept is the map
    /// of the cosets for its number of cosets.
    pub closed spec fn wf(&self) -> bool {
        &&& self.n as nat == pow2(self.log_n as nat)
        &&& self.log_n <= MAX_LOG_SIZE
        &&& self.pols@.shaped(self.n as nat)
        &&& self.pols@.cm == self.cm_pols.array.deep_view()
        &&& self.pols@.consts == self.const_pols.array.deep_view()
        &&& fits(*self.pil, self.pols@)
        &&& maps_kept(self.cache_connections_map@, self.log_n as nat)
    }

    /// Whether `other` is a verifier of the same program over the same
    /// columns.
    pub open spec fn same_task(&self, other: PilVerify<'a>) -> bool {
        &&& other.program() == self.program()
        &&& other.rows() == self.rows()
        &&& other.log_rows() == self.log_rows()
        &&& other.commitments() == self.commitments()
        &&& other.constants() == self.constants()
    }

    /// Whether `other` keeps every map of the cosets that this verifier
    /// keeps, as it is.
    pub open spec fn maps_kept_by(&self, other: PilVerify<'a>) -> bool {
        forall|k: usize| #[trigger]
            self.cached_maps().contains_key(k) ==> other.cached_maps().contains_key(k)
                && other.cached_maps()[k] == self.cached_maps()[k]
    }

    /// What a check by this verifier finds and leaves: a function of the
    /// program and the given columns alone.
    pub open spec fn outcome(&self) -> Result<(Seq<Violation>, PolsView), PilError> {
        verify_run(
            self.program(),
            self.commitments(),
            self.constants(),
            self.rows(),
            self.log_rows(),
        )
    }

    /// What holds of every verifier.
    pub proof fn lemma_wf(&self)
        requires
            self.wf(),
        ensures
            self.rows() == pow2(self.log_rows()),
            self.log_rows() <= MAX_LOG_SIZE,
            self.state().shaped(self.rows()),
            self.state().cm == self.commitments(),
            self.state().consts == self.constants(),
            fits(self.program(), self.state()),
            maps_kept(self.cached_maps(), self.log_rows()),
    {
    }

    /// A verifier of `pil` over the commitments `cm_pols` and the constants
    /// `const_pols`, with `pols` as its working set, which is overwritten.
    pub fn new(
        pil: &'a Pil,
        cm_pols: &'a PolsArray,
        const_pols: &'a PolsArray,
        pols: Pols,
    ) -> (r: Result<PilVerify<'a>, PilError>)
        ensures
            match r {
                Ok(v) => {
                    &&& input_fault(*pil, *cm_pols, *const_pols) is None
                    &&& v.wf()
                    &&& v.program() == *pil
                    &&& v.rows() == cm_pols.n
                    &&& v.commitments() == cm_pols.array.deep_view()
                    &&& v.constants() == const_pols.array.deep_view()
                    &&& v.state() == fresh_state(*pil, v.commitments(), v.constants())
                    &&& v.cached_maps() == Map::<usize, ConnectionMap>::empty()
                },
                Err(x) => input_fault(*pil, *cm_pols, *const_pols) == Some(x),
            },
    {
        if cm_pols.array.len() != pil.n_commitments || const_pols.array.len() != pil.n_constants {
            return Err(PilError::IrMalformed(IrFault::InconsistentColumns));
        }
        let n: usize = cm_pols.n;
        let log_n: u32 = match log2_exact(n) {
            None => {
                return Err(PilError::IrMalformed(IrFault::UnsupportedDomain));
            },
            Some(k) => k,
        };
        assert(is_domain_size(n as nat)) by {
            assert(log_n as nat <= MAX_LOG_SIZE && n as nat == pow2(log_n as nat));
        }
        if !table_has_rows(&cm_pols.array, n) || !table_has_rows(&const_pols.array, n) {
            return Err(PilError::IrMalformed(IrFault::InconsistentColumns));
        }
        let mut pols = pols;
        pols.cm = copy_table(&cm_pols.array);
        pols.consts = copy_table(&const_pols.array);
        pols.exps = empty_table(pil.expressions.len());
        pols.publics = fill_column(Fgl::zero(), pil.publics.len());
        proof {
            lemma_pow2_pos(log_n as nat);
            assert(pols@.publics =~= Seq::new(pil.publics@.len(), |i: int| 0nat));
        }
        Ok(
            PilVerify {
                pil,
                cm_pols,
                const_pols,
                pols,
                n,
                log_n,
                cache_connections_map: HashMap::new(),
            },
        )
    }

    /// The roots of unity of the orders `2^0` to `2^32`, by their `log2`.
    pub fn get_roots(&self) -> (roots: Vec<Fgl>)
        ensures
            roots.len() == 33,
            forall|k: int| 0 <= k <= 32 ==> (#[trigger] roots[k])@ == root_of_unity(k as nat),
    {
        get_roots()
    }

    /// The multipliers of the first `n` cosets: `1, KAPPA, KAPPA^2, ...`.
    #[allow(non_snake_case)]
    pub fn get_Ks(&self, n: usize) -> (ks: Vec<Fgl>)
        ensures
            ks.len() == n,
            forall|j: int| 0 <= j < n ==> (#[trigger] ks[j])@ == coset_shift(j as nat),
    {
        get_ks(n)
    }

    /// The map of the first `nk` cosets of the domain. It is built at the
    /// first call for `nk` and kept; a later call for the same `nk` builds
    /// nothing and changes nothing.
    pub fn get_connection_map(&mut self, nk: usize) -> (m: ConnectionMap)
        requires
            old(self).wf(),
            nk <= MAX_COSETS,
        ensures
            final(self).wf(),
            is_coset_map(m, final(self).log_rows(), nk as nat),
            final(self).cached_maps().contains_key(nk),
            m@ == final(self).cached_maps()[nk]@,
            final(self).cached_maps().dom() == old(self).cached_maps().dom().insert(nk),
            old(self).maps_kept_by(*final(self)),
            old(self).cached_maps().contains_key(nk) ==> *final(self) == *old(self),
            old(self).same_task(*final(self)),
            final(self).state() == old(self).state(),
    {
        prepare_connection_map(&mut self.cache_connections_map, self.log_n, nk);
        match self.cache_connections_map.get(&nk) {
            Some(kept) => kept.clone(),
            None => vstd::pervasive::unreached(),
        }
    }

    /// Evaluates the expression tree `exp` over the working set.
    pub fn eval(&self, exp: &Expression) -> (r: Result<Vec<Fgl>, PilError>)
        requires
            self.wf(),
        ensures
            column_outcome(r, eval_spec(self.state(), self.rows(), *exp)),
            r is Ok ==> r->Ok_0.len() == self.rows(),
    {
        eval_expression(&self.pols, self.n, exp)
    }

    /// The column `p` read one row ahead, cyclically.
    pub fn get_prime(&self, p: &Vec<Fgl>) -> (r: Vec<Fgl>)
        ensures
            r.deep_view() == rotate(p.deep_view()),
    {
        rotate_column(p)
    }

    /// The column of expression `exp_id`, which is made present in the
    /// working set if it is not.
    pub fn calculate_expressions(&mut self, exp_id: usize) -> (r: Result<Vec<Fgl>, PilError>)
        requires
            old(self).wf(),
        ensures
            final(self).wf(),
            old(self).same_task(*final(self)),
            final(self).cached_maps() == old(self).cached_maps(),
            extends(old(self).state(), final(self).state(), old(self).rows()),
            match r {
                Ok(column) => {
                    &&& materialize(
                        old(self).program(),
                        old(self).state(),
                        old(self).rows(),
                        exp_id as int,
                        old(self).program().expressions@.len(),
                    ) == Ok::<PolsView, PilError>(final(self).state())
                    &&& exp_id < final(self).state().exps.len()
                    &&& column.deep_view() == final(self).state().exps[exp_id as int]
                    &&& column.len() == final(self).rows()
                    &&& settled(old(self).program(), old(self).state(), old(self).rows()) ==> {
                        &&& settled(old(self).program(), final(self).state(), old(self).rows())
                        &&& eval_spec(
                            final(self).state(),
                            old(self).rows(),
                            old(self).program().expressions@[exp_id as int],
                        ) == Ok::<Seq<nat>, PilError>(column.deep_view())
                    }
                },
                Err(x) => materialize(
                    old(self).program(),
                    old(self).state(),
                    old(self).rows(),
                    exp_id as int,
                    old(self).program().expressions@.len(),
                ) == Err::<PolsView, PilError>(x),
            },
    {
        let pil = self.pil;
        match materialize_expression(pil, &mut self.pols, self.n, exp_id, pil.expressions.len()) {
            Err(x) => Err(x),
            Ok(()) => {
                proof {
                    if settled(*pil, old(self).pols@, self.n as nat) {
                        lemma_materialize_settled(
                            *pil,
                            old(self).pols@,
                            self.n as nat,
                            exp_id as int,
                            pil.expressions@.len(),
                        );
                    }
                }
                let column = copy_column(&self.pols.exps[exp_id]);
                assert(column.deep_view() =~= self.pols.exps[exp_id as int].deep_view());
                Ok(column)
            },
        }
    }

    /// Makes the column of every expression that the tree `exp` refers to
    /// present in the working set.
    pub fn calculate_dependencies(&mut self, exp: &Expression) -> (r: Result<(), PilError>)
        requires
            old(self).wf(),
        ensures
            final(self).wf(),
            old(self).same_task(*final(self)),
            final(self).cached_maps() == old(self).cached_maps(),
            extends(old(self).state(), final(self).state(), old(self).rows()),
            state_outcome(
                r,
                final(self).state(),
                materialize_operands(
                    old(self).program(),
                    old(self).state(),
                    old(self).rows(),
                    *exp,
                    old(self).program().expressions@.len(),
                ),
            ),
    {
        let pil = self.pil;
        materialize_expression_operands(pil, &mut self.pols, self.n, exp, pil.expressions.len())
    }

    /// The violations of the program's connection identities over the given
    /// columns, identity after identity and, within one, source after source
    /// and row after row. Nothing that an earlier call left in the working
    /// set is used.
    pub fn find_violations(&mut self) -> (r: Result<Vec<Violation>, PilError>)
        requires
            old(self).wf(),
        ensures
            final(self).wf(),
            old(self).same_task(*final(self)),
            old(self).maps_kept_by(*final(self)),
            match r {
                Ok(found) => {
                    &&& old(self).outcome() == Ok::<(Seq<Violation>, PolsView), PilError>(
                        (found@, final(self).state()),
                    )
                    &&& forall|t: int|
                        0 <= t < found@.len() ==> (#[trigger] found@[t]).identity_index()
                            < old(self).program().connection_identities@.len()
                },
                Err(x) => old(self).outcome() == Err::<(Seq<Violation>, PolsView), PilError>(x),
            },
    {
        let pil = self.pil;
        let n: usize = self.n;
        let log_n: u32 = self.log_n;
        let mut r: usize = 0;
        while r < pil.references.len()
            invariant
                r <= pil.references.len(),
                *self == *old(self),
                self.wf(),
                *pil == *self.pil,
                forall|i: int|
                    0 <= i < r ==> reference_kind_of(
                        (#[trigger] pil.references@[i]).inner.reference_type@,
                    ) is Some,
            decreases pil.references.len() - r,
        {
            if pil.references[r].inner.kind().is_none() {
                assert(reference_kind_of(pil.references@[r as int].inner.reference_type@) is None);
                return Err(PilError::IrMalformed(IrFault::UnknownReferenceKind));
            }
            r = r + 1;
        }
        self.pols.exps = empty_table(pil.expressions.len());
        self.pols.publics = fill_column(Fgl::zero(), pil.publics.len());
        proof {
            lemma_pow2_pos(log_n as nat);
            assert(self.pols@.publics =~= Seq::new(pil.publics@.len(), |i: int| 0nat));
            assert(self.pols@ == fresh_state(*pil, self.pols@.cm, self.pols@.consts));
        }
        match resolve_public_values(pil, &mut self.pols, n) {
            Err(x) => {
                return Err(x);
            },
            Ok(()) => {},
        }
        let ghost resolved = self.pols@;
        let mut found: Vec<Violation> = Vec::new();
        let mut c: usize = 0;
        while c < pil.connection_identities.len()
            invariant
                c <= pil.connection_identities.len(),
                self.wf(),
                *self.pil == *pil,
                self.pil == old(self).pil,
                self.n == n,
                self.log_n == log_n,
                n == old(self).n,
                log_n == old(self).log_n,
                self.cm_pols == old(self).cm_pols,
                self.const_pols == old(self).const_pols,
                old(self).maps_kept_by(*self),
                !has_unknown_reference(*pil),
                resolve_publics(
                    *pil,
                    fresh_state(*pil, old(self).commitments(), old(self).constants()),
                    n as nat,
                    0,
                ) == Ok::<PolsView, PilError>(resolved),
                forall|t: int|
                    0 <= t < found@.len() ==> (#[trigger] found@[t]).identity_index()
                        < pil.connection_identities@.len(),
                check_identities(*pil, resolved, n as nat, log_n as nat, 0, Seq::empty())
                    == check_identities(*pil, self.pols@, n as nat, log_n as nat, c as int, found@),
            decreases pil.connection_identities.len() - c,
        {
            let ci = &pil.connection_identities[c];
            let k: usize = ci.pols.len();
            if k != ci.connections.len() || k > MAX_COSETS {
                return Err(PilError::IrMalformed(IrFault::InvalidConnection));
            }
            match materialize_list(pil, &mut self.pols, n, &ci.pols) {
                Err(x) => {
                    return Err(x);
                },
                Ok(()) => {},
            }
            let ghost sources = self.pols@;
            match materialize_list(pil, &mut self.pols, n, &ci.connections) {
                Err(x) => {
                    return Err(x);
                },
                Ok(()) => {},
            }
            let ghost ready = self.pols@;
            proof {
                assert forall|t: int| 0 <= t < k implies (#[trigger] ci.pols@[t]) < ready.exps.len()
                    && ready.exps[ci.pols@[t] as int].len() == n by {
                    assert(sources.exps[ci.pols@[t] as int].len() > 0);
                }
            }
            prepare_connection_map(&mut self.cache_connections_map, log_n, k);
            match self.cache_connections_map.get(&k) {
                Some(map) => {
                    scan_identity(&self.pols, n, log_n, map, ci, c, &mut found);
                },
                None => {
                    vstd::pervasive::unreached::<()>();
                },
            }
            release_list(&mut self.pols, n, &ci.pols);
            release_list(&mut self.pols, n, &ci.connections);
            c = c + 1;
        }
        Ok(found)
    }

    /// Checks the program's connection identities over the given columns and
    /// reports each violation in a line of text. No line means that the
    /// columns satisfy the identities.
    pub fn verify_pil(&mut self) -> (r: Result<Vec<String>, PilError>)
        requires
            old(self).wf(),
        ensures
            final(self).wf(),
            old(self).same_task(*final(self)),
            old(self).maps_kept_by(*final(self)),
            match r {
                Ok(lines) => {
                    &&& old(self).outcome() matches Ok((found, after))
                    &&& reports_match(old(self).program(), lines@, found)
                    &&& final(self).state() == after
                },
                Err(x) => old(self).outcome() == Err::<(Seq<Violation>, PolsView), PilError>(x),
            },
    {
        let found = match self.find_violations() {
            Err(x) => {
                return Err(x);
            },
            Ok(found) => found,
        };
        let pil = self.pil;
        let mut lines: Vec<String> = Vec::with_capacity(found.len());
        let mut t: usize = 0;
        while t < found.len()
            invariant
                t <= found.len(),
                lines@.len() == t,
                forall|u: int|
                    0 <= u < found@.len() ==> (#[trigger] found@[u]).identity_index()
                        < pil.connection_identities@.len(),
                forall|u: int|
                    0 <= u < t ==> (#[trigger] lines@[u])@ == report_of(
                        pil.connection_identities@[found@[u].identity_index() as int],
                        found@[u],
                    ),
            decreases found.len() - t,
        {
            let v = found[t];
            let ci = &pil.connection_identities[v.identity()];
            lines.push(v.report(ci));
            t = t + 1;
        }
        Ok(lines)
    }
}

} // verus!
