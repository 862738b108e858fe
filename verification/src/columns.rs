//! Columns of field elements as sequences of canonical values, and the
//! row-wise operations on them.

use crate::field::{gl_add, gl_mul, gl_neg, gl_sub, Fgl};
use crate::pil::Op;
use vstd::prelude::*;

verus! {

/// What an arithmetic operation makes of the values `x` and `y` of one row.
/// `neg` has one operand and ignores `y`; an operation that is not
/// arithmetic leaves `x` as it is.
pub open spec fn apply(op: Op, x: nat, y: nat) -> nat {
    match op {
        Op::Add | Op::Addc => gl_add(x, y),
        Op::Sub => gl_sub(x, y),
        Op::Mul | Op::Mulc => gl_mul(x, y),
        Op::Neg => gl_neg(x),
        _ => x,
    }
}

/// The column that holds `apply(op, a[i], b[i])` at each row `i` of `a`.
pub open spec fn pointwise(op: Op, a: Seq<nat>, b: Seq<nat>) -> Seq<nat> {
    Seq::new(a.len(), |i: int| apply(op, a[i], b[i]))
}

/// The column that holds `apply(op, a[i], c)` at each row `i` of `a`.
pub open spec fn pointwise_const(op: Op, a: Seq<nat>, c: nat) -> Seq<nat> {
    Seq::new(a.len(), |i: int| apply(op, a[i], c))
}

/// The column of `n` rows that holds `v` in each.
pub open spec fn constant_column(v: nat, n: nat) -> Seq<nat> {
    Seq::new(n, |i: int| v)
}

/// The column read one row ahead, cyclically: row `i` holds `c[(i + 1) mod N]`.
pub open spec fn rotate(c: Seq<nat>) -> Seq<nat> {
    Seq::new(c.len(), |i: int| c[(i + 1) % (c.len() as int)])
}

/// The column rotated `k` times.
pub open spec fn rotate_by(c: Seq<nat>, k: nat) -> Seq<nat>
    decreases k,
{
    if k == 0 {
        c
    } else {
        rotate(rotate_by(c, (k - 1) as nat))
    }
}

/// Rotating `k` times reads the column `k` rows ahead.
pub proof fn lemma_rotate_by(c: Seq<nat>, k: nat)
    ensures
        rotate_by(c, k).len() == c.len(),
        forall|i: int|
            0 <= i < c.len() ==> #[trigger] rotate_by(c, k)[i] == c[(i + k) % (c.len() as int)],
    decreases k,
{
    let n = c.len() as int;
    if k == 0 {
        assert forall|i: int| 0 <= i < n implies #[trigger] rotate_by(c, k)[i] == c[(i + k) % n] by {
            vstd::arithmetic::div_mod::lemma_small_mod(i as nat, n as nat);
        }
    } else {
        let before = rotate_by(c, (k - 1) as nat);
        lemma_rotate_by(c, (k - 1) as nat);
        assert forall|i: int| 0 <= i < n implies #[trigger] rotate_by(c, k)[i] == c[(i + k) % n] by {
            let j = (i + 1) % n;
            assert(rotate_by(c, k)[i] == before[j]);
            assert(before[j] == c[(j + (k - 1)) % n]);
            vstd::arithmetic::div_mod::lemma_add_mod_noop(i + 1, k - 1, n);
            vstd::arithmetic::div_mod::lemma_add_mod_noop(j, k - 1, n);
            vstd::arithmetic::div_mod::lemma_mod_twice(i + 1, n);
        }
    }
}

/// A column of `N` rows rotated `N` times is the column itself.
pub proof fn lemma_rotation_identity(c: Seq<nat>)
    ensures
        rotate_by(c, c.len()) == c,
{
    let n = c.len() as int;
    lemma_rotate_by(c, c.len());
    assert forall|i: int| 0 <= i < n implies #[trigger] rotate_by(c, c.len())[i] == c[i] by {
        vstd::arithmetic::div_mod::lemma_mod_add_multiples_vanish(i, n);
        vstd::arithmetic::div_mod::lemma_small_mod(i as nat, n as nat);
    }
    assert(rotate_by(c, c.len()) =~= c);
}

/// A copy of a column.
pub fn copy_column(c: &Vec<Fgl>) -> (r: Vec<Fgl>)
    ensures
        r@ == c@,
{
    let mut r: Vec<Fgl> = Vec::with_capacity(c.len());
    let mut i: usize = 0;
    while i < c.len()
        invariant
            i <= c.len(),
            r@ == c@.subrange(0, i as int),
        decreases c.len() - i,
    {
        r.push(c[i]);
        assert(r@ =~= c@.subrange(0, i + 1));
        i = i + 1;
    }
    assert(c@.subrange(0, c.len() as int) =~= c@);
    r
}

/// The column of `n` rows that holds `v` in each.
pub fn fill_column(v: Fgl, n: usize) -> (r: Vec<Fgl>)
    ensures
        r.deep_view() == constant_column(v@, n as nat),
        r.len() == n,
{
    let mut r: Vec<Fgl> = Vec::with_capacity(n);
    let mut i: usize = 0;
    while i < n
        invariant
            i <= n,
            r.len() == i,
            forall|k: int| 0 <= k < i ==> r[k]@ == v@,
        decreases n - i,
    {
        r.push(v);
        i = i + 1;
    }
    assert(r.deep_view() =~= constant_column(v@, n as nat));
    r
}

/// The column `p` read one row ahead, cyclically.
pub fn rotate_column(p: &Vec<Fgl>) -> (r: Vec<Fgl>)
    ensures
        r.deep_view() == rotate(p.deep_view()),
        r.len() == p.len(),
{
    let n: usize = p.len();
    let mut r: Vec<Fgl> = Vec::with_capacity(n);
    let mut i: usize = 0;
    while i < n
        invariant
            i <= n,
            n == p.len(),
            r.len() == i,
            forall|k: int| 0 <= k < i ==> r[k]@ == p[(k + 1) % (n as int)]@,
        decreases n - i,
    {
        let source: usize = if i + 1 == n {
            0
        } else {
            i + 1
        };
        assert(source == (i + 1) % (n as int)) by {
            if i + 1 == n {
                vstd::arithmetic::div_mod::lemma_mod_self_0(n as int);
            } else {
                vstd::arithmetic::div_mod::lemma_small_mod((i + 1) as nat, n as nat);
            }
        }
        r.push(p[source]);
        i = i + 1;
    }
    assert(r.deep_view() =~= rotate(p.deep_view()));
    r
}

/// What an arithmetic operation makes of the values `x` and `y` of one row.
pub fn apply_op(op: Op, x: Fgl, y: Fgl) -> (r: Fgl)
    ensures
        r@ == apply(op, x@, y@),
{
    match op {
        Op::Add | Op::Addc => x.add(y),
        Op::Sub => x.sub(y),
        Op::Mul | Op::Mulc => x.mul(y),
        Op::Neg => x.neg(),
        _ => x,
    }
}

/// The column that `op` makes of `a` and `b`, row by row.
pub fn combine_columns(op: Op, a: &Vec<Fgl>, b: &Vec<Fgl>) -> (r: Vec<Fgl>)
    requires
        a.len() == b.len(),
    ensures
        r.deep_view() == pointwise(op, a.deep_view(), b.deep_view()),
        r.len() == a.len(),
{
    let n: usize = a.len();
    let mut r: Vec<Fgl> = Vec::with_capacity(n);
    let mut i: usize = 0;
    while i < n
        invariant
            i <= n,
            n == a.len(),
            n == b.len(),
            r.len() == i,
            forall|k: int| 0 <= k < i ==> r[k]@ == apply(op, a[k]@, b[k]@),
        decreases n - i,
    {
        r.push(apply_op(op, a[i], b[i]));
        i = i + 1;
    }
    assert(r.deep_view() =~= pointwise(op, a.deep_view(), b.deep_view()));
    r
}

/// The column that `op` makes of `a` and the constant `c`, row by row.
pub fn combine_constant(op: Op, a: &Vec<Fgl>, c: Fgl) -> (r: Vec<Fgl>)
    ensures
        r.deep_view() == pointwise_const(op, a.deep_view(), c@),
        r.len() == a.len(),
{
    let n: usize = a.len();
    let mut r: Vec<Fgl> = Vec::with_capacity(n);
    let mut i: usize = 0;
    while i < n
        invariant
            i <= n,
            n == a.len(),
            r.len() == i,
            forall|k: int| 0 <= k < i ==> r[k]@ == apply(op, a[k]@, c@),
        decreases n - i,
    {
        r.push(apply_op(op, a[i], c));
        i = i + 1;
    }
    assert(r.deep_view() =~= pointwise_const(op, a.deep_view(), c@));
    r
}

/// A copy of a table of columns.
pub fn copy_table(table: &Vec<Vec<Fgl>>) -> (r: Vec<Vec<Fgl>>)
    ensures
        r.deep_view() == table.deep_view(),
{
    let mut r: Vec<Vec<Fgl>> = Vec::with_capacity(table.len());
    let mut i: usize = 0;
    while i < table.len()
        invariant
            i <= table.len(),
            r.len() == i,
            forall|k: int| 0 <= k < i ==> (#[trigger] r[k])@ == table[k]@,
        decreases table.len() - i,
    {
        r.push(copy_column(&table[i]));
        i = i + 1;
    }
    assert(r.deep_view() =~= table.deep_view()) by {
        assert forall|k: int| 0 <= k < r.len() implies r.deep_view()[k] == table.deep_view()[k] by {
            assert(r[k]@ == table[k]@);
            assert(r[k].deep_view() =~= table[k].deep_view());
        }
    }
    r
}

/// The table of `len` columns without rows.
pub open spec fn empty_columns(len: nat) -> Seq<Seq<nat>> {
    Seq::new(len, |i: int| Seq::<nat>::empty())
}

/// A table of `len` columns without rows.
pub fn empty_table(len: usize) -> (r: Vec<Vec<Fgl>>)
    ensures
        r.deep_view() == empty_columns(len as nat),
{
    let mut r: Vec<Vec<Fgl>> = Vec::with_capacity(len);
    let mut i: usize = 0;
    while i < len
        invariant
            i <= len,
            r.len() == i,
            forall|k: int| 0 <= k < i ==> (#[trigger] r[k])@.len() == 0,
        decreases len - i,
    {
        r.push(Vec::new());
        i = i + 1;
    }
    assert(r.deep_view() =~= empty_columns(len as nat)) by {
        assert forall|k: int| 0 <= k < r.len() implies r.deep_view()[k] == Seq::<nat>::empty() by {
            assert(r[k]@.len() == 0);
            assert(r[k].deep_view() =~= Seq::<nat>::empty());
        }
    }
    r
}

/// Whether every column of the table has `n` rows.
pub open spec fn has_rows(table: Seq<Seq<nat>>, n: nat) -> bool {
    forall|i: int| 0 <= i < table.len() ==> (#[trigger] table[i]).len() == n
}

/// Whether every column of the table has `n` rows.
pub fn table_has_rows(table: &Vec<Vec<Fgl>>, n: usize) -> (r: bool)
    ensures
        r == has_rows(table.deep_view(), n as nat),
{
    let mut i: usize = 0;
    while i < table.len()
        invariant
            i <= table.len(),
            forall|k: int| 0 <= k < i ==> (#[trigger] table.deep_view()[k]).len() == n,
        decreases table.len() - i,
    {
        assert(table.deep_view()[i as int] == table[i as int].deep_view());
        if table[i].len() != n {
            return false;
        }
        i = i + 1;
    }
    true
}

} // verus!
