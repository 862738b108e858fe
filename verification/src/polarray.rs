//! The column store: the columns of one kind, commitments or constants, by
//! their ids, with an index from names to ids, and their binary file form.

use crate::columns::{constant_column, fill_column, has_rows, table_has_rows};
use crate::error::{IrFault, PilError};
use crate::field::{gl_reduce, Fgl, MODULUS};
use crate::pil::{split_name, split_qualified, Pil, PilReference, PilReferenceWithName};
use crate::traits::FieldExtension;
use vstd::arithmetic::div_mod::*;
use vstd::bytes::*;
use vstd::prelude::*;
use vstd::slice::slice_subrange;

verus! {

/// What is known of one column.
#[derive(Clone, Debug)]
pub struct Pol {
    /// The fully qualified name of the reference that the column belongs to.
    pub name: String,
    pub id: usize,
    /// The place of the column in its array, where it belongs to one.
    pub idx: Option<usize>,
    pub pol_deg: usize,
    pub element_type: Option<String>,
}

/// The kinds of column store.
#[derive(Clone, Copy, Debug, PartialEq, Eq, Structural)]
pub enum PolKind {
    Commit,
    Constant,
}

/// An entry of the index: the ids of the columns that a name stands for.
#[derive(Clone, Debug)]
pub struct DefEntry {
    pub namespace: String,
    pub name: String,
    pub ids: Vec<usize>,
}

/// An entry of the index as plain values.
pub struct DefEntryView {
    pub namespace: Seq<char>,
    pub name: Seq<char>,
    pub ids: Seq<usize>,
}

impl View for DefEntry {
    type V = DefEntryView;

    open spec fn view(&self) -> DefEntryView {
        DefEntryView { namespace: self.namespace@, name: self.name@, ids: self.ids@ }
    }
}

/// The columns of one kind.
#[derive(Debug)]
pub struct PolsArray {
    pub n_pols: usize,
    /// The index, one entry for each reference of the store's kind, in the
    /// order of the references.
    pub def: Vec<DefEntry>,
    pub def_array: Vec<Pol>,
    pub array: Vec<Vec<Fgl>>,
    /// The number of rows of each column.
    pub n: usize,
}

/// Whether a reference with the kind tag `tag` belongs in a store of `kind`.
pub open spec fn kind_matches(tag: Seq<char>, kind: PolKind) -> bool {
    match kind {
        PolKind::Commit => tag == "cmP"@,
        PolKind::Constant => tag == "constP"@,
    }
}

/// The number of columns of the store of `kind`.
pub open spec fn store_size(pil: Pil, kind: PolKind) -> usize {
    match kind {
        PolKind::Commit => pil.n_commitments,
        PolKind::Constant => pil.n_constants,
    }
}

/// What is wrong with one reference of the store's kind, if anything: its
/// name must have a namespace, an array must have a length, and its ids must
/// lie below `n_pols`.
pub open spec fn reference_fault(r: PilReferenceWithName<PilReference>, n_pols: nat) -> Option<
    PilError,
> {
    if split_name(r.name@) is None {
        Some(PilError::IrMalformed(IrFault::MalformedName))
    } else if r.inner.is_array && r.inner.len is None {
        Some(PilError::IrMalformed(IrFault::MissingField))
    } else if r.inner.id + r.inner.width() > n_pols {
        Some(PilError::IrMalformed(IrFault::IndexOutOfRange))
    } else {
        None
    }
}

/// The fault of the first reference of the store's kind that has one, from
/// place `from` on.
pub open spec fn first_fault(
    refs: Seq<PilReferenceWithName<PilReference>>,
    kind: PolKind,
    n_pols: nat,
    from: int,
) -> Option<PilError>
    decreases refs.len() - from,
{
    if 0 <= from < refs.len() {
        if kind_matches(refs[from].inner.reference_type@, kind) && reference_fault(
            refs[from],
            n_pols,
        ) is Some {
            reference_fault(refs[from], n_pols)
        } else {
            first_fault(refs, kind, n_pols, from + 1)
        }
    } else {
        None
    }
}

/// Whether the reference names the column `slot`.
pub open spec fn covers(r: PilReferenceWithName<PilReference>, slot: int) -> bool {
    r.inner.id <= slot < r.inner.id + r.inner.width()
}

/// The place of the last reference of the store's kind, among the first
/// `upto`, that names the column `slot`.
pub open spec fn covering(
    refs: Seq<PilReferenceWithName<PilReference>>,
    kind: PolKind,
    slot: int,
    upto: int,
) -> Option<int>
    decreases upto,
{
    if upto <= 0 {
        None
    } else if kind_matches(refs[upto - 1].inner.reference_type@, kind) && covers(
        refs[upto - 1],
        slot,
    ) {
        Some(upto - 1)
    } else {
        covering(refs, kind, slot, upto - 1)
    }
}

/// What the store knows of the column `slot` that the reference `r` names.
pub open spec fn pol_of(r: PilReferenceWithName<PilReference>, slot: int) -> Pol {
    Pol {
        name: r.name,
        id: slot as usize,
        idx: if r.inner.is_array {
            Some((slot - r.inner.id) as usize)
        } else {
            None
        },
        pol_deg: r.inner.pol_deg,
        element_type: r.inner.element_type,
    }
}

/// The entry of the index for the reference `r`.
pub open spec fn entry_of(r: PilReferenceWithName<PilReference>) -> DefEntryView {
    let (namespace, name) = split_name(r.name@).unwrap();
    DefEntryView {
        namespace,
        name,
        ids: Seq::new(r.inner.width(), |t: int| (r.inner.id + t) as usize),
    }
}

/// The index for the first `upto` references: an entry for each of the
/// store's kind, in their order.
pub open spec fn index_of(
    refs: Seq<PilReferenceWithName<PilReference>>,
    kind: PolKind,
    upto: int,
) -> Seq<DefEntryView>
    decreases upto,
{
    if upto <= 0 {
        Seq::empty()
    } else if kind_matches(refs[upto - 1].inner.reference_type@, kind) {
        index_of(refs, kind, upto - 1).push(entry_of(refs[upto - 1]))
    } else {
        index_of(refs, kind, upto - 1)
    }
}

/// The index as plain values.
pub open spec fn index_view(def: Seq<DefEntry>) -> Seq<DefEntryView> {
    Seq::new(def.len(), |t: int| def[t]@)
}

/// The place of the last entry of the index, among the first `upto`, for the
/// name `name` in the namespace `namespace`.
pub open spec fn find_entry(
    def: Seq<DefEntryView>,
    namespace: Seq<char>,
    name: Seq<char>,
    upto: int,
) -> Option<int>
    decreases upto,
{
    if upto <= 0 {
        None
    } else if def[upto - 1].namespace == namespace && def[upto - 1].name == name {
        Some(upto - 1)
    } else {
        find_entry(def, namespace, name, upto - 1)
    }
}

/// Whether every column has a reference of the store's kind that names it.
pub open spec fn all_covered(pil: Pil, kind: PolKind) -> bool {
    forall|slot: int|
        0 <= slot < store_size(pil, kind) ==> (#[trigger] covering(
            pil.references@,
            kind,
            slot,
            pil.references@.len() as int,
        )) is Some
}

/// The degree of the column `slot`: that of the reference that names it.
pub open spec fn slot_degree(pil: Pil, kind: PolKind, slot: int) -> usize {
    pil.references@[covering(
        pil.references@,
        kind,
        slot,
        pil.references@.len() as int,
    )->0].inner.pol_deg
}

/// The number of rows of the store: the degree of its first column, and
/// zero where it has no column.
pub open spec fn store_rows(pil: Pil, kind: PolKind) -> usize {
    if store_size(pil, kind) == 0 {
        0
    } else {
        slot_degree(pil, kind, 0)
    }
}

/// Whether all columns have the same degree.
pub open spec fn uniform_degree(pil: Pil, kind: PolKind) -> bool {
    forall|slot: int|
        0 <= slot < store_size(pil, kind) ==> #[trigger] slot_degree(pil, kind, slot)
            == store_rows(pil, kind)
}

/// Why no store of `kind` can be made for the program, if none can.
pub open spec fn store_fault(pil: Pil, kind: PolKind) -> Option<PilError> {
    let n_pols = store_size(pil, kind);
    if first_fault(pil.references@, kind, n_pols as nat, 0) is Some {
        first_fault(pil.references@, kind, n_pols as nat, 0)
    } else if !all_covered(pil, kind) {
        Some(PilError::InvalidPilSequence)
    } else if !uniform_degree(pil, kind) {
        Some(PilError::IrMalformed(IrFault::NonUniformDegree))
    } else {
        None
    }
}

/// The value that the eight bytes at place `8 * k` of a file write, least
/// significant byte first.
pub open spec fn file_value(bytes: Seq<u8>, k: int) -> u64 {
    spec_u64_from_le_bytes(bytes.subrange(8 * k, 8 * k + 8))
}

/// The columns that a file holds: the value of column `i` at row `j` is the
/// value at place `j * n_pols + i` of the file, reduced.
pub open spec fn decoded_columns(bytes: Seq<u8>, n_pols: nat, n: nat) -> Seq<Seq<nat>> {
    Seq::new(
        n_pols,
        |i: int| Seq::new(n, |j: int| gl_reduce(file_value(bytes, j * n_pols + i) as int)),
    )
}

/// The file that holds the columns: row after row, and in each row the
/// value of each column in the order of the ids, in eight bytes, least
/// significant byte first.
pub open spec fn encoded_file(columns: Seq<Seq<nat>>, n_pols: nat, n: nat) -> Seq<u8> {
    Seq::new(
        n_pols * n * 8,
        |b: int|
            spec_u64_to_le_bytes(columns[(b / 8) % (n_pols as int)][(b / 8) / (n_pols as int)] as u64)[b
                % 8],
    )
}

/// The file with each of its values reduced into `[0, p)`.
pub open spec fn canonical_file(bytes: Seq<u8>) -> Seq<u8> {
    Seq::new(
        bytes.len(),
        |b: int| spec_u64_to_le_bytes(gl_reduce(file_value(bytes, b / 8) as int) as u64)[b % 8],
    )
}

/// A file that is read into a store and written again comes back with each
/// value reduced into `[0, p)`, and is otherwise the same.
pub proof fn lemma_file_round_trip(bytes: Seq<u8>, n_pols: nat, n: nat)
    requires
        bytes.len() == n_pols * n * 8,
    ensures
        encoded_file(decoded_columns(bytes, n_pols, n), n_pols, n) == canonical_file(bytes),
{
    let columns = decoded_columns(bytes, n_pols, n);
    let written = encoded_file(columns, n_pols, n);
    assert forall|b: int| 0 <= b < written.len() implies written[b] == canonical_file(bytes)[b] by {
        let k = b / 8;
        let np = n_pols as int;
        assert(0 <= k < n_pols * n);
        assert(np > 0) by (nonlinear_arith)
            requires
                0 <= k < np * n,
        ;
        let i = k % np;
        let j = k / np;
        lemma_fundamental_div_mod(k, np);
        assert(np * j + i == k);
        assert(j * np == np * j) by (nonlinear_arith);
        assert(0 <= j < n) by (nonlinear_arith)
            requires
                np * j + i == k,
                0 <= i < np,
                0 <= k < np * n,
        ;
        assert(columns[i][j] == gl_reduce(file_value(bytes, j * np + i) as int));
    }
    assert(written =~= canonical_file(bytes));
}

/// A file whose values all lie in `[0, p)` is its own canonical form.
pub proof fn lemma_canonical_file(bytes: Seq<u8>)
    requires
        bytes.len() % 8 == 0,
        forall|k: int| 0 <= k < bytes.len() / 8 ==> #[trigger] file_value(bytes, k) < MODULUS,
    ensures
        canonical_file(bytes) == bytes,
{
    lemma_auto_spec_u64_to_from_le_bytes();
    assert forall|b: int| 0 <= b < bytes.len() implies canonical_file(bytes)[b] == bytes[b] by {
        let k = b / 8;
        let group = bytes.subrange(8 * k, 8 * k + 8);
        assert(file_value(bytes, k) < MODULUS);
        assert(group.len() == 8);
        assert(spec_u64_to_le_bytes(spec_u64_from_le_bytes(group)) == group);
        assert(group[b % 8] == bytes[b]);
    }
    assert(canonical_file(bytes) =~= bytes);
}

fn store_holds(reference: &PilReference, kind: PolKind) -> (r: bool)
    ensures
        r == kind_matches(reference.reference_type@, kind),
{
    let tag = match kind {
        PolKind::Commit => String::from_str("cmP"),
        PolKind::Constant => String::from_str("constP"),
    };
    reference.reference_type == tag
}

fn unnamed_pol() -> (r: Pol)
    ensures
        r.name@.len() == 0,
{
    Pol { name: String::new(), id: 0, idx: None, pol_deg: 0, element_type: None }
}

fn copy_text(text: &Option<String>) -> (r: Option<String>)
    ensures
        r == *text,
{
    match text {
        Some(s) => Some(s.clone()),
        None => None,
    }
}

impl PolsArray {
    /// There are `n_pols` columns of `n` rows each.
    pub open spec fn wf(&self) -> bool {
        &&& self.array@.len() == self.n_pols
        &&& has_rows(self.array.deep_view(), self.n as nat)
    }

    /// Whether there are `n_pols` columns of `n` rows each.
    pub fn is_well_formed(&self) -> (r: bool)
        ensures
            r == self.wf(),
    {
        self.array.len() == self.n_pols && table_has_rows(&self.array, self.n)
    }

    /// The store of `kind` for the program, with every value zero.
    pub fn new(pil: &Pil, kind: PolKind) -> (r: Result<PolsArray, PilError>)
        ensures
            match r {
                Err(x) => store_fault(*pil, kind) == Some(x),
                Ok(store) => {
                    &&& store_fault(*pil, kind) is None
                    &&& store.wf()
                    &&& store.n_pols == store_size(*pil, kind)
                    &&& store.n == store_rows(*pil, kind)
                    &&& forall|i: int|
                        0 <= i < store.n_pols ==> #[trigger] store.array.deep_view()[i]
                            == constant_column(0, store.n as nat)
                    &&& store.def_array@.len() == store.n_pols
                    &&& forall|slot: int|
                        0 <= slot < store.n_pols ==> #[trigger] store.def_array@[slot] == pol_of(
                            pil.references@[covering(
                                pil.references@,
                                kind,
                                slot,
                                pil.references@.len() as int,
                            )->0],
                            slot,
                        )
                    &&& index_view(store.def@) == index_of(
                        pil.references@,
                        kind,
                        pil.references@.len() as int,
                    )
                },
            },
    {
        let n_pols: usize = match kind {
            PolKind::Commit => pil.n_commitments,
            PolKind::Constant => pil.n_constants,
        };
        let mut def: Vec<DefEntry> = Vec::new();
        let mut def_array: Vec<Pol> = Vec::new();
        let mut filled: usize = 0;
        while filled < n_pols
            invariant
                filled <= n_pols,
                def_array@.len() == filled,
                forall|s: int| 0 <= s < filled ==> (#[trigger] def_array@[s]).name@.len() == 0,
            decreases n_pols - filled,
        {
            def_array.push(unnamed_pol());
            filled = filled + 1;
        }
        let ghost refs = pil.references@;
        let mut r: usize = 0;
        assert(index_view(def@) =~= index_of(refs, kind, 0));
        while r < pil.references.len()
            invariant
                r <= pil.references.len(),
                refs == pil.references@,
                n_pols == store_size(*pil, kind),
                def_array@.len() == n_pols,
                first_fault(refs, kind, n_pols as nat, 0) == first_fault(
                    refs,
                    kind,
                    n_pols as nat,
                    r as int,
                ),
                index_view(def@) == index_of(refs, kind, r as int),
                forall|s: int|
                    0 <= s < n_pols ==> match #[trigger] covering(refs, kind, s, r as int) {
                        Some(at) => def_array@[s] == pol_of(refs[at], s) && split_name(
                            refs[at].name@,
                        ) is Some,
                        None => def_array@[s].name@.len() == 0,
                    },
            decreases pil.references.len() - r,
        {
            let reference = &pil.references[r];
            if store_holds(&reference.inner, kind) {
                let (namespace, name) = match split_qualified(reference.name.as_str()) {
                    None => {
                        return Err(PilError::IrMalformed(IrFault::MalformedName));
                    },
                    Some(parts) => parts,
                };
                let width: usize = if reference.inner.is_array {
                    match reference.inner.len {
                        None => {
                            return Err(PilError::IrMalformed(IrFault::MissingField));
                        },
                        Some(l) => l,
                    }
                } else {
                    1
                };
                let first: usize = reference.inner.id;
                if first > n_pols || width > n_pols - first {
                    return Err(PilError::IrMalformed(IrFault::IndexOutOfRange));
                }
                let mut ids: Vec<usize> = Vec::with_capacity(width);
                let mut t: usize = 0;
                while t < width
                    invariant
                        t <= width,
                        first + width <= n_pols,
                        first == reference.inner.id,
                        width == reference.inner.width(),
                        *reference == refs[r as int],
                        def_array@.len() == n_pols,
                        split_name(reference.name@) is Some,
                        ids@ == Seq::new(t as nat, |u: int| (first + u) as usize),
                        forall|s: int|
                            first <= s < first + t ==> #[trigger] def_array@[s] == pol_of(
                                *reference,
                                s,
                            ),
                        forall|s: int|
                            0 <= s < n_pols && !(first <= s < first + t) ==> match #[trigger] covering(
                                refs,
                                kind,
                                s,
                                r as int,
                            ) {
                                Some(at) => def_array@[s] == pol_of(refs[at], s) && split_name(
                                    refs[at].name@,
                                ) is Some,
                                None => def_array@[s].name@.len() == 0,
                            },
                    decreases width - t,
                {
                    let pol = Pol {
                        name: reference.name.clone(),
                        id: first + t,
                        idx: if reference.inner.is_array {
                            Some(t)
                        } else {
                            None
                        },
                        pol_deg: reference.inner.pol_deg,
                        element_type: copy_text(&reference.inner.element_type),
                    };
                    def_array.set(first + t, pol);
                    ids.push(first + t);
                    assert(ids@ =~= Seq::new((t + 1) as nat, |u: int| (first + u) as usize));
                    t = t + 1;
                }
                let entry = DefEntry { namespace, name, ids };
                assert(entry@ == entry_of(*reference));
                let ghost before = index_view(def@);
                def.push(entry);
                assert(index_view(def@) =~= before.push(entry_of(*reference)));
            }
            proof {
                assert forall|s: int| 0 <= s < n_pols implies match #[trigger] covering(
                    refs,
                    kind,
                    s,
                    r + 1,
                ) {
                    Some(at) => def_array@[s] == pol_of(refs[at], s) && split_name(
                        refs[at].name@,
                    ) is Some,
                    None => def_array@[s].name@.len() == 0,
                } by {
                    let here = kind_matches(refs[r as int].inner.reference_type@, kind) && covers(
                        refs[r as int],
                        s,
                    );
                    assert(covering(refs, kind, s, r + 1) == if here {
                        Some(r as int)
                    } else {
                        covering(refs, kind, s, r as int)
                    });
                }
            }
            r = r + 1;
        }
        let mut slot: usize = 0;
        while slot < n_pols
            invariant
                slot <= n_pols,
                refs == pil.references@,
                n_pols == store_size(*pil, kind),
                def_array@.len() == n_pols,
                first_fault(refs, kind, n_pols as nat, 0) is None,
                forall|s: int|
                    0 <= s < n_pols ==> match #[trigger] covering(refs, kind, s, refs.len() as int) {
                        Some(at) => def_array@[s] == pol_of(refs[at], s) && split_name(
                            refs[at].name@,
                        ) is Some,
                        None => def_array@[s].name@.len() == 0,
                    },
                forall|s: int|
                    0 <= s < slot ==> (#[trigger] covering(refs, kind, s, refs.len() as int)) is Some,
            decreases n_pols - slot,
        {
            if def_array[slot].name.as_str().is_empty() {
                assert(covering(refs, kind, slot as int, refs.len() as int) is None) by {
                    if covering(refs, kind, slot as int, refs.len() as int) is Some {
                        let at = covering(refs, kind, slot as int, refs.len() as int)->0;
                        assert(split_name(refs[at].name@) is Some);
                        assert(def_array@[slot as int] == pol_of(refs[at], slot as int));
                    }
                }
                return Err(PilError::InvalidPilSequence);
            }
            slot = slot + 1;
        }
        let n: usize = if n_pols == 0 {
            0
        } else {
            def_array[0].pol_deg
        };
        assert(n == store_rows(*pil, kind)) by {
            if n_pols > 0 {
                assert(covering(refs, kind, 0, refs.len() as int) is Some);
            }
        }
        let mut checked: usize = 0;
        while checked < n_pols
            invariant
                checked <= n_pols,
                refs == pil.references@,
                n_pols == store_size(*pil, kind),
                n == store_rows(*pil, kind),
                def_array@.len() == n_pols,
                first_fault(refs, kind, n_pols as nat, 0) is None,
                all_covered(*pil, kind),
                forall|s: int|
                    0 <= s < n_pols ==> match #[trigger] covering(refs, kind, s, refs.len() as int) {
                        Some(at) => def_array@[s] == pol_of(refs[at], s) && split_name(
                            refs[at].name@,
                        ) is Some,
                        None => def_array@[s].name@.len() == 0,
                    },
                forall|s: int| 0 <= s < checked ==> #[trigger] slot_degree(*pil, kind, s) == n,
            decreases n_pols - checked,
        {
            assert(covering(refs, kind, checked as int, refs.len() as int) is Some);
            if def_array[checked].pol_deg != n {
                assert(slot_degree(*pil, kind, checked as int) != store_rows(*pil, kind));
                return Err(PilError::IrMalformed(IrFault::NonUniformDegree));
            }
            checked = checked + 1;
        }
        let mut array: Vec<Vec<Fgl>> = Vec::with_capacity(n_pols);
        let mut made: usize = 0;
        while made < n_pols
            invariant
                made <= n_pols,
                array@.len() == made,
                forall|i: int|
                    0 <= i < made ==> (#[trigger] array@[i]).deep_view() == constant_column(
                        0,
                        n as nat,
                    ),
            decreases n_pols - made,
        {
            array.push(fill_column(Fgl::zero(), n));
            made = made + 1;
        }
        let store = PolsArray { n_pols, def, def_array, array, n };
        proof {
            assert forall|i: int| 0 <= i < store.n_pols implies #[trigger] store.array.deep_view()[i]
                == constant_column(0, store.n as nat) by {
                assert(store.array@[i].deep_view() == constant_column(0, n as nat));
            }
            assert forall|slot: int| 0 <= slot < store.n_pols implies #[trigger] store.def_array@[slot]
                == pol_of(
                pil.references@[covering(
                    pil.references@,
                    kind,
                    slot,
                    pil.references@.len() as int,
                )->0],
                slot,
            ) by {
                assert(covering(refs, kind, slot, refs.len() as int) is Some);
            }
        }
        Ok(store)
    }
}

impl PolsArray {
    /// The place of the last entry of the index for the name `np` in the
    /// namespace `ns`, if there is one.
    pub open spec fn entry(&self, ns: Seq<char>, np: Seq<char>) -> Option<int> {
        find_entry(index_view(self.def@), ns, np, self.def@.len() as int)
    }

    /// The id of column `k` of the name `np` in the namespace `ns`, if the
    /// index has the name and the name has that many columns.
    pub open spec fn pol_id(&self, ns: Seq<char>, np: Seq<char>, k: int) -> Option<usize> {
        match self.entry(ns, np) {
            Some(at) => if 0 <= k < self.def@[at].ids@.len() {
                Some(self.def@[at].ids@[k])
            } else {
                None
            },
            None => None,
        }
    }

    /// Looks the id of column `k` of the name `np` in the namespace `ns` up,
    /// if the index has it.
    pub fn find_pol_id(&self, ns: &String, np: &String, k: usize) -> (r: Option<usize>)
        ensures
            r == self.pol_id(ns@, np@, k as int),
    {
        let mut at: usize = self.def.len();
        while at > 0
            invariant
                at <= self.def.len(),
                self.entry(ns@, np@) == find_entry(index_view(self.def@), ns@, np@, at as int),
            decreases at,
        {
            let entry = &self.def[at - 1];
            assert(index_view(self.def@)[at - 1] == entry@);
            if entry.namespace == *ns && entry.name == *np {
                if k < entry.ids.len() {
                    return Some(entry.ids[k]);
                } else {
                    return None;
                }
            }
            at = at - 1;
        }
        None
    }

    /// The id of column `k` of the name `np` in the namespace `ns`.
    pub fn get_pol_id(&self, ns: &String, np: &String, k: usize) -> (id: usize)
        requires
            self.pol_id(ns@, np@, k as int) is Some,
        ensures
            Some(id) == self.pol_id(ns@, np@, k as int),
    {
        match self.find_pol_id(ns, np, k) {
            Some(id) => id,
            None => vstd::pervasive::unreached(),
        }
    }

    /// The value at row `j` of column `i` of the name `np` in the namespace
    /// `ns`.
    pub fn get(&self, ns: &String, np: &String, i: usize, j: usize) -> (value: Fgl)
        requires
            self.pol_id(ns@, np@, i as int) is Some,
            self.pol_id(ns@, np@, i as int)->0 < self.array@.len(),
            j < self.array@[self.pol_id(ns@, np@, i as int)->0 as int]@.len(),
        ensures
            value == self.array@[self.pol_id(ns@, np@, i as int)->0 as int]@[j as int],
    {
        let id = self.get_pol_id(ns, np, i);
        self.array[id][j]
    }

    /// Sets the value at row `j` of column `i` of the name `np` in the
    /// namespace `ns`.
    pub fn set_matrix(&mut self, ns: &String, np: &String, i: usize, j: usize, value: Fgl)
        requires
            old(self).pol_id(ns@, np@, i as int) is Some,
            old(self).pol_id(ns@, np@, i as int)->0 < old(self).array@.len(),
            j < old(self).array@[old(self).pol_id(ns@, np@, i as int)->0 as int]@.len(),
        ensures
            final(self).n_pols == old(self).n_pols,
            final(self).n == old(self).n,
            final(self).def == old(self).def,
            final(self).def_array == old(self).def_array,
            final(self).array@.len() == old(self).array@.len(),
            forall|c: int|
                0 <= c < old(self).array@.len() ==> (#[trigger] final(self).array@[c])@ == (if c
                    == old(self).pol_id(ns@, np@, i as int)->0 {
                    old(self).array@[c]@.update(j as int, value)
                } else {
                    old(self).array@[c]@
                }),
    {
        let id = self.get_pol_id(ns, np, i);
        self.array[id].set(j, value);
    }
}

/// The buffer that holds the columns row after row: the value of column
/// `j` at row `i` stands at place `i * n_pols + j`, embedded in `F`.
pub open spec fn row_major<F: FieldExtension>(columns: Seq<Seq<nat>>, n_pols: nat, n: nat) -> Seq<F> {
    Seq::new(
        n * n_pols,
        |at: int| F::embed(columns[at % (n_pols as int)][at / (n_pols as int)]),
    )
}

proof fn lemma_cell_place(n_pols: int, row: int, column: int)
    requires
        0 <= column < n_pols,
        0 <= row,
    ensures
        (row * n_pols + column) % n_pols == column,
        (row * n_pols + column) / n_pols == row,
        row * n_pols + column >= 0,
{
    assert(row * n_pols >= 0) by (nonlinear_arith)
        requires
            row >= 0,
            n_pols > 0,
    ;
    lemma_fundamental_div_mod_converse(row * n_pols + column, n_pols, row, column);
}

/// Whether the values that `len` bytes write fit in a file of the store, at
/// the places from `first` on.
pub open spec fn part_fits(n_pols: nat, n: nat, first: nat, len: nat) -> bool {
    len % 8 == 0 && first + len / 8 <= n_pols * n
}

/// The columns after the part of a file that starts at the place `first`
/// has been read from `bytes`: the cell of column `i` at row `j` has the
/// place `j * n_pols + i`, and holds the value of the file at that place,
/// reduced, if the part covers it, and what it held before if not.
pub open spec fn with_part(
    columns: Seq<Seq<nat>>,
    n_pols: nat,
    n: nat,
    first: nat,
    bytes: Seq<u8>,
) -> Seq<Seq<nat>> {
    Seq::new(
        n_pols,
        |i: int|
            Seq::new(
                n,
                |j: int|
                    if first <= j * n_pols + i < first + bytes.len() / 8 {
                        gl_reduce(file_value(bytes, j * n_pols + i - first) as int)
                    } else {
                        columns[i][j]
                    },
            ),
    )
}

/// The part that is the whole file gives the columns that the file holds.
pub proof fn lemma_whole_part(columns: Seq<Seq<nat>>, bytes: Seq<u8>, n_pols: nat, n: nat)
    requires
        bytes.len() == n_pols * n * 8,
    ensures
        with_part(columns, n_pols, n, 0, bytes) == decoded_columns(bytes, n_pols, n),
{
    let loaded = with_part(columns, n_pols, n, 0, bytes);
    let decoded = decoded_columns(bytes, n_pols, n);
    assert forall|i: int| 0 <= i < n_pols implies #[trigger] loaded[i] == decoded[i] by {
        assert forall|j: int| 0 <= j < n implies loaded[i][j] == decoded[i][j] by {
            assert(0 <= j * n_pols + i < n_pols * n) by (nonlinear_arith)
                requires
                    0 <= i < n_pols,
                    0 <= j < n,
            ;
        }
        assert(loaded[i] =~= decoded[i]);
    }
    assert(loaded =~= decoded);
}

/// Two parts of a file that follow each other, read one after the other,
/// give what the two read as one part give.
pub proof fn lemma_parts_join(
    columns: Seq<Seq<nat>>,
    n_pols: nat,
    n: nat,
    first: nat,
    head: Seq<u8>,
    tail: Seq<u8>,
)
    requires
        head.len() % 8 == 0,
        tail.len() % 8 == 0,
    ensures
        with_part(
            with_part(columns, n_pols, n, first, head),
            n_pols,
            n,
            first + head.len() / 8,
            tail,
        ) == with_part(columns, n_pols, n, first, head + tail),
{
    let middle = with_part(columns, n_pols, n, first, head);
    let second = first + head.len() / 8;
    let stepwise = with_part(middle, n_pols, n, second, tail);
    let joined = with_part(columns, n_pols, n, first, head + tail);
    let whole = head + tail;
    assert forall|i: int| 0 <= i < n_pols implies #[trigger] stepwise[i] == joined[i] by {
        assert forall|j: int| 0 <= j < n implies stepwise[i][j] == joined[i][j] by {
            let place = j * n_pols + i;
            if first <= place < first + whole.len() / 8 {
                let k = place - first;
                if k < head.len() / 8 {
                    assert(whole.subrange(8 * k, 8 * k + 8) =~= head.subrange(8 * k, 8 * k + 8));
                } else {
                    let back = k - head.len() / 8;
                    assert(whole.subrange(8 * k, 8 * k + 8) =~= tail.subrange(
                        8 * back,
                        8 * back + 8,
                    ));
                }
            }
        }
        assert(stepwise[i] =~= joined[i]);
    }
    assert(stepwise =~= joined);
}

impl PolsArray {
    /// Fills the cells at the places from `first` on from the bytes of a
    /// part of a column file: eight bytes for each value. A part that is not
    /// made of whole values, or that reaches beyond the last place, is
    /// refused, and the store is left as it is.
    pub fn load_part(&mut self, first: usize, bytes: &[u8]) -> (r: Result<(), PilError>)
        requires
            old(self).wf(),
        ensures
            final(self).wf(),
            final(self).n_pols == old(self).n_pols,
            final(self).n == old(self).n,
            final(self).def == old(self).def,
            final(self).def_array == old(self).def_array,
            match r {
                Ok(_) => {
                    &&& part_fits(
                        old(self).n_pols as nat,
                        old(self).n as nat,
                        first as nat,
                        bytes@.len(),
                    )
                    &&& final(self).array.deep_view() == with_part(
                        old(self).array.deep_view(),
                        old(self).n_pols as nat,
                        old(self).n as nat,
                        first as nat,
                        bytes@,
                    )
                },
                Err(x) => {
                    &&& x == PilError::FileSizeMismatch
                    &&& !part_fits(
                        old(self).n_pols as nat,
                        old(self).n as nat,
                        first as nat,
                        bytes@.len(),
                    )
                    &&& final(self).array == old(self).array
                },
            },
    {
        let n_pols: usize = self.n_pols;
        let n: usize = self.n;
        let size: usize = bytes.len();
        if size % 8 != 0 {
            return Err(PilError::FileSizeMismatch);
        }
        let count: usize = size / 8;
        proof {
            assert(n_pols * n <= 0xFFFF_FFFF_FFFF_FFFF * 0xFFFF_FFFF_FFFF_FFFF) by (nonlinear_arith)
                requires
                    0 <= n_pols <= 0xFFFF_FFFF_FFFF_FFFF,
                    0 <= n <= 0xFFFF_FFFF_FFFF_FFFF,
            ;
        }
        let places: u128 = (n_pols as u128) * (n as u128);
        if first as u128 + count as u128 > places {
            return Err(PilError::FileSizeMismatch);
        }
        let ghost before = self.array.deep_view();
        proof {
            assert forall|c: int| 0 <= c < n_pols implies (#[trigger] self.array@[c])@.len() == n by {
                assert(self.array.deep_view()[c] == self.array@[c].deep_view());
            }
        }
        if count == 0 {
            proof {
                let loaded = with_part(before, n_pols as nat, n as nat, first as nat, bytes@);
                assert forall|c: int| 0 <= c < n_pols implies #[trigger] loaded[c] == before[c] by {
                    assert(before[c] == self.array@[c].deep_view());
                    assert(loaded[c] =~= before[c]);
                }
                assert(loaded =~= before);
            }
            return Ok(());
        }
        assert(n_pols > 0) by (nonlinear_arith)
            requires
                first + count <= n_pols * n,
                count > 0,
                first >= 0,
                n >= 0,
                n_pols >= 0,
        ;
        let mut i: usize = first % n_pols;
        let mut j: usize = first / n_pols;
        let mut l: usize = 0;
        proof {
            lemma_fundamental_div_mod(first as int, n_pols as int);
            assert(j * n_pols == n_pols * j) by (nonlinear_arith);
        }
        while l < count
            invariant
                l <= count,
                n_pols > 0,
                count == bytes@.len() / 8,
                bytes@.len() % 8 == 0,
                bytes@.len() == size,
                first + count <= n_pols * n,
                first + l == j * n_pols + i,
                i < n_pols,
                self.n_pols == n_pols,
                self.n == n,
                self.def == old(self).def,
                self.def_array == old(self).def_array,
                self.array@.len() == n_pols,
                before == old(self).array.deep_view(),
                forall|c: int| 0 <= c < n_pols ==> (#[trigger] self.array@[c])@.len() == n,
                forall|c: int, row: int|
                    0 <= c < n_pols && 0 <= row < n ==> (#[trigger] self.array@[c]@[row])@ == (if first
                        <= row * n_pols + c < first + l {
                        gl_reduce(file_value(bytes@, row * n_pols + c - first) as int)
                    } else {
                        before[c][row]
                    }),
            decreases count - l,
        {
            assert(j < n) by (nonlinear_arith)
                requires
                    first + l == j * n_pols + i,
                    first + l < n_pols * n,
                    i >= 0,
                    n_pols > 0,
            ;
            assert(8 * l + 8 <= bytes@.len());
            let group = slice_subrange(bytes, 8 * l, 8 * l + 8);
            let value = Fgl::from_u64(u64_from_le_bytes(group));
            let ghost held = self.array@;
            self.array[i].set(j, value);
            proof {
                assert forall|c: int, row: int| 0 <= c < n_pols && 0 <= row < n implies (
                #[trigger] self.array@[c]@[row])@ == (if first <= row * n_pols + c < first + l + 1 {
                    gl_reduce(file_value(bytes@, row * n_pols + c - first) as int)
                } else {
                    before[c][row]
                }) by {
                    lemma_cell_place(n_pols as int, row, c);
                    lemma_cell_place(n_pols as int, j as int, i as int);
                    if c == i && row == j {
                    } else {
                        assert(self.array@[c]@[row] == held[c]@[row]);
                        assert(row * n_pols + c != first + l);
                    }
                }
            }
            i = i + 1;
            if i == n_pols {
                i = 0;
                j = j + 1;
                assert((j - 1) * n_pols + n_pols == j * n_pols + 0) by (nonlinear_arith);
            }
            l = l + 1;
        }
        proof {
            let loaded = with_part(before, n_pols as nat, n as nat, first as nat, bytes@);
            assert forall|c: int| 0 <= c < n_pols implies #[trigger] self.array.deep_view()[c]
                == loaded[c] by {
                assert(self.array.deep_view()[c] == self.array@[c].deep_view());
                assert forall|row: int| 0 <= row < n implies self.array@[c].deep_view()[row]
                    == loaded[c][row] by {
                    assert(self.array@[c]@[row]@ == loaded[c][row]);
                }
                assert(self.array@[c].deep_view() =~= loaded[c]);
            }
            assert(self.array.deep_view() =~= loaded);
            assert forall|c: int| 0 <= c < self.array.deep_view().len() implies (
            #[trigger] self.array.deep_view()[c]).len() == n by {
                assert(self.array.deep_view()[c] == self.array@[c].deep_view());
            }
        }
        Ok(())
    }

    /// Fills the store from the bytes of a column file, which must hold
    /// `n_pols * n * 8` of them. A file of another size is refused, and the
    /// store is left as it is.
    pub fn load(&mut self, bytes: &[u8]) -> (r: Result<(), PilError>)
        requires
            old(self).wf(),
        ensures
            final(self).wf(),
            final(self).n_pols == old(self).n_pols,
            final(self).n == old(self).n,
            final(self).def == old(self).def,
            final(self).def_array == old(self).def_array,
            match r {
                Ok(_) => {
                    &&& bytes@.len() == old(self).n_pols * old(self).n * 8
                    &&& final(self).array.deep_view() == decoded_columns(
                        bytes@,
                        old(self).n_pols as nat,
                        old(self).n as nat,
                    )
                },
                Err(x) => {
                    &&& x == PilError::FileSizeMismatch
                    &&& bytes@.len() != old(self).n_pols * old(self).n * 8
                    &&& final(self).array == old(self).array
                },
            },
    {
        let n_pols: usize = self.n_pols;
        let n: usize = self.n;
        let size: usize = bytes.len();
        proof {
            assert(n_pols * n <= 0xFFFF_FFFF_FFFF_FFFF * 0xFFFF_FFFF_FFFF_FFFF) by (nonlinear_arith)
                requires
                    0 <= n_pols <= 0xFFFF_FFFF_FFFF_FFFF,
                    0 <= n <= 0xFFFF_FFFF_FFFF_FFFF,
            ;
        }
        let places: u128 = (n_pols as u128) * (n as u128);
        if size % 8 != 0 || (size / 8) as u128 != places {
            return Err(PilError::FileSizeMismatch);
        }
        proof {
            lemma_whole_part(self.array.deep_view(), bytes@, n_pols as nat, n as nat);
        }
        self.load_part(0, bytes)
    }

    /// The bytes of the part of the column file that holds the `count`
    /// values at the places from `first` on, if the file has them.
    pub fn save_part(&self, first: usize, count: usize) -> (r: Option<Vec<u8>>)
        requires
            self.wf(),
        ensures
            match r {
                Some(bytes) => first + count <= self.n_pols * self.n && bytes@ == encoded_file(
                    self.array.deep_view(),
                    self.n_pols as nat,
                    self.n as nat,
                ).subrange(8 * first, 8 * (first + count)),
                None => first + count > self.n_pols * self.n,
            },
    {
        let n_pols: usize = self.n_pols;
        let n: usize = self.n;
        proof {
            assert(n_pols * n <= 0xFFFF_FFFF_FFFF_FFFF * 0xFFFF_FFFF_FFFF_FFFF) by (nonlinear_arith)
                requires
                    0 <= n_pols <= 0xFFFF_FFFF_FFFF_FFFF,
                    0 <= n <= 0xFFFF_FFFF_FFFF_FFFF,
            ;
        }
        let places: u128 = (n_pols as u128) * (n as u128);
        if first as u128 + count as u128 > places {
            return None;
        }
        let ghost columns = self.array.deep_view();
        let ghost file = encoded_file(columns, n_pols as nat, n as nat);
        let mut bytes: Vec<u8> = Vec::new();
        if count == 0 {
            assert(bytes@ =~= file.subrange(8 * first, 8 * (first + count)));
            return Some(bytes);
        }
        assert(n_pols > 0) by (nonlinear_arith)
            requires
                first + count <= n_pols * n,
                count > 0,
                first >= 0,
                n >= 0,
                n_pols >= 0,
        ;
        let mut i: usize = first % n_pols;
        let mut j: usize = first / n_pols;
        let mut l: usize = 0;
        proof {
            lemma_fundamental_div_mod(first as int, n_pols as int);
            assert(j * n_pols == n_pols * j) by (nonlinear_arith);
            assert(n_pols * n * 8 == (n_pols * n) * 8) by (nonlinear_arith);
        }
        while l < count
            invariant
                l <= count,
                n_pols > 0,
                self.wf(),
                n_pols == self.n_pols,
                n == self.n,
                columns == self.array.deep_view(),
                file == encoded_file(columns, n_pols as nat, n as nat),
                file.len() == (n_pols * n) * 8,
                first + count <= n_pols * n,
                first + l == j * n_pols + i,
                i < n_pols,
                bytes@ == file.subrange(8 * first, 8 * (first + l)),
            decreases count - l,
        {
            assert(j < n) by (nonlinear_arith)
                requires
                    first + l == j * n_pols + i,
                    first + l < n_pols * n,
                    i >= 0,
                    n_pols > 0,
            ;
            assert(columns[i as int] == self.array@[i as int].deep_view());
            assert(columns[i as int].len() == n);
            let value: u64 = self.array[i][j].as_int();
            let mut group = u64_to_le_bytes(value);
            let ghost written = group@;
            bytes.append(&mut group);
            proof {
                let k = first + l;
                lemma_cell_place(n_pols as int, j as int, i as int);
                assert forall|b: int| 0 <= b < 8 implies written[b] == file[8 * k + b] by {
                    assert((8 * k + b) / 8 == k);
                    assert((8 * k + b) % 8 == b);
                    assert(columns[i as int][j as int] == value);
                }
                assert(bytes@ =~= file.subrange(8 * first, 8 * (first + l + 1)));
            }
            i = i + 1;
            if i == n_pols {
                i = 0;
                j = j + 1;
                assert((j - 1) * n_pols + n_pols == j * n_pols + 0) by (nonlinear_arith);
            }
            l = l + 1;
        }
        Some(bytes)
    }

    /// The bytes of the column file that holds the store.
    pub fn save(&self) -> (bytes: Vec<u8>)
        requires
            self.wf(),
        ensures
            bytes@ == encoded_file(self.array.deep_view(), self.n_pols as nat, self.n as nat),
    {
        let n_pols: usize = self.n_pols;
        let n: usize = self.n;
        let ghost columns = self.array.deep_view();
        let mut bytes: Vec<u8> = Vec::new();
        let mut j: usize = 0;
        assert(0 * (n_pols as int) * 8 == 0);
        while j < n
            invariant
                j <= n,
                self.wf(),
                n_pols == self.n_pols,
                n == self.n,
                columns == self.array.deep_view(),
                bytes@.len() == j * n_pols * 8,
                forall|b: int|
                    0 <= b < bytes@.len() ==> #[trigger] bytes@[b] == spec_u64_to_le_bytes(
                        columns[(b / 8) % (n_pols as int)][(b / 8) / (n_pols as int)] as u64,
                    )[b % 8],
            decreases n - j,
        {
            let mut i: usize = 0;
            while i < n_pols
                invariant
                    i <= n_pols,
                    j < n,
                    self.wf(),
                    n_pols == self.n_pols,
                    n == self.n,
                    columns == self.array.deep_view(),
                    bytes@.len() == (j * n_pols + i) * 8,
                    forall|b: int|
                        0 <= b < bytes@.len() ==> #[trigger] bytes@[b] == spec_u64_to_le_bytes(
                            columns[(b / 8) % (n_pols as int)][(b / 8) / (n_pols as int)] as u64,
                        )[b % 8],
                decreases n_pols - i,
            {
                assert(columns[i as int] == self.array@[i as int].deep_view());
                assert(columns[i as int].len() == n);
                let value: u64 = self.array[i][j].as_int();
                let mut group = u64_to_le_bytes(value);
                let ghost before = bytes@;
                let ghost written = group@;
                bytes.append(&mut group);
                proof {
                    let k = j * n_pols + i;
                    lemma_cell_place(n_pols as int, j as int, i as int);
                    assert forall|b: int| 0 <= b < bytes@.len() implies #[trigger] bytes@[b]
                        == spec_u64_to_le_bytes(
                        columns[(b / 8) % (n_pols as int)][(b / 8) / (n_pols as int)] as u64,
                    )[b % 8] by {
                        if b >= before.len() {
                            assert(bytes@[b] == written[b - before.len()]);
                            assert(b / 8 == k);
                            assert(b % 8 == b - before.len());
                            assert(columns[i as int][j as int] == value);
                        } else {
                            assert(bytes@[b] == before[b]);
                        }
                    }
                    assert((j * n_pols + i + 1) * 8 == (j * n_pols + i) * 8 + 8);
                }
                i = i + 1;
            }
            assert((j + 1) * n_pols * 8 == (j * n_pols + n_pols) * 8) by (nonlinear_arith);
            j = j + 1;
        }
        assert(n * n_pols * 8 == n_pols * n * 8) by (nonlinear_arith);
        assert(bytes@ =~= encoded_file(columns, n_pols as nat, n as nat));
        bytes
    }

    /// One buffer that holds the columns row after row, each value embedded
    /// in the field `F`.
    pub fn write_buff<F: FieldExtension>(&self) -> (buff: Vec<F>)
        requires
            self.wf(),
        ensures
            buff@ == row_major::<F>(self.array.deep_view(), self.n_pols as nat, self.n as nat),
    {
        let n_pols: usize = self.n_pols;
        let n: usize = self.n;
        let ghost columns = self.array.deep_view();
        let mut buff: Vec<F> = Vec::new();
        let mut i: usize = 0;
        assert(0 * (n_pols as int) == 0);
        while i < n
            invariant
                i <= n,
                self.wf(),
                n_pols == self.n_pols,
                n == self.n,
                columns == self.array.deep_view(),
                buff@.len() == i * n_pols,
                forall|at: int|
                    0 <= at < buff@.len() ==> #[trigger] buff@[at] == F::embed(
                        columns[at % (n_pols as int)][at / (n_pols as int)],
                    ),
            decreases n - i,
        {
            let mut j: usize = 0;
            while j < n_pols
                invariant
                    j <= n_pols,
                    i < n,
                    self.wf(),
                    n_pols == self.n_pols,
                    n == self.n,
                    columns == self.array.deep_view(),
                    buff@.len() == i * n_pols + j,
                    forall|at: int|
                        0 <= at < buff@.len() ==> #[trigger] buff@[at] == F::embed(
                            columns[at % (n_pols as int)][at / (n_pols as int)],
                        ),
                decreases n_pols - j,
            {
                assert(columns[j as int] == self.array@[j as int].deep_view());
                assert(columns[j as int].len() == n);
                let value = self.array[j][i];
                proof {
                    lemma_cell_place(n_pols as int, i as int, j as int);
                }
                buff.push(F::from_fgl(value));
                j = j + 1;
            }
            assert((i + 1) * n_pols == i * n_pols + n_pols) by (nonlinear_arith);
            i = i + 1;
        }
        assert(buff@ =~= row_major::<F>(columns, n_pols as nat, n as nat));
        buff
    }
}

} // verus!
