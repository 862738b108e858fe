//! The descriptors of a column store: what is known of each column by its
//! id and by its name, without the values.

use crate::error::PilError;
use crate::pil::{split_name, split_qualified, Pil, PilReference, PilReferenceWithName};
use crate::polarray::{
    covering, first_fault, kind_matches, reference_fault, store_fault, store_size, PolKind,
    PolsArray,
};
use vstd::prelude::*;

verus! {

/// What is known of one column.
#[derive(Debug)]
pub struct DefArrayElement {
    /// The fully qualified name of the reference that the column belongs to.
    pub name: String,
    pub id: usize,
    /// The place of the column in its array, where it belongs to one.
    pub idx: Option<usize>,
    /// The kind tag of the reference.
    pub element_type: String,
    pub pol_deg: usize,
}

impl Default for DefArrayElement {
    fn default() -> (r: DefArrayElement)
        ensures
            r.name@ == Seq::<char>::empty(),
            r.id == 0,
            r.idx == Some(0usize),
            r.element_type@ == Seq::<char>::empty(),
            r.pol_deg == 0,
    {
        DefArrayElement {
            name: String::new(),
            id: 0,
            idx: Some(0),
            element_type: String::new(),
            pol_deg: 0,
        }
    }
}

impl Clone for DefArrayElement {
    fn clone(&self) -> (r: DefArrayElement)
        ensures
            r == *self,
    {
        DefArrayElement {
            name: self.name.clone(),
            id: self.id,
            idx: self.idx,
            element_type: self.element_type.clone(),
            pol_deg: self.pol_deg,
        }
    }
}

/// The rows of a name: those of one column, or those of each column of an
/// array.
#[derive(Debug)]
pub enum PolProxy {
    Single(Vec<DefArrayElement>),
    Multi(Vec<Vec<DefArrayElement>>),
}

impl PolProxy {
    /// The rows of the columns, where this is an array.
    pub fn get_multi_mut(&mut self) -> (r: Option<&mut Vec<Vec<DefArrayElement>>>)
        ensures
            match r {
                Some(multi) => *old(self) == PolProxy::Multi(*multi) && *final(self)
                    == PolProxy::Multi(*final(multi)),
                None => *old(self) is Single && *final(self) == *old(self),
            },
    {
        match self {
            PolProxy::Multi(multi) => Some(multi),
            _ => None,
        }
    }

    /// The rows of the column, where this is one column.
    pub fn get_single_mut(&mut self) -> (r: Option<&mut Vec<DefArrayElement>>)
        ensures
            match r {
                Some(single) => *old(self) == PolProxy::Single(*single) && *final(self)
                    == PolProxy::Single(*final(single)),
                None => *old(self) is Multi && *final(self) == *old(self),
            },
    {
        match self {
            PolProxy::Single(single) => Some(single),
            _ => None,
        }
    }
}

/// The columns that a name stands for.
#[derive(Debug)]
pub struct NamedDef {
    pub namespace: String,
    pub name: String,
    pub elements: Vec<DefArrayElement>,
}

/// The rows that a name stands for.
#[derive(Debug)]
pub struct NamedProxy {
    pub namespace: String,
    pub name: String,
    pub proxy: PolProxy,
}

/// The descriptors of the columns of one kind.
#[derive(Debug)]
pub struct PolArray {
    pub n_pols: usize,
    /// One entry for each reference of the store's kind, in their order.
    pub def: Vec<NamedDef>,
    pub def_array: Vec<DefArrayElement>,
    /// The rows of each column: none yet.
    pub array: Vec<Vec<DefArrayElement>>,
    /// One entry for each reference of the store's kind, in their order.
    pub pol_proxy: Vec<NamedProxy>,
}

/// The kind of store that a word names.
pub open spec fn kind_named(word: Seq<char>) -> Option<PolKind> {
    if word == "commit"@ {
        Some(PolKind::Commit)
    } else if word == "constant"@ {
        Some(PolKind::Constant)
    } else {
        None
    }
}

/// What the store knows of the column `slot` that the reference `r` names.
pub open spec fn element_of(r: PilReferenceWithName<PilReference>, slot: int) -> DefArrayElement {
    DefArrayElement {
        name: r.name,
        id: slot as usize,
        idx: if r.inner.is_array {
            Some((slot - r.inner.id) as usize)
        } else {
            None
        },
        element_type: r.inner.reference_type,
        pol_deg: r.inner.pol_deg,
    }
}

/// Whether `entry` is the entry of the reference `r`: its namespace, its
/// name, and no rows yet for its column or for each column of its array.
pub open spec fn is_proxy_of(entry: NamedProxy, r: PilReferenceWithName<PilReference>) -> bool {
    &&& split_name(r.name@) == Some((entry.namespace@, entry.name@))
    &&& if r.inner.is_array {
        &&& entry.proxy is Multi
        &&& entry.proxy->Multi_0@.len() == r.inner.width()
        &&& forall|t: int|
            0 <= t < r.inner.width() ==> (#[trigger] entry.proxy->Multi_0@[t])@.len() == 0
    } else {
        entry.proxy is Single && entry.proxy->Single_0@.len() == 0
    }
}

/// The places of the references of the store's kind among the first `upto`,
/// in their order.
pub open spec fn matching(
    refs: Seq<PilReferenceWithName<PilReference>>,
    kind: PolKind,
    upto: int,
) -> Seq<int>
    decreases upto,
{
    if upto <= 0 {
        Seq::empty()
    } else if kind_matches(refs[upto - 1].inner.reference_type@, kind) {
        matching(refs, kind, upto - 1).push(upto - 1)
    } else {
        matching(refs, kind, upto - 1)
    }
}

proof fn lemma_covering_matches(
    refs: Seq<PilReferenceWithName<PilReference>>,
    kind: PolKind,
    slot: int,
    upto: int,
)
    requires
        upto <= refs.len(),
    ensures
        match covering(refs, kind, slot, upto) {
            Some(at) => 0 <= at < upto && kind_matches(refs[at].inner.reference_type@, kind),
            None => true,
        },
    decreases upto,
{
    if upto > 0 {
        lemma_covering_matches(refs, kind, slot, upto - 1);
    }
}

/// The kind of store that `word` names, if it names one.
pub fn kind_of_word(word: &String) -> (r: Option<PolKind>)
    ensures
        r == kind_named(word@),
{
    if *word == String::from_str("commit") {
        Some(PolKind::Commit)
    } else if *word == String::from_str("constant") {
        Some(PolKind::Constant)
    } else {
        None
    }
}

fn tag_of(kind: PolKind) -> (r: String)
    ensures
        kind_matches(r@, kind),
{
    match kind {
        PolKind::Commit => String::from_str("cmP"),
        PolKind::Constant => String::from_str("constP"),
    }
}

impl PolArray {
    /// The descriptors of the store that `pol_type` names, `commit` or
    /// `constant`, for the program.
    pub fn new(pil: &Pil, pol_type: String) -> (r: Result<PolArray, PilError>)
        requires
            kind_named(pol_type@) is Some,
        ensures
            match r {
                Err(x) => store_fault(*pil, kind_named(pol_type@)->0) == Some(x),
                Ok(store) => {
                    let kind = kind_named(pol_type@)->0;
                    let refs = pil.references@;
                    let places = matching(refs, kind, refs.len() as int);
                    &&& store_fault(*pil, kind) is None
                    &&& store.n_pols == store_size(*pil, kind)
                    &&& store.def_array@.len() == store.n_pols
                    &&& store.array@.len() == store.n_pols
                    &&& forall|slot: int|
                        0 <= slot < store.n_pols ==> {
                            let at = covering(refs, kind, slot, refs.len() as int);
                            &&& at is Some
                            &&& (#[trigger] store.def_array@[slot]).name == refs[at->0].name
                            &&& store.def_array@[slot].id == slot
                            &&& store.def_array@[slot].idx == element_of(refs[at->0], slot).idx
                            &&& store.def_array@[slot].element_type@
                                == refs[at->0].inner.reference_type@
                            &&& store.def_array@[slot].pol_deg == refs[at->0].inner.pol_deg
                            &&& store.array@[slot]@.len() == 0
                        }
                    &&& store.def@.len() == places.len()
                    &&& store.pol_proxy@.len() == places.len()
                    &&& forall|t: int|
                        0 <= t < places.len() ==> {
                            &&& split_name(refs[#[trigger] places[t]].name@) == Some(
                                (store.def@[t].namespace@, store.def@[t].name@),
                            )
                            &&& store.def@[t].elements@ == store.def_array@.subrange(
                                refs[places[t]].inner.id as int,
                                refs[places[t]].inner.id + refs[places[t]].inner.width(),
                            )
                            &&& is_proxy_of(store.pol_proxy@[t], refs[places[t]])
                        }
                },
            },
    {
        let kind = match kind_of_word(&pol_type) {
            Some(kind) => kind,
            None => vstd::pervasive::unreached(),
        };
        let columns = match PolsArray::new(pil, kind) {
            Err(x) => {
                return Err(x);
            },
            Ok(columns) => columns,
        };
        let n_pols: usize = columns.n_pols;
        let ghost refs = pil.references@;
        let mut def_array: Vec<DefArrayElement> = Vec::with_capacity(n_pols);
        let mut array: Vec<Vec<DefArrayElement>> = Vec::with_capacity(n_pols);
        let mut slot: usize = 0;
        while slot < n_pols
            invariant
                slot <= n_pols,
                refs == pil.references@,
                n_pols == columns.n_pols,
                columns.def_array@.len() == n_pols,
                def_array@.len() == slot,
                array@.len() == slot,
                forall|s: int|
                    0 <= s < n_pols ==> #[trigger] columns.def_array@[s] == crate::polarray::pol_of(
                        refs[covering(refs, kind, s, refs.len() as int)->0],
                        s,
                    ),
                forall|s: int|
                    0 <= s < n_pols ==> (#[trigger] covering(refs, kind, s, refs.len() as int))
                        is Some,
                forall|s: int|
                    0 <= s < slot ==> {
                        let at = covering(refs, kind, s, refs.len() as int);
                        &&& (#[trigger] def_array@[s]).name == refs[at->0].name
                        &&& def_array@[s].id == s
                        &&& def_array@[s].idx == element_of(refs[at->0], s).idx
                        &&& def_array@[s].element_type@ == refs[at->0].inner.reference_type@
                        &&& def_array@[s].pol_deg == refs[at->0].inner.pol_deg
                        &&& array@[s]@.len() == 0
                    },
            decreases n_pols - slot,
        {
            let known = &columns.def_array[slot];
            proof {
                lemma_covering_matches(refs, kind, slot as int, refs.len() as int);
                assert(columns.def_array@[slot as int] == crate::polarray::pol_of(
                    refs[covering(refs, kind, slot as int, refs.len() as int)->0],
                    slot as int,
                ));
            }
            def_array.push(
                DefArrayElement {
                    name: known.name.clone(),
                    id: known.id,
                    idx: known.idx,
                    element_type: tag_of(kind),
                    pol_deg: known.pol_deg,
                },
            );
            array.push(Vec::new());
            slot = slot + 1;
        }
        let mut def: Vec<NamedDef> = Vec::new();
        let mut pol_proxy: Vec<NamedProxy> = Vec::new();
        let mut r: usize = 0;
        while r < pil.references.len()
            invariant
                r <= pil.references.len(),
                refs == pil.references@,
                n_pols == store_size(*pil, kind),
                def_array@.len() == n_pols,
                first_fault(refs, kind, n_pols as nat, r as int) is None,
                def@.len() == matching(refs, kind, r as int).len(),
                pol_proxy@.len() == matching(refs, kind, r as int).len(),
                forall|t: int|
                    0 <= t < matching(refs, kind, r as int).len() ==> {
                        let at = #[trigger] matching(refs, kind, r as int)[t];
                        &&& 0 <= at < r
                        &&& split_name(refs[at].name@) == Some(
                            (def@[t].namespace@, def@[t].name@),
                        )
                        &&& def@[t].elements@ == def_array@.subrange(
                            refs[at].inner.id as int,
                            refs[at].inner.id + refs[at].inner.width(),
                        )
                        &&& is_proxy_of(pol_proxy@[t], refs[at])
                    },
            decreases pil.references.len() - r,
        {
            let reference = &pil.references[r];
            let ghost before = matching(refs, kind, r as int);
            if *(&reference.inner.reference_type) == tag_of(kind) {
                assert(kind_matches(reference.inner.reference_type@, kind)) by {
                    match kind {
                        PolKind::Commit => {},
                        PolKind::Constant => {},
                    }
                }
                assert(reference_fault(*reference, n_pols as nat) is None);
                let (namespace, name) = match split_qualified(reference.name.as_str()) {
                    Some(parts) => parts,
                    None => vstd::pervasive::unreached(),
                };
                let width: usize = if reference.inner.is_array {
                    match reference.inner.len {
                        Some(l) => l,
                        None => vstd::pervasive::unreached(),
                    }
                } else {
                    1
                };
                let first: usize = reference.inner.id;
                let mut elements: Vec<DefArrayElement> = Vec::with_capacity(width);
                let mut rows: Vec<Vec<DefArrayElement>> = Vec::with_capacity(width);
                let mut t: usize = 0;
                while t < width
                    invariant
                        t <= width,
                        first + width <= n_pols,
                        def_array@.len() == n_pols,
                        elements@ == def_array@.subrange(first as int, first + t),
                        rows@.len() == t,
                        forall|u: int| 0 <= u < t ==> (#[trigger] rows@[u])@.len() == 0,
                    decreases width - t,
                {
                    elements.push(def_array[first + t].clone());
                    rows.push(Vec::new());
                    assert(elements@ =~= def_array@.subrange(first as int, first + t + 1));
                    t = t + 1;
                }
                let proxy = if reference.inner.is_array {
                    PolProxy::Multi(rows)
                } else {
                    PolProxy::Single(Vec::new())
                };
                let (proxy_namespace, proxy_name) = (namespace.clone(), name.clone());
                def.push(NamedDef { namespace, name, elements });
                pol_proxy.push(NamedProxy { namespace: proxy_namespace, name: proxy_name, proxy });
                assert(matching(refs, kind, r + 1) == before.push(r as int));
            } else {
                assert(!kind_matches(reference.inner.reference_type@, kind)) by {
                    match kind {
                        PolKind::Commit => {},
                        PolKind::Constant => {},
                    }
                }
                assert(matching(refs, kind, r + 1) == before);
            }
            r = r + 1;
        }
        Ok(PolArray { n_pols, def, def_array, array, pol_proxy })
    }
}

} // verus!
