use pilcom_rust::error::{IrFault, PilError};
use pilcom_rust::evaluator::Pols;
use pilcom_rust::field::{Fgl, MODULUS};
use pilcom_rust::pil::{
    Expression, Pil, PilConnectionIdentity, PilReference, PilReferenceWithName,
};
use pilcom_rust::pil_verify::PilVerify;
use pilcom_rust::pol_array::{kind_of_word, DefArrayElement, PolArray, PolProxy};
use pilcom_rust::polarray::{PolKind, PolsArray};
use pilcom_rust::traits::FieldExtension;

fn reference(name: &str, kind: &str, id: usize, deg: usize) -> PilReferenceWithName<PilReference> {
    PilReferenceWithName::new(
        PilReference {
            reference_type: kind.to_string(),
            id,
            pol_deg: deg,
            is_array: false,
            len: None,
            element_type: None,
        },
        name.to_string(),
    )
}

fn array_reference(
    name: &str,
    kind: &str,
    id: usize,
    deg: usize,
    len: usize,
) -> PilReferenceWithName<PilReference> {
    let mut r = reference(name, kind, id, deg);
    r.inner.is_array = true;
    r.inner.len = Some(len);
    r.inner.element_type = Some("field".to_string());
    r
}

fn program(
    n_commitments: usize,
    n_constants: usize,
    references: Vec<PilReferenceWithName<PilReference>>,
) -> Pil {
    Pil {
        n_commitments,
        n_constants,
        references,
        publics: Vec::new(),
        expressions: Vec::new(),
        connection_identities: Vec::new(),
    }
}

fn sample() -> Pil {
    program(
        4,
        2,
        vec![
            reference("Global.L1", "constP", 0, 4),
            reference("Main.a", "cmP", 0, 4),
            array_reference("Main.b", "cmP", 1, 4, 3),
            reference("Main.q", "imP", 0, 4),
            reference("Rom.line", "constP", 1, 4),
        ],
    )
}

fn ints(column: &[Fgl]) -> Vec<u64> {
    column.iter().map(|v| v.as_int()).collect()
}

fn text(s: &str) -> String {
    s.to_string()
}

fn fault(pil: &Pil, kind: PolKind) -> Option<PilError> {
    PolsArray::new(pil, kind).err()
}

fn file_of(values: &[u64]) -> Vec<u8> {
    values.iter().flat_map(|v| v.to_le_bytes()).collect()
}

fn source(op: &str, id: usize) -> Expression {
    Expression {
        op: op.to_string(),
        deg: 1,
        id: Some(id),
        next: None,
        value: None,
        values: None,
        deps: None,
        const_: None,
    }
}

#[test]
fn a_store_has_a_zero_column_for_each_id() {
    let store = PolsArray::new(&sample(), PolKind::Commit).unwrap();
    assert_eq!(store.n_pols, 4);
    assert_eq!(store.n, 4);
    assert_eq!(store.array.len(), 4);
    for column in &store.array {
        assert_eq!(ints(column), vec![0, 0, 0, 0]);
    }
    let store = PolsArray::new(&sample(), PolKind::Constant).unwrap();
    assert_eq!(store.n_pols, 2);
    assert_eq!(store.n, 4);
    assert_eq!(store.array.len(), 2);
}

#[test]
fn a_store_knows_each_column_by_its_reference() {
    let store = PolsArray::new(&sample(), PolKind::Commit).unwrap();
    assert_eq!(store.def_array.len(), 4);
    assert_eq!(store.def_array[0].name, "Main.a");
    assert_eq!(store.def_array[0].id, 0);
    assert_eq!(store.def_array[0].idx, None);
    assert_eq!(store.def_array[0].pol_deg, 4);
    assert_eq!(store.def_array[0].element_type, None);
    for t in 0..3 {
        assert_eq!(store.def_array[1 + t].name, "Main.b");
        assert_eq!(store.def_array[1 + t].id, 1 + t);
        assert_eq!(store.def_array[1 + t].idx, Some(t));
        assert_eq!(store.def_array[1 + t].pol_deg, 4);
        assert_eq!(store.def_array[1 + t].element_type, Some(text("field")));
    }
}

#[test]
fn the_index_has_an_entry_for_each_reference_of_the_kind() {
    let store = PolsArray::new(&sample(), PolKind::Commit).unwrap();
    assert_eq!(store.def.len(), 2);
    assert_eq!(store.def[0].namespace, "Main");
    assert_eq!(store.def[0].name, "a");
    assert_eq!(store.def[0].ids, vec![0]);
    assert_eq!(store.def[1].namespace, "Main");
    assert_eq!(store.def[1].name, "b");
    assert_eq!(store.def[1].ids, vec![1, 2, 3]);
    let store = PolsArray::new(&sample(), PolKind::Constant).unwrap();
    assert_eq!(store.def.len(), 2);
    assert_eq!(store.def[0].namespace, "Global");
    assert_eq!(store.def[0].name, "L1");
    assert_eq!(store.def[1].namespace, "Rom");
    assert_eq!(store.def[1].ids, vec![1]);
}

#[test]
fn names_are_looked_up_in_the_index() {
    let store = PolsArray::new(&sample(), PolKind::Commit).unwrap();
    assert_eq!(store.find_pol_id(&text("Main"), &text("a"), 0), Some(0));
    assert_eq!(store.find_pol_id(&text("Main"), &text("a"), 1), None);
    assert_eq!(store.find_pol_id(&text("Main"), &text("b"), 0), Some(1));
    assert_eq!(store.find_pol_id(&text("Main"), &text("b"), 2), Some(3));
    assert_eq!(store.find_pol_id(&text("Main"), &text("b"), 3), None);
    assert_eq!(store.find_pol_id(&text("Main"), &text("c"), 0), None);
    assert_eq!(store.find_pol_id(&text("Global"), &text("L1"), 0), None);
    assert_eq!(store.get_pol_id(&text("Main"), &text("b"), 1), 2);
}

#[test]
fn values_are_read_and_written_by_name() {
    let mut store = PolsArray::new(&sample(), PolKind::Commit).unwrap();
    store.set_matrix(&text("Main"), &text("b"), 2, 1, Fgl::from_u64(55));
    store.set_matrix(&text("Main"), &text("a"), 0, 3, Fgl::from_u64(66));
    assert_eq!(store.get(&text("Main"), &text("b"), 2, 1).as_int(), 55);
    assert_eq!(store.get(&text("Main"), &text("a"), 0, 3).as_int(), 66);
    assert_eq!(store.get(&text("Main"), &text("b"), 2, 0).as_int(), 0);
    assert_eq!(ints(&store.array[3]), vec![0, 55, 0, 0]);
    assert_eq!(ints(&store.array[0]), vec![0, 0, 0, 66]);
    assert_eq!(ints(&store.array[1]), vec![0, 0, 0, 0]);
}

#[test]
fn a_later_reference_takes_the_column_of_an_earlier_one() {
    let pil = program(
        2,
        0,
        vec![array_reference("Main.b", "cmP", 0, 4, 2), reference("Main.a", "cmP", 1, 4)],
    );
    let store = PolsArray::new(&pil, PolKind::Commit).unwrap();
    assert_eq!(store.def_array[0].name, "Main.b");
    assert_eq!(store.def_array[1].name, "Main.a");
    assert_eq!(store.def_array[1].idx, None);
    assert_eq!(store.find_pol_id(&text("Main"), &text("b"), 1), Some(1));
}

#[test]
fn a_store_without_columns_has_no_rows() {
    let pil = program(0, 0, vec![reference("Main.q", "imP", 0, 4)]);
    let store = PolsArray::new(&pil, PolKind::Commit).unwrap();
    assert_eq!(store.n_pols, 0);
    assert_eq!(store.n, 0);
    assert_eq!(store.array.len(), 0);
    assert_eq!(store.save(), Vec::<u8>::new());
}

#[test]
fn an_id_without_a_reference_is_an_invalid_sequence() {
    let pil = program(3, 0, vec![reference("Main.a", "cmP", 0, 4), reference("Main.c", "cmP", 2, 4)]);
    assert_eq!(fault(&pil, PolKind::Commit), Some(PilError::InvalidPilSequence));
    let pil = program(1, 1, vec![reference("Main.a", "cmP", 0, 4)]);
    assert_eq!(fault(&pil, PolKind::Commit), None);
    assert_eq!(fault(&pil, PolKind::Constant), Some(PilError::InvalidPilSequence));
    let pil = program(2, 0, vec![array_reference("Main.b", "cmP", 0, 4, 1)]);
    assert_eq!(fault(&pil, PolKind::Commit), Some(PilError::InvalidPilSequence));
}

#[test]
fn store_faults() {
    let malformed = |f: IrFault| Some(PilError::IrMalformed(f));
    let pil = program(1, 0, vec![reference("a", "cmP", 0, 4)]);
    assert_eq!(fault(&pil, PolKind::Commit), malformed(IrFault::MalformedName));
    let mut r = reference("Main.b", "cmP", 0, 4);
    r.inner.is_array = true;
    let pil = program(1, 0, vec![r]);
    assert_eq!(fault(&pil, PolKind::Commit), malformed(IrFault::MissingField));
    let pil = program(1, 0, vec![reference("Main.a", "cmP", 1, 4)]);
    assert_eq!(fault(&pil, PolKind::Commit), malformed(IrFault::IndexOutOfRange));
    let pil = program(2, 0, vec![array_reference("Main.b", "cmP", 0, 4, 3)]);
    assert_eq!(fault(&pil, PolKind::Commit), malformed(IrFault::IndexOutOfRange));
    let pil = program(2, 0, vec![array_reference("Main.b", "cmP", usize::MAX, 4, 2)]);
    assert_eq!(fault(&pil, PolKind::Commit), malformed(IrFault::IndexOutOfRange));
    let pil = program(2, 0, vec![reference("Main.a", "cmP", 0, 4), reference("Main.b", "cmP", 1, 8)]);
    assert_eq!(fault(&pil, PolKind::Commit), malformed(IrFault::NonUniformDegree));
    let pil = program(
        1,
        0,
        vec![reference("a", "constP", 0, 4), reference("Main.a", "cmP", 0, 4)],
    );
    assert_eq!(fault(&pil, PolKind::Commit), None);
    assert_eq!(fault(&pil, PolKind::Constant), malformed(IrFault::MalformedName));
}

#[test]
fn the_first_faulty_reference_decides() {
    let pil = program(
        1,
        0,
        vec![reference("Main.a", "cmP", 5, 4), reference("nodot", "cmP", 0, 4)],
    );
    assert_eq!(fault(&pil, PolKind::Commit), Some(PilError::IrMalformed(IrFault::IndexOutOfRange)));
    let pil = program(
        1,
        0,
        vec![reference("nodot", "cmP", 0, 4), reference("Main.a", "cmP", 5, 4)],
    );
    assert_eq!(fault(&pil, PolKind::Commit), Some(PilError::IrMalformed(IrFault::MalformedName)));
}

#[test]
fn a_file_holds_row_after_row() {
    let pil = program(
        3,
        0,
        vec![
            reference("Main.a", "cmP", 0, 2),
            reference("Main.b", "cmP", 1, 2),
            reference("Main.c", "cmP", 2, 2),
        ],
    );
    let mut store = PolsArray::new(&pil, PolKind::Commit).unwrap();
    let bytes = file_of(&[1, 2, 3, 4, 5, 6]);
    assert_eq!(bytes.len(), 48);
    assert_eq!(&bytes[..8], &[1, 0, 0, 0, 0, 0, 0, 0]);
    assert_eq!(store.load(&bytes), Ok(()));
    assert_eq!(ints(&store.array[0]), vec![1, 4]);
    assert_eq!(ints(&store.array[1]), vec![2, 5]);
    assert_eq!(ints(&store.array[2]), vec![3, 6]);
    assert_eq!(store.save(), bytes);
}

#[test]
fn values_of_a_file_are_reduced() {
    let pil = program(1, 0, vec![reference("Main.a", "cmP", 0, 4)]);
    let mut store = PolsArray::new(&pil, PolKind::Commit).unwrap();
    let bytes = file_of(&[MODULUS - 1, MODULUS, MODULUS + 5, u64::MAX]);
    assert_eq!(store.load(&bytes), Ok(()));
    assert_eq!(ints(&store.array[0]), vec![MODULUS - 1, 0, 5, 4294967294]);
    assert_eq!(store.save(), file_of(&[MODULUS - 1, 0, 5, 4294967294]));
}

#[test]
fn values_are_written_least_significant_byte_first() {
    let pil = program(1, 0, vec![reference("Main.a", "cmP", 0, 1)]);
    let mut store = PolsArray::new(&pil, PolKind::Commit).unwrap();
    store.array[0][0] = Fgl::from_u64(0x0102_0304_0506_0708);
    assert_eq!(store.save(), vec![8, 7, 6, 5, 4, 3, 2, 1]);
    assert_eq!(store.load(&[0x10, 0x20, 0, 0, 0, 0, 0, 0]), Ok(()));
    assert_eq!(store.array[0][0].as_int(), 0x2010);
}

#[test]
fn a_file_of_another_size_leaves_the_store_as_it_is() {
    let pil = program(1, 0, vec![reference("Main.a", "cmP", 0, 2)]);
    let mut store = PolsArray::new(&pil, PolKind::Commit).unwrap();
    assert_eq!(store.load(&file_of(&[7, 8])), Ok(()));
    assert_eq!(store.load(&file_of(&[1])), Err(PilError::FileSizeMismatch));
    assert_eq!(store.load(&file_of(&[1, 2, 3])), Err(PilError::FileSizeMismatch));
    assert_eq!(store.load(&[]), Err(PilError::FileSizeMismatch));
    assert_eq!(store.load(&file_of(&[1, 2])[..15]), Err(PilError::FileSizeMismatch));
    assert_eq!(ints(&store.array[0]), vec![7, 8]);
}

#[test]
fn a_canonical_file_comes_back_byte_for_byte() {
    let pil = program(
        2,
        0,
        vec![reference("Main.a", "cmP", 0, 4), reference("Main.b", "cmP", 1, 4)],
    );
    let mut store = PolsArray::new(&pil, PolKind::Commit).unwrap();
    let values: Vec<u64> = (0..8u64).map(|k| (k * 2654435761) % MODULUS).collect();
    let bytes = file_of(&values);
    assert_eq!(store.load(&bytes), Ok(()));
    let written = store.save();
    assert_eq!(written, bytes);
    let mut again = PolsArray::new(&pil, PolKind::Commit).unwrap();
    assert_eq!(again.load(&written), Ok(()));
    assert_eq!(again.array, store.array);
}

#[test]
fn a_file_is_read_part_by_part() {
    let pil = program(
        3,
        0,
        vec![
            reference("Main.a", "cmP", 0, 4),
            reference("Main.b", "cmP", 1, 4),
            reference("Main.c", "cmP", 2, 4),
        ],
    );
    let values: Vec<u64> = (1..=12).collect();
    let bytes = file_of(&values);
    let mut whole = PolsArray::new(&pil, PolKind::Commit).unwrap();
    assert_eq!(whole.load(&bytes), Ok(()));
    let mut parts = PolsArray::new(&pil, PolKind::Commit).unwrap();
    assert_eq!(parts.load_part(0, &bytes[..8 * 5]), Ok(()));
    assert_eq!(ints(&parts.array[0]), vec![1, 4, 0, 0]);
    assert_eq!(ints(&parts.array[1]), vec![2, 5, 0, 0]);
    assert_eq!(ints(&parts.array[2]), vec![3, 0, 0, 0]);
    assert_eq!(parts.load_part(5, &bytes[8 * 5..8 * 5]), Ok(()));
    assert_eq!(parts.load_part(5, &bytes[8 * 5..8 * 11]), Ok(()));
    assert_eq!(parts.load_part(11, &bytes[8 * 11..]), Ok(()));
    assert_eq!(parts.array, whole.array);
    assert_eq!(ints(&parts.array[2]), vec![3, 6, 9, 12]);
}

#[test]
fn a_part_must_be_whole_values_within_the_file() {
    let pil = program(2, 0, vec![array_reference("Main.b", "cmP", 0, 2, 2)]);
    let mut store = PolsArray::new(&pil, PolKind::Commit).unwrap();
    assert_eq!(store.load(&file_of(&[1, 2, 3, 4])), Ok(()));
    assert_eq!(store.load_part(0, &[0u8; 7]), Err(PilError::FileSizeMismatch));
    assert_eq!(store.load_part(1, &[0u8; 9]), Err(PilError::FileSizeMismatch));
    assert_eq!(store.load_part(4, &[0u8; 8]), Err(PilError::FileSizeMismatch));
    assert_eq!(store.load_part(3, &[0u8; 16]), Err(PilError::FileSizeMismatch));
    assert_eq!(store.load_part(usize::MAX, &[0u8; 8]), Err(PilError::FileSizeMismatch));
    assert_eq!(ints(&store.array[0]), vec![1, 3]);
    assert_eq!(ints(&store.array[1]), vec![2, 4]);
    assert_eq!(store.load_part(4, &[]), Ok(()));
    assert_eq!(store.load_part(3, &file_of(&[9])), Ok(()));
    assert_eq!(ints(&store.array[0]), vec![1, 3]);
    assert_eq!(ints(&store.array[1]), vec![2, 9]);
}

#[test]
fn a_file_is_written_part_by_part() {
    let pil = program(
        2,
        0,
        vec![reference("Main.a", "cmP", 0, 4), reference("Main.b", "cmP", 1, 4)],
    );
    let mut store = PolsArray::new(&pil, PolKind::Commit).unwrap();
    let values: Vec<u64> = (10..18).collect();
    assert_eq!(store.load(&file_of(&values)), Ok(()));
    let whole = store.save();
    assert_eq!(store.save_part(0, 8), Some(whole.clone()));
    assert_eq!(store.save_part(0, 0), Some(Vec::new()));
    assert_eq!(store.save_part(8, 0), Some(Vec::new()));
    assert_eq!(store.save_part(3, 2), Some(file_of(&[13, 14])));
    assert_eq!(store.save_part(7, 1), Some(file_of(&[17])));
    assert_eq!(store.save_part(7, 2), None);
    assert_eq!(store.save_part(9, 0), None);
    assert_eq!(store.save_part(usize::MAX, 1), None);
    let mut joined = Vec::new();
    for first in [0usize, 3, 6] {
        joined.extend(store.save_part(first, std::cmp::min(3, 8 - first)).unwrap());
    }
    assert_eq!(joined, whole);
}

#[test]
fn a_store_can_be_asked_whether_it_is_well_formed() {
    let mut store = PolsArray::new(&sample(), PolKind::Commit).unwrap();
    assert!(store.is_well_formed());
    store.array[2].pop();
    assert!(!store.is_well_formed());
    store.array[2].push(Fgl::zero());
    store.array.pop();
    assert!(!store.is_well_formed());
}

#[test]
fn the_buffer_holds_row_after_row() {
    let pil = program(
        2,
        0,
        vec![reference("Main.a", "cmP", 0, 2), reference("Main.b", "cmP", 1, 2)],
    );
    let mut store = PolsArray::new(&pil, PolKind::Commit).unwrap();
    assert_eq!(store.load(&file_of(&[1, 2, 3, 4])), Ok(()));
    let buff: Vec<Fgl> = store.write_buff::<Fgl>();
    assert_eq!(ints(&buff), vec![1, 2, 3, 4]);
    assert_eq!(ints(&store.array[0]), vec![1, 3]);
    assert_eq!(Fgl::from_fgl(Fgl::from_u64(9)).as_int(), 9);
}

#[test]
fn descriptors_of_a_store() {
    let store = PolArray::new(&sample(), text("commit")).unwrap();
    assert_eq!(store.n_pols, 4);
    assert_eq!(store.def_array.len(), 4);
    assert_eq!(store.array.len(), 4);
    assert!(store.array.iter().all(|rows| rows.is_empty()));
    assert_eq!(store.def_array[0].name, "Main.a");
    assert_eq!(store.def_array[0].idx, None);
    assert_eq!(store.def_array[0].element_type, "cmP");
    assert_eq!(store.def_array[2].name, "Main.b");
    assert_eq!(store.def_array[2].id, 2);
    assert_eq!(store.def_array[2].idx, Some(1));
    assert_eq!(store.def_array[2].pol_deg, 4);
    assert_eq!(store.def.len(), 2);
    assert_eq!(store.def[1].namespace, "Main");
    assert_eq!(store.def[1].name, "b");
    assert_eq!(store.def[1].elements.len(), 3);
    assert_eq!(store.def[1].elements[2].id, 3);
    assert_eq!(store.def[1].elements[2].idx, Some(2));
    assert_eq!(store.pol_proxy.len(), 2);
    assert!(matches!(&store.pol_proxy[0].proxy, PolProxy::Single(rows) if rows.is_empty()));
    assert!(matches!(&store.pol_proxy[1].proxy, PolProxy::Multi(rows) if rows.len() == 3));
    let store = PolArray::new(&sample(), text("constant")).unwrap();
    assert_eq!(store.n_pols, 2);
    assert_eq!(store.def_array[1].name, "Rom.line");
    assert_eq!(store.def_array[1].element_type, "constP");
}

#[test]
fn descriptors_have_the_faults_of_the_store() {
    let pil = program(3, 0, vec![reference("Main.a", "cmP", 0, 4)]);
    assert_eq!(PolArray::new(&pil, text("commit")).err(), Some(PilError::InvalidPilSequence));
    let pil = program(1, 0, vec![reference("a", "cmP", 0, 4)]);
    assert_eq!(
        PolArray::new(&pil, text("commit")).err(),
        Some(PilError::IrMalformed(IrFault::MalformedName))
    );
}

#[test]
fn kinds_of_store_by_their_words() {
    assert_eq!(kind_of_word(&text("commit")), Some(PolKind::Commit));
    assert_eq!(kind_of_word(&text("constant")), Some(PolKind::Constant));
    assert_eq!(kind_of_word(&text("cmP")), None);
    assert_eq!(kind_of_word(&text("")), None);
}

#[test]
fn default_descriptor() {
    let d = DefArrayElement::default();
    assert_eq!(d.name, "");
    assert_eq!(d.id, 0);
    assert_eq!(d.idx, Some(0));
    assert_eq!(d.element_type, "");
    assert_eq!(d.pol_deg, 0);
    let c = d.clone();
    assert_eq!(c.name, d.name);
    assert_eq!(c.idx, d.idx);
}

#[test]
fn rows_of_a_proxy() {
    let mut single = PolProxy::Single(Vec::new());
    assert!(single.get_multi_mut().is_none());
    single.get_single_mut().unwrap().push(DefArrayElement::default());
    assert!(matches!(&single, PolProxy::Single(rows) if rows.len() == 1));
    let mut multi = PolProxy::Multi(vec![Vec::new(), Vec::new()]);
    assert!(multi.get_single_mut().is_none());
    multi.get_multi_mut().unwrap()[1].push(DefArrayElement::default());
    assert!(matches!(&multi, PolProxy::Multi(rows) if rows[0].is_empty() && rows[1].len() == 1));
}

#[test]
fn pol_arrary_test_pol_array() {
    let pil = sample();
    let commit_pol = PolArray::new(&pil, "commit".to_string()).unwrap();
    let constant_pol = PolArray::new(&pil, "constant".to_string()).unwrap();
    assert_eq!(commit_pol.n_pols, 4);
    assert_eq!(constant_pol.n_pols, 2);
}

#[test]
fn test_load_polsarray() {
    let w: u64 = 281474976710656;
    let w2 = MODULUS - 1;
    let w3 = MODULUS - w;
    let k: u64 = 12275445934081160404;
    let times = |a: u64, b: u64| ((a as u128 * b as u128) % MODULUS as u128) as u64;
    let k2 = times(k, k);
    let pil = Pil {
        n_commitments: 3,
        n_constants: 3,
        references: vec![
            reference("Connection.SA", "constP", 0, 4),
            reference("Connection.SB", "constP", 1, 4),
            reference("Connection.SC", "constP", 2, 4),
            reference("Connection.a", "cmP", 0, 4),
            reference("Connection.b", "cmP", 1, 4),
            reference("Connection.c", "cmP", 2, 4),
        ],
        publics: Vec::new(),
        expressions: vec![
            source("cm", 0),
            source("cm", 1),
            source("cm", 2),
            source("const", 0),
            source("const", 1),
            source("const", 2),
        ],
        connection_identities: vec![PilConnectionIdentity {
            pols: vec![0, 1, 2],
            connections: vec![3, 4, 5],
            file_name: "connection.pil".to_string(),
            line: 10,
        }],
    };
    // a[0] is wired to b[1] and back, c[2] to c[3] and back; every other
    // cell is wired to itself.
    let to_a = [times(k, w), w, w2, w3];
    let to_b = [k, 1, times(k, w2), times(k, w3)];
    let to_c = [k2, times(k2, w), times(k2, w3), times(k2, w2)];
    let a = [11, 2, 3, 4];
    let b = [5, 11, 7, 8];
    let c = [9, 10, 12, 12];
    let mut const_file = Vec::new();
    let mut commit_file = Vec::new();
    for row in 0..4 {
        for v in [to_a[row], to_b[row], to_c[row]] {
            const_file.extend_from_slice(&v.to_le_bytes());
        }
        for v in [a[row], b[row], c[row]] {
            commit_file.extend_from_slice(&u64::to_le_bytes(v));
        }
    }
    let mut const_pol = PolsArray::new(&pil, PolKind::Constant).unwrap();
    const_pol.load(&const_file).unwrap();
    let mut commit_pol = PolsArray::new(&pil, PolKind::Commit).unwrap();
    commit_pol.load(&commit_file).unwrap();

    let pols: Pols = Default::default();

    let mut pil_verifier = PilVerify::new(&pil, &commit_pol, &const_pol, pols).unwrap();
    let result = pil_verifier.verify_pil().unwrap();
    if result.len() > 0 {
        for r in &result {
            println!("{}", r);
        }
    }
    assert_eq!(result.len(), 0)
}

#[test]
fn a_broken_wire_is_found_in_loaded_columns() {
    let w: u64 = 281474976710656;
    let pil = Pil {
        n_commitments: 1,
        n_constants: 1,
        references: vec![
            reference("Connection.SA", "constP", 0, 4),
            reference("Connection.a", "cmP", 0, 4),
        ],
        publics: Vec::new(),
        expressions: vec![source("cm", 0), source("const", 0)],
        connection_identities: vec![PilConnectionIdentity {
            pols: vec![0],
            connections: vec![1],
            file_name: "connection.pil".to_string(),
            line: 10,
        }],
    };
    let mut const_pol = PolsArray::new(&pil, PolKind::Constant).unwrap();
    const_pol.load(&file_of(&[w, 1, MODULUS - 1, MODULUS - w])).unwrap();
    let mut commit_pol = PolsArray::new(&pil, PolKind::Commit).unwrap();
    commit_pol.load(&file_of(&[4, 5, 6, 7])).unwrap();
    let mut verifier = PilVerify::new(&pil, &commit_pol, &const_pol, Pols::default()).unwrap();
    assert_eq!(
        verifier.verify_pil().unwrap(),
        vec![
            "connection.pil:10: connection does not match p1=0 w1=0 p2=0 w2=1 val= 4 != 5",
            "connection.pil:10: connection does not match p1=0 w1=1 p2=0 w2=0 val= 5 != 4",
        ]
    );
    assert_eq!(verifier.verify_pil().unwrap().len(), 2);
}
