use pilcom_rust::error::{IrFault, PilError};
use pilcom_rust::evaluator::{eval_expression, materialize_expression, Pols};
use pilcom_rust::field::{Fgl, MODULUS};
use pilcom_rust::pil::{
    find_dot, parse_decimal, split_qualified, Expression, Op, Pil, PilConnectionIdentity,
    PilPublic, PilReference, PilReferenceWithName, PublicKind, ReferenceKind,
};
use pilcom_rust::pil_verify::PilVerify;
use pilcom_rust::polarray::{PolKind, PolsArray};
use pilcom_rust::violation::{decimal_string, Violation};

fn malformed<T>(fault: IrFault) -> Result<T, PilError> {
    Err(PilError::IrMalformed(fault))
}

fn plain_reference(kind: &str, id: usize, deg: usize) -> PilReference {
    PilReference {
        reference_type: kind.to_string(),
        id,
        pol_deg: deg,
        is_array: false,
        len: None,
        element_type: None,
    }
}

fn node(op: &str) -> Expression {
    Expression {
        op: op.to_string(),
        deg: 1,
        id: None,
        next: None,
        value: None,
        values: None,
        deps: None,
        const_: None,
    }
}

fn source(op: &str, id: usize) -> Expression {
    let mut e = node(op);
    e.id = Some(id);
    e
}

fn ahead(op: &str, id: usize) -> Expression {
    let mut e = source(op, id);
    e.next = Some(true);
    e
}

fn number(text: &str) -> Expression {
    let mut e = node("number");
    e.value = Some(text.to_string());
    e
}

fn unary(op: &str, a: Expression) -> Expression {
    let mut e = node(op);
    e.values = Some(vec![a]);
    e
}

fn with_const(op: &str, a: Expression, c: i64) -> Expression {
    let mut e = unary(op, a);
    e.const_ = Some(c);
    e
}

fn binary(op: &str, a: Expression, b: Expression) -> Expression {
    let mut e = node(op);
    e.values = Some(vec![a, b]);
    e
}

fn column(values: &[u64]) -> Vec<Fgl> {
    values.iter().map(|v| Fgl::from_u64(*v)).collect()
}

fn ints(column: &[Fgl]) -> Vec<u64> {
    column.iter().map(|v| v.as_int()).collect()
}

fn working_set() -> Pols {
    Pols {
        cm: vec![column(&[5, 6, 7, 8]), column(&[1, 1, 1, 1])],
        exps: vec![column(&[100, 200, 300, 400]), Vec::new()],
        consts: vec![column(&[10, 20, 30, 40])],
        publics: column(&[77, 88]),
    }
}

fn eval(e: &Expression) -> Result<Vec<u64>, PilError> {
    eval_expression(&working_set(), 4, e).map(|c| ints(&c))
}

fn program(expressions: Vec<Expression>, publics: Vec<PilPublic>) -> Pil {
    Pil {
        n_commitments: 1,
        n_constants: 1,
        references: vec![
            PilReferenceWithName::new(plain_reference("cmP", 0, 4), "Main.a".to_string()),
            PilReferenceWithName::new(plain_reference("constP", 0, 4), "Global.L1".to_string()),
        ],
        publics,
        expressions,
        connection_identities: Vec::new(),
    }
}

fn stores(pil: &Pil) -> (PolsArray, PolsArray) {
    let mut cm_pols = PolsArray::new(pil, PolKind::Commit).unwrap();
    let mut const_pols = PolsArray::new(pil, PolKind::Constant).unwrap();
    cm_pols.array = vec![column(&[5, 6, 7, 8])];
    const_pols.array = vec![column(&[10, 20, 30, 40])];
    (cm_pols, const_pols)
}

fn public(kind: &str, pol_id: usize, idx: usize) -> PilPublic {
    PilPublic { pol_type: kind.to_string(), pol_id, idx, id: 0, name: "out".to_string() }
}

#[test]
fn named_reference_keeps_both_parts() {
    let r = PilReferenceWithName::new(7u32, "Main.a".to_string());
    assert_eq!(r.inner, 7);
    assert_eq!(r.name, "Main.a");
    assert_eq!(r, PilReferenceWithName { inner: 7u32, name: "Main.a".to_string() });
}

#[test]
fn kinds_of_references_and_publics() {
    assert_eq!(plain_reference("cmP", 0, 1).kind(), Some(ReferenceKind::Commit));
    assert_eq!(plain_reference("constP", 0, 1).kind(), Some(ReferenceKind::Constant));
    assert_eq!(plain_reference("imP", 0, 1).kind(), Some(ReferenceKind::Intermediate));
    assert_eq!(plain_reference("const", 0, 1).kind(), None);
    assert_eq!(plain_reference("", 0, 1).kind(), None);
    assert_eq!(public("cmP", 0, 0).kind(), Some(PublicKind::Commit));
    assert_eq!(public("imP", 0, 0).kind(), Some(PublicKind::Intermediate));
    assert_eq!(public("constP", 0, 0).kind(), None);
}

#[test]
fn operations_by_their_tags() {
    let tags = [
        ("add", Op::Add),
        ("sub", Op::Sub),
        ("mul", Op::Mul),
        ("neg", Op::Neg),
        ("addc", Op::Addc),
        ("mulc", Op::Mulc),
        ("cm", Op::Cm),
        ("const", Op::Const),
        ("exp", Op::Exp),
        ("number", Op::Number),
        ("public", Op::Public),
    ];
    for (tag, op) in tags {
        assert_eq!(node(tag).operation(), Some(op));
    }
    assert_eq!(node("Add").operation(), None);
    assert_eq!(node("div").operation(), None);
    assert_eq!(node("").operation(), None);
}

#[test]
fn next_flag_defaults_to_false() {
    assert!(!source("cm", 0).next());
    assert!(ahead("cm", 0).next());
    let mut e = source("cm", 0);
    e.next = Some(false);
    assert!(!e.next());
}

#[test]
fn decimal_numerals() {
    assert_eq!(parse_decimal("0"), Some(0));
    assert_eq!(parse_decimal("3"), Some(3));
    assert_eq!(parse_decimal("007"), Some(7));
    assert_eq!(parse_decimal("+15"), Some(15));
    assert_eq!(parse_decimal("18446744073709551615"), Some(u64::MAX));
    assert_eq!(parse_decimal("18446744073709551616"), None);
    assert_eq!(parse_decimal("99999999999999999999999"), None);
    assert_eq!(parse_decimal(""), None);
    assert_eq!(parse_decimal("+"), None);
    assert_eq!(parse_decimal("-1"), None);
    assert_eq!(parse_decimal("1 "), None);
    assert_eq!(parse_decimal("12a"), None);
    assert_eq!(parse_decimal("1+2"), None);
    assert_eq!(parse_decimal("٣"), None);
}

#[test]
fn decimal_numerals_agree_with_the_standard_library() {
    for text in ["0", "12", "+9", "", "+", "x", "18446744073709551615", "18446744073709551616"] {
        assert_eq!(parse_decimal(text), text.parse::<u64>().ok());
    }
}

#[test]
fn qualified_names_split_at_the_first_dot() {
    assert_eq!(find_dot("Main.a"), Some(4));
    assert_eq!(find_dot("Main"), None);
    assert_eq!(find_dot(""), None);
    assert_eq!(find_dot(".a.b"), Some(0));
    assert_eq!(split_qualified("Main.a"), Some(("Main".to_string(), "a".to_string())));
    assert_eq!(split_qualified("Main.a.b"), Some(("Main".to_string(), "a.b".to_string())));
    assert_eq!(split_qualified("Main."), Some(("Main".to_string(), "".to_string())));
    assert_eq!(split_qualified("Main"), None);
    assert_eq!(split_qualified("é.ü"), Some(("é".to_string(), "ü".to_string())));
}

#[test]
fn sources_are_read_as_they_are_or_one_row_ahead() {
    assert_eq!(eval(&source("cm", 0)), Ok(vec![5, 6, 7, 8]));
    assert_eq!(eval(&ahead("cm", 0)), Ok(vec![6, 7, 8, 5]));
    assert_eq!(eval(&source("const", 0)), Ok(vec![10, 20, 30, 40]));
    assert_eq!(eval(&ahead("const", 0)), Ok(vec![20, 30, 40, 10]));
    assert_eq!(eval(&source("exp", 0)), Ok(vec![100, 200, 300, 400]));
    assert_eq!(eval(&ahead("exp", 0)), Ok(vec![200, 300, 400, 100]));
}

#[test]
fn numbers_and_publics_fill_a_column() {
    assert_eq!(eval(&number("3")), Ok(vec![3, 3, 3, 3]));
    assert_eq!(eval(&number("18446744069414584321")), Ok(vec![0, 0, 0, 0]));
    assert_eq!(eval(&number("18446744069414584323")), Ok(vec![2, 2, 2, 2]));
    assert_eq!(eval(&source("public", 0)), Ok(vec![77, 77, 77, 77]));
    assert_eq!(eval(&source("public", 1)), Ok(vec![88, 88, 88, 88]));
}

#[test]
fn arithmetic_is_row_by_row() {
    let a = || source("cm", 0);
    let b = || source("const", 0);
    assert_eq!(eval(&binary("add", a(), b())), Ok(vec![15, 26, 37, 48]));
    assert_eq!(
        eval(&binary("sub", a(), b())),
        Ok(vec![MODULUS - 5, MODULUS - 14, MODULUS - 23, MODULUS - 32])
    );
    assert_eq!(eval(&binary("sub", b(), a())), Ok(vec![5, 14, 23, 32]));
    assert_eq!(eval(&binary("mul", a(), b())), Ok(vec![50, 120, 210, 320]));
    assert_eq!(
        eval(&unary("neg", a())),
        Ok(vec![MODULUS - 5, MODULUS - 6, MODULUS - 7, MODULUS - 8])
    );
    assert_eq!(eval(&with_const("addc", a(), 10)), Ok(vec![15, 16, 17, 18]));
    assert_eq!(eval(&with_const("mulc", a(), 3)), Ok(vec![15, 18, 21, 24]));
}

#[test]
fn negative_constants_are_additive_inverses() {
    let a = || source("cm", 0);
    assert_eq!(eval(&with_const("addc", a(), -5)), Ok(vec![0, 1, 2, 3]));
    assert_eq!(eval(&with_const("addc", a(), -6)), Ok(vec![MODULUS - 1, 0, 1, 2]));
    assert_eq!(
        eval(&with_const("mulc", a(), -1)),
        Ok(vec![MODULUS - 5, MODULUS - 6, MODULUS - 7, MODULUS - 8])
    );
}

#[test]
fn a_working_set_can_be_asked_for_its_shape() {
    assert!(working_set().is_shaped(4));
    assert!(!working_set().is_shaped(0));
    assert!(!working_set().is_shaped(2));
    let mut pols = working_set();
    pols.exps[1] = column(&[1, 2]);
    assert!(!pols.is_shaped(4));
    let mut pols = working_set();
    pols.consts[0].pop();
    assert!(!pols.is_shaped(4));
    assert!(!Pols::default().is_shaped(0));
    assert!(Pols::default().is_shaped(1));
}

#[test]
fn nested_trees() {
    let e = binary(
        "mul",
        binary("add", source("cm", 0), number("1")),
        with_const("addc", unary("neg", ahead("const", 0)), 100),
    );
    assert_eq!(eval(&e), Ok(vec![6 * 80, 7 * 70, 8 * 60, 9 * 90]));
}

#[test]
fn evaluation_faults() {
    assert_eq!(eval(&node("div")), malformed(IrFault::UnknownOp));
    assert_eq!(eval(&node("add")), malformed(IrFault::MissingField));
    assert_eq!(eval(&unary("add", source("cm", 0))), malformed(IrFault::MissingField));
    assert_eq!(eval(&node("neg")), malformed(IrFault::MissingField));
    assert_eq!(eval(&unary("addc", source("cm", 0))), malformed(IrFault::MissingField));
    assert_eq!(eval(&node("cm")), malformed(IrFault::MissingField));
    assert_eq!(eval(&node("number")), malformed(IrFault::MissingField));
    assert_eq!(eval(&node("public")), malformed(IrFault::MissingField));
    assert_eq!(eval(&source("cm", 2)), malformed(IrFault::IndexOutOfRange));
    assert_eq!(eval(&source("const", 1)), malformed(IrFault::IndexOutOfRange));
    assert_eq!(eval(&source("exp", 2)), malformed(IrFault::IndexOutOfRange));
    assert_eq!(eval(&source("public", 2)), malformed(IrFault::IndexOutOfRange));
    assert_eq!(eval(&source("exp", 1)), malformed(IrFault::NotMaterialized));
    assert_eq!(eval(&ahead("exp", 1)), malformed(IrFault::NotMaterialized));
    assert_eq!(eval(&number("three")), malformed(IrFault::InvalidNumber));
    assert_eq!(eval(&number("-3")), malformed(IrFault::InvalidNumber));
}

#[test]
fn the_fault_of_the_left_operand_comes_first() {
    let e = binary("add", node("div"), source("cm", 9));
    assert_eq!(eval(&e), malformed(IrFault::UnknownOp));
    let e = binary("add", source("cm", 9), node("div"));
    assert_eq!(eval(&e), malformed(IrFault::IndexOutOfRange));
    let mut e = unary("addc", node("div"));
    e.const_ = None;
    assert_eq!(eval(&e), malformed(IrFault::UnknownOp));
}

#[test]
fn evaluation_of_inputs_does_not_depend_on_the_expression_columns() {
    let e = binary("add", source("cm", 0), binary("mul", source("const", 0), source("public", 1)));
    let mut pols = working_set();
    let first = eval_expression(&pols, 4, &e).unwrap();
    pols.exps = vec![Vec::new(), column(&[9, 9, 9, 9])];
    let second = eval_expression(&pols, 4, &e).unwrap();
    assert_eq!(first, second);
    assert_eq!(pols.cm, working_set().cm);
    assert_eq!(pols.consts, working_set().consts);
}

#[test]
fn materialization_computes_what_an_expression_refers_to_first() {
    let pil = program(
        vec![
            binary("add", source("exp", 1), source("exp", 2)),
            with_const("mulc", source("cm", 0), 2),
            unary("neg", ahead("exp", 1)),
        ],
        Vec::new(),
    );
    let mut pols = Pols {
        cm: vec![column(&[5, 6, 7, 8])],
        exps: vec![Vec::new(), Vec::new(), Vec::new()],
        consts: vec![column(&[10, 20, 30, 40])],
        publics: Vec::new(),
    };
    assert_eq!(materialize_expression(&pil, &mut pols, 4, 0, 3), Ok(()));
    assert_eq!(ints(&pols.exps[1]), vec![10, 12, 14, 16]);
    assert_eq!(
        ints(&pols.exps[2]),
        vec![MODULUS - 12, MODULUS - 14, MODULUS - 16, MODULUS - 10]
    );
    assert_eq!(ints(&pols.exps[0]), vec![MODULUS - 2, MODULUS - 2, MODULUS - 2, 6]);
}

#[test]
fn a_column_that_is_present_is_kept() {
    let pil = program(vec![source("cm", 0)], Vec::new());
    let (cm_pols, const_pols) = stores(&pil);
    let mut verifier = PilVerify::new(&pil, &cm_pols, &const_pols, Pols::default()).unwrap();
    let first = verifier.calculate_expressions(0).unwrap();
    let second = verifier.calculate_expressions(0).unwrap();
    assert_eq!(ints(&first), vec![5, 6, 7, 8]);
    assert_eq!(first, second);
    let mut pols = Pols {
        cm: vec![column(&[5, 6, 7, 8])],
        exps: vec![column(&[1, 2, 3, 4])],
        consts: Vec::new(),
        publics: Vec::new(),
    };
    assert_eq!(materialize_expression(&pil, &mut pols, 4, 0, 0), Ok(()));
    assert_eq!(ints(&pols.exps[0]), vec![1, 2, 3, 4]);
}

#[test]
fn circular_references_are_reported() {
    let pil = program(vec![source("exp", 0)], Vec::new());
    let (cm_pols, const_pols) = stores(&pil);
    let mut verifier = PilVerify::new(&pil, &cm_pols, &const_pols, Pols::default()).unwrap();
    assert_eq!(verifier.calculate_expressions(0), malformed(IrFault::CircularDependency));
    let pil = program(
        vec![unary("neg", source("exp", 1)), unary("neg", source("exp", 0))],
        Vec::new(),
    );
    let (cm_pols, const_pols) = stores(&pil);
    let mut verifier = PilVerify::new(&pil, &cm_pols, &const_pols, Pols::default()).unwrap();
    assert_eq!(verifier.calculate_expressions(1), malformed(IrFault::CircularDependency));
}

#[test]
fn a_chain_as_deep_as_the_program_is_long_is_no_cycle() {
    let pil = program(
        vec![
            source("cm", 0),
            with_const("addc", source("exp", 0), 1),
            with_const("addc", source("exp", 1), 1),
            with_const("addc", source("exp", 2), 1),
        ],
        Vec::new(),
    );
    let (cm_pols, const_pols) = stores(&pil);
    let mut verifier = PilVerify::new(&pil, &cm_pols, &const_pols, Pols::default()).unwrap();
    assert_eq!(verifier.calculate_expressions(3).map(|c| ints(&c)), Ok(vec![8, 9, 10, 11]));
}

#[test]
fn materialization_faults() {
    let pil = program(vec![node("exp"), source("exp", 7), node("div")], Vec::new());
    let (cm_pols, const_pols) = stores(&pil);
    let mut verifier = PilVerify::new(&pil, &cm_pols, &const_pols, Pols::default()).unwrap();
    assert_eq!(verifier.calculate_expressions(3), malformed(IrFault::IndexOutOfRange));
    assert_eq!(verifier.calculate_expressions(0), malformed(IrFault::MissingField));
    assert_eq!(verifier.calculate_expressions(1), malformed(IrFault::IndexOutOfRange));
    assert_eq!(verifier.calculate_expressions(2), malformed(IrFault::UnknownOp));
}

#[test]
fn dependencies_are_made_present_without_the_tree_itself() {
    let pil = program(
        vec![with_const("mulc", source("cm", 0), 2), source("const", 0)],
        Vec::new(),
    );
    let (cm_pols, const_pols) = stores(&pil);
    let mut verifier = PilVerify::new(&pil, &cm_pols, &const_pols, Pols::default()).unwrap();
    let tree = binary("add", source("exp", 0), ahead("exp", 1));
    assert_eq!(verifier.eval(&tree), malformed(IrFault::NotMaterialized));
    assert_eq!(verifier.calculate_dependencies(&tree), Ok(()));
    assert_eq!(verifier.eval(&tree).map(|c| ints(&c)), Ok(vec![30, 42, 54, 26]));
}

#[test]
fn get_prime_rotates_by_one() {
    let pil = program(Vec::new(), Vec::new());
    let (cm_pols, const_pols) = stores(&pil);
    let verifier = PilVerify::new(&pil, &cm_pols, &const_pols, Pols::default()).unwrap();
    assert_eq!(ints(&verifier.get_prime(&column(&[1, 2, 3]))), vec![2, 3, 1]);
    assert_eq!(verifier.get_roots()[1].as_int(), MODULUS - 1);
    assert_eq!(ints(&verifier.get_Ks(2)), vec![1, 12275445934081160404]);
}

#[test]
fn publics_read_commitments_and_expressions() {
    let mut pil = program(
        vec![with_const("mulc", source("cm", 0), 3), source("public", 0), source("public", 1)],
        vec![public("cmP", 0, 2), public("imP", 0, 1)],
    );
    pil.connection_identities = vec![PilConnectionIdentity {
        pols: vec![1, 2],
        connections: vec![1, 2],
        file_name: "p.pil".to_string(),
        line: 3,
    }];
    let (cm_pols, const_pols) = stores(&pil);
    let mut verifier = PilVerify::new(&pil, &cm_pols, &const_pols, Pols::default()).unwrap();
    let found = verifier.find_violations().unwrap();
    assert_eq!(
        found,
        vec![
            Violation::InvalidCopyValue { identity: 0, j: 0, i: 0, v1: 7 },
            Violation::InvalidCopyValue { identity: 0, j: 0, i: 1, v1: 7 },
            Violation::InvalidCopyValue { identity: 0, j: 0, i: 2, v1: 7 },
            Violation::InvalidCopyValue { identity: 0, j: 0, i: 3, v1: 7 },
            Violation::InvalidCopyValue { identity: 0, j: 1, i: 0, v1: 18 },
            Violation::InvalidCopyValue { identity: 0, j: 1, i: 1, v1: 18 },
            Violation::InvalidCopyValue { identity: 0, j: 1, i: 2, v1: 18 },
            Violation::InvalidCopyValue { identity: 0, j: 1, i: 3, v1: 18 },
        ]
    );
}

#[test]
fn public_faults() {
    let run = |publics: Vec<PilPublic>| {
        let pil = program(vec![source("cm", 0), node("div")], publics);
        let (cm_pols, const_pols) = stores(&pil);
        let mut verifier = PilVerify::new(&pil, &cm_pols, &const_pols, Pols::default()).unwrap();
        verifier.verify_pil()
    };
    assert_eq!(run(vec![public("constP", 0, 0)]), malformed(IrFault::UnknownPublicKind));
    assert_eq!(run(vec![public("cmP", 1, 0)]), malformed(IrFault::IndexOutOfRange));
    assert_eq!(run(vec![public("cmP", 0, 4)]), malformed(IrFault::IndexOutOfRange));
    assert_eq!(run(vec![public("imP", 0, 4)]), malformed(IrFault::IndexOutOfRange));
    assert_eq!(run(vec![public("imP", 2, 0)]), malformed(IrFault::IndexOutOfRange));
    assert_eq!(run(vec![public("imP", 1, 0)]), malformed(IrFault::UnknownOp));
    assert_eq!(run(vec![public("cmP", 0, 3), public("imP", 0, 3)]), Ok(Vec::new()));
}

#[test]
fn unknown_reference_kind_stops_the_check() {
    let mut pil = program(Vec::new(), Vec::new());
    pil.references.push(PilReferenceWithName::new(plain_reference("qP", 0, 4), "Main.q".to_string()));
    let (cm_pols, const_pols) = stores(&pil);
    let mut verifier = PilVerify::new(&pil, &cm_pols, &const_pols, Pols::default()).unwrap();
    assert_eq!(verifier.verify_pil(), malformed(IrFault::UnknownReferenceKind));
    assert_eq!(verifier.find_violations(), malformed(IrFault::UnknownReferenceKind));
}

#[test]
fn malformed_connections_stop_the_check() {
    let mut pil = program(vec![source("cm", 0)], Vec::new());
    pil.connection_identities = vec![PilConnectionIdentity {
        pols: vec![0, 0],
        connections: vec![0],
        file_name: "p.pil".to_string(),
        line: 3,
    }];
    let (cm_pols, const_pols) = stores(&pil);
    let mut verifier = PilVerify::new(&pil, &cm_pols, &const_pols, Pols::default()).unwrap();
    assert_eq!(verifier.verify_pil(), malformed(IrFault::InvalidConnection));
    pil.connection_identities = vec![PilConnectionIdentity {
        pols: vec![0; 34],
        connections: vec![0; 34],
        file_name: "p.pil".to_string(),
        line: 3,
    }];
    let mut verifier = PilVerify::new(&pil, &cm_pols, &const_pols, Pols::default()).unwrap();
    assert_eq!(verifier.verify_pil(), malformed(IrFault::InvalidConnection));
    pil.connection_identities = vec![PilConnectionIdentity {
        pols: vec![5],
        connections: vec![0],
        file_name: "p.pil".to_string(),
        line: 3,
    }];
    let mut verifier = PilVerify::new(&pil, &cm_pols, &const_pols, Pols::default()).unwrap();
    assert_eq!(verifier.verify_pil(), malformed(IrFault::IndexOutOfRange));
}

#[test]
fn a_verifier_needs_columns_that_fit() {
    let pil = program(Vec::new(), Vec::new());
    let (mut cm_pols, mut const_pols) = stores(&pil);
    let fault = |cm: &PolsArray, co: &PolsArray| {
        PilVerify::new(&pil, cm, co, Pols::default()).err()
    };
    assert_eq!(fault(&cm_pols, &const_pols), None);
    cm_pols.array.push(column(&[0, 0, 0, 0]));
    assert_eq!(fault(&cm_pols, &const_pols), Some(PilError::IrMalformed(IrFault::InconsistentColumns)));
    cm_pols.array.pop();
    const_pols.array[0].pop();
    assert_eq!(fault(&cm_pols, &const_pols), Some(PilError::IrMalformed(IrFault::InconsistentColumns)));
    const_pols.array[0].push(Fgl::zero());
    cm_pols.n = 3;
    assert_eq!(fault(&cm_pols, &const_pols), Some(PilError::IrMalformed(IrFault::UnsupportedDomain)));
    cm_pols.n = 0;
    assert_eq!(fault(&cm_pols, &const_pols), Some(PilError::IrMalformed(IrFault::UnsupportedDomain)));
    cm_pols.n = 8;
    assert_eq!(fault(&cm_pols, &const_pols), Some(PilError::IrMalformed(IrFault::InconsistentColumns)));
}

#[test]
fn a_map_is_built_once_for_each_number_of_cosets() {
    let pil = program(Vec::new(), Vec::new());
    let (cm_pols, const_pols) = stores(&pil);
    let mut verifier = PilVerify::new(&pil, &cm_pols, &const_pols, Pols::default()).unwrap();
    let first = verifier.get_connection_map(3);
    let second = verifier.get_connection_map(3);
    assert_eq!(first.len(), 12);
    assert_eq!(second.len(), 12);
    for v in [1u64, 281474976710656, MODULUS - 1, 12275445934081160404, 5] {
        assert_eq!(first.get(v), second.get(v));
    }
    assert_eq!(verifier.get_connection_map(1).len(), 4);
    assert_eq!(verifier.get_connection_map(0).len(), 0);
}

#[test]
fn violations_are_reported_in_text() {
    let ci = PilConnectionIdentity {
        pols: vec![0],
        connections: vec![0],
        file_name: "main.pil".to_string(),
        line: 42,
    };
    let mismatch =
        Violation::ConnectionMismatch { identity: 3, j: 1, i: 20, cp: 0, cw: 15, v1: 7, v2: u64::MAX };
    assert_eq!(mismatch.identity(), 3);
    assert_eq!(
        mismatch.report(&ci),
        "main.pil:42: connection does not match p1=1 w1=20 p2=0 w2=15 val= 7 != 18446744073709551615"
    );
    let invalid = Violation::InvalidCopyValue { identity: 0, j: 2, i: 0, v1: 100 };
    assert_eq!(invalid.identity(), 0);
    assert_eq!(invalid.report(&ci), "main.pil:42: invalid copy value w=2,0 val=100");
}

#[test]
fn numbers_are_written_without_leading_zeros() {
    assert_eq!(decimal_string(0), "0");
    assert_eq!(decimal_string(9), "9");
    assert_eq!(decimal_string(10), "10");
    assert_eq!(decimal_string(1234567890), "1234567890");
    assert_eq!(decimal_string(u64::MAX), "18446744073709551615");
    for x in [0u64, 7, 100, 65535, MODULUS] {
        assert_eq!(parse_decimal(&decimal_string(x)), Some(x));
    }
}
