use pascal_interpreter::binary64::real_neg;
use pascal_interpreter::error::{Error, ErrorKind};
use pascal_interpreter::eval::Visit;
use pascal_interpreter::interpret::{interpret, parse_text};
use pascal_interpreter::semantics::Binding;
use pascal_interpreter::value::{operation, real_operation, DeclaredType, VarType};

fn integer_value(visit: &Visit, name: &str) -> i64 {
    match visit.get(name) {
        Some(Binding { declared: DeclaredType::Integer, value: Some(VarType::Integer(n)) }) => n,
        other => panic!("{} is no integer: {:?}", name, other),
    }
}

fn real_value(visit: &Visit, name: &str) -> f64 {
    match visit.get(name) {
        Some(Binding { declared: DeclaredType::Real, value: Some(VarType::Real(bits)) }) => {
            f64::from_bits(bits)
        }
        other => panic!("{} is no real: {:?}", name, other),
    }
}

fn run_integers(statements: &str) -> Result<Visit, Error> {
    interpret(&format!("PROGRAM t; VAR a, b, c : INTEGER; BEGIN {} END.", statements))
}

fn run_reals(statements: &str) -> Result<Visit, Error> {
    interpret(&format!("PROGRAM t; VAR i : INTEGER; x, y, z : REAL; BEGIN {} END.", statements))
}

#[test]
fn the_sample_program_runs() {
    let visit = interpret(
        "PROGRAM P; VAR a,b:INTEGER; y:REAL; BEGIN a:=2; b:=10*a+10*a DIV 4; y:=20/7+3.14 END.",
    )
    .unwrap();
    assert_eq!(integer_value(&visit, "a"), 2);
    assert_eq!(integer_value(&visit, "b"), 25);
    assert_eq!(real_value(&visit, "y"), (20 / 7) as f64 + 3.14);
    assert_eq!(visit.symbols.len(), 3);
}

#[test]
fn double_negation() {
    let visit = run_integers("a := - - 5").unwrap();
    assert_eq!(integer_value(&visit, "a"), 5);
    let visit = run_integers("a := - 5; b := + a; c := - + - a").unwrap();
    assert_eq!(integer_value(&visit, "a"), -5);
    assert_eq!(integer_value(&visit, "b"), -5);
    assert_eq!(integer_value(&visit, "c"), -5);
}

#[test]
fn an_empty_statement_does_nothing() {
    let visit = run_integers("a := 1; ; b := 2;").unwrap();
    assert_eq!(integer_value(&visit, "a"), 1);
    assert_eq!(integer_value(&visit, "b"), 2);
    assert_eq!(visit.get("c"), Some(Binding { declared: DeclaredType::Integer, value: None }));
    let visit = run_integers("").unwrap();
    assert_eq!(visit.get("a"), Some(Binding { declared: DeclaredType::Integer, value: None }));
}

#[test]
fn reading_a_variable_before_any_assignment_fails() {
    let error = interpret("PROGRAM p; VAR x:INTEGER; BEGIN x := x END.").unwrap_err();
    assert_eq!(error, Error::UninitializedVariable);
    assert_eq!(error.kind(), ErrorKind::Name);
}

#[test]
fn declaring_a_name_twice_fails() {
    for source in [
        "PROGRAM p; VAR a, a : INTEGER; BEGIN END.",
        "PROGRAM p; VAR a : INTEGER; a : REAL; BEGIN END.",
        "PROGRAM p; VAR a, b, c : INTEGER; x, b : REAL; BEGIN END.",
        "PROGRAM p; VAR a : INTEGER; b : REAL; c, d, a : INTEGER; BEGIN a := 1 DIV 0 END.",
    ] {
        let error = interpret(source).unwrap_err();
        assert_eq!(error, Error::DuplicateDeclaration, "{}", source);
        assert_eq!(error.kind(), ErrorKind::Declaration);
    }
}

#[test]
fn names_are_case_sensitive() {
    let visit = interpret("PROGRAM p; VAR a, A : INTEGER; BEGIN a := 1; A := 2 END.").unwrap();
    assert_eq!(integer_value(&visit, "a"), 1);
    assert_eq!(integer_value(&visit, "A"), 2);
}

#[test]
fn referring_to_an_undeclared_name_fails() {
    for statements in ["a := zz", "a := 1 + zz", "a := (2 * (3 - zz)) DIV 4", "a := - zz", "zz := 1"] {
        let error = run_integers(statements).unwrap_err();
        assert_eq!(error, Error::UndeclaredVariable, "{}", statements);
        assert_eq!(error.kind(), ErrorKind::Name);
    }
}

#[test]
fn an_earlier_arithmetic_failure_comes_first() {
    assert_eq!(run_integers("a := 1 DIV 0 + zz").unwrap_err(), Error::DivisionByZero);
    assert_eq!(run_integers("a := zz + 1 DIV 0").unwrap_err(), Error::UndeclaredVariable);
}

#[test]
fn the_target_is_looked_up_before_the_expression() {
    assert_eq!(run_integers("zz := 1 DIV 0").unwrap_err(), Error::UndeclaredVariable);
}

#[test]
fn a_real_cannot_be_assigned_to_an_integer_variable() {
    for statements in ["a := 1.5", "a := 1 + 2.0", "a := 4 / 2.0", "a := - 1.0", "a := 2.0 * 2"] {
        let error = run_integers(statements).unwrap_err();
        assert_eq!(error, Error::TypeMismatch, "{}", statements);
        assert_eq!(error.kind(), ErrorKind::Type);
    }
}

#[test]
fn an_integer_cannot_be_assigned_to_a_real_variable() {
    for statements in ["x := 1", "x := 1 + 2", "x := 3.5 DIV 2", "i := 2; x := i"] {
        assert_eq!(run_reals(statements).unwrap_err(), Error::TypeMismatch, "{}", statements);
    }
}

#[test]
fn a_failed_assignment_stores_nothing() {
    let tree = parse_text("PROGRAM p; VAR a : INTEGER; BEGIN a := 1; a := 2.5 END.").unwrap();
    let mut visit = Visit::new();
    assert_eq!(visit.visit(&tree), Err(Error::TypeMismatch));
    assert_eq!(integer_value(&visit, "a"), 1);
}

#[test]
fn integer_arithmetic_is_exact() {
    let visit = run_integers("a := 7 + 5 * 3 - 4; b := (7 + 5) * (3 - 4); c := 2 - 3 - 4").unwrap();
    assert_eq!(integer_value(&visit, "a"), 18);
    assert_eq!(integer_value(&visit, "b"), -12);
    assert_eq!(integer_value(&visit, "c"), -5);
}

#[test]
fn slash_on_two_integers_gives_an_integer() {
    let visit = run_integers("a := 20 / 7; b := (0 - 20) / 7; c := 20 / (0 - 7)").unwrap();
    assert_eq!(integer_value(&visit, "a"), 2);
    assert_eq!(integer_value(&visit, "b"), -2);
    assert_eq!(integer_value(&visit, "c"), -2);
}

#[test]
fn div_rounds_toward_zero() {
    let visit = run_integers("a := 7 DIV 2; b := (0 - 7) DIV 2; c := 7 DIV (0 - 2)").unwrap();
    assert_eq!(integer_value(&visit, "a"), 3);
    assert_eq!(integer_value(&visit, "b"), -3);
    assert_eq!(integer_value(&visit, "c"), -3);
}

#[test]
fn div_takes_reals_as_integers() {
    let visit = run_integers("a := 7.9 DIV 2; b := 9 DIV 2.9; c := (0 - 7.9) DIV 2.5").unwrap();
    assert_eq!(integer_value(&visit, "a"), 3);
    assert_eq!(integer_value(&visit, "b"), 4);
    assert_eq!(integer_value(&visit, "c"), -3);
}

#[test]
fn div_of_a_real_beyond_the_integers_saturates() {
    let visit = run_integers(
        "a := 100000000000000000000.0 DIV 1; b := (0 - 100000000000000000000.0) DIV 1; \
         c := (0.0 / 0.0) DIV 5",
    )
    .unwrap();
    assert_eq!(integer_value(&visit, "a"), i64::MAX);
    assert_eq!(integer_value(&visit, "b"), i64::MIN);
    assert_eq!(integer_value(&visit, "c"), 0);
}

#[test]
fn dividing_an_integer_by_zero_fails() {
    for statements in ["a := 1 DIV 0", "a := 1 / 0", "a := 1 DIV 0.5", "a := 5 DIV (2 - 2)"] {
        let error = run_integers(statements).unwrap_err();
        assert_eq!(error, Error::DivisionByZero, "{}", statements);
        assert_eq!(error.kind(), ErrorKind::Arithmetic);
    }
}

#[test]
fn dividing_a_real_by_zero_is_no_error() {
    let visit = run_reals("x := 1.0 / 0; y := (0 - 1.0) / 0.0; z := 0.0 / 0.0").unwrap();
    assert_eq!(real_value(&visit, "x"), f64::INFINITY);
    assert_eq!(real_value(&visit, "y"), f64::NEG_INFINITY);
    assert!(real_value(&visit, "z").is_nan());
}

#[test]
fn an_integer_result_beyond_64_bits_fails() {
    for statements in [
        "a := 9223372036854775807 + 1",
        "a := 0 - 9223372036854775807 - 2",
        "a := 4611686018427387904 * 2",
        "a := 9223372036854775808",
        "a := 0 - 9223372036854775807 - 1; b := - a",
        "a := 0 - 9223372036854775807 - 1; b := a DIV (0 - 1)",
        "a := 0 - 9223372036854775807 - 1; b := a / (0 - 1)",
    ] {
        let error = run_integers(statements).unwrap_err();
        assert_eq!(error, Error::Overflow, "{}", statements);
        assert_eq!(error.kind(), ErrorKind::Arithmetic);
    }
    let visit = run_integers("a := 9223372036854775807; b := 0 - a - 1").unwrap();
    assert_eq!(integer_value(&visit, "a"), i64::MAX);
    assert_eq!(integer_value(&visit, "b"), i64::MIN);
}

#[test]
fn real_arithmetic_is_binary64() {
    let visit = run_reals("x := 0.1 + 0.2; y := 1.0 / 3.0; z := 2.5 * 4.0 - 0.75").unwrap();
    assert_eq!(real_value(&visit, "x"), 0.1 + 0.2);
    assert_eq!(real_value(&visit, "y"), 1.0 / 3.0);
    assert_eq!(real_value(&visit, "z"), 2.5 * 4.0 - 0.75);
}

#[test]
fn an_integer_beside_a_real_becomes_a_real() {
    let visit = run_reals("i := 3; x := i + 0.5; y := 2 * 1.5; z := 7 / 2.0").unwrap();
    assert_eq!(real_value(&visit, "x"), 3.5);
    assert_eq!(real_value(&visit, "y"), 3.0);
    assert_eq!(real_value(&visit, "z"), 3.5);
    let visit = run_reals("i := 9007199254740993; x := i + 0.0").unwrap();
    assert_eq!(real_value(&visit, "x"), 9007199254740993i64 as f64);
}

#[test]
fn negating_a_real_keeps_it_real() {
    let visit = run_reals("x := - 2.5; y := - - 2.5; z := - 0.0").unwrap();
    assert_eq!(real_value(&visit, "x"), -2.5);
    assert_eq!(real_value(&visit, "y"), 2.5);
    assert_eq!(real_value(&visit, "z").to_bits(), (-0.0f64).to_bits());
}

#[test]
fn a_variable_can_be_assigned_again() {
    let visit = run_integers("a := 1; a := a + 1; a := a * 10").unwrap();
    assert_eq!(integer_value(&visit, "a"), 20);
}

#[test]
fn a_nested_compound_statement_is_executed() {
    let visit = run_integers("a := 1; BEGIN b := a + 1; BEGIN c := b + 1 END END; a := c").unwrap();
    assert_eq!(integer_value(&visit, "a"), 3);
    assert_eq!(integer_value(&visit, "b"), 2);
    assert_eq!(integer_value(&visit, "c"), 3);
}

#[test]
fn the_first_error_ends_the_run() {
    let tree =
        parse_text("PROGRAM p; VAR a, b : INTEGER; BEGIN a := 1; b := a DIV 0; a := 2 END.")
            .unwrap();
    let mut visit = Visit::new();
    assert_eq!(visit.visit(&tree), Err(Error::DivisionByZero));
    assert_eq!(integer_value(&visit, "a"), 1);
    assert_eq!(visit.get("b"), Some(Binding { declared: DeclaredType::Integer, value: None }));
}

#[test]
fn a_program_without_declarations_runs() {
    let visit = interpret("PROGRAM p; BEGIN END.").unwrap();
    assert!(visit.symbols.is_empty());
    assert_eq!(visit.get("a"), None);
    assert_eq!(
        interpret("PROGRAM p; BEGIN a := 1 END.").unwrap_err(),
        Error::UndeclaredVariable
    );
}

#[test]
fn the_table_keeps_the_order_of_declaration() {
    let visit = interpret("PROGRAM p; VAR z, a : INTEGER; m : REAL; BEGIN END.").unwrap();
    let names: Vec<&str> = visit.symbols.iter().map(|s| s.name.as_str()).collect();
    assert_eq!(names, vec!["z", "a", "m"]);
    assert_eq!(visit.find("a"), Some(1));
    assert_eq!(visit.find("q"), None);
}

#[test]
fn visiting_a_single_expression() {
    let tree = parse_text("PROGRAM p; BEGIN a := 2 * (3 + 4) END.").unwrap();
    let expression = &tree.sub_nodes[1].sub_nodes[0].sub_nodes[0].sub_nodes[1];
    assert_eq!(Visit::new().visit_var(expression), Ok(VarType::Integer(14)));
}

#[test]
fn operation_on_integers() {
    assert_eq!(operation('+', 2, 3), Ok(5));
    assert_eq!(operation('-', 2, 3), Ok(-1));
    assert_eq!(operation('*', -4, 3), Ok(-12));
    assert_eq!(operation('/', 7, 2), Ok(3));
    assert_eq!(operation('/', -7, 2), Ok(-3));
    assert_eq!(operation('/', 7, 0), Err(Error::DivisionByZero));
    assert_eq!(operation('+', i64::MAX, 1), Err(Error::Overflow));
    assert_eq!(operation('-', i64::MIN, 1), Err(Error::Overflow));
    assert_eq!(operation('*', i64::MIN, -1), Err(Error::Overflow));
    assert_eq!(operation('/', i64::MIN, -1), Err(Error::Overflow));
}

#[test]
fn operation_on_reals() {
    let a = 7.25f64;
    let b = -0.3f64;
    assert_eq!(real_operation('+', a.to_bits(), b.to_bits()), (a + b).to_bits());
    assert_eq!(real_operation('-', a.to_bits(), b.to_bits()), (a - b).to_bits());
    assert_eq!(real_operation('*', a.to_bits(), b.to_bits()), (a * b).to_bits());
    assert_eq!(real_operation('/', a.to_bits(), b.to_bits()), (a / b).to_bits());
    assert_eq!(real_neg(a.to_bits()), (-a).to_bits());
}

#[test]
fn conversions_between_integers_and_reals() {
    assert_eq!(VarType::Integer(-3).to_real(), (-3.0f64).to_bits());
    assert_eq!(VarType::Integer(i64::MAX).to_real(), (i64::MAX as f64).to_bits());
    assert_eq!(VarType::Real(2.75f64.to_bits()).to_integer(), 2);
    assert_eq!(VarType::Real((-2.75f64).to_bits()).to_integer(), -2);
    assert_eq!(VarType::Real(1e300f64.to_bits()).to_integer(), i64::MAX);
    assert_eq!(VarType::Real(f64::NAN.to_bits()).to_integer(), 0);
    assert_eq!(VarType::Real(0.5f64.to_bits()).to_real(), 0.5f64.to_bits());
    assert_eq!(VarType::Integer(9).to_integer(), 9);
}

#[test]
fn values_know_their_type() {
    assert_eq!(VarType::Integer(1).type_of(), DeclaredType::Integer);
    assert_eq!(VarType::Real(0).type_of(), DeclaredType::Real);
    assert!(VarType::Integer(1).same_type(&VarType::Integer(2)));
    assert!(VarType::Real(1).same_type(&VarType::Real(2)));
    assert!(!VarType::Integer(1).same_type(&VarType::Real(1)));
}
