use r_scheme::object::{clone_all, clone_names, write_items, Float, Object};

fn float(x: f64) -> Float {
    Float { bits: x.to_bits(), text: format!("{}", x) }
}

fn symbol(s: &str) -> Object {
    Object::Symbol(s.to_string())
}

#[test]
fn atoms_print_as_literals() {
    assert_eq!(Object::Integer(42).to_text(), "42");
    assert_eq!(Object::Integer(-42).to_text(), "-42");
    assert_eq!(Object::Integer(i64::MIN).to_text(), "-9223372036854775808");
    assert_eq!(Object::Float(float(42.42)).to_text(), "42.42");
    assert_eq!(Object::Float(float(1.0)).to_text(), "1");
    assert_eq!(Object::Bool(true).to_text(), "true");
    assert_eq!(Object::Bool(false).to_text(), "false");
    assert_eq!(Object::String("Hello".to_string()).to_text(), "\"Hello\"");
    assert_eq!(Object::String("".to_string()).to_text(), "\"\"");
    assert_eq!(symbol("keyword").to_text(), "keyword");
}

#[test]
fn lists_print_in_parentheses_with_spaces_between() {
    assert_eq!(Object::List(vec![]).to_text(), "()");
    assert_eq!(Object::List(vec![Object::Integer(1)]).to_text(), "(1)");
    assert_eq!(
        Object::List(vec![
            symbol("+"),
            Object::Integer(1),
            Object::List(vec![symbol("f"), Object::String("x".to_string()), Object::List(vec![])]),
            Object::Bool(true),
        ])
        .to_text(),
        "(+ 1 (f \"x\" ()) true)"
    );
}

#[test]
fn lambdas_print_their_parameters() {
    assert_eq!(Object::Lambda(vec![], vec![symbol("x")]).to_text(), "lambda ()");
    assert_eq!(
        Object::Lambda(vec!["r".to_string()], vec![symbol("x")]).to_text(),
        "lambda (r)"
    );
    assert_eq!(
        Object::Lambda(vec!["a".to_string(), "b".to_string()], vec![]).to_text(),
        "lambda (a, b)"
    );
}

#[test]
fn write_text_appends() {
    let mut out = String::from("> ");
    Object::Integer(7).write_text(&mut out);
    Object::List(vec![symbol("a"), symbol("b")]).write_text(&mut out);
    assert_eq!(out, "> 7(a b)");
    write_items(&vec![Object::Integer(1), Object::Integer(2)], &mut out);
    assert_eq!(out, "> 7(a b)1 2");
    write_items(&vec![], &mut out);
    assert_eq!(out, "> 7(a b)1 2");
}

#[test]
fn clones_are_equal_and_apart() {
    let original = Object::List(vec![
        Object::Integer(1),
        Object::Float(float(2.5)),
        Object::Bool(true),
        Object::String("s".to_string()),
        symbol("y"),
        Object::Lambda(vec!["a".to_string()], vec![symbol("a"), Object::List(vec![])]),
    ]);
    let copy = original.clone();
    assert_eq!(copy, original);
    let items = vec![Object::Integer(1), symbol("x")];
    assert_eq!(clone_all(&items), items);
    let names = vec!["a".to_string(), "b".to_string()];
    assert_eq!(clone_names(&names), names);
    let f = float(0.1);
    assert_eq!(f.clone(), f);
}
