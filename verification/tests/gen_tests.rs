use kaleidoscope::ast::Prototype;
use kaleidoscope::error::Error;
use kaleidoscope::gen::{Generator, Inst, Linkage, VariableBuilder};
use kaleidoscope::lexer::Lexer;
use kaleidoscope::parser::Parser;

fn parse_def(src: &str) -> kaleidoscope::ast::Function {
    let mut parser = Parser::new(Lexer::new(src.as_bytes().to_vec()));
    parser.definition().expect("parse failed")
}

fn parse_toplevel(src: &str) -> kaleidoscope::ast::Function {
    let mut parser = Parser::new(Lexer::new(src.as_bytes().to_vec()));
    parser.toplevel().expect("parse failed")
}

fn proto(name: &str, params: &[&str]) -> Prototype {
    Prototype {
        function_name: name.to_string(),
        parameters: params.iter().map(|p| p.to_string()).collect(),
    }
}

#[test]
fn add_function_lowers_to_its_instructions() {
    let mut generator = Generator::new();
    let unit = generator.function(parse_def("def add(a b) a + b")).expect("codegen failed");
    assert_eq!(unit.param_slots, vec![0, 1]);
    assert_eq!(
        unit.insts,
        vec![Inst::Var(0), Inst::Var(1), Inst::Add]
    );
}

#[test]
fn comparison_expression_lowers_to_less() {
    let mut generator = Generator::new();
    let unit = generator.function(parse_toplevel("1 < 2")).expect("codegen failed");
    assert!(unit.param_slots.is_empty());
    assert_eq!(
        unit.insts,
        vec![
            Inst::Num("1".to_string()),
            Inst::Num("2".to_string()),
            Inst::Less,
        ]
    );
}

#[test]
fn extern_then_matching_def_keeps_the_identifier() {
    let mut generator = Generator::new();
    let id = generator.prototype(&proto("putchard", &["c"]), Linkage::Import).unwrap();
    let unit = generator
        .function(parse_def("def show(x) putchard(x + 1)"))
        .expect("codegen failed");
    assert_eq!(
        unit.insts,
        vec![Inst::Var(0), Inst::Num("1".to_string()), Inst::Add, Inst::Call(id, 1)]
    );
}

#[test]
fn extern_then_def_with_other_arity_is_refused() {
    let mut generator = Generator::new();
    generator.prototype(&proto("foo", &["a"]), Linkage::Import).unwrap();
    assert_eq!(
        generator.function(parse_def("def foo(a b) a")),
        Err(Error::FunctionRedefWithDifferentParams)
    );
}

#[test]
fn defining_a_name_twice_is_refused() {
    let mut generator = Generator::new();
    generator.function(parse_def("def foo(a) a")).expect("first definition failed");
    assert_eq!(generator.function(parse_def("def foo(a) a")), Err(Error::FunctionRedef));
}

#[test]
fn repeated_extern_with_same_arity_is_idempotent() {
    let mut generator = Generator::new();
    let id1 = generator.prototype(&proto("sin", &["x"]), Linkage::Import).unwrap();
    let id2 = generator.prototype(&proto("sin", &["x"]), Linkage::Import).unwrap();
    assert_eq!(id1, id2);
}

#[test]
fn calling_an_undeclared_function_fails() {
    let mut generator = Generator::new();
    assert_eq!(
        generator.function(parse_toplevel("nope(1)")),
        Err(Error::UndefinedFunction)
    );
}

#[test]
fn calling_with_the_wrong_argument_count_fails() {
    let mut generator = Generator::new();
    generator.function(parse_def("def one(a) a")).expect("definition failed");
    assert_eq!(
        generator.function(parse_toplevel("one(1, 2)")),
        Err(Error::WrongArgumentCount)
    );
}

#[test]
fn unbound_variable_in_a_body_fails() {
    let mut generator = Generator::new();
    assert_eq!(
        generator.function(parse_def("def foo(a) b")),
        Err(Error::UndefinedVariable)
    );
}

#[test]
fn failed_body_leaves_the_name_free_for_redefinition() {
    let mut generator = Generator::new();
    assert_eq!(
        generator.function(parse_def("def foo(a) b")),
        Err(Error::UndefinedVariable)
    );
    let unit = generator.function(parse_def("def foo(a) a")).expect("redefinition failed");
    assert_eq!(unit.insts, vec![Inst::Var(1)]);
}

#[test]
fn failed_body_removes_even_a_prior_extern_declaration() {
    let mut generator = Generator::new();
    generator.prototype(&proto("foo", &["a"]), Linkage::Import).unwrap();
    assert_eq!(
        generator.function(parse_def("def foo(a) b")),
        Err(Error::UndefinedVariable)
    );
    // the rollback removed the record entirely, so any arity is accepted now
    generator.function(parse_def("def foo(x y) x")).expect("fresh definition failed");
}

#[test]
fn anonymous_functions_do_not_accumulate() {
    let mut generator = Generator::new();
    let mut parser = Parser::new(Lexer::new(b"1 ; 2".to_vec()));
    let f1 = parser.toplevel().unwrap();
    let name1 = f1.prototype.function_name.clone();
    generator.function(f1).expect("first expression failed");
    // the record is gone: a function of the same name can be declared anew
    generator.prototype(&proto(&name1, &[]), Linkage::Export).unwrap();
}

#[test]
fn self_recursive_call_resolves() {
    let mut generator = Generator::new();
    let unit = generator.function(parse_def("def loop(n) loop(n + 1)")).expect("codegen failed");
    assert_eq!(
        unit.insts,
        vec![Inst::Var(0), Inst::Num("1".to_string()), Inst::Add, Inst::Call(0, 1)]
    );
}

#[test]
fn shadowed_parameter_uses_its_later_slot() {
    let mut generator = Generator::new();
    let unit = generator.function(parse_def("def pick(a a) a")).expect("codegen failed");
    assert_eq!(unit.param_slots, vec![0, 1]);
    assert_eq!(unit.insts, vec![Inst::Var(1)]);
}

#[test]
fn variable_slots_stay_distinct_across_functions() {
    let mut builder = VariableBuilder::new();
    assert_eq!(builder.create_var(), 0);
    assert_eq!(builder.create_var(), 1);
    let mut generator = Generator::new();
    generator.function(parse_def("def f(a) a")).expect("first failed");
    let unit = generator.function(parse_def("def g(b) b")).expect("second failed");
    assert_eq!(unit.param_slots, vec![1]);
    assert_eq!(unit.insts, vec![Inst::Var(1)]);
}

#[test]
fn call_with_literal_arguments_lowers_in_order() {
    let mut generator = Generator::new();
    generator.function(parse_def("def add(a b) a + b")).expect("definition failed");
    let unit = generator.function(parse_toplevel("add(2, 3)")).expect("codegen failed");
    assert_eq!(
        unit.insts,
        vec![
            Inst::Num("2".to_string()),
            Inst::Num("3".to_string()),
            Inst::Call(0, 2),
        ]
    );
}

#[test]
fn reversed_comparison_lowers_with_operands_swapped() {
    let mut generator = Generator::new();
    let unit = generator.function(parse_toplevel("2 < 1")).expect("codegen failed");
    assert_eq!(
        unit.insts,
        vec![
            Inst::Num("2".to_string()),
            Inst::Num("1".to_string()),
            Inst::Less,
        ]
    );
}
