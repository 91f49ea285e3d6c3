use hexi::ast::Expr;
use hexi::interp::{Interpreter, ModuleDecl, NativeHost};
use hexi::lexer::Lexer;
use hexi::num::render_number;
use hexi::parser::Parser;
use hexi::value::Value;

struct TestHost;

impl NativeHost for TestHost {
    fn call(&mut self, sig: &str, args: &Vec<Value>) -> Result<Value, String> {
        match sig {
            "math_pow" => match (&args[0], &args[1]) {
                (Value::Number(a), Value::Number(b)) => Ok(Value::Number(
                    f64::from_bits(*a).powf(f64::from_bits(*b)).to_bits(),
                )),
                _ => Err("not a number in math::pow".to_string()),
            },
            "math_abs" => match &args[0] {
                Value::Number(a) => Ok(Value::Number(f64::from_bits(*a).abs().to_bits())),
                _ => Err("not a number in math::abs".to_string()),
            },
            "json_parse" => Ok(Value::Number(42f64.to_bits())),
            "io_print" => Ok(Value::Nil),
            _ => Err(format!("no native '{}'", sig)),
        }
    }
}

fn modules(pairs: &[(&str, &[&str])]) -> Vec<ModuleDecl> {
    pairs
        .iter()
        .map(|(name, funcs)| ModuleDecl {
            name: name.to_string(),
            funcs: funcs.iter().map(|f| f.to_string()).collect(),
        })
        .collect()
}

fn interpreter() -> Interpreter<TestHost> {
    Interpreter::new(
        TestHost,
        modules(&[("math", &["pow", "abs"]), ("io", &["print"])]),
        modules(&[("json", &["parse"])]),
    )
}

fn parse_source(src: &str) -> Result<Vec<Expr>, String> {
    let lexer = Lexer::new(src);
    let mut parser = Parser::new(lexer);
    parser.parse()
}

/// Evaluate a whole program, returning the last expression's result.
fn run(src: &str) -> Result<Value, String> {
    let exprs = parse_source(src)?;
    let mut it = interpreter();
    let mut last = Value::Nil;
    for e in exprs {
        last = it.evaluate(&e)?;
    }
    Ok(last)
}

fn num(v: f64) -> Value {
    Value::Number(v.to_bits())
}

fn assert_value(src: &str, expected: &Value) {
    let got = run(src).expect(src);
    assert!(got.eq_value(expected), "{}: got {}", src, got.render());
}

fn assert_error(src: &str, expected: &str) {
    match run(src) {
        Ok(v) => panic!("{}: expected error, got {}", src, v.render()),
        Err(m) => assert_eq!(m, expected, "{}", src),
    }
}

#[test]
fn lexes_single_tokens() {
    let mut lx = Lexer::new("( ) [ ] { } , . ; : + - * / %");
    let expected = [
        "(", ")", "[", "]", "{", "}", ",", ".", ";", ":", "+", "-", "*", "/", "%",
    ];
    for e in expected {
        let t = lx.next().expect("token");
        assert_eq!(t.lexeme, e);
    }
    assert!(lx.next().is_none());
}

#[test]
fn lexes_doubles_and_keywords() {
    let mut lx = Lexer::new("val x == y <= 1 >= 2 != :: if else < >");
    let lexemes: Vec<String> = std::iter::from_fn(|| lx.next()).map(|t| t.lexeme).collect();
    assert_eq!(
        lexemes,
        vec!["val", "x", "==", "y", "<=", "1", ">=", "2", "!=", "::", "if", "else", "<", ">"]
    );
}

#[test]
fn lexer_skips_illegal_characters() {
    let mut lx = Lexer::new("a ! # b");
    let lexemes: Vec<String> = std::iter::from_fn(|| lx.next()).map(|t| t.lexeme).collect();
    assert_eq!(lexemes, vec!["a", "b"]);
}

#[test]
fn lexes_numbers_and_strings() {
    let mut lx = Lexer::new("12.5 7. 'ab' \"cd\" 'open");
    let lexemes: Vec<String> = std::iter::from_fn(|| lx.next()).map(|t| t.lexeme).collect();
    assert_eq!(lexemes, vec!["12.5", "7", ".", "ab", "cd", "open"]);
}

// Re-tokenizing the concatenation of lexemes, with whitespace reinserted,
// reproduces the token stream (on input without string literals, whose
// lexemes drop their quotes).
#[test]
fn retokenizing_lexemes_is_stable() {
    let src = "val total = [1, 2.5, x_1] ; if total { a == b } else { c != d }";
    let mut lx = Lexer::new(src);
    let mut first: Vec<(hexi::lexer::TokenType, String)> = Vec::new();
    while let Some(t) = lx.next() {
        first.push((t.token_type, t.lexeme));
    }
    let joined = first
        .iter()
        .map(|p| p.1.clone())
        .collect::<Vec<_>>()
        .join(" ");
    let mut lx2 = Lexer::new(&joined);
    let mut second: Vec<(hexi::lexer::TokenType, String)> = Vec::new();
    while let Some(t) = lx2.next() {
        second.push((t.token_type, t.lexeme));
    }
    assert_eq!(first, second);
}

#[test]
fn arithmetic_matches_doubles() {
    assert_value("1 + 2", &num(3.0));
    assert_value("0.1 + 0.2", &num(0.1 + 0.2));
    assert_value("2 - 3", &num(2.0 - 3.0));
    assert_value("2.5 * 4", &num(10.0));
    assert_value("7 / 2", &num(3.5));
    assert_value("7 % 2", &num(1.0));
    assert_value("1 + 2 * 3", &num(7.0));
    assert_value("(1 + 2) * 3", &num(9.0));
    assert_value("-5 + 1", &num(-4.0));
}

#[test]
fn division_and_modulo_by_zero_are_errors() {
    assert_error("1 / 0", "division by zero");
    assert_error("1 % 0", "modulo by zero");
    assert_error("1 / 0.0", "division by zero");
}

#[test]
fn arithmetic_needs_numbers() {
    assert_error(
        "'a' + 1",
        "arithmetic operations can only be performed on numbers",
    );
}

#[test]
fn comparisons() {
    assert_value("1 < 2", &Value::Bool(true));
    assert_value("2 < 1", &Value::Bool(false));
    assert_value("1 <= 1", &Value::Bool(true));
    assert_value("2 > 1", &Value::Bool(true));
    assert_value("1 >= 2", &Value::Bool(false));
    assert_value("1 == 1", &Value::Bool(true));
    assert_value("1 != 1", &Value::Bool(false));
    assert_value("'a' < 'b'", &Value::Bool(true));
    assert_value("'abc' == 'abc'", &Value::Bool(true));
    assert_value("'a' < 1", &Value::Bool(false));
    assert_value("[1, 2] == [1, 2]", &Value::Bool(true));
    assert_value("[1, 2] == [1, 3]", &Value::Bool(false));
    assert_value("[a = 1] == [a = 1]", &Value::Bool(true));
}

#[test]
fn declaration_and_lookup() {
    assert_value("val x = 5; x", &num(5.0));
}

#[test]
fn redeclaration_fails() {
    assert_error("val x = 5; val x = 1;", "variable 'x' already defined!");
}

#[test]
fn assignment_needs_declaration() {
    assert_value("val x = 5; x = 6; x", &num(6.0));
    assert_error("y = 6", "variable 'y' not defined!");
    assert_error("y + 1", "undefined variable or reference 'y'");
}

#[test]
fn push_get_and_size() {
    assert_value("val a = [1, 2, 3]; a.push(4); a.size()", &num(4.0));
    assert_value("val a = [1, 2, 3]; a.push(4); a.get(3)", &num(4.0));
    assert_value("val a = [1, 2, 3]; a.push(4); a.get(10)", &Value::Nil);
    assert_value("val a = []; a.size()", &num(0.0));
    assert_value("val a = [1, 2]; a.pop(); a.size()", &num(1.0));
    assert_value("val a = [1, 2]; a.pop()", &num(2.0));
    assert_value("val a = []; a.pop()", &Value::Nil);
}

#[test]
fn methods_mutate_variables_but_not_transients() {
    assert_value("val a = [1]; [9, 9].push(8); a.size()", &num(1.0));
    assert_value("val a = [1]; a.push(2); a.size()", &num(2.0));
}

#[test]
fn keyed_collections() {
    assert_value("[name = 'ok'].get('name')", &Value::String("ok".to_string()));
    assert_value("[name = 'ok']['missing']", &Value::Nil);
    assert_error("[name = 'ok'].missing", "undefined field 'missing'");
    assert_value("[name = 'ok'].name", &Value::String("ok".to_string()));
    assert_value("['k' = 7].get('k')", &num(7.0));
}

#[test]
fn numeric_keys_live_apart_from_indices() {
    // A numeric key is stored under its decimal text, so an index access
    // that truncates 1.5 to position 1 misses it.
    assert_value("[1.5 = 'x'][1.5]", &Value::Nil);
    assert_value("[1.5 = 'x'].get('1.5')", &Value::Nil);
    assert_value("val c = [2 = 'two', 9]; c.get(0)", &num(9.0));
    assert_value("val c = [2 = 'two', 9]; c.size()", &num(1.0));
}

#[test]
fn insert_bounds() {
    assert_value("val a = [1, 2]; a.insert(2, 9); a.get(2)", &num(9.0));
    assert_error("val a = [1, 2]; a.insert(5, 9)", "index 5 is out of bounds");
    assert_value("val m = [k = 1]; m.insert('j', 2); m.get('j')", &num(2.0));
}

#[test]
fn truthiness() {
    assert_value("if 0 { 'a' } else { 'b' }", &Value::String("a".to_string()));
    assert_value("if [] { 'a' } else { 'b' }", &Value::String("b".to_string()));
    assert_value("if '' { 'a' } else { 'b' }", &Value::String("a".to_string()));
    assert_value("if 1 == 2 { 'a' } else { 'b' }", &Value::String("b".to_string()));
    assert_value("if [] { 'a' }", &Value::Nil);
    assert_value(
        "val x = 3; if x == 1 { 'a' } else if x == 3 { 'c' } else { 'b' }",
        &Value::String("c".to_string()),
    );
}

#[test]
fn blocks_yield_their_last_expression() {
    assert_value("{ 1; 2; 3 }", &num(3.0));
    assert_value("{ }", &Value::Nil);
    assert_value("val x = { 1 + 1 }; x", &num(2.0));
}

#[test]
fn number_display_round_trips() {
    for v in [
        5.0f64,
        0.5,
        1024.0,
        0.1,
        3.14,
        123456.789,
        -2.25,
        0.0,
        1e17,
        1e300,
        f64::MAX,
        5e-324,
        123456789123456789123.0,
    ] {
        let shown = render_number(v.abs().to_bits());
        assert!(
            !shown.contains('E') && !shown.contains('e'),
            "{} -> {}",
            v,
            shown
        );
        let back = run(&shown).expect(&shown);
        assert!(back.eq_value(&num(v.abs())), "{} -> {}", v, shown);
    }
    assert_eq!(render_number(5.0f64.to_bits()), "5");
    assert_eq!(render_number(0.5f64.to_bits()), "0.5");
    assert_eq!(render_number(1024f64.to_bits()), "1024");
    assert_eq!(render_number((-2.25f64).to_bits()), "-2.25");
    assert_eq!(render_number(0.1f64.to_bits()), "0.1");
    assert_eq!(render_number(1e17f64.to_bits()), "100000000000000000");
    assert_eq!(render_number(f64::NAN.to_bits()), "NaN");
    assert_eq!(render_number(f64::INFINITY.to_bits()), "inf");
}

#[test]
fn large_numbers_display_as_plain_literals() {
    // the displayed text is itself a number literal of the language
    assert_value("val x = 100000000000000000; x", &num(1e17));
    assert_eq!(run("100000000000000000").unwrap().render(), "100000000000000000");
    let shown = run("1000000000000000000 * 1000000000000000000")
        .unwrap()
        .render();
    assert!(!shown.contains('E') && !shown.contains('e'), "{}", shown);
    assert_value(&shown, &num(1e18 * 1e18));
}

#[test]
fn value_display() {
    assert_eq!(run("[1, 2, 3]").unwrap().render(), "[1, 2, 3]");
    assert_eq!(run("[]").unwrap().render(), "[]");
    assert_eq!(run("[a = 1]").unwrap().render(), "[a = 1]");
    assert_eq!(run("[1.5 = 'x']").unwrap().render(), "[1.5 = x]");
    assert_eq!(run("[0.1 = 'y']").unwrap().render(), "[0.1 = y]");
    assert_eq!(run("[10, 0.1, 'z']").unwrap().render(), "[10, 0.1, z]");
    assert_eq!(run("'hey'").unwrap().render(), "hey");
    assert_eq!(run("1 == 1").unwrap().render(), "true");
    assert_eq!(run("if [] { 1 }").unwrap().render(), "nil");
    assert_eq!(run("[[1, 2], 'x']").unwrap().render(), "[[1, 2], x]");
}

#[test]
fn qualified_calls_reach_the_host() {
    assert_value("math::pow(2, 10)", &num(1024.0));
    assert_value("math::abs(0 - 3)", &num(3.0));
    assert_error("pow(2, 10)", "undefined function 'pow'");
    assert_error("nope::call()", "undefined function 'call'");
}

#[test]
fn optional_module_needs_loading() {
    assert_error("json::parse('1')", "undefined function 'parse'");
    let load = format!("{}{} json; json::parse('1')", "incl", "ude");
    assert_value(&load, &num(42.0));
    let twice = format!("{0}{1} json; {0}{1} json; json::parse('1')", "incl", "ude");
    assert_value(&twice, &num(42.0));
    let missing = format!("{}{} nosuch", "incl", "ude");
    assert_error(&missing, "module 'nosuch' not found");
}

#[test]
fn string_len_method() {
    assert_value("'hello'.len()", &num(5.0));
    assert_value("''.len()", &num(0.0));
}

#[test]
fn method_errors() {
    assert_error("val a = [1]; a.reverse()", "unknown method 'reverse' for array.");
    assert_error("'s'.reverse()", "unknown method 'reverse' for string.");
    assert_error("val a = [1]; a.push(1, 2)", "push method on array expects 1 argument, got 2");
    assert_error("b.push(1)", "undefined variable 'b'");
    assert_error(
        "1 .m()",
        "cannot call method 'm' on \"number\"",
    );
}

#[test]
fn index_access_rules() {
    assert_value("[10, 20, 30][1]", &num(20.0));
    assert_value("[10][5]", &Value::Nil);
    assert_error("5[0]", "cannot index into number");
    assert_error("[1][[2]]", "collection index must be a number or string");
    assert_value("val r = [p = [1, 9]]; r.p[1]", &num(9.0));
}

#[test]
fn unary_minus() {
    assert_value("-3", &num(-3.0));
    assert_error("-'a'", "negate unary operator only supported on numbers");
}

#[test]
fn parser_reports_structural_errors() {
    assert!(parse_source("(1 + 2").is_err());
    assert!(parse_source("val = 3").is_err());
    assert!(parse_source("[1, 2").is_err());
    assert!(parse_source("if 1 2").is_err());
    assert_eq!(parse_source("").unwrap().len(), 0);
    assert_eq!(parse_source("1; 2; 3").unwrap().len(), 3);
}

#[test]
fn trailing_commas_are_tolerated() {
    assert_value("[1, 2, 3,].size()", &num(3.0));
    assert_value("math::pow(2, 3,)", &num(8.0));
}

#[test]
fn sparse_literal_growth_against_bounded_insert() {
    // A literal may grow sparsely through numeric keys only via indices;
    // the insert method bounds-checks instead.
    assert_value("val a = [1, 2]; a.insert(1, 9); a.get(1)", &num(9.0));
    assert_value("val a = [1, 2]; a.insert(2, 9); a.size()", &num(3.0));
}
