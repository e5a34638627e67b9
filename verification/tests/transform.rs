use modus_ponens::lexicon::Lexicon;
use modus_ponens::matching::MPMatching;
use modus_ponens::parser::{FactParser, MPParser};
use modus_ponens::parsetree::ParseNode;
use modus_ponens::transform::TParser;
use modus_ponens::transform_str::TSParser;
use modus_ponens::transform_text::read_transforms;

fn leaf(name: &str, text: &str) -> ParseNode {
    ParseNode { name: name.to_string(), text: text.to_string(), children: vec![] }
}

fn op(kind: &str, op: &str, args: Vec<ParseNode>) -> ParseNode {
    let mut children = vec![leaf("op", op)];
    children.extend(args);
    ParseNode { name: kind.to_string(), text: String::new(), children }
}

fn value(node: &ParseNode, matching: &MPMatching<'static>) -> Option<(String, String)> {
    let mut lexicon = Lexicon::new();
    TSParser::new().compile_expr(&mut lexicon, node, matching).map(|s| (s.name.clone(), s.text.clone()))
}

fn pair(name: &str, text: &str) -> Option<(String, String)> {
    Some((name.to_string(), text.to_string()))
}

#[test]
fn len_counts_bytes() {
    let m = MPMatching::new();
    let e = op("monadicExpr", "len", vec![leaf("v_string", "héllo")]);
    assert_eq!(value(&e, &m), pair("v_decimal", "6"));
}

#[test]
fn index_of_gives_a_byte_position() {
    let m = MPMatching::new();
    let e = op("dyadicExpr", "index_of", vec![leaf("v_string", "abcabc"), leaf("v_string", "ca")]);
    assert_eq!(value(&e, &m), pair("v_decimal", "2"));
    let e = op("dyadicExpr", "index_of", vec![leaf("v_string", "éa"), leaf("v_string", "a")]);
    assert_eq!(value(&e, &m), pair("v_decimal", "2"));
    let e = op("dyadicExpr", "index_of", vec![leaf("v_string", "abc"), leaf("v_string", "x")]);
    assert_eq!(value(&e, &m), pair("v_decimal", "-1"));
}

#[test]
fn concat_keeps_the_first_name() {
    let m = MPMatching::new();
    let e = op("dyadicExpr", "concat", vec![leaf("v_string", "ab"), leaf("v_decimal", "12")]);
    assert_eq!(value(&e, &m), pair("v_string", "ab12"));
}

#[test]
fn substring_counts_characters() {
    let m = MPMatching::new();
    let e = op("triadicExpr", "substring", vec![leaf("v_string", "hello"), leaf("v_decimal", "1"), leaf("v_decimal", "3")]);
    assert_eq!(value(&e, &m), pair("v_string", "ell"));
    let e = op("triadicExpr", "substring", vec![leaf("v_string", "hello"), leaf("v_decimal", "+4"), leaf("v_decimal", "10")]);
    assert_eq!(value(&e, &m), pair("v_string", "o"));
    let e = op("triadicExpr", "substring", vec![leaf("v_string", "hello"), leaf("v_decimal", "10"), leaf("v_decimal", "2")]);
    assert_eq!(value(&e, &m), pair("v_string", ""));
    let e = op("triadicExpr", "substring", vec![leaf("v_string", "hello"), leaf("v_string", "x"), leaf("v_decimal", "2")]);
    assert_eq!(value(&e, &m), None);
    let e = op("triadicExpr", "substring", vec![leaf("v_string", "hello"), leaf("v_decimal", "99999999999999999999999"), leaf("v_decimal", "2")]);
    assert_eq!(value(&e, &m), None);
}

#[test]
fn replace_takes_occurrences_from_the_left() {
    let m = MPMatching::new();
    let e = op("triadicExpr", "replace", vec![leaf("v_string", "banana"), leaf("v_string", "an"), leaf("v_string", "AN")]);
    assert_eq!(value(&e, &m), pair("v_string", "bANANa"));
    let e = op("triadicExpr", "replace", vec![leaf("v_string", "aaa"), leaf("v_string", "aa"), leaf("v_string", "b")]);
    assert_eq!(value(&e, &m), pair("v_string", "ba"));
    let e = op("triadicExpr", "replace", vec![leaf("v_string", "ab"), leaf("v_string", ""), leaf("v_string", "-")]);
    assert_eq!(value(&e, &m), pair("v_string", "-a-b-"));
}

#[test]
fn variables_stand_for_their_values() {
    let mut lexicon = Lexicon::new();
    let var = lexicon.intern("var", "<X0>", true);
    let zz = lexicon.intern("v_string", "zz", true);
    let mut m = MPMatching::new();
    m.insert(var, zz);
    let e = op("dyadicExpr", "concat", vec![leaf("var", "<X0>"), leaf("v_string", "!")]);
    assert_eq!(value(&e, &m), pair("v_string", "zz!"));
    assert_eq!(value(&leaf("var", "<X1>"), &m), None);
}

#[test]
fn unknown_operators_have_no_value() {
    let m = MPMatching::new();
    assert_eq!(value(&op("monadicExpr", "upper", vec![leaf("v_string", "a")]), &m), None);
    assert_eq!(value(&op("dyadicExpr", "minus", vec![leaf("v_string", "a"), leaf("v_string", "b")]), &m), None);
    assert_eq!(value(&leaf("number", "1"), &m), None);
    assert_eq!(value(&op("triadicExpr", "substring", vec![leaf("v_string", "a")]), &m), None);
}

/// A reader whose numeric expressions are their own value when they are all digits.
struct Literals;

impl FactParser for Literals {
    fn parse_knowledge(&self, _text: &str) -> Result<ParseNode, String> {
        Err("no knowledge".to_string())
    }

    fn parse_fact(&self, _text: &str) -> Option<ParseNode> {
        None
    }

    fn parse_var_range(&self, _text: &str) -> Option<ParseNode> {
        None
    }

    fn eval_num(&self, expr: &str, _matching: &MPMatching) -> Option<String> {
        if !expr.is_empty() && expr.chars().all(|c| c.is_ascii_digit()) {
            Some(expr.to_string())
        } else {
            None
        }
    }

    fn check_conditions(&self, _source: &str, _matching: &MPMatching) -> Option<bool> {
        None
    }
}

fn bound(parser: &mut MPParser<Literals>, m: &MPMatching<'static>, var: &str) -> Option<(String, String)> {
    let key = parser.lexicon.intern("var", var, true);
    m.get(key).map(|s| (s.name.clone(), s.text.clone()))
}

fn views(source: &str) -> Option<Vec<(bool, String, String)>> {
    read_transforms(source).map(|v| v.into_iter().map(|t| (t.numeric, t.var, t.expr)).collect())
}

fn view(numeric: bool, var: &str, expr: &str) -> (bool, String, String) {
    (numeric, var.to_string(), expr.to_string())
}

#[test]
fn transforms_are_read_up_to_each_separator() {
    assert_eq!(
        views("<X1> = 42 ;  <__X2> := \"ab\";<X3>=1+2"),
        Some(vec![view(true, "<X1>", "42 "), view(false, "<__X2>", "\"ab\""), view(true, "<X3>", "1+2")])
    );
    assert_eq!(views("<X1> = 1; nonsense"), Some(vec![view(true, "<X1>", "1")]));
    assert_eq!(views("<X1> := "), None);
    assert_eq!(views("<Y1> = 1"), None);
    assert_eq!(views("<X> = 1"), None);
    assert_eq!(views(" <X1> = 1"), None);
}

#[test]
fn transforms_bind_their_variables_in_turn() {
    let mut parser = MPParser::new(Literals);
    let x0 = parser.lexicon.intern("var", "<X0>", true);
    let kept = parser.lexicon.intern("v_string", "kept", true);
    let mut m = MPMatching::new();
    m.insert(x0, kept);
    let r = TParser::new()
        .process_transforms(&mut parser, "<X1> = 42; <X2> := 'ab'; <X1> := 'cd'", m)
        .expect("bindings");
    assert_eq!(r.len(), 3);
    assert_eq!(bound(&mut parser, &r, "<X0>"), pair("v_string", "kept"));
    assert_eq!(bound(&mut parser, &r, "<X1>"), pair("v_string", "'cd'"));
    assert_eq!(bound(&mut parser, &r, "<X2>"), pair("v_string", "'ab'"));
}

#[test]
fn a_number_transform_binds_a_decimal() {
    let mut parser = MPParser::new(Literals);
    let r = TParser::new().process_transforms(&mut parser, "<X1> = 7", MPMatching::new()).expect("bindings");
    assert_eq!(bound(&mut parser, &r, "<X1>"), pair("v_decimal", "7"));
}

#[test]
fn what_is_no_transform_gives_nothing() {
    let mut parser = MPParser::new(Literals);
    assert!(TParser::new().process_transforms(&mut parser, "<X1> + 7", MPMatching::new()).is_none());
    assert!(TParser::new().process_transforms(&mut parser, "<X1> =", MPMatching::new()).is_none());
    assert!(TParser::new().process_transforms(&mut parser, "<X1> = x", MPMatching::new()).is_none());
}

#[test]
fn no_transforms_keep_the_matching() {
    let mut parser = MPParser::new(Literals);
    let x0 = parser.lexicon.intern("var", "<X0>", true);
    let kept = parser.lexicon.intern("v_string", "kept", true);
    let mut m = MPMatching::new();
    m.insert(x0, kept);
    let r = TParser::new().apply_transforms(&mut parser, &vec![], m).expect("bindings");
    assert_eq!(r.len(), 1);
    assert_eq!(bound(&mut parser, &r, "<X0>"), pair("v_string", "kept"));
}

fn text_value(source: &str, m: &MPMatching<'static>) -> Option<(String, String)> {
    let mut parser = MPParser::new(Literals);
    TSParser::new().compile(&mut parser, source, m).map(|s| (s.name.clone(), s.text.clone()))
}

#[test]
fn string_expressions_are_read_from_text() {
    let mut parser = MPParser::new(Literals);
    let x1 = parser.lexicon.intern("var", "<X1>", true);
    let cd = parser.lexicon.intern("v_string", "'cd'", true);
    let x2 = parser.lexicon.intern("var", "<X2>", true);
    let c = parser.lexicon.intern("v_string", "c", true);
    let x3 = parser.lexicon.intern("var", "<X3>", true);
    let x = parser.lexicon.intern("v_string", "x", true);
    let mut m = MPMatching::new();
    m.insert(x1, cd);
    m.insert(x2, c);
    m.insert(x3, x);
    assert_eq!(text_value("concat('ab', <X1>)", &m), pair("v_string", "'ab''cd'"));
    assert_eq!(text_value("concat ( 'ab' ,\t<X1> ) and more", &m), pair("v_string", "'ab''cd'"));
    assert_eq!(text_value("len('abc')", &m), pair("v_decimal", "5"));
    assert_eq!(text_value("substring('hello', 1, 3)", &m), pair("v_string", "hel"));
    assert_eq!(text_value("replace(<X1>, <X2>, <X3>)", &m), pair("v_string", "'xd'"));
    assert_eq!(text_value("replace(<X1>, 'c', 'x')", &m), pair("v_string", "'cd'"));
    assert_eq!(text_value("index_of(<X1>, <X2>)", &m), pair("v_decimal", "1"));
    assert_eq!(text_value("index_of('abc', 'c')", &m), pair("v_decimal", "-1"));
    assert_eq!(text_value("-12.5", &m), pair("v_decimal", "-12.5"));
    assert_eq!(text_value("<X1>", &m), pair("v_string", "'cd'"));
}

#[test]
fn string_expressions_without_a_value_give_nothing() {
    let m = MPMatching::new();
    assert_eq!(text_value("len(<X9>)", &m), None);
    assert_eq!(text_value("upper('a')", &m), None);
    assert_eq!(text_value(" len('a')", &m), None);
    assert_eq!(text_value("len('a'", &m), None);
    assert_eq!(text_value("'open", &m), None);
    assert_eq!(text_value("concat('a')", &m), None);
    assert_eq!(text_value("substring('abc', 'x', 1)", &m), None);
    assert_eq!(text_value("", &m), None);
}

#[test]
fn string_transforms_see_the_bindings_before_them() {
    let mut parser = MPParser::new(Literals);
    let r = TParser::new()
        .process_transforms(&mut parser, "<X1> := concat('a', 'b'); <X2> := len(<X1>)", MPMatching::new())
        .expect("bindings");
    assert_eq!(r.len(), 2);
    assert_eq!(bound(&mut parser, &r, "<X1>"), pair("v_string", "'a''b'"));
    assert_eq!(bound(&mut parser, &r, "<X2>"), pair("v_decimal", "6"));
    assert!(TParser::new().process_transforms(&mut parser, "<X1> := len(<X2>)", MPMatching::new()).is_none());
}
