use diamond::render_target::ast::{Arg, Call, Expression, LiteralValue, PathElement, PathExpression, PathWord};
use diamond::render_target::parser::{
    call, elem, enum_elem, expression, literal_number, literal_value, partial, path, template, word,
};

fn chars(s: &str) -> Vec<char> {
    s.chars().collect()
}

fn parse_all<T>(f: fn(&[char], usize) -> Option<(usize, T)>, s: &str) -> T {
    let v = chars(s);
    let (end, result) = f(&v, 0).expect("parsed");
    assert_eq!(end, v.len(), "Incomplete parse");
    result
}

fn float_of(v: &LiteralValue) -> f64 {
    match v {
        LiteralValue::Float(text) => text.parse::<f64>().unwrap(),
        other => panic!("not a float: {:?}", other),
    }
}

#[test]
fn test_number() {
    assert_eq!(float_of(&parse_all(literal_number, "-3.14e-4")), -0.000_314);
    assert_eq!(parse_all(literal_number, "0"), LiteralValue::Integer(0));
    assert_eq!(parse_all(literal_number, "124"), LiteralValue::Integer(124));
}

#[test]
fn test_literal() {
    assert_eq!(float_of(&parse_all(literal_value, "-3.14e-4")), -0.000_314);
    assert_eq!(parse_all(literal_value, "0"), LiteralValue::Integer(0));
    assert_eq!(parse_all(literal_value, "124"), LiteralValue::Integer(124));
    assert_eq!(parse_all(literal_value, r#""""#), LiteralValue::Str(String::new()));
    assert_eq!(parse_all(literal_value, r#"''"#), LiteralValue::Str(String::new()));
    assert_eq!(parse_all(literal_value, r#""hello""#), LiteralValue::Str(String::from("hello")));
    assert_eq!(parse_all(literal_value, r#"'hello'"#), LiteralValue::Str(String::from("hello")));
}

#[test]
fn test_call() {
    assert_eq!(
        parse_all(call, "sin()"),
        Call { function: "sin".to_owned(), args: vec![], named_args: vec![] }
    );
    let log = parse_all(call, "log(2,32.4)");
    assert_eq!(log.function, "log");
    assert_eq!(log.args.len(), 2);
    assert_eq!(log.args[0], Arg::Literal(LiteralValue::Integer(2)));
    match &log.args[1] {
        Arg::Literal(v) => assert_eq!(float_of(v), 32.4),
        other => panic!("unexpected {:?}", other),
    }
    assert!(log.named_args.is_empty());
    assert_eq!(
        parse_all(call, r#"A(1,false,x=2,y="hello")"#),
        Call {
            function: "A".to_owned(),
            args: vec![
                Arg::Literal(LiteralValue::Integer(1)),
                Arg::Literal(LiteralValue::Boolean(false)),
            ],
            named_args: vec![
                ("x".to_owned(), Arg::Literal(LiteralValue::Integer(2))),
                ("y".to_owned(), Arg::Literal(LiteralValue::Str(String::from("hello")))),
            ],
        }
    );
    assert_eq!(
        parse_all(call, r#"B(x=2,y="hello",z=None)"#),
        Call {
            function: "B".to_owned(),
            args: vec![],
            named_args: vec![
                ("x".to_owned(), Arg::Literal(LiteralValue::Integer(2))),
                ("y".to_owned(), Arg::Literal(LiteralValue::Str(String::from("hello")))),
                ("z".to_owned(), Arg::Literal(LiteralValue::Null)),
            ],
        }
    );
}

#[test]
fn test_template() {
    println!("Parsed {:#?}", parse_all(template, "template(emea.events\\[2019\\].clicks)"));
    println!("Parsed {:#?}", parse_all(template, "template(emea.events\\[2019\\].clicks,skip_empty=true)"));
    println!("Parsed {:#?}", parse_all(template, "template(average(emea.events\\[2019\\].clicks))"));
    println!("Parsed {:#?}", parse_all(template, "template(average(emea.events\\[2019\\].clicks,n=7))"));
    println!(
        "Parsed {:#?}",
        parse_all(template, "template(average(emea.events\\[2019\\].clicks,n=7),skip_empty=false)")
    );
    println!(
        "Parsed {:#?}",
        parse_all(
            template,
            "template(average(emea.events\\[2019\\].clicks,n=7),skip_empty=false,none=none)"
        )
    );
}

#[test]
fn test_partial_path_element() {
    assert_eq!(parse_all(partial, "a").as_str(), "a");
    assert_eq!(parse_all(partial, "abc").as_str(), "abc");
    assert_eq!(parse_all(partial, "abc\\[de\\]f123").as_str(), "abc[de]f123");
    assert!(partial(&chars(""), 0).is_none());
}

#[test]
fn test_path_element_enum() {
    assert_eq!(
        parse_all(enum_elem, "{a,b,c}"),
        vec!["a".to_string(), "b".to_string(), "c".to_string()]
    );
    assert_eq!(
        parse_all(enum_elem, "{a,ab,abc}"),
        vec!["a".to_string(), "ab".to_string(), "abc".to_string()]
    );
}

#[test]
fn test_path_word_element() {
    let (_, element) = elem(&chars("a"), 0).unwrap();
    assert_eq!(element, PathElement::Partial("a".to_string()));
    let (_, element) = elem(&chars("abc"), 0).unwrap();
    assert_eq!(element, PathElement::Partial("abc".to_string()));
    assert!(elem(&chars(""), 0).is_none());
}

#[test]
fn test_path_word() {
    let (_, w) = word(&chars("a"), 0).unwrap();
    assert_eq!(w, PathWord(vec![PathElement::Partial("a".to_string())]));
    let (_, w) = word(&chars("abc"), 0).unwrap();
    assert_eq!(w, PathWord(vec![PathElement::Partial("abc".to_string())]));
}

#[test]
fn test_path_expression() {
    assert!("a..b".parse::<PathExpression>().is_err());
    assert_eq!(
        "a.b.c".parse::<PathExpression>().unwrap(),
        PathExpression(vec![
            PathWord(vec![PathElement::Partial("a".to_string())]),
            PathWord(vec![PathElement::Partial("b".to_string())]),
            PathWord(vec![PathElement::Partial("c".to_string())]),
        ])
    );
    assert_eq!(parse_all(path, "a.b.c").to_string().as_str(), "a.b.c");
    assert_eq!(parse_all(path, "a.b.[0-9]").to_string().as_str(), "a.b.[0123456789]");
    assert_eq!(parse_all(path, "a.b.[0-9_A-F-]").to_string().as_str(), "a.b.[-0123456789ABCDEF_]");
    assert_eq!(parse_all(path, "a.[cat]").to_string().as_str(), "a.[act]");
    assert_eq!(parse_all(path, "hosts.$hostname.cpu").to_string().as_str(), "hosts.$hostname.cpu");
    assert_eq!(
        "hosts.$hostname.cpu".parse::<PathExpression>().unwrap(),
        PathExpression(vec![
            PathWord(vec![PathElement::Partial("hosts".to_string())]),
            PathWord(vec![PathElement::Variable("hostname".to_string())]),
            PathWord(vec![PathElement::Partial("cpu".to_string())]),
        ])
    );
    assert_eq!(parse_all(path, "alpha.beta.gamma").to_string().as_str(), "alpha.beta.gamma");
    assert_eq!(parse_all(path, "alpha.*.gamma").to_string().as_str(), "alpha.*.gamma");
    assert_eq!(
        parse_all(path, "alpha.*.gamma"),
        PathExpression(vec![
            PathWord(vec![PathElement::Partial("alpha".to_string())]),
            PathWord(vec![PathElement::Asterisk]),
            PathWord(vec![PathElement::Partial("gamma".to_string())]),
        ])
    );
    assert_eq!(
        parse_all(path, "emea.events.clicks{2018,2019}").to_string().as_str(),
        "emea.events.clicks{2018,2019}"
    );
    assert_eq!(
        parse_all(path, r"emea.events\[\]\{\}.clicks{2018,2019}.05").to_string().as_str(),
        "emea.events[]{}.clicks{2018,2019}.05"
    );
}

#[test]
fn test_expression() {
    println!(
        "Parsed {:#?}",
        parse_all(
            expression,
            "template(average(emea.events\\[2019\\].clicks,n=7),skip_empty=false,none=none)|aliasByNode(1)|movingAverage(\"5min\")"
        )
    );
}

#[test]
fn mod_test_from_str() {
    let _ex: Expression = "template(average(emea.events\\[2019\\].clicks,n=7),skip_empty=false,none=none)|aliasByNode(1)|movingAverage(\"5min\")"
        .parse()
        .unwrap();
}

#[test]
fn pathword_to_regex() {
    let first = |s: &str| s.parse::<PathExpression>().unwrap().0[0].to_regex_pattern().unwrap();
    assert_eq!(first("just_a_metric"), "^(just_a_metric)$");
    assert_eq!(first("host*.cpu"), "^(host)(.*?)$");
    assert_eq!(first("east-1[abcd].app.swap_free"), "^(east\\-1)(a|b|c|d)$");
    assert_eq!(first("east-[1-3][a-d].app.swap_free"), "^(east\\-)(1|2|3)(a|b|c|d)$");
    assert_eq!(first("region-{ohio,virginia}.app.swap_free"), "^(region\\-)(ohio|virginia)$");
}

#[test]
fn path_word_matches_its_regex() {
    let expr = "host*.cpu".parse::<PathExpression>().unwrap();
    assert!(expr.0[0].matches("host01"));
    assert!(!expr.0[0].matches("web01"));
    let variable = "$name".parse::<PathExpression>().unwrap();
    assert!(!variable.0[0].matches("name"));
    assert!(variable.0[0].to_regex_pattern().is_err());
}

#[test]
fn target_parse_error_messages() {
    assert_eq!(
        "a..b".parse::<PathExpression>().unwrap_err(),
        "Unexpected input at position 1."
    );
    assert_eq!(
        ".a".parse::<PathExpression>().unwrap_err(),
        "ERROR the input does not start with a well-formed target"
    );
}

#[test]
fn hand_built_class_is_written_in_order_once() {
    let word = PathWord(vec![
        PathElement::Partial("cpu".to_string()),
        PathElement::OneOf(vec!['c', 'a', 'c', 'b']),
    ]);
    assert_eq!(word.to_regex_pattern().unwrap(), "^(cpu)(a|b|c)$");
    assert_eq!(word.to_string(), "cpu[abc]");
    let path = PathExpression(vec![word, PathWord(vec![PathElement::OneOf(vec!['.', '-'])])]);
    assert_eq!(path.to_string(), "cpu[abc].[-.]");
    assert_eq!(path.0[1].to_regex_pattern().unwrap(), "^(\\-|\\.)$");
}

#[test]
fn nested_paths_hold_their_classes_in_order() {
    let e: Expression = "sum(a.[dcba]x,f(b.[31-2]))".parse().unwrap();
    match e {
        Expression::Call(c) => {
            match &c.args[0] {
                Arg::Expression(Expression::Path(p)) => {
                    assert_eq!(p.0[1].0[0], PathElement::OneOf(vec!['a', 'b', 'c', 'd']));
                    assert_eq!(p.to_string(), "a.[abcd]x");
                }
                _ => panic!("first argument is not a path"),
            }
            match &c.args[1] {
                Arg::Expression(Expression::Call(inner)) => match &inner.args[0] {
                    Arg::Expression(Expression::Path(p)) => {
                        assert_eq!(p.0[1].0[0], PathElement::OneOf(vec!['1', '2', '3']));
                    }
                    _ => panic!("inner argument is not a path"),
                },
                _ => panic!("second argument is not a call"),
            }
        }
        _ => panic!("not a call"),
    }
}
