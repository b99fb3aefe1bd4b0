use twistypuzzle::error::Error;
use twistypuzzle::num::fraction::Fraction;
use twistypuzzle::parse::{
    decode_uri_component, generate_expr, generate_query, generate_shape, parse_expr, parse_query,
    parse_shape, split_text, tokenize, Expr, PuzzleRecipe, Shape, Token,
};

fn written(s: &str) -> String {
    generate_expr(&parse_expr(s).unwrap(), 10).unwrap()
}

fn is_parse_error<T>(r: Result<T, Error>) -> bool {
    matches!(r, Err(Error::Parse(_)))
}

fn num(n: i64, d: i64) -> Expr {
    Expr { op: "num".to_string(), args: Vec::new(), val: Some(Fraction::of(n, d)) }
}

fn op(o: &str, args: Vec<Expr>) -> Expr {
    Expr { op: o.to_string(), args, val: None }
}

#[test]
fn tokens_are_symbols_names_and_numbers() {
    let ts = tokenize(" 2.5*phi_1 ^(x)").unwrap();
    assert_eq!(ts.len(), 7);
    match &ts[0] {
        Token::Num(f) => assert_eq!(f.to_string(), "5/2"),
        _ => panic!("expected a number"),
    }
    assert!(matches!(ts[1], Token::Sym('*')));
    match &ts[2] {
        Token::Ident(s) => assert_eq!(s, "phi_1"),
        _ => panic!("expected a name"),
    }
    assert!(matches!(ts[3], Token::Sym('^')));
    assert!(matches!(ts[4], Token::Sym('(')));
    assert!(matches!(ts[6], Token::Sym(')')));
}

#[test]
fn tokenizer_refuses_stray_characters() {
    assert!(is_parse_error(tokenize("1 # 2")));
    assert!(is_parse_error(tokenize("  ")));
    assert_eq!(tokenize("1 ").unwrap().len(), 1);
    assert!(is_parse_error(tokenize("99999999999999999999")));
    assert_eq!(tokenize("").unwrap().len(), 0);
}

#[test]
fn operators_bind_by_precedence() {
    let x = parse_expr("1+2*3").unwrap();
    assert_eq!(x.op, "+");
    assert_eq!(x.args[0].op, "num");
    assert_eq!(x.args[1].op, "*");
    let y = parse_expr("2^3^4").unwrap();
    assert_eq!(y.op, "^");
    assert_eq!(y.args[1].op, "^");
    let z = parse_expr("-x^2").unwrap();
    assert_eq!(z.op, "neg");
    assert_eq!(z.args[0].op, "^");
    assert_eq!(z.args[0].args[0].op, "x");
    assert_eq!(z.args[0].args[0].args.len(), 0);
    let f = parse_expr("sqrt(5)").unwrap();
    assert_eq!(f.op, "sqrt");
    assert_eq!(f.args.len(), 1);
}

#[test]
fn malformed_expressions_are_parse_errors() {
    assert!(is_parse_error(parse_expr("")));
    assert!(is_parse_error(parse_expr("1+")));
    assert!(is_parse_error(parse_expr("(1+2")));
    assert!(is_parse_error(parse_expr("1 2")));
    assert!(is_parse_error(parse_expr(")")));
}

#[test]
fn expressions_are_written_with_the_parentheses_they_need() {
    assert_eq!(written("(1+2)*3"), "(1+2)*3");
    assert_eq!(written("1-(2-3)"), "1-(2-3)");
    assert_eq!(written("(1-2)-3"), "1-2-3");
    assert_eq!(written("2^3^4"), "2^3^4");
    assert_eq!(written("(2^3)^4"), "(2^3)^4");
    assert_eq!(written("-(1+2)"), "-(1+2)");
    assert_eq!(written("sqrt(1+2)/2"), "sqrt(1+2)/2");
    assert_eq!(written(" 0.25 "), "1/4");
    assert_eq!(generate_expr(&parse_expr("1+2").unwrap(), 5).unwrap(), "(1+2)");
    let neg = op("neg", vec![num(3, 1)]);
    assert_eq!(generate_expr(&neg, 1).unwrap(), "(-3)");
    let undefined = Expr { op: "num".to_string(), args: Vec::new(), val: None };
    assert_eq!(generate_expr(&undefined, 10).unwrap(), "undefined");
}

#[test]
fn an_unknown_operation_cannot_be_written() {
    let x = op("cbrt", vec![num(2, 1)]);
    match generate_expr(&x, 10) {
        Err(Error::Parse(m)) => assert_eq!(m, "generateExpr: invalid operation 'cbrt'"),
        _ => panic!("expected a parse error"),
    }
    let y = op("+", vec![x, num(1, 1)]);
    assert!(is_parse_error(generate_expr(&y, 10)));
}

#[test]
fn text_splits_at_every_separator() {
    assert_eq!(split_text("a,b,,c", ','), vec!["a", "b", "", "c"]);
    assert_eq!(split_text("", ','), vec![""]);
    assert_eq!(split_text("abc", ','), vec!["abc"]);
}

#[test]
fn shapes_are_polyhedra_or_planes() {
    match parse_shape("C$1").unwrap() {
        Shape::Polyhedron { name, d } => {
            assert_eq!(name, "C");
            assert_eq!(generate_expr(&d, 10).unwrap(), "1");
        },
        _ => panic!("expected a polyhedron"),
    }
    match parse_shape("1,0,0$1/3").unwrap() {
        Shape::Plane { a, b, c, d } => {
            assert_eq!(generate_expr(&a, 10).unwrap(), "1");
            assert_eq!(generate_expr(&b, 10).unwrap(), "0");
            assert_eq!(generate_expr(&c, 10).unwrap(), "0");
            assert_eq!(generate_expr(&d, 10).unwrap(), "1/3");
        },
        _ => panic!("expected a plane"),
    }
    assert!(is_parse_error(parse_shape("C")));
    assert!(is_parse_error(parse_shape("C$1$2")));
    assert!(is_parse_error(parse_shape("1,+,0$1")));
    assert_eq!(generate_shape(&parse_shape("1,0,0$1/3").unwrap()).unwrap(), "1,0,0$1/3");
    assert_eq!(generate_shape(&parse_shape("tT$sqrt(2)").unwrap()).unwrap(), "tT$sqrt(2)");
}

#[test]
fn escapes_are_decoded() {
    assert_eq!(decode_uri_component("%41b%2bc").unwrap(), "Ab+c");
    assert!(is_parse_error(decode_uri_component("%+F")));
    assert!(matches!(decode_uri_component("abc%4"), Err(Error::Parse(m)) if m == "URI malformed"));
    assert_eq!(decode_uri_component("%C3%A9").unwrap(), "é");
    assert_eq!(decode_uri_component("plain").unwrap(), "plain");
    assert!(is_parse_error(decode_uri_component("%4")));
    assert!(is_parse_error(decode_uri_component("%zz")));
    assert!(is_parse_error(decode_uri_component("%C3")));
}

#[test]
fn queries_name_the_shell_and_the_cuts() {
    let p = parse_query("?shell=C$1&cut=1,0,0$1/3&cut=O%241&size=3").unwrap();
    assert_eq!(p.shell.len(), 1);
    assert_eq!(p.cuts.len(), 2);
    assert_eq!(generate_query(&p).unwrap(), "?shell=C$1&cut=1,0,0$1/3&cut=O$1");
    let empty = parse_query("").unwrap();
    assert_eq!(empty.shell.len() + empty.cuts.len(), 0);
    assert_eq!(generate_query(&empty).unwrap(), "?");
    assert!(is_parse_error(parse_query("shell=C$1")));
    assert!(is_parse_error(parse_query("?shell")));
    assert!(is_parse_error(parse_query("?shell=C")));
}

#[test]
fn a_written_recipe_reads_back_the_same() {
    let p = PuzzleRecipe {
        shell: vec![Shape::Polyhedron { name: "D".to_string(), d: num(1, 1) }],
        cuts: vec![Shape::Plane { a: num(1, 1), b: num(-1, 2), c: op("neg", vec![num(2, 1)]), d: num(0, 1) }],
    };
    let q = generate_query(&p).unwrap();
    assert_eq!(q, "?shell=D$1&cut=1,-1/2,-2$0");
    let back = parse_query(&q).unwrap();
    assert_eq!(generate_query(&back).unwrap(), q);
}
