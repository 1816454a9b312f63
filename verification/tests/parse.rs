use mixfix::combinator::Tok;
use mixfix::expr::Expr;
use mixfix::fixity::{Associativity, Fixity};
use mixfix::graph::PrecedenceGraph;
use mixfix::operator::{Operator, OperatorPattern};
use mixfix::parser::{parse_expr, ParseError};
use petgraph::graph::DiGraph;
use std::collections::HashMap;

fn op(fixity: Fixity, pattern: &str) -> Operator {
    Operator { fixity, pattern: pattern.into() }
}

/// The name parts of the operator, joined by `_`, and the arguments in
/// brackets behind them.
fn show(e: &Expr) -> String {
    let name: Vec<String> = e.operator.pattern.0.iter().map(|group| group.join(" ")).collect();
    let args: Vec<String> = e.args.iter().map(show).collect();
    format!("{}[{}]", name.join("_"), args.join(","))
}

#[test]
fn test_backbone() {
    let op: OperatorPattern = "__a__b__".into();
    println!("{:?}", op);
    let b = op.backbone();
    println!("{:?}", b);
}

#[test]
fn test_tok() {
    let input = [":"];
    let (toks, ()) = Tok(":").p(&input).unwrap();
    assert_eq!(toks.len(), 0);
}

fn simple_graph() -> impl PrecedenceGraph {
    let atom = Operator { fixity: Fixity::Closed, pattern: "•".into() };
    let plus = Operator { fixity: Fixity::Infix(Associativity::Left), pattern: "_+_".into() };
    let well_typed = Operator { fixity: Fixity::Postfix, pattern: "_⊢_:".into() };
    let mut g = DiGraph::new();
    let a = g.add_node(vec![atom]);
    let pl = g.add_node(vec![plus]);
    let wt = g.add_node(vec![well_typed.clone()]);
    g.add_edge(pl, a, ());
    g.add_edge(wt, a, ());
    g.add_edge(wt, pl, ());
    g
}

#[test]
fn test_simple_parse() {
    let input: Vec<_> = "•+•⊢•:".chars().map(|c| c.to_string()).collect();
    let input: Vec<_> = input.iter().map(|i| i.as_str()).collect();
    println!("{:?}", input);
    let expr = parse_expr(&simple_graph(), &input).unwrap();
    println!("{:#?}", expr);
    assert!(expr.well_formed());
}

#[test]
fn test_unexpected_token() {
    let input = vec!["abc"];
    let err = parse_expr(&simple_graph(), &input).unwrap_err();
    assert_eq!(ParseError::UnexpectedToken("abc"), err);
}

fn apply_graph() -> impl PrecedenceGraph {
    let mut g = HashMap::new();
    let a = Operator { fixity: Fixity::Closed, pattern: "a".into() };
    let b = Operator { fixity: Fixity::Closed, pattern: "b".into() };
    let app = Operator { fixity: Fixity::Infix(Associativity::Left), pattern: "_ _".into() };
    g.insert(1, vec![a, b]);
    g.insert(0, vec![app]);
    g
}

#[test]
fn test_apply() {
    let input = vec!["a", "b"];
    let expr = parse_expr(&apply_graph(), &input).unwrap();
    println!("{:#?}", expr);
}

fn atom_graph() -> DiGraph<Vec<Operator>, ()> {
    let mut g = DiGraph::new();
    g.add_node(vec![op(Fixity::Closed, "•")]);
    g
}

#[test]
fn atom_is_read() {
    let e = parse_expr(&atom_graph(), &["•"]).unwrap();
    assert_eq!(show(&e), "•[]");
    assert!(e.well_formed());
}

#[test]
fn atom_rejects_other_token() {
    let err = parse_expr(&atom_graph(), &["x"]).unwrap_err();
    assert_eq!(err, ParseError::UnexpectedToken("x"));
}

#[test]
fn atom_rejects_empty_input() {
    let input: [&str; 0] = [];
    let err = parse_expr(&atom_graph(), &input).unwrap_err();
    assert_eq!(err, ParseError::UnexpectedEndOfInput);
}

#[test]
fn unparsed_tail_is_rejected() {
    let input = ["•", "•"];
    let err = parse_expr(&atom_graph(), &input).unwrap_err();
    assert_eq!(err, ParseError::UnparsedInput(&["•"]));
}

fn plus_graph() -> DiGraph<Vec<Operator>, ()> {
    let mut g = DiGraph::new();
    let atom = g.add_node(vec![op(Fixity::Closed, "•")]);
    let sum = g.add_node(vec![op(Fixity::Infix(Associativity::Left), "_+_")]);
    g.add_edge(sum, atom, ());
    g
}

#[test]
fn plus_folds_to_the_left() {
    let e = parse_expr(&plus_graph(), &["•", "+", "•", "+", "•"]).unwrap();
    assert_eq!(show(&e), "_+_[_+_[•[],•[]],•[]]");
    assert!(e.well_formed());
}

#[test]
fn single_plus() {
    let e = parse_expr(&plus_graph(), &["•", "+", "•"]).unwrap();
    assert_eq!(show(&e), "_+_[•[],•[]]");
    assert!(e.well_formed());
}

#[test]
fn postfix_judgment_over_plus() {
    let input = ["•", "+", "•", "⊢", "•", ":"];
    let e = parse_expr(&simple_graph(), &input).unwrap();
    assert_eq!(show(&e), "_⊢_:[_+_[•[],•[]],•[]]");
    assert!(e.well_formed());
}

fn if_graph() -> DiGraph<Vec<Operator> , ()> {
    let mut g = DiGraph::new();
    let atom = g.add_node(vec![op(Fixity::Closed, "•")]);
    let ite = g.add_node(vec![op(Fixity::Prefix, "i _ t _"), op(Fixity::Prefix, "i _ t _ e _")]);
    g.add_edge(ite, atom, ());
    g
}

#[test]
fn longest_prefix_operator_wins() {
    let e = parse_expr(&if_graph(), &["i", "•", "t", "•", "e", "•"]).unwrap();
    assert_eq!(show(&e), "i_t_e_[•[],•[],•[]]");
    assert!(e.well_formed());
}

#[test]
fn shorter_prefix_operator_alone() {
    let e = parse_expr(&if_graph(), &["i", "•", "t", "•"]).unwrap();
    assert_eq!(show(&e), "i_t_[•[],•[]]");
    assert!(e.well_formed());
}

#[test]
fn juxtaposition_applies() {
    let e = parse_expr(&apply_graph(), &["a", "b"]).unwrap();
    assert_eq!(show(&e), "__[a[],b[]]");
    assert!(e.well_formed());
}

fn arrow_graph() -> DiGraph<Vec<Operator>, ()> {
    let mut g = DiGraph::new();
    let atom = g.add_node(vec![op(Fixity::Closed, "•"), op(Fixity::Closed, "( _ )")]);
    let arrow = g.add_node(vec![
        op(Fixity::Infix(Associativity::Right), "_ → _"),
        op(Fixity::Prefix, "¬ _"),
    ]);
    let eq = g.add_node(vec![op(Fixity::Infix(Associativity::Non), "_ = _")]);
    g.add_edge(arrow, atom, ());
    g.add_edge(eq, arrow, ());
    g
}

#[test]
fn arrow_folds_to_the_right() {
    let e = parse_expr(&arrow_graph(), &["•", "→", "•", "→", "•"]).unwrap();
    assert_eq!(show(&e), "_→_[•[],_→_[•[],•[]]]");
    assert!(e.well_formed());
}

#[test]
fn prefix_chain_with_infix() {
    let e = parse_expr(&arrow_graph(), &["¬", "•", "→", "¬", "•"]).unwrap();
    assert_eq!(show(&e), "¬_[_→_[•[],¬_[•[]]]]");
    assert!(e.well_formed());
}

#[test]
fn non_associative_takes_tighter_arguments() {
    let e = parse_expr(&arrow_graph(), &["•", "→", "•", "=", "¬", "•"]).unwrap();
    assert_eq!(show(&e), "_=_[_→_[•[],•[]],¬_[•[]]]");
    assert!(e.well_formed());
}

#[test]
fn non_associative_does_not_chain() {
    let input = ["•", "=", "•", "=", "•"];
    let err = parse_expr(&arrow_graph(), &input).unwrap_err();
    assert_eq!(err, ParseError::UnparsedInput(&["=", "•"]));
}

#[test]
fn closed_operator_holds_any_expression() {
    let e = parse_expr(&arrow_graph(), &["(", "•", "=", "•", ")"]).unwrap();
    assert_eq!(show(&e), "(_)[_=_[•[],•[]]]");
    assert!(e.well_formed());
}

#[test]
fn parsing_twice_gives_the_same() {
    let input = ["¬", "•", "→", "(", "•", ")"];
    let g = arrow_graph();
    let a = parse_expr(&g, &input).unwrap();
    let b = parse_expr(&g, &input).unwrap();
    assert_eq!(show(&a), show(&b));
}

#[test]
fn empty_graph_has_no_alternative() {
    let g: DiGraph<Vec<Operator>, ()> = DiGraph::new();
    let err = parse_expr(&g, &["•"]).unwrap_err();
    assert_eq!(err, ParseError::EmptyOpts);
}
