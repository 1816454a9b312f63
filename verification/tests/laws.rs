use mixfix::expr::Expr;
use mixfix::fixity::{Associativity, Fixity};
use mixfix::graph::PrecedenceGraph;
use mixfix::operator::Operator;
use mixfix::parser::{parse_expr, ParseError};
use petgraph::graph::{DiGraph, NodeIndex};

fn op(fixity: Fixity, pattern: &str) -> Operator {
    Operator { fixity, pattern: pattern.into() }
}

/// A small language: atoms and brackets bind tightest, then negation and
/// implication, then sums and a postfix `!`, and a non-associative equality
/// and a conditional bind loosest.
fn language() -> (DiGraph<Vec<Operator>, ()>, Vec<NodeIndex>) {
    let mut g = DiGraph::new();
    let atom = g.add_node(vec![
        op(Fixity::Closed, "•"),
        op(Fixity::Closed, "x"),
        op(Fixity::Closed, "( _ )"),
    ]);
    let arrow = g.add_node(vec![
        op(Fixity::Prefix, "¬ _"),
        op(Fixity::Infix(Associativity::Right), "_ → _"),
    ]);
    let sum = g.add_node(vec![
        op(Fixity::Infix(Associativity::Left), "_ + _"),
        op(Fixity::Postfix, "_ !"),
    ]);
    let eq = g.add_node(vec![
        op(Fixity::Infix(Associativity::Non), "_ = _"),
        op(Fixity::Prefix, "if _ then _"),
        op(Fixity::Prefix, "if _ then _ else _"),
    ]);
    g.add_edge(arrow, atom, ());
    g.add_edge(sum, arrow, ());
    g.add_edge(eq, sum, ());
    (g, vec![atom, arrow, sum, eq])
}

/// The tokens that the expression is written with, from left to right.
fn words(e: &Expr, out: &mut Vec<String>) {
    let groups = e.operator.pattern.backbone();
    let mut args = e.args.iter();
    if matches!(e.operator.fixity, Fixity::Postfix | Fixity::Infix(_)) {
        words(args.next().unwrap(), out);
    }
    for (i, group) in groups.iter().enumerate() {
        if i > 0 {
            words(args.next().unwrap(), out);
        }
        out.extend(group.iter().cloned());
    }
    if matches!(e.operator.fixity, Fixity::Prefix | Fixity::Infix(_)) {
        words(args.next().unwrap(), out);
    }
    assert!(args.next().is_none());
}

/// The precedence at which the graph has the operator.
fn level(g: &DiGraph<Vec<Operator>, ()>, o: &Operator) -> NodeIndex {
    g.all()
        .into_iter()
        .find(|&p| g.ops(p, o.fixity).iter().any(|x| x.pattern.0 == o.pattern.0))
        .unwrap()
}

/// Whether beside every operator there stands only what binds tighter or a
/// further link of the same chain.
fn obeys(g: &DiGraph<Vec<Operator>, ()>, e: &Expr) -> bool {
    let p = level(g, &e.operator);
    let tighter = |a: &Expr| g.succ(p).contains(&level(g, &a.operator));
    let link = |a: &Expr, right: bool| {
        level(g, &a.operator) == p
            && match a.operator.fixity {
                Fixity::Prefix | Fixity::Infix(Associativity::Right) => right,
                Fixity::Postfix | Fixity::Infix(Associativity::Left) => !right,
                _ => false,
            }
    };
    let first = e.args.first();
    let last = e.args.last();
    let here = match e.operator.fixity {
        Fixity::Closed => true,
        Fixity::Prefix => tighter(last.unwrap()) || link(last.unwrap(), true),
        Fixity::Postfix => tighter(first.unwrap()) || link(first.unwrap(), false),
        Fixity::Infix(Associativity::Non) => tighter(first.unwrap()) && tighter(last.unwrap()),
        Fixity::Infix(Associativity::Right) => {
            tighter(first.unwrap()) && (tighter(last.unwrap()) || link(last.unwrap(), true))
        }
        Fixity::Infix(Associativity::Left) => {
            (tighter(first.unwrap()) || link(first.unwrap(), false)) && tighter(last.unwrap())
        }
    };
    here && e.args.iter().all(|a| obeys(g, a))
}

fn inputs() -> Vec<Vec<&'static str>> {
    vec![
        vec!["•"],
        vec!["(", "x", ")"],
        vec!["x", "!", "!"],
        vec!["¬", "¬", "x"],
        vec!["x", "→", "¬", "•", "→", "x"],
        vec!["x", "+", "•", "!", "+", "x"],
        vec!["x", "+", "¬", "x", "=", "•", "!"],
        vec!["if", "x", "then", "x", "+", "x"],
        vec!["if", "x", "then", "x", "else", "x"],
        vec!["(", "x", "=", "x", ")", "→", "x"],
    ]
}

#[test]
fn every_parse_is_well_formed() {
    let (g, _) = language();
    for input in inputs() {
        let e = parse_expr(&g, &input).unwrap();
        assert!(e.well_formed(), "{:?}", input);
    }
}

#[test]
fn every_parse_is_written_with_the_input() {
    let (g, _) = language();
    for input in inputs() {
        let e = parse_expr(&g, &input).unwrap();
        let mut out = Vec::new();
        words(&e, &mut out);
        assert_eq!(out, input);
    }
}

#[test]
fn every_parse_obeys_the_discipline() {
    let (g, _) = language();
    for input in inputs() {
        let e = parse_expr(&g, &input).unwrap();
        assert!(obeys(&g, &e), "{:?}", input);
    }
}

#[test]
fn every_parse_is_repeatable() {
    let (g, _) = language();
    for input in inputs() {
        let a = parse_expr(&g, &input).unwrap();
        let b = parse_expr(&g, &input).unwrap();
        assert_eq!(format!("{:?}", a), format!("{:?}", b));
    }
    let bad = ["x", "=", "x", "=", "x"];
    assert_eq!(parse_expr(&g, &bad).unwrap_err(), parse_expr(&g, &bad).unwrap_err());
}

#[test]
fn dangling_else_goes_to_the_longest_match() {
    let (g, _) = language();
    let input = ["if", "x", "then", "x", "else", "x"];
    let e = parse_expr(&g, &input).unwrap();
    assert_eq!(e.args.len(), 3);
}

#[test]
fn looser_operator_is_no_argument() {
    let (g, _) = language();
    let err = parse_expr(&g, &["if", "x", "then", "x", "=", "x"]).unwrap_err();
    assert_eq!(err, ParseError::UnparsedInput(&["=", "x"]));
    let err = parse_expr(&g, &["x", "+"]).unwrap_err();
    assert_eq!(err, ParseError::UnparsedInput(&["+"]));
}
