use either::Either;
use mixfix::combinator::{group, opt, opts, ParseResult, Tok};
use mixfix::digraph::{narrows, parse_dag, without};
use mixfix::error::tail_lt;
use mixfix::expr::Expr;
use mixfix::fixity::{Associativity, Fixity};
use mixfix::graph::{select, PrecedenceGraph};
use mixfix::grammar::Side;
use mixfix::operator::{Operator, OperatorPattern};
use mixfix::parser::{
    backbone, closed, expr, inner, nest, non_assoc, post_left, pre_right, prec, reversed, tighter,
    with_first, with_last, ParseError,
};
use petgraph::graph::{DiGraph, NodeIndex};
use std::collections::HashMap;

fn pattern(groups: &[&[&str]]) -> OperatorPattern {
    OperatorPattern(
        groups.iter().map(|group| group.iter().map(|part| part.to_string()).collect()).collect(),
    )
}

fn op(fixity: Fixity, pattern: &str) -> Operator {
    Operator { fixity, pattern: pattern.into() }
}

fn leaf(name: &str) -> Expr {
    Expr::new(op(Fixity::Closed, name), vec![])
}

fn show(e: &Expr) -> String {
    let name: Vec<String> = e.operator.pattern.0.iter().map(|group| group.join(" ")).collect();
    let args: Vec<String> = e.args.iter().map(show).collect();
    format!("{}[{}]", name.join("_"), args.join(","))
}

#[test]
fn pattern_from_string_splits_at_holes() {
    let p: OperatorPattern = "_+_".into();
    assert_eq!(p.0, vec![vec![], vec!["+".to_string()], vec![]]);
    let p: OperatorPattern = "•".into();
    assert_eq!(p.0, vec![vec!["•".to_string()]]);
    let p: OperatorPattern = "".into();
    assert_eq!(p.0, vec![Vec::<String>::new()]);
}

#[test]
fn pattern_from_string_splits_words_at_white_space() {
    let p: OperatorPattern = "if _ then  _\telse _".into();
    assert_eq!(
        p.0,
        vec![
            vec!["if".to_string()],
            vec!["then".to_string()],
            vec!["else".to_string()],
            vec![],
        ]
    );
    let p: OperatorPattern = "a b _ c".into();
    assert_eq!(p.0, vec![vec!["a".to_string(), "b".to_string()], vec!["c".to_string()]]);
    let p: OperatorPattern = "_ _".into();
    assert_eq!(p.0, vec![Vec::<String>::new(), vec![], vec![]]);
}

#[test]
fn backbone_trims_empty_groups_at_both_ends() {
    let p: OperatorPattern = "__a__b__".into();
    let b = p.backbone();
    assert_eq!(
        b,
        &[vec!["a".to_string()], vec![], vec!["b".to_string()]][..]
    );
}

#[test]
fn backbone_of_pattern_without_name_part_is_empty() {
    let p = pattern(&[&[], &[], &[]]);
    assert_eq!(p.backbone().len(), 0);
    let p = pattern(&[]);
    assert_eq!(p.backbone().len(), 0);
}

#[test]
fn backbone_of_closed_pattern_is_the_pattern() {
    let p = pattern(&[&["["], &["]"]]);
    assert_eq!(p.backbone(), &p.0[..]);
}

#[test]
fn arity_counts_holes_and_open_sides() {
    assert_eq!(op(Fixity::Closed, "•").arity(), 0);
    assert_eq!(op(Fixity::Closed, "[ _ ]").arity(), 1);
    assert_eq!(op(Fixity::Prefix, "i _ t _").arity(), 2);
    assert_eq!(op(Fixity::Prefix, "i _ t _ e _").arity(), 3);
    assert_eq!(op(Fixity::Postfix, "_⊢_:").arity(), 2);
    assert_eq!(op(Fixity::Postfix, "_ !").arity(), 1);
    assert_eq!(op(Fixity::Infix(Associativity::Left), "_+_").arity(), 2);
    assert_eq!(op(Fixity::Infix(Associativity::Non), "_ ? _ : _").arity(), 3);
    assert_eq!(op(Fixity::Infix(Associativity::Left), "_ _").arity(), 2);
}

#[test]
fn takes_agrees_with_arity() {
    let plus = op(Fixity::Infix(Associativity::Left), "_+_");
    assert!(plus.takes(2));
    assert!(!plus.takes(1));
    assert!(!plus.takes(3));
    assert!(op(Fixity::Closed, "•").takes(0));
    assert!(!op(Fixity::Infix(Associativity::Right), "_→_").takes(0));
}

#[test]
fn operator_clone_keeps_fixity_and_pattern() {
    let a = op(Fixity::Prefix, "¬ _");
    let b = a.clone();
    assert_eq!(a.fixity, b.fixity);
    assert_eq!(a.pattern.0, b.pattern.0);
}

#[test]
fn well_formed_checks_every_node() {
    let plus = || op(Fixity::Infix(Associativity::Left), "_+_");
    let good = Expr::new(plus(), vec![leaf("a"), leaf("b")]);
    assert!(good.well_formed());
    let short = Expr::new(plus(), vec![leaf("a")]);
    assert!(!short.well_formed());
    let deep = Expr::new(plus(), vec![leaf("a"), Expr::new(plus(), vec![leaf("b")])]);
    assert!(!deep.well_formed());
    let long = Expr::new(op(Fixity::Closed, "•"), vec![leaf("a")]);
    assert!(!long.well_formed());
}

#[test]
fn tok_rejects_other_token_and_empty_input() {
    let input = ["a", "b"];
    let (rest, ()) = Tok("a").p(&input).unwrap();
    assert_eq!(rest, &["b"]);
    assert_eq!(Tok("b").p(&input).unwrap_err(), ParseError::UnexpectedToken("a"));
    let none: [&str; 0] = [];
    assert_eq!(Tok("a").p(&none).unwrap_err(), ParseError::UnexpectedEndOfInput);
}

#[test]
fn group_reads_tokens_in_order() {
    let parts = vec!["a".to_string(), "b".to_string()];
    let input = ["a", "b", "c"];
    let (rest, ()) = group(&parts, &input).unwrap();
    assert_eq!(rest, &["c"]);
    assert_eq!(group(&parts, &["a", "c"]).unwrap_err(), ParseError::UnexpectedToken("c"));
    assert_eq!(group(&parts, &["a"]).unwrap_err(), ParseError::UnexpectedEndOfInput);
    let (rest, ()) = group(&vec![], &input).unwrap();
    assert_eq!(rest.len(), 3);
}

#[test]
fn opt_prefers_the_longer_match_and_then_the_first() {
    let input = ["a", "b", "c"];
    let long: ParseResult<u8> = Ok((&input[2..], 1));
    let short: ParseResult<char> = Ok((&input[1..], 'x'));
    assert_eq!(opt(long, short), Ok((&input[2..], Either::Left(1))));
    let long: ParseResult<u8> = Ok((&input[2..], 1));
    let short: ParseResult<char> = Ok((&input[1..], 'x'));
    assert_eq!(opt(short, long), Ok((&input[2..], Either::Right(1))));
    let one: ParseResult<u8> = Ok((&input[1..], 1));
    let other: ParseResult<u8> = Ok((&input[1..], 2));
    assert_eq!(opt(one, other), Ok((&input[1..], Either::Left(1))));
}

#[test]
fn opt_takes_the_one_success_or_the_smaller_error() {
    let input = ["a"];
    let ok: ParseResult<u8> = Ok((&input[1..], 1));
    let err: ParseResult<u8> = Err(ParseError::EmptyOpts);
    assert_eq!(opt(ok, err), Ok((&input[1..], Either::Left(1))));
    let ok: ParseResult<u8> = Ok((&input[1..], 1));
    let err: ParseResult<u8> = Err(ParseError::EmptyOpts);
    assert_eq!(opt(err, ok), Ok((&input[1..], Either::Right(1))));
    let a: ParseResult<u8> = Err(ParseError::UnexpectedEndOfInput);
    let b: ParseResult<u8> = Err(ParseError::UnexpectedToken("x"));
    assert_eq!(opt(a, b), Err(ParseError::UnexpectedToken("x")));
    let a: ParseResult<u8> = Err(ParseError::UnexpectedToken("b"));
    let b: ParseResult<u8> = Err(ParseError::UnexpectedToken("a"));
    assert_eq!(opt(a, b), Err(ParseError::UnexpectedToken("a")));
}

#[test]
fn opts_picks_the_first_longest_match() {
    let input = ["a", "b", "c"];
    let results: Vec<ParseResult<u8>> = vec![
        Ok((&input[1..], 1)),
        Err(ParseError::EmptyOpts),
        Ok((&input[2..], 2)),
        Ok((&input[2..], 3)),
        Ok((&input[0..], 4)),
    ];
    assert_eq!(opts(results), Ok((&input[2..], 2)));
}

#[test]
fn opts_picks_the_smallest_error() {
    let results: Vec<ParseResult<u8>> = vec![
        Err(ParseError::EmptyOpts),
        Err(ParseError::UnexpectedEndOfInput),
        Err(ParseError::UnexpectedToken("b")),
        Err(ParseError::UnexpectedToken("a")),
        Err(ParseError::UnparsedInput(&["a"])),
    ];
    assert_eq!(opts(results), Err(ParseError::UnexpectedToken("a")));
}

#[test]
fn opts_of_nothing_is_empty_opts() {
    let results: Vec<ParseResult<u8>> = vec![];
    assert_eq!(opts(results), Err(ParseError::EmptyOpts));
}

#[test]
fn errors_are_ordered_by_variant_then_content() {
    let token = ParseError::UnexpectedToken("z");
    let end = ParseError::UnexpectedEndOfInput;
    let tail = ParseError::UnparsedInput(&["a"]);
    let empty = ParseError::EmptyOpts;
    assert!(token.precedes(&end));
    assert!(end.precedes(&tail));
    assert!(tail.precedes(&empty));
    assert!(!empty.precedes(&token));
    assert!(!end.precedes(&end));
    assert!(ParseError::UnexpectedToken("a").precedes(&ParseError::UnexpectedToken("ab")));
    assert!(ParseError::UnexpectedToken("ab").precedes(&ParseError::UnexpectedToken("b")));
    assert!(!ParseError::UnexpectedToken("b").precedes(&ParseError::UnexpectedToken("ab")));
    assert!(!ParseError::UnexpectedToken("a").precedes(&ParseError::UnexpectedToken("a")));
    assert!(ParseError::UnexpectedToken("z").precedes(&ParseError::UnexpectedToken("•")));
    assert_eq!(token.rank(), 0);
    assert_eq!(end.rank(), 1);
    assert_eq!(tail.rank(), 2);
    assert_eq!(empty.rank(), 3);
}

#[test]
fn error_order_agrees_with_the_derived_order() {
    let errors = [
        ParseError::UnexpectedToken("a"),
        ParseError::UnexpectedToken("b"),
        ParseError::UnexpectedEndOfInput,
        ParseError::UnparsedInput(&[]),
        ParseError::UnparsedInput(&["a"]),
        ParseError::UnparsedInput(&["a", "a"]),
        ParseError::UnparsedInput(&["b"]),
        ParseError::EmptyOpts,
    ];
    for (i, a) in errors.iter().enumerate() {
        for (j, b) in errors.iter().enumerate() {
            assert_eq!(a.precedes(b), i < j);
            assert_eq!(a.precedes(b), a < b);
        }
    }
}

#[test]
fn least_is_the_smaller_error() {
    let a = ParseError::UnexpectedToken("b");
    let b = ParseError::UnexpectedToken("a");
    assert_eq!(a.least(b), ParseError::UnexpectedToken("a"));
    let a = ParseError::UnexpectedEndOfInput;
    let b = ParseError::EmptyOpts;
    assert_eq!(a.least(b), ParseError::UnexpectedEndOfInput);
}

#[test]
fn tails_are_ordered_token_by_token() {
    assert!(tail_lt(&[], &["a"]));
    assert!(!tail_lt(&["a"], &[]));
    assert!(!tail_lt(&["a"], &["a"]));
    assert!(tail_lt(&["a"], &["a", "a"]));
    assert!(tail_lt(&["a", "z"], &["b"]));
    assert!(!tail_lt(&["b"], &["a", "z"]));
}

#[test]
fn nest_adds_the_argument_on_its_side() {
    let plus = || op(Fixity::Infix(Associativity::Left), "_+_");
    let e = nest(Side::Left, leaf("a"), Expr::new(plus(), vec![leaf("b")]));
    assert_eq!(show(&e), "_+_[a[],b[]]");
    let e = nest(Side::Right, leaf("a"), Expr::new(plus(), vec![leaf("b")]));
    assert_eq!(show(&e), "_+_[b[],a[]]");
    let e = with_first((leaf("a"), Expr::new(plus(), vec![leaf("b")])));
    assert_eq!(show(&e), "_+_[a[],b[]]");
    let e = with_last((Expr::new(plus(), vec![leaf("b")]), leaf("a")));
    assert_eq!(show(&e), "_+_[b[],a[]]");
}

#[test]
fn reversed_turns_the_order_round() {
    let v = reversed(vec![leaf("a"), leaf("b"), leaf("c")]);
    let names: Vec<String> = v.iter().map(show).collect();
    assert_eq!(names, vec!["c[]", "b[]", "a[]"]);
    assert_eq!(reversed(vec![]).len(), 0);
}

#[test]
fn select_keeps_the_operators_of_one_fixity_in_order() {
    let ops = vec![
        op(Fixity::Closed, "a"),
        op(Fixity::Prefix, "- _"),
        op(Fixity::Closed, "b"),
        op(Fixity::Infix(Associativity::Left), "_+_"),
        op(Fixity::Infix(Associativity::Right), "_→_"),
    ];
    let closed: Vec<&Vec<String>> =
        select(&ops, Fixity::Closed).iter().map(|o| &o.pattern.0[0]).collect();
    assert_eq!(closed, vec![&vec!["a".to_string()], &vec!["b".to_string()]]);
    assert_eq!(select(&ops, Fixity::Infix(Associativity::Left)).len(), 1);
    assert_eq!(select(&ops, Fixity::Infix(Associativity::Non)).len(), 0);
    assert_eq!(select(&ops, Fixity::Postfix).len(), 0);
}

fn level_map() -> HashMap<usize, Vec<Operator>> {
    let mut g = HashMap::new();
    g.insert(0, vec![op(Fixity::Infix(Associativity::Left), "_+_")]);
    g.insert(1, vec![op(Fixity::Infix(Associativity::Left), "_*_"), op(Fixity::Prefix, "- _")]);
    g.insert(2, vec![op(Fixity::Closed, "•"), op(Fixity::Closed, "( _ )")]);
    g
}

#[test]
fn level_map_answers() {
    let g = level_map();
    let mut all = g.all();
    all.sort();
    assert_eq!(all, vec![0, 1, 2]);
    let mut above = g.succ(0);
    above.sort();
    assert_eq!(above, vec![1, 2]);
    assert_eq!(g.succ(1), vec![2]);
    assert_eq!(g.succ(2), Vec::<usize>::new());
    assert_eq!(g.ops(1, Fixity::Prefix).len(), 1);
    assert_eq!(g.ops(2, Fixity::Closed).len(), 2);
    assert_eq!(g.ops(2, Fixity::Prefix).len(), 0);
    assert_eq!(g.ops(7, Fixity::Closed).len(), 0);
    assert_eq!(g.all(), g.all());
    assert_eq!(g.succ(0), g.succ(0));
}

fn ladder() -> (DiGraph<Vec<Operator>, ()>, NodeIndex, NodeIndex, NodeIndex) {
    let mut g = DiGraph::new();
    let sum = g.add_node(vec![op(Fixity::Infix(Associativity::Left), "_+_")]);
    let product =
        g.add_node(vec![op(Fixity::Infix(Associativity::Left), "_*_"), op(Fixity::Prefix, "- _")]);
    let atom = g.add_node(vec![op(Fixity::Closed, "•"), op(Fixity::Closed, "( _ )")]);
    g.add_edge(sum, product, ());
    g.add_edge(product, atom, ());
    (g, sum, product, atom)
}

#[test]
fn digraph_answers() {
    let (g, sum, product, atom) = ladder();
    assert_eq!(g.all(), vec![sum, product, atom]);
    assert_eq!(g.succ(sum), vec![product, atom]);
    assert_eq!(g.succ(product), vec![atom]);
    assert_eq!(g.succ(atom), Vec::<NodeIndex>::new());
    assert_eq!(g.ops(product, Fixity::Prefix).len(), 1);
    assert_eq!(g.ops(atom, Fixity::Closed).len(), 2);
    assert_eq!(g.ops(atom, Fixity::Postfix).len(), 0);
    assert_eq!(g.ops(sum, Fixity::Infix(Associativity::Left))[0].pattern.0[1], vec!["+"]);
}

#[test]
fn digraph_without_the_node_answers_nothing() {
    let (g, _, _, _) = ladder();
    let stranger = NodeIndex::new(9);
    assert_eq!(g.ops(stranger, Fixity::Closed).len(), 0);
    assert_eq!(g.succ(stranger), Vec::<NodeIndex>::new());
}

#[test]
fn digraph_succ_follows_paths_in_breadth_first_order() {
    let mut g: DiGraph<Vec<Operator>, ()> = DiGraph::new();
    let a = g.add_node(vec![]);
    let b = g.add_node(vec![]);
    let c = g.add_node(vec![]);
    let d = g.add_node(vec![]);
    g.add_edge(a, b, ());
    g.add_edge(b, d, ());
    g.add_edge(a, c, ());
    let succ = g.succ(a);
    assert_eq!(succ.len(), 3);
    assert_eq!(succ[2], d);
    assert!(succ.contains(&b) && succ.contains(&c));
    assert!(!succ.contains(&a));
}

#[test]
fn without_drops_the_node_and_keeps_the_order() {
    let a = NodeIndex::new(0);
    let b = NodeIndex::new(1);
    let c = NodeIndex::new(2);
    assert_eq!(without(&vec![a, b, a, c], a), vec![b, c]);
    assert_eq!(without(&vec![c, b], a), vec![c, b]);
    assert_eq!(without(&vec![a], a), Vec::<NodeIndex>::new());
}

#[test]
fn ladder_narrows_and_is_parsed() {
    let (g, _, _, _) = ladder();
    assert!(narrows(&g));
    let e = parse_dag(&g, &["•", "*", "•"]).unwrap().unwrap();
    assert_eq!(show(&e), "_*_[•[],•[]]");
    let err = parse_dag(&g, &["*"]).unwrap().unwrap_err();
    assert_eq!(err, ParseError::UnexpectedToken("*"));
    let empty: DiGraph<Vec<Operator>, ()> = DiGraph::new();
    assert!(narrows(&empty));
}

#[test]
fn graph_with_a_cycle_is_not_parsed() {
    let mut g = DiGraph::new();
    let a = g.add_node(vec![op(Fixity::Infix(Associativity::Left), "_+_")]);
    let b = g.add_node(vec![op(Fixity::Closed, "•")]);
    g.add_edge(a, b, ());
    g.add_edge(b, a, ());
    assert!(!narrows(&g));
    assert!(parse_dag(&g, &["•"]).is_none());
    let mut g = DiGraph::new();
    let a = g.add_node(vec![op(Fixity::Closed, "•")]);
    let b = g.add_node(vec![]);
    let c = g.add_node(vec![]);
    g.add_edge(a, b, ());
    g.add_edge(b, c, ());
    g.add_edge(c, b, ());
    assert!(!narrows(&g));
    assert!(parse_dag(&g, &["•"]).is_none());
}

#[test]
fn diamond_narrows() {
    let mut g: DiGraph<Vec<Operator>, ()> = DiGraph::new();
    let a = g.add_node(vec![]);
    let b = g.add_node(vec![]);
    let c = g.add_node(vec![]);
    let d = g.add_node(vec![op(Fixity::Closed, "•")]);
    g.add_edge(a, b, ());
    g.add_edge(a, c, ());
    g.add_edge(b, d, ());
    g.add_edge(c, d, ());
    assert!(narrows(&g));
    assert!(parse_dag(&g, &["•"]).unwrap().is_ok());
}

#[test]
fn argument_two_steps_tighter_is_found() {
    let (g, _, _, _) = ladder();
    let e = mixfix::parser::parse_expr(&g, &["•", "+", "•"]).unwrap();
    assert_eq!(show(&e), "_+_[•[],•[]]");
}

#[test]
fn product_binds_tighter_than_sum() {
    let (g, _, _, _) = ladder();
    let e = mixfix::parser::parse_expr(&g, &["•", "+", "•", "*", "•"]).unwrap();
    assert_eq!(show(&e), "_+_[•[],_*_[•[],•[]]]");
    let e = mixfix::parser::parse_expr(&g, &["•", "*", "•", "+", "•"]).unwrap();
    assert_eq!(show(&e), "_+_[_*_[•[],•[]],•[]]");
    let e = mixfix::parser::parse_expr(&g, &["(", "•", "+", "•", ")", "*", "•"]).unwrap();
    assert_eq!(show(&e), "_*_[(_)[_+_[•[],•[]]],•[]]");
}

#[test]
fn level_map_parses_like_the_ladder() {
    let g = level_map();
    let e = mixfix::parser::parse_expr(&g, &["-", "•", "+", "•", "*", "•"]).unwrap();
    assert_eq!(show(&e), "_+_[-_[•[]],_*_[•[],•[]]]");
    assert!(e.well_formed());
    let err = mixfix::parser::parse_expr(&g, &["-", "•", "*", "•"]).unwrap_err();
    assert_eq!(err, ParseError::UnparsedInput(&["*", "•"]));
}

#[test]
fn cascade_parsers_leave_the_tail() {
    let (g, sum, product, atom) = ladder();
    let input = ["•", "*", "•", "+", "•", ")"];
    let (rest, e) = expr(&g, &input).unwrap();
    assert_eq!(show(&e), "_+_[_*_[•[],•[]],•[]]");
    assert_eq!(rest, &[")"]);
    let (rest, e) = prec(&g, product, &input).unwrap();
    assert_eq!(show(&e), "_*_[•[],•[]]");
    assert_eq!(rest, &["+", "•", ")"]);
    let (rest, e) = tighter(&g, sum, &input).unwrap();
    assert_eq!(show(&e), "_*_[•[],•[]]");
    assert_eq!(rest.len(), 3);
    let (rest, e) = closed(&g, atom, &input).unwrap();
    assert_eq!(show(&e), "•[]");
    assert_eq!(rest.len(), 5);
    let (rest, e) = post_left(&g, sum, &input).unwrap();
    assert_eq!(show(&e), "_+_[_*_[•[],•[]],•[]]");
    assert_eq!(rest, &[")"]);
    let (rest, e) = inner(&g, sum, Fixity::Infix(Associativity::Left), &input[3..]).unwrap();
    assert_eq!(show(&e), "_+_[]");
    assert_eq!(rest, &["•", ")"]);
    let times = op(Fixity::Closed, "( _ )");
    let (rest, e) = backbone(&g, &times, &["(", "•", ")", "•"]).unwrap();
    assert_eq!(show(&e), "(_)[•[]]");
    assert_eq!(rest, &["•"]);
}

#[test]
fn leaf_precedence_reads_closed_operators_only() {
    let (g, _, _, atom) = ladder();
    let input = ["•"];
    assert_eq!(non_assoc(&g, atom, &input).unwrap_err(), ParseError::EmptyOpts);
    assert_eq!(pre_right(&g, atom, &input).unwrap_err(), ParseError::EmptyOpts);
    assert_eq!(post_left(&g, atom, &input).unwrap_err(), ParseError::EmptyOpts);
    assert!(closed(&g, atom, &input).is_ok());
    assert!(prec(&g, atom, &input).is_ok());
}

#[test]
fn precedence_without_operators_of_a_fixity() {
    let (g, sum, _, _) = ladder();
    let input = ["•"];
    assert_eq!(inner(&g, sum, Fixity::Closed, &input).unwrap_err(), ParseError::EmptyOpts);
    assert_eq!(closed(&g, sum, &input).unwrap_err(), ParseError::EmptyOpts);
}

#[test]
fn tie_between_links_goes_to_the_prefix_operator() {
    let mut g = DiGraph::new();
    let atom = g.add_node(vec![op(Fixity::Closed, "a"), op(Fixity::Closed, "c")]);
    let chain = g.add_node(vec![
        op(Fixity::Prefix, "a b _"),
        op(Fixity::Infix(Associativity::Right), "_ b _"),
    ]);
    g.add_edge(chain, atom, ());
    let e = mixfix::parser::parse_expr(&g, &["a", "b", "c"]).unwrap();
    assert_eq!(show(&e), "a b_[c[]]");
}

#[test]
fn tie_between_operators_goes_to_the_first() {
    let mut g = DiGraph::new();
    g.add_node(vec![op(Fixity::Closed, "a"), op(Fixity::Closed, " a ")]);
    let e = mixfix::parser::parse_expr(&g, &["a"]).unwrap();
    assert!(e.well_formed());
    let first = op(Fixity::Closed, "a");
    assert_eq!(e.operator.pattern.0, first.pattern.0);
}
