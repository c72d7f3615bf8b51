use fizzy::codegen::compile;
use fizzy::codegen::Cond;
use fizzy::codegen::Op;
use fizzy::codegen::Terminator;
use fizzy::eval::simulate;
use fizzy::parser::parse;
use fizzy::parser::Bound;
use fizzy::parser::Expected;
use fizzy::parser::ParseErrorKind;
use fizzy::parser::Rule;
use fizzy::parser::Rules;
use fizzy::report::render;

fn ruleset(start: u32, end: u32, rules: &[(u32, &str)]) -> Rules {
    Rules {
        bounds: Bound { start, end },
        rules: rules
            .iter()
            .map(|(divisor, literal)| Rule { divisor: *divisor, literal: literal.to_string() })
            .collect(),
    }
}

#[test]
fn classic_case() {
    let rules = ruleset(1, 15, &[(3, "fizz"), (5, "buzz")]);
    let out = simulate(&rules).unwrap();
    let lines: Vec<&str> = out.lines().collect();
    assert_eq!(
        lines,
        vec![
            "1", "2", "fizz", "4", "buzz", "fizz", "7", "8", "fizz", "buzz", "11", "fizz", "13",
            "14", "fizzbuzz"
        ]
    );
    assert!(out.ends_with('\n'));
}

#[test]
fn single_value_range() {
    let rules = ruleset(5, 5, &[(5, "x")]);
    assert_eq!(simulate(&rules).unwrap(), "x\n");
}

#[test]
fn no_rules() {
    let rules = ruleset(1, 3, &[]);
    assert_eq!(simulate(&rules).unwrap(), "1\n2\n3\n");
}

#[test]
fn divisor_collision_last_literal_wins() {
    // Two rules on one divisor share one table entry, so the later literal
    // wins; both rules still print it on a match.
    let rules = ruleset(2, 2, &[(2, "a"), (2, "b")]);
    assert_eq!(simulate(&rules).unwrap(), "bb\n");
    let module = compile(&rules);
    assert_eq!(module.consts.len(), 1);
    assert_eq!(module.consts[0].divisor, 2);
    assert_eq!(module.consts[0].value, "b");
}

#[test]
fn end_before_start_never_ends() {
    let rules = ruleset(5, 4, &[(2, "a")]);
    assert!(simulate(&rules).is_none());
}

#[test]
fn parser_determinism() {
    let src = "start: 1\nend: 15\n\n3: fizz\n5: buzz\n";
    let a = parse(src).unwrap();
    let b = parse(src).unwrap();
    assert_eq!(a.bounds.start, b.bounds.start);
    assert_eq!(a.bounds.end, b.bounds.end);
    assert_eq!(a.rules.len(), b.rules.len());
    for (x, y) in a.rules.iter().zip(b.rules.iter()) {
        assert_eq!(x.divisor, y.divisor);
        assert_eq!(x.literal, y.literal);
    }
}

#[test]
fn parse_classic_source() {
    let src = "start: 1\nend: 15\n\n3: fizz\n5: buzz\n";
    let rules = parse(src).unwrap();
    assert_eq!(rules.bounds.start, 1);
    assert_eq!(rules.bounds.end, 15);
    assert_eq!(rules.rules.len(), 2);
    assert_eq!(rules.rules[0].divisor, 3);
    assert_eq!(rules.rules[0].literal, "fizz");
    assert_eq!(rules.rules[1].divisor, 5);
    assert_eq!(rules.rules[1].literal, "buzz");
}

#[test]
fn malformed_rule_missing_colon() {
    let src = "start: 1\nend: 5\n3 fizz\n";
    let err = parse(src).unwrap_err();
    let offset = src.find('f').unwrap();
    assert_eq!(err.start, offset);
    assert_eq!(err.end, offset + 1);
    assert_eq!(
        err.kind,
        ParseErrorKind::Unexpected { expected: Expected::Colon, found: Some('f') }
    );
    assert_eq!(render(&err), "Unexpected token in input, expected ':', found 'f'");
}

#[test]
fn missing_start_keyword() {
    let err = parse("begin: 1\n").unwrap_err();
    assert_eq!(err.start, 0);
    assert_eq!(
        err.kind,
        ParseErrorKind::Unexpected { expected: Expected::StartKeyword, found: Some('b') }
    );
}

#[test]
fn missing_end_section() {
    let src = "start: 1\n";
    let err = parse(src).unwrap_err();
    assert_eq!(err.start, src.len());
    assert_eq!(err.end, src.len());
    assert_eq!(
        err.kind,
        ParseErrorKind::Unexpected { expected: Expected::EndKeyword, found: None }
    );
    assert_eq!(render(&err), "Unexpected end of input, expected 'end', found 'end of file'");
}

#[test]
fn divisor_overflow_is_rejected() {
    let src = "start: 1\nend: 2\n4294967296: x\n";
    let err = parse(src).unwrap_err();
    assert_eq!(err.kind, ParseErrorKind::IntOverflow);
    assert_eq!(err.start, src.find('4').unwrap());
    assert_eq!(err.end, src.find('4').unwrap() + 10);
    assert_eq!(render(&err), "integer does not fit in 32 unsigned bits");
}

#[test]
fn zero_divisor_is_rejected() {
    let src = "start: 1\nend: 2\n0: x\n";
    let err = parse(src).unwrap_err();
    assert_eq!(err.kind, ParseErrorKind::ZeroDivisor);
    assert_eq!(err.start, src.find('0').unwrap());
    assert_eq!(render(&err), "rule divisor must not be zero");
}

#[test]
fn trailing_garbage_is_rejected() {
    let src = "start: 1\nend: 2\nx\n";
    let err = parse(src).unwrap_err();
    assert_eq!(err.start, src.find('x').unwrap());
    assert_eq!(
        err.kind,
        ParseErrorKind::Unexpected { expected: Expected::RuleOrEnd, found: Some('x') }
    );
}

#[test]
fn rule_without_newline_is_rejected() {
    let src = "start: 1\nend: 1\n1:x";
    let err = parse(src).unwrap_err();
    assert_eq!(err.start, src.len());
    assert_eq!(
        err.kind,
        ParseErrorKind::Unexpected { expected: Expected::Newline, found: None }
    );
}

#[test]
fn empty_rule_list_parses() {
    let rules = parse("start: 1\nend: 3\n").unwrap();
    assert_eq!(rules.rules.len(), 0);
    assert_eq!(simulate(&rules).unwrap(), "1\n2\n3\n");
}

#[test]
fn literal_keeps_inner_and_trailing_whitespace() {
    let rules = parse("start: 1\nend: 1\n1: a b \n").unwrap();
    assert_eq!(rules.rules[0].literal, "a b ");
    assert_eq!(simulate(&rules).unwrap(), "a b \n");
}

#[test]
fn bounds_of_zero() {
    let rules = parse("start: 0\nend: 0\n").unwrap();
    assert_eq!(simulate(&rules).unwrap(), "0\n");
}

#[test]
fn compiled_module_shape() {
    let rules = ruleset(1, 15, &[(3, "fizz"), (5, "buzz")]);
    let module = compile(&rules);
    assert_eq!(module.str_format, "%s");
    assert_eq!(module.int_format, "%d");
    assert_eq!(module.newline, "\n");
    assert_eq!(module.consts.len(), 2);
    assert_eq!(module.consts[0].divisor, 3);
    assert_eq!(module.consts[0].value, "fizz");
    assert_eq!(module.consts[1].divisor, 5);
    assert_eq!(module.consts[1].value, "buzz");
    // Entry, loop head, two blocks per rule, value print, line end, exit.
    assert_eq!(module.blocks.len(), 9);
    assert_eq!(module.blocks[0].ops, vec![Op::InitCounter { start: 1 }, Op::ResetMatched]);
    assert_eq!(module.blocks[0].term, Terminator::Br { target: 1 });
    assert_eq!(module.blocks[1].ops, vec![Op::CaptureValue, Op::AdvanceCounter]);
    assert_eq!(
        module.blocks[1].term,
        Terminator::CondBr {
            cond: Cond::DivisibleBy { divisor: 3 },
            then_to: 2,
            else_to: 3
        }
    );
    assert_eq!(module.blocks[2].ops, vec![Op::PrintConst { cid: 0 }, Op::SetMatched]);
    assert_eq!(module.blocks[2].term, Terminator::Br { target: 3 });
    assert_eq!(
        module.blocks[3].term,
        Terminator::CondBr {
            cond: Cond::DivisibleBy { divisor: 5 },
            then_to: 4,
            else_to: 5
        }
    );
    assert_eq!(module.blocks[4].ops, vec![Op::PrintConst { cid: 1 }, Op::SetMatched]);
    assert_eq!(
        module.blocks[5].term,
        Terminator::CondBr { cond: Cond::NotMatched, then_to: 6, else_to: 7 }
    );
    assert_eq!(module.blocks[6].ops, vec![Op::PrintValue]);
    assert_eq!(module.blocks[6].term, Terminator::Br { target: 7 });
    assert_eq!(module.blocks[7].ops, vec![Op::PrintNewline, Op::ResetMatched]);
    assert_eq!(
        module.blocks[7].term,
        Terminator::CondBr { cond: Cond::ValueNeEnd { end: 15 }, then_to: 1, else_to: 8 }
    );
    assert_eq!(module.blocks[8].ops, vec![]);
    assert_eq!(module.blocks[8].term, Terminator::Ret0);
}

#[test]
fn every_line_is_literals_or_decimal() {
    // Each line holds exactly one of the two: matched literals, or the bare
    // value in decimal — never both, never neither.
    let rules = ruleset(1, 6, &[(2, "a"), (3, "b")]);
    let out = simulate(&rules).unwrap();
    assert_eq!(out.lines().count(), 6);
    for line in out.lines() {
        let decimal = !line.is_empty() && line.chars().all(|c| c.is_ascii_digit());
        let literals = !line.is_empty() && line.chars().all(|c| c == 'a' || c == 'b');
        assert!(decimal ^ literals);
    }
    assert_eq!(out, "1\na\nb\na\n5\nab\n");
}

#[test]
fn whitespace_tolerant_bounds() {
    let rules = parse("  start : 7\n\n end :9\n7:seven\n").unwrap();
    assert_eq!(rules.bounds.start, 7);
    assert_eq!(rules.bounds.end, 9);
    assert_eq!(rules.rules[0].literal, "seven");
    assert_eq!(simulate(&rules).unwrap(), "seven\n8\n9\n");
}

#[test]
fn largest_divisor_and_bounds() {
    let rules = parse("start: 4294967295\nend: 4294967295\n4294967295: max\n").unwrap();
    assert_eq!(rules.bounds.start, u32::MAX);
    assert_eq!(simulate(&rules).unwrap(), "max\n");
}
