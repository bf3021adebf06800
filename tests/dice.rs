use dice_roller::lexer::{p_u128, ws, ParseError};
use dice_roller::reply::{command_output, compose_reply, strip_command_prefix};
use dice_roller::roll::{
    parse_roll_expression, Filter, Roll, RollError, RollExpression, RollExpressionResult,
};
use dice_roller::roll_command::{apply_operator, parse_command, parse_roll_command, CommandError, Operator};
use dice_roller::secrets::Secrets;

fn parsed(input: &str) -> dice_roller::roll_command::RollCommand {
    match parse_command(input) {
        Ok(c) => c,
        Err(e) => panic!("{:?}", e),
    }
}

#[test]
fn uint_reads_exactly_the_digit_run() {
    assert_eq!(p_u128("123abc"), Ok(("abc", 123)));
    assert_eq!(p_u128("0"), Ok(("", 0)));
    assert_eq!(p_u128("007d"), Ok(("d", 7)));
    assert_eq!(p_u128("abc"), Err(ParseError { position: 0 }));
    assert_eq!(p_u128(""), Err(ParseError { position: 0 }));
    assert_eq!(p_u128("-5"), Err(ParseError { position: 0 }));
}

#[test]
fn uint_range_limits() {
    assert_eq!(
        p_u128("340282366920938463463374607431768211455 x"),
        Ok((" x", u128::MAX))
    );
    assert!(p_u128("340282366920938463463374607431768211456").is_err());
}

#[test]
fn whitespace_is_skipped() {
    assert_eq!(ws(" \t\r\n x "), "x ");
    assert_eq!(ws("x"), "x");
    assert_eq!(ws(""), "");
}

#[test]
fn dice_group_without_count_has_one_die() {
    let (rest, e) = parse_roll_expression("d20").unwrap();
    assert_eq!(rest, "");
    assert!(matches!(e, RollExpression::Roll(Roll { dice_count: 1, faces: 20, filter: None })));
    let (_, e) = parse_roll_expression("D6").unwrap();
    assert!(matches!(e, RollExpression::Roll(Roll { dice_count: 1, faces: 6, filter: None })));
}

#[test]
fn dice_group_with_count_and_filters() {
    let (rest, e) = parse_roll_expression("3d8+1").unwrap();
    assert_eq!(rest, "+1");
    assert!(matches!(e, RollExpression::Roll(Roll { dice_count: 3, faces: 8, filter: None })));
    let (rest, e) = parse_roll_expression("4d6 d1 rest").unwrap();
    assert_eq!(rest, " rest");
    assert!(matches!(
        e,
        RollExpression::Roll(Roll { dice_count: 4, faces: 6, filter: Some(Filter::Drop(1)) })
    ));
    let (_, e) = parse_roll_expression("4d6  K3").unwrap();
    assert!(matches!(
        e,
        RollExpression::Roll(Roll { dice_count: 4, faces: 6, filter: Some(Filter::Keep(3)) })
    ));
}

#[test]
fn filter_needs_whitespace_before_it() {
    let (rest, e) = parse_roll_expression("4d6k1").unwrap();
    assert_eq!(rest, "k1");
    assert!(matches!(e, RollExpression::Roll(Roll { dice_count: 4, faces: 6, filter: None })));
}

#[test]
fn bare_integer_is_constant() {
    let (rest, e) = parse_roll_expression("10 ").unwrap();
    assert_eq!(rest, " ");
    assert!(matches!(e, RollExpression::Constant(10)));
    assert!(parse_roll_expression("d").is_err());
    assert!(parse_roll_expression("x").is_err());
}

#[test]
fn contribution_with_filters() {
    let r = RollExpressionResult::new(vec![3, 1, 2], Some(Filter::Drop(1)));
    assert_eq!(r.contribution(), Ok(5));
    let r = RollExpressionResult::new(vec![3, 1, 2], Some(Filter::Keep(1)));
    assert_eq!(r.contribution(), Ok(3));
    let r = RollExpressionResult::new(vec![3, 1, 2], None);
    assert_eq!(r.contribution(), Ok(6));
    let r = RollExpressionResult::new(vec![3, 1, 2], Some(Filter::Keep(3)));
    assert_eq!(r.contribution(), Ok(6));
    let r = RollExpressionResult::new(vec![3, 1, 2], Some(Filter::Drop(3)));
    assert_eq!(r.contribution(), Ok(0));
}

#[test]
fn drop_and_keep_add_up_to_total() {
    let rolls = vec![5, 1, 4, 2, 6];
    let k: u128 = 2;
    let lowest: u128 = 1 + 2;
    let total: u128 = 18;
    let drop = RollExpressionResult::new(rolls.clone(), Some(Filter::Drop(k))).contribution().unwrap();
    let keep = RollExpressionResult::new(rolls.clone(), Some(Filter::Keep(5 - k))).contribution().unwrap();
    assert_eq!(drop + lowest, total);
    assert_eq!(keep + lowest, total);
}

#[test]
fn filter_out_of_range_is_an_error() {
    let r = RollExpressionResult::new(vec![3, 1, 2], Some(Filter::Drop(4)));
    assert_eq!(r.contribution(), Err(RollError::FilterOutOfRange));
    let r = RollExpressionResult::new(vec![3, 1, 2], Some(Filter::Keep(4)));
    assert_eq!(r.contribution(), Err(RollError::FilterOutOfRange));
}

#[test]
fn contribution_overflow_is_an_error() {
    let r = RollExpressionResult::new(vec![u128::MAX, 1], None);
    assert_eq!(r.contribution(), Err(RollError::Overflow));
    let r = RollExpressionResult::new(vec![u128::MAX, 1], Some(Filter::Keep(1)));
    assert_eq!(r.contribution(), Ok(u128::MAX));
}

#[test]
fn display_keeps_drawn_order() {
    let r = RollExpressionResult::new(vec![3, 1, 20], Some(Filter::Drop(1)));
    assert_eq!(r.to_string(), "[3, 1, 20]");
    assert_eq!(r.contribution(), Ok(23));
    assert_eq!(r.to_string(), "[3, 1, 20]");
    assert_eq!(r.rolls(), &vec![3, 1, 20]);
    assert_eq!(RollExpressionResult::new(vec![], None).to_string(), "[]");
}

#[test]
fn evaluate_draws_count_values_in_range() {
    for _ in 0..20 {
        let e = RollExpression::Roll(Roll { dice_count: 7, faces: 6, filter: Some(Filter::Keep(2)) });
        let r = e.evaluate().unwrap();
        assert_eq!(r.rolls().len(), 7);
        assert!(r.rolls().iter().all(|v| (1..=6).contains(v)));
        assert_eq!(r.filter(), Some(Filter::Keep(2)));
    }
    let r = RollExpression::Roll(Roll { dice_count: 3, faces: 1, filter: None }).evaluate().unwrap();
    assert_eq!(r.rolls(), &vec![1, 1, 1]);
}

#[test]
fn evaluate_constant_and_invalid_die() {
    let r = RollExpression::Constant(42).evaluate().unwrap();
    assert_eq!(r.rolls(), &vec![42]);
    assert_eq!(r.filter(), None);
    let e = RollExpression::Roll(Roll { dice_count: 2, faces: 0, filter: None });
    assert!(matches!(e.evaluate(), Err(RollError::InvalidDie)));
}

#[test]
fn command_batch_prefix() {
    let c = parsed("2 3d8+2d6-4");
    assert_eq!(c.batch_count(), 2);
    let es = c.expressions();
    assert_eq!(es.len(), 3);
    assert_eq!(es[0].0, Operator::Add);
    assert_eq!(es[1].0, Operator::Add);
    assert_eq!(es[2].0, Operator::Subtract);
    assert!(matches!(es[2].1, RollExpression::Constant(4)));
    let c = parsed("2d6");
    assert_eq!(c.batch_count(), 1);
    let c = parsed("  10");
    assert_eq!(c.batch_count(), 1);
    assert!(matches!(c.expressions()[0].1, RollExpression::Constant(10)));
}

#[test]
fn command_parse_reports_rest() {
    let (rest, c) = parse_roll_command(" d6 + 2 - x").unwrap();
    assert_eq!(rest, "- x");
    assert_eq!(c.expressions().len(), 2);
    assert_eq!(parse_roll_command("  !").unwrap_err(), ParseError { position: 2 });
    assert_eq!(parse_roll_command("3 ").unwrap_err(), ParseError { position: 2 });
}

#[test]
fn render_batch_exact_line() {
    let c = parsed("3d6 - 2");
    let results = vec![
        RollExpressionResult::new(vec![4, 1, 6], None),
        RollExpressionResult::new(vec![2], None),
    ];
    assert_eq!(c.render_batch(&results).unwrap(), "`[4, 1, 6]` Result: `9`");
    let c = parsed("1d4 - 10 + 2d6 k1");
    let results = vec![
        RollExpressionResult::new(vec![3], None),
        RollExpressionResult::new(vec![10], None),
        RollExpressionResult::new(vec![2, 5], Some(Filter::Keep(1))),
    ];
    assert_eq!(c.render_batch(&results).unwrap(), "`[3][2, 5]` Result: `-2`");
}

#[test]
fn constant_only_command() {
    assert_eq!(parsed("10").evaluate().unwrap(), "`` Result: `10`");
}

#[test]
fn single_one_faced_die() {
    assert_eq!(parsed("1d1").evaluate().unwrap(), "`[1]` Result: `1`");
}

#[test]
fn two_batches_of_default_die() {
    let c = parsed("2 d6");
    assert_eq!(c.batch_count(), 2);
    let out = c.evaluate().unwrap();
    let lines: Vec<&str> = out.split('\n').collect();
    assert_eq!(lines.len(), 2);
    for line in lines {
        let x = &line[2..3];
        let v: u32 = x.parse().unwrap();
        assert!((1..=6).contains(&v));
        assert_eq!(line, format!("`[{}]` Result: `{}`", x, x));
    }
}

#[test]
fn batches_give_that_many_lines() {
    assert_eq!(parsed("5 d4 + 1").evaluate().unwrap().split('\n').count(), 5);
    assert_eq!(parsed("0 d4").evaluate().unwrap(), "");
}

#[test]
fn subtracted_constant_not_shown() {
    let out = parsed("3d6 - 2").evaluate().unwrap();
    assert!(out.starts_with("`["));
    let close = out.find(']').unwrap();
    let values: Vec<i64> = out[2..close].split(", ").map(|v| v.parse().unwrap()).collect();
    assert_eq!(values.len(), 3);
    assert!(values.iter().all(|v| (1..=6).contains(v)));
    let total: i64 = values.iter().sum::<i64>() - 2;
    assert_eq!(&out[close..], format!("]` Result: `{}`", total));
}

#[test]
fn negative_total() {
    assert_eq!(parsed("1d1 - 5").evaluate().unwrap(), "`[1]` Result: `-4`");
}

#[test]
fn malformed_filter_is_an_error() {
    match parse_command("4d6 dk2") {
        Err(CommandError::TrailingInput(rest)) => assert_eq!(rest, "dk2"),
        other => panic!("{:?}", other),
    }
}

#[test]
fn trailing_text_is_named() {
    match parse_command("5d6 extra") {
        Err(CommandError::TrailingInput(rest)) => assert_eq!(rest, "extra"),
        other => panic!("{:?}", other),
    }
    match parse_command("  what") {
        Err(CommandError::Malformed(rest)) => assert_eq!(rest, "what"),
        other => panic!("{:?}", other),
    }
}

#[test]
fn evaluation_errors() {
    assert_eq!(parsed("2d0").evaluate(), Err(RollError::InvalidDie));
    assert_eq!(parsed("2d6 k3").evaluate(), Err(RollError::FilterOutOfRange));
    assert_eq!(
        parsed("170141183460469231731687303715884105728").evaluate(),
        Err(RollError::Overflow)
    );
    assert_eq!(
        parsed("170141183460469231731687303715884105727").evaluate().unwrap(),
        "`` Result: `170141183460469231731687303715884105727`"
    );
}

#[test]
fn checked_total_steps() {
    assert_eq!(apply_operator(-5, 3, Operator::Add), Some(-2));
    assert_eq!(apply_operator(0, 3, Operator::Subtract), Some(-3));
    assert_eq!(apply_operator(i128::MAX, 1, Operator::Add), None);
    assert_eq!(apply_operator(i128::MIN, 1, Operator::Subtract), None);
    assert_eq!(apply_operator(-1, u128::MAX / 2 + 1, Operator::Add), Some(i128::MAX));
    assert_eq!(apply_operator(0, u128::MAX / 2 + 1, Operator::Subtract), Some(i128::MIN));
    assert_eq!(apply_operator(0, u128::MAX, Operator::Add), None);
}

#[test]
fn command_prefixes() {
    assert_eq!(strip_command_prefix("!roll 2d6"), Some("2d6"));
    assert_eq!(strip_command_prefix("!r d20"), Some("d20"));
    assert_eq!(strip_command_prefix("!plsrollformedicechan 3"), Some("3"));
    assert_eq!(strip_command_prefix("!rolld6"), None);
    assert_eq!(strip_command_prefix("hello"), None);
}

#[test]
fn command_output_messages() {
    assert_eq!(command_output("5d6 extra"), ("Error, unexpected character: extra".to_string(), 0));
    assert_eq!(command_output("?"), ("Error parsing roll command: ?".to_string(), 0));
    assert_eq!(command_output("d0"), ("Error, a die needs at least one face".to_string(), 0));
    assert_eq!(command_output("3 7"), ("`` Result: `7`\n`` Result: `7`\n`` Result: `7`".to_string(), 3));
}

#[test]
fn reply_header_and_limit() {
    assert_eq!(compose_reply("ann", "d6", "`[4]` Result: `4`", 1), "ann requested `[d6]` Roll: `[4]` Result: `4`");
    assert_eq!(compose_reply("ann", "2 1", "a\nb", 2), "ann requested `[2 1]` Rolls:\na\nb");
    let long = "x".repeat(2000);
    assert_eq!(compose_reply("ann", "d6", &long, 1), "Error, output length exceeds 2000 characters");
}

#[test]
fn secrets_token() {
    let s = Secrets::new("SECRET-REDACTED".to_string());
    assert_eq!(s.discord_token(), "SECRET-REDACTED");
}

#[test]
fn evaluate_with_given_draws() {
    let e = RollExpression::Roll(Roll { dice_count: 3, faces: 6, filter: Some(Filter::Drop(1)) });
    let r = e.evaluate_with(vec![6, 2, 5]).unwrap();
    assert_eq!(r.rolls(), &vec![6, 2, 5]);
    assert_eq!(r.filter(), Some(Filter::Drop(1)));
    assert_eq!(r.contribution(), Ok(11));
    let r = RollExpression::Constant(9).evaluate_with(vec![]).unwrap();
    assert_eq!(r.rolls(), &vec![9]);
    assert_eq!(r.filter(), None);
    let e = RollExpression::Roll(Roll { dice_count: 2, faces: 0, filter: None });
    assert!(matches!(e.evaluate_with(vec![]), Err(RollError::InvalidDie)));
}

#[test]
fn reply_limit_counts_bytes() {
    let name = "\u{e9}".repeat(10);
    let output = "x".repeat(1966);
    assert_eq!(name.chars().count() + " requested `[d6]` Roll: ".len() + output.len(), 2000);
    let reply = compose_reply(&name, "d6", &output, 1);
    assert_eq!(reply, "Error, output length exceeds 2000 characters");
    let output = "x".repeat(1950);
    let reply = compose_reply(&name, "d6", &output, 1);
    assert!(reply.len() <= 2000);
    assert!(reply.ends_with(&output));
}
