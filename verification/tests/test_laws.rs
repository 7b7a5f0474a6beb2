use dice::expr::{Dice, DieSides, Number, NumberKind, NumSet, SetOp, SetOpKind, SetSel, SelCat};
use dice::num::Decimal;
use dice::{parse, roll, Advantage, Error, ExpressionContext, Roller, RollResult};
use rand::rngs::StdRng;
use rand::SeedableRng;

fn inner(r: &RollResult) -> &Number {
    match r.expression().kind() {
        NumberKind::Expression(e) => e.roll(),
        _ => panic!("a roll is an expression"),
    }
}

fn set_kept(r: &RollResult) -> Vec<bool> {
    match inner(r).kind() {
        NumberKind::NumSet(s) => s.values.iter().map(|n| n.kept()).collect(),
        NumberKind::Parenthetical(p) => match p.value.kind() {
            NumberKind::NumSet(s) => s.values.iter().map(|n| n.kept()).collect(),
            _ => panic!("not a set"),
        },
        _ => panic!("not a set"),
    }
}

fn dice_of(r: &RollResult) -> &Dice {
    match inner(r).kind() {
        NumberKind::Dice(d) => d,
        _ => panic!("not dice"),
    }
}

/// The current value of each kept die.
fn current_values(d: &Dice) -> Vec<i128> {
    d.values
        .iter()
        .filter(|n| n.kept())
        .map(|n| match n.kind() {
            NumberKind::Die(die) => match die.values.last().unwrap().kind() {
                NumberKind::Literal(l) => l.values.last().unwrap().mantissa,
                _ => panic!("a roll is a literal"),
            },
            _ => panic!("not a die"),
        })
        .collect()
}

fn seeded(seed: u64) -> StdRng {
    StdRng::seed_from_u64(seed)
}

#[test]
fn keep_keeps_exactly_the_matches() -> Result<(), Error> {
    let r = roll("(3, 1, 2)kh2")?;
    assert_eq!(set_kept(&r), vec![true, false, true]);
    assert_eq!(r.total(), 5);
    let r = roll("(1, 2, 3)p>1")?;
    assert_eq!(set_kept(&r), vec![true, false, false]);
    assert_eq!(r.total(), 1);
    Ok(())
}

#[test]
fn ties_go_to_the_earlier_value() -> Result<(), Error> {
    let r = roll("(2, 2, 1)kh1")?;
    assert_eq!(set_kept(&r), vec![true, false, false]);
    let r = roll("(1, 2, 1)kl1")?;
    assert_eq!(set_kept(&r), vec![true, false, false]);
    Ok(())
}

#[test]
fn rolls_show_faces_and_vary() -> Result<(), Error> {
    let roller = Roller::new();
    let mut rng = seeded(7);
    let mut seen = [false; 7];
    for _ in 0..300 {
        let t = roller.roll_with_rng("1d6", &mut rng)?.total();
        assert!((1..=6).contains(&t));
        seen[t as usize] = true;
    }
    assert!(seen[1..].iter().filter(|s| **s).count() > 1);
    let mut rng = seeded(8);
    for _ in 0..100 {
        assert!((1..=100).contains(&roller.roll_with_rng("1d%", &mut rng)?.total()));
    }
    Ok(())
}

#[test]
fn no_dice_total_zero() -> Result<(), Error> {
    let r = roll("0d6")?;
    assert_eq!(r.total(), 0);
    assert_eq!(r.to_result(), "0d6 () = 0");
    Ok(())
}

#[test]
fn division_by_a_zero_total_is_refused() {
    assert!(matches!(roll("1d6 / (1 - 1)"), Err(Error::ZeroDivision)));
    assert!(matches!(roll("1d6 % 0"), Err(Error::ZeroDivision)));
}

#[test]
fn decimals_are_exact() -> Result<(), Error> {
    assert_eq!(roll("0.1 + 0.2 == 0.3")?.total(), 1);
    assert_eq!(roll("1.5 + 1")?.total_exact(), Some(Decimal { mantissa: 25, scale: 1 }));
    assert_eq!(roll("7 / 2")?.total(), 3);
    assert_eq!(roll("-7 // 2")?.total(), -4);
    assert_eq!(roll("-7 % 2")?.total(), 1);
    Ok(())
}

#[test]
fn annotations_do_not_change_totals() -> Result<(), Error> {
    assert_eq!(roll("3[fire]")?.total(), 3);
    assert_eq!(roll("3[fire] + 2[cold]")?.total(), 5);
    Ok(())
}

#[test]
fn merged_operators_print_as_written() -> Result<(), Error> {
    let tree = dice::ast::Node::Expression(parse("10d6k1k2k3", false)?);
    assert_eq!(tree.to_text(), "10d6k1k2k3");
    Ok(())
}

#[test]
fn roll_limit_is_enforced() -> Result<(), Error> {
    let roller = Roller::builder().context(ExpressionContext::new(5)).build();
    assert!(matches!(roller.roll("6d6"), Err(Error::RollLimitExceeded)));
    assert!((5..=30).contains(&roller.roll("5d6")?.total()));
    assert_eq!(ExpressionContext::default().max_rolls(), 1000);
    Ok(())
}

#[test]
fn reroll_leaves_no_match() -> Result<(), Error> {
    let roller = Roller::new();
    let mut rng = seeded(11);
    for _ in 0..50 {
        let r = roller.roll_with_rng("8d6rr<3", &mut rng)?;
        let vals = current_values(dice_of(&r));
        assert_eq!(vals.len(), 8);
        assert!(vals.iter().all(|v| *v >= 3));
    }
    Ok(())
}

#[test]
fn reroll_once_rolls_each_match_once() -> Result<(), Error> {
    let r = roll("1d1ro1")?;
    assert_eq!(r.to_result(), "1d1ro1 (1, 1) = 1");
    let d = dice_of(&r);
    match d.values[0].kind() {
        NumberKind::Die(die) => {
            assert_eq!(die.values.len(), 2);
            assert!(!die.values[0].kept());
            assert!(die.values[1].kept());
        },
        _ => panic!("not a die"),
    }
    Ok(())
}

#[test]
fn explode_once_adds_one_die_for_the_first_match() -> Result<(), Error> {
    let r = roll("3d1ra1")?;
    assert_eq!(dice_of(&r).values.len(), 4);
    assert_eq!(r.total(), 4);
    assert_eq!(r.to_result(), "3d1ra1 (1!, 1, 1, 1) = 4");
    assert_eq!(roll("1d1ra1")?.to_result(), "1d1ra1 (1!, 1) = 2");
    let r = roll("2d1ra2")?;
    assert_eq!(dice_of(&r).values.len(), 2);
    assert_eq!(r.total(), 2);
    Ok(())
}

#[test]
fn dice_without_sides_are_refused() {
    assert!(matches!(roll("0d0"), Err(Error::Value("can't roll a 0 sided die."))));
    assert!(matches!(roll("3d0"), Err(Error::Value("can't roll a 0 sided die."))));
    let mut ctx = ExpressionContext::new(10);
    let mut rng = seeded(1);
    assert!(matches!(
        Dice::new(0, DieSides::Literal(0), &mut ctx, &mut rng),
        Err(Error::Value("can't roll a 0 sided die."))
    ));
    assert_eq!(ctx.rolls(), 0);
}

#[test]
fn operators_print_as_they_parse() -> Result<(), Error> {
    let tree = dice::ast::Node::Expression(parse("4d6p1", false)?);
    assert_eq!(tree.to_text(), "4d6p1");
    let again = dice::ast::Node::Expression(parse(&tree.to_text(), false)?);
    assert_eq!(again.to_text(), "4d6p1");
    assert!(roll("(1, 2)ph1")?.to_result().starts_with("(1, 2)ph1"));
    Ok(())
}

#[test]
fn syntax_errors_say_where_and_what() {
    match roll("1 +") {
        Err(Error::Syntax(e)) => {
            assert_eq!(e.position, 2);
            assert_eq!(e.found, Some('+'));
            assert_eq!(Error::Syntax(e).message(), "unexpected input at 2..3: got +");
        },
        _ => panic!("an unfinished expression is refused"),
    }
    let eof = Error::Syntax(dice::SyntaxError { position: 4, found: None });
    assert_eq!(eof.message(), "unexpected input at 4..4: got <EOF>");
}

#[test]
fn explode_marks_each_match() -> Result<(), Error> {
    let roller = Roller::new();
    let mut rng = seeded(5);
    for _ in 0..50 {
        let r = roller.roll_with_rng("3d4e4", &mut rng)?;
        let d = dice_of(&r);
        let fours = current_values(d).iter().filter(|v| **v == 4).count();
        assert_eq!(d.values.len(), 3 + fours);
    }
    assert!(matches!(roll("2d1e1"), Err(Error::RollLimitExceeded)));
    Ok(())
}

#[test]
fn clamping_bounds_every_die() -> Result<(), Error> {
    let roller = Roller::new();
    let mut rng = seeded(3);
    for _ in 0..50 {
        let r = roller.roll_with_rng("6d6ma3", &mut rng)?;
        assert!(current_values(dice_of(&r)).iter().all(|v| (1..=3).contains(v)));
        let r = roller.roll_with_rng("6d6mi4", &mut rng)?;
        assert!(current_values(dice_of(&r)).iter().all(|v| (4..=6).contains(v)));
    }
    Ok(())
}

#[test]
fn advantage_keeps_one_of_two() -> Result<(), Error> {
    let roller = Roller::builder().advantage(Advantage::Advantage).build();
    let r = roller.roll("1d20 + 1")?;
    assert_eq!(dice_of_left(&r).values.len(), 2);
    assert!((2..=21).contains(&r.total()));
    Ok(())
}

fn dice_of_left(r: &RollResult) -> &Dice {
    match inner(r).kind() {
        NumberKind::BinOp(b) => match b.left.kind() {
            NumberKind::Dice(d) => d,
            _ => panic!("not dice"),
        },
        _ => panic!("not a binary operation"),
    }
}

#[test]
fn error_variants_and_messages() {
    match roll("6d0") {
        Err(e) => {
            assert_eq!(e, Error::Value("can't roll a 0 sided die."));
            assert_eq!(e.message(), "can't roll a 0 sided die.");
        },
        Ok(_) => panic!("a die without sides cannot be rolled"),
    }
    match roll("1 +") {
        Err(e @ Error::Syntax(_)) => assert!(e.message().starts_with("unexpected input at ")),
        _ => panic!("an unfinished expression is refused"),
    }
    assert_eq!(Error::RollLimitExceeded.message(), "roll limit exceeded");
    assert_eq!(Error::ZeroDivision.message(), "attempt to divide by zero");
    assert!(matches!(
        roll("99999999999999999999999999999999999 * 99999999999999999999999999999999999"),
        Err(Error::Value("value out of range"))
    ));
    let reroll = SetOp::new(SetOpKind::Reroll, vec![SetSel::new(SelCat::Lit, 1)]);
    assert!(matches!(NumSet::new(Vec::new(), vec![reroll]), Err(Error::Value(_))));
}

#[test]
fn markdown_strikes_dropped_values() -> Result<(), Error> {
    let r = Roller::new_markdown().roll("(3, 1)kh1")?;
    assert_eq!(r.to_result(), "(3, ~~1~~)kh1 = `3`");
    Ok(())
}

#[test]
fn comments_need_to_be_allowed() -> Result<(), Error> {
    let roller = Roller::builder().allow_comments(true).build();
    assert_eq!(roller.roll("2 + 2 sneak attack")?.comment(), Some("sneak attack"));
    assert!(matches!(Roller::new().roll("2 + 2 sneak attack"), Err(Error::Syntax(_))));
    Ok(())
}

#[test]
fn highest_and_lowest_match_n_values() -> Result<(), Error> {
    let r = roll("(1, 2)kh5")?;
    assert_eq!(set_kept(&r), vec![true, true]);
    let r = roll("(5, 4, 3, 2, 1)kl2")?;
    assert_eq!(set_kept(&r).iter().filter(|k| **k).count(), 2);
    assert_eq!(r.total(), 3);
    let r = roll("(5, 4, 3, 2, 1)ph1kh2")?;
    assert_eq!(set_kept(&r), vec![false, true, true, false, false]);
    Ok(())
}

#[test]
fn builder_options_reach_the_roll() -> Result<(), Error> {
    let roller = Roller::builder().formatter(dice::MarkdownFormatter::new()).build();
    assert_eq!(roller.roll("(3, 1)kh1")?.to_result(), "(3, ~~1~~)kh1 = `3`");
    let mut rng = seeded(21);
    let r = Roller::new().roll_with_options("1d20 + 2 to hit", true, Advantage::Disadvantage, &mut rng)?;
    assert_eq!(r.comment(), Some("to hit"));
    assert!(r.to_result().starts_with("2d20kl1 "));
    let r = Roller::new().roll_with_advantage("1d20", Advantage::Advantage)?;
    assert!(r.to_result().starts_with("2d20kh1 "));
    assert!((1..=20).contains(&r.total()));
    Ok(())
}

#[test]
fn every_face_comes_up() -> Result<(), Error> {
    let roller = Roller::new();
    let mut rng = seeded(99);
    let mut seen = [false; 21];
    for _ in 0..2000 {
        seen[roller.roll_with_rng("1d20", &mut rng)?.total() as usize] = true;
    }
    assert!(seen[1..].iter().all(|s| *s));
    let mut seen = [false; 101];
    for _ in 0..5000 {
        seen[roller.roll_with_rng("1d%", &mut rng)?.total() as usize] = true;
    }
    assert!(seen[1..].iter().all(|s| *s));
    Ok(())
}

#[test]
fn annotations_anywhere_change_no_roll() -> Result<(), Error> {
    let roller = Roller::new();
    for seed in 0..50 {
        let plain = roller.roll_with_rng("(3d6kh2, 1d4)kh1 + 2 * 1d8", &mut seeded(seed))?;
        let noted =
            roller.roll_with_rng("(3d6kh2 [fire], 1d4 [cold])kh1 [best] + 2 [twice] * 1d8 [force]", &mut seeded(seed))?;
        assert_eq!(plain.total(), noted.total());
    }
    Ok(())
}
