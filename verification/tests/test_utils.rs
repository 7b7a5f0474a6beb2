use dice::ast::{DiceExpr, Node};
use dice::expr::{DieSides, Literal, Number, NumberKind};
use dice::num::Decimal;
use dice::{parse, roll, roll_expr_with_default_rng, utils, Advantage, Error, Formatter, SimpleFormatter};

#[test]
fn test_leftmost() -> Result<(), Error> {
    let tree = parse("1d20 + 4d6 + 3", false)?;
    assert_eq!(utils::leftmost(&Node::Expression(tree.clone())).to_text(), "1d20");
    let res = roll_expr_with_default_rng(tree, Advantage::Normal)?;
    let expr = res.expression();
    assert!(SimpleFormatter.format(utils::leftmost(expr)).starts_with("1d20 "));
    Ok(())
}

#[test]
fn test_rightmost() -> Result<(), Error> {
    let tree = parse("1d20 + 4d6 + 3", false)?;
    assert_eq!(utils::rightmost(&Node::Expression(tree.clone())).to_text(), "3");
    let res = roll_expr_with_default_rng(tree, Advantage::Normal)?;
    let expr = res.expression();
    assert_eq!(SimpleFormatter.format(utils::rightmost(expr)), "3");
    Ok(())
}

#[test]
fn test_dfs() -> Result<(), Error> {
    let mixed = roll("-1d8 + 4 - (3, 1d4)kh1")?;
    let result = utils::dfs(mixed.expression(), |n: &Number| {
        matches!(n.kind(), NumberKind::Dice(d) if d.num() == 1 && d.sides() == DieSides::Literal(4))
    });
    assert!(result.is_some());
    assert!(SimpleFormatter.format(result.unwrap()).starts_with("1d4 "));
    Ok(())
}

#[test]
fn test_ast_map() -> Result<(), Error> {
    let tree = Node::Expression(parse("1d20 + 4d6 + 3", false)?);
    let mapper = |node: Node| {
        if let Node::DiceExpr(d) = &node { Node::DiceExpr(DiceExpr::new(d.num() * 2, d.sides())) } else { node.clone() }
    };
    let mapped = utils::map_tree(&tree, mapper);
    assert_eq!(mapped.to_text(), "2d20 + 8d6 + 3");
    assert_eq!(tree.to_text(), "1d20 + 4d6 + 3");
    Ok(())
}

#[test]
fn test_expr_map() -> Result<(), Error> {
    let res = roll("1 + 2 + 3")?;
    let expr = res.expression();
    let mapper = |node: Number| {
        if let NumberKind::Literal(l) = node.kind() {
            let mut values = l.values().to_vec();
            if let Some(v) = values.last_mut() {
                *v = Decimal { mantissa: v.mantissa * 2, scale: v.scale };
            }
            let mut new = Literal::new(values[0]);
            for v in values.iter().skip(1) {
                new.update(*v);
            }
            Number::new(NumberKind::Literal(new))
        } else {
            node.clone()
        }
    };
    let mapped = utils::map_tree(expr, mapper);
    assert_eq!(SimpleFormatter.format(&mapped), "2 + 4 + 6 = 12");
    assert_eq!(mapped.total(), Some(Decimal { mantissa: 12, scale: 0 }));
    assert_eq!(SimpleFormatter.format(expr), "1 + 2 + 3 = 6");
    Ok(())
}

#[test]
fn test_adv_clone() -> Result<(), Error> {
    for expr in ["1d20", "1d20+1", "1d20-1d4"] {
        let tree = Node::Expression(parse(expr, false)?);
        let orig = tree.clone();
        let adv_tree = utils::ast_with_adv(tree.clone(), Advantage::Advantage);
        assert!(adv_tree.to_text().starts_with("2d20kh1"));
        assert_ne!(adv_tree.to_text(), orig.to_text());
        let adv_tree = utils::ast_with_adv(tree.clone(), Advantage::Disadvantage);
        assert!(adv_tree.to_text().starts_with("2d20kl1"));
        assert_ne!(adv_tree.to_text(), orig.to_text());
        let adv_tree = utils::ast_with_adv(tree.clone(), Advantage::Normal);
        assert!(adv_tree.to_text().starts_with("1d20"));
        assert_eq!(adv_tree.to_text(), orig.to_text());
    }
    Ok(())
}

#[test]
fn test_inapplicable_adv_clone() -> Result<(), Error> {
    for expr in ["1", "1d6", "1+1"] {
        let tree = Node::Expression(parse(expr, false)?);
        let orig = tree.clone();
        let adv_tree = utils::ast_with_adv(tree, Advantage::Advantage);
        assert_eq!(adv_tree.to_text(), orig.to_text());
    }
    Ok(())
}
