use dice::ast::{self, Node};
use dice::expr::{Number, NumberKind};
use dice::num::Decimal;
use dice::{parse, roll, utils, Error, HasChildren, SimpleFormatter, Formatter};

fn lit(n: i128) -> Node {
    Node::Literal(ast::Literal::new(Decimal { mantissa: n, scale: 0 }))
}

#[test]
fn set_and_kept_set_follow_the_operators() -> Result<(), Error> {
    let r = roll("(3, 1, 2)kh2")?;
    let inner = r.expression().child(0);
    assert_eq!(inner.set().len(), 3);
    let kept = inner.kept_set();
    assert_eq!(kept.len(), 2);
    assert_eq!(SimpleFormatter.format(kept[0]), "3");
    assert_eq!(SimpleFormatter.format(kept[1]), "2");
    let d = roll("4d6kh3")?;
    assert_eq!(d.expression().child(0).set().len(), 4);
    assert_eq!(d.expression().child(0).kept_set().len(), 3);
    let single = roll("1 + 2")?;
    assert_eq!(single.expression().child(0).set().len(), 1);
    Ok(())
}

#[test]
fn kind_mut_changes_the_kind_in_place() -> Result<(), Error> {
    let mut n = roll("5")?.expression().clone();
    if let NumberKind::Expression(e) = n.kind_mut() {
        e.comment = Some(String::from("note"));
    }
    match n.kind() {
        NumberKind::Expression(e) => assert_eq!(e.comment(), Some("note")),
        _ => panic!("still an expression"),
    }
    assert!(n.kept());
    Ok(())
}

#[test]
fn set_left_and_right_replace_children() -> Result<(), Error> {
    let tree = Node::Expression(parse("1 + 2", false)?);
    let mut binop = tree.child(0).clone();
    binop.set_right(lit(5));
    assert_eq!(binop.to_text(), "1 + 5");
    binop.set_left(lit(4));
    assert_eq!(binop.to_text(), "4 + 5");
    Ok(())
}

#[test]
fn map_tree_maps_every_level() -> Result<(), Error> {
    let tree = Node::Expression(parse("(1, (2, 3))kh1", false)?);
    let bump = |node: Node| match &node {
        Node::Literal(l) => lit(l.value().mantissa + 10),
        _ => node.clone(),
    };
    let mapped = utils::map_tree(&tree, bump);
    assert_eq!(mapped.to_text(), "(11, (12, 13))kh1");
    Ok(())
}

#[test]
fn mapping_with_the_identity_keeps_the_tree() -> Result<(), Error> {
    let tree = Node::Expression(parse("2d6kh1 + (1, 2.5)p<2 [fire]", false)?);
    let same = utils::map_tree(&tree, |n: Node| n);
    assert_eq!(same.to_text(), tree.to_text());
    Ok(())
}
