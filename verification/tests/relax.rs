use regex_automata::util::syntax;
use regex_syntax::hir::{Hir, HirKind};
use sheng::relax::{bounded, relax, Shape};

/// The shape of a parsed pattern, leaves numbered in the order they are met.
fn shape_of(hir: &Hir, leaves: &mut usize) -> Shape {
    match hir.kind() {
        HirKind::Empty | HirKind::Literal(_) | HirKind::Class(_) | HirKind::Look(_) => {
            *leaves += 1;
            Shape::Leaf(*leaves - 1)
        }
        HirKind::Repetition(rep) => Shape::Repetition {
            min: rep.min,
            max: rep.max,
            greedy: rep.greedy,
            sub: Box::new(shape_of(&rep.sub, leaves)),
        },
        HirKind::Capture(cap) => Shape::Capture {
            index: cap.index,
            name: cap.name.as_ref().map(|n| n.to_string()),
            sub: Box::new(shape_of(&cap.sub, leaves)),
        },
        HirKind::Concat(subs) => Shape::Concat(subs.iter().map(|h| shape_of(h, leaves)).collect()),
        HirKind::Alternation(subs) => {
            Shape::Alternation(subs.iter().map(|h| shape_of(h, leaves)).collect())
        }
    }
}

fn parsed(pattern: &str) -> Shape {
    let hir = syntax::parse_with(pattern, &syntax::Config::new().utf8(false)).unwrap();
    shape_of(&hir, &mut 0)
}

fn copy(s: &Shape) -> Shape {
    match s {
        Shape::Leaf(x) => Shape::Leaf(*x),
        Shape::Repetition { min, max, greedy, sub } => Shape::Repetition {
            min: *min,
            max: *max,
            greedy: *greedy,
            sub: Box::new(copy(sub)),
        },
        Shape::Capture { index, name, sub } => Shape::Capture {
            index: *index,
            name: name.clone(),
            sub: Box::new(copy(sub)),
        },
        Shape::Concat(subs) => Shape::Concat(subs.iter().map(copy).collect()),
        Shape::Alternation(subs) => Shape::Alternation(subs.iter().map(copy).collect()),
    }
}

fn same(a: &Shape, b: &Shape) -> bool {
    match (a, b) {
        (Shape::Leaf(x), Shape::Leaf(y)) => x == y,
        (
            Shape::Repetition { min, max, greedy, sub },
            Shape::Repetition { min: m, max: x, greedy: g, sub: t },
        ) => min == m && max == x && greedy == g && same(sub, t),
        (Shape::Capture { index, name, sub }, Shape::Capture { index: i, name: n, sub: t }) => {
            index == i && name == n && same(sub, t)
        }
        (Shape::Concat(v), Shape::Concat(w)) | (Shape::Alternation(v), Shape::Alternation(w)) => {
            v.len() == w.len() && v.iter().zip(w).all(|(a, b)| same(a, b))
        }
        _ => false,
    }
}

#[test]
fn a_counted_repeat_is_seen_wherever_it_sits() {
    let bounded_of = |pattern: &str| bounded(&parsed(pattern));
    for pattern in [
        r"(?-u)[0-9]{3}",
        r"(?-u)a{2,}",
        r"(?-u)AKIA[0-9A-Z]{16}",
        r"(?-u)(?:ab){2,4}c",
        r"(?-u)x|y{3}",
        r"(?-u)([a-z]{4})",
        r"(?-u)a(b(c{9}))",
    ] {
        assert!(bounded_of(pattern), "{pattern} carries a bound");
    }
    for pattern in [
        r"(?-u)[0-9]+",
        r"(?-u)a*b",
        r"(?-u)\bTODO\b",
        r"(?-u)foo[^\n]*bar",
        r"(?-u)(alpha|beta)",
    ] {
        assert!(
            !bounded_of(pattern),
            "{pattern} has no counted repeat and must not be dragged through a rebuild"
        );
    }
    assert!(bounded_of(r"(?-u)a?"));
}

#[test]
fn relaxing_leaves_no_bound_anywhere() {
    for pattern in [
        r"(?-u)AKIA[0-9A-Z]{16}",
        r"(?-u)([0-9]{3}-){2}[0-9]{4}",
        r"(?-u)(?:a{2}|b{3,7})c{1,9}",
        r"(?-u)\+?[0-9]{1,3}[ .-]?\(?[0-9]{3}\)?[ .-]?[0-9]{3}[ .-]?[0-9]{4}",
    ] {
        let once = relax(parsed(pattern));
        assert!(!bounded(&once), "{pattern} kept a bound through relaxation");
        assert!(same(&relax(copy(&once)), &once), "{pattern} is not a fixed point of its own relaxation");
    }
}

#[test]
fn a_repeat_keeps_its_lower_bound_of_one_and_loses_its_upper_bound() {
    let rep = |min, max| Shape::Repetition { min, max, greedy: true, sub: Box::new(Shape::Leaf(7)) };
    let want = |min| Shape::Repetition { min, max: None, greedy: true, sub: Box::new(Shape::Leaf(7)) };
    assert!(same(&relax(rep(16, Some(16))), &want(1)));
    assert!(same(&relax(rep(0, Some(1))), &want(0)));
    assert!(same(&relax(rep(1, None)), &want(1)));
    assert!(same(&relax(rep(0, None)), &want(0)));
    let lazy = Shape::Repetition { min: 3, max: Some(5), greedy: false, sub: Box::new(Shape::Leaf(0)) };
    match relax(lazy) {
        Shape::Repetition { min: 1, max: None, greedy: false, .. } => {}
        other => panic!("laziness or bounds changed: {other:?}"),
    }
    let named = Shape::Capture { index: 2, name: Some("year".to_string()), sub: Box::new(rep(4, Some(4))) };
    let want_named = Shape::Capture { index: 2, name: Some("year".to_string()), sub: Box::new(want(1)) };
    assert!(same(&relax(named), &want_named));
}
