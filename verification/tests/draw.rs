use dandy::dfa::Dfa;
use dandy::draw::{
    can_draw_dfa, can_draw_nfa, dfa_ascii_art, dfa_to_arrows, group_arrows, nfa_ascii_art,
    nfa_to_arrows, place_arrows, Arrow, Direction,
};
use dandy::nfa::Nfa;

#[test]
fn arrows_point_along_the_row() {
    let right = Arrow::new(1, 3, "a");
    assert_eq!((right.left(), right.right()), (1, 3));
    assert_eq!(right.direction(), Direction::Right);
    assert_eq!(right.label(), "a");
    let left = Arrow::new(3, 1, "b");
    assert_eq!((left.left(), left.right()), (1, 3));
    assert_eq!(left.direction(), Direction::Left);
    let spot = Arrow::new(2, 2, "c");
    assert_eq!((spot.left(), spot.right()), (2, 2));
    assert_eq!(spot.direction(), Direction::Spot);
}

#[test]
fn arrows_of_automata() {
    let dfa = Dfa::parse("a b\n-> s t s\n * t s t\n").unwrap();
    let arrows = dfa_to_arrows(&dfa);
    assert_eq!(
        arrows,
        vec![
            Arrow::new(0, 1, "a"),
            Arrow::new(0, 0, "b"),
            Arrow::new(1, 0, "a"),
            Arrow::new(1, 1, "b")
        ]
    );
    let nfa = Nfa::parse("eps a\n-> s {t} {s t}\n * t {} {}\n").unwrap();
    let arrows = nfa_to_arrows(&nfa);
    assert_eq!(
        arrows,
        vec![
            Arrow::new(0, 0, "a"),
            Arrow::new(0, 1, "a"),
            Arrow::new(0, 1, "ε")
        ]
    );
}

#[test]
fn arrows_are_grouped_and_placed() {
    let arrows = vec![
        Arrow::new(0, 1, "a"),
        Arrow::new(1, 2, "a"),
        Arrow::new(0, 1, "b"),
        Arrow::new(2, 0, "c"),
        Arrow::new(0, 2, "d"),
        Arrow::new(1, 1, "e"),
    ];
    let groups = group_arrows(arrows);
    let shown: Vec<(usize, usize, Direction, String)> = groups
        .iter()
        .map(|g| (g.left(), g.right(), g.direction(), g.label()))
        .collect();
    assert_eq!(
        shown,
        vec![
            (0, 1, Direction::Right, "a, b".to_string()),
            (1, 2, Direction::Right, "a".to_string()),
            (0, 2, Direction::Left, "c".to_string()),
            (0, 2, Direction::Right, "d".to_string()),
            (1, 1, Direction::Spot, "e".to_string()),
        ]
    );
    let (placed, levels) = place_arrows(groups);
    assert_eq!(levels, 4);
    let shown: Vec<(String, usize)> = placed
        .iter()
        .map(|p| (p.arrow().label(), p.level()))
        .collect();
    // The arrows are tried in the order of their ends, the later of two
    // with the same end first. An arrow that stays at a state takes the
    // place of that state, so that an arrow from that state goes above it.
    assert_eq!(
        shown,
        vec![
            ("e".to_string(), 0),
            ("a, b".to_string(), 1),
            ("a".to_string(), 1),
            ("d".to_string(), 2),
            ("c".to_string(), 3),
        ]
    );
}

#[test]
fn dfa_is_drawn() {
    let dfa = Dfa::parse("a b\n-> s t s\n * t s t\n").unwrap();
    assert!(can_draw_dfa(&dfa));
    let art = dfa_ascii_art(&dfa);
    let lines: Vec<&str> = art.split('\n').collect();
    assert_eq!(lines.len(), 7);
    for line in &lines[..6] {
        assert_eq!(line.chars().count(), 22);
    }
    // The arrows between the two states take a level each, the loops
    // share the level next to the states.
    assert_eq!(
        lines,
        vec![
            "       -->----        ",
            "       |a    |        ",
            "       -----<-        ",
            "       |a    |        ",
            "     ->-     ->-      ",
            "     | |     | |      ",
            "-> (  s  ) (( t )) ",
        ]
    );
}

#[test]
fn nfa_is_drawn() {
    let nfa = Nfa::parse("eps a\n-> one {two} {}\n * two {} {}\n").unwrap();
    assert!(can_draw_nfa(&nfa));
    let art = nfa_ascii_art(&nfa);
    assert_eq!(
        art,
        "         -->----            \n         |ε    |            \n-> (  one  ) (( two )) "
    );
    let alone = Nfa::parse("a\n-> * s {}\n").unwrap();
    assert_eq!(nfa_ascii_art(&alone), "-> (( s )) ");
}

#[test]
fn labels_are_joined_and_names_are_padded() {
    let dfa = Dfa::parse("x y\n-> first b b\n * b first first\n").unwrap();
    let art = dfa_ascii_art(&dfa);
    let lines: Vec<&str> = art.split('\n').collect();
    assert_eq!(
        lines,
        vec![
            "           -->----                ",
            "           |x, y |                ",
            "           -----<-                ",
            "           |x, y |                ",
            "-> (  first  ) (( b     )) ",
        ]
    );
}
