use dandy::dfa::Dfa;
use dandy::dfa::product::Combination;
use dandy::error::Error;
use dandy::parser;

const FIRST: &str = "
       a  b  c
→ * s0 s1 s0 s2
    s1 s2 s1 s1
  * s2 s2 s2 s2
";

const SECOND: &str = "
    a b c
→ * x z x y
  * y y y y
    z y w z
    w y z w
";

const HAS_A: &str = "
      a b
-> n  y n
 * y  y y
";

const EVEN: &str = "
      a b   # words of even length
-> * e o o
    o e e
";

fn dfa(text: &str) -> Dfa {
    Dfa::parse(text).unwrap()
}

#[test]
fn dfa_accepts_words() {
    let parsed = parser::dfa(FIRST).unwrap();
    let dfa = Dfa::try_from(parsed).unwrap();
    assert!(dfa.accepts(&["a", "b", "c", "c", "a"]));
    assert!(dfa.accepts(&["c", "b", "a"]));
    assert!(!dfa.accepts(&["a", "b", "b", "c"]));
    assert!(dfa.accepts(&[]));
    // A token outside the alphabet rejects the word.
    assert!(!dfa.accepts(&["c", "d"]));
    assert!(!dfa.accepts(&["ab"]));
}

#[test]
fn dfa_equivalence() {
    let first = dfa(FIRST);
    let second = dfa(SECOND);
    assert!(first.equivalent_to(&second));
    assert!(second.equivalent_to(&first));
    assert!(first.equivalent_to(&first));
    assert!(!first.equivalent_to(&dfa(HAS_A)));
}

#[test]
fn dfa_equivalence_over_different_alphabets() {
    // The same words over a and b; the second automaton also knows c, and
    // rejects every word that holds it.
    let narrow = dfa("a b\n-> * p p q\n q q q\n");
    let wide = dfa("c b a\n-> * p t q p\n q t q q\n t t t t\n");
    assert!(narrow.equivalent_to(&wide));
    assert!(wide.equivalent_to(&narrow));
    // Here a word with c is accepted.
    let wider = dfa("c b a\n-> * p p q p\n q t q q\n t t t t\n");
    assert!(!narrow.equivalent_to(&wider));
}

#[test]
fn dfa_union_and_intersection() {
    let has_a = dfa(HAS_A);
    let even = dfa(EVEN);
    let both = has_a.intersection(&even).unwrap();
    assert!(!both.accepts(&[]));
    assert!(!both.accepts(&["a"]));
    assert!(!both.accepts(&["b", "b"]));
    assert!(both.accepts(&["a", "b"]));
    assert!(both.accepts(&["b", "a"]));
    assert!(both.accepts(&["a", "a", "b", "b"]));
    let either = has_a.union(&even).unwrap();
    assert!(either.accepts(&[]));
    assert!(either.accepts(&["a"]));
    assert!(either.accepts(&["b", "b"]));
    assert!(!either.accepts(&["b"]));
    let only_first = has_a.difference(&even).unwrap();
    assert!(only_first.accepts(&["a"]));
    assert!(!only_first.accepts(&["a", "b"]));
    assert!(!only_first.accepts(&["b"]));
    let one = has_a.symmetric_difference(&even).unwrap();
    assert!(one.accepts(&["a"]));
    assert!(one.accepts(&[]));
    assert!(!one.accepts(&["a", "b"]));
    assert!(!one.accepts(&["b"]));
}

#[test]
fn dfa_product_names_and_states() {
    let has_a = dfa(HAS_A);
    let even = dfa(EVEN);
    let both = has_a
        .product_construction(&even, Combination::Intersection)
        .unwrap();
    let names: Vec<&str> = both.states().iter().map(|s| s.name()).collect();
    assert_eq!(names, vec!["(n,e)", "(y,o)", "(n,o)", "(y,e)"]);
    assert_eq!(both.initial_state_index(), 0);
    assert!(both.states()[0].is_initial());
    assert_eq!(both.states()[0].transitions(), &[1, 2]);
    let flags: Vec<bool> = both.states().iter().map(|s| s.is_accepting()).collect();
    assert_eq!(flags, vec![false, false, false, true]);
}

#[test]
fn dfa_product_takes_alphabets_in_any_order() {
    let first = dfa("a b\n-> * p q p\n q q q\n");
    let second = dfa("b a\n-> * p p q\n q q q\n");
    let both = first.intersection(&second).unwrap();
    assert_eq!(both.alphabet(), &["a".to_string(), "b".to_string()]);
    assert!(both.accepts(&["b", "b"]));
    assert!(!both.accepts(&["b", "a"]));
    assert!(both.equivalent_to(&first));
}

#[test]
fn dfa_product_rejects_other_alphabets() {
    let first = dfa(HAS_A);
    let second = dfa(FIRST);
    assert_eq!(first.union(&second), Err(Error::AlphabetMismatch));
    assert_eq!(first.intersection(&second), Err(Error::AlphabetMismatch));
    assert_eq!(first.difference(&second), Err(Error::AlphabetMismatch));
    assert_eq!(
        first.symmetric_difference(&second),
        Err(Error::AlphabetMismatch)
    );
}

#[test]
fn dfa_self_union_and_intersection() {
    let first = dfa(FIRST);
    assert!(first.union(&first).unwrap().equivalent_to(&first));
    assert!(first.intersection(&first).unwrap().equivalent_to(&first));
}

#[test]
fn dfa_inversion_laws() {
    let first = dfa(FIRST);
    let mut inverse = first.clone();
    inverse.invert();
    assert!(!inverse.accepts(&["a", "b", "c", "c", "a"]));
    assert!(inverse.accepts(&["a", "b", "b", "c"]));
    assert!(!inverse.accepts(&["d"]));
    let union = first.union(&inverse).unwrap();
    let intersection = first.intersection(&inverse).unwrap();
    assert!(union.has_reachable_accepting_state());
    assert!(!intersection.has_reachable_accepting_state());
    for word in [vec![], vec!["a"], vec!["a", "b", "b", "c"], vec!["c", "c"]] {
        assert!(union.accepts(&word));
        assert!(!intersection.accepts(&word));
        assert!(first.accepts(&word) != inverse.accepts(&word));
    }
}

#[test]
fn dfa_minimization_merges_traps() {
    // t1 and t2 are traps that no word tells apart; u is never reached.
    let text = "
          a  b
    -> s  p  t1
       p  q  t2
     * q  q  q
       t2 t2 t1
       t1 t1 t2
       u  s  q
    ";
    let given = dfa(text);
    let mut small = given.clone();
    small.minimize();
    assert_eq!(small.states().len(), 4);
    assert!(small.equivalent_to(&given));
    assert!(given.equivalent_to(&small));
    let names: Vec<&str> = small.states().iter().map(|s| s.name()).collect();
    assert_eq!(names, vec!["s", "p", "q", "t1"]);
    assert_eq!(small.states()[0].transitions(), &[1, 3]);
    assert_eq!(small.states()[3].transitions(), &[3, 3]);
    assert!(small.states()[0].is_initial());
    assert!(small.states()[2].is_accepting());
}

#[test]
fn dfa_minimize_keeps_the_smallest_name() {
    let mut d = dfa("a\n-> * z b\n * b a\n * a z\n");
    d.minimize();
    assert_eq!(d.states().len(), 1);
    assert_eq!(d.states()[0].name(), "a");
    assert!(d.states()[0].is_initial());
    assert!(d.states()[0].is_accepting());
    assert_eq!(d.states()[0].transitions(), &[0]);
}

#[test]
fn dfa_second_minimizes_to_first() {
    let first = dfa(FIRST);
    let mut second = dfa(SECOND);
    second.minimize();
    assert_eq!(second.states().len(), 3);
    let mut copy = first.clone();
    copy.minimize();
    assert_eq!(copy.states().len(), 3);
    assert_eq!(copy, first);
}

#[test]
fn dfa_unreachable_states_are_removed() {
    let mut d = dfa("a\n u u\n -> s t\n v s\n * t t\n");
    assert_eq!(d.reachable_states(), vec![false, true, false, true]);
    let given = d.clone();
    d.remove_unreachable_states();
    assert_eq!(d.states().len(), 2);
    assert_eq!(d.initial_state_index(), 0);
    assert_eq!(d.states()[0].name(), "s");
    assert_eq!(d.states()[0].transitions(), &[1]);
    assert_eq!(d.states()[1].transitions(), &[1]);
    assert!(d.equivalent_to(&given));
}

#[test]
fn dfa_distinguishable_states() {
    let table = dfa(SECOND).distinguishable_states();
    // x and y accept everything that is accepted at all ...
    assert_eq!(table[0], vec![false, true, true, true]);
    // ... and z and w are told apart from both, but not from each other.
    assert_eq!(table[2], vec![true, true, false, false]);
    assert_eq!(table[3], vec![true, true, false, false]);
}

#[test]
fn dfa_table_errors() {
    assert_eq!(Dfa::parse(""), Err(Error::NoHeader));
    assert_eq!(Dfa::parse("  # nothing\n\n"), Err(Error::NoHeader));
    assert_eq!(Dfa::parse("a *\n-> s s s\n"), Err(Error::Lex(0)));
    assert_eq!(Dfa::parse("a\n-> s s\n t\n"), Err(Error::Lex(2)));
    assert_eq!(Dfa::parse("a\n-> -> s s\n"), Err(Error::Lex(1)));
    assert_eq!(Dfa::parse("a\n-> s |\n"), Err(Error::Lex(1)));
    assert_eq!(Dfa::parse("a ε\n-> s s s\n"), Err(Error::EpsilonInDfa));
    assert_eq!(Dfa::parse("a eps\n-> s s s\n"), Err(Error::EpsilonInDfa));
    assert_eq!(
        Dfa::parse("a b a\n-> s s s s\n"),
        Err(Error::DuplicateAlphabetSymbol("a".to_string()))
    );
    assert_eq!(
        Dfa::parse("a\n-> s s\n t t\n s t\n"),
        Err(Error::DuplicateStateName("s".to_string()))
    );
    assert_eq!(Dfa::parse("a\n s s\n"), Err(Error::NoInitialState));
    assert_eq!(Dfa::parse("a\n"), Err(Error::NoInitialState));
    assert_eq!(
        Dfa::parse("a\n-> s s\n-> t t\n"),
        Err(Error::MultipleInitialStates)
    );
    assert_eq!(
        Dfa::parse("a b\n-> s s u\n t v s\n"),
        Err(Error::UnknownStateReference("u".to_string()))
    );
    assert_eq!(
        Dfa::parse("a b\n-> s s s\n t s\n"),
        Err(Error::RowWidthMismatch("t".to_string(), 1, 2))
    );
    // A target that is unknown is reported before a row that is too long.
    assert_eq!(
        Dfa::parse("a\n-> s s s\n t u\n"),
        Err(Error::UnknownStateReference("u".to_string()))
    );
}

#[test]
fn dfa_marks_in_either_order() {
    let d = dfa("a\n* → s s\n");
    assert!(d.states()[0].is_initial() && d.states()[0].is_accepting());
    let d = dfa("a\n-> * s s\n");
    assert!(d.states()[0].is_initial() && d.states()[0].is_accepting());
    let d = dfa("a\r\n-> s t\r\n* t s\r\n");
    assert!(!d.states()[0].is_accepting() && d.states()[1].is_accepting());
}

#[test]
fn dfa_table_is_read_back() {
    for text in [FIRST, SECOND, HAS_A, EVEN] {
        let given = dfa(text);
        let table = given.to_table();
        assert_eq!(Dfa::parse(&table), Ok(given));
    }
    let long = dfa("alpha b\n-> * one one a-long-name\n a-long-name one one\n");
    assert_eq!(
        long.to_table(),
        "                alpha           b\n\u{2192} *         one   one a-long-name\n    a-long-name   one         one\n"
    );
    assert_eq!(Dfa::parse(&long.to_table()), Ok(long));
}

#[test]
fn dfa_to_nfa_to_dfa() {
    for text in [FIRST, SECOND, HAS_A, EVEN] {
        let given = dfa(text);
        let converted = given.to_nfa().to_dfa();
        assert!(given.equivalent_to(&converted));
        assert!(converted.equivalent_to(&given));
    }
    let back = dfa(HAS_A).to_nfa().to_dfa();
    let names: Vec<&str> = back.states().iter().map(|s| s.name()).collect();
    assert_eq!(names, vec!["{n}", "{y}"]);
}
