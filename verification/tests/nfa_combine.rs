use dandy::dfa::product::Combination;
use dandy::error::Error;
use dandy::nfa::Nfa;

const ENDS_WITH_A: &str = "
      a        b
→ u0 {u0 u1}  {u0}
* u1 {}       {}
";

const ONLY_B: &str = "
      ε     b      a
→ r0 {r1}  {}     {}
  r1 {}    {r2}   {}
* r2 {}    {r2}   {}
";

const HOLDS_B: &str = "
      ε     b      a
→ r0 {}    {r1}   {r0}
* r1 {r2}  {}     {}
  r2 {}    {r1}   {r1}
";

const OTHER_SYMBOLS: &str = "
      a     c
→ t0 {t0}  {t1}
* t1 {}    {}
";

fn automaton(text: &str) -> Nfa {
    Nfa::parse(text).unwrap()
}

#[test]
fn nfa_union_accepts_what_either_accepts() {
    let first = automaton(ENDS_WITH_A);
    let second = automaton(ONLY_B);
    let either = automaton(ENDS_WITH_A).union(automaton(ONLY_B)).unwrap();
    let words: [&[&str]; 10] = [
        &[],
        &["a"],
        &["b"],
        &["b", "b"],
        &["b", "a"],
        &["a", "b"],
        &["a", "a"],
        &["b", "a", "b"],
        &["c"],
        &["a", "c"],
    ];
    for word in words {
        assert_eq!(
            either.accepts(word),
            first.accepts(word) || second.accepts(word),
            "{:?}",
            word
        );
    }
    assert!(either.accepts(&["a"]));
    assert!(either.accepts(&["b", "b"]));
    assert!(!either.accepts(&["a", "b"]));
    assert!(!either.accepts(&[]));
}

#[test]
fn nfa_union_puts_a_new_initial_state_first() {
    let either = automaton(ENDS_WITH_A).union(automaton(ONLY_B)).unwrap();
    assert_eq!(either.alphabet(), &["a".to_string(), "b".to_string()]);
    assert_eq!(either.states().len(), 6);
    assert_eq!(either.initial_state_index(), 0);
    let names: Vec<&str> = either.states().iter().map(|s| s.name()).collect();
    assert_eq!(names, vec!["q0", "q1", "q2", "q3", "q4", "q5"]);
    let start = &either.states()[0];
    assert!(start.is_initial());
    assert!(!start.is_accepting());
    assert_eq!(start.epsilon_transitions(), &[1, 3]);
    assert_eq!(start.transitions(), &[vec![], vec![]]);
    assert_eq!(either.states()[1].transitions(), &[vec![1, 2], vec![1]]);
    assert!(either.states()[2].is_accepting());
    assert_eq!(either.states()[3].epsilon_transitions(), &[4]);
    assert_eq!(either.states()[4].transitions(), &[vec![], vec![5]]);
    assert_eq!(either.states()[5].transitions(), &[vec![], vec![5]]);
    assert!(either.states()[5].is_accepting());
    assert!(!either.states()[3].is_initial());
}

#[test]
fn nfa_intersection_accepts_what_both_accept() {
    let first = automaton(ENDS_WITH_A);
    let second = automaton(HOLDS_B);
    let both = first.intersection(&second).unwrap();
    let words: [(&[&str], bool); 9] = [
        (&[], false),
        (&["a"], false),
        (&["b"], false),
        (&["b", "a"], true),
        (&["a", "b"], false),
        (&["a", "b", "a"], true),
        (&["b", "b", "a"], true),
        (&["a", "a"], false),
        (&["b", "c"], false),
    ];
    for (word, accepted) in words {
        assert_eq!(both.accepts(word), accepted, "{:?}", word);
        assert_eq!(first.accepts(word) && second.accepts(word), accepted, "{:?}", word);
    }
}

#[test]
fn nfa_product_names_the_pairs_it_reaches() {
    let first = automaton(ENDS_WITH_A);
    let second = automaton(HOLDS_B);
    let pairs = first
        .product_construction(&second, Combination::Intersection)
        .unwrap();
    assert_eq!(pairs.alphabet(), &["a".to_string(), "b".to_string()]);
    assert_eq!(pairs.initial_state_index(), 0);
    let names: Vec<&str> = pairs.states().iter().map(|s| s.name()).collect();
    assert_eq!(
        names,
        vec!["(u0,r0)", "(u1,r0)", "(u0,r1)", "(u0,r2)", "(u1,r1)", "(u1,r2)"]
    );
    assert_eq!(pairs.states()[0].transitions(), &[vec![0, 1], vec![2]]);
    assert_eq!(pairs.states()[2].epsilon_transitions(), &[3]);
    assert_eq!(pairs.states()[3].transitions(), &[vec![2, 4], vec![2]]);
    assert_eq!(pairs.states()[4].epsilon_transitions(), &[5]);
    let accepting: Vec<bool> = pairs.states().iter().map(|s| s.is_accepting()).collect();
    assert_eq!(accepting, vec![false, false, false, false, true, false]);
}

#[test]
fn nfa_product_of_an_empty_language_accepts_nothing() {
    let first = automaton(ENDS_WITH_A);
    let second = automaton(ONLY_B);
    let both = first.intersection(&second).unwrap();
    let words: [&[&str]; 6] = [&[], &["a"], &["b"], &["b", "a"], &["a", "b"], &["b", "b"]];
    for word in words {
        assert!(!both.accepts(word), "{:?}", word);
    }
}

#[test]
fn nfa_combinations_need_the_same_symbols() {
    let first = automaton(ENDS_WITH_A);
    let second = automaton(OTHER_SYMBOLS);
    assert_eq!(first.intersection(&second), Err(Error::AlphabetMismatch));
    assert_eq!(
        first.product_construction(&second, Combination::Union),
        Err(Error::AlphabetMismatch)
    );
    assert_eq!(
        automaton(ENDS_WITH_A).union(automaton(OTHER_SYMBOLS)),
        Err(Error::AlphabetMismatch)
    );
}
