use dandy::dfa::Dfa;
use dandy::error::Error;
use dandy::nfa::Nfa;
use dandy::parser;
use dandy::parser::tables::NfaAlphabetEntry;

const SIX: &str = "
     ε    a       b
→ s₀ {}   {s₁}    {s₀ s₂}
  s₁ {s₂} {s₄}    {s₃}
  s₂ {}   {s₁ s₄} {s₃}
  s₃ {s₅} {s₄ s₅} {}
  s₄ {s₃} {}      {s₅}
* s₅ {}   {s₅}    {s₅}
";

fn nfa(text: &str) -> Nfa {
    Nfa::parse(text).unwrap()
}

#[test]
fn nfa_with_epsilon_moves_accepts() {
    let parsed = parser::nfa(SIX).unwrap();
    assert_eq!(
        parsed.head,
        vec![
            NfaAlphabetEntry::Eps,
            NfaAlphabetEntry::Element("a"),
            NfaAlphabetEntry::Element("b")
        ]
    );
    let n = Nfa::try_from(parsed).unwrap();
    assert_eq!(n.alphabet(), &["a".to_string(), "b".to_string()]);
    assert_eq!(n.states().len(), 6);
    assert_eq!(n.states()[1].epsilon_transitions(), &[2]);
    assert_eq!(n.states()[2].transitions(), &[vec![1, 4], vec![3]]);
    assert!(n.has_epsilon_moves());
    let table: [(&[&str], bool); 12] = [
        (&[], false),
        (&["a"], false),
        (&["b"], false),
        (&["a", "a"], true),
        (&["a", "b"], true),
        (&["b", "a"], true),
        (&["b", "b"], true),
        (&["b", "b", "b"], true),
        (&["a", "b", "b"], true),
        (&["a", "a", "b"], true),
        (&["c"], false),
        (&["a", "a", "c"], false),
    ];
    for (word, accepted) in table {
        assert_eq!(n.accepts(word), accepted, "{:?}", word);
    }
}

#[test]
fn test_subset_construction() {
    // The deterministic automaton was made by hand from the six states
    // above: its states are the sets of states that the words reach.
    let dfa_source = "
                a    b
    →  0        12   02
       12       all  35
       02       all  0235
     * all      all  35
     * 35       45   5
     * 0235     all  0235
     * 45       5    5
     * 5        5    5
    ";
    let parsed_dfa = parser::dfa(dfa_source).unwrap();
    let dfa: Dfa = Dfa::try_from(parsed_dfa).unwrap();

    let nfa_source = SIX;
    let parsed_nfa = parser::nfa(nfa_source).unwrap();
    let nfa: Nfa = Nfa::try_from(parsed_nfa).unwrap();

    let converted = nfa.to_dfa();
    assert!(dfa.equivalent_to(&converted));
}

#[test]
fn nfa_to_dfa_names_sets() {
    let n = nfa("a\n-> p {p q}\n * q {}\n");
    let d = n.to_dfa();
    let names: Vec<&str> = d.states().iter().map(|s| s.name()).collect();
    assert_eq!(names, vec!["{p}", "{p,q}"]);
    assert_eq!(d.states()[0].transitions(), &[1]);
    assert_eq!(d.states()[1].transitions(), &[1]);
    assert!(!d.states()[0].is_accepting());
    assert!(d.states()[1].is_accepting());
    let none = nfa("a\n-> * p {}\n").to_dfa();
    let names: Vec<&str> = none.states().iter().map(|s| s.name()).collect();
    assert_eq!(names, vec!["{p}", "{}"]);
    assert!(none.accepts(&[]));
    assert!(!none.accepts(&["a"]));
}

#[test]
fn nfa_to_dfa_to_nfa() {
    let n = nfa(SIX);
    let converted = n.to_dfa().to_nfa();
    assert!(n.equivalent_to(&converted));
    assert!(converted.equivalent_to(&n));
    assert!(!converted.has_epsilon_moves());
}

#[test]
fn nfa_remove_epsilon_moves() {
    let n = nfa(SIX);
    let mut plain = n.clone();
    plain.remove_epsilon_moves();
    assert!(n.equivalent_to(&plain));
    assert!(plain
        .states()
        .iter()
        .all(|s| s.epsilon_transitions().is_empty()));
    assert!(!plain.has_epsilon_moves());
    // s₁ reaches s₂ without reading, so it takes the moves of s₂ too.
    assert_eq!(plain.states()[1].transitions(), &[vec![1, 4], vec![3]]);
    // s₃ and s₄ reach the accepting state without reading.
    let flags: Vec<bool> = plain.states().iter().map(|s| s.is_accepting()).collect();
    assert_eq!(flags, vec![false, false, false, true, true, true]);
    assert_eq!(plain.states()[4].transitions(), &[vec![4, 5], vec![5]]);
}

#[test]
fn nfa_remove_unreachable_states() {
    let text = "
          eps  a
       u  {}   {s}
    -> s  {t}  {}
       v  {u}  {t}
     * t  {}   {s t}
    ";
    let n = nfa(text);
    let mut small = n.clone();
    small.remove_unreachable_states();
    assert!(n.equivalent_to(&small));
    assert_eq!(small.states().len(), 2);
    assert_eq!(small.initial_state_index(), 0);
    assert_eq!(small.states()[0].name(), "s");
    assert_eq!(small.states()[0].epsilon_transitions(), &[1]);
    assert_eq!(small.states()[1].transitions(), &[vec![0, 1]]);
}

#[test]
fn nfa_table_errors() {
    assert_eq!(Nfa::parse(""), Err(Error::NoHeader));
    assert_eq!(Nfa::parse("a }\n-> s {} {}\n"), Err(Error::Lex(0)));
    assert_eq!(Nfa::parse("a\n-> s {s\n"), Err(Error::Lex(1)));
    assert_eq!(Nfa::parse("a\n-> s s\n"), Err(Error::Lex(1)));
    assert_eq!(Nfa::parse("a\n-> s\n"), Err(Error::Lex(1)));
    assert_eq!(Nfa::parse("a\n-> s {s} }\n"), Err(Error::Lex(1)));
    assert_eq!(Nfa::parse("a\n-> s {s}\n t {{s}}\n"), Err(Error::Lex(2)));
    assert_eq!(
        Nfa::parse("a b a\n-> s {} {} {}\n"),
        Err(Error::DuplicateAlphabetSymbol("a".to_string()))
    );
    assert_eq!(
        Nfa::parse("eps a ε\n-> s {} {} {}\n"),
        Err(Error::DuplicateAlphabetSymbol("ε".to_string()))
    );
    assert_eq!(
        Nfa::parse("a\n-> s {}\n s {}\n"),
        Err(Error::DuplicateStateName("s".to_string()))
    );
    assert_eq!(Nfa::parse("a\n s {}\n"), Err(Error::NoInitialState));
    assert_eq!(
        Nfa::parse("a\n-> s {}\n → t {}\n"),
        Err(Error::MultipleInitialStates)
    );
    assert_eq!(
        Nfa::parse("a b\n-> s {s} {s t}\n"),
        Err(Error::UnknownStateReference("t".to_string()))
    );
    assert_eq!(
        Nfa::parse("a b\n-> s {s} {s}\n t {}\n"),
        Err(Error::RowWidthMismatch("t".to_string(), 1, 2))
    );
}

#[test]
fn nfa_table_is_read_back() {
    let n = nfa(SIX);
    let table = n.to_table();
    assert_eq!(
        table,
        "          ε       a       b\n\
         →   s₀   {}    {s₁} {s₀ s₂}\n\
         \x20   s₁ {s₂}    {s₄}    {s₃}\n\
         \x20   s₂   {} {s₁ s₄}    {s₃}\n\
         \x20   s₃ {s₅} {s₄ s₅}      {}\n\
         \x20   s₄ {s₃}      {}    {s₅}\n\
         \x20 * s₅   {}    {s₅}    {s₅}\n"
    );
    assert_eq!(Nfa::parse(&table), Ok(n));
    // The targets keep the order in which the table lists them.
    let unordered = nfa("a\n-> p {q p q}\n * q {}\n");
    assert_eq!(unordered.states()[0].transitions(), &[vec![1, 0, 1]]);
    assert_eq!(
        unordered.to_table(),
        "            a\n→   p {q p q}\n  * q      {}\n"
    );
    assert_eq!(Nfa::parse(&unordered.to_table()), Ok(unordered));
    // The column of the moves that read nothing may stand anywhere.
    let late = nfa("a eps\n-> p {} {q}\n * q {p} {}\n");
    assert_eq!(late.states()[0].epsilon_transitions(), &[1]);
    assert_eq!(late.states()[1].transitions(), &[vec![0]]);
    assert_eq!(Nfa::parse(&late.to_table()), Ok(late));
}
