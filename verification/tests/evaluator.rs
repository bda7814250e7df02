use dandy::dfa::Dfa;

#[test]
fn dfa_evaluator_steps() {
    let dfa = Dfa::parse("a b\n-> s t s\n * t t u\n u u u\n").unwrap();
    let mut run = dfa.evaluator();
    assert!(!run.is_accepting());
    assert_eq!(run.current_state_idx(), Some(0));
    assert_eq!(run.current_state().unwrap().name(), "s");
    assert_eq!(run.step("a").unwrap().name(), "t");
    assert!(run.is_accepting());
    assert_eq!(run.step("a").unwrap().name(), "t");
    assert_eq!(run.step("b").unwrap().name(), "u");
    assert!(!run.is_accepting());
    run.step_multiple(&["a", "b"]);
    assert_eq!(run.current_state_idx(), Some(2));
    // A token outside the alphabet leaves the run without a state.
    assert!(run.step("c").is_none());
    assert_eq!(run.current_state_idx(), None);
    assert!(run.current_state().is_none());
    assert!(!run.is_accepting());
    assert!(run.step("a").is_none());
    let mut run = dfa.evaluator();
    run.step_multiple(&["b", "b", "a"]);
    assert_eq!(run.is_accepting(), dfa.accepts(&["b", "b", "a"]));
    assert!(run.is_accepting());
}

#[test]
fn dfa_unreachable_states_and_classes() {
    let dfa = Dfa::parse("a\n u u\n-> s t\n v s\n * t t\n").unwrap();
    assert_eq!(dfa.unreachable_states(), vec![0, 2]);
    let dfa = Dfa::parse("a b c\n→ * x z x y\n * y y y y\n z y w z\n w y z w\n").unwrap();
    assert_eq!(dfa.unreachable_states(), Vec::<usize>::new());
    assert_eq!(
        dfa.state_equivalence_classes(),
        vec![vec![0], vec![1], vec![2, 3]]
    );
}
