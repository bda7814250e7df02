use dandy::dfa::Dfa;
use dandy::nfa::Nfa;

#[test]
fn nfa_words_in_order() {
    // Words over a and b that end in b.
    let n = Nfa::parse("a b\n-> p {p} {p q}\n * q {} {}\n").unwrap();
    assert_eq!(
        n.word_component_indices(3, 100),
        vec![
            vec![1],
            vec![0, 1],
            vec![1, 1],
            vec![0, 0, 1],
            vec![0, 1, 1],
            vec![1, 0, 1],
            vec![1, 1, 1]
        ]
    );
    assert_eq!(n.words(2, 100), vec!["b", "ab", "bb"]);
    assert_eq!(n.words(5, 4), vec!["b", "ab", "bb", "aab"]);
    assert_eq!(n.words(0, 4), Vec::<String>::new());
    assert_eq!(n.word_component_indices(3, 0), Vec::<Vec<usize>>::new());
    // The order is that of the alphabet, not that of the characters.
    let n = Nfa::parse("b a\n-> * p {p} {q}\n q {} {}\n").unwrap();
    assert_eq!(n.words(2, 100), vec!["", "b", "bb"]);
    let n = Nfa::parse("b a\n-> * p {p} {p}\n").unwrap();
    assert_eq!(n.words(2, 100), vec!["", "b", "a", "bb", "ba", "ab", "aa"]);
}

#[test]
fn nfa_words_of_a_finite_language() {
    let n = Nfa::parse("eps x\n-> p {q} {}\n q {} {r}\n * r {} {}\n").unwrap();
    assert_eq!(n.words(10, 10), vec!["x"]);
}

#[test]
fn nfa_words_and_the_words_of_the_inverse() {
    let dfa = Dfa::parse("a b\n-> s t s\n * t s u\n u u t\n").unwrap();
    let nfa = dfa.to_nfa();
    let mut inverse = dfa.clone();
    inverse.invert();
    let inverse = inverse.to_nfa();
    let accepted = nfa.word_component_indices(4, 1000);
    let rejected = inverse.word_component_indices(4, 1000);
    for word in &accepted {
        let tokens: Vec<&str> = word.iter().map(|&x| ["a", "b"][x]).collect();
        assert!(nfa.accepts(&tokens));
        assert!(!inverse.accepts(&tokens));
    }
    for word in &rejected {
        let tokens: Vec<&str> = word.iter().map(|&x| ["a", "b"][x]).collect();
        assert!(!nfa.accepts(&tokens));
        assert!(inverse.accepts(&tokens));
    }
    // Merging the two lists gives every word of at most four symbols once,
    // shorter words first and words of one length in rising order.
    let mut all: Vec<Vec<usize>> = vec![vec![]];
    let mut last: Vec<Vec<usize>> = vec![vec![]];
    for _ in 0..4 {
        let mut next = Vec::new();
        for word in &last {
            for x in 0..2 {
                let mut longer = word.clone();
                longer.push(x);
                next.push(longer);
            }
        }
        all.extend(next.iter().cloned());
        last = next;
    }
    let mut a = accepted.iter().peekable();
    let mut r = rejected.iter().peekable();
    for word in &all {
        if a.peek() == Some(&word) {
            a.next();
        } else if r.peek() == Some(&word) {
            r.next();
        } else {
            panic!("Missed component sequence {word:?}");
        }
    }
    assert!(a.next().is_none() && r.next().is_none());
    assert_eq!(accepted.len() + rejected.len(), 31);
}
