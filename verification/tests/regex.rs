use dandy::error::Error;
use dandy::regex::Regex;

fn lit(c: char) -> Regex {
    Regex::Literal(c)
}

#[test]
fn regex_is_read() {
    assert_eq!(Regex::parse(""), Ok(Regex::Empty));
    assert_eq!(Regex::parse("a"), Ok(Regex::Concat(vec![lit('a')])));
    assert_eq!(
        Regex::parse("ab*"),
        Ok(Regex::Concat(vec![lit('a'), Regex::Star(Box::new(lit('b')))]))
    );
    assert_eq!(
        Regex::parse("a|b"),
        Ok(Regex::Alt(vec![
            Regex::Concat(vec![lit('a')]),
            Regex::Concat(vec![lit('b')])
        ]))
    );
    assert_eq!(
        Regex::parse("(a|b)*abb"),
        Ok(Regex::Concat(vec![
            Regex::Star(Box::new(Regex::Alt(vec![
                Regex::Concat(vec![lit('a')]),
                Regex::Concat(vec![lit('b')])
            ]))),
            lit('a'),
            lit('b'),
            lit('b'),
        ]))
    );
    // Empty alternatives mean the empty word.
    assert_eq!(
        Regex::parse("a||"),
        Ok(Regex::Alt(vec![
            Regex::Concat(vec![lit('a')]),
            Regex::Empty,
            Regex::Empty
        ]))
    );
    assert_eq!(Regex::parse("()"), Ok(Regex::Concat(vec![Regex::Empty])));
    assert_eq!(
        Regex::parse("ε∅"),
        Ok(Regex::Concat(vec![Regex::Empty, Regex::Zero]))
    );
    assert_eq!(
        Regex::parse("a+*"),
        Ok(Regex::Concat(vec![Regex::Star(Box::new(Regex::Plus(
            Box::new(lit('a'))
        )))]))
    );
}

#[test]
fn regex_errors_give_the_place() {
    assert_eq!(Regex::parse("*a"), Err(Error::Lex(0)));
    assert_eq!(Regex::parse("a|+"), Err(Error::Lex(2)));
    assert_eq!(Regex::parse("(ab"), Err(Error::Lex(3)));
    assert_eq!(Regex::parse("ab)c"), Err(Error::Lex(2)));
    assert_eq!(Regex::parse("a(b|(c)"), Err(Error::Lex(7)));
    assert_eq!(Regex::parse("(*)"), Err(Error::Lex(1)));
}

#[test]
fn regex_is_written() {
    for text in [
        "",
        "a",
        "ab*",
        "a|b",
        "(a|b)*abb",
        "a||",
        "ε∅",
        "a+*",
        "(ab)+|c(d|e)*",
        "((a))",
        "(a|)b",
        "x(y(z|w)+)*",
    ] {
        let regex = Regex::parse(text).unwrap();
        let shown = regex.to_string();
        assert_eq!(Regex::parse(&shown).unwrap(), regex, "{}", text);
    }
    assert_eq!(Regex::parse("(a|b)*abb").unwrap().to_string(), "(a|b)*abb");
    assert_eq!(Regex::parse("((a))").unwrap().to_string(), "((a))");
    assert_eq!(Regex::parse("()").unwrap().to_string(), "ε");
    assert_eq!(Regex::parse("a||").unwrap().to_string(), "a||");
    // Expressions that no text is read as are written with brackets.
    assert_eq!(Regex::Star(Box::new(Regex::Empty)).to_string(), "ε*");
    assert_eq!(
        Regex::Concat(vec![Regex::Alt(vec![lit('a'), lit('b')]), lit('c')]).to_string(),
        "(a|b)c"
    );
}

#[test]
fn regex_display_round_trip() {
    for text in ["(a|b)*abb", "a+b*|ε", "(ab|ba)+", "∅|a", "a(b|c)*d"] {
        let first = Regex::parse(text).unwrap();
        let second = Regex::parse(&first.to_string()).unwrap();
        assert!(first.to_nfa().equivalent_to(&second.to_nfa()));
    }
}

#[test]
fn regex_to_minimal_dfa() {
    let regex = Regex::parse("(a|b)*abb").unwrap();
    let nfa = regex.to_nfa();
    assert_eq!(nfa.alphabet(), &["a".to_string(), "b".to_string()]);
    let mut dfa = nfa.to_dfa();
    dfa.minimize();
    assert_eq!(dfa.states().len(), 4);
    for word in ["abb", "aabb", "babb", "abababb", "abbabb"] {
        assert!(dfa.accepts_graphemes(word), "{}", word);
        assert!(nfa.accepts_graphemes(word), "{}", word);
    }
    for word in ["", "a", "ab", "abba", "bba", "abbc", "abab"] {
        assert!(!dfa.accepts_graphemes(word), "{}", word);
        assert!(!nfa.accepts_graphemes(word), "{}", word);
    }
}

#[test]
fn regex_parts() {
    // The part for a symbol has two states.
    let nfa = Regex::Literal('a').to_nfa();
    assert_eq!(nfa.states().len(), 2);
    assert_eq!(nfa.states()[0].name(), "q0");
    assert_eq!(nfa.states()[0].transitions(), &[vec![1]]);
    assert!(nfa.states()[1].is_accepting());
    // The empty word: one state, initial and accepting.
    let nfa = Regex::Empty.to_nfa();
    assert_eq!(nfa.states().len(), 1);
    assert!(nfa.states()[0].is_initial() && nfa.states()[0].is_accepting());
    assert!(nfa.alphabet().is_empty());
    // Nothing: two states, neither accepting.
    let nfa = Regex::Zero.to_nfa();
    assert_eq!(nfa.states().len(), 2);
    assert!(nfa.states().iter().all(|s| !s.is_accepting()));
    // One after the other: the first part accepts no more, and leads on.
    let nfa = Regex::Concat(vec![lit('a'), lit('b')]).to_nfa();
    assert_eq!(nfa.states().len(), 4);
    assert_eq!(nfa.states()[1].epsilon_transitions(), &[2]);
    assert!(!nfa.states()[1].is_accepting());
    assert!(nfa.states()[3].is_accepting());
    assert_eq!(nfa.states()[2].transitions(), &[vec![], vec![3]]);
    // One of two: a new initial state before the two parts.
    let nfa = Regex::Alt(vec![lit('a'), lit('b')]).to_nfa();
    assert_eq!(nfa.states().len(), 5);
    assert_eq!(nfa.states()[0].epsilon_transitions(), &[1, 3]);
    assert_eq!(nfa.initial_state_index(), 0);
    // Any number of times: a new state, initial and accepting.
    let nfa = Regex::Star(Box::new(lit('a'))).to_nfa();
    assert_eq!(nfa.states().len(), 3);
    assert!(nfa.states()[0].is_accepting());
    assert_eq!(nfa.states()[0].epsilon_transitions(), &[1]);
    assert_eq!(nfa.states()[2].epsilon_transitions(), &[0]);
    // At least once: the part, and then the part any number of times.
    let plus = Regex::Plus(Box::new(lit('a')));
    assert_eq!(plus.thompson_size(), Some(5));
    let nfa = plus.to_nfa();
    assert_eq!(nfa.states().len(), 5);
    assert!(!nfa.accepts(&[]));
    assert!(nfa.accepts(&["a"]));
    assert!(nfa.accepts(&["a", "a", "a"]));
    assert_eq!(nfa.states()[11 % 5].name(), "q1");
    let many = Regex::parse("abcdefghijkl").unwrap().to_nfa();
    assert_eq!(many.states()[23].name(), "q23");
}

#[test]
fn regex_agrees_with_a_reference_engine() {
    let cases = [
        "(a|b)*abb",
        "a+b*",
        "(ab|ba)+",
        "a(b|c)*d",
        "(a|b|c)(a|b|c)",
        "a*b*c*",
        "(a+b)*|c",
        "((a|b)+c)*",
    ];
    let mut words: Vec<String> = vec![String::new()];
    let mut last: Vec<String> = vec![String::new()];
    for _ in 0..4 {
        let mut next = Vec::new();
        for word in &last {
            for c in ["a", "b", "c", "d"] {
                next.push(format!("{}{}", word, c));
            }
        }
        words.extend(next.iter().cloned());
        last = next;
    }
    for text in cases {
        let regex = Regex::parse(text).unwrap();
        let mut dfa = regex.to_dfa();
        dfa.minimize();
        let reference = regex::Regex::new(&format!("^({})$", text)).unwrap();
        let known: Vec<char> = text.chars().collect();
        for word in &words {
            if word.chars().all(|c| known.contains(&c)) {
                assert_eq!(
                    dfa.accepts_graphemes(word),
                    reference.is_match(word),
                    "{} on {:?}",
                    text,
                    word
                );
            }
        }
    }
}
