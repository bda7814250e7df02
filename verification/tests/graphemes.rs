use dandy::dfa::Dfa;
use dandy::nfa::Nfa;

#[test]
fn dfa_accepts_graphemes() {
    let dfa = Dfa::parse("a b c\n→ * s₀ s₁ s₀ s₂\n s₁ s₂ s₁ s₁\n * s₂ s₂ s₂ s₂\n").unwrap();
    assert!(dfa.accepts_graphemes("abcca"));
    assert!(dfa.accepts_graphemes("cba"));
    assert!(!dfa.accepts_graphemes("abbc"));
    assert!(dfa.accepts_graphemes(""));
    assert!(!dfa.accepts_graphemes("abd"));
}

#[test]
fn graphemes_are_clusters_not_characters() {
    // The symbol is an e with a combining accent: two characters, one
    // cluster. A test through `accepts`, which takes the clusters as they
    // are handed to it, tells the two apart.
    let dfa = Dfa::parse("e\u{301} x\n-> s t s\n * t t t\n").unwrap();
    assert!(dfa.accepts_graphemes("e\u{301}"));
    assert!(dfa.accepts_graphemes("xe\u{301}x"));
    assert!(dfa.accepts(&["e\u{301}"]));
    assert!(!dfa.accepts(&["e", "\u{301}"]));
    assert!(!dfa.accepts_graphemes("e"));
    // A line end of two characters is one cluster.
    assert!(!dfa.accepts_graphemes("\r\n"));
    let nfa = Nfa::parse("e\u{301} x\n-> s {t} {s}\n * t {t} {t}\n").unwrap();
    assert!(nfa.accepts_graphemes("xxe\u{301}"));
    assert!(!nfa.accepts_graphemes("xxe"));
}

#[test]
fn symbols_of_several_clusters_are_never_matched_by_graphemes() {
    let dfa = Dfa::parse("ab c\n-> s t s\n * t t t\n").unwrap();
    assert!(dfa.accepts(&["ab"]));
    assert!(!dfa.accepts_graphemes("ab"));
    assert!(!dfa.accepts_graphemes("cab"));
}
