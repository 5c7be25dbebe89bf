use cfg_toolkit::Symbol;
use cfg_toolkit::CFG;

#[test]
fn build_balanced_grammar() {
    let g = CFG::build();
    assert_eq!(g.start_symbol, Symbol::NonTerminal('S'));
    assert_eq!(g.nonterminals, vec![Symbol::NonTerminal('S')]);
    assert_eq!(g.terminals, vec![Symbol::Terminal('a'), Symbol::Terminal('b')]);
    assert_eq!(g.productions.len(), 2);
    assert_eq!(g.productions[0].lhs, Symbol::NonTerminal('S'));
    assert_eq!(
        g.productions[0].rhs,
        vec![Symbol::Terminal('a'), Symbol::NonTerminal('S'), Symbol::Terminal('b')]
    );
    assert_eq!(g.productions[1].lhs, Symbol::NonTerminal('S'));
    assert_eq!(g.productions[1].rhs, Vec::new());
}

#[test]
fn derive_aaabbb() {
    let g = CFG::build();
    let d = g.derive("aaabbb");
    assert_eq!(
        d,
        Some(vec![
            "S".to_string(),
            "aSb".to_string(),
            "aaSbb".to_string(),
            "aaabbb".to_string(),
        ])
    );
}

#[test]
fn derive_empty_word() {
    let g = CFG::build();
    assert_eq!(g.derive(""), Some(vec!["S".to_string()]));
}

#[test]
fn derive_single_pair() {
    let g = CFG::build();
    assert_eq!(g.derive("ab"), Some(vec!["S".to_string(), "ab".to_string()]));
}

#[test]
fn derive_imbalanced() {
    let g = CFG::build();
    assert_eq!(g.derive("aabbb"), None);
}

#[test]
fn derive_reversed_pair() {
    let g = CFG::build();
    assert_eq!(g.derive("ba"), None);
}

#[test]
fn derive_length_is_n_plus_one() {
    let g = CFG::build();
    for n in 0..6 {
        let s = format!("{}{}", "a".repeat(n), "b".repeat(n));
        let d = g.derive(&s).unwrap();
        assert_eq!(d.len(), n + 1);
        assert_eq!(d[0], "S");
        assert_eq!(d[d.len() - 1], if n == 0 { "S".to_string() } else { s });
    }
}

#[test]
fn membership_aabb() {
    let g = CFG::build();
    assert!(g.membership("aabb"));
}

#[test]
fn membership_single_a() {
    let g = CFG::build();
    assert!(!g.membership("a"));
}

#[test]
fn membership_empty_word() {
    let g = CFG::build();
    assert!(g.membership(""));
}

#[test]
fn membership_agrees_with_derive() {
    let g = CFG::build();
    for s in ["", "ab", "aabb", "aaabbb", "aabbb", "ba", "abab", "ba ab", "x"] {
        assert_eq!(g.membership(s), g.derive(s).is_some());
    }
}

#[test]
fn generate_respects_bounds_and_language() {
    let g = CFG::build();
    let words = g.generate_random_string(10, 10);
    assert!(words.len() <= 10);
    for w in &words {
        assert!(w.len() <= 10);
        assert!(g.membership(w));
    }
}

#[test]
fn generate_positive_budget_records_empty_word() {
    let g = CFG::build();
    let words = g.generate_random_string(10, 10);
    assert!(!words.is_empty());
    assert!(words.iter().any(|w| w.is_empty()));
}

#[test]
fn generate_distinct_words_form_contiguous_chain() {
    let g = CFG::build();
    let words = g.generate_random_string(10, 10);
    let m = words.iter().map(|w| w.len() / 2).max().unwrap();
    for j in 0..=m {
        let expected = format!("{}{}", "a".repeat(j), "b".repeat(j));
        assert!(words.iter().any(|w| *w == expected));
    }
}

#[test]
fn generate_zero_budget_is_empty() {
    let g = CFG::build();
    assert!(g.generate_random_string(0, 10).is_empty());
}

#[test]
fn generate_zero_max_len_yields_empty_words() {
    let g = CFG::build();
    let words = g.generate_random_string(5, 0);
    assert!(words.len() <= 5);
    for w in &words {
        assert_eq!(w, "");
    }
}
