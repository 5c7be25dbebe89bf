use cfg_toolkit::BonusCFG;
use cfg_toolkit::Symbol;

#[test]
fn build_bonus_grammar() {
    let g = BonusCFG::build();
    assert_eq!(g.start_symbol, Symbol::NonTerminal('S'));
    assert_eq!(
        g.nonterminals,
        vec![
            Symbol::NonTerminal('S'),
            Symbol::NonTerminal('A'),
            Symbol::NonTerminal('B'),
            Symbol::NonTerminal('C'),
        ]
    );
    assert_eq!(
        g.terminals,
        vec![Symbol::Terminal('a'), Symbol::Terminal('b'), Symbol::Terminal('c')]
    );
    assert_eq!(g.productions.len(), 7);
    assert_eq!(g.productions[0].lhs, Symbol::NonTerminal('S'));
    assert_eq!(
        g.productions[0].rhs,
        vec![
            Symbol::Terminal('a'),
            Symbol::NonTerminal('A'),
            Symbol::Terminal('b'),
            Symbol::NonTerminal('B'),
            Symbol::Terminal('c'),
            Symbol::NonTerminal('C'),
        ]
    );
    assert_eq!(g.productions[1].lhs, Symbol::NonTerminal('A'));
    assert_eq!(g.productions[1].rhs, vec![Symbol::Terminal('a'), Symbol::NonTerminal('A')]);
    assert_eq!(g.productions[2].lhs, Symbol::NonTerminal('A'));
    assert_eq!(g.productions[2].rhs, Vec::new());
    assert_eq!(g.productions[3].lhs, Symbol::NonTerminal('B'));
    assert_eq!(g.productions[3].rhs, vec![Symbol::Terminal('b'), Symbol::NonTerminal('B')]);
    assert_eq!(g.productions[4].lhs, Symbol::NonTerminal('B'));
    assert_eq!(g.productions[4].rhs, Vec::new());
    assert_eq!(g.productions[5].lhs, Symbol::NonTerminal('C'));
    assert_eq!(g.productions[5].rhs, vec![Symbol::Terminal('c'), Symbol::NonTerminal('C')]);
    assert_eq!(g.productions[6].lhs, Symbol::NonTerminal('C'));
    assert_eq!(g.productions[6].rhs, Vec::new());
}

#[test]
fn membership_abc() {
    let g = BonusCFG::build();
    assert!(g.membership("abc"));
}

#[test]
fn membership_aabbcc() {
    let g = BonusCFG::build();
    assert!(g.membership("aabbcc"));
}

#[test]
fn bonus_membership_empty_word() {
    let g = BonusCFG::build();
    assert!(!g.membership(""));
}

#[test]
fn membership_bc() {
    let g = BonusCFG::build();
    assert!(!g.membership("bc"));
}

#[test]
fn membership_acbca() {
    let g = BonusCFG::build();
    assert!(!g.membership("acbca"));
}

#[test]
fn membership_larger_word() {
    let g = BonusCFG::build();
    assert!(g.membership("aaabbbccc"));
}

#[test]
fn membership_wrong_multiplicities() {
    let g = BonusCFG::build();
    assert!(!g.membership("aabbc"));
    assert!(!g.membership("abcabc"));
    assert!(!g.membership("aabccc"));
    assert!(!g.membership("cba"));
}
