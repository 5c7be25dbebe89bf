use vstd::prelude::*;

verus! {

/// A grammar atom: a terminal character or a nonterminal named by a
/// single character.
#[derive(Debug, Clone, Copy, PartialEq, Eq)]
pub enum Symbol {
    Terminal(char),
    NonTerminal(char),
}

/// A rewrite rule `lhs -> rhs`; an empty `rhs` is the epsilon production.
#[derive(Debug, PartialEq, Eq)]
pub struct Production {
    pub lhs: Symbol,
    pub rhs: Vec<Symbol>,
}

impl Production {
    /// Every symbol of `rhs` draws its terminals from `terminals` and its
    /// nonterminals from `nonterminals`, and `lhs` is a nonterminal of the
    /// grammar.
    pub open spec fn wf(self, nonterminals: Seq<Symbol>, terminals: Seq<Symbol>) -> bool {
        &&& self.lhs is NonTerminal
        &&& nonterminals.contains(self.lhs)
        &&& forall|j: int|
            0 <= j < self.rhs@.len() ==> match #[trigger] self.rhs@[j] {
                Symbol::Terminal(_) => terminals.contains(self.rhs@[j]),
                Symbol::NonTerminal(_) => nonterminals.contains(self.rhs@[j]),
            }
    }
}

} // verus!
