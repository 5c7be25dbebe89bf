use vstd::prelude::*;

use crate::grammar::Production;
use crate::grammar::Symbol;

verus! {

/// The word `a^n b^n c^n`: `n` copies of `a`, then `n` of `b`, then `n`
/// of `c`.
pub open spec fn abc_word(n: nat) -> Seq<char> {
    Seq::new(n, |i: int| 'a') + Seq::new(n, |i: int| 'b') + Seq::new(n, |i: int| 'c')
}

/// Membership in the target language { a^n b^n c^n | n >= 1 }. The
/// grammar below over-generates (it produces a+b+c+); the decider
/// deliberately implements this tighter language instead.
pub open spec fn in_triple_lang(s: Seq<char>) -> bool {
    exists|n: nat| n >= 1 && s == abc_word(n)
}

/// The bonus grammar S -> aAbBcC; A -> aA | epsilon; B -> bB | epsilon;
/// C -> cC | epsilon. Its language is a+b+c+, a regular superset of the
/// target language { a^n b^n c^n | n >= 1 }, which is not context-free.
#[derive(Debug)]
pub struct BonusCFG {
    pub nonterminals: Vec<Symbol>,
    pub terminals: Vec<Symbol>,
    pub start_symbol: Symbol,
    pub productions: Vec<Production>,
}

impl BonusCFG {
    /// The grammar invariants: the start symbol is a nonterminal of the
    /// grammar, and every production rewrites a nonterminal of the
    /// grammar into symbols drawn from its alphabets.
    pub open spec fn wf(self) -> bool {
        &&& self.start_symbol is NonTerminal
        &&& self.nonterminals@.contains(self.start_symbol)
        &&& forall|i: int|
            0 <= i < self.productions@.len() ==> (#[trigger] self.productions@[i]).wf(
                self.nonterminals@,
                self.terminals@,
            )
    }

    /// Builds the bonus grammar with its seven productions.
    pub fn build() -> (g: Self)
        ensures
            g.wf(),
            g.start_symbol == Symbol::NonTerminal('S'),
            g.nonterminals@ =~= seq![
                Symbol::NonTerminal('S'),
                Symbol::NonTerminal('A'),
                Symbol::NonTerminal('B'),
                Symbol::NonTerminal('C'),
            ],
            g.terminals@ =~= seq![
                Symbol::Terminal('a'),
                Symbol::Terminal('b'),
                Symbol::Terminal('c'),
            ],
            g.productions@.len() == 7,
            g.productions@[0].lhs == Symbol::NonTerminal('S'),
            g.productions@[0].rhs@ =~= seq![
                Symbol::Terminal('a'),
                Symbol::NonTerminal('A'),
                Symbol::Terminal('b'),
                Symbol::NonTerminal('B'),
                Symbol::Terminal('c'),
                Symbol::NonTerminal('C'),
            ],
            g.productions@[1].lhs == Symbol::NonTerminal('A'),
            g.productions@[1].rhs@ =~= seq![Symbol::Terminal('a'), Symbol::NonTerminal('A')],
            g.productions@[2].lhs == Symbol::NonTerminal('A'),
            g.productions@[2].rhs@ =~= Seq::<Symbol>::empty(),
            g.productions@[3].lhs == Symbol::NonTerminal('B'),
            g.productions@[3].rhs@ =~= seq![Symbol::Terminal('b'), Symbol::NonTerminal('B')],
            g.productions@[4].lhs == Symbol::NonTerminal('B'),
            g.productions@[4].rhs@ =~= Seq::<Symbol>::empty(),
            g.productions@[5].lhs == Symbol::NonTerminal('C'),
            g.productions@[5].rhs@ =~= seq![Symbol::Terminal('c'), Symbol::NonTerminal('C')],
            g.productions@[6].lhs == Symbol::NonTerminal('C'),
            g.productions@[6].rhs@ =~= Seq::<Symbol>::empty(),
    {
        let mut start_rhs: Vec<Symbol> = Vec::new();
        start_rhs.push(Symbol::Terminal('a'));
        start_rhs.push(Symbol::NonTerminal('A'));
        start_rhs.push(Symbol::Terminal('b'));
        start_rhs.push(Symbol::NonTerminal('B'));
        start_rhs.push(Symbol::Terminal('c'));
        start_rhs.push(Symbol::NonTerminal('C'));

        let mut a_rhs: Vec<Symbol> = Vec::new();
        a_rhs.push(Symbol::Terminal('a'));
        a_rhs.push(Symbol::NonTerminal('A'));

        let mut b_rhs: Vec<Symbol> = Vec::new();
        b_rhs.push(Symbol::Terminal('b'));
        b_rhs.push(Symbol::NonTerminal('B'));

        let mut c_rhs: Vec<Symbol> = Vec::new();
        c_rhs.push(Symbol::Terminal('c'));
        c_rhs.push(Symbol::NonTerminal('C'));

        let mut productions: Vec<Production> = Vec::new();
        productions.push(Production { lhs: Symbol::NonTerminal('S'), rhs: start_rhs });
        productions.push(Production { lhs: Symbol::NonTerminal('A'), rhs: a_rhs });
        productions.push(Production { lhs: Symbol::NonTerminal('A'), rhs: Vec::new() });
        productions.push(Production { lhs: Symbol::NonTerminal('B'), rhs: b_rhs });
        productions.push(Production { lhs: Symbol::NonTerminal('B'), rhs: Vec::new() });
        productions.push(Production { lhs: Symbol::NonTerminal('C'), rhs: c_rhs });
        productions.push(Production { lhs: Symbol::NonTerminal('C'), rhs: Vec::new() });

        let mut nonterminals: Vec<Symbol> = Vec::new();
        nonterminals.push(Symbol::NonTerminal('S'));
        nonterminals.push(Symbol::NonTerminal('A'));
        nonterminals.push(Symbol::NonTerminal('B'));
        nonterminals.push(Symbol::NonTerminal('C'));

        let mut terminals: Vec<Symbol> = Vec::new();
        terminals.push(Symbol::Terminal('a'));
        terminals.push(Symbol::Terminal('b'));
        terminals.push(Symbol::Terminal('c'));

        let g = BonusCFG {
            nonterminals,
            terminals,
            start_symbol: Symbol::NonTerminal('S'),
            productions,
        };
        proof {
            assert(g.nonterminals@.contains(Symbol::NonTerminal('S'))) by {
                assert(g.nonterminals@[0] == Symbol::NonTerminal('S'));
            }
            assert(g.nonterminals@.contains(Symbol::NonTerminal('A'))) by {
                assert(g.nonterminals@[1] == Symbol::NonTerminal('A'));
            }
            assert(g.nonterminals@.contains(Symbol::NonTerminal('B'))) by {
                assert(g.nonterminals@[2] == Symbol::NonTerminal('B'));
            }
            assert(g.nonterminals@.contains(Symbol::NonTerminal('C'))) by {
                assert(g.nonterminals@[3] == Symbol::NonTerminal('C'));
            }
            assert(g.terminals@.contains(Symbol::Terminal('a'))) by {
                assert(g.terminals@[0] == Symbol::Terminal('a'));
            }
            assert(g.terminals@.contains(Symbol::Terminal('b'))) by {
                assert(g.terminals@[1] == Symbol::Terminal('b'));
            }
            assert(g.terminals@.contains(Symbol::Terminal('c'))) by {
                assert(g.terminals@[2] == Symbol::Terminal('c'));
            }
        }
        g
    }

    /// Decides membership in { a^n b^n c^n | n >= 1 }: the length must be
    /// a positive multiple of three, and the word must be its first third
    /// of `a`s, second third of `b`s, and last third of `c`s.
    pub fn membership(&self, s: &str) -> (r: bool)
        ensures
            r == in_triple_lang(s@),
    {
        let n = s.unicode_len();
        if n == 0 || n % 3 != 0 {
            proof {
                if in_triple_lang(s@) {
                    let m = choose|m: nat| m >= 1 && s@ == abc_word(m);
                    assert(abc_word(m).len() == 3 * m);
                }
            }
            return false;
        }
        let p = n / 3;
        let mut i: usize = 0;
        while i < n
            invariant
                n == s@.len(),
                n % 3 == 0,
                n > 0,
                p == n / 3,
                i <= n,
                forall|j: int| 0 <= j < i ==> s@[j] == abc_word(p as nat)[j],
            decreases n - i,
        {
            let c = s.get_char(i);
            let expected: char = if i < p {
                'a'
            } else if i < 2 * p {
                'b'
            } else {
                'c'
            };
            assert(abc_word(p as nat)[i as int] == expected);
            if c != expected {
                proof {
                    if in_triple_lang(s@) {
                        let m = choose|m: nat| m >= 1 && s@ == abc_word(m);
                        assert(abc_word(m).len() == 3 * m);
                        assert(m == p);
                        assert(s@[i as int] == abc_word(p as nat)[i as int]);
                    }
                }
                return false;
            }
            i += 1;
        }
        proof {
            assert(s@ =~= abc_word(p as nat));
            assert(p >= 1);
        }
        true
    }
}

} // verus!
