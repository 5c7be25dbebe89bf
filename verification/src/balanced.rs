use vstd::prelude::*;

use crate::grammar::Production;
use crate::grammar::Symbol;
use crate::rng::coin_flip;
use crate::rng::shuffle_strings;

verus! {

/// The word `a^n b^n`: `n` copies of `a` followed by `n` copies of `b`.
pub open spec fn ab_word(n: nat) -> Seq<char> {
    Seq::new(n, |i: int| 'a') + Seq::new(n, |i: int| 'b')
}

/// Membership in the language of the balanced grammar S -> aSb | epsilon,
/// that is { a^n b^n | n >= 0 }.
pub open spec fn in_balanced_lang(s: Seq<char>) -> bool {
    exists|n: nat| s == ab_word(n)
}

/// The peel-from-both-ends shape that the deriver recognises: the word is
/// empty, or it is `a`, a smaller word of the same shape, then `b`.
pub open spec fn balanced_shape(s: Seq<char>) -> bool
    decreases s.len(),
{
    if s.len() == 0 {
        true
    } else {
        &&& s.len() >= 2
        &&& s[0] == 'a'
        &&& s[s.len() - 1] == 'b'
        &&& balanced_shape(s.subrange(1, s.len() - 1))
    }
}

/// The sentential form `a^i S b^i`, reached from `S` by `i` applications
/// of the production S -> aSb.
pub open spec fn open_form(i: nat) -> Seq<char> {
    Seq::new(i, |j: int| 'a') + seq!['S'] + Seq::new(i, |j: int| 'b')
}

proof fn lemma_ab_word_shape(n: nat)
    ensures
        balanced_shape(ab_word(n)),
    decreases n,
{
    if n == 0 {
        assert(ab_word(0).len() == 0);
    } else {
        let m = (n - 1) as nat;
        lemma_ab_word_shape(m);
        let w = ab_word(n);
        assert(w.len() == 2 * n);
        assert(w[0] == 'a');
        assert(w[w.len() - 1] == 'b');
        assert(w.subrange(1, w.len() - 1) =~= ab_word(m));
    }
}

/// The shape the deriver peels off is exactly membership in
/// { a^n b^n | n >= 0 }.
pub proof fn lemma_balanced_shape_iff_lang(s: Seq<char>)
    ensures
        balanced_shape(s) <==> in_balanced_lang(s),
    decreases s.len(),
{
    if balanced_shape(s) {
        if s.len() == 0 {
            assert(s =~= ab_word(0));
        } else {
            let interior = s.subrange(1, s.len() - 1);
            lemma_balanced_shape_iff_lang(interior);
            let m = choose|m: nat| interior == ab_word(m);
            assert(interior.len() == 2 * m);
            assert(s =~= ab_word(m + 1)) by {
                assert forall|i: int| 0 <= i < s.len() implies s[i] == ab_word(m + 1)[i] by {
                    if 1 <= i < s.len() - 1 {
                        assert(s[i] == interior[i - 1]);
                        assert(interior[i - 1] == ab_word(m)[i - 1]);
                    }
                }
            }
            assert(s == ab_word(m + 1));
        }
    }
    if in_balanced_lang(s) {
        let n = choose|n: nat| s == ab_word(n);
        lemma_ab_word_shape(n);
    }
}

/// Wrapping a word of the language in `a` ... `b` stays in the language.
pub proof fn lemma_wrap_balanced(s: Seq<char>)
    requires
        in_balanced_lang(s),
    ensures
        in_balanced_lang(seq!['a'] + s + seq!['b']),
{
    let n = choose|n: nat| s == ab_word(n);
    assert(s.len() == 2 * n);
    let w = seq!['a'] + s + seq!['b'];
    assert(w =~= ab_word(n + 1)) by {
        assert forall|i: int| 0 <= i < w.len() implies w[i] == ab_word(n + 1)[i] by {
            if 1 <= i < w.len() - 1 {
                assert(w[i] == s[i - 1]);
                assert(s[i - 1] == ab_word(n)[i - 1]);
            }
        }
    }
}

/// The word `s` wrapped in `k` copies of `a` before and `k` copies of
/// `b` after.
pub open spec fn wrap_word(k: nat, s: Seq<char>) -> Seq<char> {
    Seq::new(k, |i: int| 'a') + s + Seq::new(k, |i: int| 'b')
}

/// Some word at position `from` or later of `r` is `s` wrapped `k`
/// times.
pub open spec fn records_wrap(r: Seq<String>, from: int, k: nat, s: Seq<char>) -> bool {
    exists|i: int| from <= i < r.len() && (#[trigger] r[i])@ == wrap_word(k, s)
}

/// The word a^j b^j appears among the strings of `r`.
pub open spec fn contains_ab_word(r: Seq<String>, j: nat) -> bool {
    exists|i: int| 0 <= i < r.len() && (#[trigger] r[i])@ == ab_word(j)
}

/// The wraps of `s` found at position `from` or later of `r` are exactly
/// those with a wrap count up to `kmax`: a contiguous chain starting at
/// `s` itself.
pub open spec fn wrap_chain(r: Seq<String>, from: int, s: Seq<char>, kmax: nat) -> bool {
    forall|k: nat| records_wrap(r, from, k, s) <==> k <= kmax
}

/// The distinct words of `r` are exactly a^0 b^0 through a^m b^m: a
/// contiguous chain starting at the empty word.
pub open spec fn ab_chain(r: Seq<String>, m: nat) -> bool {
    forall|j: nat| contains_ab_word(r, j) <==> j <= m
}

proof fn lemma_wrap_word_zero(s: Seq<char>)
    ensures
        wrap_word(0, s) == s,
{
    assert(wrap_word(0, s) =~= s);
}

proof fn lemma_wrap_word_empty(k: nat)
    ensures
        wrap_word(k, Seq::<char>::empty()) == ab_word(k),
{
    assert(wrap_word(k, Seq::<char>::empty()) =~= ab_word(k));
}

proof fn lemma_wrap_word_shift(k: nat, s: Seq<char>)
    ensures
        wrap_word(k, seq!['a'] + s + seq!['b']) == wrap_word(k + 1, s),
{
    let w = seq!['a'] + s + seq!['b'];
    assert(wrap_word(k, w) =~= wrap_word(k + 1, s)) by {
        assert forall|i: int| 0 <= i < wrap_word(k, w).len() implies wrap_word(k, w)[i]
            == wrap_word(k + 1, s)[i] by {
            if i == k {
                assert(wrap_word(k, w)[i] == w[0]);
            } else if k < i < k + 1 + s.len() {
                assert(wrap_word(k, w)[i] == w[i - k]);
                assert(w[i - k] == s[i - k - 1]);
                assert(wrap_word(k + 1, s)[i] == s[i - k - 1]);
            } else if i == k + 1 + s.len() {
                assert(wrap_word(k, w)[i] == w[i - k]);
            }
        }
    }
}

/// The balanced grammar S -> aSb | epsilon over the terminals {a, b}.
#[derive(Debug)]
pub struct CFG {
    pub nonterminals: Vec<Symbol>,
    pub terminals: Vec<Symbol>,
    pub start_symbol: Symbol,
    pub productions: Vec<Production>,
}

impl CFG {
    /// The grammar invariants: the start symbol is a nonterminal of the
    /// grammar, and every production rewrites a nonterminal of the
    /// grammar into symbols drawn from its alphabets.
    pub open spec fn wf(self) -> bool {
        &&& self.start_symbol is NonTerminal
        &&& self.nonterminals@.contains(self.start_symbol)
        &&& forall|i: int|
            0 <= i < self.productions@.len() ==> (#[trigger] self.productions@[i]).wf(
                self.nonterminals@,
                self.terminals@,
            )
    }

    /// Builds the balanced grammar: S -> aSb and S -> epsilon.
    pub fn build() -> (g: Self)
        ensures
            g.wf(),
            g.start_symbol == Symbol::NonTerminal('S'),
            g.nonterminals@ =~= seq![Symbol::NonTerminal('S')],
            g.terminals@ =~= seq![Symbol::Terminal('a'), Symbol::Terminal('b')],
            g.productions@.len() == 2,
            g.productions@[0].lhs == Symbol::NonTerminal('S'),
            g.productions@[0].rhs@ =~= seq![
                Symbol::Terminal('a'),
                Symbol::NonTerminal('S'),
                Symbol::Terminal('b'),
            ],
            g.productions@[1].lhs == Symbol::NonTerminal('S'),
            g.productions@[1].rhs@ =~= Seq::<Symbol>::empty(),
    {
        let mut grow_rhs: Vec<Symbol> = Vec::new();
        grow_rhs.push(Symbol::Terminal('a'));
        grow_rhs.push(Symbol::NonTerminal('S'));
        grow_rhs.push(Symbol::Terminal('b'));

        let mut productions: Vec<Production> = Vec::new();
        productions.push(Production { lhs: Symbol::NonTerminal('S'), rhs: grow_rhs });
        productions.push(Production { lhs: Symbol::NonTerminal('S'), rhs: Vec::new() });

        let mut nonterminals: Vec<Symbol> = Vec::new();
        nonterminals.push(Symbol::NonTerminal('S'));

        let mut terminals: Vec<Symbol> = Vec::new();
        terminals.push(Symbol::Terminal('a'));
        terminals.push(Symbol::Terminal('b'));

        let g = CFG { nonterminals, terminals, start_symbol: Symbol::NonTerminal('S'), productions };
        proof {
            assert(g.nonterminals@.contains(Symbol::NonTerminal('S'))) by {
                assert(g.nonterminals@[0] == Symbol::NonTerminal('S'));
            }
            assert(g.terminals@.contains(Symbol::Terminal('a'))) by {
                assert(g.terminals@[0] == Symbol::Terminal('a'));
            }
            assert(g.terminals@.contains(Symbol::Terminal('b'))) by {
                assert(g.terminals@[1] == Symbol::Terminal('b'));
            }
        }
        g
    }

    /// Peels `a` ... `b` pairs off `s` and records the sentential form
    /// `a^i S b^i` for each level, outermost last. This is the behaviour
    /// of every recursive level of the deriver except the outermost one,
    /// which replaces the final form by the fully terminal word.
    fn derive_forms(&self, s: &str) -> (r: Option<Vec<String>>)
        ensures
            r.is_some() <==> balanced_shape(s@),
            r matches Some(d) ==> {
                &&& d@.len() == s@.len() / 2 + 1
                &&& forall|i: int| 0 <= i < d@.len() ==> (#[trigger] d@[i])@ == open_form(i as nat)
            },
        decreases s@.len(),
    {
        let n = s.unicode_len();
        if n == 0 {
            let mut d: Vec<String> = Vec::new();
            d.push(String::from_str("S"));
            proof {
                reveal_strlit("S");
                assert(d@[0]@ =~= open_form(0));
            }
            Some(d)
        } else {
            let first = s.get_char(0);
            let last = s.get_char(n - 1);
            if first == 'a' && last == 'b' {
                let interior = s.substring_char(1, n - 1);
                proof {
                    assert(interior@ == s@.subrange(1, n - 1));
                }
                match self.derive_forms(interior) {
                    None => None,
                    Some(mut d) => {
                        let ghost m = interior@.len() / 2;
                        let last_form = d[d.len() - 1].clone();
                        let mut w = String::from_str("a");
                        w.append(last_form.as_str());
                        w.append("b");
                        proof {
                            reveal_strlit("a");
                            reveal_strlit("b");
                            assert(last_form@ == open_form(m as nat));
                            assert(w@ =~= open_form((m + 1) as nat)) by {
                                assert(w@ == "a"@ + open_form(m as nat) + "b"@);
                                assert("a"@[0] == 'a');
                                assert("b"@[0] == 'b');
                            }
                        }
                        d.push(w);
                        proof {
                            assert(s@.len() == interior@.len() + 2);
                            assert(d@.len() == s@.len() / 2 + 1);
                        }
                        Some(d)
                    },
                }
            } else {
                None
            }
        }
    }

    /// Reconstructs the leftmost derivation of `s` in the balanced
    /// grammar, as the sequence of sentential forms from `"S"` down to
    /// `s` itself, or reports that no derivation exists. It succeeds
    /// exactly on the words a^n b^n; the result then has n + 1 forms,
    /// the form at position i < n is `a^i S b^i`, and the final form is
    /// `s` verbatim (for the empty word the single form is `"S"`).
    pub fn derive(&self, s: &str) -> (r: Option<Vec<String>>)
        ensures
            r.is_some() <==> in_balanced_lang(s@),
            r matches Some(d) ==> {
                &&& s@ == ab_word((s@.len() / 2) as nat)
                &&& d@.len() == s@.len() / 2 + 1
                &&& forall|i: int|
                    0 <= i < d@.len() - 1 ==> (#[trigger] d@[i])@ == open_form(i as nat)
                &&& d@[0]@ == seq!['S']
                &&& s@.len() > 0 ==> d@[d@.len() - 1]@ == s@
            },
    {
        proof {
            lemma_balanced_shape_iff_lang(s@);
        }
        let n = s.unicode_len();
        if n == 0 {
            let mut d: Vec<String> = Vec::new();
            d.push(String::from_str("S"));
            proof {
                reveal_strlit("S");
                assert(d@[0]@ =~= seq!['S']);
                assert(s@ =~= ab_word(0));
            }
            Some(d)
        } else {
            let first = s.get_char(0);
            let last = s.get_char(n - 1);
            if first == 'a' && last == 'b' {
                let interior = s.substring_char(1, n - 1);
                proof {
                    assert(interior@ == s@.subrange(1, n - 1));
                }
                match self.derive_forms(interior) {
                    None => {
                        assert(!balanced_shape(s@));
                        None
                    },
                    Some(mut d) => {
                        d.push(String::from_str(s));
                        proof {
                            assert(balanced_shape(s@));
                            let ghost nn = (s@.len() / 2) as nat;
                            let k = choose|k: nat| s@ == ab_word(k);
                            assert(ab_word(k).len() == 2 * k);
                            assert(k == nn);
                            reveal_strlit("S");
                            assert(d@[0]@ =~= seq!['S']);
                        }
                        Some(d)
                    },
                }
            } else {
                assert(!balanced_shape(s@));
                None
            }
        }
    }

    /// Decides membership in { a^n b^n | n >= 0 } by attempting a
    /// derivation: the word is in the language exactly when a derivation
    /// exists.
    pub fn membership(&self, s: &str) -> (r: bool)
        ensures
            r == in_balanced_lang(s@),
    {
        self.derive(s).is_some()
    }

    /// One random unfolding path. When the budget is positive and the
    /// current word fits, it records the word and recurses, by a fair
    /// coin, with the word either wrapped as `a` ... `b` or unchanged;
    /// otherwise it leaves the output untouched. It only appends, and
    /// exactly when the budget is positive and the word fits; the first
    /// appended word is the current word itself; every appended word is
    /// the current word wrapped in some number of `a`/`b` pairs, in the
    /// language and within the length bound; and the wrap counts of the
    /// appended words fill a contiguous range starting at zero.
    fn backtrack(&self, s: String, result: &mut Vec<String>, count: usize, max_len: usize)
        requires
            in_balanced_lang(s@),
        ensures
            old(result)@.len() <= final(result)@.len() <= old(result)@.len() + count,
            forall|i: int| 0 <= i < old(result)@.len() ==> final(result)@[i] == old(result)@[i],
            final(result)@.len() > old(result)@.len() <==> count > 0 && s@.len() <= max_len,
            count > 0 && s@.len() <= max_len ==> final(result)@[old(result)@.len() as int] == s,
            forall|i: int|
                old(result)@.len() <= i < final(result)@.len() ==> {
                    &&& in_balanced_lang((#[trigger] final(result)@[i])@)
                    &&& final(result)@[i]@.len() <= max_len
                    &&& exists|k: nat| final(result)@[i]@ == wrap_word(k, s@)
                },
            count > 0 && s@.len() <= max_len ==> exists|kmax: nat|
                wrap_chain(final(result)@, old(result)@.len() as int, s@, kmax),
        decreases count,
    {
        let ghost base = result@.len() as int;
        if count == 0 || s.unicode_len() > max_len {
            return ;
        }
        result.push(s.clone());
        let ghost mid = result@;
        let ghost s_view = s@;
        proof {
            lemma_wrap_word_zero(s_view);
            assert(mid[base]@ == wrap_word(0, s_view));
        }

        let mut new_s = String::from_str("a");
        new_s.append(s.as_str());
        new_s.append("b");
        proof {
            reveal_strlit("a");
            reveal_strlit("b");
            assert(new_s@ =~= seq!['a'] + s_view + seq!['b']);
            lemma_wrap_balanced(s_view);
        }
        let ghost w = new_s@;

        if coin_flip() {
            self.backtrack(new_s, result, count - 1, max_len);
            proof {
                let r = result@;
                assert forall|i: int| base <= i < r.len() implies exists|k: nat|
                    (#[trigger] r[i])@ == wrap_word(k, s_view) by {
                    if i == base {
                        assert(r[i]@ == wrap_word(0, s_view));
                    } else {
                        let k = choose|k: nat| r[i]@ == wrap_word(k, w);
                        lemma_wrap_word_shift(k, s_view);
                        assert(r[i]@ == wrap_word(k + 1, s_view));
                    }
                }
                if r.len() > mid.len() {
                    let kmax_inner = choose|kmax: nat| #[trigger] wrap_chain(r, base + 1, w, kmax);
                    assert forall|k: nat|
                        records_wrap(r, base, k, s_view) <==> k <= kmax_inner + 1 by {
                        if k <= kmax_inner + 1 {
                            if k == 0 {
                                assert(r[base]@ == wrap_word(0, s_view));
                                assert(records_wrap(r, base, 0, s_view));
                            } else {
                                assert(records_wrap(r, base + 1, (k - 1) as nat, w));
                                let i = choose|i: int|
                                    base + 1 <= i < r.len() && (#[trigger] r[i])@ == wrap_word(
                                        (k - 1) as nat,
                                        w,
                                    );
                                lemma_wrap_word_shift((k - 1) as nat, s_view);
                                assert(r[i]@ == wrap_word(k, s_view));
                                assert(records_wrap(r, base, k, s_view));
                            }
                        }
                        if records_wrap(r, base, k, s_view) {
                            let i = choose|i: int|
                                base <= i < r.len() && (#[trigger] r[i])@ == wrap_word(k, s_view);
                            assert(wrap_word(k, s_view).len() == s_view.len() + 2 * k);
                            if i == base {
                                assert(r[i]@ == s_view);
                                assert(k == 0);
                            } else {
                                let k2 = choose|k2: nat| r[i]@ == wrap_word(k2, w);
                                lemma_wrap_word_shift(k2, s_view);
                                assert(r[i]@ == wrap_word(k2 + 1, s_view));
                                assert(wrap_word(k2 + 1, s_view).len() == s_view.len() + 2 * (k2
                                    + 1));
                                assert(k == k2 + 1);
                                assert(records_wrap(r, base + 1, k2, w));
                                assert(k2 <= kmax_inner);
                            }
                        }
                    }
                    assert(wrap_chain(r, base, s_view, (kmax_inner + 1) as nat));
                } else {
                    assert(r.len() == base + 1);
                    assert forall|k: nat| records_wrap(r, base, k, s_view) <==> k <= 0 by {
                        if k == 0 {
                            assert(r[base]@ == wrap_word(0, s_view));
                            assert(records_wrap(r, base, 0, s_view));
                        }
                        if records_wrap(r, base, k, s_view) {
                            let i = choose|i: int|
                                base <= i < r.len() && (#[trigger] r[i])@ == wrap_word(k, s_view);
                            assert(i == base);
                            assert(wrap_word(k, s_view).len() == s_view.len() + 2 * k);
                            assert(k == 0);
                        }
                    }
                    assert(wrap_chain(r, base, s_view, 0));
                }
            }
        } else {
            self.backtrack(s, result, count - 1, max_len);
            proof {
                let r = result@;
                assert forall|i: int| base <= i < r.len() implies exists|k: nat|
                    (#[trigger] r[i])@ == wrap_word(k, s_view) by {
                    if i == base {
                        assert(r[i]@ == wrap_word(0, s_view));
                    }
                }
                if r.len() > mid.len() {
                    let kmax_inner = choose|kmax: nat| #[trigger] wrap_chain(r, base + 1, s_view, kmax);
                    assert forall|k: nat|
                        records_wrap(r, base, k, s_view) <==> k <= kmax_inner by {
                        if k <= kmax_inner {
                            assert(records_wrap(r, base + 1, k, s_view));
                            let i = choose|i: int|
                                base + 1 <= i < r.len() && (#[trigger] r[i])@ == wrap_word(
                                    k,
                                    s_view,
                                );
                            assert(records_wrap(r, base, k, s_view));
                        }
                        if records_wrap(r, base, k, s_view) {
                            let i = choose|i: int|
                                base <= i < r.len() && (#[trigger] r[i])@ == wrap_word(k, s_view);
                            if i == base {
                                assert(wrap_word(k, s_view).len() == s_view.len() + 2 * k);
                                assert(k == 0);
                            } else {
                                assert(records_wrap(r, base + 1, k, s_view));
                            }
                        }
                    }
                    assert(wrap_chain(r, base, s_view, kmax_inner));
                } else {
                    assert(r.len() == base + 1);
                    assert forall|k: nat| records_wrap(r, base, k, s_view) <==> k <= 0 by {
                        if k == 0 {
                            assert(r[base]@ == wrap_word(0, s_view));
                            assert(records_wrap(r, base, 0, s_view));
                        }
                        if records_wrap(r, base, k, s_view) {
                            let i = choose|i: int|
                                base <= i < r.len() && (#[trigger] r[i])@ == wrap_word(k, s_view);
                            assert(i == base);
                            assert(wrap_word(k, s_view).len() == s_view.len() + 2 * k);
                            assert(k == 0);
                        }
                    }
                    assert(wrap_chain(r, base, s_view, 0));
                }
            }
        }
    }

    /// Generates random words of the language by one biased recursive
    /// unfolding of S, and returns them in a uniformly random order. At
    /// most `count` words come back, each of length at most `max_len`;
    /// the result is non-empty exactly when the budget is positive, it
    /// then contains the empty word (the first snapshot of the path),
    /// and its distinct words are exactly the contiguous chain a^0 b^0,
    /// a^1 b^1, ..., a^m b^m for some m. Duplicates are permitted.
    pub fn generate_random_string(&self, count: usize, max_len: usize) -> (r: Vec<String>)
        ensures
            r@.len() <= count,
            forall|i: int|
                0 <= i < r@.len() ==> in_balanced_lang((#[trigger] r@[i])@) && r@[i]@.len()
                    <= max_len,
            r@.len() > 0 <==> count > 0,
            count > 0 ==> exists|i: int| 0 <= i < r@.len() && (#[trigger] r@[i])@.len() == 0,
            count > 0 ==> exists|m: nat| ab_chain(r@, m),
    {
        let mut result: Vec<String> = Vec::new();
        let seed = String::new();
        proof {
            assert(seed@ =~= ab_word(0));
        }
        self.backtrack(seed, &mut result, count, max_len);
        let ghost before = result@;
        proof {
            if count > 0 {
                let kmax = choose|kmax: nat| #[trigger] wrap_chain(before, 0, seed@, kmax);
                assert forall|j: nat| contains_ab_word(before, j) <==> j <= kmax by {
                    lemma_wrap_word_empty(j);
                    assert(wrap_word(j, seed@) == ab_word(j));
                    if contains_ab_word(before, j) {
                        let i = choose|i: int|
                            0 <= i < before.len() && (#[trigger] before[i])@ == ab_word(j);
                        assert(records_wrap(before, 0, j, seed@));
                    }
                    if j <= kmax {
                        assert(records_wrap(before, 0, j, seed@));
                        let i = choose|i: int|
                            0 <= i < before.len() && (#[trigger] before[i])@ == wrap_word(
                                j,
                                seed@,
                            );
                        assert(contains_ab_word(before, j));
                    }
                }
                assert(ab_chain(before, kmax));
            }
        }
        shuffle_strings(&mut result);
        proof {
            broadcast use vstd::seq_lib::group_to_multiset_ensures;

            assert(result@.to_multiset() == before.to_multiset());
            assert(result@.len() == result@.to_multiset().len());
            assert(before.len() == before.to_multiset().len());
            assert(result@.len() == before.len());
            assert forall|i: int|
                0 <= i < result@.len() implies in_balanced_lang((#[trigger] result@[i])@)
                && result@[i]@.len() <= max_len by {
                let x = result@[i];
                assert(result@.contains(x));
                assert(before.to_multiset().count(x) > 0);
                assert(before.contains(x));
                let j = choose|j: int| 0 <= j < before.len() && before[j] == x;
                assert(in_balanced_lang(before[j]@) && before[j]@.len() <= max_len);
            }
            if count > 0 {
                let x = before[0];
                assert(before.contains(x));
                assert(result@.to_multiset().count(x) > 0);
                assert(result@.contains(x));
                let i = choose|i: int| 0 <= i < result@.len() && result@[i] == x;
                assert(result@[i]@.len() == 0);

                let m = choose|m: nat| #[trigger] ab_chain(before, m);
                assert forall|j: nat| contains_ab_word(result@, j) <==> j <= m by {
                    if contains_ab_word(result@, j) {
                        let i2 = choose|i2: int|
                            0 <= i2 < result@.len() && (#[trigger] result@[i2])@ == ab_word(j);
                        let y = result@[i2];
                        assert(result@.contains(y));
                        assert(before.to_multiset().count(y) > 0);
                        assert(before.contains(y));
                        let j2 = choose|j2: int| 0 <= j2 < before.len() && before[j2] == y;
                        assert(contains_ab_word(before, j));
                    }
                    if j <= m {
                        assert(contains_ab_word(before, j));
                        let i2 = choose|i2: int|
                            0 <= i2 < before.len() && (#[trigger] before[i2])@ == ab_word(j);
                        let y = before[i2];
                        assert(before.contains(y));
                        assert(result@.to_multiset().count(y) > 0);
                        assert(result@.contains(y));
                        let j2 = choose|j2: int| 0 <= j2 < result@.len() && result@[j2] == y;
                        assert(contains_ab_word(result@, j));
                    }
                }
                assert(ab_chain(result@, m));
            }
        }
        result
    }
}

} // verus!
