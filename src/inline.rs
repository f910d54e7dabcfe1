use vstd::prelude::*;
use vstd::laws_eq::obeys_concrete_eq;
use vstd::string::StringSliceAdditionalSpecFns;

use crate::classifier::Classifier;
use crate::config::Config;
use crate::scan::{
    lemma_next_bounds, lemma_shifted_twice, lemma_tokens_unfold, next_from, scan_next, shifted,
    tokens, Scan, Step,
};
use crate::token::Token;

verus! {

/// Scans a text held in memory, one token per call, from a cursor that only advances.
#[verifier::reject_recursive_types(TK)]
pub struct LexerInline<'a, TK: Copy + Eq + std::hash::Hash, CL: Classifier<Custom = TK>> {
    config: &'a Config<TK>,
    classifier: &'a CL,
    input: &'a str,
    pos: usize,
}

impl<'a, TK: Copy + Eq + std::hash::Hash, CL: Classifier<Custom = TK>> LexerInline<'a, TK, CL> {
    pub closed spec fn policy(&self) -> Config<TK> {
        *self.config
    }

    pub closed spec fn classifier(&self) -> CL {
        *self.classifier
    }

    /// The UTF-8 bytes of the whole input.
    pub closed spec fn input_bytes(&self) -> Seq<u8> {
        self.input.spec_bytes()
    }

    /// The byte offset of the cursor.
    pub closed spec fn position(&self) -> int {
        self.pos as int
    }

    /// The input from the cursor on.
    pub open spec fn remaining(&self) -> Seq<u8> {
        self.input_bytes().subrange(self.position(), self.input_bytes().len() as int)
    }

    pub closed spec fn wf(&self) -> bool {
        &&& self.pos <= self.input.spec_bytes().len()
        &&& obeys_concrete_eq::<TK>()
    }

    /// A scanner over `input`, with its cursor at the start.
    pub fn new(config: &'a Config<TK>, classifier: &'a CL, input: &'a str) -> (r: Self)
        requires
            obeys_concrete_eq::<TK>(),
        ensures
            r.wf(),
            r.policy() == *config,
            r.classifier() == *classifier,
            r.input_bytes() == input.spec_bytes(),
            r.position() == 0,
    {
        LexerInline { config, classifier, input, pos: 0 }
    }

    /// The next token, or `None` once the input is used up.
    pub fn next_token(&mut self) -> (r: Option<Token<TK>>)
        requires
            old(self).wf(),
        ensures
            final(self).wf(),
            final(self).policy() == old(self).policy(),
            final(self).classifier() == old(self).classifier(),
            final(self).input_bytes() == old(self).input_bytes(),
            next_from(&old(self).policy(), &old(self).classifier(), old(self).remaining(), true) matches Scan::Produced(k, t, s, c) ==> {
                &&& r matches Some(tok) && tok@ == (k, t, (old(self).position() + s) as nat)
                &&& final(self).position() == old(self).position() + c
            },
            !(next_from(&old(self).policy(), &old(self).classifier(), old(self).remaining(), true) is Produced) ==> {
                &&& r is None
                &&& final(self).position() == old(self).input_bytes().len()
            },
    {
        let bytes = self.input.as_bytes();
        let w = &bytes[self.pos..bytes.len()];
        assert(w@ == self.remaining());
        let s = scan_next(self.config, self.classifier, w, true);
        proof {
            lemma_next_bounds(self.config, self.classifier, w@, true);
        }
        match s {
            Step::Produced(kind, text, st, c) => {
                let start = self.pos + st;
                self.pos = self.pos + c;
                Some(Token { kind, text, start })
            },
            _ => {
                self.pos = bytes.len();
                None
            },
        }
    }

    /// Every token from the cursor to the end of the input, in order.
    pub fn collect_tokens(self) -> (r: Vec<Token<TK>>)
        requires
            self.wf(),
        ensures
            r@.map_values(|t: Token<TK>| t@) == shifted(
                tokens(&self.policy(), &self.classifier(), self.remaining()),
                self.position(),
            ),
    {
        let ghost goal = shifted(tokens(&self.policy(), &self.classifier(), self.remaining()), self.position());
        let mut lexer = self;
        let mut out: Vec<Token<TK>> = Vec::new();
        proof {
            assert(out@.map_values(|t: Token<TK>| t@) + goal =~= goal);
        }
        loop
            invariant
                goal == shifted(tokens(&self.policy(), &self.classifier(), self.remaining()), self.position()),
                lexer.wf(),
                lexer.policy() == self.policy(),
                lexer.classifier() == self.classifier(),
                out@.map_values(|t: Token<TK>| t@) + shifted(
                    tokens(&lexer.policy(), &lexer.classifier(), lexer.remaining()),
                    lexer.position(),
                ) == goal,
            decreases lexer.input_bytes().len() - lexer.position(),
        {
            let ghost before = lexer;
            proof {
                lemma_tokens_unfold(&lexer.policy(), &lexer.classifier(), lexer.remaining());
            }
            match lexer.next_token() {
                Some(tok) => {
                    proof {
                        let w = before.remaining();
                        let nx = next_from(&before.policy(), &before.classifier(), w, true);
                        let c = nx->Produced_3;
                        let rest = tokens(&before.policy(), &before.classifier(), w.subrange(c, w.len() as int));
                        assert(lexer.remaining() =~= w.subrange(c, w.len() as int));
                        lemma_shifted_twice(rest, c, before.position());
                        let p = before.position();
                        let l0 = (nx->Produced_0, nx->Produced_1, nx->Produced_2 as nat);
                        assert(shifted(seq![l0] + shifted(rest, c), p) =~= seq![tok@] + shifted(shifted(rest, c), p));
                    }
                    out.push(tok);
                    proof {
                        let old_out = out@.drop_last();
                        assert(out@.map_values(|t: Token<TK>| t@) =~= old_out.map_values(|t: Token<TK>| t@).push(out@.last()@));
                        assert(old_out.map_values(|t: Token<TK>| t@) + shifted(tokens(&before.policy(), &before.classifier(), before.remaining()), before.position()) == goal);
                    }
                },
                None => {
                    proof {
                        let e = Seq::<crate::token::Lexeme<TK>>::empty();
                        let m = out@.map_values(|t: Token<TK>| t@);
                        assert(tokens(&before.policy(), &before.classifier(), before.remaining()) == e);
                        assert(shifted(e, before.position()) =~= e);
                        assert(m + e =~= m);
                    }
                    return out;
                },
            }
        }
    }
}

} // verus!
