use vstd::prelude::*;
use vstd::laws_eq::obeys_concrete_eq;

use crate::classifier::Classifier;
use crate::config::Config;
use crate::scan::{lemma_next_bounds, next_from, scan_next, Scan, Step};
use crate::token::Token;

verus! {

/// What one pull on a [`LexerStream`] gives.
pub enum Pull<TK: Copy + Eq + std::hash::Hash> {
    /// The next token.
    Ready(Token<TK>),
    /// Nothing can be decided until more bytes are filled in (or the source is closed).
    NeedMore,
    /// The source is closed and every token has been handed out.
    Done,
}

/// Scans bytes that arrive in pieces. The caller fills bytes in as its source yields them,
/// closes the source at its end, and pulls tokens. A token is handed out only once no later
/// byte can change it, so how the input is cut into pieces never changes the tokens.
/// Bytes that cannot be read as UTF-8 are dropped one at a time.
#[verifier::reject_recursive_types(TK)]
pub struct LexerStream<'a, TK: Copy + Eq + std::hash::Hash, CL: Classifier<Custom = TK>> {
    config: &'a Config<TK>,
    classifier: &'a CL,
    buf: Vec<u8>,
    head: usize,
    pos: usize,
    closed: bool,
    fed: Ghost<Seq<u8>>,
}

impl<'a, TK: Copy + Eq + std::hash::Hash, CL: Classifier<Custom = TK>> LexerStream<'a, TK, CL> {
    pub closed spec fn policy(&self) -> Config<TK> {
        *self.config
    }

    pub closed spec fn classifier(&self) -> CL {
        *self.classifier
    }

    /// Every byte filled in so far.
    pub closed spec fn fed(&self) -> Seq<u8> {
        self.fed@
    }

    /// The offset, in all the bytes filled in, of the first byte not yet consumed.
    pub closed spec fn position(&self) -> int {
        self.pos as int
    }

    /// Whether the source has been closed: no byte will follow those filled in.
    pub closed spec fn is_closed(&self) -> bool {
        self.closed
    }

    /// The bytes filled in and not yet consumed.
    pub open spec fn remaining(&self) -> Seq<u8> {
        self.fed().subrange(self.position(), self.fed().len() as int)
    }

    pub closed spec fn wf(&self) -> bool {
        &&& self.head <= self.buf@.len()
        &&& self.pos <= self.fed@.len()
        &&& self.fed@.len() <= usize::MAX
        &&& self.buf@.subrange(self.head as int, self.buf@.len() as int) == self.fed@.subrange(
            self.pos as int,
            self.fed@.len() as int,
        )
        &&& obeys_concrete_eq::<TK>()
    }

    /// A scanner with no bytes yet and an open source.
    pub fn new(config: &'a Config<TK>, classifier: &'a CL) -> (r: Self)
        requires
            obeys_concrete_eq::<TK>(),
        ensures
            r.wf(),
            r.policy() == *config,
            r.classifier() == *classifier,
            r.fed() == Seq::<u8>::empty(),
            r.position() == 0,
            !r.is_closed(),
    {
        let r = LexerStream {
            config,
            classifier,
            buf: Vec::new(),
            head: 0,
            pos: 0,
            closed: false,
            fed: Ghost(Seq::empty()),
        };
        assert(r.buf@.subrange(0, 0) =~= r.fed@.subrange(0, 0));
        r
    }

    /// Appends the bytes of `chunk` to the input; ignored once the source is closed.
    pub fn fill(&mut self, chunk: &[u8])
        requires
            old(self).wf(),
            old(self).fed().len() + chunk@.len() <= usize::MAX,
        ensures
            final(self).wf(),
            final(self).policy() == old(self).policy(),
            final(self).classifier() == old(self).classifier(),
            final(self).position() == old(self).position(),
            final(self).is_closed() == old(self).is_closed(),
            !old(self).is_closed() ==> final(self).fed() == old(self).fed() + chunk@,
            old(self).is_closed() ==> final(self).fed() == old(self).fed(),
    {
        if self.closed {
            return;
        }
        let mut next: Vec<u8> = Vec::new();
        let mut i: usize = self.head;
        while i < self.buf.len()
            invariant
                self.head <= i <= self.buf@.len(),
                next@ == self.buf@.subrange(self.head as int, i as int),
            decreases self.buf@.len() - i,
        {
            next.push(self.buf[i]);
            assert(self.buf@.subrange(self.head as int, i + 1) =~= self.buf@.subrange(self.head as int, i as int).push(self.buf@[i as int]));
            i += 1;
        }
        let ghost kept = next@;
        let mut j: usize = 0;
        while j < chunk.len()
            invariant
                0 <= j <= chunk@.len(),
                next@ == kept + chunk@.subrange(0, j as int),
            decreases chunk@.len() - j,
        {
            next.push(chunk[j]);
            assert(chunk@.subrange(0, j + 1) =~= chunk@.subrange(0, j as int).push(chunk@[j as int]));
            j += 1;
        }
        proof {
            let old_fed = self.fed@;
            assert(chunk@.subrange(0, chunk@.len() as int) =~= chunk@);
            assert((old_fed + chunk@).subrange(self.pos as int, (old_fed + chunk@).len() as int) =~= old_fed.subrange(
                self.pos as int,
                old_fed.len() as int,
            ) + chunk@);
            assert(next@.subrange(0, next@.len() as int) =~= next@);
        }
        self.buf = next;
        self.head = 0;
        self.fed = Ghost(self.fed@ + chunk@);
    }

    /// How many bytes have been filled in so far.
    pub fn bytes_filled(&self) -> (r: usize)
        requires
            self.wf(),
        ensures
            r == self.fed().len(),
    {
        let ghost rest = self.buf@.subrange(self.head as int, self.buf@.len() as int);
        assert(rest.len() == self.fed@.len() - self.pos);
        self.pos + (self.buf.len() - self.head)
    }

    /// Marks the end of the input: no byte follows those filled in.
    pub fn close(&mut self)
        requires
            old(self).wf(),
        ensures
            final(self).wf(),
            final(self).policy() == old(self).policy(),
            final(self).classifier() == old(self).classifier(),
            final(self).fed() == old(self).fed(),
            final(self).position() == old(self).position(),
            final(self).is_closed(),
    {
        self.closed = true;
    }

    /// The next token if the bytes filled in decide it; else whether more are needed.
    pub fn pull(&mut self) -> (r: Pull<TK>)
        requires
            old(self).wf(),
        ensures
            final(self).wf(),
            final(self).policy() == old(self).policy(),
            final(self).classifier() == old(self).classifier(),
            final(self).fed() == old(self).fed(),
            final(self).is_closed() == old(self).is_closed(),
            next_from(&old(self).policy(), &old(self).classifier(), old(self).remaining(), old(self).is_closed()) matches Scan::Produced(k, t, s, c) ==> {
                &&& r matches Pull::Ready(tok) && tok@ == (k, t, (old(self).position() + s) as nat)
                &&& final(self).position() == old(self).position() + c
            },
            next_from(&old(self).policy(), &old(self).classifier(), old(self).remaining(), old(self).is_closed()) is Pending ==> {
                &&& r is NeedMore
                &&& final(self).position() == old(self).position()
            },
            next_from(&old(self).policy(), &old(self).classifier(), old(self).remaining(), old(self).is_closed()) is Finished ==> {
                &&& r is Done
                &&& final(self).position() == old(self).fed().len()
            },
    {
        let w = &self.buf[self.head..self.buf.len()];
        assert(w@ == self.remaining());
        let s = scan_next(self.config, self.classifier, w, self.closed);
        proof {
            lemma_next_bounds(self.config, self.classifier, w@, self.closed);
        }
        match s {
            Step::Produced(kind, text, st, c) => {
                let start = self.pos + st;
                proof {
                    let a = self.buf@.subrange(self.head as int, self.buf@.len() as int);
                    let b = self.fed@.subrange(self.pos as int, self.fed@.len() as int);
                    assert(c <= a.len());
                    assert(a.subrange(c as int, a.len() as int) =~= self.buf@.subrange(self.head + c, self.buf@.len() as int));
                    assert(b.subrange(c as int, b.len() as int) =~= self.fed@.subrange(self.pos + c, self.fed@.len() as int));
                    assert(self.buf@.subrange(self.head + c, self.buf@.len() as int) =~= self.fed@.subrange(
                        self.pos + c,
                        self.fed@.len() as int,
                    ));
                }
                self.head = self.head + c;
                self.pos = self.pos + c;
                Pull::Ready(Token { kind, text, start })
            },
            Step::Pending => Pull::NeedMore,
            _ => {
                proof {
                    assert(self.buf@.subrange(self.buf@.len() as int, self.buf@.len() as int) =~= self.fed@.subrange(
                        self.fed@.len() as int,
                        self.fed@.len() as int,
                    ));
                }
                self.pos = self.pos + (self.buf.len() - self.head);
                self.head = self.buf.len();
                Pull::Done
            },
        }
    }
}

} // verus!
