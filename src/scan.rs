//! The decision logic that both engines share: classify, then replace, skip,
//! emit one symbol, or merge a run. It works on a window of bytes that starts
//! at the cursor; `complete` says whether the window reaches the end of input.

use vstd::prelude::*;
use vstd::laws_eq::obeys_concrete_eq;
use vstd::string::{StrSliceExecFns, StringSliceAdditionalSpecFns};
use vstd::utf8::{decode_utf8, encode_utf8, valid_utf8};

use crate::classifier::Classifier;
use crate::config::Config;
use crate::token::{same_custom, BaseKind, Lexeme, TokenKind};

verus! {

broadcast use vstd::utf8::group_utf8_lib;

/// The byte length that a UTF-8 lead byte announces.
pub open spec fn char_width(lead: u8) -> int {
    if lead < 0x80 {
        1
    } else if lead < 0xE0 {
        2
    } else if lead < 0xF0 {
        3
    } else {
        4
    }
}

/// All the bytes that the first byte of `w` announces are present.
pub open spec fn has_full_char(w: Seq<u8>) -> bool {
    w.len() > 0 && char_width(w[0]) <= w.len()
}

pub open spec fn first_char_bytes(w: Seq<u8>) -> Seq<u8> {
    w.subrange(0, char_width(w[0]))
}

/// `w` begins with one complete, well-formed code point.
pub open spec fn starts_with_char(w: Seq<u8>) -> bool {
    has_full_char(w) && valid_utf8(first_char_bytes(w))
}

pub open spec fn first_char(w: Seq<u8>) -> char {
    decode_utf8(first_char_bytes(w))[0]
}

/// `rest` begins with a code point that joins a run of `kind`: same kind, no replacement.
pub open spec fn continues_run<TK: Copy + Eq + std::hash::Hash, CL: Classifier<Custom = TK>>(
    cls: &CL,
    rest: Seq<u8>,
    kind: TokenKind<TK>,
) -> bool {
    &&& starts_with_char(rest)
    &&& cls.class_of(first_char(rest)).2 is None
    &&& cls.class_of(first_char(rest)).0 == kind.base
    &&& cls.class_of(first_char(rest)).1 == kind.custom
}

/// Where a run of `kind` that has reached offset `q` of `w` stops, within the bytes of `w`.
pub open spec fn run_end<TK: Copy + Eq + std::hash::Hash, CL: Classifier<Custom = TK>>(
    cls: &CL,
    w: Seq<u8>,
    q: int,
    kind: TokenKind<TK>,
) -> int
    decreases w.len() - q,
{
    if 0 <= q < w.len() && continues_run(cls, w.subrange(q, w.len() as int), kind) {
        run_end(cls, w, q + char_width(w[q]), kind)
    } else {
        q
    }
}

/// A run that stopped at `e` stops there whatever bytes come after `w`.
pub open spec fn settled(w: Seq<u8>, e: int, complete: bool) -> bool {
    complete || (e < w.len() && e + char_width(w[e]) <= w.len())
}

/// The outcome of scanning at the start of a window. Offsets are relative to the window.
pub enum Scan<TK: Copy + Eq + std::hash::Hash> {
    /// More bytes are needed to decide.
    Pending,
    /// The window is the rest of the input, and it is empty.
    Finished,
    /// This many bytes produce no token (a skipped run, or a byte that cannot be read).
    Dropped(int),
    /// A token of this kind and text, starting at the first offset; the second offset is
    /// how many bytes it consumes.
    Produced(TokenKind<TK>, Seq<u8>, int, int),
}

/// One decision at the start of `w`.
pub open spec fn step<TK: Copy + Eq + std::hash::Hash, CL: Classifier<Custom = TK>>(
    cfg: &Config<TK>,
    cls: &CL,
    w: Seq<u8>,
    complete: bool,
) -> Scan<TK> {
    if w.len() == 0 {
        if complete {
            Scan::Finished
        } else {
            Scan::Pending
        }
    } else if !has_full_char(w) {
        if complete {
            Scan::Dropped(1)
        } else {
            Scan::Pending
        }
    } else if !valid_utf8(first_char_bytes(w)) {
        Scan::Dropped(1)
    } else {
        let n = char_width(w[0]);
        let cl = cls.class_of(first_char(w));
        let kind = TokenKind { custom: cl.1, base: cl.0 };
        if cl.2 is Some {
            Scan::Produced(kind, encode_utf8(cl.2->0), 0, n)
        } else if cfg.skips(cl.0, cl.1) {
            let e = run_end(cls, w, n, kind);
            if settled(w, e, complete) {
                Scan::Dropped(e)
            } else {
                Scan::Pending
            }
        } else if cl.0 == BaseKind::Symbol && !cfg.group_symbols {
            Scan::Produced(kind, w.subrange(0, n), 0, n)
        } else {
            let e = run_end(cls, w, n, kind);
            if settled(w, e, complete) {
                Scan::Produced(kind, w.subrange(0, e), 0, e)
            } else {
                Scan::Pending
            }
        }
    }
}

/// `s`, found after `n` dropped bytes.
pub open spec fn after<TK: Copy + Eq + std::hash::Hash>(s: Scan<TK>, n: int) -> Scan<TK> {
    match s {
        Scan::Produced(k, t, st, c) => Scan::Produced(k, t, n + st, n + c),
        Scan::Dropped(m) => Scan::Dropped(n + m),
        _ => s,
    }
}

/// The next token from the start of `w`, past any dropped bytes.
pub open spec fn next_from<TK: Copy + Eq + std::hash::Hash, CL: Classifier<Custom = TK>>(
    cfg: &Config<TK>,
    cls: &CL,
    w: Seq<u8>,
    complete: bool,
) -> Scan<TK>
    decreases w.len(),
{
    match step(cfg, cls, w, complete) {
        Scan::Dropped(n) => if 0 < n <= w.len() {
            after(next_from(cfg, cls, w.subrange(n, w.len() as int), complete), n)
        } else {
            Scan::Dropped(n)
        },
        s => s,
    }
}

/// `ls` with every start moved `by` bytes later.
pub open spec fn shifted<TK: Copy + Eq + std::hash::Hash>(ls: Seq<Lexeme<TK>>, by: int) -> Seq<Lexeme<TK>> {
    ls.map_values(|l: Lexeme<TK>| (l.0, l.1, (l.2 + by) as nat))
}

/// Every token that the whole input `w` yields, in order; starts are offsets into `w`.
pub open spec fn tokens<TK: Copy + Eq + std::hash::Hash, CL: Classifier<Custom = TK>>(
    cfg: &Config<TK>,
    cls: &CL,
    w: Seq<u8>,
) -> Seq<Lexeme<TK>>
    decreases w.len(),
{
    match next_from(cfg, cls, w, true) {
        Scan::Produced(k, t, s, c) => if 0 < c <= w.len() {
            seq![(k, t, s as nat)] + shifted(tokens(cfg, cls, w.subrange(c, w.len() as int)), c)
        } else {
            seq![(k, t, s as nat)]
        },
        _ => Seq::empty(),
    }
}

/// How `tokens` starts: with the next token and what follows it, or nothing at the end.
pub proof fn lemma_tokens_unfold<TK: Copy + Eq + std::hash::Hash, CL: Classifier<Custom = TK>>(
    cfg: &Config<TK>,
    cls: &CL,
    w: Seq<u8>,
)
    ensures
        next_from(cfg, cls, w, true) matches Scan::Produced(k, t, s, c) ==> {
            &&& 0 <= s < c <= w.len()
            &&& tokens(cfg, cls, w) == seq![(k, t, s as nat)] + shifted(
                tokens(cfg, cls, w.subrange(c, w.len() as int)),
                c,
            )
        },
        !(next_from(cfg, cls, w, true) is Produced) ==> {
            &&& next_from(cfg, cls, w, true) is Finished
            &&& tokens(cfg, cls, w) == Seq::<Lexeme<TK>>::empty()
        },
{
    lemma_next_bounds(cfg, cls, w, true);
}

/// Moving starts twice is moving them by the sum.
pub proof fn lemma_shifted_twice<TK: Copy + Eq + std::hash::Hash>(ls: Seq<Lexeme<TK>>, a: int, b: int)
    requires
        a >= 0,
        b >= 0,
    ensures
        shifted(shifted(ls, a), b) == shifted(ls, a + b),
{
    assert(shifted(shifted(ls, a), b) =~= shifted(ls, a + b));
}

pub(crate) proof fn lemma_run_end_bounds<TK: Copy + Eq + std::hash::Hash, CL: Classifier<Custom = TK>>(
    cls: &CL,
    w: Seq<u8>,
    q: int,
    kind: TokenKind<TK>,
)
    requires
        0 <= q <= w.len(),
    ensures
        q <= run_end(cls, w, q, kind) <= w.len(),
    decreases w.len() - q,
{
    if 0 <= q < w.len() && continues_run(cls, w.subrange(q, w.len() as int), kind) {
        lemma_run_end_bounds(cls, w, q + char_width(w[q]), kind);
    }
}

proof fn lemma_run_valid<TK: Copy + Eq + std::hash::Hash, CL: Classifier<Custom = TK>>(
    cls: &CL,
    w: Seq<u8>,
    q: int,
    kind: TokenKind<TK>,
)
    requires
        0 <= q <= w.len(),
        valid_utf8(w.subrange(0, q)),
    ensures
        valid_utf8(w.subrange(0, run_end(cls, w, q, kind))),
    decreases w.len() - q,
{
    if 0 <= q < w.len() && continues_run(cls, w.subrange(q, w.len() as int), kind) {
        let n = char_width(w[q]);
        let rest = w.subrange(q, w.len() as int);
        assert(first_char_bytes(rest) =~= w.subrange(q, q + n));
        assert(w.subrange(0, q + n) =~= w.subrange(0, q) + w.subrange(q, q + n));
        lemma_run_valid(cls, w, q + n, kind);
    }
}

pub proof fn lemma_step_bounds<TK: Copy + Eq + std::hash::Hash, CL: Classifier<Custom = TK>>(
    cfg: &Config<TK>,
    cls: &CL,
    w: Seq<u8>,
    complete: bool,
)
    ensures
        step(cfg, cls, w, complete) matches Scan::Dropped(n) ==> 0 < n <= w.len(),
        step(cfg, cls, w, complete) matches Scan::Produced(_, _, s, c) ==> s == 0 && 0 < c <= w.len(),
        step(cfg, cls, w, complete) is Finished ==> w.len() == 0,
        complete ==> !(step(cfg, cls, w, complete) is Pending),
{
    if has_full_char(w) && valid_utf8(first_char_bytes(w)) {
        let n = char_width(w[0]);
        let cl = cls.class_of(first_char(w));
        let kind = TokenKind { custom: cl.1, base: cl.0 };
        lemma_run_end_bounds(cls, w, n, kind);
    }
}

pub proof fn lemma_next_bounds<TK: Copy + Eq + std::hash::Hash, CL: Classifier<Custom = TK>>(
    cfg: &Config<TK>,
    cls: &CL,
    w: Seq<u8>,
    complete: bool,
)
    ensures
        !(next_from(cfg, cls, w, complete) is Dropped),
        next_from(cfg, cls, w, complete) matches Scan::Produced(_, _, s, c) ==> 0 <= s < c <= w.len(),
        next_from(cfg, cls, w, complete) is Finished ==> complete,
        complete ==> !(next_from(cfg, cls, w, complete) is Pending),
    decreases w.len(),
{
    lemma_step_bounds(cfg, cls, w, complete);
    if let Scan::Dropped(n) = step(cfg, cls, w, complete) {
        lemma_next_bounds(cfg, cls, w.subrange(n, w.len() as int), complete);
    }
}


/// Relies on `std::str::from_utf8`: `Ok` exactly when the bytes are valid UTF-8, and
/// then a text whose bytes are those bytes.
#[verifier::external_body]
fn utf8_str(b: &[u8], from: usize, to: usize) -> (r: Option<&str>)
    requires
        from <= to <= b@.len(),
    ensures
        r is Some <==> valid_utf8(b@.subrange(from as int, to as int)),
        r is Some ==> r->0.spec_bytes() == b@.subrange(from as int, to as int),
{
    std::str::from_utf8(&b[from..to]).ok()
}

/// The byte length that the lead byte `f` announces.
pub fn utf_char_len(f: u8) -> (r: usize)
    ensures
        r == char_width(f),
        1 <= r <= 4,
{
    if f < 0x80 {
        1
    } else if f < 0xE0 {
        2
    } else if f < 0xF0 {
        3
    } else {
        4
    }
}

/// The code point at the start of `w`, whose lead byte announces `n` bytes, all present.
fn decode_first(w: &[u8], n: usize) -> (r: Option<char>)
    requires
        has_full_char(w@),
        n == char_width(w@[0]),
    ensures
        r is Some <==> valid_utf8(first_char_bytes(w@)),
        r is Some ==> r->0 == first_char(w@),
{
    match utf8_str(w, 0, n) {
        Some(s) => {
            proof {
                assert(encode_utf8(s@) == s.spec_bytes());
                if s@.len() == 0 {
                    assert(encode_utf8(s@) =~= Seq::<u8>::empty());
                }
                assert(decode_utf8(first_char_bytes(w@)) == s@);
            }
            Some(s.get_char(0))
        },
        None => None,
    }
}

/// Where a run of `(base, custom)` that has reached offset `token_len` of `buf` stops.
pub fn scan_token<TK: Copy + Eq + std::hash::Hash, CL: Classifier<Custom = TK>>(
    buf: &[u8],
    token_len: usize,
    base: BaseKind,
    custom: Option<TK>,
    classifier: &CL,
) -> (r: usize)
    requires
        token_len <= buf@.len(),
        obeys_concrete_eq::<TK>(),
    ensures
        r == run_end(classifier, buf@, token_len as int, TokenKind { custom, base }),
{
    let ghost kind = TokenKind { custom, base };
    let mut q = token_len;
    loop
        invariant
            token_len <= q <= buf@.len(),
            obeys_concrete_eq::<TK>(),
            kind == (TokenKind { custom, base }),
            run_end(classifier, buf@, token_len as int, kind) == run_end(classifier, buf@, q as int, kind),
        decreases buf@.len() - q,
    {
        if q >= buf.len() {
            assert(run_end(classifier, buf@, q as int, kind) == q);
            return q;
        }
        let len = utf_char_len(buf[q]);
        let rest = &buf[q..buf.len()];
        assert(rest@ == buf@.subrange(q as int, buf@.len() as int));
        if len > rest.len() {
            assert(!continues_run(classifier, rest@, kind));
            assert(run_end(classifier, buf@, q as int, kind) == q);
            return q;
        }
        let ch = match decode_first(rest, len) {
            Some(c) => c,
            None => {
                assert(!continues_run(classifier, rest@, kind));
                assert(run_end(classifier, buf@, q as int, kind) == q);
                return q;
            },
        };
        let (bk, ck, next_repl) = classifier.classify(ch);
        if next_repl.is_some() || bk != base || !same_custom(&ck, &custom) {
            assert(!continues_run(classifier, rest@, kind));
            assert(run_end(classifier, buf@, q as int, kind) == q);
            return q;
        }
        assert(continues_run(classifier, rest@, kind));
        q = q + len;
    }
}

/// The executable counterpart of [`Scan`]: a produced token carries its kind, its
/// text, where it starts and how many bytes it consumes.
pub enum Step<TK: Copy + Eq + std::hash::Hash> {
    Pending,
    Finished,
    Dropped(usize),
    Produced(TokenKind<TK>, String, usize, usize),
}

impl<TK: Copy + Eq + std::hash::Hash> View for Step<TK> {
    type V = Scan<TK>;

    open spec fn view(&self) -> Scan<TK> {
        match self {
            Step::Pending => Scan::Pending,
            Step::Finished => Scan::Finished,
            Step::Dropped(n) => Scan::Dropped(*n as int),
            Step::Produced(k, t, s, c) => Scan::Produced(*k, encode_utf8(t@), *s as int, *c as int),
        }
    }
}

/// One decision at the start of `w`.
pub fn scan_step<TK: Copy + Eq + std::hash::Hash, CL: Classifier<Custom = TK>>(
    cfg: &Config<TK>,
    cls: &CL,
    w: &[u8],
    complete: bool,
) -> (r: Step<TK>)
    requires
        obeys_concrete_eq::<TK>(),
    ensures
        r@ == step(cfg, cls, w@, complete),
{
    if w.len() == 0 {
        return if complete {
            Step::Finished
        } else {
            Step::Pending
        };
    }
    let n = utf_char_len(w[0]);
    if n > w.len() {
        return if complete {
            Step::Dropped(1)
        } else {
            Step::Pending
        };
    }
    let ch = match decode_first(w, n) {
        Some(c) => c,
        None => {
            return Step::Dropped(1);
        },
    };
    let (bk, ck, repl) = cls.classify(ch);
    let kind = TokenKind::new(bk, ck);
    if let Some(text) = repl {
        return Step::Produced(kind, text, 0, n);
    }
    let single = bk == BaseKind::Symbol && !cfg.group_symbols;
    let skip = cfg.should_skip(bk, ck);
    let e = if single && !skip {
        n
    } else {
        scan_token(w, n, bk, ck, cls)
    };
    proof {
        lemma_run_end_bounds(cls, w@, n as int, kind);
    }
    let settled = complete || (e < w.len() && utf_char_len(w[e]) <= w.len() - e);
    if skip {
        return if settled {
            Step::Dropped(e)
        } else {
            Step::Pending
        };
    }
    if !single && !settled {
        return Step::Pending;
    }
    proof {
        assert(first_char_bytes(w@) == w@.subrange(0, n as int));
        lemma_run_valid(cls, w@, n as int, kind);
    }
    let text = utf8_str(w, 0, e).unwrap().to_owned();
    Step::Produced(kind, text, 0, e)
}

/// The next token from the start of `w`, past any dropped bytes.
pub fn scan_next<TK: Copy + Eq + std::hash::Hash, CL: Classifier<Custom = TK>>(
    cfg: &Config<TK>,
    cls: &CL,
    w: &[u8],
    complete: bool,
) -> (r: Step<TK>)
    requires
        obeys_concrete_eq::<TK>(),
    ensures
        r@ == next_from(cfg, cls, w@, complete),
{
    let mut skipped: usize = 0;
    assert(w@.subrange(0, w@.len() as int) =~= w@);
    loop
        invariant
            skipped <= w@.len(),
            obeys_concrete_eq::<TK>(),
            next_from(cfg, cls, w@, complete) == after(
                next_from(cfg, cls, w@.subrange(skipped as int, w@.len() as int), complete),
                skipped as int,
            ),
        decreases w@.len() - skipped,
    {
        let rest = &w[skipped..w.len()];
        assert(rest@ == w@.subrange(skipped as int, w@.len() as int));
        let s = scan_step(cfg, cls, rest, complete);
        proof {
            lemma_step_bounds(cfg, cls, rest@, complete);
        }
        match s {
            Step::Dropped(n) => {
                proof {
                    assert(rest@.subrange(n as int, rest@.len() as int) =~= w@.subrange(
                        skipped + n,
                        w@.len() as int,
                    ));
                    let inner = next_from(cfg, cls, w@.subrange(skipped + n, w@.len() as int), complete);
                    assert(after(after(inner, n as int), skipped as int) == after(inner, skipped + n));
                }
                skipped = skipped + n;
            },
            Step::Produced(k, t, st, c) => {
                return Step::Produced(k, t, skipped + st, skipped + c);
            },
            other => {
                return other;
            },
        }
    }
}

} // verus!
