//! Properties of the token sequence that hold for every input.

use vstd::prelude::*;
use vstd::utf8::{encode_utf8, length_of_first_scalar, pop_first_scalar, valid_first_scalar, valid_utf8};

use crate::classifier::Classifier;
use crate::config::Config;
use crate::scan::{
    char_width, first_char, first_char_bytes, has_full_char, lemma_next_bounds,
    lemma_tokens_unfold, next_from, run_end, settled, shifted, starts_with_char, step,
    tokens, continues_run, Scan,
};
use crate::token::{BaseKind, Lexeme, TokenKind};

verus! {

/// The texts of `ls`, one after the other.
pub open spec fn joined_texts<TK: Copy + Eq + std::hash::Hash>(ls: Seq<Lexeme<TK>>) -> Seq<u8>
    decreases ls.len(),
{
    if ls.len() == 0 {
        Seq::empty()
    } else {
        ls[0].1 + joined_texts(ls.drop_first())
    }
}

proof fn lemma_joined_shifted<TK: Copy + Eq + std::hash::Hash>(ls: Seq<Lexeme<TK>>, by: int)
    ensures
        joined_texts(shifted(ls, by)) == joined_texts(ls),
    decreases ls.len(),
{
    if ls.len() > 0 {
        assert(shifted(ls, by).drop_first() =~= shifted(ls.drop_first(), by));
        lemma_joined_shifted(ls.drop_first(), by);
    }
}

/// A well-formed input begins with a whole code point, and what follows it is well-formed.
proof fn lemma_valid_first(w: Seq<u8>)
    requires
        valid_utf8(w),
        w.len() > 0,
    ensures
        starts_with_char(w),
        valid_utf8(w.subrange(char_width(w[0]), w.len() as int)),
{
    let n = char_width(w[0]);
    assert(valid_first_scalar(w));
    assert(length_of_first_scalar(w) == n);
    assert(pop_first_scalar(w) =~= w.subrange(n, w.len() as int));
    let f = first_char_bytes(w);
    assert(pop_first_scalar(f) =~= Seq::<u8>::empty());
    assert(valid_first_scalar(f));
    assert(valid_utf8(Seq::<u8>::empty()));
    assert(valid_utf8(f));
}

/// A run over a well-formed input stops where a well-formed remainder begins.
proof fn lemma_run_keeps_valid<TK: Copy + Eq + std::hash::Hash, CL: Classifier<Custom = TK>>(
    cls: &CL,
    w: Seq<u8>,
    q: int,
    kind: TokenKind<TK>,
)
    requires
        0 <= q <= w.len(),
        valid_utf8(w.subrange(q, w.len() as int)),
    ensures
        valid_utf8(w.subrange(run_end(cls, w, q, kind), w.len() as int)),
    decreases w.len() - q,
{
    if 0 <= q < w.len() && continues_run(cls, w.subrange(q, w.len() as int), kind) {
        let rest = w.subrange(q, w.len() as int);
        lemma_valid_first(rest);
        assert(rest.subrange(char_width(rest[0]), rest.len() as int) =~= w.subrange(
            q + char_width(w[q]),
            w.len() as int,
        ));
        lemma_run_keeps_valid(cls, w, q + char_width(w[q]), kind);
    }
}

/// With nothing skipped and nothing replaced, the token texts put back together are the
/// input, byte for byte.
pub proof fn texts_rebuild_input<TK: Copy + Eq + std::hash::Hash, CL: Classifier<Custom = TK>>(
    cfg: &Config<TK>,
    cls: &CL,
    w: Seq<u8>,
)
    requires
        valid_utf8(w),
        cfg.skip_base@.len() == 0,
        cfg.skip_custom@.len() == 0,
        forall|c: char| #[trigger] cls.class_of(c).2 is None,
    ensures
        joined_texts(tokens(cfg, cls, w)) == w,
    decreases w.len(),
{
    lemma_tokens_unfold(cfg, cls, w);
    if w.len() == 0 {
        assert(joined_texts(tokens(cfg, cls, w)) =~= w);
    } else {
        lemma_valid_first(w);
        let n = char_width(w[0]);
        let cl = cls.class_of(first_char(w));
        let kind = TokenKind { custom: cl.1, base: cl.0 };
        assert(!cfg.skips(cl.0, cl.1));
        crate::scan::lemma_step_bounds(cfg, cls, w, true);
        let e = if cl.0 == BaseKind::Symbol && !cfg.group_symbols {
            n
        } else {
            run_end(cls, w, n, kind)
        };
        assert(step(cfg, cls, w, true) == Scan::Produced(kind, w.subrange(0, e), 0, e));
        assert(next_from(cfg, cls, w, true) == step(cfg, cls, w, true));
        lemma_run_keeps_valid(cls, w, n, kind);
        let rest = w.subrange(e, w.len() as int);
        texts_rebuild_input(cfg, cls, rest);
        lemma_joined_shifted(tokens(cfg, cls, rest), e);
        let ts = tokens(cfg, cls, w);
        assert(ts.drop_first() =~= shifted(tokens(cfg, cls, rest), e));
        assert(w =~= w.subrange(0, e) + rest);
    }
}

/// A run whose stopping point lies inside `w`, with a whole code point there, stops at the
/// same place whatever bytes follow `w`.
proof fn lemma_run_end_extend<TK: Copy + Eq + std::hash::Hash, CL: Classifier<Custom = TK>>(
    cls: &CL,
    w: Seq<u8>,
    x: Seq<u8>,
    q: int,
    kind: TokenKind<TK>,
)
    requires
        0 <= q <= w.len(),
        settled(w, run_end(cls, w, q, kind), false),
    ensures
        run_end(cls, w + x, q, kind) == run_end(cls, w, q, kind),
    decreases w.len() - q,
{
    let wx = w + x;
    let e = run_end(cls, w, q, kind);
    if q < w.len() {
        let a = w.subrange(q, w.len() as int);
        let b = wx.subrange(q, wx.len() as int);
        assert(a[0] == b[0]);
        if has_full_char(a) {
            assert(first_char_bytes(a) =~= first_char_bytes(b));
        }
        if continues_run(cls, a, kind) {
            lemma_run_end_extend(cls, w, x, q + char_width(w[q]), kind);
        } else {
            assert(e == q);
            assert(has_full_char(a));
        }
    }
}

/// One decision that the bytes of `w` settle is the same once more bytes follow.
proof fn lemma_step_extend<TK: Copy + Eq + std::hash::Hash, CL: Classifier<Custom = TK>>(
    cfg: &Config<TK>,
    cls: &CL,
    w: Seq<u8>,
    x: Seq<u8>,
    complete: bool,
)
    requires
        !(step(cfg, cls, w, false) is Pending),
    ensures
        step(cfg, cls, w + x, complete) == step(cfg, cls, w, false),
{
    let wx = w + x;
    assert(wx[0] == w[0]);
    assert(first_char_bytes(wx) =~= first_char_bytes(w));
    if valid_utf8(first_char_bytes(w)) {
        let n = char_width(w[0]);
        let cl = cls.class_of(first_char(w));
        let kind = TokenKind { custom: cl.1, base: cl.0 };
        if cl.2 is None && (cfg.skips(cl.0, cl.1) || !(cl.0 == BaseKind::Symbol && !cfg.group_symbols)) {
            crate::scan::lemma_run_end_bounds(cls, w, n, kind);
            lemma_run_end_extend(cls, w, x, n, kind);
            assert(wx.subrange(0, run_end(cls, w, n, kind)) =~= w.subrange(0, run_end(cls, w, n, kind)));
        }
        assert(wx.subrange(0, n) =~= w.subrange(0, n));
    }
}

/// Bytes filled in later never change a token that the bytes so far decide: whenever the
/// bytes `w` settle the next token, it is the token that the whole input `w + x` gives.
/// So a token stream cut into pieces yields the tokens of the whole input.
pub proof fn settled_tokens_survive_more_input<TK: Copy + Eq + std::hash::Hash, CL: Classifier<Custom = TK>>(
    cfg: &Config<TK>,
    cls: &CL,
    w: Seq<u8>,
    x: Seq<u8>,
    complete: bool,
)
    requires
        !(next_from(cfg, cls, w, false) is Pending),
    ensures
        next_from(cfg, cls, w + x, complete) == next_from(cfg, cls, w, false),
    decreases w.len(),
{
    crate::scan::lemma_step_bounds(cfg, cls, w, false);
    lemma_step_extend(cfg, cls, w, x, complete);
    if let Scan::Dropped(n) = step(cfg, cls, w, false) {
        let rest = w.subrange(n, w.len() as int);
        settled_tokens_survive_more_input(cfg, cls, rest, x, complete);
        assert((w + x).subrange(n, (w + x).len() as int) =~= rest + x);
    }
}

/// A code point with a replacement yields one token, whose text is the replacement and which
/// covers that code point alone; and no run, of any kind, reaches over such a code point.
pub proof fn replacement_stands_alone<TK: Copy + Eq + std::hash::Hash, CL: Classifier<Custom = TK>>(
    cfg: &Config<TK>,
    cls: &CL,
    w: Seq<u8>,
    complete: bool,
)
    requires
        starts_with_char(w),
        cls.class_of(first_char(w)).2 is Some,
    ensures
        ({
            let cl = cls.class_of(first_char(w));
            next_from(cfg, cls, w, complete) == Scan::Produced(
                TokenKind { custom: cl.1, base: cl.0 },
                encode_utf8(cl.2->0),
                0,
                char_width(w[0]),
            )
        }),
        forall|v: Seq<u8>, q: int, kind: TokenKind<TK>|
            0 <= q < v.len() && v.subrange(q, v.len() as int) == w ==> #[trigger] run_end(
                cls,
                v,
                q,
                kind,
            ) == q,
{
    assert forall|v: Seq<u8>, q: int, kind: TokenKind<TK>|
        0 <= q < v.len() && v.subrange(q, v.len() as int) == w implies #[trigger] run_end(
            cls,
            v,
            q,
            kind,
        ) == q by {
        assert(!continues_run(cls, v.subrange(q, v.len() as int), kind));
    }
}

/// The start of the next token is where a whole code point begins.
proof fn lemma_next_starts_at_char<TK: Copy + Eq + std::hash::Hash, CL: Classifier<Custom = TK>>(
    cfg: &Config<TK>,
    cls: &CL,
    w: Seq<u8>,
    complete: bool,
)
    ensures
        next_from(cfg, cls, w, complete) matches Scan::Produced(_, _, s, _) ==> 0 <= s < w.len()
            && starts_with_char(w.subrange(s, w.len() as int)),
    decreases w.len(),
{
    crate::scan::lemma_step_bounds(cfg, cls, w, complete);
    lemma_next_bounds(cfg, cls, w, complete);
    match step(cfg, cls, w, complete) {
        Scan::Dropped(n) => {
            let rest = w.subrange(n, w.len() as int);
            lemma_next_starts_at_char(cfg, cls, rest, complete);
            if let Scan::Produced(_, _, s, _) = next_from(cfg, cls, rest, complete) {
                assert(rest.subrange(s, rest.len() as int) =~= w.subrange(n + s, w.len() as int));
            }
        },
        Scan::Produced(_, _, _, _) => {
            assert(w.subrange(0, w.len() as int) =~= w);
        },
        _ => {},
    }
}

/// Token starts strictly increase, and each is the byte offset at which a code point of the
/// input begins.
pub proof fn starts_increase_at_code_points<TK: Copy + Eq + std::hash::Hash, CL: Classifier<Custom = TK>>(
    cfg: &Config<TK>,
    cls: &CL,
    w: Seq<u8>,
)
    ensures
        forall|i: int, j: int|
            0 <= i < j < tokens(cfg, cls, w).len() ==> #[trigger] tokens(cfg, cls, w)[i].2
                < #[trigger] tokens(cfg, cls, w)[j].2,
        forall|i: int|
            0 <= i < tokens(cfg, cls, w).len() ==> #[trigger] tokens(cfg, cls, w)[i].2 < w.len()
                && starts_with_char(w.subrange(tokens(cfg, cls, w)[i].2 as int, w.len() as int)),
    decreases w.len(),
{
    lemma_tokens_unfold(cfg, cls, w);
    lemma_next_starts_at_char(cfg, cls, w, true);
    let ts = tokens(cfg, cls, w);
    if let Scan::Produced(k, t, s, c) = next_from(cfg, cls, w, true) {
        let rest = w.subrange(c, w.len() as int);
        let tail = tokens(cfg, cls, rest);
        starts_increase_at_code_points(cfg, cls, rest);
        assert forall|i: int| 1 <= i < ts.len() implies #[trigger] ts[i].2 == tail[i - 1].2 + c
            && ts[i].2 < w.len() && starts_with_char(w.subrange(ts[i].2 as int, w.len() as int)) by {
            assert(ts[i] == shifted(tail, c)[i - 1]);
            assert(tail[i - 1].2 < rest.len());
            assert(rest.subrange(tail[i - 1].2 as int, rest.len() as int) =~= w.subrange(
                ts[i].2 as int,
                w.len() as int,
            ));
        }
        assert forall|i: int, j: int| 0 <= i < j < ts.len() implies #[trigger] ts[i].2 < #[trigger] ts[j].2 by {
            if i == 0 {
                assert(ts[j].2 == tail[j - 1].2 + c);
            } else {
                assert(tail[i - 1].2 < tail[j - 1].2);
            }
        }
        assert forall|i: int| 0 <= i < ts.len() implies #[trigger] ts[i].2 < w.len()
            && starts_with_char(w.subrange(ts[i].2 as int, w.len() as int)) by {
            if i > 0 {
                assert(ts[i].2 == tail[i - 1].2 + c);
            }
        }
    }
}

/// How many tokens follow a dropped prefix: as many as follow it alone.
proof fn lemma_count_after_drop<TK: Copy + Eq + std::hash::Hash, CL: Classifier<Custom = TK>>(
    cfg: &Config<TK>,
    cls: &CL,
    w: Seq<u8>,
    n: int,
)
    requires
        step(cfg, cls, w, true) == Scan::<TK>::Dropped(n),
    ensures
        0 < n <= w.len(),
        tokens(cfg, cls, w).len() == tokens(cfg, cls, w.subrange(n, w.len() as int)).len(),
{
    crate::scan::lemma_step_bounds(cfg, cls, w, true);
    let rest = w.subrange(n, w.len() as int);
    lemma_tokens_unfold(cfg, cls, w);
    lemma_tokens_unfold(cfg, cls, rest);
    if let Scan::Produced(k, t, s, c) = next_from(cfg, cls, rest, true) {
        assert(rest.subrange(c, rest.len() as int) =~= w.subrange(n + c, w.len() as int));
    }
}

/// How many tokens follow a produced one: one more than follow what it consumed.
proof fn lemma_count_after_token<TK: Copy + Eq + std::hash::Hash, CL: Classifier<Custom = TK>>(
    cfg: &Config<TK>,
    cls: &CL,
    w: Seq<u8>,
)
    requires
        step(cfg, cls, w, true) is Produced,
    ensures
        0 < step(cfg, cls, w, true)->Produced_3 <= w.len(),
        tokens(cfg, cls, w).len() == 1 + tokens(
            cfg,
            cls,
            w.subrange(step(cfg, cls, w, true)->Produced_3, w.len() as int),
        ).len(),
{
    crate::scan::lemma_step_bounds(cfg, cls, w, true);
    lemma_tokens_unfold(cfg, cls, w);
}

/// No code point of `w` is of category `k`.
pub open spec fn base_absent<TK: Copy + Eq + std::hash::Hash, CL: Classifier<Custom = TK>>(
    cls: &CL,
    w: Seq<u8>,
    k: BaseKind,
) -> bool {
    forall|i: int|
        0 <= i < w.len() && #[trigger] starts_with_char(w.subrange(i, w.len() as int)) ==> cls.class_of(
            first_char(w.subrange(i, w.len() as int)),
        ).0 != k
}

/// Two policies that differ only in whether category `k` is skipped.
pub open spec fn differ_in_skipping<TK: Copy + Eq + std::hash::Hash>(
    cfg: &Config<TK>,
    more: &Config<TK>,
    k: BaseKind,
) -> bool {
    &&& more.skip_base@.to_set() == cfg.skip_base@.to_set().insert(k)
    &&& more.skip_custom@.to_set() == cfg.skip_custom@.to_set()
    &&& more.group_symbols == cfg.group_symbols
}

proof fn lemma_next_ignores_absent<TK: Copy + Eq + std::hash::Hash, CL: Classifier<Custom = TK>>(
    cfg: &Config<TK>,
    more: &Config<TK>,
    cls: &CL,
    w: Seq<u8>,
    k: BaseKind,
)
    requires
        differ_in_skipping(cfg, more, k),
        base_absent(cls, w, k),
    ensures
        next_from(more, cls, w, true) == next_from(cfg, cls, w, true),
    decreases w.len(),
{
    if starts_with_char(w) {
        assert(w.subrange(0, w.len() as int) =~= w);
        let cl = cls.class_of(first_char(w));
        assert(cl.0 != k);
        assert(more.skip_base@.contains(cl.0) == more.skip_base@.to_set().contains(cl.0));
        assert(cfg.skip_base@.contains(cl.0) == cfg.skip_base@.to_set().contains(cl.0));
        assert(more.skip_custom@.contains(cl.1) == more.skip_custom@.to_set().contains(cl.1));
        assert(cfg.skip_custom@.contains(cl.1) == cfg.skip_custom@.to_set().contains(cl.1));
        assert(more.skips(cl.0, cl.1) == cfg.skips(cl.0, cl.1));
    }
    assert(step(more, cls, w, true) == step(cfg, cls, w, true));
    crate::scan::lemma_step_bounds(cfg, cls, w, true);
    if let Scan::Dropped(n) = step(cfg, cls, w, true) {
        let rest = w.subrange(n, w.len() as int);
        assert forall|i: int| 0 <= i < rest.len() && #[trigger] starts_with_char(rest.subrange(i, rest.len() as int))
            implies cls.class_of(first_char(rest.subrange(i, rest.len() as int))).0 != k by {
            assert(rest.subrange(i, rest.len() as int) =~= w.subrange(n + i, w.len() as int));
        }
        lemma_next_ignores_absent(cfg, more, cls, rest, k);
    }
}

/// Skipping a category that no code point of the input has changes no token.
pub proof fn skipping_absent_category_changes_nothing<TK: Copy + Eq + std::hash::Hash, CL: Classifier<Custom = TK>>(
    cfg: &Config<TK>,
    more: &Config<TK>,
    cls: &CL,
    w: Seq<u8>,
    k: BaseKind,
)
    requires
        differ_in_skipping(cfg, more, k),
        base_absent(cls, w, k),
    ensures
        tokens(more, cls, w) == tokens(cfg, cls, w),
    decreases w.len(),
{
    lemma_next_ignores_absent(cfg, more, cls, w, k);
    lemma_tokens_unfold(cfg, cls, w);
    lemma_tokens_unfold(more, cls, w);
    if let Scan::Produced(_, _, _, c) = next_from(cfg, cls, w, true) {
        let rest = w.subrange(c, w.len() as int);
        assert forall|i: int| 0 <= i < rest.len() && #[trigger] starts_with_char(rest.subrange(i, rest.len() as int))
            implies cls.class_of(first_char(rest.subrange(i, rest.len() as int))).0 != k by {
            assert(rest.subrange(i, rest.len() as int) =~= w.subrange(c + i, w.len() as int));
        }
        skipping_absent_category_changes_nothing(cfg, more, cls, rest, k);
    }
}

/// Ungrouped, a symbol run yields at least one token per code point: never fewer tokens
/// follow from inside the run than from its end.
proof fn lemma_ungrouped_run_count<TK: Copy + Eq + std::hash::Hash, CL: Classifier<Custom = TK>>(
    cfg: &Config<TK>,
    cls: &CL,
    w: Seq<u8>,
    q: int,
    kind: TokenKind<TK>,
)
    requires
        0 <= q <= w.len(),
        kind.base == BaseKind::Symbol,
        !cfg.skips(kind.base, kind.custom),
        !cfg.group_symbols,
    ensures
        tokens(cfg, cls, w.subrange(run_end(cls, w, q, kind), w.len() as int)).len() <= tokens(
            cfg,
            cls,
            w.subrange(q, w.len() as int),
        ).len(),
    decreases w.len() - q,
{
    let v = w.subrange(q, w.len() as int);
    if 0 <= q < w.len() && continues_run(cls, v, kind) {
        let m = char_width(w[q]);
        assert(step(cfg, cls, v, true) == Scan::Produced(kind, v.subrange(0, m), 0, m));
        lemma_count_after_token(cfg, cls, v);
        assert(v.subrange(m, v.len() as int) =~= w.subrange(q + m, w.len() as int));
        lemma_ungrouped_run_count(cfg, cls, w, q + m, kind);
    }
}

/// Grouping symbols never yields more tokens than not grouping them, for the same input,
/// classifier and skip sets.
pub proof fn grouping_never_adds_tokens<TK: Copy + Eq + std::hash::Hash, CL: Classifier<Custom = TK>>(
    grouped: &Config<TK>,
    single: &Config<TK>,
    cls: &CL,
    w: Seq<u8>,
)
    requires
        grouped.skip_base == single.skip_base,
        grouped.skip_custom == single.skip_custom,
        grouped.group_symbols,
        !single.group_symbols,
    ensures
        tokens(grouped, cls, w).len() <= tokens(single, cls, w).len(),
    decreases w.len(),
{
    lemma_tokens_unfold(grouped, cls, w);
    lemma_tokens_unfold(single, cls, w);
    crate::scan::lemma_step_bounds(single, cls, w, true);
    crate::scan::lemma_step_bounds(grouped, cls, w, true);
    if w.len() == 0 {
    } else if !starts_with_char(w) {
        lemma_count_after_drop(grouped, cls, w, 1);
        lemma_count_after_drop(single, cls, w, 1);
        grouping_never_adds_tokens(grouped, single, cls, w.subrange(1, w.len() as int));
    } else {
        let n = char_width(w[0]);
        let cl = cls.class_of(first_char(w));
        let kind = TokenKind { custom: cl.1, base: cl.0 };
        let e = run_end(cls, w, n, kind);
        crate::scan::lemma_run_end_bounds(cls, w, n, kind);
        if cl.2 is Some {
            lemma_count_after_token(grouped, cls, w);
            lemma_count_after_token(single, cls, w);
            grouping_never_adds_tokens(grouped, single, cls, w.subrange(n, w.len() as int));
        } else if single.skips(cl.0, cl.1) {
            lemma_count_after_drop(grouped, cls, w, e);
            lemma_count_after_drop(single, cls, w, e);
            grouping_never_adds_tokens(grouped, single, cls, w.subrange(e, w.len() as int));
        } else if cl.0 == BaseKind::Symbol {
            lemma_count_after_token(grouped, cls, w);
            lemma_count_after_token(single, cls, w);
            grouping_never_adds_tokens(grouped, single, cls, w.subrange(e, w.len() as int));
            lemma_ungrouped_run_count(single, cls, w, n, kind);
        } else {
            lemma_count_after_token(grouped, cls, w);
            lemma_count_after_token(single, cls, w);
            grouping_never_adds_tokens(grouped, single, cls, w.subrange(e, w.len() as int));
        }
    }
}

} // verus!
