use vstd::prelude::*;
use vstd::laws_eq::obeys_concrete_eq;

use crate::token::{same_custom, BaseKind};

verus! {

/// Which runs are dropped, and whether adjacent symbols of one kind are merged.
///
/// Each list is read as a set: order and repetition do not matter, and the
/// builders never add an element twice.
#[derive(Debug, Clone)]
pub struct Config<TK: Copy + Eq + std::hash::Hash> {
    pub skip_base: Vec<BaseKind>,
    pub skip_custom: Vec<Option<TK>>,
    pub group_symbols: bool,
}

impl<TK: Copy + Eq + std::hash::Hash> Default for Config<TK> {
    /// Skips spaces and nothing else; does not group symbols.
    fn default() -> (r: Self)
        ensures
            r.skip_base@.to_set() == set![BaseKind::Space],
            r.skip_custom@.to_set() == Set::<Option<TK>>::empty(),
            forall|b: BaseKind| #[trigger] r.skip_base@.contains(b) <==> b == BaseKind::Space,
            forall|t: Option<TK>| !(#[trigger] r.skip_custom@.contains(t)),
            !r.group_symbols,
    {
        let r = Config { skip_base: vec![BaseKind::Space], skip_custom: Vec::new(), group_symbols: false };
        proof {
            assert(r.skip_base@ =~= seq![BaseKind::Space]);
            assert(r.skip_base@.to_set() =~= set![BaseKind::Space]) by {
                assert(r.skip_base@[0] == BaseKind::Space);
            }
            assert(r.skip_custom@.to_set() =~= Set::<Option<TK>>::empty());
            assert forall|b: BaseKind| #[trigger] r.skip_base@.contains(b) <==> b == BaseKind::Space by {
                if b == BaseKind::Space {
                    assert(r.skip_base@[0] == b);
                }
            }
        }
        r
    }
}

impl<TK: Copy + Eq + std::hash::Hash> Config<TK> {
    /// Whether a run of kind `(base, custom)` is dropped.
    pub open spec fn skips(&self, base: BaseKind, custom: Option<TK>) -> bool {
        self.skip_base@.contains(base) || self.skip_custom@.contains(custom)
    }

    /// Also skips every category in `kinds`.
    pub fn skip_base<const N: usize>(self, kinds: [BaseKind; N]) -> (r: Self)
        ensures
            r.skip_base@.to_set() == self.skip_base@.to_set() + kinds@.to_set(),
            forall|b: BaseKind| #[trigger] r.skip_base@.contains(b) <==> self.skip_base@.contains(b) || kinds@.contains(b),
            r.skip_custom == self.skip_custom,
            r.group_symbols == self.group_symbols,
    {
        let mut cfg = self;
        let mut i: usize = 0;
        while i < N
            invariant
                0 <= i <= N,
                kinds@.len() == N,
                cfg.skip_base@.to_set() == self.skip_base@.to_set() + kinds@.subrange(0, i as int).to_set(),
                cfg.skip_custom == self.skip_custom,
                cfg.group_symbols == self.group_symbols,
            decreases N - i,
        {
            let k = kinds[i];
            let mut found = false;
            let mut j: usize = 0;
            while j < cfg.skip_base.len()
                invariant
                    0 <= j <= cfg.skip_base@.len(),
                    found <==> exists|m: int| 0 <= m < j && cfg.skip_base@[m] == k,
                decreases cfg.skip_base@.len() - j,
            {
                if cfg.skip_base[j] == k {
                    found = true;
                }
                assert(cfg.skip_base@[j as int] == k ==> found);
                j += 1;
            }
            assert(found <==> cfg.skip_base@.contains(k));
            let ghost before = cfg.skip_base@;
            if !found {
                cfg.skip_base.push(k);
            }
            proof {
                assert(kinds@.subrange(0, i + 1) =~= kinds@.subrange(0, i as int).push(k));
                kinds@.subrange(0, i as int).lemma_push_to_set_commute(k);
                if !found {
                    before.lemma_push_to_set_commute(k);
                } else {
                    assert(before.to_set().contains(k));
                }
                assert(cfg.skip_base@.to_set() =~= self.skip_base@.to_set() + kinds@.subrange(0, i + 1).to_set());
            }
            i += 1;
        }
        proof {
            assert(kinds@.subrange(0, N as int) =~= kinds@);
            assert forall|b: BaseKind| #[trigger] cfg.skip_base@.contains(b) <==> self.skip_base@.contains(b) || kinds@.contains(b) by {
                assert(cfg.skip_base@.to_set().contains(b) == cfg.skip_base@.contains(b));
                assert(self.skip_base@.to_set().contains(b) == self.skip_base@.contains(b));
                assert(kinds@.to_set().contains(b) == kinds@.contains(b));
            }
        }
        cfg
    }

    /// Also skips every custom tag in `kinds`.
    pub fn skip_custom<const N: usize>(self, kinds: [TK; N]) -> (r: Self)
        requires
            obeys_concrete_eq::<TK>(),
        ensures
            r.skip_custom@.to_set() == self.skip_custom@.to_set() + kinds@.map_values(
                |k: TK| Some(k),
            ).to_set(),
            forall|t: Option<TK>| #[trigger] r.skip_custom@.contains(t) <==> self.skip_custom@.contains(t)
                || exists|i: int| 0 <= i < N && t == Some(#[trigger] kinds@[i]),
            r.skip_base == self.skip_base,
            r.group_symbols == self.group_symbols,
    {
        let mut cfg = self;
        let ghost tagged = kinds@.map_values(|k: TK| Some(k));
        let mut i: usize = 0;
        while i < N
            invariant
                0 <= i <= N,
                kinds@.len() == N,
                obeys_concrete_eq::<TK>(),
                tagged == kinds@.map_values(|k: TK| Some(k)),
                cfg.skip_custom@.to_set() == self.skip_custom@.to_set() + tagged.subrange(0, i as int).to_set(),
                cfg.skip_base == self.skip_base,
                cfg.group_symbols == self.group_symbols,
            decreases N - i,
        {
            let k = Some(kinds[i]);
            let mut found = false;
            let mut j: usize = 0;
            while j < cfg.skip_custom.len()
                invariant
                    0 <= j <= cfg.skip_custom@.len(),
                    obeys_concrete_eq::<TK>(),
                    found <==> exists|m: int| 0 <= m < j && cfg.skip_custom@[m] == k,
                decreases cfg.skip_custom@.len() - j,
            {
                if same_custom(&cfg.skip_custom[j], &k) {
                    found = true;
                }
                j += 1;
            }
            assert(found <==> cfg.skip_custom@.contains(k));
            let ghost before = cfg.skip_custom@;
            if !found {
                cfg.skip_custom.push(k);
            }
            proof {
                assert(tagged.subrange(0, i + 1) =~= tagged.subrange(0, i as int).push(k));
                tagged.subrange(0, i as int).lemma_push_to_set_commute(k);
                if !found {
                    before.lemma_push_to_set_commute(k);
                } else {
                    assert(before.to_set().contains(k));
                }
                assert(cfg.skip_custom@.to_set() =~= self.skip_custom@.to_set() + tagged.subrange(0, i + 1).to_set());
            }
            i += 1;
        }
        proof {
            assert(tagged.subrange(0, N as int) =~= tagged);
            assert forall|t: Option<TK>| #[trigger] cfg.skip_custom@.contains(t) <==> self.skip_custom@.contains(t)
                || exists|i: int| 0 <= i < N && t == Some(#[trigger] kinds@[i]) by {
                assert(cfg.skip_custom@.to_set().contains(t) == cfg.skip_custom@.contains(t));
                assert(self.skip_custom@.to_set().contains(t) == self.skip_custom@.contains(t));
                assert(tagged.to_set().contains(t) == tagged.contains(t));
                if tagged.contains(t) {
                    let i = choose|i: int| 0 <= i < tagged.len() && tagged[i] == t;
                    assert(t == Some(kinds@[i]));
                }
                if exists|i: int| 0 <= i < N && t == Some(#[trigger] kinds@[i]) {
                    let i = choose|i: int| 0 <= i < N && t == Some(#[trigger] kinds@[i]);
                    assert(tagged[i] == t);
                }
            }
        }
        cfg
    }

    /// Whether a run of kind `(base, custom)` is dropped: its category or its tag is listed.
    pub fn should_skip(&self, base: BaseKind, custom: Option<TK>) -> (r: bool)
        requires
            obeys_concrete_eq::<TK>(),
        ensures
            r == self.skips(base, custom),
    {
        let mut i: usize = 0;
        while i < self.skip_base.len()
            invariant
                0 <= i <= self.skip_base@.len(),
                !self.skip_base@.subrange(0, i as int).contains(base),
            decreases self.skip_base@.len() - i,
        {
            if self.skip_base[i] == base {
                assert(self.skip_base@[i as int] == base);
                return true;
            }
            proof {
                let s = self.skip_base@;
                assert(s.subrange(0, i + 1) =~= s.subrange(0, i as int).push(s[i as int]));
            }
            i += 1;
        }
        proof {
            assert(self.skip_base@.subrange(0, i as int) =~= self.skip_base@);
        }
        let mut j: usize = 0;
        while j < self.skip_custom.len()
            invariant
                0 <= j <= self.skip_custom@.len(),
                obeys_concrete_eq::<TK>(),
                !self.skip_base@.contains(base),
                !self.skip_custom@.subrange(0, j as int).contains(custom),
            decreases self.skip_custom@.len() - j,
        {
            if same_custom(&self.skip_custom[j], &custom) {
                assert(self.skip_custom@[j as int] == custom);
                return true;
            }
            proof {
                let s = self.skip_custom@;
                assert(s.subrange(0, j + 1) =~= s.subrange(0, j as int).push(s[j as int]));
            }
            j += 1;
        }
        proof {
            assert(self.skip_custom@.subrange(0, j as int) =~= self.skip_custom@);
        }
        false
    }

    /// Merges adjacent symbols of one kind into one token.
    pub fn with_grouped_symbols(self) -> (r: Self)
        ensures
            r.group_symbols,
            r.skip_base == self.skip_base,
            r.skip_custom == self.skip_custom,
    {
        let mut cfg = self;
        cfg.group_symbols = true;
        cfg
    }
}

} // verus!
