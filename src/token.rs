use vstd::prelude::*;
use vstd::laws_eq::obeys_concrete_eq;
use vstd::utf8::encode_utf8;

use crate::classifier::Classifier;

verus! {

/// The coarse category of a code point.
#[derive(Debug, Copy, Clone, PartialEq, Eq, Hash, Structural)]
pub enum BaseKind {
    Number,
    Symbol,
    Space,
    Word,
}

/// A run's classification: its coarse category and an optional caller-defined refinement.
#[derive(Debug, Copy, Clone, PartialEq, Eq, Hash)]
pub struct TokenKind<TK: Copy + Eq + std::hash::Hash> {
    pub custom: Option<TK>,
    pub base: BaseKind,
}

/// One emitted token: its kind, its text, and the byte offset at which its run begins.
#[derive(Debug, Clone, PartialEq, Eq)]
pub struct Token<TK: Copy + Eq + std::hash::Hash> {
    pub kind: TokenKind<TK>,
    pub text: String,
    pub start: usize,
}

/// What a token stands for: its kind, the UTF-8 bytes of its text, and its start offset.
pub type Lexeme<TK> = (TokenKind<TK>, Seq<u8>, nat);

impl<TK: Copy + Eq + std::hash::Hash> View for Token<TK> {
    type V = Lexeme<TK>;

    open spec fn view(&self) -> Lexeme<TK> {
        (self.kind, encode_utf8(self.text@), self.start as nat)
    }
}

/// Whether `c` classifies under `classifier` to exactly `(base, custom)`, replacement aside.
pub open spec fn spec_is_match<TK: Copy + Eq + std::hash::Hash, CL: Classifier<Custom = TK>>(
    base: BaseKind,
    custom: Option<TK>,
    c: char,
    classifier: &CL,
) -> bool {
    classifier.class_of(c).0 == base && classifier.class_of(c).1 == custom
}

/// Equality of two optional custom tags, for a tag type whose `==` is plain equality.
pub fn same_custom<TK: Copy + Eq + std::hash::Hash>(a: &Option<TK>, b: &Option<TK>) -> (r: bool)
    requires
        obeys_concrete_eq::<TK>(),
    ensures
        r == (*a == *b),
{
    proof {
        reveal(obeys_concrete_eq);
    }
    match (a, b) {
        (None, None) => true,
        (Some(x), Some(y)) => *x == *y,
        _ => false,
    }
}

impl<TK: Copy + Eq + std::hash::Hash> TokenKind<TK> {
    /// The `Number` kind with no custom tag.
    pub fn number() -> (r: Self)
        ensures
            r.base == BaseKind::Number,
            r.custom is None,
    {
        Self { base: BaseKind::Number, custom: None }
    }

    /// The `Symbol` kind with no custom tag.
    pub fn symbol() -> (r: Self)
        ensures
            r.base == BaseKind::Symbol,
            r.custom is None,
    {
        Self { base: BaseKind::Symbol, custom: None }
    }

    /// The `Space` kind with no custom tag.
    pub fn space() -> (r: Self)
        ensures
            r.base == BaseKind::Space,
            r.custom is None,
    {
        Self { base: BaseKind::Space, custom: None }
    }

    /// The `Word` kind with no custom tag.
    pub fn word() -> (r: Self)
        ensures
            r.base == BaseKind::Word,
            r.custom is None,
    {
        Self { base: BaseKind::Word, custom: None }
    }

    /// The kind `(base, custom)`.
    pub fn new(base: BaseKind, custom: Option<TK>) -> (r: Self)
        ensures
            r.base == base,
            r.custom == custom,
    {
        Self { custom, base }
    }

    /// Whether `c` classifies to this kind (its replacement, if any, aside).
    pub fn matches<CL: Classifier<Custom = TK>>(&self, c: char, classifier: &CL) -> (r: bool)
        requires
            obeys_concrete_eq::<TK>(),
        ensures
            r == spec_is_match(self.base, self.custom, c, classifier),
    {
        is_match(self.base, self.custom, c, classifier)
    }

    /// `matches` as a function of the code point alone.
    pub fn predicate<'b, CL: Classifier<Custom = TK>>(
        &'b self,
        classifier: &'b CL,
    ) -> (r: impl Fn(char) -> bool + 'b)
        requires
            obeys_concrete_eq::<TK>(),
        ensures
            forall|c: char| #[trigger] r.requires((c,)),
            forall|c: char, b: bool| r.ensures((c,), b) ==> b == spec_is_match(self.base, self.custom, c, classifier),
    {
        move |ch: char| -> (b: bool)
            requires
                obeys_concrete_eq::<TK>(),
            ensures
                b == spec_is_match(self.base, self.custom, ch, classifier),
        { is_match(self.base, self.custom, ch, classifier) }
    }
}

/// Whether `ch` classifies to `(base, custom)` under `classifier`.
pub fn is_match<TK: Copy + Eq + std::hash::Hash, CL: Classifier<Custom = TK>>(
    base: BaseKind,
    custom: Option<TK>,
    ch: char,
    classifier: &CL,
) -> (r: bool)
    requires
        obeys_concrete_eq::<TK>(),
    ensures
        r == spec_is_match(base, custom, ch, classifier),
{
    let (b, cust, _repl) = classifier.classify(ch);
    base == b && same_custom(&custom, &cust)
}

/// Whether `c` has the Unicode `Alphabetic` property.
pub uninterp spec fn alphabetic(c: char) -> bool;

/// Whether `c` has a Unicode numeric general category (`Nd`, `Nl` or `No`).
pub uninterp spec fn numeric(c: char) -> bool;

/// Whether `c` has the Unicode `White_Space` property.
pub uninterp spec fn whitespace(c: char) -> bool;

/// Relies on `char::is_alphabetic`, which depends on the character alone.
#[verifier::external_body]
fn is_alphabetic(c: char) -> (r: bool)
    ensures
        r == alphabetic(c),
{
    c.is_alphabetic()
}

/// Relies on `char::is_numeric`, which depends on the character alone.
#[verifier::external_body]
fn is_numeric(c: char) -> (r: bool)
    ensures
        r == numeric(c),
{
    c.is_numeric()
}

/// Relies on `char::is_whitespace`, which depends on the character alone.
#[verifier::external_body]
fn is_whitespace(c: char) -> (r: bool)
    ensures
        r == whitespace(c),
{
    c.is_whitespace()
}

/// The default category of a code point: alphabetic first, then numeric, then whitespace.
pub open spec fn spec_classify_base(c: char) -> BaseKind {
    if alphabetic(c) {
        BaseKind::Word
    } else if numeric(c) {
        BaseKind::Number
    } else if whitespace(c) {
        BaseKind::Space
    } else {
        BaseKind::Symbol
    }
}

/// The default category of `c`, from its Unicode properties.
pub fn classify_base(c: char) -> (r: BaseKind)
    ensures
        r == spec_classify_base(c),
{
    if is_alphabetic(c) {
        BaseKind::Word
    } else if is_numeric(c) {
        BaseKind::Number
    } else if is_whitespace(c) {
        BaseKind::Space
    } else {
        BaseKind::Symbol
    }
}

} // verus!
