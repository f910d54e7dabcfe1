use vstd::prelude::*;
use vstd::laws_eq::obeys_concrete_eq;

use crate::token::{classify_base, spec_classify_base, BaseKind};

verus! {

/// Maps one code point to its category, an optional custom tag and an optional
/// replacement text. `class_of` is what `classify` returns: classification is a
/// function of the code point alone. It defaults to the Unicode classification,
/// with no tag and no replacement; an impl that classifies otherwise states its own.
pub trait Classifier {
    type Custom: Copy + Eq + std::hash::Hash;

    open spec fn class_of(&self, c: char) -> (BaseKind, Option<Self::Custom>, Option<Seq<char>>) {
        (spec_classify_base(c), None, None)
    }

    fn classify(&self, c: char) -> (r: (BaseKind, Option<Self::Custom>, Option<String>))
        ensures
            r.0 == self.class_of(c).0,
            r.1 == self.class_of(c).1,
            r.2 is Some <==> self.class_of(c).2 is Some,
            r.2 is Some ==> r.2->0@ == self.class_of(c).2->0,
    ;
}

/// The tag type of a classifier that refines nothing.
#[derive(Debug, Copy, Clone, Eq, Hash)]
pub struct NoCustom;

impl PartialEq for NoCustom {
    fn eq(&self, other: &NoCustom) -> (r: bool) {
        true
    }
}

impl vstd::std_specs::cmp::PartialEqSpecImpl for NoCustom {
    open spec fn obeys_eq_spec() -> bool {
        true
    }

    open spec fn eq_spec(&self, other: &NoCustom) -> bool {
        true
    }
}

/// `==` on `NoCustom` is plain equality, as the engines ask of a tag type.
pub proof fn no_custom_eq_is_equality()
    ensures
        obeys_concrete_eq::<NoCustom>(),
{
    reveal(obeys_concrete_eq);
}

/// Classifies by Unicode properties alone; never tags, never replaces.
pub struct DefaultClassifier;

impl Classifier for DefaultClassifier {
    type Custom = NoCustom;

    fn classify(&self, c: char) -> (r: (BaseKind, Option<NoCustom>, Option<String>)) {
        (classify_base(c), None, None)
    }
}

} // verus!
