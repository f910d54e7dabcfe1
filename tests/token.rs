use xlex_lexer::{classify_base, BaseKind, Classifier, TokenKind};

#[derive(Debug, Copy, Clone, PartialEq, Eq, Hash)]
enum MyCustom {
    Tab,
    Newline,
    Char7,
}

struct TestClassifier;

impl Classifier for TestClassifier {
    type Custom = MyCustom;

    fn classify(&self, c: char) -> (BaseKind, Option<MyCustom>, Option<String>) {
        match c {
            '\t' => (BaseKind::Space, Some(MyCustom::Tab), None),
            '\n' => (BaseKind::Space, Some(MyCustom::Newline), None),
            '7' => (BaseKind::Number, Some(MyCustom::Char7), None),
            _ => (classify_base(c), None, None),
        }
    }
}

#[test]
fn test_matches_default_kinds() {
    let cls = TestClassifier;

    assert!(TokenKind::word().matches('a', &cls));
    assert!(TokenKind::number().matches('3', &cls));
    assert!(TokenKind::space().matches(' ', &cls));
    assert!(TokenKind::symbol().matches('!', &cls));
}

#[test]
fn test_matches_custom_variants() {
    let cls = TestClassifier;

    let tab_kind = TokenKind::new(BaseKind::Space, Some(MyCustom::Tab));
    assert!(tab_kind.matches('\t', &cls));
    assert!(!tab_kind.matches(' ', &cls));
}

#[test]
fn test_predicate_true_and_false() {
    let cls = TestClassifier;

    let kind = TokenKind::new(BaseKind::Number, Some(MyCustom::Char7));
    let pred = kind.predicate(&cls);
    assert!(pred('7'));
    assert!(!pred('8'));
    assert!(!pred('a'));
}

#[test]
fn test_classify_base_function() {
    assert_eq!(classify_base('x'), BaseKind::Word);
    assert_eq!(classify_base('3'), BaseKind::Number);
    assert_eq!(classify_base(' '), BaseKind::Space);
    assert_eq!(classify_base('@'), BaseKind::Symbol);
}

#[test]
fn classify_base_beyond_ascii() {
    assert_eq!(classify_base('é'), BaseKind::Word);
    assert_eq!(classify_base('٣'), BaseKind::Number);
    assert_eq!(classify_base('\u{3000}'), BaseKind::Space);
    assert_eq!(classify_base('€'), BaseKind::Symbol);
}
