use xlex_lexer::{classify_base, BaseKind, Classifier, Config, DefaultClassifier, LexerInline, Token, TokenKind};

#[derive(Debug, Copy, Clone, PartialEq, Eq, Hash)]
enum MyCustom {
    Tab,
    Seven,
    LetterA,
}

struct MyClassifier;

impl Classifier for MyClassifier {
    type Custom = MyCustom;

    fn classify(&self, c: char) -> (BaseKind, Option<MyCustom>, Option<String>) {
        match c {
            '\t' => (BaseKind::Space, Some(MyCustom::Tab), Some("<TAB>".to_string())),
            '7' => (BaseKind::Number, Some(MyCustom::Seven), Some("SEVEN".to_string())),
            'a' => (BaseKind::Word, Some(MyCustom::LetterA), Some("A".to_string())),
            _ => (classify_base(c), None, None),
        }
    }
}

#[test]
fn test_replacement_mixed() {
    let cfg = Config::default().with_grouped_symbols();
    let cls = MyClassifier;
    let input = "a\t7!x";
    let tokens: Vec<_> = LexerInline::new(&cfg, &cls, input).collect_tokens();

    let expected = vec![
        Token {
            text: "A".to_string(),
            kind: TokenKind::new(BaseKind::Word, Some(MyCustom::LetterA)),
            start: 0,
        },
        Token {
            text: "<TAB>".to_string(),
            kind: TokenKind::new(BaseKind::Space, Some(MyCustom::Tab)),
            start: 1,
        },
        Token {
            text: "SEVEN".to_string(),
            kind: TokenKind::new(BaseKind::Number, Some(MyCustom::Seven)),
            start: 2,
        },
        Token { text: "!".to_string(), kind: TokenKind::symbol(), start: 3 },
        Token { text: "x".to_string(), kind: TokenKind::word(), start: 4 },
    ];

    assert_eq!(tokens, expected);
}

#[test]
fn test_default_classifier_behavior() {
    let cfg = Config::default().with_grouped_symbols();
    let cls = DefaultClassifier;
    let input = "abc 123!";
    let tokens: Vec<_> = LexerInline::new(&cfg, &cls, input).collect_tokens();

    let expected = vec![
        Token { text: "abc".to_string(), kind: TokenKind::word(), start: 0 },
        Token { text: "123".to_string(), kind: TokenKind::number(), start: 4 },
        Token { text: "!".to_string(), kind: TokenKind::symbol(), start: 7 },
    ];

    assert_eq!(tokens, expected);
}

struct NoReplace;

impl Classifier for NoReplace {
    type Custom = ();

    fn classify(&self, c: char) -> (BaseKind, Option<()>, Option<String>) {
        (classify_base(c), None, None)
    }
}

#[test]
fn test_classifier_handles_none_replacement() {
    let cfg = Config::default();
    let cls = NoReplace;
    let input = "abc!";
    let tokens: Vec<_> = LexerInline::new(&cfg, &cls, input).collect_tokens();

    let expected = vec![
        Token { text: "abc".to_string(), kind: TokenKind::word(), start: 0 },
        Token { text: "!".to_string(), kind: TokenKind::symbol(), start: 3 },
    ];

    assert_eq!(tokens, expected);
}

#[test]
fn test_grouped_symbols_and_replacement() {
    let cfg = Config::default().with_grouped_symbols();
    let cls = MyClassifier;
    let input = "!!7";
    let tokens: Vec<_> = LexerInline::new(&cfg, &cls, input).collect_tokens();

    let expected = vec![
        Token { text: "!!".to_string(), kind: TokenKind::symbol(), start: 0 },
        Token {
            text: "SEVEN".to_string(),
            kind: TokenKind::new(BaseKind::Number, Some(MyCustom::Seven)),
            start: 2,
        },
    ];

    assert_eq!(tokens, expected);
}
