use xlex_lexer::{classify_base, BaseKind, Classifier, Config, DefaultClassifier, LexerStream, Pull, Token};

#[derive(Debug, Copy, Clone, PartialEq, Eq, Hash)]
enum MyCustom {
    Tab,
    Seven,
    LetterA,
}

struct MyClassifier;

impl Classifier for MyClassifier {
    type Custom = MyCustom;

    fn classify(&self, c: char) -> (BaseKind, Option<MyCustom>, Option<String>) {
        match c {
            '\t' => (BaseKind::Space, Some(MyCustom::Tab), Some("<TAB>".to_string())),
            '7' => (BaseKind::Number, Some(MyCustom::Seven), Some("SEVEN".to_string())),
            'a' => (BaseKind::Word, Some(MyCustom::LetterA), Some("A".to_string())),
            _ => (classify_base(c), None, None),
        }
    }
}

/// Feeds `chunks` one at a time, pulling whenever more bytes are asked for.
fn run_chunks<TK: Copy + Eq + std::hash::Hash, CL: Classifier<Custom = TK>>(
    cfg: &Config<TK>,
    cls: &CL,
    chunks: &[&[u8]],
) -> Vec<Token<TK>> {
    let mut lexer = LexerStream::new(cfg, cls);
    let mut out = Vec::new();
    let mut next = 0;
    loop {
        match lexer.pull() {
            Pull::Ready(t) => out.push(t),
            Pull::NeedMore => {
                if next < chunks.len() {
                    lexer.fill(chunks[next]);
                    next += 1;
                } else {
                    lexer.close();
                }
            }
            Pull::Done => return out,
        }
    }
}

fn run<TK: Copy + Eq + std::hash::Hash, CL: Classifier<Custom = TK>>(
    input: &str,
    config: Config<TK>,
    classifier: &CL,
) -> Vec<String> {
    run_chunks(&config, classifier, &[input.as_bytes()]).into_iter().map(|t| t.text).collect()
}

#[test]
fn stream_test_grouping_symbols_default() {
    let cfg = Config::default().with_grouped_symbols();
    let cls = DefaultClassifier;
    assert_eq!(run("a!!b", cfg, &cls), ["a", "!!", "b"]);
}

#[test]
fn stream_test_skipping_tab_custom() {
    let cfg = Config::default().skip_custom([MyCustom::Tab]).with_grouped_symbols();
    let cls = MyClassifier;
    assert_eq!(run("a\t\t7!!b", cfg, &cls), ["A", "<TAB>", "<TAB>", "SEVEN", "!!", "b"]);
}

#[test]
fn stream_test_replacement_only_once() {
    let cfg = Config::default();
    let cls = MyClassifier;
    assert_eq!(run("77", cfg, &cls), ["SEVEN", "SEVEN"]);
}

struct ReplaceLowerS;

impl Classifier for ReplaceLowerS {
    type Custom = ();

    fn classify(&self, c: char) -> (BaseKind, Option<()>, Option<String>) {
        if c == 's' {
            (BaseKind::Word, None, Some("S".to_string()))
        } else {
            (classify_base(c), None, None)
        }
    }
}

#[test]
fn stream_test_word_token_combination() {
    let cfg = Config::default();
    let cls = ReplaceLowerS;
    assert_eq!(run("sos", cfg, &cls), ["S", "o", "S"]);
}

#[test]
fn stream_test_skip_base_kind() {
    let cfg = Config::default().skip_base([BaseKind::Symbol]);
    let cls = DefaultClassifier;
    assert_eq!(run("abc!", cfg, &cls), ["abc"]);
}

#[test]
fn split_code_point_decodes_as_one() {
    let cfg = Config::default();
    let cls = DefaultClassifier;
    let whole = run_chunks(&cfg, &cls, &["x€y".as_bytes()]);
    let bytes = "x€y".as_bytes();
    let split = run_chunks(&cfg, &cls, &[&bytes[..2], &bytes[2..3], &bytes[3..]]);
    assert_eq!(split, whole);
    let got: Vec<(&str, usize)> = split.iter().map(|t| (t.text.as_str(), t.start)).collect();
    assert_eq!(got, [("x", 0), ("€", 1), ("y", 4)]);
}

#[test]
fn run_across_fills_stays_one_token() {
    let cfg = Config::default();
    let cls = DefaultClassifier;
    let toks = run_chunks(&cfg, &cls, &[b"ab", b"cd", b" e"]);
    let got: Vec<(&str, usize)> = toks.iter().map(|t| (t.text.as_str(), t.start)).collect();
    assert_eq!(got, [("abcd", 0), ("e", 5)]);
}

#[test]
fn malformed_bytes_are_dropped_one_at_a_time() {
    let cfg = Config::default();
    let cls = DefaultClassifier;
    let toks = run_chunks(&cfg, &cls, &[&[b'a', 0xFF, b'b', 0xE2, 0x82]]);
    let got: Vec<(&str, usize)> = toks.iter().map(|t| (t.text.as_str(), t.start)).collect();
    assert_eq!(got, [("a", 0), ("b", 2)]);
}

#[test]
fn pull_asks_for_more_until_closed() {
    let cfg = Config::default();
    let cls = DefaultClassifier;
    let mut lexer = LexerStream::new(&cfg, &cls);
    assert!(matches!(lexer.pull(), Pull::NeedMore));
    lexer.fill(b"ab");
    assert!(matches!(lexer.pull(), Pull::NeedMore));
    lexer.close();
    match lexer.pull() {
        Pull::Ready(t) => assert_eq!((t.text.as_str(), t.start), ("ab", 0)),
        _ => panic!("expected a token"),
    }
    assert!(matches!(lexer.pull(), Pull::Done));
}
