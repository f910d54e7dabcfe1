use xlex_lexer::{
    classify_base, BaseKind, Classifier, Config, DefaultClassifier, LexerInline, LexerStream, NoCustom, Pull, Token,
    TokenKind,
};

fn inline<TK: Copy + Eq + std::hash::Hash, CL: Classifier<Custom = TK>>(
    cfg: &Config<TK>,
    cls: &CL,
    input: &str,
) -> Vec<Token<TK>> {
    LexerInline::new(cfg, cls, input).collect_tokens()
}

fn streamed<TK: Copy + Eq + std::hash::Hash, CL: Classifier<Custom = TK>>(
    cfg: &Config<TK>,
    cls: &CL,
    chunks: &[&[u8]],
) -> Vec<Token<TK>> {
    let mut lexer = LexerStream::new(cfg, cls);
    let mut out = Vec::new();
    let mut next = 0;
    loop {
        match lexer.pull() {
            Pull::Ready(t) => out.push(t),
            Pull::NeedMore => {
                if next < chunks.len() {
                    lexer.fill(chunks[next]);
                    next += 1;
                } else {
                    lexer.close();
                }
            }
            Pull::Done => return out,
        }
    }
}

fn triples<TK: Copy + Eq + std::hash::Hash>(toks: &[Token<TK>]) -> Vec<(&str, BaseKind, usize)> {
    toks.iter().map(|t| (t.text.as_str(), t.kind.base, t.start)).collect()
}

fn keep_everything() -> Config<NoCustom> {
    Config { skip_base: Vec::new(), skip_custom: Vec::new(), group_symbols: false }
}

const SAMPLES: [&str; 6] = ["", "a!!b", "héllo, wörld 42!", "  tabs\tand\nnewlines ", "€€ ∑x² ½", "x😀😀y!?"];

#[test]
fn grouped_symbols_example() {
    let cfg = Config::default().with_grouped_symbols();
    let cls = DefaultClassifier;
    let expected = [("a", BaseKind::Word, 0), ("!!", BaseKind::Symbol, 1), ("b", BaseKind::Word, 3)];
    assert_eq!(triples(&inline(&cfg, &cls, "a!!b")), expected);
    assert_eq!(triples(&streamed(&cfg, &cls, &[b"a!!b"])), expected);
}

#[test]
fn skipped_symbol_example() {
    let cfg = Config::default().skip_base([BaseKind::Symbol]);
    let cls = DefaultClassifier;
    assert_eq!(triples(&inline(&cfg, &cls, "abc!")), [("abc", BaseKind::Word, 0)]);
    assert_eq!(triples(&streamed(&cfg, &cls, &[b"abc!"])), [("abc", BaseKind::Word, 0)]);
}

struct Seven;

impl Classifier for Seven {
    type Custom = ();

    fn classify(&self, c: char) -> (BaseKind, Option<()>, Option<String>) {
        if c == '7' {
            (BaseKind::Number, None, Some("SEVEN".to_string()))
        } else {
            (classify_base(c), None, None)
        }
    }
}

#[test]
fn replacement_breaks_runs_example() {
    let cfg = Config::default().with_grouped_symbols();
    let cls = Seven;
    let expected = [("SEVEN", BaseKind::Number, 0), ("SEVEN", BaseKind::Number, 1)];
    assert_eq!(triples(&inline(&cfg, &cls, "77")), expected);
    assert_eq!(triples(&streamed(&cfg, &cls, &[b"77"])), expected);
    let mixed = inline(&cfg, &cls, "1778");
    assert_eq!(
        triples(&mixed),
        [("1", BaseKind::Number, 0), ("SEVEN", BaseKind::Number, 1), ("SEVEN", BaseKind::Number, 2), ("8", BaseKind::Number, 3)]
    );
}

#[test]
fn replacement_is_kept_even_when_its_kind_is_skipped() {
    let cfg = Config::default().skip_base([BaseKind::Number]);
    let cls = Seven;
    assert_eq!(triples(&inline(&cfg, &cls, "17 8")), [("SEVEN", BaseKind::Number, 1)]);
}

#[test]
fn split_code_point_matches_single_fill() {
    let cfg = Config::default();
    let cls = DefaultClassifier;
    let bytes = "a😀b".as_bytes();
    let whole = streamed(&cfg, &cls, &[bytes]);
    for cut in 1..bytes.len() {
        let split = streamed(&cfg, &cls, &[&bytes[..cut], &bytes[cut..]]);
        assert_eq!(split, whole);
    }
    assert_eq!(triples(&whole), [("a", BaseKind::Word, 0), ("😀", BaseKind::Symbol, 1), ("b", BaseKind::Word, 5)]);
}

#[test]
fn texts_rebuild_the_input() {
    let cfg = keep_everything();
    let cls = DefaultClassifier;
    for input in SAMPLES {
        let joined: String = inline(&cfg, &cls, input).iter().map(|t| t.text.as_str()).collect();
        assert_eq!(joined, input);
    }
}

#[test]
fn skipping_an_absent_category_changes_nothing() {
    let cfg: Config<NoCustom> = Config::default();
    let more = Config::default().skip_base([BaseKind::Number]);
    let cls = DefaultClassifier;
    for input in ["a!!b", "héllo, wörld!", "x😀😀y!?"] {
        assert_eq!(inline(&more, &cls, input), inline(&cfg, &cls, input));
    }
}

#[test]
fn grouping_never_adds_tokens() {
    let single: Config<NoCustom> = keep_everything();
    let grouped = keep_everything().with_grouped_symbols();
    let cls = DefaultClassifier;
    for input in SAMPLES {
        assert!(inline(&grouped, &cls, input).len() <= inline(&single, &cls, input).len());
    }
    assert_eq!(inline(&grouped, &cls, "a!?;b").len(), 3);
    assert_eq!(inline(&single, &cls, "a!?;b").len(), 5);
}

#[test]
fn starts_increase_at_code_point_offsets() {
    let cfg = keep_everything();
    let cls = DefaultClassifier;
    for input in SAMPLES {
        let toks = inline(&cfg, &cls, input);
        for pair in toks.windows(2) {
            assert!(pair[0].start < pair[1].start);
        }
        for t in &toks {
            assert!(input.is_char_boundary(t.start));
            assert!(input[t.start..].starts_with(t.text.as_str()));
        }
    }
}

#[test]
fn engines_agree_for_every_chunking() {
    let cfg = Config::default().with_grouped_symbols();
    let cls = DefaultClassifier;
    for input in SAMPLES {
        let expected = inline(&cfg, &cls, input);
        let bytes = input.as_bytes();
        assert_eq!(streamed(&cfg, &cls, &[bytes]), expected);
        let singles: Vec<&[u8]> = bytes.chunks(1).collect();
        assert_eq!(streamed(&cfg, &cls, &singles), expected);
        for cut in 0..=bytes.len() {
            assert_eq!(streamed(&cfg, &cls, &[&bytes[..cut], &bytes[cut..]]), expected);
        }
    }
}

#[test]
fn token_kind_constructors() {
    let k: TokenKind<NoCustom> = TokenKind::space();
    assert_eq!(k, TokenKind::new(BaseKind::Space, None));
    assert_eq!(TokenKind::<NoCustom>::number().base, BaseKind::Number);
}
