use semver::parse;
use semver::SemVerError;
use semver::parser::ParseError;
use semver::semver::{compare, Comparison, SemVer};
use semver::scanner::LexError;
use semver::token::TokenKind;

#[test]
fn default_construction() {
    let semver = SemVer::default();
    assert_eq!(semver, SemVer::new(0, 1, 0));
}

#[test]
fn construction_with_new() {
    assert_eq!(SemVer::new(0, 1, 0), SemVer::default());
}

#[test]
fn construction_with_pre_release() {
    let semver = parse("0.1.0-alpha.1").unwrap();
    assert_eq!(
        SemVer::new(0, 1, 0).with_pre_release("alpha.1").unwrap(),
        semver
    );
}

#[test]
fn construction_with_build() {
    let semver = parse("0.1.0+123456").unwrap();
    assert_eq!(SemVer::new(0, 1, 0).with_build("123456").unwrap(), semver);
}

#[test]
fn construction_with_pre_release_and_build() {
    let semver = parse("0.1.0-alpha.1+123456").unwrap();
    assert_eq!(
        SemVer::new(0, 1, 0)
            .with_pre_release("alpha.1")
            .unwrap()
            .with_build("123456")
            .unwrap(),
        semver
    );
}

#[test]
fn correct_display() {
    assert_eq!(SemVer::new(1, 2, 3).to_string(), "1.2.3");
    let v = parse("1.2.3-alpha.1+build.7").unwrap();
    assert_eq!(v.to_string(), "1.2.3-alpha.1+build.7");
}

#[test]
fn major_incrementation() {
    let mut v = parse("1.2.3-beta+xyz").unwrap();
    v.inc_major();
    assert_eq!(v, SemVer::new(2, 0, 0));
}

#[test]
fn minor_incrementation() {
    let mut v = parse("1.2.3-beta+xyz").unwrap();
    v.inc_minor();
    assert_eq!(v, SemVer::new(1, 3, 0));
}

#[test]
fn patch_incrementation() {
    let mut v = parse("1.2.3-beta+xyz").unwrap();
    v.inc_patch();
    assert_eq!(v, SemVer::new(1, 2, 4));
}

#[test]
fn semver_addition() {
    assert_eq!(
        SemVer::new(1, 2, 3).component_sum(SemVer::new(2, 3, 4)),
        SemVer::new(3, 5, 7)
    );
}

#[test]
fn addition_drops_optional_sections() {
    let a = parse("1.2.3-alpha+b1").unwrap();
    let b = parse("0.1.0-beta").unwrap();
    assert_eq!(a.component_sum(b), SemVer::new(1, 3, 3));
}

#[test]
fn precedence_chain() {
    let chain = [
        "1.0.0-alpha",
        "1.0.0-alpha.1",
        "1.0.0-alpha.beta",
        "1.0.0-beta",
        "1.0.0-beta.2",
        "1.0.0-beta.11",
        "1.0.0-rc.1",
        "1.0.0",
    ];
    let versions: Vec<SemVer> = chain.iter().map(|s| parse(s).unwrap()).collect();
    for i in 0..versions.len() {
        for j in 0..versions.len() {
            let expected = if i < j {
                Comparison::Less
            } else if i == j {
                Comparison::Equal
            } else {
                Comparison::Greater
            };
            assert_eq!(compare(&versions[i], &versions[j]), expected);
        }
    }
}

#[test]
fn build_irrelevance() {
    let a = parse("1.0.0+build1").unwrap();
    let b = parse("1.0.0+build2").unwrap();
    assert_eq!(compare(&a, &b), Comparison::Equal);
    assert_ne!(a, b);
}

#[test]
fn rejection_leading_zero() {
    assert_eq!(
        parse("1.02.0"),
        Err(SemVerError::Parse(ParseError::LeadingZero { position: 2 }))
    );
}

#[test]
fn rejection_unexpected_end() {
    assert_eq!(
        parse("1.0"),
        Err(SemVerError::Parse(ParseError::UnexpectedEnd { position: 3 }))
    );
}

#[test]
fn rejection_empty_identifier() {
    assert_eq!(
        parse("1.0.0-"),
        Err(SemVerError::Parse(ParseError::EmptyIdentifier {
            position: 6
        }))
    );
    assert_eq!(
        parse("1..0"),
        Err(SemVerError::Parse(ParseError::EmptyIdentifier {
            position: 2
        }))
    );
}

#[test]
fn rejection_unexpected_character() {
    assert_eq!(
        parse("1.0.0 "),
        Err(SemVerError::Lex(LexError::UnexpectedCharacter { position: 5 }))
    );
}

#[test]
fn rejection_trailing_input() {
    assert_eq!(
        parse("1.0.0.4"),
        Err(SemVerError::Parse(ParseError::TrailingInput { position: 5 }))
    );
}

#[test]
fn rejection_wrong_token_in_numeric_field() {
    assert_eq!(
        parse("1x.2.3"),
        Err(SemVerError::Parse(ParseError::UnexpectedToken { position: 0 }))
    );
    assert_eq!(
        parse("1.2x.3"),
        Err(SemVerError::Parse(ParseError::UnexpectedToken { position: 2 }))
    );
}

#[test]
fn rejection_numeric_overflow() {
    assert_eq!(
        parse("4294967296.0.0"),
        Err(SemVerError::Parse(ParseError::NumberOverflow { position: 0 }))
    );
    assert_eq!(
        parse("1.0.0-18446744073709551616"),
        Err(SemVerError::Parse(ParseError::NumberOverflow { position: 6 }))
    );
}

#[test]
fn numeric_field_extremes_round_trip() {
    assert_eq!(
        parse("4294967295.0.0-18446744073709551615").unwrap().to_string(),
        "4294967295.0.0-18446744073709551615"
    );
}

#[test]
fn round_trip_examples() {
    let inputs = [
        "0.0.0",
        "1.2.3",
        "1.0.0-alpha",
        "1.0.0-alpha-beta",
        "1.0.0-alpha.7.x-y",
        "1.0.0-007",
        "1.0.0+001",
        "10.20.30-rc.1+build.2023",
        "1.0.0-0a.0",
    ];
    for s in inputs {
        let v = parse(s).unwrap();
        assert_eq!(v.to_string(), s);
        assert_eq!(parse(&v.to_string()).unwrap(), v);
    }
}

#[test]
fn leading_zero_field_is_alphanumeric() {
    let zeros = parse("1.0.0-007").unwrap();
    let seven = parse("1.0.0-7").unwrap();
    assert_eq!(compare(&seven, &zeros), Comparison::Less);
    assert_eq!(compare(&zeros, &seven), Comparison::Greater);
}

#[test]
fn numeric_below_alphanumeric() {
    let n = parse("1.0.0-2").unwrap();
    let a = parse("1.0.0-1a").unwrap();
    assert_eq!(compare(&n, &a), Comparison::Less);
}

#[test]
fn shorter_pre_release_is_lower() {
    let short = parse("1.0.0-alpha").unwrap();
    let long = parse("1.0.0-alpha.0").unwrap();
    assert_eq!(compare(&short, &long), Comparison::Less);
}

#[test]
fn compare_is_reflexive_on_examples() {
    for s in ["1.0.0", "1.0.0-alpha.1+b.2", "0.0.0-0"] {
        let v = parse(s).unwrap();
        assert_eq!(compare(&v, &v), Comparison::Equal);
    }
}

#[test]
fn builder_rejects_invalid_fields() {
    assert_eq!(
        SemVer::new(1, 0, 0).with_pre_release(""),
        Err(SemVerError::Parse(ParseError::EmptyIdentifier {
            position: 0
        }))
    );
    assert_eq!(
        SemVer::new(1, 0, 0).with_pre_release("alpha..1"),
        Err(SemVerError::Parse(ParseError::EmptyIdentifier {
            position: 6
        }))
    );
    assert_eq!(
        SemVer::new(1, 0, 0).with_build("a b"),
        Err(SemVerError::Lex(LexError::UnexpectedCharacter { position: 1 }))
    );
    assert_eq!(
        SemVer::new(1, 0, 0).with_pre_release("0-"),
        Err(SemVerError::Parse(ParseError::TrailingInput { position: 1 }))
    );
}

#[test]
fn builder_accepts_what_the_parser_accepts() {
    let built = SemVer::new(1, 0, 0)
        .with_pre_release("rc.1")
        .unwrap()
        .with_build("sha.5114f85")
        .unwrap();
    assert_eq!(built, parse("1.0.0-rc.1+sha.5114f85").unwrap());
    assert_eq!(built.to_string(), "1.0.0-rc.1+sha.5114f85");
}

#[test]
fn range_containment() {
    let range = semver::range::RangeSemVer::new(
        parse("1.0.0").unwrap(),
        parse("2.0.0").unwrap(),
    )
    .unwrap();
    assert!(range.contains(&parse("1.5.0-alpha").unwrap()));
    assert!(!range.contains(&parse("2.0.1").unwrap()));
    assert!(range.contains(&parse("1.0.0").unwrap()));
    assert!(range.contains(&parse("2.0.0").unwrap()));
    assert!(range.contains(&parse("2.0.0+build.9").unwrap()));
    assert!(!range.contains(&parse("1.0.0-rc.1").unwrap()));
}

#[test]
fn range_rejects_inverted_bounds() {
    let r = semver::range::RangeSemVer::new(parse("2.0.0").unwrap(), parse("1.0.0").unwrap());
    assert!(matches!(r, Err(semver::range::RangeError::Inverted)));
    let same = semver::range::RangeSemVer::new(
        parse("1.0.0+a").unwrap(),
        parse("1.0.0+b").unwrap(),
    );
    assert!(same.is_ok());
}

#[test]
fn scanner_token_stream() {
    let toks = semver::scanner::scan("1.0.0-alpha.7+x09").unwrap();
    let kinds: Vec<TokenKind> = toks.iter().map(|t| t.kind).collect();
    assert_eq!(
        kinds,
        vec![
            TokenKind::Digits,
            TokenKind::Dot,
            TokenKind::Digits,
            TokenKind::Dot,
            TokenKind::Digits,
            TokenKind::Hyphen,
            TokenKind::Identifier,
            TokenKind::Dot,
            TokenKind::Digits,
            TokenKind::Plus,
            TokenKind::Identifier,
            TokenKind::EndOfInput,
        ]
    );
    let positions: Vec<usize> = toks.iter().map(|t| t.position).collect();
    assert_eq!(positions, vec![0, 1, 2, 3, 4, 5, 6, 11, 12, 13, 14, 17]);
    let lexemes: Vec<String> = toks.iter().map(|t| t.lexeme.iter().collect()).collect();
    assert_eq!(
        lexemes,
        vec!["1", ".", "0", ".", "0", "-", "alpha", ".", "7", "+", "x09", ""]
    );
}

#[test]
fn scanner_rejects_non_grammar_bytes() {
    assert_eq!(
        semver::scanner::scan("1.0.0\u{e9}"),
        Err(LexError::UnexpectedCharacter { position: 5 })
    );
    assert_eq!(
        semver::scanner::scan(" 1.0.0"),
        Err(LexError::UnexpectedCharacter { position: 0 })
    );
}

#[test]
fn hyphen_runs_stay_one_identifier() {
    let v = parse("1.0.0-alpha-beta").unwrap();
    assert_eq!(v.to_string(), "1.0.0-alpha-beta");
    assert_eq!(
        parse("1.0.0-1-a"),
        Err(SemVerError::Parse(ParseError::TrailingInput { position: 7 }))
    );
}

#[test]
fn round_trip_of_built_versions() {
    let built = SemVer::default()
        .with_pre_release("0.3.x-7")
        .unwrap()
        .with_build("20130313144700")
        .unwrap();
    let rendered = built.to_string();
    assert_eq!(rendered, "0.1.0-0.3.x-7+20130313144700");
    assert_eq!(parse(&rendered).unwrap(), built);
}

#[test]
fn pre_release_below_release() {
    let pre = parse("1.0.0-rc.1+build.1").unwrap();
    let rel = parse("1.0.0").unwrap();
    assert_eq!(compare(&pre, &rel), Comparison::Less);
    assert_eq!(compare(&rel, &pre), Comparison::Greater);
}
