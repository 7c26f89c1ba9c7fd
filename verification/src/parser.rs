//! The grammar parser: from the token sequence to a validated version value.

use vstd::prelude::*;
use crate::token::{Token, TokenKind, TokenView, tokens_view};
use crate::scanner::{digits_lexeme_shape, is_digit, token_shape, wf_tokens};
use crate::semver::{Ident, IdentView, SemVerView, idents_view};

verus! {

/// A grammar failure, with the 0-based offset of the offending token.
#[derive(Clone, Copy, Debug, PartialEq, Eq, Structural)]
pub enum ParseError {
    /// A numeric field that is not exactly `0` yet begins with `0`.
    LeadingZero { position: usize },
    /// A separator where a field was owed: two separators in a row, a
    /// trailing separator, or a version beginning with one.
    EmptyIdentifier { position: usize },
    /// A token left over after a complete version.
    TrailingInput { position: usize },
    /// The input ended before major, minor and patch were complete.
    UnexpectedEnd { position: usize },
    /// A numeric field too large for its machine type.
    NumberOverflow { position: usize },
    /// A token of the wrong class among the three numeric fields.
    UnexpectedToken { position: usize },
}

/// The numeric value of a digit character.
pub open spec fn char_digit(c: char) -> int {
    c as u32 - '0' as u32
}

/// The number a run of digits denotes.
pub open spec fn digits_val(s: Seq<char>) -> int
    decreases s.len(),
{
    if s.len() == 0 {
        0
    } else {
        digits_val(s.drop_last()) * 10 + char_digit(s.last())
    }
}

/// Reading one more digit multiplies by ten and adds that digit.
pub proof fn lemma_digits_val_take(s: Seq<char>, i: int)
    requires
        0 <= i < s.len(),
    ensures
        digits_val(s.take(i + 1)) == digits_val(s.take(i)) * 10 + char_digit(s[i]),
{
    assert(s.take(i + 1).drop_last() =~= s.take(i));
    assert(s.take(i + 1).last() == s[i]);
}

/// A digit text denotes a non-negative number.
pub proof fn lemma_digits_val_nonneg(s: Seq<char>)
    requires
        forall|k: int| 0 <= k < s.len() ==> is_digit(s[k]),
    ensures
        digits_val(s) >= 0,
    decreases s.len(),
{
    if s.len() > 0 {
        assert(forall|k: int| 0 <= k < s.drop_last().len() ==> is_digit(s.drop_last()[k]));
        lemma_digits_val_nonneg(s.drop_last());
        assert(is_digit(s.last()));
    }
}

/// A digit text denotes at least what any of its prefixes denotes.
pub proof fn lemma_digits_val_grows(s: Seq<char>, i: int)
    requires
        forall|k: int| 0 <= k < s.len() ==> is_digit(s[k]),
        0 <= i <= s.len(),
    ensures
        digits_val(s) >= digits_val(s.take(i)),
    decreases s.len() - i,
{
    if i == s.len() {
        assert(s.take(i) =~= s);
    } else {
        assert(forall|k: int| 0 <= k < s.take(i).len() ==> is_digit(s.take(i)[k]));
        lemma_digits_val_nonneg(s.take(i));
        lemma_digits_val_take(s, i);
        assert(is_digit(s[i]));
        lemma_digits_val_grows(s, i + 1);
    }
}

/// Read the number a digit lexeme denotes, or report that it exceeds `u64`.
#[verifier::loop_isolation(false)]
pub fn lexeme_value(lex: &Vec<char>) -> (r: Option<u64>)
    requires
        digits_lexeme_shape(lex@),
    ensures
        match r {
            Some(v) => digits_val(lex@) == v,
            None => digits_val(lex@) > u64::MAX,
        },
{
    let mut acc: u64 = 0;
    let mut i: usize = 0;
    proof {
        assert(lex@.take(0) =~= Seq::<char>::empty());
    }
    while i < lex.len()
        invariant
            i <= lex@.len(),
            acc == digits_val(lex@.take(i as int)),
        decreases lex@.len() - i,
    {
        let c = lex[i];
        proof {
            assert(is_digit(lex@[i as int]));
            lemma_digits_val_take(lex@, i as int);
        }
        let d: u64 = (c as u32 - 48) as u64;
        let wide: u128 = acc as u128 * 10 + d as u128;
        if wide > u64::MAX as u128 {
            proof {
                lemma_digits_val_grows(lex@, i as int + 1);
            }
            return None;
        }
        acc = wide as u64;
        i = i + 1;
    }
    proof {
        assert(lex@.take(lex@.len() as int) =~= lex@);
    }
    Some(acc)
}

/// How the parser reads a token where major, minor or patch is expected.
pub open spec fn spec_num_field(t: TokenView) -> Result<u32, ParseError> {
    match t.kind {
        TokenKind::Digits => if t.lexeme.len() > 1 && t.lexeme[0] == '0' {
            Err(ParseError::LeadingZero { position: t.position as usize })
        } else if digits_val(t.lexeme) > u32::MAX {
            Err(ParseError::NumberOverflow { position: t.position as usize })
        } else {
            Ok(digits_val(t.lexeme) as u32)
        },
        TokenKind::EndOfInput => Err(ParseError::UnexpectedEnd { position: t.position as usize }),
        TokenKind::Identifier => Err(ParseError::UnexpectedToken { position: t.position as usize }),
        _ => Err(ParseError::EmptyIdentifier { position: t.position as usize }),
    }
}

/// How the parser reads a token where a separating dot is expected.
pub open spec fn spec_expect_dot(t: TokenView) -> Option<ParseError> {
    match t.kind {
        TokenKind::Dot => None,
        TokenKind::EndOfInput => Some(ParseError::UnexpectedEnd { position: t.position as usize }),
        _ => Some(ParseError::UnexpectedToken { position: t.position as usize }),
    }
}

/// How the parser reads a token where a pre-release or build field is
/// expected: a digit run with a leading zero is an alphanumeric field, any
/// other digit run a numeric field, an identifier an alphanumeric field, and
/// a separator or the end of input an empty field.
pub open spec fn spec_field(t: TokenView) -> Result<IdentView, ParseError> {
    match t.kind {
        TokenKind::Digits => if t.lexeme.len() > 1 && t.lexeme[0] == '0' {
            Ok(IdentView::AlphaNumeric(t.lexeme))
        } else if digits_val(t.lexeme) > u64::MAX {
            Err(ParseError::NumberOverflow { position: t.position as usize })
        } else {
            Ok(IdentView::Numeric(digits_val(t.lexeme) as u64))
        },
        TokenKind::Identifier => Ok(IdentView::AlphaNumeric(t.lexeme)),
        _ => Err(ParseError::EmptyIdentifier { position: t.position as usize }),
    }
}

/// Parse `field (DOT field)*` from position `i`: the fields, and the
/// position of the first token after them.
pub open spec fn spec_parse_fields(ts: Seq<TokenView>, i: int) -> Result<
    (Seq<IdentView>, int),
    ParseError,
>
    decreases ts.len() - i,
{
    match spec_field(ts[i]) {
        Err(e) => Err(e),
        Ok(f) => if i + 2 < ts.len() && ts[i + 1].kind == TokenKind::Dot {
            match spec_parse_fields(ts, i + 2) {
                Err(e) => Err(e),
                Ok((fs, j)) => Ok((seq![f] + fs, j)),
            }
        } else {
            Ok((seq![f], i + 1))
        },
    }
}

/// Parse the optional pre-release and build sections and the end marker,
/// after the three numeric fields.
pub open spec fn spec_parse_tail(
    ts: Seq<TokenView>,
    i: int,
    major: u32,
    minor: u32,
    patch: u32,
) -> Result<SemVerView, ParseError> {
    let t = ts[i];
    if t.kind == TokenKind::EndOfInput {
        Ok(SemVerView { major, minor, patch, pre_release: None, build: None })
    } else if t.kind == TokenKind::Hyphen {
        match spec_parse_fields(ts, i + 1) {
            Err(e) => Err(e),
            Ok((pre, j)) => {
                let u = ts[j];
                if u.kind == TokenKind::EndOfInput {
                    Ok(SemVerView { major, minor, patch, pre_release: Some(pre), build: None })
                } else if u.kind == TokenKind::Plus {
                    match spec_parse_fields(ts, j + 1) {
                        Err(e) => Err(e),
                        Ok((bld, k)) => if ts[k].kind == TokenKind::EndOfInput {
                            Ok(
                                SemVerView {
                                    major,
                                    minor,
                                    patch,
                                    pre_release: Some(pre),
                                    build: Some(bld),
                                },
                            )
                        } else {
                            Err(ParseError::TrailingInput { position: ts[k].position as usize })
                        },
                    }
                } else {
                    Err(ParseError::TrailingInput { position: u.position as usize })
                }
            },
        }
    } else if t.kind == TokenKind::Plus {
        match spec_parse_fields(ts, i + 1) {
            Err(e) => Err(e),
            Ok((bld, k)) => if ts[k].kind == TokenKind::EndOfInput {
                Ok(SemVerView { major, minor, patch, pre_release: None, build: Some(bld) })
            } else {
                Err(ParseError::TrailingInput { position: ts[k].position as usize })
            },
        }
    } else {
        Err(ParseError::TrailingInput { position: t.position as usize })
    }
}

/// What parsing a token sequence yields: the version, or the first grammar
/// violation.
pub open spec fn spec_parse_tokens(ts: Seq<TokenView>) -> Result<SemVerView, ParseError> {
    match spec_num_field(ts[0]) {
        Err(e) => Err(e),
        Ok(major) => match spec_expect_dot(ts[1]) {
            Some(e) => Err(e),
            None => match spec_num_field(ts[2]) {
                Err(e) => Err(e),
                Ok(minor) => match spec_expect_dot(ts[3]) {
                    Some(e) => Err(e),
                    None => match spec_num_field(ts[4]) {
                        Err(e) => Err(e),
                        Ok(patch) => spec_parse_tail(ts, 5, major, minor, patch),
                    },
                },
            },
        },
    }
}


/// An owned copy of a character vector.
#[verifier::loop_isolation(false)]
fn copy_chars(src: &Vec<char>) -> (r: Vec<char>)
    ensures
        r@ == src@,
{
    let mut out: Vec<char> = Vec::new();
    let mut i: usize = 0;
    while i < src.len()
        invariant
            i <= src@.len(),
            out@ == src@.take(i as int),
        decreases src@.len() - i,
    {
        proof {
            assert(src@.take(i as int + 1) =~= src@.take(i as int).push(src@[i as int]));
        }
        out.push(src[i]);
        i = i + 1;
    }
    proof {
        assert(src@.take(src@.len() as int) =~= src@);
    }
    out
}

/// Decides [`spec_num_field`].
fn num_field(t: &Token) -> (r: Result<u32, ParseError>)
    requires
        token_shape(t@),
    ensures
        r == spec_num_field(t@),
{
    match t.kind {
        TokenKind::Digits => {
            if t.lexeme.len() > 1 && t.lexeme[0] == '0' {
                Err(ParseError::LeadingZero { position: t.position })
            } else {
                match lexeme_value(&t.lexeme) {
                    Some(v) => if v > u32::MAX as u64 {
                        Err(ParseError::NumberOverflow { position: t.position })
                    } else {
                        Ok(v as u32)
                    },
                    None => Err(ParseError::NumberOverflow { position: t.position }),
                }
            }
        },
        TokenKind::EndOfInput => Err(ParseError::UnexpectedEnd { position: t.position }),
        TokenKind::Identifier => Err(ParseError::UnexpectedToken { position: t.position }),
        _ => Err(ParseError::EmptyIdentifier { position: t.position }),
    }
}

/// Decides [`spec_expect_dot`].
fn expect_dot(t: &Token) -> (r: Option<ParseError>)
    ensures
        r == spec_expect_dot(t@),
{
    match t.kind {
        TokenKind::Dot => None,
        TokenKind::EndOfInput => Some(ParseError::UnexpectedEnd { position: t.position }),
        _ => Some(ParseError::UnexpectedToken { position: t.position }),
    }
}

/// Decides [`spec_field`]; a field read from a well-shaped token is
/// well-formed.
fn field(t: &Token) -> (r: Result<Ident, ParseError>)
    requires
        token_shape(t@),
    ensures
        r matches Ok(f) ==> spec_field(t@) == Ok::<IdentView, ParseError>(f@) && crate::semver::wf_ident(f@),
        r matches Err(e) ==> spec_field(t@) == Err::<IdentView, ParseError>(e),
{
    match t.kind {
        TokenKind::Digits => {
            if t.lexeme.len() > 1 && t.lexeme[0] == '0' {
                Ok(Ident::AlphaNumeric(copy_chars(&t.lexeme)))
            } else {
                match lexeme_value(&t.lexeme) {
                    Some(v) => Ok(Ident::Numeric(v)),
                    None => Err(ParseError::NumberOverflow { position: t.position }),
                }
            }
        },
        TokenKind::Identifier => Ok(Ident::AlphaNumeric(copy_chars(&t.lexeme))),
        _ => Err(ParseError::EmptyIdentifier { position: t.position }),
    }
}

/// Decides [`spec_parse_fields`]: one field, then `.` and a further field as
/// long as a dot follows.
#[verifier::loop_isolation(false)]
fn parse_fields(tokens: &Vec<Token>, start: usize) -> (r: Result<(Vec<Ident>, usize), ParseError>)
    requires
        wf_tokens(tokens_view(tokens@)),
        start < tokens@.len(),
    ensures
        match r {
            Ok(p) => spec_parse_fields(tokens_view(tokens@), start as int) == Ok::<
                (Seq<IdentView>, int),
                ParseError,
            >((idents_view(p.0@), p.1 as int)) && start < p.1 < tokens@.len() && crate::semver::wf_fields(
                idents_view(p.0@),
            ),
            Err(e) => spec_parse_fields(tokens_view(tokens@), start as int) == Err::<
                (Seq<IdentView>, int),
                ParseError,
            >(e),
        },
{
    let ghost tv = tokens_view(tokens@);
    let n = tokens.len();
    let mut fields: Vec<Ident> = Vec::new();
    let mut i = start;
    loop
        invariant
            wf_tokens(tv),
            tv == tokens_view(tokens@),
            n == tv.len(),
            start <= i < n,
            forall|k: int|
                0 <= k < fields@.len() ==> crate::semver::wf_ident(#[trigger] idents_view(
                    fields@,
                )[k]),
            (match spec_parse_fields(tv, i as int) {
                Ok(res) => spec_parse_fields(tv, start as int) == Ok::<
                    (Seq<IdentView>, int),
                    ParseError,
                >((idents_view(fields@) + res.0, res.1)),
                Err(e) => spec_parse_fields(tv, start as int) == Err::<
                    (Seq<IdentView>, int),
                    ParseError,
                >(e),
            }),
        decreases tv.len() - i,
    {
        proof {
            assert(tv[i as int] == tokens@[i as int]@);
        }
        let f = match field(&tokens[i]) {
            Ok(f) => f,
            Err(e) => return Err(e),
        };
        proof {
            assert(tv[i as int].kind != TokenKind::EndOfInput);
            assert(i < tv.len() - 1);
            assert(idents_view(fields@.push(f)) =~= idents_view(fields@) + seq![f@]);
        }
        let has_dot = matches!(tokens[i + 1].kind, TokenKind::Dot);
        if has_dot {
            proof {
                assert(tv[i + 1].kind == TokenKind::Dot);
                assert(i + 1 < tv.len() - 1);
                if let Ok(res) = spec_parse_fields(tv, i as int + 2) {
                    assert((idents_view(fields@) + (seq![f@] + res.0)) =~= (idents_view(
                        fields@,
                    ) + seq![f@]) + res.0);
                }
            }
            fields.push(f);
            i = i + 2;
        } else {
            proof {
                assert(spec_parse_fields(tv, i as int) == Ok::<(Seq<IdentView>, int), ParseError>(
                    (seq![f@], i as int + 1),
                ));
            }
            fields.push(f);
            return Ok((fields, i + 1));
        }
    }
}

/// Parse a scanned token sequence into a version value: the library-level
/// parser entry.
pub fn parse_tokens(tokens: &Vec<Token>) -> (r: Result<crate::semver::SemVer, ParseError>)
    requires
        wf_tokens(tokens_view(tokens@)),
    ensures
        match r {
            Ok(v) => spec_parse_tokens(tokens_view(tokens@)) == Ok::<SemVerView, ParseError>(v@)
                && v@.wf(),
            Err(e) => spec_parse_tokens(tokens_view(tokens@)) == Err::<SemVerView, ParseError>(e),
        },
{
    let ghost tv = tokens_view(tokens@);
    let n = tokens.len();
    proof {
        assert(tv[0] == tokens@[0]@);
    }
    let major = match num_field(&tokens[0]) {
        Ok(m) => m,
        Err(e) => return Err(e),
    };
    proof {
        assert(tv[0].kind != TokenKind::EndOfInput);
        assert(tv[1] == tokens@[1]@);
    }
    if let Some(e) = expect_dot(&tokens[1]) {
        return Err(e);
    }
    proof {
        assert(tv[1].kind != TokenKind::EndOfInput);
        assert(tv[2] == tokens@[2]@);
    }
    let minor = match num_field(&tokens[2]) {
        Ok(m) => m,
        Err(e) => return Err(e),
    };
    proof {
        assert(tv[2].kind != TokenKind::EndOfInput);
        assert(tv[3] == tokens@[3]@);
    }
    if let Some(e) = expect_dot(&tokens[3]) {
        return Err(e);
    }
    proof {
        assert(tv[3].kind != TokenKind::EndOfInput);
        assert(tv[4] == tokens@[4]@);
    }
    let patch = match num_field(&tokens[4]) {
        Ok(m) => m,
        Err(e) => return Err(e),
    };
    proof {
        assert(tv[4].kind != TokenKind::EndOfInput);
        assert(tv[5] == tokens@[5]@);
    }
    match tokens[5].kind {
        TokenKind::EndOfInput => Ok(
            crate::semver::SemVer::from_parts(major, minor, patch, None, None),
        ),
        TokenKind::Hyphen => {
            let (pre, j) = match parse_fields(tokens, 6) {
                Ok(p) => p,
                Err(e) => return Err(e),
            };
            proof {
                assert(tv[j as int] == tokens@[j as int]@);
            }
            match tokens[j].kind {
                TokenKind::EndOfInput => Ok(
                    crate::semver::SemVer::from_parts(major, minor, patch, Some(pre), None),
                ),
                TokenKind::Plus => {
                    proof {
                        assert(tv[j as int].kind != TokenKind::EndOfInput);
                        assert(j < n - 1);
                    }
                    let (bld, k) = match parse_fields(tokens, j + 1) {
                        Ok(p) => p,
                        Err(e) => return Err(e),
                    };
                    proof {
                        assert(tv[k as int] == tokens@[k as int]@);
                    }
                    if matches!(tokens[k].kind, TokenKind::EndOfInput) {
                        Ok(
                            crate::semver::SemVer::from_parts(
                                major,
                                minor,
                                patch,
                                Some(pre),
                                Some(bld),
                            ),
                        )
                    } else {
                        Err(ParseError::TrailingInput { position: tokens[k].position })
                    }
                },
                _ => Err(ParseError::TrailingInput { position: tokens[j].position }),
            }
        },
        TokenKind::Plus => {
            let (bld, k) = match parse_fields(tokens, 6) {
                Ok(p) => p,
                Err(e) => return Err(e),
            };
            proof {
                assert(tv[k as int] == tokens@[k as int]@);
            }
            if matches!(tokens[k].kind, TokenKind::EndOfInput) {
                Ok(crate::semver::SemVer::from_parts(major, minor, patch, None, Some(bld)))
            } else {
                Err(ParseError::TrailingInput { position: tokens[k].position })
            }
        },
        _ => Err(ParseError::TrailingInput { position: tokens[5].position }),
    }
}


/// What validating a pre-release or build text yields: its scan, then the
/// field grammar over the whole token sequence.
pub open spec fn spec_validate_fields(s: Seq<char>) -> Result<
    Seq<IdentView>,
    crate::SemVerError,
> {
    match crate::scanner::spec_scan_from(s, 0) {
        Err(e) => Err(crate::SemVerError::Lex(e)),
        Ok(ts) => match spec_parse_fields(ts, 0) {
            Err(e) => Err(crate::SemVerError::Parse(e)),
            Ok((fs, j)) => if ts[j].kind == TokenKind::EndOfInput {
                Ok(fs)
            } else {
                Err(
                    crate::SemVerError::Parse(
                        ParseError::TrailingInput { position: ts[j].position as usize },
                    ),
                )
            },
        },
    }
}

/// Validate `text` against the field grammar of the pre-release and build
/// sections: the same rules the parser enforces.
pub fn validate_fields(text: &str) -> (r: Result<Vec<Ident>, crate::SemVerError>)
    ensures
        match r {
            Ok(fs) => spec_validate_fields(text@) == Ok::<Seq<IdentView>, crate::SemVerError>(
                idents_view(fs@),
            ) && crate::semver::wf_fields(idents_view(fs@)),
            Err(e) => spec_validate_fields(text@) == Err::<Seq<IdentView>, crate::SemVerError>(e),
        },
{
    let toks = match crate::scanner::scan(text) {
        Ok(t) => t,
        Err(e) => return Err(crate::SemVerError::Lex(e)),
    };
    let ghost tv = tokens_view(toks@);
    let (fs, j) = match parse_fields(&toks, 0) {
        Ok(p) => p,
        Err(e) => return Err(crate::SemVerError::Parse(e)),
    };
    proof {
        assert(tv[j as int] == toks@[j as int]@);
    }
    if matches!(toks[j].kind, TokenKind::EndOfInput) {
        Ok(fs)
    } else {
        Err(crate::SemVerError::Parse(ParseError::TrailingInput { position: toks[j].position }))
    }
}

} // verus!
