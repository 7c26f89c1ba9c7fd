//! The round-trip law: parsing the canonical rendering of any well-formed
//! version yields that version back.

use vstd::prelude::*;
use crate::token::{TokenKind, TokenView};
use crate::scanner::{
    LexError, clamp, cons_token, digit_run_len, ident_run_len, is_digit, is_ident_char, is_letter,
    lemma_digit_run_val, lemma_ident_run_val, spec_scan_from,
};
use crate::parser::{
    ParseError, spec_field, spec_num_field, spec_parse_fields, spec_parse_tokens,
};
use crate::semver::{
    IdentView, SemVerView, dec_digits, join_fields, lemma_dec_digits, render_ident, spec_render,
    wf_fields, wf_ident,
};

verus! {

/// The kind of the token a field lexeme scans to: `Digits` when it is all
/// digits, `Identifier` otherwise.
pub open spec fn field_token_kind(lex: Seq<char>) -> TokenKind {
    if digit_run_len(lex, 0) == lex.len() {
        TokenKind::Digits
    } else {
        TokenKind::Identifier
    }
}

/// The token a rendered field scans to, at offset `p`.
pub open spec fn field_token(f: IdentView, p: int) -> TokenView {
    TokenView { kind: field_token_kind(render_ident(f)), position: p, lexeme: render_ident(f) }
}

/// A dot token at offset `p`.
pub open spec fn dot_token(p: int) -> TokenView {
    TokenView { kind: TokenKind::Dot, position: p, lexeme: seq!['.'] }
}

/// The tokens a rendered field sequence scans to, starting at offset `p`.
pub open spec fn fields_tokens(fs: Seq<IdentView>, p: int) -> Seq<TokenView>
    decreases fs.len(),
{
    if fs.len() == 0 {
        Seq::empty()
    } else if fs.len() == 1 {
        seq![field_token(fs[0], p)]
    } else {
        let l = render_ident(fs[0]).len() as int;
        seq![field_token(fs[0], p), dot_token(p + l)] + fields_tokens(fs.drop_first(), p + l + 1)
    }
}

/// How many tokens a field sequence occupies: its fields and the dots
/// between them.
pub open spec fn fields_token_count(fs: Seq<IdentView>) -> int {
    2 * fs.len() - 1
}

/// Prefix several tokens to a scan result, keeping any error.
pub open spec fn cons_tokens(ts: Seq<TokenView>, r: Result<Seq<TokenView>, LexError>) -> Result<
    Seq<TokenView>,
    LexError,
> {
    match r {
        Ok(rest) => Ok(ts + rest),
        Err(e) => Err(e),
    }
}

/// A rendered field is non-empty.
proof fn lemma_render_ident_len(f: IdentView)
    requires
        wf_ident(f),
    ensures
        render_ident(f).len() >= 1,
{
    match f {
        IdentView::Numeric(n) => {
            lemma_dec_digits(n as int);
        },
        IdentView::AlphaNumeric(_) => {},
    }
}

/// The parser reads back from a field's token exactly that field.
proof fn lemma_field_token_reads(f: IdentView, p: int)
    requires
        wf_ident(f),
    ensures
        spec_field(field_token(f, p)) == Ok::<IdentView, ParseError>(f),
{
    match f {
        IdentView::Numeric(n) => {
            lemma_dec_digits(n as int);
            let lex = dec_digits(n as int);
            lemma_digit_run_val(lex, 0, lex.len() as int);
            assert(field_token_kind(lex) == TokenKind::Digits);
            if lex.len() > 1 {
                assert(lex[0] != '0');
            }
        },
        IdentView::AlphaNumeric(t) => {
            if digit_run_len(t, 0) == t.len() {
                // all digits with a leading zero
                crate::scanner::lemma_digit_run_chars(t, 0);
                assert(t.len() > 1 && t[0] == '0');
            } else {
                assert(field_token_kind(t) == TokenKind::Identifier);
            }
        },
    }
}

/// The parser reads back from a numeric field's token the number itself.
proof fn lemma_num_field_token(n: u64, p: int)
    requires
        n <= u32::MAX,
    ensures
        spec_num_field(field_token(IdentView::Numeric(n), p)) == Ok::<u32, ParseError>(
            n as u32,
        ),
{
    lemma_dec_digits(n as int);
    let lex = dec_digits(n as int);
    lemma_digit_run_val(lex, 0, lex.len() as int);
    if lex.len() > 1 {
        assert(lex[0] != '0');
    }
}

/// Scanning at a rendered field bounded by a non-identifier character yields
/// that field's token and continues after it.
proof fn lemma_scan_field(s: Seq<char>, i: int, e: int, f: IdentView)
    requires
        wf_ident(f),
        0 <= i < e <= s.len(),
        s.subrange(i, e) == render_ident(f),
        e == s.len() || (!is_digit(s[e]) && !is_letter(s[e])),
        (match f {
            IdentView::AlphaNumeric(t) => digit_run_len(t, 0) < t.len() ==> (e == s.len()
                || !is_ident_char(s[e])),
            IdentView::Numeric(_) => true,
        }),
    ensures
        spec_scan_from(s, i) == cons_token(field_token(f, i), spec_scan_from(s, e)),
{
    let lex = render_ident(f);
    assert(lex.len() == e - i);
    assert(forall|k: int| i <= k < e ==> s[k] == lex[k - i]);
    match f {
        IdentView::Numeric(n) => {
            lemma_dec_digits(n as int);
            assert(forall|k: int| i <= k < e ==> is_digit(s[k]));
            lemma_digit_run_val(s, i, e);
            lemma_digit_run_val(lex, 0, lex.len() as int);
            assert(is_digit(s[i]));
            assert(clamp(i + digit_run_len(s, i), s) == e);
        },
        IdentView::AlphaNumeric(t) => {
            let d = digit_run_len(t, 0);
            if d == t.len() {
                // all digits with a leading zero: scans as a Digits token
                crate::scanner::lemma_digit_run_chars(t, 0);
                assert(forall|k: int| i <= k < e ==> is_digit(s[k]));
                lemma_digit_run_val(s, i, e);
                assert(clamp(i + digit_run_len(s, i), s) == e);
            } else {
                crate::scanner::lemma_digit_run_chars(t, 0);
                assert(is_letter(t[d as int]));
                assert(forall|k: int| i <= k < e ==> is_ident_char(s[k]));
                if d == 0 {
                    assert(!is_digit(t[0]));
                    assert(is_letter(s[i]));
                    lemma_ident_run_val(s, i, e);
                    assert(clamp(i + ident_run_len(s, i), s) == e);
                } else {
                    assert(is_digit(t[0]));
                    assert(is_digit(s[i]));
                    assert(forall|k: int| i <= k < i + d ==> is_digit(s[k]));
                    assert(!is_digit(s[i + d]));
                    lemma_digit_run_val(s, i, i + d);
                    assert(clamp(i + digit_run_len(s, i), s) == i + d);
                    assert(is_letter(s[i + d]));
                    lemma_ident_run_val(s, i + d, e);
                    assert(clamp(i + d + ident_run_len(s, i + d), s) == e);
                }
            }
        },
    }
}


/// The tokens of a field sequence number two per field less one.
proof fn lemma_fields_tokens_len(fs: Seq<IdentView>, p: int)
    requires
        fs.len() >= 1,
    ensures
        fields_tokens(fs, p).len() == fields_token_count(fs),
    decreases fs.len(),
{
    if fs.len() > 1 {
        let l = render_ident(fs[0]).len() as int;
        lemma_fields_tokens_len(fs.drop_first(), p + l + 1);
    }
}

/// A joined field sequence is non-empty.
proof fn lemma_join_fields_len(fs: Seq<IdentView>)
    requires
        wf_fields(fs),
    ensures
        join_fields(fs).len() >= render_ident(fs[0]).len(),
        join_fields(fs).len() >= 1,
{
    lemma_render_ident_len(fs[0]);
    if fs.len() > 1 {
    }
}

/// Scanning at a rendered field sequence bounded by a character that extends
/// neither a run nor the sequence yields the fields' tokens and continues
/// after them.
proof fn lemma_scan_fields(s: Seq<char>, i: int, fs: Seq<IdentView>)
    requires
        wf_fields(fs),
        0 <= i,
        i + join_fields(fs).len() <= s.len(),
        s.subrange(i, i + join_fields(fs).len()) == join_fields(fs),
        i + join_fields(fs).len() == s.len() || (!is_ident_char(
            s[i + join_fields(fs).len()],
        ) && s[i + join_fields(fs).len()] != '.'),
    ensures
        spec_scan_from(s, i) == cons_tokens(
            fields_tokens(fs, i),
            spec_scan_from(s, i + join_fields(fs).len()),
        ),
    decreases fs.len(),
{
    let e = i + join_fields(fs).len();
    lemma_join_fields_len(fs);
    if fs.len() == 1 {
        assert(join_fields(fs) == render_ident(fs[0]));
        lemma_scan_field(s, i, e, fs[0]);
        assert(fields_tokens(fs, i) == seq![field_token(fs[0], i)]);
    } else {
        let l = render_ident(fs[0]).len() as int;
        let rest_fs = fs.drop_first();
        assert(wf_fields(rest_fs)) by {
            assert(forall|k: int|
                0 <= k < rest_fs.len() ==> rest_fs[k] == fs[k + 1] && wf_ident(fs[k + 1]));
        }
        assert(join_fields(fs) == render_ident(fs[0]) + seq!['.'] + join_fields(rest_fs));
        lemma_join_fields_len(rest_fs);
        assert(e == i + l + 1 + join_fields(rest_fs).len());
        // the first field's text, then the dot
        assert(s.subrange(i, i + l) =~= render_ident(fs[0])) by {
            assert(forall|k: int|
                0 <= k < l ==> s.subrange(i, e)[k] == s[i + k] && join_fields(fs)[k]
                    == render_ident(fs[0])[k]);
        }
        assert(s[i + l] == join_fields(fs)[l]);
        assert(join_fields(fs)[l] == '.');
        lemma_scan_field(s, i, i + l, fs[0]);
        // the rest of the sequence
        assert(s.subrange(i + l + 1, e) =~= join_fields(rest_fs)) by {
            assert(forall|k: int|
                0 <= k < join_fields(rest_fs).len() ==> s.subrange(i + l + 1, e)[k] == s[i + l + 1
                    + k] && s[i + l + 1 + k] == join_fields(fs)[l + 1 + k] && join_fields(fs)[l + 1
                    + k] == join_fields(rest_fs)[k]);
        }
        lemma_scan_fields(s, i + l + 1, rest_fs);
        // reassemble
        assert(spec_scan_from(s, i + l) == cons_token(
            dot_token(i + l),
            spec_scan_from(s, i + l + 1),
        ));
        assert(fields_tokens(fs, i) == seq![field_token(fs[0], i), dot_token(i + l)]
            + fields_tokens(rest_fs, i + l + 1));
        match spec_scan_from(s, e) {
            Ok(rest) => {
                assert(seq![field_token(fs[0], i)] + (seq![dot_token(i + l)] + (fields_tokens(
                    rest_fs,
                    i + l + 1,
                ) + rest)) =~= (seq![field_token(fs[0], i), dot_token(i + l)] + fields_tokens(
                    rest_fs,
                    i + l + 1,
                )) + rest);
            },
            Err(_) => {},
        }
    }
}

/// Parsing at the tokens of a rendered field sequence, with no dot right
/// after them, yields the fields back and stops right after them.
proof fn lemma_parse_fields_tokens(ts: Seq<TokenView>, idx: int, fs: Seq<IdentView>, p: int)
    requires
        wf_fields(fs),
        0 <= idx,
        idx + fields_token_count(fs) < ts.len(),
        ts.subrange(idx, idx + fields_token_count(fs)) == fields_tokens(fs, p),
        ts[idx + fields_token_count(fs)].kind != TokenKind::Dot,
    ensures
        spec_parse_fields(ts, idx) == Ok::<(Seq<IdentView>, int), ParseError>(
            (fs, idx + fields_token_count(fs)),
        ),
    decreases fs.len(),
{
    let n = fields_token_count(fs);
    assert(ts[idx] == fields_tokens(fs, p)[0]);
    lemma_field_token_reads(fs[0], p);
    if fs.len() == 1 {
        assert(ts[idx] == field_token(fs[0], p));
        assert(spec_field(ts[idx]) == Ok::<IdentView, ParseError>(fs[0]));
        assert(ts[idx + 1].kind != TokenKind::Dot);
        assert(seq![fs[0]] =~= fs);
    } else {
        let l = render_ident(fs[0]).len() as int;
        let rest_fs = fs.drop_first();
        assert(wf_fields(rest_fs)) by {
            assert(forall|k: int|
                0 <= k < rest_fs.len() ==> rest_fs[k] == fs[k + 1] && wf_ident(fs[k + 1]));
        }
        assert(fields_tokens(fs, p) == seq![field_token(fs[0], p), dot_token(p + l)]
            + fields_tokens(rest_fs, p + l + 1));
        assert(ts[idx] == field_token(fs[0], p));
        assert(ts[idx + 1] == fields_tokens(fs, p)[1]);
        assert(ts[idx + 1] == dot_token(p + l));
        assert(fields_token_count(rest_fs) == n - 2);
        assert(ts.subrange(idx + 2, idx + n) =~= fields_tokens(rest_fs, p + l + 1)) by {
            assert forall|k: int| 0 <= k < n - 2 implies #[trigger] ts.subrange(
                idx + 2,
                idx + n,
            )[k] == fields_tokens(rest_fs, p + l + 1)[k] by {
                assert(ts.subrange(idx + 2, idx + n)[k] == ts[idx + 2 + k]);
                assert(ts[idx + 2 + k] == ts.subrange(idx, idx + n)[2 + k]);
                assert(fields_tokens(fs, p)[2 + k] == fields_tokens(rest_fs, p + l + 1)[k]);
            }
        }
        lemma_parse_fields_tokens(ts, idx + 2, rest_fs, p + l + 1);
        assert(idx + 2 < ts.len());
        assert(spec_parse_fields(ts, idx) == Ok::<(Seq<IdentView>, int), ParseError>(
            (seq![fs[0]] + rest_fs, idx + n),
        ));
        assert(seq![fs[0]] + rest_fs =~= fs);
    }
}



proof fn lemma_round_trip_plain(v: SemVerView)
    requires
        v.wf(),
        v.pre_release is None,
        v.build is None,
    ensures
        crate::spec_parse(spec_render(v)) == Ok::<SemVerView, crate::SemVerError>(v),
{
    let s = spec_render(v);
    let fa = IdentView::Numeric(v.major as u64);
    let fb = IdentView::Numeric(v.minor as u64);
    let fc = IdentView::Numeric(v.patch as u64);
    let a = render_ident(fa);
    let b = render_ident(fb);
    let c = render_ident(fc);
    lemma_dec_digits(v.major as int);
    lemma_dec_digits(v.minor as int);
    lemma_dec_digits(v.patch as int);
    let pre_chars = (match v.pre_release {
        Some(fs) => seq!['-'] + join_fields(fs),
        None => Seq::<char>::empty(),
    });
    let bld_chars = (match v.build {
        Some(fs) => seq!['+'] + join_fields(fs),
        None => Seq::<char>::empty(),
    });
    assert(s == a + seq!['.'] + b + seq!['.'] + c + pre_chars + bld_chars);
    let e1 = a.len() as int;
    let m0 = e1 + 1;
    let e2 = m0 + b.len() as int;
    let p0 = e2 + 1;
    let e3 = p0 + c.len() as int;
    let e4 = e3 + pre_chars.len() as int;
    let end = e4 + bld_chars.len() as int;
    assert(s.len() == end);
    let ft_a = field_token(fa, 0);
    let ft_b = field_token(fb, m0);
    let ft_c = field_token(fc, p0);
    let eoi = TokenView { kind: TokenKind::EndOfInput, position: end, lexeme: Seq::empty() };
    let x5 = seq![ft_a, dot_token(e1), ft_b, dot_token(e2), ft_c];
    // the numeric prefix scans field by field
    assert(s.subrange(0, e1) =~= a);
    assert(s[e1] == '.');
    assert(s.subrange(m0, e2) =~= b);
    assert(s[e2] == '.');
    assert(s.subrange(p0, e3) =~= c);
    lemma_scan_field(s, 0, e1, fa);
    assert(spec_scan_from(s, e1) == cons_token(dot_token(e1), spec_scan_from(s, m0)));
    lemma_scan_field(s, m0, e2, fb);
    assert(spec_scan_from(s, e2) == cons_token(dot_token(e2), spec_scan_from(s, p0)));
    // the parser reads the numeric prefix back
    lemma_num_field_token(v.major as u64, 0);
    lemma_num_field_token(v.minor as u64, m0);
    lemma_num_field_token(v.patch as u64, p0);

            assert(e3 == end);
            lemma_scan_field(s, p0, e3, fc);
            assert(spec_scan_from(s, end) == Ok::<Seq<TokenView>, LexError>(seq![eoi]));
            let ts = x5 + seq![eoi];
            assert(seq![ft_a] + (seq![dot_token(e1)] + (seq![ft_b] + (seq![dot_token(e2)] + (seq![
                ft_c,
            ] + seq![eoi])))) =~= ts);
            assert(spec_scan_from(s, 0) == Ok::<Seq<TokenView>, LexError>(ts));
            assert(ts[0] == ft_a && ts[1] == dot_token(e1) && ts[2] == ft_b && ts[3] == dot_token(
                e2,
            ) && ts[4] == ft_c && ts[5] == eoi);
            assert(spec_parse_tokens(ts) == Ok::<SemVerView, ParseError>(
                SemVerView {
                    major: v.major,
                    minor: v.minor,
                    patch: v.patch,
                    pre_release: None,
                    build: None,
                },
            ));
            assert(SemVerView {
                major: v.major,
                minor: v.minor,
                patch: v.patch,
                pre_release: None,
                build: None,
            } =~~= v);
}

#[verifier::rlimit(60)]
proof fn lemma_round_trip_pre(v: SemVerView)
    requires
        v.wf(),
        v.pre_release is Some,
        v.build is None,
    ensures
        crate::spec_parse(spec_render(v)) == Ok::<SemVerView, crate::SemVerError>(v),
{
    let s = spec_render(v);
    let fa = IdentView::Numeric(v.major as u64);
    let fb = IdentView::Numeric(v.minor as u64);
    let fc = IdentView::Numeric(v.patch as u64);
    let a = render_ident(fa);
    let b = render_ident(fb);
    let c = render_ident(fc);
    lemma_dec_digits(v.major as int);
    lemma_dec_digits(v.minor as int);
    lemma_dec_digits(v.patch as int);
    let pre_chars = (match v.pre_release {
        Some(fs) => seq!['-'] + join_fields(fs),
        None => Seq::<char>::empty(),
    });
    let bld_chars = (match v.build {
        Some(fs) => seq!['+'] + join_fields(fs),
        None => Seq::<char>::empty(),
    });
    assert(s == a + seq!['.'] + b + seq!['.'] + c + pre_chars + bld_chars);
    let e1 = a.len() as int;
    let m0 = e1 + 1;
    let e2 = m0 + b.len() as int;
    let p0 = e2 + 1;
    let e3 = p0 + c.len() as int;
    let e4 = e3 + pre_chars.len() as int;
    let end = e4 + bld_chars.len() as int;
    assert(s.len() == end);
    let ft_a = field_token(fa, 0);
    let ft_b = field_token(fb, m0);
    let ft_c = field_token(fc, p0);
    let eoi = TokenView { kind: TokenKind::EndOfInput, position: end, lexeme: Seq::empty() };
    let x5 = seq![ft_a, dot_token(e1), ft_b, dot_token(e2), ft_c];
    // the numeric prefix scans field by field
    assert(s.subrange(0, e1) =~= a);
    assert(s[e1] == '.');
    assert(s.subrange(m0, e2) =~= b);
    assert(s[e2] == '.');
    assert(s.subrange(p0, e3) =~= c);
    lemma_scan_field(s, 0, e1, fa);
    assert(spec_scan_from(s, e1) == cons_token(dot_token(e1), spec_scan_from(s, m0)));
    lemma_scan_field(s, m0, e2, fb);
    assert(spec_scan_from(s, e2) == cons_token(dot_token(e2), spec_scan_from(s, p0)));
    // the parser reads the numeric prefix back
    lemma_num_field_token(v.major as u64, 0);
    lemma_num_field_token(v.minor as u64, m0);
    lemma_num_field_token(v.patch as u64, p0);
    let fs = v.pre_release->Some_0;

            assert(s[e3] == '-');
            lemma_scan_field(s, p0, e3, fc);
            assert(spec_scan_from(s, e3) == cons_token(
                TokenView { kind: TokenKind::Hyphen, position: e3, lexeme: seq!['-'] },
                spec_scan_from(s, e3 + 1),
            ));
            let hy = TokenView { kind: TokenKind::Hyphen, position: e3, lexeme: seq!['-'] };
            lemma_join_fields_len(fs);
            assert(e3 + 1 + join_fields(fs).len() == e4 == end);
            assert(s.subrange(e3 + 1, end) =~= join_fields(fs)) by {
                assert(forall|k: int|
                    0 <= k < join_fields(fs).len() ==> s.subrange(e3 + 1, end)[k] == s[e3 + 1 + k]
                        && s[e3 + 1 + k] == pre_chars[1 + k] && pre_chars[1 + k] == join_fields(
                        fs,
                    )[k]);
            }
            lemma_scan_fields(s, e3 + 1, fs);
            let ftp = fields_tokens(fs, e3 + 1);
            let cnt = fields_token_count(fs);
            lemma_fields_tokens_len(fs, e3 + 1);
            assert(spec_scan_from(s, end) == Ok::<Seq<TokenView>, LexError>(seq![eoi]));
            assert(spec_scan_from(s, e3 + 1) == Ok::<Seq<TokenView>, LexError>(ftp + seq![eoi]));
            let ts = x5 + seq![hy] + ftp + seq![eoi];
            assert(seq![ft_a] + (seq![dot_token(e1)] + (seq![ft_b] + (seq![dot_token(e2)] + (seq![
                ft_c,
            ] + (seq![hy] + (ftp + seq![eoi])))))) =~= ts);
            assert(spec_scan_from(s, 0) == Ok::<Seq<TokenView>, LexError>(ts));
            assert(ts[0] == ft_a && ts[1] == dot_token(e1) && ts[2] == ft_b && ts[3] == dot_token(
                e2,
            ) && ts[4] == ft_c && ts[5] == hy);
            assert(ts.len() == 7 + cnt);
            assert(ts[6 + cnt] == eoi);
            assert(ts.subrange(6, 6 + cnt) =~= ftp) by {
                assert(forall|k: int|
                    0 <= k < cnt ==> ts.subrange(6, 6 + cnt)[k] == ts[6 + k] && ts[6 + k]
                        == ftp[k]);
            }
            lemma_parse_fields_tokens(ts, 6, fs, e3 + 1);
            assert(spec_parse_tokens(ts) == Ok::<SemVerView, ParseError>(
                SemVerView {
                    major: v.major,
                    minor: v.minor,
                    patch: v.patch,
                    pre_release: Some(fs),
                    build: None,
                },
            ));
            assert(SemVerView {
                major: v.major,
                minor: v.minor,
                patch: v.patch,
                pre_release: Some(fs),
                build: None,
            } =~~= v);
}

proof fn lemma_round_trip_build(v: SemVerView)
    requires
        v.wf(),
        v.pre_release is None,
        v.build is Some,
    ensures
        crate::spec_parse(spec_render(v)) == Ok::<SemVerView, crate::SemVerError>(v),
{
    let s = spec_render(v);
    let fa = IdentView::Numeric(v.major as u64);
    let fb = IdentView::Numeric(v.minor as u64);
    let fc = IdentView::Numeric(v.patch as u64);
    let a = render_ident(fa);
    let b = render_ident(fb);
    let c = render_ident(fc);
    lemma_dec_digits(v.major as int);
    lemma_dec_digits(v.minor as int);
    lemma_dec_digits(v.patch as int);
    let pre_chars = (match v.pre_release {
        Some(fs) => seq!['-'] + join_fields(fs),
        None => Seq::<char>::empty(),
    });
    let bld_chars = (match v.build {
        Some(fs) => seq!['+'] + join_fields(fs),
        None => Seq::<char>::empty(),
    });
    assert(s == a + seq!['.'] + b + seq!['.'] + c + pre_chars + bld_chars);
    let e1 = a.len() as int;
    let m0 = e1 + 1;
    let e2 = m0 + b.len() as int;
    let p0 = e2 + 1;
    let e3 = p0 + c.len() as int;
    let e4 = e3 + pre_chars.len() as int;
    let end = e4 + bld_chars.len() as int;
    assert(s.len() == end);
    let ft_a = field_token(fa, 0);
    let ft_b = field_token(fb, m0);
    let ft_c = field_token(fc, p0);
    let eoi = TokenView { kind: TokenKind::EndOfInput, position: end, lexeme: Seq::empty() };
    let x5 = seq![ft_a, dot_token(e1), ft_b, dot_token(e2), ft_c];
    // the numeric prefix scans field by field
    assert(s.subrange(0, e1) =~= a);
    assert(s[e1] == '.');
    assert(s.subrange(m0, e2) =~= b);
    assert(s[e2] == '.');
    assert(s.subrange(p0, e3) =~= c);
    lemma_scan_field(s, 0, e1, fa);
    assert(spec_scan_from(s, e1) == cons_token(dot_token(e1), spec_scan_from(s, m0)));
    lemma_scan_field(s, m0, e2, fb);
    assert(spec_scan_from(s, e2) == cons_token(dot_token(e2), spec_scan_from(s, p0)));
    // the parser reads the numeric prefix back
    lemma_num_field_token(v.major as u64, 0);
    lemma_num_field_token(v.minor as u64, m0);
    lemma_num_field_token(v.patch as u64, p0);
    let bs = v.build->Some_0;

            assert(s[e3] == '+');
            lemma_scan_field(s, p0, e3, fc);
            let pl = TokenView { kind: TokenKind::Plus, position: e3, lexeme: seq!['+'] };
            assert(spec_scan_from(s, e3) == cons_token(pl, spec_scan_from(s, e3 + 1)));
            lemma_join_fields_len(bs);
            assert(e3 + 1 + join_fields(bs).len() == end);
            assert(s.subrange(e3 + 1, end) =~= join_fields(bs)) by {
                assert(forall|k: int|
                    0 <= k < join_fields(bs).len() ==> s.subrange(e3 + 1, end)[k] == s[e3 + 1 + k]
                        && s[e3 + 1 + k] == bld_chars[1 + k] && bld_chars[1 + k] == join_fields(
                        bs,
                    )[k]);
            }
            lemma_scan_fields(s, e3 + 1, bs);
            let ftb = fields_tokens(bs, e3 + 1);
            let cnt = fields_token_count(bs);
            lemma_fields_tokens_len(bs, e3 + 1);
            assert(spec_scan_from(s, end) == Ok::<Seq<TokenView>, LexError>(seq![eoi]));
            assert(spec_scan_from(s, e3 + 1) == Ok::<Seq<TokenView>, LexError>(ftb + seq![eoi]));
            let ts = x5 + seq![pl] + ftb + seq![eoi];
            assert(seq![ft_a] + (seq![dot_token(e1)] + (seq![ft_b] + (seq![dot_token(e2)] + (seq![
                ft_c,
            ] + (seq![pl] + (ftb + seq![eoi])))))) =~= ts);
            assert(spec_scan_from(s, 0) == Ok::<Seq<TokenView>, LexError>(ts));
            assert(ts[0] == ft_a && ts[1] == dot_token(e1) && ts[2] == ft_b && ts[3] == dot_token(
                e2,
            ) && ts[4] == ft_c && ts[5] == pl);
            assert(ts.len() == 7 + cnt);
            assert(ts[6 + cnt] == eoi);
            assert(ts.subrange(6, 6 + cnt) =~= ftb) by {
                assert(forall|k: int|
                    0 <= k < cnt ==> ts.subrange(6, 6 + cnt)[k] == ts[6 + k] && ts[6 + k]
                        == ftb[k]);
            }
            lemma_parse_fields_tokens(ts, 6, bs, e3 + 1);
            assert(spec_parse_tokens(ts) == Ok::<SemVerView, ParseError>(
                SemVerView {
                    major: v.major,
                    minor: v.minor,
                    patch: v.patch,
                    pre_release: None,
                    build: Some(bs),
                },
            ));
            assert(SemVerView {
                major: v.major,
                minor: v.minor,
                patch: v.patch,
                pre_release: None,
                build: Some(bs),
            } =~~= v);
}

#[verifier::rlimit(100)]
proof fn lemma_round_trip_both(v: SemVerView)
    requires
        v.wf(),
        v.pre_release is Some,
        v.build is Some,
    ensures
        crate::spec_parse(spec_render(v)) == Ok::<SemVerView, crate::SemVerError>(v),
{
    let s = spec_render(v);
    let fa = IdentView::Numeric(v.major as u64);
    let fb = IdentView::Numeric(v.minor as u64);
    let fc = IdentView::Numeric(v.patch as u64);
    let a = render_ident(fa);
    let b = render_ident(fb);
    let c = render_ident(fc);
    lemma_dec_digits(v.major as int);
    lemma_dec_digits(v.minor as int);
    lemma_dec_digits(v.patch as int);
    let pre_chars = (match v.pre_release {
        Some(fs) => seq!['-'] + join_fields(fs),
        None => Seq::<char>::empty(),
    });
    let bld_chars = (match v.build {
        Some(fs) => seq!['+'] + join_fields(fs),
        None => Seq::<char>::empty(),
    });
    assert(s == a + seq!['.'] + b + seq!['.'] + c + pre_chars + bld_chars);
    let e1 = a.len() as int;
    let m0 = e1 + 1;
    let e2 = m0 + b.len() as int;
    let p0 = e2 + 1;
    let e3 = p0 + c.len() as int;
    let e4 = e3 + pre_chars.len() as int;
    let end = e4 + bld_chars.len() as int;
    assert(s.len() == end);
    let ft_a = field_token(fa, 0);
    let ft_b = field_token(fb, m0);
    let ft_c = field_token(fc, p0);
    let eoi = TokenView { kind: TokenKind::EndOfInput, position: end, lexeme: Seq::empty() };
    let x5 = seq![ft_a, dot_token(e1), ft_b, dot_token(e2), ft_c];
    // the numeric prefix scans field by field
    assert(s.subrange(0, e1) =~= a);
    assert(s[e1] == '.');
    assert(s.subrange(m0, e2) =~= b);
    assert(s[e2] == '.');
    assert(s.subrange(p0, e3) =~= c);
    lemma_scan_field(s, 0, e1, fa);
    assert(spec_scan_from(s, e1) == cons_token(dot_token(e1), spec_scan_from(s, m0)));
    lemma_scan_field(s, m0, e2, fb);
    assert(spec_scan_from(s, e2) == cons_token(dot_token(e2), spec_scan_from(s, p0)));
    // the parser reads the numeric prefix back
    lemma_num_field_token(v.major as u64, 0);
    lemma_num_field_token(v.minor as u64, m0);
    lemma_num_field_token(v.patch as u64, p0);
    let fs = v.pre_release->Some_0;
    let bs = v.build->Some_0;

            assert(s[e3] == '-');
            lemma_scan_field(s, p0, e3, fc);
            let hy = TokenView { kind: TokenKind::Hyphen, position: e3, lexeme: seq!['-'] };
            assert(spec_scan_from(s, e3) == cons_token(hy, spec_scan_from(s, e3 + 1)));
            lemma_join_fields_len(fs);
            lemma_join_fields_len(bs);
            assert(e3 + 1 + join_fields(fs).len() == e4);
            assert(s.subrange(e3 + 1, e4) =~= join_fields(fs)) by {
                assert(forall|k: int|
                    0 <= k < join_fields(fs).len() ==> s.subrange(e3 + 1, e4)[k] == s[e3 + 1 + k]
                        && s[e3 + 1 + k] == pre_chars[1 + k] && pre_chars[1 + k] == join_fields(
                        fs,
                    )[k]);
            }
            assert(s[e4] == '+');
            lemma_scan_fields(s, e3 + 1, fs);
            let pl = TokenView { kind: TokenKind::Plus, position: e4, lexeme: seq!['+'] };
            assert(spec_scan_from(s, e4) == cons_token(pl, spec_scan_from(s, e4 + 1)));
            assert(e4 + 1 + join_fields(bs).len() == end);
            assert(s.subrange(e4 + 1, end) =~= join_fields(bs)) by {
                assert(forall|k: int|
                    0 <= k < join_fields(bs).len() ==> s.subrange(e4 + 1, end)[k] == s[e4 + 1 + k]
                        && s[e4 + 1 + k] == bld_chars[1 + k] && bld_chars[1 + k] == join_fields(
                        bs,
                    )[k]);
            }
            lemma_scan_fields(s, e4 + 1, bs);
            let ftp = fields_tokens(fs, e3 + 1);
            let ftb = fields_tokens(bs, e4 + 1);
            let cntp = fields_token_count(fs);
            let cntb = fields_token_count(bs);
            lemma_fields_tokens_len(fs, e3 + 1);
            lemma_fields_tokens_len(bs, e4 + 1);
            assert(spec_scan_from(s, end) == Ok::<Seq<TokenView>, LexError>(seq![eoi]));
            assert(spec_scan_from(s, e4 + 1) == Ok::<Seq<TokenView>, LexError>(ftb + seq![eoi]));
            assert(spec_scan_from(s, e4) == Ok::<Seq<TokenView>, LexError>(seq![pl] + (ftb + seq![
                eoi,
            ])));
            assert(spec_scan_from(s, e3 + 1) == Ok::<Seq<TokenView>, LexError>(ftp + (seq![pl] + (
            ftb + seq![eoi]))));
            let ts = x5 + seq![hy] + ftp + seq![pl] + ftb + seq![eoi];
            assert(seq![ft_a] + (seq![dot_token(e1)] + (seq![ft_b] + (seq![dot_token(e2)] + (seq![
                ft_c,
            ] + (seq![hy] + (ftp + (seq![pl] + (ftb + seq![eoi])))))))) =~= ts);
            assert(spec_scan_from(s, 0) == Ok::<Seq<TokenView>, LexError>(ts));
            assert(ts[0] == ft_a && ts[1] == dot_token(e1) && ts[2] == ft_b && ts[3] == dot_token(
                e2,
            ) && ts[4] == ft_c && ts[5] == hy);
            assert(ts.len() == 8 + cntp + cntb);
            assert(ts[6 + cntp] == pl);
            assert(ts.subrange(6, 6 + cntp) =~= ftp) by {
                assert(forall|k: int|
                    0 <= k < cntp ==> ts.subrange(6, 6 + cntp)[k] == ts[6 + k] && ts[6 + k]
                        == ftp[k]);
            }
            lemma_parse_fields_tokens(ts, 6, fs, e3 + 1);
            let idx2 = 6 + cntp + 1;
            assert(ts[idx2 + cntb] == eoi);
            assert(ts.subrange(idx2, idx2 + cntb) =~= ftb) by {
                assert(forall|k: int|
                    0 <= k < cntb ==> ts.subrange(idx2, idx2 + cntb)[k] == ts[idx2 + k] && ts[idx2
                        + k] == ftb[k]);
            }
            lemma_parse_fields_tokens(ts, idx2, bs, e4 + 1);
            assert(spec_parse_tokens(ts) == Ok::<SemVerView, ParseError>(
                SemVerView {
                    major: v.major,
                    minor: v.minor,
                    patch: v.patch,
                    pre_release: Some(fs),
                    build: Some(bs),
                },
            ));
            assert(SemVerView {
                major: v.major,
                minor: v.minor,
                patch: v.patch,
                pre_release: Some(fs),
                build: Some(bs),
            } =~~= v);
}

/// Law (round trip): parsing the canonical rendering of any well-formed
/// version yields exactly that version — pre-release and build text
/// included.
pub proof fn lemma_round_trip(v: SemVerView)
    requires
        v.wf(),
    ensures
        crate::spec_parse(spec_render(v)) == Ok::<SemVerView, crate::SemVerError>(v),
{
    match (v.pre_release, v.build) {
        (Option::None, Option::None) => lemma_round_trip_plain(v),
        (Option::Some(_), Option::None) => lemma_round_trip_pre(v),
        (Option::None, Option::Some(_)) => lemma_round_trip_build(v),
        (Option::Some(_), Option::Some(_)) => lemma_round_trip_both(v),
    }
}

} // verus!
