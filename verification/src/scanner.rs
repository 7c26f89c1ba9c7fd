//! The lexical scanner: one left-to-right pass over the input text.

use vstd::prelude::*;
use crate::token::{Token, TokenKind, TokenView, tokens_view};

verus! {

/// A lexical failure: the input holds a byte that belongs to no lexeme class.
#[derive(Clone, Copy, Debug, PartialEq, Eq, Structural)]
pub enum LexError {
    UnexpectedCharacter { position: usize },
}

/// An ASCII decimal digit.
pub open spec fn is_digit(c: char) -> bool {
    '0' <= c && c <= '9'
}

/// An ASCII letter.
pub open spec fn is_letter(c: char) -> bool {
    ('a' <= c && c <= 'z') || ('A' <= c && c <= 'Z')
}

/// A character allowed inside an identifier run: alphanumeric or hyphen.
pub open spec fn is_ident_char(c: char) -> bool {
    is_digit(c) || is_letter(c) || c == '-'
}

/// How many consecutive digits stand in `s` at and after position `i`.
pub open spec fn digit_run_len(s: Seq<char>, i: int) -> nat
    decreases s.len() - i,
{
    if 0 <= i && i < s.len() && is_digit(s[i]) {
        (1 + digit_run_len(s, i + 1)) as nat
    } else {
        0
    }
}

/// How many consecutive identifier characters stand in `s` at and after `i`.
pub open spec fn ident_run_len(s: Seq<char>, i: int) -> nat
    decreases s.len() - i,
{
    if 0 <= i && i < s.len() && is_ident_char(s[i]) {
        (1 + ident_run_len(s, i + 1)) as nat
    } else {
        0
    }
}

/// Clamp an index to the length of `s`; run ends never pass the end, and the
/// clamp keeps the recursion measure of [`spec_scan_from`] visibly bounded.
pub open spec fn clamp(e: int, s: Seq<char>) -> int {
    if e <= s.len() {
        e
    } else {
        s.len() as int
    }
}

/// Prefix a token to a scan result, keeping any error.
pub open spec fn cons_token(t: TokenView, r: Result<Seq<TokenView>, LexError>) -> Result<
    Seq<TokenView>,
    LexError,
> {
    match r {
        Ok(ts) => Ok(seq![t] + ts),
        Err(e) => Err(e),
    }
}

/// What scanning `s` from position `i` onward yields: the token sequence,
/// ending in an `EndOfInput` token, or the first lexical error.
///
/// A maximal digit run is a `Digits` token unless a letter follows it
/// directly, in which case the run extends through alphanumerics and hyphens
/// and is an `Identifier` token; a run starting with a letter is an
/// `Identifier` token; `.`, `-` and `+` are single-character tokens; any
/// other character is a lexical error at its offset.
pub open spec fn spec_scan_from(s: Seq<char>, i: int) -> Result<Seq<TokenView>, LexError>
    decreases s.len() - i,
{
    if !(0 <= i && i < s.len()) {
        Ok(seq![TokenView { kind: TokenKind::EndOfInput, position: i, lexeme: Seq::empty() }])
    } else {
        let c = s[i];
        if c == '.' {
            cons_token(
                TokenView { kind: TokenKind::Dot, position: i, lexeme: seq!['.'] },
                spec_scan_from(s, i + 1),
            )
        } else if c == '-' {
            cons_token(
                TokenView { kind: TokenKind::Hyphen, position: i, lexeme: seq!['-'] },
                spec_scan_from(s, i + 1),
            )
        } else if c == '+' {
            cons_token(
                TokenView { kind: TokenKind::Plus, position: i, lexeme: seq!['+'] },
                spec_scan_from(s, i + 1),
            )
        } else if is_digit(c) {
            let j = clamp(i + digit_run_len(s, i), s);
            if j < s.len() && is_letter(s[j]) {
                let k = clamp(j + ident_run_len(s, j), s);
                cons_token(
                    TokenView {
                        kind: TokenKind::Identifier,
                        position: i,
                        lexeme: s.subrange(i, k),
                    },
                    spec_scan_from(s, k),
                )
            } else {
                cons_token(
                    TokenView { kind: TokenKind::Digits, position: i, lexeme: s.subrange(i, j) },
                    spec_scan_from(s, j),
                )
            }
        } else if is_letter(c) {
            let k = clamp(i + ident_run_len(s, i), s);
            cons_token(
                TokenView { kind: TokenKind::Identifier, position: i, lexeme: s.subrange(i, k) },
                spec_scan_from(s, k),
            )
        } else {
            Err(LexError::UnexpectedCharacter { position: i as usize })
        }
    }
}


/// The characters of a digit run are digits, the run ends at a non-digit or
/// at the end of the text, and it never passes the end.
pub proof fn lemma_digit_run_chars(s: Seq<char>, i: int)
    requires
        0 <= i <= s.len(),
    ensures
        i + digit_run_len(s, i) <= s.len(),
        forall|k: int| i <= k < i + digit_run_len(s, i) ==> is_digit(s[k]),
        i + digit_run_len(s, i) == s.len() || !is_digit(s[i + digit_run_len(s, i)]),
    decreases s.len() - i,
{
    if i < s.len() && is_digit(s[i]) {
        lemma_digit_run_chars(s, i + 1);
    }
}

/// Same facts for an identifier run.
pub proof fn lemma_ident_run_chars(s: Seq<char>, i: int)
    requires
        0 <= i <= s.len(),
    ensures
        i + ident_run_len(s, i) <= s.len(),
        forall|k: int| i <= k < i + ident_run_len(s, i) ==> is_ident_char(s[k]),
        i + ident_run_len(s, i) == s.len() || !is_ident_char(s[i + ident_run_len(s, i)]),
    decreases s.len() - i,
{
    if i < s.len() && is_ident_char(s[i]) {
        lemma_ident_run_chars(s, i + 1);
    }
}

/// A stretch of digits bounded by a non-digit (or the end) is exactly the
/// digit run.
pub proof fn lemma_digit_run_val(s: Seq<char>, b: int, e: int)
    requires
        0 <= b <= e <= s.len(),
        forall|k: int| b <= k < e ==> is_digit(s[k]),
        e == s.len() || !is_digit(s[e]),
    ensures
        digit_run_len(s, b) == e - b,
    decreases e - b,
{
    if b < e {
        assert(is_digit(s[b]));
        lemma_digit_run_val(s, b + 1, e);
    }
}

/// The same characterization for an identifier run.
pub proof fn lemma_ident_run_val(s: Seq<char>, b: int, e: int)
    requires
        0 <= b <= e <= s.len(),
        forall|k: int| b <= k < e ==> is_ident_char(s[k]),
        e == s.len() || !is_ident_char(s[e]),
    ensures
        ident_run_len(s, b) == e - b,
    decreases e - b,
{
    if b < e {
        assert(is_ident_char(s[b]));
        lemma_ident_run_val(s, b + 1, e);
    }
}

/// The shape of every `Identifier` lexeme the scanner can emit: non-empty,
/// identifier characters only, and a letter right after its digit prefix.
pub open spec fn ident_lexeme_shape(s: Seq<char>) -> bool {
    &&& s.len() > 0
    &&& (forall|k: int| 0 <= k < s.len() ==> is_ident_char(s[k]))
    &&& digit_run_len(s, 0) < s.len()
    &&& is_letter(s[digit_run_len(s, 0) as int])
}

/// The shape of every `Digits` lexeme: non-empty and digits only.
pub open spec fn digits_lexeme_shape(s: Seq<char>) -> bool {
    &&& s.len() > 0
    &&& (forall|k: int| 0 <= k < s.len() ==> is_digit(s[k]))
}

/// What each token of a scan satisfies, by kind.
pub open spec fn token_shape(t: TokenView) -> bool {
    match t.kind {
        TokenKind::Digits => digits_lexeme_shape(t.lexeme),
        TokenKind::Identifier => ident_lexeme_shape(t.lexeme),
        TokenKind::Dot => t.lexeme == seq!['.'],
        TokenKind::Hyphen => t.lexeme == seq!['-'],
        TokenKind::Plus => t.lexeme == seq!['+'],
        TokenKind::EndOfInput => t.lexeme.len() == 0,
    }
}

/// A token sequence as the scanner hands it to the parser: non-empty, the
/// end-of-input marker exactly at the end, every token of its kind's shape.
pub open spec fn wf_tokens(ts: Seq<TokenView>) -> bool {
    &&& ts.len() >= 1
    &&& ts[ts.len() - 1].kind == TokenKind::EndOfInput
    &&& (forall|i: int| 0 <= i < ts.len() - 1 ==> ts[i].kind != TokenKind::EndOfInput)
    &&& (forall|i: int| 0 <= i < ts.len() ==> token_shape(#[trigger] ts[i]))
}

/// Every successful scan yields a well-formed token sequence.
pub proof fn lemma_scan_wf(s: Seq<char>, i: int)
    requires
        0 <= i,
    ensures
        spec_scan_from(s, i) matches Ok(ts) ==> wf_tokens(ts),
    decreases s.len() - i,
{
    if !(0 <= i && i < s.len()) {
    } else {
        let c = s[i];
        if c == '.' || c == '-' || c == '+' {
            lemma_scan_wf(s, i + 1);
            if let Ok(rest) = spec_scan_from(s, i + 1) {
                let t = (match spec_scan_from(s, i) {
                    Ok(ts) => ts,
                    Err(_) => Seq::empty(),
                });
                assert(t =~= seq![t[0]] + rest);
                assert(wf_tokens(t));
            }
        } else if is_digit(c) {
            lemma_digit_run_chars(s, i);
            let j = clamp(i + digit_run_len(s, i), s);
            if j < s.len() && is_letter(s[j]) {
                lemma_ident_run_chars(s, j);
                let k = clamp(j + ident_run_len(s, j), s);
                lemma_scan_wf(s, k);
                if let Ok(rest) = spec_scan_from(s, k) {
                    let lex = s.subrange(i, k);
                    assert forall|m: int| 0 <= m < lex.len() implies is_ident_char(lex[m]) by {
                        assert(lex[m] == s[i + m]);
                    }
                    assert(forall|m: int| 0 <= m < j - i ==> is_digit(lex[m]));
                    assert(lex[j - i] == s[j]);
                    assert(!is_digit(lex[j - i]));
                    lemma_digit_run_val(lex, 0, j - i);
                    assert(ident_lexeme_shape(lex));
                    let t = (match spec_scan_from(s, i) {
                        Ok(ts) => ts,
                        Err(_) => Seq::empty(),
                    });
                    assert(t =~= seq![t[0]] + rest);
                    assert(wf_tokens(t));
                }
            } else {
                lemma_scan_wf(s, j);
                if let Ok(rest) = spec_scan_from(s, j) {
                    let lex = s.subrange(i, j);
                    assert(forall|m: int| 0 <= m < lex.len() ==> is_digit(lex[m]));
                    assert(digits_lexeme_shape(lex));
                    let t = (match spec_scan_from(s, i) {
                        Ok(ts) => ts,
                        Err(_) => Seq::empty(),
                    });
                    assert(t =~= seq![t[0]] + rest);
                    assert(wf_tokens(t));
                }
            }
        } else if is_letter(c) {
            lemma_ident_run_chars(s, i);
            let k = clamp(i + ident_run_len(s, i), s);
            lemma_scan_wf(s, k);
            if let Ok(rest) = spec_scan_from(s, k) {
                let lex = s.subrange(i, k);
                assert forall|m: int| 0 <= m < lex.len() implies is_ident_char(lex[m]) by {
                    assert(lex[m] == s[i + m]);
                }
                assert(is_letter(lex[0]));
                assert(digit_run_len(lex, 0) == 0);
                assert(ident_lexeme_shape(lex));
                let t = (match spec_scan_from(s, i) {
                    Ok(ts) => ts,
                    Err(_) => Seq::empty(),
                });
                assert(t =~= seq![t[0]] + rest);
                assert(wf_tokens(t));
            }
        }
    }
}


/// Whether the invariant of the scan loop holds: the tokens emitted so far,
/// followed by whatever scanning yields from `cur` onward, is the scan of the
/// whole text.
pub open spec fn scan_continues(s: Seq<char>, done: Seq<TokenView>, cur: int) -> bool {
    match spec_scan_from(s, cur) {
        Ok(rest) => spec_scan_from(s, 0) == Ok::<Seq<TokenView>, LexError>(done + rest),
        Err(e) => spec_scan_from(s, 0) == Err::<Seq<TokenView>, LexError>(e),
    }
}

/// Decides [`is_digit`].
pub fn ch_is_digit(c: char) -> (b: bool)
    ensures
        b == is_digit(c),
{
    '0' <= c && c <= '9'
}

/// Decides [`is_letter`].
pub fn ch_is_letter(c: char) -> (b: bool)
    ensures
        b == is_letter(c),
{
    ('a' <= c && c <= 'z') || ('A' <= c && c <= 'Z')
}

/// Decides [`is_ident_char`].
pub fn ch_is_ident_char(c: char) -> (b: bool)
    ensures
        b == is_ident_char(c),
{
    ch_is_digit(c) || ch_is_letter(c) || c == '-'
}

/// The scanner: the text under scan and the cursor. Each scan owns an
/// independent cursor; no state is shared between calls on different
/// scanners.
pub struct Scanner {
    source: String,
    current: usize,
}

impl Scanner {
    /// The text this scanner reads.
    pub closed spec fn src(&self) -> Seq<char> {
        self.source@
    }

    /// The cursor: how far scanning has advanced.
    pub closed spec fn cursor(&self) -> int {
        self.current as int
    }

    /// A scanner over `source`, with the cursor at the start.
    pub fn new(source: &str) -> (s: Scanner)
        ensures
            s.src() == source@,
            s.cursor() == 0,
    {
        Scanner { source: source.to_owned(), current: 0 }
    }

    /// Scan the whole text into tokens, ending with an `EndOfInput` token, or
    /// stop at the first byte that fits no lexeme class.
    #[verifier::loop_isolation(false)]
    pub fn scan_tokens(&mut self) -> (r: Result<Vec<Token>, LexError>)
        requires
            old(self).cursor() == 0,
        ensures
            final(self).src() == old(self).src(),
            match r {
                Ok(toks) => spec_scan_from(old(self).src(), 0) == Ok::<Seq<TokenView>, LexError>(
                    tokens_view(toks@),
                ) && wf_tokens(tokens_view(toks@)),
                Err(e) => spec_scan_from(old(self).src(), 0) == Err::<Seq<TokenView>, LexError>(e),
            },
    {
        let ghost s = self.src();
        let mut out: Vec<Token> = Vec::new();
        let n = self.source.as_str().unicode_len();
        while self.current < n
            invariant
                self.src() == s,
                n == s.len(),
                self.current <= n,
                scan_continues(s, tokens_view(out@), self.current as int),
            decreases n - self.current,
        {
            let ghost done = tokens_view(out@);
            let ghost cur = self.current as int;
            let c = self.source.as_str().get_char(self.current);
            if c == '.' || c == '-' || c == '+' {
                let kind = if c == '.' {
                    TokenKind::Dot
                } else if c == '-' {
                    TokenKind::Hyphen
                } else {
                    TokenKind::Plus
                };
                let mut lex: Vec<char> = Vec::new();
                lex.push(c);
                let tok = Token { kind, position: self.current, lexeme: lex };
                proof {
                    assert(tok@.lexeme =~= seq![c]);
                    assert(tokens_view(out@.push(tok)) =~= done + seq![tok@]);
                    if let Ok(rest) = spec_scan_from(s, cur + 1) {
                        assert(spec_scan_from(s, cur) == Ok::<Seq<TokenView>, LexError>(
                            seq![tok@] + rest,
                        ));
                        assert((done + seq![tok@]) + rest =~= done + (seq![tok@] + rest));
                    }
                }
                out.push(tok);
                self.current = self.current + 1;
            } else if ch_is_digit(c) {
                let mut lex: Vec<char> = Vec::new();
                let mut j = self.current;
                while j < n && ch_is_digit(self.source.as_str().get_char(j))
                    invariant
                        self.src() == s,
                        n == s.len(),
                        self.current <= j <= n,
                        self.current < n,
                        lex@ == s.subrange(self.current as int, j as int),
                        forall|k: int| self.current <= k < j ==> is_digit(s[k]),
                    decreases n - j,
                {
                    let cj = self.source.as_str().get_char(j);
                    proof {
                        assert(s.subrange(cur, j + 1) =~= s.subrange(cur, j as int).push(s[j as int]));
                    }
                    lex.push(cj);
                    j = j + 1;
                }
                proof {
                    lemma_digit_run_val(s, cur, j as int);
                }
                if j < n && ch_is_letter(self.source.as_str().get_char(j)) {
                    let ghost jd = j as int;
                    let mut k = j;
                    while k < n && ch_is_ident_char(self.source.as_str().get_char(k))
                        invariant
                            self.src() == s,
                            n == s.len(),
                            jd <= k <= n,
                            self.current < n,
                            self.current as int == cur,
                            lex@ == s.subrange(cur, k as int),
                            forall|m: int| jd <= m < k ==> is_ident_char(s[m]),
                        decreases n - k,
                    {
                        let ck = self.source.as_str().get_char(k);
                        proof {
                            assert(s.subrange(cur, k + 1) =~= s.subrange(cur, k as int).push(
                                s[k as int],
                            ));
                        }
                        lex.push(ck);
                        k = k + 1;
                    }
                    proof {
                        lemma_ident_run_val(s, jd, k as int);
                    }
                    let tok = Token { kind: TokenKind::Identifier, position: self.current, lexeme: lex };
                    proof {
                        assert(tokens_view(out@.push(tok)) =~= done + seq![tok@]);
                        if let Ok(rest) = spec_scan_from(s, k as int) {
                            assert(spec_scan_from(s, cur) == Ok::<Seq<TokenView>, LexError>(
                                seq![tok@] + rest,
                            ));
                            assert((done + seq![tok@]) + rest =~= done + (seq![tok@] + rest));
                        }
                    }
                    out.push(tok);
                    self.current = k;
                } else {
                    let tok = Token { kind: TokenKind::Digits, position: self.current, lexeme: lex };
                    proof {
                        assert(tokens_view(out@.push(tok)) =~= done + seq![tok@]);
                        if let Ok(rest) = spec_scan_from(s, j as int) {
                            assert(spec_scan_from(s, cur) == Ok::<Seq<TokenView>, LexError>(
                                seq![tok@] + rest,
                            ));
                            assert((done + seq![tok@]) + rest =~= done + (seq![tok@] + rest));
                        }
                    }
                    out.push(tok);
                    self.current = j;
                }
            } else if ch_is_letter(c) {
                let mut lex: Vec<char> = Vec::new();
                let mut k = self.current;
                while k < n && ch_is_ident_char(self.source.as_str().get_char(k))
                    invariant
                        self.src() == s,
                        n == s.len(),
                        self.current <= k <= n,
                        self.current < n,
                        self.current as int == cur,
                        lex@ == s.subrange(cur, k as int),
                        forall|m: int| cur <= m < k ==> is_ident_char(s[m]),
                    decreases n - k,
                {
                    let ck = self.source.as_str().get_char(k);
                    proof {
                        assert(s.subrange(cur, k + 1) =~= s.subrange(cur, k as int).push(s[k as int]));
                    }
                    lex.push(ck);
                    k = k + 1;
                }
                proof {
                    lemma_ident_run_val(s, cur, k as int);
                }
                let tok = Token { kind: TokenKind::Identifier, position: self.current, lexeme: lex };
                proof {
                    assert(tokens_view(out@.push(tok)) =~= done + seq![tok@]);
                    if let Ok(rest) = spec_scan_from(s, k as int) {
                        assert(spec_scan_from(s, cur) == Ok::<Seq<TokenView>, LexError>(
                            seq![tok@] + rest,
                        ));
                        assert((done + seq![tok@]) + rest =~= done + (seq![tok@] + rest));
                    }
                }
                out.push(tok);
                self.current = k;
            } else {
                return Err(LexError::UnexpectedCharacter { position: self.current });
            }
        }
        let eoi = Token { kind: TokenKind::EndOfInput, position: self.current, lexeme: Vec::new() };
        proof {
            assert(eoi@.lexeme =~= Seq::<char>::empty());
            assert(tokens_view(out@.push(eoi)) =~= tokens_view(out@) + seq![eoi@]);
            assert(spec_scan_from(s, self.current as int) == Ok::<Seq<TokenView>, LexError>(
                seq![eoi@],
            ));
            lemma_scan_wf(s, 0);
        }
        out.push(eoi);
        Ok(out)
    }
}

/// Scan `text` into its token sequence: the library-level entry to the
/// scanner.
pub fn scan(text: &str) -> (r: Result<Vec<Token>, LexError>)
    ensures
        match r {
            Ok(toks) => spec_scan_from(text@, 0) == Ok::<Seq<TokenView>, LexError>(
                tokens_view(toks@),
            ) && wf_tokens(tokens_view(toks@)),
            Err(e) => spec_scan_from(text@, 0) == Err::<Seq<TokenView>, LexError>(e),
        },
{
    let mut scanner = Scanner::new(text);
    scanner.scan_tokens()
}

} // verus!
