//! The version value and the precedence engine: a strict total order over
//! versions that ignores build metadata.

use vstd::prelude::*;
use crate::scanner::{digits_lexeme_shape, ident_lexeme_shape, is_digit};
use crate::parser::{char_digit, digits_val};

verus! {

/// One dot-separated field of a pre-release or build section: either a
/// number, or a non-empty text of alphanumerics and hyphens.
#[derive(Debug, Clone, PartialEq, Eq)]
pub enum Ident {
    Numeric(u64),
    AlphaNumeric(Vec<char>),
}

/// The mathematical image of a field.
#[verifier::ext_equal]
pub enum IdentView {
    Numeric(u64),
    AlphaNumeric(Seq<char>),
}

impl View for Ident {
    type V = IdentView;

    open spec fn view(&self) -> IdentView {
        match self {
            Ident::Numeric(n) => IdentView::Numeric(*n),
            Ident::AlphaNumeric(s) => IdentView::AlphaNumeric(s@),
        }
    }
}

/// The image of a field sequence.
pub open spec fn idents_view(s: Seq<Ident>) -> Seq<IdentView> {
    s.map_values(|x: Ident| x@)
}

/// The image of an optional field sequence.
pub open spec fn opt_idents_view(o: Option<Vec<Ident>>) -> Option<Seq<IdentView>> {
    match o {
        Some(v) => Some(idents_view(v@)),
        None => None,
    }
}

/// A semantic version: three numeric fields, then an optional pre-release
/// field sequence and an optional build field sequence.
#[derive(Debug, Clone, PartialEq, Eq)]
pub struct SemVer {
    major: u32,
    minor: u32,
    patch: u32,
    pre_release: Option<Vec<Ident>>,
    build: Option<Vec<Ident>>,
}

/// The mathematical image of a version.
#[verifier::ext_equal]
pub struct SemVerView {
    pub major: u32,
    pub minor: u32,
    pub patch: u32,
    pub pre_release: Option<Seq<IdentView>>,
    pub build: Option<Seq<IdentView>>,
}

impl View for SemVer {
    type V = SemVerView;

    closed spec fn view(&self) -> SemVerView {
        SemVerView {
            major: self.major,
            minor: self.minor,
            patch: self.patch,
            pre_release: match self.pre_release {
                Some(v) => Some(idents_view(v@)),
                None => None,
            },
            build: match self.build {
                Some(v) => Some(idents_view(v@)),
                None => None,
            },
        }
    }
}

/// The texts an `AlphaNumeric` field may hold: exactly the lexemes the parser
/// classifies as alphanumeric — an identifier lexeme, or a digit run with a
/// leading zero.
pub open spec fn wf_alpha_text(s: Seq<char>) -> bool {
    ident_lexeme_shape(s) || (digits_lexeme_shape(s) && s.len() > 1 && s[0] == '0')
}

/// A well-formed field.
pub open spec fn wf_ident(f: IdentView) -> bool {
    match f {
        IdentView::Numeric(_) => true,
        IdentView::AlphaNumeric(s) => wf_alpha_text(s),
    }
}

/// A well-formed field sequence: at least one field, all well-formed.
pub open spec fn wf_fields(fs: Seq<IdentView>) -> bool {
    &&& fs.len() >= 1
    &&& forall|i: int| 0 <= i < fs.len() ==> wf_ident(#[trigger] fs[i])
}

impl SemVerView {
    /// The invariant of every validly constructed version.
    pub open spec fn wf(self) -> bool {
        &&& match self.pre_release {
            Some(fs) => wf_fields(fs),
            None => true,
        }
        &&& match self.build {
            Some(fs) => wf_fields(fs),
            None => true,
        }
    }
}

/// The outcome of a precedence comparison.
#[derive(Clone, Copy, Debug, PartialEq, Eq, Structural)]
pub enum Comparison {
    Less,
    Equal,
    Greater,
}

/// The opposite outcome.
pub open spec fn flip(c: Comparison) -> Comparison {
    match c {
        Comparison::Less => Comparison::Greater,
        Comparison::Equal => Comparison::Equal,
        Comparison::Greater => Comparison::Less,
    }
}

/// Byte-lexical order on field texts (all texts are ASCII).
pub open spec fn spec_cmp_chars(a: Seq<char>, b: Seq<char>) -> Comparison
    decreases a.len(),
{
    if a.len() == 0 && b.len() == 0 {
        Comparison::Equal
    } else if a.len() == 0 {
        Comparison::Less
    } else if b.len() == 0 {
        Comparison::Greater
    } else if a.first() < b.first() {
        Comparison::Less
    } else if b.first() < a.first() {
        Comparison::Greater
    } else {
        spec_cmp_chars(a.drop_first(), b.drop_first())
    }
}

/// Order on single fields: numbers by value, texts byte-lexically, and a
/// numeric field always below an alphanumeric one.
pub open spec fn spec_cmp_ident(x: IdentView, y: IdentView) -> Comparison {
    match (x, y) {
        (IdentView::Numeric(n), IdentView::Numeric(m)) => if n < m {
            Comparison::Less
        } else if m < n {
            Comparison::Greater
        } else {
            Comparison::Equal
        },
        (IdentView::Numeric(_), IdentView::AlphaNumeric(_)) => Comparison::Less,
        (IdentView::AlphaNumeric(_), IdentView::Numeric(_)) => Comparison::Greater,
        (IdentView::AlphaNumeric(s), IdentView::AlphaNumeric(t)) => spec_cmp_chars(s, t),
    }
}

/// Order on field sequences: position by position, the shorter sequence
/// lower when one runs out first.
pub open spec fn spec_cmp_idents(a: Seq<IdentView>, b: Seq<IdentView>) -> Comparison
    decreases a.len(),
{
    if a.len() == 0 && b.len() == 0 {
        Comparison::Equal
    } else if a.len() == 0 {
        Comparison::Less
    } else if b.len() == 0 {
        Comparison::Greater
    } else {
        match spec_cmp_ident(a.first(), b.first()) {
            Comparison::Equal => spec_cmp_idents(a.drop_first(), b.drop_first()),
            c => c,
        }
    }
}

/// Order on the pre-release sections: absence ranks above any pre-release.
pub open spec fn spec_cmp_pre(a: Option<Seq<IdentView>>, b: Option<Seq<IdentView>>) -> Comparison {
    match (a, b) {
        (Option::None, Option::None) => Comparison::Equal,
        (Option::None, Option::Some(_)) => Comparison::Greater,
        (Option::Some(_), Option::None) => Comparison::Less,
        (Option::Some(fs), Option::Some(gs)) => spec_cmp_idents(fs, gs),
    }
}

/// The precedence order: major, minor, patch numerically, then the
/// pre-release sections. Build metadata is never consulted.
pub open spec fn spec_cmp(a: SemVerView, b: SemVerView) -> Comparison {
    if a.major < b.major {
        Comparison::Less
    } else if b.major < a.major {
        Comparison::Greater
    } else if a.minor < b.minor {
        Comparison::Less
    } else if b.minor < a.minor {
        Comparison::Greater
    } else if a.patch < b.patch {
        Comparison::Less
    } else if b.patch < a.patch {
        Comparison::Greater
    } else {
        spec_cmp_pre(a.pre_release, b.pre_release)
    }
}

/// A version without its build metadata.
pub open spec fn strip_build(v: SemVerView) -> SemVerView {
    SemVerView { build: None, ..v }
}


/// Decides [`spec_cmp_chars`].
#[verifier::loop_isolation(false)]
pub fn cmp_chars(a: &Vec<char>, b: &Vec<char>) -> (r: Comparison)
    ensures
        r == spec_cmp_chars(a@, b@),
{
    let mut i: usize = 0;
    proof {
        assert(a@.skip(0) =~= a@);
        assert(b@.skip(0) =~= b@);
    }
    while i < a.len() && i < b.len()
        invariant
            i <= a.len(),
            i <= b.len(),
            spec_cmp_chars(a@, b@) == spec_cmp_chars(a@.skip(i as int), b@.skip(i as int)),
        decreases a.len() - i,
    {
        let ca = a[i];
        let cb = b[i];
        proof {
            assert(a@.skip(i as int).first() == a@[i as int]);
            assert(b@.skip(i as int).first() == b@[i as int]);
        }
        if ca < cb {
            return Comparison::Less;
        }
        if cb < ca {
            return Comparison::Greater;
        }
        proof {
            assert(a@.skip(i as int).drop_first() =~= a@.skip(i as int + 1));
            assert(b@.skip(i as int).drop_first() =~= b@.skip(i as int + 1));
        }
        i = i + 1;
    }
    if a.len() == b.len() {
        Comparison::Equal
    } else if a.len() < b.len() {
        Comparison::Less
    } else {
        Comparison::Greater
    }
}

/// Decides [`spec_cmp_ident`].
pub fn cmp_ident(x: &Ident, y: &Ident) -> (r: Comparison)
    ensures
        r == spec_cmp_ident(x@, y@),
{
    match (x, y) {
        (Ident::Numeric(n), Ident::Numeric(m)) => if *n < *m {
            Comparison::Less
        } else if *m < *n {
            Comparison::Greater
        } else {
            Comparison::Equal
        },
        (Ident::Numeric(_), Ident::AlphaNumeric(_)) => Comparison::Less,
        (Ident::AlphaNumeric(_), Ident::Numeric(_)) => Comparison::Greater,
        (Ident::AlphaNumeric(s), Ident::AlphaNumeric(t)) => cmp_chars(s, t),
    }
}

/// Decides [`spec_cmp_idents`].
#[verifier::loop_isolation(false)]
pub fn cmp_idents(a: &Vec<Ident>, b: &Vec<Ident>) -> (r: Comparison)
    ensures
        r == spec_cmp_idents(idents_view(a@), idents_view(b@)),
{
    let ghost av = idents_view(a@);
    let ghost bv = idents_view(b@);
    let mut i: usize = 0;
    proof {
        assert(av.skip(0) =~= av);
        assert(bv.skip(0) =~= bv);
    }
    while i < a.len() && i < b.len()
        invariant
            i <= a.len(),
            i <= b.len(),
            spec_cmp_idents(av, bv) == spec_cmp_idents(av.skip(i as int), bv.skip(i as int)),
        decreases a.len() - i,
    {
        proof {
            assert(av.skip(i as int).first() == a@[i as int]@);
            assert(bv.skip(i as int).first() == b@[i as int]@);
        }
        let c = cmp_ident(&a[i], &b[i]);
        if !matches!(c, Comparison::Equal) {
            return c;
        }
        proof {
            assert(av.skip(i as int).drop_first() =~= av.skip(i as int + 1));
            assert(bv.skip(i as int).drop_first() =~= bv.skip(i as int + 1));
        }
        i = i + 1;
    }
    if a.len() == b.len() {
        Comparison::Equal
    } else if a.len() < b.len() {
        Comparison::Less
    } else {
        Comparison::Greater
    }
}

/// Compare two versions under the precedence order. Build metadata never
/// takes part.
pub fn compare(a: &SemVer, b: &SemVer) -> (r: Comparison)
    ensures
        r == spec_cmp(a@, b@),
{
    if a.major < b.major {
        Comparison::Less
    } else if b.major < a.major {
        Comparison::Greater
    } else if a.minor < b.minor {
        Comparison::Less
    } else if b.minor < a.minor {
        Comparison::Greater
    } else if a.patch < b.patch {
        Comparison::Less
    } else if b.patch < a.patch {
        Comparison::Greater
    } else {
        match (&a.pre_release, &b.pre_release) {
            (Option::None, Option::None) => Comparison::Equal,
            (Option::None, Option::Some(_)) => Comparison::Greater,
            (Option::Some(_), Option::None) => Comparison::Less,
            (Option::Some(fs), Option::Some(gs)) => cmp_idents(fs, gs),
        }
    }
}

impl SemVer {
    /// A version assembled from already validated parts.
    pub(crate) fn from_parts(
        major: u32,
        minor: u32,
        patch: u32,
        pre_release: Option<Vec<Ident>>,
        build: Option<Vec<Ident>>,
    ) -> (v: SemVer)
        ensures
            v@ == (SemVerView {
                major,
                minor,
                patch,
                pre_release: opt_idents_view(pre_release),
                build: opt_idents_view(build),
            }),
    {
        SemVer { major, minor, patch, pre_release, build }
    }

    /// A version `major.minor.patch` with no pre-release and no build section.
    pub fn new(major: u32, minor: u32, patch: u32) -> (v: SemVer)
        ensures
            v@ == (SemVerView { major, minor, patch, pre_release: None, build: None }),
    {
        SemVer { major, minor, patch, pre_release: None, build: None }
    }

    /// Raise the major field; the lower fields and both optional sections no
    /// longer carry meaning and are reset.
    pub fn inc_major(&mut self)
        requires
            old(self)@.major < u32::MAX,
        ensures
            final(self)@ == (SemVerView {
                major: (old(self)@.major + 1) as u32,
                minor: 0,
                patch: 0,
                pre_release: None,
                build: None,
            }),
    {
        self.major = self.major + 1;
        self.minor = 0;
        self.patch = 0;
        self.pre_release = None;
        self.build = None;
    }

    /// Raise the minor field, reset the patch field, drop both optional
    /// sections.
    pub fn inc_minor(&mut self)
        requires
            old(self)@.minor < u32::MAX,
        ensures
            final(self)@ == (SemVerView {
                major: old(self)@.major,
                minor: (old(self)@.minor + 1) as u32,
                patch: 0,
                pre_release: None,
                build: None,
            }),
    {
        self.minor = self.minor + 1;
        self.patch = 0;
        self.pre_release = None;
        self.build = None;
    }

    /// Raise the patch field, drop both optional sections.
    pub fn inc_patch(&mut self)
        requires
            old(self)@.patch < u32::MAX,
        ensures
            final(self)@ == (SemVerView {
                major: old(self)@.major,
                minor: old(self)@.minor,
                patch: (old(self)@.patch + 1) as u32,
                pre_release: None,
                build: None,
            }),
    {
        self.patch = self.patch + 1;
        self.pre_release = None;
        self.build = None;
    }

    /// Component-wise merge: each numeric field is the sum of the two
    /// versions' fields; the optional sections are dropped. This is no
    /// operation of the semantic-versioning order — it is offered under its
    /// own name so that it cannot be mistaken for one.
    pub fn component_sum(self, rhs: SemVer) -> (v: SemVer)
        requires
            self@.major + rhs@.major <= u32::MAX,
            self@.minor + rhs@.minor <= u32::MAX,
            self@.patch + rhs@.patch <= u32::MAX,
        ensures
            v@ == (SemVerView {
                major: (self@.major + rhs@.major) as u32,
                minor: (self@.minor + rhs@.minor) as u32,
                patch: (self@.patch + rhs@.patch) as u32,
                pre_release: None,
                build: None,
            }),
    {
        SemVer {
            major: self.major + rhs.major,
            minor: self.minor + rhs.minor,
            patch: self.patch + rhs.patch,
            pre_release: None,
            build: None,
        }
    }
}

impl Default for SemVer {
    /// The default version is `0.1.0`: the first unstable release.
    fn default() -> (v: SemVer)
        ensures
            v@ == (SemVerView { major: 0, minor: 1, patch: 0, pre_release: None, build: None }),
    {
        SemVer::new(0, 1, 0)
    }
}


proof fn lemma_cmp_chars_eq(a: Seq<char>, b: Seq<char>)
    ensures
        (spec_cmp_chars(a, b) == Comparison::Equal) <==> (a == b),
    decreases a.len(),
{
    if a.len() == 0 && b.len() == 0 {
        assert(a =~= b);
    } else if a.len() == 0 || b.len() == 0 {
        assert(a.len() != b.len());
    } else {
        lemma_cmp_chars_eq(a.drop_first(), b.drop_first());
        if a.first() == b.first() {
            if a.drop_first() == b.drop_first() {
                assert forall|i: int| 0 <= i < a.len() implies a[i] == b[i] by {
                    if i > 0 {
                        assert(a[i] == a.drop_first()[i - 1]);
                        assert(b[i] == b.drop_first()[i - 1]);
                    }
                }
                assert(a =~= b);
            } else {
                if a == b {
                    assert(a.drop_first() =~= b.drop_first());
                }
            }
        }
    }
}

proof fn lemma_cmp_chars_flip(a: Seq<char>, b: Seq<char>)
    ensures
        spec_cmp_chars(b, a) == flip(spec_cmp_chars(a, b)),
    decreases a.len(),
{
    if a.len() > 0 && b.len() > 0 && a.first() == b.first() {
        lemma_cmp_chars_flip(a.drop_first(), b.drop_first());
    }
}

proof fn lemma_cmp_chars_trans(a: Seq<char>, b: Seq<char>, c: Seq<char>)
    requires
        spec_cmp_chars(a, b) == Comparison::Less,
        spec_cmp_chars(b, c) == Comparison::Less,
    ensures
        spec_cmp_chars(a, c) == Comparison::Less,
    decreases a.len(),
{
    if a.len() == 0 {
        assert(c.len() > 0);
    } else {
        assert(b.len() > 0);
        assert(c.len() > 0);
        if a.first() == b.first() && b.first() == c.first() {
            lemma_cmp_chars_trans(a.drop_first(), b.drop_first(), c.drop_first());
        }
    }
}

proof fn lemma_cmp_ident_eq(x: IdentView, y: IdentView)
    ensures
        (spec_cmp_ident(x, y) == Comparison::Equal) <==> (x == y),
{
    match (x, y) {
        (IdentView::AlphaNumeric(s), IdentView::AlphaNumeric(t)) => {
            lemma_cmp_chars_eq(s, t);
        },
        _ => {},
    }
}

proof fn lemma_cmp_ident_flip(x: IdentView, y: IdentView)
    ensures
        spec_cmp_ident(y, x) == flip(spec_cmp_ident(x, y)),
{
    match (x, y) {
        (IdentView::AlphaNumeric(s), IdentView::AlphaNumeric(t)) => {
            lemma_cmp_chars_flip(s, t);
        },
        _ => {},
    }
}

proof fn lemma_cmp_ident_trans(x: IdentView, y: IdentView, z: IdentView)
    requires
        spec_cmp_ident(x, y) == Comparison::Less,
        spec_cmp_ident(y, z) == Comparison::Less,
    ensures
        spec_cmp_ident(x, z) == Comparison::Less,
{
    match (x, y, z) {
        (IdentView::AlphaNumeric(s), IdentView::AlphaNumeric(t), IdentView::AlphaNumeric(u)) => {
            lemma_cmp_chars_trans(s, t, u);
        },
        _ => {},
    }
}

proof fn lemma_cmp_idents_eq(a: Seq<IdentView>, b: Seq<IdentView>)
    ensures
        (spec_cmp_idents(a, b) == Comparison::Equal) <==> (a == b),
    decreases a.len(),
{
    if a.len() == 0 && b.len() == 0 {
        assert(a =~= b);
    } else if a.len() == 0 || b.len() == 0 {
        assert(a.len() != b.len());
    } else {
        lemma_cmp_ident_eq(a.first(), b.first());
        lemma_cmp_idents_eq(a.drop_first(), b.drop_first());
        if a.first() == b.first() {
            if a.drop_first() == b.drop_first() {
                assert forall|i: int| 0 <= i < a.len() implies a[i] == b[i] by {
                    if i > 0 {
                        assert(a[i] == a.drop_first()[i - 1]);
                        assert(b[i] == b.drop_first()[i - 1]);
                    }
                }
                assert(a =~= b);
            } else {
                if a == b {
                    assert(a.drop_first() =~= b.drop_first());
                }
            }
        } else {
            if a == b {
                assert(a.first() == b.first());
            }
        }
    }
}

proof fn lemma_cmp_idents_flip(a: Seq<IdentView>, b: Seq<IdentView>)
    ensures
        spec_cmp_idents(b, a) == flip(spec_cmp_idents(a, b)),
    decreases a.len(),
{
    if a.len() > 0 && b.len() > 0 {
        lemma_cmp_ident_flip(a.first(), b.first());
        if spec_cmp_ident(a.first(), b.first()) == Comparison::Equal {
            lemma_cmp_idents_flip(a.drop_first(), b.drop_first());
        }
    }
}

proof fn lemma_cmp_idents_trans(a: Seq<IdentView>, b: Seq<IdentView>, c: Seq<IdentView>)
    requires
        spec_cmp_idents(a, b) == Comparison::Less,
        spec_cmp_idents(b, c) == Comparison::Less,
    ensures
        spec_cmp_idents(a, c) == Comparison::Less,
    decreases a.len(),
{
    if a.len() == 0 {
        assert(c.len() > 0);
    } else {
        assert(b.len() > 0);
        assert(c.len() > 0);
        lemma_cmp_ident_eq(a.first(), b.first());
        lemma_cmp_ident_eq(b.first(), c.first());
        match (spec_cmp_ident(a.first(), b.first()), spec_cmp_ident(b.first(), c.first())) {
            (Comparison::Equal, Comparison::Equal) => {
                lemma_cmp_idents_trans(a.drop_first(), b.drop_first(), c.drop_first());
            },
            (Comparison::Equal, Comparison::Less) => {
                assert(a.first() == b.first());
            },
            (Comparison::Less, Comparison::Equal) => {
                assert(b.first() == c.first());
            },
            (Comparison::Less, Comparison::Less) => {
                lemma_cmp_ident_trans(a.first(), b.first(), c.first());
            },
            _ => {},
        }
    }
}

/// Law: build metadata never affects precedence — comparing two versions is
/// comparing them with their build sections removed.
pub proof fn lemma_compare_ignores_build(a: SemVerView, b: SemVerView)
    ensures
        spec_cmp(a, b) == spec_cmp(strip_build(a), strip_build(b)),
{
}

/// Law: two versions compare as `Equal` exactly when they agree on every
/// field the order consults — everything except build metadata.
pub proof fn lemma_compare_equal_iff(a: SemVerView, b: SemVerView)
    ensures
        (spec_cmp(a, b) == Comparison::Equal) <==> (strip_build(a) == strip_build(b)),
{
    match (a.pre_release, b.pre_release) {
        (Option::Some(fs), Option::Some(gs)) => {
            lemma_cmp_idents_eq(fs, gs);
        },
        _ => {},
    }
    if spec_cmp(a, b) == Comparison::Equal {
        assert(strip_build(a) =~~= strip_build(b));
    }
}

/// Law: the precedence order is reflexive — every version equals itself.
pub proof fn lemma_compare_reflexive(a: SemVerView)
    ensures
        spec_cmp(a, a) == Comparison::Equal,
{
    lemma_compare_equal_iff(a, a);
}

/// Law: the precedence order is antisymmetric — swapping the operands flips
/// the outcome.
pub proof fn lemma_compare_antisymmetric(a: SemVerView, b: SemVerView)
    ensures
        spec_cmp(b, a) == flip(spec_cmp(a, b)),
{
    match (a.pre_release, b.pre_release) {
        (Option::Some(fs), Option::Some(gs)) => {
            lemma_cmp_idents_flip(fs, gs);
        },
        _ => {},
    }
}

/// Law: the precedence order is transitive, both strictly and under
/// equality on either side.
pub proof fn lemma_compare_transitive(a: SemVerView, b: SemVerView, c: SemVerView)
    ensures
        spec_cmp(a, b) == Comparison::Less && spec_cmp(b, c) == Comparison::Less ==> spec_cmp(
            a,
            c,
        ) == Comparison::Less,
        spec_cmp(a, b) == Comparison::Equal && spec_cmp(b, c) == Comparison::Equal ==> spec_cmp(
            a,
            c,
        ) == Comparison::Equal,
        spec_cmp(a, b) == Comparison::Less && spec_cmp(b, c) == Comparison::Equal ==> spec_cmp(
            a,
            c,
        ) == Comparison::Less,
        spec_cmp(a, b) == Comparison::Equal && spec_cmp(b, c) == Comparison::Less ==> spec_cmp(
            a,
            c,
        ) == Comparison::Less,
{
    lemma_compare_equal_iff(a, b);
    lemma_compare_equal_iff(b, c);
    lemma_compare_equal_iff(a, c);
    lemma_compare_ignores_build(a, b);
    lemma_compare_ignores_build(b, c);
    lemma_compare_ignores_build(a, c);
    if spec_cmp(a, b) == Comparison::Equal {
        assert(spec_cmp(a, c) == spec_cmp(strip_build(a), strip_build(c)));
        assert(spec_cmp(a, c) == spec_cmp(b, c));
    }
    if spec_cmp(b, c) == Comparison::Equal {
        assert(spec_cmp(a, c) == spec_cmp(a, b));
    }
    if spec_cmp(a, b) == Comparison::Less && spec_cmp(b, c) == Comparison::Less {
        if a.major == b.major && b.major == c.major && a.minor == b.minor && b.minor == c.minor
            && a.patch == b.patch && b.patch == c.patch {
            match (a.pre_release, b.pre_release, c.pre_release) {
                (Option::Some(fs), Option::Some(gs), Option::Some(hs)) => {
                    lemma_cmp_idents_trans(fs, gs, hs);
                },
                _ => {},
            }
        }
    }
}


/// The character of one decimal digit.
pub open spec fn digit_char(d: int) -> char {
    if d == 0 {
        '0'
    } else if d == 1 {
        '1'
    } else if d == 2 {
        '2'
    } else if d == 3 {
        '3'
    } else if d == 4 {
        '4'
    } else if d == 5 {
        '5'
    } else if d == 6 {
        '6'
    } else if d == 7 {
        '7'
    } else if d == 8 {
        '8'
    } else {
        '9'
    }
}

/// The decimal rendering of a non-negative number: no leading zero, except
/// that zero itself is `0`.
pub open spec fn dec_digits(n: int) -> Seq<char>
    decreases n,
{
    if n < 10 {
        seq![digit_char(n)]
    } else {
        dec_digits(n / 10).push(digit_char(n % 10))
    }
}

/// What the decimal rendering satisfies: digits only, denoting `n`, with a
/// leading zero exactly for `n == 0`.
pub proof fn lemma_dec_digits(n: int)
    requires
        n >= 0,
    ensures
        dec_digits(n).len() >= 1,
        forall|k: int| 0 <= k < dec_digits(n).len() ==> is_digit(dec_digits(n)[k]),
        digits_val(dec_digits(n)) == n,
        (dec_digits(n)[0] == '0') <==> (n == 0),
        n == 0 ==> dec_digits(n).len() == 1,
    decreases n,
{
    if n < 10 {
        let s = dec_digits(n);
        assert(s.drop_last() =~= Seq::<char>::empty());
        assert(digits_val(Seq::<char>::empty()) == 0);
        assert(s.last() == digit_char(n));
        assert(char_digit(digit_char(n)) == n);
    } else {
        vstd::arithmetic::div_mod::lemma_fundamental_div_mod(n, 10);
        vstd::arithmetic::div_mod::lemma_mod_division_less_than_divisor(n, 10);
        assert(n / 10 >= 1);
        lemma_dec_digits(n / 10);
        let s = dec_digits(n / 10);
        let c = digit_char(n % 10);
        assert(s.push(c).drop_last() =~= s);
        assert(char_digit(c) == n % 10);
        assert(digits_val(s.push(c)) == (n / 10) * 10 + n % 10);
        assert(s.push(c)[0] == s[0]);
    }
}

/// The rendering of one field: the number in decimal, or the text itself.
pub open spec fn render_ident(f: IdentView) -> Seq<char> {
    match f {
        IdentView::Numeric(n) => dec_digits(n as int),
        IdentView::AlphaNumeric(s) => s,
    }
}

/// Fields joined by dots.
pub open spec fn join_fields(fs: Seq<IdentView>) -> Seq<char>
    decreases fs.len(),
{
    if fs.len() == 0 {
        Seq::empty()
    } else if fs.len() == 1 {
        render_ident(fs[0])
    } else {
        render_ident(fs[0]) + seq!['.'] + join_fields(fs.drop_first())
    }
}

/// Appending one more field to a joined sequence.
pub proof fn lemma_join_fields_push(fs: Seq<IdentView>, f: IdentView)
    ensures
        join_fields(fs.push(f)) == if fs.len() == 0 {
            render_ident(f)
        } else {
            join_fields(fs) + seq!['.'] + render_ident(f)
        },
    decreases fs.len(),
{
    if fs.len() == 0 {
        assert(fs.push(f)[0] == f);
    } else {
        assert(fs.push(f).drop_first() =~= fs.drop_first().push(f));
        lemma_join_fields_push(fs.drop_first(), f);
        if fs.len() == 1 {
            assert(fs.push(f)[0] == fs[0]);
        } else {
            assert(render_ident(fs[0]) + seq!['.'] + (join_fields(fs.drop_first()) + seq![
                '.',
            ] + render_ident(f)) =~= (render_ident(fs[0]) + seq!['.'] + join_fields(
                fs.drop_first(),
            )) + seq!['.'] + render_ident(f));
        }
    }
}

/// The canonical rendering: `major.minor.patch`, then `-` and the joined
/// pre-release fields if present, then `+` and the joined build fields if
/// present.
pub open spec fn spec_render(v: SemVerView) -> Seq<char> {
    dec_digits(v.major as int) + seq!['.'] + dec_digits(v.minor as int) + seq!['.'] + dec_digits(
        v.patch as int,
    ) + (match v.pre_release {
        Some(fs) => seq!['-'] + join_fields(fs),
        None => Seq::empty(),
    }) + (match v.build {
        Some(fs) => seq!['+'] + join_fields(fs),
        None => Seq::empty(),
    })
}

/// The character of one decimal digit, executably.
fn digit_char_exec(d: u64) -> (c: char)
    requires
        d < 10,
    ensures
        c == digit_char(d as int),
{
    if d == 0 {
        '0'
    } else if d == 1 {
        '1'
    } else if d == 2 {
        '2'
    } else if d == 3 {
        '3'
    } else if d == 4 {
        '4'
    } else if d == 5 {
        '5'
    } else if d == 6 {
        '6'
    } else if d == 7 {
        '7'
    } else if d == 8 {
        '8'
    } else {
        '9'
    }
}

/// Append the decimal rendering of `n`.
fn push_digits(out: &mut Vec<char>, n: u64)
    ensures
        final(out)@ == old(out)@ + dec_digits(n as int),
    decreases n,
{
    if n < 10 {
        out.push(digit_char_exec(n));
        proof {
            assert(final(out)@ =~= old(out)@ + dec_digits(n as int));
        }
    } else {
        push_digits(out, n / 10);
        out.push(digit_char_exec(n % 10));
        proof {
            assert(final(out)@ =~= old(out)@ + dec_digits(n as int));
        }
    }
}

/// Append the rendering of one field.
#[verifier::loop_isolation(false)]
fn push_ident(out: &mut Vec<char>, f: &Ident)
    ensures
        final(out)@ == old(out)@ + render_ident(f@),
{
    match f {
        Ident::Numeric(n) => push_digits(out, *n),
        Ident::AlphaNumeric(s) => {
            let mut i: usize = 0;
            proof {
                assert(old(out)@ + s@.take(0) =~= old(out)@);
            }
            while i < s.len()
                invariant
                    i <= s@.len(),
                    out@ == old(out)@ + s@.take(i as int),
                decreases s@.len() - i,
            {
                proof {
                    assert((old(out)@ + s@.take(i as int)).push(s@[i as int]) =~= old(out)@
                        + s@.take(i as int + 1));
                }
                out.push(s[i]);
                i = i + 1;
            }
            proof {
                assert(s@.take(s@.len() as int) =~= s@);
            }
        },
    }
}

/// Append the fields joined by dots.
#[verifier::loop_isolation(false)]
fn push_fields(out: &mut Vec<char>, fs: &Vec<Ident>)
    ensures
        final(out)@ == old(out)@ + join_fields(idents_view(fs@)),
{
    let ghost fv = idents_view(fs@);
    let mut i: usize = 0;
    proof {
        assert(old(out)@ + join_fields(fv.take(0)) =~= old(out)@);
    }
    while i < fs.len()
        invariant
            i <= fs@.len(),
            fv == idents_view(fs@),
            out@ == old(out)@ + join_fields(fv.take(i as int)),
        decreases fs@.len() - i,
    {
        if i > 0 {
            out.push('.');
        }
        push_ident(out, &fs[i]);
        proof {
            assert(fv.take(i as int).push(fv[i as int]) =~= fv.take(i as int + 1));
            lemma_join_fields_push(fv.take(i as int), fv[i as int]);
            assert(fv[i as int] == fs@[i as int]@);
            if i == 0 {
                assert(out@ =~= old(out)@ + join_fields(fv.take(i as int + 1)));
            } else {
                assert(out@ =~= old(out)@ + join_fields(fv.take(i as int + 1)));
            }
        }
        i = i + 1;
    }
    proof {
        assert(fv.take(fs@.len() as int) =~= fv);
    }
}

/// Relies on `String`'s `FromIterator` implementation over `char`:
/// collecting characters yields the string of exactly those characters, in
/// order.
#[verifier::external_body]
fn chars_to_string(v: &Vec<char>) -> (r: String)
    ensures
        r@ == v@,
{
    v.iter().collect()
}

impl SemVer {
    /// The canonical rendering of this version. Parsing it back yields an
    /// equal version.
    pub fn to_string(&self) -> (r: String)
        ensures
            r@ == spec_render(self@),
    {
        let mut out: Vec<char> = Vec::new();
        push_digits(&mut out, self.major as u64);
        out.push('.');
        push_digits(&mut out, self.minor as u64);
        out.push('.');
        push_digits(&mut out, self.patch as u64);
        let ghost head = out@;
        proof {
            assert(head =~= dec_digits(self@.major as int) + seq!['.'] + dec_digits(
                self@.minor as int,
            ) + seq!['.'] + dec_digits(self@.patch as int));
        }
        if let Some(fs) = &self.pre_release {
            out.push('-');
            push_fields(&mut out, fs);
            proof {
                assert(out@ =~= head + (seq!['-'] + join_fields(idents_view(fs@))));
            }
        } else {
            proof {
                assert(out@ =~= head + Seq::<char>::empty());
            }
        }
        let ghost mid = out@;
        if let Some(fs) = &self.build {
            out.push('+');
            push_fields(&mut out, fs);
            proof {
                assert(out@ =~= mid + (seq!['+'] + join_fields(idents_view(fs@))));
            }
        } else {
            proof {
                assert(out@ =~= mid + Seq::<char>::empty());
            }
        }
        proof {
            assert(out@ =~= spec_render(self@));
        }
        chars_to_string(&out)
    }
}


impl SemVer {
    /// Replace the pre-release section with `pre_release`, validated against
    /// the same field grammar the parser enforces.
    pub fn with_pre_release(self, pre_release: &str) -> (r: Result<SemVer, crate::SemVerError>)
        ensures
            match r {
                Ok(v) => crate::parser::spec_validate_fields(pre_release@) matches Ok(fs) && v@
                    == (SemVerView { pre_release: Some(fs), ..self@ }) && (self@.wf() ==> v@.wf()),
                Err(e) => crate::parser::spec_validate_fields(pre_release@) == Err::<
                    Seq<IdentView>,
                    crate::SemVerError,
                >(e),
            },
    {
        match crate::parser::validate_fields(pre_release) {
            Ok(fs) => Ok(SemVer { pre_release: Some(fs), ..self }),
            Err(e) => Err(e),
        }
    }

    /// Replace the build section with `build`, validated against the same
    /// field grammar the parser enforces.
    pub fn with_build(self, build: &str) -> (r: Result<SemVer, crate::SemVerError>)
        ensures
            match r {
                Ok(v) => crate::parser::spec_validate_fields(build@) matches Ok(fs) && v@
                    == (SemVerView { build: Some(fs), ..self@ }) && (self@.wf() ==> v@.wf()),
                Err(e) => crate::parser::spec_validate_fields(build@) == Err::<
                    Seq<IdentView>,
                    crate::SemVerError,
                >(e),
            },
    {
        match crate::parser::validate_fields(build) {
            Ok(fs) => Ok(SemVer { build: Some(fs), ..self }),
            Err(e) => Err(e),
        }
    }
}

} // verus!
