//! Semantic versions: their model, their precedence order and their parsing.
use crate::SliceError;
use core::cmp::Ordering;
use vstd::prelude::*;

verus! {

/// A pre-release or build identifier.
#[derive(Clone, Debug)]
pub enum Identifier {
    Numeric(u64),
    AlphaNumeric(String),
}

/// Mathematical model of an [`Identifier`].
pub enum IdentifierView {
    Numeric(u64),
    AlphaNumeric(Seq<char>),
}

impl View for Identifier {
    type V = IdentifierView;

    open spec fn view(&self) -> IdentifierView {
        match self {
            Identifier::Numeric(n) => IdentifierView::Numeric(*n),
            Identifier::AlphaNumeric(s) => IdentifierView::AlphaNumeric(s@),
        }
    }
}

/// A semantic version: `major.minor.patch[-pre][+build]`.
#[derive(Clone, Debug)]
pub struct Version {
    pub major: u64,
    pub minor: u64,
    pub patch: u64,
    pub pre: Vec<Identifier>,
    pub build: Vec<Identifier>,
}

/// Mathematical model of a [`Version`].
pub struct VersionView {
    pub major: u64,
    pub minor: u64,
    pub patch: u64,
    pub pre: Seq<IdentifierView>,
    pub build: Seq<IdentifierView>,
}

pub open spec fn identifiers_view(v: Seq<Identifier>) -> Seq<IdentifierView> {
    v.map_values(|i: Identifier| i@)
}

impl View for Version {
    type V = VersionView;

    open spec fn view(&self) -> VersionView {
        VersionView {
            major: self.major,
            minor: self.minor,
            patch: self.patch,
            pre: identifiers_view(self.pre@),
            build: identifiers_view(self.build@),
        }
    }
}

/// Three-way comparison of two integers: -1, 0 or 1.
pub open spec fn int_cmp(a: int, b: int) -> int {
    if a < b {
        -1
    } else if a == b {
        0
    } else {
        1
    }
}

/// Lexicographic comparison of two character sequences.
pub open spec fn chars_cmp(a: Seq<char>, b: Seq<char>) -> int
    decreases a.len(),
{
    if a.len() == 0 && b.len() == 0 {
        0
    } else if a.len() == 0 {
        -1
    } else if b.len() == 0 {
        1
    } else if a[0] < b[0] {
        -1
    } else if a[0] > b[0] {
        1
    } else {
        chars_cmp(a.drop_first(), b.drop_first())
    }
}

/// Numeric identifiers rank below alphanumeric ones; each kind compares within itself.
pub open spec fn identifier_cmp(a: IdentifierView, b: IdentifierView) -> int {
    match (a, b) {
        (IdentifierView::Numeric(x), IdentifierView::Numeric(y)) => int_cmp(x as int, y as int),
        (IdentifierView::Numeric(_), IdentifierView::AlphaNumeric(_)) => -1,
        (IdentifierView::AlphaNumeric(_), IdentifierView::Numeric(_)) => 1,
        (IdentifierView::AlphaNumeric(x), IdentifierView::AlphaNumeric(y)) => chars_cmp(x, y),
    }
}

/// Lexicographic comparison of identifier lists.
pub open spec fn identifiers_cmp(a: Seq<IdentifierView>, b: Seq<IdentifierView>) -> int
    decreases a.len(),
{
    if a.len() == 0 && b.len() == 0 {
        0
    } else if a.len() == 0 {
        -1
    } else if b.len() == 0 {
        1
    } else if identifier_cmp(a[0], b[0]) != 0 {
        identifier_cmp(a[0], b[0])
    } else {
        identifiers_cmp(a.drop_first(), b.drop_first())
    }
}

/// A release (no pre-release identifiers) ranks above every pre-release.
pub open spec fn pre_cmp(a: Seq<IdentifierView>, b: Seq<IdentifierView>) -> int {
    if a.len() == 0 && b.len() == 0 {
        0
    } else if a.len() == 0 {
        1
    } else if b.len() == 0 {
        -1
    } else {
        identifiers_cmp(a, b)
    }
}

/// Precedence of two versions: major, minor, patch, then pre-release; build metadata is ignored.
pub open spec fn version_cmp(a: VersionView, b: VersionView) -> int {
    if a.major != b.major {
        int_cmp(a.major as int, b.major as int)
    } else if a.minor != b.minor {
        int_cmp(a.minor as int, b.minor as int)
    } else if a.patch != b.patch {
        int_cmp(a.patch as int, b.patch as int)
    } else {
        pre_cmp(a.pre, b.pre)
    }
}

pub open spec fn version_lt(a: VersionView, b: VersionView) -> bool {
    version_cmp(a, b) < 0
}

pub open spec fn version_le(a: VersionView, b: VersionView) -> bool {
    version_cmp(a, b) <= 0
}

/// Two versions of equal precedence: all but the build metadata agree.
pub open spec fn same_precedence(a: VersionView, b: VersionView) -> bool {
    a.major == b.major && a.minor == b.minor && a.patch == b.patch && a.pre == b.pre
}

pub proof fn lemma_chars_cmp(a: Seq<char>, b: Seq<char>, c: Seq<char>)
    ensures
        chars_cmp(a, b) == -chars_cmp(b, a),
        chars_cmp(a, b) == 0 <==> a == b,
        -1 <= chars_cmp(a, b) <= 1,
        chars_cmp(a, b) < 0 && chars_cmp(b, c) < 0 ==> chars_cmp(a, c) < 0,
    decreases a.len(),
{
    if a.len() > 0 && b.len() > 0 && c.len() > 0 {
        lemma_chars_cmp(a.drop_first(), b.drop_first(), c.drop_first());
    } else if a.len() > 0 && b.len() > 0 {
        lemma_chars_cmp(a.drop_first(), b.drop_first(), c);
    }
    if a.len() == 0 && b.len() == 0 {
        assert(a =~= b);
    }
    if a.len() > 0 && b.len() > 0 && a[0] == b[0] && a.drop_first() == b.drop_first() {
        assert(a =~= seq![a[0]] + a.drop_first());
        assert(b =~= seq![b[0]] + b.drop_first());
    }
}

proof fn lemma_identifier_cmp(a: IdentifierView, b: IdentifierView, c: IdentifierView)
    ensures
        identifier_cmp(a, b) == -identifier_cmp(b, a),
        identifier_cmp(a, b) == 0 <==> a == b,
        -1 <= identifier_cmp(a, b) <= 1,
        identifier_cmp(a, b) < 0 && identifier_cmp(b, c) < 0 ==> identifier_cmp(a, c) < 0,
{
    match (a, b, c) {
        (
            IdentifierView::AlphaNumeric(x),
            IdentifierView::AlphaNumeric(y),
            IdentifierView::AlphaNumeric(z),
        ) => {
            lemma_chars_cmp(x, y, z);
        },
        (IdentifierView::AlphaNumeric(x), IdentifierView::AlphaNumeric(y), _) => {
            lemma_chars_cmp(x, y, x);
        },
        _ => {},
    }
}

proof fn lemma_identifiers_cmp(a: Seq<IdentifierView>, b: Seq<IdentifierView>, c: Seq<IdentifierView>)
    ensures
        identifiers_cmp(a, b) == -identifiers_cmp(b, a),
        identifiers_cmp(a, b) == 0 <==> a == b,
        -1 <= identifiers_cmp(a, b) <= 1,
        identifiers_cmp(a, b) < 0 && identifiers_cmp(b, c) < 0 ==> identifiers_cmp(a, c) < 0,
    decreases a.len(),
{
    if a.len() > 0 && b.len() > 0 && c.len() > 0 {
        lemma_identifier_cmp(a[0], b[0], c[0]);
        lemma_identifier_cmp(a[0], c[0], b[0]);
        lemma_identifier_cmp(b[0], c[0], a[0]);
        lemma_identifiers_cmp(a.drop_first(), b.drop_first(), c.drop_first());
    } else if a.len() > 0 && b.len() > 0 {
        lemma_identifier_cmp(a[0], b[0], a[0]);
        lemma_identifiers_cmp(a.drop_first(), b.drop_first(), a.drop_first());
    }
    if a.len() == 0 && b.len() == 0 {
        assert(a =~= b);
    }
    if a.len() > 0 && b.len() > 0 && a[0] == b[0] && a.drop_first() == b.drop_first() {
        assert(a =~= seq![a[0]] + a.drop_first());
        assert(b =~= seq![b[0]] + b.drop_first());
    }
}

/// Three-way precedence comparison is antisymmetric, zero exactly at equal
/// precedence, and transitive.
pub proof fn lemma_version_cmp(a: VersionView, b: VersionView, c: VersionView)
    ensures
        version_cmp(a, b) == -version_cmp(b, a),
        -1 <= version_cmp(a, b) <= 1,
        version_cmp(a, b) == 0 <==> same_precedence(a, b),
        version_cmp(a, b) < 0 && version_cmp(b, c) < 0 ==> version_cmp(a, c) < 0,
        version_cmp(a, b) <= 0 && version_cmp(b, c) <= 0 ==> version_cmp(a, c) <= 0,
        version_cmp(a, b) == 0 && version_cmp(b, c) == 0 ==> version_cmp(a, c) == 0,
{
    lemma_identifiers_cmp(a.pre, b.pre, c.pre);
    lemma_identifiers_cmp(a.pre, c.pre, b.pre);
    lemma_identifiers_cmp(b.pre, c.pre, a.pre);
    lemma_identifiers_cmp(a.pre, a.pre, a.pre);
}

/// Precedence is a strict total order on versions, up to equal precedence:
/// for any two versions exactly one of `a < b`, equal precedence, `b < a` holds;
/// `<` is irreflexive and transitive; and at equal major, minor and patch a
/// release outranks every pre-release.
pub proof fn lemma_version_order(a: Version, b: Version, c: Version)
    ensures
        version_lt(a@, b@) || same_precedence(a@, b@) || version_lt(b@, a@),
        !(version_lt(a@, b@) && same_precedence(a@, b@)),
        !(version_lt(a@, b@) && version_lt(b@, a@)),
        !version_lt(a@, a@),
        version_lt(a@, b@) && version_lt(b@, c@) ==> version_lt(a@, c@),
        version_le(a@, b@) && version_le(b@, c@) ==> version_le(a@, c@),
        version_cmp(a@, b@) == 0 <==> same_precedence(a@, b@),
        version_cmp(a@, b@) == -version_cmp(b@, a@),
        a.major == b.major && a.minor == b.minor && a.patch == b.patch && a@.pre.len() == 0
            && b@.pre.len() > 0 ==> version_lt(b@, a@),
{
    lemma_version_cmp(a@, b@, c@);
    lemma_version_cmp(a@, a@, a@);
}

pub open spec fn ordering_of(c: int) -> Ordering {
    if c < 0 {
        Ordering::Less
    } else if c == 0 {
        Ordering::Equal
    } else {
        Ordering::Greater
    }
}

fn compare_u64(a: u64, b: u64) -> (r: Ordering)
    ensures
        r == ordering_of(int_cmp(a as int, b as int)),
{
    if a < b {
        Ordering::Less
    } else if a == b {
        Ordering::Equal
    } else {
        Ordering::Greater
    }
}

pub(crate) fn compare_text(a: &String, b: &String) -> (r: Ordering)
    ensures
        r == ordering_of(chars_cmp(a@, b@)),
{
    let x = a.as_str();
    let y = b.as_str();
    let n = x.unicode_len();
    let m = y.unicode_len();
    let mut i: usize = 0;
    assert(a@.skip(0) =~= a@);
    assert(b@.skip(0) =~= b@);
    while i < n && i < m
        invariant
            n == a@.len(),
            m == b@.len(),
            x@ == a@,
            y@ == b@,
            i <= n,
            i <= m,
            chars_cmp(a@, b@) == chars_cmp(a@.skip(i as int), b@.skip(i as int)),
        decreases n - i,
    {
        let c = x.get_char(i);
        let d = y.get_char(i);
        if c < d {
            return Ordering::Less;
        } else if c > d {
            return Ordering::Greater;
        }
        assert(a@.skip(i as int).drop_first() =~= a@.skip(i + 1));
        assert(b@.skip(i as int).drop_first() =~= b@.skip(i + 1));
        i = i + 1;
    }
    if i == n && i == m {
        Ordering::Equal
    } else if i == n {
        Ordering::Less
    } else {
        Ordering::Greater
    }
}

fn compare_identifier(a: &Identifier, b: &Identifier) -> (r: Ordering)
    ensures
        r == ordering_of(identifier_cmp(a@, b@)),
{
    match (a, b) {
        (Identifier::Numeric(x), Identifier::Numeric(y)) => compare_u64(*x, *y),
        (Identifier::Numeric(_), Identifier::AlphaNumeric(_)) => Ordering::Less,
        (Identifier::AlphaNumeric(_), Identifier::Numeric(_)) => Ordering::Greater,
        (Identifier::AlphaNumeric(x), Identifier::AlphaNumeric(y)) => compare_text(x, y),
    }
}

fn compare_identifiers(a: &Vec<Identifier>, b: &Vec<Identifier>) -> (r: Ordering)
    ensures
        r == ordering_of(identifiers_cmp(identifiers_view(a@), identifiers_view(b@))),
{
    let ghost av = identifiers_view(a@);
    let ghost bv = identifiers_view(b@);
    let mut i: usize = 0;
    assert(av.skip(0) =~= av);
    assert(bv.skip(0) =~= bv);
    while i < a.len() && i < b.len()
        invariant
            i <= a.len(),
            i <= b.len(),
            av == identifiers_view(a@),
            bv == identifiers_view(b@),
            identifiers_cmp(av, bv) == identifiers_cmp(av.skip(i as int), bv.skip(i as int)),
        decreases a.len() - i,
    {
        let o = compare_identifier(&a[i], &b[i]);
        match o {
            Ordering::Equal => {},
            _ => {
                return o;
            },
        }
        assert(av.skip(i as int).drop_first() =~= av.skip(i + 1));
        assert(bv.skip(i as int).drop_first() =~= bv.skip(i + 1));
        i = i + 1;
    }
    if i == a.len() && i == b.len() {
        Ordering::Equal
    } else if i == a.len() {
        Ordering::Less
    } else {
        Ordering::Greater
    }
}

impl Version {
    /// Compares two versions by precedence; build metadata does not count.
    pub fn compare(&self, other: &Version) -> (r: Ordering)
        ensures
            r == ordering_of(version_cmp(self@, other@)),
    {
        if self.major != other.major {
            compare_u64(self.major, other.major)
        } else if self.minor != other.minor {
            compare_u64(self.minor, other.minor)
        } else if self.patch != other.patch {
            compare_u64(self.patch, other.patch)
        } else if self.pre.len() == 0 && other.pre.len() == 0 {
            Ordering::Equal
        } else if self.pre.len() == 0 {
            Ordering::Greater
        } else if other.pre.len() == 0 {
            Ordering::Less
        } else {
            compare_identifiers(&self.pre, &other.pre)
        }
    }

    /// Whether `self` ranks strictly below `other`.
    pub fn is_less_than(&self, other: &Version) -> (r: bool)
        ensures
            r == version_lt(self@, other@),
    {
        match self.compare(other) {
            Ordering::Less => true,
            _ => false,
        }
    }
}

fn copy_identifiers(v: &Vec<Identifier>) -> (r: Vec<Identifier>)
    ensures
        identifiers_view(r@) == identifiers_view(v@),
{
    let mut r: Vec<Identifier> = Vec::new();
    let mut i: usize = 0;
    while i < v.len()
        invariant
            i <= v@.len(),
            r@.len() == i,
            identifiers_view(r@) == identifiers_view(v@.subrange(0, i as int)),
        decreases v.len() - i,
    {
        let c = match &v[i] {
            Identifier::Numeric(n) => Identifier::Numeric(*n),
            Identifier::AlphaNumeric(s) => Identifier::AlphaNumeric(s.clone()),
        };
        assert(c@ == v@[i as int]@);
        let ghost old_r = r@;
        r.push(c);
        assert forall|k: int| 0 <= k < i + 1 implies #[trigger] identifiers_view(r@)[k]
            == identifiers_view(v@.subrange(0, i + 1))[k] by {
            assert(v@.subrange(0, i + 1)[k] == v@[k]);
            if k < i {
                assert(r@[k] == old_r[k]);
                assert(identifiers_view(old_r)[k] == identifiers_view(v@.subrange(0, i as int))[k]);
                assert(v@.subrange(0, i as int)[k] == v@[k]);
            } else {
                assert(r@[k] == c);
            }
        }
        assert(identifiers_view(r@) =~= identifiers_view(v@.subrange(0, i + 1)));
        i = i + 1;
    }
    assert(v@.subrange(0, i as int) =~= v@);
    r
}

impl Version {
    /// A copy of this version.
    pub fn clone_version(&self) -> (r: Version)
        ensures
            r@ == self@,
    {
        Version {
            major: self.major,
            minor: self.minor,
            patch: self.patch,
            pre: copy_identifiers(&self.pre),
            build: copy_identifiers(&self.build),
        }
    }
}

impl PartialEq for Version {
    fn eq(&self, other: &Version) -> (r: bool) {
        match self.compare(other) {
            Ordering::Equal => true,
            _ => false,
        }
    }
}

impl vstd::std_specs::cmp::PartialEqSpecImpl for Version {
    open spec fn obeys_eq_spec() -> bool {
        true
    }

    open spec fn eq_spec(&self, other: &Version) -> bool {
        version_cmp(self@, other@) == 0
    }
}

impl Eq for Version {

}

pub open spec fn zero_view() -> VersionView {
    VersionView { major: 0, minor: 0, patch: 0, pre: Seq::empty(), build: Seq::empty() }
}

/// The version `0.0.0`, with no pre-release and no build metadata.
pub fn zero() -> (r: Version)
    ensures
        r@ == zero_view(),
{
    let r = Version { major: 0, minor: 0, patch: 0, pre: Vec::new(), build: Vec::new() };
    assert(r@.pre =~= Seq::<IdentifierView>::empty());
    assert(r@.build =~= Seq::<IdentifierView>::empty());
    r
}

pub open spec fn option_view(o: Option<Version>) -> Option<VersionView> {
    match o {
        Some(v) => Some(v@),
        None => None,
    }
}

/// What the strict semantic-version grammar makes of a text, if it accepts it.
pub uninterp spec fn semver_parsed(s: Seq<char>) -> Option<VersionView>;

/// Relies on `semver::Version::parse` (semver 0.1) to read the strict grammar
/// `major.minor.patch[-pre][+build]`; the result is moved field by field.
#[verifier::external_body]
fn parse_strict(text: &str) -> (r: Option<Version>)
    ensures
        option_view(r) == semver_parsed(text@),
{
    let v = semver::Version::parse(text).ok()?;
    let ident = |i: semver::Identifier| match i {
        semver::Identifier::Numeric(n) => Identifier::Numeric(n),
        semver::Identifier::AlphaNumeric(s) => Identifier::AlphaNumeric(s),
    };
    let pre = v.pre.into_iter().map(ident).collect();
    let build = v.build.into_iter().map(ident).collect();
    Some(Version { major: v.major, minor: v.minor, patch: v.patch, pre, build })
}

pub open spec fn is_digit(c: char) -> bool {
    '0' <= c && c <= '9'
}

pub open spec fn all_digits(s: Seq<char>) -> bool {
    forall|i: int| 0 <= i < s.len() ==> is_digit(#[trigger] s[i])
}

/// The decimal value of a digit sequence.
pub open spec fn digits_value(s: Seq<char>) -> nat
    decreases s.len(),
{
    if s.len() == 0 {
        0
    } else {
        digits_value(s.drop_last()) * 10 + ((s.last() as nat) - ('0' as nat)) as nat
    }
}

/// A non-empty run of decimal digits whose value fits in a `u64`.
pub open spec fn number_of(s: Seq<char>) -> Option<u64> {
    if s.len() > 0 && all_digits(s) && digits_value(s) <= u64::MAX {
        Some(digits_value(s) as u64)
    } else {
        None
    }
}

proof fn lemma_digits_value_grows(s: Seq<char>, k: int)
    requires
        0 <= k <= s.len(),
        all_digits(s),
    ensures
        digits_value(s.subrange(0, k)) <= digits_value(s),
    decreases s.len() - k,
{
    if k < s.len() {
        lemma_digits_value_grows(s, k + 1);
        assert(s.subrange(0, k + 1).drop_last() =~= s.subrange(0, k));
        assert(is_digit(s[k]));
    } else {
        assert(s.subrange(0, k) =~= s);
    }
}

/// Reads a non-empty run of decimal digits that fits in a `u64`.
pub fn parse_number(text: &str) -> (r: Option<u64>)
    ensures
        r == number_of(text@),
{
    let n = text.unicode_len();
    if n == 0 {
        return None;
    }
    let mut value: u64 = 0;
    let mut i: usize = 0;
    while i < n
        invariant
            n == text@.len(),
            i <= n,
            all_digits(text@.subrange(0, i as int)),
            value as nat == digits_value(text@.subrange(0, i as int)),
        decreases n - i,
    {
        let c = text.get_char(i);
        assert(text@.subrange(0, i + 1).drop_last() =~= text@.subrange(0, i as int));
        if !('0' <= c && c <= '9') {
            assert(!all_digits(text@));
            return None;
        }
        let d = (c as u32 - '0' as u32) as u64;
        if value > (u64::MAX - d) / 10 {
            proof {
                if all_digits(text@) {
                    lemma_digits_value_grows(text@, i + 1);
                }
            }
            return None;
        }
        value = value * 10 + d;
        i = i + 1;
    }
    assert(text@.subrange(0, n as int) =~= text@);
    Some(value)
}

/// The positions of the dots in a text, in increasing order.
pub open spec fn dot_positions(s: Seq<char>) -> Seq<int>
    decreases s.len(),
{
    if s.len() == 0 {
        Seq::empty()
    } else if s.last() == '.' {
        dot_positions(s.drop_last()).push(s.len() - 1)
    } else {
        dot_positions(s.drop_last())
    }
}

/// The permissive grammar: `major`, `major.minor` or `major.minor.patch`, digits only.
pub open spec fn permissive_parsed(s: Seq<char>) -> Option<VersionView> {
    let d = dot_positions(s);
    let z = zero_view();
    if d.len() == 0 {
        match number_of(s) {
            Some(a) => Some(VersionView { major: a, ..z }),
            None => None,
        }
    } else if d.len() == 1 {
        match (number_of(s.subrange(0, d[0])), number_of(s.subrange(d[0] + 1, s.len() as int))) {
            (Some(a), Some(b)) => Some(VersionView { major: a, minor: b, ..z }),
            _ => None,
        }
    } else if d.len() == 2 {
        match (
            number_of(s.subrange(0, d[0])),
            number_of(s.subrange(d[0] + 1, d[1])),
            number_of(s.subrange(d[1] + 1, s.len() as int)),
        ) {
            (Some(a), Some(b), Some(c)) => Some(
                VersionView { major: a, minor: b, patch: c, ..z },
            ),
            _ => None,
        }
    } else {
        None
    }
}

/// A version text: the strict grammar first, then the permissive one.
pub open spec fn parsed_version(s: Seq<char>) -> Option<VersionView> {
    match semver_parsed(s) {
        Some(v) => Some(v),
        None => permissive_parsed(s),
    }
}

fn find_dots(text: &str) -> (r: Vec<usize>)
    ensures
        r@.len() == dot_positions(text@).len(),
        forall|k: int| 0 <= k < r@.len() ==> r@[k] as int == #[trigger] dot_positions(text@)[k],
        forall|k: int| 0 <= k < r@.len() ==> r@[k] < text@.len(),
        forall|k: int, l: int| 0 <= k < l < r@.len() ==> r@[k] < r@[l],
{
    let n = text.unicode_len();
    let mut r: Vec<usize> = Vec::new();
    let mut i: usize = 0;
    while i < n
        invariant
            n == text@.len(),
            i <= n,
            r@.len() == dot_positions(text@.subrange(0, i as int)).len(),
            forall|k: int|
                0 <= k < r@.len() ==> r@[k] as int == #[trigger] dot_positions(
                    text@.subrange(0, i as int),
                )[k],
            forall|k: int| 0 <= k < r@.len() ==> r@[k] < i,
            forall|k: int, l: int| 0 <= k < l < r@.len() ==> r@[k] < r@[l],
        decreases n - i,
    {
        assert(text@.subrange(0, i + 1).drop_last() =~= text@.subrange(0, i as int));
        if text.get_char(i) == '.' {
            r.push(i);
        }
        i = i + 1;
    }
    assert(text@.subrange(0, n as int) =~= text@);
    r
}

fn parse_permissive(text: &str) -> (r: Option<Version>)
    ensures
        option_view(r) == permissive_parsed(text@),
{
    let d = find_dots(text);
    let n = text.unicode_len();
    let ghost z = zero_view();
    let mut v = zero();
    if d.len() == 0 {
        match parse_number(text) {
            Some(a) => {
                v.major = a;
            },
            None => {
                return None;
            },
        }
    } else if d.len() == 1 {
        match (parse_number(text.substring_char(0, d[0])), parse_number(text.substring_char(d[0] + 1, n))) {
            (Some(a), Some(b)) => {
                v.major = a;
                v.minor = b;
            },
            _ => {
                return None;
            },
        }
    } else if d.len() == 2 {
        match (
            parse_number(text.substring_char(0, d[0])),
            parse_number(text.substring_char(d[0] + 1, d[1])),
            parse_number(text.substring_char(d[1] + 1, n)),
        ) {
            (Some(a), Some(b), Some(c)) => {
                v.major = a;
                v.minor = b;
                v.patch = c;
            },
            _ => {
                return None;
            },
        }
    } else {
        return None;
    }
    Some(v)
}

/// Parses a version text: the strict semantic-version grammar first, and where
/// that fails the permissive `major[.minor[.patch]]`; anything else is invalid.
pub fn parse(text: &str) -> (r: Result<Version, SliceError>)
    ensures
        r is Ok <==> parsed_version(text@) is Some,
        r matches Ok(v) ==> v@ == parsed_version(text@)->0,
        r matches Err(e) ==> e == SliceError::InvalidVersion,
{
    match parse_strict(text) {
        Some(v) => Ok(v),
        None => match parse_permissive(text) {
            Some(v) => Ok(v),
            None => Err(SliceError::InvalidVersion),
        },
    }
}

/// Where a `name-version` token splits: the last `-` that a digit follows, or -1.
pub open spec fn version_dash(s: Seq<char>) -> int
    decreases s.len(),
{
    if s.len() < 2 {
        -1
    } else if s[s.len() - 2] == '-' && is_digit(s[s.len() - 1]) {
        s.len() - 2
    } else {
        version_dash(s.drop_last())
    }
}

proof fn lemma_version_dash_bounds(s: Seq<char>)
    ensures
        version_dash(s) == -1 || 0 <= version_dash(s) <= s.len() - 2,
    decreases s.len(),
{
    if s.len() >= 2 {
        lemma_version_dash_bounds(s.drop_last());
    }
}

/// The name part of a `name-version` token.
pub open spec fn name_part(s: Seq<char>) -> Seq<char> {
    let p = version_dash(s);
    if p < 0 {
        s
    } else {
        s.subrange(0, p)
    }
}

/// The version part of a `name-version` token, if it parses.
pub open spec fn version_part(s: Seq<char>) -> Option<VersionView> {
    let p = version_dash(s);
    if p < 0 {
        Some(zero_view())
    } else {
        parsed_version(s.subrange(p + 1, s.len() as int))
    }
}

/// Splits a `name-version` token at the last `-` that a digit follows; with no
/// such `-` the whole token is the name and the version is `0.0.0`.
pub fn extract_name_and_version(token: &str) -> (r: Result<(String, Version), SliceError>)
    ensures
        r is Ok <==> version_part(token@) is Some,
        r matches Ok((n, v)) ==> n@ == name_part(token@) && v@ == version_part(token@)->0,
        r matches Err(e) ==> e == SliceError::InvalidVersion,
{
    let n = token.unicode_len();
    if n == 0 {
        return Ok((String::new(), zero()));
    }
    let mut last: Option<usize> = None;
    let mut i: usize = 1;
    while i < n
        invariant
            n == token@.len(),
            1 <= i <= n,
            last matches Some(p) ==> p as int == version_dash(token@.subrange(0, i as int)),
            last is None ==> version_dash(token@.subrange(0, i as int)) == -1,
        decreases n - i,
    {
        assert(token@.subrange(0, i + 1).drop_last() =~= token@.subrange(0, i as int));
        let c = token.get_char(i);
        if token.get_char(i - 1) == '-' && '0' <= c && c <= '9' {
            last = Some(i - 1);
        }
        i = i + 1;
    }
    assert(token@.subrange(0, n as int) =~= token@);
    proof {
        lemma_version_dash_bounds(token@);
    }
    match last {
        None => Ok((String::from_str(token), zero())),
        Some(p) => {
            let name = String::from_str(token.substring_char(0, p));
            match parse(token.substring_char(p + 1, n)) {
                Ok(v) => Ok((name, v)),
                Err(e) => Err(e),
            }
        },
    }
}

} // verus!
