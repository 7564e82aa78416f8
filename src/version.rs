use core::cmp::Ordering;
use vstd::prelude::*;

verus! {

/// One dot-separated field of a pre-release label.
#[derive(Debug)]
pub enum PreId {
    Numeric(u64),
    Alpha(String),
}

/// A semantic version: numeric core, pre-release fields and a build label
/// that never takes part in ordering.
#[derive(Debug)]
pub struct Version {
    pub major: u64,
    pub minor: u64,
    pub patch: u64,
    pub pre: Vec<PreId>,
    pub build: String,
}

/// What a version stands for: its numeric core and labels as values.
pub struct VersionView {
    pub major: u64,
    pub minor: u64,
    pub patch: u64,
    pub pre: Seq<PreId>,
    pub build: Seq<char>,
}

impl View for Version {
    type V = VersionView;

    open spec fn view(&self) -> VersionView {
        VersionView {
            major: self.major,
            minor: self.minor,
            patch: self.patch,
            pre: self.pre@,
            build: self.build@,
        }
    }
}

/// The operator of one comparator of a range.
#[derive(PartialEq, Eq, Structural, Clone, Copy, Debug)]
pub enum Op {
    Eq,
    Lt,
    Le,
    Gt,
    Ge,
}

/// A single `op version` condition.
#[derive(Debug)]
pub struct Comparator {
    pub op: Op,
    pub version: Version,
}

/// A conjunction of comparators; the empty conjunction holds of every version.
#[derive(Debug)]
pub struct VersionRange {
    pub comparators: Vec<Comparator>,
}

/// The offending text of a version or range that could not be read.
#[derive(Debug)]
pub struct ParseError {
    pub text: String,
}

pub open spec fn cmp_int(a: int, b: int) -> Ordering {
    if a < b {
        Ordering::Less
    } else if a > b {
        Ordering::Greater
    } else {
        Ordering::Equal
    }
}

/// Lexicographic order of two character sequences, from position `i` on.
pub open spec fn cmp_text_from(a: Seq<char>, b: Seq<char>, i: int) -> Ordering
    decreases a.len() - i,
{
    if i >= a.len() && i >= b.len() {
        Ordering::Equal
    } else if i >= a.len() {
        Ordering::Less
    } else if i >= b.len() {
        Ordering::Greater
    } else if (a[i] as u32) < (b[i] as u32) {
        Ordering::Less
    } else if (a[i] as u32) > (b[i] as u32) {
        Ordering::Greater
    } else {
        cmp_text_from(a, b, i + 1)
    }
}

/// Numeric fields compare numerically, text fields lexicographically, and a
/// numeric field sorts below a text one.
pub open spec fn cmp_pre_id(a: PreId, b: PreId) -> Ordering {
    match (a, b) {
        (PreId::Numeric(x), PreId::Numeric(y)) => cmp_int(x as int, y as int),
        (PreId::Numeric(_), PreId::Alpha(_)) => Ordering::Less,
        (PreId::Alpha(_), PreId::Numeric(_)) => Ordering::Greater,
        (PreId::Alpha(s), PreId::Alpha(t)) => cmp_text_from(s@, t@, 0),
    }
}

/// Field-by-field order of two pre-release labels from field `i` on; a shorter
/// label whose fields all agree sorts lower.
pub open spec fn cmp_pre_from(a: Seq<PreId>, b: Seq<PreId>, i: int) -> Ordering
    decreases a.len() - i,
{
    if i >= a.len() && i >= b.len() {
        Ordering::Equal
    } else if i >= a.len() {
        Ordering::Less
    } else if i >= b.len() {
        Ordering::Greater
    } else if cmp_pre_id(a[i], b[i]) != Ordering::Equal {
        cmp_pre_id(a[i], b[i])
    } else {
        cmp_pre_from(a, b, i + 1)
    }
}

/// A version without a pre-release label ranks above one with a label.
pub open spec fn cmp_pre(a: Seq<PreId>, b: Seq<PreId>) -> Ordering {
    if a.len() == 0 && b.len() == 0 {
        Ordering::Equal
    } else if a.len() == 0 {
        Ordering::Greater
    } else if b.len() == 0 {
        Ordering::Less
    } else {
        cmp_pre_from(a, b, 0)
    }
}

/// Precedence of two versions; the build label is ignored.
pub open spec fn precedence(a: VersionView, b: VersionView) -> Ordering {
    if a.major != b.major {
        cmp_int(a.major as int, b.major as int)
    } else if a.minor != b.minor {
        cmp_int(a.minor as int, b.minor as int)
    } else if a.patch != b.patch {
        cmp_int(a.patch as int, b.patch as int)
    } else {
        cmp_pre(a.pre, b.pre)
    }
}

pub open spec fn comparator_holds(c: Comparator, v: VersionView) -> bool {
    let o = precedence(v, c.version@);
    match c.op {
        Op::Eq => o == Ordering::Equal,
        Op::Lt => o == Ordering::Less,
        Op::Le => o != Ordering::Greater,
        Op::Gt => o == Ordering::Greater,
        Op::Ge => o != Ordering::Less,
    }
}

pub open spec fn range_matches(r: VersionRange, v: VersionView) -> bool {
    forall|i: int| 0 <= i < r.comparators@.len() ==> comparator_holds(#[trigger] r.comparators@[i], v)
}

fn cmp_u64(a: u64, b: u64) -> (r: Ordering)
    ensures
        r == cmp_int(a as int, b as int),
{
    if a < b {
        Ordering::Less
    } else if a > b {
        Ordering::Greater
    } else {
        Ordering::Equal
    }
}

fn is_equal(o: Ordering) -> (r: bool)
    ensures
        r == (o == Ordering::Equal),
{
    match o {
        Ordering::Equal => true,
        _ => false,
    }
}

/// Lexicographic comparison of two strings by character.
pub fn cmp_text(a: &str, b: &str) -> (r: Ordering)
    ensures
        r == cmp_text_from(a@, b@, 0),
{
    let la = a.unicode_len();
    let lb = b.unicode_len();
    let mut i: usize = 0;
    while i < la && i < lb
        invariant
            la == a@.len(),
            lb == b@.len(),
            i <= la,
            i <= lb,
            cmp_text_from(a@, b@, 0) == cmp_text_from(a@, b@, i as int),
        decreases la - i,
    {
        let ca = a.get_char(i) as u32;
        let cb = b.get_char(i) as u32;
        if ca < cb {
            return Ordering::Less;
        } else if ca > cb {
            return Ordering::Greater;
        }
        i = i + 1;
    }
    if i == la && i == lb {
        Ordering::Equal
    } else if i == la {
        Ordering::Less
    } else {
        Ordering::Greater
    }
}

impl PreId {
    /// Orders two pre-release fields.
    pub fn cmp_field(&self, other: &PreId) -> (r: Ordering)
        ensures
            r == cmp_pre_id(*self, *other),
    {
        match (self, other) {
            (PreId::Numeric(x), PreId::Numeric(y)) => cmp_u64(*x, *y),
            (PreId::Numeric(_), PreId::Alpha(_)) => Ordering::Less,
            (PreId::Alpha(_), PreId::Numeric(_)) => Ordering::Greater,
            (PreId::Alpha(s), PreId::Alpha(t)) => cmp_text(s.as_str(), t.as_str()),
        }
    }
}

impl Clone for PreId {
    fn clone(&self) -> (r: Self)
        ensures
            r == *self,
    {
        match self {
            PreId::Numeric(n) => PreId::Numeric(*n),
            PreId::Alpha(t) => PreId::Alpha(t.clone()),
        }
    }
}

fn cmp_pre_labels(a: &Vec<PreId>, b: &Vec<PreId>) -> (r: Ordering)
    ensures
        r == cmp_pre(a@, b@),
{
    if a.len() == 0 && b.len() == 0 {
        return Ordering::Equal;
    } else if a.len() == 0 {
        return Ordering::Greater;
    } else if b.len() == 0 {
        return Ordering::Less;
    }
    let mut i: usize = 0;
    while i < a.len() && i < b.len()
        invariant
            i <= a@.len(),
            i <= b@.len(),
            a@.len() > 0,
            b@.len() > 0,
            cmp_pre_from(a@, b@, 0) == cmp_pre_from(a@, b@, i as int),
        decreases a@.len() - i,
    {
        let c = a[i].cmp_field(&b[i]);
        if !is_equal(c) {
            return c;
        }
        i = i + 1;
    }
    if i == a.len() && i == b.len() {
        Ordering::Equal
    } else if i == a.len() {
        Ordering::Less
    } else {
        Ordering::Greater
    }
}

impl Version {
    /// A release version `major.minor.patch` with no labels.
    pub fn new(major: u64, minor: u64, patch: u64) -> (r: Version)
        ensures
            r.major == major,
            r.minor == minor,
            r.patch == patch,
            r.pre@.len() == 0,
            r.build@.len() == 0,
    {
        Version { major, minor, patch, pre: Vec::new(), build: String::new() }
    }

    /// Compares by precedence: numeric fields, then the pre-release label.
    pub fn cmp_precedence(&self, other: &Version) -> (r: Ordering)
        ensures
            r == precedence(self@, other@),
    {
        if self.major != other.major {
            cmp_u64(self.major, other.major)
        } else if self.minor != other.minor {
            cmp_u64(self.minor, other.minor)
        } else if self.patch != other.patch {
            cmp_u64(self.patch, other.patch)
        } else {
            cmp_pre_labels(&self.pre, &other.pre)
        }
    }

    /// Whether `self` has lower precedence than `other`.
    pub fn precedes(&self, other: &Version) -> (r: bool)
        ensures
            r == (precedence(self@, other@) == Ordering::Less),
    {
        match self.cmp_precedence(other) {
            Ordering::Less => true,
            _ => false,
        }
    }
}

impl Clone for Version {
    fn clone(&self) -> (r: Self)
        ensures
            r@ == self@,
    {
        let pre = self.pre.clone();
        assert forall|i: int| 0 <= i < pre@.len() implies pre@[i] == self.pre@[i] by {
            assert(cloned::<PreId>(self.pre[i], pre[i]));
        }
        assert(pre@ =~= self.pre@);
        Version {
            major: self.major,
            minor: self.minor,
            patch: self.patch,
            pre,
            build: self.build.clone(),
        }
    }
}

impl Comparator {
    pub fn holds(&self, v: &Version) -> (r: bool)
        ensures
            r == comparator_holds(*self, v@),
    {
        let o = v.cmp_precedence(&self.version);
        match self.op {
            Op::Eq => is_equal(o),
            Op::Lt => match o {
                Ordering::Less => true,
                _ => false,
            },
            Op::Le => match o {
                Ordering::Greater => false,
                _ => true,
            },
            Op::Gt => match o {
                Ordering::Greater => true,
                _ => false,
            },
            Op::Ge => match o {
                Ordering::Less => false,
                _ => true,
            },
        }
    }
}

impl VersionRange {
    /// The range that every version satisfies.
    pub fn any() -> (r: VersionRange)
        ensures
            r.comparators@.len() == 0,
            forall|v: VersionView| range_matches(r, v),
    {
        VersionRange { comparators: Vec::new() }
    }

    /// Whether `v` satisfies every comparator of the range.
    pub fn matches(&self, v: &Version) -> (r: bool)
        ensures
            r == range_matches(*self, v@),
    {
        let mut i: usize = 0;
        while i < self.comparators.len()
            invariant
                i <= self.comparators@.len(),
                forall|j: int| 0 <= j < i ==> comparator_holds(#[trigger] self.comparators@[j], v@),
            decreases self.comparators@.len() - i,
        {
            if !self.comparators[i].holds(v) {
                return false;
            }
            i = i + 1;
        }
        true
    }
}


pub open spec fn digit_char(d: nat) -> char {
    ((d + 48) as u32) as char
}

/// Decimal digits of `n`, without leading zeros.
pub open spec fn decimal(n: nat) -> Seq<char>
    decreases n,
{
    if n < 10 {
        seq![digit_char(n)]
    } else {
        decimal(n / 10).push(digit_char(n % 10))
    }
}

pub open spec fn is_digit(c: char) -> bool {
    '0' <= c && c <= '9'
}

pub open spec fn is_ident_char(c: char) -> bool {
    is_digit(c) || ('a' <= c && c <= 'z') || ('A' <= c && c <= 'Z') || c == '-'
}

pub open spec fn pre_id_text(p: PreId) -> Seq<char> {
    match p {
        PreId::Numeric(n) => decimal(n as nat),
        PreId::Alpha(t) => t@,
    }
}

/// The fields of a pre-release label joined by dots.
pub open spec fn pre_text(ids: Seq<PreId>) -> Seq<char>
    decreases ids.len(),
{
    if ids.len() == 0 {
        Seq::empty()
    } else if ids.len() == 1 {
        pre_id_text(ids[0])
    } else {
        pre_text(ids.drop_last()) + seq!['.'] + pre_id_text(ids.last())
    }
}

/// The textual form of a version: `major.minor.patch[-pre][+build]`.
pub open spec fn version_text(v: VersionView) -> Seq<char> {
    decimal(v.major as nat) + seq!['.'] + decimal(v.minor as nat) + seq!['.'] + decimal(
        v.patch as nat,
    ) + (if v.pre.len() == 0 {
        Seq::empty()
    } else {
        seq!['-'] + pre_text(v.pre)
    }) + (if v.build.len() == 0 {
        Seq::empty()
    } else {
        seq!['+'] + v.build
    })
}

proof fn lemma_decimal_step(v: nat, d: nat)
    requires
        v >= 1,
        d < 10,
    ensures
        decimal(v * 10 + d) == decimal(v).push(digit_char(d)),
{
    assert((v * 10 + d) / 10 == v && (v * 10 + d) % 10 == d) by (nonlinear_arith)
        requires
            d < 10,
    ;
}

fn digit_of(c: char) -> (r: u64)
    requires
        is_digit(c),
    ensures
        r < 10,
        digit_char(r as nat) == c,
{
    ((c as u32) - 48) as u64
}

/// Value of a run of decimal digits.
pub open spec fn digits_value(s: Seq<char>) -> nat
    decreases s.len(),
{
    if s.len() == 0 {
        0
    } else {
        digits_value(s.drop_last()) * 10 + digit_value(s.last())
    }
}

pub open spec fn digit_value(c: char) -> nat {
    ((c as u32) - 48) as nat
}

/// The decimal text of `n` stands at `start` and is not followed by a digit.
pub open spec fn number_at(s: Seq<char>, start: int, n: u64) -> bool {
    let e = start + decimal(n as nat).len();
    &&& 0 <= start
    &&& e <= s.len()
    &&& s.subrange(start, e) == decimal(n as nat)
    &&& (e == s.len() || !is_digit(s[e]))
}

pub(crate) proof fn lemma_decimal_props(n: nat)
    ensures
        decimal(n).len() >= 1,
        forall|i: int| 0 <= i < decimal(n).len() ==> is_digit(#[trigger] decimal(n)[i]),
        digits_value(decimal(n)) == n,
        n >= 1 ==> decimal(n)[0] != '0',
    decreases n,
{
    if n >= 10 {
        lemma_decimal_props(n / 10);
        let d = decimal(n);
        assert(d.drop_last() == decimal(n / 10));
        assert(digit_value(digit_char(n % 10)) == n % 10);
        assert(d.last() == digit_char(n % 10));
        assert((n / 10) * 10 + n % 10 == n) by (nonlinear_arith);
        assert(digits_value(d) == digits_value(d.drop_last()) * 10 + digit_value(d.last()));
        assert(decimal(n / 10)[0] == d[0]);
    } else {
        assert(digit_value(digit_char(n)) == n);
        assert(decimal(n).drop_last() =~= Seq::<char>::empty());
        assert(digits_value(Seq::<char>::empty()) == 0);
        assert(digits_value(decimal(n)) == digits_value(decimal(n).drop_last()) * 10 + digit_value(
            decimal(n).last(),
        ));
    }
}

pub(crate) proof fn lemma_prefix_value(s: Seq<char>, k: int)
    requires
        0 <= k <= s.len(),
    ensures
        digits_value(s.subrange(0, k)) <= digits_value(s),
    decreases s.len(),
{
    if k < s.len() {
        lemma_prefix_value(s.drop_last(), k);
        assert(s.drop_last().subrange(0, k) =~= s.subrange(0, k));
    } else {
        assert(s.subrange(0, k) =~= s);
    }
}

/// Reads a decimal number without superfluous leading zeros at `start`; it
/// succeeds whenever such a number that fits in `u64` stands there.
pub(crate) fn read_number(s: &str, len: usize, start: usize) -> (r: Option<(u64, usize)>)
    requires
        len == s@.len(),
        start <= len,
    ensures
        r matches Some((n, end)) ==> start < end <= len && decimal(n as nat) == s@.subrange(
            start as int,
            end as int,
        ),
        forall|n: u64|
            #[trigger] number_at(s@, start as int, n) ==> r == Some(
                (n, (start + decimal(n as nat).len()) as usize),
            ),
{
    let mut value: u64 = 0;
    let mut i: usize = start;
    while i < len && is_digit_char(s.get_char(i))
        invariant
            len == s@.len(),
            start <= i <= len,
            i > start ==> decimal(value as nat) == s@.subrange(start as int, i as int),
            i > start && value == 0 ==> i == start + 1,
            i == start ==> value == 0,
            value == digits_value(s@.subrange(start as int, i as int)),
            forall|j: int| start <= j < i ==> is_digit(#[trigger] s@[j]),
        decreases len - i,
    {
        let c = s.get_char(i);
        let d = digit_of(c);
        assert(s@.subrange(start as int, i + 1).drop_last() =~= s@.subrange(start as int, i as int));
        if i > start && value == 0 {
            proof {
                assert forall|n: u64| !#[trigger] number_at(s@, start as int, n) by {
                    lemma_decimal_props(n as nat);
                    if number_at(s@, start as int, n) {
                        assert(s@[start as int] == decimal(n as nat)[0]);
                        assert(digits_value(s@.subrange(start as int, i as int)) == digit_value(s@[start as int])) by {
                            assert(s@.subrange(start as int, i as int).drop_last() =~= Seq::<char>::empty());
                        }
                        assert(decimal(n as nat).len() == 1);
                        assert(s@[i as int] == c);
                    }
                }
            }
            return None;
        }
        if value > (u64::MAX - d) / 10 {
            proof {
                assert forall|n: u64| !#[trigger] number_at(s@, start as int, n) by {
                    lemma_decimal_props(n as nat);
                    if number_at(s@, start as int, n) {
                        let e = start + decimal(n as nat).len();
                        if e <= i {
                            assert(is_digit(s@[e]));
                        }
                        let dn = decimal(n as nat);
                        assert(dn.subrange(0, i + 1 - start) =~= s@.subrange(start as int, i + 1));
                        lemma_prefix_value(dn, i + 1 - start);
                        assert(value * 10 + d > u64::MAX) by (nonlinear_arith)
                            requires
                                value > (u64::MAX - d) / 10,
                                d < 10,
                        ;
                    }
                }
            }
            return None;
        }
        proof {
            if i > start {
                lemma_decimal_step(value as nat, d as nat);
                assert(s@.subrange(start as int, i + 1) =~= s@.subrange(start as int, i as int).push(c));
            } else {
                assert(s@.subrange(start as int, i + 1) =~= seq![c]);
            }
        }
        value = value * 10 + d;
        i = i + 1;
    }
    proof {
        assert forall|n: u64| #[trigger] number_at(s@, start as int, n) implies i > start && i == start
            + decimal(n as nat).len() && value == n by {
            lemma_decimal_props(n as nat);
            let e = start + decimal(n as nat).len();
            assert(is_digit(s@[start as int]));
            if i < e {
                assert(s@[i as int] == decimal(n as nat)[i - start]);
            }
            if e < i {
                assert(is_digit(s@[e]));
            }
        }
    }
    if i == start {
        None
    } else {
        Some((value, i))
    }
}

fn is_digit_char(c: char) -> (r: bool)
    ensures
        r == is_digit(c),
{
    '0' <= c && c <= '9'
}

fn is_ident(c: char) -> (r: bool)
    ensures
        r == is_ident_char(c),
{
    ('0' <= c && c <= '9') || ('a' <= c && c <= 'z') || ('A' <= c && c <= 'Z') || c == '-'
}

pub open spec fn allowed(c: char, dots: bool) -> bool {
    is_ident_char(c) || (dots && c == '.')
}

/// `k` ends the run of identifier characters (and dots, if `dots`) from `start`.
pub open spec fn run_to(s: Seq<char>, start: int, k: int, dots: bool) -> bool {
    &&& 0 <= start <= k <= s.len()
    &&& forall|j: int| start <= j < k ==> allowed(#[trigger] s[j], dots)
    &&& (k == s.len() || !allowed(s[k], dots))
}

proof fn lemma_run_unique(s: Seq<char>, start: int, k1: int, k2: int, dots: bool)
    requires
        run_to(s, start, k1, dots),
        run_to(s, start, k2, dots),
    ensures
        k1 == k2,
{
    if k1 < k2 {
        assert(allowed(s[k1], dots));
    } else if k2 < k1 {
        assert(allowed(s[k2], dots));
    }
}

/// The end of the run of identifier characters (and dots, if `dots`) from `start`.
fn scan_ident(s: &str, len: usize, start: usize, dots: bool) -> (k: usize)
    requires
        len == s@.len(),
        start <= len,
    ensures
        run_to(s@, start as int, k as int, dots),
{
    let mut k: usize = start;
    while k < len && (is_ident(s.get_char(k)) || (dots && s.get_char(k) == '.'))
        invariant
            len == s@.len(),
            start <= k <= len,
            forall|j: int| start <= j < k ==> allowed(#[trigger] s@[j], dots),
        decreases len - k,
    {
        k = k + 1;
    }
    k
}

/// Reads one pre-release field at `start`; it succeeds whenever a run of
/// identifier characters starts there, and ends where the run ends.
fn read_pre_id(s: &str, len: usize, start: usize) -> (r: Option<(PreId, usize)>)
    requires
        len == s@.len(),
        start <= len,
    ensures
        r matches Some((id, end)) ==> start < end <= len && pre_id_text(id) == s@.subrange(
            start as int,
            end as int,
        ),
        forall|k: int| #[trigger] run_to(s@, start as int, k, false) && k > start ==> (r is Some && r.unwrap().1 == k),
{
    let k = scan_ident(s, len, start, false);
    proof {
        assert forall|k2: int| #[trigger] run_to(s@, start as int, k2, false) implies k2 == k by {
            lemma_run_unique(s@, start as int, k2, k as int, false);
        }
    }
    if k == start {
        return None;
    }
    match read_number(s, len, start) {
        Some((n, j)) => {
            if j == k {
                return Some((PreId::Numeric(n), k));
            }
        },
        None => {},
    }
    let t = String::from_str(s.substring_char(start, k));
    Some((PreId::Alpha(t), k))
}

pub(crate) fn parse_error(s: &str) -> (e: ParseError)
    ensures
        e.text@ == s@,
{
    ParseError { text: String::from_str(s) }
}

/// The pre-release label `ids` is written at `start` and followed by `+` or the end.
pub open spec fn pre_at(s: Seq<char>, start: int, ids: Seq<PreId>) -> bool {
    &&& ids.len() >= 1
    &&& forall|i: int| 0 <= i < ids.len() ==> id_form(#[trigger] ids[i])
    &&& 0 <= start
    &&& start + pre_text(ids).len() <= s.len()
    &&& s.subrange(start, start + pre_text(ids).len()) == pre_text(ids)
    &&& (start + pre_text(ids).len() == s.len() || s[start + pre_text(ids).len()] == '+')
}

/// Reads dot-separated pre-release fields from `start`.
fn read_pre(s: &str, len: usize, start: usize, Ghost(w): Ghost<Seq<PreId>>) -> (r: Option<(Vec<PreId>, usize)>)
    requires
        len == s@.len(),
        start <= len,
    ensures
        r matches Some((ids, end)) ==> ids@.len() >= 1 && start <= end <= len && pre_text(ids@)
            == s@.subrange(start as int, end as int) && (end == len || s@[end as int] != '.'),
        pre_at(s@, start as int, w) ==> (r is Some && r.unwrap().1 == start + pre_text(w).len()),
{
    let ghost ok = pre_at(s@, start as int, w);
    proof {
        if ok {
            lemma_field_at(s@, start as int, w, 0);
        }
    }
    let mut pre: Vec<PreId> = Vec::new();
    let (first, j) = match read_pre_id(s, len, start) {
        Some(p) => p,
        None => return None,
    };
    pre.push(first);
    let mut i: usize = j;
    assert(pre_text(pre@) == s@.subrange(start as int, i as int));
    while i < len && s.get_char(i) == '.'
        invariant
            len == s@.len(),
            start <= i <= len,
            pre@.len() >= 1,
            pre_text(pre@) == s@.subrange(start as int, i as int),
            ok == pre_at(s@, start as int, w),
            ok ==> 1 <= pre@.len() <= w.len() && i == start + pre_text(w.take(pre@.len() as int)).len(),
        decreases len - i,
    {
        let next = i + 1;
        proof {
            if ok {
                let m = pre@.len() as int;
                lemma_field_at(s@, start as int, w, m - 1);
                assert(w.take(w.len() as int) =~= w);
                assert(m < w.len());
                lemma_field_at(s@, start as int, w, m);
                let e = start + pre_text(w.take(m + 1)).len();
                assert(run_to(s@, next as int, e, false) && e > next);
            }
        }
        let res = read_pre_id(s, len, next);
        assert(ok ==> res is Some && res.unwrap().1 == start + pre_text(w.take(pre@.len() + 1 as int)).len()) by {
            if ok {
                let m = pre@.len() as int;
                let e = start + pre_text(w.take(m + 1)).len();
                assert(run_to(s@, next as int, e, false));
            }
        }
        let (id, j) = match res {
            Some(p) => p,
            None => return None,
        };
        let ghost before = pre@;
        pre.push(id);
        assert(pre@.drop_last() =~= before);
        assert(s@.subrange(start as int, j as int) =~= s@.subrange(start as int, i as int) + seq!['.']
            + s@.subrange(i + 1, j as int));
        i = j;
    }
    proof {
        if ok {
            let m = pre@.len() as int;
            lemma_field_at(s@, start as int, w, m - 1);
            if m < w.len() {
                lemma_field_at(s@, start as int, w, m);
            }
        }
    }
    Some((pre, i))
}

/// Reads `major.minor.patch` with optional `-pre` and `+build` parts; it
/// succeeds on the textual form of every version whose labels read back.
#[verifier::rlimit(60)]
pub fn parse_version(s: &str) -> (r: Result<Version, ParseError>)
    ensures
        match r {
            Ok(v) => version_text(v@) == s@,
            Err(e) => e.text@ == s@ && forall|v: VersionView|
                text_form(v) ==> #[trigger] version_text(v) != s@,
        },
{
    let len = s.unicode_len();
    let ghost ok = exists|v: VersionView| text_form(v) && #[trigger] version_text(v) == s@;
    let ghost w = choose|v: VersionView| text_form(v) && #[trigger] version_text(v) == s@;
    proof {
        if ok {
            lemma_version_layout(s@, w);
        }
    }
    let (major, e1) = match read_number(s, len, 0) {
        Some(p) => p,
        None => return Err(parse_error(s)),
    };
    if e1 >= len || s.get_char(e1) != '.' {
        return Err(parse_error(s));
    }
    let (minor, e2) = match read_number(s, len, e1 + 1) {
        Some(p) => p,
        None => return Err(parse_error(s)),
    };
    if e2 >= len || s.get_char(e2) != '.' {
        return Err(parse_error(s));
    }
    let (patch, e3) = match read_number(s, len, e2 + 1) {
        Some(p) => p,
        None => return Err(parse_error(s)),
    };
    let ghost core = s@.subrange(0, e3 as int);
    assert(core =~= decimal(major as nat) + seq!['.'] + decimal(minor as nat) + seq!['.'] + decimal(
        patch as nat,
    )) by {
        assert(s@.subrange(0, e1 as int) == decimal(major as nat));
    }
    let mut pre: Vec<PreId> = Vec::new();
    let mut i: usize = e3;
    if i < len && s.get_char(i) == '-' {
        proof {
            if ok {
                assert(w.pre.len() > 0);
                assert(pre_at(s@, e3 + 1, w.pre));
            }
        }
        let (ids, end) = match read_pre(s, len, i + 1, Ghost(w.pre)) {
            Some(p) => p,
            None => return Err(parse_error(s)),
        };
        pre = ids;
        assert(s@.subrange(e3 as int, end as int) =~= seq!['-'] + s@.subrange(e3 + 1, end as int));
        i = end;
    }
    let e4 = i;
    let mut build = String::new();
    if i < len && s.get_char(i) == '+' {
        let k = scan_ident(s, len, i + 1, true);
        proof {
            if ok {
                lemma_run_unique(s@, i + 1, k as int, len as int, true);
            }
        }
        if k == i + 1 || k != len {
            return Err(parse_error(s));
        }
        build = String::from_str(s.substring_char(i + 1, len));
        assert(s@.subrange(e4 as int, len as int) =~= seq!['+'] + build@);
        i = len;
    }
    if i != len {
        return Err(parse_error(s));
    }
    let v = Version { major, minor, patch, pre, build };
    assert(s@ =~= s@.subrange(0, e3 as int) + s@.subrange(e3 as int, e4 as int) + s@.subrange(e4 as int, len as int));
    assert(s@.subrange(e3 as int, e4 as int) =~= (if v@.pre.len() == 0 {
        Seq::empty()
    } else {
        seq!['-'] + pre_text(v@.pre)
    }));
    assert(s@.subrange(e4 as int, len as int) =~= (if v@.build.len() == 0 {
        Seq::empty()
    } else {
        seq!['+'] + v@.build
    }));
    Ok(v)
}

pub open spec fn op_text(op: Op) -> Seq<char> {
    match op {
        Op::Eq => seq!['='],
        Op::Lt => seq!['<'],
        Op::Le => seq!['<', '='],
        Op::Gt => seq!['>'],
        Op::Ge => seq!['>', '='],
    }
}

pub open spec fn comparator_text(c: Comparator) -> Seq<char> {
    op_text(c.op) + version_text(c.version@)
}

/// The comparators of a range written one after another, separated by spaces.
pub open spec fn range_text(cs: Seq<Comparator>) -> Seq<char>
    decreases cs.len(),
{
    if cs.len() == 0 {
        Seq::empty()
    } else if cs.len() == 1 {
        comparator_text(cs[0])
    } else {
        range_text(cs.drop_last()) + seq![' '] + comparator_text(cs.last())
    }
}

/// Reads one `op version` token such as `>=1.2.0`; it succeeds on the
/// textual form of every comparator whose version reads back.
fn parse_comparator(t: &str) -> (r: Option<Comparator>)
    ensures
        r matches Some(c) ==> comparator_text(c) == t@,
        forall|c: Comparator| comparator_form(c) && #[trigger] comparator_text(c) == t@ ==> r is Some,
{
    let ghost ok = exists|c: Comparator| comparator_form(c) && #[trigger] comparator_text(c) == t@;
    let ghost w = choose|c: Comparator| comparator_form(c) && #[trigger] comparator_text(c) == t@;
    let len = t.unicode_len();
    assert(ok ==> len >= 2 && t@ == op_text(w.op) + version_text(w.version@) && is_digit(
        version_text(w.version@)[0],
    )) by {
        if ok {
            lemma_version_text_chars(w.version@);
        }
    }
    if len == 0 {
        return None;
    }
    let c0 = t.get_char(0);
    let two = len >= 2 && t.get_char(1) == '=';
    assert(ok ==> (two <==> (w.op == Op::Ge || w.op == Op::Le)) && c0 == op_text(w.op)[0]) by {
        if ok {
            if w.op == Op::Ge || w.op == Op::Le {
                assert(t@[1] == op_text(w.op)[1]);
            } else {
                assert(t@[1] == version_text(w.version@)[0]);
            }
            assert(t@[0] == op_text(w.op)[0]);
        }
    }
    let (op, skip) = if c0 == '>' && two {
        (Op::Ge, 2usize)
    } else if c0 == '<' && two {
        (Op::Le, 2usize)
    } else if c0 == '>' {
        (Op::Gt, 1usize)
    } else if c0 == '<' {
        (Op::Lt, 1usize)
    } else if c0 == '=' {
        (Op::Eq, 1usize)
    } else {
        return None;
    };
    let rest = t.substring_char(skip, len);
    assert(ok ==> rest@ == version_text(w.version@)) by {
        if ok {
            assert(op == w.op);
            assert(skip == op_text(w.op).len());
            assert(t@.subrange(skip as int, len as int) =~= version_text(w.version@));
        }
    }
    match parse_version(rest) {
        Ok(version) => {
            assert(t@ =~= op_text(op) + rest@);
            Some(Comparator { op, version })
        },
        Err(_) => None,
    }
}

fn token_end(s: &str, len: usize, start: usize) -> (k: usize)
    requires
        len == s@.len(),
        start <= len,
    ensures
        start <= k <= len,
        k < len ==> s@[k as int] == ' ',
        forall|j: int| start <= j < k ==> #[trigger] s@[j] != ' ',
{
    let mut k: usize = start;
    while k < len && s.get_char(k) != ' '
        invariant
            len == s@.len(),
            start <= k <= len,
            forall|j: int| start <= j < k ==> #[trigger] s@[j] != ' ',
        decreases len - k,
    {
        k = k + 1;
    }
    k
}

/// Reads a range: comparators separated by single spaces; the empty text and
/// `*` stand for the range that every version satisfies. It succeeds on the
/// textual form of every range whose comparators read back.
#[verifier::rlimit(60)]
pub fn parse_range(s: &str) -> (r: Result<VersionRange, ParseError>)
    ensures
        match r {
            Ok(range) => if range.comparators@.len() == 0 {
                s@.len() == 0 || s@ == seq!['*']
            } else {
                range_text(range.comparators@) == s@
            },
            Err(e) => e.text@ == s@ && s@.len() != 0 && s@ != seq!['*'] && forall|cs: Seq<Comparator>|
                cs.len() >= 1 && (forall|i: int| 0 <= i < cs.len() ==> comparator_form(#[trigger] cs[i]))
                    ==> #[trigger] range_text(cs) != s@,
        },
{
    let len = s.unicode_len();
    if len == 0 {
        return Ok(VersionRange::any());
    }
    if len == 1 && s.get_char(0) == '*' {
        assert(s@ =~= seq!['*']);
        return Ok(VersionRange::any());
    }
    let ghost ok = exists|cs: Seq<Comparator>|
        cs.len() >= 1 && (forall|i: int| 0 <= i < cs.len() ==> comparator_form(#[trigger] cs[i]))
            && #[trigger] range_text(cs) == s@;
    let ghost w = choose|cs: Seq<Comparator>|
        cs.len() >= 1 && (forall|i: int| 0 <= i < cs.len() ==> comparator_form(#[trigger] cs[i]))
            && #[trigger] range_text(cs) == s@;
    let mut comparators: Vec<Comparator> = Vec::new();
    let k0 = token_end(s, len, 0);
    let tok0 = s.substring_char(0, k0);
    assert(ok ==> comparator_text(w[0]) == tok0@ && comparator_form(w[0])) by {
        if ok {
            lemma_token_at(s@, w, 0);
            let e = range_text(w.take(1)).len() as int;
            if k0 < e {
                assert(s@[k0 as int] != ' ');
            }
            if e < k0 {
                assert(s@[e] != ' ');
            }
            assert(tok0@ =~= s@.subrange(0, e));
        }
    }
    let first = match parse_comparator(tok0) {
        Some(c) => c,
        None => return Err(parse_error(s)),
    };
    comparators.push(first);
    let mut k: usize = k0;
    while k < len
        invariant
            len == s@.len(),
            k <= len,
            k < len ==> s@[k as int] == ' ',
            comparators@.len() >= 1,
            range_text(comparators@) == s@.subrange(0, k as int),
            ok == exists|cs: Seq<Comparator>|
                cs.len() >= 1 && (forall|i: int| 0 <= i < cs.len() ==> comparator_form(#[trigger] cs[i]))
                    && #[trigger] range_text(cs) == s@,
            ok ==> w.len() >= 1 && (forall|i: int| 0 <= i < w.len() ==> comparator_form(#[trigger] w[i]))
                && range_text(w) == s@,
            ok ==> comparators@.len() <= w.len() && k == range_text(w.take(comparators@.len() as int)).len(),
        decreases len - k,
    {
        let start = k + 1;
        let j = token_end(s, len, start);
        let tok = s.substring_char(start, j);
        assert(ok ==> comparators@.len() < w.len() && comparator_text(w[comparators@.len() as int]) == tok@
            && comparator_form(w[comparators@.len() as int]) && j == range_text(
            w.take(comparators@.len() + 1int),
        ).len()) by {
            if ok {
                let m = comparators@.len() as int;
                lemma_token_at(s@, w, m - 1);
                assert(w.take(w.len() as int) =~= w);
                assert(m < w.len());
                lemma_token_at(s@, w, m);
                let e = range_text(w.take(m + 1)).len() as int;
                if j < e {
                    assert(s@[j as int] != ' ');
                }
                if e < j {
                    assert(s@[e] != ' ');
                }
                assert(tok@ =~= s@.subrange(start as int, e));
            }
        }
        let c = match parse_comparator(tok) {
            Some(c) => c,
            None => return Err(parse_error(s)),
        };
        let ghost before = comparators@;
        comparators.push(c);
        assert(comparators@.drop_last() =~= before);
        assert(s@.subrange(0, j as int) =~= s@.subrange(0, k as int) + seq![' '] + s@.subrange(
            k + 1,
            j as int,
        ));
        k = j;
    }
    assert(s@.subrange(0, len as int) =~= s@);
    Ok(VersionRange { comparators })
}


pub open spec fn flip(o: Ordering) -> Ordering {
    match o {
        Ordering::Less => Ordering::Greater,
        Ordering::Equal => Ordering::Equal,
        Ordering::Greater => Ordering::Less,
    }
}

/// The three laws of a total preorder for a comparison result on `a`, `b`, `c`.
pub open spec fn order_laws(ab: Ordering, ba: Ordering, bc: Ordering, ac: Ordering) -> bool {
    &&& ab == flip(ba)
    &&& (ab != Ordering::Greater && bc != Ordering::Greater ==> ac != Ordering::Greater)
    &&& (ab == Ordering::Less && bc != Ordering::Greater ==> ac == Ordering::Less)
    &&& (ab != Ordering::Greater && bc == Ordering::Less ==> ac == Ordering::Less)
}

proof fn lemma_text_refl(a: Seq<char>, i: int)
    ensures
        cmp_text_from(a, a, i) == Ordering::Equal,
    decreases a.len() - i,
{
    if i < a.len() {
        lemma_text_refl(a, i + 1);
    }
}

proof fn lemma_text_laws(a: Seq<char>, b: Seq<char>, c: Seq<char>, i: int)
    ensures
        order_laws(
            cmp_text_from(a, b, i),
            cmp_text_from(b, a, i),
            cmp_text_from(b, c, i),
            cmp_text_from(a, c, i),
        ),
    decreases a.len() - i,
{
    if i < a.len() && i < b.len() && i < c.len() {
        lemma_text_laws(a, b, c, i + 1);
    } else if i < a.len() && i < b.len() {
        lemma_text_laws_ab(a, b, i);
    }
}

proof fn lemma_text_laws_ab(a: Seq<char>, b: Seq<char>, i: int)
    ensures
        cmp_text_from(a, b, i) == flip(cmp_text_from(b, a, i)),
    decreases a.len() - i,
{
    if i < a.len() && i < b.len() {
        lemma_text_laws_ab(a, b, i + 1);
    }
}

proof fn lemma_pre_id_laws(a: PreId, b: PreId, c: PreId)
    ensures
        cmp_pre_id(a, a) == Ordering::Equal,
        order_laws(cmp_pre_id(a, b), cmp_pre_id(b, a), cmp_pre_id(b, c), cmp_pre_id(a, c)),
{
    if let PreId::Alpha(s) = a {
        lemma_text_refl(s@, 0);
    }
    match (a, b, c) {
        (PreId::Alpha(x), PreId::Alpha(y), PreId::Alpha(z)) => {
            lemma_text_laws(x@, y@, z@, 0);
        },
        (PreId::Alpha(x), PreId::Alpha(y), _) => {
            lemma_text_laws_ab(x@, y@, 0);
        },
        _ => {},
    }
}

proof fn lemma_pre_from_refl(a: Seq<PreId>, i: int)
    ensures
        cmp_pre_from(a, a, i) == Ordering::Equal,
    decreases a.len() - i,
{
    if i < a.len() {
        lemma_pre_id_laws(a[i], a[i], a[i]);
        lemma_pre_from_refl(a, i + 1);
    }
}

proof fn lemma_pre_from_ab(a: Seq<PreId>, b: Seq<PreId>, i: int)
    ensures
        cmp_pre_from(a, b, i) == flip(cmp_pre_from(b, a, i)),
    decreases a.len() - i,
{
    if i < a.len() && i < b.len() {
        lemma_pre_id_laws(a[i], b[i], b[i]);
        lemma_pre_from_ab(a, b, i + 1);
    }
}

proof fn lemma_pre_from_laws(a: Seq<PreId>, b: Seq<PreId>, c: Seq<PreId>, i: int)
    ensures
        order_laws(
            cmp_pre_from(a, b, i),
            cmp_pre_from(b, a, i),
            cmp_pre_from(b, c, i),
            cmp_pre_from(a, c, i),
        ),
    decreases a.len() - i,
{
    lemma_pre_from_ab(a, b, i);
    if i < a.len() && i < b.len() && i < c.len() {
        lemma_pre_id_laws(a[i], b[i], c[i]);
        lemma_pre_from_laws(a, b, c, i + 1);
    }
}

/// Precedence is a total preorder: reflexive, antisymmetric in its result, and transitive.
pub proof fn lemma_precedence_laws(a: VersionView, b: VersionView, c: VersionView)
    ensures
        precedence(a, a) == Ordering::Equal,
        order_laws(precedence(a, b), precedence(b, a), precedence(b, c), precedence(a, c)),
{
    lemma_pre_from_refl(a.pre, 0);
    lemma_pre_from_laws(a.pre, b.pre, c.pre, 0);
}


/// Whether two strings hold the same characters.
pub fn text_eq(a: &str, b: &str) -> (r: bool)
    ensures
        r == (a@ == b@),
{
    let la = a.unicode_len();
    if la != b.unicode_len() {
        return false;
    }
    let mut i: usize = 0;
    while i < la
        invariant
            la == a@.len(),
            la == b@.len(),
            i <= la,
            a@.subrange(0, i as int) == b@.subrange(0, i as int),
        decreases la - i,
    {
        if a.get_char(i) != b.get_char(i) {
            return false;
        }
        assert(a@.subrange(0, i + 1) =~= a@.subrange(0, i as int).push(a@[i as int]));
        assert(b@.subrange(0, i + 1) =~= b@.subrange(0, i as int).push(b@[i as int]));
        i = i + 1;
    }
    assert(a@ =~= a@.subrange(0, la as int));
    assert(b@ =~= b@.subrange(0, la as int));
    true
}

/// A pre-release field that reads back as itself: a number, or a non-empty
/// run of identifier characters.
pub open spec fn id_form(p: PreId) -> bool {
    match p {
        PreId::Numeric(_) => true,
        PreId::Alpha(t) => t@.len() >= 1 && forall|j: int| 0 <= j < t@.len() ==> is_ident_char(#[trigger] t@[j]),
    }
}

/// A version whose textual form reads back: well-formed pre-release fields,
/// and a build label of identifier characters and dots.
pub open spec fn text_form(v: VersionView) -> bool {
    &&& forall|i: int| 0 <= i < v.pre.len() ==> id_form(#[trigger] v.pre[i])
    &&& forall|j: int| 0 <= j < v.build.len() ==> allowed(#[trigger] v.build[j], true)
}

proof fn lemma_id_text(p: PreId)
    requires
        id_form(p),
    ensures
        pre_id_text(p).len() >= 1,
        forall|j: int| 0 <= j < pre_id_text(p).len() ==> is_ident_char(#[trigger] pre_id_text(p)[j]),
{
    if let PreId::Numeric(n) = p {
        lemma_decimal_props(n as nat);
    }
}

proof fn lemma_pre_step(ids: Seq<PreId>, m: int)
    requires
        1 <= m < ids.len(),
    ensures
        pre_text(ids.take(m + 1)) == pre_text(ids.take(m)) + seq!['.'] + pre_id_text(ids[m]),
{
    assert(ids.take(m + 1).drop_last() =~= ids.take(m));
}

proof fn lemma_pre_prefix(ids: Seq<PreId>, m: int)
    requires
        1 <= m <= ids.len(),
    ensures
        pre_text(ids.take(m)).len() <= pre_text(ids).len(),
        pre_text(ids).subrange(0, pre_text(ids.take(m)).len() as int) == pre_text(ids.take(m)),
    decreases ids.len(),
{
    if m == ids.len() {
        assert(ids.take(m) =~= ids);
        assert(pre_text(ids).subrange(0, pre_text(ids).len() as int) =~= pre_text(ids));
    } else {
        let d = ids.drop_last();
        lemma_pre_prefix(d, m);
        assert(d.take(m) =~= ids.take(m));
        assert(pre_text(ids) == pre_text(d) + seq!['.'] + pre_id_text(ids.last()));
        assert(pre_text(ids).subrange(0, pre_text(ids.take(m)).len() as int) =~= pre_text(d).subrange(
            0,
            pre_text(d.take(m)).len() as int,
        ));
    }
}

/// Where field `m` of the pre-release label lies in `s`, when the label is
/// written at `start` and followed by `+` or the end.
proof fn lemma_field_at(s: Seq<char>, start: int, ids: Seq<PreId>, m: int)
    requires
        0 <= start,
        start + pre_text(ids).len() <= s.len(),
        s.subrange(start, start + pre_text(ids).len()) == pre_text(ids),
        start + pre_text(ids).len() == s.len() || s[start + pre_text(ids).len()] == '+',
        forall|i: int| 0 <= i < ids.len() ==> id_form(#[trigger] ids[i]),
        0 <= m < ids.len(),
    ensures
        ({
            let q = if m == 0 {
                start
            } else {
                start + pre_text(ids.take(m)).len() + 1
            };
            let e = start + pre_text(ids.take(m + 1)).len();
            &&& run_to(s, q, e, false)
            &&& e > q
            &&& m >= 1 ==> s[q - 1] == '.'
            &&& m + 1 < ids.len() ==> e < s.len() && s[e] == '.'
            &&& m + 1 == ids.len() ==> e == start + pre_text(ids).len()
        }),
{
    let t = pre_text(ids);
    let end = start + t.len();
    lemma_id_text(ids[m]);
    let idt = pre_id_text(ids[m]);
    lemma_pre_prefix(ids, m + 1);
    let q = if m == 0 {
        start
    } else {
        start + pre_text(ids.take(m)).len() + 1
    };
    let e = start + pre_text(ids.take(m + 1)).len();
    if m == 0 {
        assert(ids.take(1).drop_last() =~= Seq::<PreId>::empty());
        assert(pre_text(ids.take(1)) == idt);
    } else {
        lemma_pre_step(ids, m);
        lemma_pre_prefix(ids, m);
        let a = pre_text(ids.take(m)).len() as int;
        assert(pre_text(ids.take(m + 1))[a] == '.');
        assert(t[a] == pre_text(ids.take(m + 1))[a]);
        assert(s[q - 1] == t[q - 1 - start]);
    }
    assert(e - q == idt.len());
    assert forall|j: int| q <= j < e implies allowed(#[trigger] s[j], false) by {
        assert(s[j] == t[j - start]);
        assert(t[j - start] == pre_text(ids.take(m + 1))[j - start]);
        assert(idt[j - q] == pre_text(ids.take(m + 1))[j - start]);
    }
    if m + 1 < ids.len() {
        lemma_pre_step(ids, m + 1);
        lemma_pre_prefix(ids, m + 2);
        assert(s[e] == t[e - start]);
        assert(t[e - start] == pre_text(ids.take(m + 2))[e - start]);
    } else {
        assert(ids.take(m + 1) =~= ids);
    }
    assert(0 <= q <= e <= s.len());
    assert(e == s.len() || !allowed(s[e], false));
    assert(e > q);
    assert(m >= 1 ==> s[q - 1] == '.');
}

/// Where the parts of a version's textual form lie.
proof fn lemma_version_layout(s: Seq<char>, w: VersionView)
    requires
        s == version_text(w),
        text_form(w),
    ensures
        ({
            let e1 = decimal(w.major as nat).len() as int;
            let e2 = e1 + 1 + decimal(w.minor as nat).len();
            let e3 = e2 + 1 + decimal(w.patch as nat).len();
            let e4 = if w.pre.len() == 0 {
                e3
            } else {
                e3 + 1 + pre_text(w.pre).len()
            };
            &&& number_at(s, 0, w.major)
            &&& e1 < s.len() && s[e1] == '.'
            &&& number_at(s, e1 + 1, w.minor)
            &&& e2 < s.len() && s[e2] == '.'
            &&& number_at(s, e2 + 1, w.patch)
            &&& e3 <= e4 <= s.len()
            &&& (w.pre.len() > 0 ==> s[e3] == '-' && s.subrange(e3 + 1, e4) == pre_text(w.pre))
            &&& (w.pre.len() == 0 ==> e3 == s.len() || s[e3] != '-')
            &&& (w.build.len() == 0 ==> e4 == s.len())
            &&& (w.build.len() > 0 ==> e4 + 1 < s.len() && s[e4] == '+' && run_to(s, e4 + 1, s.len() as int, true))
        }),
{
    lemma_decimal_props(w.major as nat);
    lemma_decimal_props(w.minor as nat);
    lemma_decimal_props(w.patch as nat);
    let d0 = decimal(w.major as nat);
    let d1 = decimal(w.minor as nat);
    let d2 = decimal(w.patch as nat);
    let pre = if w.pre.len() == 0 {
        Seq::<char>::empty()
    } else {
        seq!['-'] + pre_text(w.pre)
    };
    let build = if w.build.len() == 0 {
        Seq::<char>::empty()
    } else {
        seq!['+'] + w.build
    };
    let e1 = d0.len() as int;
    let e2 = e1 + 1 + d1.len();
    let e3 = e2 + 1 + d2.len();
    assert(s == d0 + seq!['.'] + d1 + seq!['.'] + d2 + pre + build);
    assert(s.subrange(0, e1) =~= d0);
    assert(s.subrange(e1 + 1, e2) =~= d1);
    assert(s.subrange(e2 + 1, e3) =~= d2);
    assert(s[e1] == '.');
    assert(s[e2] == '.');
    let e4 = e3 + pre.len();
    assert(s.subrange(e3, e4) =~= pre);
    assert(s.subrange(e4, s.len() as int) =~= build);
    if w.pre.len() > 0 {
        assert(s[e3] == '-');
        assert(s.subrange(e3 + 1, e4) =~= pre_text(w.pre));
    } else if w.build.len() > 0 {
        assert(s[e3] == '+');
    }
    if w.build.len() > 0 {
        assert(s[e4] == '+');
        assert forall|j: int| e4 + 1 <= j < s.len() implies allowed(#[trigger] s[j], true) by {
            assert(s[j] == w.build[j - e4 - 1]);
        }
    }
    if e3 < s.len() {
        assert(!is_digit(s[e3]));
    }
}

proof fn lemma_pre_text_chars(ids: Seq<PreId>)
    requires
        forall|i: int| 0 <= i < ids.len() ==> id_form(#[trigger] ids[i]),
    ensures
        forall|j: int| 0 <= j < pre_text(ids).len() ==> allowed(#[trigger] pre_text(ids)[j], true),
    decreases ids.len(),
{
    if ids.len() >= 1 {
        lemma_id_text(ids.last());
        if ids.len() >= 2 {
            lemma_pre_text_chars(ids.drop_last());
            let a = pre_text(ids.drop_last());
            let b = pre_id_text(ids.last());
            assert forall|j: int| 0 <= j < pre_text(ids).len() implies allowed(#[trigger] pre_text(ids)[j], true) by {
                if j < a.len() {
                    assert(pre_text(ids)[j] == a[j]);
                } else if j > a.len() {
                    assert(pre_text(ids)[j] == b[j - a.len() - 1]);
                }
            }
        }
    }
}

/// The textual form of a version holds no space and starts with a digit.
proof fn lemma_version_text_chars(v: VersionView)
    requires
        text_form(v),
    ensures
        version_text(v).len() >= 1,
        is_digit(version_text(v)[0]),
        forall|j: int| 0 <= j < version_text(v).len() ==> #[trigger] version_text(v)[j] != ' ',
{
    lemma_decimal_props(v.major as nat);
    lemma_decimal_props(v.minor as nat);
    lemma_decimal_props(v.patch as nat);
    lemma_pre_text_chars(v.pre);
    let t = version_text(v);
    let d0 = decimal(v.major as nat);
    let d1 = decimal(v.minor as nat);
    let d2 = decimal(v.patch as nat);
    let pre = if v.pre.len() == 0 {
        Seq::<char>::empty()
    } else {
        seq!['-'] + pre_text(v.pre)
    };
    let build = if v.build.len() == 0 {
        Seq::<char>::empty()
    } else {
        seq!['+'] + v.build
    };
    let parts = d0 + seq!['.'] + d1 + seq!['.'] + d2;
    assert(t == parts + pre + build);
    assert(t[0] == d0[0]);
    assert forall|j: int| 0 <= j < t.len() implies #[trigger] t[j] != ' ' by {
        let n0 = d0.len() as int;
        let n1 = n0 + 1 + d1.len();
        if j < n0 {
            assert(t[j] == d0[j]);
        } else if n0 < j < n1 {
            assert(t[j] == d1[j - n0 - 1]);
        } else if n1 < j < parts.len() {
            assert(t[j] == d2[j - n1 - 1]);
        } else if j == n0 || j == n1 {
            assert(t[j] == '.');
        } else if j < parts.len() + pre.len() {
            assert(t[j] == pre[j - parts.len()]);
            if j > parts.len() {
                assert(pre[j - parts.len()] == pre_text(v.pre)[j - parts.len() - 1]);
            }
        } else {
            assert(t[j] == build[j - parts.len() - pre.len()]);
            if j > parts.len() + pre.len() {
                assert(build[j - parts.len() - pre.len()] == v.build[j - parts.len() - pre.len() - 1]);
            }
        }
    }
}

/// A comparator whose textual form reads back.
pub open spec fn comparator_form(c: Comparator) -> bool {
    text_form(c.version@)
}

proof fn lemma_range_step(cs: Seq<Comparator>, m: int)
    requires
        1 <= m < cs.len(),
    ensures
        range_text(cs.take(m + 1)) == range_text(cs.take(m)) + seq![' '] + comparator_text(cs[m]),
{
    assert(cs.take(m + 1).drop_last() =~= cs.take(m));
}

proof fn lemma_range_prefix(cs: Seq<Comparator>, m: int)
    requires
        1 <= m <= cs.len(),
    ensures
        range_text(cs.take(m)).len() <= range_text(cs).len(),
        range_text(cs).subrange(0, range_text(cs.take(m)).len() as int) == range_text(cs.take(m)),
    decreases cs.len(),
{
    if m == cs.len() {
        assert(cs.take(m) =~= cs);
        assert(range_text(cs).subrange(0, range_text(cs).len() as int) =~= range_text(cs));
    } else {
        let d = cs.drop_last();
        lemma_range_prefix(d, m);
        assert(d.take(m) =~= cs.take(m));
        assert(range_text(cs) == range_text(d) + seq![' '] + comparator_text(cs.last()));
        assert(range_text(cs).subrange(0, range_text(cs.take(m)).len() as int) =~= range_text(d).subrange(
            0,
            range_text(d.take(m)).len() as int,
        ));
    }
}

/// Where comparator `m` of a range's textual form lies.
proof fn lemma_token_at(s: Seq<char>, cs: Seq<Comparator>, m: int)
    requires
        s == range_text(cs),
        forall|i: int| 0 <= i < cs.len() ==> comparator_form(#[trigger] cs[i]),
        0 <= m < cs.len(),
    ensures
        ({
            let q: int = if m == 0 {
                0
            } else {
                range_text(cs.take(m)).len() + 1int
            };
            let e = range_text(cs.take(m + 1)).len() as int;
            &&& 0 <= q <= e <= s.len()
            &&& s.subrange(q, e) == comparator_text(cs[m])
            &&& forall|j: int| q <= j < e ==> #[trigger] s[j] != ' '
            &&& m >= 1 ==> s[q - 1] == ' '
            &&& m + 1 < cs.len() ==> e < s.len() && s[e] == ' '
            &&& m + 1 == cs.len() ==> e == s.len()
        }),
{
    lemma_version_text_chars(cs[m].version@);
    let ct = comparator_text(cs[m]);
    assert forall|j: int| 0 <= j < ct.len() implies #[trigger] ct[j] != ' ' by {
        if j >= op_text(cs[m].op).len() {
            assert(ct[j] == version_text(cs[m].version@)[j - op_text(cs[m].op).len()]);
        }
    }
    lemma_range_prefix(cs, m + 1);
    let q: int = if m == 0 {
        0
    } else {
        range_text(cs.take(m)).len() + 1int
    };
    let e = range_text(cs.take(m + 1)).len() as int;
    if m == 0 {
        assert(cs.take(1).drop_last() =~= Seq::<Comparator>::empty());
        assert(range_text(cs.take(1)) == ct);
    } else {
        lemma_range_step(cs, m);
        lemma_range_prefix(cs, m);
        let a = range_text(cs.take(m)).len() as int;
        assert(range_text(cs.take(m + 1))[a] == ' ');
        assert(s[a] == range_text(cs.take(m + 1))[a]);
    }
    assert(s.subrange(q, e) =~= ct) by {
        assert forall|j: int| q <= j < e implies s[j] == ct[j - q] by {
            assert(s[j] == range_text(cs.take(m + 1))[j]);
        }
    }
    assert forall|j: int| q <= j < e implies #[trigger] s[j] != ' ' by {
        assert(s[j] == s.subrange(q, e)[j - q]);
    }
    if m + 1 < cs.len() {
        lemma_range_step(cs, m + 1);
        lemma_range_prefix(cs, m + 2);
        assert(s[e] == range_text(cs.take(m + 2))[e]);
    } else {
        assert(cs.take(m + 1) =~= cs);
    }
}

} // verus!
