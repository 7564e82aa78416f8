use crate::version::{digits_value, is_digit, parse_error, ParseError, Version, VersionRange};
use indexmap::IndexMap;
use url::Url;
use vstd::prelude::*;

verus! {

/// `indexmap::IndexMap`, held opaque: its entries are read through
/// `dependency_entries` and the wrappers below.
#[verifier::external_type_specification]
#[verifier::external_body]
#[verifier::reject_recursive_types(K)]
#[verifier::reject_recursive_types(V)]
#[verifier::reject_recursive_types(S)]
pub struct ExIndexMap<K, V, S>(IndexMap<K, V, S>);

/// `url::Url`, carried through unread as a descriptor's home page.
#[verifier::external_type_specification]
#[verifier::external_body]
pub struct ExUrl(Url);

/// The entries of a dependency map in their insertion order: package name and range.
pub uninterp spec fn dependency_entries(m: IndexMap<String, VersionRange>) -> Seq<(Seq<char>, VersionRange)>;

/// Relies on `IndexMap::new`: the new map has no entries.
#[verifier::external_body]
fn new_dependency_map() -> (m: IndexMap<String, VersionRange>)
    ensures
        dependency_entries(m) == Seq::<(Seq<char>, VersionRange)>::empty(),
{
    IndexMap::new()
}

/// Relies on `IndexMap::insert`: an existing key keeps its place and takes the
/// new value; a new key is appended last.
#[verifier::external_body]
fn insert_dependency(m: &mut IndexMap<String, VersionRange>, name: String, range: VersionRange)
    ensures
        forall|i: int|
            0 <= i < dependency_entries(*old(m)).len() && #[trigger] dependency_entries(*old(m))[i].0
                == name@ ==> dependency_entries(*final(m)) == dependency_entries(*old(m)).update(
                i,
                (name@, range),
            ),
        (forall|i: int|
            0 <= i < dependency_entries(*old(m)).len() ==> #[trigger] dependency_entries(*old(m))[i].0
                != name@) ==> dependency_entries(*final(m)) == dependency_entries(*old(m)).push(
            (name@, range),
        ),
{
    m.insert(name, range);
}

/// Relies on `IndexMap::len`: the number of entries.
#[verifier::external_body]
pub(crate) fn dependency_count(m: &IndexMap<String, VersionRange>) -> (n: usize)
    ensures
        n == dependency_entries(*m).len(),
{
    m.len()
}

/// Relies on `IndexMap::get_index`: the entry at position `i` in insertion order.
#[verifier::external_body]
pub(crate) fn dependency_at(m: &IndexMap<String, VersionRange>, i: usize) -> (r: Option<
    (&String, &VersionRange),
>)
    ensures
        (i < dependency_entries(*m).len()) == (r is Some),
        r is Some ==> r.unwrap().0@ == dependency_entries(*m)[i as int].0,
        r is Some ==> *r.unwrap().1 == dependency_entries(*m)[i as int].1,
{
    m.get_index(i)
}

/// A legacy file or folder: its path and the tag that identifies its owner.
pub struct LegacyAsset {
    pub path: String,
    pub tag: Option<String>,
}

pub open spec fn tag_view(t: Option<String>) -> Option<Seq<char>> {
    match t {
        Some(s) => Some(s@),
        None => None,
    }
}

/// The lowest host version a package supports: major and optional minor.
#[derive(Debug)]
pub struct PartialUnityVersion(pub u16, pub u8);

/// Whether host version `(hm, hn)` is below the minimum `(mm, mn)`.
pub open spec fn unity_below(host: PartialUnityVersion, min: PartialUnityVersion) -> bool {
    host.0 < min.0 || (host.0 == min.0 && host.1 < min.1)
}

impl PartialUnityVersion {
    pub fn major(&self) -> (r: u16)
        ensures
            r == self.0,
    {
        self.0
    }

    pub fn minor(&self) -> (r: u8)
        ensures
            r == self.1,
    {
        self.1
    }

    /// Reads `major.minor`, or `major` alone (minor 0): the text is split at
    /// its first dot, and each side, trimmed of white space, is a decimal
    /// number with an optional `+` sign that fits its field.
    pub fn parse(s: &str) -> (r: Result<PartialUnityVersion, ParseError>)
        ensures
            match r {
                Ok(v) => unity_of(s@) == Some((v.0 as nat, v.1 as nat)),
                Err(e) => e.text@ == s@ && unity_of(s@) is None,
            },
    {
        let len = s.unicode_len();
        let dot = first_dot(s, len);
        if dot < len {
            let major = match read_field(s, 0, dot, 65535) {
                Some(m) => m,
                None => return Err(parse_error(s)),
            };
            let minor = match read_field(s, dot + 1, len, 255) {
                Some(m) => m,
                None => return Err(parse_error(s)),
            };
            Ok(PartialUnityVersion(major as u16, minor as u8))
        } else {
            assert(s@.subrange(0, len as int) =~= s@);
            match read_field(s, 0, len, 65535) {
                Some(m) => Ok(PartialUnityVersion(m as u16, 0)),
                None => Err(parse_error(s)),
            }
        }
    }
}

/// White space as `str::trim` removes it.
pub open spec fn is_ws(c: char) -> bool {
    c == ' ' || ('\t' <= c && c <= '\r') || c == '\u{85}' || c == '\u{A0}' || c == '\u{1680}' || ('\u{2000}'
        <= c && c <= '\u{200A}') || c == '\u{2028}' || c == '\u{2029}' || c == '\u{202F}' || c == '\u{205F}'
        || c == '\u{3000}'
}

/// `s` without leading and trailing white space.
pub open spec fn trim(s: Seq<char>) -> Seq<char>
    decreases s.len(),
{
    if s.len() > 0 && is_ws(s[0]) {
        trim(s.drop_first())
    } else if s.len() > 0 && is_ws(s.last()) {
        trim(s.drop_last())
    } else {
        s
    }
}

/// The value of a non-empty run of decimal digits.
pub open spec fn digits_of(d: Seq<char>) -> Option<nat> {
    if d.len() > 0 && forall|j: int| 0 <= j < d.len() ==> is_digit(#[trigger] d[j]) {
        Some(digits_value(d))
    } else {
        None
    }
}

/// The value of a decimal number with an optional leading `+`.
pub open spec fn unsigned_of(t: Seq<char>) -> Option<nat> {
    if t.len() > 0 && t[0] == '+' {
        digits_of(t.drop_first())
    } else {
        digits_of(t)
    }
}

/// The position of the first dot, or the length where there is none.
pub open spec fn dot_index(s: Seq<char>) -> int
    decreases s.len(),
{
    if s.len() == 0 {
        0
    } else if s.last() == '.' && dot_index(s.drop_last()) == s.len() - 1 {
        s.len() - 1
    } else if dot_index(s.drop_last()) < s.len() - 1 {
        dot_index(s.drop_last())
    } else {
        s.len() as int
    }
}

/// The field of a trimmed number, when it fits below `limit`.
pub open spec fn field_of(t: Seq<char>, limit: nat) -> Option<nat> {
    within(unsigned_of(trim(t)), limit)
}

pub open spec fn within(o: Option<nat>, limit: nat) -> Option<nat> {
    match o {
        Some(n) => if n <= limit {
            Some(n)
        } else {
            None
        },
        None => None,
    }
}

/// What `PartialUnityVersion::parse` reads from `s`.
pub open spec fn unity_of(s: Seq<char>) -> Option<(nat, nat)> {
    let i = dot_index(s);
    if i < s.len() {
        match (field_of(s.subrange(0, i), 65535), field_of(s.subrange(i + 1, s.len() as int), 255)) {
            (Some(a), Some(b)) => Some((a, b)),
            _ => None,
        }
    } else {
        match field_of(s, 65535) {
            Some(a) => Some((a, 0)),
            None => None,
        }
    }
}

proof fn lemma_dot_index(s: Seq<char>)
    ensures
        0 <= dot_index(s) <= s.len(),
        forall|j: int| 0 <= j < dot_index(s) ==> #[trigger] s[j] != '.',
        dot_index(s) < s.len() ==> s[dot_index(s)] == '.',
    decreases s.len(),
{
    if s.len() > 0 {
        lemma_dot_index(s.drop_last());
        assert forall|j: int| 0 <= j < dot_index(s) implies #[trigger] s[j] != '.' by {
            if j < s.len() - 1 {
                assert(s[j] == s.drop_last()[j]);
            }
        }
    }
}

proof fn lemma_dot_index_unique(s: Seq<char>, k: int)
    requires
        0 <= k <= s.len(),
        forall|j: int| 0 <= j < k ==> #[trigger] s[j] != '.',
        k < s.len() ==> s[k] == '.',
    ensures
        dot_index(s) == k,
{
    lemma_dot_index(s);
    if dot_index(s) < k {
        assert(s[dot_index(s)] == '.');
    } else if k < dot_index(s) {
        assert(s[k] != '.');
    }
}

fn first_dot(s: &str, len: usize) -> (k: usize)
    requires
        len == s@.len(),
    ensures
        k == dot_index(s@),
{
    let mut k: usize = 0;
    while k < len && s.get_char(k) != '.'
        invariant
            len == s@.len(),
            k <= len,
            forall|j: int| 0 <= j < k ==> #[trigger] s@[j] != '.',
        decreases len - k,
    {
        k = k + 1;
    }
    proof {
        lemma_dot_index_unique(s@, k as int);
    }
    k
}

fn is_ws_char(c: char) -> (r: bool)
    ensures
        r == is_ws(c),
{
    c == ' ' || ('\t' <= c && c <= '\r') || c == '\u{85}' || c == '\u{A0}' || c == '\u{1680}' || ('\u{2000}'
        <= c && c <= '\u{200A}') || c == '\u{2028}' || c == '\u{2029}' || c == '\u{202F}' || c == '\u{205F}'
        || c == '\u{3000}'
}

/// Reads the trimmed number in `s[start..end]`, when it is at most `limit`.
fn read_field(s: &str, start: usize, end: usize, limit: u64) -> (r: Option<u64>)
    requires
        start <= end <= s@.len(),
    ensures
        match r {
            Some(n) => field_of(s@.subrange(start as int, end as int), limit as nat) == Some(n as nat),
            None => field_of(s@.subrange(start as int, end as int), limit as nat) is None,
        },
{
    let mut a: usize = start;
    let mut b: usize = end;
    while a < b && is_ws_char(s.get_char(a))
        invariant
            start <= a <= b,
            b == end,
            end <= s@.len(),
            trim(s@.subrange(start as int, end as int)) == trim(s@.subrange(a as int, b as int)),
        decreases b - a,
    {
        assert(s@.subrange(a as int, b as int).drop_first() =~= s@.subrange(a + 1, b as int));
        a = a + 1;
    }
    while a < b && is_ws_char(s.get_char(b - 1))
        invariant
            start <= a <= b <= end,
            end <= s@.len(),
            a < b ==> !is_ws(s@[a as int]),
            trim(s@.subrange(start as int, end as int)) == trim(s@.subrange(a as int, b as int)),
        decreases b - a,
    {
        assert(s@.subrange(a as int, b as int).drop_last() =~= s@.subrange(a as int, b - 1));
        assert(s@.subrange(a as int, b as int)[0] == s@[a as int]);
        b = b - 1;
    }
    let ghost t = s@.subrange(a as int, b as int);
    assert(trim(t) == t) by {
        if t.len() > 0 {
            assert(t[0] == s@[a as int]);
            assert(t.last() == s@[b - 1]);
        }
    }
    let plus = a < b && s.get_char(a) == '+';
    if plus {
        assert(t.drop_first() =~= s@.subrange(a + 1, b as int));
        a = a + 1;
    }
    let ghost d = s@.subrange(a as int, b as int);
    assert(d =~= (if t.len() > 0 && t[0] == '+' {
        t.drop_first()
    } else {
        t
    })) by {
        if t.len() > 0 {
            assert(t[0] == s@[a - (if plus { 1int } else { 0int })]);
        }
    }
    assert(unsigned_of(t) == digits_of(d));
    assert(field_of(s@.subrange(start as int, end as int), limit as nat) == within(digits_of(d), limit as nat));
    if a == b {
        return None;
    }
    let mut value: u64 = 0;
    let mut i: usize = a;
    while i < b
        invariant
            a <= i <= b,
            b <= s@.len(),
            d == s@.subrange(a as int, b as int),
            field_of(s@.subrange(start as int, end as int), limit as nat) == within(digits_of(d), limit as nat),
            value <= limit,
            value == digits_value(s@.subrange(a as int, i as int)),
            forall|j: int| a <= j < i ==> is_digit(#[trigger] s@[j]),
        decreases b - i,
    {
        let c = s.get_char(i);
        if !('0' <= c && c <= '9') {
            assert(!is_digit(d[i - a]));
            return None;
        }
        let dv = ((c as u32) - 48) as u64;
        assert(s@.subrange(a as int, i + 1).drop_last() =~= s@.subrange(a as int, i as int));
        if dv > limit || value > (limit - dv) / 10 {
            proof {
                assert(value * 10 + dv > limit) by (nonlinear_arith)
                    requires
                        dv > limit || value > (limit - dv) / 10,
                        dv <= 9,
                ;
                if forall|j: int| 0 <= j < d.len() ==> is_digit(#[trigger] d[j]) {
                    assert(d.subrange(0, i + 1 - a) =~= s@.subrange(a as int, i + 1));
                    crate::version::lemma_prefix_value(d, i + 1 - a);
                }
            }
            return None;
        }
        value = value * 10 + dv;
        i = i + 1;
    }
    assert(d =~= s@.subrange(a as int, i as int));
    Some(value)
}

/// Parsed metadata of one package version.
pub struct PackageJson {
    pub name: String,
    pub display_name: Option<String>,
    pub description: Option<String>,
    pub version: Version,
    pub vpm_dependencies: IndexMap<String, VersionRange>,
    pub url: Option<Url>,
    pub unity: Option<PartialUnityVersion>,
    pub legacy_folders: Vec<LegacyAsset>,
    pub legacy_files: Vec<LegacyAsset>,
    pub legacy_packages: Vec<String>,
    pub yanked: bool,
}

/// `new` is `old` with `path` declared under tag `guid`: the entry of that
/// path takes the tag in place, or a new entry is appended.
pub open spec fn legacy_declared(old: Seq<LegacyAsset>, new: Seq<LegacyAsset>, path: Seq<char>, guid: Seq<char>) -> bool {
    if exists|i: int| 0 <= i < old.len() && #[trigger] old[i].path@ == path {
        &&& new.len() == old.len()
        &&& forall|j: int|
            0 <= j < old.len() ==> if (#[trigger] old[j]).path@ == path {
                new[j].path@ == path && tag_view(new[j].tag) == Some(guid)
            } else {
                new[j] == old[j]
            }
    } else {
        &&& new.len() == old.len() + 1
        &&& new.drop_last() == old
        &&& new.last().path@ == path
        &&& tag_view(new.last().tag) == Some(guid)
    }
}

/// Legacy declarations keyed by path: no path occurs twice.
pub open spec fn paths_unique(s: Seq<LegacyAsset>) -> bool {
    forall|i: int, j: int|
        0 <= i < s.len() && 0 <= j < s.len() && i != j ==> #[trigger] s[i].path@ != #[trigger] s[j].path@
}

pub open spec fn deps_of(p: PackageJson) -> Seq<(Seq<char>, VersionRange)> {
    dependency_entries(p.vpm_dependencies)
}

/// Sets the tag of `path`, in place where the path is already declared, else appended.
fn upsert_legacy(v: &mut Vec<LegacyAsset>, path: String, tag: String)
    requires
        paths_unique(old(v)@),
    ensures
        paths_unique(final(v)@),
        forall|i: int|
            0 <= i < old(v)@.len() && #[trigger] old(v)@[i].path@ == path@ ==> final(v)@ == old(v)@.update(i, LegacyAsset { path, tag: Some(tag) }),
        (forall|i: int| 0 <= i < old(v)@.len() ==> #[trigger] old(v)@[i].path@ != path@) ==> final(v)@ == old(v)@.push(LegacyAsset { path, tag: Some(tag) }),
{
    let mut i: usize = 0;
    while i < v.len()
        invariant
            v@ == old(v)@,
            paths_unique(old(v)@),
            i <= v@.len(),
            forall|j: int| 0 <= j < i ==> #[trigger] v@[j].path@ != path@,
        decreases v@.len() - i,
    {
        if v[i].path == path {
            let ghost at = i as int;
            let ghost before = v@;
            v.set(i, LegacyAsset { path, tag: Some(tag) });
            proof {
                assert(before[at].path@ == path@);
                assert(v@[at].path@ == path@);
                assert forall|k: int| 0 <= k < before.len() && #[trigger] before[k].path@ == path@ implies k == at by {
                    if k != at {
                        assert(before[k].path@ != before[at].path@);
                    }
                }
                assert forall|a: int, b: int|
                    0 <= a < v@.len() && 0 <= b < v@.len() && a != b implies #[trigger] v@[a].path@
                    != #[trigger] v@[b].path@ by {
                    if a != at && b != at {
                        assert(v@[a] == before[a] && v@[b] == before[b]);
                    } else if a == at {
                        assert(v@[b] == before[b]);
                        assert(before[b].path@ != before[at].path@);
                    } else {
                        assert(v@[a] == before[a]);
                        assert(before[a].path@ != before[at].path@);
                    }
                }
            }
            return;
        }
        i = i + 1;
    }
    let ghost before = v@;
    v.push(LegacyAsset { path, tag: Some(tag) });
    proof {
        assert forall|a: int, b: int|
            0 <= a < v@.len() && 0 <= b < v@.len() && a != b implies #[trigger] v@[a].path@
            != #[trigger] v@[b].path@ by {
            if a < before.len() && b < before.len() {
                assert(v@[a] == before[a] && v@[b] == before[b]);
            } else if a < before.len() {
                assert(v@[a] == before[a]);
            } else {
                assert(v@[b] == before[b]);
            }
        }
    }
}

impl PackageJson {
    /// A package with the given name and version and nothing else declared.
    pub fn new(name: &str, version: Version) -> (r: PackageJson)
        ensures
            r.name@ == name@,
            r.version == version,
            r.display_name is None,
            r.description is None,
            deps_of(r).len() == 0,
            r.url is None,
            r.unity is None,
            r.legacy_folders@.len() == 0,
            r.legacy_files@.len() == 0,
            r.legacy_packages@.len() == 0,
            !r.yanked,
    {
        PackageJson {
            name: String::from_str(name),
            display_name: None,
            description: None,
            version,
            vpm_dependencies: new_dependency_map(),
            url: None,
            unity: None,
            legacy_folders: Vec::new(),
            legacy_files: Vec::new(),
            legacy_packages: Vec::new(),
            yanked: false,
        }
    }

    /// Adds (or replaces) the dependency on `name`.
    pub fn add_vpm_dependency(self, name: &str, range: VersionRange) -> (r: PackageJson)
        ensures
            r.name == self.name,
            r.version == self.version,
            r.legacy_folders == self.legacy_folders,
            r.legacy_files == self.legacy_files,
            r.legacy_packages == self.legacy_packages,
            r.unity == self.unity,
            r.yanked == self.yanked,
            forall|i: int|
                0 <= i < deps_of(self).len() && #[trigger] deps_of(self)[i].0 == name@ ==> deps_of(r)
                    == deps_of(self).update(i, (name@, range)),
            (forall|i: int| 0 <= i < deps_of(self).len() ==> #[trigger] deps_of(self)[i].0 != name@)
                ==> deps_of(r) == deps_of(self).push((name@, range)),
    {
        let mut s = self;
        insert_dependency(&mut s.vpm_dependencies, String::from_str(name), range);
        s
    }

    /// Declares `name` as an older package that this one replaces.
    pub fn add_legacy_package(self, name: &str) -> (r: PackageJson)
        ensures
            r.name == self.name,
            r.version == self.version,
            deps_of(r) == deps_of(self),
            r.legacy_folders == self.legacy_folders,
            r.legacy_files == self.legacy_files,
            r.legacy_packages@.len() == self.legacy_packages@.len() + 1,
            r.legacy_packages@.drop_last() == self.legacy_packages@,
            r.legacy_packages@.last()@ == name@,
            r.unity == self.unity,
            r.yanked == self.yanked,
    {
        let mut s = self;
        s.legacy_packages.push(String::from_str(name));
        assert(s.legacy_packages@.drop_last() =~= self.legacy_packages@);
        s
    }

    /// Declares a legacy folder owned by the tag `guid`.
    pub fn add_legacy_folder(self, path: &str, guid: &str) -> (r: PackageJson)
        requires
            paths_unique(self.legacy_folders@),
        ensures
            r.name == self.name,
            r.display_name == self.display_name,
            r.description == self.description,
            r.version == self.version,
            r.url == self.url,
            deps_of(r) == deps_of(self),
            r.legacy_files == self.legacy_files,
            r.legacy_packages == self.legacy_packages,
            r.unity == self.unity,
            r.yanked == self.yanked,
            paths_unique(r.legacy_folders@),
            legacy_declared(self.legacy_folders@, r.legacy_folders@, path@, guid@),
    {
        let mut s = self;
        let p = String::from_str(path);
        let g = String::from_str(guid);
        upsert_legacy(&mut s.legacy_folders, p, g);
        proof {
            let n = self.legacy_folders@.len();
            if exists|i: int| 0 <= i < n && #[trigger] self.legacy_folders@[i].path@ == path@ {
                let i = choose|i: int| 0 <= i < n && #[trigger] self.legacy_folders@[i].path@ == path@;
                assert forall|j: int| 0 <= j < n && #[trigger] self.legacy_folders@[j].path@ == path@ implies j == i by {
                    if j != i {
                        assert(self.legacy_folders@[j].path@ != self.legacy_folders@[i].path@);
                    }
                }
            } else {
                assert(s.legacy_folders@.drop_last() =~= self.legacy_folders@);
            }
        }
        s
    }

    /// Declares a legacy file owned by the tag `guid`.
    pub fn add_legacy_file(self, path: &str, guid: &str) -> (r: PackageJson)
        requires
            paths_unique(self.legacy_files@),
        ensures
            r.name == self.name,
            r.display_name == self.display_name,
            r.description == self.description,
            r.version == self.version,
            r.url == self.url,
            deps_of(r) == deps_of(self),
            r.legacy_folders == self.legacy_folders,
            r.legacy_packages == self.legacy_packages,
            r.unity == self.unity,
            r.yanked == self.yanked,
            paths_unique(r.legacy_files@),
            legacy_declared(self.legacy_files@, r.legacy_files@, path@, guid@),
    {
        let mut s = self;
        let p = String::from_str(path);
        let g = String::from_str(guid);
        upsert_legacy(&mut s.legacy_files, p, g);
        proof {
            let n = self.legacy_files@.len();
            if exists|i: int| 0 <= i < n && #[trigger] self.legacy_files@[i].path@ == path@ {
                let i = choose|i: int| 0 <= i < n && #[trigger] self.legacy_files@[i].path@ == path@;
                assert forall|j: int| 0 <= j < n && #[trigger] self.legacy_files@[j].path@ == path@ implies j == i by {
                    if j != i {
                        assert(self.legacy_files@[j].path@ != self.legacy_files@[i].path@);
                    }
                }
            } else {
                assert(s.legacy_files@.drop_last() =~= self.legacy_files@);
            }
        }
        s
    }

    pub fn name(&self) -> (r: &str)
        ensures
            r@ == self.name@,
    {
        self.name.as_str()
    }

    pub fn version(&self) -> (r: &Version)
        ensures
            *r == self.version,
    {
        &self.version
    }

    pub fn vpm_dependencies(&self) -> (r: &IndexMap<String, VersionRange>)
        ensures
            dependency_entries(*r) == deps_of(*self),
    {
        &self.vpm_dependencies
    }

    pub fn legacy_folders(&self) -> (r: &Vec<LegacyAsset>)
        ensures
            r@ == self.legacy_folders@,
    {
        &self.legacy_folders
    }

    pub fn legacy_files(&self) -> (r: &Vec<LegacyAsset>)
        ensures
            r@ == self.legacy_files@,
    {
        &self.legacy_files
    }

    pub fn legacy_packages(&self) -> (r: &[String])
        ensures
            r@ == self.legacy_packages@,
    {
        self.legacy_packages.as_slice()
    }

    pub fn display_name(&self) -> (r: Option<&str>)
        ensures
            match self.display_name {
                Some(d) => r matches Some(s) && s@ == d@,
                None => r is None,
            },
    {
        match &self.display_name {
            Some(d) => Some(d.as_str()),
            None => None,
        }
    }

    pub fn description(&self) -> (r: Option<&str>)
        ensures
            match self.description {
                Some(d) => r matches Some(s) && s@ == d@,
                None => r is None,
            },
    {
        match &self.description {
            Some(d) => Some(d.as_str()),
            None => None,
        }
    }

    pub fn url(&self) -> (r: Option<&Url>)
        ensures
            match self.url {
                Some(u) => r matches Some(x) && *x == u,
                None => r is None,
            },
    {
        match &self.url {
            Some(u) => Some(u),
            None => None,
        }
    }

    pub fn unity(&self) -> (r: Option<&PartialUnityVersion>)
        ensures
            match self.unity {
                Some(u) => r matches Some(x) && *x == u,
                None => r is None,
            },
    {
        match &self.unity {
            Some(u) => Some(u),
            None => None,
        }
    }

    pub fn is_yanked(&self) -> (r: bool)
        ensures
            r == self.yanked,
    {
        self.yanked
    }
}

} // verus!
