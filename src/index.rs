use crate::package::PackageJson;
use crate::version::{lemma_precedence_laws, text_eq, precedence, VersionView};
use core::cmp::Ordering;
use vstd::prelude::*;
use vstd::set_lib::{lemma_int_range, lemma_len_subset, set_int_range};

verus! {

/// A remote repository: its identifier, address and display name, each optional.
pub struct Repository {
    pub id: Option<String>,
    pub url: Option<String>,
    pub name: Option<String>,
}

/// A package version together with where it came from: a repository of the
/// index (`Some` position) or the user's local folders (`None`).
pub struct PackageInfo {
    pub package: PackageJson,
    pub repo: Option<usize>,
}

/// Every known package version, from all repositories and local folders.
pub struct PackageIndex {
    pub repositories: Vec<Repository>,
    pub packages: Vec<PackageInfo>,
}

pub open spec fn version_of(p: PackageInfo) -> VersionView {
    p.package.version@
}

/// `a` is listed before `b`: higher version, then not yanked, then remote before local.
pub open spec fn ranks_before(a: PackageInfo, b: PackageInfo) -> bool {
    let o = precedence(version_of(a), version_of(b));
    o == Ordering::Greater || (o == Ordering::Equal && ((!a.package.yanked && b.package.yanked) || (
    a.package.yanked == b.package.yanked && a.repo is Some && b.repo is None)))
}

/// A sequence of distinct positions below `n` has at most `n` elements.
pub proof fn lemma_distinct_positions(s: Seq<usize>, n: nat)
    requires
        s.no_duplicates(),
        forall|k: int| 0 <= k < s.len() ==> (#[trigger] s[k] as int) < n,
    ensures
        s.len() <= n,
{
    let si = s.map_values(|x: usize| x as int);
    assert forall|a: int, b: int| 0 <= a < si.len() && 0 <= b < si.len() && a != b implies si[a]
        != si[b] by {
        assert(s[a] != s[b]);
    }
    assert(si.no_duplicates());
    si.unique_seq_to_set();
    lemma_int_range(0, n as int);
    assert(si.to_set().subset_of(set_int_range(0, n as int)));
    lemma_len_subset(si.to_set(), set_int_range(0, n as int));
}

impl PackageIndex {
    pub open spec fn wf(&self) -> bool {
        forall|i: int|
            0 <= i < self.packages@.len() && #[trigger] self.packages@[i].repo is Some
                ==> self.packages@[i].repo.unwrap() < self.repositories@.len()
    }

    pub open spec fn eligible(&self, i: int, name: Seq<char>, include_prerelease: bool, include_yanked: bool) -> bool {
        let p = self.packages@[i];
        &&& p.package.name@ == name
        &&& include_prerelease || p.package.version@.pre.len() == 0
        &&& include_yanked || !p.package.yanked
    }

    /// An index with no repository and no package.
    pub fn new() -> (r: PackageIndex)
        ensures
            r.wf(),
            r.repositories@.len() == 0,
            r.packages@.len() == 0,
    {
        PackageIndex { repositories: Vec::new(), packages: Vec::new() }
    }

    /// Registers a repository and returns its position.
    pub fn add_repository(&mut self, repo: Repository) -> (r: usize)
        requires
            old(self).wf(),
            old(self).repositories@.len() < usize::MAX,
        ensures
            final(self).wf(),
            r == old(self).repositories@.len(),
            final(self).repositories@ == old(self).repositories@.push(repo),
            final(self).packages@ == old(self).packages@,
    {
        let r = self.repositories.len();
        self.repositories.push(repo);
        r
    }

    /// Adds a package version from repository `repo`, or a local one for `None`.
    pub fn add_package(&mut self, package: PackageJson, repo: Option<usize>)
        requires
            old(self).wf(),
            repo matches Some(r) ==> r < old(self).repositories@.len(),
        ensures
            final(self).wf(),
            final(self).repositories@ == old(self).repositories@,
            final(self).packages@ == old(self).packages@.push(PackageInfo { package, repo }),
    {
        self.packages.push(PackageInfo { package, repo });
    }

    /// The highest version named `name` after leaving out pre-releases and yanked
    /// versions unless asked for.
    pub fn get_latest(&self, name: &str, include_prerelease: bool, include_yanked: bool) -> (r: Option<usize>)
        ensures
            match r {
                Some(i) => i < self.packages@.len() && self.eligible(
                    i as int,
                    name@,
                    include_prerelease,
                    include_yanked,
                ) && forall|j: int|
                    0 <= j < self.packages@.len() && self.eligible(
                        j,
                        name@,
                        include_prerelease,
                        include_yanked,
                    ) ==> precedence(
                        #[trigger] version_of(self.packages@[j]),
                        version_of(self.packages@[i as int]),
                    ) != Ordering::Greater,
                None => forall|j: int|
                    0 <= j < self.packages@.len() ==> !self.eligible(
                        j,
                        name@,
                        include_prerelease,
                        include_yanked,
                    ),
            },
    {
        let mut best: Option<usize> = None;
        let mut i: usize = 0;
        while i < self.packages.len()
            invariant
                i <= self.packages@.len(),
                match best {
                    Some(b) => b < i && self.eligible(b as int, name@, include_prerelease, include_yanked)
                        && forall|j: int|
                        0 <= j < i && self.eligible(j, name@, include_prerelease, include_yanked)
                            ==> precedence(
                            #[trigger] version_of(self.packages@[j]),
                            version_of(self.packages@[b as int]),
                        ) != Ordering::Greater,
                    None => forall|j: int|
                        0 <= j < i ==> !self.eligible(j, name@, include_prerelease, include_yanked),
                },
            decreases self.packages@.len() - i,
        {
            let p = &self.packages[i];
            let ok = text_eq(p.package.name.as_str(), name) && (include_prerelease || p.package.version.pre.len()
                == 0) && (include_yanked || !p.package.yanked);
            if ok {
                match best {
                    None => {
                        proof {
                            lemma_precedence_laws(p.package.version@, p.package.version@, p.package.version@);
                        }
                        best = Some(i);
                    },
                    Some(b) => {
                        let vb = &self.packages[b].package.version;
                        if vb.precedes(&p.package.version) {
                            proof {
                                lemma_precedence_laws(p.package.version@, p.package.version@, p.package.version@);
                                assert forall|j: int|
                                    0 <= j < i && self.eligible(j, name@, include_prerelease, include_yanked)
                                        implies precedence(
                                        #[trigger] version_of(self.packages@[j]),
                                        version_of(self.packages@[i as int]),
                                    ) != Ordering::Greater by {
                                    lemma_precedence_laws(version_of(self.packages@[j]), vb@, p.package.version@);
                                }
                            }
                            best = Some(i);
                        } else {
                            proof {
                                lemma_precedence_laws(vb@, p.package.version@, vb@);
                            }
                        }
                    },
                }
            }
            i = i + 1;
        }
        best
    }
}


/// Ranking before another entry is a strict order.
pub proof fn lemma_ranks_before_strict(a: PackageInfo, b: PackageInfo, c: PackageInfo)
    ensures
        !ranks_before(a, a),
        ranks_before(a, b) && ranks_before(b, c) ==> ranks_before(a, c),
{
    lemma_precedence_laws(version_of(a), version_of(b), version_of(c));
    lemma_precedence_laws(version_of(c), version_of(b), version_of(a));
    lemma_precedence_laws(version_of(a), version_of(c), version_of(b));
}

fn ranks_before_exec(a: &PackageInfo, b: &PackageInfo) -> (r: bool)
    ensures
        r == ranks_before(*a, *b),
{
    match a.package.version.cmp_precedence(&b.package.version) {
        Ordering::Greater => true,
        Ordering::Less => false,
        Ordering::Equal => (!a.package.yanked && b.package.yanked) || (a.package.yanked
            == b.package.yanked && a.repo.is_some() && b.repo.is_none()),
    }
}

impl PackageIndex {
    /// Positions of every version named `name`, from the highest version down;
    /// among equal versions non-yanked ones first, then remote before local.
    pub fn find(&self, name: &str) -> (r: Vec<usize>)
        ensures
            r@.no_duplicates(),
            forall|k: int|
                0 <= k < r@.len() ==> #[trigger] r@[k] < self.packages@.len()
                    && self.packages@[r@[k] as int].package.name@ == name@,
            forall|j: int|
                0 <= j < self.packages@.len() && #[trigger] self.packages@[j].package.name@ == name@
                    ==> r@.contains(j as usize),
            forall|k: int|
                0 <= k < r@.len() - 1 ==> !ranks_before(
                    self.packages@[#[trigger] r@[k + 1] as int],
                    self.packages@[r@[k] as int],
                ),
    {
        let n = self.packages.len();
        let mut taken: Vec<bool> = Vec::new();
        let mut t: usize = 0;
        while t < n
            invariant
                n == self.packages@.len(),
                t <= n,
                taken@.len() == t,
                forall|j: int| 0 <= j < t ==> !taken@[j],
            decreases n - t,
        {
            taken.push(false);
            t = t + 1;
        }
        let mut out: Vec<usize> = Vec::new();
        loop
            invariant
                n == self.packages@.len(),
                taken@.len() == n,
                out@.len() <= n,
                out@.no_duplicates(),
                forall|k: int|
                    0 <= k < out@.len() ==> #[trigger] out@[k] < n && self.packages@[out@[k] as int].package.name@
                        == name@,
                forall|j: int| 0 <= j < n ==> (#[trigger] taken@[j] <==> out@.contains(j as usize)),
                forall|k: int|
                    0 <= k < out@.len() - 1 ==> !ranks_before(
                        self.packages@[#[trigger] out@[k + 1] as int],
                        self.packages@[out@[k] as int],
                    ),
                out@.len() > 0 ==> forall|j: int|
                    0 <= j < n && !taken@[j] && #[trigger] self.packages@[j].package.name@ == name@
                        ==> !ranks_before(self.packages@[j], self.packages@[out@.last() as int]),
            decreases n - out@.len(),
        {
            proof {
                lemma_distinct_positions(out@, n as nat);
            }
            let mut best: Option<usize> = None;
            let mut i: usize = 0;
            while i < n
                invariant
                    n == self.packages@.len(),
                    taken@.len() == n,
                    i <= n,
                    match best {
                        Some(b) => b < i && !taken@[b as int] && self.packages@[b as int].package.name@
                            == name@ && forall|j: int|
                            0 <= j < i && !taken@[j] && #[trigger] self.packages@[j].package.name@
                                == name@ ==> !ranks_before(self.packages@[j], self.packages@[b as int]),
                        None => forall|j: int|
                            0 <= j < i && !taken@[j] ==> #[trigger] self.packages@[j].package.name@
                                != name@,
                    },
                decreases n - i,
            {
                if !taken[i] && text_eq(self.packages[i].package.name.as_str(), name) {
                    match best {
                        None => {
                            proof {
                                lemma_ranks_before_strict(self.packages@[i as int], self.packages@[i as int], self.packages@[i as int]);
                            }
                            best = Some(i);
                        },
                        Some(b) => {
                            if ranks_before_exec(&self.packages[i], &self.packages[b]) {
                                proof {
                                    lemma_ranks_before_strict(self.packages@[i as int], self.packages@[i as int], self.packages@[i as int]);
                                    assert forall|j: int|
                                        0 <= j < i && !taken@[j] && #[trigger] self.packages@[j].package.name@
                                            == name@ implies !ranks_before(
                                        self.packages@[j],
                                        self.packages@[i as int],
                                    ) by {
                                        lemma_ranks_before_strict(
                                            self.packages@[j],
                                            self.packages@[i as int],
                                            self.packages@[b as int],
                                        );
                                    }
                                }
                                best = Some(i);
                            }
                        },
                    }
                }
                i = i + 1;
            }
            match best {
                None => {
                    assert forall|j: int|
                        0 <= j < self.packages@.len() && #[trigger] self.packages@[j].package.name@
                            == name@ implies out@.contains(j as usize) by {
                        assert(taken@[j]);
                    }
                    return out;
                },
                Some(b) => {
                    let ghost before = out@;
                    out.push(b);
                    taken.set(b, true);
                    proof {
                        assert forall|j: int| 0 <= j < n implies (#[trigger] taken@[j] <==> out@.contains(
                            j as usize,
                        )) by {
                            if j == b {
                                assert(out@[before.len() as int] == b);
                            } else {
                                if out@.contains(j as usize) {
                                    let k = choose|k: int| 0 <= k < out@.len() && out@[k] == j as usize;
                                    assert(k < before.len());
                                    assert(before.contains(j as usize));
                                }
                                if before.contains(j as usize) {
                                    let k = choose|k: int| 0 <= k < before.len() && before[k] == j as usize;
                                    assert(out@[k] == j as usize);
                                }
                            }
                        }
                        assert forall|x: int, y: int|
                            0 <= x < out@.len() && 0 <= y < out@.len() && x != y implies out@[x] != out@[y] by {
                            if x < before.len() && y < before.len() {
                            } else if x < before.len() {
                                assert(before.contains(out@[x]));
                            } else {
                                assert(before.contains(out@[y]));
                            }
                        }
                        lemma_distinct_positions(out@, n as nat);
                    }
                },
            }
        }
    }
}

} // verus!
