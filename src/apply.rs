use crate::index::PackageIndex;
use crate::plan::{path_listed, PackageChange, PendingChanges};
use crate::version::{Version, VersionView};
use vstd::prelude::*;

verus! {

/// One locked package of the manifest.
pub struct LockedEntry {
    pub name: String,
    pub version: Version,
}

/// A project manifest: top-level dependencies and the locked packages.
pub struct Manifest {
    pub dependencies: Vec<String>,
    pub locked: Vec<LockedEntry>,
}

/// The locked packages as a map from name to version.
pub open spec fn locked_view(s: Seq<LockedEntry>) -> Map<Seq<char>, VersionView>
    decreases s.len(),
{
    if s.len() == 0 {
        Map::empty()
    } else {
        locked_view(s.drop_last()).insert(s.last().name@, s.last().version@)
    }
}

pub open spec fn names_unique(s: Seq<LockedEntry>) -> bool {
    forall|a: int, b: int|
        0 <= a < s.len() && 0 <= b < s.len() && a != b ==> #[trigger] s[a].name@ != #[trigger] s[b].name@
}

/// The manifest after a sequence of updates: `Some(v)` locks the name at `v`,
/// `None` drops it.
pub open spec fn manifest_after(
    m: Map<Seq<char>, VersionView>,
    ops: Seq<(Seq<char>, Option<VersionView>)>,
) -> Map<Seq<char>, VersionView>
    decreases ops.len(),
{
    if ops.len() == 0 {
        m
    } else {
        let prev = manifest_after(m, ops.drop_last());
        match ops.last().1 {
            Some(v) => prev.insert(ops.last().0, v),
            None => prev.remove(ops.last().0),
        }
    }
}

/// The last update that `ops` makes to `name`, if any.
pub open spec fn last_op(ops: Seq<(Seq<char>, Option<VersionView>)>, name: Seq<char>) -> Option<Option<VersionView>>
    decreases ops.len(),
{
    if ops.len() == 0 {
        None
    } else if ops.last().0 == name {
        Some(ops.last().1)
    } else {
        last_op(ops.drop_last(), name)
    }
}

/// The manifest updates that a plan's package changes stand for.
pub open spec fn plan_ops(index: PackageIndex, changes: Seq<(String, PackageChange)>) -> Seq<(Seq<char>, Option<VersionView>)> {
    changes.map_values(
        |c: (String, PackageChange)|
            (c.0@, match c.1 {
                PackageChange::Install(i) => Some(index.packages@[i as int].package.version@),
                PackageChange::Remove(_) => None,
            }),
    )
}

proof fn lemma_after_entry(
    m: Map<Seq<char>, VersionView>,
    ops: Seq<(Seq<char>, Option<VersionView>)>,
    name: Seq<char>,
)
    ensures
        match last_op(ops, name) {
            None => manifest_after(m, ops).dom().contains(name) == m.dom().contains(name) && (m.dom().contains(
                name,
            ) ==> manifest_after(m, ops)[name] == m[name]),
            Some(Some(v)) => manifest_after(m, ops).dom().contains(name) && manifest_after(m, ops)[name] == v,
            Some(None) => !manifest_after(m, ops).dom().contains(name),
        },
    decreases ops.len(),
{
    if ops.len() > 0 {
        lemma_after_entry(m, ops.drop_last(), name);
    }
}

/// Applying the same updates a second time changes nothing: every name ends
/// as its last update leaves it, and the others keep their first value.
pub proof fn lemma_apply_idempotent(
    m: Map<Seq<char>, VersionView>,
    ops: Seq<(Seq<char>, Option<VersionView>)>,
)
    ensures
        manifest_after(manifest_after(m, ops), ops) == manifest_after(m, ops),
{
    let once = manifest_after(m, ops);
    let twice = manifest_after(once, ops);
    assert forall|n: Seq<char>| #[trigger] twice.dom().contains(n) == once.dom().contains(n) && (
    once.dom().contains(n) ==> twice[n] == once[n]) by {
        lemma_after_entry(m, ops, n);
        lemma_after_entry(once, ops, n);
    }
    assert(twice =~= once);
}

proof fn lemma_view_dom(s: Seq<LockedEntry>, name: Seq<char>)
    ensures
        locked_view(s).dom().contains(name) <==> exists|i: int| 0 <= i < s.len() && #[trigger] s[i].name@ == name,
    decreases s.len(),
{
    if s.len() > 0 {
        lemma_view_dom(s.drop_last(), name);
        if exists|i: int| 0 <= i < s.len() - 1 && #[trigger] s.drop_last()[i].name@ == name {
            let i = choose|i: int| 0 <= i < s.len() - 1 && #[trigger] s.drop_last()[i].name@ == name;
            assert(s[i].name@ == name);
        }
        if exists|i: int| 0 <= i < s.len() && #[trigger] s[i].name@ == name {
            let i = choose|i: int| 0 <= i < s.len() && #[trigger] s[i].name@ == name;
            if i < s.len() - 1 {
                assert(s.drop_last()[i].name@ == name);
            }
        }
    }
}

proof fn lemma_view_remove(s: Seq<LockedEntry>, i: int)
    requires
        names_unique(s),
        0 <= i < s.len(),
    ensures
        locked_view(s.remove(i)) == locked_view(s).remove(s[i].name@),
        names_unique(s.remove(i)),
    decreases s.len(),
{
    let n = s[i].name@;
    if i == s.len() - 1 {
        assert(s.remove(i) =~= s.drop_last());
        lemma_view_dom(s.drop_last(), n);
        assert(locked_view(s.drop_last()) =~= locked_view(s).remove(n));
    } else {
        let d = s.drop_last();
        assert(names_unique(d));
        assert(d[i] == s[i]);
        lemma_view_remove(d, i);
        assert(s.remove(i) =~= d.remove(i).push(s.last()));
        assert(s.remove(i).drop_last() =~= d.remove(i));
        assert(s.last().name@ != n);
        assert(locked_view(s.remove(i)) =~= locked_view(s).remove(n));
    }
    assert forall|a: int, b: int|
        0 <= a < s.remove(i).len() && 0 <= b < s.remove(i).len() && a != b implies #[trigger] s.remove(
        i,
    )[a].name@ != #[trigger] s.remove(i)[b].name@ by {
        let a2 = if a < i { a } else { a + 1 };
        let b2 = if b < i { b } else { b + 1 };
        assert(s.remove(i)[a] == s[a2]);
        assert(s.remove(i)[b] == s[b2]);
    }
}

fn position_of(s: &Vec<LockedEntry>, name: &String) -> (r: Option<usize>)
    ensures
        match r {
            Some(i) => i < s@.len() && s@[i as int].name@ == name@,
            None => forall|i: int| 0 <= i < s@.len() ==> #[trigger] s@[i].name@ != name@,
        },
{
    let mut i: usize = 0;
    while i < s.len()
        invariant
            i <= s@.len(),
            forall|j: int| 0 <= j < i ==> #[trigger] s@[j].name@ != name@,
        decreases s@.len() - i,
    {
        if s[i].name == *name {
            return Some(i);
        }
        i = i + 1;
    }
    None
}

/// Drops the entry named `name`, if any.
fn drop_locked(s: &mut Vec<LockedEntry>, name: &String)
    requires
        names_unique(old(s)@),
    ensures
        names_unique(final(s)@),
        locked_view(final(s)@) == locked_view(old(s)@).remove(name@),
        forall|i: int| 0 <= i < final(s)@.len() ==> #[trigger] final(s)@[i].name@ != name@,
{
    match position_of(s, name) {
        Some(i) => {
            let ghost before = s@;
            s.remove(i);
            proof {
                lemma_view_remove(before, i as int);
                assert forall|j: int| 0 <= j < s@.len() implies #[trigger] s@[j].name@ != name@ by {
                    let j2 = if j < i { j } else { j + 1 };
                    assert(s@[j] == before[j2]);
                    assert(j2 != i);
                }
            }
        },
        None => {
            proof {
                lemma_view_dom(s@, name@);
                assert(locked_view(s@).remove(name@) =~= locked_view(s@));
            }
        },
    }
}

fn name_listed(s: &Vec<String>, name: &String) -> (r: bool)
    ensures
        r == exists|i: int| 0 <= i < s@.len() && #[trigger] s@[i]@ == name@,
{
    let mut i: usize = 0;
    while i < s.len()
        invariant
            i <= s@.len(),
            forall|j: int| 0 <= j < i ==> #[trigger] s@[j]@ != name@,
        decreases s@.len() - i,
    {
        if s[i] == *name {
            return true;
        }
        i = i + 1;
    }
    false
}

impl Manifest {
    pub open spec fn wf(&self) -> bool {
        names_unique(self.locked@)
    }

    /// Records a plan: installs lock their package at the new version, removals
    /// drop it, and new top-level dependencies are added once each.
    pub fn apply_changes(&mut self, index: &PackageIndex, plan: &PendingChanges)
        requires
            old(self).wf(),
            forall|k: int|
                0 <= k < plan.package_changes@.len() ==> match (#[trigger] plan.package_changes@[k]).1 {
                    PackageChange::Install(i) => i < index.packages@.len(),
                    PackageChange::Remove(_) => true,
                },
        ensures
            final(self).wf(),
            locked_view(final(self).locked@) == manifest_after(
                locked_view(old(self).locked@),
                plan_ops(*index, plan.package_changes@),
            ),
            final(self).dependencies@.len() >= old(self).dependencies@.len(),
            forall|k: int|
                0 <= k < old(self).dependencies@.len() ==> #[trigger] final(self).dependencies@[k]
                    == old(self).dependencies@[k],
            forall|k: int|
                0 <= k < plan.new_dependencies@.len() ==> path_listed(
                    final(self).dependencies@,
                    (#[trigger] plan.new_dependencies@[k])@,
                ),
            forall|k: int|
                old(self).dependencies@.len() <= k < final(self).dependencies@.len() ==> path_listed(
                    plan.new_dependencies@,
                    (#[trigger] final(self).dependencies@[k])@,
                ) && !path_listed(final(self).dependencies@.take(k), final(self).dependencies@[k]@),
    {
        let ghost start = locked_view(self.locked@);
        let ghost ops = plan_ops(*index, plan.package_changes@);
        let mut k: usize = 0;
        while k < plan.package_changes.len()
            invariant
                k <= plan.package_changes@.len(),
                ops == plan_ops(*index, plan.package_changes@),
                start == locked_view(old(self).locked@),
                self.dependencies == old(self).dependencies,
                names_unique(self.locked@),
                forall|x: int|
                    0 <= x < plan.package_changes@.len() ==> match (#[trigger] plan.package_changes@[x]).1 {
                        PackageChange::Install(i) => i < index.packages@.len(),
                        PackageChange::Remove(_) => true,
                    },
                locked_view(self.locked@) == manifest_after(start, ops.subrange(0, k as int)),
            decreases plan.package_changes@.len() - k,
        {
            let name = &plan.package_changes[k].0;
            drop_locked(&mut self.locked, name);
            match plan.package_changes[k].1 {
                PackageChange::Install(i) => {
                    let ghost before = self.locked@;
                    self.locked.push(LockedEntry { name: text_copy(name), version: index.packages[i].package.version.clone() });
                    proof {
                        assert(self.locked@.drop_last() =~= before);
                        assert forall|a: int, b: int|
                            0 <= a < self.locked@.len() && 0 <= b < self.locked@.len() && a != b implies #[trigger] self.locked@[a].name@
                            != #[trigger] self.locked@[b].name@ by {
                            if a < before.len() && b < before.len() {
                                assert(self.locked@[a] == before[a] && self.locked@[b] == before[b]);
                            } else if a < before.len() {
                                assert(self.locked@[a] == before[a]);
                            } else {
                                assert(self.locked@[b] == before[b]);
                            }
                        }
                    }
                },
                PackageChange::Remove(_) => {},
            }
            proof {
                assert(ops.subrange(0, k + 1).drop_last() =~= ops.subrange(0, k as int));
                assert(locked_view(self.locked@) =~= manifest_after(start, ops.subrange(0, k + 1)));
            }
            k = k + 1;
        }
        assert(ops.subrange(0, plan.package_changes@.len() as int) =~= ops);
        let ghost deps0 = self.dependencies@;
        let mut t: usize = 0;
        while t < plan.new_dependencies.len()
            invariant
                t <= plan.new_dependencies@.len(),
                names_unique(self.locked@),
                ops == plan_ops(*index, plan.package_changes@),
                locked_view(self.locked@) == manifest_after(start, ops),
                start == locked_view(old(self).locked@),
                deps0 == old(self).dependencies@,
                self.dependencies@.len() >= deps0.len(),
                forall|x: int| 0 <= x < deps0.len() ==> #[trigger] self.dependencies@[x] == deps0[x],
                forall|x: int|
                    0 <= x < t ==> path_listed(self.dependencies@, (#[trigger] plan.new_dependencies@[x])@),
                forall|k: int|
                    deps0.len() <= k < self.dependencies@.len() ==> path_listed(
                        plan.new_dependencies@,
                        (#[trigger] self.dependencies@[k])@,
                    ) && !path_listed(self.dependencies@.take(k), self.dependencies@[k]@),
            decreases plan.new_dependencies@.len() - t,
        {
            let d = &plan.new_dependencies[t];
            if !name_listed(&self.dependencies, d) {
                let ghost before = self.dependencies@;
                self.dependencies.push(text_copy(d));
                proof {
                    assert(self.dependencies@[before.len() as int]@ == d@);
                    assert(self.dependencies@.take(before.len() as int) =~= before);
                    assert(path_listed(plan.new_dependencies@, d@)) by {
                        assert(plan.new_dependencies@[t as int]@ == d@);
                    }
                    assert forall|k: int|
                        deps0.len() <= k < self.dependencies@.len() implies path_listed(
                            plan.new_dependencies@,
                            (#[trigger] self.dependencies@[k])@,
                        ) && !path_listed(self.dependencies@.take(k), self.dependencies@[k]@) by {
                        if k < before.len() {
                            assert(self.dependencies@[k] == before[k]);
                            assert(self.dependencies@.take(k) =~= before.take(k));
                        }
                    }
                    assert forall|x: int| 0 <= x < t + 1 implies path_listed(
                        self.dependencies@,
                        (#[trigger] plan.new_dependencies@[x])@,
                    ) by {
                        if x < t {
                            let j = choose|j: int|
                                0 <= j < before.len() && #[trigger] before[j]@ == plan.new_dependencies@[x]@;
                            assert(self.dependencies@[j] == before[j]);
                        } else {
                            assert(self.dependencies@[before.len() as int]@ == plan.new_dependencies@[x]@);
                        }
                    }
                }
            }
            t = t + 1;
        }
    }
}

fn text_copy(s: &String) -> (r: String)
    ensures
        r@ == s@,
{
    s.clone()
}

} // verus!
