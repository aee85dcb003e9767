//! The incompatible-architecture pass: a package that depends on a virtual
//! package which the target's operating system never has cannot be used.

use vstd::prelude::*;

use crate::depends::dependency_name;
use crate::depends::dependency_spec;
use crate::logs::RemovedIncompatibleArchitectureLog;
use crate::logs::RemovedIncompatibleArchitectureView;
use crate::packagerelations::graph::PackageRelations;
use crate::packagerelations::growth::lemma_edges_named_members;
use crate::packagerelations::model::edges_named;
use crate::packagerelations::model::PkgIdx;
use crate::packagerelations::model::RelationsView;
use crate::packagerelations::select::views;
use crate::packagerelations::unresolved::Evaluation;
use crate::packagerelations::unresolved::lemma_candidates_are_edges;
use crate::packagerelations::unresolved::lemma_carried_out_carries_on;
use crate::packagerelations::user::texts;
use crate::text::before_first;
use crate::text::prefix_before;
use crate::text::str_eq;

verus! {

/// The virtual packages that an architecture never has, by the operating
/// system that its tag begins with. None where the operating system is not
/// one of those known.
pub open spec fn virtual_bans(architecture: Seq<char>) -> Seq<Seq<char>> {
    let os = before_first(architecture, '-');
    if os == "osx"@ || os == "freebsd"@ {
        seq!["__linux"@, "__win"@, "__glibc"@]
    } else if os == "linux"@ {
        seq!["__osx"@, "__win"@]
    } else if os == "win"@ {
        seq!["__linux"@, "__unix"@, "__glibc"@, "__osx"@]
    } else {
        Seq::empty()
    }
}

/// The virtual packages that can never be had on the architecture
/// `architecture`.
pub fn get_virtual_package_bans(architecture: &str) -> (res: Vec<&'static str>)
    ensures
        texts(res@) == virtual_bans(architecture@),
{
    let os = prefix_before(architecture, '-');
    let mut res: Vec<&'static str> = Vec::new();
    if str_eq(os, "osx") || str_eq(os, "freebsd") {
        res.push("__linux");
        res.push("__win");
        res.push("__glibc");
        assert(texts(res@) =~= virtual_bans(architecture@));
    } else if str_eq(os, "linux") {
        res.push("__osx");
        res.push("__win");
        assert(texts(res@) =~= virtual_bans(architecture@));
    } else if str_eq(os, "win") {
        res.push("__linux");
        res.push("__unix");
        res.push("__glibc");
        res.push("__osx");
        assert(texts(res@) =~= virtual_bans(architecture@));
    } else {
        assert(texts(res@) =~= virtual_bans(architecture@));
    }
    res
}

impl RelationsView {
    /// The graph after the first `upto` of `edges` have been given up:
    /// each is marked as one that cannot be met, and its dependers are
    /// removed.
    pub open spec fn given_up(self, edges: Seq<int>, upto: int) -> RelationsView
        decreases upto,
    {
        if upto <= 0 {
            self
        } else {
            self.given_up(edges, upto - 1).gives_up(edges[upto - 1])
        }
    }

    /// The record of the removal of the `k`-th depender of the edge `e`,
    /// which points to a virtual package that `architecture` never has.
    pub open spec fn architecture_log(self, architecture: Seq<char>, e: int, k: int) -> RemovedIncompatibleArchitectureView {
        let id = self.edges[e].dependers[k].index as int;
        RemovedIncompatibleArchitectureView {
            filename: self.packages[id].filename,
            package_name: self.packages[id].record.name,
            virtual_package: self.edges[e].name,
            actual_architecture: architecture,
        }
    }

    /// The records of the removal of the dependers of the first `upto` of
    /// `edges`, edge by edge, each in the order of its dependers.
    pub open spec fn architecture_logs(self, architecture: Seq<char>, edges: Seq<int>, upto: int) -> Seq<
        RemovedIncompatibleArchitectureView,
    >
        decreases upto,
    {
        if upto <= 0 {
            Seq::empty()
        } else {
            self.architecture_logs(architecture, edges, upto - 1) + Seq::new(
                self.edges[edges[upto - 1]].dependers.len(),
                |k: int| self.architecture_log(architecture, edges[upto - 1], k),
            )
        }
    }

    /// The edges that point to a virtual package which `architecture`
    /// never has: those of the first banned name, then those of the second,
    /// and so on.
    pub open spec fn banned_edges(self, architecture: Seq<char>) -> Seq<int> {
        self.candidate_edges(
            virtual_bans(architecture),
            virtual_bans(architecture).len() as int,
        )
    }

    /// Whether no package that is left depends on one of `names`.
    pub open spec fn free_of(self, names: Seq<Seq<char>>) -> bool {
        forall|id: int, c: int|
            0 <= id < self.packages.len() && !self.removed[id] && 0 <= c
                < self.packages[id].record.depends.len() ==> !names.contains(
                dependency_name(#[trigger] self.packages[id].record.depends[c]),
            )
    }
}

/// Giving edges up leaves a later state of the same graph, in which the
/// dependers of each edge given up are removed.
pub proof fn lemma_given_up(v: RelationsView, edges: Seq<int>, upto: int)
    requires
        v.dense(),
        0 <= upto <= edges.len(),
        forall|j: int| 0 <= j < edges.len() ==> 0 <= #[trigger] edges[j] < v.edges.len(),
        forall|e: int, k: int|
            0 <= e < v.edges.len() && 0 <= k < v.edges[e].dependers.len()
                ==> (#[trigger] v.edges[e].dependers[k]).index < v.packages.len(),
    ensures
        v.carries_on(v.given_up(edges, upto)),
        forall|j: int, k: int|
            0 <= j < upto && 0 <= k < v.edges[edges[j]].dependers.len() ==> v.given_up(
                edges,
                upto,
            ).removed[(#[trigger] v.edges[edges[j]].dependers[k]).index as int],
    decreases upto,
{
    if upto > 0 {
        lemma_given_up(v, edges, upto - 1);
        let before = v.given_up(edges, upto - 1);
        let e = edges[upto - 1];
        let after = v.given_up(edges, upto);
        assert(before.edges[e].dependers == v.edges[e].dependers);
        assert forall|f: int| 0 <= f < v.edges.len() implies (#[trigger] after.edges[f]).name
            == v.edges[f].name && after.edges[f].spec == v.edges[f].spec
            && after.edges[f].dependers == v.edges[f].dependers && (v.edges[f].unsatisfiable
            ==> after.edges[f].unsatisfiable) by {
            assert(before.edges[f].name == v.edges[f].name);
        }
        assert forall|j: int, k: int|
            0 <= j < upto && 0 <= k < v.edges[edges[j]].dependers.len() implies after.removed[(
        #[trigger] v.edges[edges[j]].dependers[k]).index as int] by {
            let id = v.edges[edges[j]].dependers[k].index as int;
            if j < upto - 1 {
                assert(before.removed[id]);
            } else {
                let marks = before.dependers_upto(e, before.edges[e].dependers.len() as int);
                assert(before.edges[e].dependers[k].index == id);
                assert(marks.len() == v.packages.len());
                assert(marks[id]);
            }
        }
    }
}

/// Once the edges that point to the names `names` are given up, no package
/// that is left depends on one of those names.
pub proof fn lemma_given_up_frees(v: RelationsView, names: Seq<Seq<char>>)
    requires
        v.valid(),
    ensures
        v.given_up(
            v.candidate_edges(names, names.len() as int),
            v.candidate_edges(names, names.len() as int).len() as int,
        ).free_of(names),
{
    let edges = v.candidate_edges(names, names.len() as int);
    let after = v.given_up(edges, edges.len() as int);
    lemma_candidates_are_edges(v, names, names.len() as int);
    assert forall|e: int, k: int|
        0 <= e < v.edges.len() && 0 <= k < v.edges[e].dependers.len() implies (
    #[trigger] v.edges[e].dependers[k]).index < v.packages.len() by {
        assert(v.edge_ok(e));
    }
    lemma_given_up(v, edges, edges.len() as int);
    assert forall|id: int, c: int|
        0 <= id < after.packages.len() && !after.removed[id] && 0 <= c
            < after.packages[id].record.depends.len() implies !names.contains(
        dependency_name(#[trigger] after.packages[id].record.depends[c]),
    ) by {
        let clause = v.packages[id].record.depends[c];
        let name = dependency_name(clause);
        if names.contains(name) {
            assert(v.clause_covered(id, c));
            let e = choose|e: int| #[trigger]
                v.edge_has_key(e, name, dependency_spec(clause))
                    && v.edges[e].dependers.contains(
                    PkgIdx { index: id as u32 },
                );
            let k = choose|k: int|
                0 <= k < v.edges[e].dependers.len() && v.edges[e].dependers[k]
                    == (PkgIdx { index: id as u32 });
            let g = choose|g: int| 0 <= g < names.len() && names[g] == name;
            lemma_candidate_edges_hold(v, names, names.len() as int, g, e);
            let j = choose|j: int| 0 <= j < edges.len() && edges[j] == e;
            assert(after.removed[v.edges[edges[j]].dependers[k].index as int]);
        }
    }
}

/// An edge that points to one of the first `upto` names is among the edges
/// that point to those names.
pub proof fn lemma_candidate_edges_hold(v: RelationsView, names: Seq<Seq<char>>, upto: int, g: int, e: int)
    requires
        0 <= g < upto <= names.len(),
        0 <= e < v.edges.len(),
        v.edges[e].name == names[g],
    ensures
        v.candidate_edges(names, upto).contains(e),
    decreases upto,
{
    let before = v.candidate_edges(names, upto - 1);
    let named = edges_named(v.edges, names[upto - 1]);
    if g < upto - 1 {
        lemma_candidate_edges_hold(v, names, upto - 1, g, e);
        let j = choose|j: int| 0 <= j < before.len() && before[j] == e;
        assert(v.candidate_edges(names, upto)[j] == e);
    } else {
        lemma_edges_named_members(v.edges, names[upto - 1]);
        assert(named.contains(e));
        let j = choose|j: int| 0 <= j < named.len() && named[j] == e;
        assert(v.candidate_edges(names, upto)[before.len() + j] == e);
    }
}

impl<'a> PackageRelations<'a> {
    /// Gives the edge at `e` up: marks it as one that cannot be met, and
    /// removes its dependers.
    pub fn give_up(&mut self, e: usize)
        requires
            old(self).wf(),
            e < old(self)@.edges.len(),
        ensures
            final(self).wf(),
            final(self)@ == old(self)@.gives_up(e as int),
    {
        let ghost was = self@;
        proof {
            self.lemma_valid();
            assert(was.edge_ok(e as int));
        }
        self.mark_unsatisfiable(e);
        let ghost marked = self@;
        let count: usize = self.dependency(e).dependers.len();
        let mut k: usize = 0;
        proof {
            assert(self@ =~= marked.without(was.dependers_upto(e as int, 0)));
        }
        while k < count
            invariant
                k <= count,
                count == was.edges[e as int].dependers.len(),
                e < was.edges.len(),
                was.edge_ok(e as int),
                was.dense(),
                marked.packages == was.packages,
                marked.edges.len() == was.edges.len(),
                marked.edges[e as int].dependers == was.edges[e as int].dependers,
                marked.removed == was.removed,
                self.wf(),
                self@ == marked.without(was.dependers_upto(e as int, k as int)),
            decreases count - k,
        {
            let index = self.dependency(e).dependers[k];
            self.mark_removed(index.index());
            proof {
                assert(was.edges[e as int].dependers[k as int] == index);
                assert forall|id: int| 0 <= id < was.packages.len() implies (was.dependers_upto(
                    e as int,
                    k + 1,
                )[id] <==> (was.dependers_upto(e as int, k as int)[id] || id == index.index)) by {
                    if was.dependers_upto(e as int, k + 1)[id] {
                        let j = choose|j: int|
                            0 <= j < k + 1 && j < was.edges[e as int].dependers.len() && (
                            #[trigger] was.edges[e as int].dependers[j]).index == id;
                        if j < k {
                            assert(was.dependers_upto(e as int, k as int)[id]);
                        }
                    }
                }
                assert(self@ =~= marked.without(was.dependers_upto(e as int, k + 1)));
            }
            k = k + 1;
        }
    }

    /// Gives the edge at `e` up and leaves a record for each of its
    /// dependers.
    fn ban_edge(
        &mut self,
        e: usize,
        architecture: &'a str,
        result: &mut Vec<RemovedIncompatibleArchitectureLog<'a>>,
        Ghost(was): Ghost<RelationsView>,
    )
        requires
            old(self).wf(),
            was.valid(),
            was.carries_on(old(self)@),
            e < was.edges.len(),
        ensures
            final(self).wf(),
            was.carries_on(final(self)@),
            final(self)@ == old(self)@.gives_up(e as int),
            views(final(result)@) == views(old(result)@) + Seq::new(
                was.edges[e as int].dependers.len(),
                |k: int| was.architecture_log(architecture@, e as int, k),
            ),
    {
        let ghost before = self@;
        let ghost logged = result@;
        let virtual_package: &'a str = self.dependency(e).name;
        let count: usize = self.dependency(e).dependers.len();
        let mut k: usize = 0;
        proof {
            assert(was.edge_ok(e as int));
            assert(views(result@) =~= views(logged) + Seq::new(
                0,
                |l: int| was.architecture_log(architecture@, e as int, l),
            ));
        }
        while k < count
            invariant
                k <= count,
                e < was.edges.len(),
                was.edge_ok(e as int),
                self@ == before,
                was.carries_on(before),
                count == was.edges[e as int].dependers.len(),
                virtual_package@ == was.edges[e as int].name,
                views(result@) == views(logged) + Seq::new(
                    k as nat,
                    |l: int| was.architecture_log(architecture@, e as int, l),
                ),
            decreases count - k,
        {
            let pkgindex = self.dependency(e).dependers[k];
            assert(was.edges[e as int].dependers[k as int] == pkgindex);
            let package = self.metadata(pkgindex.index());
            let ghost so_far = result@;
            result.push(
                RemovedIncompatibleArchitectureLog {
                    filename: package.filename,
                    package_name: package.package_record.name.as_str(),
                    virtual_package,
                    actual_architecture: architecture,
                },
            );
            proof {
                assert(views(result@) =~= views(so_far).push(
                    was.architecture_log(architecture@, e as int, k as int),
                ));
                assert(views(result@) =~= views(logged) + Seq::new(
                    (k + 1) as nat,
                    |l: int| was.architecture_log(architecture@, e as int, l),
                ));
            }
            k = k + 1;
        }
        self.give_up(e);
        proof {
            lemma_carried_out_carries_on(
                before,
                Evaluation::RemoveAndLog(e, None),
            );
        }
    }

    /// Removes every package that depends on a virtual package which the
    /// architecture `architecture` never has, and marks the edges to those
    /// virtual packages as ones that cannot be met.
    ///
    /// Afterwards no package that is left depends on such a virtual
    /// package.
    pub fn apply_incompatible_architecture(&mut self, architecture: &'a str) -> (result: Vec<
        RemovedIncompatibleArchitectureLog<'a>,
    >)
        requires
            old(self).wf(),
        ensures
            final(self).wf(),
            old(self)@.carries_on(final(self)@),
            final(self)@ == old(self)@.given_up(
                old(self)@.banned_edges(architecture@),
                old(self)@.banned_edges(architecture@).len() as int,
            ),
            views(result@) == old(self)@.architecture_logs(
                architecture@,
                old(self)@.banned_edges(architecture@),
                old(self)@.banned_edges(architecture@).len() as int,
            ),
            final(self)@.free_of(virtual_bans(architecture@)),
    {
        let ghost was = self@;
        let bans = get_virtual_package_bans(architecture);
        let mut names: Vec<&str> = Vec::new();
        let mut i: usize = 0;
        while i < bans.len()
            invariant
                i <= bans.len(),
                names.len() == i,
                forall|j: int| 0 <= j < i ==> (#[trigger] names[j])@ == bans[j]@,
            decreases bans.len() - i,
        {
            names.push(bans[i]);
            i = i + 1;
        }
        assert(texts(names@) =~= virtual_bans(architecture@));
        let candidates = self.edges_pointing_to(&names);
        let ghost edges = was.banned_edges(architecture@);
        let mut result: Vec<RemovedIncompatibleArchitectureLog<'a>> = Vec::new();
        proof {
            self.lemma_valid();
            lemma_given_up_frees(was, virtual_bans(architecture@));
            assert(views(result@) =~= was.architecture_logs(architecture@, edges, 0));
        }
        let mut j: usize = 0;
        while j < candidates.len()
            invariant
                j <= candidates.len(),
                candidates@.map_values(|e: usize| e as int) == edges,
                forall|l: int| 0 <= l < candidates.len() ==> (#[trigger] candidates[l])
                    < was.edges.len(),
                was.valid(),
                self.wf(),
                was.carries_on(self@),
                self@ == was.given_up(edges, j as int),
                views(result@) == was.architecture_logs(architecture@, edges, j as int),
            decreases candidates.len() - j,
        {
            assert(edges[j as int] == candidates[j as int] as int);
            self.ban_edge(candidates[j], architecture, &mut result, Ghost(was));
            j = j + 1;
        }
        result
    }
}

} // verus!
