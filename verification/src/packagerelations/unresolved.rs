//! The unresolvables pass: an edge that no surviving package can meet any
//! more takes its dependers with it.
//!
//! A round has two phases. The first looks at the graph as it is and
//! proposes, for each edge asked about, either a new provider or the
//! removal of its dependers. The second carries the proposals out, one
//! after the other.

use vstd::prelude::*;

use crate::conda::accepts;
use crate::conda::constraint_admits;
use crate::conda::Constraint;
use crate::matchspeccache::Cache;
use crate::packagerelations::model::clauses_in;
use crate::packagerelations::model::depends_on;
use crate::logs::RemovedUnsatisfiableLog;
use crate::logs::RemovedUnsatisfiableView;
use crate::packagerelations::graph::PackageRelations;
use crate::packagerelations::growth::lemma_edges_named_members;
use crate::packagerelations::model::edges_named;
use crate::packagerelations::model::EdgeView;
use crate::packagerelations::model::PkgIdx;
use crate::packagerelations::model::PkgIdxOffset;
use crate::packagerelations::model::RelationsView;
use crate::packagerelations::select::views;
use crate::packagerelations::user::texts;
use crate::text::starts_with;

verus! {

/// What the first phase proposes for an edge.
pub enum Evaluation {
    /// No package meets the edge at `0` any more: its dependers go. `1` is the
    /// removed package that met it before, if one is known.
    RemoveAndLog(usize, Option<PkgIdx>),
    /// The edge at `0` is met by the package `1` places into the range of
    /// the edge's name.
    UpdateSolution(usize, PkgIdxOffset),
}

/// The positions from `middle` places after `start` on, or from `start` on
/// where there is no `middle`, up to `end_offset` places after `start`: the
/// first, and the one after the last.
pub fn wrap_range_from_middle(
    start: PkgIdx,
    end_offset: PkgIdxOffset,
    middle: Option<PkgIdxOffset>,
) -> (res: (usize, usize))
    requires
        start.index + end_offset.offset <= usize::MAX,
        middle matches Some(m) ==> start.index + m.offset <= usize::MAX,
    ensures
        res.0 == start.index + (match middle {
            Some(m) => m.offset as int,
            None => 0,
        }),
        res.1 == start.index + end_offset.offset,
{
    match middle {
        Some(middle) => (start.index() + middle.offset(), start.index() + end_offset.offset()),
        None => start.range_to(end_offset),
    }
}

impl RelationsView {
    /// The range of the name that the edge `e` points to: its first
    /// position, and the one after its last. Both are 0 where no package
    /// has that name.
    pub open spec fn providers_of(self, e: int) -> (int, int) {
        let name = self.edges[e].name;
        if self.ranges.contains_key(name) {
            (
                self.ranges[name].0.index as int,
                self.ranges[name].0.index + self.ranges[name].1.offset,
            )
        } else {
            (0, 0)
        }
    }

    /// Whether the package `id` meets the edge `e`: it is not removed, and
    /// the edge's constraint admits it.
    pub open spec fn provides(self, e: int, id: int) -> bool {
        &&& 0 <= id < self.packages.len()
        &&& !self.removed[id]
        &&& accepts(self.edges[e].spec, self.packages[id].record)
    }

    /// Whether the package `id` would meet the edge `e`, had it not been
    /// removed.
    pub open spec fn provided(self, e: int, id: int) -> bool {
        &&& 0 <= id < self.packages.len()
        &&& self.removed[id]
        &&& accepts(self.edges[e].spec, self.packages[id].record)
    }

    /// Whether none of the first `offset` packages of the name that the edge
    /// `e` points to meets the edge.
    pub open spec fn nothing_before(self, e: int, offset: int) -> bool {
        forall|id: int|
            self.providers_of(e).0 <= id < self.providers_of(e).0 + offset ==> !#[trigger] self.provides(
                e,
                id,
            )
    }

    /// The first position from `from` up to `end` that meets the edge `e`;
    /// `end` where none does.
    pub open spec fn first_provider(self, e: int, from: int, end: int) -> int
        decreases end - from,
    {
        if from >= end {
            end
        } else if self.provides(e, from) {
            from
        } else {
            self.first_provider(e, from + 1, end)
        }
    }

    /// The first position from `from` up to `end` that would meet the edge
    /// `e`, had it not been removed; `end` where there is none.
    pub open spec fn first_provided(self, e: int, from: int, end: int) -> int
        decreases end - from,
    {
        if from >= end {
            end
        } else if self.provided(e, from) {
            from
        } else {
            self.first_provided(e, from + 1, end)
        }
    }

    /// Where the search for a provider of the edge `e` begins: at the last
    /// provider, if there was one, else at the first package of the name.
    pub open spec fn search_start(self, e: int) -> int {
        match self.edges[e].last_successful_resolution {
            Some(last) => self.providers_of(e).0 + last.offset,
            None => self.providers_of(e).0,
        }
    }

    /// Whether the last provider of the edge `e` is still there.
    pub open spec fn cache_hit(self, e: int) -> bool {
        self.edges[e].last_successful_resolution matches Some(last) && !self.removed[self.providers_of(
            e,
        ).0 + last.offset]
    }

    /// What the first phase proposes for the edge `e`: nothing where its
    /// last provider is still there; else the first provider from the last
    /// one on; else, where there is none, the removal of its dependers,
    /// with the last provider as the cause, or, where there never was one,
    /// the first removed package of the name that the constraint admits.
    pub open spec fn evaluation(self, e: int) -> Option<Evaluation> {
        let (base, end) = self.providers_of(e);
        if self.cache_hit(e) {
            None
        } else {
            let found = self.first_provider(e, self.search_start(e), end);
            if found < end {
                Some(
                    Evaluation::UpdateSolution(
                        e as usize,
                        PkgIdxOffset { offset: (found - base) as u16 },
                    ),
                )
            } else {
                let cause = match self.edges[e].last_successful_resolution {
                    Some(last) => Some(PkgIdx { index: (base + last.offset) as u32 }),
                    None => {
                        let lost = self.first_provided(e, base, end);
                        if lost < end {
                            Some(PkgIdx { index: lost as u32 })
                        } else {
                            None
                        }
                    },
                };
                Some(Evaluation::RemoveAndLog(e as usize, cause))
            }
        }
    }

    /// The edges that point to the first `upto` of `names`, name by name.
    pub open spec fn candidate_edges(self, names: Seq<Seq<char>>, upto: int) -> Seq<int>
        decreases upto,
    {
        if upto <= 0 {
            Seq::empty()
        } else {
            self.candidate_edges(names, upto - 1) + edges_named(self.edges, names[upto - 1])
        }
    }

    /// The proposals for the first `upto` of `edges`, in order. An edge
    /// that cannot be met any more is passed over.
    pub open spec fn proposals(self, edges: Seq<int>, upto: int) -> Seq<Evaluation>
        decreases upto,
    {
        if upto <= 0 {
            Seq::empty()
        } else {
            let rest = self.proposals(edges, upto - 1);
            let e = edges[upto - 1];
            if self.edges[e].unsatisfiable {
                rest
            } else {
                match self.evaluation(e) {
                    Some(proposal) => rest.push(proposal),
                    None => rest,
                }
            }
        }
    }

    /// For each package, whether it is one of the first `upto` dependers of
    /// the edge `e`.
    pub open spec fn dependers_upto(self, e: int, upto: int) -> Seq<bool> {
        Seq::new(
            self.packages.len(),
            |id: int|
                exists|k: int|
                    0 <= k < upto && k < self.edges[e].dependers.len()
                        && (#[trigger] self.edges[e].dependers[k]).index == id,
        )
    }

    /// The graph after the edge `e` has been given up: it is marked as one
    /// that cannot be met, and its dependers are removed.
    pub open spec fn gives_up(self, e: int) -> RelationsView {
        (RelationsView {
            edges: self.edges.update(e, EdgeView { unsatisfiable: true, ..self.edges[e] }),
            ..self
        }).without(self.dependers_upto(e, self.edges[e].dependers.len() as int))
    }

    /// The graph after `proposal` has been carried out.
    pub open spec fn carried_out(self, proposal: Evaluation) -> RelationsView {
        match proposal {
            Evaluation::UpdateSolution(e, offset) => RelationsView {
                edges: self.edges.update(
                    e as int,
                    EdgeView { last_successful_resolution: Some(offset), ..self.edges[e as int] },
                ),
                ..self
            },
            Evaluation::RemoveAndLog(e, cause) => self.gives_up(e as int),
        }
    }

    /// The graph after the first `upto` of `proposals` have been carried
    /// out, in order.
    pub open spec fn carried_out_all(self, proposals: Seq<Evaluation>, upto: int) -> RelationsView
        decreases upto,
    {
        if upto <= 0 {
            self
        } else {
            self.carried_out_all(proposals, upto - 1).carried_out(proposals[upto - 1])
        }
    }

    /// The record of the removal of the `k`-th depender of the edge `e`.
    pub open spec fn unsatisfiable_log(self, e: int, cause: Option<PkgIdx>, k: int) -> RemovedUnsatisfiableView {
        let id = self.edges[e].dependers[k].index as int;
        RemovedUnsatisfiableView {
            filename: self.packages[id].filename,
            package_name: self.packages[id].record.name,
            dependency_package_name: self.edges[e].name,
            matchspec: self.edges[e].spec,
            cause_filename: match cause {
                Some(at) => Some(self.packages[at.index as int].filename),
                None => None,
            },
        }
    }

    /// The records that carrying out `proposal` leaves: one for each
    /// depender of an edge that cannot be met, in the order of the
    /// dependers.
    pub open spec fn proposal_logs(self, proposal: Evaluation) -> Seq<RemovedUnsatisfiableView> {
        match proposal {
            Evaluation::UpdateSolution(_, _) => Seq::empty(),
            Evaluation::RemoveAndLog(e, cause) => Seq::new(
                self.edges[e as int].dependers.len(),
                |k: int| self.unsatisfiable_log(e as int, cause, k),
            ),
        }
    }

    /// The records that carrying out the first `upto` of `proposals`
    /// leaves, in order.
    pub open spec fn proposals_logs(self, proposals: Seq<Evaluation>, upto: int) -> Seq<
        RemovedUnsatisfiableView,
    >
        decreases upto,
    {
        if upto <= 0 {
            Seq::empty()
        } else {
            self.proposals_logs(proposals, upto - 1) + self.proposal_logs(proposals[upto - 1])
        }
    }

    /// The proposals of a round on the names `names`.
    pub open spec fn round_proposals(self, names: Seq<Seq<char>>) -> Seq<Evaluation> {
        let edges = self.candidate_edges(names, names.len() as int);
        self.proposals(edges, edges.len() as int)
    }

    /// The graph after a round on the names `names`.
    pub open spec fn after_round(self, names: Seq<Seq<char>>) -> RelationsView {
        let proposals = self.round_proposals(names);
        self.carried_out_all(proposals, proposals.len() as int)
    }

    /// The records that a round on the names `names` leaves.
    pub open spec fn round_logs(self, names: Seq<Seq<char>>) -> Seq<RemovedUnsatisfiableView> {
        let proposals = self.round_proposals(names);
        self.proposals_logs(proposals, proposals.len() as int)
    }

    /// Whether `proposal` speaks of an edge of the graph and, where it
    /// names a provider or a cause, of a package in the right range, and of
    /// a provider before which nothing meets the edge.
    pub open spec fn proposal_ok(self, proposal: Evaluation) -> bool {
        match proposal {
            Evaluation::UpdateSolution(e, offset) => e < self.edges.len()
                && self.ranges.contains_key(self.edges[e as int].name) && offset.offset
                < self.ranges[self.edges[e as int].name].1.offset && self.nothing_before(
                e as int,
                offset.offset as int,
            ),
            Evaluation::RemoveAndLog(e, cause) => e < self.edges.len() && (cause matches Some(at)
                ==> at.index < self.packages.len()),
        }
    }

    /// The real names among the first `upto` of `names`: those that do not
    /// begin with two underscores, which mark a virtual package.
    pub open spec fn real_names(names: Seq<Seq<char>>, upto: int) -> Seq<Seq<char>>
        decreases upto,
    {
        if upto <= 0 {
            Seq::empty()
        } else if "__"@.is_prefix_of(names[upto - 1]) {
            Self::real_names(names, upto - 1)
        } else {
            Self::real_names(names, upto - 1).push(names[upto - 1])
        }
    }
}

/// `first_provider` is the one position before which, from `from` on,
/// nothing meets the edge, and which, if it lies before `end`, does.
pub proof fn lemma_first_provider(v: RelationsView, e: int, from: int, at: int, end: int)
    requires
        from <= at <= end,
        forall|id: int| from <= id < at ==> !v.provides(e, id),
        at < end ==> v.provides(e, at),
    ensures
        v.first_provider(e, from, end) == at,
    decreases at - from,
{
    if from < at {
        lemma_first_provider(v, e, from + 1, at, end);
    }
}

/// `first_provided`, likewise.
pub proof fn lemma_first_provided(v: RelationsView, e: int, from: int, at: int, end: int)
    requires
        from <= at <= end,
        forall|id: int| from <= id < at ==> !v.provided(e, id),
        at < end ==> v.provided(e, at),
    ensures
        v.first_provided(e, from, end) == at,
    decreases at - from,
{
    if from < at {
        lemma_first_provided(v, e, from + 1, at, end);
    }
}

impl<'a> PackageRelations<'a> {
    /// The edges that point to the names `names`, name by name.
    pub fn edges_pointing_to(&self, names: &Vec<&str>) -> (candidates: Vec<usize>)
        requires
            self.wf(),
        ensures
            candidates@.map_values(|e: usize| e as int) == self@.candidate_edges(
                texts(names@),
                names.len() as int,
            ),
            forall|j: int| 0 <= j < candidates.len() ==> (#[trigger] candidates[j]) < self@.edges.len(),
    {
        let ghost was = self@;
        let ghost texts_of_names = texts(names@);
        let mut candidates: Vec<usize> = Vec::new();
        let mut i: usize = 0;
        proof {
            assert(candidates@.map_values(|e: usize| e as int) =~= was.candidate_edges(
                texts_of_names,
                0,
            ));
        }
        while i < names.len()
            invariant
                i <= names.len(),
                texts_of_names == texts(names@),
                self.wf(),
                self@ == was,
                candidates@.map_values(|e: usize| e as int) == was.candidate_edges(
                    texts_of_names,
                    i as int,
                ),
            decreases names.len() - i,
        {
            let ghost gathered = candidates@;
            assert(texts_of_names[i as int] == names[i as int]@);
            match self.find_name(names[i]) {
                Some(g) => {
                    let members = self.edges_of(g);
                    let mut k: usize = 0;
                    while k < members.len()
                        invariant
                            k <= members.len(),
                            candidates@ == gathered + members@.take(k as int),
                        decreases members.len() - k,
                    {
                        candidates.push(members[k]);
                        proof {
                            assert(candidates@ =~= gathered + members@.take(k + 1));
                        }
                        k = k + 1;
                    }
                    proof {
                        assert(members@.take(k as int) =~= members@);
                        assert(candidates@.map_values(|e: usize| e as int) =~= gathered.map_values(
                            |e: usize| e as int,
                        ) + members@.map_values(|e: usize| e as int));
                    }
                },
                None => {
                    proof {
                        self.lemma_valid();
                        lemma_edges_named_members(
                            was.edges,
                            texts_of_names[i as int],
                        );
                        if edges_named(was.edges, texts_of_names[i as int]).len() > 0 {
                            let first = edges_named(was.edges, texts_of_names[i as int])[0];
                            assert(was.names.contains(was.edges[first].name));
                        }
                        assert(candidates@.map_values(|e: usize| e as int) =~= gathered.map_values(
                            |e: usize| e as int,
                        ) + edges_named(was.edges, texts_of_names[i as int]));
                    }
                },
            }
            i = i + 1;
        }
        proof {
            lemma_candidates_are_edges(was, texts_of_names, texts_of_names.len() as int);
            assert forall|j: int| 0 <= j < candidates.len() implies (#[trigger] candidates[j])
                < self@.edges.len() by {
                assert(candidates@.map_values(|e: usize| e as int)[j] == candidates[j] as int);
            }
        }
        candidates
    }

    /// The constraint of the edge at `e`, as the parser read it when it was
    /// interned.
    pub fn constraint_of<'c>(&self, cache: &'c Cache, e: usize) -> (res: &'c Constraint)
        requires
            self.wf(),
            cache.wf(),
            self@.interned_in(cache@),
            e < self@.edges.len(),
        ensures
            res@ == self@.edges[e as int].spec,
    {
        proof {
            self.lemma_valid();
            let edge = self@.edges[e as int];
            assert(self@.edge_ok(e as int));
            let id = edge.dependers[0].index as int;
            assert(depends_on(self@.packages[id].record, edge.name, edge.spec));
            assert(clauses_in(self@.packages[id].record.depends, cache@));
        }
        match cache.find(self.dependency(e).matchspec) {
            Some(id) => cache.constraint(id),
            None => vstd::pervasive::unreached(),
        }
    }

    /// What is to be done about the edge at `e`, as the graph stands.
    ///
    /// Where the edge's last provider is still there, nothing is proposed.
    #[verifier::loop_isolation(false)]
    pub fn evaluate(&self, cache: &Cache, e: usize) -> (res: Option<Evaluation>)
        requires
            self.wf(),
            cache.wf(),
            self@.interned_in(cache@),
            e < self@.edges.len(),
        ensures
            res == self@.evaluation(e as int),
            self@.cache_hit(e as int) ==> res is None,
            res matches Some(proposal) ==> self@.proposal_ok(proposal),
    {
        proof {
            self.lemma_valid();
            assert(self@.edge_ok(e as int));
        }
        let dependency = self.dependency(e);
        let constraint = self.constraint_of(cache, e);
        let (start, end) = self.mkrange(dependency.name);
        let candidates_start = PkgIdx::from_usize(start);
        let candidates_end_offset = PkgIdxOffset::from_difference(candidates_start, end);
        // Does this dependency have the same solution as before?
        let last_successful_resolution = dependency.last_successful_resolution;
        if let Some(offset) = last_successful_resolution {
            let last_solution_index = candidates_start.index() + offset.offset();
            if !self.is_removed(last_solution_index) {
                return None;  // Yes, it does.
            }
        }
        // Does the dependency have a solution?
        let (from, _) = wrap_range_from_middle(
            candidates_start,
            candidates_end_offset,
            last_successful_resolution,
        );
        let mut index: usize = from;
        while index < end
            invariant
                from <= index <= end <= self@.packages.len(),
                self.wf(),
                e < self@.edges.len(),
                self@.dense(),
                self@.edge_ok(e as int),
                dependency@ == self@.edges[e as int],
                forall|id: int| from <= id < index ==> !self@.provides(e as int, id),
            decreases end - index,
        {
            if !self.is_removed(index) {
                let found = constraint_admits(constraint, self.metadata(index).package_record);
                if let Some(true) = found {
                    proof {
                        lemma_first_provider(self@, e as int, from as int, index as int, end as int);
                    }
                    // Yes, there is a solution. It is kept in case this
                    // dependency is looked at again.
                    return Some(
                        Evaluation::UpdateSolution(
                            e,
                            PkgIdxOffset::from_difference(candidates_start, index),
                        ),
                    );
                }
            }
            index = index + 1;
        }
        proof {
            lemma_first_provider(self@, e as int, from as int, end as int, end as int);
        }
        // There is no solution. What took it away?
        let cause_of_removal_index: Option<usize> = match last_successful_resolution {
            // The package that met the dependency before.
            Some(offset) => Some(candidates_start.index() + offset.offset()),
            // The first removed package that would have met it.
            None => {
                let mut lost: usize = start;
                let mut cause: Option<usize> = None;
                while lost < end && cause.is_none()
                    invariant
                        start <= lost <= end <= self@.packages.len(),
                        self.wf(),
                        e < self@.edges.len(),
                        self@.dense(),
                        self@.edge_ok(e as int),
                        dependency@ == self@.edges[e as int],
                        cause is None ==> forall|id: int|
                            start <= id < lost ==> !self@.provided(e as int, id),
                        cause matches Some(at) ==> start <= at < end && self@.first_provided(
                            e as int,
                            start as int,
                            end as int,
                        ) == at,
                    decreases end - lost + (if cause is None { 1int } else { 0int }),
                {
                    let mut hit = false;
                    if self.is_removed(lost) {
                        let found = constraint_admits(
                            constraint,
                            self.metadata(lost).package_record,
                        );
                        if let Some(true) = found {
                            hit = true;
                        }
                    }
                    if hit {
                        proof {
                            lemma_first_provided(
                                self@,
                                e as int,
                                start as int,
                                lost as int,
                                end as int,
                            );
                        }
                        cause = Some(lost);
                    } else {
                        lost = lost + 1;
                    }
                }
                proof {
                    if cause is None {
                        lemma_first_provided(self@, e as int, start as int, end as int, end as int);
                    }
                }
                cause
            },
        };
        let cause = match cause_of_removal_index {
            Some(at) => Some(PkgIdx::from_usize(at)),
            None => None,
        };
        Some(Evaluation::RemoveAndLog(e, cause))
    }

    /// Carries out one proposal: notes the new provider, or marks the edge
    /// as one that cannot be met and removes its dependers.
    #[verifier::loop_isolation(false)]
    fn carry_out(&mut self, proposal: Evaluation, result: &mut Vec<RemovedUnsatisfiableLog<'a>>)
        requires
            old(self).wf(),
            old(self)@.proposal_ok(proposal),
        ensures
            final(self).wf(),
            final(self)@ == old(self)@.carried_out(proposal),
            views(final(result)@) == views(old(result)@) + old(self)@.proposal_logs(proposal),
    {
        let ghost was = self@;
        let ghost logged = result@;
        match proposal {
            Evaluation::UpdateSolution(e, offset) => {
                self.record_resolution(e, offset);
                proof {
                    assert(views(result@) =~= views(logged) + was.proposal_logs(proposal));
                }
            },
            Evaluation::RemoveAndLog(e, cause) => {
                proof {
                    self.lemma_valid();
                    assert(was.edge_ok(e as int));
                }
                self.mark_unsatisfiable(e);
                let ghost marked = self@;
                let dependency_package_name: &'a str = self.dependency(e).name;
                let matchspec: &'a str = self.dependency(e).matchspec;
                let cause_filename: Option<&'a str> = match cause {
                    Some(at) => Some(self.metadata(at.index()).filename),
                    None => None,
                };
                let count: usize = self.dependency(e).dependers.len();
                let mut k: usize = 0;
                proof {
                    assert(self@ =~= marked.without(was.dependers_upto(e as int, 0)));
                    assert(views(result@) =~= views(logged) + Seq::new(
                        0,
                        |j: int| was.unsatisfiable_log(e as int, cause, j),
                    ));
                }
                while k < count
                    invariant
                        k <= count,
                        count == was.edges[e as int].dependers.len(),
                        e < was.edges.len(),
                        was.edge_ok(e as int),
                        was.dense(),
                        marked.packages == was.packages,
                        marked.edges[e as int].dependers == was.edges[e as int].dependers,
                        marked.removed == was.removed,
                        self.wf(),
                        self@ == marked.without(was.dependers_upto(e as int, k as int)),
                        dependency_package_name@ == was.edges[e as int].name,
                        matchspec@ == was.edges[e as int].spec,
                        match cause {
                            Some(at) => cause_filename matches Some(name) && name@
                                == was.packages[at.index as int].filename,
                            None => cause_filename is None,
                        },
                        views(result@) == views(logged) + Seq::new(
                            k as nat,
                            |j: int| was.unsatisfiable_log(e as int, cause, j),
                        ),
                    decreases count - k,
                {
                    let index = self.dependency(e).dependers[k];
                    let package = self.metadata(index.index());
                    let ghost before_logs = result@;
                    self.mark_removed(index.index());
                    result.push(
                        RemovedUnsatisfiableLog {
                            dependency_package_name,
                            filename: package.filename,
                            package_name: package.package_record.name.as_str(),
                            matchspec,
                            cause_filename,
                        },
                    );
                    proof {
                        assert(was.edges[e as int].dependers[k as int] == index);
                        assert forall|id: int| 0 <= id < was.packages.len() implies (
                        was.dependers_upto(e as int, k + 1)[id] <==> (was.dependers_upto(
                            e as int,
                            k as int,
                        )[id] || id == index.index)) by {
                            if was.dependers_upto(e as int, k + 1)[id] {
                                let j = choose|j: int|
                                    0 <= j < k + 1 && j < was.edges[e as int].dependers.len()
                                        && (#[trigger] was.edges[e as int].dependers[j]).index
                                        == id;
                                if j < k {
                                    assert(was.dependers_upto(e as int, k as int)[id]);
                                }
                            }
                        }
                        assert(self@ =~= marked.without(was.dependers_upto(e as int, k + 1)));
                        assert(views(result@) =~= views(before_logs).push(
                            was.unsatisfiable_log(e as int, cause, k as int),
                        ));
                        assert(views(result@) =~= views(logged) + Seq::new(
                            (k + 1) as nat,
                            |j: int| was.unsatisfiable_log(e as int, cause, j),
                        ));
                    }
                    k = k + 1;
                }
                proof {
                    assert(views(result@) =~= views(logged) + was.proposal_logs(proposal));
                }
            },
        }
    }

    /// One round on the edges that point to the names `depending_ons`.
    ///
    /// What is proposed depends on the graph as it is when the round
    /// begins; the proposals are then carried out in order. The records are
    /// those of the dependers of each edge found to be unmeetable.
    pub fn find_unresolveables(&mut self, cache: &Cache, depending_ons: Vec<&'a str>) -> (result: Vec<
        RemovedUnsatisfiableLog<'a>,
    >)
        requires
            old(self).wf(),
            cache.wf(),
            old(self)@.interned_in(cache@),
        ensures
            final(self).wf(),
            old(self)@.carries_on(final(self)@),
            final(self)@ == old(self)@.after_round(texts(depending_ons@)),
            views(result@) == old(self)@.round_logs(texts(depending_ons@)),
    {
        let ghost was = self@;
        let ghost names = texts(depending_ons@);
        // Which edges are asked about.
        let candidates = self.edges_pointing_to(&depending_ons);
        let ghost asked = was.candidate_edges(names, names.len() as int);
        proof {
            self.lemma_valid();
            assert forall|j: int| 0 <= j < asked.len() implies 0 <= #[trigger] asked[j]
                < was.edges.len() by {
                lemma_candidates_are_edges(was, names, names.len() as int);
            }
        }
        // The first phase: what is to be done, as the graph stands.
        let mut updates: Vec<Evaluation> = Vec::new();
        let mut j: usize = 0;
        while j < candidates.len()
            invariant
                j <= candidates.len(),
                self.wf(),
                self@ == was,
                cache.wf(),
                was.interned_in(cache@),
                candidates@.map_values(|e: usize| e as int) == asked,
                forall|l: int| 0 <= l < asked.len() ==> 0 <= #[trigger] asked[l] < was.edges.len(),
                updates@ == was.proposals(asked, j as int),
                forall|l: int| 0 <= l < updates.len() ==> was.proposal_ok(#[trigger] updates[l]),
            decreases candidates.len() - j,
        {
            let e = candidates[j];
            assert(asked[j as int] == e as int);
            if !self.dependency(e).unsatisfiable {
                match self.evaluate(cache, e) {
                    Some(proposal) => {
                        updates.push(proposal);
                    },
                    None => {},
                }
            }
            j = j + 1;
        }
        assert(updates@ == was.round_proposals(names));
        // The second phase: the proposals are carried out.
        let mut result: Vec<RemovedUnsatisfiableLog<'a>> = Vec::with_capacity(updates.len());
        let mut u: usize = 0;
        proof {
            assert(views(result@) =~= was.proposals_logs(updates@, 0));
        }
        while u < updates.len()
            invariant
                u <= updates.len(),
                self.wf(),
                was.valid(),
                was.carries_on(self@),
                self@ == was.carried_out_all(updates@, u as int),
                forall|l: int| 0 <= l < updates.len() ==> was.proposal_ok(#[trigger] updates[l]),
                views(result@) == was.proposals_logs(updates@, u as int),
            decreases updates.len() - u,
        {
            let proposal = match &updates[u] {
                Evaluation::UpdateSolution(e, offset) => Evaluation::UpdateSolution(*e, *offset),
                Evaluation::RemoveAndLog(e, cause) => Evaluation::RemoveAndLog(*e, *cause),
            };
            assert(proposal == updates[u as int]);
            assert(was.proposal_ok(updates[u as int]));
            let ghost before = self@;
            proof {
                lemma_same_logs(was, before, proposal);
            }
            self.carry_out(proposal, &mut result);
            proof {
                lemma_carried_out_carries_on(before, proposal);
            }
            u = u + 1;
        }
        result
    }

    /// One round on the edges that point to a real package: all names but
    /// those beginning with two underscores, in the order in which the
    /// names were first met.
    pub fn find_all_unresolveables(&mut self, cache: &Cache) -> (result: Vec<
        RemovedUnsatisfiableLog<'a>,
    >)
        requires
            old(self).wf(),
            cache.wf(),
            old(self)@.interned_in(cache@),
        ensures
            final(self).wf(),
            old(self)@.carries_on(final(self)@),
            final(self)@ == old(self)@.after_round(
                RelationsView::real_names(old(self)@.names, old(self)@.names.len() as int),
            ),
            views(result@) == old(self)@.round_logs(
                RelationsView::real_names(old(self)@.names, old(self)@.names.len() as int),
            ),
    {
        let mut names: Vec<&'a str> = Vec::new();
        let count = self.depended_names();
        let mut g: usize = 0;
        proof {
            assert(texts(names@) =~= RelationsView::real_names(self@.names, 0));
        }
        while g < count
            invariant
                g <= count,
                count == self@.names.len(),
                self.wf(),
                self@ == old(self)@,
                texts(names@) == RelationsView::real_names(self@.names, g as int),
            decreases count - g,
        {
            let name = self.depended_name(g);
            let ghost gathered = names@;
            if !starts_with(name, "__") {
                names.push(name);
                proof {
                    assert(texts(names@) =~= texts(gathered).push(name@));
                }
            }
            g = g + 1;
        }
        self.find_unresolveables(cache, names)
    }
}

/// The edges asked about are edges of the graph.
pub proof fn lemma_candidates_are_edges(v: RelationsView, names: Seq<Seq<char>>, upto: int)
    requires
        upto <= names.len(),
    ensures
        forall|j: int|
            0 <= j < v.candidate_edges(names, upto).len() ==> 0 <= #[trigger] v.candidate_edges(
                names,
                upto,
            )[j] < v.edges.len(),
    decreases upto,
{
    if upto > 0 {
        lemma_candidates_are_edges(v, names, upto - 1);
        lemma_edges_named_members(v.edges, names[upto - 1]);
        let before = v.candidate_edges(names, upto - 1);
        let named = edges_named(v.edges, names[upto - 1]);
        assert forall|j: int| 0 <= j < v.candidate_edges(names, upto).len() implies 0
            <= #[trigger] v.candidate_edges(names, upto)[j] < v.edges.len() by {
            if j < before.len() {
                assert(v.candidate_edges(names, upto)[j] == before[j]);
            } else {
                assert(v.candidate_edges(names, upto)[j] == named[j - before.len()]);
            }
        }
    }
}

/// Where nothing in a stretch of a name's range meets an edge, nothing in
/// it does once more is removed, whatever else is added to the table.
pub proof fn lemma_nothing_before_stays(was: RelationsView, now: RelationsView, e: int, offset: int)
    requires
        was.nothing_before(e, offset),
        now.providers_of(e).0 == was.providers_of(e).0,
        now.edges[e].spec == was.edges[e].spec,
        0 <= was.providers_of(e).0,
        was.providers_of(e).0 + offset <= was.packages.len() <= now.packages.len(),
        forall|id: int|
            was.providers_of(e).0 <= id < was.providers_of(e).0 + offset ==> (
            #[trigger] now.packages[id]) == was.packages[id] && (was.removed[id]
                ==> now.removed[id]),
    ensures
        now.nothing_before(e, offset),
{
    assert forall|id: int|
        now.providers_of(e).0 <= id < now.providers_of(e).0 + offset implies !#[trigger] now.provides(
        e,
        id,
    ) by {
        assert(!was.provides(e, id));
        assert(now.packages[id] == was.packages[id]);
    }
}

/// The search for a provider from the last provider on finds what a search
/// of the whole range of the name finds: in a valid graph nothing before
/// an edge's last provider meets the edge.
pub proof fn lemma_search_is_whole(v: RelationsView, e: int)
    requires
        v.valid(),
        0 <= e < v.edges.len(),
    ensures
        v.first_provider(e, v.search_start(e), v.providers_of(e).1) == v.first_provider(
            e,
            v.providers_of(e).0,
            v.providers_of(e).1,
        ),
{
    assert(v.edge_ok(e));
    match v.edges[e].last_successful_resolution {
        Some(last) => {
            assert(v.nothing_before(e, last.offset as int));
            lemma_first_provider_skip(
                v,
                e,
                v.providers_of(e).0,
                v.search_start(e),
                v.providers_of(e).1,
            );
        },
        None => {},
    }
}

/// Where nothing from `from` up to `mid` meets an edge, the first provider
/// from `from` on is the first from `mid` on.
pub proof fn lemma_first_provider_skip(v: RelationsView, e: int, from: int, mid: int, end: int)
    requires
        from <= mid <= end,
        forall|id: int| from <= id < mid ==> !#[trigger] v.provides(e, id),
    ensures
        v.first_provider(e, from, end) == v.first_provider(e, mid, end),
    decreases mid - from,
{
    if from < mid {
        assert(!v.provides(e, from));
        lemma_first_provider_skip(v, e, from + 1, mid, end);
    }
}

/// In a later state of a graph, a proposal leaves the records that it
/// would have left before: records speak only of what stays.
pub proof fn lemma_same_logs(was: RelationsView, now: RelationsView, proposal: Evaluation)
    requires
        was.valid(),
        was.carries_on(now),
        was.proposal_ok(proposal),
    ensures
        now.proposal_ok(proposal),
        now.proposal_logs(proposal) == was.proposal_logs(proposal),
{
    match proposal {
        Evaluation::UpdateSolution(e, offset) => {
            assert(now.edges[e as int].name == was.edges[e as int].name);
            lemma_nothing_before_stays(was, now, e as int, offset.offset as int);
        },
        Evaluation::RemoveAndLog(e, cause) => {
            assert(now.edges[e as int].dependers == was.edges[e as int].dependers);
            assert(now.proposal_logs(proposal) =~= was.proposal_logs(proposal));
        },
    }
}

/// Carrying out a proposal gives a later state of the same graph.
pub proof fn lemma_carried_out_carries_on(v: RelationsView, proposal: Evaluation)
    requires
        v.proposal_ok(proposal),
        v.removed.len() == v.packages.len(),
    ensures
        v.carries_on(v.carried_out(proposal)),
        forall|first: RelationsView| first.carries_on(v) ==> first.carries_on(v.carried_out(proposal)),
{
    let next = v.carried_out(proposal);
    assert(v.carries_on(next));
    assert forall|first: RelationsView| first.carries_on(v) implies first.carries_on(next) by {
        assert forall|e: int| 0 <= e < first.edges.len() implies (#[trigger] next.edges[e]).name
            == first.edges[e].name && next.edges[e].spec == first.edges[e].spec
            && next.edges[e].dependers == first.edges[e].dependers && (first.edges[e].unsatisfiable
            ==> next.edges[e].unsatisfiable) by {
            assert(v.edges[e].name == first.edges[e].name);
        }
    }
}

} // verus!
