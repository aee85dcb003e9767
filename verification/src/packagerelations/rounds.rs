//! What a round of the unresolvables pass leaves of the edges it asked
//! about, and where the rounds end: a round that removes nothing leaves
//! every edge it asked about met or given up, and every further round on
//! the same names changes nothing.

use vstd::prelude::*;

use crate::logs::RemovedUnsatisfiableView;
use crate::packagerelations::growth::lemma_edges_named_same_names;
use crate::packagerelations::laws::lemma_fixed_point;
use crate::packagerelations::model::RelationsView;
use crate::packagerelations::select::dependers_in_table;
use crate::packagerelations::unresolved::lemma_candidates_are_edges;
use crate::packagerelations::unresolved::Evaluation;
use crate::pipeline_laws::lemma_carried_out_all;
use crate::pipeline_laws::lemma_valid_for_rounds;
use crate::pipeline_laws::proposal_edge;

verus! {

/// Whether one of the first `upto` of `proposals` is for the edge `f`.
pub open spec fn proposed(proposals: Seq<Evaluation>, upto: int, f: int) -> bool {
    exists|l: int| 0 <= l < upto && l < proposals.len() && proposal_edge(#[trigger] proposals[l]) == f
}

/// Whether each of `proposals` is what the first phase proposes for its
/// edge, as the graph `v` stands.
pub open spec fn all_evaluated(v: RelationsView, proposals: Seq<Evaluation>) -> bool {
    forall|l: int|
        0 <= l < proposals.len() ==> 0 <= proposal_edge(#[trigger] proposals[l]) < v.edges.len()
            && v.evaluation(proposal_edge(proposals[l])) == Some(proposals[l])
}

/// The proposals of a round are what the first phase proposes for their
/// edges, and what it proposes for an edge asked about that is not given
/// up is among them.
pub proof fn lemma_proposals_evaluated(v: RelationsView, edges: Seq<int>, upto: int)
    requires
        0 <= upto <= edges.len(),
        v.edges.len() <= usize::MAX,
        forall|j: int| 0 <= j < edges.len() ==> 0 <= #[trigger] edges[j] < v.edges.len(),
    ensures
        all_evaluated(v, v.proposals(edges, upto)),
        forall|j: int|
            0 <= j < upto && !v.edges[#[trigger] edges[j]].unsatisfiable && v.evaluation(
                edges[j],
            ) is Some ==> proposed(
                v.proposals(edges, upto),
                v.proposals(edges, upto).len() as int,
                edges[j],
            ),
        forall|l: int|
            0 <= l < v.proposals(edges, upto).len() ==> !v.edges[proposal_edge(
                #[trigger] v.proposals(edges, upto)[l],
            )].unsatisfiable,
    decreases upto,
{
    if upto > 0 {
        lemma_proposals_evaluated(v, edges, upto - 1);
        let rest = v.proposals(edges, upto - 1);
        let all = v.proposals(edges, upto);
        let e = edges[upto - 1];
        assert(0 <= e < v.edges.len());
        assert forall|l: int| 0 <= l < rest.len() implies all[l] == rest[l] by {
        }
        if !v.edges[e].unsatisfiable && v.evaluation(e) is Some {
            let p = v.evaluation(e).unwrap();
            assert(proposal_edge(p) == e);
            assert(all[all.len() - 1] == p);
        }
        assert forall|l: int| 0 <= l < all.len() implies 0 <= proposal_edge(#[trigger] all[l])
            < v.edges.len() && v.evaluation(proposal_edge(all[l])) == Some(all[l])
            && !v.edges[proposal_edge(all[l])].unsatisfiable by {
            if l < rest.len() {
                assert(all[l] == rest[l]);
            }
        }
        assert forall|j: int|
            0 <= j < upto && !v.edges[#[trigger] edges[j]].unsatisfiable && v.evaluation(
                edges[j],
            ) is Some implies proposed(all, all.len() as int, edges[j]) by {
            if j < upto - 1 {
                assert(proposed(rest, rest.len() as int, edges[j]));
                let l = choose|l: int|
                    0 <= l < rest.len() && l < rest.len() && proposal_edge(#[trigger] rest[l])
                        == edges[j];
                assert(proposal_edge(all[l]) == edges[j]);
            } else {
                assert(proposal_edge(all[all.len() - 1]) == edges[j]);
            }
        }
    }
}

/// What carrying proposals out does to an edge: where a new provider was
/// proposed for it, that is its last provider; where its removal was
/// proposed, it is given up; where nothing was proposed for it, its last
/// provider is as before.
pub proof fn lemma_carried_out_edges(v: RelationsView, proposals: Seq<Evaluation>, upto: int)
    requires
        0 <= upto <= proposals.len(),
        v.removed.len() == v.packages.len(),
        dependers_in_table(v),
        all_evaluated(v, proposals),
    ensures
        v.carried_out_all(proposals, upto).edges.len() == v.edges.len(),
        forall|f: int|
            0 <= f < v.edges.len() ==> if proposed(proposals, upto, f) {
                match v.evaluation(f) {
                    Some(Evaluation::UpdateSolution(_, offset)) => (#[trigger] v.carried_out_all(
                        proposals,
                        upto,
                    ).edges[f]).last_successful_resolution == Some(offset),
                    Some(Evaluation::RemoveAndLog(_, _)) => v.carried_out_all(
                        proposals,
                        upto,
                    ).edges[f].unsatisfiable,
                    None => true,
                }
            } else {
                (#[trigger] v.carried_out_all(proposals, upto).edges[f]).last_successful_resolution
                    == v.edges[f].last_successful_resolution
            },
    decreases upto,
{
    lemma_carried_out_all(v, proposals, upto);
    if upto > 0 {
        lemma_carried_out_edges(v, proposals, upto - 1);
        lemma_carried_out_all(v, proposals, upto - 1);
        let before = v.carried_out_all(proposals, upto - 1);
        let p = proposals[upto - 1];
        let pe = proposal_edge(p);
        let after = v.carried_out_all(proposals, upto);
        assert(after == before.carried_out(p));
        assert(0 <= pe < v.edges.len());
        assert(v.evaluation(pe) == Some(p));
        assert forall|f: int| 0 <= f < v.edges.len() implies if proposed(proposals, upto, f) {
            match v.evaluation(f) {
                Some(Evaluation::UpdateSolution(_, offset)) => (#[trigger] after.edges[f]).last_successful_resolution
                    == Some(offset),
                Some(Evaluation::RemoveAndLog(_, _)) => after.edges[f].unsatisfiable,
                None => true,
            }
        } else {
            (#[trigger] after.edges[f]).last_successful_resolution
                == v.edges[f].last_successful_resolution
        } by {
            if f == pe {
                assert(proposed(proposals, upto, f)) by {
                    assert(proposal_edge(proposals[upto - 1]) == f);
                }
            } else {
                assert(after.edges[f] == before.edges[f]);
                if proposed(proposals, upto, f) {
                    let l = choose|l: int|
                        0 <= l < upto && l < proposals.len() && proposal_edge(
                            #[trigger] proposals[l],
                        ) == f;
                    assert(l < upto - 1);
                    assert(proposed(proposals, upto - 1, f));
                } else {
                    if proposed(proposals, upto - 1, f) {
                        let l = choose|l: int|
                            0 <= l < upto - 1 && l < proposals.len() && proposal_edge(
                                #[trigger] proposals[l],
                            ) == f;
                        assert(proposal_edge(proposals[l]) == f);
                    }
                }
            }
        }
    }
}

/// The first provider found from a position on, if one is found, meets the
/// edge.
pub proof fn lemma_first_provider_provides(v: RelationsView, e: int, from: int, end: int)
    requires
        v.first_provider(e, from, end) < end,
    ensures
        from <= v.first_provider(e, from, end),
        v.provides(e, v.first_provider(e, from, end)),
    decreases end - from,
{
    if from < end && !v.provides(e, from) {
        lemma_first_provider_provides(v, e, from + 1, end);
    }
}

/// The edges asked about do not depend on anything but the edges' names.
pub proof fn lemma_same_candidates(a: RelationsView, b: RelationsView, names: Seq<Seq<char>>, upto: int)
    requires
        a.edges.len() == b.edges.len(),
        forall|e: int| 0 <= e < a.edges.len() ==> a.edges[e].name == b.edges[e].name,
    ensures
        a.candidate_edges(names, upto) == b.candidate_edges(names, upto),
    decreases upto,
{
    if upto > 0 {
        lemma_same_candidates(a, b, names, upto - 1);
        lemma_edges_named_same_names(a.edges, b.edges, names[upto - 1]);
    }
}

/// What a round leaves of an edge that it asked about: where the round
/// removes no package of the name that the edge points to, the edge is
/// given up or still met when the round is over.
pub proof fn lemma_round_settles(v: RelationsView, names: Seq<Seq<char>>, j: int)
    requires
        v.valid(),
        v.edges.len() <= usize::MAX,
        0 <= j < v.candidate_edges(names, names.len() as int).len(),
        forall|id: int|
            v.providers_of(v.candidate_edges(names, names.len() as int)[j]).0 <= id
                < v.providers_of(v.candidate_edges(names, names.len() as int)[j]).1
                && #[trigger] v.after_round(names).removed[id] ==> v.removed[id],
    ensures
        v.after_round(names).edges[v.candidate_edges(names, names.len() as int)[j]].unsatisfiable
            || v.after_round(names).still_met(v.candidate_edges(names, names.len() as int)[j]),
{
    let edges = v.candidate_edges(names, names.len() as int);
    let proposals = v.round_proposals(names);
    let after = v.after_round(names);
    lemma_valid_for_rounds(v);
    lemma_candidates_are_edges(v, names, names.len() as int);
    lemma_proposals_evaluated(v, edges, edges.len() as int);
    lemma_carried_out_all(v, proposals, proposals.len() as int);
    lemma_carried_out_edges(v, proposals, proposals.len() as int);
    let e = edges[j];
    assert(0 <= e < v.edges.len());
    assert(after.edges[e].name == v.edges[e].name);
    assert(v.edge_ok(e));
    let (base, end) = v.providers_of(e);
    if v.edges[e].unsatisfiable {
        assert(after.edges[e].unsatisfiable);
    } else {
        match v.evaluation(e) {
            None => {
                assert(v.cache_hit(e));
                if proposed(proposals, proposals.len() as int, e) {
                    let l = choose|l: int|
                        0 <= l < proposals.len() && l < proposals.len() && proposal_edge(
                            #[trigger] proposals[l],
                        ) == e;
                    assert(v.evaluation(proposal_edge(proposals[l])) == Some(proposals[l]));
                }
                assert(after.edges[e].last_successful_resolution
                    == v.edges[e].last_successful_resolution);
                let last = v.edges[e].last_successful_resolution.unwrap();
                assert(v.range_exact(v.edges[e].name));
                assert(!after.removed[base + last.offset]);
                assert(after.cache_hit(e));
            },
            Some(Evaluation::UpdateSolution(_, offset)) => {
                assert(proposed(proposals, proposals.len() as int, e));
                assert(after.edges[e].last_successful_resolution == Some(offset));
                let found = v.first_provider(e, v.search_start(e), end);
                lemma_first_provider_provides(v, e, v.search_start(e), end);
                assert(v.range_exact(v.edges[e].name));
                assert(offset.offset == found - base);
                assert(!after.removed[found]);
                assert(after.cache_hit(e));
            },
            Some(Evaluation::RemoveAndLog(_, _)) => {
                assert(proposed(proposals, proposals.len() as int, e));
                assert(after.edges[e].unsatisfiable);
            },
        }
    }
}

/// A round that removes nothing leaves every edge it asked about given up
/// or still met.
pub proof fn lemma_quiet_round(v: RelationsView, names: Seq<Seq<char>>)
    requires
        v.valid(),
        v.edges.len() <= usize::MAX,
        v.after_round(names).removed == v.removed,
    ensures
        v.after_round(names).candidate_edges(names, names.len() as int) == v.candidate_edges(
            names,
            names.len() as int,
        ),
        forall|j: int|
            0 <= j < v.candidate_edges(names, names.len() as int).len() ==> v.after_round(
                names,
            ).edges[#[trigger] v.candidate_edges(names, names.len() as int)[j]].unsatisfiable
                || v.after_round(names).still_met(
                v.candidate_edges(names, names.len() as int)[j],
            ),
{
    let edges = v.candidate_edges(names, names.len() as int);
    let proposals = v.round_proposals(names);
    let after = v.after_round(names);
    lemma_valid_for_rounds(v);
    lemma_candidates_are_edges(v, names, names.len() as int);
    lemma_proposals_evaluated(v, edges, edges.len() as int);
    lemma_carried_out_all(v, proposals, proposals.len() as int);
    assert forall|e: int| 0 <= e < v.edges.len() implies v.edges[e].name == after.edges[e].name by {
    }
    lemma_same_candidates(after, v, names, names.len() as int);
    assert forall|j: int| 0 <= j < edges.len() implies after.edges[#[trigger] edges[j]].unsatisfiable
        || after.still_met(edges[j]) by {
        lemma_round_settles(v, names, j);
    }
}

/// Fixed point: once a round of the unresolvables pass has removed
/// nothing, a further round on the same names removes nothing and leaves
/// no record.
pub proof fn lemma_quiet_round_is_fixed_point(v: RelationsView, names: Seq<Seq<char>>)
    requires
        v.valid(),
        v.edges.len() <= usize::MAX,
        v.after_round(names).removed == v.removed,
    ensures
        v.after_round(names).round_logs(names) == Seq::<RemovedUnsatisfiableView>::empty(),
        v.after_round(names).after_round(names).removed == v.after_round(names).removed,
{
    lemma_quiet_round(v, names);
    lemma_fixed_point(v, names);
}

} // verus!
