//! What holds of the pipeline: its rounds end because nothing more is
//! removed, and packages in sorted order are never refused for their place.

use vstd::prelude::*;
use vstd::string::StringExecFns;

use crate::ledger::LedgerView;
use crate::ledger::Round;
use crate::ledger::Tally;
use crate::logs::Removal;
use crate::matchspecyaml::UserMatchspecView;
use crate::packagerelations::account::lemma_architecture_logs_tell;
use crate::packagerelations::account::lemma_feature_logs_tell;
use crate::packagerelations::account::lemma_must_compatible_tells;
use crate::packagerelations::account::lemma_policy_logs_tell;
use crate::packagerelations::account::lemma_proposals_logs_tell;
use crate::packagerelations::account::lemma_superseded_logs_tell;
use crate::packagerelations::account::lemma_user_logs_tell;
use crate::packagerelations::admission::Refusal;
use crate::packagerelations::architecture::lemma_given_up;
use crate::packagerelations::architecture::virtual_bans;
use crate::packagerelations::laws::lemma_after_user_meets;
use crate::packagerelations::laws::lemma_must_compatible;
use crate::packagerelations::model::capacity;
use crate::packagerelations::model::PackageView;
use crate::packagerelations::model::PkgIdx;
use crate::packagerelations::model::RelationsView;
use crate::packagerelations::select::booked_in;
use crate::packagerelations::select::books_exact;
use crate::packagerelations::select::chosen;
use crate::packagerelations::select::file_of_removed;
use crate::packagerelations::select::lemma_without_carries_on;
use crate::packagerelations::select::named_by;
use crate::packagerelations::select::tells;
use crate::packagerelations::select::dependers_in_table;
use crate::packagerelations::select::file_of_package;
use crate::packagerelations::select::lemma_carries_on_further;
use crate::packagerelations::select::names_packages;
use crate::packagerelations::unresolved::Evaluation;
use crate::packagerelations::unresolved::lemma_candidates_are_edges;
use crate::pipeline::curated;
use crate::pipeline::Curated;
use crate::pipeline::entered;
use crate::pipeline::Policy;
use crate::pipeline::round_budget;
use crate::rawrepodata::in_order;
use crate::rawrepodata::lemma_names_together;
use crate::text::decimal;

verus! {

impl Curated {
    /// The names that are left for a next round when the rounds of
    /// `settled` end.
    pub open spec fn left_over(self, names: Seq<Seq<char>>, round: nat, budget: nat) -> Seq<
        Seq<char>,
    >
        decreases budget,
    {
        if names.len() == 0 || budget == 0 {
            names
        } else {
            let apart = LedgerView { next_round: Seq::empty(), ..self.ledger };
            let noted = apart.noted(
                "No Sln Round "@ + decimal(round + 1),
                self.state.round_logs(names),
            );
            (Curated {
                state: self.state.after_round(names),
                ledger: LedgerView { next_round: self.ledger.next_round, ..noted },
            }).left_over(noted.next_round, round + 1, (budget - 1) as nat)
        }
    }
}

/// No more files are booked than the table has packages.
pub proof fn lemma_booked_count(files: Seq<Seq<char>>, state: RelationsView)
    requires
        booked_in(files, state),
    ensures
        files.len() <= state.packages.len(),
{
    let ids = Seq::new(
        files.len(),
        |i: int|
            choose|id: int|
                0 <= id < state.packages.len() && (#[trigger] state.packages[id]).filename
                    == files[i],
    );
    assert forall|i: int| 0 <= i < ids.len() implies 0 <= #[trigger] ids[i] < state.packages.len()
        && state.packages[ids[i]].filename == files[i] by {
        assert(file_of_package(files[i], state));
    }
    assert(ids.no_duplicates()) by {
        assert forall|i: int, j: int| 0 <= i < ids.len() && 0 <= j < ids.len() && i != j implies ids[i]
            != ids[j] by {
            if i < j {
                assert(files[i] != files[j]);
            } else {
                assert(files[j] != files[i]);
            }
        }
    }
    ids.unique_seq_to_set();
    vstd::set_lib::lemma_int_range(0, state.packages.len() as int);
    assert(ids.to_set().subset_of(vstd::set_lib::set_int_range(0, state.packages.len() as int))) by {
        assert forall|id: int| ids.to_set().contains(id) implies vstd::set_lib::set_int_range(
            0,
            state.packages.len() as int,
        ).contains(id) by {
            let i = choose|i: int| 0 <= i < ids.len() && ids[i] == id;
            assert(0 <= ids[i] < state.packages.len());
        }
    }
    vstd::set_lib::lemma_len_subset(
        ids.to_set(),
        vstd::set_lib::set_int_range(0, state.packages.len() as int),
    );
}

/// Taking removals of packages' files down keeps the books in order, and
/// notes a name only where it books a file.
pub proof fn lemma_tally_booked<V: Removal>(
    tally: Tally,
    removals: Seq<V>,
    upto: int,
    explain: bool,
    state: RelationsView,
)
    requires
        0 <= upto <= removals.len(),
        booked_in(tally.removed, state),
        forall|k: int| 0 <= k < removals.len() ==> file_of_package((#[trigger] removals[k]).file(), state),
    ensures
        booked_in(tally.with_removals(removals, upto, explain).removed, state),
        tally.with_removals(removals, upto, explain).removed.len() >= tally.removed.len(),
        tally.with_removals(removals, upto, explain).names.len() - tally.names.len()
            <= tally.with_removals(removals, upto, explain).removed.len() - tally.removed.len(),
    decreases upto,
{
    if upto > 0 {
        lemma_tally_booked(tally, removals, upto - 1, explain, state);
        let before = tally.with_removals(removals, upto - 1, explain);
        let after = tally.with_removals(removals, upto, explain);
        let file = removals[upto - 1].file();
        if !before.removed.contains(file) {
            assert forall|i: int, j: int| 0 <= i < j < after.removed.len() implies after.removed[i]
                != after.removed[j] by {
                if j == before.removed.len() {
                    assert(before.removed[i] != file);
                }
            }
            assert forall|i: int| 0 <= i < after.removed.len() implies file_of_package(
                #[trigger] after.removed[i],
                state,
            ) by {
                if i < before.removed.len() {
                    assert(after.removed[i] == before.removed[i]);
                }
            }
        }
    }
}

/// The proposals for edges of the graph speak of edges of the graph.
pub proof fn lemma_proposals_in_range(v: RelationsView, edges: Seq<int>, upto: int)
    requires
        0 <= upto <= edges.len(),
        v.edges.len() <= usize::MAX,
        forall|j: int| 0 <= j < edges.len() ==> 0 <= #[trigger] edges[j] < v.edges.len(),
    ensures
        forall|l: int|
            0 <= l < v.proposals(edges, upto).len() ==> proposal_edge(
                #[trigger] v.proposals(edges, upto)[l],
            ) < v.edges.len(),
    decreases upto,
{
    if upto > 0 {
        lemma_proposals_in_range(v, edges, upto - 1);
        let rest = v.proposals(edges, upto - 1);
        let all = v.proposals(edges, upto);
        let e = edges[upto - 1];
        assert(0 <= e < v.edges.len());
        if !v.edges[e].unsatisfiable {
            match v.evaluation(e) {
                Some(proposal) => {
                    assert(proposal_edge(proposal) == e);
                    assert forall|l: int| 0 <= l < all.len() implies proposal_edge(
                        #[trigger] all[l],
                    ) < v.edges.len() by {
                        if l < rest.len() {
                            assert(all[l] == rest[l]);
                        }
                    }
                },
                None => {},
            }
        }
    }
}

/// The edge that a proposal speaks of.
pub open spec fn proposal_edge(proposal: Evaluation) -> int {
    match proposal {
        Evaluation::UpdateSolution(e, _) => e as int,
        Evaluation::RemoveAndLog(e, _) => e as int,
    }
}

/// Carrying out proposals for edges of the graph gives a later state of
/// the same graph, and the records left name files of its packages.
pub proof fn lemma_carried_out_all(v: RelationsView, proposals: Seq<Evaluation>, upto: int)
    requires
        0 <= upto <= proposals.len(),
        v.removed.len() == v.packages.len(),
        dependers_in_table(v),
        forall|l: int|
            0 <= l < proposals.len() ==> 0 <= proposal_edge(#[trigger] proposals[l]) < v.edges.len(),
    ensures
        v.carries_on(v.carried_out_all(proposals, upto)),
        forall|k: int|
            0 <= k < v.proposals_logs(proposals, upto).len() ==> file_of_package(
                (#[trigger] v.proposals_logs(proposals, upto)[k]).file(),
                v,
            ),
    decreases upto,
{
    if upto > 0 {
        lemma_carried_out_all(v, proposals, upto - 1);
        let before = v.carried_out_all(proposals, upto - 1);
        let proposal = proposals[upto - 1];
        let after = before.carried_out(proposal);
        let e = proposal_edge(proposal);
        assert(0 <= e < v.edges.len());
        assert(before.carries_on(after));
        lemma_carries_on_further(v, before, after);
        let logs_before = v.proposals_logs(proposals, upto - 1);
        let logs = v.proposals_logs(proposals, upto);
        assert forall|k: int| 0 <= k < logs.len() implies file_of_package(
            (#[trigger] logs[k]).file(),
            v,
        ) by {
            if k < logs_before.len() {
                assert(logs[k] == logs_before[k]);
            } else {
                let d = k - logs_before.len();
                assert(logs[k] == v.proposal_logs(proposal)[d]);
                match proposal {
                    Evaluation::UpdateSolution(_, _) => {},
                    Evaluation::RemoveAndLog(edge, cause) => {
                        let id = v.edges[e].dependers[d].index as int;
                        assert(v.packages[id].filename == logs[k].file());
                    },
                }
            }
        }
    }
}

/// The rounds of the unresolvables pass end because a round removes
/// nothing, not because the budget runs out: where the books hold files of
/// the graph's packages only, each once, and the budget is greater than the
/// number of packages whose files are not booked, no names are left for a
/// next round when the rounds end.
pub proof fn lemma_rounds_end_by_themselves(
    curated: Curated,
    names: Seq<Seq<char>>,
    round: nat,
    budget: nat,
)
    requires
        curated.state.removed.len() == curated.state.packages.len(),
        curated.state.edges.len() <= usize::MAX,
        dependers_in_table(curated.state),
        booked_in(curated.ledger.removed, curated.state),
        budget + curated.ledger.removed.len() > curated.state.packages.len(),
    ensures
        curated.left_over(names, round, budget).len() == 0,
        curated.state.carries_on(curated.settled(names, round, budget).state),
        booked_in(
            curated.settled(names, round, budget).ledger.removed,
            curated.settled(names, round, budget).state,
        ),
    decreases budget,
{
    lemma_booked_count(curated.ledger.removed, curated.state);
    if names.len() > 0 && budget > 0 {
        let v = curated.state;
        let edges = v.candidate_edges(names, names.len() as int);
        lemma_candidates_are_edges(v, names, names.len() as int);
        lemma_proposals_in_range(v, edges, edges.len() as int);
        let proposals = v.round_proposals(names);
        lemma_carried_out_all(v, proposals, proposals.len() as int);
        let logs = v.round_logs(names);
        let apart = LedgerView { next_round: Seq::empty(), ..curated.ledger };
        let before = Tally { removed: apart.removed, names: apart.next_round, lines: Seq::empty() };
        lemma_tally_booked(before, logs, logs.len() as int, apart.explain, v);
        let noted = apart.noted("No Sln Round "@ + decimal(round + 1), logs);
        let next = Curated {
            state: v.after_round(names),
            ledger: LedgerView { next_round: curated.ledger.next_round, ..noted },
        };
        assert(booked_in(next.ledger.removed, next.state)) by {
            assert forall|i: int| 0 <= i < next.ledger.removed.len() implies file_of_package(
                #[trigger] next.ledger.removed[i],
                next.state,
            ) by {
                assert(file_of_package(next.ledger.removed[i], v));
                let id = choose|id: int|
                    0 <= id < v.packages.len() && (#[trigger] v.packages[id]).filename
                        == next.ledger.removed[i];
                assert(next.state.packages[id].filename == next.ledger.removed[i]);
            }
        }
        assert(dependers_in_table(next.state)) by {
            assert forall|e: int, k: int|
                0 <= e < next.state.edges.len() && 0 <= k
                    < next.state.edges[e].dependers.len() implies (
            #[trigger] next.state.edges[e].dependers[k]).index < next.state.packages.len() by {
                assert(next.state.edges[e].dependers == v.edges[e].dependers);
                assert(v.edges[e].dependers[k].index < v.packages.len());
            }
        }
        if noted.next_round.len() > 0 {
            lemma_rounds_end_by_themselves(next, noted.next_round, round + 1, (budget - 1) as nat);
            lemma_carries_on_further(
                v,
                next.state,
                next.settled(noted.next_round, round + 1, (budget - 1) as nat).state,
            );
        } else {
            assert(next.left_over(noted.next_round, round + 1, (budget - 1) as nat)
                == noted.next_round);
            assert(next.settled(noted.next_round, round + 1, (budget - 1) as nat) == next);
        }
    }
}

/// Entering a round whose records name files of the graph's packages
/// keeps the books in order.
pub proof fn lemma_noted_booked<V: Removal>(
    ledger: LedgerView,
    label: Seq<char>,
    removals: Seq<V>,
    was: RelationsView,
    now: RelationsView,
)
    requires
        booked_in(ledger.removed, was),
        names_packages(removals, was),
        was.packages == now.packages,
    ensures
        booked_in(ledger.noted(label, removals).removed, now),
{
    let before = Tally { removed: ledger.removed, names: ledger.next_round, lines: Seq::empty() };
    lemma_tally_booked(before, removals, removals.len() as int, ledger.explain, was);
    let files = ledger.noted(label, removals).removed;
    assert forall|i: int| 0 <= i < files.len() implies file_of_package(#[trigger] files[i], now) by {
        assert(file_of_package(files[i], was));
        let id = choose|id: int|
            0 <= id < was.packages.len() && (#[trigger] was.packages[id]).filename == files[i];
        assert(now.packages[id].filename == files[i]);
    }
}

/// The size of a valid graph's table is one that the machine can count,
/// with room for one more, and the dependers of its edges are in the
/// table.
pub proof fn lemma_valid_for_rounds(v: RelationsView)
    requires
        v.valid(),
    ensures
        v.removed.len() == v.packages.len(),
        v.packages.len() < usize::MAX,
        dependers_in_table(v),
{
    assert forall|e: int, k: int|
        0 <= e < v.edges.len() && 0 <= k < v.edges[e].dependers.len() implies (
    #[trigger] v.edges[e].dependers[k]).index < v.packages.len() by {
        assert(v.edge_ok(e));
    }
}

/// The unresolvables pass, run to its end as `resolved` has it, ends
/// because a round removes nothing: the budget of `round_budget` is never
/// what ends it, as long as the table is not as large as the machine can
/// count.
pub proof fn lemma_resolved_ends_by_itself(curated: Curated)
    requires
        curated.state.removed.len() == curated.state.packages.len(),
        curated.state.packages.len() < usize::MAX,
        curated.state.edges.len() <= usize::MAX,
        dependers_in_table(curated.state),
        booked_in(curated.ledger.removed, curated.state),
    ensures
        curated.left_over(curated.ledger.next_round, 0, round_budget(curated.state)).len() == 0,
{
    lemma_rounds_end_by_themselves(
        curated,
        curated.ledger.next_round,
        0,
        round_budget(curated.state),
    );
}

/// The table of the graph after packages have been entered holds those
/// packages, in their order.
pub proof fn lemma_entered_packages(packages: Seq<PackageView>, upto: int)
    requires
        0 <= upto <= packages.len(),
    ensures
        entered(packages, upto).packages == packages.take(upto),
    decreases upto,
{
    if upto > 0 {
        lemma_entered_packages(packages, upto - 1);
        let before = entered(packages, upto - 1);
        let package = packages[upto - 1];
        lemma_with_dependers_packages(
            before.with_package(package),
            package.record.depends,
            package.record.depends.len() as int,
            PkgIdx { index: before.packages.len() as u32 },
        );
        assert(entered(packages, upto).packages =~= packages.take(upto));
    } else {
        assert(entered(packages, upto).packages =~= packages.take(upto));
    }
}

/// Entering dependency clauses leaves the table as it is.
pub proof fn lemma_with_dependers_packages(v: RelationsView, clauses: Seq<Seq<char>>, done: int, id: PkgIdx)
    ensures
        v.with_dependers(clauses, done, id).packages == v.packages,
        v.with_dependers(clauses, done, id).ranges == v.ranges,
        v.with_dependers(clauses, done, id).removed == v.removed,
    decreases done,
{
    if done > 0 {
        lemma_with_dependers_packages(v, clauses, done - 1, id);
    }
}

/// Entering packages that were taken so far gives a valid graph.
pub proof fn lemma_entered_valid(packages: Seq<PackageView>, upto: int)
    requires
        0 <= upto <= packages.len(),
        forall|before: int|
            0 <= before < upto ==> (#[trigger] entered(packages, before)).takes(packages[before]),
    ensures
        entered(packages, upto).valid(),
    decreases upto,
{
    if upto > 0 {
        lemma_entered_valid(packages, upto - 1);
        assert(entered(packages, upto - 1).takes(packages[upto - 1]));
        entered(packages, upto - 1).lemma_inserted_valid(packages[upto - 1]);
    } else {
        assert(entered(packages, upto).valid()) by {
            assert(forall|id: int, c: int|
                0 <= id < 0 ==> #[trigger] entered(packages, upto).clause_covered(id, c));
        }
    }
}

/// Packages in the order of `sorted_iter` are never refused for their
/// place: where each package so far was taken, the next one is not out of
/// order.
pub proof fn lemma_sorted_never_out_of_order(packages: Seq<PackageView>, at: int)
    requires
        in_order(packages),
        0 <= at < packages.len(),
        forall|before: int|
            0 <= before < at ==> (#[trigger] entered(packages, before)).takes(packages[before]),
    ensures
        entered(packages, at).refusal(packages[at]) != Some(Refusal::OutOfOrder),
{
    let state = entered(packages, at);
    let name = packages[at].record.name;
    lemma_entered_valid(packages, at);
    lemma_entered_packages(packages, at);
    if state.ranges.contains_key(name) {
        assert(state.range_exact(name));
        let first = state.ranges[name].0.index as int;
        assert(state.packages[first].record.name == name);
        assert(state.packages[first] == packages[first]);
        lemma_names_together(packages, first, at - 1, at);
        assert(state.packages.last() == packages[at - 1]);
    }
}

/// What the rounds of the pipeline need of a graph: its table is dense and
/// of a size that the machine can count, as is the number of its edges,
/// and the dependers of its edges are in the table.
pub open spec fn fit_for_rounds(v: RelationsView) -> bool {
    &&& v.removed.len() == v.packages.len() <= capacity()
    &&& v.edges.len() <= usize::MAX
    &&& dependers_in_table(v)
}

/// A later state of a graph that is fit for rounds is fit for rounds.
pub proof fn lemma_fit_later(v: RelationsView, later: RelationsView)
    requires
        fit_for_rounds(v),
        v.carries_on(later),
    ensures
        fit_for_rounds(later),
{
    assert forall|e: int, k: int|
        0 <= e < later.edges.len() && 0 <= k < later.edges[e].dependers.len() implies (
    #[trigger] later.edges[e].dependers[k]).index < later.packages.len() by {
        assert(later.edges[e].dependers == v.edges[e].dependers);
        assert(v.edges[e].dependers[k].index < v.packages.len());
    }
}

/// Taking removals down books the files that were booked and the files
/// that the removals name, and no others.
pub proof fn lemma_tally_files<V: Removal>(
    tally: Tally,
    removals: Seq<V>,
    upto: int,
    explain: bool,
)
    requires
        0 <= upto <= removals.len(),
    ensures
        forall|i: int|
            0 <= i < tally.with_removals(removals, upto, explain).removed.len()
                ==> tally.removed.contains(
                #[trigger] tally.with_removals(removals, upto, explain).removed[i],
            ) || named_by(tally.with_removals(removals, upto, explain).removed[i], removals),
        forall|i: int|
            0 <= i < tally.removed.len() ==> tally.with_removals(
                removals,
                upto,
                explain,
            ).removed.contains(#[trigger] tally.removed[i]),
        forall|k: int|
            0 <= k < upto ==> tally.with_removals(removals, upto, explain).removed.contains(
                (#[trigger] removals[k]).file(),
            ),
    decreases upto,
{
    if upto > 0 {
        lemma_tally_files(tally, removals, upto - 1, explain);
        let before = tally.with_removals(removals, upto - 1, explain).removed;
        let after = tally.with_removals(removals, upto, explain).removed;
        let file = removals[upto - 1].file();
        assert forall|i: int| 0 <= i < before.len() implies after.contains(
            #[trigger] before[i],
        ) by {
            assert(after[i] == before[i]);
        }
        assert(after.contains(file)) by {
            if before.contains(file) {
                let i = choose|i: int| 0 <= i < before.len() && before[i] == file;
                assert(after[i] == file);
            } else {
                assert(after[after.len() - 1] == file);
            }
        }
        assert forall|i: int| 0 <= i < after.len() implies tally.removed.contains(
            #[trigger] after[i],
        ) || named_by(after[i], removals) by {
            if i < before.len() {
                assert(after[i] == before[i]);
            } else {
                assert(after[i] == removals[upto - 1].file());
            }
        }
        assert forall|i: int| 0 <= i < tally.removed.len() implies after.contains(
            #[trigger] tally.removed[i],
        ) by {
            assert(before.contains(tally.removed[i]));
            let j = choose|j: int| 0 <= j < before.len() && before[j] == tally.removed[i];
            assert(after.contains(before[j]));
        }
        assert forall|k: int| 0 <= k < upto implies after.contains(
            (#[trigger] removals[k]).file(),
        ) by {
            if k < upto - 1 {
                assert(before.contains(removals[k].file()));
                let j = choose|j: int| 0 <= j < before.len() && before[j] == removals[k].file();
                assert(after.contains(before[j]));
            }
        }
    } else {
        assert forall|i: int| 0 <= i < tally.removed.len() implies tally.removed.contains(
            #[trigger] tally.removed[i],
        ) by {
        }
    }
}

/// Entering a round whose records tell what it removed keeps the books
/// exact: where the booked files were the files of the removed packages
/// before the round, they are after it.
pub proof fn lemma_noted_exact<V: Removal>(
    ledger: LedgerView,
    label: Seq<char>,
    removals: Seq<V>,
    was: RelationsView,
    now: RelationsView,
)
    requires
        books_exact(ledger.removed, was),
        tells(removals, was, now),
        was.removed.len() == was.packages.len(),
        was.carries_on(now),
    ensures
        books_exact(ledger.noted(label, removals).removed, now),
{
    let before = Tally { removed: ledger.removed, names: ledger.next_round, lines: Seq::empty() };
    lemma_tally_files(before, removals, removals.len() as int, ledger.explain);
    let files = ledger.noted(label, removals).removed;
    assert forall|i: int| 0 <= i < files.len() implies file_of_removed(
        #[trigger] files[i],
        now,
    ) by {
        if ledger.removed.contains(files[i]) {
            let j = choose|j: int| 0 <= j < ledger.removed.len() && ledger.removed[j] == files[i];
            assert(file_of_removed(ledger.removed[j], was));
            let id = choose|id: int|
                0 <= id < was.packages.len() && was.removed[id] && (
                #[trigger] was.packages[id]).filename == files[i];
            assert(now.removed[id]);
            assert(now.packages[id].filename == files[i]);
        } else {
            assert(named_by(files[i], removals));
            let k = choose|k: int|
                0 <= k < removals.len() && (#[trigger] removals[k]).file() == files[i];
            assert(file_of_removed(removals[k].file(), now));
        }
    }
    assert forall|id: int| 0 <= id < now.packages.len() && now.removed[id] implies files.contains(
        (#[trigger] now.packages[id]).filename,
    ) by {
        let file = now.packages[id].filename;
        if was.removed[id] {
            assert(ledger.removed.contains(was.packages[id].filename));
            let j = choose|j: int| 0 <= j < ledger.removed.len() && ledger.removed[j] == file;
            assert(files.contains(ledger.removed[j]));
        } else {
            assert(named_by(file, removals));
            let k = choose|k: int| 0 <= k < removals.len() && (#[trigger] removals[k]).file() == file;
            assert(files.contains(removals[k].file()));
        }
    }
}

/// The rounds of the unresolvables pass keep the books exact.
pub proof fn lemma_settled_books(curated: Curated, names: Seq<Seq<char>>, round: nat, budget: nat)
    requires
        fit_for_rounds(curated.state),
        books_exact(curated.ledger.removed, curated.state),
    ensures
        curated.state.carries_on(curated.settled(names, round, budget).state),
        books_exact(
            curated.settled(names, round, budget).ledger.removed,
            curated.settled(names, round, budget).state,
        ),
    decreases budget,
{
    if names.len() > 0 && budget > 0 {
        let v = curated.state;
        let edges = v.candidate_edges(names, names.len() as int);
        lemma_candidates_are_edges(v, names, names.len() as int);
        lemma_proposals_in_range(v, edges, edges.len() as int);
        let proposals = v.round_proposals(names);
        lemma_carried_out_all(v, proposals, proposals.len() as int);
        lemma_proposals_logs_tell(v, proposals, proposals.len() as int);
        let logs = v.round_logs(names);
        let apart = LedgerView { next_round: Seq::empty(), ..curated.ledger };
        let label = "No Sln Round "@ + decimal(round + 1);
        lemma_noted_exact(apart, label, logs, v, v.after_round(names));
        let noted = apart.noted(label, logs);
        let next = Curated {
            state: v.after_round(names),
            ledger: LedgerView { next_round: curated.ledger.next_round, ..noted },
        };
        lemma_fit_later(v, next.state);
        lemma_settled_books(next, noted.next_round, round + 1, (budget - 1) as nat);
        lemma_carries_on_further(
            v,
            next.state,
            next.settled(noted.next_round, round + 1, (budget - 1) as nat).state,
        );
    }
}

/// The passes that come before the must-compatible pass keep the books
/// exact.
pub proof fn lemma_filtered_books(
    curated: Curated,
    architecture: Seq<char>,
    ban_dev: bool,
    ban_rc: bool,
    user: Seq<UserMatchspecView>,
    features: Seq<Seq<char>>,
)
    requires
        fit_for_rounds(curated.state),
        books_exact(curated.ledger.removed, curated.state),
    ensures
        curated.state.carries_on(
            curated.filtered(architecture, ban_dev, ban_rc, user, features).state,
        ),
        books_exact(
            curated.filtered(architecture, ban_dev, ban_rc, user, features).ledger.removed,
            curated.filtered(architecture, ban_dev, ban_rc, user, features).state,
        ),
{
    let v = curated.state;
    lemma_after_user_meets(v, user, user.len() as int);
    lemma_user_logs_tell(v, user, user.len() as int);
    let by_user = curated.noting(
        "user matchspecs"@,
        v.after_user(user, user.len() as int),
        v.user_logs(user, user.len() as int),
    );
    lemma_noted_exact(
        curated.ledger,
        "user matchspecs"@,
        v.user_logs(user, user.len() as int),
        v,
        by_user.state,
    );
    lemma_fit_later(v, by_user.state);

    let pruned = by_user.noting(
        "old builds"@,
        by_user.state.without(by_user.state.all_superseded()),
        by_user.state.superseded_logs(by_user.state.participants().len() as int),
    );
    lemma_superseded_logs_tell(by_user.state, by_user.state.participants().len() as int);
    lemma_without_carries_on(by_user.state, by_user.state.all_superseded());
    lemma_noted_exact(
        by_user.ledger,
        "old builds"@,
        by_user.state.superseded_logs(by_user.state.participants().len() as int),
        by_user.state,
        pruned.state,
    );
    lemma_fit_later(by_user.state, pruned.state);
    lemma_carries_on_further(v, by_user.state, pruned.state);

    let featured = pruned.noting(
        "features"@,
        pruned.state.without(pruned.state.featured(features)),
        pruned.state.feature_logs(
            features,
            chosen(pruned.state.featured(features), pruned.state.packages.len() as int),
        ),
    );
    lemma_feature_logs_tell(pruned.state, features);
    lemma_without_carries_on(pruned.state, pruned.state.featured(features));
    lemma_noted_exact(
        pruned.ledger,
        "features"@,
        pruned.state.feature_logs(
            features,
            chosen(pruned.state.featured(features), pruned.state.packages.len() as int),
        ),
        pruned.state,
        featured.state,
    );
    lemma_fit_later(pruned.state, featured.state);
    lemma_carries_on_further(v, pruned.state, featured.state);

    let released = featured.noting(
        "dev & rc"@,
        featured.state.without(featured.state.prereleases(ban_dev, ban_rc)),
        featured.state.policy_logs(
            chosen(
                featured.state.prereleases(ban_dev, ban_rc),
                featured.state.packages.len() as int,
            ),
        ),
    );
    lemma_policy_logs_tell(featured.state, ban_dev, ban_rc);
    lemma_without_carries_on(featured.state, featured.state.prereleases(ban_dev, ban_rc));
    lemma_noted_exact(
        featured.ledger,
        "dev & rc"@,
        featured.state.policy_logs(
            chosen(
                featured.state.prereleases(ban_dev, ban_rc),
                featured.state.packages.len() as int,
            ),
        ),
        featured.state,
        released.state,
    );
    lemma_fit_later(featured.state, released.state);
    lemma_carries_on_further(v, featured.state, released.state);

    let banned = released.state.banned_edges(architecture);
    let fitted = released.noting(
        "incompat arch"@,
        released.state.given_up(banned, banned.len() as int),
        released.state.architecture_logs(architecture, banned, banned.len() as int),
    );
    lemma_candidates_are_edges(
        released.state,
        virtual_bans(architecture),
        virtual_bans(architecture).len() as int,
    );
    lemma_given_up(released.state, banned, banned.len() as int);
    lemma_architecture_logs_tell(released.state, architecture, banned, banned.len() as int);
    lemma_noted_exact(
        released.ledger,
        "incompat arch"@,
        released.state.architecture_logs(architecture, banned, banned.len() as int),
        released.state,
        fitted.state,
    );
    lemma_fit_later(released.state, fitted.state);
    lemma_carries_on_further(v, released.state, fitted.state);

    lemma_settled_books(fitted, fitted.ledger.next_round, 0, round_budget(fitted.state));
    lemma_carries_on_further(v, fitted.state, fitted.resolved().state);
}

/// The must-compatible pass with each root, each time with the
/// unresolvables pass after it, keeps the books exact.
pub proof fn lemma_compatible_books(curated: Curated, roots: Seq<Seq<char>>, upto: int)
    requires
        fit_for_rounds(curated.state),
        books_exact(curated.ledger.removed, curated.state),
        upto <= roots.len(),
    ensures
        curated.state.carries_on(curated.compatible_with_all(roots, upto).state),
        books_exact(
            curated.compatible_with_all(roots, upto).ledger.removed,
            curated.compatible_with_all(roots, upto).state,
        ),
    decreases upto,
{
    if upto > 0 {
        lemma_compatible_books(curated, roots, upto - 1);
        let before = curated.compatible_with_all(roots, upto - 1);
        lemma_fit_later(curated.state, before.state);
        let root = roots[upto - 1];
        let outcome = before.state.must_compatible(root, before.state.depth_budget());
        lemma_must_compatible(before.state, root, before.state.depth_budget());
        lemma_must_compatible_tells(before.state, root, before.state.depth_budget());
        lemma_noted_exact(before.ledger, "compat "@ + root, outcome.logs, before.state, outcome.state);
        let noted = before.noting("compat "@ + root, outcome.state, outcome.logs);
        lemma_fit_later(before.state, noted.state);
        lemma_settled_books(noted, noted.ledger.next_round, 0, round_budget(noted.state));
        lemma_carries_on_further(before.state, noted.state, noted.resolved().state);
        lemma_carries_on_further(curated.state, before.state, noted.resolved().state);
    } else {
        assert(curated.state.carries_on(curated.state));
    }
}

/// When the pipeline has run on a graph of which nothing was removed, the
/// files in the books are exactly the files of the packages that are
/// removed: each booked file is the file of a removed package, and the
/// file of each removed package is booked.
pub proof fn lemma_curated_books(
    state: RelationsView,
    architecture: Seq<char>,
    policy: Policy,
    user: Seq<UserMatchspecView>,
    features: Seq<Seq<char>>,
)
    requires
        state.valid(),
        state.edges.len() <= usize::MAX,
        forall|id: int| 0 <= id < state.removed.len() ==> !state.removed[id],
    ensures
        books_exact(
            curated(state, architecture, policy, user, features).ledger.removed,
            curated(state, architecture, policy, user, features).state,
        ),
{
    let roots = policy.must_compatible@.map_values(|root: String| root@);
    let begun = Curated { state, ledger: LedgerView::new(policy.explain) };
    lemma_valid_for_rounds(state);
    lemma_filtered_books(begun, architecture, policy.ban_dev, policy.ban_rc, user, features);
    let filtered = begun.filtered(architecture, policy.ban_dev, policy.ban_rc, user, features);
    lemma_fit_later(state, filtered.state);
    lemma_compatible_books(filtered, roots, roots.len() as int);
}

/// Entering packages removes none.
pub proof fn lemma_entered_whole(packages: Seq<PackageView>, upto: int)
    requires
        0 <= upto <= packages.len(),
    ensures
        forall|id: int|
            0 <= id < entered(packages, upto).removed.len() ==> !entered(packages, upto).removed[id],
    decreases upto,
{
    if upto > 0 {
        lemma_entered_whole(packages, upto - 1);
        let before = entered(packages, upto - 1);
        let package = packages[upto - 1];
        lemma_with_dependers_packages(
            before.with_package(package),
            package.record.depends,
            package.record.depends.len() as int,
            PkgIdx { index: before.packages.len() as u32 },
        );
    }
}

} // verus!
