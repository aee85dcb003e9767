//! What holds of the graph and its passes, beyond what each pass says of
//! itself.

use vstd::prelude::*;

use crate::logs::Removal;
use crate::logs::RemovedByUserView;
use crate::logs::RemovedUnsatisfiableView;
use crate::matchspecyaml::UserMatchspecView;
use crate::packagerelations::build_prune::group_max;
use crate::packagerelations::build_prune::lemma_group_bounds;
use crate::packagerelations::build_prune::lemma_max_build;
use crate::packagerelations::build_prune::run_end;
use crate::packagerelations::build_prune::run_start;
use crate::packagerelations::build_prune::superseded;
use crate::packagerelations::compatible::Agreement;
use crate::packagerelations::compatible::incompatible_from;
use crate::packagerelations::graph::PackageRelations;
use crate::packagerelations::model::depends_on;
use crate::packagerelations::model::RelationsView;
use crate::packagerelations::select::chosen;
use crate::packagerelations::select::dependers_in_table;
use crate::packagerelations::select::file_of_package;
use crate::packagerelations::select::lemma_carries_on_further;
use crate::packagerelations::select::lemma_chosen_members;
use crate::packagerelations::select::lemma_chosen_skip;
use crate::packagerelations::select::lemma_without_carries_on;
use crate::packagerelations::select::names_packages;
use crate::packagerelations::unresolved::lemma_search_is_whole;
use crate::packagerelations::unresolved::Evaluation;
use crate::packagerelations::user::any_accepts;

verus! {

impl<'a> PackageRelations<'a> {
    /// Density: the bitmap of a graph has one bit for each of its packages.
    pub proof fn lemma_density(&self)
        requires
            self.wf(),
        ensures
            self@.removed.len() == self@.packages.len(),
    {
        self.lemma_valid();
    }

    /// Range contiguity: the range of a name holds packages of that name
    /// only, and every package of that name lies in it.
    pub proof fn lemma_range_contiguity(&self, name: Seq<char>)
        requires
            self.wf(),
            self@.ranges.contains_key(name),
        ensures
            self@.ranges[name].0.index + self@.ranges[name].1.offset <= self@.packages.len(),
            forall|id: int|
                self@.ranges[name].0.index <= id < self@.ranges[name].0.index
                    + self@.ranges[name].1.offset ==> (#[trigger] self@.packages[id]).record.name
                    == name,
            forall|id: int|
                0 <= id < self@.packages.len() && (#[trigger] self@.packages[id]).record.name
                    == name ==> self@.ranges[name].0.index <= id < self@.ranges[name].0.index
                    + self@.ranges[name].1.offset,
    {
        self.lemma_valid();
        assert(self@.range_exact(name));
    }

    /// Every package's name has a range.
    pub proof fn lemma_every_name_ranged(&self, id: int)
        requires
            self.wf(),
            0 <= id < self@.packages.len(),
        ensures
            self@.ranges.contains_key(self@.packages[id].record.name),
    {
        self.lemma_valid();
    }

    /// The edges' dependers carry the edges' clauses: a package listed as a
    /// depender of an edge has a dependency clause with the edge's key.
    pub proof fn lemma_dependers_carry_clause(&self, e: int, k: int)
        requires
            self.wf(),
            0 <= e < self@.edges.len(),
            0 <= k < self@.edges[e].dependers.len(),
        ensures
            self@.edges[e].dependers[k].index < self@.packages.len(),
            depends_on(
                self@.packages[self@.edges[e].dependers[k].index as int].record,
                self@.edges[e].name,
                self@.edges[e].spec,
            ),
    {
        self.lemma_valid();
        assert(self@.edge_ok(e));
    }
}

impl RelationsView {
    /// Whether every package named `name` that is left is admitted by one
    /// of `specs`.
    pub open spec fn meets(self, name: Seq<char>, specs: Seq<Seq<char>>) -> bool {
        forall|id: int|
            0 <= id < self.packages.len() && !self.removed[id] && (
            #[trigger] self.packages[id]).record.name == name ==> any_accepts(
                specs,
                self.packages[id].record,
            )
    }

    /// Whether the edge `e` is still met: its last provider is there, or a
    /// package from the last provider on meets it.
    pub open spec fn still_met(self, e: int) -> bool {
        self.cache_hit(e) || exists|id: int|
            self.search_start(e) <= id < self.providers_of(e).1 && #[trigger] self.provides(e, id)
    }
}

/// Applying the user's constraints gives a later state of the same graph,
/// in which what is left of each constrained name meets the name's
/// constraints.
pub proof fn lemma_after_user_meets(v: RelationsView, user: Seq<UserMatchspecView>, upto: int)
    requires
        v.removed.len() == v.packages.len(),
        0 <= upto <= user.len(),
    ensures
        v.carries_on(v.after_user(user, upto)),
        forall|k: int|
            0 <= k < upto ==> v.after_user(user, upto).meets(
                (#[trigger] user[k]).package_name,
                user[k].specs,
            ),
    decreases upto,
{
    if upto > 0 {
        lemma_after_user_meets(v, user, upto - 1);
        let before = v.after_user(user, upto - 1);
        let after = v.after_user(user, upto);
        let marks = before.fallen(user[upto - 1].package_name, user[upto - 1].specs);
        lemma_without_carries_on(before, marks);
        lemma_carries_on_further(v, before, after);
        assert forall|k: int| 0 <= k < upto implies after.meets(
            (#[trigger] user[k]).package_name,
            user[k].specs,
        ) by {
            assert forall|id: int|
                0 <= id < after.packages.len() && !after.removed[id] && (
                #[trigger] after.packages[id]).record.name == user[k].package_name implies any_accepts(
                user[k].specs,
                after.packages[id].record,
            ) by {
                assert(!before.removed[id]);
                if k < upto - 1 {
                    assert(before.meets(user[k].package_name, user[k].specs));
                    assert(before.packages[id].record.name == user[k].package_name);
                } else {
                    assert(!marks[id]);
                }
            }
        }
    }
}

/// Idempotence of the user's constraints: applying them once more removes
/// nothing and leaves no record.
pub proof fn lemma_user_constraints_idempotent(v: RelationsView, user: Seq<UserMatchspecView>)
    requires
        v.removed.len() == v.packages.len(),
    ensures
        v.after_user(user, user.len() as int).after_user(user, user.len() as int) == v.after_user(
            user,
            user.len() as int,
        ),
        v.after_user(user, user.len() as int).user_logs(user, user.len() as int) == Seq::<
            RemovedByUserView,
        >::empty(),
{
    let once = v.after_user(user, user.len() as int);
    lemma_after_user_meets(v, user, user.len() as int);
    lemma_nothing_more(once, user, user.len() as int);
}

/// On a graph in which what is left meets the user's constraints, applying
/// them removes nothing and leaves no record.
pub proof fn lemma_nothing_more(once: RelationsView, user: Seq<UserMatchspecView>, upto: int)
    requires
        0 <= upto <= user.len(),
        once.removed.len() == once.packages.len(),
        forall|k: int|
            0 <= k < user.len() ==> once.meets((#[trigger] user[k]).package_name, user[k].specs),
    ensures
        once.after_user(user, upto) == once,
        once.user_logs(user, upto) == Seq::<RemovedByUserView>::empty(),
    decreases upto,
{
    if upto > 0 {
        lemma_nothing_more(once, user, upto - 1);
        let entry = user[upto - 1];
        let marks = once.fallen(entry.package_name, entry.specs);
        assert(once.meets(entry.package_name, entry.specs));
        assert forall|id: int| 0 <= id < marks.len() implies !marks[id] by {
            if once.falls(entry.package_name, entry.specs, id) {
                assert(once.packages[id].record.name == entry.package_name);
            }
        }
        lemma_chosen_skip(marks, 0, once.packages.len() as int);
        assert(once.without(marks) =~= once);
        assert(once.by_user_logs(chosen(marks, once.packages.len() as int)) =~= Seq::<
            RemovedByUserView,
        >::empty());
    }
}

/// Build-prune keeps the highest: a package that took part in the pass and
/// is left after it has the highest build number of its group.
pub proof fn lemma_survivors_have_maximum(v: RelationsView, at: int)
    requires
        v.removed.len() == v.packages.len(),
        0 <= at < v.participants().len(),
        !v.without(v.all_superseded()).removed[v.participants()[at]],
    ensures
        v.participant_records()[at].build_number == group_max(v.participant_records(), at),
{
    let part = v.participants();
    let records = v.participant_records();
    lemma_chosen_members(v.taking_part(), v.packages.len() as int);
    let id = part[at];
    assert(0 <= id < v.packages.len());
    if superseded(records, at) {
        assert(part[at] == id);
        assert(v.all_superseded()[id]);
    }
    lemma_group_bounds(records, at);
    lemma_max_build(records, run_start(records, at), run_end(records, at), at);
}

/// Where a package from `from` up to `end` meets the edge `e`, the first
/// such package lies before `end`.
pub proof fn lemma_provider_found(v: RelationsView, e: int, from: int, end: int, id: int)
    requires
        from <= id < end,
        v.provides(e, id),
    ensures
        v.first_provider(e, from, end) <= id,
    decreases id - from,
{
    if from < id && !v.provides(e, from) {
        lemma_provider_found(v, e, from + 1, end, id);
    }
}

/// A removal is proposed only for want of any provider: in a valid graph,
/// where the dependers of an edge are to be removed, no package of the
/// edge's name meets the edge, wherever in the range of the name it stands.
pub proof fn lemma_removal_for_want(v: RelationsView, e: int)
    requires
        v.valid(),
        0 <= e < v.edges.len(),
        v.evaluation(e) matches Some(Evaluation::RemoveAndLog(_, _)),
    ensures
        forall|id: int|
            v.providers_of(e).0 <= id < v.providers_of(e).1 ==> !#[trigger] v.provides(e, id),
{
    lemma_search_is_whole(v, e);
    assert forall|id: int|
        v.providers_of(e).0 <= id < v.providers_of(e).1 implies !#[trigger] v.provides(e, id) by {
        if v.provides(e, id) {
            lemma_provider_found(v, e, v.providers_of(e).0, v.providers_of(e).1, id);
        }
    }
}

/// No proposal for an edge that is still met asks for a removal.
pub proof fn lemma_met_stays(v: RelationsView, e: int)
    requires
        v.still_met(e),
    ensures
        !(v.evaluation(e) matches Some(Evaluation::RemoveAndLog(_, _))),
{
    if !v.cache_hit(e) {
        let id = choose|id: int|
            v.search_start(e) <= id < v.providers_of(e).1 && #[trigger] v.provides(e, id);
        lemma_provider_found(v, e, v.search_start(e), v.providers_of(e).1, id);
    }
}

/// Where none of the first `upto` of `edges` that can be met has lost its
/// providers, none of the proposals for them asks for a removal.
pub proof fn lemma_no_removal_proposed(v: RelationsView, edges: Seq<int>, upto: int)
    requires
        0 <= upto <= edges.len(),
        forall|j: int|
            0 <= j < upto ==> v.edges[#[trigger] edges[j]].unsatisfiable || v.still_met(edges[j]),
    ensures
        forall|l: int|
            0 <= l < v.proposals(edges, upto).len() ==> (
            #[trigger] v.proposals(edges, upto)[l]) is UpdateSolution,
    decreases upto,
{
    if upto > 0 {
        lemma_no_removal_proposed(v, edges, upto - 1);
        let e = edges[upto - 1];
        if !v.edges[e].unsatisfiable {
            lemma_met_stays(v, e);
        }
    }
}

/// Proposals of which none asks for a removal remove nothing and leave no
/// record.
pub proof fn lemma_updates_remove_nothing(v: RelationsView, proposals: Seq<Evaluation>, upto: int)
    requires
        0 <= upto <= proposals.len(),
        forall|l: int| 0 <= l < proposals.len() ==> (#[trigger] proposals[l]) is UpdateSolution,
    ensures
        v.carried_out_all(proposals, upto).removed == v.removed,
        v.carried_out_all(proposals, upto).packages == v.packages,
        v.proposals_logs(proposals, upto) == Seq::<RemovedUnsatisfiableView>::empty(),
    decreases upto,
{
    if upto > 0 {
        lemma_updates_remove_nothing(v, proposals, upto - 1);
        assert(proposals[upto - 1] is UpdateSolution);
    }
}

/// Fixed point: a second round of the unresolvables pass on the same names
/// removes nothing and leaves no record, unless the first round itself
/// took the last provider from an edge that it left as one that can be
/// met. That is left out: after the first round, every edge asked about
/// either cannot be met or is still met.
pub proof fn lemma_fixed_point(v: RelationsView, names: Seq<Seq<char>>)
    requires
        forall|j: int|
            0 <= j < v.after_round(names).candidate_edges(names, names.len() as int).len()
                ==> v.after_round(names).edges[#[trigger] v.after_round(names).candidate_edges(
                names,
                names.len() as int,
            )[j]].unsatisfiable || v.after_round(names).still_met(
                v.after_round(names).candidate_edges(names, names.len() as int)[j],
            ),
    ensures
        v.after_round(names).round_logs(names) == Seq::<
            RemovedUnsatisfiableView,
        >::empty(),
        v.after_round(names).after_round(names).removed == v.after_round(names).removed,
{
    let after = v.after_round(names);
    let edges = after.candidate_edges(names, names.len() as int);
    assert forall|j: int| 0 <= j < edges.len() implies after.edges[#[trigger] edges[j]].unsatisfiable
        || after.still_met(edges[j]) by {
        assert(edges[j] == v.after_round(names).candidate_edges(names, names.len() as int)[j]);
    }
    lemma_no_removal_proposed(after, edges, edges.len() as int);
    let proposals = after.round_proposals(names);
    lemma_updates_remove_nothing(after, proposals, proposals.len() as int);
}

/// The records of removals by constraints name files of the graph's
/// packages.
pub proof fn lemma_by_user_logs_name_packages(v: RelationsView, marks: Seq<bool>)
    requires
        marks.len() == v.packages.len(),
    ensures
        names_packages(v.by_user_logs(chosen(marks, v.packages.len() as int)), v),
{
    lemma_chosen_members(marks, v.packages.len() as int);
    let ids = chosen(marks, v.packages.len() as int);
    assert forall|k: int| 0 <= k < v.by_user_logs(ids).len() implies file_of_package(
        (#[trigger] v.by_user_logs(ids)[k]).file(),
        v,
    ) by {
        assert(v.packages[ids[k]].filename == v.by_user_log(ids[k]).file());
    }
}

/// The records that the user's constraints leave name files of the graph's
/// packages.
pub proof fn lemma_user_logs_name_packages(v: RelationsView, user: Seq<UserMatchspecView>, upto: int)
    requires
        v.removed.len() == v.packages.len(),
        0 <= upto <= user.len(),
    ensures
        names_packages(v.user_logs(user, upto), v),
    decreases upto,
{
    if upto > 0 {
        lemma_user_logs_name_packages(v, user, upto - 1);
        lemma_after_user_meets(v, user, upto - 1);
        let before = v.after_user(user, upto - 1);
        let marks = before.fallen(user[upto - 1].package_name, user[upto - 1].specs);
        lemma_by_user_logs_name_packages(before, marks);
        let earlier = v.user_logs(user, upto - 1);
        let fresh = before.by_user_logs(chosen(marks, before.packages.len() as int));
        let logs = v.user_logs(user, upto);
        assert forall|k: int| 0 <= k < logs.len() implies file_of_package(
            (#[trigger] logs[k]).file(),
            v,
        ) by {
            if k < earlier.len() {
                assert(logs[k] == earlier[k]);
            } else {
                assert(logs[k] == fresh[k - earlier.len()]);
                assert(file_of_package(fresh[k - earlier.len()].file(), before));
                let id = choose|id: int|
                    0 <= id < before.packages.len() && (#[trigger] before.packages[id]).filename
                        == fresh[k - earlier.len()].file();
                assert(v.packages[id].filename == logs[k].file());
            }
        }
    }
}

/// The records that the build prune leaves name files of the graph's
/// packages.
pub proof fn lemma_superseded_logs_name_packages(v: RelationsView, upto: int)
    requires
        0 <= upto <= v.participants().len(),
    ensures
        names_packages(v.superseded_logs(upto), v),
    decreases upto,
{
    if upto > 0 {
        lemma_superseded_logs_name_packages(v, upto - 1);
        lemma_chosen_members(v.taking_part(), v.packages.len() as int);
        let earlier = v.superseded_logs(upto - 1);
        let logs = v.superseded_logs(upto);
        assert forall|k: int| 0 <= k < logs.len() implies file_of_package(
            (#[trigger] logs[k]).file(),
            v,
        ) by {
            if k < earlier.len() {
                assert(logs[k] == earlier[k]);
            } else {
                let id = v.participants()[upto - 1];
                assert(v.packages[id].filename == logs[k].file());
            }
        }
    }
}

/// The records that the feature ban leaves name files of the graph's
/// packages.
pub proof fn lemma_feature_logs_name_packages(v: RelationsView, banned: Seq<Seq<char>>)
    ensures
        names_packages(
            v.feature_logs(banned, chosen(v.featured(banned), v.packages.len() as int)),
            v,
        ),
{
    lemma_chosen_members(v.featured(banned), v.packages.len() as int);
    let ids = chosen(v.featured(banned), v.packages.len() as int);
    assert forall|k: int| 0 <= k < v.feature_logs(banned, ids).len() implies file_of_package(
        (#[trigger] v.feature_logs(banned, ids)[k]).file(),
        v,
    ) by {
        assert(v.packages[ids[k]].filename == v.feature_log(banned, ids[k]).file());
    }
}

/// The records that the policy on versions leaves name files of the
/// graph's packages.
pub proof fn lemma_policy_logs_name_packages(v: RelationsView, ban_dev: bool, ban_rc: bool)
    ensures
        names_packages(
            v.policy_logs(chosen(v.prereleases(ban_dev, ban_rc), v.packages.len() as int)),
            v,
        ),
{
    lemma_chosen_members(v.prereleases(ban_dev, ban_rc), v.packages.len() as int);
    let ids = chosen(v.prereleases(ban_dev, ban_rc), v.packages.len() as int);
    assert forall|k: int| 0 <= k < v.policy_logs(ids).len() implies file_of_package(
        (#[trigger] v.policy_logs(ids)[k]).file(),
        v,
    ) by {
        assert(v.packages[ids[k]].filename == v.policy_log(ids[k]).file());
    }
}

/// The records that the architecture's bans leave name files of the
/// graph's packages.
pub proof fn lemma_architecture_logs_name_packages(
    v: RelationsView,
    architecture: Seq<char>,
    edges: Seq<int>,
    upto: int,
)
    requires
        0 <= upto <= edges.len(),
        dependers_in_table(v),
        forall|j: int| 0 <= j < edges.len() ==> 0 <= #[trigger] edges[j] < v.edges.len(),
    ensures
        names_packages(v.architecture_logs(architecture, edges, upto), v),
    decreases upto,
{
    if upto > 0 {
        lemma_architecture_logs_name_packages(v, architecture, edges, upto - 1);
        let earlier = v.architecture_logs(architecture, edges, upto - 1);
        let logs = v.architecture_logs(architecture, edges, upto);
        let e = edges[upto - 1];
        assert forall|k: int| 0 <= k < logs.len() implies file_of_package(
            (#[trigger] logs[k]).file(),
            v,
        ) by {
            if k < earlier.len() {
                assert(logs[k] == earlier[k]);
            } else {
                let d = k - earlier.len();
                assert(logs[k] == v.architecture_log(architecture, e, d));
                let id = v.edges[e].dependers[d].index as int;
                assert(v.packages[id].filename == logs[k].file());
            }
        }
    }
}

/// Records that name files of a graph's packages name files of the
/// packages of every later state of the graph.
pub proof fn lemma_names_packages_later<V: Removal>(logs: Seq<V>, was: RelationsView, now: RelationsView)
    requires
        names_packages(logs, was),
        was.packages == now.packages,
    ensures
        names_packages(logs, now),
{
    assert forall|k: int| 0 <= k < logs.len() implies file_of_package(
        (#[trigger] logs[k]).file(),
        now,
    ) by {
        assert(file_of_package(logs[k].file(), was));
        let id = choose|id: int|
            0 <= id < was.packages.len() && (#[trigger] was.packages[id]).filename == logs[k].file();
        assert(now.packages[id].filename == logs[k].file());
    }
}

/// Records that name files of packages, one after the other, name files
/// of packages.
pub proof fn lemma_names_packages_joined<V: Removal>(a: Seq<V>, b: Seq<V>, v: RelationsView)
    requires
        names_packages(a, v),
        names_packages(b, v),
    ensures
        names_packages(a + b, v),
{
    assert forall|k: int| 0 <= k < (a + b).len() implies file_of_package(
        (#[trigger] (a + b)[k]).file(),
        v,
    ) by {
        if k < a.len() {
            assert((a + b)[k] == a[k]);
        } else {
            assert((a + b)[k] == b[k - a.len()]);
        }
    }
}

/// Applying the keys of an agreement gives a later state of the same
/// graph, and the records left name files of its packages.
pub proof fn lemma_fitted(v: RelationsView, agreed: Agreement, root: Seq<char>, upto: int)
    requires
        v.removed.len() == v.packages.len(),
    ensures
        v.carries_on(v.fitted(agreed, upto)),
        names_packages(v.fitted_logs(agreed, root, upto), v),
    decreases upto,
{
    if upto > 0 {
        lemma_fitted(v, agreed, root, upto - 1);
        let before = v.fitted(agreed, upto - 1);
        if agreed.common[upto - 1] {
            let marks = before.fallen(agreed.keys[upto - 1], agreed.specs[upto - 1]);
            lemma_without_carries_on(before, marks);
            lemma_carries_on_further(v, before, before.without(marks));
            lemma_by_user_logs_name_packages(before, marks);
            let users = before.by_user_logs(chosen(marks, before.packages.len() as int));
            let fresh = incompatible_from(users, root);
            assert forall|k: int| 0 <= k < fresh.len() implies file_of_package(
                (#[trigger] fresh[k]).file(),
                v,
            ) by {
                assert(file_of_package(users[k].file(), before));
                let id = choose|id: int|
                    0 <= id < before.packages.len() && (#[trigger] before.packages[id]).filename
                        == users[k].file();
                assert(v.packages[id].filename == fresh[k].file());
            }
            lemma_names_packages_joined(v.fitted_logs(agreed, root, upto - 1), fresh, v);
        }
    }
}

/// The must-compatible pass gives a later state of the same graph, and the
/// records that it leaves name files of the graph's packages.
pub proof fn lemma_must_compatible(v: RelationsView, root: Seq<char>, depth: nat)
    requires
        v.removed.len() == v.packages.len(),
    ensures
        v.carries_on(v.must_compatible(root, depth).state),
        names_packages(v.must_compatible(root, depth).logs, v),
    decreases depth, 0nat,
{
    let variants = v.survivors(root);
    if depth == 0 || variants.len() == 0 {
    } else {
        let agreed = v.agreement(variants, variants.len() as int);
        let fitted = v.fitted(agreed, agreed.keys.len() as int);
        let logs = v.fitted_logs(agreed, root, agreed.keys.len() as int);
        lemma_fitted(v, agreed, root, agreed.keys.len() as int);
        lemma_descended(fitted, agreed, agreed.keys.len() as int, (depth - 1) as nat);
        let below = fitted.descended(agreed, agreed.keys.len() as int, (depth - 1) as nat);
        lemma_carries_on_further(v, fitted, below.state);
        lemma_names_packages_later(below.logs, fitted, v);
        lemma_names_packages_joined(logs, below.logs, v);
    }
}

/// The must-compatible pass with each common key as the root, likewise.
pub proof fn lemma_descended(v: RelationsView, agreed: Agreement, upto: int, depth: nat)
    requires
        v.removed.len() == v.packages.len(),
    ensures
        v.carries_on(v.descended(agreed, upto, depth).state),
        names_packages(v.descended(agreed, upto, depth).logs, v),
    decreases depth, 1 + (if upto > 0 {
        upto as nat
    } else {
        0nat
    }),
{
    if upto > 0 {
        lemma_descended(v, agreed, upto - 1, depth);
        let before = v.descended(agreed, upto - 1, depth);
        if agreed.common[upto - 1] {
            lemma_must_compatible(before.state, agreed.keys[upto - 1], depth);
            let below = before.state.must_compatible(agreed.keys[upto - 1], depth);
            lemma_carries_on_further(v, before.state, below.state);
            lemma_names_packages_later(below.logs, before.state, v);
            lemma_names_packages_joined(before.logs, below.logs, v);
        }
    }
}

} // verus!
