//! The records of each pass account for what the pass removes: each names
//! the file of a package that the pass leaves removed, and each package
//! that the pass removes is named.

use vstd::prelude::*;

use crate::logs::Removal;
use crate::logs::RemovedBecauseIncompatibleView;
use crate::matchspecyaml::UserMatchspecView;
use crate::packagerelations::architecture::lemma_given_up;
use crate::packagerelations::build_prune::superseded;
use crate::packagerelations::compatible::incompatible_from;
use crate::packagerelations::compatible::Agreement;
use crate::packagerelations::laws::lemma_after_user_meets;
use crate::packagerelations::laws::lemma_descended;
use crate::packagerelations::laws::lemma_fitted;
use crate::packagerelations::laws::lemma_must_compatible;
use crate::packagerelations::model::capacity;
use crate::packagerelations::model::RelationsView;
use crate::packagerelations::select::chosen;
use crate::packagerelations::select::accounts_once;
use crate::packagerelations::select::dependers_in_table;
use crate::packagerelations::select::file_of_removed;
use crate::packagerelations::select::lemma_chosen_members;
use crate::packagerelations::select::lemma_once_joined;
use crate::packagerelations::select::lemma_once_marked;
use crate::packagerelations::select::lemma_once_nothing;
use crate::packagerelations::select::lemma_tells_joined;
use crate::packagerelations::select::lemma_tells_marked;
use crate::packagerelations::select::lemma_without_carries_on;
use crate::packagerelations::select::named_by;
use crate::packagerelations::select::tells;
use crate::packagerelations::unresolved::Evaluation;
use crate::pipeline_laws::lemma_carried_out_all;
use crate::pipeline_laws::proposal_edge;

verus! {

/// The records that the user's constraints leave tell what they removed.
pub proof fn lemma_user_logs_tell(v: RelationsView, user: Seq<UserMatchspecView>, upto: int)
    requires
        v.removed.len() == v.packages.len(),
        0 <= upto <= user.len(),
    ensures
        tells(v.user_logs(user, upto), v, v.after_user(user, upto)),
    decreases upto,
{
    if upto > 0 {
        lemma_user_logs_tell(v, user, upto - 1);
        lemma_after_user_meets(v, user, upto - 1);
        let before = v.after_user(user, upto - 1);
        let marks = before.fallen(user[upto - 1].package_name, user[upto - 1].specs);
        let fresh = before.by_user_logs(chosen(marks, before.packages.len() as int));
        lemma_tells_marked(before, marks, fresh);
        lemma_without_carries_on(before, marks);
        lemma_tells_joined(v.user_logs(user, upto - 1), fresh, v, before, before.without(marks));
    }
}

/// The records that the build prune leaves tell what it removed.
pub proof fn lemma_superseded_logs_tell(v: RelationsView, upto: int)
    requires
        v.removed.len() == v.packages.len(),
        0 <= upto <= v.participants().len(),
    ensures
        tells(v.superseded_logs(upto), v, v.without(v.superseded_upto(upto))),
    decreases upto,
{
    let n = v.packages.len() as int;
    let logs = v.superseded_logs(upto);
    let later = v.without(v.superseded_upto(upto));
    lemma_chosen_members(v.taking_part(), n);
    if upto > 0 {
        lemma_superseded_logs_tell(v, upto - 1);
        let earlier = v.superseded_logs(upto - 1);
        let before = v.without(v.superseded_upto(upto - 1));
        let last = v.participants()[upto - 1];
        assert forall|k: int| 0 <= k < logs.len() implies file_of_removed(
            (#[trigger] logs[k]).file(),
            later,
        ) by {
            if k < earlier.len() {
                assert(logs[k] == earlier[k]);
                assert(file_of_removed(earlier[k].file(), before));
                let id = choose|id: int|
                    0 <= id < before.packages.len() && before.removed[id] && (
                    #[trigger] before.packages[id]).filename == earlier[k].file();
                if !v.removed[id] {
                    let at = choose|at: int|
                        0 <= at < upto - 1 && at < v.participants().len()
                            && #[trigger] v.participants()[at] == id && superseded(
                            v.participant_records(),
                            at,
                        );
                    assert(v.participants()[at] == id);
                    assert(v.superseded_upto(upto)[id]);
                }
                assert(later.removed[id]);
                assert(later.packages[id].filename == logs[k].file());
            } else {
                assert(superseded(v.participant_records(), upto - 1));
                assert(v.participants()[upto - 1] == last);
                assert(v.superseded_upto(upto)[last]);
                assert(later.removed[last]);
                assert(later.packages[last].filename == logs[k].file());
            }
        }
        assert forall|id: int|
            0 <= id < later.packages.len() && later.removed[id] && !v.removed[id] implies named_by(
            (#[trigger] later.packages[id]).filename,
            logs,
        ) by {
            assert(v.superseded_upto(upto)[id]);
            let at = choose|at: int|
                0 <= at < upto && at < v.participants().len() && #[trigger] v.participants()[at]
                    == id && superseded(v.participant_records(), at);
            if at < upto - 1 {
                assert(v.participants()[at] == id);
                assert(v.superseded_upto(upto - 1)[id]);
                assert(before.removed[id]);
                assert(named_by(before.packages[id].filename, earlier));
                let k = choose|k: int|
                    0 <= k < earlier.len() && (#[trigger] earlier[k]).file()
                        == before.packages[id].filename;
                assert(logs[k] == earlier[k]);
            } else {
                assert(logs[logs.len() - 1].file() == later.packages[id].filename);
            }
        }
    } else {
        assert(later.removed =~= v.removed);
    }
}

/// The records that the feature ban leaves tell what it removed.
pub proof fn lemma_feature_logs_tell(v: RelationsView, banned: Seq<Seq<char>>)
    requires
        v.removed.len() == v.packages.len(),
    ensures
        tells(
            v.feature_logs(banned, chosen(v.featured(banned), v.packages.len() as int)),
            v,
            v.without(v.featured(banned)),
        ),
{
    let marks = v.featured(banned);
    lemma_tells_marked(v, marks, v.feature_logs(banned, chosen(marks, v.packages.len() as int)));
}

/// The records that the policy on versions leaves tell what it removed.
pub proof fn lemma_policy_logs_tell(v: RelationsView, ban_dev: bool, ban_rc: bool)
    requires
        v.removed.len() == v.packages.len(),
    ensures
        tells(
            v.policy_logs(chosen(v.prereleases(ban_dev, ban_rc), v.packages.len() as int)),
            v,
            v.without(v.prereleases(ban_dev, ban_rc)),
        ),
{
    let marks = v.prereleases(ban_dev, ban_rc);
    lemma_tells_marked(v, marks, v.policy_logs(chosen(marks, v.packages.len() as int)));
}

/// Where an edge is given up, records that name the files of its
/// dependers, one for one, tell what was removed.
pub proof fn lemma_gives_up_tells<V: Removal>(v: RelationsView, e: int, removals: Seq<V>)
    requires
        v.removed.len() == v.packages.len(),
        0 <= e < v.edges.len(),
        dependers_in_table(v),
        removals.len() == v.edges[e].dependers.len(),
        forall|k: int|
            0 <= k < removals.len() ==> (#[trigger] removals[k]).file()
                == v.packages[v.edges[e].dependers[k].index as int].filename,
    ensures
        tells(removals, v, v.gives_up(e)),
        v.carries_on(v.gives_up(e)),
{
    let later = v.gives_up(e);
    let marks = v.dependers_upto(e, v.edges[e].dependers.len() as int);
    assert forall|k: int| 0 <= k < removals.len() implies file_of_removed(
        (#[trigger] removals[k]).file(),
        later,
    ) by {
        let id = v.edges[e].dependers[k].index as int;
        assert(marks[id]);
        assert(later.removed[id]);
        assert(later.packages[id].filename == removals[k].file());
    }
    assert forall|id: int|
        0 <= id < later.packages.len() && later.removed[id] && !v.removed[id] implies named_by(
        (#[trigger] later.packages[id]).filename,
        removals,
    ) by {
        assert(marks[id]);
        let k = choose|k: int|
            0 <= k < v.edges[e].dependers.len() && (#[trigger] v.edges[e].dependers[k]).index
                == id;
        assert(removals[k].file() == later.packages[id].filename);
    }
}

/// The records that the architecture's bans leave tell what they removed.
pub proof fn lemma_architecture_logs_tell(
    v: RelationsView,
    architecture: Seq<char>,
    edges: Seq<int>,
    upto: int,
)
    requires
        v.removed.len() == v.packages.len() <= capacity(),
        0 <= upto <= edges.len(),
        dependers_in_table(v),
        forall|j: int| 0 <= j < edges.len() ==> 0 <= #[trigger] edges[j] < v.edges.len(),
    ensures
        tells(v.architecture_logs(architecture, edges, upto), v, v.given_up(edges, upto)),
    decreases upto,
{
    if upto > 0 {
        lemma_architecture_logs_tell(v, architecture, edges, upto - 1);
        lemma_given_up(v, edges, upto - 1);
        let before = v.given_up(edges, upto - 1);
        let e = edges[upto - 1];
        let fresh = Seq::new(
            v.edges[e].dependers.len(),
            |k: int| v.architecture_log(architecture, e, k),
        );
        assert(before.edges[e].dependers == v.edges[e].dependers);
        assert(dependers_in_table(before)) by {
            assert forall|f: int, k: int|
                0 <= f < before.edges.len() && 0 <= k < before.edges[f].dependers.len() implies (
            #[trigger] before.edges[f].dependers[k]).index < before.packages.len() by {
                assert(before.edges[f].dependers == v.edges[f].dependers);
                assert(v.edges[f].dependers[k].index < v.packages.len());
            }
        }
        lemma_gives_up_tells(before, e, fresh);
        lemma_tells_joined(
            v.architecture_logs(architecture, edges, upto - 1),
            fresh,
            v,
            before,
            before.gives_up(e),
        );
    }
}

/// The records that carrying out proposals leaves tell what was removed.
pub proof fn lemma_proposals_logs_tell(v: RelationsView, proposals: Seq<Evaluation>, upto: int)
    requires
        0 <= upto <= proposals.len(),
        v.removed.len() == v.packages.len(),
        dependers_in_table(v),
        forall|l: int|
            0 <= l < proposals.len() ==> 0 <= proposal_edge(#[trigger] proposals[l]) < v.edges.len(),
    ensures
        tells(v.proposals_logs(proposals, upto), v, v.carried_out_all(proposals, upto)),
    decreases upto,
{
    if upto > 0 {
        lemma_proposals_logs_tell(v, proposals, upto - 1);
        lemma_carried_out_all(v, proposals, upto - 1);
        let before = v.carried_out_all(proposals, upto - 1);
        let proposal = proposals[upto - 1];
        let after = before.carried_out(proposal);
        let fresh = v.proposal_logs(proposal);
        assert(0 <= proposal_edge(proposal) < v.edges.len());
        assert(dependers_in_table(before)) by {
            assert forall|f: int, k: int|
                0 <= f < before.edges.len() && 0 <= k < before.edges[f].dependers.len() implies (
            #[trigger] before.edges[f].dependers[k]).index < before.packages.len() by {
                assert(before.edges[f].dependers == v.edges[f].dependers);
                assert(v.edges[f].dependers[k].index < v.packages.len());
            }
        }
        match proposal {
            Evaluation::UpdateSolution(_, _) => {
                assert(before.carries_on(after));
                assert(tells(fresh, before, after));
            },
            Evaluation::RemoveAndLog(e, cause) => {
                assert(before.edges[e as int].dependers == v.edges[e as int].dependers);
                lemma_gives_up_tells(before, e as int, fresh);
            },
        }
        lemma_tells_joined(v.proposals_logs(proposals, upto - 1), fresh, v, before, after);
    }
}

/// The records that applying the keys of an agreement leaves tell what
/// was removed.
pub proof fn lemma_fitted_tells(v: RelationsView, agreed: Agreement, root: Seq<char>, upto: int)
    requires
        v.removed.len() == v.packages.len(),
    ensures
        tells(v.fitted_logs(agreed, root, upto), v, v.fitted(agreed, upto)),
        v.fitted(agreed, upto).edges == v.edges,
    decreases upto,
{
    if upto > 0 {
        lemma_fitted_tells(v, agreed, root, upto - 1);
        lemma_fitted(v, agreed, root, upto - 1);
        let before = v.fitted(agreed, upto - 1);
        if agreed.common[upto - 1] {
            let marks = before.fallen(agreed.keys[upto - 1], agreed.specs[upto - 1]);
            let users = before.by_user_logs(chosen(marks, before.packages.len() as int));
            let fresh = incompatible_from(users, root);
            lemma_tells_marked(before, marks, fresh);
            lemma_without_carries_on(before, marks);
            lemma_tells_joined(
                v.fitted_logs(agreed, root, upto - 1),
                fresh,
                v,
                before,
                before.without(marks),
            );
        }
    }
}

/// The records that the must-compatible pass leaves tell what it removed,
/// and the pass leaves every edge as it was.
pub proof fn lemma_must_compatible_tells(v: RelationsView, root: Seq<char>, depth: nat)
    requires
        v.removed.len() == v.packages.len(),
    ensures
        tells(v.must_compatible(root, depth).logs, v, v.must_compatible(root, depth).state),
        v.must_compatible(root, depth).state.edges == v.edges,
    decreases depth, 0nat,
{
    let variants = v.survivors(root);
    if depth == 0 || variants.len() == 0 {
    } else {
        let agreed = v.agreement(variants, variants.len() as int);
        let fitted = v.fitted(agreed, agreed.keys.len() as int);
        let logs = v.fitted_logs(agreed, root, agreed.keys.len() as int);
        lemma_fitted_tells(v, agreed, root, agreed.keys.len() as int);
        lemma_fitted(v, agreed, root, agreed.keys.len() as int);
        lemma_descended_tells(fitted, agreed, agreed.keys.len() as int, (depth - 1) as nat);
        lemma_descended(fitted, agreed, agreed.keys.len() as int, (depth - 1) as nat);
        let below = fitted.descended(agreed, agreed.keys.len() as int, (depth - 1) as nat);
        lemma_tells_joined(logs, below.logs, v, fitted, below.state);
    }
}

/// The records that the must-compatible pass leaves with each common key
/// as the root, likewise.
pub proof fn lemma_descended_tells(v: RelationsView, agreed: Agreement, upto: int, depth: nat)
    requires
        v.removed.len() == v.packages.len(),
    ensures
        tells(v.descended(agreed, upto, depth).logs, v, v.descended(agreed, upto, depth).state),
        v.descended(agreed, upto, depth).state.edges == v.edges,
    decreases depth, 1 + (if upto > 0 {
        upto as nat
    } else {
        0nat
    }),
{
    if upto > 0 {
        lemma_descended_tells(v, agreed, upto - 1, depth);
        lemma_descended(v, agreed, upto - 1, depth);
        let before = v.descended(agreed, upto - 1, depth);
        if agreed.common[upto - 1] {
            lemma_must_compatible_tells(before.state, agreed.keys[upto - 1], depth);
            lemma_must_compatible(before.state, agreed.keys[upto - 1], depth);
            let below = before.state.must_compatible(agreed.keys[upto - 1], depth);
            lemma_tells_joined(before.logs, below.logs, v, before.state, below.state);
        }
    }
}

/// Applying the keys of an agreement leaves one record for each package
/// that it removes.
pub proof fn lemma_fitted_once(v: RelationsView, agreed: Agreement, root: Seq<char>, upto: int)
    requires
        v.removed.len() == v.packages.len(),
    ensures
        accounts_once(v.fitted_logs(agreed, root, upto), v, v.fitted(agreed, upto)),
    decreases upto,
{
    if upto > 0 {
        lemma_fitted_once(v, agreed, root, upto - 1);
        lemma_fitted(v, agreed, root, upto - 1);
        let before = v.fitted(agreed, upto - 1);
        if agreed.common[upto - 1] {
            let marks = before.fallen(agreed.keys[upto - 1], agreed.specs[upto - 1]);
            let users = before.by_user_logs(chosen(marks, before.packages.len() as int));
            let fresh = incompatible_from(users, root);
            lemma_once_marked(before, marks, fresh);
            lemma_without_carries_on(before, marks);
            lemma_once_joined(
                v.fitted_logs(agreed, root, upto - 1),
                fresh,
                v,
                before,
                before.without(marks),
            );
        }
    } else {
        lemma_once_nothing::<RemovedBecauseIncompatibleView>(v);
    }
}

/// The must-compatible pass leaves exactly one record for each package
/// that it removes.
pub proof fn lemma_must_compatible_once(v: RelationsView, root: Seq<char>, depth: nat)
    requires
        v.removed.len() == v.packages.len(),
    ensures
        accounts_once(v.must_compatible(root, depth).logs, v, v.must_compatible(root, depth).state),
    decreases depth, 0nat,
{
    let variants = v.survivors(root);
    if depth == 0 || variants.len() == 0 {
        lemma_once_nothing::<RemovedBecauseIncompatibleView>(v);
    } else {
        let agreed = v.agreement(variants, variants.len() as int);
        let fitted = v.fitted(agreed, agreed.keys.len() as int);
        let logs = v.fitted_logs(agreed, root, agreed.keys.len() as int);
        lemma_fitted_once(v, agreed, root, agreed.keys.len() as int);
        lemma_fitted(v, agreed, root, agreed.keys.len() as int);
        lemma_descended_once(fitted, agreed, agreed.keys.len() as int, (depth - 1) as nat);
        lemma_descended(fitted, agreed, agreed.keys.len() as int, (depth - 1) as nat);
        let below = fitted.descended(agreed, agreed.keys.len() as int, (depth - 1) as nat);
        lemma_once_joined(logs, below.logs, v, fitted, below.state);
    }
}

/// The must-compatible pass with each common key as the root, likewise.
pub proof fn lemma_descended_once(v: RelationsView, agreed: Agreement, upto: int, depth: nat)
    requires
        v.removed.len() == v.packages.len(),
    ensures
        accounts_once(
            v.descended(agreed, upto, depth).logs,
            v,
            v.descended(agreed, upto, depth).state,
        ),
    decreases depth, 1 + (if upto > 0 {
        upto as nat
    } else {
        0nat
    }),
{
    if upto > 0 {
        lemma_descended_once(v, agreed, upto - 1, depth);
        lemma_descended(v, agreed, upto - 1, depth);
        let before = v.descended(agreed, upto - 1, depth);
        if agreed.common[upto - 1] {
            lemma_must_compatible_once(before.state, agreed.keys[upto - 1], depth);
            lemma_must_compatible(before.state, agreed.keys[upto - 1], depth);
            let below = before.state.must_compatible(agreed.keys[upto - 1], depth);
            lemma_once_joined(before.logs, below.logs, v, before.state, below.state);
        }
    } else {
        lemma_once_nothing::<RemovedBecauseIncompatibleView>(v);
    }
}

} // verus!
