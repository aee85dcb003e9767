//! The pipeline that curates one architecture: the packages are entered
//! into a graph, the passes run in their order, and what they removed is
//! gathered.

use vstd::prelude::*;
use vstd::string::StringExecFns;

use crate::ledger::Ledger;
use crate::ledger::LedgerView;
use crate::ledger::NameSet;
use crate::ledger::Round;
use crate::logs::Removal;
use crate::matchspeccache::Cache;
use crate::matchspecyaml::UserMatchspecs;
use crate::matchspecyaml::UserMatchspecView;
use crate::packagerelations::admission::InsertError;
use crate::packagerelations::architecture::virtual_bans;
use crate::packagerelations::graph::PackageMetadata;
use crate::packagerelations::graph::PackageRelations;
use crate::packagerelations::graph::with_constraints;
use crate::packagerelations::laws::lemma_architecture_logs_name_packages;
use crate::packagerelations::laws::lemma_feature_logs_name_packages;
use crate::packagerelations::laws::lemma_must_compatible;
use crate::packagerelations::laws::lemma_policy_logs_name_packages;
use crate::packagerelations::laws::lemma_superseded_logs_name_packages;
use crate::packagerelations::laws::lemma_user_logs_name_packages;
use crate::packagerelations::model::PackageView;
use crate::packagerelations::model::RelationsView;
use crate::packagerelations::select::booked_in;
use crate::packagerelations::select::books_exact;
use crate::packagerelations::select::chosen;
use crate::packagerelations::select::lemma_carries_on_further;
use crate::packagerelations::select::views;
use crate::packagerelations::unresolved::lemma_candidates_are_edges;
use crate::packagerelations::user::texts;
use crate::matchspeccache::lemma_taken_later;
use crate::matchspeccache::taken_for_sure;
use crate::packagerelations::admission::clauses_taken;
use crate::packagerelations::admission::refused;
use crate::depends::dependency_spec;
use crate::pipeline_laws::lemma_curated_books;
use crate::pipeline_laws::lemma_entered_whole;
use crate::pipeline_laws::lemma_noted_booked;
use crate::pipeline_laws::lemma_rounds_end_by_themselves;
use crate::pipeline_laws::lemma_valid_for_rounds;
use crate::record::PackageRecord;
use crate::text::decimal;
use crate::text::decimal_string;

verus! {

/// A graph and the books kept on it.
#[verifier::ext_equal]
pub struct Curated {
    pub state: RelationsView,
    pub ledger: LedgerView,
}

/// The graph with no package in it.
pub open spec fn empty_graph() -> RelationsView {
    RelationsView {
        packages: Seq::empty(),
        removed: Seq::empty(),
        ranges: Map::empty(),
        edges: Seq::empty(),
        names: Seq::empty(),
    }
}

/// The graph after the first `upto` of `packages` have been inserted.
pub open spec fn entered(packages: Seq<PackageView>, upto: int) -> RelationsView
    decreases upto,
{
    if upto <= 0 {
        empty_graph()
    } else {
        entered(packages, upto - 1).inserted(packages[upto - 1])
    }
}

/// The interned texts after the first `upto` of `packages` have been
/// inserted.
pub open spec fn interned_by(texts: Seq<Seq<char>>, packages: Seq<PackageView>, upto: int) -> Seq<
    Seq<char>,
>
    decreases upto,
{
    if upto <= 0 {
        texts
    } else {
        with_constraints(
            interned_by(texts, packages, upto - 1),
            packages[upto - 1].record.depends,
            packages[upto - 1].record.depends.len() as int,
        )
    }
}

/// How many rounds of the unresolvables pass are run at most in a row: one
/// more than there are packages.
pub open spec fn round_budget(state: RelationsView) -> nat {
    if state.packages.len() < usize::MAX {
        (state.packages.len() + 1) as nat
    } else {
        usize::MAX as nat
    }
}

/// What the pipeline is told to do.
pub struct Policy {
    /// Whether development versions go.
    pub ban_dev: bool,
    /// Whether release candidates go.
    pub ban_rc: bool,
    /// The packages of which at least one variant must fit all that stays.
    pub must_compatible: Vec<String>,
    /// Whether a line is kept for each removal.
    pub explain: bool,
}

impl Curated {
    /// After a round under `label` that led to `state` and left `removals`.
    pub open spec fn noting<V: Removal>(self, label: Seq<char>, state: RelationsView, removals: Seq<V>) -> Curated {
        Curated { state, ledger: self.ledger.noted(label, removals) }
    }

    /// After the rounds of the unresolvables pass, the first on `names`,
    /// each later one on the names of the packages that the round before
    /// removed, until a round removes nothing or `budget` rounds are run.
    /// `round` rounds were run before. The names are kept apart from those
    /// in the books.
    pub open spec fn settled(self, names: Seq<Seq<char>>, round: nat, budget: nat) -> Curated
        decreases budget,
    {
        if names.len() == 0 || budget == 0 {
            self
        } else {
            let apart = LedgerView { next_round: Seq::empty(), ..self.ledger };
            let noted = apart.noted(
                "No Sln Round "@ + decimal(round + 1),
                self.state.round_logs(names),
            );
            (Curated {
                state: self.state.after_round(names),
                ledger: LedgerView { next_round: self.ledger.next_round, ..noted },
            }).settled(noted.next_round, round + 1, (budget - 1) as nat)
        }
    }

    /// After the unresolvables pass has run to its end, beginning with the
    /// names in the books.
    pub open spec fn resolved(self) -> Curated {
        self.settled(self.ledger.next_round, 0, round_budget(self.state))
    }

    /// After the must-compatible pass with `root` as the root, and the
    /// unresolvables pass after it.
    pub open spec fn compatible_with(self, root: Seq<char>) -> Curated {
        let outcome = self.state.must_compatible(root, self.state.depth_budget());
        self.noting("compat "@ + root, outcome.state, outcome.logs).resolved()
    }

    /// After the must-compatible pass with each of the first `upto` of
    /// `roots` as the root, one after the other.
    pub open spec fn compatible_with_all(self, roots: Seq<Seq<char>>, upto: int) -> Curated
        decreases upto,
    {
        if upto <= 0 {
            self
        } else {
            self.compatible_with_all(roots, upto - 1).compatible_with(roots[upto - 1])
        }
    }

    /// After the passes that come before the must-compatible pass: the
    /// user's constraints, the build prune, the feature ban, the policy on
    /// versions, the architecture's bans, and the unresolvables pass.
    pub open spec fn filtered(
        self,
        architecture: Seq<char>,
        ban_dev: bool,
        ban_rc: bool,
        user: Seq<UserMatchspecView>,
        features: Seq<Seq<char>>,
    ) -> Curated {
        let by_user = self.noting(
            "user matchspecs"@,
            self.state.after_user(user, user.len() as int),
            self.state.user_logs(user, user.len() as int),
        );
        let pruned = by_user.noting(
            "old builds"@,
            by_user.state.without(by_user.state.all_superseded()),
            by_user.state.superseded_logs(by_user.state.participants().len() as int),
        );
        let featured = pruned.noting(
            "features"@,
            pruned.state.without(pruned.state.featured(features)),
            pruned.state.feature_logs(
                features,
                chosen(pruned.state.featured(features), pruned.state.packages.len() as int),
            ),
        );
        let released = featured.noting(
            "dev & rc"@,
            featured.state.without(featured.state.prereleases(ban_dev, ban_rc)),
            featured.state.policy_logs(
                chosen(
                    featured.state.prereleases(ban_dev, ban_rc),
                    featured.state.packages.len() as int,
                ),
            ),
        );
        let banned = released.state.banned_edges(architecture);
        let fitted = released.noting(
            "incompat arch"@,
            released.state.given_up(banned, banned.len() as int),
            released.state.architecture_logs(architecture, banned, banned.len() as int),
        );
        fitted.resolved()
    }
}

/// The graph and the books after the whole pipeline has run on `state`.
pub open spec fn curated(
    state: RelationsView,
    architecture: Seq<char>,
    policy: Policy,
    user: Seq<UserMatchspecView>,
    features: Seq<Seq<char>>,
) -> Curated {
    let roots = policy.must_compatible@.map_values(|root: String| root@);
    (Curated { state, ledger: LedgerView::new(policy.explain) }).filtered(
        architecture,
        policy.ban_dev,
        policy.ban_rc,
        user,
        features,
    ).compatible_with_all(roots, roots.len() as int)
}

/// What the pipeline hands back: the graph as the passes left it, and the
/// books.
pub struct Curation<'a> {
    pub relations: PackageRelations<'a>,
    pub ledger: Ledger<'a>,
}

impl<'a> Curation<'a> {
    /// The graph and the books as plain values.
    pub open spec fn curated(&self) -> Curated {
        Curated { state: self.relations@, ledger: self.ledger@ }
    }
}

/// Runs the unresolvables pass to its end: a first round on the names in
/// the books, then rounds on the names of the packages that the round
/// before removed, until a round removes nothing, or as many rounds are
/// run as `round_budget` allows.
pub fn unresolveable<'a>(
    relations: &mut PackageRelations<'a>,
    ledger: &mut Ledger<'a>,
    cache: &Cache,
)
    requires
        old(relations).wf(),
        old(ledger).wf(),
        cache.wf(),
        old(relations)@.interned_in(cache@),
    ensures
        final(relations).wf(),
        final(ledger).wf(),
        (Curated { state: final(relations)@, ledger: final(ledger)@ }) == (Curated {
            state: old(relations)@,
            ledger: old(ledger)@,
        }).resolved(),
        old(relations)@.carries_on(final(relations)@),
        booked_in(old(ledger)@.removed, old(relations)@) ==> booked_in(
            final(ledger)@.removed,
            final(relations)@,
        ) && (Curated { state: old(relations)@, ledger: old(ledger)@ }).left_over(
            old(ledger)@.next_round,
            0,
            round_budget(old(relations)@),
        ).len() == 0,
{
    let ghost start = Curated { state: relations@, ledger: ledger@ };
    let (count, _, edges) = relations.stats();
    proof {
        assert(relations@.edges.len() == edges);
        relations.lemma_valid();
        lemma_valid_for_rounds(relations@);
        if booked_in(ledger@.removed, relations@) {
            lemma_rounds_end_by_themselves(
                start,
                start.ledger.next_round,
                0,
                round_budget(start.state),
            );
        }
    }
    let budget: usize = if count < usize::MAX {
        count + 1
    } else {
        usize::MAX
    };
    let mut round: usize = 0;
    let mut next_round: Vec<&'a str> = ledger.next_round.to_vec();
    let mut outer: NameSet<'a> = NameSet::new();
    std::mem::swap(&mut outer, &mut ledger.next_round);
    let ghost kept = outer@;
    while next_round.len() > 0 && round < budget
        invariant
            round <= budget,
            relations.wf(),
            ledger.wf(),
            outer.wf(),
            outer@ == kept,
            cache.wf(),
            start.state.interned_in(cache@),
            start.state.carries_on(relations@),
            start.resolved() == (Curated {
                state: relations@,
                ledger: LedgerView { next_round: kept, ..ledger@ },
            }).settled(texts(next_round@), round as nat, (budget - round) as nat),
        decreases budget - round,
    {
        round = round + 1;
        ledger.next_round = NameSet::new();
        let ghost before = Curated {
            state: relations@,
            ledger: LedgerView { next_round: kept, ..ledger@ },
        };
        let ghost names = texts(next_round@);
        let logs = relations.find_unresolveables(cache, next_round);
        proof {
            lemma_carries_on_further(start.state, before.state, relations@);
        }
        let mut label = String::from_str("No Sln Round ");
        label.append(decimal_string(round as u64).as_str());
        proof {
            assert((LedgerView { next_round: Seq::empty(), ..before.ledger }) =~= ledger@);
        }
        ledger.note(label, &logs);
        next_round = ledger.next_round.to_vec();
    }
    std::mem::swap(&mut outer, &mut ledger.next_round);
    proof {
        assert((LedgerView { next_round: kept, ..old(ledger)@ }) =~= old(ledger)@);
    }
}

/// A sequence that begins a sequence that begins a third begins the third.
pub proof fn lemma_prefix_of_prefix(a: Seq<Seq<char>>, b: Seq<Seq<char>>, c: Seq<Seq<char>>)
    requires
        a.is_prefix_of(b),
        b.is_prefix_of(c),
    ensures
        a.is_prefix_of(c),
{
    assert(a =~= c.subrange(0, a.len() as int)) by {
        assert forall|i: int| 0 <= i < a.len() implies a[i] == c.subrange(0, a.len() as int)[i] by {
            assert(a[i] == b.subrange(0, a.len() as int)[i]);
            assert(b[i] == c.subrange(0, b.len() as int)[i]);
        }
    }
}

/// Whether the graph takes each of `packages` in its turn, and a cache that
/// holds `texts` takes the constraints of their clauses for sure.
pub open spec fn all_taken(packages: Seq<PackageView>, texts: Seq<Seq<char>>) -> bool {
    forall|at: int|
        0 <= at < packages.len() ==> (#[trigger] entered(packages, at)).takes(packages[at])
            && clauses_taken(packages[at].record.depends, texts)
}

/// Enters `packages` into a new graph, in the order given. It fails on the
/// first package that the graph does not take, or of which the parser
/// refuses a constraint.
pub fn enter_packages<'a>(
    matchspec_cache: &mut Cache,
    packages: &Vec<PackageMetadata<'a>>,
) -> (res: Result<PackageRelations<'a>, (usize, InsertError)>)
    requires
        old(matchspec_cache).wf(),
    ensures
        final(matchspec_cache).wf(),
        old(matchspec_cache)@.is_prefix_of(final(matchspec_cache)@),
        all_taken(views(packages@), old(matchspec_cache)@) ==> res is Ok,
        match res {
            Ok(relations) => {
                &&& forall|at: int|
                    0 <= at < packages.len() ==> (#[trigger] entered(views(packages@), at)).takes(
                        views(packages@)[at],
                    )
                &&& relations.wf()
                &&& relations@ == entered(views(packages@), packages.len() as int)
                &&& relations@.interned_in(final(matchspec_cache)@)
                &&& final(matchspec_cache)@ == interned_by(
                    old(matchspec_cache)@,
                    views(packages@),
                    packages.len() as int,
                )
            },
            Err((at, error)) => {
                &&& at < packages.len()
                &&& forall|before: int|
                    0 <= before < at ==> (#[trigger] entered(views(packages@), before)).takes(
                        views(packages@)[before],
                    )
                &&& refused(
                    entered(views(packages@), at as int),
                    interned_by(old(matchspec_cache)@, views(packages@), at as int),
                    views(packages@)[at as int],
                    error,
                    final(matchspec_cache)@,
                )
            },
        },
{
    let ghost cache_before = matchspec_cache@;
    let mut relations = PackageRelations::new();
    proof {
        relations.lemma_valid();
        assert(relations@ =~= empty_graph());
    }
    let mut at: usize = 0;
    while at < packages.len()
        invariant
            at <= packages.len(),
            relations.wf(),
            relations@ == entered(views(packages@), at as int),
            forall|before: int|
                0 <= before < at ==> (#[trigger] entered(views(packages@), before)).takes(
                    views(packages@)[before],
                ),
            matchspec_cache.wf(),
            cache_before == old(matchspec_cache)@,
            cache_before.is_prefix_of(matchspec_cache@),
            matchspec_cache@ == interned_by(cache_before, views(packages@), at as int),
            relations@.interned_in(matchspec_cache@),
        decreases packages.len() - at,
    {
        let filename: &'a str = packages[at].filename;
        let package_record: &'a PackageRecord = packages[at].package_record;
        assert(views(packages@)[at as int] == packages[at as int]@);
        let ghost cache_mid = matchspec_cache@;
        proof {
            if all_taken(views(packages@), cache_before) {
                let clauses = package_record@.depends;
                assert(entered(views(packages@), at as int).takes(views(packages@)[at as int]));
                assert forall|c: int| 0 <= c < clauses.len() implies taken_for_sure(
                    cache_mid,
                    dependency_spec(#[trigger] clauses[c]),
                ) by {
                    lemma_taken_later(cache_before, cache_mid, dependency_spec(clauses[c]));
                }
            }
        }
        let outcome = relations.try_insert(matchspec_cache, filename, package_record);
        proof {
            lemma_prefix_of_prefix(cache_before, cache_mid, matchspec_cache@);
        }
        match outcome {
            Err(error) => {
                return Err((at, error));
            },
            Ok(()) => {},
        }
        at = at + 1;
    }
    relations.shrink_to_fit();
    Ok(relations)
}

/// Runs the passes that come before the must-compatible pass.
pub fn run_filters<'a>(
    relations: &mut PackageRelations<'a>,
    ledger: &mut Ledger<'a>,
    architecture: &'a str,
    ban_dev: bool,
    ban_rc: bool,
    user_matchspecs: &UserMatchspecs,
    banned_features: &Vec<&str>,
    cache: &Cache,
)
    requires
        old(relations).wf(),
        old(ledger).wf(),
        cache.wf(),
        old(relations)@.interned_in(cache@),
    ensures
        final(relations).wf(),
        final(ledger).wf(),
        (Curated { state: final(relations)@, ledger: final(ledger)@ }) == (Curated {
            state: old(relations)@,
            ledger: old(ledger)@,
        }).filtered(architecture@, ban_dev, ban_rc, user_matchspecs@, texts(banned_features@)),
        old(relations)@.carries_on(final(relations)@),
        booked_in(old(ledger)@.removed, old(relations)@) ==> booked_in(
            final(ledger)@.removed,
            final(relations)@,
        ),
{
    let ghost was = relations@;
    let ghost books = booked_in(ledger@.removed, relations@);
    {
        let ghost before = Curated { state: relations@, ledger: ledger@ };
        proof {
            relations.lemma_valid();
        }
        let logs = relations.apply_user_matchspecs(user_matchspecs);
        proof {
            lemma_valid_for_rounds(before.state);
            lemma_user_logs_name_packages(before.state, user_matchspecs@, user_matchspecs@.len() as int);
            if books {
                lemma_noted_booked(
                    before.ledger,
                    "user matchspecs"@,
                    views(logs@),
                    before.state,
                    relations@,
                );
            }
            lemma_carries_on_further(was, before.state, relations@);
        }
        ledger.note(String::from_str("user matchspecs"), &logs);
    }
    {
        let ghost before = Curated { state: relations@, ledger: ledger@ };
        proof {
            relations.lemma_valid();
        }
        let logs = relations.apply_build_prune();
        proof {
            lemma_valid_for_rounds(before.state);
            lemma_superseded_logs_name_packages(
                before.state,
                before.state.participants().len() as int,
            );
            if books {
                lemma_noted_booked(
                    before.ledger,
                    "old builds"@,
                    views(logs@),
                    before.state,
                    relations@,
                );
            }
            lemma_carries_on_further(was, before.state, relations@);
        }
        ledger.note(String::from_str("old builds"), &logs);
    }
    {
        let ghost before = Curated { state: relations@, ledger: ledger@ };
        proof {
            relations.lemma_valid();
        }
        let logs = relations.apply_feature_removal(banned_features);
        proof {
            lemma_valid_for_rounds(before.state);
            lemma_feature_logs_name_packages(before.state, texts(banned_features@));
            if books {
                lemma_noted_booked(
                    before.ledger,
                    "features"@,
                    views(logs@),
                    before.state,
                    relations@,
                );
            }
            lemma_carries_on_further(was, before.state, relations@);
        }
        ledger.note(String::from_str("features"), &logs);
    }
    {
        let ghost before = Curated { state: relations@, ledger: ledger@ };
        proof {
            relations.lemma_valid();
        }
        let logs = relations.apply_dev_rc_ban(ban_dev, ban_rc);
        proof {
            lemma_valid_for_rounds(before.state);
            lemma_policy_logs_name_packages(before.state, ban_dev, ban_rc);
            if books {
                lemma_noted_booked(
                    before.ledger,
                    "dev & rc"@,
                    views(logs@),
                    before.state,
                    relations@,
                );
            }
            lemma_carries_on_further(was, before.state, relations@);
        }
        ledger.note(String::from_str("dev & rc"), &logs);
    }
    {
        let ghost before = Curated { state: relations@, ledger: ledger@ };
        proof {
            relations.lemma_valid();
        }
        let logs = relations.apply_incompatible_architecture(architecture);
        proof {
            lemma_valid_for_rounds(before.state);
            lemma_candidates_are_edges(
                before.state,
                virtual_bans(architecture@),
                virtual_bans(architecture@).len() as int,
            );
            lemma_architecture_logs_name_packages(
                before.state,
                architecture@,
                before.state.banned_edges(architecture@),
                before.state.banned_edges(architecture@).len() as int,
            );
            if books {
                lemma_noted_booked(
                    before.ledger,
                    "incompat arch"@,
                    views(logs@),
                    before.state,
                    relations@,
                );
            }
            lemma_carries_on_further(was, before.state, relations@);
        }
        ledger.note(String::from_str("incompat arch"), &logs);
    }
    let ghost filtered = relations@;
    unresolveable(relations, ledger, cache);
    proof {
        lemma_carries_on_further(was, filtered, relations@);
    }
}

/// Runs the must-compatible pass with each of `roots` as the root, each
/// time followed by the unresolvables pass.
pub fn run_compatible<'a>(
    relations: &mut PackageRelations<'a>,
    ledger: &mut Ledger<'a>,
    cache: &Cache,
    roots: &'a Vec<String>,
)
    requires
        old(relations).wf(),
        old(ledger).wf(),
        cache.wf(),
        old(relations)@.interned_in(cache@),
    ensures
        final(relations).wf(),
        final(ledger).wf(),
        (Curated { state: final(relations)@, ledger: final(ledger)@ }) == (Curated {
            state: old(relations)@,
            ledger: old(ledger)@,
        }).compatible_with_all(
            roots@.map_values(|root: String| root@),
            roots.len() as int,
        ),
        old(relations)@.carries_on(final(relations)@),
        booked_in(old(ledger)@.removed, old(relations)@) ==> booked_in(
            final(ledger)@.removed,
            final(relations)@,
        ),
{
    let ghost books = booked_in(ledger@.removed, relations@);
    let ghost begun = Curated { state: relations@, ledger: ledger@ };
    let ghost names = roots@.map_values(|root: String| root@);
    let mut root: usize = 0;
    while root < roots.len()
        invariant
            root <= roots.len(),
            names == roots@.map_values(|root: String| root@),
            relations.wf(),
            ledger.wf(),
            cache.wf(),
            begun.state.interned_in(cache@),
            begun.state.carries_on(relations@),
            books ==> booked_in(ledger@.removed, relations@),
            (Curated { state: relations@, ledger: ledger@ }) == begun.compatible_with_all(
                names,
                root as int,
            ),
        decreases roots.len() - root,
    {
        let package_name: &'a str = roots[root].as_str();
        assert(names[root as int] == package_name@);
        let ghost before = Curated { state: relations@, ledger: ledger@ };
        proof {
            relations.lemma_valid();
        }
        let logs = relations.apply_must_compatible(cache, package_name);
        let mut label = String::from_str("compat ");
        label.append(package_name);
        proof {
            lemma_valid_for_rounds(before.state);
            lemma_must_compatible(before.state, package_name@, before.state.depth_budget());
            if books {
                lemma_noted_booked(before.ledger, label@, views(logs@), before.state, relations@);
            }
            lemma_carries_on_further(begun.state, before.state, relations@);
        }
        ledger.note(label, &logs);
        let ghost fitted = relations@;
        unresolveable(relations, ledger, cache);
        proof {
            lemma_carries_on_further(begun.state, fitted, relations@);
        }
        root = root + 1;
    }
}

/// Curates one architecture: the packages are entered into a graph in the
/// order given, which is that of `sorted_iter`, and the passes run in theirs; first the user's
/// constraints, the build prune, the feature ban, the policy on versions
/// and the architecture's bans, then the unresolvables pass to its end,
/// then for each root the must-compatible pass and again the unresolvables
/// pass.
///
/// It fails on the first package that the graph does not take, or of which
/// the parser refuses a constraint, and says which it is and why. Where it
/// succeeds, the files in the books are
/// exactly the files of the packages that the graph has removed, each
/// booked once.
pub fn filter_repodata<'a>(
    architecture: &'a str,
    policy: &'a Policy,
    matchspec_cache: &mut Cache,
    user_matchspecs: &UserMatchspecs,
    banned_features: &Vec<&str>,
    packages: &Vec<PackageMetadata<'a>>,
) -> (res: Result<Curation<'a>, (usize, InsertError)>)
    requires
        old(matchspec_cache).wf(),
    ensures
        final(matchspec_cache).wf(),
        old(matchspec_cache)@.is_prefix_of(final(matchspec_cache)@),
        all_taken(views(packages@), old(matchspec_cache)@) ==> res is Ok,
        match res {
            Ok(curation) => {
                &&& forall|at: int|
                    0 <= at < packages.len() ==> (#[trigger] entered(views(packages@), at)).takes(
                        views(packages@)[at],
                    )
                &&& curation.relations.wf()
                &&& curation.relations@.interned_in(final(matchspec_cache)@)
                &&& curation.ledger.wf()
                &&& booked_in(curation.ledger@.removed, curation.relations@)
                &&& books_exact(curation.ledger@.removed, curation.relations@)
                &&& curation.curated() == curated(
                    entered(views(packages@), packages.len() as int),
                    architecture@,
                    *policy,
                    user_matchspecs@,
                    texts(banned_features@),
                )
                &&& final(matchspec_cache)@ == interned_by(
                    old(matchspec_cache)@,
                    views(packages@),
                    packages.len() as int,
                )
            },
            Err((at, error)) => {
                &&& at < packages.len()
                &&& forall|before: int|
                    0 <= before < at ==> (#[trigger] entered(views(packages@), before)).takes(
                        views(packages@)[before],
                    )
                &&& refused(
                    entered(views(packages@), at as int),
                    interned_by(old(matchspec_cache)@, views(packages@), at as int),
                    views(packages@)[at as int],
                    error,
                    final(matchspec_cache)@,
                )
            },
        },
{
    let mut relations = match enter_packages(matchspec_cache, packages) {
        Ok(relations) => relations,
        Err(refused) => {
            return Err(refused);
        },
    };
    let mut ledger: Ledger<'a> = Ledger::new(policy.explain);
    proof {
        relations.lemma_valid();
        lemma_entered_whole(views(packages@), packages.len() as int);
        lemma_curated_books(
            relations@,
            architecture@,
            *policy,
            user_matchspecs@,
            texts(banned_features@),
        );
    }
    run_filters(
        &mut relations,
        &mut ledger,
        architecture,
        policy.ban_dev,
        policy.ban_rc,
        user_matchspecs,
        banned_features,
        matchspec_cache,
    );
    run_compatible(&mut relations, &mut ledger, matchspec_cache, &policy.must_compatible);
    Ok(Curation { relations, ledger })
}

/// How much of `total` is left once `removed` are gone, in percent: a
/// hundred less the removed share, of which only the whole percents count.
pub fn remaining_percent(removed: usize, total: usize) -> (res: usize)
    requires
        total > 0,
        removed <= total,
    ensures
        res == 100 - (removed * 100) / (total as int),
{
    let share: u128 = (removed as u128 * 100) / (total as u128);
    assert(share <= 100) by (nonlinear_arith)
        requires
            share == (removed as int * 100) / (total as int),
            removed <= total,
            total > 0,
    ;
    100 - share as usize
}

} // verus!
