//! The must-compatible pass: what every surviving variant of a root package
//! depends on must fit at least one of those variants.
//!
//! The names that all surviving variants of the root depend on are found,
//! with the constraints that the variants put on each. Of the packages of
//! such a name, those are removed that none of the constraints admits. The
//! same is then done with each of those names as the root.

use vstd::prelude::*;

use crate::depends::dependency_name;
use crate::depends::dependency_spec;
use crate::depends::dependsstr_to_name_and_spec;
use crate::logs::RemovedBecauseIncompatibleLog;
use crate::logs::RemovedBecauseIncompatibleView;
use crate::logs::RemovedByUserView;
use crate::packagerelations::graph::PackageRelations;
use crate::conda::Constraint;
use crate::matchspeccache::Cache;
use crate::packagerelations::model::clauses_in;
use crate::packagerelations::model::record_ok;
use crate::packagerelations::model::RelationsView;
use crate::packagerelations::select::chosen;
use crate::packagerelations::select::lemma_carries_on_further;
use crate::packagerelations::select::lemma_chosen_skip;
use crate::packagerelations::select::views;
use crate::packagerelations::account::lemma_must_compatible_once;
use crate::packagerelations::account::lemma_must_compatible_tells;
use crate::packagerelations::select::accounts_once;
use crate::packagerelations::user::texts;
use crate::text::first_index;
use crate::text::lemma_first_index;
use crate::text::str_eq;

verus! {

/// What the variants of a root looked at so far agree on.
#[verifier::ext_equal]
pub struct Agreement {
    /// The names that the first variant depends on, in the order of its
    /// clauses, each once.
    pub keys: Seq<Seq<char>>,
    /// For each of those names, the constraints put on it, each once.
    pub specs: Seq<Seq<Seq<char>>>,
    /// For each of those names, whether every variant looked at so far
    /// depends on it.
    pub common: Seq<bool>,
}

/// The position of `name` among `keys`; their number where it is not among
/// them.
pub open spec fn position(keys: Seq<Seq<char>>, name: Seq<char>) -> int {
    first_index(keys, |key: Seq<char>| key == name)
}

/// `list`, with `item` at its end if it was not in it.
pub open spec fn with_new(list: Seq<Seq<char>>, item: Seq<char>) -> Seq<Seq<char>> {
    if position(list, item) < list.len() {
        list
    } else {
        list.push(item)
    }
}

/// The records of removals by constraints, told as removals for not
/// fitting `root`.
pub open spec fn incompatible_from(logs: Seq<RemovedByUserView>, root: Seq<char>) -> Seq<
    RemovedBecauseIncompatibleView,
> {
    logs.map_values(
        |log: RemovedByUserView|
            RemovedBecauseIncompatibleView {
                filename: log.filename,
                package_name: log.package_name,
                incompatible_with: root,
            },
    )
}

/// A graph, and the records of the removals that led to it.
pub struct Outcome {
    pub state: RelationsView,
    pub logs: Seq<RemovedBecauseIncompatibleView>,
}

impl Agreement {
    /// Nothing seen yet.
    pub open spec fn empty() -> Agreement {
        Agreement { keys: Seq::empty(), specs: Seq::empty(), common: Seq::empty() }
    }

    /// The three columns have one length.
    pub open spec fn aligned(self) -> bool {
        self.keys.len() == self.specs.len() == self.common.len()
    }

    /// After a clause of the first variant: its name is a key, and its
    /// constraint the only one on that name.
    pub open spec fn first_seen(self, clause: Seq<char>) -> Agreement {
        let name = dependency_name(clause);
        let spec = dependency_spec(clause);
        let at = position(self.keys, name);
        if at < self.keys.len() {
            Agreement { specs: self.specs.update(at, seq![spec]), ..self }
        } else {
            Agreement {
                keys: self.keys.push(name),
                specs: self.specs.push(seq![spec]),
                common: self.common.push(true),
            }
        }
    }

    /// After the first `upto` clauses of the first variant.
    pub open spec fn first(clauses: Seq<Seq<char>>, upto: int) -> Agreement
        decreases upto,
    {
        if upto <= 0 {
            Agreement::empty()
        } else {
            Agreement::first(clauses, upto - 1).first_seen(clauses[upto - 1])
        }
    }

    /// After a clause of a later variant: if its name is a key, its
    /// constraint is among those on that name.
    pub open spec fn next_seen(self, clause: Seq<char>) -> Agreement {
        let name = dependency_name(clause);
        let spec = dependency_spec(clause);
        let at = position(self.keys, name);
        if at < self.keys.len() {
            Agreement { specs: self.specs.update(at, with_new(self.specs[at], spec)), ..self }
        } else {
            self
        }
    }

    /// After the first `upto` clauses of a later variant.
    pub open spec fn gathered(self, clauses: Seq<Seq<char>>, upto: int) -> Agreement
        decreases upto,
    {
        if upto <= 0 {
            self
        } else {
            self.gathered(clauses, upto - 1).next_seen(clauses[upto - 1])
        }
    }

    /// For each key, whether one of the first `upto` clauses names it.
    pub open spec fn seen(self, clauses: Seq<Seq<char>>, upto: int) -> Seq<bool> {
        Seq::new(
            self.keys.len(),
            |at: int|
                exists|c: int|
                    0 <= c < upto && c < clauses.len() && dependency_name(#[trigger] clauses[c])
                        == self.keys[at],
        )
    }

    /// After a later variant with the clauses `clauses`: its constraints are
    /// gathered, and a key stays common only if the variant names it.
    pub open spec fn next(self, clauses: Seq<Seq<char>>) -> Agreement {
        let gathered = self.gathered(clauses, clauses.len() as int);
        let seen = self.seen(clauses, clauses.len() as int);
        Agreement {
            common: Seq::new(self.common.len(), |at: int| self.common[at] && seen[at]),
            ..gathered
        }
    }

    /// Whether some key is still common.
    pub open spec fn any_common(self) -> bool {
        exists|at: int| 0 <= at < self.common.len() && #[trigger] self.common[at]
    }
}

impl RelationsView {
    /// For each package, whether it is a variant of `name` that is not
    /// removed.
    pub open spec fn surviving(self, name: Seq<char>) -> Seq<bool> {
        Seq::new(
            self.packages.len(),
            |id: int| self.packages[id].record.name == name && !self.removed[id],
        )
    }

    /// The variants of `name` that are not removed, in ascending order.
    pub open spec fn survivors(self, name: Seq<char>) -> Seq<int> {
        chosen(self.surviving(name), self.packages.len() as int)
    }

    /// What the first `upto` of `variants` agree on. Once no name is
    /// common any more, the rest is not looked at.
    pub open spec fn agreement(self, variants: Seq<int>, upto: int) -> Agreement
        decreases upto,
    {
        if upto <= 1 {
            let clauses = self.packages[variants[0]].record.depends;
            Agreement::first(clauses, clauses.len() as int)
        } else {
            let before = self.agreement(variants, upto - 1);
            if before.any_common() {
                before.next(self.packages[variants[upto - 1]].record.depends)
            } else {
                before
            }
        }
    }

    /// The graph after the first `upto` keys of `agreed` have been applied:
    /// of the packages of each common key, those are removed that none of
    /// the key's constraints admits.
    pub open spec fn fitted(self, agreed: Agreement, upto: int) -> RelationsView
        decreases upto,
    {
        if upto <= 0 {
            self
        } else {
            let before = self.fitted(agreed, upto - 1);
            if agreed.common[upto - 1] {
                before.without(before.fallen(agreed.keys[upto - 1], agreed.specs[upto - 1]))
            } else {
                before
            }
        }
    }

    /// The records of the removals that applying the first `upto` keys of
    /// `agreed` causes, key by key.
    pub open spec fn fitted_logs(self, agreed: Agreement, root: Seq<char>, upto: int) -> Seq<
        RemovedBecauseIncompatibleView,
    >
        decreases upto,
    {
        if upto <= 0 {
            Seq::empty()
        } else {
            let before = self.fitted(agreed, upto - 1);
            let logs = self.fitted_logs(agreed, root, upto - 1);
            if agreed.common[upto - 1] {
                logs + incompatible_from(
                    before.by_user_logs(
                        chosen(
                            before.fallen(agreed.keys[upto - 1], agreed.specs[upto - 1]),
                            before.packages.len() as int,
                        ),
                    ),
                    root,
                )
            } else {
                logs
            }
        }
    }

    /// The pass with `root` as the root, descending at most `depth` levels:
    /// the graph it leaves and the records of its removals.
    pub open spec fn must_compatible(self, root: Seq<char>, depth: nat) -> Outcome
        decreases depth, 0nat,
    {
        let variants = self.survivors(root);
        if depth == 0 || variants.len() == 0 {
            Outcome { state: self, logs: Seq::empty() }
        } else {
            let agreed = self.agreement(variants, variants.len() as int);
            let fitted = self.fitted(agreed, agreed.keys.len() as int);
            let logs = self.fitted_logs(agreed, root, agreed.keys.len() as int);
            let below = fitted.descended(agreed, agreed.keys.len() as int, (depth - 1) as nat);
            Outcome { state: below.state, logs: logs + below.logs }
        }
    }

    /// The pass with each of the first `upto` common keys of `agreed` as
    /// the root, one after the other.
    pub open spec fn descended(self, agreed: Agreement, upto: int, depth: nat) -> Outcome
        decreases depth, 1 + (if upto > 0 {
            upto as nat
        } else {
            0nat
        }),
    {
        if upto <= 0 {
            Outcome { state: self, logs: Seq::empty() }
        } else {
            let before = self.descended(agreed, upto - 1, depth);
            if agreed.common[upto - 1] {
                let below = before.state.must_compatible(agreed.keys[upto - 1], depth);
                Outcome { state: below.state, logs: before.logs + below.logs }
            } else {
                before
            }
        }
    }

    /// How many levels the pass descends at most: one more than there are
    /// names that packages depend on. No chain of distinct names is longer.
    pub open spec fn depth_budget(self) -> nat {
        if self.names.len() < usize::MAX {
            (self.names.len() + 1) as nat
        } else {
            usize::MAX as nat
        }
    }
}

/// The constraints that stand in `cache` under the texts `specs`, as the
/// parser read them, in the order of `specs`.
pub fn constraints_of<'c>(cache: &'c Cache, specs: &Vec<&str>) -> (res: Vec<&'c Constraint>)
    requires
        cache.wf(),
        forall|k: int| 0 <= k < specs.len() ==> cache@.contains((#[trigger] specs[k])@),
    ensures
        views(res@) == texts(specs@),
{
    let mut res: Vec<&'c Constraint> = Vec::new();
    let mut k: usize = 0;
    while k < specs.len()
        invariant
            k <= specs.len(),
            cache.wf(),
            forall|j: int| 0 <= j < specs.len() ==> cache@.contains((#[trigger] specs[j])@),
            views(res@) == texts(specs@).take(k as int),
        decreases specs.len() - k,
    {
        let ghost before = res@;
        match cache.find(specs[k]) {
            Some(id) => {
                res.push(cache.constraint(id));
            },
            None => {
                vstd::pervasive::unreached::<()>();
            },
        }
        proof {
            assert(views(res@) =~= views(before).push(specs[k as int]@));
            assert(views(res@) =~= texts(specs@).take(k + 1));
        }
        k = k + 1;
    }
    proof {
        assert(texts(specs@).take(k as int) =~= texts(specs@));
    }
    res
}

/// The position of `name` among `keys`.
fn find_key(keys: &Vec<&str>, name: &str) -> (res: usize)
    ensures
        res == position(texts(keys@), name@),
        res <= keys.len(),
{
    let mut at: usize = 0;
    while at < keys.len()
        invariant
            at <= keys.len(),
            forall|j: int| 0 <= j < at ==> texts(keys@)[j] != name@,
        decreases keys.len() - at,
    {
        assert(texts(keys@)[at as int] == keys[at as int]@);
        if str_eq(keys[at], name) {
            proof {
                lemma_first_index(texts(keys@), |key: Seq<char>| key == name@, at as int);
            }
            return at;
        }
        at = at + 1;
    }
    proof {
        lemma_first_index(texts(keys@), |key: Seq<char>| key == name@, at as int);
    }
    at
}

/// The constraints per key, as texts.
pub open spec fn texts_of(specs: Seq<Vec<&str>>) -> Seq<Seq<Seq<char>>> {
    specs.map_values(|list: Vec<&str>| texts(list@))
}

/// What `keys`, `specs` and `common` stand for.
pub open spec fn agreement_of(keys: Seq<&str>, specs: Seq<Vec<&str>>, common: Seq<bool>) -> Agreement {
    Agreement { keys: texts(keys), specs: texts_of(specs), common }
}

impl<'a> PackageRelations<'a> {
    /// Removes what fits no surviving variant of `package_name`, and what
    /// then fits no surviving variant of what those variants all depend on,
    /// and so on, at most as many levels down as `depth_budget` allows.
    ///
    /// The records hold exactly one for each package that the pass removes,
    /// and the pass leaves every edge as it was.
    pub fn apply_must_compatible(&mut self, cache: &Cache, package_name: &'a str) -> (result: Vec<
        RemovedBecauseIncompatibleLog<'a>,
    >)
        requires
            old(self).wf(),
            cache.wf(),
            old(self)@.interned_in(cache@),
        ensures
            final(self).wf(),
            old(self)@.carries_on(final(self)@),
            final(self)@ == old(self)@.must_compatible(
                package_name@,
                old(self)@.depth_budget(),
            ).state,
            views(result@) == old(self)@.must_compatible(
                package_name@,
                old(self)@.depth_budget(),
            ).logs,
            accounts_once(views(result@), old(self)@, final(self)@),
            final(self)@.edges == old(self)@.edges,
    {
        proof {
            self.lemma_valid();
            lemma_must_compatible_once(self@, package_name@, self@.depth_budget());
            lemma_must_compatible_tells(self@, package_name@, self@.depth_budget());
        }
        let names = self.depended_names();
        let depth: usize = if names < usize::MAX {
            names + 1
        } else {
            usize::MAX
        };
        self.must_compatible_within(cache, package_name, depth)
    }

    /// The surviving variants of `package_name`, in ascending order.
    fn surviving_variants(&self, package_name: &str) -> (res: Vec<usize>)
        requires
            self.wf(),
        ensures
            res@.map_values(|id: usize| id as int) == self@.survivors(package_name@),
            forall|j: int| 0 <= j < res.len() ==> (#[trigger] res[j]) < self@.packages.len(),
    {
        let (start, end) = self.mkrange(package_name);
        let ghost marks = self@.surviving(package_name@);
        let ghost n = self@.packages.len() as int;
        let mut res: Vec<usize> = Vec::new();
        proof {
            self.lemma_valid();
            lemma_chosen_skip(marks, 0, start as int);
            assert(res@.map_values(|id: usize| id as int) =~= chosen(marks, start as int));
        }
        let mut index: usize = start;
        while index < end
            invariant
                start <= index <= end <= n,
                n == self@.packages.len(),
                self@.dense(),
                marks == self@.surviving(package_name@),
                forall|id: int|
                    0 <= id < n ==> (start <= id < end <==> (#[trigger] self@.packages[id]).record.name
                        == package_name@),
                res@.map_values(|id: usize| id as int) == chosen(marks, index as int),
                forall|j: int| 0 <= j < res.len() ==> (#[trigger] res[j]) < n,
            decreases end - index,
        {
            let ghost before = res@;
            if !self.is_removed(index) {
                res.push(index);
                proof {
                    assert(marks[index as int]);
                    assert(res@.map_values(|id: usize| id as int) =~= before.map_values(
                        |id: usize| id as int,
                    ).push(index as int));
                }
            }
            index = index + 1;
        }
        proof {
            lemma_chosen_skip(marks, end as int, n);
        }
        res
    }

    /// What the surviving variants `variants` agree on.
    #[verifier::loop_isolation(false)]
    fn agree(&self, variants: &Vec<usize>) -> (res: (Vec<&'a str>, Vec<Vec<&'a str>>, Vec<bool>))
        requires
            self.wf(),
            variants.len() > 0,
            forall|j: int| 0 <= j < variants.len() ==> (#[trigger] variants[j]) < self@.packages.len(),
        ensures
            agreement_of(res.0@, res.1@, res.2@) == self@.agreement(
                variants@.map_values(|id: usize| id as int),
                variants.len() as int,
            ),
            agreement_of(res.0@, res.1@, res.2@).aligned(),
            forall|at: int| 0 <= at < res.1.len() ==> self@.carries_all(#[trigger] texts(res.1[at]@)),
    {
        let ghost ids = variants@.map_values(|id: usize| id as int);
        proof {
            self.lemma_valid();
        }
        let mut keys: Vec<&'a str> = Vec::new();
        let mut specs: Vec<Vec<&'a str>> = Vec::new();
        let mut common: Vec<bool> = Vec::new();
        // The first variant: what it depends on is all that can be common.
        let first = self.metadata(variants[0]).package_record;
        let ghost clauses = first@.depends;
        assert(clauses == self@.packages[ids[0]].record.depends);
        assert(record_ok(self@.packages[ids[0]].record));
        let mut c: usize = 0;
        proof {
            assert(agreement_of(keys@, specs@, common@) =~~= Agreement::first(clauses, 0));
        }
        while c < first.depends.len()
            invariant
                c <= first.depends.len(),
                agreement_of(keys@, specs@, common@) == Agreement::first(clauses, c as int),
                keys.len() == specs.len() == common.len(),
                forall|at: int| 0 <= at < specs.len() ==> self@.carries_all(#[trigger] texts(specs[at]@)),
            decreases first.depends.len() - c,
        {
            let depend: &'a str = first.depends[c].as_str();
            assert(clauses[c as int] == depend@);
            let (name, spec) = dependsstr_to_name_and_spec(depend);
            assert(self@.carries_spec(spec@)) by {
                assert(dependency_spec(self@.packages[ids[0]].record.depends[c as int]) == spec@);
            }
            let at = find_key(&keys, name);
            let mut only: Vec<&'a str> = Vec::new();
            only.push(spec);
            let ghost before = agreement_of(keys@, specs@, common@);
            proof {
                assert(texts(only@) =~= seq![spec@]);
            }
            if at < keys.len() {
                specs.set(at, only);
                proof {
                    assert(texts_of(specs@) =~= before.specs.update(at as int, seq![spec@]));
                }
            } else {
                keys.push(name);
                specs.push(only);
                common.push(true);
                proof {
                    assert(texts(keys@) =~= before.keys.push(name@));
                    assert(texts_of(specs@) =~= before.specs.push(seq![spec@]));
                }
            }
            proof {
                assert(agreement_of(keys@, specs@, common@) =~~= before.first_seen(depend@));
            }
            c = c + 1;
        }
        // The later variants: each may drop names, and adds constraints.
        let mut j: usize = 1;
        while j < variants.len()
            invariant
                1 <= j <= variants.len(),
                agreement_of(keys@, specs@, common@) == self@.agreement(ids, j as int),
                keys.len() == specs.len() == common.len(),
                forall|at: int| 0 <= at < specs.len() ==> self@.carries_all(#[trigger] texts(specs[at]@)),
            decreases variants.len() - j,
        {
            let ghost agreed = agreement_of(keys@, specs@, common@);
            let mut any: bool = false;
            let mut at: usize = 0;
            while at < common.len()
                invariant
                    at <= common.len(),
                    any <==> exists|k: int| 0 <= k < at && #[trigger] common[k],
                decreases common.len() - at,
            {
                if common[at] {
                    any = true;
                }
                at = at + 1;
            }
            proof {
                if any {
                    let k = choose|k: int| 0 <= k < common.len() && #[trigger] common[k];
                    assert(agreed.common[k]);
                }
                if agreed.any_common() {
                    let k = choose|k: int| 0 <= k < agreed.common.len() && #[trigger] agreed.common[k];
                    assert(common[k]);
                }
            }
            assert(any == agreed.any_common());
            if any {
                let record = self.metadata(variants[j]).package_record;
                let ghost later = record@.depends;
                assert(later == self@.packages[ids[j as int]].record.depends);
                assert(record_ok(
                    self@.packages[ids[j as int]].record,
                ));
                let mut seen: Vec<bool> = Vec::new();
                let mut k: usize = 0;
                while k < keys.len()
                    invariant
                        k <= keys.len(),
                        seen.len() == k,
                        forall|l: int| 0 <= l < k ==> !(#[trigger] seen[l]),
                    decreases keys.len() - k,
                {
                    seen.push(false);
                    k = k + 1;
                }
                assert(seen@ =~= agreed.seen(later, 0));
                let mut c: usize = 0;
                while c < record.depends.len()
                    invariant
                        c <= record.depends.len(),
                        keys.len() == specs.len() == common.len() == seen.len(),
                        texts(keys@) == agreed.keys,
                        common@ == agreed.common,
                        agreement_of(keys@, specs@, common@) == agreed.gathered(later, c as int),
                        seen@ == agreed.seen(later, c as int),
                        forall|at: int|
                            0 <= at < specs.len() ==> self@.carries_all(#[trigger] texts(specs[at]@)),
                    decreases record.depends.len() - c,
                {
                    let depend: &'a str = record.depends[c].as_str();
                    assert(later[c as int] == depend@);
                    let (name, spec) = dependsstr_to_name_and_spec(depend);
                    assert(self@.carries_spec(spec@)) by {
                        assert(dependency_spec(
                            self@.packages[ids[j as int]].record.depends[c as int],
                        ) == spec@);
                    }
                    let at = find_key(&keys, name);
                    let ghost before = agreement_of(keys@, specs@, common@);
                    let ghost seen_before = seen@;
                    proof {
                        lemma_position(texts(keys@), name@);
                    }
                    if at < keys.len() {
                        let known = find_key(&specs[at], spec);
                        if known == specs[at].len() {
                            specs[at].push(spec);
                            proof {
                                assert(texts(specs[at as int]@) =~= before.specs[at as int].push(
                                    spec@,
                                ));
                            }
                        }
                        seen.set(at, true);
                        proof {
                            assert(texts_of(specs@) =~= before.specs.update(
                                at as int,
                                with_new(before.specs[at as int], spec@),
                            ));
                            assert(texts(keys@)[at as int] == name@);
                        }
                    }
                    proof {
                        assert(agreement_of(keys@, specs@, common@) =~~= before.next_seen(depend@));
                        assert forall|p: int| 0 <= p < seen.len() implies seen@[p] == agreed.seen(
                            later,
                            c + 1,
                        )[p] by {
                            if agreed.seen(later, c + 1)[p] {
                                let w = choose|w: int|
                                    0 <= w < c + 1 && w < later.len() && dependency_name(
                                        #[trigger] later[w],
                                    ) == agreed.keys[p];
                                if w < c {
                                    assert(agreed.seen(later, c as int)[p]);
                                } else {
                                    assert(position(agreed.keys, name@) <= p) by {
                                        if position(agreed.keys, name@) > p {
                                            lemma_position_first(agreed.keys, name@, p);
                                        }
                                    }
                                    lemma_keys_distinct_first(first@.depends, first@.depends.len() as int);
                                    lemma_agreement_keys(self@, ids, j as int);
                                }
                            }
                            if seen@[p] && !seen_before[p] {
                                assert(dependency_name(later[c as int]) == agreed.keys[p]);
                            }
                            if seen_before[p] {
                                let w = choose|w: int|
                                    0 <= w < c && w < later.len() && dependency_name(
                                        #[trigger] later[w],
                                    ) == agreed.keys[p];
                                assert(dependency_name(later[w]) == agreed.keys[p]);
                            }
                        }
                        assert(seen@ =~= agreed.seen(later, c + 1));
                    }
                    c = c + 1;
                }
                let mut at: usize = 0;
                let ghost gathered = agreement_of(keys@, specs@, common@);
                while at < common.len()
                    invariant
                        at <= common.len(),
                        common.len() == seen.len() == agreed.common.len(),
                        forall|p: int|
                            0 <= p < at ==> common[p] == (agreed.common[p] && seen[p]),
                        forall|p: int| at <= p < common.len() ==> common[p] == agreed.common[p],
                    decreases common.len() - at,
                {
                    if !seen[at] {
                        common.set(at, false);
                    }
                    at = at + 1;
                }
                proof {
                    assert(common@ =~= Seq::new(
                        agreed.common.len(),
                        |p: int| agreed.common[p] && agreed.seen(later, later.len() as int)[p],
                    ));
                    assert(agreement_of(keys@, specs@, common@) =~~= agreed.next(later));
                }
            }
            j = j + 1;
        }
        (keys, specs, common)
    }

    /// The pass with `package_name` as the root, descending at most `depth`
    /// levels.
    #[verifier::loop_isolation(false)]
    fn must_compatible_within(
        &mut self,
        cache: &Cache,
        package_name: &'a str,
        depth: usize,
    ) -> (result: Vec<RemovedBecauseIncompatibleLog<'a>>)
        requires
            old(self).wf(),
            cache.wf(),
            old(self)@.interned_in(cache@),
        ensures
            final(self).wf(),
            old(self)@.carries_on(final(self)@),
            final(self)@ == old(self)@.must_compatible(package_name@, depth as nat).state,
            views(result@) == old(self)@.must_compatible(package_name@, depth as nat).logs,
        decreases depth,
    {
        let mut result: Vec<RemovedBecauseIncompatibleLog<'a>> = Vec::new();
        let ghost was = self@;
        if depth == 0 {
            assert(views(result@) =~= Seq::empty());
            return result;
        }
        let variants = self.surviving_variants(package_name);
        if variants.len() == 0 {
            assert(views(result@) =~= Seq::empty());
            return result;
        }
        let (keys, specs, common) = self.agree(&variants);
        let ghost agreed = agreement_of(keys@, specs@, common@);
        proof {
            assert(views(result@) =~= was.fitted_logs(agreed, package_name@, 0));
        }
        let mut at: usize = 0;
        while at < keys.len()
            invariant
                at <= keys.len(),
                self.wf(),
                was.carries_on(self@),
                self@ == was.fitted(agreed, at as int),
                views(result@) == was.fitted_logs(agreed, package_name@, at as int),
            decreases keys.len() - at,
        {
            if common[at] {
                let ghost before = self@;
                let ghost logged = result@;
                assert(agreed.keys[at as int] == keys[at as int]@);
                assert(agreed.specs[at as int] == texts(specs[at as int]@));
                proof {
                    assert(was.carries_all(texts(specs[at as int]@)));
                    assert forall|k: int| 0 <= k < specs[at as int].len() implies cache@.contains(
                        (#[trigger] specs[at as int][k])@,
                    ) by {
                        let text = texts(specs[at as int]@)[k];
                        assert(was.carries_spec(text));
                        let (id, c) = choose|id: int, c: int|
                            0 <= id < was.packages.len() && 0 <= c
                                < was.packages[id].record.depends.len() && dependency_spec(
                                #[trigger] was.packages[id].record.depends[c],
                            ) == text;
                        assert(clauses_in(was.packages[id].record.depends, cache@));
                    }
                }
                let constraints = constraints_of(cache, &specs[at]);
                let removed = self.apply_matchspecs(keys[at], &constraints);
                proof {
                    lemma_carries_on_further(was, before, self@);
                }
                let mut k: usize = 0;
                while k < removed.len()
                    invariant
                        k <= removed.len(),
                        views(result@) == views(logged) + incompatible_from(
                            views(removed@).take(k as int),
                            package_name@,
                        ),
                    decreases removed.len() - k,
                {
                    let ghost so_far = result@;
                    result.push(
                        RemovedBecauseIncompatibleLog {
                            package_name: removed[k].package_name,
                            filename: removed[k].filename,
                            incompatible_with: package_name,
                        },
                    );
                    proof {
                        assert(views(result@) =~= views(so_far).push(
                            incompatible_from(views(removed@), package_name@)[k as int],
                        ));
                        assert(views(result@) =~= views(logged) + incompatible_from(
                            views(removed@).take(k + 1),
                            package_name@,
                        ));
                    }
                    k = k + 1;
                }
                proof {
                    assert(views(removed@).take(k as int) =~= views(removed@));
                }
            }
            at = at + 1;
        }
        let ghost fitted = self@;
        let ghost fitted_logs = result@;
        let mut at: usize = 0;
        proof {
            assert(views(result@) =~= views(fitted_logs) + fitted.descended(
                agreed,
                0,
                (depth - 1) as nat,
            ).logs);
        }
        while at < keys.len()
            invariant
                at <= keys.len(),
                self.wf(),
                was.carries_on(self@),
                self@ == fitted.descended(agreed, at as int, (depth - 1) as nat).state,
                views(result@) == views(fitted_logs) + fitted.descended(
                    agreed,
                    at as int,
                    (depth - 1) as nat,
                ).logs,
            decreases keys.len() - at,
        {
            if common[at] {
                let ghost logged = result@;
                let ghost above = self@;
                assert(agreed.keys[at as int] == keys[at as int]@);
                let mut sub_results = self.must_compatible_within(cache, keys[at], depth - 1);
                let ghost fresh = sub_results@;
                result.append(&mut sub_results);
                proof {
                    assert(views(result@) =~= views(logged) + views(fresh));
                    lemma_carries_on_further(was, above, self@);
                }
            }
            at = at + 1;
        }
        result
    }
}

/// A key before the position of `name` is not `name`.
pub proof fn lemma_position_first(keys: Seq<Seq<char>>, name: Seq<char>, at: int)
    requires
        0 <= at < position(keys, name),
    ensures
        at < keys.len(),
        keys[at] != name,
    decreases keys.len(),
{
    if keys.len() > 0 && at > 0 {
        lemma_position_first(keys.drop_first(), name, at - 1);
    }
}

/// The position of a name is within the keys, and the key there, if there
/// is one, is the name.
pub proof fn lemma_position(keys: Seq<Seq<char>>, name: Seq<char>)
    ensures
        0 <= position(keys, name) <= keys.len(),
        position(keys, name) < keys.len() ==> keys[position(keys, name)] == name,
    decreases keys.len(),
{
    if keys.len() > 0 && keys[0] != name {
        lemma_position(keys.drop_first(), name);
    }
}

/// What the first variant leaves holds each key once.
pub proof fn lemma_keys_distinct_first(clauses: Seq<Seq<char>>, upto: int)
    ensures
        forall|p: int, q: int|
            0 <= p < q < Agreement::first(clauses, upto).keys.len() ==> Agreement::first(
                clauses,
                upto,
            ).keys[p] != Agreement::first(clauses, upto).keys[q],
        Agreement::first(clauses, upto).aligned(),
    decreases upto,
{
    if upto > 0 {
        lemma_keys_distinct_first(clauses, upto - 1);
        let before = Agreement::first(clauses, upto - 1);
        let name = dependency_name(clauses[upto - 1]);
        lemma_position(before.keys, name);
        let now = Agreement::first(clauses, upto);
        assert forall|p: int, q: int| 0 <= p < q < now.keys.len() implies now.keys[p]
            != now.keys[q] by {
            if q == before.keys.len() {
                lemma_position_first(before.keys, name, p);
            }
        }
    }
}

/// Gathering constraints leaves the keys and what is common as they are.
pub proof fn lemma_gathered_keys(agreed: Agreement, clauses: Seq<Seq<char>>, upto: int)
    requires
        agreed.aligned(),
    ensures
        agreed.gathered(clauses, upto).keys == agreed.keys,
        agreed.gathered(clauses, upto).common == agreed.common,
        agreed.gathered(clauses, upto).aligned(),
    decreases upto,
{
    if upto > 0 {
        lemma_gathered_keys(agreed, clauses, upto - 1);
        lemma_position(agreed.keys, dependency_name(clauses[upto - 1]));
    }
}

/// The keys of an agreement are those that the first variant left, each
/// once.
pub proof fn lemma_agreement_keys(v: RelationsView, variants: Seq<int>, upto: int)
    ensures
        v.agreement(variants, upto).keys == v.agreement(variants, 1).keys,
        v.agreement(variants, upto).aligned(),
        forall|p: int, q: int|
            0 <= p < q < v.agreement(variants, upto).keys.len() ==> v.agreement(
                variants,
                upto,
            ).keys[p] != v.agreement(variants, upto).keys[q],
    decreases upto,
{
    let clauses = v.packages[variants[0]].record.depends;
    lemma_keys_distinct_first(clauses, clauses.len() as int);
    if upto > 1 {
        lemma_agreement_keys(v, variants, upto - 1);
        let before = v.agreement(variants, upto - 1);
        let later = v.packages[variants[upto - 1]].record.depends;
        lemma_gathered_keys(before, later, later.len() as int);
    }
}

} // verus!
