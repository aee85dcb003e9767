//! The books of a run: which files were removed, which package names are
//! noted for the unresolvables pass, and what each round came to.

use vstd::hash_set::StringHashSet;
use vstd::prelude::*;
use vstd::string::StringExecFns;

use crate::logs::Log;
use crate::logs::Removal;
use crate::matchspeccache::with_text;
use crate::packagerelations::select::views;
use crate::packagerelations::user::texts;

verus! {

/// Names, each once, in the order in which they came.
pub struct NameSet<'a> {
    names: Vec<&'a str>,
    seen: StringHashSet,
}

impl<'a> View for NameSet<'a> {
    type V = Seq<Seq<char>>;

    closed spec fn view(&self) -> Seq<Seq<char>> {
        texts(self.names@)
    }
}

impl<'a> NameSet<'a> {
    /// The lookup table holds exactly the names.
    pub closed spec fn wf(&self) -> bool {
        forall|name: Seq<char>| self.seen@.contains(name) <==> texts(self.names@).contains(name)
    }

    /// No names.
    pub fn new() -> (res: NameSet<'a>)
        ensures
            res.wf(),
            res@ == Seq::<Seq<char>>::empty(),
    {
        let res = NameSet { names: Vec::new(), seen: StringHashSet::new() };
        assert(texts(res.names@) =~= Seq::<Seq<char>>::empty());
        res
    }

    /// Whether there are no names.
    pub fn is_empty(&self) -> (res: bool)
        ensures
            res == (self@.len() == 0),
    {
        self.names.len() == 0
    }

    /// Adds `name` unless it is there, and says whether it was added.
    pub fn insert(&mut self, name: &'a str) -> (res: bool)
        requires
            old(self).wf(),
        ensures
            final(self).wf(),
            final(self)@ == with_text(old(self)@, name@),
            res == !old(self)@.contains(name@),
    {
        if self.seen.contains(name) {
            false
        } else {
            let ghost before = texts(self.names@);
            self.seen.insert(String::from_str(name));
            self.names.push(name);
            proof {
                assert(texts(self.names@) =~= before.push(name@));
                assert forall|other: Seq<char>| self.seen@.contains(other) <==> texts(
                    self.names@,
                ).contains(other) by {
                    if before.contains(other) {
                        let k = choose|k: int| 0 <= k < before.len() && before[k] == other;
                        assert(texts(self.names@)[k] == other);
                    }
                    if other == name@ {
                        assert(texts(self.names@)[before.len() as int] == other);
                    }
                }
            }
            true
        }
    }

    /// The names, in the order in which they came.
    pub fn to_vec(&self) -> (res: Vec<&'a str>)
        ensures
            texts(res@) == self@,
    {
        let mut res: Vec<&'a str> = Vec::new();
        let mut i: usize = 0;
        while i < self.names.len()
            invariant
                i <= self.names.len(),
                res@ == self.names@.take(i as int),
            decreases self.names.len() - i,
        {
            res.push(self.names[i]);
            proof {
                assert(res@ =~= self.names@.take(i + 1));
            }
            i = i + 1;
        }
        proof {
            assert(res@ =~= self.names@);
        }
        res
    }
}

/// What a round of removals came to.
pub struct RoundSummary {
    /// How many packages the round removed that had not been removed before.
    pub removal_count: usize,
    /// For each of them a line that explains its removal, if lines were
    /// asked for.
    pub explanations: Vec<String>,
}

/// The files removed so far, the package names noted for the next round of
/// the unresolvables pass, and the lines that explain the removals.
#[verifier::ext_equal]
pub struct Tally {
    pub removed: Seq<Seq<char>>,
    pub names: Seq<Seq<char>>,
    pub lines: Seq<Seq<char>>,
}

impl Tally {
    /// The tally after one record: if its file was not removed before, the
    /// file counts as removed, its package's name is noted, and, with
    /// `explain`, its line is kept.
    pub open spec fn with_record(self, file: Seq<char>, package: Seq<char>, line: Seq<char>, explain: bool) -> Tally {
        if self.removed.contains(file) {
            self
        } else {
            Tally {
                removed: self.removed.push(file),
                names: with_text(self.names, package),
                lines: if explain {
                    self.lines.push(line)
                } else {
                    self.lines
                },
            }
        }
    }

    /// The tally after the first `upto` of `logs`.
    pub open spec fn with_logs<'a, L: Log<'a>>(self, logs: Seq<L>, upto: int, explain: bool) -> Tally
        decreases upto,
    {
        if upto <= 0 {
            self
        } else {
            self.with_logs(logs, upto - 1, explain).with_record(
                logs[upto - 1].filename_text(),
                logs[upto - 1].package_name_text(),
                logs[upto - 1].message_text(),
                explain,
            )
        }
    }

    /// The tally after the first `upto` of `removals`.
    pub open spec fn with_removals<V: Removal>(self, removals: Seq<V>, upto: int, explain: bool) -> Tally
        decreases upto,
    {
        if upto <= 0 {
            self
        } else {
            self.with_removals(removals, upto - 1, explain).with_record(
                removals[upto - 1].file(),
                removals[upto - 1].package(),
                removals[upto - 1].line(),
                explain,
            )
        }
    }
}

/// Records and removals that say the same give the same tally.
pub proof fn lemma_same_tally<'a, L: Log<'a>, V: Removal>(
    tally: Tally,
    logs: Seq<L>,
    removals: Seq<V>,
    upto: int,
    explain: bool,
)
    requires
        upto <= logs.len() == removals.len(),
        forall|k: int|
            0 <= k < logs.len() ==> (#[trigger] logs[k]).filename_text() == removals[k].file()
                && logs[k].package_name_text() == removals[k].package() && logs[k].message_text()
                == removals[k].line(),
    ensures
        tally.with_logs(logs, upto, explain) == tally.with_removals(removals, upto, explain),
    decreases upto,
{
    if upto > 0 {
        lemma_same_tally(tally, logs, removals, upto - 1, explain);
    }
}

/// Takes the records of a round down: a record whose file was not removed
/// before counts as a removal, its file is noted as removed, and its
/// package's name is noted for the next round of the unresolvables pass.
/// With `explain`, the line of each such record is handed back.
pub fn perform_round<'a, L: Log<'a>>(
    logs: &Vec<L>,
    removed_filenames: &mut NameSet<'a>,
    removed_package_names: &mut NameSet<'a>,
    explain: bool,
) -> (res: RoundSummary)
    requires
        old(removed_filenames).wf(),
        old(removed_package_names).wf(),
    ensures
        final(removed_filenames).wf(),
        final(removed_package_names).wf(),
        ({
            let before = Tally {
                removed: old(removed_filenames)@,
                names: old(removed_package_names)@,
                lines: Seq::empty(),
            };
            let after = before.with_logs(logs@, logs.len() as int, explain);
            &&& final(removed_filenames)@ == after.removed
            &&& final(removed_package_names)@ == after.names
            &&& res.explanations@.map_values(|line: String| line@) == after.lines
            &&& res.removal_count == after.removed.len() - before.removed.len()
        }),
{
    let ghost before = Tally {
        removed: removed_filenames@,
        names: removed_package_names@,
        lines: Seq::empty(),
    };
    let mut removal_count: usize = 0;
    let mut explanations: Vec<String> = Vec::new();
    let mut i: usize = 0;
    proof {
        assert(explanations@.map_values(|line: String| line@) =~= before.lines);
    }
    while i < logs.len()
        invariant
            i <= logs.len(),
            removed_filenames.wf(),
            removed_package_names.wf(),
            removal_count <= i,
            ({
                let after = before.with_logs(logs@, i as int, explain);
                &&& removed_filenames@ == after.removed
                &&& removed_package_names@ == after.names
                &&& explanations@.map_values(|line: String| line@) == after.lines
                &&& removal_count == after.removed.len() - before.removed.len()
            }),
        decreases logs.len() - i,
    {
        let log_entry = &logs[i];
        let ghost lines_before = explanations@;
        if removed_filenames.insert(log_entry.filename()) {
            removal_count = removal_count + 1;
            if explain {
                explanations.push(log_entry.message());
                proof {
                    assert(explanations@.map_values(|line: String| line@) =~= lines_before.map_values(
                        |line: String| line@,
                    ).push(log_entry.message_text()));
                }
            }
            removed_package_names.insert(log_entry.package_name());
        }
        i = i + 1;
    }
    RoundSummary { removal_count, explanations }
}

/// A round of the pipeline: what it was, and how many packages it removed
/// that had not been removed before.
pub struct Round {
    pub label: String,
    pub removal_count: usize,
}

/// `Round` as plain values.
pub struct RoundView {
    pub label: Seq<char>,
    pub removal_count: nat,
}

impl View for Round {
    type V = RoundView;

    open spec fn view(&self) -> RoundView {
        RoundView { label: self.label@, removal_count: self.removal_count as nat }
    }
}

/// The books of a run: the files removed, the package names noted for the
/// unresolvables pass, the rounds run, and the lines that explain the
/// removals.
pub struct Ledger<'a> {
    pub removed_filenames: NameSet<'a>,
    pub next_round: NameSet<'a>,
    pub rounds: Vec<Round>,
    pub explanations: Vec<String>,
    pub explain: bool,
}

/// `Ledger` as plain values.
#[verifier::ext_equal]
pub struct LedgerView {
    pub removed: Seq<Seq<char>>,
    pub next_round: Seq<Seq<char>>,
    pub rounds: Seq<RoundView>,
    pub lines: Seq<Seq<char>>,
    pub explain: bool,
}

impl<'a> View for Ledger<'a> {
    type V = LedgerView;

    open spec fn view(&self) -> LedgerView {
        LedgerView {
            removed: self.removed_filenames@,
            next_round: self.next_round@,
            rounds: self.rounds@.map_values(|round: Round| round@),
            lines: self.explanations@.map_values(|line: String| line@),
            explain: self.explain,
        }
    }
}

impl LedgerView {
    /// Empty books.
    pub open spec fn new(explain: bool) -> LedgerView {
        LedgerView {
            removed: Seq::empty(),
            next_round: Seq::empty(),
            rounds: Seq::empty(),
            lines: Seq::empty(),
            explain,
        }
    }

    /// The books after a round under `label` that left `removals`.
    pub open spec fn noted<V: Removal>(self, label: Seq<char>, removals: Seq<V>) -> LedgerView {
        let before = Tally { removed: self.removed, names: self.next_round, lines: Seq::empty() };
        let after = before.with_removals(removals, removals.len() as int, self.explain);
        LedgerView {
            removed: after.removed,
            next_round: after.names,
            rounds: self.rounds.push(
                RoundView {
                    label,
                    removal_count: (after.removed.len() - before.removed.len()) as nat,
                },
            ),
            lines: self.lines + after.lines,
            explain: self.explain,
        }
    }
}

impl<'a> Ledger<'a> {
    /// The name sets are in order.
    pub open spec fn wf(&self) -> bool {
        self.removed_filenames.wf() && self.next_round.wf()
    }

    /// Empty books.
    pub fn new(explain: bool) -> (res: Ledger<'a>)
        ensures
            res.wf(),
            res@ == LedgerView::new(explain),
    {
        let res = Ledger {
            removed_filenames: NameSet::new(),
            next_round: NameSet::new(),
            rounds: Vec::new(),
            explanations: Vec::new(),
            explain,
        };
        assert(res@ =~= LedgerView::new(explain));
        res
    }

    /// Enters a round under `label` that left `logs`.
    pub(crate) fn note<L>(&mut self, label: String, logs: &Vec<L>) where L: Log<'a> + View, L::V: Removal
        requires
            old(self).wf(),
            forall|k: int|
                0 <= k < logs.len() ==> (#[trigger] logs[k]).filename_text() == logs[k]@.file()
                    && logs[k].package_name_text() == logs[k]@.package() && logs[k].message_text()
                    == logs[k]@.line(),
        ensures
            final(self).wf(),
            final(self)@ == old(self)@.noted(label@, views(logs@)),
    {
        let ghost removals = views(logs@);
        let ghost before = Tally {
            removed: self.removed_filenames@,
            names: self.next_round@,
            lines: Seq::empty(),
        };
        let ghost lines_before = self.explanations@;
        let ghost rounds_before = self.rounds@;
        proof {
            lemma_same_tally(before, logs@, removals, logs.len() as int, self.explain);
        }
        let mut summary = perform_round(
            logs,
            &mut self.removed_filenames,
            &mut self.next_round,
            self.explain,
        );
        let ghost fresh = summary.explanations@;
        self.rounds.push(Round { label, removal_count: summary.removal_count });
        self.explanations.append(&mut summary.explanations);
        proof {
            assert(self.explanations@.map_values(|line: String| line@) =~= lines_before.map_values(
                |line: String| line@,
            ) + fresh.map_values(|line: String| line@));
            assert(self.rounds@.map_values(|round: Round| round@) =~= rounds_before.map_values(
                |round: Round| round@,
            ).push(RoundView { label: label@, removal_count: summary.removal_count as nat }));
        }
    }
}

} // verus!
