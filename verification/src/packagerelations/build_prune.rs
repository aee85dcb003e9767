//! The build-prune pass: of the builds of one version of a package that
//! differ only in their build number, those with the highest number stay.

use vstd::prelude::*;
use vstd::string::StrSliceExecFns;

use crate::logs::RemovedBySupercedingBuildLog;
use crate::logs::RemovedBySupercedingBuildView;
use crate::packagerelations::graph::PackageRelations;
use crate::packagerelations::model::RelationsView;
use crate::packagerelations::select::chosen;
use crate::packagerelations::select::lemma_chosen_members;
use crate::packagerelations::select::views;
use crate::pattern::regex_search;
use crate::pattern::search;
use crate::record::PackageRecord;
use crate::record::PackageRecordView;
use crate::text::decimal;
use crate::text::decimal_string;
use crate::text::ends_with;
use crate::text::str_eq;

verus! {

/// The pattern of the build strings that take part: a hash segment, `h` and
/// seven letters or digits, then something, then a digit.
pub open spec fn build_pattern() -> Seq<char> {
    ".*h[A-Za-z0-9]{7}.+\\d"@
}

/// Whether a record takes part in the pass: its build string holds the
/// pattern.
pub open spec fn takes_part(record: PackageRecordView) -> bool {
    regex_search(build_pattern(), record.build) == Some(true)
}

/// A record's build string without the build number at its end, if it ends
/// with it.
pub open spec fn stripped_build(record: PackageRecordView) -> Seq<char> {
    let number = decimal(record.build_number as nat);
    if number.is_suffix_of(record.build) {
        record.build.take(record.build.len() - number.len())
    } else {
        record.build
    }
}

/// Whether two records are builds of one version of one package that differ
/// at most in their build number.
pub open spec fn same_build(a: PackageRecordView, b: PackageRecordView) -> bool {
    a.name == b.name && a.version == b.version && stripped_build(a) == stripped_build(b)
}

/// Where the group of the record at `at` begins: the records from there to
/// `at` are the same build, each as the next.
pub open spec fn run_start(records: Seq<PackageRecordView>, at: int) -> int
    decreases at,
{
    if at <= 0 {
        0
    } else if same_build(records[at - 1], records[at]) {
        run_start(records, at - 1)
    } else {
        at
    }
}

/// Where the group of the record at `at` ends: the position after its last
/// record.
pub open spec fn run_end(records: Seq<PackageRecordView>, at: int) -> int
    decreases records.len() - at,
{
    if at + 1 >= records.len() {
        records.len() as int
    } else if same_build(records[at], records[at + 1]) {
        run_end(records, at + 1)
    } else {
        at + 1
    }
}

/// The highest build number among the records from `from` up to `to`.
pub open spec fn max_build(records: Seq<PackageRecordView>, from: int, to: int) -> u64
    decreases to - from,
{
    if from >= to {
        0
    } else {
        let rest = max_build(records, from, to - 1);
        if records[to - 1].build_number > rest {
            records[to - 1].build_number
        } else {
            rest
        }
    }
}

/// The highest build number in the group of the record at `at`.
pub open spec fn group_max(records: Seq<PackageRecordView>, at: int) -> u64 {
    max_build(records, run_start(records, at), run_end(records, at))
}

/// Whether the record at `at` is superseded: its group holds a higher
/// build number than its own.
pub open spec fn superseded(records: Seq<PackageRecordView>, at: int) -> bool {
    records[at].build_number < group_max(records, at)
}

impl RelationsView {
    /// For each package, whether it takes part in the pass.
    pub open spec fn taking_part(self) -> Seq<bool> {
        Seq::new(self.packages.len(), |id: int| takes_part(self.packages[id].record))
    }

    /// The packages that take part, in ascending order.
    pub open spec fn participants(self) -> Seq<int> {
        chosen(self.taking_part(), self.packages.len() as int)
    }

    /// The records of the packages that take part, in the same order.
    pub open spec fn participant_records(self) -> Seq<PackageRecordView> {
        self.participants().map_values(|id: int| self.packages[id].record)
    }

    /// For each package, whether it is one of the first `upto` participants
    /// and superseded.
    pub open spec fn superseded_upto(self, upto: int) -> Seq<bool> {
        Seq::new(
            self.packages.len(),
            |id: int|
                exists|at: int|
                    0 <= at < upto && at < self.participants().len()
                        && #[trigger] self.participants()[at] == id && superseded(
                        self.participant_records(),
                        at,
                    ),
        )
    }

    /// For each package, whether it takes part and is superseded.
    pub open spec fn all_superseded(self) -> Seq<bool> {
        self.superseded_upto(self.participants().len() as int)
    }

    /// The record of the removal of the participant at `at`.
    pub open spec fn superseded_log(self, at: int) -> RemovedBySupercedingBuildView {
        let id = self.participants()[at];
        RemovedBySupercedingBuildView {
            filename: self.packages[id].filename,
            package_name: self.packages[id].record.name,
            build_number: group_max(self.participant_records(), at),
        }
    }

    /// The records of the removal of the superseded ones among the first
    /// `upto` participants, in order.
    pub open spec fn superseded_logs(self, upto: int) -> Seq<RemovedBySupercedingBuildView>
        decreases upto,
    {
        if upto <= 0 {
            Seq::empty()
        } else if superseded(self.participant_records(), upto - 1) {
            self.superseded_logs(upto - 1).push(self.superseded_log(upto - 1))
        } else {
            self.superseded_logs(upto - 1)
        }
    }
}

/// In a stretch of records of which each is the same build as the next,
/// which begins where a group begins and ends where one ends, every
/// record's group is the stretch.
pub proof fn lemma_run(records: Seq<PackageRecordView>, from: int, to: int, at: int)
    requires
        0 <= from <= at < to <= records.len(),
        from == 0 || !same_build(records[from - 1], records[from]),
        to == records.len() || !same_build(records[to - 1], records[to]),
        forall|k: int| from <= k < to - 1 ==> same_build(#[trigger] records[k], records[k + 1]),
    ensures
        run_start(records, at) == from,
        run_end(records, at) == to,
{
    lemma_run_start(records, from, at);
    lemma_run_end(records, to, at);
}

proof fn lemma_run_start(records: Seq<PackageRecordView>, from: int, at: int)
    requires
        0 <= from <= at < records.len(),
        from == 0 || !same_build(records[from - 1], records[from]),
        forall|k: int| from <= k < at ==> same_build(#[trigger] records[k], records[k + 1]),
    ensures
        run_start(records, at) == from,
    decreases at - from,
{
    if from < at {
        assert(same_build(records[at - 1], records[at - 1 + 1]));
        lemma_run_start(records, from, at - 1);
    }
}

proof fn lemma_run_end(records: Seq<PackageRecordView>, to: int, at: int)
    requires
        0 <= at < to <= records.len(),
        to == records.len() || !same_build(records[to - 1], records[to]),
        forall|k: int| at <= k < to - 1 ==> same_build(#[trigger] records[k], records[k + 1]),
    ensures
        run_end(records, at) == to,
    decreases to - at,
{
    if at + 1 < to {
        assert(same_build(records[at], records[at + 1]));
        lemma_run_end(records, to, at + 1);
    }
}

/// The highest build number of a stretch is none of its records' lesser.
pub proof fn lemma_max_build(records: Seq<PackageRecordView>, from: int, to: int, at: int)
    requires
        0 <= from <= at < to <= records.len(),
    ensures
        records[at].build_number <= max_build(records, from, to),
    decreases to - from,
{
    if at < to - 1 {
        lemma_max_build(records, from, to - 1, at);
    }
}

/// A record's group is around it.
pub proof fn lemma_group_bounds(records: Seq<PackageRecordView>, at: int)
    requires
        0 <= at < records.len(),
    ensures
        0 <= run_start(records, at) <= at < run_end(records, at) <= records.len(),
{
    lemma_run_start_bounds(records, at);
    lemma_run_end_bounds(records, at);
}

proof fn lemma_run_start_bounds(records: Seq<PackageRecordView>, at: int)
    requires
        0 <= at < records.len(),
    ensures
        0 <= run_start(records, at) <= at,
    decreases at,
{
    if at > 0 && same_build(records[at - 1], records[at]) {
        lemma_run_start_bounds(records, at - 1);
    }
}

proof fn lemma_run_end_bounds(records: Seq<PackageRecordView>, at: int)
    requires
        0 <= at < records.len(),
    ensures
        at < run_end(records, at) <= records.len(),
    decreases records.len() - at,
{
    if at + 1 < records.len() && same_build(records[at], records[at + 1]) {
        lemma_run_end_bounds(records, at + 1);
    }
}

/// A record's build string without the build number at its end.
pub fn strip_build_number<'a>(record: &'a PackageRecord) -> (res: &'a str)
    ensures
        res@ == stripped_build(record@),
{
    let number = decimal_string(record.build_number);
    let build: &'a str = record.build.as_str();
    if ends_with(build, number.as_str()) {
        let length = build.unicode_len();
        let digits = number.as_str().unicode_len();
        build.substring_char(0, length - digits)
    } else {
        build
    }
}

/// The text of `build_pattern`.
fn build_pattern_text() -> (res: &'static str)
    ensures
        res@ == build_pattern(),
{
    ".*h[A-Za-z0-9]{7}.+\\d"
}

/// The records as plain values.
pub open spec fn record_views(records: Seq<&PackageRecord>) -> Seq<PackageRecordView> {
    records.map_values(|record: &PackageRecord| record@)
}

/// The build number that supersedes the record at `at`, if one does: the
/// highest of its group.
pub open spec fn superseding(records: Seq<PackageRecordView>, at: int) -> Option<u64> {
    if superseded(records, at) {
        Some(group_max(records, at))
    } else {
        None
    }
}

/// Where the group that begins at `from` ends, and the group's highest
/// build number.
fn group_end(records: &Vec<&PackageRecord>, builds: &Vec<&str>, from: usize) -> (res: (usize, u64))
    requires
        from < records.len(),
        records.len() == builds.len(),
        forall|k: int|
            0 <= k < builds.len() ==> (#[trigger] builds[k])@ == stripped_build(
                record_views(records@)[k],
            ),
    ensures
        from < res.0 <= records.len(),
        forall|k: int|
            from <= k < res.0 - 1 ==> same_build(
                #[trigger] record_views(records@)[k],
                record_views(records@)[k + 1],
            ),
        res.0 == records.len() || !same_build(
            record_views(records@)[res.0 - 1],
            record_views(records@)[res.0 as int],
        ),
        res.1 == max_build(record_views(records@), from as int, res.0 as int),
{
    let ghost all = record_views(records@);
    let mut to: usize = from + 1;
    let mut big: u64 = records[from].build_number;
    let mut open: bool = true;
    proof {
        assert(all[from as int] == records[from as int]@);
        assert(max_build(all, from as int, from as int) == 0);
    }
    while to < records.len() && open
        invariant
            from < to <= records.len(),
            records.len() == builds.len(),
            all == record_views(records@),
            forall|k: int| 0 <= k < builds.len() ==> (#[trigger] builds[k])@ == stripped_build(all[k]),
            forall|k: int| from <= k < to - 1 ==> same_build(#[trigger] all[k], all[k + 1]),
            big == max_build(all, from as int, to as int),
            !open ==> to < records.len() && !same_build(all[to - 1], all[to as int]),
        decreases records.len() - to + (if open {
            1int
        } else {
            0int
        }),
    {
        let last = records[to - 1];
        let next = records[to];
        assert(all[to - 1] == last@);
        assert(all[to as int] == next@);
        if last.name == next.name && last.version == next.version && str_eq(
            builds[to - 1],
            builds[to],
        ) {
            if next.build_number > big {
                big = next.build_number;
            }
            to = to + 1;
        } else {
            open = false;
        }
    }
    (to, big)
}

/// For each of `records`, taken in their order, the build number that
/// supersedes it, if one does: neighbours that are the same build but for
/// the build number form a group, and a record is superseded by the
/// highest build number of its group if its own is below that.
pub fn superseding_builds(records: &Vec<&PackageRecord>) -> (res: Vec<Option<u64>>)
    ensures
        res.len() == records.len(),
        forall|k: int|
            0 <= k < res.len() ==> #[trigger] res[k] == superseding(record_views(records@), k),
{
    let ghost all = record_views(records@);
    // What is left of each build string without its build number.
    let mut builds: Vec<&str> = Vec::new();
    let mut at: usize = 0;
    while at < records.len()
        invariant
            at <= records.len(),
            builds.len() == at,
            all == record_views(records@),
            forall|k: int| 0 <= k < at ==> (#[trigger] builds[k])@ == stripped_build(all[k]),
        decreases records.len() - at,
    {
        assert(all[at as int] == records[at as int]@);
        builds.push(strip_build_number(records[at]));
        at = at + 1;
    }
    let mut res: Vec<Option<u64>> = Vec::new();
    let mut from: usize = 0;
    while from < records.len()
        invariant
            from <= records.len(),
            records.len() == builds.len(),
            all == record_views(records@),
            forall|k: int| 0 <= k < builds.len() ==> (#[trigger] builds[k])@ == stripped_build(all[k]),
            from == 0 || from == records.len() || !same_build(all[from - 1], all[from as int]),
            res.len() == from,
            forall|k: int| 0 <= k < from ==> #[trigger] res[k] == superseding(all, k),
        decreases records.len() - from,
    {
        let (to, big) = group_end(records, &builds, from);
        let mut at: usize = from;
        while at < to
            invariant
                from <= at <= to <= records.len(),
                all == record_views(records@),
                from == 0 || !same_build(all[from - 1], all[from as int]),
                to == records.len() || !same_build(all[to - 1], all[to as int]),
                forall|k: int| from <= k < to - 1 ==> same_build(#[trigger] all[k], all[k + 1]),
                big == max_build(all, from as int, to as int),
                res.len() == at,
                forall|k: int| 0 <= k < at ==> #[trigger] res[k] == superseding(all, k),
            decreases to - at,
        {
            proof {
                lemma_run(all, from as int, to as int, at as int);
                assert(all[at as int] == records[at as int]@);
            }
            if records[at].build_number < big {
                res.push(Some(big));
            } else {
                res.push(None);
            }
            at = at + 1;
        }
        from = to;
    }
    res
}

impl<'a> PackageRelations<'a> {
    /// The packages that take part in the pass, in ascending order.
    fn participating(&self) -> (res: Vec<usize>)
        requires
            self.wf(),
        ensures
            res@.map_values(|id: usize| id as int) == self@.participants(),
    {
        let pattern = build_pattern_text();
        let mut res: Vec<usize> = Vec::new();
        let count = self.len();
        let ghost marks = self@.taking_part();
        let mut index: usize = 0;
        proof {
            assert(res@.map_values(|id: usize| id as int) =~= chosen(marks, 0));
        }
        while index < count
            invariant
                index <= count,
                count == self@.packages.len(),
                pattern@ == build_pattern(),
                marks == self@.taking_part(),
                res@.map_values(|id: usize| id as int) == chosen(marks, index as int),
            decreases count - index,
        {
            let ghost before = res@;
            let build = self.metadata(index).package_record.build.as_str();
            if let Some(true) = search(pattern, build) {
                res.push(index);
                proof {
                    assert(res@.map_values(|id: usize| id as int) =~= before.map_values(
                        |id: usize| id as int,
                    ).push(index as int));
                }
            }
            index = index + 1;
        }
        res
    }

    /// Removes the superseded builds: among the packages whose build string
    /// holds the pattern, taken in the order of the table, neighbours that
    /// are the same build but for the build number form a group, and of a
    /// group all go whose build number is below the group's highest.
    pub fn apply_build_prune(&mut self) -> (result: Vec<RemovedBySupercedingBuildLog<'a>>)
        requires
            old(self).wf(),
        ensures
            final(self).wf(),
            old(self)@.carries_on(final(self)@),
            final(self)@ == old(self)@.without(old(self)@.all_superseded()),
            views(result@) == old(self)@.superseded_logs(old(self)@.participants().len() as int),
    {
        let mut result: Vec<RemovedBySupercedingBuildLog<'a>> = Vec::new();
        let ghost was = self@;
        let ghost n = was.packages.len() as int;
        let packages = self.participating();
        let ghost part = was.participants();
        let ghost records = was.participant_records();
        proof {
            self.lemma_valid();
            lemma_chosen_members(was.taking_part(), n);
            assert(part.len() == packages.len());
            assert forall|at: int| 0 <= at < packages.len() implies part[at] == (
            #[trigger] packages[at]) as int by {
                assert(packages@.map_values(|id: usize| id as int)[at] == packages[at] as int);
            }
        }
        let mut taking_part: Vec<&'a PackageRecord> = Vec::new();
        let mut at: usize = 0;
        while at < packages.len()
            invariant
                at <= packages.len(),
                taking_part.len() == at,
                self@ == was,
                part == was.participants(),
                records == was.participant_records(),
                part.len() == packages.len(),
                forall|k: int| 0 <= k < packages.len() ==> 0 <= #[trigger] part[k] < n && part[k] == (
                packages[k]) as int,
                n == was.packages.len(),
                forall|k: int| 0 <= k < at ==> (#[trigger] taking_part[k])@ == records[k],
            decreases packages.len() - at,
        {
            assert(records[at as int] == was.packages[part[at as int]].record);
            taking_part.push(self.metadata(packages[at]).package_record);
            at = at + 1;
        }
        proof {
            assert(record_views(taking_part@) =~= records);
        }
        let verdicts = superseding_builds(&taking_part);
        let mut at: usize = 0;
        proof {
            assert(self@ =~= was.without(was.superseded_upto(0)));
            assert(views(result@) =~= was.superseded_logs(0));
        }
        while at < packages.len()
            invariant
                at <= packages.len(),
                n == was.packages.len(),
                was.dense(),
                part == was.participants(),
                records == was.participant_records(),
                part.len() == packages.len() == verdicts.len(),
                forall|k: int| 0 <= k < packages.len() ==> 0 <= #[trigger] part[k] < n && part[k] == (
                packages[k]) as int,
                forall|k: int|
                    0 <= k < verdicts.len() ==> #[trigger] verdicts[k] == superseding(records, k),
                self.wf(),
                self@ == was.without(was.superseded_upto(at as int)),
                views(result@) == was.superseded_logs(at as int),
            decreases packages.len() - at,
        {
            let pkg = self.metadata(packages[at]);
            let ghost logged = result@;
            let ghost before = self@;
            match verdicts[at] {
                Some(big) => {
                    self.mark_removed(packages[at]);
                    result.push(
                        RemovedBySupercedingBuildLog {
                            filename: pkg.filename,
                            package_name: pkg.package_record.name.as_str(),
                            build_number: big,
                        },
                    );
                    proof {
                        assert(views(result@) =~= views(logged).push(was.superseded_log(at as int)));
                    }
                },
                None => {},
            }
            proof {
                lemma_superseded_step(was, at as int);
                assert forall|id: int| 0 <= id < n implies self@.removed[id] == (was.removed[id]
                    || was.superseded_upto(at + 1)[id]) by {
                    assert(before.removed[id] == (was.removed[id] || was.superseded_upto(
                        at as int,
                    )[id]));
                    assert(was.superseded_upto(at + 1)[id] <==> (was.superseded_upto(at as int)[id]
                        || (id == part[at as int] && superseded(records, at as int))));
                }
                assert(self@.removed =~= was.without(was.superseded_upto(at + 1)).removed);
                assert(self@ =~= was.without(was.superseded_upto(at + 1)));
            }
            at = at + 1;
        }
        result
    }
}

/// A package is superseded among the first `at + 1` participants if it is
/// among the first `at`, or is the one at `at` and superseded.
pub proof fn lemma_superseded_step(was: RelationsView, at: int)
    requires
        0 <= at < was.participants().len(),
    ensures
        forall|id: int|
            0 <= id < was.packages.len() ==> (#[trigger] was.superseded_upto(at + 1)[id] <==> (
            was.superseded_upto(at)[id] || (id == was.participants()[at] && superseded(
                was.participant_records(),
                at,
            )))),
{
    let part = was.participants();
    let records = was.participant_records();
    assert forall|id: int| 0 <= id < was.packages.len() implies (#[trigger] was.superseded_upto(
        at + 1,
    )[id] <==> (was.superseded_upto(at)[id] || (id == part[at] && superseded(records, at)))) by {
        if was.superseded_upto(at + 1)[id] {
            let w = choose|w: int|
                0 <= w < at + 1 && w < part.len() && #[trigger] part[w] == id && superseded(
                    records,
                    w,
                );
            if w < at {
                assert(was.superseded_upto(at)[id]);
            }
        }
        if was.superseded_upto(at)[id] {
            let w = choose|w: int|
                0 <= w < at && w < part.len() && #[trigger] part[w] == id && superseded(records, w);
            assert(part[w] == id);
        }
        if id == part[at] && superseded(records, at) {
            assert(part[at] == id);
        }
    }
}

} // verus!
