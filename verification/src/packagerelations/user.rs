//! The user-constraints pass: of the packages of a constrained name, those
//! stay that at least one of the name's constraints admits.

use vstd::prelude::*;

use crate::conda::accepts;
use crate::conda::constraint_admits;
use crate::conda::Constraint;
use crate::logs::RemovedByUserLog;
use crate::logs::RemovedByUserView;
use crate::matchspecyaml::UserMatchspecs;
use crate::matchspecyaml::UserMatchspecView;
use crate::packagerelations::graph::PackageRelations;
use crate::packagerelations::model::RelationsView;
use crate::packagerelations::select::chosen;
use crate::packagerelations::select::lemma_carries_on_further;
use crate::packagerelations::select::lemma_chosen_skip;
use crate::packagerelations::select::views;
use crate::record::PackageRecord;
use crate::record::PackageRecordView;

verus! {

/// The texts of `specs`, in order.
pub open spec fn texts(specs: Seq<&str>) -> Seq<Seq<char>> {
    specs.map_values(|spec: &str| spec@)
}

/// Whether at least one of `specs` admits `record`.
pub open spec fn any_accepts(specs: Seq<Seq<char>>, record: PackageRecordView) -> bool {
    exists|k: int| 0 <= k < specs.len() && accepts(#[trigger] specs[k], record)
}

impl RelationsView {
    /// Whether the package `id` falls to the constraints `specs` on `name`:
    /// it has that name, is not removed yet, and none of the constraints
    /// admits it.
    pub open spec fn falls(self, name: Seq<char>, specs: Seq<Seq<char>>, id: int) -> bool {
        &&& 0 <= id < self.packages.len()
        &&& self.packages[id].record.name == name
        &&& !self.removed[id]
        &&& !any_accepts(specs, self.packages[id].record)
    }

    /// For each package, whether it is one of those from `start` on of
    /// which `admitted` speaks, is not removed yet, and is not admitted.
    pub open spec fn unadmitted(self, start: int, admitted: Seq<bool>) -> Seq<bool> {
        Seq::new(
            self.packages.len(),
            |id: int|
                start <= id < start + admitted.len() && !self.removed[id] && !admitted[id - start],
        )
    }

    /// For each package, whether it falls to the constraints `specs` on
    /// `name`.
    pub open spec fn fallen(self, name: Seq<char>, specs: Seq<Seq<char>>) -> Seq<bool> {
        Seq::new(self.packages.len(), |id: int| self.falls(name, specs, id))
    }

    /// The record of the removal of the package `id` by the user's
    /// constraints.
    pub open spec fn by_user_log(self, id: int) -> RemovedByUserView {
        RemovedByUserView {
            filename: self.packages[id].filename,
            package_name: self.packages[id].record.name,
        }
    }

    /// The records of the removal of the packages `ids`, in order.
    pub open spec fn by_user_logs(self, ids: Seq<int>) -> Seq<RemovedByUserView> {
        ids.map_values(|id: int| self.by_user_log(id))
    }

    /// The graph after the first `upto` of the user's entries have been
    /// applied, one after the other.
    pub open spec fn after_user(self, user: Seq<UserMatchspecView>, upto: int) -> RelationsView
        decreases upto,
    {
        if upto <= 0 {
            self
        } else {
            let before = self.after_user(user, upto - 1);
            before.without(before.fallen(user[upto - 1].package_name, user[upto - 1].specs))
        }
    }

    /// The records of the removals that the first `upto` of the user's
    /// entries cause: entry by entry, each entry's in ascending order of
    /// the packages.
    pub open spec fn user_logs(self, user: Seq<UserMatchspecView>, upto: int) -> Seq<
        RemovedByUserView,
    >
        decreases upto,
    {
        if upto <= 0 {
            Seq::empty()
        } else {
            let before = self.after_user(user, upto - 1);
            self.user_logs(user, upto - 1) + before.by_user_logs(
                chosen(
                    before.fallen(user[upto - 1].package_name, user[upto - 1].specs),
                    before.packages.len() as int,
                ),
            )
        }
    }
}

/// Whether at least one of `specs` admits `record`.
pub fn matches_any(specs: &Vec<&Constraint>, record: &PackageRecord) -> (res: bool)
    ensures
        res == any_accepts(views(specs@), record@),
{
    let mut k: usize = 0;
    while k < specs.len()
        invariant
            k <= specs.len(),
            forall|j: int| 0 <= j < k ==> !accepts(#[trigger] views(specs@)[j], record@),
        decreases specs.len() - k,
    {
        assert(views(specs@)[k as int] == specs[k as int]@);
        match constraint_admits(specs[k], record) {
            Some(true) => {
                return true;
            },
            _ => {},
        }
        k = k + 1;
    }
    false
}

impl<'a> PackageRelations<'a> {
    /// Removes, of the packages from `start` on of which `admitted` speaks,
    /// those that are not removed yet and not admitted, and hands back a
    /// record of each, in ascending order of the packages.
    pub fn remove_unadmitted(&mut self, start: usize, admitted: &Vec<bool>) -> (result: Vec<
        RemovedByUserLog<'a>,
    >)
        requires
            old(self).wf(),
            start + admitted.len() <= old(self)@.packages.len(),
        ensures
            final(self).wf(),
            old(self)@.carries_on(final(self)@),
            final(self)@ == old(self)@.without(old(self)@.unadmitted(start as int, admitted@)),
            views(result@) == old(self)@.by_user_logs(
                chosen(
                    old(self)@.unadmitted(start as int, admitted@),
                    old(self)@.packages.len() as int,
                ),
            ),
    {
        let mut result: Vec<RemovedByUserLog<'a>> = Vec::new();
        let ghost was = self@;
        let ghost marks = was.unadmitted(start as int, admitted@);
        let ghost n = was.packages.len() as int;
        let count = self.len();
        assert(start + admitted.len() <= count);
        let end: usize = start + admitted.len();
        proof {
            self.lemma_valid();
            lemma_chosen_skip(marks, 0, start as int);
            assert(self@ =~= (RelationsView {
                removed: Seq::new(
                    n as nat,
                    |id: int| was.removed[id] || (id < start && marks[id]),
                ),
                ..was
            }));
            assert(views(result@) =~= was.by_user_logs(chosen(marks, start as int)));
        }
        let mut index: usize = start;
        while index < end
            invariant
                start <= index <= end <= n,
                end == start + admitted.len(),
                n == was.packages.len(),
                was.dense(),
                marks == was.unadmitted(start as int, admitted@),
                self.wf(),
                self@ == (RelationsView {
                    removed: Seq::new(
                        n as nat,
                        |id: int| was.removed[id] || (id < index && marks[id]),
                    ),
                    ..was
                }),
                views(result@) == was.by_user_logs(chosen(marks, index as int)),
            decreases end - index,
        {
            let ghost logged = result@;
            if !self.is_removed(index) && !admitted[index - start] {
                let md = self.metadata(index);
                self.mark_removed(index);
                result.push(
                    RemovedByUserLog {
                        package_name: md.package_record.name.as_str(),
                        filename: md.filename,
                    },
                );
                proof {
                    assert(marks[index as int]);
                    assert(views(result@) =~= views(logged).push(was.by_user_log(index as int)));
                }
            }
            proof {
                assert(self@ =~= (RelationsView {
                    removed: Seq::new(
                        n as nat,
                        |id: int| was.removed[id] || (id < index + 1 && marks[id]),
                    ),
                    ..was
                }));
                assert(views(result@) =~= was.by_user_logs(chosen(marks, index + 1)));
            }
            index = index + 1;
        }
        proof {
            lemma_chosen_skip(marks, end as int, n);
            assert(self@ =~= was.without(marks));
        }
        result
    }

    /// Removes the packages named `package_name` that are not removed yet
    /// and that none of `specs` admits, and hands back a record of each, in
    /// ascending order of the packages.
    pub fn apply_matchspecs(&mut self, package_name: &str, specs: &Vec<&Constraint>) -> (result: Vec<
        RemovedByUserLog<'a>,
    >)
        requires
            old(self).wf(),
        ensures
            final(self).wf(),
            old(self)@.carries_on(final(self)@),
            final(self)@ == old(self)@.without(old(self)@.fallen(package_name@, views(specs@))),
            views(result@) == old(self)@.by_user_logs(
                chosen(
                    old(self)@.fallen(package_name@, views(specs@)),
                    old(self)@.packages.len() as int,
                ),
            ),
    {
        let (start, end) = self.mkrange(package_name);
        let ghost was = self@;
        proof {
            self.lemma_valid();
        }
        // Which packages of the name a constraint admits. Of a package that
        // is removed already nothing is asked.
        let mut admitted: Vec<bool> = Vec::new();
        let mut index: usize = start;
        while index < end
            invariant
                start <= index <= end <= was.packages.len(),
                self@ == was,
                was.dense(),
                    admitted.len() == index - start,
                forall|k: int|
                    0 <= k < admitted.len() ==> #[trigger] admitted[k] == (was.removed[start + k]
                        || any_accepts(views(specs@), was.packages[start + k].record)),
            decreases end - index,
        {
            if self.is_removed(index) {
                admitted.push(true);
            } else {
                admitted.push(matches_any(specs, self.metadata(index).package_record));
            }
            index = index + 1;
        }
        proof {
            assert(was.unadmitted(start as int, admitted@) =~= was.fallen(
                package_name@,
                views(specs@),
            ));
        }
        self.remove_unadmitted(start, &admitted)
    }

    /// Applies the user's constraints, entry by entry: of the packages of
    /// an entry's name that are not removed yet, those are removed that
    /// none of the entry's constraints admits.
    pub fn apply_user_matchspecs(&mut self, user_matchspecs: &UserMatchspecs) -> (result: Vec<
        RemovedByUserLog<'a>,
    >)
        requires
            old(self).wf(),
        ensures
            final(self).wf(),
            old(self)@.carries_on(final(self)@),
            final(self)@ == old(self)@.after_user(user_matchspecs@, user_matchspecs@.len() as int),
            views(result@) == old(self)@.user_logs(user_matchspecs@, user_matchspecs@.len() as int),
    {
        let mut result: Vec<RemovedByUserLog<'a>> = Vec::new();
        let ghost was = self@;
        let ghost user = user_matchspecs@;
        proof {
            assert(views(result@) =~= was.user_logs(user, 0));
        }
        let mut i: usize = 0;
        while i < user_matchspecs.len()
            invariant
                i <= user.len(),
                user == user_matchspecs@,
                self.wf(),
                was.carries_on(self@),
                self@ == was.after_user(user, i as int),
                views(result@) == was.user_logs(user, i as int),
            decreases user.len() - i,
        {
            let entry = user_matchspecs.entry(i);
            let mut spec_arg: Vec<&Constraint> = Vec::new();
            let mut k: usize = 0;
            while k < entry.specs.len()
                invariant
                    k <= entry.specs.len(),
                    spec_arg.len() == k,
                    forall|j: int| 0 <= j < k ==> (#[trigger] spec_arg[j])@ == entry.specs[j]@,
                decreases entry.specs.len() - k,
            {
                spec_arg.push(&entry.specs[k]);
                k = k + 1;
            }
            proof {
                assert(views(spec_arg@) =~= entry@.specs);
                self.lemma_valid();
            }
            let ghost logged = result@;
            let ghost before = self@;
            let mut logs = self.apply_matchspecs(entry.package_name.as_str(), &spec_arg);
            let ghost fresh = logs@;
            result.append(&mut logs);
            proof {
                assert(views(result@) =~= views(logged) + views(fresh));
                lemma_carries_on_further(was, before, self@);
            }
            i = i + 1;
        }
        result
    }
}

} // verus!
