//! The two policy passes: packages that carry a banned feature go, and so
//! do development and release candidate versions where those are banned.

use vstd::hash_set::StringHashSet;
use vstd::prelude::*;
use vstd::string::StringExecFns;

use crate::conda::components_of_version;
use crate::conda::version_components;
use crate::conda::VersionComponent;
use crate::conda::VersionComponentView;
use crate::logs::RemovedByDevRcPolicyLog;
use crate::logs::RemovedByDevRcPolicyView;
use crate::logs::RemovedWithFeatureLog;
use crate::logs::RemovedWithFeatureView;
use crate::packagerelations::graph::PackageRelations;
use crate::packagerelations::model::RelationsView;
use crate::packagerelations::select::chosen;
use crate::packagerelations::select::lemma_chosen_skip;
use crate::packagerelations::select::views;
use crate::packagerelations::user::texts;
use crate::record::PackageRecord;
use crate::record::PackageRecordView;
use crate::text::starts_with;

verus! {

/// Whether a version component falls under the ban: it is the component
/// `dev` and those are banned, or it is a textual token that begins with
/// `rc` and those are banned.
pub open spec fn component_banned(part: VersionComponentView, ban_dev: bool, ban_rc: bool) -> bool {
    ||| ban_dev && part is Dev
    ||| ban_rc && (part matches VersionComponentView::Iden(token) && "rc"@.is_prefix_of(token))
}

/// Whether one of `parts` falls under the ban.
pub open spec fn any_component_banned(parts: Seq<VersionComponentView>, ban_dev: bool, ban_rc: bool) -> bool {
    exists|i: int| 0 <= i < parts.len() && component_banned(#[trigger] parts[i], ban_dev, ban_rc)
}

/// Whether a version falls under the ban: one of its components does. A
/// version that cannot be read has no components.
pub open spec fn version_banned(version: Seq<char>, ban_dev: bool, ban_rc: bool) -> bool {
    match version_components(version) {
        Some(parts) => any_component_banned(parts, ban_dev, ban_rc),
        None => false,
    }
}

/// The position of the first of `tags` that is among `banned`; the number
/// of tags where none is.
pub open spec fn first_banned(tags: Seq<Seq<char>>, banned: Seq<Seq<char>>) -> int
    decreases tags.len(),
{
    if tags.len() == 0 {
        0
    } else if banned.contains(tags[0]) {
        0
    } else {
        1 + first_banned(tags.drop_first(), banned)
    }
}

/// `first_banned` is the one position before which no tag is banned and at
/// which, if it lies among the tags, one is.
pub proof fn lemma_first_banned(tags: Seq<Seq<char>>, banned: Seq<Seq<char>>, k: int)
    requires
        0 <= k <= tags.len(),
        forall|j: int| 0 <= j < k ==> !banned.contains(#[trigger] tags[j]),
        k < tags.len() ==> banned.contains(tags[k]),
    ensures
        first_banned(tags, banned) == k,
    decreases tags.len(),
{
    if tags.len() == 0 {
    } else if k == 0 {
    } else {
        assert(!banned.contains(tags[0]));
        let rest = tags.drop_first();
        assert forall|j: int| 0 <= j < k - 1 implies !banned.contains(#[trigger] rest[j]) by {
            assert(rest[j] == tags[j + 1]);
        }
        lemma_first_banned(rest, banned, k - 1);
    }
}

/// The banned feature that a record carries: its feature tag, if that is
/// banned; else the first of its tracked features that is.
pub open spec fn banned_feature(record: PackageRecordView, banned: Seq<Seq<char>>) -> Option<
    Seq<char>,
> {
    if record.features matches Some(tag) && banned.contains(tag) {
        record.features
    } else {
        let at = first_banned(record.track_features, banned);
        if at < record.track_features.len() {
            Some(record.track_features[at])
        } else {
            None
        }
    }
}

impl RelationsView {
    /// For each package, whether its version falls under the ban.
    pub open spec fn prereleases(self, ban_dev: bool, ban_rc: bool) -> Seq<bool> {
        Seq::new(
            self.packages.len(),
            |id: int| version_banned(self.packages[id].record.version, ban_dev, ban_rc),
        )
    }

    /// The record of the removal of the package `id` by the policy on
    /// versions.
    pub open spec fn policy_log(self, id: int) -> RemovedByDevRcPolicyView {
        RemovedByDevRcPolicyView {
            filename: self.packages[id].filename,
            package_name: self.packages[id].record.name,
        }
    }

    /// The records of the removal of the packages `ids`, in order.
    pub open spec fn policy_logs(self, ids: Seq<int>) -> Seq<RemovedByDevRcPolicyView> {
        ids.map_values(|id: int| self.policy_log(id))
    }

    /// For each package, whether it carries a banned feature.
    pub open spec fn featured(self, banned: Seq<Seq<char>>) -> Seq<bool> {
        Seq::new(
            self.packages.len(),
            |id: int| banned_feature(self.packages[id].record, banned) is Some,
        )
    }

    /// The record of the removal of the package `id` for a banned feature.
    pub open spec fn feature_log(self, banned: Seq<Seq<char>>, id: int) -> RemovedWithFeatureView {
        RemovedWithFeatureView {
            filename: self.packages[id].filename,
            package_name: self.packages[id].record.name,
            feature: banned_feature(self.packages[id].record, banned).unwrap(),
        }
    }

    /// The records of the removal of the packages `ids` for banned
    /// features, in order.
    pub open spec fn feature_logs(self, banned: Seq<Seq<char>>, ids: Seq<int>) -> Seq<
        RemovedWithFeatureView,
    > {
        ids.map_values(|id: int| self.feature_log(banned, id))
    }
}

/// Whether one of the version components `parts` falls under the ban.
pub fn components_banned(parts: &Vec<VersionComponent>, ban_dev: bool, ban_rc: bool) -> (res: bool)
    ensures
        res == any_component_banned(
            parts@.map_values(|part: VersionComponent| part@),
            ban_dev,
            ban_rc,
        ),
{
    let ghost all = parts@.map_values(|part: VersionComponent| part@);
    let mut i: usize = 0;
    while i < parts.len()
        invariant
            i <= parts.len(),
            all == parts@.map_values(|part: VersionComponent| part@),
            forall|j: int| 0 <= j < i ==> !component_banned(#[trigger] all[j], ban_dev, ban_rc),
        decreases parts.len() - i,
    {
        assert(all[i as int] == parts[i as int]@);
        let hit = match &parts[i] {
            VersionComponent::Dev => ban_dev,
            VersionComponent::Iden(token) => ban_rc && starts_with(token.as_str(), "rc"),
            _ => false,
        };
        if hit {
            assert(component_banned(all[i as int], ban_dev, ban_rc));
            return true;
        }
        i = i + 1;
    }
    false
}

/// Whether the version `version` falls under the ban.
pub fn is_version_banned(version: &str, ban_dev: bool, ban_rc: bool) -> (res: bool)
    ensures
        res == version_banned(version@, ban_dev, ban_rc),
{
    match components_of_version(version) {
        None => false,
        Some(parts) => components_banned(&parts, ban_dev, ban_rc),
    }
}

/// The banned feature that `record` carries, if any.
fn find_banned_feature<'a>(
    record: &'a PackageRecord,
    features: &StringHashSet,
    Ghost(banned): Ghost<Seq<Seq<char>>>,
) -> (res: Option<&'a str>)
    requires
        forall|tag: Seq<char>| features@.contains(tag) <==> banned.contains(tag),
    ensures
        match res {
            Some(tag) => banned_feature(record@, banned) == Some(tag@),
            None => banned_feature(record@, banned) is None,
        },
{
    match &record.features {
        Some(feature) => {
            if features.contains(feature.as_str()) {
                return Some(feature.as_str());
            }
        },
        None => {},
    }
    let ghost tags = record@.track_features;
    let mut i: usize = 0;
    while i < record.track_features.len()
        invariant
            i <= record.track_features.len(),
            tags == record@.track_features,
            !(record@.features matches Some(tag) && banned.contains(tag)),
            forall|tag: Seq<char>| features@.contains(tag) <==> banned.contains(tag),
            forall|j: int| 0 <= j < i ==> !banned.contains(#[trigger] tags[j]),
        decreases record.track_features.len() - i,
    {
        assert(tags[i as int] == record.track_features[i as int]@);
        if features.contains(record.track_features[i].as_str()) {
            proof {
                lemma_first_banned(tags, banned, i as int);
            }
            return Some(record.track_features[i].as_str());
        }
        i = i + 1;
    }
    proof {
        lemma_first_banned(tags, banned, i as int);
    }
    None
}

impl<'a> PackageRelations<'a> {
    /// Removes the packages that carry one of the banned features: as their
    /// feature tag, or among their tracked features. Each such package
    /// leaves a record, in ascending order, that names the feature found.
    pub fn apply_feature_removal(&mut self, features: &Vec<&str>) -> (result: Vec<
        RemovedWithFeatureLog<'a>,
    >)
        requires
            old(self).wf(),
        ensures
            final(self).wf(),
            old(self)@.carries_on(final(self)@),
            final(self)@ == old(self)@.without(old(self)@.featured(texts(features@))),
            views(result@) == old(self)@.feature_logs(
                texts(features@),
                chosen(old(self)@.featured(texts(features@)), old(self)@.packages.len() as int),
            ),
    {
        let mut result: Vec<RemovedWithFeatureLog<'a>> = Vec::new();
        let ghost was = self@;
        let ghost banned = texts(features@);
        let ghost marks = was.featured(banned);
        let ghost n = was.packages.len() as int;
        proof {
            self.lemma_valid();
        }
        if features.len() == 0 {
            proof {
                assert forall|id: int| 0 <= id < n implies !marks[id] by {
                    lemma_nothing_banned(was.packages[id].record, banned);
                }
                lemma_chosen_skip(marks, 0, n);
                assert(self@ =~= was.without(marks));
                assert(views(result@) =~= was.feature_logs(banned, chosen(marks, n)));
            }
            return result;
        }
        let mut set = StringHashSet::new();
        let mut f: usize = 0;
        while f < features.len()
            invariant
                f <= features.len(),
                banned == texts(features@),
                forall|tag: Seq<char>|
                    set@.contains(tag) <==> exists|j: int| 0 <= j < f && #[trigger] banned[j] == tag,
            decreases features.len() - f,
        {
            assert(banned[f as int] == features[f as int]@);
            set.insert(String::from_str(features[f]));
            f = f + 1;
        }
        let count = self.len();
        let mut index: usize = 0;
        proof {
            assert(self@ =~= (RelationsView {
                removed: Seq::new(n as nat, |id: int| was.removed[id] || (id < 0 && marks[id])),
                ..was
            }));
            assert(views(result@) =~= was.feature_logs(banned, chosen(marks, 0)));
        }
        while index < count
            invariant
                index <= count,
                count == n,
                n == was.packages.len(),
                was.dense(),
                marks == was.featured(banned),
                forall|tag: Seq<char>| set@.contains(tag) <==> banned.contains(tag),
                self.wf(),
                self@ == (RelationsView {
                    removed: Seq::new(
                        n as nat,
                        |id: int| was.removed[id] || (id < index && marks[id]),
                    ),
                    ..was
                }),
                views(result@) == was.feature_logs(banned, chosen(marks, index as int)),
            decreases count - index,
        {
            let package = self.metadata(index);
            let ghost logged = result@;
            match find_banned_feature(package.package_record, &set, Ghost(banned)) {
                Some(feature) => {
                    self.mark_removed(index);
                    result.push(
                        RemovedWithFeatureLog {
                            filename: package.filename,
                            package_name: package.package_record.name.as_str(),
                            feature,
                        },
                    );
                    proof {
                        assert(marks[index as int]);
                        assert(views(result@) =~= views(logged).push(
                            was.feature_log(banned, index as int),
                        ));
                    }
                },
                None => {},
            }
            proof {
                assert(self@ =~= (RelationsView {
                    removed: Seq::new(
                        n as nat,
                        |id: int| was.removed[id] || (id < index + 1 && marks[id]),
                    ),
                    ..was
                }));
                assert(views(result@) =~= was.feature_logs(banned, chosen(marks, index + 1)));
            }
            index = index + 1;
        }
        proof {
            assert(self@ =~= was.without(marks));
        }
        result
    }

    /// Removes the packages whose version falls under the ban: with
    /// `ban_dev`, those with a component `dev`; with `ban_rc`, those with a
    /// textual component that begins with `rc`. Each such package leaves a
    /// record, in ascending order.
    pub fn apply_dev_rc_ban(&mut self, ban_dev: bool, ban_rc: bool) -> (result: Vec<
        RemovedByDevRcPolicyLog<'a>,
    >)
        requires
            old(self).wf(),
        ensures
            final(self).wf(),
            old(self)@.carries_on(final(self)@),
            final(self)@ == old(self)@.without(old(self)@.prereleases(ban_dev, ban_rc)),
            views(result@) == old(self)@.policy_logs(
                chosen(old(self)@.prereleases(ban_dev, ban_rc), old(self)@.packages.len() as int),
            ),
    {
        let mut result: Vec<RemovedByDevRcPolicyLog<'a>> = Vec::new();
        let ghost was = self@;
        let ghost marks = was.prereleases(ban_dev, ban_rc);
        let ghost n = was.packages.len() as int;
        proof {
            self.lemma_valid();
        }
        if !(ban_dev || ban_rc) {
            proof {
                lemma_chosen_skip(marks, 0, n);
                assert(self@ =~= was.without(marks));
                assert(views(result@) =~= was.policy_logs(chosen(marks, n)));
            }
            return result;
        }
        let count = self.len();
        let mut index: usize = 0;
        proof {
            assert(self@ =~= (RelationsView {
                removed: Seq::new(n as nat, |id: int| was.removed[id] || (id < 0 && marks[id])),
                ..was
            }));
            assert(views(result@) =~= was.policy_logs(chosen(marks, 0)));
        }
        while index < count
            invariant
                index <= count,
                count == n,
                n == was.packages.len(),
                was.dense(),
                marks == was.prereleases(ban_dev, ban_rc),
                self.wf(),
                self@ == (RelationsView {
                    removed: Seq::new(
                        n as nat,
                        |id: int| was.removed[id] || (id < index && marks[id]),
                    ),
                    ..was
                }),
                views(result@) == was.policy_logs(chosen(marks, index as int)),
            decreases count - index,
        {
            let package = self.metadata(index);
            let ghost logged = result@;
            if is_version_banned(package.package_record.version.as_str(), ban_dev, ban_rc) {
                self.mark_removed(index);
                result.push(
                    RemovedByDevRcPolicyLog {
                        filename: package.filename,
                        package_name: package.package_record.name.as_str(),
                    },
                );
                proof {
                    assert(marks[index as int]);
                    assert(views(result@) =~= views(logged).push(was.policy_log(index as int)));
                }
            }
            proof {
                assert(self@ =~= (RelationsView {
                    removed: Seq::new(
                        n as nat,
                        |id: int| was.removed[id] || (id < index + 1 && marks[id]),
                    ),
                    ..was
                }));
                assert(views(result@) =~= was.policy_logs(chosen(marks, index + 1)));
            }
            index = index + 1;
        }
        proof {
            assert(self@ =~= was.without(marks));
        }
        result
    }
}

/// Where nothing is banned, no record carries a banned feature.
pub proof fn lemma_nothing_banned(record: PackageRecordView, banned: Seq<Seq<char>>)
    requires
        banned.len() == 0,
    ensures
        banned_feature(record, banned) is None,
{
    lemma_first_banned(record.track_features, banned, record.track_features.len() as int);
}

} // verus!
