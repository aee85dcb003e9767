//! The packages of an index, put in the order in which the graph takes
//! them: by name, then by version, then by file name.

use vstd::prelude::*;
use vstd::seq_lib::lemma_multiset_commutative;
use vstd::seq_lib::to_multiset_build;

use crate::order::order_versions;
use crate::order::version_order;
use crate::packagerelations::graph::PackageMetadata;
use crate::packagerelations::model::PackageView;
use crate::packagerelations::select::views;
use crate::record::PackageRecord;
use crate::text::lemma_text_order_carries;
use crate::text::lemma_text_order_dual;
use crate::text::lemma_text_order_equal;
use crate::text::order_texts;
use crate::text::Rank;
use crate::text::text_order;

verus! {

/// How the package `a` stands to the package `b`: by their names; where
/// those are equal, by their versions; where those are equal too, or one
/// of them cannot be read, by their file names.
pub open spec fn package_order(a: PackageView, b: PackageView) -> Rank {
    match text_order(a.record.name, b.record.name) {
        Rank::Equal => match version_order(a.record.version, b.record.version) {
            Some(Rank::Less) => Rank::Less,
            Some(Rank::Greater) => Rank::Greater,
            _ => text_order(a.filename, b.filename),
        },
        rank => rank,
    }
}

/// Whether `a` may stand directly before `b`: `a` does not come after `b`,
/// or `b` comes after `a`. Of an order in which each of two things comes
/// after the other neither of the two needs saying.
pub open spec fn may_precede(a: PackageView, b: PackageView) -> bool {
    package_order(a, b) != Rank::Greater || package_order(b, a) == Rank::Greater
}

/// Whether each of `packages` may stand before the next.
pub open spec fn in_order(packages: Seq<PackageView>) -> bool {
    forall|k: int|
        0 <= k < packages.len() - 1 ==> may_precede(#[trigger] packages[k], packages[k + 1])
}

/// The packages of an index as plain values.
pub open spec fn listed(packages: Seq<(String, PackageRecord)>) -> Seq<PackageView> {
    packages.map_values(
        |package: (String, PackageRecord)|
            PackageView { filename: package.0@, record: package.1@ },
    )
}

/// How the package `a` stands to the package `b`.
pub fn order_packages(a: PackageMetadata, b: PackageMetadata) -> (res: Rank)
    ensures
        res == package_order(a@, b@),
{
    match order_texts(a.package_record.name.as_str(), b.package_record.name.as_str()) {
        Rank::Equal => match order_versions(
            a.package_record.version.as_str(),
            b.package_record.version.as_str(),
        ) {
            Some(Rank::Less) => Rank::Less,
            Some(Rank::Greater) => Rank::Greater,
            _ => order_texts(a.filename, b.filename),
        },
        rank => rank,
    }
}

/// Two runs that are in order, as one run that is in order.
fn merge<'a>(left: Vec<PackageMetadata<'a>>, right: Vec<PackageMetadata<'a>>) -> (res: Vec<
    PackageMetadata<'a>,
>)
    requires
        in_order(views(left@)),
        in_order(views(right@)),
        left.len() + right.len() <= usize::MAX,
    ensures
        in_order(views(res@)),
        views(res@).to_multiset() == views(left@).to_multiset().add(views(right@).to_multiset()),
{
    let mut res: Vec<PackageMetadata<'a>> = Vec::with_capacity(left.len() + right.len());
    let mut i: usize = 0;
    let mut j: usize = 0;
    let ghost l = views(left@);
    let ghost r = views(right@);
    proof {
        broadcast use vstd::multiset::group_multiset_axioms;

        assert(views(res@) =~= Seq::<PackageView>::empty());
        assert(l.take(0) =~= Seq::<PackageView>::empty());
        assert(r.take(0) =~= Seq::<PackageView>::empty());
        vstd::seq_lib::to_multiset_len(Seq::<PackageView>::empty());
        vstd::multiset::lemma_multiset_empty_len(Seq::<PackageView>::empty().to_multiset());
        assert(views(res@).to_multiset() =~= l.take(0).to_multiset().add(r.take(0).to_multiset()));
    }
    while i < left.len() || j < right.len()
        invariant
            i <= left.len(),
            j <= right.len(),
            l == views(left@),
            r == views(right@),
            in_order(l),
            in_order(r),
            res.len() == i + j,
            in_order(views(res@)),
            views(res@).to_multiset() == l.take(i as int).to_multiset().add(
                r.take(j as int).to_multiset(),
            ),
            res.len() > 0 && i < left.len() ==> may_precede(views(res@).last(), l[i as int]),
            res.len() > 0 && j < right.len() ==> may_precede(views(res@).last(), r[j as int]),
        decreases left.len() - i + (right.len() - j),
    {
        let ghost before = views(res@);
        let from_left = if i == left.len() {
            false
        } else if j == right.len() {
            true
        } else {
            assert(l[i as int] == left[i as int]@);
            assert(r[j as int] == right[j as int]@);
            match order_packages(left[i], right[j]) {
                Rank::Greater => false,
                _ => true,
            }
        };
        if from_left {
            res.push(left[i]);
            proof {
                assert(l[i as int] == left[i as int]@);
                assert(views(res@) =~= before.push(l[i as int]));
                assert(l.take(i + 1) =~= l.take(i as int).push(l[i as int]));
                to_multiset_build(before, l[i as int]);
                to_multiset_build(l.take(i as int), l[i as int]);
                assert(views(res@).to_multiset() =~= l.take(i + 1).to_multiset().add(
                    r.take(j as int).to_multiset(),
                ));
            }
            i = i + 1;
        } else {
            res.push(right[j]);
            proof {
                assert(r[j as int] == right[j as int]@);
                assert(views(res@) =~= before.push(r[j as int]));
                assert(r.take(j + 1) =~= r.take(j as int).push(r[j as int]));
                to_multiset_build(before, r[j as int]);
                to_multiset_build(r.take(j as int), r[j as int]);
                assert(views(res@).to_multiset() =~= l.take(i as int).to_multiset().add(
                    r.take(j + 1).to_multiset(),
                ));
            }
            j = j + 1;
        }
    }
    proof {
        assert(l.take(i as int) =~= l);
        assert(r.take(j as int) =~= r);
    }
    res
}

/// `packages`, put in order by merging.
fn sort_packages<'a>(packages: Vec<PackageMetadata<'a>>) -> (res: Vec<PackageMetadata<'a>>)
    ensures
        in_order(views(res@)),
        views(res@).to_multiset() == views(packages@).to_multiset(),
    decreases packages.len(),
{
    if packages.len() <= 1 {
        return packages;
    }
    let middle: usize = packages.len() / 2;
    let mut left: Vec<PackageMetadata<'a>> = Vec::with_capacity(middle);
    let mut right: Vec<PackageMetadata<'a>> = Vec::with_capacity(packages.len() - middle);
    let mut at: usize = 0;
    while at < middle
        invariant
            at <= middle <= packages.len(),
            left@ == packages@.take(at as int),
        decreases middle - at,
    {
        left.push(packages[at]);
        proof {
            assert(left@ =~= packages@.take(at + 1));
        }
        at = at + 1;
    }
    while at < packages.len()
        invariant
            middle <= at <= packages.len(),
            right@ == packages@.subrange(middle as int, at as int),
        decreases packages.len() - at,
    {
        right.push(packages[at]);
        proof {
            assert(right@ =~= packages@.subrange(middle as int, at + 1));
        }
        at = at + 1;
    }
    proof {
        assert(packages@ =~= left@ + right@);
        assert(views(packages@) =~= views(left@) + views(right@));
        lemma_multiset_commutative(views(left@), views(right@));
    }
    let left = sort_packages(left);
    let right = sort_packages(right);
    proof {
        assert(views(left@).len() + views(right@).len() == packages.len()) by {
            vstd::seq_lib::to_multiset_len(views(left@));
            vstd::seq_lib::to_multiset_len(views(right@));
            vstd::seq_lib::to_multiset_len(views(packages@));
        }
    }
    merge(left, right)
}

/// The packages of an index in the order in which the graph takes them:
/// every package of `packages` once, each so that it may stand before the
/// next.
pub fn sorted_iter<'a>(packages: &'a Vec<(String, PackageRecord)>) -> (res: Vec<PackageMetadata<'a>>)
    ensures
        in_order(views(res@)),
        views(res@).to_multiset() == listed(packages@).to_multiset(),
{
    let mut everything: Vec<PackageMetadata<'a>> = Vec::with_capacity(packages.len());
    let mut at: usize = 0;
    while at < packages.len()
        invariant
            at <= packages.len(),
            views(everything@) == listed(packages@).take(at as int),
        decreases packages.len() - at,
    {
        let ghost before = everything@;
        everything.push(
            PackageMetadata { filename: packages[at].0.as_str(), package_record: &packages[at].1 },
        );
        proof {
            assert(views(everything@) =~= views(before).push(listed(packages@)[at as int]));
            assert(views(everything@) =~= listed(packages@).take(at + 1));
        }
        at = at + 1;
    }
    proof {
        assert(listed(packages@).take(at as int) =~= listed(packages@));
    }
    sort_packages(everything)
}

/// Whether the name of `a` does not come after the name of `b`.
pub open spec fn name_not_after(a: PackageView, b: PackageView) -> bool {
    text_order(a.record.name, b.record.name) != Rank::Greater
}

/// Of two packages of which the first may stand before the second, the
/// first's name does not come after the second's.
pub proof fn lemma_names_of_neighbours(a: PackageView, b: PackageView)
    requires
        may_precede(a, b),
    ensures
        name_not_after(a, b),
{
    lemma_text_order_dual(a.record.name, b.record.name);
}

/// In packages that are in order, no name comes after a later one.
pub proof fn lemma_names_in_order(packages: Seq<PackageView>, i: int, j: int)
    requires
        in_order(packages),
        0 <= i <= j < packages.len(),
    ensures
        name_not_after(packages[i], packages[j]),
    decreases j - i,
{
    if i == j {
        lemma_text_order_equal(packages[i].record.name, packages[j].record.name);
    } else {
        lemma_names_in_order(packages, i, j - 1);
        assert(may_precede(packages[j - 1], packages[j - 1 + 1]));
        lemma_names_of_neighbours(packages[j - 1], packages[j]);
        lemma_text_order_carries(
            packages[i].record.name,
            packages[j - 1].record.name,
            packages[j].record.name,
        );
    }
}

/// Packages that are in order keep the packages of one name together:
/// between two packages of one name stand packages of that name only.
pub proof fn lemma_names_together(packages: Seq<PackageView>, i: int, k: int, j: int)
    requires
        in_order(packages),
        0 <= i <= k <= j < packages.len(),
        packages[i].record.name == packages[j].record.name,
    ensures
        packages[k].record.name == packages[i].record.name,
{
    lemma_names_in_order(packages, i, k);
    lemma_names_in_order(packages, k, j);
    lemma_text_order_dual(packages[i].record.name, packages[k].record.name);
    lemma_text_order_equal(packages[i].record.name, packages[k].record.name);
}

} // verus!
