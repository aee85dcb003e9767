//! Marking packages and listing the marked ones in ascending order: the
//! shape that the passes' results share.

use vstd::prelude::*;

use crate::logs::Removal;
use crate::packagerelations::model::RelationsView;

verus! {

/// The views of `items`, in order.
pub open spec fn views<T: View>(items: Seq<T>) -> Seq<T::V> {
    items.map_values(|item: T| item@)
}

/// The positions below `upto` that `marks` marks, in ascending order.
pub open spec fn chosen(marks: Seq<bool>, upto: int) -> Seq<int>
    decreases upto,
{
    if upto <= 0 {
        Seq::empty()
    } else if upto <= marks.len() && marks[upto - 1] {
        chosen(marks, upto - 1).push(upto - 1)
    } else {
        chosen(marks, upto - 1)
    }
}

/// Where nothing is marked from `from` up to `to`, nothing is chosen there.
pub proof fn lemma_chosen_skip(marks: Seq<bool>, from: int, to: int)
    requires
        from <= to,
        forall|id: int| from <= id < to && 0 <= id < marks.len() ==> !marks[id],
    ensures
        chosen(marks, to) == chosen(marks, from),
    decreases to - from,
{
    if from < to {
        lemma_chosen_skip(marks, from, to - 1);
    }
}

/// The chosen positions are exactly the marked ones, in ascending order.
pub proof fn lemma_chosen_members(marks: Seq<bool>, upto: int)
    requires
        upto <= marks.len(),
    ensures
        forall|k: int|
            0 <= k < chosen(marks, upto).len() ==> 0 <= #[trigger] chosen(marks, upto)[k] < upto
                && marks[chosen(marks, upto)[k]],
        forall|id: int|
            0 <= id < upto && #[trigger] marks[id] ==> chosen(marks, upto).contains(id),
        forall|k: int, l: int|
            0 <= k < l < chosen(marks, upto).len() ==> #[trigger] chosen(marks, upto)[k]
                < #[trigger] chosen(marks, upto)[l],
    decreases upto,
{
    if upto > 0 {
        lemma_chosen_members(marks, upto - 1);
        let now = chosen(marks, upto);
        let before = chosen(marks, upto - 1);
        assert forall|id: int| 0 <= id < upto && #[trigger] marks[id] implies now.contains(id) by {
            if id < upto - 1 {
                assert(before.contains(id));
                let k = choose|k: int| 0 <= k < before.len() && before[k] == id;
                assert(now[k] == id);
            } else {
                assert(now[now.len() - 1] == id);
            }
        }
        assert forall|k: int, l: int| 0 <= k < l < now.len() implies #[trigger] now[k]
            < #[trigger] now[l] by {
            assert(now[k] == before[k]);
            if l < before.len() {
                assert(now[l] == before[l]);
            }
        }
    }
}

impl RelationsView {
    /// The graph with the packages that `marks` marks removed as well.
    pub open spec fn without(self, marks: Seq<bool>) -> RelationsView {
        RelationsView {
            removed: Seq::new(
                self.removed.len(),
                |id: int| self.removed[id] || (id < marks.len() && marks[id]),
            ),
            ..self
        }
    }

    /// A later state of the same graph: the same packages, ranges and
    /// names, the same edges by key and dependers; what was removed is
    /// still removed, and an edge that could not be met still cannot.
    pub open spec fn carries_on(self, later: RelationsView) -> bool {
        &&& later.packages == self.packages
        &&& later.ranges == self.ranges
        &&& later.names == self.names
        &&& later.removed.len() == self.removed.len()
        &&& forall|id: int| 0 <= id < self.removed.len() && self.removed[id] ==> later.removed[id]
        &&& later.edges.len() == self.edges.len()
        &&& forall|e: int|
            0 <= e < self.edges.len() ==> (#[trigger] later.edges[e]).name == self.edges[e].name
                && later.edges[e].spec == self.edges[e].spec && later.edges[e].dependers
                == self.edges[e].dependers && (self.edges[e].unsatisfiable
                ==> later.edges[e].unsatisfiable)
    }
}

/// Removing marked packages gives a later state of the same graph.
pub proof fn lemma_without_carries_on(v: RelationsView, marks: Seq<bool>)
    ensures
        v.carries_on(v.without(marks)),
{
}

/// A later state of a later state is a later state.
pub proof fn lemma_carries_on_further(first: RelationsView, then: RelationsView, last: RelationsView)
    requires
        first.carries_on(then),
        then.carries_on(last),
    ensures
        first.carries_on(last),
{
    assert forall|e: int| 0 <= e < first.edges.len() implies (#[trigger] last.edges[e]).name
        == first.edges[e].name && last.edges[e].spec == first.edges[e].spec
        && last.edges[e].dependers == first.edges[e].dependers && (first.edges[e].unsatisfiable
        ==> last.edges[e].unsatisfiable) by {
        assert(then.edges[e].name == first.edges[e].name);
    }
}

/// Whether `files` are files of `state`'s packages, each once.
pub open spec fn booked_in(files: Seq<Seq<char>>, state: RelationsView) -> bool {
    &&& forall|i: int, j: int| 0 <= i < j < files.len() ==> files[i] != files[j]
    &&& forall|i: int| 0 <= i < files.len() ==> file_of_package(#[trigger] files[i], state)
}

/// Whether `file` is the file of one of `state`'s packages.
pub open spec fn file_of_package(file: Seq<char>, state: RelationsView) -> bool {
    exists|id: int| 0 <= id < state.packages.len() && (#[trigger] state.packages[id]).filename == file
}

/// Whether the dependers of `state`'s edges are packages of its table.
pub open spec fn dependers_in_table(state: RelationsView) -> bool {
    forall|e: int, k: int|
        0 <= e < state.edges.len() && 0 <= k < state.edges[e].dependers.len()
            ==> (#[trigger] state.edges[e].dependers[k]).index < state.packages.len()
}

/// Whether each of `removals` names a file of one of `state`'s packages.
pub open spec fn names_packages<V: Removal>(removals: Seq<V>, state: RelationsView) -> bool {
    forall|k: int| 0 <= k < removals.len() ==> file_of_package((#[trigger] removals[k]).file(), state)
}

/// Whether `file` is the file of a package that `state` has removed.
pub open spec fn file_of_removed(file: Seq<char>, state: RelationsView) -> bool {
    exists|id: int|
        0 <= id < state.packages.len() && state.removed[id] && (
        #[trigger] state.packages[id]).filename == file
}

/// Whether one of `removals` names `file`.
pub open spec fn named_by<V: Removal>(file: Seq<char>, removals: Seq<V>) -> bool {
    exists|k: int| 0 <= k < removals.len() && (#[trigger] removals[k]).file() == file
}

/// Whether `removals` tell what `later` has removed beyond `earlier`: each
/// names the file of a package that `later` has removed, and the file of
/// each package that `later` has removed and `earlier` had not is named.
pub open spec fn tells<V: Removal>(
    removals: Seq<V>,
    earlier: RelationsView,
    later: RelationsView,
) -> bool {
    &&& forall|k: int|
        0 <= k < removals.len() ==> file_of_removed((#[trigger] removals[k]).file(), later)
    &&& forall|id: int|
        0 <= id < later.packages.len() && later.removed[id] && !earlier.removed[id] ==> named_by(
            (#[trigger] later.packages[id]).filename,
            removals,
        )
}

/// Whether `files` are exactly the files of the packages that `state` has
/// removed.
pub open spec fn books_exact(files: Seq<Seq<char>>, state: RelationsView) -> bool {
    &&& forall|i: int| 0 <= i < files.len() ==> file_of_removed(#[trigger] files[i], state)
    &&& forall|id: int|
        0 <= id < state.packages.len() && state.removed[id] ==> files.contains(
            (#[trigger] state.packages[id]).filename,
        )
}

/// Where marked packages are removed, and the records name the files of
/// the marked packages, one for one, the records tell what was removed.
pub proof fn lemma_tells_marked<V: Removal>(v: RelationsView, marks: Seq<bool>, removals: Seq<V>)
    requires
        v.removed.len() == v.packages.len(),
        marks.len() == v.packages.len(),
        removals.len() == chosen(marks, v.packages.len() as int).len(),
        forall|k: int|
            0 <= k < removals.len() ==> (#[trigger] removals[k]).file() == v.packages[chosen(
                marks,
                v.packages.len() as int,
            )[k]].filename,
    ensures
        tells(removals, v, v.without(marks)),
{
    let n = v.packages.len() as int;
    let ids = chosen(marks, n);
    let later = v.without(marks);
    lemma_chosen_members(marks, n);
    assert forall|k: int| 0 <= k < removals.len() implies file_of_removed(
        (#[trigger] removals[k]).file(),
        later,
    ) by {
        let id = ids[k];
        assert(marks[id]);
        assert(later.removed[id]);
        assert(later.packages[id].filename == removals[k].file());
    }
    assert forall|id: int|
        0 <= id < later.packages.len() && later.removed[id] && !v.removed[id] implies named_by(
        (#[trigger] later.packages[id]).filename,
        removals,
    ) by {
        assert(marks[id]);
        assert(ids.contains(id));
        let k = choose|k: int| 0 <= k < ids.len() && ids[k] == id;
        assert(removals[k].file() == later.packages[id].filename);
    }
}

/// Records that tell what one step removed, followed by records that tell
/// what the next step removed, tell what both removed.
pub proof fn lemma_tells_joined<V: Removal>(
    a: Seq<V>,
    b: Seq<V>,
    first: RelationsView,
    then: RelationsView,
    last: RelationsView,
)
    requires
        tells(a, first, then),
        tells(b, then, last),
        first.packages == then.packages,
        then.removed.len() == then.packages.len(),
        then.carries_on(last),
    ensures
        tells(a + b, first, last),
{
    let all = a + b;
    assert forall|k: int| 0 <= k < all.len() implies file_of_removed(
        (#[trigger] all[k]).file(),
        last,
    ) by {
        if k < a.len() {
            assert(all[k] == a[k]);
            assert(file_of_removed(a[k].file(), then));
            let id = choose|id: int|
                0 <= id < then.packages.len() && then.removed[id] && (
                #[trigger] then.packages[id]).filename == a[k].file();
            assert(last.removed[id]);
            assert(last.packages[id].filename == all[k].file());
        } else {
            assert(all[k] == b[k - a.len()]);
        }
    }
    assert forall|id: int|
        0 <= id < last.packages.len() && last.removed[id] && !first.removed[id] implies named_by(
        (#[trigger] last.packages[id]).filename,
        all,
    ) by {
        let file = last.packages[id].filename;
        if then.removed[id] {
            assert(named_by(then.packages[id].filename, a));
            let k = choose|k: int| 0 <= k < a.len() && (#[trigger] a[k]).file() == file;
            assert(all[k] == a[k]);
        } else {
            assert(named_by(file, b));
            let k = choose|k: int| 0 <= k < b.len() && (#[trigger] b[k]).file() == file;
            assert(all[a.len() + k] == b[k]);
        }
    }
}


/// Whether `removals` are the records of the packages `ids`, one for one,
/// and `ids` are the packages that `later` has removed beyond `earlier`,
/// each once.
pub open spec fn one_for_each<V: Removal>(
    removals: Seq<V>,
    ids: Seq<int>,
    earlier: RelationsView,
    later: RelationsView,
) -> bool {
    &&& ids.len() == removals.len()
    &&& forall|k: int|
        0 <= k < ids.len() ==> 0 <= #[trigger] ids[k] < later.packages.len()
            && !earlier.removed[ids[k]] && later.removed[ids[k]] && removals[k].file()
            == later.packages[ids[k]].filename
    &&& forall|k: int, l: int| 0 <= k < l < ids.len() ==> ids[k] != ids[l]
    &&& forall|id: int|
        0 <= id < later.packages.len() && #[trigger] later.removed[id] && !earlier.removed[id]
            ==> ids.contains(id)
}

/// Whether `removals` hold exactly one record for each package that
/// `later` has removed beyond `earlier`, and no other record.
pub open spec fn accounts_once<V: Removal>(
    removals: Seq<V>,
    earlier: RelationsView,
    later: RelationsView,
) -> bool {
    exists|ids: Seq<int>| one_for_each(removals, ids, earlier, later)
}

/// Where the marked packages, none of which was removed, are removed,
/// records of the marked packages, one for one, hold one record for each
/// package removed.
pub proof fn lemma_once_marked<V: Removal>(v: RelationsView, marks: Seq<bool>, removals: Seq<V>)
    requires
        v.removed.len() == v.packages.len(),
        marks.len() == v.packages.len(),
        forall|id: int| 0 <= id < marks.len() && marks[id] ==> !v.removed[id],
        removals.len() == chosen(marks, v.packages.len() as int).len(),
        forall|k: int|
            0 <= k < removals.len() ==> (#[trigger] removals[k]).file() == v.packages[chosen(
                marks,
                v.packages.len() as int,
            )[k]].filename,
    ensures
        accounts_once(removals, v, v.without(marks)),
{
    let n = v.packages.len() as int;
    let ids = chosen(marks, n);
    let later = v.without(marks);
    lemma_chosen_members(marks, n);
    assert forall|k: int| 0 <= k < ids.len() implies 0 <= #[trigger] ids[k] < later.packages.len()
        && !v.removed[ids[k]] && later.removed[ids[k]] && removals[k].file()
        == later.packages[ids[k]].filename by {
        assert(marks[ids[k]]);
    }
    assert forall|id: int|
        0 <= id < later.packages.len() && #[trigger] later.removed[id]
            && !v.removed[id] implies ids.contains(id) by {
        assert(marks[id]);
    }
    assert(one_for_each(removals, ids, v, later));
}

/// One record for each package that a step removed, followed by one for
/// each that the next step removed, are one for each that both removed.
pub proof fn lemma_once_joined<V: Removal>(
    a: Seq<V>,
    b: Seq<V>,
    first: RelationsView,
    then: RelationsView,
    last: RelationsView,
)
    requires
        accounts_once(a, first, then),
        accounts_once(b, then, last),
        first.removed.len() == first.packages.len(),
        first.carries_on(then),
        then.carries_on(last),
    ensures
        accounts_once(a + b, first, last),
{
    let ia = choose|ids: Seq<int>| one_for_each(a, ids, first, then);
    let ib = choose|ids: Seq<int>| one_for_each(b, ids, then, last);
    let all = a + b;
    let ids = ia + ib;
    assert forall|k: int| 0 <= k < ids.len() implies 0 <= #[trigger] ids[k] < last.packages.len()
        && !first.removed[ids[k]] && last.removed[ids[k]] && all[k].file()
        == last.packages[ids[k]].filename by {
        if k < ia.len() {
            assert(ids[k] == ia[k]);
            assert(all[k] == a[k]);
            assert(then.removed[ia[k]]);
        } else {
            assert(ids[k] == ib[k - ia.len()]);
            assert(all[k] == b[k - ia.len()]);
            assert(!then.removed[ib[k - ia.len()]]);
        }
    }
    assert forall|k: int, l: int| 0 <= k < l < ids.len() implies ids[k] != ids[l] by {
        if l < ia.len() {
            assert(ids[k] == ia[k] && ids[l] == ia[l]);
        } else if k >= ia.len() {
            assert(ids[k] == ib[k - ia.len()] && ids[l] == ib[l - ia.len()]);
        } else {
            assert(ids[k] == ia[k] && ids[l] == ib[l - ia.len()]);
            assert(then.removed[ia[k]]);
            assert(!then.removed[ib[l - ia.len()]]);
        }
    }
    assert forall|id: int|
        0 <= id < last.packages.len() && #[trigger] last.removed[id]
            && !first.removed[id] implies ids.contains(id) by {
        if then.removed[id] {
            assert(ia.contains(id));
            let k = choose|k: int| 0 <= k < ia.len() && ia[k] == id;
            assert(ids[k] == id);
        } else {
            assert(ib.contains(id));
            let k = choose|k: int| 0 <= k < ib.len() && ib[k] == id;
            assert(ids[ia.len() + k] == id);
        }
    }
    assert(one_for_each(all, ids, first, last));
}

/// No records are one for each package of none.
pub proof fn lemma_once_nothing<V: Removal>(v: RelationsView)
    ensures
        accounts_once(Seq::<V>::empty(), v, v),
{
    assert(one_for_each(Seq::<V>::empty(), Seq::<int>::empty(), v, v));
}

} // verus!
