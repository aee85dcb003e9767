//! What is left of the packages that fit every architecture: such a package
//! goes only if every architecture's run removed it.

use vstd::hash_set::StringHashSet;
use vstd::prelude::*;
use vstd::string::StringExecFns;

use crate::packagerelations::select::chosen;
use crate::packagerelations::select::lemma_chosen_members;
use crate::packagerelations::user::texts;

verus! {

/// The files that each run removed, as texts.
pub open spec fn runs(removed: Seq<Vec<&str>>) -> Seq<Seq<Seq<char>>> {
    removed.map_values(|files: Vec<&str>| texts(files@))
}

/// Whether every one of `runs` removed `file`.
pub open spec fn removed_everywhere(runs: Seq<Seq<Seq<char>>>, file: Seq<char>) -> bool {
    forall|run: int| 0 <= run < runs.len() ==> (#[trigger] runs[run]).contains(file)
}

/// For each of `files`, whether it stays: at least one of `runs` did not
/// remove it.
pub open spec fn staying(files: Seq<Seq<char>>, runs: Seq<Seq<Seq<char>>>) -> Seq<bool> {
    Seq::new(files.len(), |at: int| !removed_everywhere(runs, files[at]))
}

/// Whether `set` holds exactly the items of `list`.
pub open spec fn same_members(set: Set<Seq<char>>, list: Seq<Seq<char>>) -> bool {
    forall|file: Seq<char>| set.contains(file) <==> list.contains(file)
}

/// The files of `removed`, for looking up.
fn lookup_of(removed: &Vec<&str>) -> (res: StringHashSet)
    ensures
        same_members(res@, texts(removed@)),
{
    let mut res = StringHashSet::new();
    let mut i: usize = 0;
    while i < removed.len()
        invariant
            i <= removed.len(),
            forall|file: Seq<char>|
                res@.contains(file) <==> exists|j: int|
                    0 <= j < i && #[trigger] texts(removed@)[j] == file,
        decreases removed.len() - i,
    {
        assert(texts(removed@)[i as int] == removed[i as int]@);
        res.insert(String::from_str(removed[i]));
        i = i + 1;
    }
    res
}

/// The packages that fit every architecture and stay: those of `noarch`
/// that at least one architecture's run did not remove, in the order of
/// `noarch`.
///
/// `removed` holds, for each architecture's run, the files that it
/// removed; there is at least one run.
pub fn noarch_survivors<'a>(noarch: &Vec<&'a str>, removed: &Vec<Vec<&str>>) -> (res: Vec<&'a str>)
    requires
        removed.len() > 0,
    ensures
        res@.len() == chosen(staying(texts(noarch@), runs(removed@)), noarch.len() as int).len(),
        forall|k: int|
            0 <= k < res.len() ==> (#[trigger] res[k])@ == texts(noarch@)[chosen(
                staying(texts(noarch@), runs(removed@)),
                noarch.len() as int,
            )[k]],
        forall|at: int|
            0 <= at < noarch.len() ==> (texts(res@).contains(#[trigger] texts(noarch@)[at]) <==> exists|
                run: int,
            |
                0 <= run < removed.len() && !(#[trigger] runs(removed@)[run]).contains(
                    texts(noarch@)[at],
                )),
{
    let ghost files = texts(noarch@);
    let ghost all = runs(removed@);
    let ghost marks = staying(files, all);
    let mut lookups: Vec<StringHashSet> = Vec::new();
    let mut run: usize = 0;
    while run < removed.len()
        invariant
            run <= removed.len(),
            all == runs(removed@),
            lookups.len() == run,
            forall|r: int| 0 <= r < run ==> same_members((#[trigger] lookups[r])@, all[r]),
        decreases removed.len() - run,
    {
        assert(all[run as int] == texts(removed[run as int]@));
        lookups.push(lookup_of(&removed[run]));
        run = run + 1;
    }
    let mut res: Vec<&'a str> = Vec::new();
    let mut at: usize = 0;
    while at < noarch.len()
        invariant
            at <= noarch.len(),
            files == texts(noarch@),
            all == runs(removed@),
            marks == staying(files, all),
            lookups.len() == removed.len() == all.len(),
            forall|r: int| 0 <= r < lookups.len() ==> same_members((#[trigger] lookups[r])@, all[r]),
            res.len() == chosen(marks, at as int).len(),
            forall|k: int|
                0 <= k < res.len() ==> (#[trigger] res[k])@ == files[chosen(marks, at as int)[k]],
        decreases noarch.len() - at,
    {
        assert(files[at as int] == noarch[at as int]@);
        let mut everywhere: bool = true;
        let mut r: usize = 0;
        while r < lookups.len() && everywhere
            invariant
                r <= lookups.len(),
                lookups.len() == all.len(),
                at < noarch.len(),
                forall|q: int| 0 <= q < lookups.len() ==> same_members((#[trigger] lookups[q])@, all[q]),
                everywhere ==> forall|q: int| 0 <= q < r ==> (#[trigger] all[q]).contains(noarch[at as int]@),
                !everywhere ==> !removed_everywhere(all, noarch[at as int]@),
            decreases lookups.len() - r + (if everywhere {
                1int
            } else {
                0int
            }),
        {
            if lookups[r].contains(noarch[at]) {
                r = r + 1;
            } else {
                assert(!all[r as int].contains(noarch[at as int]@));
                everywhere = false;
            }
        }
        if !everywhere {
            res.push(noarch[at]);
        }
        at = at + 1;
    }
    proof {
        lemma_chosen_members(marks, noarch.len() as int);
        let picked = chosen(marks, noarch.len() as int);
        assert forall|at: int| 0 <= at < noarch.len() implies (texts(res@).contains(
            #[trigger] files[at],
        ) <==> exists|run: int|
            0 <= run < removed.len() && !(#[trigger] all[run]).contains(files[at])) by {
            if exists|run: int| 0 <= run < removed.len() && !(#[trigger] all[run]).contains(files[at]) {
                assert(marks[at]);
                assert(picked.contains(at));
                let k = choose|k: int| 0 <= k < picked.len() && picked[k] == at;
                assert(texts(res@)[k] == res[k]@);
            }
            if texts(res@).contains(files[at]) {
                let k = choose|k: int| 0 <= k < res.len() && texts(res@)[k] == files[at];
                assert(texts(res@)[k] == res[k]@);
                assert(marks[picked[k]]);
                assert(!removed_everywhere(all, files[picked[k]]));
            }
        }
    }
    res
}

} // verus!
