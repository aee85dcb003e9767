//! Inserting a package that has not been checked yet: why a package is
//! refused, and the insertion that tests before it inserts.

use vstd::prelude::*;

use crate::conda::components_of_version;
use crate::conda::version_components;
use crate::depends::dependency_spec;
use crate::depends::dependsstr_to_name_and_spec;
use crate::matchspeccache::refused_for_sure;
use crate::matchspeccache::taken_for_sure;
use crate::matchspeccache::Cache;
use crate::packagerelations::graph::capacity_limit;
use crate::packagerelations::graph::lemma_constraints_again;
use crate::packagerelations::graph::lemma_constraints_interned;
use crate::packagerelations::graph::lemma_constraints_members;
use crate::packagerelations::graph::PackageRelations;
use crate::packagerelations::graph::with_constraints;
use crate::packagerelations::model::capacity;
use crate::packagerelations::model::clauses_in;
use crate::packagerelations::model::PackageView;
use crate::packagerelations::model::RelationsView;
use crate::record::PackageRecord;

verus! {

/// Why a package was not inserted.
#[derive(Debug)]
pub enum InsertError {
    /// The table is full.
    TooManyPackages,
    /// The package's name has packages already, and they do not end the
    /// table: the packages of one name must follow one another.
    OutOfOrder,
    /// The package's name has as many packages as a name can have.
    TooManyVariants,
    /// The record's version cannot be read.
    InvalidVersion,
    /// The parser refused the constraint of the dependency clause at this
    /// position; this is its error.
    BadConstraint(usize, rattler_conda_types::ParseMatchSpecError),
}

/// A reason for which a package is refused whatever its constraints are.
pub enum Refusal {
    TooManyPackages,
    OutOfOrder,
    TooManyVariants,
    InvalidVersion,
}

impl InsertError {
    /// The reason, where the package was refused whatever its constraints
    /// are.
    pub open spec fn reason(self) -> Option<Refusal> {
        match self {
            InsertError::TooManyPackages => Some(Refusal::TooManyPackages),
            InsertError::OutOfOrder => Some(Refusal::OutOfOrder),
            InsertError::TooManyVariants => Some(Refusal::TooManyVariants),
            InsertError::InvalidVersion => Some(Refusal::InvalidVersion),
            InsertError::BadConstraint(_, _) => None,
        }
    }

    /// How many of the package's dependency clauses were looked at, and
    /// their constraints interned, before the package was refused.
    pub open spec fn clauses_seen(self) -> int {
        match self {
            InsertError::BadConstraint(c, _) => c as int,
            _ => 0,
        }
    }
}

impl RelationsView {
    /// Why `package` cannot be inserted next whatever its constraints are,
    /// if it cannot: the first of the reasons that holds, in the order of
    /// `Refusal`'s variants.
    pub open spec fn refusal(self, package: PackageView) -> Option<Refusal> {
        let name = package.record.name;
        if self.packages.len() >= capacity() {
            Some(Refusal::TooManyPackages)
        } else if self.ranges.contains_key(name) && !(self.packages.len() > 0
            && self.packages.last().record.name == name) {
            Some(Refusal::OutOfOrder)
        } else if self.ranges.contains_key(name) && self.ranges[name].1.offset >= u16::MAX {
            Some(Refusal::TooManyVariants)
        } else if version_components(package.record.version) is None {
            Some(Refusal::InvalidVersion)
        } else {
            None
        }
    }
}

/// A package is refused for no reason of its own exactly if the graph
/// takes it.
pub proof fn lemma_refusal(v: RelationsView, package: PackageView)
    ensures
        v.refusal(package) is None <==> v.takes(package),
{
}

/// What the refusal of `package` with `error` says, of a graph in the
/// state `v` and a cache that held `texts` before and holds `after` now:
/// the reason is the one that holds; or the package is one that the graph
/// takes, the constraints of the clauses before the one named are
/// interned, none of them was refused for sure, and the constraint of the
/// clause named, which the parser refused, is not taken for sure.
pub open spec fn refused(
    v: RelationsView,
    texts: Seq<Seq<char>>,
    package: PackageView,
    error: InsertError,
    after: Seq<Seq<char>>,
) -> bool {
    let clauses = package.record.depends;
    &&& error.reason() == v.refusal(package)
    &&& after == with_constraints(texts, clauses, error.clauses_seen())
    &&& error matches InsertError::BadConstraint(c, _) ==> {
        &&& c < clauses.len()
        &&& !taken_for_sure(after, dependency_spec(clauses[c as int]))
        &&& forall|j: int|
            0 <= j < c ==> !refused_for_sure(texts, dependency_spec(#[trigger] clauses[j]))
    }
}

/// Whether the constraint of each of `clauses` is taken for sure by a cache
/// that holds `texts`.
pub open spec fn clauses_taken(clauses: Seq<Seq<char>>, texts: Seq<Seq<char>>) -> bool {
    forall|c: int| 0 <= c < clauses.len() ==> taken_for_sure(texts, dependency_spec(#[trigger] clauses[c]))
}

impl<'a> PackageRelations<'a> {
    /// Inserts a package if the graph takes it and the parser takes the
    /// constraints of its dependency clauses, and says why not if it does
    /// not. A package that is refused leaves the graph as it was.
    ///
    /// Success is owed where the graph takes the package and each
    /// constraint is taken for sure. Whether the parser takes a constraint
    /// that names a channel and is not interned yet is for the parser to
    /// say.
    #[verifier::loop_isolation(false)]
    pub fn try_insert(
        &mut self,
        matchspec_cache: &mut Cache,
        filename: &'a str,
        package_record: &'a PackageRecord,
    ) -> (res: Result<(), InsertError>)
        requires
            old(self).wf(),
            old(matchspec_cache).wf(),
        ensures
            final(self).wf(),
            final(matchspec_cache).wf(),
            old(matchspec_cache)@.is_prefix_of(final(matchspec_cache)@),
            old(self)@.interned_in(old(matchspec_cache)@) ==> final(self)@.interned_in(
                final(matchspec_cache)@,
            ),
            old(self)@.takes(PackageView { filename: filename@, record: package_record@ })
                && clauses_taken(package_record@.depends, old(matchspec_cache)@) ==> res is Ok,
            match res {
                Ok(()) => {
                    &&& old(self)@.takes(
                        PackageView { filename: filename@, record: package_record@ },
                    )
                    &&& final(self)@ == old(self)@.inserted(
                        PackageView { filename: filename@, record: package_record@ },
                    )
                    &&& final(matchspec_cache)@ == with_constraints(
                        old(matchspec_cache)@,
                        package_record@.depends,
                        package_record@.depends.len() as int,
                    )
                    &&& forall|c: int|
                        0 <= c < package_record@.depends.len() ==> !refused_for_sure(
                            old(matchspec_cache)@,
                            dependency_spec(#[trigger] package_record@.depends[c]),
                        )
                },
                Err(error) => {
                    &&& final(self)@ == old(self)@
                    &&& refused(
                        old(self)@,
                        old(matchspec_cache)@,
                        PackageView { filename: filename@, record: package_record@ },
                        error,
                        final(matchspec_cache)@,
                    )
                },
            },
    {
        let ghost package = PackageView { filename: filename@, record: package_record@ };
        let ghost cache_before = matchspec_cache@;
        proof {
            self.lemma_valid();
            lemma_refusal(self@, package);
        }
        let count = self.len();
        if count >= capacity_limit() {
            return Err(InsertError::TooManyPackages);
        }
        let (start, end) = self.mkrange(package_record.name.as_str());
        if start < end {
            assert(self@.ranges.contains_key(package.record.name));
            if end != count {
                assert(self@.packages.last() == self@.packages[count - 1]);
                return Err(InsertError::OutOfOrder);
            }
            assert(self@.packages.last() == self@.packages[count - 1]);
            if end - start >= u16::MAX as usize {
                return Err(InsertError::TooManyVariants);
            }
        } else {
            proof {
                if self@.ranges.contains_key(package.record.name) {
                    assert(self@.range_exact(package.record.name));
                }
            }
        }
        if components_of_version(package_record.version.as_str()).is_none() {
            return Err(InsertError::InvalidVersion);
        }
        let ghost clauses = package.record.depends;
        let mut c: usize = 0;
        while c < package_record.depends.len()
            invariant
                c <= package_record.depends.len(),
                clauses == package_record@.depends,
                forall|j: int|
                    0 <= j < c ==> !refused_for_sure(
                        cache_before,
                        dependency_spec(#[trigger] clauses[j]),
                    ),
                matchspec_cache.wf(),
                cache_before.is_prefix_of(matchspec_cache@),
                matchspec_cache@ == with_constraints(cache_before, clauses, c as int),
            decreases package_record.depends.len() - c,
        {
            let depend = package_record.depends[c].as_str();
            assert(clauses[c as int] == depend@);
            let (_, spec) = dependsstr_to_name_and_spec(depend);
            let ghost held = matchspec_cache@;
            proof {
                lemma_constraints_interned(cache_before, clauses, c as int);
                lemma_constraints_members(cache_before, clauses, c as int);
            }
            match matchspec_cache.get_or_insert(spec) {
                Err(error) => {
                    return Err(InsertError::BadConstraint(c, error));
                },
                Ok(_) => {
                    proof {
                        if held.contains(spec@) && !cache_before.contains(
                            spec@,
                        ) {
                            let j = choose|j: int|
                                0 <= j < c && dependency_spec(
                                    #[trigger] clauses[j],
                                ) == spec@;
                            assert(!refused_for_sure(
                                cache_before,
                                dependency_spec(clauses[j]),
                            ));
                        }
                    }
                },
            }
            c = c + 1;
        }
        proof {
            lemma_constraints_interned(cache_before, clauses, clauses.len() as int);
        }
        let ghost interned = matchspec_cache@;
        self.insert(matchspec_cache, filename, package_record);
        proof {
            lemma_constraints_again(
                interned,
                clauses,
                clauses.len() as int,
            );
            if old(self)@.interned_in(cache_before) {
                assert forall|id: int| 0 <= id < old(self)@.packages.len() implies clauses_in(
                    (#[trigger] old(self)@.packages[id]).record.depends,
                    interned,
                ) by {
                    let depends = old(self)@.packages[id].record.depends;
                    assert(clauses_in(depends, cache_before));
                    assert forall|d: int| 0 <= d < depends.len() implies interned.contains(
                        dependency_spec(#[trigger] depends[d]),
                    ) by {
                        assert(cache_before.contains(dependency_spec(depends[d])));
                    }
                }
            }
        }
        Ok(())
    }
}

} // verus!
