//! Why inserting a package keeps a graph valid.

use vstd::prelude::*;

use crate::depends::dependency_name;
use crate::depends::dependency_spec;
use crate::packagerelations::model::depends_on;
use crate::packagerelations::model::edges_named;
use crate::packagerelations::model::EdgeView;
use crate::packagerelations::model::PackageView;
use crate::packagerelations::model::PkgIdx;
use crate::packagerelations::model::record_ok;
use crate::packagerelations::unresolved::lemma_nothing_before_stays;
use crate::packagerelations::model::RelationsView;

verus! {

/// The edges that point to a name, after one more edge was added.
pub proof fn lemma_edges_named_push(edges: Seq<EdgeView>, edge: EdgeView, name: Seq<char>)
    ensures
        edges_named(edges.push(edge), name) == if edge.name == name {
            edges_named(edges, name).push(edges.len() as int)
        } else {
            edges_named(edges, name)
        },
{
    assert(edges.push(edge).drop_last() =~= edges);
}

/// The edges that point to a name do not depend on anything but the edges'
/// names.
pub proof fn lemma_edges_named_same_names(a: Seq<EdgeView>, b: Seq<EdgeView>, name: Seq<char>)
    requires
        a.len() == b.len(),
        forall|e: int| 0 <= e < a.len() ==> a[e].name == b[e].name,
    ensures
        edges_named(a, name) == edges_named(b, name),
    decreases a.len(),
{
    if a.len() > 0 {
        lemma_edges_named_same_names(a.drop_last(), b.drop_last(), name);
    }
}

/// The edges that point to a name are exactly the positions of the edges
/// with that name, in ascending order.
pub proof fn lemma_edges_named_members(edges: Seq<EdgeView>, name: Seq<char>)
    ensures
        forall|k: int|
            0 <= k < edges_named(edges, name).len() ==> 0 <= #[trigger] edges_named(edges, name)[k]
                < edges.len() && edges[edges_named(edges, name)[k]].name == name,
        forall|e: int|
            0 <= e < edges.len() && (#[trigger] edges[e]).name == name ==> edges_named(
                edges,
                name,
            ).contains(e),
        forall|k: int, l: int|
            0 <= k < l < edges_named(edges, name).len() ==> #[trigger] edges_named(edges, name)[k]
                < #[trigger] edges_named(edges, name)[l],
    decreases edges.len(),
{
    if edges.len() > 0 {
        let rest = edges.drop_last();
        lemma_edges_named_members(rest, name);
        let named = edges_named(edges, name);
        let before = edges_named(rest, name);
        assert forall|k: int| 0 <= k < named.len() implies 0 <= #[trigger] named[k] < edges.len()
            && edges[named[k]].name == name by {
            if k < before.len() {
                assert(named[k] == before[k]);
                assert(rest[before[k]] == edges[before[k]]);
            }
        }
        assert forall|e: int| 0 <= e < edges.len() && (#[trigger] edges[e]).name
            == name implies named.contains(e) by {
            if e < edges.len() - 1 {
                assert(rest[e] == edges[e]);
                assert(before.contains(e));
                let k = choose|k: int| 0 <= k < before.len() && before[k] == e;
                assert(named[k] == e);
            } else {
                assert(named[named.len() - 1] == e);
            }
        }
        assert forall|k: int, l: int| 0 <= k < l < named.len() implies #[trigger] named[k]
            < #[trigger] named[l] by {
            if l < before.len() {
                assert(named[k] == before[k]);
                assert(named[l] == before[l]);
            } else {
                assert(named[k] == before[k]);
                assert(0 <= before[k] < rest.len());
            }
        }
    }
}

impl RelationsView {
    /// Where a graph grows at the end of its table and of its edges, and
    /// the ranges keep their first positions, nothing before the last
    /// provider of an edge meets the edge afterwards, as before.
    pub proof fn lemma_last_provider_stays(self, next: RelationsView, e: int)
        requires
            self.dense(),
            self.ranges_exact(),
            0 <= e < self.edges.len(),
            self.edge_ok(e),
            e < next.edges.len(),
            next.edges[e].name == self.edges[e].name,
            next.edges[e].spec == self.edges[e].spec,
            next.edges[e].last_successful_resolution == self.edges[e].last_successful_resolution,
            self.packages.len() <= next.packages.len(),
            self.removed.len() <= next.removed.len(),
            forall|id: int|
                0 <= id < self.packages.len() ==> (#[trigger] next.packages[id])
                    == self.packages[id] && next.removed[id] == self.removed[id],
            forall|name: Seq<char>| #[trigger]
                self.ranges.contains_key(name) ==> next.ranges.contains_key(name)
                    && next.ranges[name].0 == self.ranges[name].0,
        ensures
            next.edges[e].last_successful_resolution matches Some(last) ==> next.nothing_before(
                e,
                last.offset as int,
            ),
    {
        match self.edges[e].last_successful_resolution {
            Some(last) => {
                let name = self.edges[e].name;
                assert(self.range_exact(name));
                assert(self.nothing_before(e, last.offset as int));
                lemma_nothing_before_stays(self, next, e, last.offset as int);
            },
            None => {},
        }
    }

    /// What holds of a graph while a package is being inserted: all of
    /// `valid`, but that of the last package only the first `done` clauses
    /// have their edges yet.
    pub open spec fn valid_upto(self, done: int) -> bool {
        &&& self.dense()
        &&& self.ranges_exact()
        &&& self.edges_ok()
        &&& self.covered_upto(done)
        &&& self.records_ok()
        &&& self.names_exact()
    }

    /// Adding a package to the table keeps what holds of the graph; the new
    /// package's clauses have no edges yet.
    pub proof fn lemma_with_package(self, package: PackageView)
        requires
            self.valid(),
            self.takes(package),
        ensures
            self.with_package(package).valid_upto(0),
            self.with_package(package).packages.len() == self.packages.len() + 1,
    {
        let next = self.with_package(package);
        let name = package.record.name;
        let n = self.packages.len() as int;
        assert forall|id: int| 0 <= id < next.packages.len() implies next.ranges.contains_key(
            #[trigger] next.packages[id].record.name,
        ) by {
            if id < n {
                assert(self.ranges.contains_key(self.packages[id].record.name));
            }
        }
        assert forall|other: Seq<char>| #[trigger]
            next.ranges.contains_key(other) implies next.range_exact(other) by {
            let (first, count) = next.ranges[other];
            if other == name {
                if self.ranges.contains_key(name) {
                    assert(self.range_exact(name));
                    let (old_first, old_count) = self.ranges[name];
                    assert(self.packages[n - 1].record.name == name);
                    assert(old_first.index + old_count.offset == n);
                    assert forall|id: int| 0 <= id < next.packages.len() implies (first.index <= id
                        < first.index + count.offset <==> (#[trigger] next.packages[id]).record.name
                        == name) by {
                        if id < n {
                            assert(next.packages[id] == self.packages[id]);
                        }
                    }
                } else {
                    assert forall|id: int| 0 <= id < next.packages.len() implies (first.index <= id
                        < first.index + count.offset <==> (#[trigger] next.packages[id]).record.name
                        == name) by {
                        if id < n {
                            assert(next.packages[id] == self.packages[id]);
                            assert(self.ranges.contains_key(self.packages[id].record.name));
                        }
                    }
                }
            } else {
                assert(self.ranges.contains_key(other));
                assert(self.range_exact(other));
                assert forall|id: int| 0 <= id < next.packages.len() implies (first.index <= id
                    < first.index + count.offset <==> (#[trigger] next.packages[id]).record.name
                    == other) by {
                    if id < n {
                        assert(next.packages[id] == self.packages[id]);
                    }
                }
            }
        }
        assert forall|e: int| 0 <= e < next.edges.len() implies #[trigger] next.edge_ok(e) by {
            assert(self.edge_ok(e));
            let edge = self.edges[e];
            self.lemma_last_provider_stays(next, e);
            assert forall|k: int| 0 <= k < edge.dependers.len() implies (
            #[trigger] edge.dependers[k]).index < next.packages.len() && depends_on(
                next.packages[edge.dependers[k].index as int].record,
                edge.name,
                edge.spec,
            ) by {
                assert(next.packages[edge.dependers[k].index as int]
                    == self.packages[edge.dependers[k].index as int]);
            }
        }
        assert forall|id: int, c: int|
            0 <= id < next.packages.len() && 0 <= c < next.packages[id].record.depends.len() && (id
                < next.packages.len() - 1 || c < 0) implies #[trigger] next.clause_covered(
            id,
            c,
        ) by {
            assert(next.packages[id] == self.packages[id]);
            assert(self.clause_covered(id, c));
            let clause = self.packages[id].record.depends[c];
            let e = choose|e: int| #[trigger]
                self.edge_has_key(e, dependency_name(clause), dependency_spec(clause))
                    && self.edges[e].dependers.contains(PkgIdx { index: id as u32 });
            assert(next.edge_has_key(e, dependency_name(clause), dependency_spec(clause)));
        }
        assert forall|id: int| 0 <= id < next.packages.len() implies record_ok(
            (#[trigger] next.packages[id]).record,
        ) by {
            if id < n {
                assert(next.packages[id] == self.packages[id]);
            }
        }
    }

    /// Entering the next clause of the last package keeps what holds of the
    /// graph, and that clause then has its edge.
    pub proof fn lemma_with_depender(self, done: int)
        requires
            self.packages.len() > 0,
            0 <= done < self.packages.last().record.depends.len(),
            self.valid_upto(done),
        ensures
            self.with_depender(
                self.packages.last().record.depends[done],
                PkgIdx { index: (self.packages.len() - 1) as u32 },
            ).valid_upto(done + 1),
    {
        let n = self.packages.len() as int;
        let id = PkgIdx { index: (n - 1) as u32 };
        let clause = self.packages.last().record.depends[done];
        let name = dependency_name(clause);
        let spec = dependency_spec(clause);
        let next = self.with_depender(clause, id);
        assert(self.packages[n - 1] == self.packages.last());
        assert(record_ok(self.packages[n - 1].record));
        assert(depends_on(self.packages[n - 1].record, name, spec));
        assert forall|other: Seq<char>| #[trigger]
            next.ranges.contains_key(other) implies next.range_exact(other) by {
            assert(self.range_exact(other));
        }
        match self.edge_index(name, spec) {
            Some(at) => {
                assert(self.edge_has_key(at, name, spec));
                assert forall|e: int| 0 <= e < next.edges.len() implies #[trigger] next.edge_ok(
                    e,
                ) by {
                    assert(self.edge_ok(e));
                    self.lemma_last_provider_stays(next, e);
                    if e == at {
                        let edge = next.edges[e];
                        assert forall|k: int| 0 <= k < edge.dependers.len() implies (
                        #[trigger] edge.dependers[k]).index < next.packages.len()
                            && depends_on(
                            next.packages[edge.dependers[k].index as int].record,
                            edge.name,
                            edge.spec,
                        ) by {
                            if k < self.edges[e].dependers.len() {
                                assert(edge.dependers[k] == self.edges[e].dependers[k]);
                            }
                        }
                    }
                }
                assert forall|id2: int, c: int|
                    0 <= id2 < next.packages.len() && 0 <= c
                        < next.packages[id2].record.depends.len() && (id2 < next.packages.len() - 1
                        || c < done + 1) implies #[trigger] next.clause_covered(id2, c) by {
                    let clause2 = self.packages[id2].record.depends[c];
                    if id2 == n - 1 && c == done {
                        assert(next.edge_has_key(at, name, spec));
                        assert(next.edges[at].dependers[self.edges[at].dependers.len() as int]
                            == id);
                    } else {
                        assert(self.clause_covered(id2, c));
                        let e = choose|e: int| #[trigger]
                            self.edge_has_key(
                                e,
                                dependency_name(clause2),
                                dependency_spec(clause2),
                            ) && self.edges[e].dependers.contains(PkgIdx { index: id2 as u32 });
                        assert(next.edge_has_key(
                            e,
                            dependency_name(clause2),
                            dependency_spec(clause2),
                        ));
                        let k = choose|k: int|
                            0 <= k < self.edges[e].dependers.len() && self.edges[e].dependers[k]
                                == PkgIdx { index: id2 as u32 };
                        assert(next.edges[e].dependers[k] == PkgIdx { index: id2 as u32 });
                    }
                }
                lemma_edges_named_same_names(self.edges, next.edges, name);
                assert forall|g: int| 0 <= g < next.names.len() implies edges_named(
                    next.edges,
                    #[trigger] next.names[g],
                ).len() > 0 by {
                    lemma_edges_named_same_names(self.edges, next.edges, next.names[g]);
                }
                assert forall|e: int| 0 <= e < next.edges.len() implies next.names.contains(
                    (#[trigger] next.edges[e]).name,
                ) by {
                    assert(self.names.contains(self.edges[e].name));
                }
            },
            None => {
                let fresh = self.edges.len() as int;
                assert forall|e: int| 0 <= e < next.edges.len() implies #[trigger] next.edge_ok(
                    e,
                ) by {
                    if e < fresh {
                        assert(self.edge_ok(e));
                        assert(next.edges[e] == self.edges[e]);
                        self.lemma_last_provider_stays(next, e);
                    } else {
                        assert(next.edges[e].dependers[0] == id);
                    }
                }
                assert forall|e1: int, e2: int| 0 <= e1 < e2 < next.edges.len() implies !(
                #[trigger] next.edges[e1].name == #[trigger] next.edges[e2].name
                    && next.edges[e1].spec == next.edges[e2].spec) by {
                    if e2 == fresh {
                        assert(!self.edge_has_key(e1, name, spec));
                    }
                }
                assert forall|id2: int, c: int|
                    0 <= id2 < next.packages.len() && 0 <= c
                        < next.packages[id2].record.depends.len() && (id2 < next.packages.len() - 1
                        || c < done + 1) implies #[trigger] next.clause_covered(id2, c) by {
                    let clause2 = self.packages[id2].record.depends[c];
                    if id2 == n - 1 && c == done {
                        assert(next.edge_has_key(fresh, name, spec));
                        assert(next.edges[fresh].dependers[0] == id);
                    } else {
                        assert(self.clause_covered(id2, c));
                        let e = choose|e: int| #[trigger]
                            self.edge_has_key(
                                e,
                                dependency_name(clause2),
                                dependency_spec(clause2),
                            ) && self.edges[e].dependers.contains(PkgIdx { index: id2 as u32 });
                        assert(next.edge_has_key(
                            e,
                            dependency_name(clause2),
                            dependency_spec(clause2),
                        ));
                    }
                }
                assert forall|g: int| 0 <= g < next.names.len() implies edges_named(
                    next.edges,
                    #[trigger] next.names[g],
                ).len() > 0 by {
                    lemma_edges_named_push(self.edges, next.edges[fresh], next.names[g]);
                    if g < self.names.len() {
                        assert(next.names[g] == self.names[g]);
                    }
                }
                assert forall|e: int| 0 <= e < next.edges.len() implies next.names.contains(
                    (#[trigger] next.edges[e]).name,
                ) by {
                    if e < fresh {
                        assert(self.names.contains(self.edges[e].name));
                        let g = choose|g: int|
                            0 <= g < self.names.len() && self.names[g] == self.edges[e].name;
                        assert(next.names[g] == self.edges[e].name);
                    } else if self.names.contains(name) {
                    } else {
                        assert(next.names[self.names.len() as int] == name);
                    }
                }
            },
        }
    }

    /// Entering the first `done` clauses of the last package keeps what
    /// holds of the graph.
    pub proof fn lemma_with_dependers(self, done: int)
        requires
            self.packages.len() > 0,
            0 <= done <= self.packages.last().record.depends.len(),
            self.valid_upto(0),
        ensures
            self.with_dependers(
                self.packages.last().record.depends,
                done,
                PkgIdx { index: (self.packages.len() - 1) as u32 },
            ).valid_upto(done),
            self.with_dependers(
                self.packages.last().record.depends,
                done,
                PkgIdx { index: (self.packages.len() - 1) as u32 },
            ).packages == self.packages,
        decreases done,
    {
        if done > 0 {
            self.lemma_with_dependers(done - 1);
            let before = self.with_dependers(
                self.packages.last().record.depends,
                done - 1,
                PkgIdx { index: (self.packages.len() - 1) as u32 },
            );
            before.lemma_with_depender(done - 1);
        }
    }

    /// Inserting a package that the graph takes gives a valid graph.
    pub proof fn lemma_inserted_valid(self, package: PackageView)
        requires
            self.valid(),
            self.takes(package),
        ensures
            self.inserted(package).valid(),
    {
        self.lemma_with_package(package);
        let staged = self.with_package(package);
        assert(staged.packages.last() == package);
        staged.lemma_with_dependers(package.record.depends.len() as int);
    }
}

} // verus!
