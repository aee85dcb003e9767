//! The package graph as plain values, and what holds of every graph.

use vstd::prelude::*;

use crate::bitmap::max_bits;
use crate::conda::version_components;
use crate::depends::dependency_name;
use crate::depends::dependency_spec;
use crate::record::PackageRecordView;

verus! {

/// The position of a package in the package table.
#[derive(Clone, Copy)]
pub struct PkgIdx {
    pub index: u32,
}

/// A distance between two positions in the package table, within the range
/// of one package name.
#[derive(Clone, Copy)]
pub struct PkgIdxOffset {
    pub offset: u16,
}

impl PkgIdx {
    /// The position `value`.
    pub fn from_usize(value: usize) -> (res: PkgIdx)
        requires
            value <= u32::MAX,
        ensures
            res.index == value,
    {
        PkgIdx { index: value as u32 }
    }

    /// The position as an index.
    pub fn index(self) -> (res: usize)
        ensures
            res == self.index,
    {
        self.index as usize
    }

    /// The positions from this one on, `offset` of them: the first, and the
    /// one after the last.
    pub fn range_to(self, offset: PkgIdxOffset) -> (res: (usize, usize))
        requires
            self.index + offset.offset <= usize::MAX,
        ensures
            res.0 == self.index,
            res.1 == self.index + offset.offset,
    {
        (self.index(), self.index() + offset.offset())
    }
}

impl PkgIdxOffset {
    /// The distance as a number.
    pub fn offset(self) -> (res: usize)
        ensures
            res == self.offset,
    {
        self.offset as usize
    }

    /// The distance from `start` to `end`.
    pub fn from_difference(start: PkgIdx, end: usize) -> (res: PkgIdxOffset)
        requires
            start.index <= end,
            end - start.index <= u16::MAX,
        ensures
            res.offset == end - start.index,
    {
        let diff: usize = end - start.index();
        PkgIdxOffset { offset: diff as u16 }
    }
}

/// A package in the table, as plain values.
pub struct PackageView {
    pub filename: Seq<char>,
    pub record: PackageRecordView,
}

/// A dependency edge, as plain values. Its key is `(name, spec)`.
pub struct EdgeView {
    /// The package depended on.
    pub name: Seq<char>,
    /// The constraint on it, as written.
    pub spec: Seq<char>,
    /// Set once no surviving package can meet the dependency any more.
    pub unsatisfiable: bool,
    /// The provider that met the dependency last, counted from the first
    /// package of that name.
    pub last_successful_resolution: Option<PkgIdxOffset>,
    /// The packages that carry this dependency clause.
    pub dependers: Seq<PkgIdx>,
}

/// The package graph, as plain values.
#[verifier::ext_equal]
pub struct RelationsView {
    /// The package table, in the order of insertion.
    pub packages: Seq<PackageView>,
    /// For each package, whether it has been removed.
    pub removed: Seq<bool>,
    /// For each package name, its first package and the number of its
    /// packages.
    pub ranges: Map<Seq<char>, (PkgIdx, PkgIdxOffset)>,
    /// The dependency edges, in the order in which they were first met.
    pub edges: Seq<EdgeView>,
    /// The names that edges point to, in the order in which they were first
    /// met.
    pub names: Seq<Seq<char>>,
}

/// The number of packages a graph can hold: positions are 32 bits wide, and
/// the bitmap has its own limit.
pub open spec fn capacity() -> int {
    if max_bits() <= u32::MAX {
        max_bits()
    } else {
        u32::MAX + 1
    }
}

/// Whether `record` carries a clause that depends on `name` under the
/// constraint `spec`.
pub open spec fn depends_on(record: PackageRecordView, name: Seq<char>, spec: Seq<char>) -> bool {
    exists|c: int|
        0 <= c < record.depends.len() && dependency_name(#[trigger] record.depends[c]) == name
            && dependency_spec(record.depends[c]) == spec
}

/// A record that the graph takes: its version can be read.
pub open spec fn record_ok(record: PackageRecordView) -> bool {
    version_components(record.version) is Some
}

/// Whether the constraint of each of `clauses` is among `texts`.
pub open spec fn clauses_in(clauses: Seq<Seq<char>>, texts: Seq<Seq<char>>) -> bool {
    forall|c: int| 0 <= c < clauses.len() ==> texts.contains(dependency_spec(#[trigger] clauses[c]))
}

/// The positions of the edges that point to `name`, in ascending order.
pub open spec fn edges_named(edges: Seq<EdgeView>, name: Seq<char>) -> Seq<int>
    decreases edges.len(),
{
    if edges.len() == 0 {
        Seq::empty()
    } else if edges.last().name == name {
        edges_named(edges.drop_last(), name).push(edges.len() - 1)
    } else {
        edges_named(edges.drop_last(), name)
    }
}

impl RelationsView {
    /// Whether the edge at `e` has the key `(name, spec)`.
    pub open spec fn edge_has_key(self, e: int, name: Seq<char>, spec: Seq<char>) -> bool {
        0 <= e < self.edges.len() && self.edges[e].name == name && self.edges[e].spec == spec
    }

    /// The position of the edge with the key `(name, spec)`, if there is one.
    pub open spec fn edge_index(self, name: Seq<char>, spec: Seq<char>) -> Option<int> {
        if exists|e: int| self.edge_has_key(e, name, spec) {
            Some(choose|e: int| self.edge_has_key(e, name, spec))
        } else {
            None
        }
    }

    /// Density: the bitmap has one bit for each package, and the table is
    /// within its capacity.
    pub open spec fn dense(self) -> bool {
        self.removed.len() == self.packages.len() <= capacity()
    }

    /// Range contiguity: each package's name has a range, and the range of a
    /// name holds exactly the packages of that name.
    pub open spec fn ranges_exact(self) -> bool {
        &&& forall|id: int|
            0 <= id < self.packages.len() ==> self.ranges.contains_key(
                #[trigger] self.packages[id].record.name,
            )
        &&& forall|name: Seq<char>| #[trigger]
            self.ranges.contains_key(name) ==> self.range_exact(name)
    }

    /// The range of `name` is not empty, lies in the table, and holds
    /// exactly the packages named `name`.
    pub open spec fn range_exact(self, name: Seq<char>) -> bool {
        let (first, count) = self.ranges[name];
        &&& count.offset >= 1
        &&& first.index + count.offset <= self.packages.len()
        &&& forall|id: int|
            0 <= id < self.packages.len() ==> (first.index <= id < first.index + count.offset <==> (
            #[trigger] self.packages[id]).record.name == name)
    }

    /// The edge at `e` is sound: somebody depends on it, each of its
    /// dependers is a package that carries its clause, and its last
    /// provider lies in the range of its name, with nothing before it in
    /// the range that meets the edge.
    pub open spec fn edge_ok(self, e: int) -> bool {
        let edge = self.edges[e];
        &&& edge.dependers.len() > 0
        &&& forall|k: int|
            0 <= k < edge.dependers.len() ==> (#[trigger] edge.dependers[k]).index
                < self.packages.len() && depends_on(
                self.packages[edge.dependers[k].index as int].record,
                edge.name,
                edge.spec,
            )
        &&& edge.last_successful_resolution matches Some(last) ==> self.ranges.contains_key(
            edge.name,
        ) && last.offset < self.ranges[edge.name].1.offset && self.nothing_before(
            e,
            last.offset as int,
        )
    }

    /// Every edge is sound, and no two edges have the same key.
    pub open spec fn edges_ok(self) -> bool {
        &&& forall|e: int| 0 <= e < self.edges.len() ==> #[trigger] self.edge_ok(e)
        &&& forall|e1: int, e2: int|
            0 <= e1 < e2 < self.edges.len() ==> !(#[trigger] self.edges[e1].name
                == #[trigger] self.edges[e2].name && self.edges[e1].spec == self.edges[e2].spec)
    }

    /// Whether some edge has the key of the clause `c` of package `id` and
    /// lists that package as a depender.
    pub open spec fn clause_covered(self, id: int, c: int) -> bool {
        let clause = self.packages[id].record.depends[c];
        exists|e: int| #[trigger]
            self.edge_has_key(e, dependency_name(clause), dependency_spec(clause))
                && self.edges[e].dependers.contains(PkgIdx { index: id as u32 })
    }

    /// Every dependency clause of every package but the last has its edge;
    /// of the last package, the first `done` clauses have.
    pub open spec fn covered_upto(self, done: int) -> bool {
        forall|id: int, c: int|
            0 <= id < self.packages.len() && 0 <= c < self.packages[id].record.depends.len() && (id
                < self.packages.len() - 1 || c < done) ==> #[trigger] self.clause_covered(id, c)
    }

    /// Every dependency clause of every package has its edge.
    pub open spec fn covered(self) -> bool {
        forall|id: int, c: int|
            0 <= id < self.packages.len() && 0 <= c < self.packages[id].record.depends.len()
                ==> #[trigger] self.clause_covered(id, c)
    }

    /// Whether the constraints of the packages' dependency clauses are all
    /// among `texts`: whether a cache that holds `texts` holds what the
    /// parser made of each.
    pub open spec fn interned_in(self, texts: Seq<Seq<char>>) -> bool {
        forall|id: int|
            0 <= id < self.packages.len() ==> clauses_in(
                (#[trigger] self.packages[id]).record.depends,
                texts,
            )
    }

    /// Whether `text` is the constraint of a dependency clause of one of the
    /// packages.
    pub open spec fn carries_spec(self, text: Seq<char>) -> bool {
        exists|id: int, c: int|
            0 <= id < self.packages.len() && 0 <= c < self.packages[id].record.depends.len()
                && dependency_spec(#[trigger] self.packages[id].record.depends[c]) == text
    }

    /// Whether each of `specs` is the constraint of a dependency clause of
    /// one of the packages.
    pub open spec fn carries_all(self, specs: Seq<Seq<char>>) -> bool {
        forall|k: int| 0 <= k < specs.len() ==> self.carries_spec(#[trigger] specs[k])
    }

    /// Every record in the table is one that the graph takes.
    pub open spec fn records_ok(self) -> bool {
        forall|id: int|
            0 <= id < self.packages.len() ==> record_ok((#[trigger] self.packages[id]).record)
    }

    /// The names are those that edges point to, each once.
    pub open spec fn names_exact(self) -> bool {
        &&& forall|g: int, h: int|
            0 <= g < h < self.names.len() ==> self.names[g] != self.names[h]
        &&& forall|e: int|
            0 <= e < self.edges.len() ==> self.names.contains((#[trigger] self.edges[e]).name)
        &&& forall|g: int|
            0 <= g < self.names.len() ==> edges_named(self.edges, #[trigger] self.names[g]).len()
                > 0
    }

    /// What holds of every graph.
    pub open spec fn valid(self) -> bool {
        &&& self.dense()
        &&& self.ranges_exact()
        &&& self.edges_ok()
        &&& self.covered()
        &&& self.records_ok()
        &&& self.names_exact()
    }

    /// The graph with the package `id` listed as a depender under the key of
    /// `clause`: on the edge of that key if there is one, else on a new edge.
    pub open spec fn with_depender(self, clause: Seq<char>, id: PkgIdx) -> RelationsView {
        let name = dependency_name(clause);
        let spec = dependency_spec(clause);
        match self.edge_index(name, spec) {
            Some(e) => RelationsView {
                edges: self.edges.update(
                    e,
                    EdgeView { dependers: self.edges[e].dependers.push(id), ..self.edges[e] },
                ),
                ..self
            },
            None => RelationsView {
                edges: self.edges.push(
                    EdgeView {
                        name,
                        spec,
                        unsatisfiable: false,
                        last_successful_resolution: None,
                        dependers: seq![id],
                    },
                ),
                names: if self.names.contains(name) {
                    self.names
                } else {
                    self.names.push(name)
                },
                ..self
            },
        }
    }

    /// The graph after the first `done` of `clauses` have been entered for
    /// the package `id`.
    pub open spec fn with_dependers(self, clauses: Seq<Seq<char>>, done: int, id: PkgIdx) -> RelationsView
        decreases done,
    {
        if done <= 0 {
            self
        } else {
            self.with_dependers(clauses, done - 1, id).with_depender(clauses[done - 1], id)
        }
    }

    /// The graph with one more package at the end of the table, not removed,
    /// and the range of its name one longer. No edge knows of it yet.
    pub open spec fn with_package(self, package: PackageView) -> RelationsView {
        let name = package.record.name;
        let id = PkgIdx { index: self.packages.len() as u32 };
        RelationsView {
            packages: self.packages.push(package),
            removed: self.removed.push(false),
            ranges: if self.ranges.contains_key(name) {
                self.ranges.insert(
                    name,
                    (
                        self.ranges[name].0,
                        PkgIdxOffset { offset: (self.ranges[name].1.offset + 1) as u16 },
                    ),
                )
            } else {
                self.ranges.insert(name, (id, PkgIdxOffset { offset: 1 }))
            },
            ..self
        }
    }

    /// The graph after `package` has been inserted.
    pub open spec fn inserted(self, package: PackageView) -> RelationsView {
        self.with_package(package).with_dependers(
            package.record.depends,
            package.record.depends.len() as int,
            PkgIdx { index: self.packages.len() as u32 },
        )
    }

    /// Whether `package` can be inserted next: there is room for it, it
    /// follows the packages of its name directly, and its record is one
    /// that the graph takes.
    pub open spec fn takes(self, package: PackageView) -> bool {
        let name = package.record.name;
        &&& self.packages.len() < capacity()
        &&& self.ranges.contains_key(name) ==> self.ranges[name].1.offset < u16::MAX
            && self.packages.len() > 0 && self.packages.last().record.name == name
        &&& record_ok(package.record)
    }
}

} // verus!
