//! The package graph itself: how it is stored, and the steps by which the
//! passes read and change it.

use vstd::hash_map::StringHashMap;
use vstd::prelude::*;
use vstd::string::StringExecFns;

use crate::bitmap::Bitmap;
use crate::bitmap::bits_of;
use crate::depends::dependency_name;
use crate::depends::dependency_spec;
use crate::depends::dependsstr_to_name_and_spec;
use crate::matchspeccache::taken_for_sure;
use crate::matchspeccache::Cache;
use crate::matchspeccache::with_text;
use crate::packagerelations::growth::lemma_edges_named_members;
use crate::packagerelations::growth::lemma_edges_named_push;
use crate::packagerelations::growth::lemma_edges_named_same_names;
use crate::packagerelations::model::capacity;
use crate::packagerelations::model::clauses_in;
use crate::packagerelations::model::edges_named;
use crate::packagerelations::model::EdgeView;
use crate::packagerelations::model::PackageView;
use crate::packagerelations::model::PkgIdx;
use crate::packagerelations::model::PkgIdxOffset;
use crate::packagerelations::model::record_ok;
use crate::packagerelations::model::RelationsView;
use crate::pipeline_laws::lemma_with_dependers_packages;
use crate::record::PackageRecord;

verus! {

/// A package in the table: its file name and its record.
#[derive(Clone, Copy)]
pub struct PackageMetadata<'a> {
    pub filename: &'a str,
    pub package_record: &'a PackageRecord,
}

impl<'a> View for PackageMetadata<'a> {
    type V = PackageView;

    open spec fn view(&self) -> PackageView {
        PackageView { filename: self.filename@, record: self.package_record@ }
    }
}

/// A dependency edge: all the packages that depend on `name` under the
/// constraint `matchspec`.
pub struct PackageDependency<'a> {
    /// The package depended on.
    pub name: &'a str,
    /// The constraint on it, as written.
    pub matchspec: &'a str,
    /// If set, this dependency can never be met again.
    pub unsatisfiable: bool,
    /// Which package met this dependency last, if any.
    pub last_successful_resolution: Option<PkgIdxOffset>,
    /// Which packages carry this dependency.
    pub dependers: Vec<PkgIdx>,
}

impl<'a> View for PackageDependency<'a> {
    type V = EdgeView;

    open spec fn view(&self) -> EdgeView {
        EdgeView {
            name: self.name@,
            spec: self.matchspec@,
            unsatisfiable: self.unsatisfiable,
            last_successful_resolution: self.last_successful_resolution,
            dependers: self.dependers@,
        }
    }
}

/// The edges that point to one name: their positions, in ascending order,
/// and by their constraints.
struct DependencyGroup<'a> {
    name: &'a str,
    members: Vec<usize>,
    by_spec: StringHashMap<usize>,
}

/// `Vec::shrink_to_fit`: gives back unused capacity; the items stay.
#[verifier::external_body]
fn shrink_vec<T>(items: &mut Vec<T>)
    ensures
        final(items)@ == old(items)@,
{
    items.shrink_to_fit();
}

/// The package graph.
pub struct PackageRelations<'a> {
    removed: Bitmap,
    package_dependencies: Vec<PackageDependency<'a>>,
    dependency_groups: Vec<DependencyGroup<'a>>,
    group_of_name: StringHashMap<usize>,
    // In the order of insertion, which keeps the packages of one name
    // together: a name's packages are a range of positions.
    package_metadatas: Vec<PackageMetadata<'a>>,
    package_name_to_providers: StringHashMap<(PkgIdx, PkgIdxOffset)>,
}

impl<'a> View for PackageRelations<'a> {
    type V = RelationsView;

    closed spec fn view(&self) -> RelationsView {
        RelationsView {
            packages: self.package_metadatas@.map_values(|m: PackageMetadata<'a>| m@),
            removed: bits_of(self.removed),
            ranges: self.package_name_to_providers@,
            edges: self.package_dependencies@.map_values(|d: PackageDependency<'a>| d@),
            names: self.dependency_groups@.map_values(|g: DependencyGroup<'a>| g.name@),
        }
    }
}

/// The interned texts after the constraints of the first `upto` of
/// `clauses` have been interned, in order.
pub open spec fn with_constraints(texts: Seq<Seq<char>>, clauses: Seq<Seq<char>>, upto: int) -> Seq<
    Seq<char>,
>
    decreases upto,
{
    if upto <= 0 {
        texts
    } else {
        with_text(with_constraints(texts, clauses, upto - 1), dependency_spec(clauses[upto - 1]))
    }
}

/// Once the constraints of clauses are interned, each of them is among the
/// interned texts, and interning them again changes nothing.
pub proof fn lemma_constraints_interned(texts: Seq<Seq<char>>, clauses: Seq<Seq<char>>, upto: int)
    requires
        0 <= upto <= clauses.len(),
    ensures
        forall|c: int|
            0 <= c < upto ==> with_constraints(texts, clauses, upto).contains(
                dependency_spec(#[trigger] clauses[c]),
            ),
        forall|text: Seq<char>|
            texts.contains(text) ==> with_constraints(texts, clauses, upto).contains(text),
        with_constraints(with_constraints(texts, clauses, upto), clauses, upto) == with_constraints(
            texts,
            clauses,
            upto,
        ),
    decreases upto,
{
    if upto > 0 {
        lemma_constraints_interned(texts, clauses, upto - 1);
        let before = with_constraints(texts, clauses, upto - 1);
        let after = with_constraints(texts, clauses, upto);
        let spec = dependency_spec(clauses[upto - 1]);
        assert forall|text: Seq<char>| before.contains(text) implies after.contains(text) by {
            let k = choose|k: int| 0 <= k < before.len() && before[k] == text;
            assert(after[k] == text);
        }
        assert(after.contains(spec)) by {
            if !before.contains(spec) {
                assert(after[before.len() as int] == spec);
            }
        }
        lemma_constraints_again(after, clauses, upto);
    }
}

/// Once the constraints of clauses are interned, the interned texts are
/// those that were interned before and the constraints of the clauses.
pub proof fn lemma_constraints_members(texts: Seq<Seq<char>>, clauses: Seq<Seq<char>>, upto: int)
    requires
        0 <= upto <= clauses.len(),
    ensures
        forall|text: Seq<char>| #[trigger]
            with_constraints(texts, clauses, upto).contains(text) ==> texts.contains(text) || exists|
                j: int,
            |
                0 <= j < upto && dependency_spec(#[trigger] clauses[j]) == text,
    decreases upto,
{
    if upto > 0 {
        lemma_constraints_members(texts, clauses, upto - 1);
        let before = with_constraints(texts, clauses, upto - 1);
        let after = with_constraints(texts, clauses, upto);
        assert forall|text: Seq<char>| #[trigger] after.contains(text) implies texts.contains(
            text,
        ) || exists|j: int| 0 <= j < upto && dependency_spec(#[trigger] clauses[j]) == text by {
            let k = choose|k: int| 0 <= k < after.len() && after[k] == text;
            if k < before.len() {
                assert(before[k] == text);
                assert(before.contains(text));
                if !texts.contains(text) {
                    let j = choose|j: int|
                        0 <= j < upto - 1 && dependency_spec(#[trigger] clauses[j]) == text;
                    assert(dependency_spec(clauses[j]) == text);
                }
            } else {
                assert(dependency_spec(clauses[upto - 1]) == text);
            }
        }
    }
}

/// Interning constraints that are all interned already changes nothing.
pub proof fn lemma_constraints_again(texts: Seq<Seq<char>>, clauses: Seq<Seq<char>>, upto: int)
    requires
        0 <= upto <= clauses.len(),
        forall|c: int| 0 <= c < upto ==> texts.contains(dependency_spec(#[trigger] clauses[c])),
    ensures
        with_constraints(texts, clauses, upto) == texts,
    decreases upto,
{
    if upto > 0 {
        lemma_constraints_again(texts, clauses, upto - 1);
    }
}

/// The number of packages that a graph can hold.
pub fn capacity_limit() -> (res: usize)
    ensures
        res == capacity(),
{
    let bits: usize = usize::MAX / 8;
    if bits <= u32::MAX as usize {
        bits
    } else {
        u32::MAX as usize + 1
    }
}

impl<'a> PackageRelations<'a> {
    spec fn edge_linked(&self, e: int) -> bool {
        let edge = self.package_dependencies[e];
        &&& self.group_of_name@.contains_key(edge.name@)
        &&& self.group_of_name@[edge.name@] < self.dependency_groups.len()
        &&& self.dependency_groups[self.group_of_name@[edge.name@] as int].by_spec@.contains_key(
            edge.matchspec@,
        )
        &&& self.dependency_groups[self.group_of_name@[edge.name@] as int].by_spec@[edge.matchspec@]
            == e
    }

    spec fn group_linked(&self, g: int) -> bool {
        let group = self.dependency_groups[g];
        &&& self.group_of_name@.contains_key(group.name@)
        &&& self.group_of_name@[group.name@] == g
        &&& group.members@.map_values(|m: usize| m as int) == edges_named(
            self@.edges,
            group.name@,
        )
        &&& forall|spec: Seq<char>| #[trigger]
            group.by_spec@.contains_key(spec) ==> group.by_spec@[spec]
                < self.package_dependencies.len()
                && self.package_dependencies[group.by_spec@[spec] as int].name@ == group.name@
                && self.package_dependencies[group.by_spec@[spec] as int].matchspec@ == spec
    }

    /// The tables by which edges are found agree with the edges.
    spec fn linked(&self) -> bool {
        &&& forall|e: int|
            0 <= e < self.package_dependencies.len() ==> #[trigger] self.edge_linked(e)
        &&& forall|g: int| 0 <= g < self.dependency_groups.len() ==> #[trigger] self.group_linked(g)
        &&& forall|name: Seq<char>| #[trigger]
            self.group_of_name@.contains_key(name) ==> self.group_of_name@[name]
                < self.dependency_groups.len()
                && self.dependency_groups[self.group_of_name@[name] as int].name@ == name
    }

    /// The graph's invariant: its view is valid, and its tables agree with
    /// its edges.
    pub closed spec fn wf(&self) -> bool {
        &&& self@.valid()
        &&& self.linked()
    }

    /// The view of a well-formed graph is valid, and the number of its
    /// edges is one that the machine can count.
    pub proof fn lemma_valid(&self)
        requires
            self.wf(),
        ensures
            self@.valid(),
            self@.edges.len() <= usize::MAX,
    {
        assert(self.package_dependencies.len() == self@.edges.len());
    }

    /// An empty graph.
    pub fn new() -> (res: PackageRelations<'a>)
        ensures
            res.wf(),
            res@.packages.len() == 0,
            res@.edges.len() == 0,
            res@.names.len() == 0,
            res@.ranges == Map::<Seq<char>, (PkgIdx, PkgIdxOffset)>::empty(),
    {
        let versions_capacity: usize = 768 * 1024;
        let providers_capacity: usize = 32 * 1024;
        PackageRelations {
            removed: Bitmap::with_capacity(versions_capacity),
            package_dependencies: Vec::new(),
            dependency_groups: Vec::with_capacity(providers_capacity),
            group_of_name: StringHashMap::with_capacity(providers_capacity),
            package_metadatas: Vec::with_capacity(versions_capacity),
            package_name_to_providers: StringHashMap::with_capacity(providers_capacity),
        }
    }

    /// How many packages, how many distinct package names, and how many
    /// edges the graph holds.
    pub fn stats(&self) -> (res: (usize, usize, usize))
        ensures
            res.0 == self@.packages.len(),
            res.1 == self@.ranges.len(),
            res.2 == self@.edges.len(),
    {
        (
            self.package_metadatas.len(),
            self.package_name_to_providers.len(),
            self.package_dependencies.len(),
        )
    }

    /// How many distinct names the packages depend on.
    pub(crate) fn depended_names(&self) -> (res: usize)
        ensures
            res == self@.names.len(),
    {
        self.dependency_groups.len()
    }

    /// Gives unused capacity back. The graph stays what it is.
    pub fn shrink_to_fit(&mut self)
        requires
            old(self).wf(),
        ensures
            final(self).wf(),
            final(self)@ == old(self)@,
    {
        self.removed.shrink_to_fit();
        shrink_vec(&mut self.package_metadatas);
        shrink_vec(&mut self.package_dependencies);
        shrink_vec(&mut self.dependency_groups);
        proof {
            assert(self@ =~= old(self)@);
            assert forall|e: int| 0 <= e < self.package_dependencies.len() implies #[trigger] self.edge_linked(
                e,
            ) by {
                assert(old(self).edge_linked(e));
            }
            assert forall|g: int| 0 <= g < self.dependency_groups.len() implies #[trigger] self.group_linked(
                g,
            ) by {
                assert(old(self).group_linked(g));
            }
        }
    }

    /// How many packages the table holds.
    pub fn len(&self) -> (res: usize)
        ensures
            res == self@.packages.len(),
    {
        self.package_metadatas.len()
    }

    /// The package at the position `id`.
    pub fn metadata(&self, id: usize) -> (res: PackageMetadata<'a>)
        requires
            id < self@.packages.len(),
        ensures
            res@ == self@.packages[id as int],
    {
        self.package_metadatas[id]
    }

    /// Whether the package at `id` has been removed.
    pub fn is_removed(&self, id: usize) -> (res: bool)
        requires
            id < self@.removed.len(),
        ensures
            res == self@.removed[id as int],
    {
        self.removed.get(id)
    }

    /// Marks the package at `id` as removed. Nothing else changes.
    pub fn mark_removed(&mut self, id: usize)
        requires
            old(self).wf(),
            id < old(self)@.packages.len(),
        ensures
            final(self).wf(),
            final(self)@ == (RelationsView {
                removed: old(self)@.removed.update(id as int, true),
                ..old(self)@
            }),
    {
        self.removed.set(id, true);
        proof {
            self.lemma_frame(old(self));
        }
    }

    /// The positions of the packages named `package_name`: the first, and
    /// the one after the last. Both are 0 where no package has that name.
    pub fn mkrange(&self, package_name: &str) -> (res: (usize, usize))
        requires
            self.wf(),
        ensures
            res.0 <= res.1 <= self@.packages.len(),
            res.1 - res.0 <= u16::MAX,
            match self@.ranges.contains_key(package_name@) {
                true => res.0 == self@.ranges[package_name@].0.index && res.1 == res.0
                    + self@.ranges[package_name@].1.offset,
                false => res.0 == 0 && res.1 == 0,
            },
            forall|id: int|
                0 <= id < self@.packages.len() ==> (res.0 <= id < res.1 <==> (
                #[trigger] self@.packages[id]).record.name == package_name@),
    {
        match self.package_name_to_providers.get(package_name) {
            Some(range) => {
                proof {
                    assert(self@.range_exact(package_name@));
                }
                range.0.range_to(range.1)
            },
            None => {
                proof {
                    assert forall|id: int| 0 <= id < self@.packages.len() implies (
                    #[trigger] self@.packages[id]).record.name != package_name@ by {
                        assert(self@.ranges.contains_key(self@.packages[id].record.name));
                    }
                }
                (0, 0)
            },
        }
    }

    /// The edge at the position `e`.
    pub fn dependency(&self, e: usize) -> (res: &PackageDependency<'a>)
        requires
            e < self@.edges.len(),
        ensures
            res@ == self@.edges[e as int],
    {
        &self.package_dependencies[e]
    }

    /// Marks the edge at `e` as one that can never be met again. Nothing
    /// else changes.
    pub fn mark_unsatisfiable(&mut self, e: usize)
        requires
            old(self).wf(),
            e < old(self)@.edges.len(),
        ensures
            final(self).wf(),
            final(self)@ == (RelationsView {
                edges: old(self)@.edges.update(
                    e as int,
                    EdgeView { unsatisfiable: true, ..old(self)@.edges[e as int] },
                ),
                ..old(self)@
            }),
    {
        self.package_dependencies[e].unsatisfiable = true;
        proof {
            self.lemma_frame(old(self));
            assert(self@.edges =~= old(self)@.edges.update(
                e as int,
                EdgeView { unsatisfiable: true, ..old(self)@.edges[e as int] },
            ));
        }
    }

    /// Notes on the edge at `e` that the package `offset` places into the
    /// range of the edge's name met it last. Nothing before that package in
    /// the range may meet the edge: the next search begins there. Nothing
    /// else changes.
    pub fn record_resolution(&mut self, e: usize, offset: PkgIdxOffset)
        requires
            old(self).wf(),
            e < old(self)@.edges.len(),
            old(self)@.ranges.contains_key(old(self)@.edges[e as int].name),
            offset.offset < old(self)@.ranges[old(self)@.edges[e as int].name].1.offset,
            old(self)@.nothing_before(e as int, offset.offset as int),
        ensures
            final(self).wf(),
            final(self)@ == (RelationsView {
                edges: old(self)@.edges.update(
                    e as int,
                    EdgeView {
                        last_successful_resolution: Some(offset),
                        ..old(self)@.edges[e as int]
                    },
                ),
                ..old(self)@
            }),
    {
        self.package_dependencies[e].last_successful_resolution = Some(offset);
        proof {
            assert(self@.edges =~= old(self)@.edges.update(
                e as int,
                EdgeView {
                    last_successful_resolution: Some(offset),
                    ..old(self)@.edges[e as int]
                },
            ));
            assert forall|id: int|
                self@.providers_of(e as int).0 <= id < self@.providers_of(e as int).0
                    + offset.offset implies !#[trigger] self@.provides(e as int, id) by {
                assert(!old(self)@.provides(e as int, id));
            }
            self.lemma_frame(old(self));
        }
    }

    /// The name at the position `g` among the names that packages depend
    /// on.
    pub fn depended_name(&self, g: usize) -> (res: &'a str)
        requires
            g < self@.names.len(),
        ensures
            res@ == self@.names[g as int],
    {
        self.dependency_groups[g].name
    }

    /// The positions of the edges that point to the name at `g`.
    pub fn edges_of(&self, g: usize) -> (res: &Vec<usize>)
        requires
            self.wf(),
            g < self@.names.len(),
        ensures
            res@.map_values(|m: usize| m as int) == edges_named(self@.edges, self@.names[g as int]),
    {
        proof {
            assert(self.group_linked(g as int));
        }
        &self.dependency_groups[g].members
    }

    /// The position of `name` among the names that packages depend on.
    pub fn find_name(&self, name: &str) -> (res: Option<usize>)
        requires
            self.wf(),
        ensures
            match res {
                Some(g) => g < self@.names.len() && self@.names[g as int] == name@,
                None => !self@.names.contains(name@),
            },
    {
        self.lookup_name(name)
    }

    fn lookup_name(&self, name: &str) -> (res: Option<usize>)
        requires
            self.linked(),
        ensures
            match res {
                Some(g) => g < self@.names.len() && self@.names[g as int] == name@
                    && self.group_of_name@.contains_key(name@) && self.group_of_name@[name@] == g,
                None => !self@.names.contains(name@) && !self.group_of_name@.contains_key(name@),
            },
    {
        match self.group_of_name.get(name) {
            Some(g) => Some(*g),
            None => {
                proof {
                    if self@.names.contains(name@) {
                        let g = choose|g: int| 0 <= g < self@.names.len() && self@.names[g] == name@;
                        assert(self.group_linked(g));
                    }
                }
                None
            },
        }
    }

    /// The position of the edge with the key `(name, spec)`.
    pub fn find_edge(&self, name: &str, spec: &str) -> (res: Option<usize>)
        requires
            self.wf(),
        ensures
            match res {
                Some(e) => self@.edge_has_key(e as int, name@, spec@) && self@.edge_index(
                    name@,
                    spec@,
                ) == Some(e as int),
                None => self@.edge_index(name@, spec@) is None,
            },
    {
        self.lookup_edge(name, spec)
    }

    proof fn lemma_key_found(&self, e: int, name: Seq<char>, spec: Seq<char>)
        requires
            self.linked(),
            self@.edge_has_key(e, name, spec),
        ensures
            self@.edge_index(name, spec) == Some(e),
    {
        let found = choose|f: int| self@.edge_has_key(f, name, spec);
        assert(self.edge_linked(e));
        assert(self.edge_linked(found));
    }

    fn lookup_edge(&self, name: &str, spec: &str) -> (res: Option<usize>)
        requires
            self.linked(),
        ensures
            match res {
                Some(e) => self@.edge_has_key(e as int, name@, spec@) && self@.edge_index(
                    name@,
                    spec@,
                ) == Some(e as int),
                None => self@.edge_index(name@, spec@) is None,
            },
    {
        match self.lookup_name(name) {
            Some(g) => {
                proof {
                    assert(self.group_linked(g as int));
                }
                match self.dependency_groups[g].by_spec.get(spec) {
                    Some(e) => {
                        proof {
                            self.lemma_key_found(*e as int, name@, spec@);
                        }
                        Some(*e)
                    },
                    None => {
                        proof {
                            if exists|e: int| self@.edge_has_key(e, name@, spec@) {
                                let e = choose|e: int| self@.edge_has_key(e, name@, spec@);
                                assert(self.edge_linked(e));
                            }
                        }
                        None
                    },
                }
            },
            None => {
                proof {
                    if exists|e: int| self@.edge_has_key(e, name@, spec@) {
                        let e = choose|e: int| self@.edge_has_key(e, name@, spec@);
                        assert(self.edge_linked(e));
                    }
                }
                None
            },
        }
    }

    /// The edges of the dependency clauses of the package at `index`, in
    /// the order of the clauses.
    pub fn get_dependencies(&self, index: usize) -> (res: Vec<usize>)
        requires
            self.wf(),
            index < self@.packages.len(),
        ensures
            res.len() == self@.packages[index as int].record.depends.len(),
            forall|c: int|
                0 <= c < res.len() ==> self@.edge_has_key(
                    (#[trigger] res[c]) as int,
                    dependency_name(self@.packages[index as int].record.depends[c]),
                    dependency_spec(self@.packages[index as int].record.depends[c]),
                ) && self@.edges[res[c] as int].dependers.contains(PkgIdx { index: index as u32 }),
    {
        let record = self.package_metadatas[index].package_record;
        let ghost clauses = self@.packages[index as int].record.depends;
        let mut res: Vec<usize> = Vec::new();
        let mut c: usize = 0;
        proof {
            assert(record_ok(self@.packages[index as int].record));
        }
        while c < record.depends.len()
            invariant
                c <= record.depends.len(),
                self.wf(),
                index < self@.packages.len(),
                clauses == self@.packages[index as int].record.depends,
                clauses == record@.depends,
                record_ok(self@.packages[index as int].record),
                res.len() == c,
                forall|d: int|
                    0 <= d < c ==> self@.edge_has_key(
                        (#[trigger] res[d]) as int,
                        dependency_name(clauses[d]),
                        dependency_spec(clauses[d]),
                    ) && self@.edges[res[d] as int].dependers.contains(
                        PkgIdx { index: index as u32 },
                    ),
            decreases record.depends.len() - c,
        {
            let depend = record.depends[c].as_str();
            assert(clauses[c as int] == depend@);
            let (dependency_name, dependency_spec) = dependsstr_to_name_and_spec(depend);
            proof {
                assert(self@.clause_covered(index as int, c as int));
                let e = choose|e: int| #[trigger]
                    self@.edge_has_key(e, dependency_name@, dependency_spec@)
                        && self@.edges[e].dependers.contains(PkgIdx { index: index as u32 });
                self.lemma_key_found(e, dependency_name@, dependency_spec@);
            }
            match self.lookup_edge(dependency_name, dependency_spec) {
                Some(e) => {
                    res.push(e);
                },
                None => {
                    vstd::pervasive::unreached::<()>();
                },
            }
            c = c + 1;
        }
        res
    }

    /// Lists the package at `index` as a depender under the key `(name,
    /// spec)`: on the edge of that key if there is one, else on a new edge.
    fn add_depender(&mut self, name: &'a str, spec: &'a str, index: PkgIdx, Ghost(clause): Ghost<Seq<char>>)
        requires
            old(self).linked(),
            name@ == dependency_name(clause),
            spec@ == dependency_spec(clause),
        ensures
            final(self).linked(),
            final(self)@ == old(self)@.with_depender(clause, index),
    {
        match self.lookup_edge(name, spec) {
            Some(e) => {
                self.package_dependencies[e].dependers.push(index);
                proof {
                    let was = old(self)@;
                    let now = self@;
                    assert(now.edges =~= was.edges.update(
                        e as int,
                        EdgeView {
                            dependers: was.edges[e as int].dependers.push(index),
                            ..was.edges[e as int]
                        },
                    ));
                    assert(now =~= was.with_depender(clause, index));
                    assert forall|f: int|
                        0 <= f < self.package_dependencies.len() implies #[trigger] self.edge_linked(
                        f,
                    ) by {
                        assert(old(self).edge_linked(f));
                    }
                    assert forall|g: int|
                        0 <= g < self.dependency_groups.len() implies #[trigger] self.group_linked(
                        g,
                    ) by {
                        assert(old(self).group_linked(g));
                        lemma_edges_named_same_names(
                            was.edges,
                            now.edges,
                            self.dependency_groups[g].name@,
                        );
                    }
                }
            },
            None => {
                let e: usize = self.package_dependencies.len();
                let mut dependers: Vec<PkgIdx> = Vec::new();
                dependers.push(index);
                let edge = PackageDependency {
                    name,
                    matchspec: spec,
                    unsatisfiable: false,
                    last_successful_resolution: None,
                    dependers,
                };
                let ghost fresh = edge@;
                proof {
                    assert(fresh.dependers =~= seq![index]);
                }
                match self.lookup_name(name) {
                    Some(g) => {
                        self.package_dependencies.push(edge);
                        self.dependency_groups[g].members.push(e);
                        self.dependency_groups[g].by_spec.insert(String::from_str(spec), e);
                        proof {
                            let was = old(self)@;
                            let now = self@;
                            assert(now.edges =~= was.edges.push(fresh));
                            assert(now.names =~= was.names);
                            assert(was.names.contains(name@));
                            assert(now =~= was.with_depender(clause, index));
                            assert(old(self).group_linked(g as int));
                            assert forall|f: int|
                                0 <= f
                                    < self.package_dependencies.len() implies #[trigger] self.edge_linked(
                                f,
                            ) by {
                                if f < e {
                                    assert(old(self).edge_linked(f));
                                    assert(self.package_dependencies[f]
                                        == old(self).package_dependencies[f]);
                                    if old(self).group_of_name@[old(self).package_dependencies[f].name@]
                                        == g {
                                        assert(was.edge_has_key(
                                            f,
                                            old(self).package_dependencies[f].name@,
                                            old(self).package_dependencies[f].matchspec@,
                                        ));
                                    }
                                }
                            }
                            assert forall|h: int|
                                0 <= h
                                    < self.dependency_groups.len() implies #[trigger] self.group_linked(
                                h,
                            ) by {
                                assert(old(self).group_linked(h));
                                lemma_edges_named_push(
                                    was.edges,
                                    fresh,
                                    self.dependency_groups[h].name@,
                                );
                                if h == g {
                                    assert(self.dependency_groups[h].members@.map_values(
                                        |m: usize| m as int,
                                    ) =~= old(self).dependency_groups[h].members@.map_values(
                                        |m: usize| m as int,
                                    ).push(e as int));
                                } else {
                                    assert(self.dependency_groups[h] == old(self).dependency_groups[h]);
                                }
                            }
                        }
                    },
                    None => {
                        let g: usize = self.dependency_groups.len();
                        let mut members: Vec<usize> = Vec::new();
                        members.push(e);
                        let mut by_spec: StringHashMap<usize> = StringHashMap::new();
                        by_spec.insert(String::from_str(spec), e);
                        self.package_dependencies.push(edge);
                        self.dependency_groups.push(DependencyGroup { name, members, by_spec });
                        self.group_of_name.insert(String::from_str(name), g);
                        proof {
                            let was = old(self)@;
                            let now = self@;
                            assert(now.edges =~= was.edges.push(fresh));
                            assert(now.names =~= was.names.push(name@));
                            assert(now =~= was.with_depender(clause, index));
                            lemma_edges_named_members(was.edges, name@);
                            if edges_named(was.edges, name@).len() > 0 {
                                let first = edges_named(was.edges, name@)[0];
                                assert(old(self).edge_linked(first));
                            }
                            assert forall|f: int|
                                0 <= f
                                    < self.package_dependencies.len() implies #[trigger] self.edge_linked(
                                f,
                            ) by {
                                if f < e {
                                    assert(old(self).edge_linked(f));
                                    assert(self.package_dependencies[f]
                                        == old(self).package_dependencies[f]);
                                }
                            }
                            assert forall|h: int|
                                0 <= h
                                    < self.dependency_groups.len() implies #[trigger] self.group_linked(
                                h,
                            ) by {
                                lemma_edges_named_push(
                                    was.edges,
                                    fresh,
                                    self.dependency_groups[h].name@,
                                );
                                if h < g {
                                    assert(old(self).group_linked(h));
                                    assert(self.dependency_groups[h] == old(self).dependency_groups[h]);
                                } else {
                                    assert(self.dependency_groups[h].members@.map_values(
                                        |m: usize| m as int,
                                    ) =~= seq![e as int]);
                                    assert(edges_named(was.edges, name@) =~= Seq::<int>::empty());
                                }
                            }
                        }
                    },
                }
            },
        }
    }

    /// Appends a package to the table and enters its dependency clauses:
    /// each clause is split into the name depended on and the constraint,
    /// the constraint is interned, and the package is listed as a depender
    /// on the edge of that key.
    ///
    /// The package must be one that the graph takes (`RelationsView::takes`),
    /// and the constraint of each of its clauses one that the cache takes
    /// for sure: it is interned already, or it names no channel and the
    /// parser takes it. `try_insert` tests all that first.
    pub fn insert(
        &mut self,
        matchspec_cache: &mut Cache,
        filename: &'a str,
        package_record: &'a PackageRecord,
    )
        requires
            old(self).wf(),
            old(matchspec_cache).wf(),
            old(self)@.takes(PackageView { filename: filename@, record: package_record@ }),
            forall|c: int|
                0 <= c < package_record@.depends.len() ==> taken_for_sure(
                    old(matchspec_cache)@,
                    dependency_spec(#[trigger] package_record@.depends[c]),
                ),
        ensures
            old(self)@.interned_in(old(matchspec_cache)@) ==> final(self)@.interned_in(
                final(matchspec_cache)@,
            ),
            final(self).wf(),
            final(self)@ == old(self)@.inserted(
                PackageView { filename: filename@, record: package_record@ },
            ),
            final(matchspec_cache).wf(),
            old(matchspec_cache)@.is_prefix_of(final(matchspec_cache)@),
            final(matchspec_cache)@ == with_constraints(
                old(matchspec_cache)@,
                package_record@.depends,
                package_record@.depends.len() as int,
            ),
    {
        let ghost package = PackageView { filename: filename@, record: package_record@ };
        let package_name = package_record.name.as_str();
        let index = PkgIdx::from_usize(self.package_metadatas.len());
        self.package_metadatas.push(PackageMetadata { filename, package_record });
        self.removed.push(false);
        match self.package_name_to_providers.get(package_name) {
            Some(range) => {
                let first = range.0;
                let count = PkgIdxOffset { offset: range.1.offset + 1 };
                self.package_name_to_providers.insert(String::from_str(package_name), (first, count));
            },
            None => {
                self.package_name_to_providers.insert(
                    String::from_str(package_name),
                    (index, PkgIdxOffset { offset: 1 }),
                );
            },
        }
        let ghost staged = self@;
        let ghost cache_before = matchspec_cache@;
        proof {
            assert(staged.packages =~= old(self)@.packages.push(package));
            assert(staged =~= old(self)@.with_package(package));
            assert forall|e: int|
                0 <= e < self.package_dependencies.len() implies #[trigger] self.edge_linked(e) by {
                assert(old(self).edge_linked(e));
            }
            assert forall|g: int|
                0 <= g < self.dependency_groups.len() implies #[trigger] self.group_linked(g) by {
                assert(old(self).group_linked(g));
            }
        }
        let mut done: usize = 0;
        while done < package_record.depends.len()
            invariant
                done <= package_record.depends.len(),
                self.linked(),
                self@ == staged.with_dependers(package.record.depends, done as int, index),
                package.record == package_record@,
                record_ok(package.record),
                forall|c: int|
                    0 <= c < package.record.depends.len() ==> taken_for_sure(
                        cache_before,
                        dependency_spec(#[trigger] package.record.depends[c]),
                    ),
                matchspec_cache.wf(),
                cache_before.is_prefix_of(matchspec_cache@),
                matchspec_cache@ == with_constraints(
                    cache_before,
                    package.record.depends,
                    done as int,
                ),
            decreases package_record.depends.len() - done,
        {
            let depend: &'a str = package_record.depends[done].as_str();
            assert(package.record.depends[done as int] == depend@);
            let (name, spec) = dependsstr_to_name_and_spec(depend);
            proof {
                lemma_constraints_interned(cache_before, package.record.depends, done as int);
                assert(taken_for_sure(cache_before, spec@));
            }
            let interned = matchspec_cache.get_or_insert(spec);
            assert(interned is Ok);
            self.add_depender(name, spec, index, Ghost(depend@));
            done = done + 1;
        }
        proof {
            old(self)@.lemma_inserted_valid(package);
            lemma_with_dependers_packages(
                staged,
                package.record.depends,
                package.record.depends.len() as int,
                index,
            );
            if old(self)@.interned_in(cache_before) {
                lemma_constraints_interned(
                    cache_before,
                    package.record.depends,
                    package.record.depends.len() as int,
                );
                assert forall|id: int| 0 <= id < self@.packages.len() implies clauses_in(
                    (#[trigger] self@.packages[id]).record.depends,
                    matchspec_cache@,
                ) by {
                    let depends = self@.packages[id].record.depends;
                    if id < old(self)@.packages.len() {
                        assert(self@.packages[id] == old(self)@.packages[id]);
                        assert(clauses_in(old(self)@.packages[id].record.depends, cache_before));
                        assert forall|d: int| 0 <= d < depends.len() implies matchspec_cache@.contains(
                            dependency_spec(#[trigger] depends[d]),
                        ) by {
                            assert(cache_before.contains(dependency_spec(depends[d])));
                        }
                    } else {
                        assert(self@.packages[id] == package);
                    }
                }
            }
        }
    }

    /// A graph whose tables, packages and ranges are those of a well-formed
    /// graph, and whose edges differ from that graph's only in their flags
    /// and last providers, is well-formed too, as far as its view is valid.
    proof fn lemma_frame(&self, before: &PackageRelations<'a>)
        requires
            before.wf(),
            self.package_metadatas == before.package_metadatas,
            self.package_name_to_providers == before.package_name_to_providers,
            self.dependency_groups == before.dependency_groups,
            self.group_of_name == before.group_of_name,
            self.package_dependencies.len() == before.package_dependencies.len(),
            forall|e: int|
                0 <= e < self.package_dependencies.len() ==> (
                #[trigger] self.package_dependencies[e]).name == before.package_dependencies[e].name
                    && self.package_dependencies[e].matchspec
                    == before.package_dependencies[e].matchspec
                    && self.package_dependencies[e].dependers
                    == before.package_dependencies[e].dependers,
            bits_of(self.removed).len() == bits_of(before.removed).len(),
            forall|id: int|
                0 <= id < bits_of(before.removed).len() && bits_of(before.removed)[id] ==> bits_of(
                    self.removed,
                )[id],
            forall|e: int|
                0 <= e < self@.edges.len() ==> (
                #[trigger] self@.edges[e]).last_successful_resolution
                    == before@.edges[e].last_successful_resolution || (
                self@.edges[e].last_successful_resolution matches Some(last)
                    ==> self@.ranges.contains_key(self@.edges[e].name) && last.offset
                    < self@.ranges[self@.edges[e].name].1.offset && self@.nothing_before(
                    e,
                    last.offset as int,
                )),
        ensures
            self.wf(),
    {
        let now = self@;
        let was = before@;
        assert(now.packages == was.packages);
        assert(now.names == was.names);
        assert forall|name: Seq<char>| #[trigger]
            now.ranges.contains_key(name) implies now.range_exact(name) by {
            assert(was.range_exact(name));
        }
        assert forall|e: int| 0 <= e < now.edges.len() implies #[trigger] now.edge_ok(e) by {
            assert(was.edge_ok(e));
            assert(now.edges[e].name == was.edges[e].name);
            assert(now.edges[e].spec == was.edges[e].spec);
            match now.edges[e].last_successful_resolution {
                Some(last) => {
                    if now.edges[e].last_successful_resolution
                        == was.edges[e].last_successful_resolution {
                        assert(was.nothing_before(e, last.offset as int));
                        assert forall|id: int|
                            now.providers_of(e).0 <= id < now.providers_of(e).0
                                + last.offset implies !#[trigger] now.provides(e, id) by {
                            assert(!was.provides(e, id));
                        }
                    }
                    assert(now.nothing_before(e, last.offset as int));
                },
                None => {},
            }
            assert(now.edges[e].dependers == was.edges[e].dependers);
        }
        assert forall|e1: int, e2: int| 0 <= e1 < e2 < now.edges.len() implies !(
        #[trigger] now.edges[e1].name == #[trigger] now.edges[e2].name && now.edges[e1].spec
            == now.edges[e2].spec) by {
            assert(was.edges[e1].name == now.edges[e1].name);
            assert(was.edges[e2].name == now.edges[e2].name);
        }
        assert forall|id: int, c: int|
            0 <= id < now.packages.len() && 0 <= c
                < now.packages[id].record.depends.len() implies #[trigger] now.clause_covered(
            id,
            c,
        ) by {
            assert(was.clause_covered(id, c));
            let clause = was.packages[id].record.depends[c];
            let e = choose|e: int| #[trigger]
                was.edge_has_key(
                    e,
                    dependency_name(clause),
                    dependency_spec(clause),
                ) && was.edges[e].dependers.contains(PkgIdx { index: id as u32 });
            assert(now.edge_has_key(
                e,
                dependency_name(clause),
                dependency_spec(clause),
            ));
            assert(now.edges[e].dependers == was.edges[e].dependers);
        }
        assert forall|e: int| 0 <= e < now.edges.len() implies now.names.contains(
            (#[trigger] now.edges[e]).name,
        ) by {
            assert(was.names.contains(was.edges[e].name));
        }
        assert forall|g: int| 0 <= g < now.names.len() implies edges_named(
            now.edges,
            #[trigger] now.names[g],
        ).len() > 0 by {
            lemma_edges_named_same_names(was.edges, now.edges, now.names[g]);
        }
        assert forall|e: int| 0 <= e < self.package_dependencies.len() implies #[trigger] self.edge_linked(
            e,
        ) by {
            assert(before.edge_linked(e));
        }
        assert forall|g: int| 0 <= g < self.dependency_groups.len() implies #[trigger] self.group_linked(
            g,
        ) by {
            assert(before.group_linked(g));
            lemma_edges_named_same_names(was.edges, now.edges, self.dependency_groups[g].name@);
        }
    }
}

} // verus!
