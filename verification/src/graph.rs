//! The instance graph: entities and the relations between them.

use vstd::prelude::*;
use crate::clock::{is_timestamp, now};
use crate::ids::{is_random_uuid, Uuid};
use crate::order::{insert_ranked, lex_lt, ranked};
use crate::reach::{
    connects, explore, hops_are, lemma_within_monotone, within, Exploration,
};
use crate::records::{
    EntityRecord, EntityView, OntologyError, OntologyErrorView, RelationRecord,
};
use crate::text::{contains, contains_text, fold, folded, same_text};
use crate::views::{
    first_match, lemma_filter_next, lemma_first_match, lemma_first_match_at, opt_view, result_view,
    views,
};

verus! {

/// The entities and relations of a project, in the order in which they were
/// recorded.
#[derive(Debug)]
pub struct InstanceGraph {
    pub entities: Vec<EntityRecord>,
    pub relations: Vec<RelationRecord>,
}

/// What an [`InstanceGraph`] holds.
#[verifier::ext_equal]
pub struct GraphView {
    pub entities: Seq<EntityView>,
    pub relations: Seq<RelationRecord>,
}

impl View for InstanceGraph {
    type V = GraphView;

    open spec fn view(&self) -> GraphView {
        GraphView { entities: views(self.entities@), relations: self.relations@ }
    }
}

impl GraphView {
    /// No two entities share an id, no two relations share an id, and no two
    /// relations of one type join the same source to the same target.
    pub open spec fn valid(self) -> bool {
        &&& forall|i: int, j: int|
            0 <= i < j < self.entities.len() ==> (#[trigger] self.entities[i]).id != (
            #[trigger] self.entities[j]).id
        &&& forall|i: int, j: int|
            0 <= i < j < self.relations.len() ==> (#[trigger] self.relations[i]).id != (
            #[trigger] self.relations[j]).id && !same_edge(self.relations[i], self.relations[j])
    }

    /// The entity with this id.
    pub open spec fn entity(self, id: Uuid) -> Option<EntityView> {
        first_match(self.entities, |e: EntityView| e.id == id)
    }

    /// The entity of this type and name.
    pub open spec fn named(self, type_id: Uuid, name: Seq<char>) -> Option<EntityView> {
        first_match(self.entities, |e: EntityView| e.type_id == type_id && e.canonical_name == name)
    }

    /// The graph after an entity of this type and name was looked for, and
    /// made where there was none; and that entity.
    pub open spec fn with_entity(
        self,
        type_id: Uuid,
        name: Seq<char>,
        file: Seq<char>,
        fresh: Uuid,
        at: Seq<char>,
    ) -> (GraphView, Result<EntityView, OntologyErrorView>) {
        match self.named(type_id, name) {
            Some(e) => (self, Ok(e)),
            None => if self.entity(fresh) is Some {
                (self, Err(OntologyErrorView::IdTaken(fresh)))
            } else {
                let e = EntityView {
                    id: fresh,
                    type_id,
                    canonical_name: name,
                    first_seen_file: file,
                    updated_at: at,
                };
                (GraphView { entities: self.entities.push(e), relations: self.relations }, Ok(e))
            },
        }
    }

    /// There is a relation with this one's id, or of its type between its ends.
    pub open spec fn has_relation(self, r: RelationRecord) -> bool {
        exists|i: int|
            0 <= i < self.relations.len() && ((#[trigger] self.relations[i]).id == r.id || same_edge(
                self.relations[i],
                r,
            ))
    }

    /// The graph after a relation was recorded.
    pub open spec fn with_relation(self, r: RelationRecord) -> GraphView {
        if self.has_relation(r) {
            self
        } else {
            GraphView { entities: self.entities, relations: self.relations.push(r) }
        }
    }

    /// The graph after an entity was given another type.
    pub open spec fn retyped(self, id: Uuid, type_id: Uuid) -> GraphView {
        GraphView {
            entities: self.entities.map_values(
                |e: EntityView|
                    if e.id == id {
                        EntityView { type_id, ..e }
                    } else {
                        e
                    },
            ),
            relations: self.relations,
        }
    }

    /// The entities whose names contain `query`, whatever the case of either,
    /// ordered by name.
    pub open spec fn matching(self, query: Seq<char>) -> Seq<EntityView> {
        ranked(
            self.entities.filter(|e: EntityView| name_matches(e, query)),
            |a: EntityView, b: EntityView| lex_lt(a.canonical_name, b.canonical_name),
        )
    }

    /// The relations that start or end at an entity.
    pub open spec fn touching(self, id: Uuid) -> Seq<RelationRecord> {
        self.relations.filter(|r: RelationRecord| touches(r, id))
    }

    /// The number of entities of a type.
    pub open spec fn entity_count(self, type_id: Uuid) -> nat {
        self.entities.filter(|e: EntityView| e.type_id == type_id).len()
    }

    /// The number of relations of a type.
    pub open spec fn relation_count(self, type_id: Uuid) -> nat {
        self.relations.filter(|r: RelationRecord| r.type_id == type_id).len()
    }
}

/// Two relations of one type join the same source to the same target.
pub open spec fn same_edge(a: RelationRecord, b: RelationRecord) -> bool {
    a.type_id == b.type_id && a.source_entity_id == b.source_entity_id && a.target_entity_id
        == b.target_entity_id
}

/// A relation starts or ends at an entity.
pub open spec fn touches(r: RelationRecord, id: Uuid) -> bool {
    r.source_entity_id == id || r.target_entity_id == id
}

/// An entity's name contains `query`, whatever the case of either.
pub open spec fn name_matches(e: EntityView, query: Seq<char>) -> bool {
    contains_text(folded(e.canonical_name), folded(query))
}

/// `path` leads from `from` to `to` by way of `nodes`.
pub open spec fn leads(
    path: Seq<RelationRecord>,
    nodes: Seq<Uuid>,
    from: Uuid,
    to: Uuid,
) -> bool {
    &&& nodes.len() == path.len() + 1
    &&& nodes[0] == from
    &&& nodes.last() == to
    &&& forall|i: int| 0 <= i < path.len() ==> connects(#[trigger] path[i], nodes[i], nodes[i + 1])
}

/// `path` is made of `relations` and leads from `from` to `to`.
pub open spec fn is_path(
    relations: Seq<RelationRecord>,
    path: Seq<RelationRecord>,
    from: Uuid,
    to: Uuid,
) -> bool {
    &&& forall|i: int| 0 <= i < path.len() ==> relations.contains(#[trigger] path[i])
    &&& exists|nodes: Seq<Uuid>| leads(path, nodes, from, to)
}

/// `found` are the entities other than `start` that are at most `depth` hops
/// away from it: each of them once, and the nearer ones first.
pub open spec fn are_related(g: GraphView, start: Uuid, depth: u32, found: Seq<EntityView>) -> bool {
    &&& forall|i: int|
        0 <= i < found.len() ==> {
            &&& g.entity((#[trigger] found[i]).id) == Some(found[i])
            &&& found[i].id != start
            &&& within(g.relations, start, found[i].id, depth as nat)
        }
    &&& forall|id: Uuid|
        id != start && g.entity(id) is Some && #[trigger] within(
            g.relations,
            start,
            id,
            depth as nat,
        ) ==> exists|i: int| 0 <= i < found.len() && (#[trigger] found[i]).id == id
    &&& forall|i: int, j: int|
        0 <= i < j < found.len() ==> (#[trigger] found[i]).id != (#[trigger] found[j]).id
    &&& forall|i: int, j: int, k: nat|
        0 <= i < j < found.len() && within(g.relations, start, (#[trigger] found[j]).id, k)
            ==> #[trigger] within(g.relations, start, (#[trigger] found[i]).id, k)
}

/// `path` is a shortest path between two entities, and no longer than
/// `max_depth`.
pub open spec fn is_shortest_path(
    g: GraphView,
    from: Uuid,
    to: Uuid,
    max_depth: u32,
    path: Seq<RelationRecord>,
) -> bool {
    &&& is_path(g.relations, path, from, to)
    &&& hops_are(g.relations, from, to, path.len())
    &&& path.len() <= max_depth as nat
}

impl InstanceGraph {
    /// A graph without entities.
    pub fn new() -> (r: Self)
        ensures
            r@.entities == Seq::<EntityView>::empty(),
            r@.relations == Seq::<RelationRecord>::empty(),
            r@.valid(),
    {
        let r = InstanceGraph { entities: Vec::new(), relations: Vec::new() };
        proof {
            assert(r@.entities =~= Seq::<EntityView>::empty());
        }
        r
    }

    /// Where the entity with this id stands.
    fn entity_index(&self, id: Uuid) -> (r: Option<usize>)
        ensures
            match r {
                Some(i) => i < self.entities@.len() && self@.entity(id) == Some(
                    self.entities@[i as int]@,
                ) && self.entities@[i as int].id == id && forall|j: int|
                    0 <= j < i ==> (#[trigger] self.entities@[j]).id != id,
                None => self@.entity(id) is None && forall|j: int|
                    0 <= j < self.entities@.len() ==> (#[trigger] self.entities@[j]).id != id,
            },
    {
        let ghost p = |e: EntityView| e.id == id;
        let mut i: usize = 0;
        while i < self.entities.len()
            invariant
                i <= self.entities@.len(),
                p == (|e: EntityView| e.id == id),
                forall|j: int| 0 <= j < i ==> (#[trigger] self.entities@[j]).id != id,
            decreases self.entities@.len() - i,
        {
            if self.entities[i].id == id {
                proof {
                    assert(self@.entities[i as int] == self.entities@[i as int]@);
                    lemma_first_match_at(self@.entities, p, i as int);
                }
                return Some(i);
            }
            i += 1;
        }
        proof {
            lemma_first_match(self@.entities, p);
            if self@.entity(id) is Some {
                let v = self@.entity(id)->0;
                let k = choose|k: int| 0 <= k < self@.entities.len() && #[trigger] self@.entities[k] == v;
                assert(self.entities@[k]@.id == id);
            }
        }
        None
    }

    /// The entity with this id.
    pub fn entity(&self, id: Uuid) -> (r: Option<EntityRecord>)
        ensures
            opt_view(r) == self@.entity(id),
    {
        match self.entity_index(id) {
            Some(i) => Some(self.entities[i].clone()),
            None => None,
        }
    }

    /// The entity of this type and name.
    fn find_named(&self, type_id: Uuid, canonical_name: &str) -> (r: Option<EntityRecord>)
        ensures
            opt_view(r) == self@.named(type_id, canonical_name@),
    {
        let ghost p = |e: EntityView| e.type_id == type_id && e.canonical_name == canonical_name@;
        let mut i: usize = 0;
        while i < self.entities.len()
            invariant
                i <= self.entities@.len(),
                p == (|e: EntityView| e.type_id == type_id && e.canonical_name == canonical_name@),
                forall|j: int| 0 <= j < i ==> !p((#[trigger] self@.entities[j])),
            decreases self.entities@.len() - i,
        {
            proof {
                assert(self@.entities[i as int] == self.entities@[i as int]@);
            }
            if self.entities[i].type_id == type_id && same_text(
                self.entities[i].canonical_name.as_str(),
                canonical_name,
            ) {
                proof {
                    lemma_first_match_at(self@.entities, p, i as int);
                }
                return Some(self.entities[i].clone());
            }
            i += 1;
        }
        proof {
            lemma_first_match(self@.entities, p);
        }
        None
    }

    /// Looks for the entity of this type and name, and makes it where there
    /// is none, with the id `fresh`.
    pub fn find_or_create_entity_as(
        &mut self,
        type_id: Uuid,
        canonical_name: &str,
        first_seen_file: &str,
        fresh: Uuid,
        at: &str,
    ) -> (r: Result<EntityRecord, OntologyError>)
        ensures
            (final(self)@, result_view(r)) == old(self)@.with_entity(
                type_id,
                canonical_name@,
                first_seen_file@,
                fresh,
                at@,
            ),
    {
        if let Some(e) = self.find_named(type_id, canonical_name) {
            return Ok(e);
        }
        if self.entity_index(fresh).is_some() {
            return Err(OntologyError::IdTaken(fresh));
        }
        let e = EntityRecord {
            id: fresh,
            type_id,
            canonical_name: canonical_name.to_owned(),
            first_seen_file: first_seen_file.to_owned(),
            updated_at: at.to_owned(),
        };
        let copy = e.clone();
        let ghost before = self.entities@;
        self.entities.push(e);
        proof {
            assert(views(self.entities@) =~= views(before).push(copy@));
        }
        Ok(copy)
    }

    /// Looks for the entity of this type and name, and makes it where there
    /// is none, with a fresh random id and the present time.
    pub fn find_or_create_entity(
        &mut self,
        type_id: Uuid,
        canonical_name: &str,
        first_seen_file: &str,
    ) -> (r: Result<EntityRecord, OntologyError>)
        ensures
            exists|fresh: Uuid, at: Seq<char>|
                is_random_uuid(fresh) && is_timestamp(at) && (final(self)@, result_view(r)) == (
                #[trigger] old(self)@.with_entity(
                    type_id,
                    canonical_name@,
                    first_seen_file@,
                    fresh,
                    at,
                )),
    {
        let fresh: Uuid = Uuid::new_v4();
        let at: String = now();
        self.find_or_create_entity_as(type_id, canonical_name, first_seen_file, fresh, at.as_str())
    }

    /// Records a relation, unless there is one with its id or one of its type
    /// between its ends.
    pub fn record_relation(&mut self, relation: RelationRecord)
        ensures
            final(self)@ == old(self)@.with_relation(relation),
    {
        let mut i: usize = 0;
        while i < self.relations.len()
            invariant
                i <= self.relations@.len(),
                self@ == old(self)@,
                forall|j: int|
                    0 <= j < i ==> (#[trigger] self.relations@[j]).id != relation.id && !same_edge(
                        self.relations@[j],
                        relation,
                    ),
            decreases self.relations@.len() - i,
        {
            let r: RelationRecord = self.relations[i];
            if r.id == relation.id || (r.type_id == relation.type_id && r.source_entity_id
                == relation.source_entity_id && r.target_entity_id == relation.target_entity_id) {
                proof {
                    assert(self@.relations[i as int] == r);
                    assert(self@.has_relation(relation));
                }
                return ;
            }
            i += 1;
        }
        proof {
            assert(!self@.has_relation(relation));
        }
        self.relations.push(relation);
    }

    /// The other entities that are at most `depth` hops away from an entity, the
    /// nearer ones first.
    pub fn related_entities(&self, entity_id: Uuid, depth: u32) -> (r: Vec<EntityRecord>)
        ensures
            are_related(self@, entity_id, depth, views(r@)),
    {
        let found: (Exploration, bool) = explore(&self.relations, entity_id, None, depth);
        let ex: Exploration = found.0;
        let ghost rel = self@.relations;
        let mut r: Vec<EntityRecord> = Vec::new();
        let ghost mut at: Seq<int> = Seq::empty();
        let mut i: usize = 1;
        while i < ex.nodes.len()
            invariant
                1 <= i <= ex.nodes@.len(),
                ex.wf(rel, entity_id),
                rel == self@.relations,
                at.len() == r@.len(),
                forall|a: int| 0 <= a < at.len() ==> 0 < #[trigger] at[a] < i,
                forall|a: int, b: int| 0 <= a < b < at.len() ==> #[trigger] at[a] < #[trigger] at[b],
                forall|a: int|
                    0 <= a < r@.len() ==> (#[trigger] r@[a]).id == ex.nodes@[at[a]] && self@.entity(
                        r@[a].id,
                    ) == Some(r@[a]@),
                forall|n: int|
                    0 < n < i && self@.entity(#[trigger] ex.nodes@[n]) is Some ==> exists|a: int|
                        0 <= a < r@.len() && (#[trigger] r@[a]).id == ex.nodes@[n],
            decreases ex.nodes@.len() - i,
        {
            let id: Uuid = ex.nodes[i];
            let ghost before = r@;
            if let Some(e) = self.entity(id) {
                proof {
                    lemma_first_match(self@.entities, |e: EntityView| e.id == id);
                    assert(e@.id == id);
                    at = at.push(i as int);
                }
                r.push(e);
                proof {
                    assert(r@[before.len() as int].id == id);
                }
            }
            proof {
                assert forall|n: int| 0 < n < i + 1 && self@.entity(#[trigger] ex.nodes@[n]) is Some implies exists|
                    a: int,
                |
                    0 <= a < r@.len() && (#[trigger] r@[a]).id == ex.nodes@[n] by {
                    if n < i {
                        let a = choose|a: int|
                            0 <= a < before.len() && (#[trigger] before[a]).id == ex.nodes@[n];
                        assert(r@[a].id == ex.nodes@[n]);
                    } else {
                        assert(r@[before.len() as int].id == ex.nodes@[n]);
                    }
                }
            }
            i += 1;
        }
        proof {
            let f = views(r@);
            assert forall|a: int| 0 <= a < f.len() implies {
                &&& self@.entity((#[trigger] f[a]).id) == Some(f[a])
                &&& f[a].id != entity_id
                &&& within(self@.relations, entity_id, f[a].id, depth as nat)
            } by {
                assert(f[a] == r@[a]@);
                let n = at[a];
                assert(ex.nodes@[0] != ex.nodes@[n]);
                assert(ex.nodes@.contains(ex.nodes@[n]));
            }
            assert forall|id: Uuid|
                id != entity_id && self@.entity(id) is Some && #[trigger] within(
                    self@.relations,
                    entity_id,
                    id,
                    depth as nat,
                ) implies exists|a: int| 0 <= a < f.len() && (#[trigger] f[a]).id == id by {
                assert(ex.nodes@.contains(id));
                let n = choose|n: int| 0 <= n < ex.nodes@.len() && ex.nodes@[n] == id;
                assert(self@.entity(ex.nodes@[n]) is Some);
                let a = choose|a: int| 0 <= a < r@.len() && (#[trigger] r@[a]).id == ex.nodes@[n];
                assert(f[a].id == id);
            }
            assert forall|a: int, b: int| 0 <= a < b < f.len() implies (#[trigger] f[a]).id != (
            #[trigger] f[b]).id by {
                assert(f[a] == r@[a]@ && f[b] == r@[b]@);
                assert(at[a] < at[b]);
                assert(ex.nodes@[at[a]] != ex.nodes@[at[b]]);
            }
            assert forall|a: int, b: int, k: nat|
                0 <= a < b < f.len() && within(rel, entity_id, (#[trigger] f[b]).id, k) implies
                #[trigger] within(rel, entity_id, (#[trigger] f[a]).id, k) by {
                assert(f[a] == r@[a]@ && f[b] == r@[b]@);
                assert(at[a] < at[b]);
                let x = ex.nodes@[at[a]];
                let y = ex.nodes@[at[b]];
                let hx = ex.hops@[at[a]] as nat;
                let hy = ex.hops@[at[b]] as nat;
                assert(hx <= hy);
                assert(hops_are(rel, entity_id, x, hx));
                assert(hops_are(rel, entity_id, y, hy));
                if k < hx {
                    lemma_within_monotone(rel, entity_id, y, k, (hy - 1) as nat);
                }
                lemma_within_monotone(rel, entity_id, x, hx, k);
            }
        }
        r
    }

    /// The entities whose names contain `name_query`, whatever the case of
    /// either, ordered by name.
    pub fn find_entities_by_name(&self, name_query: &str) -> (r: Vec<EntityRecord>)
        ensures
            views(r@) == self@.matching(name_query@),
    {
        let query: String = fold(name_query);
        let ghost p = |e: EntityView| name_matches(e, name_query@);
        let ghost before = |a: EntityView, b: EntityView| lex_lt(a.canonical_name, b.canonical_name);
        let mut r: Vec<EntityRecord> = Vec::new();
        let mut i: usize = 0;
        proof {
            assert(views(r@) =~= Seq::<EntityView>::empty());
            assert(self@.entities.take(0).filter(p) =~= Seq::<EntityView>::empty());
        }
        while i < self.entities.len()
            invariant
                i <= self.entities@.len(),
                query@ == folded(name_query@),
                p == (|e: EntityView| name_matches(e, name_query@)),
                before == (|a: EntityView, b: EntityView| lex_lt(a.canonical_name, b.canonical_name)),
                views(r@) == ranked(self@.entities.take(i as int).filter(p), before),
            decreases self.entities@.len() - i,
        {
            let name: String = fold(self.entities[i].canonical_name.as_str());
            proof {
                lemma_filter_next(self@.entities, p, i as int);
                assert(self@.entities[i as int] == self.entities@[i as int]@);
            }
            if contains(name.as_str(), query.as_str()) {
                let e: EntityRecord = self.entities[i].clone();
                proof {
                    let s = self@.entities.take(i as int).filter(p);
                    assert(s.push(e@).drop_last() =~= s);
                    assert((|a: EntityView, b: EntityView| <EntityRecord as crate::order::Ranked>::before(a, b))
                        =~= before);
                }
                insert_ranked(&mut r, e);
            }
            i += 1;
        }
        proof {
            assert(self@.entities.take(self@.entities.len() as int) =~= self@.entities);
        }
        r
    }

    /// The relations that start or end at an entity.
    pub fn direct_relations(&self, entity_id: Uuid) -> (r: Vec<RelationRecord>)
        ensures
            r@ == self@.touching(entity_id),
    {
        let ghost p = |r: RelationRecord| touches(r, entity_id);
        let mut r: Vec<RelationRecord> = Vec::new();
        let mut i: usize = 0;
        proof {
            assert(self@.relations.take(0).filter(p) =~= Seq::<RelationRecord>::empty());
        }
        while i < self.relations.len()
            invariant
                i <= self.relations@.len(),
                p == (|r: RelationRecord| touches(r, entity_id)),
                r@ == self@.relations.take(i as int).filter(p),
            decreases self.relations@.len() - i,
        {
            proof {
                lemma_filter_next(self@.relations, p, i as int);
            }
            let relation: RelationRecord = self.relations[i];
            if relation.source_entity_id == entity_id || relation.target_entity_id == entity_id {
                r.push(relation);
            }
            i += 1;
        }
        proof {
            assert(self@.relations.take(self@.relations.len() as int) =~= self@.relations);
        }
        r
    }

    /// A shortest path between two entities, with the relations that it
    /// follows in order; `None` where every path is longer than `max_depth`.
    pub fn find_path(&self, from: Uuid, to: Uuid, max_depth: u32) -> (r: Option<Vec<RelationRecord>>)
        ensures
            match r {
                Some(path) => is_shortest_path(self@, from, to, max_depth, path@),
                None => !within(self@.relations, from, to, max_depth as nat),
            },
    {
        let ghost rel = self@.relations;
        if from == to {
            let path: Vec<RelationRecord> = Vec::new();
            proof {
                assert(leads(path@, seq![from], from, to));
            }
            return Some(path);
        }
        let found: (Exploration, bool) = explore(&self.relations, from, Some(to), max_depth);
        let ex: Exploration = found.0;
        if !found.1 {
            proof {
                assert(!ex.nodes@.contains(to));
            }
            return None;
        }
        let mut back: Vec<RelationRecord> = Vec::new();
        let mut cursor: usize = ex.nodes.len() - 1;
        let ghost end = cursor as int;
        let ghost mut nodes: Seq<Uuid> = seq![to];
        proof {
            assert(back@.reverse() =~= Seq::<RelationRecord>::empty());
        }
        while cursor > 0
            invariant
                cursor <= end < ex.nodes@.len(),
                ex.wf(rel, from),
                rel == self@.relations,
                ex.nodes@[end] == to,
                back@.len() + ex.hops@[cursor as int] == ex.hops@[end],
                leads(back@.reverse(), nodes, ex.nodes@[cursor as int], to),
                forall|i: int| 0 <= i < back@.len() ==> rel.contains(#[trigger] back@[i]),
            decreases cursor,
        {
            proof {
                assert(ex.parents@[cursor as int] < cursor);
            }
            let edge: RelationRecord = self.relations[ex.edges[cursor]];
            let ghost before = back@;
            let ghost old_nodes = nodes;
            let parent: usize = ex.parents[cursor];
            back.push(edge);
            proof {
                nodes = seq![ex.nodes@[parent as int]] + nodes;
                assert(back@.reverse() =~= seq![edge] + before.reverse());
                let path = back@.reverse();
                assert forall|i: int| 0 <= i < path.len() implies connects(
                    #[trigger] path[i],
                    nodes[i],
                    nodes[i + 1],
                ) by {
                    if i > 0 {
                        assert(path[i] == before.reverse()[i - 1]);
                        assert(nodes[i] == old_nodes[i - 1]);
                        assert(nodes[i + 1] == old_nodes[i]);
                    }
                }
                assert(nodes.last() == old_nodes.last());
            }
            cursor = parent;
        }
        proof {
            assert(ex.hops@[0] == 0);
            assert(hops_are(rel, from, ex.nodes@[end], ex.hops@[end] as nat));
        }
        let path: Vec<RelationRecord> = reversed(&back);
        proof {
            assert forall|i: int| 0 <= i < path@.len() implies rel.contains(#[trigger] path@[i]) by {
                assert(path@[i] == back@[back@.len() - 1 - i]);
            }
            assert(leads(path@, nodes, from, to));
        }
        Some(path)
    }

    /// Gives an entity another type, in place: its id, its name and the file
    /// that it was first seen in stay, and so does every relation.
    pub fn retype_entity(&mut self, entity_id: Uuid, new_type_id: Uuid) -> (r: Result<
        EntityRecord,
        OntologyError,
    >)
        ensures
            final(self)@ == old(self)@.retyped(entity_id, new_type_id),
            result_view(r) == (match final(self)@.entity(entity_id) {
                Some(e) => Ok::<EntityView, OntologyErrorView>(e),
                None => Err(OntologyErrorView::EntityNotFound(entity_id)),
            }),
    {
        let ghost target = self@.retyped(entity_id, new_type_id).entities;
        let ghost start = self@;
        let mut i: usize = 0;
        while i < self.entities.len()
            invariant
                i <= self.entities@.len(),
                self@.entities.len() == start.entities.len(),
                target.len() == start.entities.len(),
                target == start.retyped(entity_id, new_type_id).entities,
                self@.relations == start.relations,
                forall|j: int| 0 <= j < i ==> #[trigger] self@.entities[j] == target[j],
                forall|j: int| i <= j < self@.entities.len() ==> #[trigger] self@.entities[j] == start.entities[j],
            decreases self.entities@.len() - i,
        {
            let ghost before = self.entities@;
            proof {
                assert(self@.entities[i as int] == start.entities[i as int]);
            }
            if self.entities[i].id == entity_id {
                self.entities[i].type_id = new_type_id;
            }
            proof {
                assert(self@.entities[i as int] == target[i as int]);
                assert forall|j: int| 0 <= j < self@.entities.len() && j != i implies
                    #[trigger] self@.entities[j] == views(before)[j] by {
                    assert(self.entities@[j] == before[j]);
                }
            }
            i += 1;
        }
        proof {
            assert(self@.entities =~= target);
            assert(self@ =~= start.retyped(entity_id, new_type_id));
        }
        match self.entity(entity_id) {
            Some(e) => Ok(e),
            None => Err(OntologyError::EntityNotFound(entity_id)),
        }
    }
}

/// The relations in the opposite order.
fn reversed(relations: &Vec<RelationRecord>) -> (r: Vec<RelationRecord>)
    ensures
        r@ == relations@.reverse(),
{
    let mut r: Vec<RelationRecord> = Vec::new();
    let mut i: usize = relations.len();
    while i > 0
        invariant
            i <= relations@.len(),
            r@.len() == relations@.len() - i,
            forall|j: int| 0 <= j < r@.len() ==> #[trigger] r@[j] == relations@[relations@.len() - 1 - j],
        decreases i,
    {
        i -= 1;
        r.push(relations[i]);
    }
    proof {
        assert(r@ =~= relations@.reverse());
    }
    r
}

} // verus!
