//! Laws of the instance graph.

use vstd::prelude::*;
use crate::graph::{
    are_related, is_path, is_shortest_path, leads, name_matches, same_edge, touches, GraphView,
};
use crate::ids::Uuid;
use crate::order::{
    in_order, is_ranking, lemma_lex_is_ranking, lemma_ranked, lemma_ranked_same_items, lex_lt,
};
use crate::reach::{
    adjacent, connects, law_within_symmetric, lemma_within_monotone, lemma_within_step, within,
};
use crate::records::{EntityView, RelationRecord};
use crate::text::{folded, occurs_at};
use crate::views::{
    lemma_filter_from, lemma_filter_same, lemma_first_match, lemma_first_match_at,
    lemma_first_match_push,
};

verus! {

/// Looking for an entity, or making it, keeps the graph valid.
pub proof fn law_with_entity_valid(
    g: GraphView,
    type_id: Uuid,
    name: Seq<char>,
    file: Seq<char>,
    fresh: Uuid,
    at: Seq<char>,
)
    requires
        g.valid(),
    ensures
        g.with_entity(type_id, name, file, fresh, at).0.valid(),
{
    lemma_first_match(g.entities, |e: EntityView| e.id == fresh);
}

/// Looking for an entity twice gives the same entity, and leaves the graph as
/// the first look left it: no second entity of the type and name is made, and
/// the file that it was first seen in stays.
pub proof fn law_with_entity_idempotent(
    g: GraphView,
    type_id: Uuid,
    name: Seq<char>,
    file: Seq<char>,
    fresh: Uuid,
    at: Seq<char>,
    other_file: Seq<char>,
    other_fresh: Uuid,
    later: Seq<char>,
)
    requires
        g.with_entity(type_id, name, file, fresh, at).1 is Ok,
    ensures
        ({
            let first = g.with_entity(type_id, name, file, fresh, at);
            first.0.with_entity(type_id, name, other_file, other_fresh, later) == first
        }),
{
    let p = |e: EntityView| e.type_id == type_id && e.canonical_name == name;
    if g.named(type_id, name) is None {
        let e = EntityView {
            id: fresh,
            type_id,
            canonical_name: name,
            first_seen_file: file,
            updated_at: at,
        };
        lemma_first_match_push(g.entities, e, p);
    }
}

/// An entity that was looked for has the type and the name that were asked
/// for, and is in the graph under its id.
pub proof fn law_with_entity_found(
    g: GraphView,
    type_id: Uuid,
    name: Seq<char>,
    file: Seq<char>,
    fresh: Uuid,
    at: Seq<char>,
)
    requires
        g.valid(),
        g.with_entity(type_id, name, file, fresh, at).1 is Ok,
    ensures
        ({
            let (after, r) = g.with_entity(type_id, name, file, fresh, at);
            let e = r->Ok_0;
            &&& e.type_id == type_id
            &&& e.canonical_name == name
            &&& after.entity(e.id) == Some(e)
        }),
{
    let p = |e: EntityView| e.type_id == type_id && e.canonical_name == name;
    lemma_first_match(g.entities, p);
    let (after, r) = g.with_entity(type_id, name, file, fresh, at);
    let e = r->Ok_0;
    let q = |x: EntityView| x.id == e.id;
    match g.named(type_id, name) {
        Some(found) => {
            let i = choose|i: int| 0 <= i < g.entities.len() && #[trigger] g.entities[i] == found;
            lemma_first_match_at(g.entities, q, i);
        },
        None => {
            lemma_first_match_push(g.entities, e, q);
        },
    }
}

/// Entities are never removed, and what is recorded of one is not changed by
/// looking for another.
pub proof fn law_with_entity_keeps(
    g: GraphView,
    type_id: Uuid,
    name: Seq<char>,
    file: Seq<char>,
    fresh: Uuid,
    at: Seq<char>,
    id: Uuid,
)
    requires
        g.entity(id) is Some,
    ensures
        g.with_entity(type_id, name, file, fresh, at).0.entity(id) == g.entity(id),
        g.with_entity(type_id, name, file, fresh, at).0.relations == g.relations,
{
    let e = EntityView {
        id: fresh,
        type_id,
        canonical_name: name,
        first_seen_file: file,
        updated_at: at,
    };
    lemma_first_match_push(g.entities, e, |x: EntityView| x.id == id);
}

/// Recording a relation keeps the graph valid and its entities as they are.
pub proof fn law_with_relation_valid(g: GraphView, r: RelationRecord)
    requires
        g.valid(),
    ensures
        g.with_relation(r).valid(),
        g.with_relation(r).entities == g.entities,
{
    let after = g.with_relation(r);
    if !g.has_relation(r) {
        assert forall|i: int, j: int| 0 <= i < j < after.relations.len() implies (
        #[trigger] after.relations[i]).id != (#[trigger] after.relations[j]).id && !same_edge(
            after.relations[i],
            after.relations[j],
        ) by {
            if j == g.relations.len() {
                assert(g.relations[i].id != r.id);
            }
        }
    }
}

/// Recording a relation again, under whatever id and with whatever evidence,
/// changes nothing: restarts do not pile up relations.
pub proof fn law_with_relation_idempotent(g: GraphView, r: RelationRecord, again: RelationRecord)
    requires
        same_edge(r, again),
        !g.has_relation(r) || exists|i: int|
            0 <= i < g.relations.len() && same_edge(#[trigger] g.relations[i], r),
    ensures
        g.with_relation(r).with_relation(again) == g.with_relation(r),
{
    let after = g.with_relation(r);
    if g.has_relation(r) {
        let i = choose|i: int| 0 <= i < g.relations.len() && same_edge(#[trigger] g.relations[i], r);
        assert(same_edge(after.relations[i], again));
    } else {
        assert(same_edge(after.relations[g.relations.len() as int], again));
    }
    assert(after.has_relation(again));
}

/// Retyping an entity keeps every relation, every id and name, and every file
/// that an entity was first seen in; only the entity's type changes.
pub proof fn law_retyped(g: GraphView, id: Uuid, type_id: Uuid, other: Uuid)
    requires
        g.entity(other) is Some,
    ensures
        g.retyped(id, type_id).relations == g.relations,
        g.valid() ==> g.retyped(id, type_id).valid(),
        g.retyped(id, type_id).entity(other) is Some,
        ({
            let before = g.entity(other)->0;
            let after = g.retyped(id, type_id).entity(other)->0;
            &&& after.canonical_name == before.canonical_name
            &&& after.first_seen_file == before.first_seen_file
            &&& after.updated_at == before.updated_at
            &&& after.type_id == if other == id {
                type_id
            } else {
                before.type_id
            }
        }),
{
    let p = |e: EntityView| e.id == other;
    let after = g.retyped(id, type_id);
    lemma_first_match(g.entities, p);
    let v = g.entity(other)->0;
    let i = choose|i: int|
        0 <= i < g.entities.len() && #[trigger] g.entities[i] == v && forall|j: int|
            0 <= j < i ==> !p(#[trigger] g.entities[j]);
    assert forall|j: int| 0 <= j < i implies !p(#[trigger] after.entities[j]) by {
        assert(!p(g.entities[j]));
    }
    assert(after.entities[i].id == other);
    lemma_first_match_at(after.entities, p, i);
    if g.valid() {
        assert forall|a: int, b: int| 0 <= a < b < after.entities.len() implies (
        #[trigger] after.entities[a]).id != (#[trigger] after.entities[b]).id by {
            assert(g.entities[a].id != g.entities[b].id);
        }
    }
}

/// A search by name lists matching entities in the order of their names, each
/// as often as the graph holds it.
pub proof fn law_matching_in_order(g: GraphView, query: Seq<char>)
    ensures
        in_order(
            g.matching(query),
            |a: EntityView, b: EntityView| lex_lt(a.canonical_name, b.canonical_name),
        ),
        g.matching(query).to_multiset() == g.entities.filter(
            |e: EntityView| name_matches(e, query),
        ).to_multiset(),
{
    let before = |a: EntityView, b: EntityView| lex_lt(a.canonical_name, b.canonical_name);
    lemma_names_rank();
    lemma_ranked(g.entities.filter(|e: EntityView| name_matches(e, query)), before);
}

proof fn lemma_names_rank()
    ensures
        is_ranking(|a: EntityView, b: EntityView| lex_lt(a.canonical_name, b.canonical_name)),
{
    lemma_lex_is_ranking();
    let lex = |a: Seq<char>, b: Seq<char>| lex_lt(a, b);
    let before = |a: EntityView, b: EntityView| lex_lt(a.canonical_name, b.canonical_name);
    assert forall|a: EntityView, b: EntityView| #[trigger] before(a, b) implies !before(b, a) by {
        assert(lex(a.canonical_name, b.canonical_name));
    }
    assert forall|a: EntityView, b: EntityView, c: EntityView|
        #![trigger before(a, c), before(b, c)]
        #![trigger before(a, b), before(a, c)]
        before(a, c) implies before(a, b) || before(b, c) by {
        assert(lex(a.canonical_name, c.canonical_name));
        assert(lex(a.canonical_name, b.canonical_name) || lex(b.canonical_name, c.canonical_name));
    }
}

/// A path reaches each of its nodes in as many hops as it takes to get there.
proof fn lemma_path_reaches(
    relations: Seq<RelationRecord>,
    path: Seq<RelationRecord>,
    nodes: Seq<Uuid>,
    from: Uuid,
    to: Uuid,
    i: int,
)
    requires
        leads(path, nodes, from, to),
        forall|k: int| 0 <= k < path.len() ==> relations.contains(#[trigger] path[k]),
        0 <= i <= path.len(),
    ensures
        within(relations, from, nodes[i], i as nat),
    decreases i,
{
    if i > 0 {
        lemma_path_reaches(relations, path, nodes, from, to, i - 1);
        assert(relations.contains(path[i - 1]));
        let k = choose|k: int| 0 <= k < relations.len() && relations[k] == path[i - 1];
        assert(connects(relations[k], nodes[i - 1], nodes[i]));
        assert(adjacent(relations, nodes[i - 1], nodes[i]));
        lemma_within_step(relations, from, nodes[i - 1], nodes[i], (i - 1) as nat);
    }
}

/// No path between two entities is shorter than the one that is found.
pub proof fn law_no_path_is_shorter(
    g: GraphView,
    from: Uuid,
    to: Uuid,
    max_depth: u32,
    path: Seq<RelationRecord>,
    other: Seq<RelationRecord>,
)
    requires
        is_shortest_path(g, from, to, max_depth, path),
        is_path(g.relations, other, from, to),
    ensures
        path.len() <= other.len(),
{
    let nodes = choose|nodes: Seq<Uuid>| leads(other, nodes, from, to);
    lemma_path_reaches(g.relations, other, nodes, from, to, other.len() as int);
    if other.len() < path.len() {
        lemma_within_monotone(g.relations, from, to, other.len(), (path.len() - 1) as nat);
    }
}

/// An entity is related to another one, within some depth, exactly where there
/// is a path of that length between them; and it is related whichever of the
/// two one starts from.
pub proof fn law_related_is_connected(
    g: GraphView,
    start: Uuid,
    depth: u32,
    found: Seq<EntityView>,
    id: Uuid,
)
    requires
        are_related(g, start, depth, found),
        id != start,
        g.entity(id) is Some,
    ensures
        (exists|i: int| 0 <= i < found.len() && (#[trigger] found[i]).id == id) <==> within(
            g.relations,
            start,
            id,
            depth as nat,
        ),
        within(g.relations, start, id, depth as nat) <==> within(
            g.relations,
            id,
            start,
            depth as nat,
        ),
{
    if within(g.relations, start, id, depth as nat) {
        law_within_symmetric(g.relations, start, id, depth as nat);
    }
    if within(g.relations, id, start, depth as nat) {
        law_within_symmetric(g.relations, id, start, depth as nat);
    }
}

/// Retyping entities does not change what is connected.
pub proof fn law_retyping_keeps_paths(
    g: GraphView,
    id: Uuid,
    type_id: Uuid,
    from: Uuid,
    to: Uuid,
    max_depth: u32,
    path: Seq<RelationRecord>,
)
    ensures
        is_shortest_path(g.retyped(id, type_id), from, to, max_depth, path) == is_shortest_path(
            g,
            from,
            to,
            max_depth,
            path,
        ),
{
}

/// A search by name finds an entity exactly where the entity is in the graph and
/// the query stands in its name, whatever the case of either.
pub proof fn law_matching_finds(g: GraphView, query: Seq<char>, e: EntityView)
    ensures
        g.matching(query).contains(e) <==> g.entities.contains(e) && ({
            let hay = folded(e.canonical_name);
            let needle = folded(query);
            exists|at: int|
                0 <= at && at + needle.len() <= hay.len() && #[trigger] hay.subrange(
                    at,
                    at + needle.len(),
                ) == needle
        }),
{
    let p = |e: EntityView| name_matches(e, query);
    let before = |a: EntityView, b: EntityView| lex_lt(a.canonical_name, b.canonical_name);
    let kept = g.entities.filter(p);
    let hay = folded(e.canonical_name);
    let needle = folded(query);
    lemma_names_rank();
    lemma_ranked_same_items(kept, before, e);
    if kept.contains(e) {
        let k = choose|k: int| 0 <= k < kept.len() && kept[k] == e;
        lemma_filter_from(g.entities, p, k);
        let at = choose|at: int| occurs_at(hay, needle, at);
        assert(hay.subrange(at, at + needle.len()) == needle);
    }
    if g.entities.contains(e) && exists|at: int|
        0 <= at && at + needle.len() <= hay.len() && #[trigger] hay.subrange(at, at + needle.len())
            == needle {
        let at = choose|at: int|
            0 <= at && at + needle.len() <= hay.len() && #[trigger] hay.subrange(
                at,
                at + needle.len(),
            ) == needle;
        assert(occurs_at(hay, needle, at));
        let i = choose|i: int| 0 <= i < g.entities.len() && g.entities[i] == e;
        assert(p(g.entities[i]));
        g.entities.lemma_filter_contains(p, i);
    }
}

/// A relation that was recorded is in the graph as it is, unless one with its
/// id, or of its type from its source to its target, is there; and nothing else
/// changes.
pub proof fn law_recorded_relation_is_there(g: GraphView, r: RelationRecord)
    ensures
        ({
            let after = g.with_relation(r).relations;
            let taken = exists|i: int|
                0 <= i < g.relations.len() && ((#[trigger] g.relations[i]).id == r.id || (
                g.relations[i].type_id == r.type_id && g.relations[i].source_entity_id
                    == r.source_entity_id && g.relations[i].target_entity_id == r.target_entity_id));
            &&& g.with_relation(r).entities == g.entities
            &&& taken ==> after == g.relations
            &&& !taken ==> after == g.relations.push(r)
        }),
{
}

/// The direct relations of an entity are those of the graph that start or end
/// at it, in order.
pub proof fn law_direct_relations(g: GraphView, id: Uuid)
    ensures
        g.touching(id) == g.relations.filter(
            |r: RelationRecord| r.source_entity_id == id || r.target_entity_id == id,
        ),
{
    lemma_filter_same(
        g.relations,
        |r: RelationRecord| touches(r, id),
        |r: RelationRecord| r.source_entity_id == id || r.target_entity_id == id,
    );
}

/// Wherever relations lead from one entity to another, followed either way, in
/// no more hops than are allowed, the two are connected: a path is found, and
/// each is among the entities related to the other.
pub proof fn law_walk_is_found(
    g: GraphView,
    nodes: Seq<Uuid>,
    walk: Seq<RelationRecord>,
    max_depth: u32,
    found: Seq<EntityView>,
)
    requires
        nodes.len() == walk.len() + 1,
        walk.len() <= max_depth,
        forall|i: int|
            0 <= i < walk.len() ==> g.relations.contains(#[trigger] walk[i]) && ((
            walk[i].source_entity_id == nodes[i] && walk[i].target_entity_id == nodes[i + 1]) || (
            walk[i].source_entity_id == nodes[i + 1] && walk[i].target_entity_id == nodes[i])),
    ensures
        within(g.relations, nodes[0], nodes[walk.len() as int], max_depth as nat),
        are_related(g, nodes[0], max_depth, found) && nodes[walk.len() as int] != nodes[0] && (
        exists|k: int|
            0 <= k < g.entities.len() && (#[trigger] g.entities[k]).id == nodes[walk.len() as int])
            ==> exists|k: int|
            0 <= k < found.len() && (#[trigger] found[k]).id == nodes[walk.len() as int]
                && g.entities.contains(found[k]),
{
    let from = nodes[0];
    let to = nodes[walk.len() as int];
    assert forall|i: int| 0 <= i < walk.len() implies connects(#[trigger] walk[i], nodes[i], nodes[i + 1]) by {}
    assert(leads(walk, nodes, from, to));
    lemma_path_reaches(g.relations, walk, nodes, from, to, walk.len() as int);
    lemma_within_monotone(g.relations, from, to, walk.len(), max_depth as nat);
    if are_related(g, from, max_depth, found) && to != from && exists|k: int|
        0 <= k < g.entities.len() && (#[trigger] g.entities[k]).id == to {
        let p = |e: EntityView| e.id == to;
        lemma_first_match(g.entities, p);
        let k = choose|k: int| 0 <= k < g.entities.len() && (#[trigger] g.entities[k]).id == to;
        assert(p(g.entities[k]));
        let j = choose|j: int| 0 <= j < found.len() && (#[trigger] found[j]).id == to;
        lemma_first_match(g.entities, |e: EntityView| e.id == found[j].id);
        assert(g.entities.contains(found[j]));
    }
}

/// What is related to an entity is connected to it by a walk that is no longer
/// than allowed, and is an entity of the graph other than the one itself.
pub proof fn law_related_by_a_walk(
    g: GraphView,
    start: Uuid,
    depth: u32,
    found: Seq<EntityView>,
    k: int,
)
    requires
        are_related(g, start, depth, found),
        0 <= k < found.len(),
    ensures
        g.entities.contains(found[k]),
        found[k].id != start,
        exists|nodes: Seq<Uuid>, walk: Seq<RelationRecord>|
            #[trigger] is_walk(g, nodes, walk) && walk.len() <= depth && nodes[0] == start
                && nodes.last() == found[k].id,
{
    lemma_first_match(g.entities, |e: EntityView| e.id == found[k].id);
    lemma_walk_of(g, start, found[k].id, depth as nat);
}

/// Each relation of a walk joins two neighbouring nodes.
pub open spec fn is_walk(g: GraphView, nodes: Seq<Uuid>, walk: Seq<RelationRecord>) -> bool {
    &&& nodes.len() == walk.len() + 1
    &&& forall|i: int|
        0 <= i < walk.len() ==> g.relations.contains(#[trigger] walk[i]) && ((
        walk[i].source_entity_id == nodes[i] && walk[i].target_entity_id == nodes[i + 1]) || (
        walk[i].source_entity_id == nodes[i + 1] && walk[i].target_entity_id == nodes[i]))
}

proof fn lemma_walk_of(g: GraphView, from: Uuid, to: Uuid, k: nat)
    requires
        within(g.relations, from, to, k),
    ensures
        exists|nodes: Seq<Uuid>, walk: Seq<RelationRecord>|
            #[trigger] is_walk(g, nodes, walk) && walk.len() <= k && nodes[0] == from && nodes.last()
                == to,
    decreases k,
{
    if from == to {
        let walk = Seq::<RelationRecord>::empty();
        assert(is_walk(g, seq![from], walk));
        assert(seq![from][0] == from);
        assert(seq![from].last() == to);
    } else {
        if within(g.relations, from, to, (k - 1) as nat) {
            lemma_walk_of(g, from, to, (k - 1) as nat);
        } else {
            let mid = choose|m: Uuid|
                within(g.relations, from, m, (k - 1) as nat) && #[trigger] adjacent(
                    g.relations,
                    m,
                    to,
                );
            lemma_walk_of(g, from, mid, (k - 1) as nat);
            let (nodes, walk) = choose|nodes: Seq<Uuid>, walk: Seq<RelationRecord>|
                #[trigger] is_walk(g, nodes, walk) && walk.len() <= k - 1 && nodes[0] == from
                    && nodes.last() == mid;
            let i = choose|i: int|
                0 <= i < g.relations.len() && connects(#[trigger] g.relations[i], mid, to);
            let more = walk.push(g.relations[i]);
            let on = nodes.push(to);
            assert forall|j: int| 0 <= j < more.len() implies g.relations.contains(
                #[trigger] more[j],
            ) && ((more[j].source_entity_id == on[j] && more[j].target_entity_id == on[j + 1]) || (
            more[j].source_entity_id == on[j + 1] && more[j].target_entity_id == on[j])) by {
                if j < walk.len() {
                    assert(more[j] == walk[j]);
                }
            }
            assert(is_walk(g, on, more));
            assert(on[0] == from && on.last() == to);
        }
    }
}

/// An entity that is looked for is one of the asked type and name. Where the
/// graph holds such a one, nothing changes; else a new one is added, under the
/// fresh id, with the file and the time that were given, unless that id is taken.
pub proof fn law_entity_is_found_or_made(
    g: GraphView,
    type_id: Uuid,
    name: Seq<char>,
    file: Seq<char>,
    fresh: Uuid,
    at: Seq<char>,
)
    ensures
        ({
            let (after, r) = g.with_entity(type_id, name, file, fresh, at);
            let known = exists|i: int|
                0 <= i < g.entities.len() && (#[trigger] g.entities[i]).type_id == type_id
                    && g.entities[i].canonical_name == name;
            let taken = exists|i: int| 0 <= i < g.entities.len() && (#[trigger] g.entities[i]).id == fresh;
            &&& after.relations == g.relations
            &&& r is Ok <==> known || !taken
            &&& r is Ok ==> r->Ok_0.type_id == type_id && r->Ok_0.canonical_name == name
                && after.entities.contains(r->Ok_0)
            &&& known || taken ==> after.entities == g.entities
            &&& !known && !taken ==> after.entities == g.entities.push(r->Ok_0) && r->Ok_0.id == fresh
                && r->Ok_0.first_seen_file == file && r->Ok_0.updated_at == at
        }),
{
    let p = |e: EntityView| e.type_id == type_id && e.canonical_name == name;
    let q = |e: EntityView| e.id == fresh;
    lemma_first_match(g.entities, p);
    lemma_first_match(g.entities, q);
    let (after, r) = g.with_entity(type_id, name, file, fresh, at);
    if exists|i: int|
        0 <= i < g.entities.len() && (#[trigger] g.entities[i]).type_id == type_id
            && g.entities[i].canonical_name == name {
        let i = choose|i: int|
            0 <= i < g.entities.len() && (#[trigger] g.entities[i]).type_id == type_id
                && g.entities[i].canonical_name == name;
        assert(p(g.entities[i]));
    }
    if exists|i: int| 0 <= i < g.entities.len() && (#[trigger] g.entities[i]).id == fresh {
        let i = choose|i: int| 0 <= i < g.entities.len() && (#[trigger] g.entities[i]).id == fresh;
        assert(q(g.entities[i]));
    }
    if r is Ok && g.named(type_id, name) is None {
        assert(after.entities[g.entities.len() as int] == r->Ok_0);
    }
}

/// Related entities are listed once each, the nearer ones first: one that stands
/// before another is reached by a walk that is no longer than any walk to the
/// other.
pub proof fn law_nearer_entities_come_first(
    g: GraphView,
    start: Uuid,
    depth: u32,
    found: Seq<EntityView>,
    i: int,
    j: int,
    nodes: Seq<Uuid>,
    walk: Seq<RelationRecord>,
)
    requires
        are_related(g, start, depth, found),
        0 <= i < j < found.len(),
        is_walk(g, nodes, walk),
        nodes[0] == start,
        nodes.last() == found[j].id,
    ensures
        found[i].id != found[j].id,
        exists|near: Seq<Uuid>, short: Seq<RelationRecord>|
            #[trigger] is_walk(g, near, short) && short.len() <= walk.len() && near[0] == start
                && near.last() == found[i].id,
{
    lemma_walk_within(g, nodes, walk);
    assert(within(g.relations, start, found[j].id, walk.len()));
    assert(within(g.relations, start, found[i].id, walk.len()));
    lemma_walk_of(g, start, found[i].id, walk.len());
}

proof fn lemma_walk_within(g: GraphView, nodes: Seq<Uuid>, walk: Seq<RelationRecord>)
    requires
        is_walk(g, nodes, walk),
    ensures
        within(g.relations, nodes[0], nodes.last(), walk.len()),
{
    let from = nodes[0];
    let to = nodes.last();
    assert forall|i: int| 0 <= i < walk.len() implies connects(#[trigger] walk[i], nodes[i], nodes[i + 1]) by {}
    assert(leads(walk, nodes, from, to));
    lemma_path_reaches(g.relations, walk, nodes, from, to, walk.len() as int);
}

/// The path that is found is no longer than any walk between its ends.
pub proof fn law_path_is_a_shortest_walk(
    g: GraphView,
    max_depth: u32,
    path: Seq<RelationRecord>,
    nodes: Seq<Uuid>,
    walk: Seq<RelationRecord>,
)
    requires
        is_walk(g, nodes, walk),
        is_shortest_path(g, nodes[0], nodes.last(), max_depth, path),
    ensures
        path.len() <= walk.len(),
        path.len() <= max_depth,
{
    lemma_walk_within(g, nodes, walk);
    if walk.len() < path.len() {
        lemma_within_monotone(g.relations, nodes[0], nodes.last(), walk.len(), (path.len() - 1) as nat);
    }
}

} // verus!
