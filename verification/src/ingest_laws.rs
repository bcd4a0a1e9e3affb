//! Laws of frontmatter ingestion.

use vstd::prelude::*;
use crate::engine::EngineView;
use crate::frontmatter::{concept_texts, derived_name, FieldRuleView, FieldView};
use crate::graph::{name_matches, same_edge, GraphView};
use crate::graph_laws::{
    law_entity_is_found_or_made, law_with_entity_valid, law_with_relation_valid,
};
use crate::ids::Uuid;
use crate::ingest::{exact_named, ids_before, own_kind, own_name, RELATION_CONCEPTS};
use crate::order::{lemma_rank_position, lex_lt, rank_position, ranked, ranked_insert};
use crate::records::{EntityView, OntologyErrorView, RelationRecord};
use crate::registry::{EntityTypeRowView, RegistryView, RelationTypeRowView, SEED_RELATION_TYPES};
use crate::registry_laws::{
    law_entity_type_is_found_or_made, law_registry_stays_valid, law_types_are_found_by_name,
};
use crate::scores::one;
use crate::text::{ascii_lower, folded, occurs_at, same_ignoring_ascii_case};
use crate::views::{
    first_match, lemma_filter_from, lemma_first_match, lemma_first_match_at, lemma_first_match_push,
};

verus! {

/// Sorting keeps every item.
proof fn lemma_ranked_contains<V>(s: Seq<V>, before: spec_fn(V, V) -> bool, x: V)
    ensures
        ranked(s, before).contains(x) <==> s.contains(x),
    decreases s.len(),
{
    if s.len() > 0 {
        let rest = ranked(s.drop_last(), before);
        let last = s.last();
        lemma_ranked_contains(s.drop_last(), before, x);
        lemma_rank_position(rest, last, before);
        let p = rank_position(rest, last, before);
        let all = rest.insert(p, last);
        if s.contains(x) {
            let i = choose|i: int| 0 <= i < s.len() && s[i] == x;
            if i < s.len() - 1 {
                assert(s.drop_last()[i] == x);
                let k = choose|k: int| 0 <= k < rest.len() && rest[k] == x;
                if k < p {
                    assert(all[k] == x);
                } else {
                    assert(all[k + 1] == x);
                }
            } else {
                assert(all[p] == x);
            }
        }
        if all.contains(x) {
            let k = choose|k: int| 0 <= k < all.len() && all[k] == x;
            if k < p {
                assert(rest[k] == x);
            } else if k > p {
                assert(rest[k - 1] == x);
            }
            if k == p {
                assert(s[s.len() - 1] == x);
            } else {
                let i = choose|i: int| 0 <= i < s.drop_last().len() && s.drop_last()[i] == x;
                assert(s[i] == x);
            }
        }
    }
}

/// An item that does not match changes no first match, wherever it is put.
proof fn lemma_first_match_insert<V>(s: Seq<V>, i: int, x: V, p: spec_fn(V) -> bool)
    requires
        0 <= i <= s.len(),
        !p(x),
    ensures
        first_match(s.insert(i, x), p) == first_match(s, p),
{
    let all = s.insert(i, x);
    lemma_first_match(s, p);
    match first_match(s, p) {
        Some(v) => {
            let k = choose|k: int|
                0 <= k < s.len() && #[trigger] s[k] == v && forall|j: int|
                    0 <= j < k ==> !p(#[trigger] s[j]);
            let kk = if k < i { k } else { k + 1 };
            assert(all[kk] == v);
            assert forall|j: int| 0 <= j < kk implies !p(#[trigger] all[j]) by {
                if j < i {
                    assert(all[j] == s[j]);
                } else if j > i {
                    assert(all[j] == s[j - 1]);
                }
            }
            lemma_first_match_at(all, p, kk);
        },
        None => {
            lemma_first_match(all, p);
            if first_match(all, p) is Some {
                let v = first_match(all, p)->0;
                let k = choose|k: int| 0 <= k < all.len() && #[trigger] all[k] == v;
                if k < i {
                    assert(!p(s[k]));
                } else if k > i {
                    assert(!p(s[k - 1]));
                }
            }
        },
    }
}

/// A name that is the same but for case is found by a search for it.
proof fn lemma_same_name_matches(e: EntityView, name: Seq<char>)
    requires
        same_ignoring_ascii_case(e.canonical_name, name),
    ensures
        name_matches(e, name),
{
    let x = folded(name);
    assert(folded(e.canonical_name) == x);
    assert(x.subrange(0, x.len() as int) =~= x);
    assert(occurs_at(x, x, 0));
}

/// There is an entity of some name exactly where one is found.
proof fn lemma_exact_named(g: GraphView, name: Seq<char>)
    ensures
        match exact_named(g, name) {
            Some(e) => g.entities.contains(e) && same_ignoring_ascii_case(e.canonical_name, name),
            None => forall|i: int|
                0 <= i < g.entities.len() ==> !same_ignoring_ascii_case(
                    (#[trigger] g.entities[i]).canonical_name,
                    name,
                ),
        },
{
    let m = |e: EntityView| name_matches(e, name);
    let p = |e: EntityView| same_ignoring_ascii_case(e.canonical_name, name);
    let before = |a: EntityView, b: EntityView| lex_lt(a.canonical_name, b.canonical_name);
    let found = g.matching(name);
    lemma_first_match(found, p);
    match exact_named(g, name) {
        Some(e) => {
            let i = choose|i: int| 0 <= i < found.len() && #[trigger] found[i] == e;
            assert(found.contains(e));
            lemma_ranked_contains(g.entities.filter(m), before, e);
            let k = choose|k: int| 0 <= k < g.entities.filter(m).len() && g.entities.filter(m)[k] == e;
            lemma_filter_from(g.entities, m, k);
        },
        None => {
            assert forall|i: int| 0 <= i < g.entities.len() implies !same_ignoring_ascii_case(
                (#[trigger] g.entities[i]).canonical_name,
                name,
            ) by {
                let e = g.entities[i];
                if same_ignoring_ascii_case(e.canonical_name, name) {
                    lemma_same_name_matches(e, name);
                    g.entities.lemma_filter_contains(m, i);
                    lemma_ranked_contains(g.entities.filter(m), before, e);
                    let k = choose|k: int| 0 <= k < found.len() && found[k] == e;
                    assert(!p(found[k]));
                }
            }
        },
    }
}

/// An entity of another name does not come into the way.
proof fn lemma_exact_named_push(g: GraphView, x: EntityView, name: Seq<char>)
    requires
        !same_ignoring_ascii_case(x.canonical_name, name),
    ensures
        exact_named(GraphView { entities: g.entities.push(x), ..g }, name) == exact_named(g, name),
{
    let m = |e: EntityView| name_matches(e, name);
    let p = |e: EntityView| same_ignoring_ascii_case(e.canonical_name, name);
    let before = |a: EntityView, b: EntityView| lex_lt(a.canonical_name, b.canonical_name);
    let after = GraphView { entities: g.entities.push(x), ..g };
    g.entities.lemma_filter_push(x, m);
    if m(x) {
        let s = g.entities.filter(m);
        assert(s.push(x).drop_last() =~= s);
        assert(after.matching(name) == ranked_insert(g.matching(name), x, before));
        lemma_rank_position(g.matching(name), x, before);
        lemma_first_match_insert(
            g.matching(name),
            rank_position(g.matching(name), x, before),
            x,
            p,
        );
    }
}

/// Where nothing has a name, an entity that is added under it is the one.
proof fn lemma_exact_named_new(g: GraphView, x: EntityView)
    requires
        exact_named(g, x.canonical_name) is None,
    ensures
        exact_named(GraphView { entities: g.entities.push(x), ..g }, x.canonical_name) == Some(x),
{
    let after = GraphView { entities: g.entities.push(x), ..g };
    lemma_exact_named(g, x.canonical_name);
    lemma_exact_named(after, x.canonical_name);
    match exact_named(after, x.canonical_name) {
        Some(e) => {
            let i = choose|i: int| 0 <= i < after.entities.len() && after.entities[i] == e;
            if i < g.entities.len() {
                assert(!same_ignoring_ascii_case(g.entities[i].canonical_name, x.canonical_name));
            }
        },
        None => {
            assert(after.entities[g.entities.len() as int] == x);
        },
    }
}

/// An entity after an entity was given another type.
spec fn retyped_entity(id: Uuid, type_id: Uuid) -> spec_fn(EntityView) -> EntityView {
    |e: EntityView|
        if e.id == id {
            EntityView { type_id, ..e }
        } else {
            e
        }
}

proof fn lemma_filter_map(
    s: Seq<EntityView>,
    f: spec_fn(EntityView) -> EntityView,
    p: spec_fn(EntityView) -> bool,
)
    requires
        forall|e: EntityView| #[trigger] p(f(e)) == p(e),
    ensures
        s.map_values(f).filter(p) == s.filter(p).map_values(f),
    decreases s.len(),
{
    if s.len() > 0 {
        let rest = s.drop_last();
        lemma_filter_map(rest, f, p);
        assert(s =~= rest.push(s.last()));
        assert(s.map_values(f) =~= rest.map_values(f).push(f(s.last())));
        rest.lemma_filter_push(s.last(), p);
        rest.map_values(f).lemma_filter_push(f(s.last()), p);
        assert(p(f(s.last())) == p(s.last()));
        assert(s.map_values(f).filter(p) =~= s.filter(p).map_values(f));
    } else {
        assert(s.map_values(f).filter(p) =~= s.filter(p).map_values(f));
    }
}

proof fn lemma_rank_position_map(
    s: Seq<EntityView>,
    x: EntityView,
    f: spec_fn(EntityView) -> EntityView,
    before: spec_fn(EntityView, EntityView) -> bool,
)
    requires
        forall|a: EntityView, b: EntityView| #[trigger] before(f(a), f(b)) == before(a, b),
    ensures
        rank_position(s.map_values(f), f(x), before) == rank_position(s, x, before),
    decreases s.len(),
{
    if s.len() > 0 {
        assert(before(f(x), f(s[0])) == before(x, s[0]));
        assert(s.map_values(f)[0] == f(s[0]));
        assert(s.map_values(f).drop_first() =~= s.drop_first().map_values(f));
        lemma_rank_position_map(s.drop_first(), x, f, before);
    }
}

proof fn lemma_ranked_map(
    s: Seq<EntityView>,
    f: spec_fn(EntityView) -> EntityView,
    before: spec_fn(EntityView, EntityView) -> bool,
)
    requires
        forall|a: EntityView, b: EntityView| #[trigger] before(f(a), f(b)) == before(a, b),
    ensures
        ranked(s.map_values(f), before) == ranked(s, before).map_values(f),
    decreases s.len(),
{
    if s.len() > 0 {
        let rest = ranked(s.drop_last(), before);
        lemma_ranked_map(s.drop_last(), f, before);
        assert(s.map_values(f).drop_last() =~= s.drop_last().map_values(f));
        assert(s.map_values(f).last() == f(s.last()));
        lemma_rank_position_map(rest, s.last(), f, before);
        lemma_rank_position(rest, s.last(), before);
        let p = rank_position(rest, s.last(), before);
        assert(rest.map_values(f).insert(p, f(s.last())) =~= rest.insert(p, s.last()).map_values(f));
    } else {
        assert(ranked(s.map_values(f), before) =~= ranked(s, before).map_values(f));
    }
}

proof fn lemma_first_match_map(
    s: Seq<EntityView>,
    f: spec_fn(EntityView) -> EntityView,
    p: spec_fn(EntityView) -> bool,
)
    requires
        forall|e: EntityView| #[trigger] p(f(e)) == p(e),
    ensures
        first_match(s.map_values(f), p) == (match first_match(s, p) {
            Some(e) => Some(f(e)),
            None => None,
        }),
    decreases s.len(),
{
    if s.len() > 0 {
        lemma_first_match_map(s.drop_last(), f, p);
        assert(s.map_values(f).drop_last() =~= s.drop_last().map_values(f));
        assert(s.map_values(f).last() == f(s.last()));
        assert(p(f(s.last())) == p(s.last()));
    }
}

/// Retyping finds the same entity under a name, with its new type.
proof fn lemma_exact_named_retyped(g: GraphView, id: Uuid, type_id: Uuid, name: Seq<char>)
    ensures
        exact_named(g.retyped(id, type_id), name) == (match exact_named(g, name) {
            Some(e) => Some(retyped_entity(id, type_id)(e)),
            None => None,
        }),
{
    let f = retyped_entity(id, type_id);
    let m = |e: EntityView| name_matches(e, name);
    let p = |e: EntityView| same_ignoring_ascii_case(e.canonical_name, name);
    let before = |a: EntityView, b: EntityView| lex_lt(a.canonical_name, b.canonical_name);
    assert forall|e: EntityView| #[trigger] f(e).canonical_name == e.canonical_name by {}
    assert forall|e: EntityView| #[trigger] m(f(e)) == m(e) by {
        assert(f(e).canonical_name == e.canonical_name);
    }
    assert forall|e: EntityView| #[trigger] p(f(e)) == p(e) by {
        assert(f(e).canonical_name == e.canonical_name);
    }
    assert forall|a: EntityView, b: EntityView| #[trigger] before(f(a), f(b)) == before(a, b) by {
        assert(f(a).canonical_name == a.canonical_name);
        assert(f(b).canonical_name == b.canonical_name);
    }
    assert(g.retyped(id, type_id).entities =~= g.entities.map_values(f));
    lemma_filter_map(g.entities, f, m);
    lemma_ranked_map(g.entities.filter(m), f, before);
    lemma_first_match_map(g.matching(name), f, p);
}

/// What is found in one state is found in the other: types under their names,
/// entities under theirs, and every relation.
pub open spec fn extends(s: EngineView, t: EngineView) -> bool {
    &&& forall|name: Seq<char>|
        #![trigger t.types.entity_type(name)]
        s.types.entity_type(name) is Some ==> t.types.entity_type(name) == s.types.entity_type(name)
    &&& forall|name: Seq<char>|
        #![trigger t.types.relation_type(name)]
        s.types.relation_type(name) is Some ==> t.types.relation_type(name)
            == s.types.relation_type(name)
    &&& forall|name: Seq<char>|
        #![trigger exact_named(t.instances, name)]
        exact_named(s.instances, name) is Some ==> exact_named(t.instances, name) == exact_named(
            s.instances,
            name,
        )
    &&& s.instances.relations.is_prefix_of(t.instances.relations)
}

proof fn lemma_extends_transitive(s: EngineView, t: EngineView, u: EngineView)
    requires
        extends(s, t),
        extends(t, u),
    ensures
        extends(s, u),
{
    assert forall|name: Seq<char>|
        #![trigger u.types.entity_type(name)]
        s.types.entity_type(name) is Some implies u.types.entity_type(name) == s.types.entity_type(
        name,
    ) by {
        assert(t.types.entity_type(name) == s.types.entity_type(name));
    }
    assert forall|name: Seq<char>|
        #![trigger u.types.relation_type(name)]
        s.types.relation_type(name) is Some implies u.types.relation_type(name)
        == s.types.relation_type(name) by {
        assert(t.types.relation_type(name) == s.types.relation_type(name));
    }
    assert forall|name: Seq<char>|
        #![trigger exact_named(u.instances, name)]
        exact_named(s.instances, name) is Some implies exact_named(u.instances, name) == exact_named(
        s.instances,
        name,
    ) by {
        assert(exact_named(t.instances, name) == exact_named(s.instances, name));
    }
}

/// Adding an entity type leaves those that are there.
proof fn lemma_adding_entity_type_extends(r: RegistryView, row: EntityTypeRowView)
    ensures
        forall|name: Seq<char>|
            #![trigger r.adding_entity_type(row).entity_type(name)]
            r.entity_type(name) is Some ==> r.adding_entity_type(row).entity_type(name)
                == r.entity_type(name),
        r.adding_entity_type(row).relation_types == r.relation_types,
{
    assert forall|name: Seq<char>|
        #![trigger r.adding_entity_type(row).entity_type(name)]
        r.entity_type(name) is Some implies r.adding_entity_type(row).entity_type(name)
        == r.entity_type(name) by {
        lemma_first_match_push(r.entity_types, row, |t: EntityTypeRowView| t.name == name);
    }
}

/// Adding a relation type leaves those that are there.
proof fn lemma_adding_relation_type_extends(r: RegistryView, row: RelationTypeRowView)
    ensures
        forall|name: Seq<char>|
            #![trigger r.adding_relation_type(row).relation_type(name)]
            r.relation_type(name) is Some ==> r.adding_relation_type(row).relation_type(name)
                == r.relation_type(name),
        r.adding_relation_type(row).entity_types == r.entity_types,
{
    assert forall|name: Seq<char>|
        #![trigger r.adding_relation_type(row).relation_type(name)]
        r.relation_type(name) is Some implies r.adding_relation_type(row).relation_type(name)
        == r.relation_type(name) by {
        lemma_first_match_push(r.relation_types, row, |t: RelationTypeRowView| t.name == name);
    }
}

/// Resolving a name extends the state, and the name is found from then on.
proof fn lemma_resolving(
    s: EngineView,
    name: Seq<char>,
    file: Seq<char>,
    fresh_type: Uuid,
    fresh: Uuid,
    at: Seq<char>,
)
    ensures
        ({
            let (after, r) = s.resolving(name, file, fresh_type, fresh, at);
            &&& extends(s, after)
            &&& after.instances.relations == s.instances.relations
            &&& r is Ok ==> exact_named(after.instances, name) == Some(r->Ok_0)
        }),
{
    let (after, r) = s.resolving(name, file, fresh_type, fresh, at);
    if exact_named(s.instances, name) is None {
        let row = EntityTypeRowView {
            id: fresh_type,
            name: "unresolved-reference"@,
            description:
                "placeholder for an id referenced by frontmatter before its own file was ingested"@,
            created_at: at,
        };
        lemma_adding_entity_type_extends(s.types, row);
        let (types, t) = s.types.with_entity_type(
            s.instances,
            row.name,
            row.description,
            fresh_type,
            at,
        );
        if t is Ok {
            let type_id = t->Ok_0.id;
            lemma_exact_named(s.instances, name);
            let p = |e: EntityView| e.type_id == type_id && e.canonical_name == name;
            lemma_first_match(s.instances.entities, p);
            assert(s.instances.named(type_id, name) is None) by {
                if s.instances.named(type_id, name) is Some {
                    let v = s.instances.named(type_id, name)->0;
                    let i = choose|i: int|
                        0 <= i < s.instances.entities.len() && #[trigger] s.instances.entities[i] == v;
                    assert(same_ignoring_ascii_case(s.instances.entities[i].canonical_name, name));
                }
            }
            if r is Ok {
                let x = EntityView {
                    id: fresh,
                    type_id,
                    canonical_name: name,
                    first_seen_file: file,
                    updated_at: at,
                };
                lemma_exact_named_new(s.instances, x);
                assert forall|other: Seq<char>|
                    #![trigger exact_named(after.instances, other)]
                    exact_named(s.instances, other) is Some implies exact_named(after.instances, other)
                    == exact_named(s.instances, other) by {
                    lemma_exact_named(s.instances, other);
                    if same_ignoring_ascii_case(name, other) {
                        let e = exact_named(s.instances, other)->0;
                        let i = choose|i: int|
                            0 <= i < s.instances.entities.len() && s.instances.entities[i] == e;
                        assert(same_ignoring_ascii_case(s.instances.entities[i].canonical_name, name));
                    }
                    lemma_exact_named_push(s.instances, x, other);
                }
            }
        }
    }
}

/// There is a relation of a type from `source` to what each of the first `n`
/// names stands for.
pub open spec fn links_hold(
    s: EngineView,
    n: nat,
    targets: Seq<Seq<char>>,
    source: Uuid,
    type_id: Uuid,
) -> bool {
    forall|k: int|
        0 <= k < n ==> link_holds(s, #[trigger] targets[k], source, type_id)
}

/// There is a relation of a type from `source` to what a name stands for.
pub open spec fn link_holds(s: EngineView, name: Seq<char>, source: Uuid, type_id: Uuid) -> bool {
    match exact_named(s.instances, name) {
        Some(e) => exists|i: int|
            0 <= i < s.instances.relations.len() && is_link(
                #[trigger] s.instances.relations[i],
                source,
                e.id,
                type_id,
            ),
        None => false,
    }
}

/// A relation of a type from `source` to `target`.
pub open spec fn is_link(r: RelationRecord, source: Uuid, target: Uuid, type_id: Uuid) -> bool {
    r.type_id == type_id && r.source_entity_id == source && r.target_entity_id == target
}

proof fn lemma_link_extends(
    s: EngineView,
    t: EngineView,
    name: Seq<char>,
    source: Uuid,
    type_id: Uuid,
)
    requires
        extends(s, t),
        link_holds(s, name, source, type_id),
    ensures
        link_holds(t, name, source, type_id),
{
    assert(exact_named(t.instances, name) == exact_named(s.instances, name));
    let e = exact_named(s.instances, name)->0;
    let i = choose|i: int|
        0 <= i < s.instances.relations.len() && is_link(
            #[trigger] s.instances.relations[i],
            source,
            e.id,
            type_id,
        );
    assert(t.instances.relations[i] == s.instances.relations[i]);
}

/// The relations of a state have ids that are none of the later ones.
spec fn ids_unused(s: EngineView, ids: Seq<Uuid>, from: int) -> bool {
    forall|i: int, k: int|
        0 <= i < s.instances.relations.len() && from <= k < ids.len() ==> (
        #[trigger] s.instances.relations[i]).id != #[trigger] ids[k]
}

/// After relations to `targets` were recorded, they are there.
proof fn lemma_linking_holds(
    s: EngineView,
    n: nat,
    targets: Seq<Seq<char>>,
    source: Uuid,
    type_id: Uuid,
    file: Seq<char>,
    evidence: Uuid,
    ids: Seq<Uuid>,
    at: Seq<char>,
)
    requires
        n <= targets.len(),
        3 * n <= ids.len(),
        ids.no_duplicates(),
        ids_unused(s, ids, 0),
        s.linking(n, targets, source, type_id, file, evidence, ids, at).1 is Ok,
    ensures
        ({
            let (after, r) = s.linking(n, targets, source, type_id, file, evidence, ids, at);
            &&& r == Ok::<nat, OntologyErrorView>(n)
            &&& extends(s, after)
            &&& links_hold(after, n, targets, source, type_id)
            &&& ids_unused(after, ids, 3 * n as int)
        }),
    decreases n,
{
    let (after, r) = s.linking(n, targets, source, type_id, file, evidence, ids, at);
    if n > 0 {
        let k = n - 1;
        let (before, rb) = s.linking(k as nat, targets, source, type_id, file, evidence, ids, at);
        lemma_linking_holds(s, k as nat, targets, source, type_id, file, evidence, ids, at);
        lemma_resolving(before, targets[k], file, ids[3 * k], ids[3 * k + 1], at);
        let (resolved, t) = before.resolving(targets[k], file, ids[3 * k], ids[3 * k + 1], at);
        let target = t->Ok_0;
        let record = RelationRecord {
            id: ids[3 * k + 2],
            type_id,
            source_entity_id: source,
            target_entity_id: target.id,
            confidence: one(),
            evidence_chunk_id: evidence,
        };
        assert(after.instances == resolved.instances.with_relation(record));
        assert(after.instances.entities == resolved.instances.entities);
        assert forall|name: Seq<char>|
            #![trigger exact_named(after.instances, name)]
            exact_named(after.instances, name) == exact_named(resolved.instances, name) by {
            assert(after.instances.matching(name) == resolved.instances.matching(name));
        }
        assert(extends(resolved, after));
        lemma_extends_transitive(before, resolved, after);
        lemma_extends_transitive(s, before, after);
        assert(link_holds(after, targets[k], source, type_id)) by {
            if resolved.instances.has_relation(record) {
                let i = choose|i: int|
                    0 <= i < resolved.instances.relations.len() && ((
                    #[trigger] resolved.instances.relations[i]).id == record.id || same_edge(
                        resolved.instances.relations[i],
                        record,
                    ));
                assert(before.instances.relations[i].id != ids[3 * k + 2]);
                assert(is_link(after.instances.relations[i], source, target.id, type_id));
            } else {
                let i = resolved.instances.relations.len() as int;
                assert(is_link(after.instances.relations[i], source, target.id, type_id));
            }
        }
        assert forall|j: int| 0 <= j < n implies link_holds(
            after,
            #[trigger] targets[j],
            source,
            type_id,
        ) by {
            if j < k {
                lemma_link_extends(before, after, targets[j], source, type_id);
            }
        }
        assert forall|i: int, j: int|
            0 <= i < after.instances.relations.len() && 3 * n <= j < ids.len() implies (
        #[trigger] after.instances.relations[i]).id != #[trigger] ids[j] by {
            if i < before.instances.relations.len() {
                assert(after.instances.relations[i] == before.instances.relations[i]);
            } else {
                assert(after.instances.relations[i] == record);
                assert(ids[3 * k + 2] != ids[j]);
            }
        }
    }
}

/// Where relations are there, recording them again changes nothing.
proof fn lemma_linking_again(
    s: EngineView,
    n: nat,
    targets: Seq<Seq<char>>,
    source: Uuid,
    type_id: Uuid,
    file: Seq<char>,
    evidence: Uuid,
    ids: Seq<Uuid>,
    at: Seq<char>,
)
    requires
        n <= targets.len(),
        links_hold(s, n, targets, source, type_id),
    ensures
        s.linking(n, targets, source, type_id, file, evidence, ids, at) == (
            s,
            Ok::<nat, OntologyErrorView>(n),
        ),
    decreases n,
{
    if n > 0 {
        let k = n - 1;
        assert(links_hold(s, k as nat, targets, source, type_id));
        lemma_linking_again(s, k as nat, targets, source, type_id, file, evidence, ids, at);
        assert(link_holds(s, targets[k], source, type_id));
        let e = exact_named(s.instances, targets[k])->0;
        let i = choose|i: int|
            0 <= i < s.instances.relations.len() && is_link(
                #[trigger] s.instances.relations[i],
                source,
                e.id,
                type_id,
            );
        let record = RelationRecord {
            id: ids[3 * k + 2],
            type_id,
            source_entity_id: source,
            target_entity_id: e.id,
            confidence: one(),
            evidence_chunk_id: evidence,
        };
        assert(same_edge(s.instances.relations[i], record));
        assert(s.instances.has_relation(record));
    }
}

/// Looking for the relation type of a concept extends the state, and the type
/// is there from then on.
proof fn lemma_relation_type_for(s: EngineView, concept: Seq<char>, fresh: Uuid, at: Seq<char>)
    ensures
        ({
            let (after, r) = s.relation_type_for(concept, fresh, at);
            &&& extends(s, after)
            &&& after.instances == s.instances
            &&& r is Ok ==> after.types.relation_type(concept) is Some
                && after.types.relation_type(concept)->0.id == r->Ok_0.id
        }),
{
    if s.types.relation_type(concept) is None {
        lemma_adding_relation_type_extends(
            s.types,
            RelationTypeRowView {
                id: fresh,
                name: concept,
                description: "frontmatter relation '"@ + concept + "'"@,
                status: crate::records::RelationTypeStatus::Candidate,
                created_at: at,
            },
        );
    }
}

/// The relations of the first `n` concepts are there.
pub open spec fn relations_hold(
    s: EngineView,
    n: nat,
    rules: Seq<FieldRuleView>,
    fields: Seq<FieldView>,
    source: Uuid,
) -> bool {
    forall|i: int| 0 <= i < n ==> concept_holds(s, #[trigger] RELATION_CONCEPTS@[i]@, rules, fields, source)
}

/// The relations of a concept are there.
pub open spec fn concept_holds(
    s: EngineView,
    concept: Seq<char>,
    rules: Seq<FieldRuleView>,
    fields: Seq<FieldView>,
    source: Uuid,
) -> bool {
    let targets = concept_texts(rules, fields, concept);
    targets.len() > 0 ==> s.types.relation_type(concept) is Some && links_hold(
        s,
        targets.len(),
        targets,
        source,
        s.types.relation_type(concept)->0.id,
    )
}

proof fn lemma_concept_extends(
    s: EngineView,
    t: EngineView,
    concept: Seq<char>,
    rules: Seq<FieldRuleView>,
    fields: Seq<FieldView>,
    source: Uuid,
)
    requires
        extends(s, t),
        concept_holds(s, concept, rules, fields, source),
    ensures
        concept_holds(t, concept, rules, fields, source),
{
    let targets = concept_texts(rules, fields, concept);
    if targets.len() > 0 {
        let type_id = s.types.relation_type(concept)->0.id;
        assert(t.types.relation_type(concept) == s.types.relation_type(concept));
        assert forall|k: int| 0 <= k < targets.len() implies link_holds(
            t,
            #[trigger] targets[k],
            source,
            type_id,
        ) by {
            lemma_link_extends(s, t, targets[k], source, type_id);
        }
    }
}

/// The number of targets of the first `n` concepts.
pub open spec fn target_count(rules: Seq<FieldRuleView>, fields: Seq<FieldView>, n: nat) -> nat
    decreases n,
{
    if n == 0 {
        0
    } else {
        target_count(rules, fields, (n - 1) as nat) + concept_texts(
            rules,
            fields,
            RELATION_CONCEPTS@[n - 1]@,
        ).len()
    }
}

/// After the relations of some concepts were recorded, they are there.
proof fn lemma_relating_holds(
    s: EngineView,
    n: nat,
    rules: Seq<FieldRuleView>,
    fields: Seq<FieldView>,
    source: Uuid,
    file: Seq<char>,
    evidence: Uuid,
    ids: Seq<Uuid>,
    at: Seq<char>,
)
    requires
        n <= 8,
        ids_before(rules, fields, n) <= ids.len(),
        ids.no_duplicates(),
        ids_unused(s, ids, 0),
        s.relating(n, rules, fields, source, file, evidence, ids, at).1 is Ok,
    ensures
        ({
            let (after, r) = s.relating(n, rules, fields, source, file, evidence, ids, at);
            &&& r == Ok::<nat, OntologyErrorView>(target_count(rules, fields, n))
            &&& extends(s, after)
            &&& relations_hold(after, n, rules, fields, source)
            &&& ids_unused(after, ids, ids_before(rules, fields, n) as int)
        }),
    decreases n,
{
    if n > 0 {
        let m = (n - 1) as nat;
        let (before, rb) = s.relating(m, rules, fields, source, file, evidence, ids, at);
        lemma_relating_holds(s, m, rules, fields, source, file, evidence, ids, at);
        let (after, r) = s.relating(n, rules, fields, source, file, evidence, ids, at);
        let concept = RELATION_CONCEPTS@[n - 1]@;
        let targets = concept_texts(rules, fields, concept);
        let base = ids_before(rules, fields, m) as int;
        if targets.len() > 0 {
            lemma_relation_type_for(before, concept, ids[base], at);
            let (typed, t) = before.relation_type_for(concept, ids[base], at);
            let rest = ids.skip(base + 1);
            assert forall|i: int, j: int| 0 <= i < j < rest.len() implies rest[i] != rest[j] by {
                assert(ids[base + 1 + i] != ids[base + 1 + j]);
            }
            assert(ids_unused(typed, rest, 0)) by {
                assert forall|i: int, k: int|
                    0 <= i < typed.instances.relations.len() && 0 <= k < rest.len() implies (
                #[trigger] typed.instances.relations[i]).id != #[trigger] rest[k] by {
                    assert(before.instances.relations[i].id != ids[base + 1 + k]);
                }
            }
            lemma_linking_holds(
                typed,
                targets.len(),
                targets,
                source,
                t->Ok_0.id,
                file,
                evidence,
                rest,
                at,
            );
            lemma_extends_transitive(before, typed, after);
            lemma_extends_transitive(s, before, after);
            assert(after.types.relation_type(concept) == typed.types.relation_type(concept));
            assert(concept_holds(after, concept, rules, fields, source));
            assert forall|i: int, k: int|
                0 <= i < after.instances.relations.len() && ids_before(
                    rules,
                    fields,
                    n,
                ) <= k < ids.len() implies (#[trigger] after.instances.relations[i]).id
                != #[trigger] ids[k] by {
                assert(rest[k - base - 1] == ids[k]);
            }
        } else {
            assert(after == before);
            assert(concept_holds(after, concept, rules, fields, source));
        }
        assert forall|i: int| 0 <= i < n implies concept_holds(
            after,
            #[trigger] RELATION_CONCEPTS@[i]@,
            rules,
            fields,
            source,
        ) by {
            if i < m {
                assert(concept_holds(before, RELATION_CONCEPTS@[i]@, rules, fields, source));
                if targets.len() > 0 {
                    let (typed, t) = before.relation_type_for(concept, ids[base], at);
                    lemma_relation_type_for(before, concept, ids[base], at);
                    lemma_extends_transitive(before, typed, after);
                    lemma_concept_extends(
                        before,
                        after,
                        RELATION_CONCEPTS@[i]@,
                        rules,
                        fields,
                        source,
                    );
                }
            }
        }
    }
}

/// Where the relations of some concepts are there, recording them again
/// changes nothing.
proof fn lemma_relating_again(
    s: EngineView,
    n: nat,
    rules: Seq<FieldRuleView>,
    fields: Seq<FieldView>,
    source: Uuid,
    file: Seq<char>,
    evidence: Uuid,
    ids: Seq<Uuid>,
    at: Seq<char>,
)
    requires
        n <= 8,
        relations_hold(s, n, rules, fields, source),
    ensures
        s.relating(n, rules, fields, source, file, evidence, ids, at) == (
            s,
            Ok::<nat, OntologyErrorView>(target_count(rules, fields, n)),
        ),
    decreases n,
{
    if n > 0 {
        let m = (n - 1) as nat;
        assert forall|i: int| 0 <= i < m implies concept_holds(
            s,
            #[trigger] RELATION_CONCEPTS@[i]@,
            rules,
            fields,
            source,
        ) by {}
        lemma_relating_again(s, m, rules, fields, source, file, evidence, ids, at);
        let concept = RELATION_CONCEPTS@[n - 1]@;
        assert(concept_holds(s, concept, rules, fields, source));
        let targets = concept_texts(rules, fields, concept);
        let base = ids_before(rules, fields, m) as int;
        if targets.len() > 0 {
            lemma_linking_again(
                s,
                targets.len(),
                targets,
                source,
                s.types.relation_type(concept)->0.id,
                file,
                evidence,
                ids.skip(base + 1),
                at,
            );
        }
    }
}

/// A file's own entity is found under its name from then on, with its type.
proof fn lemma_owning(
    s: EngineView,
    name: Seq<char>,
    type_id: Uuid,
    file: Seq<char>,
    fresh: Uuid,
    at: Seq<char>,
)
    requires
        s.instances.valid(),
        s.owning(name, type_id, file, fresh, at).1 is Ok,
    ensures
        ({
            let (after, r) = s.owning(name, type_id, file, fresh, at);
            &&& exact_named(after.instances, name) == Some(r->Ok_0)
            &&& r->Ok_0.type_id == type_id
            &&& after.types == s.types
            &&& after.instances.relations == s.instances.relations
        }),
{
    let (after, r) = s.owning(name, type_id, file, fresh, at);
    lemma_exact_named(s.instances, name);
    match exact_named(s.instances, name) {
        Some(e) => {
            if e.type_id != type_id {
                lemma_exact_named_retyped(s.instances, e.id, type_id, name);
                let f = retyped_entity(e.id, type_id);
                let i = choose|i: int|
                    0 <= i < s.instances.entities.len() && s.instances.entities[i] == e;
                let q = |x: EntityView| x.id == e.id;
                assert forall|j: int| 0 <= j < i implies !q(#[trigger] after.instances.entities[j]) by {
                    assert(s.instances.entities[j].id != s.instances.entities[i].id);
                }
                assert(after.instances.entities[i] == f(e));
                lemma_first_match_at(after.instances.entities, q, i);
            }
        },
        None => {
            let p = |x: EntityView| x.type_id == type_id && x.canonical_name == name;
            lemma_first_match(s.instances.entities, p);
            assert(s.instances.named(type_id, name) is None) by {
                if s.instances.named(type_id, name) is Some {
                    let v = s.instances.named(type_id, name)->0;
                    let i = choose|i: int|
                        0 <= i < s.instances.entities.len() && #[trigger] s.instances.entities[i] == v;
                    assert(same_ignoring_ascii_case(s.instances.entities[i].canonical_name, name));
                }
            }
            lemma_exact_named_new(
                s.instances,
                EntityView {
                    id: fresh,
                    type_id,
                    canonical_name: name,
                    first_seen_file: file,
                    updated_at: at,
                },
            );
        },
    }
}

/// Ingesting the frontmatter of a file again, whatever chunk is cited, changes
/// nothing and has the same outcome: restarts pile up neither entities nor
/// relations.
pub proof fn law_ingesting_again_changes_nothing(
    s: EngineView,
    file: Seq<char>,
    rules: Seq<FieldRuleView>,
    fields: Seq<FieldView>,
    evidence: Uuid,
    ids: Seq<Uuid>,
    at: Seq<char>,
    other_evidence: Uuid,
    other_ids: Seq<Uuid>,
    later: Seq<char>,
)
    requires
        s.instances.valid(),
        ids.len() >= 2 + ids_before(rules, fields, 8),
        ids.no_duplicates(),
        forall|i: int, k: int|
            0 <= i < s.instances.relations.len() && 0 <= k < ids.len() ==> (
            #[trigger] s.instances.relations[i]).id != #[trigger] ids[k],
        s.ingesting(file, rules, fields, evidence, ids, at).1 is Ok,
    ensures
        ({
            let first = s.ingesting(file, rules, fields, evidence, ids, at);
            first.0.ingesting(file, rules, fields, other_evidence, other_ids, later) == first
        }),
{
    let (last, outcome) = s.ingesting(file, rules, fields, evidence, ids, at);
    let kind = own_kind(rules, fields);
    let name = own_name(rules, fields, file);
    let description = "frontmatter kind '"@ + kind + "'"@;
    let row = EntityTypeRowView { id: ids[0], name: kind, description, created_at: at };
    let (types, t) = s.types.with_entity_type(s.instances, kind, description, ids[0], at);
    let type_id = t->Ok_0.id;
    let typed = EngineView { types, ..s };
    let (owned, o) = typed.owning(name, type_id, file, ids[1], at);
    let entity = o->Ok_0;
    lemma_owning(typed, name, type_id, file, ids[1], at);
    let rest = ids.skip(2);
    assert forall|i: int, j: int| 0 <= i < j < rest.len() implies rest[i] != rest[j] by {
        assert(ids[2 + i] != ids[2 + j]);
    }
    assert(ids_unused(owned, rest, 0)) by {
        assert forall|i: int, k: int|
            0 <= i < owned.instances.relations.len() && 0 <= k < rest.len() implies (
        #[trigger] owned.instances.relations[i]).id != #[trigger] rest[k] by {
            assert(s.instances.relations[i].id != ids[2 + k]);
        }
    }
    lemma_relating_holds(owned, 8, rules, fields, entity.id, file, evidence, rest, at);
    assert(last == owned.relating(8, rules, fields, entity.id, file, evidence, rest, at).0);
    // The second time, the type is there,
    let again = EntityTypeRowView {
        id: other_ids[0],
        name: kind,
        description,
        created_at: later,
    };
    assert(last.types.entity_type(kind) == types.entity_type(kind));
    let known = |x: EntityTypeRowView| x.name == kind;
    lemma_first_match(last.types.entity_types, known);
    let v = last.types.entity_type(kind)->0;
    let i = choose|i: int|
        0 <= i < last.types.entity_types.len() && #[trigger] last.types.entity_types[i] == v;
    assert(last.types.entity_types[i].name == again.name);
    assert(last.types.has_entity_type(again));
    // and so is the entity,
    assert(exact_named(last.instances, name) == Some(entity));
    // and so are the relations.
    lemma_relating_again(
        last,
        8,
        rules,
        fields,
        entity.id,
        file,
        other_evidence,
        other_ids.skip(2),
        later,
    );
}

/// A placeholder that a forward reference made becomes the file's own entity:
/// it keeps its id, its name and the file that it was first seen in, it gets
/// the file's kind, and every relation to it stays.
pub proof fn law_placeholder_is_retyped_in_place(
    s: EngineView,
    name: Seq<char>,
    type_id: Uuid,
    file: Seq<char>,
    fresh: Uuid,
    at: Seq<char>,
)
    requires
        s.instances.valid(),
        exact_named(s.instances, name) is Some,
    ensures
        ({
            let old_entity = exact_named(s.instances, name)->0;
            let (after, r) = s.owning(name, type_id, file, fresh, at);
            &&& r == Ok::<EntityView, OntologyErrorView>(EntityView { type_id, ..old_entity })
            &&& after.instances.relations == s.instances.relations
            &&& after.instances.entities.len() == s.instances.entities.len()
        }),
{
    let e = exact_named(s.instances, name)->0;
    lemma_exact_named(s.instances, name);
    let (after, r) = s.owning(name, type_id, file, fresh, at);
    let i = choose|i: int| 0 <= i < s.instances.entities.len() && s.instances.entities[i] == e;
    if e.type_id != type_id {
        let f = retyped_entity(e.id, type_id);
        let q = |x: EntityView| x.id == e.id;
        assert forall|j: int| 0 <= j < i implies !q(#[trigger] after.instances.entities[j]) by {
            assert(s.instances.entities[j].id != s.instances.entities[i].id);
        }
        assert(after.instances.entities[i] == f(e));
        lemma_first_match_at(after.instances.entities, q, i);
    }
}

/// A name that a relation points at stands for one entity from then on: the
/// next file that names it points at the same one.
pub proof fn law_references_agree(
    s: EngineView,
    name: Seq<char>,
    file: Seq<char>,
    fresh_type: Uuid,
    fresh: Uuid,
    at: Seq<char>,
    other_file: Seq<char>,
    other_type: Uuid,
    other_fresh: Uuid,
    later: Seq<char>,
)
    requires
        s.resolving(name, file, fresh_type, fresh, at).1 is Ok,
    ensures
        ({
            let first = s.resolving(name, file, fresh_type, fresh, at);
            first.0.resolving(name, other_file, other_type, other_fresh, later) == first
        }),
{
    lemma_resolving(s, name, file, fresh_type, fresh, at);
}

/// The types and the graph are valid.
pub open spec fn is_valid(s: EngineView) -> bool {
    s.types.valid() && s.instances.valid()
}

proof fn lemma_retyped_valid(g: GraphView, id: Uuid, type_id: Uuid)
    requires
        g.valid(),
    ensures
        g.retyped(id, type_id).valid(),
{
    let after = g.retyped(id, type_id);
    assert forall|a: int, b: int| 0 <= a < b < after.entities.len() implies (
    #[trigger] after.entities[a]).id != (#[trigger] after.entities[b]).id by {
        assert(g.entities[a].id != g.entities[b].id);
    }
}

proof fn lemma_resolving_valid(
    s: EngineView,
    name: Seq<char>,
    file: Seq<char>,
    fresh_type: Uuid,
    fresh: Uuid,
    at: Seq<char>,
)
    requires
        is_valid(s),
    ensures
        is_valid(s.resolving(name, file, fresh_type, fresh, at).0),
{
    let text = "placeholder for an id referenced by frontmatter before its own file was ingested"@;
    law_registry_stays_valid(s.types, s.instances, "unresolved-reference"@, text, fresh_type, at);
    let (_, t) = s.types.with_entity_type(
        s.instances,
        "unresolved-reference"@,
        text,
        fresh_type,
        at,
    );
    if t is Ok {
        law_with_entity_valid(s.instances, t->Ok_0.id, name, file, fresh, at);
    }
}

proof fn lemma_linking_valid(
    s: EngineView,
    n: nat,
    targets: Seq<Seq<char>>,
    source: Uuid,
    type_id: Uuid,
    file: Seq<char>,
    evidence: Uuid,
    ids: Seq<Uuid>,
    at: Seq<char>,
)
    requires
        is_valid(s),
    ensures
        is_valid(s.linking(n, targets, source, type_id, file, evidence, ids, at).0),
    decreases n,
{
    if n > 0 {
        let k = n - 1;
        lemma_linking_valid(s, k as nat, targets, source, type_id, file, evidence, ids, at);
        let (before, r) = s.linking(k as nat, targets, source, type_id, file, evidence, ids, at);
        if r is Ok {
            lemma_resolving_valid(before, targets[k], file, ids[3 * k], ids[3 * k + 1], at);
            let (resolved, t) = before.resolving(targets[k], file, ids[3 * k], ids[3 * k + 1], at);
            if t is Ok {
                law_with_relation_valid(
                    resolved.instances,
                    RelationRecord {
                        id: ids[3 * k + 2],
                        type_id,
                        source_entity_id: source,
                        target_entity_id: t->Ok_0.id,
                        confidence: one(),
                        evidence_chunk_id: evidence,
                    },
                );
            }
        }
    }
}

proof fn lemma_relating_valid(
    s: EngineView,
    n: nat,
    rules: Seq<FieldRuleView>,
    fields: Seq<FieldView>,
    source: Uuid,
    file: Seq<char>,
    evidence: Uuid,
    ids: Seq<Uuid>,
    at: Seq<char>,
)
    requires
        is_valid(s),
    ensures
        is_valid(s.relating(n, rules, fields, source, file, evidence, ids, at).0),
    decreases n,
{
    if n > 0 {
        let m = (n - 1) as nat;
        lemma_relating_valid(s, m, rules, fields, source, file, evidence, ids, at);
        let (before, r) = s.relating(m, rules, fields, source, file, evidence, ids, at);
        let concept = RELATION_CONCEPTS@[n - 1]@;
        let targets = concept_texts(rules, fields, concept);
        let base = ids_before(rules, fields, m) as int;
        if r is Ok && targets.len() > 0 {
            let text = "frontmatter relation '"@ + concept + "'"@;
            law_registry_stays_valid(before.types, before.instances, concept, text, ids[base], at);
            let (typed, t) = before.relation_type_for(concept, ids[base], at);
            if t is Ok {
                lemma_linking_valid(
                    typed,
                    targets.len(),
                    targets,
                    source,
                    t->Ok_0.id,
                    file,
                    evidence,
                    ids.skip(base + 1),
                    at,
                );
            }
        }
    }
}

/// Whatever a file's frontmatter states, and even where ingesting it fails
/// half way, the types and the graph stay valid.
pub proof fn law_ingesting_keeps_validity(
    s: EngineView,
    file: Seq<char>,
    rules: Seq<FieldRuleView>,
    fields: Seq<FieldView>,
    evidence: Uuid,
    ids: Seq<Uuid>,
    at: Seq<char>,
)
    requires
        is_valid(s),
    ensures
        is_valid(s.ingesting(file, rules, fields, evidence, ids, at).0),
{
    let kind = own_kind(rules, fields);
    let name = own_name(rules, fields, file);
    let description = "frontmatter kind '"@ + kind + "'"@;
    law_registry_stays_valid(s.types, s.instances, kind, description, ids[0], at);
    let (types, t) = s.types.with_entity_type(s.instances, kind, description, ids[0], at);
    if t is Ok {
        let typed = EngineView { types, ..s };
        let type_id = t->Ok_0.id;
        law_with_entity_valid(s.instances, type_id, name, file, ids[1], at);
        if exact_named(s.instances, name) is Some {
            lemma_retyped_valid(s.instances, exact_named(s.instances, name)->0.id, type_id);
        }
        let (owned, o) = typed.owning(name, type_id, file, ids[1], at);
        if o is Ok {
            lemma_relating_valid(
                owned,
                8,
                rules,
                fields,
                o->Ok_0.id,
                file,
                evidence,
                ids.skip(2),
                at,
            );
        }
    }
}

/// The relations that were added to a state all start at `source` and cite the
/// same evidence, with full confidence.
pub open spec fn adds_relations_of(s: EngineView, t: EngineView, source: Uuid, evidence: Uuid) -> bool {
    &&& s.instances.relations.len() <= t.instances.relations.len()
    &&& forall|i: int|
        0 <= i < s.instances.relations.len() ==> t.instances.relations[i]
            == #[trigger] s.instances.relations[i]
    &&& forall|i: int|
        s.instances.relations.len() <= i < t.instances.relations.len() ==> (
        #[trigger] t.instances.relations[i]).source_entity_id == source
            && t.instances.relations[i].evidence_chunk_id == evidence
            && t.instances.relations[i].confidence.bits == 0x3f80_0000
}

proof fn lemma_linking_adds(
    s: EngineView,
    n: nat,
    targets: Seq<Seq<char>>,
    source: Uuid,
    type_id: Uuid,
    file: Seq<char>,
    evidence: Uuid,
    ids: Seq<Uuid>,
    at: Seq<char>,
)
    ensures
        adds_relations_of(
            s,
            s.linking(n, targets, source, type_id, file, evidence, ids, at).0,
            source,
            evidence,
        ),
        s.linking(n, targets, source, type_id, file, evidence, ids, at).0.instances.relations.len()
            <= s.instances.relations.len() + n,
    decreases n,
{
    if n > 0 {
        let k = n - 1;
        lemma_linking_adds(s, k as nat, targets, source, type_id, file, evidence, ids, at);
    }
}

proof fn lemma_relating_adds(
    s: EngineView,
    n: nat,
    rules: Seq<FieldRuleView>,
    fields: Seq<FieldView>,
    source: Uuid,
    file: Seq<char>,
    evidence: Uuid,
    ids: Seq<Uuid>,
    at: Seq<char>,
)
    requires
        n <= 8,
    ensures
        adds_relations_of(
            s,
            s.relating(n, rules, fields, source, file, evidence, ids, at).0,
            source,
            evidence,
        ),
        s.relating(n, rules, fields, source, file, evidence, ids, at).0.instances.relations.len()
            <= s.instances.relations.len() + target_count(rules, fields, n),
    decreases n,
{
    if n > 0 {
        let m = (n - 1) as nat;
        lemma_relating_adds(s, m, rules, fields, source, file, evidence, ids, at);
        let (before, _) = s.relating(m, rules, fields, source, file, evidence, ids, at);
        let concept = RELATION_CONCEPTS@[n - 1]@;
        let targets = concept_texts(rules, fields, concept);
        let base = ids_before(rules, fields, m) as int;
        let (typed, t) = before.relation_type_for(concept, ids[base], at);
        assert(typed.instances == before.instances);
        if t is Ok {
            lemma_linking_adds(
                typed,
                targets.len(),
                targets,
                source,
                t->Ok_0.id,
                file,
                evidence,
                ids.skip(base + 1),
                at,
            );
            let (linked, _) = typed.linking(
                targets.len(),
                targets,
                source,
                t->Ok_0.id,
                file,
                evidence,
                ids.skip(base + 1),
                at,
            );
            assert forall|i: int|
                s.instances.relations.len() <= i < linked.instances.relations.len() implies (
            #[trigger] linked.instances.relations[i]).source_entity_id == source
                && linked.instances.relations[i].evidence_chunk_id == evidence
                && linked.instances.relations[i].confidence.bits == 0x3f80_0000 by {
                if i < before.instances.relations.len() {
                    assert(linked.instances.relations[i] == typed.instances.relations[i]);
                }
            }
            assert forall|i: int| 0 <= i < s.instances.relations.len() implies linked.instances.relations[i]
                == #[trigger] s.instances.relations[i] by {
                assert(before.instances.relations[i] == s.instances.relations[i]);
                assert(linked.instances.relations[i] == typed.instances.relations[i]);
            }
        }
    }
}

/// A relation of a type of some name leads from an entity to one of another name,
/// and both the type and that entity are there.
pub open spec fn is_stated(s: EngineView, source: Uuid, concept: Seq<char>, target: Seq<char>) -> bool {
    exists|i: int, t: int, e: int|
        0 <= i < s.instances.relations.len() && 0 <= t < s.types.relation_types.len() && 0 <= e
            < s.instances.entities.len() && (#[trigger] s.instances.relations[i]).source_entity_id
            == source && s.instances.relations[i].target_entity_id == (
        #[trigger] s.instances.entities[e]).id && s.instances.relations[i].type_id == (
        #[trigger] s.types.relation_types[t]).id && s.types.relation_types[t].name == concept
            && ascii_lower(s.instances.entities[e].canonical_name) == ascii_lower(target)
}

/// Ingesting a file's frontmatter records what its fields state. The file's own
/// entity has the name of the first `id` field, or else the file's, and is of a
/// type named after the first `kind` field. For each text of each field that
/// means a relation there is a relation of that name from the file's entity to
/// one of that name. The relations that are new start at the file's entity and
/// cite the given chunk, and there are no more of them than texts.
pub proof fn law_fields_are_recorded(
    s: EngineView,
    file: Seq<char>,
    rules: Seq<FieldRuleView>,
    fields: Seq<FieldView>,
    evidence: Uuid,
    ids: Seq<Uuid>,
    at: Seq<char>,
)
    requires
        s.instances.valid(),
        ids.len() >= 2 + ids_before(rules, fields, 8),
        ids.no_duplicates(),
        forall|i: int, k: int|
            0 <= i < s.instances.relations.len() && 0 <= k < ids.len() ==> (
            #[trigger] s.instances.relations[i]).id != #[trigger] ids[k],
        s.ingesting(file, rules, fields, evidence, ids, at).1 is Ok,
    ensures
        ({
            let (after, r) = s.ingesting(file, rules, fields, evidence, ids, at);
            let entity = r->Ok_0.entity;
            let names = concept_texts(rules, fields, "id"@);
            let kinds = concept_texts(rules, fields, "kind"@);
            &&& ascii_lower(entity.canonical_name) == ascii_lower(
                if names.len() > 0 {
                    names[0]
                } else {
                    derived_name(file)
                },
            )
            &&& after.instances.entities.contains(entity)
            &&& exists|k: int|
                0 <= k < after.types.entity_types.len() && (#[trigger] after.types.entity_types[k]).id
                    == entity.type_id && after.types.entity_types[k].name == if kinds.len() > 0 {
                    kinds[0]
                } else {
                    "spec-item"@
                }
            &&& forall|c: int, k: int|
                0 <= c < 8 && 0 <= k < concept_texts(
                    rules,
                    fields,
                    RELATION_CONCEPTS@[c]@,
                ).len() ==> is_stated(
                    after,
                    entity.id,
                    (#[trigger] RELATION_CONCEPTS@[c]@),
                    #[trigger] concept_texts(rules, fields, RELATION_CONCEPTS@[c]@)[k],
                )
            &&& adds_relations_of(s, after, entity.id, evidence)
            &&& after.instances.relations.len() <= s.instances.relations.len() + target_count(
                rules,
                fields,
                8,
            )
            &&& r->Ok_0.relations_created == target_count(rules, fields, 8)
        }),
{
    let (last, outcome) = s.ingesting(file, rules, fields, evidence, ids, at);
    let kind = own_kind(rules, fields);
    let name = own_name(rules, fields, file);
    let description = "frontmatter kind '"@ + kind + "'"@;
    let (types, t) = s.types.with_entity_type(s.instances, kind, description, ids[0], at);
    let type_id = t->Ok_0.id;
    let typed = EngineView { types, ..s };
    let (owned, o) = typed.owning(name, type_id, file, ids[1], at);
    let entity = o->Ok_0;
    lemma_owning(typed, name, type_id, file, ids[1], at);
    let rest = ids.skip(2);
    assert forall|i: int, j: int| 0 <= i < j < rest.len() implies rest[i] != rest[j] by {
        assert(ids[2 + i] != ids[2 + j]);
    }
    assert(ids_unused(owned, rest, 0)) by {
        assert forall|i: int, k: int|
            0 <= i < owned.instances.relations.len() && 0 <= k < rest.len() implies (
        #[trigger] owned.instances.relations[i]).id != #[trigger] rest[k] by {
            assert(s.instances.relations[i].id != ids[2 + k]);
        }
    }
    lemma_relating_holds(owned, 8, rules, fields, entity.id, file, evidence, rest, at);
    lemma_relating_adds(owned, 8, rules, fields, entity.id, file, evidence, rest, at);
    assert(last == owned.relating(8, rules, fields, entity.id, file, evidence, rest, at).0);
    assert(exact_named(last.instances, name) == Some(entity));
    lemma_exact_named(last.instances, name);
    law_entity_type_is_found_or_made(s.types, s.instances, kind, description, ids[0], at);
    assert(last.types.entity_type(kind) == types.entity_type(kind));
    law_types_are_found_by_name(last.types, kind);
    let row = types.entity_type(kind)->0;
    assert(row.id == type_id);
    let k = choose|k: int|
        0 <= k < last.types.entity_types.len() && last.types.entity_types[k] == row;
    assert(last.types.entity_types[k].id == entity.type_id);
    assert forall|c: int, k: int|
        0 <= c < 8 && 0 <= k < concept_texts(rules, fields, RELATION_CONCEPTS@[c]@).len() implies is_stated(
        last,
        entity.id,
        (#[trigger] RELATION_CONCEPTS@[c]@),
        #[trigger] concept_texts(rules, fields, RELATION_CONCEPTS@[c]@)[k],
    ) by {
        let concept = RELATION_CONCEPTS@[c]@;
        let targets = concept_texts(rules, fields, concept);
        assert(concept_holds(last, concept, rules, fields, entity.id));
        let t = last.types.relation_type(concept)->0;
        law_types_are_found_by_name(last.types, concept);
        let n = choose|n: int|
            0 <= n < last.types.relation_types.len() && last.types.relation_types[n] == t;
        assert(link_holds(last, targets[k], entity.id, t.id));
        lemma_exact_named(last.instances, targets[k]);
        let target = exact_named(last.instances, targets[k])->0;
        let e = choose|e: int|
            0 <= e < last.instances.entities.len() && last.instances.entities[e] == target;
        let i = choose|i: int|
            0 <= i < last.instances.relations.len() && is_link(
                #[trigger] last.instances.relations[i],
                entity.id,
                target.id,
                t.id,
            );
        assert(last.instances.relations[i].source_entity_id == entity.id);
        assert(last.instances.entities[e].id == target.id);
        assert(last.types.relation_types[n].name == concept);
    }
}

/// A name that no entity has becomes a placeholder: an entity of that name, first
/// seen in the file that refers to it, of the type `unresolved-reference`.
pub proof fn law_unknown_reference_is_a_placeholder(
    s: EngineView,
    name: Seq<char>,
    file: Seq<char>,
    fresh_type: Uuid,
    fresh: Uuid,
    at: Seq<char>,
)
    requires
        forall|i: int|
            0 <= i < s.instances.entities.len() ==> ascii_lower(
                (#[trigger] s.instances.entities[i]).canonical_name,
            ) != ascii_lower(name) && s.instances.entities[i].id != fresh,
        forall|i: int|
            0 <= i < s.types.entity_types.len() ==> (#[trigger] s.types.entity_types[i]).id
                != fresh_type,
    ensures
        ({
            let (after, r) = s.resolving(name, file, fresh_type, fresh, at);
            &&& r is Ok
            &&& r->Ok_0.canonical_name == name
            &&& r->Ok_0.id == fresh
            &&& r->Ok_0.first_seen_file == file
            &&& after.instances.entities == s.instances.entities.push(r->Ok_0)
            &&& after.instances.relations == s.instances.relations
            &&& exists|k: int|
                0 <= k < after.types.entity_types.len() && (#[trigger] after.types.entity_types[k]).id
                    == r->Ok_0.type_id && after.types.entity_types[k].name == "unresolved-reference"@
        }),
{
    lemma_exact_named(s.instances, name);
    if exact_named(s.instances, name) is Some {
        let e = exact_named(s.instances, name)->0;
        let i = choose|i: int| 0 <= i < s.instances.entities.len() && s.instances.entities[i] == e;
        assert(ascii_lower(s.instances.entities[i].canonical_name) != ascii_lower(name));
    }
    let kind_name = "unresolved-reference"@;
    let text = "placeholder for an id referenced by frontmatter before its own file was ingested"@;
    law_entity_type_is_found_or_made(s.types, s.instances, kind_name, text, fresh_type, at);
    let (types, t) = s.types.with_entity_type(s.instances, kind_name, text, fresh_type, at);
    law_entity_is_found_or_made(s.instances, t->Ok_0.id, name, file, fresh, at);
    assert forall|i: int| 0 <= i < s.instances.entities.len() implies (
    #[trigger] s.instances.entities[i]).canonical_name != name by {
        assert(ascii_lower(s.instances.entities[i].canonical_name) != ascii_lower(name));
    }
    let (after, r) = s.resolving(name, file, fresh_type, fresh, at);
    assert(after.types == types);
    let k = choose|k: int|
        0 <= k < types.entity_types.len() && (#[trigger] types.entity_types[k]).id == t->Ok_0.id
            && types.entity_types[k].name == kind_name && types.entity_types[k].description
            == t->Ok_0.description;
    assert(after.types.entity_types[k].id == r->Ok_0.type_id);
}

/// A name that an entity has, but for the case of ASCII letters, stands for that
/// entity, and nothing changes.
pub proof fn law_known_reference_is_found(
    s: EngineView,
    name: Seq<char>,
    file: Seq<char>,
    fresh_type: Uuid,
    fresh: Uuid,
    at: Seq<char>,
)
    requires
        exists|i: int|
            0 <= i < s.instances.entities.len() && ascii_lower(
                (#[trigger] s.instances.entities[i]).canonical_name,
            ) == ascii_lower(name),
    ensures
        ({
            let (after, r) = s.resolving(name, file, fresh_type, fresh, at);
            &&& after == s
            &&& r is Ok
            &&& s.instances.entities.contains(r->Ok_0)
            &&& ascii_lower(r->Ok_0.canonical_name) == ascii_lower(name)
        }),
{
    lemma_exact_named(s.instances, name);
    let i = choose|i: int|
        0 <= i < s.instances.entities.len() && ascii_lower(
            (#[trigger] s.instances.entities[i]).canonical_name,
        ) == ascii_lower(name);
    assert(same_ignoring_ascii_case(s.instances.entities[i].canonical_name, name));
}

/// What a frontmatter key can mean as a relation are the seeded relation types.
pub proof fn law_relation_concepts_are_seeded(i: int)
    requires
        0 <= i < 8,
    ensures
        RELATION_CONCEPTS@[i]@ == SEED_RELATION_TYPES@[i]@,
        RELATION_CONCEPTS@.len() == 8,
        SEED_RELATION_TYPES@.len() == 8,
{
}

/// A file whose name no entity has gets an entity of its own, under the fresh id,
/// first seen in that file; and a kind that no type has gets a type of its own,
/// described as a frontmatter kind.
pub proof fn law_new_file_gets_an_entity(
    s: EngineView,
    file: Seq<char>,
    rules: Seq<FieldRuleView>,
    fields: Seq<FieldView>,
    evidence: Uuid,
    ids: Seq<Uuid>,
    at: Seq<char>,
)
    requires
        s.ingesting(file, rules, fields, evidence, ids, at).1 is Ok,
        ({
            let names = concept_texts(rules, fields, "id"@);
            let name = if names.len() > 0 {
                names[0]
            } else {
                derived_name(file)
            };
            forall|i: int|
                0 <= i < s.instances.entities.len() ==> ascii_lower(
                    (#[trigger] s.instances.entities[i]).canonical_name,
                ) != ascii_lower(name)
        }),
    ensures
        ({
            let entity = s.ingesting(file, rules, fields, evidence, ids, at).1->Ok_0.entity;
            let names = concept_texts(rules, fields, "id"@);
            &&& entity.id == ids[1]
            &&& entity.first_seen_file == file
            &&& entity.updated_at == at
            &&& entity.canonical_name == if names.len() > 0 {
                names[0]
            } else {
                derived_name(file)
            }
        }),
        ({
            let entity = s.ingesting(file, rules, fields, evidence, ids, at).1->Ok_0.entity;
            let kinds = concept_texts(rules, fields, "kind"@);
            let kind = if kinds.len() > 0 {
                kinds[0]
            } else {
                "spec-item"@
            };
            (forall|i: int|
                0 <= i < s.types.entity_types.len() ==> (#[trigger] s.types.entity_types[i]).name != kind)
                ==> entity.type_id == ids[0]
        }),
{
    let kind = own_kind(rules, fields);
    let name = own_name(rules, fields, file);
    let description = "frontmatter kind '"@ + kind + "'"@;
    let (types, t) = s.types.with_entity_type(s.instances, kind, description, ids[0], at);
    law_entity_type_is_found_or_made(s.types, s.instances, kind, description, ids[0], at);
    let typed = EngineView { types, ..s };
    lemma_exact_named(s.instances, name);
    if exact_named(s.instances, name) is Some {
        let e = exact_named(s.instances, name)->0;
        let i = choose|i: int| 0 <= i < s.instances.entities.len() && s.instances.entities[i] == e;
        assert(ascii_lower(s.instances.entities[i].canonical_name) != ascii_lower(name));
    }
    law_entity_is_found_or_made(typed.instances, t->Ok_0.id, name, file, ids[1], at);
    assert forall|i: int| 0 <= i < s.instances.entities.len() implies (
    #[trigger] s.instances.entities[i]).canonical_name != name by {
        assert(ascii_lower(s.instances.entities[i].canonical_name) != ascii_lower(name));
    }
}

/// Where several entities have a name, but for the case of ASCII letters, the name
/// stands for the first of them in the order of their names.
pub proof fn law_first_of_a_name_is_meant(g: GraphView, name: Seq<char>, other: EntityView)
    requires
        g.entities.contains(other),
        ascii_lower(other.canonical_name) == ascii_lower(name),
    ensures
        exact_named(g, name) is Some,
        g.entities.contains(exact_named(g, name)->0),
        ascii_lower(exact_named(g, name)->0.canonical_name) == ascii_lower(name),
        !lex_lt(other.canonical_name, exact_named(g, name)->0.canonical_name),
{
    lemma_exact_named(g, name);
    let i = choose|i: int| 0 <= i < g.entities.len() && g.entities[i] == other;
    assert(same_ignoring_ascii_case(g.entities[i].canonical_name, name));
    let e = exact_named(g, name)->0;
    let found = g.matching(name);
    let p = |e: EntityView| same_ignoring_ascii_case(e.canonical_name, name);
    let before = |a: EntityView, b: EntityView| lex_lt(a.canonical_name, b.canonical_name);
    lemma_first_match(found, p);
    let k = choose|k: int|
        0 <= k < found.len() && #[trigger] found[k] == e && forall|j: int|
            0 <= j < k ==> !p(#[trigger] found[j]);
    lemma_same_name_matches(other, name);
    let m = |e: EntityView| name_matches(e, name);
    g.entities.lemma_filter_contains(m, i);
    lemma_ranked_contains(g.entities.filter(m), before, other);
    let n = choose|n: int| 0 <= n < found.len() && found[n] == other;
    assert(p(found[n]));
    crate::graph_laws::law_matching_in_order(g, name);
    if k < n {
        assert(!before(found[n], found[k]));
    } else {
        assert(n == k);
        crate::order::lemma_lex_irreflexive(e.canonical_name);
    }
}

} // verus!
