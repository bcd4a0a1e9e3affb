//! Laws of the type registry.

use vstd::prelude::*;
use crate::graph::GraphView;
use crate::ids::Uuid;
use crate::order::{
    is_ranking, lemma_lex_asymmetric, lemma_lex_total, lemma_lex_transitive, lemma_ranked,
    lemma_ranked_same_items, lex_lt,
};
use crate::records::{
    EntityTypeView, EntityView, RelationRecord, RelationTypeStatus, RelationTypeView,
};
use crate::registry::{
    entity_type_record, relation_type_record, seed_row, EntityTypeRowView, RegistryView,
    RelationTypeRowView, TypeHitView, SEED_RELATION_TYPES,
};
use crate::views::{lemma_first_match, lemma_first_match_at, lemma_first_match_push};

verus! {

/// Every operation of the registry keeps it valid.
pub proof fn law_registry_stays_valid(
    r: RegistryView,
    graph: GraphView,
    name: Seq<char>,
    text: Seq<char>,
    fresh: Uuid,
    at: Seq<char>,
)
    requires
        r.valid(),
    ensures
        r.with_entity_type(graph, name, text, fresh, at).0.valid(),
        r.with_candidate(graph, name, text, fresh, at).0.valid(),
        r.with_hit(fresh, text).valid(),
        r.promoted(fresh).valid(),
{
    lemma_adding_entity_type_valid(
        r,
        EntityTypeRowView { id: fresh, name, description: text, created_at: at },
    );
    lemma_adding_relation_type_valid(
        r,
        RelationTypeRowView {
            id: fresh,
            name,
            description: text,
            status: RelationTypeStatus::Candidate,
            created_at: at,
        },
    );
    let promoted = r.promoted(fresh);
    assert forall|i: int, j: int| 0 <= i < j < promoted.relation_types.len() implies (
    #[trigger] promoted.relation_types[i]).id != (#[trigger] promoted.relation_types[j]).id
        && promoted.relation_types[i].name != promoted.relation_types[j].name by {
        assert(r.relation_types[i].id != r.relation_types[j].id);
    }
}

proof fn lemma_adding_entity_type_valid(r: RegistryView, row: EntityTypeRowView)
    requires
        r.valid(),
    ensures
        r.adding_entity_type(row).valid(),
{
    let after = r.adding_entity_type(row);
    if !r.has_entity_type(row) {
        assert forall|i: int, j: int| 0 <= i < j < after.entity_types.len() implies (
        #[trigger] after.entity_types[i]).id != (#[trigger] after.entity_types[j]).id
            && after.entity_types[i].name != after.entity_types[j].name by {
            assert(after.entity_types[i] == r.entity_types[i]);
        }
    }
}

proof fn lemma_adding_relation_type_valid(r: RegistryView, row: RelationTypeRowView)
    requires
        r.valid(),
    ensures
        r.adding_relation_type(row).valid(),
{
    let after = r.adding_relation_type(row);
    if !r.has_relation_type(row) {
        assert forall|i: int, j: int| 0 <= i < j < after.relation_types.len() implies (
        #[trigger] after.relation_types[i]).id != (#[trigger] after.relation_types[j]).id
            && after.relation_types[i].name != after.relation_types[j].name by {
            assert(after.relation_types[i] == r.relation_types[i]);
        }
    }
}

/// Seeding keeps the registry valid.
pub proof fn law_seeded_valid(r: RegistryView, ids: Seq<Uuid>, at: Seq<char>, n: nat)
    requires
        r.valid(),
    ensures
        r.seeded(ids, at, n).valid(),
    decreases n,
{
    if n > 0 {
        law_seeded_valid(r, ids, at, (n - 1) as nat);
        lemma_adding_relation_type_valid(
            r.seeded(ids, at, (n - 1) as nat),
            seed_row(n - 1, ids[n - 1], at),
        );
    }
}

/// Looking for an entity type again gives the one that the first look gave or
/// made: names stay unique, and a type's description never changes.
pub proof fn law_entity_type_idempotent(
    r: RegistryView,
    graph: GraphView,
    name: Seq<char>,
    description: Seq<char>,
    fresh: Uuid,
    at: Seq<char>,
    other_description: Seq<char>,
    other_fresh: Uuid,
    later: Seq<char>,
)
    requires
        r.with_entity_type(graph, name, description, fresh, at).1 is Ok,
    ensures
        ({
            let first = r.with_entity_type(graph, name, description, fresh, at);
            first.0.with_entity_type(graph, name, other_description, other_fresh, later) == first
        }),
{
    let (after, _) = r.with_entity_type(graph, name, description, fresh, at);
    let p = |t: EntityTypeRowView| t.name == name;
    lemma_first_match(after.entity_types, p);
    let row = EntityTypeRowView {
        id: other_fresh,
        name,
        description: other_description,
        created_at: later,
    };
    let found = after.entity_type(name)->0;
    let i = choose|i: int| 0 <= i < after.entity_types.len() && #[trigger] after.entity_types[i] == found;
    assert(after.entity_types[i].name == row.name);
    assert(after.has_entity_type(row));
}

/// Looking for a relation type again gives the one that the first look gave
/// or made, candidate or canonical.
pub proof fn law_candidate_idempotent(
    r: RegistryView,
    graph: GraphView,
    name: Seq<char>,
    description: Seq<char>,
    fresh: Uuid,
    at: Seq<char>,
    other_description: Seq<char>,
    other_fresh: Uuid,
    later: Seq<char>,
)
    requires
        r.with_candidate(graph, name, description, fresh, at).1 is Ok,
    ensures
        ({
            let first = r.with_candidate(graph, name, description, fresh, at);
            first.0.with_candidate(graph, name, other_description, other_fresh, later) == first
        }),
{
    let (after, _) = r.with_candidate(graph, name, description, fresh, at);
    let p = |t: RelationTypeRowView| t.name == name;
    lemma_first_match(after.relation_types, p);
    let row = RelationTypeRowView {
        id: other_fresh,
        name,
        description: other_description,
        status: RelationTypeStatus::Candidate,
        created_at: later,
    };
    let found = after.relation_type(name)->0;
    let i = choose|i: int|
        0 <= i < after.relation_types.len() && #[trigger] after.relation_types[i] == found;
    assert(after.relation_types[i].name == row.name);
    assert(after.has_relation_type(row));
}

/// A type is there after it was looked for, whenever the fresh id is not
/// taken by another type.
pub proof fn law_entity_type_found(
    r: RegistryView,
    graph: GraphView,
    name: Seq<char>,
    description: Seq<char>,
    fresh: Uuid,
    at: Seq<char>,
)
    requires
        forall|i: int| 0 <= i < r.entity_types.len() ==> (#[trigger] r.entity_types[i]).id != fresh,
    ensures
        ({
            let (after, t) = r.with_entity_type(graph, name, description, fresh, at);
            &&& t is Ok
            &&& t->Ok_0.name == name
            &&& after.entity_type(name) is Some
            &&& after.entity_type(name)->0.id == t->Ok_0.id
        }),
{
    let row = EntityTypeRowView { id: fresh, name, description, created_at: at };
    let p = |t: EntityTypeRowView| t.name == name;
    lemma_first_match(r.entity_types, p);
    if r.has_entity_type(row) {
        let i = choose|i: int|
            0 <= i < r.entity_types.len() && ((#[trigger] r.entity_types[i]).id == row.id
                || r.entity_types[i].name == row.name);
        assert(p(r.entity_types[i]));
    } else {
        lemma_first_match_push(r.entity_types, row, p);
    }
}

/// The registry only grows: the relation types that are there stay, under
/// their ids and names, and a canonical one stays canonical.
pub open spec fn keeps_relation_types(before: RegistryView, after: RegistryView) -> bool {
    &&& before.relation_types.len() <= after.relation_types.len()
    &&& forall|i: int|
        0 <= i < before.relation_types.len() ==> {
            let old_row = #[trigger] before.relation_types[i];
            let new_row = after.relation_types[i];
            &&& new_row.id == old_row.id
            &&& new_row.name == old_row.name
            &&& new_row.description == old_row.description
            &&& new_row.created_at == old_row.created_at
            &&& old_row.status == RelationTypeStatus::Canonical ==> new_row.status
                == RelationTypeStatus::Canonical
        }
}

/// No operation removes a type or takes its canonical status away.
pub proof fn law_types_never_leave(
    r: RegistryView,
    graph: GraphView,
    name: Seq<char>,
    text: Seq<char>,
    fresh: Uuid,
    at: Seq<char>,
)
    ensures
        keeps_relation_types(r, r.with_entity_type(graph, name, text, fresh, at).0),
        keeps_relation_types(r, r.with_candidate(graph, name, text, fresh, at).0),
        keeps_relation_types(r, r.with_hit(fresh, text)),
        keeps_relation_types(r, r.promoted(fresh)),
        r.entity_types.is_prefix_of(r.with_entity_type(graph, name, text, fresh, at).0.entity_types),
        r.entity_types == r.with_candidate(graph, name, text, fresh, at).0.entity_types,
        r.entity_types == r.with_hit(fresh, text).entity_types,
        r.entity_types == r.promoted(fresh).entity_types,
{
}

/// A file counts once for a relation type, however often it is recorded.
pub proof fn law_hit_counts_once(r: RegistryView, type_id: Uuid, file: Seq<char>)
    ensures
        r.with_hit(type_id, file).with_hit(type_id, file) == r.with_hit(type_id, file),
        r.with_hit(type_id, file).hit_count(type_id) == r.hit_count(type_id) + if r.hits.contains(
            TypeHitView { type_id, file_path: file },
        ) {
            0nat
        } else {
            1nat
        },
{
    let hit = TypeHitView { type_id, file_path: file };
    if !r.hits.contains(hit) {
        let after = r.with_hit(type_id, file);
        assert(after.hits[r.hits.len() as int] == hit);
        assert(after.hits.contains(hit));
        r.hits.lemma_filter_push(hit, |h: TypeHitView| h.type_id == type_id);
    }
}

/// Files that are recorded for one type do not count for another.
pub proof fn law_hit_counts_for_its_type(r: RegistryView, type_id: Uuid, file: Seq<char>, other: Uuid)
    requires
        other != type_id,
    ensures
        r.with_hit(type_id, file).hit_count(other) == r.hit_count(other),
{
    let hit = TypeHitView { type_id, file_path: file };
    r.hits.lemma_filter_push(hit, |h: TypeHitView| h.type_id == other);
}

/// Where every seed is there, seeding again changes nothing.
pub proof fn law_seeding_again(r: RegistryView, ids: Seq<Uuid>, at: Seq<char>, n: nat)
    requires
        n <= 8,
        forall|k: int| 0 <= k < 8 ==> r.relation_type(#[trigger] SEED_RELATION_TYPES@[k]@) is Some,
    ensures
        r.seeded(ids, at, n) == r,
    decreases n,
{
    if n > 0 {
        law_seeding_again(r, ids, at, (n - 1) as nat);
        let row = seed_row(n - 1, ids[n - 1], at);
        assert(r.relation_type(SEED_RELATION_TYPES@[n - 1]@) is Some);
        let p = |t: RelationTypeRowView| t.name == row.name;
        lemma_first_match(r.relation_types, p);
        let v = r.relation_type(row.name)->0;
        let i = choose|i: int| 0 <= i < r.relation_types.len() && #[trigger] r.relation_types[i] == v;
        assert(r.relation_types[i].name == row.name);
        assert(r.has_relation_type(row));
    }
}

/// After seeding with unused ids every seed is there; one that was not there
/// before is canonical, and one that was there is as it was.
pub proof fn law_seeded(r: RegistryView, ids: Seq<Uuid>, at: Seq<char>, n: nat)
    requires
        n <= 8,
        ids.len() == 8,
        ids.no_duplicates(),
        forall|i: int, k: int|
            0 <= i < r.relation_types.len() && 0 <= k < 8 ==> (#[trigger] r.relation_types[i]).id
                != #[trigger] ids[k],
    ensures
        forall|k: int|
            0 <= k < n ==> {
                let name = #[trigger] SEED_RELATION_TYPES@[k]@;
                let now = r.seeded(ids, at, n).relation_type(name);
                &&& now is Some
                &&& r.relation_type(name) is None ==> now->0.status == RelationTypeStatus::Canonical
                &&& r.relation_type(name) is Some ==> now == r.relation_type(name)
            },
        forall|name: Seq<char>|
            #![trigger r.seeded(ids, at, n).relation_type(name)]
            r.relation_type(name) is Some ==> r.seeded(ids, at, n).relation_type(name)
                == r.relation_type(name),
        forall|i: int, k: int|
            0 <= i < r.seeded(ids, at, n).relation_types.len() && n <= k < 8 ==> (
            #[trigger] r.seeded(ids, at, n).relation_types[i]).id != #[trigger] ids[k],
        forall|i: int|
            #![trigger r.seeded(ids, at, n).relation_types[i]]
            r.relation_types.len() <= i < r.seeded(ids, at, n).relation_types.len() ==> exists|k: int|
                0 <= k < n && r.seeded(ids, at, n).relation_types[i] == #[trigger] seed_row(
                    k,
                    ids[k],
                    at,
                ),
        r.relation_types.is_prefix_of(r.seeded(ids, at, n).relation_types),
    decreases n,
{
    if n > 0 {
        let m = (n - 1) as nat;
        law_seeded(r, ids, at, m);
        let before = r.seeded(ids, at, m);
        let row = seed_row(m as int, ids[m as int], at);
        let after = before.adding_relation_type(row);
        assert(after == r.seeded(ids, at, n));
        let p = |t: RelationTypeRowView| t.name == row.name;
        lemma_first_match(before.relation_types, p);
        if before.has_relation_type(row) {
            let i = choose|i: int|
                0 <= i < before.relation_types.len() && ((#[trigger] before.relation_types[i]).id
                    == row.id || before.relation_types[i].name == row.name);
            assert(before.relation_types[i].id != ids[m as int]);
            assert(p(before.relation_types[i]));
            assert(before.relation_type(row.name) is Some);
            if r.relation_type(row.name) is None {
                lemma_seed_status(r, ids, at, m, row.name);
                assert(before.relation_type(row.name)->0.status == RelationTypeStatus::Canonical);
            }
            assert(row.name == SEED_RELATION_TYPES@[m as int]@);
        } else {
            assert forall|name: Seq<char>| before.relation_type(name) is Some implies (
            #[trigger] after.relation_type(name)) == before.relation_type(name) by {
                lemma_first_match_push(
                    before.relation_types,
                    row,
                    |t: RelationTypeRowView| t.name == name,
                );
            }
            lemma_first_match_push(before.relation_types, row, p);
            assert(after.relation_type(row.name) is Some);
            assert(r.relation_type(row.name) is None) by {
                if r.relation_type(row.name) is Some {
                    assert(before.relation_type(row.name) == r.relation_type(row.name));
                    let v = before.relation_type(row.name)->0;
                    let i = choose|i: int|
                        0 <= i < before.relation_types.len() && #[trigger] before.relation_types[i]
                            == v;
                    assert(before.relation_types[i].name == row.name);
                }
            }
            assert(after.relation_type(row.name) == Some(row));
            assert forall|k: int| 0 <= k < n implies {
                let name = #[trigger] SEED_RELATION_TYPES@[k]@;
                let now = after.relation_type(name);
                &&& now is Some
                &&& r.relation_type(name) is None ==> now->0.status == RelationTypeStatus::Canonical
                &&& r.relation_type(name) is Some ==> now == r.relation_type(name)
            } by {
                let name = SEED_RELATION_TYPES@[k]@;
                if k < m {
                    assert(before.relation_type(name) is Some);
                    assert(after.relation_type(name) == before.relation_type(name));
                } else {
                    assert(name == row.name);
                }
            }
            assert forall|i: int, k: int|
                0 <= i < after.relation_types.len() && n <= k < 8 implies (
            #[trigger] after.relation_types[i]).id != #[trigger] ids[k] by {
                if i == before.relation_types.len() {
                    assert(ids[m as int] != ids[k]);
                } else {
                    assert(before.relation_types[i].id != ids[k]);
                }
            }
            assert forall|i: int|
                #![trigger after.relation_types[i]]
                r.relation_types.len() <= i < after.relation_types.len() implies exists|k: int|
                0 <= k < n && after.relation_types[i] == #[trigger] seed_row(k, ids[k], at) by {
                if i < before.relation_types.len() {
                    assert(after.relation_types[i] == before.relation_types[i]);
                    let k = choose|k: int|
                        0 <= k < m && before.relation_types[i] == #[trigger] seed_row(k, ids[k], at);
                    assert(after.relation_types[i] == seed_row(k, ids[k], at));
                } else {
                    assert(after.relation_types[i] == seed_row(m as int, ids[m as int], at));
                }
            }
        }
    }
}

/// A name that seeding brought in is that of a canonical type.
proof fn lemma_seed_status(r: RegistryView, ids: Seq<Uuid>, at: Seq<char>, m: nat, name: Seq<char>)
    requires
        forall|i: int|
            #![trigger r.seeded(ids, at, m).relation_types[i]]
            r.relation_types.len() <= i < r.seeded(ids, at, m).relation_types.len() ==> exists|k: int|
                0 <= k < m && r.seeded(ids, at, m).relation_types[i] == #[trigger] seed_row(
                    k,
                    ids[k],
                    at,
                ),
        r.relation_types.is_prefix_of(r.seeded(ids, at, m).relation_types),
        r.relation_type(name) is None,
    ensures
        r.seeded(ids, at, m).relation_type(name) is Some ==> r.seeded(ids, at, m).relation_type(
            name,
        )->0.status == RelationTypeStatus::Canonical,
{
    let after = r.seeded(ids, at, m);
    let p = |t: RelationTypeRowView| t.name == name;
    lemma_first_match(r.relation_types, p);
    lemma_first_match(after.relation_types, p);
    if after.relation_type(name) is Some {
        let v = after.relation_type(name)->0;
        let i = choose|i: int| 0 <= i < after.relation_types.len() && #[trigger] after.relation_types[i] == v;
        if i < r.relation_types.len() {
            assert(r.relation_types[i] == after.relation_types[i]);
            assert(!p(r.relation_types[i]));
        }
    }
}

/// A project that is seeded from nothing knows exactly the eight seeds, and
/// all of them are canonical.
pub proof fn law_seeded_from_nothing(r: RegistryView, ids: Seq<Uuid>, at: Seq<char>)
    requires
        r.relation_types.len() == 0,
        ids.len() == 8,
        ids.no_duplicates(),
    ensures
        r.seeded(ids, at, 8).relation_types == Seq::new(8, |i: int| seed_row(i, ids[i], at)),
        forall|i: int|
            0 <= i < 8 ==> (#[trigger] r.seeded(ids, at, 8).relation_types[i]).status
                == RelationTypeStatus::Canonical,
{
    lemma_seeds_distinct();
    lemma_seeded_prefix(r, ids, at, 8);
}

proof fn lemma_seeded_prefix(r: RegistryView, ids: Seq<Uuid>, at: Seq<char>, n: nat)
    requires
        n <= 8,
        r.relation_types.len() == 0,
        ids.len() == 8,
        ids.no_duplicates(),
        forall|i: int, j: int|
            0 <= i < j < 8 ==> #[trigger] SEED_RELATION_TYPES@[i]@ != #[trigger] SEED_RELATION_TYPES@[j]@,
    ensures
        r.seeded(ids, at, n).relation_types == Seq::new(n, |i: int| seed_row(i, ids[i], at)),
    decreases n,
{
    if n > 0 {
        let m = (n - 1) as nat;
        lemma_seeded_prefix(r, ids, at, m);
        let before = r.seeded(ids, at, m);
        let row = seed_row(m as int, ids[m as int], at);
        if before.has_relation_type(row) {
            let i = choose|i: int|
                0 <= i < before.relation_types.len() && ((#[trigger] before.relation_types[i]).id
                    == row.id || before.relation_types[i].name == row.name);
            assert(before.relation_types[i] == seed_row(i, ids[i], at));
            assert(SEED_RELATION_TYPES@[i]@ != SEED_RELATION_TYPES@[m as int]@);
            assert(false);
        }
        assert(r.seeded(ids, at, n).relation_types =~= Seq::new(n, |i: int| seed_row(i, ids[i], at)));
    } else {
        assert(r.seeded(ids, at, 0).relation_types =~= Seq::new(0, |i: int| seed_row(i, ids[i], at)));
    }
}

/// The seeds are eight different names.
pub proof fn lemma_seeds_distinct()
    ensures
        forall|i: int, j: int|
            0 <= i < j < 8 ==> #[trigger] SEED_RELATION_TYPES@[i]@ != #[trigger] SEED_RELATION_TYPES@[j]@,
{
    reveal_strlit("depends_on");
    reveal_strlit("supersedes");
    reveal_strlit("implements");
    reveal_strlit("causes");
    reveal_strlit("owned_by");
    reveal_strlit("conflicts_with");
    reveal_strlit("documents");
    reveal_strlit("configures");
    assert("depends_on"@[0] == 'd' && "depends_on"@.len() == 10);
    assert("supersedes"@[0] == 's' && "supersedes"@.len() == 10);
    assert("implements"@[0] == 'i' && "implements"@.len() == 10);
    assert("causes"@.len() == 6);
    assert("owned_by"@.len() == 8);
    assert("conflicts_with"@.len() == 14);
    assert("documents"@.len() == 9);
    assert("configures"@[0] == 'c' && "configures"@.len() == 10);
    assert forall|i: int, j: int| 0 <= i < j < 8 implies #[trigger] SEED_RELATION_TYPES@[i]@
        != #[trigger] SEED_RELATION_TYPES@[j]@ by {
        let a = SEED_RELATION_TYPES@[i]@;
        let b = SEED_RELATION_TYPES@[j]@;
        if a.len() == b.len() {
            assert(a[0] != b[0]);
        }
    }
}

/// Promotion makes the type canonical.
pub proof fn law_promoted(r: RegistryView, name: Seq<char>)
    requires
        r.valid(),
        r.relation_type(name) is Some,
    ensures
        r.promoted(r.relation_type(name)->0.id).relation_type(name) == Some(
            RelationTypeRowView {
                status: RelationTypeStatus::Canonical,
                ..r.relation_type(name)->0
            },
        ),
{
    let p = |t: RelationTypeRowView| t.name == name;
    lemma_first_match(r.relation_types, p);
    let v = r.relation_type(name)->0;
    let i = choose|i: int|
        0 <= i < r.relation_types.len() && #[trigger] r.relation_types[i] == v && forall|j: int|
            0 <= j < i ==> !p(#[trigger] r.relation_types[j]);
    let after = r.promoted(v.id);
    assert forall|j: int| 0 <= j < i implies !p(#[trigger] after.relation_types[j]) by {
        assert(!p(r.relation_types[j]));
    }
    lemma_first_match_at(after.relation_types, p, i);
}

/// The list of entity types holds each type once, by name in order, with its own
/// id, name and description and the number of entities that are of it.
pub proof fn law_listed_entity_types(r: RegistryView, g: GraphView)
    ensures
        r.entity_type_list(g).len() == r.entity_types.len(),
        forall|i: int|
            0 <= i < r.entity_types.len() ==> exists|k: int|
                0 <= k < r.entity_type_list(g).len() && (#[trigger] r.entity_type_list(g)[k]).id == (
                #[trigger] r.entity_types[i]).id && r.entity_type_list(g)[k].name
                    == r.entity_types[i].name && r.entity_type_list(g)[k].description
                    == r.entity_types[i].description && r.entity_type_list(g)[k].instance_count
                    == g.entities.filter(|e: EntityView| e.type_id == r.entity_types[i].id).len(),
        forall|i: int, j: int|
            0 <= i < j < r.entity_type_list(g).len() ==> !lex_lt(
                (#[trigger] r.entity_type_list(g)[j]).name,
                (#[trigger] r.entity_type_list(g)[i]).name,
            ),
{
    let rows = r.entity_types.map_values(|t: EntityTypeRowView| entity_type_record(t, g));
    let before = |a: EntityTypeView, b: EntityTypeView| lex_lt(a.name, b.name);
    let list = r.entity_type_list(g);
    assert(is_ranking(before)) by {
        assert forall|a: EntityTypeView, b: EntityTypeView| #[trigger] before(a, b) implies !before(b, a) by {
            lemma_lex_asymmetric(a.name, b.name);
        }
        assert forall|a: EntityTypeView, b: EntityTypeView, c: EntityTypeView|
            #![trigger before(a, c), before(b, c)]
            #![trigger before(a, b), before(a, c)]
            before(a, c) implies before(a, b) || before(b, c) by {
            lemma_lex_cuts(a.name, b.name, c.name);
        }
    }
    lemma_ranked(rows, before);
    assert forall|i: int| 0 <= i < r.entity_types.len() implies exists|k: int|
        0 <= k < list.len() && (#[trigger] list[k]).id == (#[trigger] r.entity_types[i]).id
            && list[k].name == r.entity_types[i].name && list[k].description
            == r.entity_types[i].description && list[k].instance_count == g.entities.filter(
            |e: EntityView| e.type_id == r.entity_types[i].id,
        ).len() by {
        let t = rows[i];
        assert(rows.contains(t));
        lemma_ranked_same_items(rows, before, t);
        let k = choose|k: int| 0 <= k < list.len() && list[k] == t;
        assert(list[k].id == r.entity_types[i].id);
    }
    assert forall|i: int, j: int| 0 <= i < j < list.len() implies !lex_lt(
        (#[trigger] list[j]).name,
        (#[trigger] list[i]).name,
    ) by {
        assert(!before(list[j], list[i]));
    }
}

proof fn lemma_lex_cuts(a: Seq<char>, b: Seq<char>, c: Seq<char>)
    requires
        lex_lt(a, c),
    ensures
        lex_lt(a, b) || lex_lt(b, c),
{
    lemma_lex_total(a, b);
    if lex_lt(b, a) {
        lemma_lex_transitive(b, a, c);
    }
}

/// The list of relation types holds each type once, by name in order, with its
/// own id, name, description and status and the number of relations that are of
/// it.
pub proof fn law_listed_relation_types(r: RegistryView, g: GraphView)
    ensures
        r.relation_type_list(g).len() == r.relation_types.len(),
        forall|i: int|
            0 <= i < r.relation_types.len() ==> exists|k: int|
                0 <= k < r.relation_type_list(g).len() && (#[trigger] r.relation_type_list(g)[k]).id
                    == (#[trigger] r.relation_types[i]).id && r.relation_type_list(g)[k].name
                    == r.relation_types[i].name && r.relation_type_list(g)[k].description
                    == r.relation_types[i].description && r.relation_type_list(g)[k].status
                    == r.relation_types[i].status && r.relation_type_list(g)[k].instance_count
                    == g.relations.filter(
                    |x: RelationRecord| x.type_id == r.relation_types[i].id,
                ).len(),
        forall|i: int, j: int|
            0 <= i < j < r.relation_type_list(g).len() ==> !lex_lt(
                (#[trigger] r.relation_type_list(g)[j]).name,
                (#[trigger] r.relation_type_list(g)[i]).name,
            ),
{
    let rows = r.relation_types.map_values(|t: RelationTypeRowView| relation_type_record(t, g));
    let before = |a: RelationTypeView, b: RelationTypeView| lex_lt(a.name, b.name);
    let list = r.relation_type_list(g);
    assert(is_ranking(before)) by {
        assert forall|a: RelationTypeView, b: RelationTypeView| #[trigger] before(a, b) implies !before(b, a) by {
            lemma_lex_asymmetric(a.name, b.name);
        }
        assert forall|a: RelationTypeView, b: RelationTypeView, c: RelationTypeView|
            #![trigger before(a, c), before(b, c)]
            #![trigger before(a, b), before(a, c)]
            before(a, c) implies before(a, b) || before(b, c) by {
            lemma_lex_cuts(a.name, b.name, c.name);
        }
    }
    lemma_ranked(rows, before);
    assert forall|i: int| 0 <= i < r.relation_types.len() implies exists|k: int|
        0 <= k < list.len() && (#[trigger] list[k]).id == (#[trigger] r.relation_types[i]).id
            && list[k].name == r.relation_types[i].name && list[k].description
            == r.relation_types[i].description && list[k].status == r.relation_types[i].status
            && list[k].instance_count == g.relations.filter(
            |x: RelationRecord| x.type_id == r.relation_types[i].id,
        ).len() by {
        let t = rows[i];
        assert(rows.contains(t));
        lemma_ranked_same_items(rows, before, t);
        let k = choose|k: int| 0 <= k < list.len() && list[k] == t;
        assert(list[k].id == r.relation_types[i].id);
    }
    assert forall|i: int, j: int| 0 <= i < j < list.len() implies !lex_lt(
        (#[trigger] list[j]).name,
        (#[trigger] list[i]).name,
    ) by {
        assert(!before(list[j], list[i]));
    }
}

/// An entity type that is looked for has the asked name. Where there is one,
/// nothing changes; else one is added, under the fresh id and with the given
/// description, unless that id is taken.
pub proof fn law_entity_type_is_found_or_made(
    r: RegistryView,
    g: GraphView,
    name: Seq<char>,
    description: Seq<char>,
    fresh: Uuid,
    at: Seq<char>,
)
    ensures
        ({
            let (after, t) = r.with_entity_type(g, name, description, fresh, at);
            let known = exists|i: int|
                0 <= i < r.entity_types.len() && (#[trigger] r.entity_types[i]).name == name;
            let taken = exists|i: int|
                0 <= i < r.entity_types.len() && (#[trigger] r.entity_types[i]).id == fresh;
            &&& after.relation_types == r.relation_types
            &&& after.hits == r.hits
            &&& t is Ok <==> known || !taken
            &&& known || taken ==> after.entity_types == r.entity_types
            &&& t is Ok ==> t->Ok_0.name == name && exists|k: int|
                0 <= k < after.entity_types.len() && (#[trigger] after.entity_types[k]).id == t->Ok_0.id
                    && after.entity_types[k].name == name && after.entity_types[k].description
                    == t->Ok_0.description
            &&& !known && !taken ==> after.entity_types == r.entity_types.push(
                EntityTypeRowView { id: fresh, name, description, created_at: at },
            ) && t->Ok_0.id == fresh && t->Ok_0.description == description
        }),
{
    let row = EntityTypeRowView { id: fresh, name, description, created_at: at };
    let p = |t: EntityTypeRowView| t.name == name;
    lemma_first_match(r.entity_types, p);
    let (after, t) = r.with_entity_type(g, name, description, fresh, at);
    lemma_first_match(after.entity_types, p);
    if !r.has_entity_type(row) {
        lemma_first_match_push(r.entity_types, row, p);
        assert(after.entity_types[r.entity_types.len() as int] == row);
    }
    if exists|i: int| 0 <= i < r.entity_types.len() && (#[trigger] r.entity_types[i]).name == name {
        let i = choose|i: int| 0 <= i < r.entity_types.len() && (#[trigger] r.entity_types[i]).name == name;
        assert(p(r.entity_types[i]));
    }
    if r.has_entity_type(row) && r.entity_type(name) is Some {
        let v = r.entity_type(name)->0;
        let i = choose|i: int| 0 <= i < r.entity_types.len() && #[trigger] r.entity_types[i] == v;
        assert(r.entity_types[i].name == name);
    }
}

/// A relation type that is looked for has the asked name. Where there is one,
/// nothing changes; else one is added as a candidate, under the fresh id and
/// with the given description, unless that id is taken.
pub proof fn law_candidate_is_found_or_made(
    r: RegistryView,
    g: GraphView,
    name: Seq<char>,
    description: Seq<char>,
    fresh: Uuid,
    at: Seq<char>,
)
    ensures
        ({
            let (after, t) = r.with_candidate(g, name, description, fresh, at);
            let known = exists|i: int|
                0 <= i < r.relation_types.len() && (#[trigger] r.relation_types[i]).name == name;
            let taken = exists|i: int|
                0 <= i < r.relation_types.len() && (#[trigger] r.relation_types[i]).id == fresh;
            &&& after.entity_types == r.entity_types
            &&& after.hits == r.hits
            &&& t is Ok <==> known || !taken
            &&& known || taken ==> after.relation_types == r.relation_types
            &&& t is Ok ==> t->Ok_0.name == name && exists|k: int|
                0 <= k < after.relation_types.len() && (#[trigger] after.relation_types[k]).id
                    == t->Ok_0.id && after.relation_types[k].name == name
                    && after.relation_types[k].description == t->Ok_0.description
                    && after.relation_types[k].status == t->Ok_0.status
            &&& !known && !taken ==> after.relation_types == r.relation_types.push(
                RelationTypeRowView {
                    id: fresh,
                    name,
                    description,
                    status: RelationTypeStatus::Candidate,
                    created_at: at,
                },
            ) && t->Ok_0.id == fresh && t->Ok_0.description == description && t->Ok_0.status
                == RelationTypeStatus::Candidate
        }),
{
    let row = RelationTypeRowView {
        id: fresh,
        name,
        description,
        status: RelationTypeStatus::Candidate,
        created_at: at,
    };
    let p = |t: RelationTypeRowView| t.name == name;
    lemma_first_match(r.relation_types, p);
    let (after, t) = r.with_candidate(g, name, description, fresh, at);
    lemma_first_match(after.relation_types, p);
    if !r.has_relation_type(row) {
        lemma_first_match_push(r.relation_types, row, p);
        assert(after.relation_types[r.relation_types.len() as int] == row);
    }
    if exists|i: int| 0 <= i < r.relation_types.len() && (#[trigger] r.relation_types[i]).name == name {
        let i = choose|i: int|
            0 <= i < r.relation_types.len() && (#[trigger] r.relation_types[i]).name == name;
        assert(p(r.relation_types[i]));
    }
    if r.has_relation_type(row) && r.relation_type(name) is Some {
        let v = r.relation_type(name)->0;
        let i = choose|i: int| 0 <= i < r.relation_types.len() && #[trigger] r.relation_types[i] == v;
        assert(r.relation_types[i].name == name);
    }
}

/// A relation type that is looked up by name has that name, and is found exactly
/// where there is one.
pub proof fn law_types_are_found_by_name(r: RegistryView, name: Seq<char>)
    ensures
        r.relation_type(name) is Some <==> exists|i: int|
            0 <= i < r.relation_types.len() && (#[trigger] r.relation_types[i]).name == name,
        r.relation_type(name) is Some ==> r.relation_type(name)->0.name == name
            && r.relation_types.contains(r.relation_type(name)->0),
        r.entity_type(name) is Some <==> exists|i: int|
            0 <= i < r.entity_types.len() && (#[trigger] r.entity_types[i]).name == name,
        r.entity_type(name) is Some ==> r.entity_type(name)->0.name == name
            && r.entity_types.contains(r.entity_type(name)->0),
{
    let p = |t: RelationTypeRowView| t.name == name;
    let q = |t: EntityTypeRowView| t.name == name;
    lemma_first_match(r.relation_types, p);
    lemma_first_match(r.entity_types, q);
    if exists|i: int| 0 <= i < r.relation_types.len() && (#[trigger] r.relation_types[i]).name == name {
        let i = choose|i: int|
            0 <= i < r.relation_types.len() && (#[trigger] r.relation_types[i]).name == name;
        assert(p(r.relation_types[i]));
    }
    if exists|i: int| 0 <= i < r.entity_types.len() && (#[trigger] r.entity_types[i]).name == name {
        let i = choose|i: int| 0 <= i < r.entity_types.len() && (#[trigger] r.entity_types[i]).name == name;
        assert(q(r.entity_types[i]));
    }
}

/// The files that count for a relation type are those recorded for it: as many
/// as there are hits with its id.
pub proof fn law_hits_are_counted(r: RegistryView, id: Uuid, file: Seq<char>)
    ensures
        r.hit_count(id) == r.hits.filter(|h: TypeHitView| h.type_id == id).len(),
        r.with_hit(id, file).hits.contains(TypeHitView { type_id: id, file_path: file }),
        forall|k: int|
            0 <= k < r.hits.len() ==> r.with_hit(id, file).hits.contains(#[trigger] r.hits[k]),
        forall|k: int|
            0 <= k < r.with_hit(id, file).hits.len() ==> r.hits.contains(
                #[trigger] r.with_hit(id, file).hits[k],
            ) || r.with_hit(id, file).hits[k] == (TypeHitView { type_id: id, file_path: file }),
        r.with_hit(id, file).relation_types == r.relation_types,
        r.with_hit(id, file).entity_types == r.entity_types,
{
    let hit = TypeHitView { type_id: id, file_path: file };
    let after = r.with_hit(id, file);
    if !r.hits.contains(hit) {
        assert(after.hits[r.hits.len() as int] == hit);
    }
    assert forall|k: int| 0 <= k < r.hits.len() implies after.hits.contains(#[trigger] r.hits[k]) by {
        assert(after.hits[k] == r.hits[k]);
    }
    assert forall|k: int| 0 <= k < after.hits.len() implies r.hits.contains(#[trigger] after.hits[k])
        || after.hits[k] == hit by {
        if k < r.hits.len() {
            assert(r.hits[k] == after.hits[k]);
        }
    }
}

/// Promotion changes the status of the type with the id, and nothing else.
pub proof fn law_promotion_changes_the_status(r: RegistryView, id: Uuid, i: int)
    requires
        0 <= i < r.relation_types.len(),
    ensures
        r.promoted(id).relation_types.len() == r.relation_types.len(),
        r.promoted(id).entity_types == r.entity_types,
        r.promoted(id).hits == r.hits,
        ({
            let before = r.relation_types[i];
            let after = r.promoted(id).relation_types[i];
            &&& after.id == before.id
            &&& after.name == before.name
            &&& after.description == before.description
            &&& after.created_at == before.created_at
            &&& after.status == if before.id == id {
                RelationTypeStatus::Canonical
            } else {
                before.status
            }
        }),
{
}

} // verus!
