//! Laws of the tools that agents call, in terms of the graph, the chunks and
//! the texts that agents read.

use vstd::prelude::*;
use crate::graph::{is_shortest_path, leads, touches, GraphView};
use crate::graph_laws::{is_walk, law_matching_finds, law_matching_in_order, law_walk_is_found};
use crate::ids::{law_uuid_round_trip, parsed_uuid, Uuid};
use crate::offsets::byte_len;
use crate::order::lex_lt;
use crate::reach::within;
use crate::records::{EntityView, RelationRecord, RelationTypeStatus, RelationTypeView};
use crate::registry::RegistryView;
use crate::registry_laws::{law_listed_entity_types, law_listed_relation_types};
use crate::scores::Score;
use crate::search::ScoredChunkView;
use crate::text::{folded, is_letter_or_number};
use crate::tools::{
    best_of, cleaned, entity_dto, entity_type_dto, graph_answer, is_name_char, law_best_is_best,
    mentioned, mentioned_entity, named_in, path_step_dto, relation_dto, relation_type_dto,
    relations_of_type, requested_depth, routed, scored_chunk_dto, vector_answer,
    MAX_EXPLAINED_HOPS,
};
use crate::views::{lemma_filter_from, lemma_filter_same, lemma_filter_twice, lemma_first_match};
use crate::words::{decimal_text, words_of};

verus! {

/// The `k`-th direct relation that a concept is answered with reads back as the
/// `k`-th relation that starts or ends at the entity, with its type, its
/// source, its target and its evidence; and there are as many.
pub proof fn law_direct_relations_read_back(g: GraphView, id: Uuid)
    ensures
        ({
            let answered = g.touching(id).map_values(|r: RelationRecord| relation_dto(r));
            let own = g.relations.filter(
                |r: RelationRecord| r.source_entity_id == id || r.target_entity_id == id,
            );
            &&& answered.len() == own.len()
            &&& forall|k: int|
                0 <= k < own.len() ==> {
                    &&& parsed_uuid((#[trigger] answered[k]).type_id) == Some(own[k].type_id.bits as nat)
                    &&& parsed_uuid(answered[k].source_entity_id) == Some(
                        own[k].source_entity_id.bits as nat,
                    )
                    &&& parsed_uuid(answered[k].target_entity_id) == Some(
                        own[k].target_entity_id.bits as nat,
                    )
                    &&& parsed_uuid(answered[k].evidence_chunk_id) == Some(
                        own[k].evidence_chunk_id.bits as nat,
                    )
                    &&& parsed_uuid(answered[k].source_entity_id) == Some(id.bits as nat)
                        || parsed_uuid(answered[k].target_entity_id) == Some(id.bits as nat)
                }
        }),
{
    let p = |r: RelationRecord| r.source_entity_id == id || r.target_entity_id == id;
    let q = |r: RelationRecord| touches(r, id);
    lemma_filter_same(g.relations, p, q);
    let answered = g.touching(id).map_values(|r: RelationRecord| relation_dto(r));
    let own = g.relations.filter(p);
    assert(g.touching(id) == own);
    assert forall|k: int| 0 <= k < own.len() implies {
        &&& parsed_uuid((#[trigger] answered[k]).type_id) == Some(own[k].type_id.bits as nat)
        &&& parsed_uuid(answered[k].source_entity_id) == Some(own[k].source_entity_id.bits as nat)
        &&& parsed_uuid(answered[k].target_entity_id) == Some(own[k].target_entity_id.bits as nat)
        &&& parsed_uuid(answered[k].evidence_chunk_id) == Some(own[k].evidence_chunk_id.bits as nat)
        &&& parsed_uuid(answered[k].source_entity_id) == Some(id.bits as nat) || parsed_uuid(
            answered[k].target_entity_id,
        ) == Some(id.bits as nat)
    } by {
        law_uuid_round_trip(own[k].type_id);
        law_uuid_round_trip(own[k].source_entity_id);
        law_uuid_round_trip(own[k].target_entity_id);
        law_uuid_round_trip(own[k].evidence_chunk_id);
        lemma_filter_from(g.relations, p, k);
    }
}

/// A concept is answered with an entity that has it in its name, whatever the
/// case, and with none that comes later by name; and it is answered wherever
/// there is such an entity.
pub proof fn law_concept_names_its_entity(g: GraphView, concept: Seq<char>, other: EntityView)
    ensures
        g.matching(concept).len() > 0 ==> {
            let e = g.matching(concept)[0];
            let hay = folded(e.canonical_name);
            let needle = folded(concept);
            &&& g.entities.contains(e)
            &&& exists|at: int|
                0 <= at && at + needle.len() <= hay.len() && #[trigger] hay.subrange(
                    at,
                    at + needle.len(),
                ) == needle
            &&& parsed_uuid(entity_dto(e).id) == Some(e.id.bits as nat)
            &&& parsed_uuid(entity_dto(e).type_id) == Some(e.type_id.bits as nat)
            &&& entity_dto(e).canonical_name == e.canonical_name
        },
        ({
            let hay = folded(other.canonical_name);
            let needle = folded(concept);
            g.entities.contains(other) && (exists|at: int|
                0 <= at && at + needle.len() <= hay.len() && #[trigger] hay.subrange(
                    at,
                    at + needle.len(),
                ) == needle) ==> g.matching(concept).len() > 0 && !lex_lt(
                other.canonical_name,
                g.matching(concept)[0].canonical_name,
            )
        }),
{
    let found = g.matching(concept);
    law_matching_in_order(g, concept);
    if found.len() > 0 {
        law_matching_finds(g, concept, found[0]);
        assert(found.contains(found[0]));
        law_uuid_round_trip(found[0].id);
        law_uuid_round_trip(found[0].type_id);
    }
    law_matching_finds(g, concept, other);
    if found.contains(other) {
        let k = choose|k: int| 0 <= k < found.len() && found[k] == other;
        let before = |a: EntityView, b: EntityView| lex_lt(a.canonical_name, b.canonical_name);
        if k > 0 {
            assert(!before(found[k], found[0]));
        } else {
            crate::order::lemma_lex_irreflexive(other.canonical_name);
        }
    }
}

/// A related entity is answered with its own id, name and type.
pub proof fn law_entities_read_back(e: EntityView)
    ensures
        parsed_uuid(entity_dto(e).id) == Some(e.id.bits as nat),
        entity_dto(e).canonical_name == e.canonical_name,
        parsed_uuid(entity_dto(e).type_id) == Some(e.type_id.bits as nat),
{
    law_uuid_round_trip(e.id);
    law_uuid_round_trip(e.type_id);
}

/// A subgraph is as deep as was asked for, and one hop deep where nothing was
/// asked.
pub proof fn law_depth_is_as_asked(depth: u32)
    ensures
        requested_depth(Some(depth)) == depth,
        requested_depth(None) == 1,
{
}

/// The steps of an explained path read back as relations of the graph, and lead
/// from one entity to the other, each from where the one before it led to; a
/// step says where its relation starts and ends, whichever way it is followed.
pub proof fn law_explained_path_leads(
    g: GraphView,
    from: Uuid,
    to: Uuid,
    max_depth: u32,
    path: Seq<RelationRecord>,
)
    requires
        is_shortest_path(g, from, to, max_depth, path),
    ensures
        path.len() <= max_depth,
        exists|nodes: Seq<Uuid>|
            #![trigger nodes.len()]
            nodes.len() == path.len() + 1 && nodes[0] == from && nodes[path.len() as int] == to
                && forall|i: int|
                0 <= i < path.len() ==> {
                    &&& g.relations.contains(#[trigger] path[i])
                    &&& (path[i].source_entity_id == nodes[i] && path[i].target_entity_id == nodes[i + 1])
                        || (path[i].source_entity_id == nodes[i + 1] && path[i].target_entity_id
                        == nodes[i])
                    &&& parsed_uuid(path_step_dto(path[i]).from) == Some(
                        path[i].source_entity_id.bits as nat,
                    )
                    &&& parsed_uuid(path_step_dto(path[i]).to) == Some(
                        path[i].target_entity_id.bits as nat,
                    )
                    &&& parsed_uuid(path_step_dto(path[i]).type_id) == Some(
                        path[i].type_id.bits as nat,
                    )
                    &&& parsed_uuid(path_step_dto(path[i]).evidence_chunk_id) == Some(
                        path[i].evidence_chunk_id.bits as nat,
                    )
                },
{
    let nodes = choose|nodes: Seq<Uuid>| leads(path, nodes, from, to);
    assert(leads(path, nodes, from, to));
    assert(nodes.len() == path.len() + 1);
    assert forall|i: int| 0 <= i < path.len() implies {
        &&& g.relations.contains(#[trigger] path[i])
        &&& (path[i].source_entity_id == nodes[i] && path[i].target_entity_id == nodes[i + 1]) || (
        path[i].source_entity_id == nodes[i + 1] && path[i].target_entity_id == nodes[i])
        &&& parsed_uuid(path_step_dto(path[i]).from) == Some(path[i].source_entity_id.bits as nat)
        &&& parsed_uuid(path_step_dto(path[i]).to) == Some(path[i].target_entity_id.bits as nat)
        &&& parsed_uuid(path_step_dto(path[i]).type_id) == Some(path[i].type_id.bits as nat)
        &&& parsed_uuid(path_step_dto(path[i]).evidence_chunk_id) == Some(
            path[i].evidence_chunk_id.bits as nat,
        )
    } by {
        law_uuid_round_trip(path[i].source_entity_id);
        law_uuid_round_trip(path[i].target_entity_id);
        law_uuid_round_trip(path[i].type_id);
        law_uuid_round_trip(path[i].evidence_chunk_id);
    }
}

/// The schema names every type, with the number of entities or relations that
/// are of it.
pub proof fn law_schema_counts(types: RegistryView, g: GraphView)
    ensures
        ({
            let shown = types.entity_type_list(g);
            &&& shown.len() == types.entity_types.len()
            &&& forall|i: int|
                0 <= i < types.entity_types.len() ==> exists|k: int|
                    0 <= k < shown.len() && entity_type_dto(#[trigger] shown[k]).name == (
                    #[trigger] types.entity_types[i]).name && entity_type_dto(shown[k]).instance_count
                        == g.entities.filter(
                        |e: EntityView| e.type_id == types.entity_types[i].id,
                    ).len()
        }),
        ({
            let shown = types.relation_type_list(g);
            &&& shown.len() == types.relation_types.len()
            &&& forall|i: int|
                0 <= i < types.relation_types.len() ==> exists|k: int|
                    0 <= k < shown.len() && relation_type_dto(#[trigger] shown[k]).name == (
                    #[trigger] types.relation_types[i]).name && relation_type_dto(
                        shown[k],
                    ).instance_count == g.relations.filter(
                        |r: RelationRecord| r.type_id == types.relation_types[i].id,
                    ).len() && relation_type_dto(shown[k]).status == (
                    if types.relation_types[i].status == RelationTypeStatus::Canonical {
                        "canonical"@
                    } else {
                        "candidate"@
                    })
        }),
{
    law_listed_entity_types(types, g);
    law_listed_relation_types(types, g);
    let shown = types.entity_type_list(g);
    assert forall|i: int| 0 <= i < types.entity_types.len() implies exists|k: int|
        0 <= k < shown.len() && entity_type_dto(#[trigger] shown[k]).name == (
        #[trigger] types.entity_types[i]).name && entity_type_dto(shown[k]).instance_count
            == g.entities.filter(|e: EntityView| e.type_id == types.entity_types[i].id).len() by {
        let row = types.entity_types[i];
        let k = choose|k: int|
            0 <= k < shown.len() && (#[trigger] shown[k]).id == row.id && shown[k].name == row.name
                && shown[k].description == row.description && shown[k].instance_count
                == g.entities.filter(|e: EntityView| e.type_id == row.id).len();
        assert(entity_type_dto(shown[k]).name == row.name);
    }
    let listed = types.relation_type_list(g);
    assert forall|i: int| 0 <= i < types.relation_types.len() implies exists|k: int|
        0 <= k < listed.len() && relation_type_dto(#[trigger] listed[k]).name == (
        #[trigger] types.relation_types[i]).name && relation_type_dto(listed[k]).instance_count
            == g.relations.filter(
            |r: RelationRecord| r.type_id == types.relation_types[i].id,
        ).len() && relation_type_dto(listed[k]).status == (
        if types.relation_types[i].status == RelationTypeStatus::Canonical {
            "canonical"@
        } else {
            "candidate"@
        }) by {
        let row = types.relation_types[i];
        let k = choose|k: int|
            0 <= k < listed.len() && (#[trigger] listed[k]).id == row.id && listed[k].name == row.name
                && listed[k].description == row.description && listed[k].status == row.status
                && listed[k].instance_count == g.relations.filter(
                |r: RelationRecord| r.type_id == row.id,
            ).len();
        assert(relation_type_dto(listed[k]).name == row.name);
    }
}

/// A chunk that was found is answered with its own id, path, text and score.
pub proof fn law_found_chunks_read_back(c: ScoredChunkView)
    ensures
        parsed_uuid(scored_chunk_dto(c).chunk_id) == Some(c.chunk.id.bits as nat),
        scored_chunk_dto(c).file_path == c.chunk.file_path,
        scored_chunk_dto(c).content == c.chunk.content,
        scored_chunk_dto(c).score == c.score,
{
    law_uuid_round_trip(c.chunk.id);
}

/// A question that the graph does not answer is answered with the text of the
/// best chunk, and every chunk is its evidence, in order.
pub proof fn law_fallback_cites_the_chunks(chunks: Seq<ScoredChunkView>)
    ensures
        vector_answer(chunks).mode == "vector_fallback"@,
        chunks.len() > 0 ==> vector_answer(chunks).answer == chunks[0].chunk.content,
        vector_answer(chunks).evidence.len() == chunks.len(),
        forall|k: int|
            0 <= k < chunks.len() ==> parsed_uuid((#[trigger] vector_answer(chunks).evidence[k]).chunk_id)
                == Some(chunks[k].chunk.id.bits as nat) && vector_answer(chunks).evidence[k].excerpt
                == chunks[k].chunk.content,
{
    assert forall|k: int| 0 <= k < chunks.len() implies parsed_uuid(
        (#[trigger] vector_answer(chunks).evidence[k]).chunk_id,
    ) == Some(chunks[k].chunk.id.bits as nat) && vector_answer(chunks).evidence[k].excerpt
        == chunks[k].chunk.content by {
        law_uuid_round_trip(chunks[k].chunk.id);
    }
}

/// Where the graph answers, it answers about the mentioned entity and the
/// relation type that is most similar to the question: every relation of that
/// type that starts or ends at the entity is counted, and its evidence is
/// cited; and nothing else is.
pub proof fn law_graph_answer_cites_every_relation(
    g: GraphView,
    question: Seq<char>,
    types: Seq<RelationTypeView>,
    scores: Seq<Score>,
)
    requires
        types.len() == scores.len(),
        routed(g, question, types, scores) is Some,
        forall|j: int| 0 <= j < scores.len() ==> !(#[trigger] scores[j]).is_nan(),
    ensures
        exists|b: int|
            0 <= b < types.len() && (forall|j: int|
                0 <= j < scores.len() ==> (#[trigger] scores[j]).le(scores[b])) && answers_about(
                g,
                mentioned_entity(g, question)->0,
                #[trigger] types[b],
                routed(g, question, types, scores)->0.answer,
                Seq::new(
                    routed(g, question, types, scores)->0.evidence.len(),
                    |k: int| routed(g, question, types, scores)->0.evidence[k].chunk_id,
                ),
            ),
{
    let b = best_of(scores, scores.len());
    law_best_is_best(scores, scores.len(), 0);
    assert forall|j: int| 0 <= j < scores.len() implies (#[trigger] scores[j]).le(scores[b]) by {
        law_best_is_best(scores, scores.len(), j);
    }
    let entity = mentioned_entity(g, question)->0;
    let t = types[b];
    let answer = routed(g, question, types, scores)->0;
    let cited = Seq::new(answer.evidence.len(), |k: int| answer.evidence[k].chunk_id);
    let picked = relations_of_type(g, entity.id, t.id);
    let touching = |r: RelationRecord| touches(r, entity.id);
    let of_type = |r: RelationRecord| r.type_id == t.id;
    let both = |r: RelationRecord|
        r.type_id == t.id && (r.source_entity_id == entity.id || r.target_entity_id == entity.id);
    lemma_filter_twice(g.relations, touching, of_type);
    lemma_filter_same(
        g.relations,
        both,
        |r: RelationRecord| touching(r) && of_type(r),
    );
    assert(picked == g.relations.filter(both));
    assert(answer == graph_answer(entity, t.name, picked));
    assert forall|i: int|
        0 <= i < g.relations.len() && (#[trigger] g.relations[i]).type_id == t.id && (
        g.relations[i].source_entity_id == entity.id || g.relations[i].target_entity_id
            == entity.id) implies exists|k: int|
        0 <= k < cited.len() && parsed_uuid(#[trigger] cited[k]) == Some(
            g.relations[i].evidence_chunk_id.bits as nat,
        ) by {
        assert(both(g.relations[i]));
        g.relations.lemma_filter_contains(both, i);
        let k = choose|k: int| 0 <= k < picked.len() && picked[k] == g.relations[i];
        law_uuid_round_trip(picked[k].evidence_chunk_id);
        assert(cited[k] == answer.evidence[k].chunk_id);
    }
    assert(answers_about(g, entity, types[b], answer.answer, cited));
}

/// An answer counts the relations of a type that start or end at an entity, and
/// cites the evidence of each.
pub open spec fn answers_about(
    g: GraphView,
    entity: EntityView,
    t: RelationTypeView,
    answer: Seq<char>,
    cited: Seq<Seq<char>>,
) -> bool {
    let counted = g.relations.filter(
        |r: RelationRecord|
            r.type_id == t.id && (r.source_entity_id == entity.id || r.target_entity_id == entity.id),
    ).len();
    &&& cited.len() == counted
    &&& answer == entity.canonical_name + " has "@ + decimal_text(counted) + " relation(s) of type '"@
        + t.name + "'"@
    &&& forall|i: int|
        0 <= i < g.relations.len() && (#[trigger] g.relations[i]).type_id == t.id && (
        g.relations[i].source_entity_id == entity.id || g.relations[i].target_entity_id == entity.id)
            ==> exists|k: int|
            0 <= k < cited.len() && parsed_uuid(#[trigger] cited[k]) == Some(
                g.relations[i].evidence_chunk_id.bits as nat,
            )
}

/// A word is read without the characters that stand in no name: what is left
/// are letters, numbers, hyphens and underscores, and a word of those alone is
/// read as it is.
pub proof fn law_words_are_cleaned(word: Seq<char>)
    ensures
        forall|i: int|
            0 <= i < cleaned(word).len() ==> word.contains(#[trigger] cleaned(word)[i]) && (
            is_letter_or_number(cleaned(word)[i]) || cleaned(word)[i] == '-' || cleaned(word)[i] == '_'),
        (forall|i: int|
            0 <= i < word.len() ==> is_letter_or_number(#[trigger] word[i]) || word[i] == '-'
                || word[i] == '_') ==> cleaned(word) == word,
{
    let p = |c: char| is_name_char(c);
    assert forall|i: int| 0 <= i < cleaned(word).len() implies word.contains(
        #[trigger] cleaned(word)[i],
    ) && (is_letter_or_number(cleaned(word)[i]) || cleaned(word)[i] == '-' || cleaned(word)[i]
        == '_') by {
        lemma_filter_from(word, p, i);
    }
    if forall|i: int|
        0 <= i < word.len() ==> is_letter_or_number(#[trigger] word[i]) || word[i] == '-' || word[i]
            == '_' {
        lemma_filter_keeps_all(word, p);
    }
}

proof fn lemma_filter_keeps_all(s: Seq<char>, p: spec_fn(char) -> bool)
    requires
        forall|i: int| 0 <= i < s.len() ==> p(#[trigger] s[i]),
    ensures
        s.filter(p) == s,
    decreases s.len(),
{
    if s.len() > 0 {
        let rest = s.drop_last();
        assert(s =~= rest.push(s.last()));
        rest.lemma_filter_push(s.last(), p);
        assert forall|i: int| 0 <= i < rest.len() implies p(#[trigger] rest[i]) by {
            assert(rest[i] == s[i]);
        }
        assert(p(s[s.len() - 1]));
        lemma_filter_keeps_all(rest, p);
    } else {
        s.lemma_filter_len(p);
        assert(s.filter(p) =~= s);
    }
}

/// The mentioned entity is one of the graph, and some word of the question, read
/// without punctuation, stands in its name, whatever the case.
pub proof fn law_mentioned_stands_in_question(g: GraphView, question: Seq<char>)
    requires
        mentioned_entity(g, question) is Some,
    ensures
        g.entities.contains(mentioned_entity(g, question)->0),
        exists|w: int|
            0 <= w < words_of(question).len() && has_in_name(
                mentioned_entity(g, question)->0.canonical_name,
                cleaned(#[trigger] words_of(question)[w]),
            ),
{
    let words = words_of(question);
    if named_in(g, words, words.len()) is Some {
        lemma_named_found(g, words, words.len());
    } else {
        lemma_mentioned_found(g, words, words.len());
    }
}

/// An entity of the graph has the reading of one of the first `n` words in its
/// name.
spec fn stands_in(g: GraphView, e: EntityView, words: Seq<Seq<char>>, n: nat) -> bool {
    g.entities.contains(e) && exists|w: int|
        0 <= w < n && has_in_name(e.canonical_name, cleaned(#[trigger] words[w]))
}

/// A name has `part` in it, whatever the case of either.
pub open spec fn has_in_name(name: Seq<char>, part: Seq<char>) -> bool {
    exists|at: int|
        0 <= at && at + folded(part).len() <= folded(name).len() && #[trigger] folded(name).subrange(
            at,
            at + folded(part).len(),
        ) == folded(part)
}

proof fn lemma_match_stands(g: GraphView, e: EntityView, words: Seq<Seq<char>>, w: int, n: nat)
    requires
        0 <= w < n <= words.len(),
        g.matching(cleaned(words[w])).contains(e),
    ensures
        stands_in(g, e, words, n),
{
    law_matching_finds(g, cleaned(words[w]), e);
    let hay = folded(e.canonical_name);
    let needle = folded(cleaned(words[w]));
    let at = choose|at: int|
        0 <= at && at + needle.len() <= hay.len() && #[trigger] hay.subrange(at, at + needle.len())
            == needle;
    assert(hay.subrange(at, at + needle.len()) == needle);
}

proof fn lemma_named_found(g: GraphView, words: Seq<Seq<char>>, n: nat)
    requires
        n <= words.len(),
        named_in(g, words, n) is Some,
    ensures
        stands_in(g, named_in(g, words, n)->0, words, n),
    decreases n,
{
    if n > 0 {
        if named_in(g, words, (n - 1) as nat) is Some {
            lemma_named_found(g, words, (n - 1) as nat);
        } else {
            let name = cleaned(words[n - 1]);
            let all = g.matching(name);
            lemma_first_match(all, |e: EntityView| folded(e.canonical_name) == folded(name));
            lemma_match_stands(g, named_in(g, words, n)->0, words, n - 1, n);
        }
    }
}

proof fn lemma_mentioned_found(g: GraphView, words: Seq<Seq<char>>, n: nat)
    requires
        n <= words.len(),
        mentioned(g, words, n) is Some,
    ensures
        stands_in(g, mentioned(g, words, n)->0, words, n),
    decreases n,
{
    if n > 0 {
        if mentioned(g, words, (n - 1) as nat) is Some {
            lemma_mentioned_found(g, words, (n - 1) as nat);
        } else {
            let all = g.matching(cleaned(words[n - 1]));
            assert(all.contains(all[0]));
            lemma_match_stands(g, mentioned(g, words, n)->0, words, n - 1, n);
        }
    }
}

/// A question that has a part of an entity's name, of at least three characters,
/// as a word mentions an entity.
pub proof fn law_part_of_a_name_is_a_mention(g: GraphView, question: Seq<char>, w: int, e: EntityView)
    requires
        0 <= w < words_of(question).len(),
        g.entities.contains(e),
        cleaned(words_of(question)[w]).len() >= 3,
        ({
            let hay = folded(e.canonical_name);
            let needle = folded(cleaned(words_of(question)[w]));
            exists|at: int|
                0 <= at && at + needle.len() <= hay.len() && #[trigger] hay.subrange(
                    at,
                    at + needle.len(),
                ) == needle
        }),
    ensures
        mentioned_entity(g, question) is Some,
{
    let words = words_of(question);
    let name = cleaned(words[w]);
    law_matching_finds(g, name, e);
    assert(g.matching(name).len() > 0);
    crate::offsets::lemma_byte_at_grows(name, 0, name.len() as int);
    assert(mentioned(g, words, (w + 1) as nat) is Some);
    lemma_stays(g, words, (w + 1) as nat, words.len());
}

proof fn lemma_stays(g: GraphView, words: Seq<Seq<char>>, n: nat, m: nat)
    requires
        n <= m,
        mentioned(g, words, n) is Some,
    ensures
        mentioned(g, words, m) is Some,
    decreases m,
{
    if n < m {
        lemma_stays(g, words, n, (m - 1) as nat);
    }
}

/// Where no word is a name, the first word of at least three bytes that stands in
/// some name decides which entity is mentioned: of those that have it in their
/// names, the first by name.
pub proof fn law_first_word_decides(g: GraphView, question: Seq<char>, w: int)
    requires
        0 <= w < words_of(question).len(),
        forall|k: int, i: int|
            0 <= k < words_of(question).len() && 0 <= i < g.entities.len() ==> folded(
                (#[trigger] g.entities[i]).canonical_name,
            ) != folded(cleaned(#[trigger] words_of(question)[k])),
        forall|k: int, i: int|
            0 <= k < w && 0 <= i < g.entities.len() ==> byte_len(
                cleaned(#[trigger] words_of(question)[k]),
            ) < 3 || !has_in_name(
                (#[trigger] g.entities[i]).canonical_name,
                cleaned(words_of(question)[k]),
            ),
        byte_len(cleaned(words_of(question)[w])) >= 3,
        exists|i: int|
            0 <= i < g.entities.len() && has_in_name(
                (#[trigger] g.entities[i]).canonical_name,
                cleaned(words_of(question)[w]),
            ),
    ensures
        mentioned_entity(g, question) is Some,
        g.entities.contains(mentioned_entity(g, question)->0),
        has_in_name(
            mentioned_entity(g, question)->0.canonical_name,
            cleaned(words_of(question)[w]),
        ),
        forall|i: int|
            0 <= i < g.entities.len() && has_in_name(
                (#[trigger] g.entities[i]).canonical_name,
                cleaned(words_of(question)[w]),
            ) ==> !lex_lt(
                g.entities[i].canonical_name,
                mentioned_entity(g, question)->0.canonical_name,
            ),
{
    let words = words_of(question);
    lemma_nothing_named(g, words, words.len());
    lemma_nothing_mentioned(g, words, w as nat);
    let name = cleaned(words[w]);
    let found = g.matching(name);
    let i = choose|i: int|
        0 <= i < g.entities.len() && has_in_name((#[trigger] g.entities[i]).canonical_name, name);
    law_matching_finds(g, name, g.entities[i]);
    assert(g.entities.contains(g.entities[i]));
    assert(found.len() > 0);
    assert(mentioned(g, words, (w + 1) as nat) == Some(found[0]));
    lemma_mentioned_same(g, words, (w + 1) as nat, words.len());
    law_matching_finds(g, name, found[0]);
    assert(found.contains(found[0]));
    assert forall|k: int|
        0 <= k < g.entities.len() && has_in_name((#[trigger] g.entities[k]).canonical_name, name) implies !lex_lt(
        g.entities[k].canonical_name,
        found[0].canonical_name,
    ) by {
        assert(g.entities.contains(g.entities[k]));
        law_concept_names_its_entity(g, name, g.entities[k]);
    }
}

proof fn lemma_nothing_named(g: GraphView, words: Seq<Seq<char>>, n: nat)
    requires
        n <= words.len(),
        forall|k: int, i: int|
            0 <= k < words.len() && 0 <= i < g.entities.len() ==> folded(
                (#[trigger] g.entities[i]).canonical_name,
            ) != folded(cleaned(#[trigger] words[k])),
    ensures
        named_in(g, words, n) is None,
    decreases n,
{
    if n > 0 {
        lemma_nothing_named(g, words, (n - 1) as nat);
        let name = cleaned(words[n - 1]);
        let all = g.matching(name);
        let p = |e: EntityView| folded(e.canonical_name) == folded(name);
        lemma_first_match(all, p);
        if crate::views::first_match(all, p) is Some {
            let e = crate::views::first_match(all, p)->0;
            law_matching_finds(g, name, e);
            let i = choose|i: int| 0 <= i < g.entities.len() && g.entities[i] == e;
            assert(folded(g.entities[i].canonical_name) != folded(cleaned(words[n - 1])));
        }
    }
}

proof fn lemma_nothing_mentioned(g: GraphView, words: Seq<Seq<char>>, n: nat)
    requires
        n <= words.len(),
        forall|k: int, i: int|
            0 <= k < n && 0 <= i < g.entities.len() ==> byte_len(cleaned(#[trigger] words[k])) < 3
                || !has_in_name((#[trigger] g.entities[i]).canonical_name, cleaned(words[k])),
    ensures
        mentioned(g, words, n) is None,
    decreases n,
{
    if n > 0 {
        lemma_nothing_mentioned(g, words, (n - 1) as nat);
        let name = cleaned(words[n - 1]);
        let all = g.matching(name);
        if byte_len(name) >= 3 && all.len() > 0 {
            law_matching_finds(g, name, all[0]);
            assert(all.contains(all[0]));
            let i = choose|i: int| 0 <= i < g.entities.len() && g.entities[i] == all[0];
            assert(has_in_name(g.entities[i].canonical_name, cleaned(words[n - 1])));
        }
    }
}

proof fn lemma_mentioned_same(g: GraphView, words: Seq<Seq<char>>, n: nat, m: nat)
    requires
        n <= m,
        mentioned(g, words, n) is Some,
    ensures
        mentioned(g, words, m) == mentioned(g, words, n),
    decreases m,
{
    if n < m {
        lemma_mentioned_same(g, words, n, (m - 1) as nat);
    }
}

/// Entities that a walk of at most six relations joins are near enough to be
/// explained.
pub proof fn law_six_hops_are_explained(g: GraphView, nodes: Seq<Uuid>, walk: Seq<RelationRecord>)
    requires
        is_walk(g, nodes, walk),
        walk.len() <= 6,
    ensures
        within(g.relations, nodes[0], nodes.last(), MAX_EXPLAINED_HOPS as nat),
{
    law_walk_is_found(g, nodes, walk, MAX_EXPLAINED_HOPS, Seq::empty());
}

/// An explanation takes at most six relations.
pub proof fn law_explanations_are_short(
    g: GraphView,
    from: Uuid,
    to: Uuid,
    path: Seq<RelationRecord>,
)
    requires
        is_shortest_path(g, from, to, MAX_EXPLAINED_HOPS, path),
    ensures
        path.len() <= 6,
{
}

/// The graph answers a question that mentions an entity where some relation type
/// has a similarity of at least 0.3, the single-precision number with the bits
/// `0x3e99999a`, and leaves it to the chunks where all are below.
pub proof fn law_similarity_decides(
    g: GraphView,
    question: Seq<char>,
    types: Seq<RelationTypeView>,
    scores: Seq<Score>,
    i: int,
)
    requires
        types.len() == scores.len(),
        0 <= i < scores.len(),
        mentioned_entity(g, question) is Some,
        forall|j: int| 0 <= j < scores.len() ==> !(#[trigger] scores[j]).is_nan(),
    ensures
        0x3e99_999a <= scores[i].bits <= 0x7f80_0000 ==> routed(g, question, types, scores) is Some,
        (forall|j: int| 0 <= j < scores.len() ==> (#[trigger] scores[j]).bits < 0x3e99_999a) ==> routed(
            g,
            question,
            types,
            scores,
        ) is None,
{
    law_best_is_best(scores, scores.len(), i);
    let b = best_of(scores, scores.len());
    assert(!scores[b].is_nan());
    assert(!scores[i].is_nan());
}

} // verus!
