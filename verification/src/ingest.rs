//! Frontmatter ingestion: what a file's frontmatter states of its own entity
//! and of its relations to others is recorded as it stands.

use vstd::prelude::*;
use crate::engine::{EngineView, OntologyEngine};
use crate::frontmatter::{
    concept_texts, derive_name_from_path, derived_name, frontmatter_fields, parse_frontmatter_values,
    texts_of_concept, Field, FieldRule, FieldRuleView, FieldView, FrontmatterProfile,
};
use crate::graph::GraphView;
use crate::ids::Uuid;
use crate::records::{
    EntityRecord, EntityTypeRecord, EntityView, OntologyError, OntologyErrorView, RelationRecord,
    RelationTypeRecord, RelationTypeView,
};
use crate::registry::relation_type_record;
use crate::scores::{one, Score};
use crate::supply::{lemma_comes_after, lemma_follows_after, lemma_follows_itself, IdSource};
use crate::text::{eq_ignore_ascii_case, same_ignoring_ascii_case};
use crate::views::{first_match, lemma_first_match, lemma_first_match_at, opt_view, result_view, views};

verus! {

/// The relation concepts that a frontmatter key can mean: the names of the
/// seeded relation types.
pub const RELATION_CONCEPTS: [&'static str; 8] = [
    "depends_on",
    "supersedes",
    "implements",
    "causes",
    "owned_by",
    "conflicts_with",
    "documents",
    "configures",
];

/// What came of a file's frontmatter.
#[derive(Debug)]
pub struct FrontmatterIngestOutcome {
    pub entity: EntityRecord,
    pub relations_created: usize,
}

/// What a [`FrontmatterIngestOutcome`] holds.
pub struct IngestView {
    pub entity: EntityView,
    pub relations_created: nat,
}

impl View for FrontmatterIngestOutcome {
    type V = IngestView;

    open spec fn view(&self) -> IngestView {
        IngestView { entity: self.entity@, relations_created: self.relations_created as nat }
    }
}

/// The entity whose name is `name`, but for the case of ASCII letters.
pub open spec fn exact_named(g: GraphView, name: Seq<char>) -> Option<EntityView> {
    first_match(
        g.matching(name),
        |e: EntityView| same_ignoring_ascii_case(e.canonical_name, name),
    )
}

/// The first of some texts, or `otherwise`.
pub open spec fn first_or(texts: Seq<Seq<char>>, otherwise: Seq<char>) -> Seq<char> {
    if texts.len() > 0 {
        texts[0]
    } else {
        otherwise
    }
}

/// The name of a file's own entity.
pub open spec fn own_name(
    rules: Seq<FieldRuleView>,
    fields: Seq<FieldView>,
    file: Seq<char>,
) -> Seq<char> {
    first_or(concept_texts(rules, fields, "id"@), derived_name(file))
}

/// The kind of a file's own entity.
pub open spec fn own_kind(rules: Seq<FieldRuleView>, fields: Seq<FieldView>) -> Seq<char> {
    first_or(concept_texts(rules, fields, "kind"@), "spec-item"@)
}

/// The number of identifiers that the relations to `targets` take.
pub open spec fn ids_for(targets: Seq<Seq<char>>) -> nat {
    if targets.len() == 0 {
        0
    } else {
        1 + 3 * targets.len()
    }
}

/// The number of identifiers that the relations of the first `n` concepts
/// take.
pub open spec fn ids_before(rules: Seq<FieldRuleView>, fields: Seq<FieldView>, n: nat) -> nat
    decreases n,
{
    if n == 0 {
        0
    } else {
        ids_before(rules, fields, (n - 1) as nat) + ids_for(
            concept_texts(rules, fields, RELATION_CONCEPTS@[n - 1]@),
        )
    }
}

impl EngineView {
    /// The entity that a name stands for, or a placeholder for it where its
    /// own file was not ingested yet.
    pub open spec fn resolving(
        self,
        name: Seq<char>,
        file: Seq<char>,
        fresh_type: Uuid,
        fresh: Uuid,
        at: Seq<char>,
    ) -> (EngineView, Result<EntityView, OntologyErrorView>) {
        match exact_named(self.instances, name) {
            Some(e) => (self, Ok(e)),
            None => {
                let (types, t) = self.types.with_entity_type(
                    self.instances,
                    "unresolved-reference"@,
                    "placeholder for an id referenced by frontmatter before its own file was ingested"@,
                    fresh_type,
                    at,
                );
                match t {
                    Ok(entity_type) => {
                        let (instances, r) = self.instances.with_entity(
                            entity_type.id,
                            name,
                            file,
                            fresh,
                            at,
                        );
                        (EngineView { types, instances, ..self }, r)
                    },
                    Err(e) => (EngineView { types, ..self }, Err(e)),
                }
            },
        }
    }

    /// A file's own entity: the one of its name, retyped in place where it is
    /// of another type, or a new one.
    pub open spec fn owning(
        self,
        name: Seq<char>,
        type_id: Uuid,
        file: Seq<char>,
        fresh: Uuid,
        at: Seq<char>,
    ) -> (EngineView, Result<EntityView, OntologyErrorView>) {
        match exact_named(self.instances, name) {
            Some(e) => if e.type_id != type_id {
                let instances = self.instances.retyped(e.id, type_id);
                (
                    EngineView { instances, ..self },
                    match instances.entity(e.id) {
                        Some(retyped) => Ok(retyped),
                        None => Err(OntologyErrorView::EntityNotFound(e.id)),
                    },
                )
            } else {
                (self, Ok(e))
            },
            None => {
                let (instances, r) = self.instances.with_entity(type_id, name, file, fresh, at);
                (EngineView { instances, ..self }, r)
            },
        }
    }

    /// Relations of one type from `source` to the first `n` of `targets`.
    pub open spec fn linking(
        self,
        n: nat,
        targets: Seq<Seq<char>>,
        source: Uuid,
        type_id: Uuid,
        file: Seq<char>,
        evidence: Uuid,
        ids: Seq<Uuid>,
        at: Seq<char>,
    ) -> (EngineView, Result<nat, OntologyErrorView>)
        decreases n,
    {
        if n == 0 {
            (self, Ok(0))
        } else {
            let k = n - 1;
            let (before, r) = self.linking(k as nat, targets, source, type_id, file, evidence, ids, at);
            match r {
                Err(e) => (before, Err(e)),
                Ok(_) => {
                    let (resolved, t) = before.resolving(
                        targets[k],
                        file,
                        ids[3 * k],
                        ids[3 * k + 1],
                        at,
                    );
                    match t {
                        Err(e) => (resolved, Err(e)),
                        Ok(target) => (
                            EngineView {
                                instances: resolved.instances.with_relation(
                                    RelationRecord {
                                        id: ids[3 * k + 2],
                                        type_id,
                                        source_entity_id: source,
                                        target_entity_id: target.id,
                                        confidence: one(),
                                        evidence_chunk_id: evidence,
                                    },
                                ),
                                ..resolved
                            },
                            Ok(n),
                        ),
                    }
                },
            }
        }
    }

    /// The relation type of a concept, which is made a candidate where it is
    /// missing.
    pub open spec fn relation_type_for(
        self,
        concept: Seq<char>,
        fresh: Uuid,
        at: Seq<char>,
    ) -> (EngineView, Result<RelationTypeView, OntologyErrorView>) {
        match self.types.relation_type(concept) {
            Some(row) => (self, Ok(relation_type_record(row, self.instances))),
            None => {
                let (types, r) = self.types.with_candidate(
                    self.instances,
                    concept,
                    "frontmatter relation '"@ + concept + "'"@,
                    fresh,
                    at,
                );
                (EngineView { types, ..self }, r)
            },
        }
    }

    /// The relations of the first `n` concepts.
    pub open spec fn relating(
        self,
        n: nat,
        rules: Seq<FieldRuleView>,
        fields: Seq<FieldView>,
        source: Uuid,
        file: Seq<char>,
        evidence: Uuid,
        ids: Seq<Uuid>,
        at: Seq<char>,
    ) -> (EngineView, Result<nat, OntologyErrorView>)
        decreases n,
    {
        if n == 0 {
            (self, Ok(0))
        } else {
            let (before, r) = self.relating(
                (n - 1) as nat,
                rules,
                fields,
                source,
                file,
                evidence,
                ids,
                at,
            );
            let concept = RELATION_CONCEPTS@[n - 1]@;
            let targets = concept_texts(rules, fields, concept);
            let base = ids_before(rules, fields, (n - 1) as nat) as int;
            match r {
                Err(e) => (before, Err(e)),
                Ok(count) => if targets.len() == 0 {
                    (before, Ok(count))
                } else {
                    let (typed, t) = before.relation_type_for(concept, ids[base], at);
                    match t {
                        Err(e) => (typed, Err(e)),
                        Ok(relation_type) => {
                            let (linked, l) = typed.linking(
                                targets.len(),
                                targets,
                                source,
                                relation_type.id,
                                file,
                                evidence,
                                ids.skip(base + 1),
                                at,
                            );
                            match l {
                                Err(e) => (linked, Err(e)),
                                Ok(more) => (linked, Ok(count + more)),
                            }
                        },
                    }
                },
            }
        }
    }

    /// A file's own entity, and its relations to others.
    pub open spec fn ingesting(
        self,
        file: Seq<char>,
        rules: Seq<FieldRuleView>,
        fields: Seq<FieldView>,
        evidence: Uuid,
        ids: Seq<Uuid>,
        at: Seq<char>,
    ) -> (EngineView, Result<IngestView, OntologyErrorView>) {
        let kind = own_kind(rules, fields);
        let (types, t) = self.types.with_entity_type(
            self.instances,
            kind,
            "frontmatter kind '"@ + kind + "'"@,
            ids[0],
            at,
        );
        let typed = EngineView { types, ..self };
        match t {
            Err(e) => (typed, Err(e)),
            Ok(entity_type) => {
                let (owned, o) = typed.owning(
                    own_name(rules, fields, file),
                    entity_type.id,
                    file,
                    ids[1],
                    at,
                );
                match o {
                    Err(e) => (owned, Err(e)),
                    Ok(entity) => {
                        let (related, r) = owned.relating(
                            8,
                            rules,
                            fields,
                            entity.id,
                            file,
                            evidence,
                            ids.skip(2),
                            at,
                        );
                        match r {
                            Err(e) => (related, Err(e)),
                            Ok(relations_created) => (
                                related,
                                Ok(IngestView { entity, relations_created }),
                            ),
                        }
                    },
                }
            },
        }
    }
}

/// Relations depend on the identifiers that they take, and on no others.
proof fn lemma_linking_ids(
    s: EngineView,
    n: nat,
    targets: Seq<Seq<char>>,
    source: Uuid,
    type_id: Uuid,
    file: Seq<char>,
    evidence: Uuid,
    ids: Seq<Uuid>,
    more: Seq<Uuid>,
    at: Seq<char>,
)
    requires
        forall|i: int| 0 <= i < 3 * n ==> #[trigger] ids[i] == more[i],
    ensures
        s.linking(n, targets, source, type_id, file, evidence, ids, at) == s.linking(
            n,
            targets,
            source,
            type_id,
            file,
            evidence,
            more,
            at,
        ),
    decreases n,
{
    if n > 0 {
        lemma_linking_ids(
            s,
            (n - 1) as nat,
            targets,
            source,
            type_id,
            file,
            evidence,
            ids,
            more,
            at,
        );
        let k = n - 1;
        assert(ids[3 * k] == more[3 * k]);
        assert(ids[3 * k + 1] == more[3 * k + 1]);
        assert(ids[3 * k + 2] == more[3 * k + 2]);
    }
}

/// Relations depend on the identifiers that they take, and on no others.
proof fn lemma_relating_ids(
    s: EngineView,
    n: nat,
    rules: Seq<FieldRuleView>,
    fields: Seq<FieldView>,
    source: Uuid,
    file: Seq<char>,
    evidence: Uuid,
    ids: Seq<Uuid>,
    more: Seq<Uuid>,
    at: Seq<char>,
)
    requires
        ids.is_prefix_of(more),
        ids.len() >= ids_before(rules, fields, n),
    ensures
        s.relating(n, rules, fields, source, file, evidence, ids, at) == s.relating(
            n,
            rules,
            fields,
            source,
            file,
            evidence,
            more,
            at,
        ),
    decreases n,
{
    if n > 0 {
        let m = (n - 1) as nat;
        lemma_relating_ids(s, m, rules, fields, source, file, evidence, ids, more, at);
        let (before, r) = s.relating(m, rules, fields, source, file, evidence, ids, at);
        let concept = RELATION_CONCEPTS@[n - 1]@;
        let targets = concept_texts(rules, fields, concept);
        let base = ids_before(rules, fields, m) as int;
        if r is Ok && targets.len() > 0 {
            assert(ids[base] == more[base]);
            let (typed, t) = before.relation_type_for(concept, ids[base], at);
            if t is Ok {
                assert forall|i: int| 0 <= i < 3 * targets.len() implies #[trigger] ids.skip(
                    base + 1,
                )[i] == more.skip(base + 1)[i] by {
                    assert(ids[base + 1 + i] == more[base + 1 + i]);
                }
                lemma_linking_ids(
                    typed,
                    targets.len(),
                    targets,
                    source,
                    t->Ok_0.id,
                    file,
                    evidence,
                    ids.skip(base + 1),
                    more.skip(base + 1),
                    at,
                );
            }
        }
    }
}

/// An error in the relations of some concepts is the error of more of them.
proof fn lemma_relating_stops(
    s: EngineView,
    n: nat,
    m: nat,
    rules: Seq<FieldRuleView>,
    fields: Seq<FieldView>,
    source: Uuid,
    file: Seq<char>,
    evidence: Uuid,
    ids: Seq<Uuid>,
    at: Seq<char>,
)
    requires
        n <= m,
        s.relating(n, rules, fields, source, file, evidence, ids, at).1 is Err,
    ensures
        s.relating(m, rules, fields, source, file, evidence, ids, at) == s.relating(
            n,
            rules,
            fields,
            source,
            file,
            evidence,
            ids,
            at,
        ),
    decreases m,
{
    if n < m {
        lemma_relating_stops(s, n, (m - 1) as nat, rules, fields, source, file, evidence, ids, at);
    }
}

/// An error in the relations to some targets is the error of more of them.
proof fn lemma_linking_stops(
    s: EngineView,
    n: nat,
    m: nat,
    targets: Seq<Seq<char>>,
    source: Uuid,
    type_id: Uuid,
    file: Seq<char>,
    evidence: Uuid,
    ids: Seq<Uuid>,
    at: Seq<char>,
)
    requires
        n <= m,
        s.linking(n, targets, source, type_id, file, evidence, ids, at).1 is Err,
    ensures
        s.linking(m, targets, source, type_id, file, evidence, ids, at) == s.linking(
            n,
            targets,
            source,
            type_id,
            file,
            evidence,
            ids,
            at,
        ),
    decreases m,
{
    if n < m {
        lemma_linking_stops(
            s,
            n,
            (m - 1) as nat,
            targets,
            source,
            type_id,
            file,
            evidence,
            ids,
            at,
        );
    }
}

/// The entity whose name is `name`, but for the case of ASCII letters.
pub fn find_exact(engine: &OntologyEngine, name: &str) -> (r: Option<EntityRecord>)
    ensures
        opt_view(r) == exact_named(engine@.instances, name@),
{
    let found: Vec<EntityRecord> = engine.instances.find_entities_by_name(name);
    let ghost all = engine@.instances.matching(name@);
    let ghost p = |e: EntityView| same_ignoring_ascii_case(e.canonical_name, name@);
    let mut i: usize = 0;
    while i < found.len()
        invariant
            i <= found@.len(),
            views(found@) == all,
            all == engine@.instances.matching(name@),
            p == (|e: EntityView| same_ignoring_ascii_case(e.canonical_name, name@)),
            forall|j: int| 0 <= j < i ==> !p(#[trigger] all[j]),
        decreases found@.len() - i,
    {
        proof {
            assert(all[i as int] == found@[i as int]@);
        }
        if eq_ignore_ascii_case(found[i].canonical_name.as_str(), name) {
            proof {
                lemma_first_match_at(all, p, i as int);
            }
            return Some(found[i].clone());
        }
        i += 1;
    }
    proof {
        lemma_first_match(all, p);
    }
    None
}

fn first_text(texts: Vec<String>, otherwise: String) -> (r: String)
    ensures
        r@ == first_or(views(texts@), otherwise@),
{
    if texts.len() > 0 {
        texts[0].clone()
    } else {
        otherwise
    }
}

impl OntologyEngine {
    /// The entity that a name stands for, or a placeholder for it. Draws two
    /// identifiers.
    fn resolve_or_create_placeholder_entity(
        &mut self,
        canonical_name: &str,
        referencing_file: &str,
        ids: &mut IdSource,
        at: &str,
    ) -> (r: Result<EntityRecord, OntologyError>)
        ensures
            final(ids).grew(*old(ids), 2),
            final(ids).comes_after(*old(ids)),
            (final(self)@, result_view(r)) == old(self)@.resolving(
                canonical_name@,
                referencing_file@,
                final(ids).drawn_since(*old(ids))[0],
                final(ids).drawn_since(*old(ids))[1],
                at@,
            ),
    {
        let fresh_type: Uuid = ids.draw();
        let ghost between = *ids;
        let fresh: Uuid = ids.draw();
        proof {
            lemma_comes_after(*old(ids), between, *ids);
        }
        if let Some(exact) = find_exact(self, canonical_name) {
            return Ok(exact);
        }
        let placeholder: EntityTypeRecord = match self.types.find_or_create_entity_type_as(
            &self.instances,
            "unresolved-reference",
            "placeholder for an id referenced by frontmatter before its own file was ingested",
            fresh_type,
            at,
        ) {
            Ok(t) => t,
            Err(e) => {
                return Err(e);
            },
        };
        self.instances.find_or_create_entity_as(
            placeholder.id,
            canonical_name,
            referencing_file,
            fresh,
            at,
        )
    }

    /// A file's own entity.
    fn own_entity(
        &mut self,
        name: &str,
        type_id: Uuid,
        file_path: &str,
        fresh: Uuid,
        at: &str,
    ) -> (r: Result<EntityRecord, OntologyError>)
        ensures
            (final(self)@, result_view(r)) == old(self)@.owning(name@, type_id, file_path@, fresh, at@),
    {
        match find_exact(self, name) {
            Some(e) => if e.type_id != type_id {
                self.instances.retype_entity(e.id, type_id)
            } else {
                Ok(e)
            },
            None => self.instances.find_or_create_entity_as(type_id, name, file_path, fresh, at),
        }
    }

    /// The relation type of a concept.
    fn concept_type(&mut self, concept: &str, fresh: Uuid, at: &str) -> (r: Result<
        RelationTypeRecord,
        OntologyError,
    >)
        ensures
            (final(self)@, result_view(r)) == old(self)@.relation_type_for(concept@, fresh, at@),
    {
        if let Some(known) = self.types.find_relation_type(&self.instances, concept) {
            return Ok(known);
        }
        let mut description: String = "frontmatter relation '".to_owned();
        description.append(concept);
        description.append("'");
        self.types.register_candidate_type_as(
            &self.instances,
            concept,
            description.as_str(),
            fresh,
            at,
        )
    }

    /// Relations of one type from `source` to `targets`; `made` grows by one
    /// for each.
    fn link(
        &mut self,
        targets: &Vec<String>,
        source: Uuid,
        type_id: Uuid,
        file_path: &str,
        evidence: Uuid,
        made: &mut Vec<Uuid>,
        ids: &mut IdSource,
        at: &str,
    ) -> (r: Result<(), OntologyError>)
        ensures
            old(ids).drawn().is_prefix_of(final(ids).drawn()),
            final(ids).comes_after(*old(ids)),
            r is Ok ==> final(ids).grew(*old(ids), 3 * targets@.len()),
            final(self)@ == old(self)@.linking(
                targets@.len(),
                views(targets@),
                source,
                type_id,
                file_path@,
                evidence,
                final(ids).drawn_since(*old(ids)),
                at@,
            ).0,
            (match r {
                Ok(_) => Ok::<nat, OntologyErrorView>(
                    (final(made)@.len() - old(made)@.len()) as nat,
                ),
                Err(e) => Err(e@),
            }) == old(self)@.linking(
                targets@.len(),
                views(targets@),
                source,
                type_id,
                file_path@,
                evidence,
                final(ids).drawn_since(*old(ids)),
                at@,
            ).1,
            r is Ok ==> final(made)@.len() == old(made)@.len() + targets@.len(),
    {
        let ghost start = self@;
        let ghost source_ids = *ids;
        let ghost names = views(targets@);
        let ghost made_before = made@.len();
        let mut i: usize = 0;
        proof {
            lemma_follows_itself(*ids);
        }
        while i < targets.len()
            invariant
                i <= targets@.len(),
                names == views(targets@),
                ids.grew(source_ids, 3 * i as nat),
                ids.comes_after(source_ids),
                made@.len() == made_before + i,
                start.linking(
                    i as nat,
                    names,
                    source,
                    type_id,
                    file_path@,
                    evidence,
                    ids.drawn_since(source_ids),
                    at@,
                ) == (self@, Ok::<nat, OntologyErrorView>(i as nat)),
                start == old(self)@,
                source_ids == *old(ids),
                made_before == old(made)@.len(),
            decreases targets@.len() - i,
        {
            let ghost ids_before = *ids;
            let ghost at_target = self@;
            let target = self.resolve_or_create_placeholder_entity(
                targets[i].as_str(),
                file_path,
                ids,
                at,
            );
            let ghost resolved_ids = *ids;
            let relation_id: Uuid = ids.draw();
            let ghost seen = ids.drawn_since(source_ids);
            proof {
                let had = ids_before.drawn_since(source_ids);
                lemma_comes_after(source_ids, ids_before, resolved_ids);
                lemma_comes_after(source_ids, resolved_ids, *ids);
                assert forall|j: int| 0 <= j < 3 * i implies #[trigger] had[j] == seen[j] by {
                    let k = source_ids.drawn().len() + j;
                    assert(ids_before.drawn()[k] == ids.drawn()[k]);
                }
                lemma_linking_ids(
                    start,
                    i as nat,
                    names,
                    source,
                    type_id,
                    file_path@,
                    evidence,
                    had,
                    seen,
                    at@,
                );
                assert(names[i as int] == targets@[i as int]@);
                assert(seen[3 * i as int] == ids.drawn()[ids_before.drawn().len() as int]);
                assert(seen[3 * i + 1] == ids.drawn()[ids_before.drawn().len() + 1 as int]);
                assert(seen[3 * i + 2] == relation_id);
            }
            match target {
                Ok(entity) => {
                    self.instances.record_relation(
                        RelationRecord {
                            id: relation_id,
                            type_id,
                            source_entity_id: source,
                            target_entity_id: entity.id,
                            confidence: Score { bits: 0x3f80_0000 },
                            evidence_chunk_id: evidence,
                        },
                    );
                    made.push(relation_id);
                },
                Err(e) => {
                    proof {
                        lemma_linking_stops(
                            start,
                            (i + 1) as nat,
                            names.len(),
                            names,
                            source,
                            type_id,
                            file_path@,
                            evidence,
                            seen,
                            at@,
                        );
                    }
                    return Err(e);
                },
            }
            i += 1;
        }
        Ok(())
    }

    /// Records what a file's frontmatter states: the file's own entity, of the
    /// kind and the name that its fields state, and a relation to each target
    /// of each field that means a relation. An entity that was a placeholder
    /// so far is retyped in place, so that the relations to it hold.
    pub fn ingest_fields(
        &mut self,
        file_path: &str,
        rules: &Vec<FieldRule>,
        fields: &Vec<Field>,
        evidence_chunk_id: Uuid,
        ids: &mut IdSource,
        at: &str,
    ) -> (r: Result<FrontmatterIngestOutcome, OntologyError>)
        ensures
            final(ids).follows(*old(ids)),
            final(ids).drawn_since(*old(ids)).len() >= 2,
            r is Ok ==> final(ids).drew(
                *old(ids),
                2 + ids_before(views(rules@), views(fields@), 8),
            ),
            (final(self)@, result_view(r)) == old(self)@.ingesting(
                file_path@,
                views(rules@),
                views(fields@),
                evidence_chunk_id,
                final(ids).drawn_since(*old(ids)),
                at@,
            ),
    {
        let ghost first_ids = *ids;
        let fresh_type: Uuid = ids.draw();
        let ghost between = *ids;
        let fresh: Uuid = ids.draw();
        proof {
            lemma_comes_after(first_ids, between, *ids);
            lemma_follows_after(first_ids, *ids);
        }
        let name: String = first_text(
            texts_of_concept(rules, fields, "id"),
            derive_name_from_path(file_path),
        );
        let kind: String = first_text(texts_of_concept(rules, fields, "kind"), "spec-item".to_owned());
        let mut description: String = "frontmatter kind '".to_owned();
        description.append(kind.as_str());
        description.append("'");
        let entity_type: EntityTypeRecord = match self.types.find_or_create_entity_type_as(
            &self.instances,
            kind.as_str(),
            description.as_str(),
            fresh_type,
            at,
        ) {
            Ok(t) => t,
            Err(e) => {
                return Err(e);
            },
        };
        let entity: EntityRecord = match self.own_entity(
            name.as_str(),
            entity_type.id,
            file_path,
            fresh,
            at,
        ) {
            Ok(e) => e,
            Err(e) => {
                return Err(e);
            },
        };
        let ghost owned = self@;
        let ghost source_ids = *ids;
        let ghost r = views(rules@);
        let ghost f = views(fields@);
        let mut made: Vec<Uuid> = Vec::new();
        let mut n: usize = 0;
        proof {
            lemma_follows_itself(*ids);
        }
        while n < 8
            invariant
                n <= 8,
                r == views(rules@),
                f == views(fields@),
                first_ids == *old(ids),
                first_ids.drawn().is_prefix_of(ids.drawn()),
                source_ids.grew(first_ids, 2),
                ids.comes_after(first_ids),
                source_ids.drawn()[first_ids.drawn().len() as int] == fresh_type,
                source_ids.drawn()[first_ids.drawn().len() + 1 as int] == fresh,
                ids.grew(source_ids, ids_before(r, f, n as nat)),
                owned.relating(
                    n as nat,
                    r,
                    f,
                    entity.id,
                    file_path@,
                    evidence_chunk_id,
                    ids.drawn_since(source_ids),
                    at@,
                ) == (self@, Ok::<nat, OntologyErrorView>(made@.len())),
                forall|more: Seq<Uuid>|
                    more.len() >= 2 && more[0] == fresh_type && more[1] == fresh
                        ==> #[trigger] old(self)@.ingesting(
                        file_path@,
                        r,
                        f,
                        evidence_chunk_id,
                        more,
                        at@,
                    ) == finish(
                        owned.relating(
                            8,
                            r,
                            f,
                            entity.id,
                            file_path@,
                            evidence_chunk_id,
                            more.skip(2),
                            at@,
                        ),
                        entity@,
                    ),
            decreases 8 - n,
        {
            let ghost before_ids = *ids;
            let ghost before = self@;
            let ghost count = made@.len();
            let ghost had = ids.drawn_since(source_ids);
            let ghost base = ids_before(r, f, n as nat) as int;
            let concept: &'static str = RELATION_CONCEPTS[n];
            let targets: Vec<String> = texts_of_concept(rules, fields, concept);
            let ghost names = concept_texts(r, f, concept@);
            if targets.len() > 0 {
                let fresh_relation: Uuid = ids.draw();
                let ghost link_ids = *ids;
                proof {
                    lemma_comes_after(first_ids, before_ids, link_ids);
                }
                let typed = self.concept_type(concept, fresh_relation, at);
                let relation_type: RelationTypeRecord = match typed {
                    Ok(t) => t,
                    Err(e) => {
                        proof {
                            let seen = ids.drawn_since(source_ids);
                            lemma_follows_after(first_ids, *ids);
                            lemma_more_ids(source_ids, before_ids, *ids, first_ids);
                            lemma_relating_ids(
                                owned,
                                n as nat,
                                r,
                                f,
                                entity.id,
                                file_path@,
                                evidence_chunk_id,
                                had,
                                seen,
                                at@,
                            );
                            assert(seen[base] == fresh_relation);
                            lemma_relating_stops(
                                owned,
                                (n + 1) as nat,
                                8,
                                r,
                                f,
                                entity.id,
                                file_path@,
                                evidence_chunk_id,
                                seen,
                                at@,
                            );
                        }
                        return Err(e);
                    },
                };
                let linked = self.link(
                    &targets,
                    entity.id,
                    relation_type.id,
                    file_path,
                    evidence_chunk_id,
                    &mut made,
                    ids,
                    at,
                );
                proof {
                    let seen = ids.drawn_since(source_ids);
                    lemma_comes_after(first_ids, link_ids, *ids);
                    lemma_more_ids(source_ids, before_ids, *ids, first_ids);
                    lemma_relating_ids(
                        owned,
                        n as nat,
                        r,
                        f,
                        entity.id,
                        file_path@,
                        evidence_chunk_id,
                        had,
                        seen,
                        at@,
                    );
                    assert(seen[base] == ids.drawn()[before_ids.drawn().len() as int]);
                    assert(seen[base] == link_ids.drawn()[before_ids.drawn().len() as int]);
                    assert(seen[base] == fresh_relation);
                    assert(seen.skip(base + 1) =~= ids.drawn_since(link_ids));
                    if linked is Err {
                        lemma_relating_stops(
                            owned,
                            (n + 1) as nat,
                            8,
                            r,
                            f,
                            entity.id,
                            file_path@,
                            evidence_chunk_id,
                            seen,
                            at@,
                        );
                    }
                }
                match linked {
                    Ok(_) => {},
                    Err(e) => {
                        proof {
                            lemma_follows_after(first_ids, *ids);
                        }
                        return Err(e);
                    },
                }
            }
            n += 1;
        }
        proof {
            let all = ids.drawn_since(first_ids);
            lemma_follows_after(first_ids, *ids);
            assert(all.skip(2) =~= ids.drawn_since(source_ids));
            assert(all[0] == fresh_type && all[1] == fresh);
        }
        Ok(FrontmatterIngestOutcome { entity, relations_created: made.len() })
    }

    /// Records what a file's frontmatter states, in the light of what was
    /// learned of its keys; `None` where the file has no frontmatter.
    pub fn process_frontmatter(
        &mut self,
        file_path: &str,
        content: &str,
        evidence_chunk_id: Uuid,
        profile: &FrontmatterProfile,
        ids: &mut IdSource,
        at: &str,
    ) -> (r: Result<Option<FrontmatterIngestOutcome>, OntologyError>)
        ensures
            final(ids).follows(*old(ids)),
            match frontmatter_fields(content@) {
                None => final(self)@ == old(self)@ && *final(ids) == *old(ids) && r is Ok && r->Ok_0 is None,
                Some(fields) => {
                    let expected = old(self)@.ingesting(
                        file_path@,
                        profile@.field_mapping,
                        fields,
                        evidence_chunk_id,
                        final(ids).drawn_since(*old(ids)),
                        at@,
                    );
                    &&& final(self)@ == expected.0
                    &&& final(ids).drawn_since(*old(ids)).len() >= 2
                    &&& r is Ok ==> final(ids).drew(
                        *old(ids),
                        2 + ids_before(profile@.field_mapping, fields, 8),
                    )
                    &&& match r {
                        Ok(o) => o is Some && expected.1 == Ok::<IngestView, OntologyErrorView>(
                            o->0@,
                        ),
                        Err(e) => expected.1 == Err::<IngestView, OntologyErrorView>(e@),
                    }
                },
            },
    {
        proof {
            lemma_follows_itself(*ids);
        }
        match parse_frontmatter_values(content) {
            None => Ok(None),
            Some(fields) => match self.ingest_fields(
                file_path,
                &profile.field_mapping,
                &fields,
                evidence_chunk_id,
                ids,
                at,
            ) {
                Ok(outcome) => Ok(Some(outcome)),
                Err(e) => Err(e),
            },
        }
    }
}

/// What comes of the relations of a file's own entity.
spec fn finish(related: (EngineView, Result<nat, OntologyErrorView>), entity: EntityView) -> (
    EngineView,
    Result<IngestView, OntologyErrorView>,
) {
    match related.1 {
        Err(e) => (related.0, Err(e)),
        Ok(relations_created) => (related.0, Ok(IngestView { entity, relations_created })),
    }
}

/// Drawing more identifiers adds to those that were drawn.
proof fn lemma_more_ids(source: IdSource, before: IdSource, after: IdSource, first: IdSource)
    requires
        first.drawn().is_prefix_of(source.drawn()),
        source.drawn().is_prefix_of(before.drawn()),
        before.drawn().is_prefix_of(after.drawn()),
    ensures
        source.drawn().is_prefix_of(after.drawn()),
        before.drawn_since(source).is_prefix_of(after.drawn_since(source)),
        after.drawn_since(source) == after.drawn_since(first).skip(
            (source.drawn().len() - first.drawn().len()) as int,
        ),
        forall|i: int|
            0 <= i < source.drawn().len() - first.drawn().len() ==> #[trigger] after.drawn_since(first)[i]
                == source.drawn()[first.drawn().len() + i],
{
    assert(after.drawn_since(source) =~= after.drawn_since(first).skip(
        (source.drawn().len() - first.drawn().len()) as int,
    ));
    assert(before.drawn_since(source).is_prefix_of(after.drawn_since(source))) by {
        let a = before.drawn_since(source);
        let b = after.drawn_since(source);
        assert forall|i: int| 0 <= i < a.len() implies a[i] == #[trigger] b[i] by {
            assert(before.drawn()[source.drawn().len() + i] == after.drawn()[source.drawn().len() + i]);
        }
    }
    assert forall|i: int| 0 <= i < source.drawn().len() - first.drawn().len() implies
        #[trigger] after.drawn_since(first)[i] == source.drawn()[first.drawn().len() + i] by {
        let k = first.drawn().len() + i;
        assert(source.drawn()[k] == before.drawn()[k]);
        assert(before.drawn()[k] == after.drawn()[k]);
    }
}

} // verus!
