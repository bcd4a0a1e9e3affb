//! The ontology engine: decides what becomes of a candidate entity, and when a
//! relation type becomes canonical.

use vstd::prelude::*;
use crate::graph::{GraphView, InstanceGraph};
use crate::ids::Uuid;
use crate::metrics::FallbackMetrics;
use crate::model::{
    CandidateEntity, CandidateView, EntityType, EntityTypeHintView, JudgeDecision,
};
use crate::profiles::{ProfileRowView, ProfileStore};
use crate::records::{
    EntityRecord, EntityTypeRecord, EntityTypeView, EntityView, OntologyError, OntologyErrorView,
    RelationTypeRecord, RelationTypeStatus, RelationTypeView,
};
use crate::registry::{relation_type_record, RegistryView, TypeRegistry, PROMOTION_THRESHOLD};
use crate::scores::Score;
use crate::supply::{lemma_follows, IdSource};
use crate::views::{opt_ref_view, result_view, views};

verus! {

/// The distances between which a candidate is ambiguous.
#[derive(Clone, Copy, Debug, PartialEq, Eq, Structural)]
pub struct AmbiguousZoneConfig {
    pub low_distance_max: Score,
    pub high_distance_min: Score,
}

/// From 0.15 to 0.35.
pub open spec fn default_zone() -> AmbiguousZoneConfig {
    AmbiguousZoneConfig {
        low_distance_max: Score { bits: 0x3e19_999a },
        high_distance_min: Score { bits: 0x3eb3_3333 },
    }
}

impl Default for AmbiguousZoneConfig {
    fn default() -> (r: Self)
        ensures
            r == default_zone(),
    {
        AmbiguousZoneConfig {
            low_distance_max: Score { bits: 0x3e19_999a },
            high_distance_min: Score { bits: 0x3eb3_3333 },
        }
    }
}

/// Where a distance lies.
#[derive(Clone, Copy, Debug, PartialEq, Eq, Structural)]
pub enum Zone {
    /// Near enough to be of the nearest type.
    Low,
    /// Neither near nor far, or not a number.
    Ambiguous,
    /// Far enough to be of a new type.
    High,
}

impl AmbiguousZoneConfig {
    /// Where a distance lies.
    pub open spec fn zone_of(self, distance: Score) -> Zone {
        if distance.le(self.low_distance_max) {
            Zone::Low
        } else if self.high_distance_min.le(distance) {
            Zone::High
        } else {
            Zone::Ambiguous
        }
    }

    /// Where a distance lies.
    pub fn classify(&self, distance: Score) -> (r: Zone)
        ensures
            r == self.zone_of(distance),
    {
        if distance.at_most(self.low_distance_max) {
            Zone::Low
        } else if self.high_distance_min.at_most(distance) {
            Zone::High
        } else {
            Zone::Ambiguous
        }
    }
}

/// What became of a candidate.
#[derive(Debug)]
pub enum ClassificationOutcome {
    Merged { judge_called: bool, entity: EntityRecord },
    NewType { judge_called: bool, entity: EntityRecord, entity_type: EntityTypeRecord },
    Rejected { reason: String },
}

/// What a [`ClassificationOutcome`] holds.
pub enum OutcomeView {
    Merged { judge_called: bool, entity: EntityView },
    NewType { judge_called: bool, entity: EntityView, entity_type: EntityTypeView },
    Rejected { reason: Seq<char> },
}

impl View for ClassificationOutcome {
    type V = OutcomeView;

    open spec fn view(&self) -> OutcomeView {
        match *self {
            ClassificationOutcome::Merged { judge_called, entity } => OutcomeView::Merged {
                judge_called,
                entity: entity@,
            },
            ClassificationOutcome::NewType { judge_called, entity, entity_type } => OutcomeView::NewType {
                judge_called,
                entity: entity@,
                entity_type: entity_type@,
            },
            ClassificationOutcome::Rejected { reason } => OutcomeView::Rejected { reason: reason@ },
        }
    }
}

/// What is to be done about a candidate.
#[derive(Debug)]
pub enum CandidateStep {
    /// Nothing more.
    Done(Result<ClassificationOutcome, OntologyError>),
    /// A judge has to be asked, who is told these types.
    Judge(Vec<EntityType>),
}

/// What a [`CandidateStep`] holds.
pub enum CandidateStepView {
    Done(Result<OutcomeView, OntologyErrorView>),
    Judge(Seq<EntityTypeHintView>),
}

impl View for CandidateStep {
    type V = CandidateStepView;

    open spec fn view(&self) -> CandidateStepView {
        match *self {
            CandidateStep::Done(r) => CandidateStepView::Done(result_view(r)),
            CandidateStep::Judge(types) => CandidateStepView::Judge(views(types@)),
        }
    }
}

/// The ontology of a project.
#[derive(Debug)]
pub struct OntologyEngine {
    pub types: TypeRegistry,
    pub instances: InstanceGraph,
    pub frontmatter_profiles: ProfileStore,
    pub zone: AmbiguousZoneConfig,
    pub metrics: FallbackMetrics,
}

/// What an [`OntologyEngine`] holds.
#[verifier::ext_equal]
pub struct EngineView {
    pub types: RegistryView,
    pub instances: GraphView,
    pub profiles: Seq<ProfileRowView>,
    pub zone: AmbiguousZoneConfig,
    pub metrics: FallbackMetrics,
}

impl View for OntologyEngine {
    type V = EngineView;

    open spec fn view(&self) -> EngineView {
        EngineView {
            types: self.types@,
            instances: self.instances@,
            profiles: self.frontmatter_profiles@,
            zone: self.zone,
            metrics: self.metrics,
        }
    }
}

/// The name of the type that a candidate would found: its hint, or else its
/// own name.
pub open spec fn founded_type(candidate: CandidateView) -> Seq<char> {
    match candidate.raw_type_hint {
        Some(hint) => hint,
        None => candidate.raw_name,
    }
}

/// The description of the type that a candidate founds.
pub open spec fn founded_description(candidate: CandidateView) -> Seq<char> {
    "type inferred from '"@ + candidate.raw_name + "'"@
}

/// Why a candidate that the judge refused is refused.
pub open spec fn judge_refusal(candidate: CandidateView) -> Seq<char> {
    "judge() rejected candidate '"@ + candidate.raw_name + "'"@
}

impl EngineView {
    /// The candidate joins a type.
    pub open spec fn merging(
        self,
        judge_called: bool,
        type_id: Uuid,
        candidate: CandidateView,
        file: Seq<char>,
        fresh: Uuid,
        at: Seq<char>,
    ) -> (EngineView, Result<OutcomeView, OntologyErrorView>) {
        let (instances, r) = self.instances.with_entity(type_id, candidate.raw_name, file, fresh, at);
        match r {
            Ok(entity) => (
                EngineView { instances, metrics: self.metrics.recorded(judge_called), ..self },
                Ok(OutcomeView::Merged { judge_called, entity }),
            ),
            Err(e) => (EngineView { instances, ..self }, Err(e)),
        }
    }

    /// The candidate founds a type, or joins the one of the name it would
    /// found.
    pub open spec fn founding(
        self,
        candidate: CandidateView,
        file: Seq<char>,
        fresh_type: Uuid,
        fresh: Uuid,
        at: Seq<char>,
    ) -> (EngineView, Result<(EntityView, EntityTypeView), OntologyErrorView>) {
        let (types, t) = self.types.with_entity_type(
            self.instances,
            founded_type(candidate),
            founded_description(candidate),
            fresh_type,
            at,
        );
        match t {
            Ok(entity_type) => {
                let (instances, r) = self.instances.with_entity(
                    entity_type.id,
                    candidate.raw_name,
                    file,
                    fresh,
                    at,
                );
                match r {
                    Ok(entity) => (EngineView { types, instances, ..self }, Ok((entity, entity_type))),
                    Err(e) => (EngineView { types, instances, ..self }, Err(e)),
                }
            },
            Err(e) => (EngineView { types, ..self }, Err(e)),
        }
    }

    /// What becomes of a candidate at some distance from the nearest type. The
    /// judge is asked in the ambiguous zone, and nowhere else.
    pub open spec fn classified(
        self,
        candidate: CandidateView,
        distance: Score,
        nearest: Option<EntityTypeView>,
        file: Seq<char>,
        fresh_type: Uuid,
        fresh: Uuid,
        at: Seq<char>,
    ) -> (EngineView, CandidateStepView) {
        match self.zone.zone_of(distance) {
            Zone::Low => match nearest {
                Some(t) => {
                    let (after, r) = self.merging(false, t.id, candidate, file, fresh, at);
                    (after, CandidateStepView::Done(r))
                },
                None => (
                    self,
                    CandidateStepView::Done(
                        Err(
                            OntologyErrorView::RelationTypeNotFound(
                                "low distance reported without a nearest type"@,
                            ),
                        ),
                    ),
                ),
            },
            Zone::High => {
                let (after, r) = self.founding(candidate, file, fresh_type, fresh, at);
                (
                    EngineView { metrics: self.metrics.recorded(false), ..after },
                    CandidateStepView::Done(
                        match r {
                            Ok((entity, entity_type)) => Ok(
                                OutcomeView::NewType { judge_called: false, entity, entity_type },
                            ),
                            Err(e) => Err(e),
                        },
                    ),
                )
            },
            Zone::Ambiguous => (
                self,
                CandidateStepView::Judge(
                    match nearest {
                        Some(t) => seq![EntityTypeHintView { name: t.name, description: t.description }],
                        None => Seq::empty(),
                    },
                ),
            ),
        }
    }

    /// What becomes of a candidate that was judged.
    pub open spec fn judged(
        self,
        candidate: CandidateView,
        decision: JudgeDecision,
        nearest: Option<EntityTypeView>,
        file: Seq<char>,
        fresh_type: Uuid,
        fresh: Uuid,
        at: Seq<char>,
    ) -> (EngineView, Result<OutcomeView, OntologyErrorView>) {
        match decision {
            JudgeDecision::Merge => match nearest {
                Some(t) => self.merging(true, t.id, candidate, file, fresh, at),
                None => (self, Err(OntologyErrorView::JudgeUndecided)),
            },
            JudgeDecision::NewType => {
                let (after, r) = self.founding(candidate, file, fresh_type, fresh, at);
                match r {
                    Ok((entity, entity_type)) => (
                        EngineView { metrics: self.metrics.recorded(true), ..after },
                        Ok(OutcomeView::NewType { judge_called: true, entity, entity_type }),
                    ),
                    Err(e) => (after, Err(e)),
                }
            },
            JudgeDecision::Reject => (
                EngineView { metrics: self.metrics.recorded(true), ..self },
                Ok(OutcomeView::Rejected { reason: judge_refusal(candidate) }),
            ),
        }
    }

    /// A relation type was seen in a file: it becomes a candidate at the first
    /// sight, and canonical with the third file.
    pub open spec fn promoting(
        self,
        name: Seq<char>,
        description: Seq<char>,
        file: Seq<char>,
        fresh: Uuid,
        at: Seq<char>,
    ) -> (EngineView, Result<RelationTypeView, OntologyErrorView>) {
        let (types, r) = self.types.with_candidate(self.instances, name, description, fresh, at);
        match r {
            Err(e) => (EngineView { types, ..self }, Err(e)),
            Ok(record) => if record.status == RelationTypeStatus::Canonical {
                (EngineView { types, ..self }, Ok(record))
            } else {
                let hit = types.with_hit(record.id, file);
                if hit.hit_count(record.id) % 0x1_0000_0000 >= PROMOTION_THRESHOLD {
                    let promoted = hit.promoted(record.id);
                    (
                        EngineView { types: promoted, ..self },
                        match promoted.relation_type(name) {
                            Some(row) => Ok(relation_type_record(row, self.instances)),
                            None => Err(OntologyErrorView::RelationTypeNotFound(name)),
                        },
                    )
                } else {
                    (EngineView { types: hit, ..self }, Ok(record))
                }
            },
        }
    }
}

/// The text that a candidate's distance is measured with: its type hint, or
/// else its name.
pub fn probe_text(candidate: &CandidateEntity) -> (r: String)
    ensures
        r@ == founded_type(candidate@),
{
    match &candidate.raw_type_hint {
        Some(hint) => hint.clone(),
        None => candidate.raw_name.clone(),
    }
}

impl OntologyEngine {
    /// An engine over the types, entities and profiles of a project.
    pub fn new(
        types: TypeRegistry,
        instances: InstanceGraph,
        frontmatter_profiles: ProfileStore,
        zone: AmbiguousZoneConfig,
    ) -> (r: Self)
        ensures
            r@.types == types@,
            r@.instances == instances@,
            r@.profiles == frontmatter_profiles@,
            r@.zone == zone,
            r@.metrics.total == 0,
            r@.metrics.fallback == 0,
    {
        OntologyEngine { types, instances, frontmatter_profiles, zone, metrics: FallbackMetrics::new() }
    }

    fn merge(
        &mut self,
        judge_called: bool,
        type_id: Uuid,
        candidate: &CandidateEntity,
        file_path: &str,
        fresh: Uuid,
        at: &str,
    ) -> (r: Result<ClassificationOutcome, OntologyError>)
        ensures
            (final(self)@, result_view(r)) == old(self)@.merging(
                judge_called,
                type_id,
                candidate@,
                file_path@,
                fresh,
                at@,
            ),
    {
        match self.instances.find_or_create_entity_as(
            type_id,
            candidate.raw_name.as_str(),
            file_path,
            fresh,
            at,
        ) {
            Ok(entity) => {
                self.metrics.record(judge_called);
                Ok(ClassificationOutcome::Merged { judge_called, entity })
            },
            Err(e) => Err(e),
        }
    }

    fn create_new_type(
        &mut self,
        candidate: &CandidateEntity,
        file_path: &str,
        fresh_type: Uuid,
        fresh: Uuid,
        at: &str,
    ) -> (r: Result<(EntityRecord, EntityTypeRecord), OntologyError>)
        ensures
            final(self)@ == old(self)@.founding(candidate@, file_path@, fresh_type, fresh, at@).0,
            (match r {
                Ok((entity, entity_type)) => Ok::<(EntityView, EntityTypeView), OntologyErrorView>(
                    (entity@, entity_type@),
                ),
                Err(e) => Err(e@),
            }) == old(self)@.founding(candidate@, file_path@, fresh_type, fresh, at@).1,
    {
        let name: String = probe_text(candidate);
        let mut description: String = "type inferred from '".to_owned();
        description.append(candidate.raw_name.as_str());
        description.append("'");
        let entity_type: EntityTypeRecord = match self.types.find_or_create_entity_type_as(
            &self.instances,
            name.as_str(),
            description.as_str(),
            fresh_type,
            at,
        ) {
            Ok(t) => t,
            Err(e) => {
                return Err(e);
            },
        };
        match self.instances.find_or_create_entity_as(
            entity_type.id,
            candidate.raw_name.as_str(),
            file_path,
            fresh,
            at,
        ) {
            Ok(entity) => Ok((entity, entity_type)),
            Err(e) => Err(e),
        }
    }

    /// Decides what becomes of a candidate: near the nearest type it joins it,
    /// far from every type it founds one, and in between a judge has to be
    /// asked. Draws two identifiers.
    pub fn process_candidate(
        &mut self,
        candidate: &CandidateEntity,
        distance_to_nearest: Score,
        nearest_type: Option<&EntityTypeRecord>,
        file_path: &str,
        ids: &mut IdSource,
        at: &str,
    ) -> (r: CandidateStep)
        ensures
            final(ids).drew(*old(ids), 2),
            (final(self)@, r@) == old(self)@.classified(
                candidate@,
                distance_to_nearest,
                opt_ref_view(nearest_type),
                file_path@,
                final(ids).drawn_since(*old(ids))[0],
                final(ids).drawn_since(*old(ids))[1],
                at@,
            ),
    {
        let fresh_type: Uuid = ids.draw();
        let ghost between = *ids;
        let fresh: Uuid = ids.draw();
        proof {
            lemma_follows(*old(ids), between, *ids);
        }
        match self.zone.classify(distance_to_nearest) {
            Zone::Low => match nearest_type {
                Some(nearest) => CandidateStep::Done(
                    self.merge(false, nearest.id, candidate, file_path, fresh, at),
                ),
                None => CandidateStep::Done(
                    Err(
                        OntologyError::RelationTypeNotFound(
                            "low distance reported without a nearest type".to_owned(),
                        ),
                    ),
                ),
            },
            Zone::High => {
                let outcome = self.create_new_type(candidate, file_path, fresh_type, fresh, at);
                self.metrics.record(false);
                CandidateStep::Done(
                    match outcome {
                        Ok((entity, entity_type)) => Ok(
                            ClassificationOutcome::NewType { judge_called: false, entity, entity_type },
                        ),
                        Err(e) => Err(e),
                    },
                )
            },
            Zone::Ambiguous => {
                let mut hint: Vec<EntityType> = Vec::new();
                match nearest_type {
                    Some(t) => {
                        let known = EntityType {
                            name: t.name.clone(),
                            description: t.description.clone(),
                        };
                        let ghost v = known@;
                        hint.push(known);
                        proof {
                            assert(views(hint@) =~= seq![v]);
                        }
                    },
                    None => {
                        proof {
                            assert(views(hint@) =~= Seq::<EntityTypeHintView>::empty());
                        }
                    },
                }
                CandidateStep::Judge(hint)
            },
        }
    }

    /// Decides what becomes of a candidate that was judged. Draws two
    /// identifiers.
    pub fn apply_judgement(
        &mut self,
        candidate: &CandidateEntity,
        decision: JudgeDecision,
        nearest_type: Option<&EntityTypeRecord>,
        file_path: &str,
        ids: &mut IdSource,
        at: &str,
    ) -> (r: Result<ClassificationOutcome, OntologyError>)
        ensures
            final(ids).drew(*old(ids), 2),
            (final(self)@, result_view(r)) == old(self)@.judged(
                candidate@,
                decision,
                opt_ref_view(nearest_type),
                file_path@,
                final(ids).drawn_since(*old(ids))[0],
                final(ids).drawn_since(*old(ids))[1],
                at@,
            ),
    {
        let fresh_type: Uuid = ids.draw();
        let ghost between = *ids;
        let fresh: Uuid = ids.draw();
        proof {
            lemma_follows(*old(ids), between, *ids);
        }
        match decision {
            JudgeDecision::Merge => match nearest_type {
                Some(nearest) => self.merge(true, nearest.id, candidate, file_path, fresh, at),
                None => Err(OntologyError::JudgeUndecided),
            },
            JudgeDecision::NewType => match self.create_new_type(
                candidate,
                file_path,
                fresh_type,
                fresh,
                at,
            ) {
                Ok((entity, entity_type)) => {
                    self.metrics.record(true);
                    Ok(ClassificationOutcome::NewType { judge_called: true, entity, entity_type })
                },
                Err(e) => Err(e),
            },
            JudgeDecision::Reject => {
                let mut reason: String = "judge() rejected candidate '".to_owned();
                reason.append(candidate.raw_name.as_str());
                reason.append("'");
                self.metrics.record(true);
                Ok(ClassificationOutcome::Rejected { reason })
            },
        }
    }

    /// Records that a relation type was seen in a file, and makes it canonical
    /// once it was seen in enough files. Draws one identifier.
    pub fn evaluate_promotion(
        &mut self,
        relation_type_name: &str,
        description: &str,
        file_path: &str,
        ids: &mut IdSource,
        at: &str,
    ) -> (r: Result<RelationTypeRecord, OntologyError>)
        ensures
            final(ids).drew(*old(ids), 1),
            (final(self)@, result_view(r)) == old(self)@.promoting(
                relation_type_name@,
                description@,
                file_path@,
                final(ids).drawn_since(*old(ids))[0],
                at@,
            ),
    {
        let fresh: Uuid = ids.draw();
        let record: RelationTypeRecord = match self.types.register_candidate_type_as(
            &self.instances,
            relation_type_name,
            description,
            fresh,
            at,
        ) {
            Ok(record) => record,
            Err(e) => {
                return Err(e);
            },
        };
        if record.status == RelationTypeStatus::Canonical {
            return Ok(record);
        }
        let hits: u32 = self.types.record_independent_hit(record.id, file_path);
        if hits >= PROMOTION_THRESHOLD {
            self.types.promote_to_canonical(record.id);
            return match self.types.find_relation_type(&self.instances, relation_type_name) {
                Some(promoted) => Ok(promoted),
                None => Err(OntologyError::RelationTypeNotFound(relation_type_name.to_owned())),
            };
        }
        Ok(record)
    }
}

} // verus!
