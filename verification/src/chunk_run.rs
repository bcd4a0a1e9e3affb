//! Prose ingestion: the candidates that a model extracted from a chunk are
//! taken one by one, and each is refused, classified, or measured and judged
//! first.

use vstd::prelude::*;
use crate::engine::{
    default_zone, founded_type, probe_text, CandidateStep, CandidateStepView, ClassificationOutcome,
    EngineView, OntologyEngine, OutcomeView,
};
use crate::ids::Uuid;
use crate::model::{
    CandidateEntity, CandidateView, EntityType, JudgeDecision, RelationVocabulary,
};
use crate::records::{
    EntityTypeRecord, EntityTypeView, OntologyError, RelationTypeRecord, RelationTypeStatus,
    RelationTypeView,
};
use crate::scores::{nearest, nearest_of, one, Score};
use crate::supply::IdSource;
use crate::text::{eq_ignore_ascii_case, same_ignoring_ascii_case};
use crate::views::{lemma_filter_next, opt_view, views};

verus! {

/// The names of relation types.
pub open spec fn type_names(types: Seq<RelationTypeView>) -> Seq<Seq<char>> {
    types.map_values(|t: RelationTypeView| t.name)
}

/// The relation types that are canonical.
pub open spec fn canonical_only(types: Seq<RelationTypeView>) -> Seq<RelationTypeView> {
    types.filter(|t: RelationTypeView| t.status == RelationTypeStatus::Canonical)
}

impl OntologyEngine {
    /// The vocabulary that a model is told when it extracts candidates: the
    /// relation types that are canonical, from the start or by promotion.
    pub fn vocabulary(&self) -> (r: RelationVocabulary)
        ensures
            views(r.canonical_types@) == type_names(
                canonical_only(self@.types.relation_type_list(self@.instances)),
            ),
    {
        let types: Vec<RelationTypeRecord> = self.types.list_relation_types(&self.instances);
        let ghost all = views(types@);
        let ghost p = |t: RelationTypeView| t.status == RelationTypeStatus::Canonical;
        let mut canonical_types: Vec<String> = Vec::new();
        let mut i: usize = 0;
        proof {
            assert(all.take(0).filter(p) =~= Seq::<RelationTypeView>::empty());
            assert(views(canonical_types@) =~= type_names(all.take(0).filter(p)));
        }
        while i < types.len()
            invariant
                i <= types@.len(),
                all == views(types@),
                p == (|t: RelationTypeView| t.status == RelationTypeStatus::Canonical),
                views(canonical_types@) == type_names(all.take(i as int).filter(p)),
            decreases types@.len() - i,
        {
            proof {
                lemma_filter_next(all, p, i as int);
                assert(all[i as int] == types@[i as int]@);
            }
            if types[i].status == RelationTypeStatus::Canonical {
                let name: String = types[i].name.clone();
                let ghost before = canonical_types@;
                let ghost v = name@;
                canonical_types.push(name);
                proof {
                    assert(views(canonical_types@) =~= views(before).push(v));
                    assert(type_names(all.take(i + 1).filter(p)) =~= type_names(
                        all.take(i as int).filter(p),
                    ).push(v));
                }
            }
            i += 1;
        }
        proof {
            assert(all.take(all.len() as int) =~= all);
        }
        RelationVocabulary { canonical_types }
    }

    /// The names that no entity may have: those of all relation types, whether
    /// canonical or not.
    pub fn reserved_names(&self) -> (r: Vec<String>)
        ensures
            views(r@) == type_names(self@.types.relation_type_list(self@.instances)),
    {
        let types: Vec<RelationTypeRecord> = self.types.list_relation_types(&self.instances);
        let ghost names = type_names(views(types@));
        let mut r: Vec<String> = Vec::new();
        let mut i: usize = 0;
        while i < types.len()
            invariant
                i <= types@.len(),
                names == type_names(views(types@)),
                views(r@) =~= names.take(i as int),
            decreases types@.len() - i,
        {
            let name: String = types[i].name.clone();
            let ghost before = r@;
            let ghost v = name@;
            r.push(name);
            proof {
                assert(views(r@) =~= views(before).push(v));
                assert(names[i as int] == types@[i as int]@.name);
            }
            i += 1;
        }
        proof {
            assert(names.take(i as int) =~= names);
        }
        r
    }
}

/// A name is one of the reserved ones, but for the case of ASCII letters.
pub open spec fn is_reserved(reserved: Seq<Seq<char>>, name: Seq<char>) -> bool {
    exists|i: int| 0 <= i < reserved.len() && same_ignoring_ascii_case(#[trigger] reserved[i], name)
}

/// Why a candidate with a reserved name is refused.
pub open spec fn reserved_refusal(name: Seq<char>) -> Seq<char> {
    "candidate '"@ + name
        + "' collides with a reserved relation-type name — likely the model extracted the field name itself rather than a domain entity"@
}

/// The candidates of a chunk, those of them that were dealt with, and what
/// became of those.
#[derive(Debug)]
pub struct ChunkRun {
    pub reserved: Vec<String>,
    pub candidates: Vec<CandidateEntity>,
    pub next: usize,
    pub outcomes: Vec<ClassificationOutcome>,
}

/// What a [`ChunkRun`] holds.
#[verifier::ext_equal]
pub struct ChunkRunView {
    pub reserved: Seq<Seq<char>>,
    pub candidates: Seq<CandidateView>,
    pub next: nat,
    pub outcomes: Seq<OutcomeView>,
}

impl View for ChunkRun {
    type V = ChunkRunView;

    open spec fn view(&self) -> ChunkRunView {
        ChunkRunView {
            reserved: views(self.reserved@),
            candidates: views(self.candidates@),
            next: self.next as nat,
            outcomes: views(self.outcomes@),
        }
    }
}

impl ChunkRunView {
    /// As many outcomes as candidates that were dealt with.
    pub open spec fn valid(self) -> bool {
        self.next <= self.candidates.len() && self.outcomes.len() == self.next
    }

    /// The run after the next candidate was dealt with.
    pub open spec fn with_outcome(self, outcome: OutcomeView) -> ChunkRunView {
        ChunkRunView { next: self.next + 1, outcomes: self.outcomes.push(outcome), ..self }
    }

    /// What is to be done about the next candidate.
    pub open spec fn step(self, types: Seq<EntityTypeView>) -> ChunkStepView {
        if self.next >= self.candidates.len() {
            ChunkStepView::Finished
        } else {
            let candidate = self.candidates[self.next as int];
            if is_reserved(self.reserved, candidate.raw_name) {
                ChunkStepView::Refuse(reserved_refusal(candidate.raw_name))
            } else if types.len() == 0 {
                ChunkStepView::Unmeasured
            } else {
                ChunkStepView::Measure { probe: founded_type(candidate), types }
            }
        }
    }
}

/// What is to be done about the next candidate of a chunk.
#[derive(Debug)]
pub enum ChunkStep {
    /// There is none.
    Finished,
    /// It has a reserved name.
    Refuse(String),
    /// There is no type to measure its distance to.
    Unmeasured,
    /// The distance of the probe text to each type's description is needed.
    Measure { probe: String, types: Vec<EntityTypeRecord> },
}

/// What a [`ChunkStep`] holds.
pub enum ChunkStepView {
    Finished,
    Refuse(Seq<char>),
    Unmeasured,
    Measure { probe: Seq<char>, types: Seq<EntityTypeView> },
}

impl View for ChunkStep {
    type V = ChunkStepView;

    open spec fn view(&self) -> ChunkStepView {
        match *self {
            ChunkStep::Finished => ChunkStepView::Finished,
            ChunkStep::Refuse(reason) => ChunkStepView::Refuse(reason@),
            ChunkStep::Unmeasured => ChunkStepView::Unmeasured,
            ChunkStep::Measure { probe, types } => ChunkStepView::Measure {
                probe: probe@,
                types: views(types@),
            },
        }
    }
}

/// The nearest of the types, and how far it is; one, the largest distance,
/// where there is no type.
pub open spec fn nearest_type_of(types: Seq<EntityTypeView>, distances: Seq<Score>) -> (
    Score,
    Option<EntityTypeView>,
) {
    if types.len() == 0 {
        (one(), None)
    } else {
        let i = nearest_of(distances, distances.len());
        (distances[i], Some(types[i]))
    }
}

/// The nearest of the types, and how far it is.
pub fn nearest_entity_type(types: &Vec<EntityTypeRecord>, distances: &Vec<Score>) -> (r: (
    Score,
    Option<EntityTypeRecord>,
))
    requires
        types@.len() == distances@.len(),
    ensures
        r.0 == nearest_type_of(views(types@), distances@).0,
        opt_view(r.1) == nearest_type_of(views(types@), distances@).1,
{
    match nearest(distances) {
        Some(i) => (distances[i], Some(types[i].clone())),
        None => (Score { bits: 0x3f80_0000 }, None),
    }
}

impl ChunkRun {
    /// A run over the candidates of a chunk, none of which may have a reserved
    /// name.
    pub fn new(reserved: Vec<String>, candidates: Vec<CandidateEntity>) -> (r: Self)
        ensures
            r@.reserved == views(reserved@),
            r@.candidates == views(candidates@),
            r@.next == 0,
            r@.outcomes.len() == 0,
            r@.valid(),
    {
        ChunkRun { reserved, candidates, next: 0, outcomes: Vec::new() }
    }

    fn name_is_reserved(&self, name: &str) -> (r: bool)
        ensures
            r == is_reserved(self@.reserved, name@),
    {
        let mut i: usize = 0;
        while i < self.reserved.len()
            invariant
                i <= self.reserved@.len(),
                forall|j: int|
                    0 <= j < i ==> !same_ignoring_ascii_case(#[trigger] self@.reserved[j], name@),
            decreases self.reserved@.len() - i,
        {
            if eq_ignore_ascii_case(self.reserved[i].as_str(), name) {
                proof {
                    assert(same_ignoring_ascii_case(self@.reserved[i as int], name@));
                }
                return true;
            }
            i += 1;
        }
        false
    }

    /// What is to be done about the next candidate.
    pub fn step(&self, engine: &OntologyEngine) -> (r: ChunkStep)
        ensures
            r@ == self@.step(engine@.types.entity_type_list(engine@.instances)),
    {
        if self.next >= self.candidates.len() {
            return ChunkStep::Finished;
        }
        let candidate: &CandidateEntity = &self.candidates[self.next];
        proof {
            assert(self@.candidates[self.next as int] == candidate@);
        }
        if self.name_is_reserved(candidate.raw_name.as_str()) {
            let mut reason: String = "candidate '".to_owned();
            reason.append(candidate.raw_name.as_str());
            reason.append(
                "' collides with a reserved relation-type name — likely the model extracted the field name itself rather than a domain entity",
            );
            return ChunkStep::Refuse(reason);
        }
        let types: Vec<EntityTypeRecord> = engine.types.list_entity_types(&engine.instances);
        if types.len() == 0 {
            proof {
                assert(engine@.types.entity_type_list(engine@.instances).len() == 0);
            }
            return ChunkStep::Unmeasured;
        }
        ChunkStep::Measure { probe: probe_text(candidate), types }
    }

    /// Notes what became of the next candidate.
    pub fn note(&mut self, outcome: ClassificationOutcome)
        requires
            old(self)@.valid(),
            old(self)@.next < old(self)@.candidates.len(),
        ensures
            final(self)@ == old(self)@.with_outcome(outcome@),
            final(self)@.valid(),
    {
        let ghost before = self.outcomes@;
        let ghost v = outcome@;
        self.outcomes.push(outcome);
        proof {
            assert(views(self.outcomes@) =~= views(before).push(v));
            assert(self.candidates@.len() == self.candidates.len());
        }
        self.next = self.next + 1;
    }

    /// Refuses the next candidate.
    pub fn refuse(&mut self, reason: String)
        requires
            old(self)@.valid(),
            old(self)@.next < old(self)@.candidates.len(),
        ensures
            final(self)@ == old(self)@.with_outcome(OutcomeView::Rejected { reason: reason@ }),
            final(self)@.valid(),
    {
        self.note(ClassificationOutcome::Rejected { reason });
    }

    /// Classifies the next candidate, whose distances to the types were
    /// measured. Where a judge has to be asked, the candidate stays the next
    /// one, and the types that the judge is told are returned. Draws two
    /// identifiers.
    pub fn classify(
        &mut self,
        engine: &mut OntologyEngine,
        types: &Vec<EntityTypeRecord>,
        distances: &Vec<Score>,
        file_path: &str,
        ids: &mut IdSource,
        at: &str,
    ) -> (r: Result<Option<Vec<EntityType>>, OntologyError>)
        requires
            old(self)@.valid(),
            old(self)@.next < old(self)@.candidates.len(),
            types@.len() == distances@.len(),
        ensures
            final(ids).drew(*old(ids), 2),
            ({
                let near = nearest_type_of(views(types@), distances@);
                let (after, step) = old(engine)@.classified(
                    old(self)@.candidates[old(self)@.next as int],
                    near.0,
                    near.1,
                    file_path@,
                    final(ids).drawn_since(*old(ids))[0],
                    final(ids).drawn_since(*old(ids))[1],
                    at@,
                );
                &&& final(engine)@ == after
                &&& match step {
                    CandidateStepView::Judge(hint) => final(self)@ == old(self)@ && r is Ok
                        && r->Ok_0 is Some && views(r->Ok_0->0@) == hint,
                    CandidateStepView::Done(Ok(outcome)) => final(self)@ == old(self)@.with_outcome(
                        outcome,
                    ) && r is Ok && r->Ok_0 is None,
                    CandidateStepView::Done(Err(e)) => final(self)@ == old(self)@ && r is Err
                        && r->Err_0@ == e,
                }
            }),
            final(self)@.valid(),
    {
        let found: (Score, Option<EntityTypeRecord>) = nearest_entity_type(types, distances);
        let near: Option<&EntityTypeRecord> = match &found.1 {
            Some(t) => Some(t),
            None => None,
        };
        proof {
            assert(self@.candidates[self.next as int] == self.candidates@[self.next as int]@);
        }
        let step = engine.process_candidate(
            &self.candidates[self.next],
            found.0,
            near,
            file_path,
            ids,
            at,
        );
        match step {
            CandidateStep::Judge(hint) => Ok(Some(hint)),
            CandidateStep::Done(Ok(outcome)) => {
                self.note(outcome);
                Ok(None)
            },
            CandidateStep::Done(Err(e)) => Err(e),
        }
    }

    /// Deals with the next candidate as the judge decided. Draws two
    /// identifiers.
    pub fn judge(
        &mut self,
        engine: &mut OntologyEngine,
        decision: JudgeDecision,
        types: &Vec<EntityTypeRecord>,
        distances: &Vec<Score>,
        file_path: &str,
        ids: &mut IdSource,
        at: &str,
    ) -> (r: Result<(), OntologyError>)
        requires
            old(self)@.valid(),
            old(self)@.next < old(self)@.candidates.len(),
            types@.len() == distances@.len(),
        ensures
            final(ids).drew(*old(ids), 2),
            ({
                let near = nearest_type_of(views(types@), distances@);
                let (after, outcome) = old(engine)@.judged(
                    old(self)@.candidates[old(self)@.next as int],
                    decision,
                    near.1,
                    file_path@,
                    final(ids).drawn_since(*old(ids))[0],
                    final(ids).drawn_since(*old(ids))[1],
                    at@,
                );
                &&& final(engine)@ == after
                &&& match outcome {
                    Ok(o) => final(self)@ == old(self)@.with_outcome(o) && r is Ok,
                    Err(e) => final(self)@ == old(self)@ && r is Err && r->Err_0@ == e,
                }
            }),
            final(self)@.valid(),
    {
        let found: (Score, Option<EntityTypeRecord>) = nearest_entity_type(types, distances);
        let near: Option<&EntityTypeRecord> = match &found.1 {
            Some(t) => Some(t),
            None => None,
        };
        proof {
            assert(self@.candidates[self.next as int] == self.candidates@[self.next as int]@);
        }
        let judged = engine.apply_judgement(
            &self.candidates[self.next],
            decision,
            near,
            file_path,
            ids,
            at,
        );
        match judged {
            Ok(outcome) => {
                self.note(outcome);
                Ok(())
            },
            Err(e) => Err(e),
        }
    }
}

/// A candidate with a reserved name is refused without a distance being
/// measured or a judge being asked.
pub proof fn law_reserved_is_refused(run: ChunkRunView, types: Seq<EntityTypeView>)
    requires
        run.next < run.candidates.len(),
    ensures
        is_reserved(run.reserved, run.candidates[run.next as int].raw_name) <==> (run.step(types)
            == ChunkStepView::Refuse(reserved_refusal(run.candidates[run.next as int].raw_name))),
{
}

/// With no type to compare with, a candidate founds one under the default
/// zone, and no judge is asked.
pub proof fn law_first_candidate_founds(
    engine: EngineView,
    candidate: CandidateView,
    file: Seq<char>,
    fresh_type: Uuid,
    fresh: Uuid,
    at: Seq<char>,
)
    requires
        engine.zone == default_zone(),
    ensures
        ({
            let near = nearest_type_of(Seq::empty(), Seq::empty());
            let (after, step) = engine.classified(
                candidate,
                near.0,
                near.1,
                file,
                fresh_type,
                fresh,
                at,
            );
            &&& step is Done
            &&& step->Done_0 is Ok ==> step->Done_0->Ok_0 is NewType
            &&& after.metrics == engine.metrics.recorded(false)
        }),
{
}

} // verus!
