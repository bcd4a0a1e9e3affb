//! Stored rows: identifiers and statuses are stored as text.

use vstd::prelude::*;
use crate::ids::{law_uuid_round_trip, parsed_uuid, uuid_text, Uuid};
use crate::profiles::id_or_nil;
use crate::records::{EntityRecord, EntityView, RelationRecord, RelationTypeStatus};
use crate::registry::{
    status_from_str, status_word, EntityTypeRow, EntityTypeRowView, RelationTypeRow,
    RelationTypeRowView, TypeHit, TypeHitView,
};
use crate::scores::Score;

verus! {

/// The status that a stored word stands for.
pub open spec fn stored_status(word: Seq<char>) -> RelationTypeStatus {
    if word == "canonical"@ {
        RelationTypeStatus::Canonical
    } else {
        RelationTypeStatus::Candidate
    }
}

/// An entity type as it is read from its row.
pub fn row_to_entity_type(id: &str, name: String, description: String, created_at: String) -> (r:
    EntityTypeRow)
    ensures
        r@ == (EntityTypeRowView {
            id: id_or_nil(id@),
            name: name@,
            description: description@,
            created_at: created_at@,
        }),
{
    EntityTypeRow { id: Uuid::parse_or_nil(id), name, description, created_at }
}

/// A relation type as it is read from its row.
pub fn row_to_relation_type(
    id: &str,
    name: String,
    description: String,
    status: &str,
    created_at: String,
) -> (r: RelationTypeRow)
    ensures
        r@ == (RelationTypeRowView {
            id: id_or_nil(id@),
            name: name@,
            description: description@,
            status: stored_status(status@),
            created_at: created_at@,
        }),
{
    RelationTypeRow {
        id: Uuid::parse_or_nil(id),
        name,
        description,
        status: status_from_str(status),
        created_at,
    }
}

/// A hit as it is read from its row.
pub fn row_to_hit(type_id: &str, file_path: String) -> (r: TypeHit)
    ensures
        r@ == (TypeHitView { type_id: id_or_nil(type_id@), file_path: file_path@ }),
{
    TypeHit { type_id: Uuid::parse_or_nil(type_id), file_path }
}

/// An entity as it is read from its row.
pub fn row_to_entity(
    id: &str,
    type_id: &str,
    canonical_name: String,
    first_seen_file: String,
    updated_at: String,
) -> (r: EntityRecord)
    ensures
        r@ == (EntityView {
            id: id_or_nil(id@),
            type_id: id_or_nil(type_id@),
            canonical_name: canonical_name@,
            first_seen_file: first_seen_file@,
            updated_at: updated_at@,
        }),
{
    EntityRecord {
        id: Uuid::parse_or_nil(id),
        type_id: Uuid::parse_or_nil(type_id),
        canonical_name,
        first_seen_file,
        updated_at,
    }
}

/// A relation as it is read from its row.
pub fn row_to_relation(
    id: &str,
    type_id: &str,
    source_entity_id: &str,
    target_entity_id: &str,
    confidence: Score,
    evidence_chunk_id: &str,
) -> (r: RelationRecord)
    ensures
        r == (RelationRecord {
            id: id_or_nil(id@),
            type_id: id_or_nil(type_id@),
            source_entity_id: id_or_nil(source_entity_id@),
            target_entity_id: id_or_nil(target_entity_id@),
            confidence,
            evidence_chunk_id: id_or_nil(evidence_chunk_id@),
        }),
{
    RelationRecord {
        id: Uuid::parse_or_nil(id),
        type_id: Uuid::parse_or_nil(type_id),
        source_entity_id: Uuid::parse_or_nil(source_entity_id),
        target_entity_id: Uuid::parse_or_nil(target_entity_id),
        confidence,
        evidence_chunk_id: Uuid::parse_or_nil(evidence_chunk_id),
    }
}

/// What is stored as text is read back: an identifier from its printed form,
/// and a status from its word.
pub proof fn law_stored_text_reads_back(id: Uuid, status: RelationTypeStatus)
    ensures
        id_or_nil(uuid_text(id)) == id,
        stored_status(status_word(status)) == status,
{
    law_uuid_round_trip(id);
    reveal_strlit("candidate");
    reveal_strlit("canonical");
    assert("candidate"@[3] == 'd');
    assert("canonical"@[3] == 'o');
}

/// A text that writes no identifier is read as the nil one, and one that does as
/// the one that it writes.
pub proof fn law_ids_are_read_or_nil(text: Seq<char>)
    ensures
        parsed_uuid(text) is None ==> id_or_nil(text).bits == 0,
        parsed_uuid(text) matches Some(bits) ==> id_or_nil(text).bits == bits as u128,
{
}

} // verus!
