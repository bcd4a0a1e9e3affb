//! The store of frontmatter profiles: one for each folder and each set of
//! keys, with its mapping held as JSON text.

use vstd::prelude::*;
use crate::frontmatter::{FieldRule, FieldRuleView, FrontmatterProfile, ProfileView};
use crate::ids::{law_uuid_round_trip, parsed_uuid, uuid_text, Uuid};
use crate::order::lex_lt;
use crate::records::{OntologyError, OntologyErrorView};
use crate::text::same_text;
use crate::views::{
    first_match, lemma_filter_keeps_first, lemma_filter_next, lemma_filter_same, lemma_first_match,
    lemma_first_match_at, lemma_first_match_push, opt_view, views,
};

verus! {

/// The rules that a JSON text writes as an object from keys to concepts, in
/// the order of their keys; or what is wrong with the text.
pub uninterp spec fn json_rules(text: Seq<char>) -> Result<Seq<FieldRuleView>, Seq<char>>;

/// The JSON text that writes rules as an object from keys to concepts.
pub uninterp spec fn rules_json(rules: Seq<FieldRuleView>) -> Seq<char>;

/// The keys of the rules are in order and different from each other.
pub open spec fn keys_ascend(rules: Seq<FieldRuleView>) -> bool {
    forall|i: int, j: int|
        0 <= i < j < rules.len() ==> lex_lt((#[trigger] rules[i]).key, (#[trigger] rules[j]).key)
}

/// `serde_json::from_str` into an ordered map from text to optional text: the
/// entries in the order of their keys, or the error as it prints. The result
/// depends on the text alone.
#[verifier::external_body]
fn read_json(text: &str) -> (r: Result<Vec<FieldRule>, String>)
    ensures
        (match r {
            Ok(rules) => Ok::<Seq<FieldRuleView>, Seq<char>>(views(rules@)),
            Err(reason) => Err(reason@),
        }) == json_rules(text@),
{
    serde_json::from_str::<std::collections::BTreeMap<String, Option<String>>>(text)
        .map(|m| m.into_iter().map(|(key, concept)| FieldRule { key, concept }).collect())
        .map_err(|e| e.to_string())
}

/// `serde_json::to_string` of an ordered map from text to optional text, which
/// cannot fail: a text from which `serde_json::from_str` reads the map back,
/// that is, the rules themselves where their keys ascend.
#[verifier::external_body]
fn write_json(rules: &Vec<FieldRule>) -> (r: Result<String, String>)
    ensures
        r is Ok,
        r->Ok_0@ == rules_json(views(rules@)),
        keys_ascend(views(rules@)) ==> (json_rules(r->Ok_0@) == Ok::<Seq<FieldRuleView>, Seq<char>>(
            views(rules@),
        )),
{
    let map: std::collections::BTreeMap<&String, &Option<String>> =
        rules.iter().map(|rule| (&rule.key, &rule.concept)).collect();
    serde_json::to_string(&map).map_err(|e| e.to_string())
}

/// A profile as it is stored.
#[derive(Debug)]
pub struct ProfileRow {
    pub id: String,
    pub folder_scope: String,
    pub key_fingerprint: String,
    pub field_mapping: String,
    pub learned_at: String,
}

/// What a [`ProfileRow`] holds.
pub struct ProfileRowView {
    pub id: Seq<char>,
    pub folder_scope: Seq<char>,
    pub key_fingerprint: Seq<char>,
    pub field_mapping: Seq<char>,
    pub learned_at: Seq<char>,
}

impl View for ProfileRow {
    type V = ProfileRowView;

    open spec fn view(&self) -> ProfileRowView {
        ProfileRowView {
            id: self.id@,
            folder_scope: self.folder_scope@,
            key_fingerprint: self.key_fingerprint@,
            field_mapping: self.field_mapping@,
            learned_at: self.learned_at@,
        }
    }
}

impl Clone for ProfileRow {
    fn clone(&self) -> (r: Self)
        ensures
            r@ == self@,
    {
        ProfileRow {
            id: self.id.clone(),
            folder_scope: self.folder_scope.clone(),
            key_fingerprint: self.key_fingerprint.clone(),
            field_mapping: self.field_mapping.clone(),
            learned_at: self.learned_at.clone(),
        }
    }
}

/// The profiles of a project.
#[derive(Debug)]
pub struct ProfileStore {
    pub rows: Vec<ProfileRow>,
}

impl View for ProfileStore {
    type V = Seq<ProfileRowView>;

    open spec fn view(&self) -> Seq<ProfileRowView> {
        views(self.rows@)
    }
}

/// The id that a text writes, or the nil one.
pub open spec fn id_or_nil(text: Seq<char>) -> Uuid {
    match parsed_uuid(text) {
        Some(bits) => Uuid { bits: bits as u128 },
        None => Uuid { bits: 0 },
    }
}

/// The failure to read or write a mapping.
pub open spec fn mapping_failure(reason: Seq<char>) -> OntologyErrorView {
    OntologyErrorView::OpenFailed { path: "frontmatter_profiles.field_mapping"@, reason }
}

/// The profile that a row stores.
pub open spec fn row_profile(row: ProfileRowView) -> Result<ProfileView, OntologyErrorView> {
    match json_rules(row.field_mapping) {
        Ok(rules) => Ok(
            ProfileView {
                id: id_or_nil(row.id),
                folder_scope: row.folder_scope,
                key_fingerprint: row.key_fingerprint,
                field_mapping: rules,
                learned_at: row.learned_at,
            },
        ),
        Err(reason) => Err(mapping_failure(reason)),
    }
}

/// The row that stores a profile.
pub open spec fn profile_row(profile: ProfileView) -> ProfileRowView {
    ProfileRowView {
        id: uuid_text(profile.id),
        folder_scope: profile.folder_scope,
        key_fingerprint: profile.key_fingerprint,
        field_mapping: rules_json(profile.field_mapping),
        learned_at: profile.learned_at,
    }
}

/// The row for a folder and a fingerprint.
pub open spec fn row_for(
    rows: Seq<ProfileRowView>,
    scope: Seq<char>,
    fingerprint: Seq<char>,
) -> Option<ProfileRowView> {
    first_match(rows, |r: ProfileRowView| r.folder_scope == scope && r.key_fingerprint == fingerprint)
}

/// The profile for a folder and a fingerprint.
pub open spec fn profile_for(
    rows: Seq<ProfileRowView>,
    scope: Seq<char>,
    fingerprint: Seq<char>,
) -> Result<Option<ProfileView>, OntologyErrorView> {
    match row_for(rows, scope, fingerprint) {
        Some(row) => match row_profile(row) {
            Ok(profile) => Ok(Some(profile)),
            Err(e) => Err(e),
        },
        None => Ok(None),
    }
}

/// `row` does not stand in the way of `new`: it has another id, and another
/// folder or fingerprint.
pub open spec fn compatible(row: ProfileRowView, new: ProfileRowView) -> bool {
    row.id != new.id && !(row.folder_scope == new.folder_scope && row.key_fingerprint
        == new.key_fingerprint)
}

/// The rows after one was stored, in place of those that stood in its way.
pub open spec fn with_row(rows: Seq<ProfileRowView>, new: ProfileRowView) -> Seq<ProfileRowView> {
    rows.filter(|r: ProfileRowView| compatible(r, new)).push(new)
}

/// Reads the profile that a row stores.
pub fn profile_of_row(row: &ProfileRow) -> (r: Result<FrontmatterProfile, OntologyError>)
    ensures
        crate::views::result_view(r) == row_profile(row@),
{
    match read_json(row.field_mapping.as_str()) {
        Ok(field_mapping) => Ok(
            FrontmatterProfile {
                id: Uuid::parse_or_nil(row.id.as_str()),
                folder_scope: row.folder_scope.clone(),
                key_fingerprint: row.key_fingerprint.clone(),
                field_mapping,
                learned_at: row.learned_at.clone(),
            },
        ),
        Err(reason) => Err(
            OntologyError::OpenFailed {
                path: "frontmatter_profiles.field_mapping".to_owned(),
                reason,
            },
        ),
    }
}

impl ProfileStore {
    /// A store without profiles.
    pub fn new() -> (r: Self)
        ensures
            r@.len() == 0,
    {
        ProfileStore { rows: Vec::new() }
    }

    /// The profile for a folder and a fingerprint.
    pub fn find(&self, folder_scope: &str, key_fingerprint: &str) -> (r: Result<
        Option<FrontmatterProfile>,
        OntologyError,
    >)
        ensures
            (match r {
                Ok(p) => Ok::<Option<ProfileView>, OntologyErrorView>(opt_view(p)),
                Err(e) => Err(e@),
            }) == profile_for(self@, folder_scope@, key_fingerprint@),
    {
        let ghost p = |r: ProfileRowView|
            r.folder_scope == folder_scope@ && r.key_fingerprint == key_fingerprint@;
        let mut i: usize = 0;
        while i < self.rows.len()
            invariant
                i <= self.rows@.len(),
                p == (|r: ProfileRowView|
                    r.folder_scope == folder_scope@ && r.key_fingerprint == key_fingerprint@),
                forall|j: int| 0 <= j < i ==> !p(#[trigger] self@[j]),
            decreases self.rows@.len() - i,
        {
            proof {
                assert(self@[i as int] == self.rows@[i as int]@);
            }
            if same_text(self.rows[i].folder_scope.as_str(), folder_scope) && same_text(
                self.rows[i].key_fingerprint.as_str(),
                key_fingerprint,
            ) {
                proof {
                    lemma_first_match_at(self@, p, i as int);
                }
                return match profile_of_row(&self.rows[i]) {
                    Ok(profile) => Ok(Some(profile)),
                    Err(e) => Err(e),
                };
            }
            i += 1;
        }
        proof {
            lemma_first_match(self@, p);
        }
        Ok(None)
    }

    /// Stores a profile, in place of the one with its id and of the one for
    /// its folder and fingerprint. It is then the one that is found for them.
    pub fn save(&mut self, profile: &FrontmatterProfile) -> (r: Result<(), OntologyError>)
        ensures
            r is Ok,
            final(self)@ == with_row(old(self)@, profile_row(profile@)),
            keys_ascend(profile@.field_mapping) ==> (profile_for(
                final(self)@,
                profile@.folder_scope,
                profile@.key_fingerprint,
            ) == Ok::<Option<ProfileView>, OntologyErrorView>(Some(profile@))),
    {
        let field_mapping: String = match write_json(&profile.field_mapping) {
            Ok(text) => text,
            Err(reason) => {
                return Err(
                    OntologyError::OpenFailed {
                        path: "frontmatter_profiles.field_mapping".to_owned(),
                        reason,
                    },
                );
            },
        };
        let row = ProfileRow {
            id: profile.id.to_text(),
            folder_scope: profile.folder_scope.clone(),
            key_fingerprint: profile.key_fingerprint.clone(),
            field_mapping,
            learned_at: profile.learned_at.clone(),
        };
        let ghost new = row@;
        let ghost p = |r: ProfileRowView| compatible(r, new);
        let ghost all = self@;
        let mut kept: Vec<ProfileRow> = Vec::new();
        let mut i: usize = 0;
        proof {
            assert(views(kept@) =~= all.take(0).filter(p));
        }
        while i < self.rows.len()
            invariant
                i <= self.rows@.len(),
                *self == *old(self),
                all == self@,
                new == row@,
                p == (|r: ProfileRowView| compatible(r, new)),
                views(kept@) == all.take(i as int).filter(p),
            decreases self.rows@.len() - i,
        {
            proof {
                lemma_filter_next(all, p, i as int);
                assert(all[i as int] == self.rows@[i as int]@);
            }
            let same_id: bool = same_text(self.rows[i].id.as_str(), row.id.as_str());
            let same_shape: bool = same_text(
                self.rows[i].folder_scope.as_str(),
                row.folder_scope.as_str(),
            ) && same_text(self.rows[i].key_fingerprint.as_str(), row.key_fingerprint.as_str());
            if !same_id && !same_shape {
                let copy: ProfileRow = self.rows[i].clone();
                let ghost before = kept@;
                let ghost v = copy@;
                kept.push(copy);
                proof {
                    assert(views(kept@) =~= views(before).push(v));
                }
            }
            i += 1;
        }
        proof {
            assert(all.take(all.len() as int) =~= all);
        }
        let ghost before = kept@;
        kept.push(row);
        proof {
            assert(views(kept@) =~= views(before).push(new));
        }
        self.rows = kept;
        proof {
            if keys_ascend(profile@.field_mapping) {
                lemma_saved_profile_is_found(all, profile@);
            }
        }
        Ok(())
    }
}

/// A profile whose mapping reads back is the one that is found for its folder
/// and fingerprint.
proof fn lemma_saved_profile_is_found(rows: Seq<ProfileRowView>, profile: ProfileView)
    requires
        json_rules(rules_json(profile.field_mapping)) == Ok::<Seq<FieldRuleView>, Seq<char>>(
            profile.field_mapping,
        ),
    ensures
        profile_for(
            with_row(rows, profile_row(profile)),
            profile.folder_scope,
            profile.key_fingerprint,
        ) == Ok::<Option<ProfileView>, OntologyErrorView>(Some(profile)),
{
    let new = profile_row(profile);
    let kept = rows.filter(|r: ProfileRowView| compatible(r, new));
    let p = |r: ProfileRowView|
        r.folder_scope == profile.folder_scope && r.key_fingerprint == profile.key_fingerprint;
    lemma_first_match_push(kept, new, p);
    lemma_first_match(kept, p);
    assert(first_match(kept, p) is None) by {
        if first_match(kept, p) is Some {
            let v = first_match(kept, p)->0;
            let i = choose|i: int| 0 <= i < kept.len() && #[trigger] kept[i] == v;
            rows.lemma_filter_pred(|r: ProfileRowView| compatible(r, new), i);
        }
    }
    law_uuid_round_trip(profile.id);
}

/// Storing a profile leaves the one for another folder or shape as it is, unless
/// that has the same id.
pub proof fn law_saving_keeps_others(
    rows: Seq<ProfileRowView>,
    profile: ProfileView,
    scope: Seq<char>,
    fingerprint: Seq<char>,
)
    requires
        scope != profile.folder_scope || fingerprint != profile.key_fingerprint,
        row_for(rows, scope, fingerprint) matches Some(row) ==> row.id != uuid_text(profile.id),
    ensures
        profile_for(with_row(rows, profile_row(profile)), scope, fingerprint) == profile_for(
            rows,
            scope,
            fingerprint,
        ),
{
    let new = profile_row(profile);
    let c = |r: ProfileRowView| compatible(r, new);
    let p = |r: ProfileRowView| r.folder_scope == scope && r.key_fingerprint == fingerprint;
    lemma_first_match_push(rows.filter(c), new, p);
    lemma_first_match(rows, p);
    lemma_filter_keeps_first(rows, c, p);
}

/// A profile is looked up by its folder and its fingerprint: the row that is found
/// has both, and one is found wherever there is one.
pub proof fn law_rows_are_found_by_shape(
    rows: Seq<ProfileRowView>,
    scope: Seq<char>,
    fingerprint: Seq<char>,
)
    ensures
        row_for(rows, scope, fingerprint) is Some <==> exists|i: int|
            0 <= i < rows.len() && (#[trigger] rows[i]).folder_scope == scope && rows[i].key_fingerprint
                == fingerprint,
        row_for(rows, scope, fingerprint) matches Some(row) ==> rows.contains(row) && row.folder_scope
            == scope && row.key_fingerprint == fingerprint,
        row_for(rows, scope, fingerprint) is None ==> profile_for(rows, scope, fingerprint) == Ok::<
            Option<ProfileView>,
            OntologyErrorView,
        >(None),
{
    let p = |r: ProfileRowView| r.folder_scope == scope && r.key_fingerprint == fingerprint;
    lemma_first_match(rows, p);
    if exists|i: int|
        0 <= i < rows.len() && (#[trigger] rows[i]).folder_scope == scope && rows[i].key_fingerprint
            == fingerprint {
        let i = choose|i: int|
            0 <= i < rows.len() && (#[trigger] rows[i]).folder_scope == scope
                && rows[i].key_fingerprint == fingerprint;
        assert(p(rows[i]));
    }
}

/// A profile whose mapping reads back is read from its row as it was.
pub proof fn law_profile_reads_back(profile: ProfileView)
    requires
        json_rules(rules_json(profile.field_mapping)) == Ok::<Seq<FieldRuleView>, Seq<char>>(
            profile.field_mapping,
        ),
    ensures
        row_profile(profile_row(profile)) == Ok::<ProfileView, OntologyErrorView>(profile),
{
    law_uuid_round_trip(profile.id);
}

/// A stored profile takes the place of every row with its id, or with its folder
/// and its fingerprint, and of no other; it comes last, the others stay in order.
pub proof fn law_storing_replaces(rows: Seq<ProfileRowView>, new: ProfileRowView)
    ensures
        with_row(rows, new) == rows.filter(
            |r: ProfileRowView|
                r.id != new.id && !(r.folder_scope == new.folder_scope && r.key_fingerprint
                    == new.key_fingerprint),
        ).push(new),
{
    lemma_filter_same(
        rows,
        |r: ProfileRowView| compatible(r, new),
        |r: ProfileRowView|
            r.id != new.id && !(r.folder_scope == new.folder_scope && r.key_fingerprint
                == new.key_fingerprint),
    );
}

} // verus!
