//! Learning what frontmatter keys mean: a model is asked once for each set of
//! keys in a folder, and the answer is kept.

use vstd::prelude::*;
use crate::engine::{EngineView, OntologyEngine};
use crate::frontmatter::{
    fingerprint_of, folder_scope, frontmatter_fields, key_fingerprint, key_texts, keys_of,
    parse_frontmatter_values, scope_of, sorted_keys, Field, FieldRule, FieldRuleView, FieldView,
    FrontmatterProfile, ProfileView,
};
use crate::order::{in_order, lemma_lex_is_ranking, lemma_lex_total, lemma_ranked, lex_lt};
use crate::profiles::{
    keys_ascend, law_rows_are_found_by_shape, profile_for, profile_row, with_row,
};
use crate::records::{OntologyError, OntologyErrorView};
use crate::supply::IdSource;
use crate::text::same_text;
use crate::views::{lemma_filter_from, lemma_filter_next, opt_view, result_view, views};

verus! {

/// The shape of a file's frontmatter: its folder and its set of keys.
#[derive(Debug)]
pub struct FrontmatterShape {
    pub scope: String,
    pub fingerprint: String,
    pub keys: Vec<String>,
}

/// What a [`FrontmatterShape`] holds.
pub struct ShapeView {
    pub scope: Seq<char>,
    pub fingerprint: Seq<char>,
    pub keys: Seq<Seq<char>>,
}

impl View for FrontmatterShape {
    type V = ShapeView;

    open spec fn view(&self) -> ShapeView {
        ShapeView { scope: self.scope@, fingerprint: self.fingerprint@, keys: views(self.keys@) }
    }
}

/// The shape of the frontmatter of a file with these fields.
pub open spec fn shape_of(file: Seq<char>, fields: Seq<FieldView>) -> ShapeView {
    ShapeView {
        scope: scope_of(file),
        fingerprint: fingerprint_of(sorted_keys(fields)),
        keys: sorted_keys(fields),
    }
}

/// What is known of a file's frontmatter.
#[derive(Debug)]
pub enum ProfileStep {
    /// The file has none.
    NoFrontmatter,
    /// Frontmatter of its shape was learned before.
    Known(FrontmatterProfile),
    /// A model has to be asked what each of the keys means.
    Ask(FrontmatterShape),
}

/// What a [`ProfileStep`] holds.
pub enum ProfileStepView {
    NoFrontmatter,
    Known(ProfileView),
    Ask(ShapeView),
}

impl View for ProfileStep {
    type V = ProfileStepView;

    open spec fn view(&self) -> ProfileStepView {
        match *self {
            ProfileStep::NoFrontmatter => ProfileStepView::NoFrontmatter,
            ProfileStep::Known(p) => ProfileStepView::Known(p@),
            ProfileStep::Ask(s) => ProfileStepView::Ask(s@),
        }
    }
}

impl EngineView {
    /// What is known of the frontmatter of a file with these fields.
    pub open spec fn profile_step(self, file: Seq<char>, fields: Seq<FieldView>) -> Result<
        ProfileStepView,
        OntologyErrorView,
    > {
        let shape = shape_of(file, fields);
        match profile_for(self.profiles, shape.scope, shape.fingerprint) {
            Err(e) => Err(e),
            Ok(Some(profile)) => Ok(ProfileStepView::Known(profile)),
            Ok(None) => Ok(ProfileStepView::Ask(shape)),
        }
    }
}

/// The rules with one for `key`, in place of an earlier one.
pub open spec fn with_rule(
    rules: Seq<FieldRuleView>,
    key: Seq<char>,
    concept: Option<Seq<char>>,
) -> Seq<FieldRuleView> {
    rules.filter(|r: FieldRuleView| r.key != key).push(FieldRuleView { key, concept })
}

/// The rules that give the first `n` keys their concepts.
pub open spec fn mapping_of(
    keys: Seq<Seq<char>>,
    concepts: Seq<Option<Seq<char>>>,
    n: nat,
) -> Seq<FieldRuleView>
    decreases n,
{
    if n == 0 {
        Seq::empty()
    } else {
        with_rule(mapping_of(keys, concepts, (n - 1) as nat), keys[n - 1], concepts[n - 1])
    }
}

/// The views of optional texts.
pub open spec fn concept_views(concepts: Seq<Option<String>>) -> Seq<Option<Seq<char>>> {
    concepts.map_values(|c: Option<String>| opt_view(c))
}

/// Rules for keys in order have ascending keys.
proof fn lemma_mapping_ascends(keys: Seq<Seq<char>>, concepts: Seq<Option<Seq<char>>>, n: nat)
    requires
        n <= keys.len(),
        in_order(keys, |a: Seq<char>, b: Seq<char>| lex_lt(a, b)),
    ensures
        keys_ascend(mapping_of(keys, concepts, n)),
        forall|i: int|
            #![trigger mapping_of(keys, concepts, n)[i]]
            0 <= i < mapping_of(keys, concepts, n).len() ==> exists|k: int|
                0 <= k < n && #[trigger] keys[k] == mapping_of(keys, concepts, n)[i].key,
    decreases n,
{
    if n > 0 {
        let m = (n - 1) as nat;
        lemma_mapping_ascends(keys, concepts, m);
        let before = mapping_of(keys, concepts, m);
        let key = keys[n - 1];
        let p = |r: FieldRuleView| r.key != key;
        let kept = before.filter(p);
        let all = mapping_of(keys, concepts, n);
        let lt = |a: Seq<char>, b: Seq<char>| lex_lt(a, b);
        lemma_filter_ascends(before, p);
        assert forall|i: int| 0 <= i < kept.len() implies lex_lt((#[trigger] kept[i]).key, key) by {
            lemma_filter_from(before, p, i);
            let j = choose|j: int| 0 <= j < before.len() && before[j] == kept[i];
            assert(before.contains(kept[i]));
            let k = choose|k: int| 0 <= k < m && #[trigger] keys[k] == before[j].key;
            assert(!lt(keys[n - 1], keys[k]));
            lemma_lex_total(keys[k], key);
        }
        assert forall|i: int|
            #![trigger all[i]]
            0 <= i < all.len() implies exists|k: int|
            0 <= k < n && #[trigger] keys[k] == all[i].key by {
            if i < kept.len() {
                lemma_filter_from(before, p, i);
                assert(before.contains(kept[i]));
                let j = choose|j: int| 0 <= j < before.len() && before[j] == kept[i];
                let k = choose|k: int| 0 <= k < m && #[trigger] keys[k] == before[j].key;
                assert(keys[k] == all[i].key);
            } else {
                assert(keys[n - 1] == all[i].key);
            }
        }
    }
}

/// What is left of ascending rules ascends.
proof fn lemma_filter_ascends(rules: Seq<FieldRuleView>, p: spec_fn(FieldRuleView) -> bool)
    requires
        keys_ascend(rules),
    ensures
        keys_ascend(rules.filter(p)),
    decreases rules.len(),
{
    if rules.len() > 0 {
        let rest = rules.drop_last();
        assert forall|i: int, j: int| 0 <= i < j < rest.len() implies lex_lt(
            (#[trigger] rest[i]).key,
            (#[trigger] rest[j]).key,
        ) by {
            assert(rest[i] == rules[i] && rest[j] == rules[j]);
        }
        lemma_filter_ascends(rest, p);
        assert(rules =~= rest.push(rules.last()));
        rest.lemma_filter_push(rules.last(), p);
        let kept = rest.filter(p);
        let all = rules.filter(p);
        assert forall|i: int, j: int| 0 <= i < j < all.len() implies lex_lt(
            (#[trigger] all[i]).key,
            (#[trigger] all[j]).key,
        ) by {
            if j == kept.len() {
                assert(all[i] == kept[i]);
                lemma_filter_from(rest, p, i);
                assert(rest.contains(kept[i]));
                let k = choose|k: int| 0 <= k < rest.len() && rest[k] == kept[i];
                assert(rules[k] == kept[i]);
                assert(rules[rules.len() - 1] == all[j]);
            } else {
                assert(all[i] == kept[i] && all[j] == kept[j]);
            }
        }
    } else {
        assert(rules.filter(p) =~= rules);
    }
}

/// Gives the keys their concepts.
pub fn rules_for(keys: &Vec<String>, concepts: &Vec<Option<String>>) -> (r: Vec<FieldRule>)
    requires
        keys@.len() == concepts@.len(),
    ensures
        views(r@) == mapping_of(views(keys@), concept_views(concepts@), keys@.len()),
{
    let mut r: Vec<FieldRule> = Vec::new();
    let mut n: usize = 0;
    proof {
        assert(views(r@) =~= Seq::<FieldRuleView>::empty());
    }
    while n < keys.len()
        invariant
            n <= keys@.len() == concepts@.len(),
            views(r@) == mapping_of(views(keys@), concept_views(concepts@), n as nat),
        decreases keys@.len() - n,
    {
        let mut kept: Vec<FieldRule> = rules_without(&r, keys[n].as_str());
        let concept: Option<String> = match &concepts[n] {
            Some(c) => Some(c.clone()),
            None => None,
        };
        let rule = FieldRule { key: keys[n].clone(), concept };
        let ghost before = kept@;
        let ghost v = rule@;
        kept.push(rule);
        proof {
            assert(views(kept@) =~= views(before).push(v));
            assert(views(keys@)[n as int] == keys@[n as int]@);
            assert(concept_views(concepts@)[n as int] == opt_view(concepts@[n as int]));
        }
        r = kept;
        n += 1;
    }
    r
}

fn rules_without(rules: &Vec<FieldRule>, key: &str) -> (r: Vec<FieldRule>)
    ensures
        views(r@) == views(rules@).filter(|r: FieldRuleView| r.key != key@),
{
    let ghost all = views(rules@);
    let ghost p = |r: FieldRuleView| r.key != key@;
    let mut r: Vec<FieldRule> = Vec::new();
    let mut i: usize = 0;
    proof {
        assert(views(r@) =~= all.take(0).filter(p));
    }
    while i < rules.len()
        invariant
            i <= rules@.len(),
            all == views(rules@),
            p == (|r: FieldRuleView| r.key != key@),
            views(r@) == all.take(i as int).filter(p),
        decreases rules@.len() - i,
    {
        proof {
            lemma_filter_next(all, p, i as int);
            assert(all[i as int] == rules@[i as int]@);
        }
        if !same_text(rules[i].key.as_str(), key) {
            let rule: FieldRule = rules[i].clone();
            let ghost before = r@;
            let ghost v = rule@;
            r.push(rule);
            proof {
                assert(views(r@) =~= views(before).push(v));
            }
        }
        i += 1;
    }
    proof {
        assert(all.take(all.len() as int) =~= all);
    }
    r
}

impl OntologyEngine {
    /// What is known of the frontmatter of a file with these fields.
    pub fn profile_step(&self, file_path: &str, fields: &Vec<Field>) -> (r: Result<
        ProfileStep,
        OntologyError,
    >)
        ensures
            result_view(r) == self@.profile_step(file_path@, views(fields@)),
    {
        let keys: Vec<String> = keys_of(fields);
        let scope: String = folder_scope(file_path);
        let fingerprint: String = key_fingerprint(&keys);
        match self.frontmatter_profiles.find(scope.as_str(), fingerprint.as_str()) {
            Err(e) => Err(e),
            Ok(Some(profile)) => Ok(ProfileStep::Known(profile)),
            Ok(None) => Ok(ProfileStep::Ask(FrontmatterShape { scope, fingerprint, keys })),
        }
    }

    /// What is known of a file's frontmatter: nothing where it has none, what
    /// was learned of its shape before, or else that a model has to be asked.
    pub fn learn_or_reuse_frontmatter_profile(&self, file_path: &str, content: &str) -> (r: Result<
        ProfileStep,
        OntologyError,
    >)
        ensures
            result_view(r) == (match frontmatter_fields(content@) {
                None => Ok::<ProfileStepView, OntologyErrorView>(ProfileStepView::NoFrontmatter),
                Some(fields) => self@.profile_step(file_path@, fields),
            }),
    {
        match parse_frontmatter_values(content) {
            None => Ok(ProfileStep::NoFrontmatter),
            Some(fields) => self.profile_step(file_path, &fields),
        }
    }

    /// Keeps what a model said that the keys of a shape mean. From then on no
    /// model is asked about a file of that shape. Draws one identifier.
    pub fn learn_profile(
        &mut self,
        shape: &FrontmatterShape,
        concepts: &Vec<Option<String>>,
        ids: &mut IdSource,
        at: &str,
    ) -> (r: Result<FrontmatterProfile, OntologyError>)
        requires
            shape.keys@.len() == concepts@.len(),
        ensures
            final(ids).drew(*old(ids), 1),
            r is Ok,
            r->Ok_0@ == (ProfileView {
                id: final(ids).drawn_since(*old(ids))[0],
                folder_scope: shape@.scope,
                key_fingerprint: shape@.fingerprint,
                field_mapping: mapping_of(shape@.keys, concept_views(concepts@), shape@.keys.len()),
                learned_at: at@,
            }),
            final(self)@ == (EngineView {
                profiles: with_row(old(self)@.profiles, profile_row(r->Ok_0@)),
                ..old(self)@
            }),
            forall|file: Seq<char>, fields: Seq<FieldView>|
                shape_of(file, fields) == shape@ ==> (#[trigger] final(self)@.profile_step(file, fields)
                    == Ok::<ProfileStepView, OntologyErrorView>(ProfileStepView::Known(r->Ok_0@))),
    {
        let profile = FrontmatterProfile {
            id: ids.draw(),
            folder_scope: shape.scope.clone(),
            key_fingerprint: shape.fingerprint.clone(),
            field_mapping: rules_for(&shape.keys, concepts),
            learned_at: at.to_owned(),
        };
        let saved = self.frontmatter_profiles.save(&profile);
        proof {
            assert forall|file: Seq<char>, fields: Seq<FieldView>|
                shape_of(file, fields) == shape@ implies (#[trigger] self@.profile_step(file, fields)
                == Ok::<ProfileStepView, OntologyErrorView>(ProfileStepView::Known(profile@))) by {
                law_shape_keys_in_order(file, fields);
                lemma_mapping_ascends(shape@.keys, concept_views(concepts@), shape@.keys.len());
            }
        }
        match saved {
            Ok(_) => Ok(profile),
            Err(e) => Err(e),
        }
    }
}

/// The keys of every shape are in order.
pub proof fn law_shape_keys_in_order(file: Seq<char>, fields: Seq<FieldView>)
    ensures
        in_order(shape_of(file, fields).keys, |a: Seq<char>, b: Seq<char>| lex_lt(a, b)),
{
    lemma_lex_is_ranking();
    lemma_ranked(
        key_texts(fields),
        |a: Seq<char>, b: Seq<char>| lex_lt(a, b),
    );
}

/// Files in one folder whose frontmatter has the same keys share what was
/// learned, whatever the values.
pub proof fn law_same_keys_share_profile(
    engine: EngineView,
    file: Seq<char>,
    other_file: Seq<char>,
    fields: Seq<FieldView>,
    other_fields: Seq<FieldView>,
)
    requires
        scope_of(file) == scope_of(other_file),
        sorted_keys(fields) == sorted_keys(other_fields),
    ensures
        engine.profile_step(file, fields) == engine.profile_step(other_file, other_fields),
{
}

/// One of the first `n` keys was said to mean what `rule` says.
pub open spec fn was_said(
    keys: Seq<Seq<char>>,
    concepts: Seq<Option<Seq<char>>>,
    n: nat,
    rule: FieldRuleView,
) -> bool {
    exists|i: int| 0 <= i < n && #[trigger] keys[i] == rule.key && concepts[i] == rule.concept
}

proof fn lemma_mapping_says(
    keys: Seq<Seq<char>>,
    concepts: Seq<Option<Seq<char>>>,
    n: nat,
    rule: FieldRuleView,
)
    requires
        keys.no_duplicates(),
        n <= keys.len(),
    ensures
        mapping_of(keys, concepts, n).contains(rule) <==> was_said(keys, concepts, n, rule),
    decreases n,
{
    if n > 0 {
        let m = (n - 1) as nat;
        lemma_mapping_says(keys, concepts, m, rule);
        let before = mapping_of(keys, concepts, m);
        let p = |r: FieldRuleView| r.key != keys[n - 1];
        let kept = before.filter(p);
        let all = mapping_of(keys, concepts, n);
        if all.contains(rule) {
            let i = choose|i: int| 0 <= i < all.len() && all[i] == rule;
            if i < kept.len() {
                lemma_filter_from(before, p, i);
                assert(was_said(keys, concepts, m, rule));
            } else {
                assert(keys[n - 1] == rule.key);
            }
        }
        if was_said(keys, concepts, n, rule) {
            let i = choose|i: int|
                0 <= i < n && #[trigger] keys[i] == rule.key && concepts[i] == rule.concept;
            if i < m {
                assert(was_said(keys, concepts, m, rule));
                let j = choose|j: int| 0 <= j < before.len() && before[j] == rule;
                assert(p(before[j]));
                before.lemma_filter_contains(p, j);
                let k = choose|k: int| 0 <= k < kept.len() && kept[k] == rule;
                assert(all[k] == rule);
            } else {
                assert(all[all.len() - 1] == rule);
            }
        }
    }
}

/// What a key is taken to mean is what was said of that key, and depends
/// neither on the other keys nor on their order.
pub proof fn law_keys_are_judged_on_their_own(
    keys: Seq<Seq<char>>,
    concepts: Seq<Option<Seq<char>>>,
    rule: FieldRuleView,
)
    requires
        keys.no_duplicates(),
        keys.len() == concepts.len(),
    ensures
        mapping_of(keys, concepts, keys.len()).contains(rule) <==> was_said(
            keys,
            concepts,
            keys.len(),
            rule,
        ),
{
    lemma_mapping_says(keys, concepts, keys.len(), rule);
}

/// A file whose shape is known is not asked about again, and one whose shape is
/// not is asked about with its keys; a shape is a folder and a fingerprint of the
/// keys.
pub proof fn law_shapes_are_asked_about_once(
    engine: EngineView,
    file: Seq<char>,
    fields: Seq<FieldView>,
)
    ensures
        ({
            let scope = scope_of(file);
            let fingerprint = fingerprint_of(sorted_keys(fields));
            let known = exists|i: int|
                0 <= i < engine.profiles.len() && (#[trigger] engine.profiles[i]).folder_scope == scope
                    && engine.profiles[i].key_fingerprint == fingerprint;
            let step = engine.profile_step(file, fields);
            &&& !known <==> step is Ok && step->Ok_0 is Ask
            &&& !known ==> step->Ok_0->Ask_0.keys == sorted_keys(fields) && step->Ok_0->Ask_0.scope
                == scope && step->Ok_0->Ask_0.fingerprint == fingerprint
            &&& step is Ok && step->Ok_0 is Known ==> step->Ok_0->Known_0.folder_scope == scope
                && step->Ok_0->Known_0.key_fingerprint == fingerprint
        }),
{
    law_rows_are_found_by_shape(
        engine.profiles,
        scope_of(file),
        fingerprint_of(sorted_keys(fields)),
    );
}

} // verus!
