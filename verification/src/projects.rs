//! The registry of projects on this machine: unique names, each with the
//! folder of its project.

use vstd::prelude::*;
use crate::order::{
    insert_ranked, lemma_lex_total, lemma_lex_transitive, lemma_rank_position, lex_lt, rank_position,
    ranked_insert, text_before, Ranked,
};
use crate::text::same_text;
use crate::views::{first_match, lemma_first_match, lemma_first_match_at, opt_view, views};

verus! {

/// A project.
#[derive(Debug)]
pub struct ProjectEntry {
    pub name: String,
    pub path: String,
}

/// What a [`ProjectEntry`] holds.
pub struct ProjectEntryView {
    pub name: Seq<char>,
    pub path: Seq<char>,
}

impl View for ProjectEntry {
    type V = ProjectEntryView;

    open spec fn view(&self) -> ProjectEntryView {
        ProjectEntryView { name: self.name@, path: self.path@ }
    }
}

/// The projects of this machine.
#[derive(Debug)]
pub struct ProjectRegistry {
    pub entries: Vec<ProjectEntry>,
}

impl View for ProjectRegistry {
    type V = Seq<ProjectEntryView>;

    open spec fn view(&self) -> Seq<ProjectEntryView> {
        views(self.entries@)
    }
}

/// The projects that a JSON text writes as an object from names to paths, in
/// the order of their names; `None` where it writes no such object.
pub uninterp spec fn json_projects(text: Seq<char>) -> Option<Seq<ProjectEntryView>>;

/// The JSON text that writes projects as an object from names to paths.
pub uninterp spec fn projects_json(entries: Seq<ProjectEntryView>) -> Seq<char>;

/// The names are in order and different from each other.
pub open spec fn names_ascend(entries: Seq<ProjectEntryView>) -> bool {
    forall|i: int, j: int|
        0 <= i < j < entries.len() ==> lex_lt((#[trigger] entries[i]).name, (#[trigger] entries[j]).name)
}

/// `serde_json::from_str` into an ordered map from text to text: the entries
/// in the order of their names. The result depends on the text alone.
#[verifier::external_body]
fn read_projects(text: &str) -> (r: Option<Vec<ProjectEntry>>)
    ensures
        (match r {
            Some(entries) => Some(views(entries@)),
            None => None,
        }) == json_projects(text@),
{
    serde_json::from_str::<std::collections::BTreeMap<String, String>>(text)
        .ok()
        .map(|m| m.into_iter().map(|(name, path)| ProjectEntry { name, path }).collect())
}

/// `serde_json::to_string_pretty` of an ordered map from text to text, which
/// cannot fail: a text from which `serde_json::from_str` reads the map back,
/// that is, the entries themselves where their names ascend.
#[verifier::external_body]
fn write_projects(entries: &Vec<ProjectEntry>) -> (r: Option<String>)
    ensures
        r is Some,
        r->0@ == projects_json(views(entries@)),
        names_ascend(views(entries@)) ==> (json_projects(r->0@) == Some(views(entries@))),
{
    let map: std::collections::BTreeMap<&String, &String> =
        entries.iter().map(|e| (&e.name, &e.path)).collect();
    serde_json::to_string_pretty(&map).ok()
}

/// The folder of a project.
pub open spec fn project_path(entries: Seq<ProjectEntryView>, name: Seq<char>) -> Option<Seq<char>> {
    match first_match(entries, |e: ProjectEntryView| e.name == name) {
        Some(e) => Some(e.path),
        None => None,
    }
}

/// The answer where a project is not there.
pub open spec fn project_not_found(name: Seq<char>) -> Seq<char> {
    "AGENT_SURFACE.PROJECT_NOT_FOUND: '"@ + name + "'"@
}

/// The answer where a project is there already.
pub open spec fn project_exists(name: Seq<char>) -> Seq<char> {
    "AGENT_SURFACE.PROJECT_ALREADY_EXISTS: '"@ + name + "' already exists"@
}

/// The projects with one more, which stands before the first one whose name
/// comes after its own.
pub open spec fn with_project(entries: Seq<ProjectEntryView>, e: ProjectEntryView) -> Seq<ProjectEntryView> {
    ranked_insert(
        entries,
        e,
        |a: ProjectEntryView, b: ProjectEntryView| lex_lt(a.name, b.name),
    )
}

impl Ranked for ProjectEntry {
    open spec fn before(a: ProjectEntryView, b: ProjectEntryView) -> bool {
        lex_lt(a.name, b.name)
    }

    fn is_before(&self, other: &Self) -> (r: bool) {
        text_before(self.name.as_str(), other.name.as_str())
    }
}

impl ProjectRegistry {
    /// No project is there.
    pub fn new() -> (r: Self)
        ensures
            r@.len() == 0,
    {
        ProjectRegistry { entries: Vec::new() }
    }

    /// The projects that a file's content tells; none where there is no file,
    /// or its content tells none.
    pub fn load(content: Option<&str>) -> (r: Self)
        ensures
            r@ == (match content {
                Some(text) => match json_projects(text@) {
                    Some(entries) => entries,
                    None => Seq::empty(),
                },
                None => Seq::empty(),
            }),
    {
        let loaded: Option<Vec<ProjectEntry>> = match content {
            Some(text) => read_projects(text),
            None => None,
        };
        match loaded {
            Some(entries) => ProjectRegistry { entries },
            None => {
                let r = ProjectRegistry::new();
                proof {
                    assert(r@ =~= Seq::<ProjectEntryView>::empty());
                }
                r
            },
        }
    }

    /// The content of the file that tells the projects. Reading it back gives
    /// the projects.
    pub fn save(&self) -> (r: String)
        ensures
            r@ == projects_json(self@),
            names_ascend(self@) ==> (json_projects(r@) == Some(self@)),
    {
        match write_projects(&self.entries) {
            Some(text) => text,
            None => String::new(),
        }
    }

    /// The folder of a project.
    pub fn get(&self, name: &str) -> (r: Option<String>)
        ensures
            opt_view(r) == project_path(self@, name@),
    {
        let ghost p = |e: ProjectEntryView| e.name == name@;
        let mut i: usize = 0;
        while i < self.entries.len()
            invariant
                i <= self.entries@.len(),
                p == (|e: ProjectEntryView| e.name == name@),
                forall|j: int| 0 <= j < i ==> !p(#[trigger] self@[j]),
            decreases self.entries@.len() - i,
        {
            proof {
                assert(self@[i as int] == self.entries@[i as int]@);
            }
            if same_text(self.entries[i].name.as_str(), name) {
                proof {
                    lemma_first_match_at(self@, p, i as int);
                }
                return Some(self.entries[i].path.clone());
            }
            i += 1;
        }
        proof {
            lemma_first_match(self@, p);
        }
        None
    }

    /// The folder of a project, or the answer where it is not there.
    pub fn resolve_project(&self, name: &str) -> (r: Result<String, String>)
        ensures
            match project_path(self@, name@) {
                Some(path) => r is Ok && r->Ok_0@ == path,
                None => r is Err && r->Err_0@ == project_not_found(name@),
            },
    {
        match self.get(name) {
            Some(path) => Ok(path),
            None => {
                let mut m: String = "AGENT_SURFACE.PROJECT_NOT_FOUND: '".to_owned();
                m.append(name);
                m.append("'");
                Err(m)
            },
        }
    }

    /// Refuses a name that is taken.
    pub fn check_new_name(&self, name: &str) -> (r: Result<(), String>)
        ensures
            match project_path(self@, name@) {
                Some(_) => r is Err && r->Err_0@ == project_exists(name@),
                None => r is Ok,
            },
    {
        match self.get(name) {
            Some(_) => {
                let mut m: String = "AGENT_SURFACE.PROJECT_ALREADY_EXISTS: '".to_owned();
                m.append(name);
                m.append("' already exists");
                Err(m)
            },
            None => Ok(()),
        }
    }

    /// Adds a project.
    pub fn insert(&mut self, name: &str, path: &str)
        ensures
            final(self)@ == with_project(
                old(self)@,
                ProjectEntryView { name: name@, path: path@ },
            ),
    {
        let entry = ProjectEntry { name: name.to_owned(), path: path.to_owned() };
        proof {
            assert((|a: ProjectEntryView, b: ProjectEntryView|
                <ProjectEntry as Ranked>::before(a, b)) =~= (|
                a: ProjectEntryView,
                b: ProjectEntryView,
            | lex_lt(a.name, b.name)));
        }
        insert_ranked(&mut self.entries, entry);
    }

    /// The lines that list the projects.
    pub fn listing(&self) -> (r: Vec<String>)
        ensures
            views(r@) == listing_lines(self@),
    {
        let mut lines: Vec<String> = Vec::new();
        let ghost target = listing_lines(self@);
        if self.entries.len() == 0 {
            let line: String =
                "no project created yet — kern project create <name> --path <folder>".to_owned();
            let ghost v = line@;
            lines.push(line);
            proof {
                assert(views(lines@) =~= seq![v]);
            }
            return lines;
        }
        let head: String = "registered projects:".to_owned();
        let ghost h = head@;
        lines.push(head);
        proof {
            assert(views(lines@) =~= target.take(1));
        }
        let mut i: usize = 0;
        while i < self.entries.len()
            invariant
                i <= self.entries@.len(),
                target == listing_lines(self@),
                self@.len() > 0,
                views(lines@) =~= target.take(i + 1),
            decreases self.entries@.len() - i,
        {
            let mut line: String = "  ".to_owned();
            line.append(self.entries[i].name.as_str());
            line.append(" -> ");
            line.append(self.entries[i].path.as_str());
            let ghost before = lines@;
            let ghost v = line@;
            lines.push(line);
            proof {
                assert(self@[i as int] == self.entries@[i as int]@);
                assert(v == target[i + 1]);
                assert(views(lines@) =~= views(before).push(v));
            }
            i += 1;
        }
        proof {
            assert(target.take(i + 1) =~= target);
        }
        lines
    }
}

/// The lines that list projects.
pub open spec fn listing_lines(entries: Seq<ProjectEntryView>) -> Seq<Seq<char>> {
    if entries.len() == 0 {
        seq!["no project created yet — kern project create <name> --path <folder>"@]
    } else {
        seq!["registered projects:"@] + entries.map_values(
            |e: ProjectEntryView| "  "@ + e.name + " -> "@ + e.path,
        )
    }
}

/// A project that was added under a new name is there, and the others stay;
/// the names stay in order and different from each other.
pub proof fn law_added_project_is_there(
    entries: Seq<ProjectEntryView>,
    e: ProjectEntryView,
    other: Seq<char>,
)
    requires
        names_ascend(entries),
        project_path(entries, e.name) is None,
    ensures
        names_ascend(with_project(entries, e)),
        project_path(with_project(entries, e), other) == if other == e.name {
            Some(e.path)
        } else {
            project_path(entries, other)
        },
{
    let before = |a: ProjectEntryView, b: ProjectEntryView| lex_lt(a.name, b.name);
    lemma_rank_position(entries, e, before);
    let at = rank_position(entries, e, before);
    let all = with_project(entries, e);
    let taken = |x: ProjectEntryView| x.name == e.name;
    lemma_first_match(entries, taken);
    assert forall|i: int, j: int| 0 <= i < j < all.len() implies lex_lt(
        (#[trigger] all[i]).name,
        (#[trigger] all[j]).name,
    ) by {
        let ii = if i < at { i } else { i - 1 };
        let jj = if j < at { j } else { j - 1 };
        if i != at && j != at {
            assert(all[i] == entries[ii] && all[j] == entries[jj]);
        } else if j == at {
            assert(all[i] == entries[i]);
            assert(!before(e, entries[i]));
            assert(!taken(entries[i]));
            lemma_lex_total(e.name, entries[i].name);
        } else {
            assert(all[j] == entries[jj]);
            assert(before(e, entries[at]));
            if jj > at {
                assert(lex_lt(entries[at].name, entries[jj].name));
                lemma_lex_transitive(e.name, entries[at].name, entries[jj].name);
            }
        }
    }
    let p = |x: ProjectEntryView| x.name == other;
    lemma_first_match(entries, p);
    if other == e.name {
        assert forall|j: int| 0 <= j < at implies !p(#[trigger] all[j]) by {
            assert(!taken(entries[j]));
        }
        assert(all[at] == e);
        lemma_first_match_at(all, p, at);
    } else {
        match first_match(entries, p) {
            Some(v) => {
                let k = choose|k: int|
                    0 <= k < entries.len() && #[trigger] entries[k] == v && forall|j: int|
                        0 <= j < k ==> !p(#[trigger] entries[j]);
                let kk = if k < at { k } else { k + 1 };
                assert forall|j: int| 0 <= j < kk implies !p(#[trigger] all[j]) by {
                    if j < at {
                        assert(all[j] == entries[j]);
                        assert(!p(entries[j]));
                    } else if j > at {
                        assert(all[j] == entries[j - 1]);
                        assert(!p(entries[j - 1]));
                    }
                }
                assert(all[kk] == v);
                lemma_first_match_at(all, p, kk);
            },
            None => {
                lemma_first_match(all, p);
                if first_match(all, p) is Some {
                    let v = first_match(all, p)->0;
                    let k = choose|k: int| 0 <= k < all.len() && #[trigger] all[k] == v;
                    if k < at {
                        assert(!p(entries[k]));
                    } else if k > at {
                        assert(!p(entries[k - 1]));
                    }
                }
            },
        }
    }
}

} // verus!
