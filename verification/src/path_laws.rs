//! Laws of paths: what a path that was put together consists of.

use vstd::prelude::*;
use crate::order::lex_lt;
use crate::paths::{
    before_last_segment, body_parts, body_start, extension_of, file_name_of, is_part, is_rooted,
    joined_path, last_dot, last_segment, last_slash, parent_of, part_lt, part_of, parts_lt,
    parts_lt_at, parts_of, starts_here, stem_of, trim_segments, PartView,
};
use crate::scan::{entry_action, EntryAction};

verus! {

/// A folder's path that ends in a name: not in a slash or in `.`, and not the
/// root.
pub open spec fn is_folder(base: Seq<char>) -> bool {
    base.len() > body_start(base) && is_part(last_segment(base, body_start(base)))
}

/// A name that can stand in a folder.
pub open spec fn is_name(name: Seq<char>) -> bool {
    name.len() > 0 && !name.contains('/') && name != seq!['.'] && name != seq!['.', '.']
}

proof fn lemma_slash_before_name(base: Seq<char>, name: Seq<char>, from: int)
    requires
        0 <= from <= base.len(),
        !name.contains('/'),
    ensures
        last_slash(base + seq!['/'] + name, from) == base.len(),
    decreases name.len(),
{
    let p = base + seq!['/'] + name;
    if name.len() > 0 {
        let rest = name.drop_last();
        assert(!rest.contains('/')) by {
            if rest.contains('/') {
                let i = choose|i: int| 0 <= i < rest.len() && rest[i] == '/';
                assert(name[i] == '/');
            }
        }
        assert(p.last() == name[name.len() - 1]);
        assert(p.drop_last() =~= base + seq!['/'] + rest);
        lemma_slash_before_name(base, rest, from);
    } else {
        assert(p =~= base.push('/'));
    }
}

/// A file in a folder has its own name and the folder as its parent, and one
/// part more than the folder.
pub proof fn law_file_in_folder(base: Seq<char>, name: Seq<char>)
    requires
        is_folder(base),
        is_name(name),
        base.last() != '/',
    ensures
        joined_path(base, name) == base + seq!['/'] + name,
        file_name_of(joined_path(base, name)) == Some(name),
        parent_of(joined_path(base, name)) == Some(base),
        parts_of(joined_path(base, name)) == parts_of(base).push(PartView::Name(name)),
{
    let from = body_start(base);
    let p = base + seq!['/'] + name;
    assert(!is_rooted(name)) by {
        if is_rooted(name) {
            assert(name.contains(name[0]));
        }
    }
    assert(p[0] == base[0]);
    if base.len() > 1 {
        assert(p[1] == base[1]);
    } else {
        assert(p[1] == '/');
        assert(base =~= seq![base[0]]);
        if base[0] == '.' {
            assert(starts_here(base));
        }
    }
    assert(body_start(p) == from);
    assert(is_rooted(p) == is_rooted(base));
    assert(starts_here(p) == starts_here(base));
    lemma_slash_before_name(base, name, from);
    assert(p.skip(base.len() as int + 1) =~= name);
    assert(p.take(base.len() as int) =~= base);
    assert(last_segment(p, from) == name);
    assert(before_last_segment(p, from) == base);
    assert(is_part(name));
    assert(trim_segments(p, from) == p);
    assert(trim_segments(base, from) == base);
    assert(body_parts(p, from) == body_parts(base, from).push(part_of(name)));
    assert(parts_of(p) =~= parts_of(base).push(PartView::Name(name)));
}

/// A name consists of its stem and its extension, which is what follows its last
/// dot; a dot at its start starts none.
pub proof fn law_stem_and_extension(stem: Seq<char>, extension: Seq<char>)
    requires
        !extension.contains('.'),
    ensures
        stem.len() > 0 ==> stem_of(stem + seq!['.'] + extension) == stem && extension_of(
            stem + seq!['.'] + extension,
        ) == Some(extension),
        stem_of(seq!['.'] + extension) == seq!['.'] + extension,
        extension_of(seq!['.'] + extension) is None,
        stem_of(extension) == extension,
        extension_of(extension) is None,
{
    lemma_last_dot(stem, extension);
    lemma_last_dot(Seq::empty(), extension);
    lemma_no_dot(extension);
    let name = stem + seq!['.'] + extension;
    assert(name.take(stem.len() as int) =~= stem);
    assert(name.skip(stem.len() as int + 1) =~= extension);
    assert(Seq::<char>::empty() + seq!['.'] + extension =~= seq!['.'] + extension);
}

proof fn lemma_last_dot(stem: Seq<char>, extension: Seq<char>)
    requires
        !extension.contains('.'),
    ensures
        last_dot(stem + seq!['.'] + extension) == stem.len(),
    decreases extension.len(),
{
    let name = stem + seq!['.'] + extension;
    if extension.len() > 0 {
        let rest = extension.drop_last();
        assert(!rest.contains('.')) by {
            if rest.contains('.') {
                let i = choose|i: int| 0 <= i < rest.len() && rest[i] == '.';
                assert(extension[i] == '.');
            }
        }
        assert(name.last() == extension[extension.len() - 1]);
        assert(name.drop_last() =~= stem + seq!['.'] + rest);
        lemma_last_dot(stem, rest);
    } else {
        assert(name =~= stem.push('.'));
    }
}

proof fn lemma_no_dot(name: Seq<char>)
    requires
        !name.contains('.'),
    ensures
        last_dot(name) == -1,
    decreases name.len(),
{
    if name.len() > 0 {
        let rest = name.drop_last();
        assert(!rest.contains('.')) by {
            if rest.contains('.') {
                let i = choose|i: int| 0 <= i < rest.len() && rest[i] == '.';
                assert(name[i] == '.');
            }
        }
        assert(name[name.len() - 1] != '.');
        lemma_no_dot(rest);
    }
}

/// Files in one folder come in the order of their names.
pub proof fn law_files_in_order_of_names(base: Seq<char>, a: Seq<char>, b: Seq<char>)
    requires
        is_folder(base),
        base.last() != '/',
        is_name(a),
        is_name(b),
    ensures
        parts_lt(parts_of(joined_path(base, a)), parts_of(joined_path(base, b))) <==> lex_lt(a, b),
{
    law_file_in_folder(base, a);
    law_file_in_folder(base, b);
    let x = parts_of(joined_path(base, a));
    let y = parts_of(joined_path(base, b));
    let n = parts_of(base).len() as int;
    assert forall|j: int| 0 <= j < n implies x[j] == y[j] by {}
    if lex_lt(a, b) {
        assert(part_lt(x[n], y[n]));
        assert(parts_lt_at(x, y, n));
    }
    if parts_lt(x, y) {
        let k = choose|k: int| parts_lt_at(x, y, k);
        if k < n {
            lemma_part_not_before_itself(x[k]);
        }
        assert(k == n);
    }
}

proof fn lemma_part_not_before_itself(p: PartView)
    ensures
        !part_lt(p, p),
{
    if let PartView::Name(s) = p {
        crate::order::lemma_lex_irreflexive(s);
    }
}

/// A scan takes the Markdown files of a folder, walks its folders, and ignores
/// the project's own state and all other files.
pub proof fn law_what_a_scan_takes(base: Seq<char>, stem: Seq<char>, extension: Seq<char>)
    requires
        is_folder(base),
        base.last() != '/',
        stem.len() > 0,
        !stem.contains('/'),
        !extension.contains('/'),
        !extension.contains('.'),
        extension.len() > 0,
    ensures
        ({
            let path = joined_path(base, stem + seq!['.'] + extension);
            &&& entry_action(path, false) == if extension == seq!['m', 'd'] {
                EntryAction::Take
            } else {
                EntryAction::Ignore
            }
            &&& entry_action(path, true) == EntryAction::Descend
        }),
        entry_action(joined_path(base, ".kern"@), true) == EntryAction::Ignore,
        entry_action(joined_path(base, ".kern"@), false) == EntryAction::Ignore,
{
    reveal_strlit(".kern");
    reveal_strlit("md");
    let name = stem + seq!['.'] + extension;
    assert(!name.contains('/')) by {
        if name.contains('/') {
            let i = choose|i: int| 0 <= i < name.len() && name[i] == '/';
            if i < stem.len() {
                assert(stem[i] == '/');
            } else if i > stem.len() {
                assert(extension[i - stem.len() - 1] == '/');
            }
        }
    }
    assert(name.len() >= 3);
    law_stem_and_extension(stem, extension);
    law_file_in_folder(base, name);
    assert("md"@ =~= seq!['m', 'd']);
    assert(name != ".kern"@) by {
        if name == ".kern"@ {
            assert(name[stem.len() as int] == '.');
        }
    }
    let state = ".kern"@;
    assert(!state.contains('/'));
    assert(state.len() == 5);
    law_file_in_folder(base, state);
}

} // verus!
