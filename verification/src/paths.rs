//! Slash-separated paths: their parts, their parents and their order.

use vstd::prelude::*;
use crate::order::{lex_lt, text_before};
use crate::text::{chars_of, same_text, string_of};
use crate::views::{opt_view, views};

verus! {

/// A path starts at the root.
pub open spec fn is_rooted(p: Seq<char>) -> bool {
    p.len() > 0 && p[0] == '/'
}

/// A relative path starts with `.` as a part of its own.
pub open spec fn starts_here(p: Seq<char>) -> bool {
    p.len() > 0 && p[0] == '.' && (p.len() == 1 || p[1] == '/')
}

/// The length of what stands before a path's parts: the root, or the leading
/// `.`.
pub open spec fn body_start(p: Seq<char>) -> int {
    if is_rooted(p) || starts_here(p) {
        1
    } else {
        0
    }
}

/// Where the last slash in `p` at or after `from` stands, or `-1`.
pub open spec fn last_slash(p: Seq<char>, from: int) -> int
    decreases p.len(),
{
    if p.len() == 0 || p.len() <= from {
        -1
    } else if p.last() == '/' {
        p.len() - 1
    } else {
        last_slash(p.drop_last(), from)
    }
}

/// The text after the last slash.
pub open spec fn last_segment(p: Seq<char>, from: int) -> Seq<char> {
    let slash = last_slash(p, from);
    if slash < 0 {
        p.skip(from)
    } else {
        p.skip(slash + 1)
    }
}

/// The text before the last slash.
pub open spec fn before_last_segment(p: Seq<char>, from: int) -> Seq<char> {
    let slash = last_slash(p, from);
    if slash < 0 {
        p.take(from)
    } else {
        p.take(slash)
    }
}

/// A segment names something: it is neither empty nor `.`.
pub open spec fn is_part(segment: Seq<char>) -> bool {
    segment.len() > 0 && segment != seq!['.']
}

proof fn lemma_last_slash(p: Seq<char>, from: int)
    requires
        0 <= from <= p.len(),
    ensures
        last_slash(p, from) == -1 || from <= last_slash(p, from) < p.len(),
        last_slash(p, from) >= 0 ==> p[last_slash(p, from)] == '/',
    decreases p.len(),
{
    if p.len() > from && p.last() != '/' {
        lemma_last_slash(p.drop_last(), from);
    }
}

/// `p` without the segments at its end that name nothing.
pub open spec fn trim_segments(p: Seq<char>, from: int) -> Seq<char>
    decreases p.len(),
    when 0 <= from
    via trim_segments_decreases
{
    if p.len() <= from || is_part(last_segment(p, from)) {
        p
    } else {
        trim_segments(before_last_segment(p, from), from)
    }
}

#[via_fn]
proof fn trim_segments_decreases(p: Seq<char>, from: int) {
    if p.len() > from {
        lemma_last_slash(p, from);
    }
}

/// The path of the directory that a path lies in: `None` for the root and for
/// the empty path.
pub open spec fn parent_of(p: Seq<char>) -> Option<Seq<char>> {
    let from = body_start(p);
    let t = trim_segments(p, from);
    if t.len() > from {
        Some(trim_segments(before_last_segment(t, from), from))
    } else if starts_here(p) {
        Some(Seq::empty())
    } else {
        None
    }
}

/// The last part of a path, unless it is `..`.
pub open spec fn file_name_of(p: Seq<char>) -> Option<Seq<char>> {
    let from = body_start(p);
    let t = trim_segments(p, from);
    if t.len() > from && last_segment(t, from) != seq!['.', '.'] {
        Some(last_segment(t, from))
    } else {
        None
    }
}

/// Where the last dot of a name stands, or `-1`.
pub open spec fn last_dot(name: Seq<char>) -> int
    decreases name.len(),
{
    if name.len() == 0 {
        -1
    } else if name.last() == '.' {
        name.len() - 1
    } else {
        last_dot(name.drop_last())
    }
}

/// A name without its extension. A leading dot starts no extension.
pub open spec fn stem_of(name: Seq<char>) -> Seq<char> {
    if last_dot(name) > 0 {
        name.take(last_dot(name))
    } else {
        name
    }
}

/// The extension of a name.
pub open spec fn extension_of(name: Seq<char>) -> Option<Seq<char>> {
    if last_dot(name) > 0 {
        Some(name.skip(last_dot(name) + 1))
    } else {
        None
    }
}

fn find_body_start(p: &Vec<char>) -> (r: usize)
    ensures
        r as int == body_start(p@),
        r <= p@.len(),
{
    if p.len() > 0 && p[0] == '/' {
        1
    } else if p.len() > 0 && p[0] == '.' && (p.len() == 1 || p[1] == '/') {
        1
    } else {
        0
    }
}

/// Where the last slash of `p[from..to]` stands.
fn find_last_slash(p: &Vec<char>, from: usize, to: usize) -> (r: Option<usize>)
    requires
        from <= to <= p@.len(),
    ensures
        match r {
            Some(i) => from <= i < to && last_slash(p@.take(to as int), from as int) == i as int,
            None => last_slash(p@.take(to as int), from as int) == -1,
        },
{
    let mut i: usize = to;
    while i > from
        invariant
            from <= i <= to <= p@.len(),
            last_slash(p@.take(to as int), from as int) == last_slash(p@.take(i as int), from as int),
        decreases i,
    {
        proof {
            assert(p@.take(i as int).drop_last() =~= p@.take(i - 1));
        }
        if p[i - 1] == '/' {
            return Some(i - 1);
        }
        i -= 1;
    }
    None
}

/// How much of `p[..to]` is left without the segments at its end that name
/// nothing.
fn trim_to(p: &Vec<char>, from: usize, to: usize) -> (r: usize)
    requires
        from <= to <= p@.len(),
    ensures
        from <= r <= to,
        p@.take(r as int) == trim_segments(p@.take(to as int), from as int),
        r > from ==> is_part(last_segment(p@.take(r as int), from as int)),
{
    let mut end: usize = to;
    loop
        invariant
            from <= end <= to <= p@.len(),
            trim_segments(p@.take(to as int), from as int) == trim_segments(
                p@.take(end as int),
                from as int,
            ),
        decreases end,
    {
        if end == from {
            return end;
        }
        let slash: Option<usize> = find_last_slash(p, from, end);
        let start: usize = match slash {
            Some(i) => i + 1,
            None => from,
        };
        let ghost t = p@.take(end as int);
        let ghost segment = last_segment(t, from as int);
        proof {
            assert(segment =~= p@.subrange(start as int, end as int));
        }
        let empty: bool = start == end;
        let dot: bool = end - start == 1 && p[start] == '.';
        proof {
            assert(dot == (segment == seq!['.'])) by {
                if dot {
                    assert(segment =~= seq!['.']);
                }
                if segment == seq!['.'] {
                    assert(segment[0] == '.');
                }
            }
        }
        if !empty && !dot {
            return end;
        }
        let next: usize = match slash {
            Some(i) => i,
            None => from,
        };
        proof {
            assert(before_last_segment(t, from as int) =~= p@.take(next as int));
        }
        end = next;
    }
}

/// Where the last segment of `p[from..to]` starts.
fn segment_start(p: &Vec<char>, from: usize, to: usize) -> (r: usize)
    requires
        from <= to <= p@.len(),
    ensures
        from <= r <= to,
        last_segment(p@.take(to as int), from as int) == p@.subrange(r as int, to as int),
{
    match find_last_slash(p, from, to) {
        Some(i) => {
            proof {
                assert(last_segment(p@.take(to as int), from as int) =~= p@.subrange(i + 1, to as int));
            }
            i + 1
        },
        None => {
            proof {
                assert(last_segment(p@.take(to as int), from as int) =~= p@.subrange(
                    from as int,
                    to as int,
                ));
            }
            from
        },
    }
}

/// The path of the directory that a path lies in.
pub fn parent(path: &str) -> (r: Option<String>)
    ensures
        opt_view(r) == parent_of(path@),
{
    let p: Vec<char> = chars_of(path);
    let from: usize = find_body_start(&p);
    proof {
        assert(p@.take(p@.len() as int) =~= path@);
    }
    let end: usize = trim_to(&p, from, p.len());
    if end > from {
        let next: usize = match find_last_slash(&p, from, end) {
            Some(i) => i,
            None => from,
        };
        proof {
            assert(before_last_segment(p@.take(end as int), from as int) =~= p@.take(next as int));
        }
        let last: usize = trim_to(&p, from, next);
        proof {
            assert(p@.subrange(0, last as int) =~= p@.take(last as int));
        }
        Some(string_of(&p, 0, last))
    } else if p.len() > 0 && p[0] == '.' && (p.len() == 1 || p[1] == '/') {
        Some(String::new())
    } else {
        None
    }
}

/// The last part of a path, unless it is `..`.
pub fn file_name(path: &str) -> (r: Option<String>)
    ensures
        opt_view(r) == file_name_of(path@),
{
    let p: Vec<char> = chars_of(path);
    let from: usize = find_body_start(&p);
    proof {
        assert(p@.take(p@.len() as int) =~= path@);
    }
    let end: usize = trim_to(&p, from, p.len());
    if end == from {
        return None;
    }
    let start: usize = segment_start(&p, from, end);
    let ghost segment = last_segment(p@.take(end as int), from as int);
    let up: bool = end - start == 2 && p[start] == '.' && p[start + 1] == '.';
    proof {
        assert(up == (segment == seq!['.', '.'])) by {
            if up {
                assert(segment =~= seq!['.', '.']);
            }
            if segment == seq!['.', '.'] {
                assert(segment[0] == '.' && segment[1] == '.');
            }
        }
    }
    if up {
        return None;
    }
    Some(string_of(&p, start, end))
}

fn find_last_dot(name: &Vec<char>) -> (r: Option<usize>)
    ensures
        match r {
            Some(i) => i < name@.len() && last_dot(name@) == i as int,
            None => last_dot(name@) == -1,
        },
{
    let mut i: usize = name.len();
    proof {
        assert(name@.take(name@.len() as int) =~= name@);
    }
    while i > 0
        invariant
            i <= name@.len(),
            last_dot(name@) == last_dot(name@.take(i as int)),
        decreases i,
    {
        proof {
            assert(name@.take(i as int).drop_last() =~= name@.take(i - 1));
        }
        if name[i - 1] == '.' {
            return Some(i - 1);
        }
        i -= 1;
    }
    None
}

/// The last part of a path without its extension.
pub fn file_stem(path: &str) -> (r: Option<String>)
    ensures
        opt_view(r) == (match file_name_of(path@) {
            Some(name) => Some(stem_of(name)),
            None => None,
        }),
{
    match file_name(path) {
        Some(name) => {
            let chars: Vec<char> = chars_of(name.as_str());
            match find_last_dot(&chars) {
                Some(i) => if i > 0 {
                    proof {
                        assert(chars@.subrange(0, i as int) =~= chars@.take(i as int));
                    }
                    Some(string_of(&chars, 0, i))
                } else {
                    Some(name)
                },
                None => Some(name),
            }
        },
        None => None,
    }
}

/// The extension of the last part of a path.
pub fn extension(path: &str) -> (r: Option<String>)
    ensures
        opt_view(r) == (match file_name_of(path@) {
            Some(name) => extension_of(name),
            None => None,
        }),
{
    match file_name(path) {
        Some(name) => {
            let chars: Vec<char> = chars_of(name.as_str());
            match find_last_dot(&chars) {
                Some(i) => if i > 0 && i < chars.len() {
                    proof {
                        assert(chars@.subrange(i + 1, chars@.len() as int) =~= chars@.skip(i + 1));
                    }
                    let end: usize = chars.len();
                    Some(string_of(&chars, i + 1, end))
                } else {
                    None
                },
                None => None,
            }
        },
        None => None,
    }
}

/// `rest` below the directory `base`; an absolute `rest` stands for itself.
pub open spec fn joined_path(base: Seq<char>, rest: Seq<char>) -> Seq<char> {
    if is_rooted(rest) {
        rest
    } else if base.len() == 0 || base.last() == '/' {
        base + rest
    } else {
        base + seq!['/'] + rest
    }
}

/// `rest` below the directory `base`.
pub fn join_path(base: &str, rest: &str) -> (r: String)
    ensures
        r@ == joined_path(base@, rest@),
{
    let b: Vec<char> = chars_of(base);
    let t: Vec<char> = chars_of(rest);
    if t.len() > 0 && t[0] == '/' {
        return rest.to_owned();
    }
    let mut r: String = base.to_owned();
    if b.len() > 0 && b[b.len() - 1] != '/' {
        r.push('/');
        proof {
            assert(r@ =~= base@ + seq!['/']);
        }
    }
    r.append(rest);
    r
}

/// A part of a path: `..` stands before every name, `.` and the root before
/// both.
#[derive(Debug)]
pub enum Part {
    Root,
    Here,
    Up,
    Name(String),
}

/// What a [`Part`] holds.
pub enum PartView {
    Root,
    Here,
    Up,
    Name(Seq<char>),
}

impl View for Part {
    type V = PartView;

    open spec fn view(&self) -> PartView {
        match *self {
            Part::Root => PartView::Root,
            Part::Here => PartView::Here,
            Part::Up => PartView::Up,
            Part::Name(s) => PartView::Name(s@),
        }
    }
}

/// The part that a segment names.
pub open spec fn part_of(segment: Seq<char>) -> PartView {
    if segment == seq!['.', '.'] {
        PartView::Up
    } else {
        PartView::Name(segment)
    }
}

/// The parts of the body of a path.
pub open spec fn body_parts(p: Seq<char>, from: int) -> Seq<PartView>
    decreases p.len(),
    when 0 <= from
    via body_parts_decreases
{
    if p.len() <= from {
        Seq::empty()
    } else if is_part(last_segment(p, from)) {
        body_parts(before_last_segment(p, from), from).push(part_of(last_segment(p, from)))
    } else {
        body_parts(before_last_segment(p, from), from)
    }
}

#[via_fn]
proof fn body_parts_decreases(p: Seq<char>, from: int) {
    if p.len() > from {
        lemma_last_slash(p, from);
    }
}

/// The parts of a path, from its start. Repeated slashes, a trailing slash and
/// inner `.` segments make no difference.
pub open spec fn parts_of(p: Seq<char>) -> Seq<PartView> {
    let body = body_parts(p, body_start(p));
    if is_rooted(p) {
        seq![PartView::Root] + body
    } else if starts_here(p) {
        seq![PartView::Here] + body
    } else {
        body
    }
}

/// The parts of a path, from its start.
pub fn parts(path: &str) -> (r: Vec<Part>)
    ensures
        views(r@) == parts_of(path@),
{
    let p: Vec<char> = chars_of(path);
    let from: usize = find_body_start(&p);
    let mut back: Vec<Part> = Vec::new();
    let mut end: usize = p.len();
    proof {
        assert(p@.take(p@.len() as int) =~= path@);
        assert(views(back@).reverse() =~= Seq::<PartView>::empty());
    }
    while end > from
        invariant
            from <= end <= p@.len(),
            p@ == path@,
            body_parts(path@, from as int) =~= body_parts(p@.take(end as int), from as int) + views(
                back@,
            ).reverse(),
        decreases end,
    {
        let start: usize = segment_start(&p, from, end);
        let ghost t = p@.take(end as int);
        let ghost segment = last_segment(t, from as int);
        let next: usize = match find_last_slash(&p, from, end) {
            Some(i) => i,
            None => from,
        };
        proof {
            assert(before_last_segment(t, from as int) =~= p@.take(next as int));
        }
        let len: usize = end - start;
        let dot: bool = len == 1 && p[start] == '.';
        let up: bool = len == 2 && p[start] == '.' && p[start + 1] == '.';
        proof {
            assert(segment == p@.subrange(start as int, end as int));
            assert(segment.len() == len);
            assert(dot == (segment == seq!['.'])) by {
                if dot {
                    assert(segment[0] == p@[start as int]);
                    assert(segment =~= seq!['.']);
                }
                if segment == seq!['.'] {
                    assert(segment.len() == 1);
                    assert(segment[0] == '.');
                    assert(p@[start as int] == '.');
                }
            }
            assert(up == (segment == seq!['.', '.'])) by {
                if up {
                    assert(segment[0] == p@[start as int] && segment[1] == p@[start + 1]);
                    assert(segment =~= seq!['.', '.']);
                }
                if segment == seq!['.', '.'] {
                    assert(segment.len() == 2);
                    assert(segment[0] == '.' && segment[1] == '.');
                    assert(p@[start as int] == '.' && p@[start + 1] == '.');
                }
            }
        }
        if len > 0 && !dot {
            let part: Part = if up {
                Part::Up
            } else {
                Part::Name(string_of(&p, start, end))
            };
            let ghost before = back@;
            let ghost v = part@;
            back.push(part);
            proof {
                assert(v == part_of(segment));
                assert(views(back@) =~= views(before).push(v));
                assert(views(back@).reverse() =~= seq![v] + views(before).reverse());
            }
        }
        end = next;
    }
    let rooted: bool = p.len() > 0 && p[0] == '/';
    let here: bool = p.len() > 0 && p[0] == '.' && (p.len() == 1 || p[1] == '/');
    let ghost body = back@;
    if rooted {
        back.push(Part::Root);
        proof {
            assert(views(back@) =~= views(body).push(PartView::Root));
        }
    } else if here {
        back.push(Part::Here);
        proof {
            assert(views(back@) =~= views(body).push(PartView::Here));
        }
    }
    proof {
        assert(views(back@).reverse() =~= parts_of(path@));
    }
    reverse_parts(back)
}

fn reverse_parts(back: Vec<Part>) -> (r: Vec<Part>)
    ensures
        views(r@) == views(back@).reverse(),
{
    let mut rest: Vec<Part> = back;
    let mut r: Vec<Part> = Vec::new();
    while rest.len() > 0
        invariant
            views(back@).reverse() =~= views(r@) + views(rest@).reverse(),
        decreases rest@.len(),
    {
        let ghost before = rest@;
        let ghost done = r@;
        match rest.pop() {
            Some(part) => {
                let ghost v = part@;
                r.push(part);
                proof {
                    assert(views(before) =~= views(rest@).push(v));
                    assert(views(r@) =~= views(done).push(v));
                    assert(views(before).reverse() =~= seq![v] + views(rest@).reverse());
                }
            },
            None => {},
        }
    }
    r
}

/// The rank of a part's kind.
pub open spec fn part_rank(p: PartView) -> int {
    match p {
        PartView::Root => 0,
        PartView::Here => 1,
        PartView::Up => 2,
        PartView::Name(_) => 3,
    }
}

/// `a` comes before `b`.
pub open spec fn part_lt(a: PartView, b: PartView) -> bool {
    part_rank(a) < part_rank(b) || match (a, b) {
        (PartView::Name(x), PartView::Name(y)) => lex_lt(x, y),
        _ => false,
    }
}

/// `a` and `b` agree on their first `k` parts, and `a` ends there or has the
/// earlier part there.
pub open spec fn parts_lt_at(a: Seq<PartView>, b: Seq<PartView>, k: int) -> bool {
    &&& 0 <= k <= a.len()
    &&& k < b.len()
    &&& forall|j: int| 0 <= j < k ==> a[j] == b[j]
    &&& k == a.len() || part_lt(a[k], b[k])
}

/// `a` comes before `b` in the order of their parts.
pub open spec fn parts_lt(a: Seq<PartView>, b: Seq<PartView>) -> bool {
    exists|k: int| parts_lt_at(a, b, k)
}

fn rank_of(p: &Part) -> (r: u8)
    ensures
        r as int == part_rank(p@),
{
    match p {
        Part::Root => 0,
        Part::Here => 1,
        Part::Up => 2,
        Part::Name(_) => 3,
    }
}

fn part_before(a: &Part, b: &Part) -> (r: bool)
    ensures
        r == part_lt(a@, b@),
{
    let x: u8 = rank_of(a);
    let y: u8 = rank_of(b);
    if x != y {
        return x < y;
    }
    match a {
        Part::Name(s) => match b {
            Part::Name(t) => text_before(s.as_str(), t.as_str()),
            _ => false,
        },
        _ => false,
    }
}

fn same_part(a: &Part, b: &Part) -> (r: bool)
    ensures
        r == (a@ == b@),
{
    if rank_of(a) != rank_of(b) {
        return false;
    }
    match a {
        Part::Name(s) => match b {
            Part::Name(t) => same_text(s.as_str(), t.as_str()),
            _ => true,
        },
        _ => true,
    }
}

/// Whether two lists of parts are the same.
pub fn same_parts(x: &Vec<Part>, y: &Vec<Part>) -> (r: bool)
    ensures
        r == (views(x@) == views(y@)),
{
    if x.len() != y.len() {
        proof {
            assert(views(x@).len() != views(y@).len());
        }
        return false;
    }
    let mut i: usize = 0;
    while i < x.len()
        invariant
            i <= x@.len() == y@.len(),
            forall|j: int| 0 <= j < i ==> (#[trigger] views(x@)[j]) == views(y@)[j],
        decreases x@.len() - i,
    {
        if !same_part(&x[i], &y[i]) {
            proof {
                assert(views(x@)[i as int] != views(y@)[i as int]);
            }
            return false;
        }
        i += 1;
    }
    proof {
        assert(views(x@) =~= views(y@));
    }
    true
}

proof fn lemma_part_lt_asymmetric(a: PartView, b: PartView)
    requires
        part_lt(a, b),
    ensures
        !part_lt(b, a),
        a != b,
{
    match (a, b) {
        (PartView::Name(x), PartView::Name(y)) => {
            crate::order::lemma_lex_asymmetric(x, y);
        },
        _ => {},
    }
}

proof fn lemma_part_lt_total(a: PartView, b: PartView)
    ensures
        part_lt(a, b) || part_lt(b, a) || a == b,
{
    match (a, b) {
        (PartView::Name(x), PartView::Name(y)) => {
            crate::order::lemma_lex_total(x, y);
        },
        _ => {},
    }
}

/// No list of parts comes before itself, and no two come before each other.
pub proof fn lemma_parts_lt_asymmetric(a: Seq<PartView>, b: Seq<PartView>)
    requires
        parts_lt(a, b),
    ensures
        !parts_lt(b, a),
        a != b,
{
    let k = choose|k: int| parts_lt_at(a, b, k);
    if k < a.len() {
        lemma_part_lt_asymmetric(a[k], b[k]);
    }
    if parts_lt(b, a) {
        let m = choose|m: int| parts_lt_at(b, a, m);
        if m < b.len() {
            lemma_part_lt_asymmetric(b[m], a[m]);
        }
        if k < m {
            assert(b[k] == a[k]);
        } else if m < k {
            assert(a[m] == b[m]);
        }
    }
}

proof fn lemma_part_lt_transitive(a: PartView, b: PartView, c: PartView)
    requires
        part_lt(a, b),
        part_lt(b, c),
    ensures
        part_lt(a, c),
{
    match (a, b, c) {
        (PartView::Name(x), PartView::Name(y), PartView::Name(z)) => {
            crate::order::lemma_lex_transitive(x, y, z);
        },
        _ => {},
    }
}

/// Two lists of parts that come in neither order are the same.
pub proof fn lemma_parts_lt_total(a: Seq<PartView>, b: Seq<PartView>)
    ensures
        parts_lt(a, b) || parts_lt(b, a) || a == b,
{
    lemma_parts_scan(a, b, 0);
}

proof fn lemma_parts_scan(a: Seq<PartView>, b: Seq<PartView>, k: int)
    requires
        0 <= k <= a.len(),
        k <= b.len(),
        forall|j: int| 0 <= j < k ==> a[j] == b[j],
    ensures
        parts_lt(a, b) || parts_lt(b, a) || a == b,
    decreases a.len() - k,
{
    if k < a.len() && k < b.len() && a[k] == b[k] {
        lemma_parts_scan(a, b, k + 1);
    } else if k == a.len() && k == b.len() {
        assert(a =~= b);
    } else {
        if k < a.len() && k < b.len() {
            lemma_part_lt_total(a[k], b[k]);
        }
        if k == a.len() || (k < b.len() && part_lt(a[k], b[k])) {
            assert(parts_lt_at(a, b, k));
        } else {
            assert(parts_lt_at(b, a, k));
        }
    }
}

/// The order of parts is transitive.
pub proof fn lemma_parts_lt_transitive(a: Seq<PartView>, b: Seq<PartView>, c: Seq<PartView>)
    requires
        parts_lt(a, b),
        parts_lt(b, c),
    ensures
        parts_lt(a, c),
{
    let k = choose|k: int| parts_lt_at(a, b, k);
    let m = choose|m: int| parts_lt_at(b, c, m);
    let n = if k < m {
        k
    } else {
        m
    };
    if k == m && k < a.len() && m < b.len() {
        lemma_part_lt_transitive(a[k], b[k], c[k]);
    }
    assert(parts_lt_at(a, c, n));
}

/// Whether one list of parts comes before another.
pub fn parts_before(x: &Vec<Part>, y: &Vec<Part>) -> (r: bool)
    ensures
        r == parts_lt(views(x@), views(y@)),
{
    let ghost s = views(x@);
    let ghost t = views(y@);
    let mut i: usize = 0;
    while i < x.len() && i < y.len()
        invariant
            i <= x@.len(),
            i <= y@.len(),
            s == views(x@),
            t == views(y@),
            forall|j: int| 0 <= j < i ==> s[j] == t[j],
        decreases x@.len() - i,
    {
        proof {
            assert(s[i as int] == x@[i as int]@);
            assert(t[i as int] == y@[i as int]@);
        }
        if part_before(&x[i], &y[i]) {
            proof {
                assert(parts_lt_at(s, t, i as int));
            }
            return true;
        }
        if part_before(&y[i], &x[i]) {
            proof {
                assert(parts_lt_at(t, s, i as int));
                lemma_parts_lt_asymmetric(t, s);
            }
            return false;
        }
        proof {
            lemma_part_lt_total(s[i as int], t[i as int]);
        }
        i += 1;
    }
    if i < y.len() {
        proof {
            assert(parts_lt_at(s, t, i as int));
        }
        true
    } else {
        proof {
            if i < x.len() {
                assert(parts_lt_at(t, s, i as int));
                lemma_parts_lt_asymmetric(t, s);
            } else {
                assert(s =~= t);
                if parts_lt(s, t) {
                    lemma_parts_lt_asymmetric(s, t);
                }
            }
        }
        false
    }
}

} // verus!
