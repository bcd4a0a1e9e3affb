//! Breadth-first search over relations, followed in both directions.

use vstd::prelude::*;
use crate::ids::Uuid;
use crate::records::RelationRecord;

verus! {

/// `r` joins `a` and `b`, whichever of them is its source.
pub open spec fn connects(r: RelationRecord, a: Uuid, b: Uuid) -> bool {
    (r.source_entity_id == a && r.target_entity_id == b) || (r.source_entity_id == b
        && r.target_entity_id == a)
}

/// Some relation joins `a` and `b`.
pub open spec fn adjacent(relations: Seq<RelationRecord>, a: Uuid, b: Uuid) -> bool {
    exists|i: int| 0 <= i < relations.len() && connects(#[trigger] relations[i], a, b)
}

/// `to` is reached from `from` over at most `k` relations.
pub open spec fn within(relations: Seq<RelationRecord>, from: Uuid, to: Uuid, k: nat) -> bool
    decreases k,
{
    if k == 0 {
        from == to
    } else {
        within(relations, from, to, (k - 1) as nat) || exists|mid: Uuid|
            within(relations, from, mid, (k - 1) as nat) && #[trigger] adjacent(relations, mid, to)
    }
}

/// `to` is reached from `from` over `k` relations and over no fewer.
pub open spec fn hops_are(relations: Seq<RelationRecord>, from: Uuid, to: Uuid, k: nat) -> bool {
    within(relations, from, to, k) && (k > 0 ==> !within(relations, from, to, (k - 1) as nat))
}

/// What is within reach stays so with more hops.
pub proof fn lemma_within_monotone(relations: Seq<RelationRecord>, from: Uuid, to: Uuid, k: nat, m: nat)
    requires
        within(relations, from, to, k),
        k <= m,
    ensures
        within(relations, from, to, m),
    decreases m - k,
{
    if k < m {
        lemma_within_monotone(relations, from, to, k, (m - 1) as nat);
    }
}

/// One relation more reaches one node further.
pub proof fn lemma_within_step(relations: Seq<RelationRecord>, from: Uuid, mid: Uuid, to: Uuid, k: nat)
    requires
        within(relations, from, mid, k),
        adjacent(relations, mid, to),
    ensures
        within(relations, from, to, k + 1),
{
    assert(within(relations, from, mid, ((k + 1) - 1) as nat));
}

/// Where `k + 1` hops reach no more than `k`, neither does any larger number.
proof fn lemma_within_closed(relations: Seq<RelationRecord>, from: Uuid, to: Uuid, k: nat, m: nat)
    requires
        forall|x: Uuid| #[trigger]
            within(relations, from, x, k + 1) ==> within(relations, from, x, k),
        within(relations, from, to, m),
    ensures
        within(relations, from, to, k),
    decreases m,
{
    if m <= k {
        lemma_within_monotone(relations, from, to, m, k);
    } else if within(relations, from, to, (m - 1) as nat) {
        lemma_within_closed(relations, from, to, k, (m - 1) as nat);
    } else {
        let mid = choose|mid: Uuid|
            within(relations, from, mid, (m - 1) as nat) && #[trigger] adjacent(relations, mid, to);
        lemma_within_closed(relations, from, mid, k, (m - 1) as nat);
        lemma_within_step(relations, from, mid, to, k);
    }
}

/// Relations can be followed either way, so what a node reaches reaches it.
pub proof fn law_within_symmetric(relations: Seq<RelationRecord>, a: Uuid, b: Uuid, k: nat)
    requires
        within(relations, a, b, k),
    ensures
        within(relations, b, a, k),
    decreases k,
{
    if k > 0 {
        if within(relations, a, b, (k - 1) as nat) {
            law_within_symmetric(relations, a, b, (k - 1) as nat);
        } else {
            let mid = choose|mid: Uuid|
                within(relations, a, mid, (k - 1) as nat) && #[trigger] adjacent(relations, mid, b);
            law_within_symmetric(relations, a, mid, (k - 1) as nat);
            let i = choose|i: int| 0 <= i < relations.len() && connects(#[trigger] relations[i], mid, b);
            assert(connects(relations[i], b, mid));
            assert(adjacent(relations, b, mid));
            lemma_within_prepend(relations, b, mid, a, (k - 1) as nat);
        }
    }
}

proof fn lemma_within_prepend(relations: Seq<RelationRecord>, from: Uuid, mid: Uuid, to: Uuid, k: nat)
    requires
        adjacent(relations, from, mid),
        within(relations, mid, to, k),
    ensures
        within(relations, from, to, k + 1),
    decreases k,
{
    if k == 0 {
        assert(within(relations, from, from, 0));
        lemma_within_step(relations, from, from, mid, 0);
    } else if within(relations, mid, to, (k - 1) as nat) {
        lemma_within_prepend(relations, from, mid, to, (k - 1) as nat);
    } else {
        let last = choose|last: Uuid|
            within(relations, mid, last, (k - 1) as nat) && #[trigger] adjacent(relations, last, to);
        lemma_within_prepend(relations, from, mid, last, (k - 1) as nat);
        lemma_within_step(relations, from, last, to, k);
    }
}

/// The nodes that a search has found, in the order in which it found them.
/// Each but the first was reached from the node at `parents`, over the
/// relation at `edges`, and is `hops` away from the first.
pub struct Exploration {
    pub nodes: Vec<Uuid>,
    pub parents: Vec<usize>,
    pub edges: Vec<usize>,
    pub hops: Vec<u32>,
}

impl Exploration {
    /// Each node is found once, at its distance from `from`, by way of a node
    /// found before it.
    pub open spec fn wf(&self, relations: Seq<RelationRecord>, from: Uuid) -> bool {
        &&& self.nodes@.len() > 0
        &&& self.parents@.len() == self.nodes@.len()
        &&& self.edges@.len() == self.nodes@.len()
        &&& self.hops@.len() == self.nodes@.len()
        &&& self.nodes@[0] == from
        &&& self.hops@[0] == 0
        &&& self.nodes@.no_duplicates()
        &&& forall|i: int|
            0 <= i < self.nodes@.len() ==> hops_are(
                relations,
                from,
                #[trigger] self.nodes@[i],
                self.hops@[i] as nat,
            )
        &&& forall|i: int|
            0 < i < self.nodes@.len() ==> {
                &&& (#[trigger] self.parents@[i]) < i
                &&& self.edges@[i] < relations.len()
                &&& connects(
                    relations[self.edges@[i] as int],
                    self.nodes@[self.parents@[i] as int],
                    self.nodes@[i],
                )
                &&& self.hops@[i] == self.hops@[self.parents@[i] as int] + 1
            }
        &&& forall|i: int, j: int|
            0 <= i <= j < self.nodes@.len() ==> (#[trigger] self.hops@[i]) <= (#[trigger] self.hops@[j])
    }
}

/// Where `id` stands in `nodes`.
pub fn position(nodes: &Vec<Uuid>, id: Uuid) -> (r: Option<usize>)
    ensures
        match r {
            Some(i) => i < nodes@.len() && nodes@[i as int] == id,
            None => !nodes@.contains(id),
        },
{
    let mut i: usize = 0;
    while i < nodes.len()
        invariant
            i <= nodes@.len(),
            forall|j: int| 0 <= j < i ==> nodes@[j] != id,
        decreases nodes@.len() - i,
    {
        if nodes[i] == id {
            return Some(i);
        }
        i += 1;
    }
    None
}

/// The state of a search while it expands the nodes that are `level` hops
/// away, which stand at `lo..hi`; those before `current` are done.
spec fn expanding(
    ex: Exploration,
    relations: Seq<RelationRecord>,
    from: Uuid,
    level: u32,
    hi: int,
    current: int,
) -> bool {
    &&& ex.wf(relations, from)
    &&& 0 <= current <= hi <= ex.nodes@.len()
    &&& forall|i: int| 0 <= i < hi ==> (#[trigger] ex.hops@[i]) <= level
    &&& forall|i: int| hi <= i < ex.nodes@.len() ==> #[trigger] ex.hops@[i] == level + 1
    &&& forall|x: Uuid| #[trigger]
        within(relations, from, x, level as nat) ==> ex.nodes@.take(hi).contains(x)
    &&& forall|i: int, y: Uuid|
        0 <= i < current && #[trigger] adjacent(relations, ex.nodes@[i], y) ==> ex.nodes@.contains(y)
}

/// Expands the node at `current`: finds the nodes joined to it that were not
/// found before, and stops at `stop`.
fn expand(
    ex: &mut Exploration,
    relations: &Vec<RelationRecord>,
    from: Uuid,
    stop: Option<Uuid>,
    level: u32,
    hi: usize,
    current: usize,
) -> (stopped: bool)
    requires
        expanding(*old(ex), relations@, from, level, hi as int, current as int),
        current < hi,
        old(ex).hops@[current as int] == level,
        level < u32::MAX,
        stop matches Some(s) ==> !old(ex).nodes@.contains(s),
    ensures
        final(ex).wf(relations@, from),
        forall|i: int| 0 <= i < final(ex).nodes@.len() ==> #[trigger] final(ex).hops@[i] <= level + 1,
        stopped ==> stop is Some && final(ex).nodes@.last() == stop->0,
        !stopped ==> {
            &&& expanding(*final(ex), relations@, from, level, hi as int, current + 1)
            &&& stop matches Some(s) ==> !final(ex).nodes@.contains(s)
            &&& final(ex).nodes@.take(hi as int) == old(ex).nodes@.take(hi as int)
            &&& final(ex).hops@.take(hi as int) == old(ex).hops@.take(hi as int)
        },
{
    let node: Uuid = ex.nodes[current];
    let ghost start = *ex;
    let mut e: usize = 0;
    while e < relations.len()
        invariant
            e <= relations@.len(),
            expanding(*ex, relations@, from, level, hi as int, current as int),
            current < hi,
            ex.nodes@[current as int] == node,
            ex.hops@[current as int] == level,
            level < u32::MAX,
            stop matches Some(s) ==> !ex.nodes@.contains(s),
            ex.nodes@.take(hi as int) == start.nodes@.take(hi as int),
            ex.hops@.take(hi as int) == start.hops@.take(hi as int),
            forall|j: int, y: Uuid|
                0 <= j < e && #[trigger] connects(relations@[j], node, y) ==> ex.nodes@.contains(y),
        decreases relations@.len() - e,
    {
        let relation: RelationRecord = relations[e];
        let source_is_node: bool = relation.source_entity_id == node;
        let target_is_node: bool = relation.target_entity_id == node;
        if source_is_node || target_is_node {
            let neighbor: Uuid = if source_is_node {
                relation.target_entity_id
            } else {
                relation.source_entity_id
            };
            proof {
                assert(connects(relations@[e as int], node, neighbor));
                assert forall|y: Uuid| connects(relations@[e as int], node, y) implies y == neighbor || y
                    == node by {}
                assert(ex.nodes@.contains(node));
            }
            if position(&ex.nodes, neighbor).is_none() {
                let ghost before = *ex;
                proof {
                    assert(adjacent(relations@, node, neighbor));
                    lemma_within_step(relations@, from, node, neighbor, level as nat);
                    if within(relations@, from, neighbor, level as nat) {
                        assert(ex.nodes@.take(hi as int).contains(neighbor));
                        let i = choose|i: int|
                            0 <= i < hi && ex.nodes@.take(hi as int)[i] == neighbor;
                        assert(ex.nodes@[i] == neighbor);
                        assert(false);
                    }
                    assert(hops_are(relations@, from, neighbor, (level + 1) as nat));
                }
                ex.nodes.push(neighbor);
                ex.parents.push(current);
                ex.edges.push(e);
                ex.hops.push(level + 1);
                proof {
                    let n = before.nodes@.len() as int;
                    assert(ex.nodes@[n] == neighbor);
                    assert forall|i: int, j: int| 0 <= i < j < ex.nodes@.len() implies ex.nodes@[i]
                        != ex.nodes@[j] by {
                        if j == n {
                            assert(before.nodes@.contains(before.nodes@[i]));
                        }
                    }
                    assert(ex.nodes@.no_duplicates());
                    assert forall|i: int| 0 <= i < ex.nodes@.len() implies hops_are(
                        relations@,
                        from,
                        #[trigger] ex.nodes@[i],
                        ex.hops@[i] as nat,
                    ) by {
                        if i < n {
                            assert(ex.nodes@[i] == before.nodes@[i]);
                            assert(ex.hops@[i] == before.hops@[i]);
                        }
                    }
                    assert forall|i: int| 0 < i < ex.nodes@.len() implies {
                        &&& (#[trigger] ex.parents@[i]) < i
                        &&& ex.edges@[i] < relations@.len()
                        &&& connects(
                            relations@[ex.edges@[i] as int],
                            ex.nodes@[ex.parents@[i] as int],
                            ex.nodes@[i],
                        )
                        &&& ex.hops@[i] == ex.hops@[ex.parents@[i] as int] + 1
                    } by {
                        if i < n {
                            assert(ex.parents@[i] == before.parents@[i]);
                        }
                    }
                    assert forall|i: int, j: int| 0 <= i <= j < ex.nodes@.len() implies (
                    #[trigger] ex.hops@[i]) <= (#[trigger] ex.hops@[j]) by {
                        if j < n {
                            assert(before.hops@[i] <= before.hops@[j]);
                        } else if i < n {
                            assert(before.hops@[i] <= level + 1);
                        }
                    }
                    assert(ex.nodes@.take(hi as int) =~= before.nodes@.take(hi as int));
                    assert(ex.hops@.take(hi as int) =~= before.hops@.take(hi as int));
                    assert forall|i: int, y: Uuid|
                        0 <= i < current && #[trigger] adjacent(relations@, ex.nodes@[i], y) implies
                        ex.nodes@.contains(y) by {
                        assert(ex.nodes@[i] == before.nodes@[i]);
                        assert(before.nodes@.contains(y));
                        lemma_push_contains(before.nodes@, neighbor, y);
                    }
                    assert forall|j: int, y: Uuid|
                        0 <= j < e + 1 && #[trigger] connects(relations@[j], node, y) implies
                        ex.nodes@.contains(y) by {
                        lemma_push_contains(before.nodes@, neighbor, y);
                    }
                }
                if stop.is_some() && neighbor == stop.unwrap() {
                    return true;
                }
                proof {
                    if stop is Some {
                        lemma_push_contains(before.nodes@, neighbor, stop->0);
                    }
                }
            } 
        }
        e += 1;
    }
    proof {
        assert forall|i: int, y: Uuid|
            0 <= i < current + 1 && #[trigger] adjacent(relations@, ex.nodes@[i], y) implies
            ex.nodes@.contains(y) by {
            if i == current {
                let j = choose|j: int| 0 <= j < relations@.len() && connects(#[trigger] relations@[j], node, y);
                assert(connects(relations@[j], node, y));
            }
        }
    }
    false
}

proof fn lemma_push_contains(s: Seq<Uuid>, x: Uuid, y: Uuid)
    ensures
        s.push(x).contains(y) <==> (s.contains(y) || x == y),
{
    if s.contains(y) {
        let i = choose|i: int| 0 <= i < s.len() && s[i] == y;
        assert(s.push(x)[i] == y);
    }
    if x == y {
        assert(s.push(x)[s.len() as int] == y);
    }
    if s.push(x).contains(y) {
        let i = choose|i: int| 0 <= i < s.push(x).len() && s.push(x)[i] == y;
        if i < s.len() {
            assert(s[i] == y);
        }
    }
}

/// Finds the nodes that are at most `depth` hops away from `from`, the nearer
/// ones first; the search ends early where it finds `stop`.
pub fn explore(relations: &Vec<RelationRecord>, from: Uuid, stop: Option<Uuid>, depth: u32) -> (r: (
    Exploration,
    bool,
))
    requires
        stop != Some(from),
    ensures
        r.0.wf(relations@, from),
        forall|i: int| 0 <= i < r.0.nodes@.len() ==> #[trigger] r.0.hops@[i] <= depth,
        r.1 ==> stop is Some && r.0.nodes@.last() == stop->0,
        !r.1 ==> forall|x: Uuid|
            within(relations@, from, x, depth as nat) <==> #[trigger] r.0.nodes@.contains(x),
        !r.1 && stop is Some ==> !r.0.nodes@.contains(stop->0),
{
    let mut ex: Exploration = Exploration {
        nodes: vec![from],
        parents: vec![0],
        edges: vec![0],
        hops: vec![0],
    };
    proof {
        assert(ex.nodes@ =~= seq![from]);
        assert(ex.hops@ =~= seq![0u32]);
        assert(within(relations@, from, from, 0));
        assert forall|x: Uuid| #[trigger] within(relations@, from, x, 0) implies ex.nodes@.take(
            1,
        ).contains(x) by {
            assert(ex.nodes@.take(1)[0] == from);
        }
    }
    let mut level: u32 = 0;
    let mut lo: usize = 0;
    while level < depth
        invariant
            level <= depth,
            lo <= ex.nodes@.len(),
            expanding(ex, relations@, from, level, ex.nodes@.len() as int, lo as int),
            forall|i: int| lo <= i < ex.nodes@.len() ==> #[trigger] ex.hops@[i] == level,
            stop matches Some(s) ==> !ex.nodes@.contains(s),
        decreases depth - level,
    {
        let hi: usize = ex.nodes.len();
        if lo == hi {
            proof {
                lemma_complete(ex, relations@, from, level);
                assert forall|x: Uuid| #[trigger]
                    within(relations@, from, x, (level + 1) as nat) implies within(
                    relations@,
                    from,
                    x,
                    level as nat,
                ) by {
                    assert(ex.nodes@.contains(x));
                    let i = choose|i: int| 0 <= i < ex.nodes@.len() && ex.nodes@[i] == x;
                    lemma_within_monotone(relations@, from, x, ex.hops@[i] as nat, level as nat);
                }
                assert forall|x: Uuid|
                    within(relations@, from, x, depth as nat) <==> #[trigger] ex.nodes@.contains(x) by {
                    if within(relations@, from, x, depth as nat) {
                        lemma_within_closed(relations@, from, x, level as nat, depth as nat);
                        assert(ex.nodes@.take(hi as int) =~= ex.nodes@);
                    }
                    if ex.nodes@.contains(x) {
                        let i = choose|i: int| 0 <= i < ex.nodes@.len() && ex.nodes@[i] == x;
                        lemma_within_monotone(relations@, from, x, ex.hops@[i] as nat, depth as nat);
                    }
                }
            }
            return (ex, false);
        }
        let mut current: usize = lo;
        while current < hi
            invariant
                lo <= current <= hi,
                level < depth,
                expanding(ex, relations@, from, level, hi as int, current as int),
                forall|i: int| lo <= i < hi ==> #[trigger] ex.hops@[i] == level,
                stop matches Some(s) ==> !ex.nodes@.contains(s),
            decreases hi - current,
        {
            let ghost before = ex;
            let stopped: bool = expand(&mut ex, relations, from, stop, level, hi, current);
            if stopped {
                return (ex, true);
            }
            proof {
                assert forall|i: int| lo <= i < hi implies #[trigger] ex.hops@[i] == level by {
                    assert(ex.hops@.take(hi as int)[i] == before.hops@.take(hi as int)[i]);
                }
            }
            current += 1;
        }
        proof {
            lemma_next_level(ex, relations@, from, level, hi as int);
        }
        lo = hi;
        level += 1;
    }
    proof {
        assert forall|x: Uuid|
            within(relations@, from, x, depth as nat) <==> #[trigger] ex.nodes@.contains(x) by {
            assert(ex.nodes@.take(ex.nodes@.len() as int) =~= ex.nodes@);
            if ex.nodes@.contains(x) {
                let i = choose|i: int| 0 <= i < ex.nodes@.len() && ex.nodes@[i] == x;
                lemma_within_monotone(relations@, from, x, ex.hops@[i] as nat, depth as nat);
            }
        }
    }
    (ex, false)
}

/// Once the nodes of one level are expanded, everything one hop further is
/// found.
proof fn lemma_complete(ex: Exploration, relations: Seq<RelationRecord>, from: Uuid, level: u32)
    requires
        exists|hi: int| expanding(ex, relations, from, level, hi, hi),
    ensures
        forall|x: Uuid| #[trigger]
            within(relations, from, x, (level + 1) as nat) ==> ex.nodes@.contains(x),
{
    let hi = choose|hi: int| expanding(ex, relations, from, level, hi, hi);
    assert forall|x: Uuid| #[trigger] within(relations, from, x, (level + 1) as nat) implies ex.nodes@.contains(
        x,
    ) by {
        if within(relations, from, x, level as nat) {
            let i = choose|i: int| 0 <= i < hi && ex.nodes@.take(hi)[i] == x;
            assert(ex.nodes@.take(hi).contains(x));
            assert(ex.nodes@[i] == x);
        } else {
            let mid = choose|mid: Uuid|
                within(relations, from, mid, ((level + 1) - 1) as nat) && #[trigger] adjacent(relations, mid, x);
            assert(within(relations, from, mid, level as nat));
            assert(ex.nodes@.take(hi).contains(mid));
            let i = choose|i: int| 0 <= i < hi && ex.nodes@.take(hi)[i] == mid;
            assert(ex.nodes@[i] == mid);
            assert(adjacent(relations, ex.nodes@[i], x));
        }
    }
}

proof fn lemma_next_level(
    ex: Exploration,
    relations: Seq<RelationRecord>,
    from: Uuid,
    level: u32,
    hi: int,
)
    requires
        expanding(ex, relations, from, level, hi, hi),
        level < u32::MAX,
    ensures
        expanding(ex, relations, from, (level + 1) as u32, ex.nodes@.len() as int, hi),
{
    lemma_complete(ex, relations, from, level);
    assert(ex.nodes@.take(ex.nodes@.len() as int) =~= ex.nodes@);
    let next = (level + 1) as u32;
    assert(next as nat == (level + 1) as nat);
    assert forall|i: int| 0 <= i < ex.nodes@.len() implies (#[trigger] ex.hops@[i]) <= next by {
        if i >= hi {
            assert(ex.hops@[i] == level + 1);
        }
    }
    assert forall|x: Uuid| #[trigger] within(relations, from, x, next as nat) implies ex.nodes@.take(
        ex.nodes@.len() as int,
    ).contains(x) by {
        assert(within(relations, from, x, (level + 1) as nat));
    }
}

} // verus!
