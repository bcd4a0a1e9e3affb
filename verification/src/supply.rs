//! Where fresh identifiers come from: a queue of given ones, and then chance.

use vstd::prelude::*;
use crate::ids::{is_random_uuid, Uuid};

verus! {

/// A source of fresh identifiers.
pub struct IdSource {
    queue: Vec<Uuid>,
    next: usize,
    drawn: Ghost<Seq<Uuid>>,
}

impl IdSource {
    /// The identifiers that were drawn so far.
    pub closed spec fn drawn(&self) -> Seq<Uuid> {
        self.drawn@
    }

    /// The given identifiers that were not drawn yet.
    pub closed spec fn waiting(&self) -> Seq<Uuid> {
        if self.next <= self.queue@.len() {
            self.queue@.skip(self.next as int)
        } else {
            Seq::empty()
        }
    }

    /// The identifiers that were drawn since the source was as `before`.
    pub open spec fn drawn_since(&self, before: IdSource) -> Seq<Uuid> {
        self.drawn().skip(before.drawn().len() as int)
    }

    /// What was drawn since the source was as `before` are the identifiers that
    /// were waiting then, in order, and random ones once there were no more;
    /// and those that are waiting are the rest.
    pub open spec fn follows(&self, before: IdSource) -> bool {
        let given = before.waiting();
        let since = self.drawn_since(before);
        &&& before.drawn().is_prefix_of(self.drawn())
        &&& forall|i: int|
            0 <= i < since.len() && i < given.len() ==> #[trigger] since[i] == given[i]
        &&& forall|i: int| given.len() <= i < since.len() ==> is_random_uuid(#[trigger] since[i])
        &&& self.waiting() == (if since.len() <= given.len() {
            given.skip(since.len() as int)
        } else {
            Seq::empty()
        })
    }

    /// `n` identifiers were drawn since the source was as `before`.
    pub open spec fn grew(&self, before: IdSource, n: nat) -> bool {
        before.drawn().is_prefix_of(self.drawn()) && self.drawn().len() == before.drawn().len() + n
    }

    /// The same as `follows`, without its meaning being looked into.
    #[verifier::opaque]
    pub open spec fn comes_after(&self, before: IdSource) -> bool {
        self.follows(before)
    }

    /// `n` identifiers were drawn since the source was as `before`, each the
    /// next of those that were waiting, or else random.
    pub open spec fn drew(&self, before: IdSource, n: nat) -> bool {
        self.follows(before) && self.drawn().len() == before.drawn().len() + n
    }

    /// A source of random identifiers.
    pub fn random() -> (r: Self)
        ensures
            r.drawn().len() == 0,
            r.waiting().len() == 0,
    {
        IdSource { queue: Vec::new(), next: 0, drawn: Ghost(Seq::empty()) }
    }

    /// A source of the given identifiers, in order, and then of random ones.
    pub fn given(ids: Vec<Uuid>) -> (r: Self)
        ensures
            r.drawn().len() == 0,
            r.waiting() == ids@,
    {
        let r = IdSource { queue: ids, next: 0, drawn: Ghost(Seq::empty()) };
        proof {
            assert(r.waiting() =~= ids@);
        }
        r
    }

    /// Draws an identifier: the next of the given ones, or else a random one.
    pub fn draw(&mut self) -> (r: Uuid)
        ensures
            final(self).drawn() == old(self).drawn().push(r),
            old(self).waiting().len() > 0 ==> r == old(self).waiting()[0] && final(self).waiting()
                == old(self).waiting().drop_first(),
            old(self).waiting().len() == 0 ==> is_random_uuid(r) && final(self).waiting().len() == 0,
            final(self).drew(*old(self), 1),
            final(self).comes_after(*old(self)),
    {
        let id: Uuid;
        if self.next < self.queue.len() {
            id = self.queue[self.next];
            self.next = self.next + 1;
            proof {
                assert(self.waiting() =~= old(self).waiting().drop_first());
            }
        } else {
            id = Uuid::new_v4();
        }
        self.drawn = Ghost(self.drawn@.push(id));
        proof {
            reveal(IdSource::comes_after);
            assert(self.drawn_since(*old(self)) =~= seq![id]);
            assert(self.waiting() =~= (if old(self).waiting().len() > 0 {
                old(self).waiting().skip(1)
            } else {
                Seq::empty()
            }));
        }
        id
    }
}

/// A source follows itself.
pub proof fn lemma_follows_itself(a: IdSource)
    ensures
        a.drew(a, 0),
        a.comes_after(a),
{
    reveal(IdSource::comes_after);
    assert(a.drawn_since(a) =~= Seq::empty());
    assert(a.waiting() =~= a.waiting().skip(0));
}

/// What follows a source that follows another follows that one, too.
pub proof fn lemma_follows(a: IdSource, b: IdSource, c: IdSource)
    requires
        b.follows(a),
        c.follows(b),
    ensures
        c.follows(a),
        c.drawn_since(a) == b.drawn_since(a) + c.drawn_since(b),
{
    let first = b.drawn_since(a);
    let second = c.drawn_since(b);
    let all = c.drawn_since(a);
    let given = a.waiting();
    assert forall|i: int| 0 <= i < b.drawn().len() implies b.drawn()[i] == c.drawn()[i] by {
        assert(b.drawn()[i] == c.drawn().subrange(0, b.drawn().len() as int)[i]);
    }
    assert(a.drawn().is_prefix_of(c.drawn())) by {
        assert(a.drawn() =~= c.drawn().subrange(0, a.drawn().len() as int));
    }
    assert(all =~= first + second);
    assert forall|i: int| 0 <= i < all.len() && i < given.len() implies #[trigger] all[i]
        == given[i] by {
        if i < first.len() {
            assert(first[i] == given[i]);
        } else {
            assert(second[i - first.len()] == b.waiting()[i - first.len()]);
        }
    }
    assert forall|i: int| given.len() <= i < all.len() implies is_random_uuid(#[trigger] all[i]) by {
        if i < first.len() {
            assert(is_random_uuid(first[i]));
        } else {
            assert(is_random_uuid(second[i - first.len()]));
        }
    }
    assert(c.waiting() =~= (if all.len() <= given.len() {
        given.skip(all.len() as int)
    } else {
        Seq::empty()
    }));
}

/// What comes after a source that comes after another comes after that one, too.
pub proof fn lemma_comes_after(a: IdSource, b: IdSource, c: IdSource)
    requires
        b.comes_after(a),
        c.comes_after(b),
    ensures
        c.comes_after(a),
{
    reveal(IdSource::comes_after);
    lemma_follows(a, b, c);
}

/// What comes after a source follows it.
pub proof fn lemma_follows_after(a: IdSource, b: IdSource)
    requires
        b.comes_after(a),
    ensures
        b.follows(a),
{
    reveal(IdSource::comes_after);
}

} // verus!
