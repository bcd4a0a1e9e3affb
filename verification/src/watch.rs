//! Watching a folder: what is watched, and what is reported of it.

use vstd::prelude::*;

verus! {

/// A file was written. Whether its content changed is another question.
#[derive(Debug)]
pub struct FileChangedEvent {
    pub path: String,
}

/// Watches a folder.
#[derive(Debug)]
pub struct Watcher {
    pub root: String,
}

impl Watcher {
    /// A watcher of a folder.
    pub fn new(root: String) -> (r: Self)
        ensures
            r.root == root,
    {
        Watcher { root }
    }

    /// The events that a change of some paths is reported as: one for each
    /// path where something was written or created, and none otherwise.
    pub fn report(&self, written: bool, created: bool, paths: Vec<String>) -> (r: Vec<FileChangedEvent>)
        ensures
            r@ == (if written || created {
                paths@.map_values(|p: String| FileChangedEvent { path: p })
            } else {
                Seq::empty()
            }),
    {
        let mut r: Vec<FileChangedEvent> = Vec::new();
        if !written && !created {
            proof {
                assert(r@ =~= Seq::<FileChangedEvent>::empty());
            }
            return r;
        }
        let ghost target = paths@.map_values(|p: String| FileChangedEvent { path: p });
        let mut i: usize = 0;
        while i < paths.len()
            invariant
                i <= paths@.len(),
                target == paths@.map_values(|p: String| FileChangedEvent { path: p }),
                r@ =~= target.take(i as int),
            decreases paths@.len() - i,
        {
            r.push(FileChangedEvent { path: paths[i].clone() });
            i += 1;
        }
        proof {
            assert(target.take(i as int) =~= target);
        }
        r
    }
}

} // verus!
