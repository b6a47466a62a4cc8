//! Cancellation tokens of listen sessions, keyed by session id.
use std::sync::atomic::{AtomicBool, Ordering};
use std::sync::Arc;
use vstd::prelude::*;

use crate::text_prep::same_text;

verus! {

/// The cancellation token of each running listen session. Ids are unique.
///
/// The set is changed through `&mut self`; callers that share it across
/// threads keep it behind a lock of their own.
pub struct SttHandles {
    entries: Vec<(String, Arc<AtomicBool>)>,
}

impl SttHandles {
    /// The session ids, in insertion order.
    pub closed spec fn ids(&self) -> Seq<Seq<char>> {
        self.entries@.map_values(|e: (String, Arc<AtomicBool>)| e.0@)
    }

    /// No id appears twice.
    pub closed spec fn wf(&self) -> bool {
        self.ids().no_duplicates()
    }

    pub fn new() -> (r: Self)
        ensures
            r.wf(),
            r.ids().len() == 0,
    {
        let r = SttHandles { entries: Vec::new() };
        assert(r.ids() =~= Seq::<Seq<char>>::empty());
        r
    }

    /// Position of `id`, if it is present.
    fn find(&self, id: &str) -> (r: Option<usize>)
        ensures
            match r {
                Some(i) => i < self.ids().len() && self.ids()[i as int] == id@,
                None => !self.ids().contains(id@),
            },
    {
        let mut i: usize = 0;
        while i < self.entries.len()
            invariant
                i <= self.entries@.len(),
                forall|j: int| 0 <= j < i ==> self.ids()[j] != id@,
            decreases self.entries@.len() - i,
        {
            if same_text(self.entries[i].0.as_str(), id) {
                return Some(i);
            }
            i += 1;
        }
        None
    }

    /// Register a fresh, uncancelled token for `id`, replacing any earlier one,
    /// and return it.
    pub fn create(&mut self, id: &str) -> (r: Arc<AtomicBool>)
        requires
            old(self).wf(),
        ensures
            final(self).wf(),
            final(self).ids().to_set() == old(self).ids().to_set().insert(id@),
    {
        let token = Arc::new(AtomicBool::new(false));
        let entry = (id.to_owned(), token.clone());
        let ghost before = self.ids();
        match self.find(id) {
            Some(i) => {
                self.entries.set(i, entry);
                proof {
                    assert(self.ids() =~= before.update(i as int, id@));
                    assert(before.update(i as int, id@) =~= before);
                    assert(self.ids().to_set() =~= before.to_set().insert(id@));
                }
            },
            None => {
                self.entries.push(entry);
                proof {
                    assert(self.ids() =~= before.push(id@));
                    assert forall|x: Seq<char>| self.ids().contains(x) <==> (before.contains(x) || x == id@) by {
                        if self.ids().contains(x) {
                            let j = choose|j: int| 0 <= j < self.ids().len() && self.ids()[j] == x;
                            if j < before.len() {
                                assert(before[j] == x);
                            }
                        }
                        if before.contains(x) {
                            let j = choose|j: int| 0 <= j < before.len() && before[j] == x;
                            assert(self.ids()[j] == x);
                        }
                        if x == id@ {
                            assert(self.ids()[before.len() as int] == x);
                        }
                    }
                    assert(self.ids().to_set() =~= before.to_set().insert(id@));
                }
            },
        }
        token
    }

    /// Ask the session `id`, if present, to stop.
    pub fn cancel(&self, id: &str) {
        if let Some(i) = self.find(id) {
            self.entries[i].1.store(true, Ordering::Relaxed);
        }
    }

    /// Forget the session `id`.
    pub fn remove(&mut self, id: &str)
        requires
            old(self).wf(),
        ensures
            final(self).wf(),
            final(self).ids().to_set() == old(self).ids().to_set().remove(id@),
    {
        let ghost before = self.ids();
        if let Some(i) = self.find(id) {
            let _ = self.entries.remove(i);
            proof {
                assert(self.ids() =~= before.remove(i as int));
                assert forall|x: Seq<char>| self.ids().contains(x) <==> (before.contains(x) && x != id@) by {
                    if self.ids().contains(x) {
                        let j = choose|j: int| 0 <= j < self.ids().len() && self.ids()[j] == x;
                        if j < i {
                            assert(before[j] == x);
                        } else {
                            assert(before[j + 1] == x);
                        }
                    }
                    if before.contains(x) && x != id@ {
                        let j = choose|j: int| 0 <= j < before.len() && before[j] == x;
                        if j < i {
                            assert(self.ids()[j] == x);
                        } else {
                            assert(self.ids()[j - 1] == x);
                        }
                    }
                }
                assert(self.ids().to_set() =~= before.to_set().remove(id@));
            }
        } else {
            assert(before.to_set() =~= before.to_set().remove(id@));
        }
    }
}

impl Default for SttHandles {
    fn default() -> (r: Self)
        ensures
            r.wf(),
            r.ids().len() == 0,
    {
        SttHandles::new()
    }
}

} // verus!
