//! The LRU (least recently used) list that picks the buffer frame to reuse.
//!
//! The most recently used frame is at the head, the least recently used at
//! the tail; eviction takes the tail. The list is doubly linked through a
//! map from frame id to its neighbours, so that touching, evicting and
//! removing take constant time.

use vstd::prelude::*;
use std::collections::HashMap;

verus! {

broadcast use vstd::std_specs::hash::group_hash_axioms;

/// `s` without the occurrence of `x`, if any.
pub open spec fn seq_without(s: Seq<usize>, x: usize) -> Seq<usize> {
    if s.contains(x) {
        s.remove(s.index_of(x))
    } else {
        s
    }
}

/// Dropping `x` from a sequence without duplicates removes exactly `x`:
/// every other element stays, and the length drops by one when `x` was there.
pub proof fn lemma_seq_without(s: Seq<usize>, x: usize)
    requires
        s.no_duplicates(),
    ensures
        !seq_without(s, x).contains(x),
        forall|y: usize| y != x ==> (seq_without(s, x).contains(y) <==> s.contains(y)),
        seq_without(s, x).len() == (if s.contains(x) {
            s.len() - 1
        } else {
            s.len() as int
        }),
        seq_without(s, x).no_duplicates(),
{
    if s.contains(x) {
        let i = s.index_of(x);
        let r = s.remove(i);
        assert forall|k: int| 0 <= k < r.len() implies r[k] != x by {
            let k2 = if k < i {
                k
            } else {
                k + 1
            };
            assert(r[k] == s[k2]);
        }
        assert forall|y: usize| y != x implies (r.contains(y) <==> s.contains(y)) by {
            if s.contains(y) {
                let j = s.index_of(y);
                assert(j != i);
                let j2 = if j < i {
                    j
                } else {
                    j - 1
                };
                assert(r[j2] == y);
            }
            if r.contains(y) {
                let j = r.index_of(y);
                let j2 = if j < i {
                    j
                } else {
                    j + 1
                };
                assert(s[j2] == y);
            }
        }
        assert forall|a: int, b: int| 0 <= a < b < r.len() implies r[a] != r[b] by {
            let a2 = if a < i {
                a
            } else {
                a + 1
            };
            let b2 = if b < i {
                b
            } else {
                b + 1
            };
            assert(r[a] == s[a2] && r[b] == s[b2]);
        }
    }
}

#[derive(Clone, Copy)]
struct LruNode {
    prev: Option<usize>,
    next: Option<usize>,
}

/// The LRU list. Its view is the sequence of frame ids from most to least
/// recently used.
pub struct LruList {
    entries: HashMap<usize, LruNode>,
    head: Option<usize>,
    tail: Option<usize>,
    order: Ghost<Seq<usize>>,
}

impl View for LruList {
    type V = Seq<usize>;

    closed spec fn view(&self) -> Seq<usize> {
        self.order@
    }
}

impl LruList {
    /// The links of the map describe the sequence `order`.
    pub closed spec fn wf(&self) -> bool {
        let s = self.order@;
        &&& s.no_duplicates()
        &&& self.entries@.dom() =~= s.to_set()
        &&& self.head == (if s.len() == 0 {
            None::<usize>
        } else {
            Some(s[0])
        })
        &&& self.tail == (if s.len() == 0 {
            None::<usize>
        } else {
            Some(s.last())
        })
        &&& forall|i: int|
            0 <= i < s.len() ==> (#[trigger] self.entries@[s[i]]).prev == (if i == 0 {
                None::<usize>
            } else {
                Some(s[i - 1])
            }) && self.entries@[s[i]].next == (if i == s.len() - 1 {
                None::<usize>
            } else {
                Some(s[i + 1])
            })
    }

    /// Every list view has distinct ids.
    pub proof fn lemma_no_duplicates(&self)
        requires
            self.wf(),
        ensures
            self@.no_duplicates(),
    {
    }

    pub fn new() -> (r: Self)
        ensures
            r.wf(),
            r@ == Seq::<usize>::empty(),
    {
        let r = LruList {
            entries: HashMap::new(),
            head: None,
            tail: None,
            order: Ghost(Seq::empty()),
        };
        assert(r.entries@.dom() =~= Seq::<usize>::empty().to_set());
        r
    }

    fn set_next(&mut self, id: usize, next: Option<usize>)
        requires
            old(self).entries@.dom().contains(id),
        ensures
            final(self).entries@ == old(self).entries@.insert(
                id,
                LruNode { prev: old(self).entries@[id].prev, next },
            ),
            final(self).head == old(self).head,
            final(self).tail == old(self).tail,
            final(self).order == old(self).order,
    {
        let mut node = *self.entries.get(&id).unwrap();
        node.next = next;
        self.entries.insert(id, node);
    }

    fn set_prev(&mut self, id: usize, prev: Option<usize>)
        requires
            old(self).entries@.dom().contains(id),
        ensures
            final(self).entries@ == old(self).entries@.insert(
                id,
                LruNode { prev, next: old(self).entries@[id].next },
            ),
            final(self).head == old(self).head,
            final(self).tail == old(self).tail,
            final(self).order == old(self).order,
    {
        let mut node = *self.entries.get(&id).unwrap();
        node.prev = prev;
        self.entries.insert(id, node);
    }

    /// Marks `frame_id` as most recently used: moves it to the head, or adds
    /// it there when it is not in the list.
    pub fn touch(&mut self, frame_id: usize)
        requires
            old(self).wf(),
        ensures
            final(self).wf(),
            final(self)@ == seq![frame_id] + seq_without(old(self)@, frame_id),
    {
        if self.entries.contains_key(&frame_id) {
            self.remove(frame_id);
        } else {
            assert(!self@.contains(frame_id)) by {
                if self@.contains(frame_id) {
                    let i = self@.index_of(frame_id);
                    assert(self@.to_set().contains(self@[i]));
                }
            }
        }
        self.push_front(frame_id);
    }

    /// Removes and returns the least recently used frame (the tail).
    pub fn evict(&mut self) -> (r: Option<usize>)
        requires
            old(self).wf(),
        ensures
            final(self).wf(),
            old(self)@.len() == 0 ==> r is None && final(self)@ == old(self)@,
            old(self)@.len() > 0 ==> r == Some(old(self)@.last()) && final(self)@
                == old(self)@.drop_last(),
    {
        let tail_id = match self.tail {
            Some(t) => t,
            None => {
                return None;
            },
        };
        let ghost s = self@;
        self.remove(tail_id);
        proof {
            let i = s.len() - 1;
            assert(s.contains(tail_id) && s[i] == tail_id);
            let j = s.index_of(tail_id);
            assert(s[j] == tail_id);
            assert(j == i);
            assert(s.remove(i) =~= s.drop_last());
        }
        Some(tail_id)
    }

    /// Removes `frame_id` from the list; no effect when it is not there.
    pub fn remove(&mut self, frame_id: usize)
        requires
            old(self).wf(),
        ensures
            final(self).wf(),
            final(self)@ == seq_without(old(self)@, frame_id),
    {
        let ghost s = self@;
        let node = match self.entries.remove(&frame_id) {
            Some(n) => n,
            None => {
                assert(!s.contains(frame_id)) by {
                    if s.contains(frame_id) {
                        let i = s.index_of(frame_id);
                        assert(s.to_set().contains(s[i]));
                    }
                }
                return ;
            },
        };
        assert(s.to_set().contains(frame_id));
        assert(s.contains(frame_id));
        let ghost i = s.index_of(frame_id);
        assert(s[i] == frame_id);
        assert(node == old(self).entries@[s[i]]);
        let ghost ns = s.remove(i);
        match (node.prev, node.next) {
            (Some(prev), Some(next)) => {
                assert(prev == s[i - 1] && next == s[i + 1]);
                assert(s.to_set().contains(s[i - 1]));
                assert(s.to_set().contains(s[i + 1]));
                self.set_next(prev, Some(next));
                self.set_prev(next, Some(prev));
            },
            (Some(prev), None) => {
                assert(prev == s[i - 1]);
                assert(s.to_set().contains(s[i - 1]));
                self.set_next(prev, None);
                self.tail = Some(prev);
            },
            (None, Some(next)) => {
                assert(next == s[i + 1]);
                assert(s.to_set().contains(s[i + 1]));
                self.set_prev(next, None);
                self.head = Some(next);
            },
            (None, None) => {
                self.head = None;
                self.tail = None;
            },
        }
        self.order = Ghost(ns);
        proof {
            assert(ns.no_duplicates()) by {
                assert forall|a: int, b: int| 0 <= a < b < ns.len() implies ns[a] != ns[b] by {
                    let a2 = if a < i {
                        a
                    } else {
                        a + 1
                    };
                    let b2 = if b < i {
                        b
                    } else {
                        b + 1
                    };
                    assert(ns[a] == s[a2] && ns[b] == s[b2]);
                }
            }
            assert forall|x: usize| self.entries@.dom().contains(x) <==> ns.to_set().contains(x) by {
                if ns.to_set().contains(x) {
                    let k = ns.index_of(x);
                    assert(ns.contains(x));
                    assert(ns[k] == x);
                    let k2 = if k < i {
                        k
                    } else {
                        k + 1
                    };
                    assert(s[k2] == x);
                    assert(s.to_set().contains(x));
                    assert(x != frame_id);
                }
                if self.entries@.dom().contains(x) {
                    assert(x != frame_id);
                    assert(s.to_set().contains(x));
                    assert(s.contains(x));
                    let k = s.index_of(x);
                    assert(s[k] == x);
                    assert(k != i);
                    let k2 = if k < i {
                        k
                    } else {
                        k - 1
                    };
                    assert(ns[k2] == x);
                    assert(ns.contains(x));
                }
            }
            assert(self.entries@.dom() =~= ns.to_set());
            assert forall|k: int| 0 <= k < ns.len() implies (#[trigger] self.entries@[ns[k]]).prev == (if k
                == 0 {
                None::<usize>
            } else {
                Some(ns[k - 1])
            }) && self.entries@[ns[k]].next == (if k == ns.len() - 1 {
                None::<usize>
            } else {
                Some(ns[k + 1])
            }) by {
                let k2 = if k < i {
                    k
                } else {
                    k + 1
                };
                assert(ns[k] == s[k2]);
                assert(old(self).entries@[s[k2]].prev == (if k2 == 0 {
                    None::<usize>
                } else {
                    Some(s[k2 - 1])
                }));
                assert(old(self).entries@[s[k2]].next == (if k2 == s.len() - 1 {
                    None::<usize>
                } else {
                    Some(s[k2 + 1])
                }));
                if k2 > 0 {
                    assert(s[k2 - 1] != s[k2]);
                }
                if k2 < s.len() - 1 {
                    assert(s[k2 + 1] != s[k2]);
                }
                if k > 0 {
                    let p2 = if k - 1 < i {
                        k - 1
                    } else {
                        k
                    };
                    assert(ns[k - 1] == s[p2]);
                }
                if k < ns.len() - 1 {
                    let n2 = if k + 1 < i {
                        k + 1
                    } else {
                        k + 2
                    };
                    assert(ns[k + 1] == s[n2]);
                }
            }
            if ns.len() > 0 {
                assert(ns.last() == ns[ns.len() - 1]);
                if i == s.len() - 1 {
                    assert(ns[ns.len() - 1] == s[s.len() - 2]);
                } else {
                    assert(ns[ns.len() - 1] == s[s.len() - 1]);
                }
                if i == 0 {
                    assert(ns[0] == s[1]);
                } else {
                    assert(ns[0] == s[0]);
                }
            }
        }
    }

    /// Adds `frame_id` at the head.
    fn push_front(&mut self, frame_id: usize)
        requires
            old(self).wf(),
            !old(self)@.contains(frame_id),
        ensures
            final(self).wf(),
            final(self)@ == seq![frame_id] + old(self)@,
    {
        let ghost s = self@;
        let new_node = LruNode { prev: None, next: self.head };
        if let Some(old_head) = self.head {
            assert(s.to_set().contains(s[0]));
            self.set_prev(old_head, Some(frame_id));
        }
        self.head = Some(frame_id);
        if self.tail.is_none() {
            self.tail = Some(frame_id);
        }
        self.entries.insert(frame_id, new_node);
        let ghost ns = seq![frame_id] + s;
        self.order = Ghost(ns);
        proof {
            assert(ns.no_duplicates()) by {
                assert forall|a: int, b: int| 0 <= a < b < ns.len() implies ns[a] != ns[b] by {
                    if a == 0 {
                        assert(ns[b] == s[b - 1]);
                    } else {
                        assert(ns[a] == s[a - 1] && ns[b] == s[b - 1]);
                    }
                }
            }
            assert forall|x: usize| self.entries@.dom().contains(x) <==> ns.to_set().contains(x) by {
                if ns.to_set().contains(x) {
                    let k = ns.index_of(x);
                    assert(ns.contains(x));
                    if k > 0 {
                        assert(s[k - 1] == x);
                        assert(s.to_set().contains(x));
                    }
                }
                if self.entries@.dom().contains(x) && x != frame_id {
                    assert(s.to_set().contains(x));
                    assert(s.contains(x));
                    let k = s.index_of(x);
                    assert(ns[k + 1] == x);
                    assert(ns.contains(x));
                }
                if x == frame_id {
                    assert(ns[0] == x);
                    assert(ns.contains(x));
                }
            }
            assert(self.entries@.dom() =~= ns.to_set());
            assert forall|k: int| 0 <= k < ns.len() implies (#[trigger] self.entries@[ns[k]]).prev == (if k
                == 0 {
                None::<usize>
            } else {
                Some(ns[k - 1])
            }) && self.entries@[ns[k]].next == (if k == ns.len() - 1 {
                None::<usize>
            } else {
                Some(ns[k + 1])
            }) by {
                if k > 0 {
                    assert(ns[k] == s[k - 1]);
                    assert(s[k - 1] != frame_id);
                    assert(old(self).entries@[s[k - 1]].next == (if k - 1 == s.len() - 1 {
                        None::<usize>
                    } else {
                        Some(s[k])
                    }));
                    if k < ns.len() - 1 {
                        assert(ns[k + 1] == s[k]);
                    }
                } else if s.len() > 0 {
                    assert(ns[1] == s[0]);
                }
            }
            if s.len() > 0 {
                assert(ns.last() == s.last());
            }
        }
    }

    /// Number of frames in the list.
    pub fn len(&self) -> (r: usize)
        requires
            self.wf(),
        ensures
            r == self@.len(),
    {
        proof {
            self@.unique_seq_to_set();
        }
        self.entries.len()
    }

    pub fn is_empty(&self) -> (r: bool)
        requires
            self.wf(),
        ensures
            r == (self@.len() == 0),
    {
        proof {
            self@.unique_seq_to_set();
        }
        self.entries.is_empty()
    }
}

} // verus!
