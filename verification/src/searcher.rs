//! The mutation protocol with its state kept in the searcher.
//!
//! This searcher remembers whether a node is checked out and refuses, with
//! an internal error, every call that does not fit that state. See
//! `crate::module_manager::searcher` for the variant in which the state is
//! part of the type.

use vstd::prelude::*;
use crate::config_node::{ConfigNode, NodeList};
use crate::module_manager::searcher::{askable, no_holes, only_hole, turned_down};
use crate::{internal_error, ErrorModel, PatchingError};

verus! {

pub struct Searcher<F> {
    needle: F,
    active: bool,
    next_idx: usize,
}

/// What the protocol is about: which slots of the list are empty, whether
/// a node is checked out, and where the next search starts.
pub struct Session {
    pub empty: Seq<bool>,
    pub active: bool,
    pub position: int,
}

/// A call on a searcher and a list.
pub enum Call {
    Search,
    Replace,
    Delete,
    Insert(int),
    Push,
}

/// Which slots of a list are empty.
pub open spec fn emptiness(slots: Seq<Option<ConfigNode>>) -> Seq<bool> {
    Seq::new(slots.len(), |i: int| slots[i] is None)
}

/// The state is one that the protocol allows: while a node is checked
/// out, the slot just before the position is the one empty slot; otherwise
/// no slot is empty.
pub open spec fn safe(session: Session) -> bool {
    if session.active {
        &&& 0 <= session.position - 1 < session.empty.len()
        &&& forall|i: int| 0 <= i < session.empty.len() ==> (#[trigger] session.empty[i] <==> i == session.position - 1)
    } else {
        forall|i: int| 0 <= i < session.empty.len() ==> !#[trigger] session.empty[i]
    }
}

/// What a call may make of a state, and whether it succeeds. A call that
/// fails leaves the state as it was.
pub open spec fn allowed(before: Session, call: Call, ok: bool, after: Session) -> bool {
    let at = before.position - 1;
    match call {
        Call::Search => if !ok {
            after == before
        } else if after.active {
            &&& !before.active
            &&& 0 <= before.position <= after.position - 1 < before.empty.len()
            &&& !before.empty[after.position - 1]
            &&& after.empty == before.empty.update(after.position - 1, true)
        } else {
            &&& !before.active
            &&& after.empty == before.empty
            &&& after.position == before.empty.len()
        },
        Call::Replace => if ok {
            &&& before.active
            &&& 0 <= at < before.empty.len()
            &&& before.empty[at]
            &&& after == (Session { empty: before.empty.update(at, false), active: false, position: before.position })
        } else {
            after == before
        },
        Call::Delete => if ok {
            &&& before.active
            &&& 0 <= at < before.empty.len()
            &&& before.empty[at]
            &&& after == (Session { empty: before.empty.remove(at), active: false, position: at })
        } else {
            after == before
        },
        Call::Insert(idx) => if ok {
            &&& !before.active
            &&& 0 <= idx <= before.empty.len()
            &&& after == (Session {
                empty: before.empty.insert(idx, false),
                active: false,
                position: if idx <= before.position {
                    before.position + 1
                } else {
                    before.position
                },
            })
        } else {
            after == before
        },
        Call::Push => if ok {
            &&& !before.active
            &&& after == (Session { empty: before.empty.push(false), active: false, position: before.position })
        } else {
            after == before
        },
    }
}

/// Whether the call succeeds in a safe state is decided by the state: a
/// search, an insertion and a push need a searcher that has no node checked
/// out; a replacement and a deletion need the node that was checked out.
pub proof fn lemma_call_keeps_safe(before: Session, call: Call, ok: bool, after: Session)
    requires
        safe(before),
        allowed(before, call, ok, after),
    ensures
        safe(after),
        ok && (call is Search || call is Insert || call is Push) ==> !before.active,
        ok && (call is Replace || call is Delete) ==> before.active && !after.active,
{
    let at = before.position - 1;
    if ok {
        match call {
            Call::Search => {
                if after.active {
                    let found = after.position - 1;
                    assert forall|i: int| 0 <= i < after.empty.len() implies (#[trigger] after.empty[i] <==> i
                        == found) by {
                        if i != found {
                            assert(after.empty[i] == before.empty[i]);
                        }
                    }
                }
            },
            Call::Replace => {
                assert forall|i: int| 0 <= i < after.empty.len() implies !#[trigger] after.empty[i] by {
                    if i != at {
                        assert(after.empty[i] == before.empty[i]);
                    }
                }
            },
            Call::Delete => {
                assert forall|i: int| 0 <= i < after.empty.len() implies !#[trigger] after.empty[i] by {
                    if i < at {
                        assert(after.empty[i] == before.empty[i]);
                    } else {
                        assert(after.empty[i] == before.empty[i + 1]);
                    }
                }
            },
            Call::Insert(idx) => {
                assert forall|i: int| 0 <= i < after.empty.len() implies !#[trigger] after.empty[i] by {
                    if i < idx {
                        assert(after.empty[i] == before.empty[i]);
                    } else if i > idx {
                        assert(after.empty[i] == before.empty[i - 1]);
                    }
                }
            },
            Call::Push => {
                assert forall|i: int| 0 <= i < after.empty.len() implies !#[trigger] after.empty[i] by {
                    if i < before.empty.len() {
                        assert(after.empty[i] == before.empty[i]);
                    }
                }
            },
        }
    }
}

/// No sequence of calls leaves two nodes checked out. Of a history that
/// starts in a safe state, and in which each state comes from the one before
/// by a call, every state is safe: it has at most one empty slot, and it has
/// one exactly while a node is checked out.
pub proof fn lemma_history_is_safe(states: Seq<Session>, calls: Seq<Call>, oks: Seq<bool>, k: int)
    requires
        states.len() == calls.len() + 1,
        oks.len() == calls.len(),
        safe(states[0]),
        forall|i: int| 0 <= i < calls.len() ==> allowed(#[trigger] states[i], calls[i], oks[i], states[i + 1]),
        0 <= k < states.len(),
    ensures
        safe(states[k]),
        forall|a: int, b: int|
            0 <= a < states[k].empty.len() && 0 <= b < states[k].empty.len() && states[k].empty[a]
                && states[k].empty[b] ==> a == b,
        (exists|a: int| 0 <= a < states[k].empty.len() && states[k].empty[a]) <==> states[k].active,
    decreases k,
{
    if k > 0 {
        lemma_history_is_safe(states, calls, oks, k - 1);
        assert(allowed(states[k - 1], calls[k - 1], oks[k - 1], states[k - 1 + 1]));
        lemma_call_keeps_safe(states[k - 1], calls[k - 1], oks[k - 1], states[k]);
    }
    if states[k].active {
        assert(states[k].empty[states[k].position - 1]);
    }
}

impl<F> Searcher<F> {
    /// A node that is checked out left a slot behind the position.
    #[verifier::type_invariant]
    spec fn inv(self) -> bool {
        self.active ==> self.next_idx >= 1
    }
}

impl<F> Searcher<F> where F: Fn(&ConfigNode) -> bool {
    /// The predicate that picks the nodes.
    pub closed spec fn needle(&self) -> F {
        self.needle
    }

    /// The index of the slot at which the next search starts.
    pub closed spec fn position(&self) -> int {
        self.next_idx as int
    }

    /// Whether a node is checked out.
    pub closed spec fn active(&self) -> bool {
        self.active
    }

    /// The state of the protocol for this searcher and a list.
    pub open spec fn session(&self, slots: Seq<Option<ConfigNode>>) -> Session {
        Session { empty: emptiness(slots), active: self.active(), position: self.position() }
    }

    /// The list is in the state that the searcher believes it to be in: one
    /// empty slot, just before the position, while a node is checked out, and
    /// none otherwise.
    pub open spec fn consistent(&self, slots: Seq<Option<ConfigNode>>) -> bool {
        if self.active() {
            only_hole(slots, self.position() - 1)
        } else {
            no_holes(slots)
        }
    }

    pub fn new(needle: F) -> (r: Self)
        ensures
            r.needle() == needle,
            r.position() == 0,
            !r.active(),
    {
        Searcher { needle, active: false, next_idx: 0 }
    }

    pub fn is_active(&self) -> (r: bool)
        ensures
            r == self.active(),
    {
        self.active
    }

    fn idx(&self) -> (r: usize)
        requires
            self.active(),
        ensures
            r == self.position() - 1,
    {
        proof {
            use_type_invariant(self);
        }
        self.next_idx - 1
    }

    /// The index of the slot whose node is checked out, if one is.
    pub fn active_index(&self) -> (r: Option<usize>)
        ensures
            r == if self.active() {
                Some((self.position() - 1) as usize)
            } else {
                None
            },
            self.active() ==> self.position() >= 1,
    {
        proof {
            use_type_invariant(self);
        }
        if self.active {
            Some(self.idx())
        } else {
            None
        }
    }

    /// Looks for the next node that the needle accepts, from the current
    /// position on, and checks it out of its slot. It is an internal error to
    /// search while a node is checked out, to meet an empty slot, or to start
    /// behind the end of the list; an error changes nothing.
    pub fn search(&mut self, nodes: &mut NodeList) -> (r: Result<Option<ConfigNode>, PatchingError>)
        requires
            askable(old(self).needle(), old(nodes)@),
        ensures
            final(self).needle() == old(self).needle(),
            match r {
                Ok(Some(node)) => {
                    &&& !old(self).active()
                    &&& final(self).active()
                    &&& old(self).position() < final(self).position() <= old(nodes)@.len()
                    &&& turned_down(
                        old(self).needle(),
                        old(nodes)@,
                        old(self).position(),
                        final(self).position() - 1,
                    )
                    &&& old(nodes)@[final(self).position() - 1] == Some(node)
                    &&& call_ensures(old(self).needle(), (&node,), true)
                    &&& final(nodes)@ == old(nodes)@.update(final(self).position() - 1, None)
                },
                Ok(None) => {
                    &&& !old(self).active()
                    &&& !final(self).active()
                    &&& old(self).position() <= old(nodes)@.len()
                    &&& final(self).position() == old(nodes)@.len()
                    &&& turned_down(
                        old(self).needle(),
                        old(nodes)@,
                        old(self).position(),
                        old(nodes)@.len() as int,
                    )
                    &&& final(nodes)@ == old(nodes)@
                },
                Err(e) => {
                    &&& e@ is Internal
                    &&& final(nodes)@ == old(nodes)@
                    &&& final(self).position() == old(self).position()
                    &&& final(self).active() == old(self).active()
                    &&& old(self).active() || old(self).position() > old(nodes)@.len() || exists|i: int|
                        old(self).position() <= i < old(nodes)@.len() && (#[trigger] old(nodes)@[i]) is None
                            && turned_down(old(self).needle(), old(nodes)@, old(self).position(), i)
                },
            },
            old(self).consistent(old(nodes)@) ==> final(self).consistent(final(nodes)@),
            allowed(
                old(self).session(old(nodes)@),
                Call::Search,
                r is Ok,
                final(self).session(final(nodes)@),
            ),
    {
        if self.is_active() {
            return internal_error("node is already active");
        }
        let n = nodes.len();
        let first = self.next_idx;
        if first > n {
            return internal_error("tried to search behind the end of the list");
        }
        let mut next_idx = first;
        while next_idx < n
            invariant
                first <= next_idx <= n,
                *self == *old(self),
                first == self.next_idx,
                !self.active,
                n == nodes@.len(),
                nodes@ == old(nodes)@,
                askable(self.needle, nodes@),
                turned_down(self.needle, nodes@, first as int, next_idx as int),
            decreases n - next_idx,
        {
            let idx = next_idx;
            next_idx = next_idx + 1;
            let hit = match &nodes[idx] {
                Some(node) => (self.needle)(node),
                None => {
                    return internal_error("node is inactive");
                },
            };
            if hit {
                let taken = nodes[idx].take();
                match taken {
                    Some(node) => {
                        self.next_idx = next_idx;
                        self.active = true;
                        assert(emptiness(nodes@) =~= emptiness(old(nodes)@).update(idx as int, true));
                        return Ok(Some(node));
                    },
                    None => {
                        return internal_error("node is inactive");
                    },
                }
            }
        }
        self.next_idx = next_idx;
        Ok(None)
    }

    /// Puts `node` into the slot that was emptied. The next search starts at the following slot.
    pub fn replace(&mut self, nodes: &mut NodeList, node: ConfigNode) -> (r: Result<(), PatchingError>)
        ensures
            final(self).needle() == old(self).needle(),
            final(self).position() == old(self).position(),
            match r {
                Ok(()) => {
                    &&& old(self).active()
                    &&& !final(self).active()
                    &&& 0 <= old(self).position() - 1 < old(nodes)@.len()
                    &&& old(nodes)@[old(self).position() - 1] is None
                    &&& final(nodes)@ == old(nodes)@.update(old(self).position() - 1, Some(node))
                },
                Err(e) => {
                    &&& e@ is Internal
                    &&& final(nodes)@ == old(nodes)@
                    &&& final(self).active() == old(self).active()
                    &&& !(old(self).active() && old(self).position() - 1 < old(nodes)@.len()
                        && old(nodes)@[old(self).position() - 1] is None)
                },
            },
            old(self).consistent(old(nodes)@) ==> final(self).consistent(final(nodes)@),
            old(self).consistent(old(nodes)@) ==> (r is Ok <==> old(self).active()),
            allowed(
                old(self).session(old(nodes)@),
                Call::Replace,
                r is Ok,
                final(self).session(final(nodes)@),
            ),
    {
        if !self.is_active() {
            return internal_error("cannot return node to inactive parent");
        }
        let idx = self.idx();
        if idx >= nodes.len() {
            return internal_error("element marked active does not exist");
        }
        if nodes[idx].is_some() {
            return internal_error("element marked active is not active");
        }
        nodes[idx] = Some(node);
        self.active = false;
        assert(emptiness(nodes@) =~= emptiness(old(nodes)@).update(idx as int, false));
        Ok(())
    }

    /// Removes the slot that was emptied. The next search starts at the slot
    /// that followed it, which now stands in its place.
    pub fn delete_active(&mut self, nodes: &mut NodeList) -> (r: Result<(), PatchingError>)
        ensures
            final(self).needle() == old(self).needle(),
            match r {
                Ok(()) => {
                    &&& old(self).active()
                    &&& !final(self).active()
                    &&& 0 <= old(self).position() - 1 < old(nodes)@.len()
                    &&& old(nodes)@[old(self).position() - 1] is None
                    &&& final(nodes)@ == old(nodes)@.remove(old(self).position() - 1)
                    &&& final(self).position() == old(self).position() - 1
                },
                Err(e) => {
                    &&& e@ is Internal
                    &&& final(nodes)@ == old(nodes)@
                    &&& final(self).active() == old(self).active()
                    &&& final(self).position() == old(self).position()
                    &&& !(old(self).active() && old(self).position() - 1 < old(nodes)@.len()
                        && old(nodes)@[old(self).position() - 1] is None)
                },
            },
            old(self).consistent(old(nodes)@) ==> final(self).consistent(final(nodes)@),
            old(self).consistent(old(nodes)@) ==> (r is Ok <==> old(self).active()),
            allowed(
                old(self).session(old(nodes)@),
                Call::Delete,
                r is Ok,
                final(self).session(final(nodes)@),
            ),
    {
        if !self.is_active() {
            return internal_error("cannot delete node from inactive parent");
        }
        let idx = self.idx();
        if idx >= nodes.len() {
            return internal_error("element marked active does not exist");
        }
        if nodes[idx].is_some() {
            return internal_error("element marked active is not active");
        }
        let _ = nodes.remove(idx);
        self.active = false;
        self.next_idx = idx;
        assert(emptiness(nodes@) =~= emptiness(old(nodes)@).remove(idx as int));
        Ok(())
    }

    /// Puts `node` into a new slot at `idx`. The position moves along if the
    /// new slot lies at or before it. It is an internal error to insert while
    /// a node is checked out, or at an index behind the end of the list, or
    /// where the position cannot move along because it is the largest that
    /// there is; an error changes nothing.
    pub fn insert(&mut self, idx: usize, nodes: &mut NodeList, node: ConfigNode) -> (r: Result<
        (),
        PatchingError,
    >)
        ensures
            final(self).needle() == old(self).needle(),
            final(self).active() == old(self).active(),
            r is Ok <==> !old(self).active() && idx <= old(nodes)@.len() && !(idx <= old(self).position()
                && old(self).position() == usize::MAX),
            match r {
                Ok(()) => {
                    &&& final(nodes)@ == old(nodes)@.insert(idx as int, Some(node))
                    &&& final(self).position() == if idx <= old(self).position() {
                        old(self).position() + 1
                    } else {
                        old(self).position()
                    }
                },
                Err(e) => {
                    &&& e@ is Internal
                    &&& final(nodes)@ == old(nodes)@
                    &&& final(self).position() == old(self).position()
                },
            },
            old(self).consistent(old(nodes)@) ==> final(self).consistent(final(nodes)@),
            allowed(
                old(self).session(old(nodes)@),
                Call::Insert(idx as int),
                r is Ok,
                final(self).session(final(nodes)@),
            ),
    {
        if self.is_active() {
            return internal_error("cannot insert into active parent");
        }
        if idx > nodes.len() {
            return internal_error("tried to insert behind the end of the list");
        }
        if idx <= self.next_idx {
            if self.next_idx == usize::MAX {
                return internal_error("the position cannot move along");
            }
            nodes.insert(idx, Some(node));
            self.next_idx = self.next_idx + 1;
        } else {
            nodes.insert(idx, Some(node));
        }
        assert(emptiness(nodes@) =~= emptiness(old(nodes)@).insert(idx as int, false));
        Ok(())
    }

    /// Appends `node` in a new slot at the end of the list.
    pub fn push(&mut self, nodes: &mut NodeList, node: ConfigNode) -> (r: Result<(), PatchingError>)
        ensures
            final(self).needle() == old(self).needle(),
            final(self).active() == old(self).active(),
            final(self).position() == old(self).position(),
            match r {
                Ok(()) => !old(self).active() && final(nodes)@ == old(nodes)@.push(Some(node)),
                Err(e) => e@ is Internal && old(self).active() && final(nodes)@ == old(nodes)@,
            },
            old(self).consistent(old(nodes)@) ==> final(self).consistent(final(nodes)@),
            allowed(
                old(self).session(old(nodes)@),
                Call::Push,
                r is Ok,
                final(self).session(final(nodes)@),
            ),
    {
        if self.is_active() {
            return internal_error("cannot insert into active parent");
        }
        nodes.push(Some(node));
        assert(emptiness(nodes@) =~= emptiness(old(nodes)@).push(false));
        Ok(())
    }
}

} // verus!
