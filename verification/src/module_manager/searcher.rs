//! The mutation protocol on a list of slots.
//!
//! A `Searcher` walks a list once, from front to back. A successful search
//! checks the matching node out of its slot and turns the searcher into an
//! `ActiveSearcher`; giving the node back, or deleting its slot, turns it into
//! a `Searcher` again. So a second search cannot start while a node is out,
//! and nothing can be given back that was not taken.

use vstd::prelude::*;
use crate::config_node::{ConfigNode, NodeList};
use crate::{internal_error, ErrorModel, PatchingError};

verus! {

/// A search that has no node checked out.
pub struct Searcher<F> {
    needle: F,
    next_idx: usize,
}

/// A search whose last match is checked out of its slot.
pub struct ActiveSearcher<F>(Searcher<F>);

/// No slot of the list is empty.
pub open spec fn no_holes(slots: Seq<Option<ConfigNode>>) -> bool {
    forall|i: int| 0 <= i < slots.len() ==> (#[trigger] slots[i]) is Some
}

/// Slot `i` is the one empty slot of the list.
pub open spec fn only_hole(slots: Seq<Option<ConfigNode>>, i: int) -> bool {
    &&& 0 <= i < slots.len()
    &&& slots[i] is None
    &&& forall|j: int| 0 <= j < slots.len() && j != i ==> (#[trigger] slots[j]) is Some
}

/// In either state of the protocol at most one node is checked out: a list
/// without an empty slot, or with slot `i` as its one empty slot, has no two
/// empty slots.
pub proof fn lemma_at_most_one_checked_out(slots: Seq<Option<ConfigNode>>, i: int, a: int, b: int)
    requires
        no_holes(slots) || only_hole(slots, i),
        0 <= a < slots.len(),
        0 <= b < slots.len(),
        slots[a] is None,
        slots[b] is None,
    ensures
        a == b,
        a == i,
        !no_holes(slots),
{
}

/// The slots from `from` up to `to` hold nodes, and the needle turned each of them down.
pub open spec fn turned_down<F: Fn(&ConfigNode) -> bool>(
    needle: F,
    slots: Seq<Option<ConfigNode>>,
    from: int,
    to: int,
) -> bool {
    forall|j: int|
        from <= j < to ==> (#[trigger] slots[j]) is Some && call_ensures(needle, (&slots[j]->0,), false)
}

/// The needle can be asked about every node of the list.
pub open spec fn askable<F: Fn(&ConfigNode) -> bool>(needle: F, slots: Seq<Option<ConfigNode>>) -> bool {
    forall|i: int|
        0 <= i < slots.len() && (#[trigger] slots[i]) is Some ==> call_requires(needle, (&slots[i]->0,))
}

impl<F> Searcher<F> where F: Fn(&ConfigNode) -> bool {
    /// The predicate that picks the nodes.
    pub closed spec fn needle(&self) -> F {
        self.needle
    }

    /// The index of the slot at which the next search starts.
    pub closed spec fn position(&self) -> int {
        self.next_idx as int
    }

    pub fn new(needle: F) -> (r: Self)
        ensures
            r.needle() == needle,
            r.position() == 0,
    {
        Searcher { needle, next_idx: 0 }
    }

    /// Looks for the next node that the needle accepts, from the current
    /// position on, and checks it out of its slot. An empty slot on the way,
    /// or a position behind the end of the list, is an internal error.
    pub fn search(self, nodes: &mut NodeList) -> (r: Result<
        Option<(ActiveSearcher<F>, ConfigNode)>,
        PatchingError,
    >)
        requires
            askable(self.needle(), old(nodes)@),
        ensures
            match r {
                Ok(Some((handle, node))) => {
                    &&& self.position() <= handle.index() < old(nodes)@.len()
                    &&& turned_down(self.needle(), old(nodes)@, self.position(), handle.index())
                    &&& old(nodes)@[handle.index()] == Some(node)
                    &&& call_ensures(self.needle(), (&node,), true)
                    &&& final(nodes)@ == old(nodes)@.update(handle.index(), None)
                    &&& handle.needle() == self.needle()
                },
                Ok(None) => {
                    &&& self.position() <= old(nodes)@.len()
                    &&& turned_down(self.needle(), old(nodes)@, self.position(), old(nodes)@.len() as int)
                    &&& final(nodes)@ == old(nodes)@
                },
                Err(e) => {
                    &&& e@ is Internal
                    &&& final(nodes)@ == old(nodes)@
                    &&& self.position() > old(nodes)@.len() || exists|i: int|
                        self.position() <= i < old(nodes)@.len() && (#[trigger] old(nodes)@[i]) is None
                            && turned_down(self.needle(), old(nodes)@, self.position(), i)
                },
            },
            no_holes(old(nodes)@) ==> match r {
                Ok(Some((handle, _))) => only_hole(final(nodes)@, handle.index()),
                Ok(None) => no_holes(final(nodes)@),
                Err(_) => self.position() > old(nodes)@.len(),
            },
    {
        let Searcher { needle, next_idx: first } = self;
        let n = nodes.len();
        if first > n {
            return internal_error("tried to search behind the end of the list");
        }
        let mut next_idx = first;
        while next_idx < n
            invariant
                first <= next_idx <= n,
                first == self.next_idx,
                needle == self.needle,
                n == nodes@.len(),
                nodes@ == old(nodes)@,
                askable(needle, nodes@),
                turned_down(needle, nodes@, first as int, next_idx as int),
            decreases n - next_idx,
        {
            let idx = next_idx;
            next_idx = next_idx + 1;
            let hit = match &nodes[idx] {
                Some(node) => needle(node),
                None => {
                    return internal_error("tried to search active patcher");
                },
            };
            if hit {
                let taken = nodes[idx].take();
                match taken {
                    Some(node) => {
                        return Ok(Some((ActiveSearcher(Searcher { needle, next_idx }), node)));
                    },
                    None => {
                        return internal_error("tried to search active patcher");
                    },
                }
            }
        }
        Ok(None)
    }

    /// Puts `node` into a new slot at `idx`. The position moves along if the
    /// new slot lies at or before it. An index behind the end of the list is
    /// an internal error, and so is a position that cannot move along because
    /// it is the largest that there is; an error changes nothing.
    pub fn insert(&mut self, idx: usize, nodes: &mut NodeList, node: ConfigNode) -> (r: Result<
        (),
        PatchingError,
    >)
        ensures
            final(self).needle() == old(self).needle(),
            r is Ok <==> idx <= old(nodes)@.len() && !(idx <= old(self).position() && old(self).position()
                == usize::MAX),
            match r {
                Ok(()) => {
                    &&& final(nodes)@ == old(nodes)@.insert(idx as int, Some(node))
                    &&& final(self).position() == if idx <= old(self).position() {
                        old(self).position() + 1
                    } else {
                        old(self).position()
                    }
                },
                Err(e) => {
                    &&& e@ is Internal
                    &&& final(nodes)@ == old(nodes)@
                    &&& final(self).position() == old(self).position()
                },
            },
            no_holes(old(nodes)@) && r is Ok ==> no_holes(final(nodes)@),
    {
        if idx > nodes.len() {
            return internal_error("tried to insert behind the end of the list");
        }
        if idx <= self.next_idx {
            if self.next_idx == usize::MAX {
                return internal_error("the position cannot move along");
            }
            nodes.insert(idx, Some(node));
            self.next_idx = self.next_idx + 1;
        } else {
            nodes.insert(idx, Some(node));
        }
        Ok(())
    }

    /// Appends `node` in a new slot at the end of the list.
    pub fn push(&mut self, nodes: &mut NodeList, node: ConfigNode) -> (r: Result<(), PatchingError>)
        ensures
            r is Ok,
            final(nodes)@ == old(nodes)@.push(Some(node)),
            final(self).needle() == old(self).needle(),
            final(self).position() == old(self).position(),
            no_holes(old(nodes)@) ==> no_holes(final(nodes)@),
    {
        nodes.push(Some(node));
        Ok(())
    }
}

impl<F> ActiveSearcher<F> where F: Fn(&ConfigNode) -> bool {
    /// The predicate that picks the nodes.
    pub closed spec fn needle(&self) -> F {
        self.0.needle
    }

    /// The index of the slot whose node is checked out.
    pub closed spec fn index(&self) -> int {
        self.0.next_idx - 1
    }

    /// Puts `node` into the slot that was emptied. The next search starts at the following slot.
    pub fn replace(self, nodes: &mut NodeList, node: ConfigNode) -> (r: Result<Searcher<F>, PatchingError>)
        ensures
            match r {
                Ok(searcher) => {
                    &&& 0 <= self.index() < old(nodes)@.len()
                    &&& old(nodes)@[self.index()] is None
                    &&& final(nodes)@ == old(nodes)@.update(self.index(), Some(node))
                    &&& searcher.position() == self.index() + 1
                    &&& searcher.needle() == self.needle()
                },
                Err(e) => {
                    &&& e@ is Internal
                    &&& final(nodes)@ == old(nodes)@
                    &&& !(0 <= self.index() < old(nodes)@.len() && old(nodes)@[self.index()] is None)
                },
            },
            only_hole(old(nodes)@, self.index()) ==> r is Ok && no_holes(final(nodes)@),
    {
        let ActiveSearcher(Searcher { needle, next_idx }) = self;
        if next_idx == 0 || next_idx > nodes.len() {
            return internal_error("element marked active does not exist");
        }
        let idx = next_idx - 1;
        if nodes[idx].is_some() {
            return internal_error("element marked active is not active");
        }
        nodes[idx] = Some(node);
        Ok(Searcher { needle, next_idx })
    }

    /// Removes the slot that was emptied. The next search starts at the slot
    /// that followed it, which now stands in its place.
    pub fn delete(self, nodes: &mut NodeList) -> (r: Result<Searcher<F>, PatchingError>)
        ensures
            match r {
                Ok(searcher) => {
                    &&& 0 <= self.index() < old(nodes)@.len()
                    &&& old(nodes)@[self.index()] is None
                    &&& final(nodes)@ == old(nodes)@.remove(self.index())
                    &&& searcher.position() == self.index()
                    &&& searcher.needle() == self.needle()
                },
                Err(e) => {
                    &&& e@ is Internal
                    &&& final(nodes)@ == old(nodes)@
                    &&& !(0 <= self.index() < old(nodes)@.len() && old(nodes)@[self.index()] is None)
                },
            },
            only_hole(old(nodes)@, self.index()) ==> r is Ok && no_holes(final(nodes)@),
    {
        let ActiveSearcher(Searcher { needle, next_idx }) = self;
        if next_idx == 0 || next_idx > nodes.len() {
            return internal_error("element marked active does not exist");
        }
        let idx = next_idx - 1;
        if nodes[idx].is_some() {
            return internal_error("element marked active is not active");
        }
        let _ = nodes.remove(idx);
        Ok(Searcher { needle, next_idx: idx })
    }
}

} // verus!
