//! The selector of a patch: which nodes of a list the patch is meant for.

use vstd::prelude::*;
use vstd::string::*;
use crate::config_node::{name_of, ConfigNode, NodeModel};
use crate::document::{CapabilityModel, HasPredicate, Index, NeedModel, OrClause};
use crate::module_manager::operator::has::{
    admits, all_hold, all_satisfied, filter_of, FilterModel, NameFilter,
};
use crate::node_patch::{NodePatch, NodePatchModel};
use crate::text;

verus! {

/// What a patch asks of its targets. A selector is made of a patch once
/// and does not change.
#[derive(Debug)]
pub struct Selector<'a> {
    pub ident: &'a str,
    pub name_filter: NameFilter,
    pub has_predicates: &'a Vec<HasPredicate>,
    pub needs: &'a Vec<OrClause>,
    pub ordinal: Option<Index>,
}

/// A selector with its texts as character sequences.
pub struct SelectorModel {
    pub ident: Seq<char>,
    pub name_filter: FilterModel,
    pub has: Seq<CapabilityModel>,
    pub needs: Seq<Seq<NeedModel>>,
    pub ordinal: Option<Index>,
}

impl<'a> View for Selector<'a> {
    type V = SelectorModel;

    open spec fn view(&self) -> SelectorModel {
        SelectorModel {
            ident: self.ident@,
            name_filter: self.name_filter@,
            has: crate::document::capabilities_model(self.has_predicates@),
            needs: crate::document::needs_model(self.needs@),
            ordinal: self.ordinal,
        }
    }
}

/// The selector of a patch.
pub open spec fn selector_of(patch: NodePatchModel) -> SelectorModel {
    SelectorModel {
        ident: patch.ident,
        name_filter: filter_of(patch.target_name),
        has: patch.has,
        needs: patch.needs,
        ordinal: patch.index,
    }
}

/// Whether a node is a candidate: it has the identifier, its name passes
/// the filter, and it has every capability.
pub open spec fn accepts(selector: SelectorModel, node: NodeModel) -> bool {
    &&& node.ident == selector.ident
    &&& admits(selector.name_filter, name_of(node))
    &&& all_hold(selector.has, selector.has.len() as int, node)
}

/// Whether the ordinal lets the candidate pass before which `seen`
/// candidates were found. No ordinal, or the one that stands for all, lets
/// every candidate pass; a number only the candidate at that place, counted
/// from zero.
pub open spec fn ordinal_admits(ordinal: Option<Index>, seen: int) -> bool {
    match ordinal {
        None => true,
        Some(Index::All) => true,
        Some(Index::Number(n)) => seen == n,
    }
}

/// The number of candidates among the first `n` nodes of a list.
pub open spec fn candidates(selector: SelectorModel, nodes: Seq<NodeModel>, n: int) -> int
    decreases n,
{
    if n <= 0 || n > nodes.len() {
        0
    } else if accepts(selector, nodes[n - 1]) {
        candidates(selector, nodes, n - 1) + 1
    } else {
        candidates(selector, nodes, n - 1)
    }
}

/// Whether the node at `i` is a target: a candidate that the ordinal lets pass.
pub open spec fn selected(selector: SelectorModel, nodes: Seq<NodeModel>, i: int) -> bool {
    &&& 0 <= i < nodes.len()
    &&& accepts(selector, nodes[i])
    &&& ordinal_admits(selector.ordinal, candidates(selector, nodes, i))
}

/// Whether one of the first `n` nodes of a list is a target.
pub open spec fn any_selected(selector: SelectorModel, nodes: Seq<NodeModel>, n: int) -> bool {
    exists|i: int| 0 <= i < n && selected(selector, nodes, i)
}

/// The number of candidates counts no more than the nodes looked at.
pub proof fn lemma_candidates_bound(selector: SelectorModel, nodes: Seq<NodeModel>, n: int)
    ensures
        0 <= candidates(selector, nodes, n),
        0 <= n <= nodes.len() ==> candidates(selector, nodes, n) <= n,
    decreases n,
{
    if 0 < n <= nodes.len() {
        lemma_candidates_bound(selector, nodes, n - 1);
    }
}

/// A stretch of nodes that holds no candidate adds none.
pub proof fn lemma_candidates_skip(selector: SelectorModel, nodes: Seq<NodeModel>, from: int, to: int)
    requires
        0 <= from <= to <= nodes.len(),
        forall|j: int| from <= j < to ==> !accepts(selector, #[trigger] nodes[j]),
    ensures
        candidates(selector, nodes, to) == candidates(selector, nodes, from),
    decreases to - from,
{
    if from < to {
        lemma_candidates_skip(selector, nodes, from, to - 1);
    }
}

impl<'a> Selector<'a> {
    pub fn new(patch: &'a NodePatch) -> (r: Self)
        ensures
            r@ == selector_of(patch@),
    {
        Selector {
            ident: patch.ident.as_str(),
            name_filter: NameFilter::new(&patch.target_name),
            has_predicates: &patch.has,
            needs: &patch.needs,
            ordinal: patch.index,
        }
    }

    /// Whether the node is a candidate.
    pub fn accepts(&self, node: &ConfigNode) -> (r: bool)
        requires
            node.wf(),
        ensures
            r == accepts(self@, node@),
    {
        text::same(self.ident, node.ident.as_str()) && self.name_filter.admits(node.name_key())
            && all_satisfied(node, self.has_predicates)
    }

    /// Whether the ordinal lets the candidate pass before which `seen` candidates were found.
    pub fn selects(&self, seen: usize) -> (r: bool)
        ensures
            r == ordinal_admits(self@.ordinal, seen as int),
    {
        match self.ordinal {
            None => true,
            Some(Index::All) => true,
            Some(Index::Number(n)) => n >= 0 && seen == n as usize,
        }
    }
}

} // verus!
