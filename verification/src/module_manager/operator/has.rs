//! `HAS`: what a node must hold to be a target, and the filter on its name.

use vstd::prelude::*;
use vstd::string::*;
use crate::config_node::{lemma_children, name_of, ConfigNode, KeyModel, NodeModel};
use crate::document::{
    capabilities_model, lemma_nested_capabilities, text_of, CapabilityModel, HasPredicate,
};
use crate::node_patch::NodePatch;
use crate::text;

verus! {

/// The names that a patch is meant for.
#[derive(Debug, PartialEq, Eq)]
pub enum NameFilter {
    /// Every node, named or not.
    Any,
    /// The nodes that carry one of these names.
    OneOf(Vec<String>),
}

/// A name filter with its names as texts.
pub enum FilterModel {
    Any,
    OneOf(Seq<Seq<char>>),
}

impl View for NameFilter {
    type V = FilterModel;

    open spec fn view(&self) -> FilterModel {
        match self {
            NameFilter::Any => FilterModel::Any,
            NameFilter::OneOf(names) => FilterModel::OneOf(text::texts(names@)),
        }
    }
}

/// The marker that stands for every name.
pub open spec fn wildcard() -> Seq<char> {
    seq!['*']
}

/// The filter that a target name stands for. No name, or the wildcard,
/// admits every node; any other text is a list of names separated by `|`.
pub open spec fn filter_of(target: Option<Seq<char>>) -> FilterModel {
    match target {
        None => FilterModel::Any,
        Some(target) => if target == wildcard() {
            FilterModel::Any
        } else {
            FilterModel::OneOf(text::pieces(target, '|'))
        },
    }
}

/// Whether the filter lets a node with this name pass.
pub open spec fn admits(filter: FilterModel, name: Option<Seq<char>>) -> bool {
    match filter {
        FilterModel::Any => true,
        FilterModel::OneOf(names) => name is Some && names.contains(name->0),
    }
}

/// Whether a key is the one that a key predicate asks for.
pub open spec fn key_fits(ident: Seq<char>, value: Option<Seq<char>>, key: KeyModel) -> bool {
    key.ident == ident && (value is None || value == Some(key.value))
}

/// Whether a child is one that a node predicate asks for.
pub open spec fn child_fits(
    ident: Seq<char>,
    name: Option<Seq<char>>,
    nested: Seq<CapabilityModel>,
    child: NodeModel,
) -> bool
    decreases nested, nested.len() + 1,
{
    &&& child.ident == ident
    &&& name is None || name == name_of(child)
    &&& all_hold(nested, nested.len() as int, child)
}

/// Whether a node has the capability. A node predicate asks for a child
/// with the given identifier, the given name if there is one, and the nested
/// capabilities; a key predicate for a key with the given identifier and, if
/// there is one, the given value. A negated predicate asks for the opposite.
pub open spec fn holds(capability: CapabilityModel, node: NodeModel) -> bool
    decreases capability, 0int,
{
    match capability {
        CapabilityModel::Node { negated, ident, name, nested } => negated != (exists|i: int|
            0 <= i < node.children.len() && child_fits(ident, name, nested, #[trigger] node.children[i])),
        CapabilityModel::Key { negated, ident, value } => negated != (exists|i: int|
            0 <= i < node.keys.len() && key_fits(ident, value, #[trigger] node.keys[i])),
    }
}

/// Whether a node has the first `n` of some capabilities.
pub open spec fn all_hold(capabilities: Seq<CapabilityModel>, n: int, node: NodeModel) -> bool
    decreases capabilities, n,
{
    if n <= 0 || n > capabilities.len() {
        true
    } else {
        all_hold(capabilities, n - 1, node) && holds(capabilities[n - 1], node)
    }
}

impl NameFilter {
    /// The filter that a target name stands for.
    pub fn new(target: &Option<String>) -> (r: Self)
        ensures
            r@ == filter_of(text_of(*target)),
    {
        match target {
            None => NameFilter::Any,
            Some(target) => {
                proof {
                    reveal_strlit("*");
                    assert("*"@ =~= wildcard());
                }
                if text::same(target.as_str(), "*") {
                    NameFilter::Any
                } else {
                    NameFilter::OneOf(text::split(target.as_str(), '|'))
                }
            },
        }
    }

    /// Whether the filter lets a node with this name pass.
    pub fn admits(&self, name: Option<&str>) -> (r: bool)
        ensures
            r == admits(
                self@,
                match name {
                    Some(name) => Some(name@),
                    None => None,
                },
            ),
    {
        match self {
            NameFilter::Any => true,
            NameFilter::OneOf(names) => match name {
                None => false,
                Some(name) => lists(names, name),
            },
        }
    }
}

/// Whether `name` is one of the names of the list.
fn lists(names: &Vec<String>, name: &str) -> (r: bool)
    ensures
        r == text::texts(names@).contains(name@),
{
    let mut i: usize = 0;
    while i < names.len()
        invariant
            i <= names@.len(),
            forall|k: int| 0 <= k < i ==> text::texts(names@)[k] != name@,
        decreases names@.len() - i,
    {
        if text::same(names[i].as_str(), name) {
            assert(text::texts(names@)[i as int] == name@);
            return true;
        }
        i = i + 1;
    }
    false
}

/// Whether a text that may be absent is the given one.
fn same_or_absent(wanted: &Option<String>, found: Option<&str>) -> (r: bool)
    ensures
        r == (wanted is None || text_of(*wanted) == match found {
            Some(found) => Some(found@),
            None => None,
        }),
{
    match wanted {
        None => true,
        Some(wanted) => match found {
            Some(found) => text::same(wanted.as_str(), found),
            None => false,
        },
    }
}

/// Whether the node has every capability of the list.
pub fn all_satisfied(node: &ConfigNode, predicates: &Vec<HasPredicate>) -> (r: bool)
    requires
        node.wf(),
    ensures
        r == all_hold(capabilities_model(predicates@), predicates@.len() as int, node@),
    decreases predicates, 1int,
{
    let ghost model = capabilities_model(predicates@);
    let mut all = true;
    let mut i: usize = 0;
    while i < predicates.len()
        invariant
            i <= predicates@.len(),
            node.wf(),
            model == capabilities_model(predicates@),
            all == all_hold(model, i as int, node@),
        decreases predicates@.len() - i,
    {
        assert(model[i as int] == predicates@[i as int]@);
        if !evaluate_predicate(node, &predicates[i]) {
            all = false;
        }
        i = i + 1;
    }
    all
}

/// Whether the node has the capability.
pub fn evaluate_predicate(node: &ConfigNode, predicate: &HasPredicate) -> (r: bool)
    requires
        node.wf(),
    ensures
        r == holds(predicate@, node@),
    decreases predicate, 0int,
{
    proof {
        lemma_children(*node);
        lemma_nested_capabilities(*predicate);
    }
    match predicate {
        HasPredicate::NodePredicate { negated, node_type, name, has_block } => {
            let ghost nested = predicate@->nested;
            let mut found = false;
            let mut i: usize = 0;
            while i < node.nodes.len()
                invariant
                    i <= node.nodes@.len(),
                    node.wf(),
                    node@.children.len() == node.nodes@.len(),
                    forall|k: int|
                        0 <= k < node.nodes@.len() ==> node.nodes@[k] is Some && (
                        #[trigger] node@.children[k]) == node.nodes@[k]->0@,
                    predicate@ == (CapabilityModel::Node {
                        negated: *negated,
                        ident: node_type@,
                        name: text_of(*name),
                        nested,
                    }),
                    *predicate == (HasPredicate::NodePredicate {
                        negated: *negated,
                        node_type: *node_type,
                        name: *name,
                        has_block: *has_block,
                    }),
                    match *has_block {
                        Some(block) => nested == capabilities_model(block.predicates@),
                        None => nested == Seq::<CapabilityModel>::empty(),
                    },
                    found == exists|k: int|
                        0 <= k < i && child_fits(node_type@, text_of(*name), nested, #[trigger] node@.children[k]),
                decreases node.nodes@.len() - i,
            {
                match &node.nodes[i] {
                    Some(child) => {
                        assert(node@.children[i as int] == child@);
                        let fits = text::same(child.ident.as_str(), node_type.as_str()) && same_or_absent(
                            name,
                            child.name_key(),
                        ) && match has_block {
                            Some(block) => all_satisfied(child, &block.predicates),
                            None => true,
                        };
                        assert(fits == child_fits(node_type@, text_of(*name), nested, child@));
                        if fits {
                            found = true;
                        }
                    },
                    None => {},
                }
                i = i + 1;
            }
            *negated != found
        },
        HasPredicate::KeyPredicate { negated, key, value } => {
            let mut found = false;
            let mut i: usize = 0;
            while i < node.keys.len()
                invariant
                    i <= node.keys@.len(),
                    node@.keys.len() == node.keys@.len(),
                    forall|k: int| 0 <= k < node.keys@.len() ==> (#[trigger] node@.keys[k]) == node.keys@[k]@,
                    found == exists|k: int|
                        0 <= k < i && key_fits(key@, text_of(*value), #[trigger] node@.keys[k]),
                decreases node.keys@.len() - i,
            {
                let fits = text::same(node.keys[i].ident.as_str(), key.as_str()) && same_or_absent(
                    value,
                    Some(node.keys[i].value.as_str()),
                );
                assert(fits == key_fits(key@, text_of(*value), node@.keys[i as int]));
                if fits {
                    found = true;
                }
                i = i + 1;
            }
            *negated != found
        },
    }
}

/// Whether the node has every capability that the patch asks for.
pub fn is_satisfied(node: &ConfigNode, patch: &NodePatch) -> (r: bool)
    requires
        node.wf(),
    ensures
        r == all_hold(patch@.has, patch@.has.len() as int, node@),
{
    all_satisfied(node, &patch.has)
}

/// Whether the node's name is one that the patch is meant for.
pub fn name_matches(node: &ConfigNode, patch: &NodePatch) -> (r: bool)
    ensures
        r == admits(filter_of(patch@.target_name), name_of(node@)),
{
    let filter = NameFilter::new(&patch.target_name);
    filter.admits(node.name_key())
}

} // verus!
