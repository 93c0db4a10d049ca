//! The evaluator: what a patch makes of the tree.

use vstd::prelude::*;
use vstd::string::*;
use crate::config_node::{
    first_key, keys_model, lemma_children, lemma_first_key, lemma_first_key_is, nodes_model, nodes_wf,
    ConfigKey, ConfigNode, KeyModel, NodeList, NodeModel,
};
use crate::database::{all_top_level, Database};
use crate::key_patch::{KeyPatch, KeyPatchModel};
use crate::node_patch::{lemma_child_patches, patches_model, NodePatch, NodePatchModel};
use crate::operation::{Op, OpModel};
use crate::text;
use crate::module_manager::searcher::Searcher;
use crate::module_manager::selector::{
    accepts, any_selected, candidates, lemma_candidates_bound, lemma_candidates_skip, selected,
    selector_of, Selector, SelectorModel,
};
use crate::{internal_error, runtime_error, ErrorModel, Failure, PatchingError, RuntimeError};

verus! {

/// Every operation below the patch is an insertion.
pub open spec fn body_is_pure(patch: NodePatchModel) -> bool
    decreases patch,
{
    &&& forall|i: int| 0 <= i < patch.key_patches.len() ==> (#[trigger] patch.key_patches[i]).operation is Insert
    &&& forall|i: int|
        0 <= i < patch.node_patches.len() ==> (#[trigger] patch.node_patches[i]).operation is Insert
            && body_is_pure(patch.node_patches[i])
}

/// The patch is an insertion, and so is every operation below it.
pub open spec fn is_pure(patch: NodePatchModel) -> bool {
    patch.operation is Insert && body_is_pure(patch)
}

/// The key that a key patch writes down as data: its value without the
/// white space around it.
pub open spec fn pure_key(patch: KeyPatchModel) -> KeyModel {
    KeyModel { ident: patch.ident, value: text::trimmed(patch.value) }
}

/// The node that a patch writes down as data. It mirrors the patch: the
/// same identifier, a key for each key patch and a child for each node
/// patch, in the same order.
pub open spec fn pure_node(patch: NodePatchModel) -> NodeModel
    decreases patch,
{
    NodeModel {
        origin: None,
        ident: patch.ident,
        keys: Seq::new(patch.key_patches.len(), |i: int| pure_key(patch.key_patches[i])),
        children: Seq::new(
            patch.node_patches.len(),
            |i: int|
                if 0 <= i < patch.node_patches.len() {
                    pure_node(patch.node_patches[i])
                } else {
                    arbitrary()
                },
        ),
    }
}

/// The node that a patch writes down mirrors the patch: it has the
/// patch's identifier and no file; its keys are those of the key patches, in
/// their order, each with its value trimmed; its children are what the node
/// patches write down, in their order.
pub proof fn lemma_pure_node_mirrors(patch: NodePatchModel)
    ensures
        pure_node(patch).ident == patch.ident,
        pure_node(patch).origin is None,
        pure_node(patch).keys.len() == patch.key_patches.len(),
        forall|i: int|
            0 <= i < patch.key_patches.len() ==> (#[trigger] pure_node(patch).keys[i]).ident
                == patch.key_patches[i].ident && pure_node(patch).keys[i].value == text::trimmed(
                patch.key_patches[i].value,
            ),
        pure_node(patch).children.len() == patch.node_patches.len(),
        forall|i: int|
            0 <= i < patch.node_patches.len() ==> #[trigger] pure_node(patch).children[i] == pure_node(
                patch.node_patches[i],
            ),
{
}

/// Writes the patch down as data, whatever its own operation is. Fails
/// if an operation below it is not an insertion.
fn materialize(path: &str, patch: &NodePatch) -> (r: Result<ConfigNode, PatchingError>)
    ensures
        match r {
            Ok(node) => body_is_pure(patch@) && node@ == pure_node(patch@) && node.wf(),
            Err(e) => !body_is_pure(patch@) && e@ == (ErrorModel::Runtime {
                path: path@,
                kind: RuntimeError::PatchInNonPatchNode,
            }),
        },
    decreases patch, 0int,
{
    proof {
        lemma_child_patches(*patch);
    }
    let mut keys: Vec<ConfigKey> = Vec::new();
    let mut i: usize = 0;
    while i < patch.key_patches.len()
        invariant
            i <= patch.key_patches@.len(),
            patch@.key_patches.len() == patch.key_patches@.len(),
            forall|k: int| 0 <= k < patch.key_patches@.len() ==> (#[trigger] patch@.key_patches[k]) == patch.key_patches@[k]@,
            forall|k: int| 0 <= k < i ==> (#[trigger] patch@.key_patches[k]).operation is Insert,
            keys@.len() == i,
            forall|k: int| 0 <= k < i ==> (#[trigger] keys@[k])@ == pure_key(patch@.key_patches[k]),
        decreases patch.key_patches@.len() - i,
    {
        let key = &patch.key_patches[i];
        if !key.operation.is_insert() {
            assert(!(patch@.key_patches[i as int].operation is Insert));
            return runtime_error(RuntimeError::PatchInNonPatchNode, path);
        }
        keys.push(ConfigKey::new(key.ident.as_str(), text::trim(key.value.as_str())));
        i = i + 1;
    }
    let mut nodes: NodeList = Vec::new();
    let mut j: usize = 0;
    while j < patch.node_patches.len()
        invariant
            j <= patch.node_patches@.len(),
            patch@.node_patches == patches_model(patch.node_patches@),
            forall|k: int|
                0 <= k < j ==> (#[trigger] patch@.node_patches[k]).operation is Insert && body_is_pure(
                    patch@.node_patches[k],
                ),
            nodes@.len() == j,
            forall|k: int|
                0 <= k < j ==> (#[trigger] nodes@[k]) is Some && nodes@[k]->0.wf() && nodes@[k]->0@
                    == pure_node(patch@.node_patches[k]),
        decreases patch.node_patches@.len() - j,
    {
        assert(patch@.node_patches[j as int] == patch.node_patches@[j as int]@);
        match evaluate_node_as_pure_data(path, &patch.node_patches[j]) {
            Ok(child) => {
                nodes.push(Some(child));
            },
            Err(e) => {
                return Err(e);
            },
        }
        j = j + 1;
    }
    let node = ConfigNode { file_path: None, ident: patch.ident.clone(), nodes, keys };
    proof {
        lemma_children(node);
        assert(node@.keys =~= pure_node(patch@).keys);
        assert(node@.children =~= pure_node(patch@).children);
    }
    Ok(node)
}

/// Writes an insertion down as data. The node mirrors the patch:
/// identifiers, key values and the order of children are those of the
/// patch. Fails if the patch, or an operation below it, is not an insertion.
pub fn evaluate_node_as_pure_data(path: &str, patch: &NodePatch) -> (r: Result<ConfigNode, PatchingError>)
    ensures
        match r {
            Ok(node) => is_pure(patch@) && node@ == pure_node(patch@) && node.wf(),
            Err(e) => !is_pure(patch@) && e@ == (ErrorModel::Runtime {
                path: path@,
                kind: RuntimeError::PatchInNonPatchNode,
            }),
        },
    decreases patch, 1int,
{
    if !patch.operation.is_insert() {
        return runtime_error(RuntimeError::PatchInNonPatchNode, path);
    }
    materialize(path, patch)
}

/// What a key patch makes of a node. It works on the first key with its
/// identifier. An insertion appends a key; an edit gives the key the
/// patch's value; an edit-or-create does so or, without such a key, appends
/// one; a default value appends a key only if there is none; a deletion
/// removes the key; a rename gives the node itself the patch's value as its
/// identifier. The copy operations leave the node as it is.
pub open spec fn apply_key(patch: KeyPatchModel, node: NodeModel) -> NodeModel {
    let at = first_key(node.keys, patch.ident);
    let found = at < node.keys.len();
    let key = KeyModel { ident: patch.ident, value: patch.value };
    match patch.operation {
        OpModel::Insert => NodeModel { keys: node.keys.push(key), ..node },
        OpModel::Rename => NodeModel { ident: patch.value, ..node },
        OpModel::Edit => if found {
            NodeModel { keys: node.keys.update(at, key), ..node }
        } else {
            node
        },
        OpModel::EditOrCreate => if found {
            NodeModel { keys: node.keys.update(at, key), ..node }
        } else {
            NodeModel { keys: node.keys.push(key), ..node }
        },
        OpModel::DefaultValue => if found {
            node
        } else {
            NodeModel { keys: node.keys.push(key), ..node }
        },
        OpModel::Delete => if found {
            NodeModel { keys: node.keys.remove(at), ..node }
        } else {
            node
        },
        OpModel::Copy => node,
        OpModel::CopyFrom { .. } => node,
    }
}

/// What the first `n` key patches of a list make of a node, one after the other.
pub open spec fn apply_keys(patches: Seq<KeyPatchModel>, n: int, node: NodeModel) -> NodeModel
    decreases n,
{
    if n <= 0 || n > patches.len() {
        node
    } else {
        apply_key(patches[n - 1], apply_keys(patches, n - 1, node))
    }
}

/// The new child that a patch stands for when it finds no target: the
/// patch written down as data.
pub open spec fn create(patch: NodePatchModel, origin: Option<Seq<char>>, nodes: Seq<NodeModel>) -> Result<
    Seq<NodeModel>,
    Failure,
> {
    if body_is_pure(patch) {
        Ok(nodes.push(NodeModel { origin, ..pure_node(patch) }))
    } else {
        Err(Failure::Runtime(RuntimeError::PatchInNonPatchNode))
    }
}

/// What a patch makes of a target: first its node patches work on the
/// target's children, one after the other, then its key patches on the
/// target's keys. The file that the target came from stays the same.
pub open spec fn apply(patch: NodePatchModel, node: NodeModel) -> Result<NodeModel, Failure>
    decreases patch, 0int, 0int,
{
    match apply_children(patch.node_patches, patch.node_patches.len() as int, node.children) {
        Err(failure) => Err(failure),
        Ok(children) => Ok(
            apply_keys(patch.key_patches, patch.key_patches.len() as int, NodeModel { children, ..node }),
        ),
    }
}

/// What the first `n` patches of a list make of a list of children, one
/// patch after the other. The first failure ends it.
pub open spec fn apply_children(patches: Seq<NodePatchModel>, n: int, children: Seq<NodeModel>) -> Result<
    Seq<NodeModel>,
    Failure,
>
    decreases patches, n, 0int,
{
    if n <= 0 || n > patches.len() {
        Ok(children)
    } else {
        match apply_children(patches, n - 1, children) {
            Err(failure) => Err(failure),
            Ok(before) => sweep(patches[n - 1], before),
        }
    }
}

/// What one patch makes of a list of children.
///
/// An insertion appends the patch as data. A copy leaves the list as it is
/// and appends, for each target in turn, what the patch makes of a duplicate
/// of it. An edit replaces each target by what the patch makes of it. An
/// edit-or-create does the same and, where there is no target, appends the
/// patch as data. A default value appends the patch as data where there is
/// no target, and changes nothing where there is one. A deletion removes
/// every target. A copy from elsewhere changes nothing. A rename is not an
/// operation on nodes.
pub open spec fn sweep(patch: NodePatchModel, nodes: Seq<NodeModel>) -> Result<Seq<NodeModel>, Failure>
    decreases patch, 2int, 0int,
{
    let selector = selector_of(patch);
    match patch.operation {
        OpModel::Insert => create(patch, None, nodes),
        OpModel::Rename => Err(Failure::Internal),
        OpModel::CopyFrom { .. } => Ok(nodes),
        OpModel::Edit => edit_sweep(patch, nodes, nodes.len() as int),
        OpModel::Copy => match copy_sweep(patch, nodes, nodes.len() as int) {
            Ok(copies) => Ok(nodes + copies),
            Err(failure) => Err(failure),
        },
        OpModel::Delete => Ok(delete_sweep(selector, nodes, nodes.len() as int)),
        OpModel::EditOrCreate => if any_selected(selector, nodes, nodes.len() as int) {
            edit_sweep(patch, nodes, nodes.len() as int)
        } else {
            create(patch, None, nodes)
        },
        OpModel::DefaultValue => if any_selected(selector, nodes, nodes.len() as int) {
            Ok(nodes)
        } else {
            create(patch, None, nodes)
        },
    }
}

/// The first `n` nodes of a list with each target replaced by what the
/// patch makes of it. The first failure ends it.
pub open spec fn edit_sweep(patch: NodePatchModel, nodes: Seq<NodeModel>, n: int) -> Result<
    Seq<NodeModel>,
    Failure,
>
    decreases patch, 1int, n,
{
    if n <= 0 || n > nodes.len() {
        Ok(Seq::empty())
    } else {
        match edit_sweep(patch, nodes, n - 1) {
            Err(failure) => Err(failure),
            Ok(before) => if selected(selector_of(patch), nodes, n - 1) {
                match apply(patch, nodes[n - 1]) {
                    Ok(node) => Ok(before.push(node)),
                    Err(failure) => Err(failure),
                }
            } else {
                Ok(before.push(nodes[n - 1]))
            },
        }
    }
}

/// What the patch makes of the duplicates of the targets among the first
/// `n` nodes of a list, in the order of the targets. The first failure ends it.
pub open spec fn copy_sweep(patch: NodePatchModel, nodes: Seq<NodeModel>, n: int) -> Result<
    Seq<NodeModel>,
    Failure,
>
    decreases patch, 1int, n,
{
    if n <= 0 || n > nodes.len() {
        Ok(Seq::empty())
    } else {
        match copy_sweep(patch, nodes, n - 1) {
            Err(failure) => Err(failure),
            Ok(before) => if selected(selector_of(patch), nodes, n - 1) {
                match apply(patch, nodes[n - 1]) {
                    Ok(node) => Ok(before.push(node)),
                    Err(failure) => Err(failure),
                }
            } else {
                Ok(before)
            },
        }
    }
}

/// What is left of the first `n` nodes of a list when the targets are removed.
pub open spec fn delete_sweep(selector: SelectorModel, nodes: Seq<NodeModel>, n: int) -> Seq<NodeModel>
    decreases n,
{
    if n <= 0 || n > nodes.len() {
        Seq::empty()
    } else if selected(selector, nodes, n - 1) {
        delete_sweep(selector, nodes, n - 1)
    } else {
        delete_sweep(selector, nodes, n - 1).push(nodes[n - 1])
    }
}

/// A stretch of nodes that holds no candidate is left as it is.
pub proof fn lemma_delete_skip(selector: SelectorModel, nodes: Seq<NodeModel>, from: int, to: int)
    requires
        0 <= from <= to <= nodes.len(),
        forall|j: int| from <= j < to ==> !accepts(selector, #[trigger] nodes[j]),
    ensures
        delete_sweep(selector, nodes, to) == delete_sweep(selector, nodes, from) + nodes.subrange(from, to),
    decreases to - from,
{
    if from < to {
        lemma_delete_skip(selector, nodes, from, to - 1);
        assert(nodes.subrange(from, to - 1).push(nodes[to - 1]) =~= nodes.subrange(from, to));
        assert(delete_sweep(selector, nodes, to) =~= delete_sweep(selector, nodes, from) + nodes.subrange(
            from,
            to,
        ));
    } else {
        assert(delete_sweep(selector, nodes, to) =~= delete_sweep(selector, nodes, from) + nodes.subrange(
            from,
            to,
        ));
    }
}

/// What is left of a list when the edit of one of its first `n` nodes
/// fails: the nodes before the one that could not be edited, as the patch
/// has edited them, and the nodes behind it, as they were. The node that
/// could not be edited is lost. Where no edit fails, the list is as it was.
pub open spec fn edit_left(patch: NodePatchModel, nodes: Seq<NodeModel>, n: int) -> Seq<NodeModel>
    decreases n,
{
    if n <= 0 || n > nodes.len() {
        nodes
    } else {
        match edit_sweep(patch, nodes, n - 1) {
            Err(_) => edit_left(patch, nodes, n - 1),
            Ok(before) => if edit_sweep(patch, nodes, n) is Err {
                before + nodes.skip(n)
            } else {
                nodes
            },
        }
    }
}

/// What a list holds after a patch has failed on it. Only an edit changes
/// the list before it fails: see `edit_left`. A patch that fails in any other
/// way leaves the list as it was.
pub open spec fn left_after_failure(patch: NodePatchModel, nodes: Seq<NodeModel>) -> Seq<NodeModel> {
    match patch.operation {
        OpModel::Edit => edit_left(patch, nodes, nodes.len() as int),
        OpModel::EditOrCreate => if any_selected(selector_of(patch), nodes, nodes.len() as int) {
            edit_left(patch, nodes, nodes.len() as int)
        } else {
            nodes
        },
        _ => nodes,
    }
}

/// Where the edit of the node at `k` is the first to fail, what is left
/// are the `k` nodes before it, as edited, and the nodes behind it.
pub proof fn lemma_edit_left(patch: NodePatchModel, nodes: Seq<NodeModel>, k: int, n: int)
    requires
        0 <= k < n <= nodes.len(),
        edit_sweep(patch, nodes, k) is Ok,
        edit_sweep(patch, nodes, k + 1) is Err,
    ensures
        edit_left(patch, nodes, n) == edit_sweep(patch, nodes, k)->Ok_0 + nodes.skip(k + 1),
    decreases n - k,
{
    if n > k + 1 {
        lemma_edit_fails(patch, nodes, k + 1, n - 1);
        lemma_edit_left(patch, nodes, k, n - 1);
    }
}

/// The error is of the given kind and, if it is about a file, names the file at `path`.
pub open spec fn reports(e: PatchingError, failure: Failure, path: Seq<char>) -> bool {
    e@.fault() == failure.at(path)
}

/// A failure among the first nodes of a list is the failure of the whole sweep.
pub proof fn lemma_edit_fails(patch: NodePatchModel, nodes: Seq<NodeModel>, k: int, n: int)
    requires
        0 <= k <= n <= nodes.len(),
        edit_sweep(patch, nodes, k) is Err,
    ensures
        edit_sweep(patch, nodes, n) == edit_sweep(patch, nodes, k),
    decreases n - k,
{
    if k < n {
        lemma_edit_fails(patch, nodes, k, n - 1);
    }
}

/// A stretch of nodes that holds no candidate is left as it is.
pub proof fn lemma_edit_skip(patch: NodePatchModel, nodes: Seq<NodeModel>, from: int, to: int)
    requires
        0 <= from <= to <= nodes.len(),
        edit_sweep(patch, nodes, from) is Ok,
        forall|j: int| from <= j < to ==> !accepts(selector_of(patch), #[trigger] nodes[j]),
    ensures
        edit_sweep(patch, nodes, to) == Ok::<Seq<NodeModel>, Failure>(
            edit_sweep(patch, nodes, from)->Ok_0 + nodes.subrange(from, to),
        ),
    decreases to - from,
{
    if from < to {
        lemma_edit_skip(patch, nodes, from, to - 1);
        assert(nodes.subrange(from, to - 1).push(nodes[to - 1]) =~= nodes.subrange(from, to));
        assert(edit_sweep(patch, nodes, to)->Ok_0 =~= edit_sweep(patch, nodes, from)->Ok_0 + nodes.subrange(
            from,
            to,
        ));
    } else {
        assert(edit_sweep(patch, nodes, from)->Ok_0 + nodes.subrange(from, to) =~= edit_sweep(
            patch,
            nodes,
            from,
        )->Ok_0);
    }
}

/// A failure among the first nodes of a list is the failure of the whole sweep.
pub proof fn lemma_copy_fails(patch: NodePatchModel, nodes: Seq<NodeModel>, k: int, n: int)
    requires
        0 <= k <= n <= nodes.len(),
        copy_sweep(patch, nodes, k) is Err,
    ensures
        copy_sweep(patch, nodes, n) == copy_sweep(patch, nodes, k),
    decreases n - k,
{
    if k < n {
        lemma_copy_fails(patch, nodes, k, n - 1);
    }
}

/// A stretch of nodes that holds no candidate yields no copy.
pub proof fn lemma_copy_skip(patch: NodePatchModel, nodes: Seq<NodeModel>, from: int, to: int)
    requires
        0 <= from <= to <= nodes.len(),
        forall|j: int| from <= j < to ==> !accepts(selector_of(patch), #[trigger] nodes[j]),
    ensures
        copy_sweep(patch, nodes, to) == copy_sweep(patch, nodes, from),
    decreases to - from,
{
    if from < to {
        lemma_copy_skip(patch, nodes, from, to - 1);
    }
}

/// A stretch of nodes that holds no candidate holds no target.
pub proof fn lemma_none_selected(selector: SelectorModel, nodes: Seq<NodeModel>, from: int, to: int)
    requires
        0 <= from <= to <= nodes.len(),
        !any_selected(selector, nodes, from),
        forall|j: int| from <= j < to ==> !accepts(selector, #[trigger] nodes[j]),
    ensures
        !any_selected(selector, nodes, to),
{
}

/// The index of the first key with the identifier, or the number of keys.
fn find_key(keys: &Vec<ConfigKey>, ident: &str) -> (r: usize)
    ensures
        r == first_key(keys_model(keys@), ident@),
{
    let mut i: usize = 0;
    while i < keys.len()
        invariant
            i <= keys@.len(),
            forall|j: int| 0 <= j < i ==> (#[trigger] keys_model(keys@)[j]).ident != ident@,
        decreases keys@.len() - i,
    {
        if text::same(keys[i].ident.as_str(), ident) {
            proof {
                lemma_first_key_is(keys_model(keys@), ident@, i as int);
            }
            return i;
        }
        i = i + 1;
    }
    proof {
        lemma_first_key_is(keys_model(keys@), ident@, i as int);
    }
    i
}

/// Applies one key patch to a node.
fn apply_key_patch(node: &mut ConfigNode, patch: &KeyPatch)
    ensures
        final(node)@ == apply_key(patch@, old(node)@),
        final(node).nodes == old(node).nodes,
        final(node).file_path == old(node).file_path,
{
    proof {
        lemma_children(*node);
        lemma_first_key(old(node)@.keys, patch@.ident);
    }
    match &patch.operation {
        Op::Insert => {
            node.keys.push(ConfigKey::new(patch.ident.as_str(), patch.value.as_str()));
        },
        Op::Rename => {
            node.ident = patch.value.clone();
        },
        Op::Edit => {
            let at = find_key(&node.keys, patch.ident.as_str());
            if at < node.keys.len() {
                node.keys[at] = ConfigKey::new(patch.ident.as_str(), patch.value.as_str());
            }
        },
        Op::EditOrCreate => {
            let at = find_key(&node.keys, patch.ident.as_str());
            if at < node.keys.len() {
                node.keys[at] = ConfigKey::new(patch.ident.as_str(), patch.value.as_str());
            } else {
                node.keys.push(ConfigKey::new(patch.ident.as_str(), patch.value.as_str()));
            }
        },
        Op::DefaultValue => {
            let at = find_key(&node.keys, patch.ident.as_str());
            if at >= node.keys.len() {
                node.keys.push(ConfigKey::new(patch.ident.as_str(), patch.value.as_str()));
            }
        },
        Op::Delete => {
            let at = find_key(&node.keys, patch.ident.as_str());
            if at < node.keys.len() {
                let _ = node.keys.remove(at);
            }
        },
        Op::Copy => {},
        Op::CopyFrom { .. } => {},
    }
    proof {
        lemma_children(*node);
        assert(node@.keys =~= apply_key(patch@, old(node)@).keys);
    }
}

/// Removes every target of the patch from the list.
fn delete_all(patch: &NodePatch, nodes: &mut NodeList) -> (r: Result<(), PatchingError>)
    requires
        nodes_wf(old(nodes)@),
    ensures
        r is Ok,
        nodes_wf(final(nodes)@),
        nodes_model(final(nodes)@) == delete_sweep(
            selector_of(patch@),
            nodes_model(old(nodes)@),
            old(nodes)@.len() as int,
        ),
{
    let selector = Selector::new(patch);
    let ghost sel = selector@;
    let ghost orig = nodes@;
    let ghost model = nodes_model(orig);
    let needle = |node: &ConfigNode| -> (b: bool)
        requires
            node.wf(),
        ensures
            b == accepts(selector@, node@),
        { selector.accepts(node) };
    let ghost f = needle;
    let mut searcher = Searcher::new(needle);
    let mut seen: usize = 0;
    let total = nodes.len();
    let ghost mut q: int = 0;
    proof {
        assert(nodes_model(nodes@).take(0) =~= delete_sweep(sel, model, 0));
    }
    loop
        invariant
            total == orig.len(),
            sel == selector@,
            sel == selector_of(patch@),
            orig == old(nodes)@,
            model == nodes_model(orig),
            searcher.needle() == f,
            forall|node: &ConfigNode| node.wf() ==> #[trigger] call_requires(f, (node,)),
            forall|node: &ConfigNode, b: bool| #[trigger] call_ensures(f, (node,), b) ==> b == accepts(sel, node@),
            0 <= q <= orig.len(),
            0 <= searcher.position() <= nodes@.len(),
            nodes@.len() == searcher.position() + (orig.len() - q),
            nodes_wf(nodes@),
            nodes_wf(orig),
            forall|j: int| 0 <= j < orig.len() - q ==> #[trigger] nodes@[searcher.position() + j] == orig[q + j],
            nodes_model(nodes@).take(searcher.position()) == delete_sweep(sel, model, q),
            seen == candidates(sel, model, q),
        ensures
            nodes_wf(nodes@),
            nodes_model(nodes@) == delete_sweep(sel, model, orig.len() as int),
        decreases orig.len() - q,
    {
        let ghost p = searcher.position();
        let ghost before = nodes@;
        match searcher.search(nodes) {
            Ok(Some((handle, target))) => {
                let ghost i = handle.index();
                let ghost qi = q + (i - p);
                proof {
                    assert forall|j: int| q <= j < qi implies !accepts(sel, #[trigger] model[j]) by {
                        assert(before[p + (j - q)] == orig[j]);
                        assert(before[p + (j - q)] is Some);
                    }
                    lemma_candidates_skip(sel, model, q, qi);
                    lemma_delete_skip(sel, model, q, qi);
                    lemma_candidates_bound(sel, model, qi);
                    assert(before[p + (qi - q)] == orig[qi]);
                    assert(model[qi] == target@);
                    assert(accepts(sel, model[qi]));
                    assert(nodes_model(before).take(i) =~= nodes_model(before).take(p) + model.subrange(q, qi)) by {
                        assert forall|j: int| p <= j < i implies nodes_model(before)[j] == model[q + (j - p)] by {
                            assert(before[p + (j - p)] == orig[q + (j - p)]);
                        }
                    }
                }
                let chosen = selector.selects(seen);
                seen = seen + 1;
                if chosen {
                    match handle.delete(nodes) {
                        Ok(next) => {
                            searcher = next;
                        },
                        Err(e) => {
                            return Err(e);
                        },
                    }
                    proof {
                        assert(selected(sel, model, qi));
                        q = qi + 1;
                        assert(nodes_model(nodes@).take(i) =~= nodes_model(before).take(i));
                        assert forall|j: int| 0 <= j < orig.len() - q implies #[trigger] nodes@[i + j] == orig[q + j] by {
                            assert(before[p + (i + 1 + j - p)] == orig[q + j]);
                        }
                    }
                } else {
                    match handle.replace(nodes, target) {
                        Ok(next) => {
                            searcher = next;
                        },
                        Err(e) => {
                            return Err(e);
                        },
                    }
                    proof {
                        assert(!selected(sel, model, qi));
                        q = qi + 1;
                        assert(nodes@ =~= before);
                        assert(nodes_model(nodes@).take(i + 1) =~= nodes_model(before).take(i).push(model[qi]));
                        assert forall|j: int| 0 <= j < orig.len() - q implies #[trigger] nodes@[i + 1 + j] == orig[q + j] by {
                            assert(before[p + (i + 1 + j - p)] == orig[q + j]);
                        }
                    }
                }
            },
            Ok(None) => {
                proof {
                    let n = orig.len() as int;
                    assert forall|j: int| q <= j < n implies !accepts(sel, #[trigger] model[j]) by {
                        assert(before[p + (j - q)] == orig[j]);
                        assert(before[p + (j - q)] is Some);
                    }
                    lemma_delete_skip(sel, model, q, n);
                    assert(nodes_model(nodes@) =~= nodes_model(nodes@).take(p) + model.subrange(q, n)) by {
                        assert forall|j: int| p <= j < nodes@.len() implies nodes_model(nodes@)[j] == model[q + (j - p)] by {
                            assert(before[p + (j - p)] == orig[q + (j - p)]);
                        }
                    }
                }
                break;
            },
            Err(e) => {
                return Err(e);
            },
        }
    }
    Ok(())
}

/// Whether the list holds a target of the patch. The list is left as it was.
fn any_target(patch: &NodePatch, nodes: &mut NodeList) -> (r: Result<bool, PatchingError>)
    requires
        nodes_wf(old(nodes)@),
    ensures
        r == Ok::<bool, PatchingError>(
            any_selected(selector_of(patch@), nodes_model(old(nodes)@), old(nodes)@.len() as int),
        ),
        final(nodes)@ == old(nodes)@,
{
    let selector = Selector::new(patch);
    let ghost sel = selector@;
    let ghost orig = nodes@;
    let ghost model = nodes_model(orig);
    let needle = |node: &ConfigNode| -> (b: bool)
        requires
            node.wf(),
        ensures
            b == accepts(selector@, node@),
        { selector.accepts(node) };
    let ghost f = needle;
    let mut searcher = Searcher::new(needle);
    let mut seen: usize = 0;
    let total = nodes.len();
    let mut found = false;
    loop
        invariant_except_break
            !found,
            !any_selected(sel, model, searcher.position()),
        invariant
            total == orig.len(),
            sel == selector@,
            sel == selector_of(patch@),
            orig == old(nodes)@,
            model == nodes_model(orig),
            searcher.needle() == f,
            forall|node: &ConfigNode| node.wf() ==> #[trigger] call_requires(f, (node,)),
            forall|node: &ConfigNode, b: bool| #[trigger] call_ensures(f, (node,), b) ==> b == accepts(sel, node@),
            0 <= searcher.position() <= orig.len(),
            nodes@ == orig,
            nodes_wf(orig),
            seen == candidates(sel, model, searcher.position()),
        ensures
            nodes@ == orig,
            found == any_selected(sel, model, orig.len() as int),
        decreases orig.len() - searcher.position(),
    {
        let ghost p = searcher.position();
        match searcher.search(nodes) {
            Ok(Some((handle, target))) => {
                let ghost i = handle.index();
                proof {
                    assert forall|j: int| p <= j < i implies !accepts(sel, #[trigger] model[j]) by {
                        assert(orig[j] is Some);
                    }
                    lemma_candidates_skip(sel, model, p, i);
                    lemma_candidates_bound(sel, model, i);
                    lemma_none_selected(sel, model, p, i);
                    assert(model[i] == target@);
                }
                let chosen = selector.selects(seen);
                seen = seen + 1;
                match handle.replace(nodes, target) {
                    Ok(next) => {
                        searcher = next;
                    },
                    Err(e) => {
                        return Err(e);
                    },
                }
                assert(nodes@ =~= orig);
                if chosen {
                    assert(selected(sel, model, i));
                    found = true;
                    break;
                }
            },
            Ok(None) => {
                proof {
                    assert forall|j: int| p <= j < orig.len() implies !accepts(sel, #[trigger] model[j]) by {
                        assert(orig[j] is Some);
                    }
                    lemma_none_selected(sel, model, p, orig.len() as int);
                }
                break;
            },
            Err(e) => {
                return Err(e);
            },
        }
    }
    Ok(found)
}

/// Replaces every target of the patch by what the patch makes of it. The
/// answer is whether there was a target.
fn edit_all(path: &str, patch: &NodePatch, nodes: &mut NodeList) -> (r: Result<bool, PatchingError>)
    requires
        nodes_wf(old(nodes)@),
    ensures
        match r {
            Ok(any) => {
                &&& nodes_wf(final(nodes)@)
                &&& edit_sweep(patch@, nodes_model(old(nodes)@), old(nodes)@.len() as int) == Ok::<
                    Seq<NodeModel>,
                    Failure,
                >(nodes_model(final(nodes)@))
                &&& any == any_selected(selector_of(patch@), nodes_model(old(nodes)@), old(nodes)@.len() as int)
                &&& !any ==> final(nodes)@ == old(nodes)@
            },
            Err(e) => {
                &&& edit_sweep(patch@, nodes_model(old(nodes)@), old(nodes)@.len() as int) matches Err(failure)
                    && reports(e, failure, path@)
                &&& nodes_wf(final(nodes)@)
                &&& all_top_level(nodes_model(old(nodes)@)) ==> all_top_level(nodes_model(final(nodes)@))
                &&& nodes_model(final(nodes)@) == edit_left(
                    patch@,
                    nodes_model(old(nodes)@),
                    old(nodes)@.len() as int,
                )
            },
        },
    decreases patch, 1int,
{
    let selector = Selector::new(patch);
    let ghost sel = selector@;
    let ghost orig = nodes@;
    let ghost model = nodes_model(orig);
    let needle = |node: &ConfigNode| -> (b: bool)
        requires
            node.wf(),
        ensures
            b == accepts(selector@, node@),
        { selector.accepts(node) };
    let ghost f = needle;
    let mut searcher = Searcher::new(needle);
    let mut seen: usize = 0;
    let total = nodes.len();
    let mut any = false;
    proof {
        assert(nodes_model(nodes@).take(0) =~= Seq::<NodeModel>::empty());
    }
    loop
        invariant
            total == orig.len(),
            sel == selector@,
            sel == selector_of(patch@),
            orig == old(nodes)@,
            model == nodes_model(orig),
            searcher.needle() == f,
            forall|node: &ConfigNode| node.wf() ==> #[trigger] call_requires(f, (node,)),
            forall|node: &ConfigNode, b: bool| #[trigger] call_ensures(f, (node,), b) ==> b == accepts(sel, node@),
            0 <= searcher.position() <= orig.len(),
            nodes@.len() == orig.len(),
            nodes_wf(nodes@),
            nodes_wf(orig),
            forall|j: int| searcher.position() <= j < orig.len() ==> #[trigger] nodes@[j] == orig[j],
            edit_sweep(patch@, model, searcher.position()) == Ok::<Seq<NodeModel>, Failure>(
                nodes_model(nodes@).take(searcher.position()),
            ),
            seen == candidates(sel, model, searcher.position()),
            any == any_selected(sel, model, searcher.position()),
            !any ==> nodes@ == orig,
        ensures
            nodes_wf(nodes@),
            edit_sweep(patch@, model, orig.len() as int) == Ok::<Seq<NodeModel>, Failure>(nodes_model(nodes@)),
            any == any_selected(sel, model, orig.len() as int),
            !any ==> nodes@ == orig,
        decreases orig.len() - searcher.position(),
    {
        let ghost p = searcher.position();
        let ghost before = nodes@;
        match searcher.search(nodes) {
            Ok(Some((handle, target))) => {
                let ghost i = handle.index();
                proof {
                    assert forall|j: int| p <= j < i implies !accepts(sel, #[trigger] model[j]) by {
                        assert(before[j] == orig[j]);
                        assert(before[j] is Some);
                    }
                    lemma_candidates_skip(sel, model, p, i);
                    lemma_candidates_bound(sel, model, i);
                    lemma_edit_skip(patch@, model, p, i);
                    assert(before[i] == orig[i]);
                    assert(model[i] == target@);
                    assert(nodes_model(before).take(i) =~= nodes_model(before).take(p) + model.subrange(p, i)) by {
                        assert forall|j: int| p <= j < i implies nodes_model(before)[j] == model[j] by {
                            assert(before[j] == orig[j]);
                        }
                    }
                    if any_selected(sel, model, i) {
                        let w = choose|w: int| 0 <= w < i && selected(sel, model, w);
                        assert(w < p);
                    }
                }
                let chosen = selector.selects(seen);
                seen = seen + 1;
                let edited = if chosen {
                    match evaluate_recurse(path, patch, target) {
                        Ok(edited) => edited,
                        Err(e) => {
                            proof {
                                assert(selected(sel, model, i));
                                lemma_edit_fails(patch@, model, i + 1, orig.len() as int);
                                lemma_edit_keeps_origins(patch@, model, i);
                                lemma_edit_left(patch@, model, i, orig.len() as int);
                            }
                            // The node that could not be edited is lost: its slot goes with it.
                            match handle.delete(nodes) {
                                Ok(_) => {},
                                Err(_) => {},
                            }
                            proof {
                                assert(nodes@ =~= before.remove(i));
                                assert(nodes_model(nodes@) =~= nodes_model(before).take(i) + model.skip(i + 1)) by {
                                    assert forall|k: int| i <= k < nodes@.len() implies nodes_model(nodes@)[k]
                                        == model[k + 1] by {
                                        assert(nodes@[k] == before[k + 1]);
                                        assert(before[k + 1] == orig[k + 1]);
                                    }
                                }
                                assert forall|k: int| 0 <= k < nodes@.len() implies (#[trigger] nodes@[k]) is Some
                                    && nodes@[k]->0.wf() by {
                                    if k < i {
                                        assert(nodes@[k] == before[k]);
                                    } else {
                                        assert(nodes@[k] == before[k + 1]);
                                    }
                                }
                                if all_top_level(model) {
                                    assert forall|k: int| 0 <= k < nodes@.len() implies (#[trigger] nodes_model(
                                        nodes@,
                                    )[k]).origin is Some by {
                                        if k < i {
                                            assert(nodes@[k] == before[k]);
                                            assert(nodes_model(before).take(i)[k] == nodes_model(before)[k]);
                                            assert(model[k].origin is Some);
                                        } else {
                                            assert(nodes@[k] == before[k + 1]);
                                            assert(before[k + 1] == orig[k + 1]);
                                            assert(model[k + 1].origin is Some);
                                        }
                                    }
                                }
                            }
                            return Err(e);
                        },
                    }
                } else {
                    target
                };
                if chosen {
                    any = true;
                }
                match handle.replace(nodes, edited) {
                    Ok(next) => {
                        searcher = next;
                    },
                    Err(e) => {
                        return Err(e);
                    },
                }
                proof {
                    assert(chosen == selected(sel, model, i));
                    if !any {
                        assert(nodes@ =~= orig);
                    }
                    assert(nodes_model(nodes@).take(i + 1) =~= nodes_model(before).take(i).push(edited@));
                    if !chosen {
                        assert(!any_selected(sel, model, i + 1) || any_selected(sel, model, i));
                    }
                }
            },
            Ok(None) => {
                proof {
                    let n = orig.len() as int;
                    assert forall|j: int| p <= j < n implies !accepts(sel, #[trigger] model[j]) by {
                        assert(before[j] == orig[j]);
                        assert(before[j] is Some);
                    }
                    lemma_edit_skip(patch@, model, p, n);
                    assert(nodes_model(nodes@) =~= nodes_model(nodes@).take(p) + model.subrange(p, n)) by {
                        assert forall|j: int| p <= j < n implies nodes_model(nodes@)[j] == model[j] by {
                            assert(before[j] == orig[j]);
                        }
                    }
                    if any_selected(sel, model, n) {
                        let w = choose|w: int| 0 <= w < n && selected(sel, model, w);
                        assert(w < p);
                    }
                }
                break;
            },
            Err(e) => {
                return Err(e);
            },
        }
    }
    Ok(any)
}

/// Appends, for every target of the patch, what the patch makes of a
/// duplicate of the target. The targets themselves are left as they are.
fn copy_all(path: &str, patch: &NodePatch, nodes: &mut NodeList) -> (r: Result<(), PatchingError>)
    requires
        nodes_wf(old(nodes)@),
    ensures
        match r {
            Ok(()) => {
                &&& nodes_wf(final(nodes)@)
                &&& copy_sweep(patch@, nodes_model(old(nodes)@), old(nodes)@.len() as int) matches Ok(copies)
                &&& nodes_model(final(nodes)@) == nodes_model(old(nodes)@) + copies
            },
            Err(e) => {
                &&& copy_sweep(patch@, nodes_model(old(nodes)@), old(nodes)@.len() as int) matches Err(failure)
                    && reports(e, failure, path@)
                &&& final(nodes)@ == old(nodes)@
            },
        },
    decreases patch, 1int,
{
    let selector = Selector::new(patch);
    let ghost sel = selector@;
    let ghost orig = nodes@;
    let ghost model = nodes_model(orig);
    let needle = |node: &ConfigNode| -> (b: bool)
        requires
            node.wf(),
        ensures
            b == accepts(selector@, node@),
        { selector.accepts(node) };
    let ghost f = needle;
    let mut searcher = Searcher::new(needle);
    let mut seen: usize = 0;
    let total = nodes.len();
    let mut copies: NodeList = Vec::new();
    proof {
        assert(nodes_model(copies@) =~= Seq::<NodeModel>::empty());
    }
    loop
        invariant
            total == orig.len(),
            sel == selector@,
            sel == selector_of(patch@),
            orig == old(nodes)@,
            model == nodes_model(orig),
            searcher.needle() == f,
            forall|node: &ConfigNode| node.wf() ==> #[trigger] call_requires(f, (node,)),
            forall|node: &ConfigNode, b: bool| #[trigger] call_ensures(f, (node,), b) ==> b == accepts(sel, node@),
            0 <= searcher.position() <= orig.len(),
            nodes@ == orig,
            nodes_wf(orig),
            nodes_wf(copies@),
            copy_sweep(patch@, model, searcher.position()) == Ok::<Seq<NodeModel>, Failure>(
                nodes_model(copies@),
            ),
            seen == candidates(sel, model, searcher.position()),
        ensures
            nodes@ == orig,
            nodes_wf(copies@),
            copy_sweep(patch@, model, orig.len() as int) == Ok::<Seq<NodeModel>, Failure>(nodes_model(copies@)),
        decreases orig.len() - searcher.position(),
    {
        let ghost p = searcher.position();
        match searcher.search(nodes) {
            Ok(Some((handle, target))) => {
                let ghost i = handle.index();
                proof {
                    assert forall|j: int| p <= j < i implies !accepts(sel, #[trigger] model[j]) by {
                        assert(orig[j] is Some);
                    }
                    lemma_candidates_skip(sel, model, p, i);
                    lemma_candidates_bound(sel, model, i);
                    lemma_copy_skip(patch@, model, p, i);
                    assert(model[i] == target@);
                }
                let chosen = selector.selects(seen);
                seen = seen + 1;
                let copy = if chosen {
                    Some(target.clone())
                } else {
                    None
                };
                match handle.replace(nodes, target) {
                    Ok(next) => {
                        searcher = next;
                    },
                    Err(e) => {
                        return Err(e);
                    },
                }
                assert(nodes@ =~= orig);
                match copy {
                    Some(copy) => {
                        match evaluate_recurse(path, patch, copy) {
                            Ok(copy) => {
                                let ghost earlier = copies@;
                                copies.push(Some(copy));
                                proof {
                                    assert(selected(sel, model, i));
                                    assert(nodes_model(copies@) =~= nodes_model(earlier).push(copy@));
                                }
                            },
                            Err(e) => {
                                proof {
                                    assert(selected(sel, model, i));
                                    lemma_copy_fails(patch@, model, i + 1, orig.len() as int);
                                }
                                return Err(e);
                            },
                        }
                    },
                    None => {
                        assert(!selected(sel, model, i));
                    },
                }
            },
            Ok(None) => {
                proof {
                    assert forall|j: int| p <= j < orig.len() implies !accepts(sel, #[trigger] model[j]) by {
                        assert(orig[j] is Some);
                    }
                    lemma_copy_skip(patch@, model, p, orig.len() as int);
                }
                break;
            },
            Err(e) => {
                return Err(e);
            },
        }
    }
    let ghost made = copies@;
    nodes.append(&mut copies);
    proof {
        assert(nodes@ =~= orig + made);
        assert(nodes_model(nodes@) =~= model + nodes_model(made));
    }
    Ok(())
}

/// Appends the patch, written down as data, to the list.
fn create_in(path: &str, patch: &NodePatch, nodes: &mut NodeList) -> (r: Result<(), PatchingError>)
    requires
        nodes_wf(old(nodes)@),
    ensures
        match r {
            Ok(()) => {
                &&& nodes_wf(final(nodes)@)
                &&& create(patch@, None, nodes_model(old(nodes)@)) == Ok::<Seq<NodeModel>, Failure>(
                    nodes_model(final(nodes)@),
                )
            },
            Err(e) => create(patch@, None, nodes_model(old(nodes)@)) matches Err(failure) && reports(
                e,
                failure,
                path@,
            ) && final(nodes)@ == old(nodes)@,
        },
{
    match materialize(path, patch) {
        Ok(node) => {
            nodes.push(Some(node));
            assert(nodes_model(nodes@) =~= nodes_model(old(nodes)@).push(node@));
            Ok(())
        },
        Err(e) => Err(e),
    }
}

/// Lets one patch work on a list of children. After a failure the list
/// has no empty slot; what it holds then is `left_after_failure`.
pub fn sweep_nodes(path: &str, patch: &NodePatch, nodes: &mut NodeList) -> (r: Result<(), PatchingError>)
    requires
        nodes_wf(old(nodes)@),
    ensures
        nodes_wf(final(nodes)@),
        match r {
            Ok(()) => sweep(patch@, nodes_model(old(nodes)@)) == Ok::<Seq<NodeModel>, Failure>(
                nodes_model(final(nodes)@),
            ),
            Err(e) => {
                &&& sweep(patch@, nodes_model(old(nodes)@)) matches Err(failure) && reports(e, failure, path@)
                &&& nodes_model(final(nodes)@) == left_after_failure(patch@, nodes_model(old(nodes)@))
                &&& !(patch@.operation is Edit) && !(patch@.operation is EditOrCreate && any_selected(
                    selector_of(patch@),
                    nodes_model(old(nodes)@),
                    old(nodes)@.len() as int,
                )) ==> final(nodes)@ == old(nodes)@
            },
        },
        patch@.operation is DefaultValue && any_selected(
            selector_of(patch@),
            nodes_model(old(nodes)@),
            old(nodes)@.len() as int,
        ) ==> r is Ok && final(nodes)@ == old(nodes)@,
        (patch@.operation is DefaultValue || patch@.operation is EditOrCreate) && !any_selected(
            selector_of(patch@),
            nodes_model(old(nodes)@),
            old(nodes)@.len() as int,
        ) ==> (r is Ok <==> body_is_pure(patch@)) && (r is Ok ==> nodes_model(final(nodes)@) == nodes_model(
            old(nodes)@,
        ).push(pure_node(patch@))),
        patch@.operation is EditOrCreate && any_selected(
            selector_of(patch@),
            nodes_model(old(nodes)@),
            old(nodes)@.len() as int,
        ) && r is Ok ==> {
            &&& final(nodes)@.len() == old(nodes)@.len()
            &&& forall|i: int|
                0 <= i < old(nodes)@.len() ==> if selected(selector_of(patch@), nodes_model(old(nodes)@), i) {
                    apply(patch@, nodes_model(old(nodes)@)[i]) == Ok::<NodeModel, Failure>(
                        #[trigger] nodes_model(final(nodes)@)[i],
                    )
                } else {
                    nodes_model(final(nodes)@)[i] == nodes_model(old(nodes)@)[i]
                }
        },
    decreases patch, 2int,
{
    proof {
        let model = nodes_model(old(nodes)@);
        if patch@.operation is EditOrCreate {
            lemma_edit_or_create(patch@, model);
        }
        if patch@.operation is DefaultValue {
            lemma_default_value(patch@, model);
        }
    }
    match &patch.operation {
        Op::Insert => create_in(path, patch, nodes),
        Op::Rename => internal_error("the rename operator cannot be applied to a node"),
        Op::CopyFrom { .. } => Ok(()),
        Op::Edit => match edit_all(path, patch, nodes) {
            Ok(_) => Ok(()),
            Err(e) => Err(e),
        },
        Op::Copy => copy_all(path, patch, nodes),
        Op::Delete => delete_all(patch, nodes),
        Op::EditOrCreate => match edit_all(path, patch, nodes) {
            Ok(any) => {
                if any {
                    Ok(())
                } else {
                    proof {
                        let model = nodes_model(old(nodes)@);
                        lemma_edit_untouched(patch@, model, model.len() as int);
                        assert(model.take(model.len() as int) =~= model);
                    }
                    create_in(path, patch, nodes)
                }
            },
            Err(e) => {
                proof {
                    let model = nodes_model(old(nodes)@);
                    if !any_selected(selector_of(patch@), model, model.len() as int) {
                        lemma_edit_untouched(patch@, model, model.len() as int);
                    }
                }
                Err(e)
            },
        },
        Op::DefaultValue => match any_target(patch, nodes) {
            Ok(any) => {
                if any {
                    Ok(())
                } else {
                    create_in(path, patch, nodes)
                }
            },
            Err(e) => Err(e),
        },
    }
}

/// Applies a patch to one of its targets and hands the target back. First
/// the node patches work on the target's children, one after the other, then
/// the key patches on its keys. On a failure the target is lost.
pub fn evaluate_recurse(path: &str, patch: &NodePatch, target: ConfigNode) -> (r: Result<ConfigNode, PatchingError>)
    requires
        target.wf(),
    ensures
        match r {
            Ok(out) => out.wf() && apply(patch@, target@) == Ok::<NodeModel, Failure>(out@),
            Err(e) => apply(patch@, target@) matches Err(failure) && reports(e, failure, path@),
        },
    decreases patch, 0int,
{
    let mut node = target;
    let ghost start = node@;
    proof {
        lemma_child_patches(*patch);
        lemma_children(node);
    }
    let mut k: usize = 0;
    while k < patch.node_patches.len()
        invariant
            k <= patch.node_patches@.len(),
            patch@.node_patches == patches_model(patch.node_patches@),
            start == target@,
            node.wf(),
            nodes_wf(node.nodes@),
            node@.origin == start.origin,
            node@.ident == start.ident,
            node@.keys == start.keys,
            apply_children(patch@.node_patches, k as int, start.children) == Ok::<Seq<NodeModel>, Failure>(
                nodes_model(node.nodes@),
            ),
        decreases patch.node_patches@.len() - k,
    {
        assert(patch@.node_patches[k as int] == patch.node_patches@[k as int]@);
        let ghost before = node;
        match sweep_nodes(path, &patch.node_patches[k], &mut node.nodes) {
            Ok(()) => {},
            Err(e) => {
                proof {
                    lemma_children_fail(
                        patch@.node_patches,
                        k + 1,
                        patch@.node_patches.len() as int,
                        start.children,
                    );
                }
                return Err(e);
            },
        }
        proof {
            lemma_children(node);
            lemma_children(before);
        }
        k = k + 1;
    }
    let ghost swept = node@;
    proof {
        lemma_children(node);
        assert(swept.children == nodes_model(node.nodes@));
    }
    let mut i: usize = 0;
    while i < patch.key_patches.len()
        invariant
            i <= patch.key_patches@.len(),
            patch@.key_patches.len() == patch.key_patches@.len(),
            forall|j: int| 0 <= j < patch.key_patches@.len() ==> (#[trigger] patch@.key_patches[j]) == patch.key_patches@[j]@,
            node.wf(),
            node@ == apply_keys(patch@.key_patches, i as int, swept),
        decreases patch.key_patches@.len() - i,
    {
        let ghost before = node;
        apply_key_patch(&mut node, &patch.key_patches[i]);
        proof {
            lemma_children(node);
            lemma_children(before);
        }
        i = i + 1;
    }
    proof {
        assert(swept == (NodeModel { children: swept.children, ..start }));
    }
    Ok(node)
}

/// A failure of one of the first patches is the failure of them all.
pub proof fn lemma_children_fail(patches: Seq<NodePatchModel>, k: int, n: int, children: Seq<NodeModel>)
    requires
        0 <= k <= n <= patches.len(),
        apply_children(patches, k, children) is Err,
    ensures
        apply_children(patches, n, children) == apply_children(patches, k, children),
    decreases n - k,
{
    if k < n {
        lemma_children_fail(patches, k, n - 1, children);
    }
}

/// Without a target an edit leaves every node as it is.
pub proof fn lemma_edit_untouched(patch: NodePatchModel, nodes: Seq<NodeModel>, n: int)
    requires
        0 <= n <= nodes.len(),
        !any_selected(selector_of(patch), nodes, n),
    ensures
        edit_sweep(patch, nodes, n) == Ok::<Seq<NodeModel>, Failure>(nodes.take(n)),
    decreases n,
{
    if n > 0 {
        assert(!selected(selector_of(patch), nodes, n - 1));
        lemma_edit_untouched(patch, nodes, n - 1);
        assert(nodes.take(n - 1).push(nodes[n - 1]) =~= nodes.take(n));
    } else {
        assert(nodes.take(0) =~= Seq::<NodeModel>::empty());
    }
}

/// What a top-level patch of the file at `path` makes of the database.
///
/// An insertion appends the patch as data, marked with the file's path.
/// The operations that look for targets work on the top-level nodes as they
/// work on children; a node that they create is marked with the file's path.
/// A rename and a copy from elsewhere are refused.
pub open spec fn evaluate_top(patch: NodePatchModel, path: Seq<char>, nodes: Seq<NodeModel>) -> Result<
    Seq<NodeModel>,
    Failure,
> {
    let selector = selector_of(patch);
    match patch.operation {
        OpModel::Insert => create(patch, Some(path), nodes),
        OpModel::Rename => Err(Failure::Runtime(RuntimeError::CannotRenameNode)),
        OpModel::CopyFrom { .. } => Err(Failure::Runtime(RuntimeError::CannotCopyFromTopLevel)),
        OpModel::Edit => edit_sweep(patch, nodes, nodes.len() as int),
        OpModel::Copy => match copy_sweep(patch, nodes, nodes.len() as int) {
            Ok(copies) => Ok(nodes + copies),
            Err(failure) => Err(failure),
        },
        OpModel::Delete => Ok(delete_sweep(selector, nodes, nodes.len() as int)),
        OpModel::EditOrCreate => if any_selected(selector, nodes, nodes.len() as int) {
            edit_sweep(patch, nodes, nodes.len() as int)
        } else {
            create(patch, Some(path), nodes)
        },
        OpModel::DefaultValue => if any_selected(selector, nodes, nodes.len() as int) {
            Ok(nodes)
        } else {
            create(patch, Some(path), nodes)
        },
    }
}

/// Key patches leave the file of a node as it is.
pub proof fn lemma_keys_keep_origin(patches: Seq<KeyPatchModel>, n: int, node: NodeModel)
    ensures
        apply_keys(patches, n, node).origin == node.origin,
    decreases n,
{
    if 0 < n <= patches.len() {
        lemma_keys_keep_origin(patches, n - 1, node);
    }
}

/// The file that a node came from is set when the node is inserted and
/// never changed by a patch.
pub proof fn lemma_apply_keeps_origin(patch: NodePatchModel, node: NodeModel)
    ensures
        apply(patch, node) matches Ok(out) ==> out.origin == node.origin,
{
    match apply_children(patch.node_patches, patch.node_patches.len() as int, node.children) {
        Ok(children) => {
            lemma_keys_keep_origin(
                patch.key_patches,
                patch.key_patches.len() as int,
                NodeModel { children, ..node },
            );
        },
        Err(_) => {},
    }
}

/// An edit leaves as many nodes as there were, each with its file.
pub proof fn lemma_edit_keeps_origins(patch: NodePatchModel, nodes: Seq<NodeModel>, n: int)
    requires
        0 <= n <= nodes.len(),
    ensures
        edit_sweep(patch, nodes, n) matches Ok(out) ==> {
            &&& out.len() == n
            &&& forall|i: int| 0 <= i < n ==> (#[trigger] out[i]).origin == nodes[i].origin
        },
    decreases n,
{
    if n > 0 {
        lemma_edit_keeps_origins(patch, nodes, n - 1);
        lemma_apply_keeps_origin(patch, nodes[n - 1]);
    }
}

/// A duplicate keeps the file of the node that it was made of.
pub proof fn lemma_copies_have_origins(patch: NodePatchModel, nodes: Seq<NodeModel>, n: int)
    requires
        0 <= n <= nodes.len(),
        all_top_level(nodes),
    ensures
        copy_sweep(patch, nodes, n) matches Ok(out) ==> all_top_level(out),
    decreases n,
{
    if n > 0 {
        lemma_copies_have_origins(patch, nodes, n - 1);
        lemma_apply_keeps_origin(patch, nodes[n - 1]);
        assert(nodes[n - 1].origin is Some);
    }
}

/// What a deletion leaves was there before.
pub proof fn lemma_delete_keeps_origins(selector: SelectorModel, nodes: Seq<NodeModel>, n: int)
    requires
        0 <= n <= nodes.len(),
        all_top_level(nodes),
    ensures
        all_top_level(delete_sweep(selector, nodes, n)),
    decreases n,
{
    if n > 0 {
        lemma_delete_keeps_origins(selector, nodes, n - 1);
        assert(nodes[n - 1].origin is Some);
    }
}

/// An edit that succeeds edits every target, and nothing else: each
/// target is replaced by what the patch makes of it, and every other node is
/// left as it is.
pub proof fn lemma_edit_every_target(patch: NodePatchModel, nodes: Seq<NodeModel>, n: int)
    requires
        0 <= n <= nodes.len(),
    ensures
        edit_sweep(patch, nodes, n) matches Ok(out) ==> {
            &&& out.len() == n
            &&& forall|i: int|
                0 <= i < n ==> if selected(selector_of(patch), nodes, i) {
                    apply(patch, nodes[i]) == Ok::<NodeModel, Failure>(#[trigger] out[i])
                } else {
                    out[i] == nodes[i]
                }
        },
    decreases n,
{
    if n > 0 {
        lemma_edit_every_target(patch, nodes, n - 1);
    }
}

/// Edit-or-create: where no node is a target, the patch is inserted as
/// data, exactly once, at the end; where at least one node is a target,
/// every target is edited and nothing is inserted.
pub proof fn lemma_edit_or_create(patch: NodePatchModel, nodes: Seq<NodeModel>)
    requires
        patch.operation is EditOrCreate,
    ensures
        !any_selected(selector_of(patch), nodes, nodes.len() as int) ==> sweep(patch, nodes) == if body_is_pure(
            patch,
        ) {
            Ok::<Seq<NodeModel>, Failure>(nodes.push(pure_node(patch)))
        } else {
            Err::<Seq<NodeModel>, Failure>(Failure::Runtime(RuntimeError::PatchInNonPatchNode))
        },
        any_selected(selector_of(patch), nodes, nodes.len() as int) ==> (sweep(patch, nodes) matches Ok(out)
            ==> {
            &&& out.len() == nodes.len()
            &&& forall|i: int|
                0 <= i < nodes.len() ==> if selected(selector_of(patch), nodes, i) {
                    apply(patch, nodes[i]) == Ok::<NodeModel, Failure>(#[trigger] out[i])
                } else {
                    out[i] == nodes[i]
                }
        }),
{
    lemma_edit_every_target(patch, nodes, nodes.len() as int);
    assert(NodeModel { origin: None, ..pure_node(patch) } == pure_node(patch));
}

/// Default value: where a node is a target, nothing is changed; where
/// none is, the patch is inserted as data, exactly once, at the end.
pub proof fn lemma_default_value(patch: NodePatchModel, nodes: Seq<NodeModel>)
    requires
        patch.operation is DefaultValue,
    ensures
        any_selected(selector_of(patch), nodes, nodes.len() as int) ==> sweep(patch, nodes) == Ok::<
            Seq<NodeModel>,
            Failure,
        >(nodes),
        !any_selected(selector_of(patch), nodes, nodes.len() as int) ==> sweep(patch, nodes) == if body_is_pure(
            patch,
        ) {
            Ok::<Seq<NodeModel>, Failure>(nodes.push(pure_node(patch)))
        } else {
            Err::<Seq<NodeModel>, Failure>(Failure::Runtime(RuntimeError::PatchInNonPatchNode))
        },
{
    assert(NodeModel { origin: None, ..pure_node(patch) } == pure_node(patch));
}

/// A deletion removes every target and nothing else: what is left are the
/// nodes that are no targets, in their order. Without an ordinal every
/// candidate is a target, so that no candidate is left.
pub proof fn lemma_delete_every_target(selector: SelectorModel, nodes: Seq<NodeModel>, n: int)
    requires
        0 <= n <= nodes.len(),
    ensures
        delete_sweep(selector, nodes, n).len() <= n,
        (forall|i: int| 0 <= i < n ==> selected(selector, nodes, i)) ==> delete_sweep(selector, nodes, n).len()
            == 0,
        (forall|i: int| 0 <= i < n ==> !selected(selector, nodes, i)) ==> delete_sweep(selector, nodes, n)
            == nodes.take(n),
    decreases n,
{
    if n > 0 {
        lemma_delete_every_target(selector, nodes, n - 1);
        if forall|i: int| 0 <= i < n ==> !selected(selector, nodes, i) {
            assert(nodes.take(n - 1).push(nodes[n - 1]) =~= nodes.take(n));
        }
    } else {
        assert(nodes.take(0) =~= Seq::<NodeModel>::empty());
    }
}

/// The evaluation of one top-level patch against the database.
pub struct Patcher<'b> {
    pub file_path: String,
    pub patch: &'b NodePatch,
    pub database: &'b mut Database,
}

impl<'b> Patcher<'b> {
    pub fn new(database: &'b mut Database, file_path: String, top_level_patch: &'b NodePatch) -> (r: Self)
        ensures
            r.file_path == file_path,
            r.patch == top_level_patch,
            *r.database == *old(database),
            *final(r.database) == *final(database),
    {
        Patcher { file_path, patch: top_level_patch, database }
    }

    /// Appends the patch, written down as data and marked with the file's path, to the database.
    fn create_top(path: &String, patch: &NodePatch, database: &mut Database) -> (r: Result<(), PatchingError>)
        requires
            old(database).wf(),
        ensures
            match r {
                Ok(()) => {
                    &&& final(database).wf()
                    &&& create(patch@, Some(path@), old(database)@) == Ok::<Seq<NodeModel>, Failure>(
                        final(database)@,
                    )
                },
                Err(e) => {
                    &&& create(patch@, Some(path@), old(database)@) matches Err(failure) && reports(
                        e,
                        failure,
                        path@,
                    )
                    &&& *final(database) == *old(database)
                },
            },
    {
        match materialize(path.as_str(), patch) {
            Ok(node) => {
                let mut node = node;
                let ghost plain = node;
                node.file_path = Some(path.clone());
                proof {
                    lemma_children(node);
                    lemma_children(plain);
                    assert(node@ == (NodeModel { origin: Some(path@), ..pure_node(patch@) }));
                }
                database.insert(node)
            },
            Err(e) => Err(e),
        }
    }

    /// Applies the patch to the database. After a failure the database
    /// still has no empty slot, and every node in it still carries its file.
    /// A patch that is refused as a whole leaves the database as it was. Of
    /// an edit that fails on one of its targets nothing is taken back: the
    /// targets before that one stay edited, and that one is lost.
    pub fn evaluate(self) -> (r: Result<(), PatchingError>)
        requires
            old(self.database).wf(),
        ensures
            final(self.database).wf(),
            match r {
                Ok(()) => evaluate_top(self.patch@, self.file_path@, old(self.database)@) == Ok::<
                    Seq<NodeModel>,
                    Failure,
                >(final(self.database)@),
                Err(e) => {
                    &&& evaluate_top(self.patch@, self.file_path@, old(self.database)@) matches Err(failure)
                        && reports(e, failure, self.file_path@)
                    &&& final(self.database)@ == left_after_failure(self.patch@, old(self.database)@)
                    &&& self.patch@.operation is Insert || self.patch@.operation is CopyFrom
                        || self.patch@.operation is Rename ==> *final(self.database) == *old(self.database)
                    &&& !(self.patch@.operation is Edit) && !(self.patch@.operation is EditOrCreate
                        && any_selected(
                        selector_of(self.patch@),
                        old(self.database)@,
                        old(self.database)@.len() as int,
                    )) ==> final(self.database).0@ == old(self.database).0@
                },
            },
    {
        let Patcher { file_path, patch, database } = self;
        let ghost start = database@;
        let ghost total = start.len() as int;
        match &patch.operation {
            Op::Insert => Self::create_top(&file_path, patch, database),
            Op::Rename => runtime_error(RuntimeError::CannotRenameNode, file_path.as_str()),
            Op::CopyFrom { .. } => runtime_error(RuntimeError::CannotCopyFromTopLevel, file_path.as_str()),
            Op::Edit => match edit_all(file_path.as_str(), patch, &mut database.0) {
                Ok(_) => {
                    proof {
                        lemma_edit_keeps_origins(patch@, start, total);
                    }
                    Ok(())
                },
                Err(e) => Err(e),
            },
            Op::Copy => match copy_all(file_path.as_str(), patch, &mut database.0) {
                Ok(()) => {
                    proof {
                        lemma_copies_have_origins(patch@, start, total);
                    }
                    Ok(())
                },
                Err(e) => Err(e),
            },
            Op::Delete => {
                proof {
                    lemma_delete_keeps_origins(selector_of(patch@), start, total);
                }
                delete_all(patch, &mut database.0)
            },
            Op::EditOrCreate => match edit_all(file_path.as_str(), patch, &mut database.0) {
                Ok(any) => {
                    proof {
                        lemma_edit_keeps_origins(patch@, start, total);
                    }
                    if any {
                        Ok(())
                    } else {
                        proof {
                            lemma_edit_untouched(patch@, start, total);
                            assert(start.take(total) =~= start);
                        }
                        Self::create_top(&file_path, patch, database)
                    }
                },
                Err(e) => {
                    proof {
                        if !any_selected(selector_of(patch@), start, total) {
                            lemma_edit_untouched(patch@, start, total);
                        }
                    }
                    Err(e)
                },
            },
            Op::DefaultValue => match any_target(patch, &mut database.0) {
                Ok(any) => {
                    if any {
                        Ok(())
                    } else {
                        Self::create_top(&file_path, patch, database)
                    }
                },
                Err(e) => Err(e),
            },
        }
    }
}

} // verus!
