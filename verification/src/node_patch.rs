//! A patch on a node.

use vstd::prelude::*;
use crate::document::{
    capabilities_model, copy_needs, copy_predicates, copy_text, needs_model, text_of, CapabilityModel,
    HasPredicate, Index, NeedModel, Node, NodeItem, OrClause,
};
use crate::key_patch::{key_patch_of, key_patches_model, KeyPatch, KeyPatchModel};
use crate::operation::{op_of, Op, OpModel};
use crate::PatchingError;

verus! {

/// What a node statement asks for: an operation, the selector of its
/// targets, and the patches on what the targets hold.
#[derive(Debug)]
pub struct NodePatch {
    pub is_top_level: bool,
    pub operation: Op,
    pub ident: String,
    pub target_name: Option<String>,
    pub has: Vec<HasPredicate>,
    pub needs: Vec<OrClause>,
    pub index: Option<Index>,
    pub node_patches: Vec<NodePatch>,
    pub key_patches: Vec<KeyPatch>,
}

/// A node patch with its texts as character sequences.
pub struct NodePatchModel {
    pub is_top_level: bool,
    pub operation: OpModel,
    pub ident: Seq<char>,
    pub target_name: Option<Seq<char>>,
    pub has: Seq<CapabilityModel>,
    pub needs: Seq<Seq<NeedModel>>,
    pub index: Option<Index>,
    pub node_patches: Seq<NodePatchModel>,
    pub key_patches: Seq<KeyPatchModel>,
}

pub open spec fn patch_model(patch: NodePatch) -> NodePatchModel
    decreases patch,
{
    NodePatchModel {
        is_top_level: patch.is_top_level,
        operation: patch.operation@,
        ident: patch.ident@,
        target_name: text_of(patch.target_name),
        has: capabilities_model(patch.has@),
        needs: needs_model(patch.needs@),
        index: patch.index,
        node_patches: Seq::new(
            patch.node_patches@.len(),
            |i: int|
                if 0 <= i < patch.node_patches@.len() {
                    patch_model(patch.node_patches@[i])
                } else {
                    arbitrary()
                },
        ),
        key_patches: Seq::new(patch.key_patches@.len(), |i: int| patch.key_patches@[i]@),
    }
}

impl View for NodePatch {
    type V = NodePatchModel;

    open spec fn view(&self) -> NodePatchModel {
        patch_model(*self)
    }
}

/// Some node patches, in order.
pub open spec fn patches_model(patches: Seq<NodePatch>) -> Seq<NodePatchModel> {
    Seq::new(patches.len(), |i: int| patches[i]@)
}

/// The patches on a patch's children are the models of its child patches.
pub proof fn lemma_child_patches(patch: NodePatch)
    ensures
        patch@.node_patches == patches_model(patch.node_patches@),
{
    assert(patch@.node_patches =~= patches_model(patch.node_patches@));
}

/// The patch that a node statement stands for. Of the statements in its
/// block the nodes become its node patches and the keys its key patches,
/// each kind in the order in which it stands; comments and empty lines are
/// passed over.
pub open spec fn patch_of(node: Node, is_top_level: bool) -> NodePatchModel
    decreases node, 0int,
{
    NodePatchModel {
        is_top_level,
        operation: op_of(
            node.operator,
            match node.path {
                Some(path) => Some((path@, node.identifier@)),
                None => None,
            },
        ),
        ident: node.identifier@,
        target_name: text_of(node.name),
        has: match node.has {
            Some(block) => capabilities_model(block.predicates@),
            None => Seq::empty(),
        },
        needs: match node.needs {
            Some(block) => needs_model(block.or_clauses@),
            None => Seq::empty(),
        },
        index: node.index,
        node_patches: block_nodes(node.block@, node.block@.len() as int),
        key_patches: block_keys(node.block@, node.block@.len() as int),
    }
}

/// The node patches of the first `n` statements of a block.
pub open spec fn block_nodes(block: Seq<NodeItem>, n: int) -> Seq<NodePatchModel>
    decreases block, n,
{
    if n <= 0 || n > block.len() {
        Seq::empty()
    } else {
        let before = block_nodes(block, n - 1);
        match block[n - 1] {
            NodeItem::Node(child) => before.push(patch_of(child, false)),
            _ => before,
        }
    }
}

/// The key patches of the first `n` statements of a block.
pub open spec fn block_keys(block: Seq<NodeItem>, n: int) -> Seq<KeyPatchModel>
    decreases n,
{
    if n <= 0 || n > block.len() {
        Seq::empty()
    } else {
        let before = block_keys(block, n - 1);
        match block[n - 1] {
            NodeItem::KeyVal(key) => before.push(key_patch_of(key)),
            _ => before,
        }
    }
}

impl Clone for NodePatch {
    fn clone(&self) -> (r: Self)
        ensures
            r@ == self@,
        decreases self,
    {
        let mut node_patches: Vec<NodePatch> = Vec::new();
        let mut i: usize = 0;
        while i < self.node_patches.len()
            invariant
                i <= self.node_patches@.len(),
                node_patches@.len() == i,
                forall|k: int| 0 <= k < i ==> (#[trigger] node_patches@[k])@ == self.node_patches@[k]@,
            decreases self.node_patches@.len() - i,
        {
            node_patches.push(self.node_patches[i].clone());
            i = i + 1;
        }
        let mut key_patches: Vec<KeyPatch> = Vec::new();
        let mut j: usize = 0;
        while j < self.key_patches.len()
            invariant
                j <= self.key_patches@.len(),
                key_patches@.len() == j,
                forall|k: int| 0 <= k < j ==> (#[trigger] key_patches@[k])@ == self.key_patches@[k]@,
            decreases self.key_patches@.len() - j,
        {
            key_patches.push(self.key_patches[j].clone());
            j = j + 1;
        }
        let r = NodePatch {
            is_top_level: self.is_top_level,
            operation: self.operation.clone(),
            ident: self.ident.clone(),
            target_name: copy_text(&self.target_name),
            has: copy_predicates(&self.has),
            needs: copy_needs(&self.needs),
            index: self.index,
            node_patches,
            key_patches,
        };
        proof {
            assert(r@.node_patches =~= self@.node_patches);
            assert(r@.key_patches =~= self@.key_patches);
        }
        r
    }
}

impl NodePatch {
    pub fn from_cst(node: Node, is_top_level: bool) -> (r: Result<Self, PatchingError>)
        ensures
            r matches Ok(patch) && patch@ == patch_of(node, is_top_level),
        decreases node,
    {
        let Node { path, operator, identifier, name, has, needs, pass, index, block } = node;
        let mut block = block;
        let mut node_patches: Vec<NodePatch> = Vec::new();
        let mut key_patches: Vec<KeyPatch> = Vec::new();
        let mut i: usize = 0;
        while i < block.len()
            invariant
                i <= block@.len(),
                block@.len() == node.block@.len(),
                forall|j: int| i <= j < block@.len() ==> block@[j] == node.block@[j],
                patches_model(node_patches@) == block_nodes(node.block@, i as int),
                key_patches_model(key_patches@) == block_keys(node.block@, i as int),
            decreases block@.len() - i,
        {
            let mut item = NodeItem::EmptyLine;
            core::mem::swap(&mut block[i], &mut item);
            assert(item == node.block@[i as int]);
            match item {
                NodeItem::Node(child) => {
                    match NodePatch::from_cst(child, false) {
                        Ok(patch) => {
                            node_patches.push(patch);
                            assert(patches_model(node_patches@) =~= block_nodes(node.block@, i + 1));
                        },
                        Err(e) => {
                            return Err(e);
                        },
                    }
                },
                NodeItem::KeyVal(key) => {
                    match KeyPatch::from_cst(key) {
                        Ok(patch) => {
                            key_patches.push(patch);
                            assert(key_patches_model(key_patches@) =~= block_keys(node.block@, i + 1));
                        },
                        Err(e) => {
                            return Err(e);
                        },
                    }
                },
                NodeItem::Comment(_) => {},
                NodeItem::EmptyLine => {},
            }
            i = i + 1;
        }
        let copy_from = match path {
            Some(path) => Some((path, identifier.clone())),
            None => None,
        };
        let patch = NodePatch {
            is_top_level,
            operation: Op::new(operator, copy_from),
            ident: identifier,
            target_name: name,
            has: match has {
                Some(block) => block.predicates,
                None => Vec::new(),
            },
            needs: match needs {
                Some(block) => block.or_clauses,
                None => Vec::new(),
            },
            index,
            node_patches,
            key_patches,
        };
        proof {
            lemma_child_patches(patch);
            assert(patch@.has =~= patch_of(node, is_top_level).has);
            assert(patch@.needs =~= patch_of(node, is_top_level).needs);
            assert(patch@.key_patches =~= key_patches_model(key_patches@));
        }
        Ok(patch)
    }
}

} // verus!
