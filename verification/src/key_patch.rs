//! A patch on a key.

use vstd::prelude::*;
use crate::document::{
    copy_needs, needs_model, ArrayIndex, AssignmentOperator, Index, KeyVal, NeedModel, OrClause,
};
use crate::operation::{op_of, Op, OpModel};
use crate::PatchingError;

verus! {

/// What a key statement asks for.
#[derive(Debug)]
pub struct KeyPatch {
    pub operation: Op,
    pub ident: String,
    pub needs: Vec<OrClause>,
    pub edit: Option<AssignmentOperator>,
    pub index: Option<Index>,
    pub array_index: Option<ArrayIndex>,
    pub value: String,
}

/// A key patch with its texts as character sequences.
pub struct KeyPatchModel {
    pub operation: OpModel,
    pub ident: Seq<char>,
    pub needs: Seq<Seq<NeedModel>>,
    pub edit: Option<AssignmentOperator>,
    pub index: Option<Index>,
    pub array_index: Option<ArrayIndex>,
    pub value: Seq<char>,
}

impl View for KeyPatch {
    type V = KeyPatchModel;

    open spec fn view(&self) -> KeyPatchModel {
        KeyPatchModel {
            operation: self.operation@,
            ident: self.ident@,
            needs: needs_model(self.needs@),
            edit: self.edit,
            index: self.index,
            array_index: self.array_index,
            value: self.value@,
        }
    }
}

/// Some key patches, in order.
pub open spec fn key_patches_model(patches: Seq<KeyPatch>) -> Seq<KeyPatchModel> {
    Seq::new(patches.len(), |i: int| patches[i]@)
}

/// The patch that a key statement stands for. A source path turns a
/// statement without operator into a copy of the key of the same name; the
/// assignment operator counts only for an edit.
pub open spec fn key_patch_of(key: KeyVal) -> KeyPatchModel {
    let operation = op_of(
        key.operator,
        match key.path {
            Some(path) => Some((path@, key.key@)),
            None => None,
        },
    );
    KeyPatchModel {
        operation,
        ident: key.key@,
        needs: match key.needs {
            Some(block) => needs_model(block.or_clauses@),
            None => Seq::empty(),
        },
        edit: if operation is Edit {
            Some(key.assignment_operator)
        } else {
            None
        },
        index: key.index,
        array_index: key.array_index,
        value: key.val@,
    }
}

impl Clone for KeyPatch {
    fn clone(&self) -> (r: Self)
        ensures
            r@ == self@,
    {
        KeyPatch {
            operation: self.operation.clone(),
            ident: self.ident.clone(),
            needs: copy_needs(&self.needs),
            edit: self.edit,
            index: self.index,
            array_index: self.array_index,
            value: self.value.clone(),
        }
    }
}

impl KeyPatch {
    pub fn from_cst(key: KeyVal) -> (r: Result<Self, PatchingError>)
        ensures
            r matches Ok(patch) && patch@ == key_patch_of(key),
    {
        let KeyVal { path, operator, key: ident, needs, index, array_index, assignment_operator, val } = key;
        let copy_from = match path {
            Some(path) => Some((path, ident.clone())),
            None => None,
        };
        let operation = Op::new(operator, copy_from);
        let edit = match operation {
            Op::Edit => Some(assignment_operator),
            _ => None,
        };
        let needs = match needs {
            Some(block) => block.or_clauses,
            None => Vec::new(),
        };
        let patch = KeyPatch { operation, ident, needs, edit, index, array_index, value: val };
        assert(patch@.needs =~= key_patch_of(key).needs);
        Ok(patch)
    }
}

} // verus!
