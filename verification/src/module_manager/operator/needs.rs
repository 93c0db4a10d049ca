//! `NEEDS`: the mods that must, or must not, be there for a patch to be kept.

use vstd::prelude::*;
use crate::document::{needs_model, ModClause, NeedModel, OrClause};
use crate::key_patch::{key_patches_model, KeyPatch, KeyPatchModel};
use crate::node_patch::{lemma_child_patches, patches_model, NodePatch, NodePatchModel};
use crate::operation::{Op, OpModel};
use crate::text;
use crate::{internal_error, ErrorModel, PatchingError};

verus! {

/// The names in a list, as a set of texts.
pub open spec fn names(list: Seq<String>) -> Set<Seq<char>> {
    Set::new(|name: Seq<char>| exists|i: int| 0 <= i < list.len() && (#[trigger] list[i])@ == name)
}

/// A need that names a mod in a subfolder. Such needs are not supported.
pub open spec fn namespaced(need: NeedModel) -> bool {
    need.name.contains('/')
}

/// No need of the condition names a mod in a subfolder.
pub open spec fn well_formed(needs: Seq<Seq<NeedModel>>) -> bool {
    forall|i: int, j: int|
        0 <= i < needs.len() && 0 <= j < needs[i].len() ==> !namespaced(#[trigger] needs[i][j])
}

/// The mod is there, unless the need is negated: then it is not there.
pub open spec fn need_holds(need: NeedModel, declared: Set<Seq<char>>) -> bool {
    need.negated != declared.contains(need.name)
}

/// One of the alternatives holds.
pub open spec fn clause_holds(clause: Seq<NeedModel>, declared: Set<Seq<char>>) -> bool {
    exists|j: int| 0 <= j < clause.len() && need_holds(#[trigger] clause[j], declared)
}

/// Every clause of the condition holds.
pub open spec fn needs_hold(needs: Seq<Seq<NeedModel>>, declared: Set<Seq<char>>) -> bool {
    forall|i: int| 0 <= i < needs.len() ==> clause_holds(#[trigger] needs[i], declared)
}

/// What pruning makes of a patch.
pub enum Pruned {
    /// The patch stays, with what is left of its children.
    Kept(NodePatchModel),
    /// The patch goes, with all that is below it.
    Dropped,
    /// A condition that had to be tested names a mod in a subfolder.
    Malformed,
}

/// The key patches among the first `n` whose conditions hold.
pub open spec fn kept_keys(keys: Seq<KeyPatchModel>, n: int, declared: Set<Seq<char>>) -> Seq<KeyPatchModel>
    decreases n,
{
    if n <= 0 || n > keys.len() {
        Seq::empty()
    } else if needs_hold(keys[n - 1].needs, declared) {
        kept_keys(keys, n - 1, declared).push(keys[n - 1])
    } else {
        kept_keys(keys, n - 1, declared)
    }
}

/// The conditions of all key patches are well formed.
pub open spec fn keys_well_formed(keys: Seq<KeyPatchModel>) -> bool {
    forall|i: int| 0 <= i < keys.len() ==> well_formed((#[trigger] keys[i]).needs)
}

/// Pruning of one patch. A patch whose own condition fails goes, whatever
/// is below it. A patch whose condition holds stays; its child patches are
/// pruned one by one in the same way, and its key patches stay where their
/// own conditions hold.
pub open spec fn prune(patch: NodePatchModel, declared: Set<Seq<char>>) -> Pruned
    decreases patch, 0int,
{
    if !well_formed(patch.needs) {
        Pruned::Malformed
    } else if !needs_hold(patch.needs, declared) {
        Pruned::Dropped
    } else {
        match prune_all(patch.node_patches, patch.node_patches.len() as int, declared) {
            None => Pruned::Malformed,
            Some(node_patches) => if !keys_well_formed(patch.key_patches) {
                Pruned::Malformed
            } else {
                Pruned::Kept(
                    NodePatchModel {
                        node_patches,
                        key_patches: kept_keys(patch.key_patches, patch.key_patches.len() as int, declared),
                        ..patch
                    },
                )
            },
        }
    }
}

/// Pruning of the first `n` patches of a list: those that stay, in their
/// order, or nothing if one of them is malformed.
pub open spec fn prune_all(patches: Seq<NodePatchModel>, n: int, declared: Set<Seq<char>>) -> Option<
    Seq<NodePatchModel>,
>
    decreases patches, n,
{
    if n <= 0 || n > patches.len() {
        Some(Seq::empty())
    } else {
        match prune_all(patches, n - 1, declared) {
            None => None,
            Some(before) => match prune(patches[n - 1], declared) {
                Pruned::Malformed => None,
                Pruned::Dropped => Some(before),
                Pruned::Kept(patch) => Some(before.push(patch)),
            },
        }
    }
}

/// Pruning is recursive and independent per subtree: a parent whose
/// condition fails is dropped whatever its descendants need; of a parent
/// that stays, each child stays or goes by its own pruning, and each key by
/// its own condition.
pub proof fn lemma_prune_per_subtree(patch: NodePatchModel, declared: Set<Seq<char>>, i: int)
    requires
        well_formed(patch.needs),
    ensures
        !needs_hold(patch.needs, declared) ==> prune(patch, declared) is Dropped,
        prune(patch, declared) matches Pruned::Kept(kept) ==> {
            &&& needs_hold(patch.needs, declared)
            &&& kept.node_patches == prune_all(patch.node_patches, patch.node_patches.len() as int, declared)->0
            &&& kept.key_patches == kept_keys(patch.key_patches, patch.key_patches.len() as int, declared)
            &&& kept.ident == patch.ident
            &&& kept.operation == patch.operation
        },
        0 <= i < patch.node_patches.len() && prune_all(patch.node_patches, i + 1, declared) is Some ==> {
            let before = prune_all(patch.node_patches, i, declared)->0;
            let upto = prune_all(patch.node_patches, i + 1, declared)->0;
            match prune(patch.node_patches[i], declared) {
                Pruned::Kept(child) => upto == before.push(child),
                _ => upto == before,
            }
        },
{
}

/// Once a malformed patch is met, the pruning of a longer prefix fails too.
pub proof fn lemma_prune_all_fails(patches: Seq<NodePatchModel>, k: int, n: int, declared: Set<Seq<char>>)
    requires
        0 <= k <= n <= patches.len(),
        prune_all(patches, k, declared) is None,
    ensures
        prune_all(patches, n, declared) is None,
    decreases n - k,
{
    if k < n {
        lemma_prune_all_fails(patches, k, n - 1, declared);
    }
}

/// Whether `name` is one of the declared names.
pub fn declares(declared: &Vec<String>, name: &str) -> (r: bool)
    ensures
        r == names(declared@).contains(name@),
{
    let mut i: usize = 0;
    while i < declared.len()
        invariant
            i <= declared@.len(),
            forall|k: int| 0 <= k < i ==> (#[trigger] declared@[k])@ != name@,
        decreases declared@.len() - i,
    {
        if text::same(declared[i].as_str(), name) {
            return true;
        }
        i = i + 1;
    }
    false
}

/// Whether one need holds. A need that names a mod in a subfolder is an internal error.
pub fn evaluate_mod_need(need: &ModClause, declared_passes: &Vec<String>) -> (r: Result<bool, PatchingError>)
    ensures
        match r {
            Ok(holds) => !namespaced(need@) && holds == need_holds(need@, names(declared_passes@)),
            Err(e) => e@ is Internal && namespaced(need@),
        },
{
    if text::contains_char(need.name.as_str(), '/') {
        return internal_error("subfolder :NEEDS are not yet implemented");
    }
    let exists = declares(declared_passes, need.name.as_str());
    Ok(need.negated != exists)
}

/// Whether one of the alternatives of a clause holds.
fn evaluate_clause(clause: &OrClause, declared_passes: &Vec<String>) -> (r: Result<bool, PatchingError>)
    ensures
        match r {
            Ok(holds) => {
                &&& forall|j: int| 0 <= j < clause@.len() ==> !namespaced(#[trigger] clause@[j])
                &&& holds == clause_holds(clause@, names(declared_passes@))
            },
            Err(e) => e@ is Internal && exists|j: int| 0 <= j < clause@.len() && namespaced(#[trigger] clause@[j]),
        },
{
    let mut found = false;
    let mut j: usize = 0;
    while j < clause.mod_clauses.len()
        invariant
            j <= clause@.len(),
            clause@.len() == clause.mod_clauses@.len(),
            forall|k: int| 0 <= k < j ==> !namespaced(#[trigger] clause@[k]),
            found == exists|k: int| 0 <= k < j && need_holds(#[trigger] clause@[k], names(declared_passes@)),
        decreases clause@.len() - j,
    {
        assert(clause@[j as int] == clause.mod_clauses@[j as int]@);
        match evaluate_mod_need(&clause.mod_clauses[j], declared_passes) {
            Ok(holds) => {
                if holds {
                    found = true;
                }
            },
            Err(e) => {
                return Err(e);
            },
        }
        j = j + 1;
    }
    Ok(found)
}

/// Whether a condition holds: every clause has an alternative that holds.
/// A need anywhere in the condition that names a mod in a subfolder is an
/// internal error.
pub fn is_satisfied(needs: &Vec<OrClause>, declared_passes: &Vec<String>) -> (r: Result<bool, PatchingError>)
    ensures
        match r {
            Ok(holds) => {
                &&& well_formed(needs_model(needs@))
                &&& holds == needs_hold(needs_model(needs@), names(declared_passes@))
            },
            Err(e) => e@ is Internal && !well_formed(needs_model(needs@)),
        },
{
    let ghost model = needs_model(needs@);
    let mut all = true;
    let mut i: usize = 0;
    while i < needs.len()
        invariant
            i <= needs@.len(),
            model == needs_model(needs@),
            forall|k: int, j: int|
                0 <= k < i && 0 <= j < model[k].len() ==> !namespaced(#[trigger] model[k][j]),
            all == forall|k: int| 0 <= k < i ==> clause_holds(#[trigger] model[k], names(declared_passes@)),
        decreases needs@.len() - i,
    {
        assert(model[i as int] == needs@[i as int]@);
        match evaluate_clause(&needs[i], declared_passes) {
            Ok(holds) => {
                if !holds {
                    all = false;
                }
            },
            Err(e) => {
                proof {
                    let j = choose|j: int| 0 <= j < model[i as int].len() && namespaced(#[trigger] model[i as int][j]);
                    assert(namespaced(model[i as int][j]));
                }
                return Err(e);
            },
        }
        i = i + 1;
    }
    Ok(all)
}

/// A patch that stands in for one that was taken out of its list: an
/// insertion without a name, without conditions and without anything below it.
fn blank_node() -> (r: NodePatch)
    ensures
        r@ == blank_node_model(),
{
    let r = NodePatch {
        is_top_level: false,
        operation: Op::Insert,
        ident: String::new(),
        target_name: None,
        has: Vec::new(),
        needs: Vec::new(),
        index: None,
        node_patches: Vec::new(),
        key_patches: Vec::new(),
    };
    proof {
        lemma_child_patches(r);
        assert(r@.node_patches =~= blank_node_model().node_patches);
        assert(r@.key_patches =~= blank_node_model().key_patches);
        assert(r@.has =~= blank_node_model().has);
        assert(r@.needs =~= blank_node_model().needs);
    }
    r
}

/// A key patch that stands in for one that was taken out of its list: the
/// insertion of a key without a name, without a value and without conditions.
fn blank_key() -> (r: KeyPatch)
    ensures
        r@ == blank_key_model(),
{
    let r = KeyPatch {
        operation: Op::Insert,
        ident: String::new(),
        needs: Vec::new(),
        edit: None,
        index: None,
        array_index: None,
        value: String::new(),
    };
    assert(r@.needs =~= blank_key_model().needs);
    r
}

/// The patch that stands in for one that was taken out of its list.
pub open spec fn blank_node_model() -> NodePatchModel {
    NodePatchModel {
        is_top_level: false,
        operation: OpModel::Insert,
        ident: Seq::empty(),
        target_name: None,
        has: Seq::empty(),
        needs: Seq::empty(),
        index: None,
        node_patches: Seq::empty(),
        key_patches: Seq::empty(),
    }
}

/// The key patch that stands in for one that was taken out of its list.
pub open spec fn blank_key_model() -> KeyPatchModel {
    KeyPatchModel {
        operation: OpModel::Insert,
        ident: Seq::empty(),
        needs: Seq::empty(),
        edit: None,
        index: None,
        array_index: None,
        value: Seq::empty(),
    }
}

/// Keeps the key patches whose conditions hold.
fn prune_keys(keys: &mut Vec<KeyPatch>, declared_passes: &Vec<String>) -> (r: Result<(), PatchingError>)
    ensures
        match r {
            Ok(()) => {
                &&& keys_well_formed(key_patches_model(old(keys)@))
                &&& key_patches_model(final(keys)@) == kept_keys(
                    key_patches_model(old(keys)@),
                    old(keys)@.len() as int,
                    names(declared_passes@),
                )
            },
            Err(e) => e@ is Internal && !keys_well_formed(key_patches_model(old(keys)@)),
        },
{
    let ghost model = key_patches_model(keys@);
    let mut kept: Vec<KeyPatch> = Vec::new();
    let n = keys.len();
    let mut i: usize = 0;
    while i < n
        invariant
            i <= n,
            n == keys@.len(),
            n == old(keys)@.len(),
            model == key_patches_model(old(keys)@),
            forall|k: int| i <= k < n ==> keys@[k] == old(keys)@[k],
            forall|k: int| 0 <= k < i ==> well_formed((#[trigger] model[k]).needs),
            key_patches_model(kept@) == kept_keys(model, i as int, names(declared_passes@)),
        decreases n - i,
    {
        let mut key = blank_key();
        core::mem::swap(&mut keys[i], &mut key);
        assert(key@ == model[i as int]);
        match is_satisfied(&key.needs, declared_passes) {
            Ok(holds) => {
                if holds {
                    kept.push(key);
                    assert(key_patches_model(kept@) =~= kept_keys(
                        model,
                        i + 1,
                        names(declared_passes@),
                    ));
                }
            },
            Err(e) => {
                assert(!well_formed(model[i as int].needs));
                return Err(e);
            },
        }
        i = i + 1;
    }
    *keys = kept;
    Ok(())
}

/// Prunes every patch of a list and keeps those that stay.
fn prune_list_in_place(patches: &mut Vec<NodePatch>, declared_passes: &Vec<String>) -> (r: Result<
    (),
    PatchingError,
>)
    ensures
        match r {
            Ok(()) => prune_all(
                patches_model(old(patches)@),
                old(patches)@.len() as int,
                names(declared_passes@),
            ) == Some(patches_model(final(patches)@)),
            Err(e) => e@ is Internal && prune_all(
                patches_model(old(patches)@),
                old(patches)@.len() as int,
                names(declared_passes@),
            ) is None,
        },
    decreases *old(patches),
{
    let ghost model = patches_model(patches@);
    let ghost declared = names(declared_passes@);
    let mut kept: Vec<NodePatch> = Vec::new();
    let n = patches.len();
    let mut i: usize = 0;
    while i < n
        invariant
            i <= n,
            n == patches@.len(),
            n == old(patches)@.len(),
            model == patches_model(old(patches)@),
            declared == names(declared_passes@),
            forall|k: int| i <= k < n ==> patches@[k] == old(patches)@[k],
            prune_all(model, i as int, declared) == Some(patches_model(kept@)),
        decreases n - i,
    {
        let mut patch = blank_node();
        core::mem::swap(&mut patches[i], &mut patch);
        assert(patch == old(patches)@[i as int]);
        assert(patch@ == model[i as int]);
        match prune_node_in_place(&mut patch, declared_passes) {
            Ok(keep) => {
                if keep {
                    kept.push(patch);
                    assert(patches_model(kept@) =~= prune_all(model, i + 1, declared)->0);
                }
            },
            Err(e) => {
                proof {
                    lemma_prune_all_fails(model, i + 1, n as int, declared);
                }
                return Err(e);
            },
        }
        i = i + 1;
    }
    *patches = kept;
    Ok(())
}

/// Prunes a patch in place.
fn prune_node_in_place(node: &mut NodePatch, declared_passes: &Vec<String>) -> (r: Result<
    bool,
    PatchingError,
>)
    ensures
        match r {
            Ok(true) => prune(old(node)@, names(declared_passes@)) == Pruned::Kept(final(node)@),
            Ok(false) => prune(old(node)@, names(declared_passes@)) is Dropped && *final(node) == *old(node),
            Err(e) => e@ is Internal && prune(old(node)@, names(declared_passes@)) is Malformed,
        },
    decreases *old(node),
{
    match is_satisfied(&node.needs, declared_passes) {
        Ok(holds) => {
            if !holds {
                return Ok(false);
            }
        },
        Err(e) => {
            return Err(e);
        },
    }
    proof {
        lemma_child_patches(*node);
    }
    let ghost before = node@;
    match prune_list_in_place(&mut node.node_patches, declared_passes) {
        Ok(()) => {},
        Err(e) => {
            return Err(e);
        },
    }
    match prune_keys(&mut node.key_patches, declared_passes) {
        Ok(()) => {},
        Err(e) => {
            return Err(e);
        },
    }
    proof {
        lemma_child_patches(*node);
        assert(node@.key_patches =~= key_patches_model(node.key_patches@));
        assert(before.key_patches =~= key_patches_model(old(node).key_patches@));
    }
    Ok(true)
}

/// Whether the conditions of all key patches are well formed.
fn check_keys(keys: &Vec<KeyPatch>, declared_passes: &Vec<String>) -> (r: Result<(), PatchingError>)
    ensures
        match r {
            Ok(()) => keys_well_formed(key_patches_model(keys@)),
            Err(e) => e@ is Internal && !keys_well_formed(key_patches_model(keys@)),
        },
{
    let ghost model = key_patches_model(keys@);
    let mut i: usize = 0;
    while i < keys.len()
        invariant
            i <= keys@.len(),
            model == key_patches_model(keys@),
            forall|k: int| 0 <= k < i ==> well_formed((#[trigger] model[k]).needs),
        decreases keys@.len() - i,
    {
        assert(model[i as int] == keys@[i as int]@);
        match is_satisfied(&keys[i].needs, declared_passes) {
            Ok(_) => {},
            Err(e) => {
                assert(!well_formed(model[i as int].needs));
                return Err(e);
            },
        }
        i = i + 1;
    }
    Ok(())
}

/// Whether the pruning of the list meets no malformed condition. The list is only read.
pub fn check_list(patches: &Vec<NodePatch>, declared_passes: &Vec<String>) -> (r: Result<(), PatchingError>)
    ensures
        match r {
            Ok(()) => prune_all(patches_model(patches@), patches@.len() as int, names(declared_passes@)) is Some,
            Err(e) => e@ is Internal && prune_all(
                patches_model(patches@),
                patches@.len() as int,
                names(declared_passes@),
            ) is None,
        },
    decreases patches,
{
    let ghost model = patches_model(patches@);
    let ghost declared = names(declared_passes@);
    let mut i: usize = 0;
    while i < patches.len()
        invariant
            i <= patches@.len(),
            model == patches_model(patches@),
            declared == names(declared_passes@),
            prune_all(model, i as int, declared) is Some,
        decreases patches@.len() - i,
    {
        assert(model[i as int] == patches@[i as int]@);
        match check_node(&patches[i], declared_passes) {
            Ok(()) => {},
            Err(e) => {
                proof {
                    lemma_prune_all_fails(model, i + 1, patches@.len() as int, declared);
                }
                return Err(e);
            },
        }
        i = i + 1;
    }
    Ok(())
}

/// Whether the pruning of the patch meets no malformed condition.
fn check_node(node: &NodePatch, declared_passes: &Vec<String>) -> (r: Result<(), PatchingError>)
    ensures
        match r {
            Ok(()) => !(prune(node@, names(declared_passes@)) is Malformed),
            Err(e) => e@ is Internal && prune(node@, names(declared_passes@)) is Malformed,
        },
    decreases node,
{
    match is_satisfied(&node.needs, declared_passes) {
        Ok(holds) => {
            if !holds {
                return Ok(());
            }
        },
        Err(e) => {
            return Err(e);
        },
    }
    proof {
        lemma_child_patches(*node);
        assert(node@.key_patches =~= key_patches_model(node.key_patches@));
    }
    match check_list(&node.node_patches, declared_passes) {
        Ok(()) => {},
        Err(e) => {
            return Err(e);
        },
    }
    check_keys(&node.key_patches, declared_passes)
}

/// Prunes every patch of a list and keeps those that stay. A failure
/// leaves the list as it was.
pub fn prune_list(patches: &mut Vec<NodePatch>, declared_passes: &Vec<String>) -> (r: Result<
    (),
    PatchingError,
>)
    ensures
        match r {
            Ok(()) => prune_all(
                patches_model(old(patches)@),
                old(patches)@.len() as int,
                names(declared_passes@),
            ) == Some(patches_model(final(patches)@)),
            Err(e) => {
                &&& e@ is Internal
                &&& prune_all(patches_model(old(patches)@), old(patches)@.len() as int, names(declared_passes@))
                    is None
                &&& *final(patches) == *old(patches)
            },
        },
{
    match check_list(patches, declared_passes) {
        Ok(()) => {},
        Err(e) => {
            return Err(e);
        },
    }
    prune_list_in_place(patches, declared_passes)
}

/// Prunes a patch in place. The answer is whether the patch is to be kept;
/// a patch that is not kept is left as it was, and so is a patch on which
/// the pruning fails.
pub fn prune_node_recurse(node: &mut NodePatch, declared_passes: &Vec<String>) -> (r: Result<
    bool,
    PatchingError,
>)
    ensures
        match r {
            Ok(true) => prune(old(node)@, names(declared_passes@)) == Pruned::Kept(final(node)@),
            Ok(false) => prune(old(node)@, names(declared_passes@)) is Dropped && *final(node) == *old(node),
            Err(e) => {
                &&& e@ is Internal
                &&& prune(old(node)@, names(declared_passes@)) is Malformed
                &&& *final(node) == *old(node)
            },
        },
{
    match check_node(node, declared_passes) {
        Ok(()) => {},
        Err(e) => {
            return Err(e);
        },
    }
    prune_node_in_place(node, declared_passes)
}

} // verus!
