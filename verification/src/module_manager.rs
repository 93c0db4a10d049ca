//! The engine: scheduling of passes and evaluation of patches.

pub mod operator;
pub mod patcher;
pub mod searcher;
pub mod selector;

use vstd::prelude::*;
use crate::config_node::NodeModel;
use crate::database::Database;

use crate::module_manager::operator::needs::{check_list, names, prune_all, prune_list};
use crate::module_manager::patcher::{evaluate_top, Patcher};
use crate::node_patch::{patches_model, NodePatchModel};
use crate::pass::{Pass, PassModel};
use crate::patch_set::{files_model, set_model, FileModel, PassPatches, PatchSet, PatchesInPass};
use crate::raw_patch::{has_top_level_key, is_patch_set_of, RawPatches};
use crate::{ErrorModel, Fault, PatchingError};

verus! {

/// The patches of all files, the mods that are known to be there, and the
/// database that the patches are to fill.
pub struct ModuleManager {
    dll_passes: Vec<String>,
    patches: PatchSet,
    database: Database,
}

/// The identifiers that the set declares: those of its `For` passes.
pub open spec fn declared_by(set: Seq<PassPatches>) -> Set<Seq<char>> {
    Set::new(|ident: Seq<char>| exists|i: int| 0 <= i < set.len() && (#[trigger] set[i]).pass == PassModel::For(ident))
}

/// Whether a pass is kept when the identifiers in `existing` are there. A
/// pass that runs before or after a mod's patches is kept only if that mod
/// is there; every other pass is kept.
pub open spec fn keeps(pass: PassModel, existing: Set<Seq<char>>) -> bool {
    match pass {
        PassModel::Before(ident) => existing.contains(ident),
        PassModel::After(ident) => existing.contains(ident),
        _ => true,
    }
}

/// The passes among the first `n` that are kept, in their order.
pub open spec fn kept_passes(set: Seq<PassPatches>, n: int, existing: Set<Seq<char>>) -> Seq<PassPatches>
    decreases n,
{
    if n <= 0 || n > set.len() {
        Seq::empty()
    } else if keeps(set[n - 1].pass, existing) {
        kept_passes(set, n - 1, existing).push(set[n - 1])
    } else {
        kept_passes(set, n - 1, existing)
    }
}

/// The first `n` files with their patches pruned, or nothing if a patch is malformed.
pub open spec fn prune_files(files: Seq<FileModel>, n: int, existing: Set<Seq<char>>) -> Option<Seq<FileModel>>
    decreases n,
{
    if n <= 0 || n > files.len() {
        Some(Seq::empty())
    } else {
        match prune_files(files, n - 1, existing) {
            None => None,
            Some(before) => match prune_all(files[n - 1].patches, files[n - 1].patches.len() as int, existing) {
                None => None,
                Some(patches) => Some(before.push(FileModel { path: files[n - 1].path, patches })),
            },
        }
    }
}

/// The first `n` passes with the patches of their files pruned, or nothing
/// if a patch is malformed.
pub open spec fn prune_passes(set: Seq<PassPatches>, n: int, existing: Set<Seq<char>>) -> Option<
    Seq<PassPatches>,
>
    decreases n,
{
    if n <= 0 || n > set.len() {
        Some(Seq::empty())
    } else {
        match prune_passes(set, n - 1, existing) {
            None => None,
            Some(before) => match prune_files(set[n - 1].files, set[n - 1].files.len() as int, existing) {
                None => None,
                Some(files) => Some(before.push(PassPatches { pass: set[n - 1].pass, files })),
            },
        }
    }
}

/// What the first `n` patches of a file make of the database, one after
/// the other. The first failure ends it.
pub open spec fn run_patches(patches: Seq<NodePatchModel>, n: int, path: Seq<char>, nodes: Seq<NodeModel>) -> Result<
    Seq<NodeModel>,
    Fault,
>
    decreases n,
{
    if n <= 0 || n > patches.len() {
        Ok(nodes)
    } else {
        match run_patches(patches, n - 1, path, nodes) {
            Err(fault) => Err(fault),
            Ok(before) => match evaluate_top(patches[n - 1], path, before) {
                Ok(after) => Ok(after),
                Err(failure) => Err(failure.at(path)),
            },
        }
    }
}

/// What the first `n` files of a pass make of the database, one after the other.
pub open spec fn run_files(files: Seq<FileModel>, n: int, nodes: Seq<NodeModel>) -> Result<Seq<NodeModel>, Fault>
    decreases n,
{
    if n <= 0 || n > files.len() {
        Ok(nodes)
    } else {
        match run_files(files, n - 1, nodes) {
            Err(fault) => Err(fault),
            Ok(before) => run_patches(
                files[n - 1].patches,
                files[n - 1].patches.len() as int,
                files[n - 1].path,
                before,
            ),
        }
    }
}

/// What the first `n` passes make of the database, one after the other.
pub open spec fn run_passes(set: Seq<PassPatches>, n: int, nodes: Seq<NodeModel>) -> Result<Seq<NodeModel>, Fault>
    decreases n,
{
    if n <= 0 || n > set.len() {
        Ok(nodes)
    } else {
        match run_passes(set, n - 1, nodes) {
            Err(fault) => Err(fault),
            Ok(before) => run_files(set[n - 1].files, set[n - 1].files.len() as int, before),
        }
    }
}

/// What the engine makes of a set of patches when the mods in `known` are
/// there. The identifiers that exist are the known ones and those that the
/// set declares. First the passes that depend on a mod that does not exist
/// are dropped; then the patches whose needs fail; then the patches that are
/// left work on an empty database, pass by pass, file by file, patch by
/// patch.
pub open spec fn outcome(known: Set<Seq<char>>, set: Seq<PassPatches>) -> Result<Seq<NodeModel>, Fault> {
    let existing = known + declared_by(set);
    let passes = kept_passes(set, set.len() as int, existing);
    match prune_passes(passes, passes.len() as int, existing) {
        None => Err(Fault::Internal),
        Some(scheduled) => run_passes(scheduled, scheduled.len() as int, Seq::empty()),
    }
}

/// A pass that runs before or after the patches of a mod is dropped, with
/// all its patches, exactly if no patch is tagged `For` that mod and the mod
/// is not among the known ones. No other pass is ever dropped: a pass tagged
/// `For` a mod in particular stays.
pub proof fn lemma_before_after_pruning(known: Set<Seq<char>>, set: Seq<PassPatches>, i: int)
    requires
        0 <= i < set.len(),
    ensures
        ({
            let existing = known + declared_by(set);
            let kept = kept_passes(set, set.len() as int, existing);
            &&& keeps(set[i].pass, existing) ==> exists|k: int| 0 <= k < kept.len() && kept[k] == set[i]
            &&& !keeps(set[i].pass, existing) ==> forall|k: int| 0 <= k < kept.len() ==> kept[k].pass != set[i].pass
            &&& set[i].pass is For ==> keeps(set[i].pass, existing)
            &&& set[i].pass is Default || set[i].pass is First || set[i].pass is Last || set[i].pass is Final
                ==> keeps(set[i].pass, existing)
            &&& set[i].pass is Before || set[i].pass is After ==> (keeps(set[i].pass, existing) <==> (
            known.contains(set[i].pass.ident()) || exists|k: int|
                0 <= k < set.len() && (#[trigger] set[k]).pass == PassModel::For(set[i].pass.ident())))
        }),
{
    let existing = known + declared_by(set);
    lemma_kept_passes(set, set.len() as int, existing);
    let kept = kept_passes(set, set.len() as int, existing);
    if keeps(set[i].pass, existing) {
        assert(keeps(set[i].pass, existing) && 0 <= i < set.len());
    }
}

/// What is kept of the first `n` passes: every pass that is to be kept, and no other.
pub proof fn lemma_kept_passes(set: Seq<PassPatches>, n: int, existing: Set<Seq<char>>)
    requires
        0 <= n <= set.len(),
    ensures
        forall|i: int|
            0 <= i < n && keeps((#[trigger] set[i]).pass, existing) ==> exists|k: int|
                0 <= k < kept_passes(set, n, existing).len() && kept_passes(set, n, existing)[k] == set[i],
        forall|k: int|
            0 <= k < kept_passes(set, n, existing).len() ==> keeps(
                (#[trigger] kept_passes(set, n, existing)[k]).pass,
                existing,
            ) && exists|i: int| 0 <= i < n && set[i] == kept_passes(set, n, existing)[k],
    decreases n,
{
    if n > 0 {
        lemma_kept_passes(set, n - 1, existing);
        let before = kept_passes(set, n - 1, existing);
        let now = kept_passes(set, n, existing);
        assert forall|i: int| 0 <= i < n && keeps((#[trigger] set[i]).pass, existing) implies exists|k: int|
            0 <= k < now.len() && now[k] == set[i] by {
            if i < n - 1 {
                let k = choose|k: int| 0 <= k < before.len() && before[k] == set[i];
                assert(now[k] == set[i]);
            } else {
                assert(now[now.len() - 1] == set[i]);
            }
        }
        assert forall|k: int| 0 <= k < now.len() implies keeps((#[trigger] now[k]).pass, existing) && exists|i: int|
            0 <= i < n && set[i] == now[k] by {
            if k < before.len() {
                assert(now[k] == before[k]);
                let i = choose|i: int| 0 <= i < n - 1 && set[i] == before[k];
                assert(set[i] == now[k]);
            } else {
                assert(set[n - 1] == now[k]);
            }
        }
    }
}

/// Once a malformed patch is met, the pruning of more files fails too.
pub proof fn lemma_prune_files_fails(files: Seq<FileModel>, k: int, n: int, existing: Set<Seq<char>>)
    requires
        0 <= k <= n <= files.len(),
        prune_files(files, k, existing) is None,
    ensures
        prune_files(files, n, existing) is None,
    decreases n - k,
{
    if k < n {
        lemma_prune_files_fails(files, k, n - 1, existing);
    }
}

/// Once a malformed patch is met, the pruning of more passes fails too.
pub proof fn lemma_prune_passes_fails(set: Seq<PassPatches>, k: int, n: int, existing: Set<Seq<char>>)
    requires
        0 <= k <= n <= set.len(),
        prune_passes(set, k, existing) is None,
    ensures
        prune_passes(set, n, existing) is None,
    decreases n - k,
{
    if k < n {
        lemma_prune_passes_fails(set, k, n - 1, existing);
    }
}

/// A failure of one of the first patches is the failure of them all.
pub proof fn lemma_run_patches_fails(patches: Seq<NodePatchModel>, k: int, n: int, path: Seq<char>, nodes: Seq<NodeModel>)
    requires
        0 <= k <= n <= patches.len(),
        run_patches(patches, k, path, nodes) is Err,
    ensures
        run_patches(patches, n, path, nodes) == run_patches(patches, k, path, nodes),
    decreases n - k,
{
    if k < n {
        lemma_run_patches_fails(patches, k, n - 1, path, nodes);
    }
}

/// A failure in one of the first files is the failure of them all.
pub proof fn lemma_run_files_fails(files: Seq<FileModel>, k: int, n: int, nodes: Seq<NodeModel>)
    requires
        0 <= k <= n <= files.len(),
        run_files(files, k, nodes) is Err,
    ensures
        run_files(files, n, nodes) == run_files(files, k, nodes),
    decreases n - k,
{
    if k < n {
        lemma_run_files_fails(files, k, n - 1, nodes);
    }
}

/// A failure in one of the first passes is the failure of them all.
pub proof fn lemma_run_passes_fails(set: Seq<PassPatches>, k: int, n: int, nodes: Seq<NodeModel>)
    requires
        0 <= k <= n <= set.len(),
        run_passes(set, k, nodes) is Err,
    ensures
        run_passes(set, n, nodes) == run_passes(set, k, nodes),
    decreases n - k,
{
    if k < n {
        lemma_run_passes_fails(set, k, n - 1, nodes);
    }
}

impl ModuleManager {
    /// The database is empty until the patches are executed.
    #[verifier::type_invariant]
    spec fn inv(self) -> bool {
        self.database.0@.len() == 0
    }

    /// The mods that are known to be there.
    pub closed spec fn known(&self) -> Set<Seq<char>> {
        names(self.dll_passes@)
    }

    /// The patches that are to be executed.
    pub closed spec fn patches(&self) -> Seq<PassPatches> {
        self.patches@
    }

    /// Takes the parsed documents and the names of the mods that are known
    /// to be there. A key at the top level of a document is an internal error.
    pub fn new(raw_patches: RawPatches, dll_names: Vec<String>) -> (r: Result<Self, PatchingError>)
        ensures
            match r {
                Ok(manager) => {
                    &&& !has_top_level_key(raw_patches.files@)
                    &&& manager.known() == names(dll_names@)
                    &&& is_patch_set_of(manager.patches(), raw_patches.files@)
                },
                Err(e) => e@ is Internal && has_top_level_key(raw_patches.files@),
            },
    {
        match raw_patches.extract() {
            Ok(patches) => Ok(ModuleManager { dll_passes: dll_names, patches, database: Database::default() }),
            Err(e) => Err(e),
        }
    }

    /// Schedules the patches and executes them against an empty database.
    pub fn execute(self) -> (r: Result<Database, PatchingError>)
        ensures
            match r {
                Ok(database) => database.wf() && outcome(self.known(), self.patches()) == Ok::<
                    Seq<NodeModel>,
                    Fault,
                >(database@),
                Err(e) => outcome(self.known(), self.patches()) == Err::<Seq<NodeModel>, Fault>(e@.fault()),
            },
    {
        proof {
            use_type_invariant(&self);
        }
        let ModuleManager { dll_passes, patches, database } = self;
        let mut patches = patches;
        let mut database = database;
        let ghost given = patches@;
        let declared = Self::scan_declared_passes(&patches);
        let mut all_existing: Vec<String> = Vec::new();
        let mut d: usize = 0;
        while d < dll_passes.len()
            invariant
                d <= dll_passes@.len(),
                all_existing@.len() == d,
                forall|k: int| 0 <= k < d ==> (#[trigger] all_existing@[k])@ == dll_passes@[k]@,
            decreases dll_passes@.len() - d,
        {
            all_existing.push(dll_passes[d].clone());
            d = d + 1;
        }
        let ghost copied = all_existing@;
        let mut declared = declared;
        let ghost scanned = declared@;
        all_existing.append(&mut declared);
        let ghost existing = names(all_existing@);
        proof {
            assert(existing =~= names(dll_passes@) + declared_by(given)) by {
                assert forall|name: Seq<char>| existing.contains(name) <==> (names(dll_passes@) + declared_by(
                    given,
                )).contains(name) by {
                    if existing.contains(name) {
                        let i = choose|i: int| 0 <= i < all_existing@.len() && (#[trigger] all_existing@[i])@ == name;
                        if i < copied.len() {
                            assert(dll_passes@[i]@ == name);
                        } else {
                            assert(scanned[i - copied.len()]@ == name);
                            assert(names(scanned).contains(name));
                        }
                    }
                    if names(dll_passes@).contains(name) {
                        let i = choose|i: int| 0 <= i < dll_passes@.len() && (#[trigger] dll_passes@[i])@ == name;
                        assert(all_existing@[i]@ == name);
                    }
                    if declared_by(given).contains(name) {
                        assert(names(scanned).contains(name));
                        let i = choose|i: int| 0 <= i < scanned.len() && (#[trigger] scanned[i])@ == name;
                        assert(all_existing@[copied.len() + i]@ == name);
                    }
                }
            }
        }
        Self::prune_before_after(&mut patches, &all_existing);
        match Self::prune_needs(&mut patches, &all_existing) {
            Ok(()) => {},
            Err(e) => {
                return Err(e);
            },
        }
        let ghost scheduled = patches@;
        proof {
            assert(database@ =~= Seq::<NodeModel>::empty());
            assert(database.wf());
        }
        let mut i: usize = 0;
        while i < patches.0.len()
            invariant
                i <= patches.0@.len(),
                scheduled == patches@,
                scheduled.len() == patches.0@.len(),
                database.wf(),
                run_passes(scheduled, i as int, Seq::empty()) == Ok::<Seq<NodeModel>, Fault>(database@),
                outcome(self.known(), self.patches()) == run_passes(
                    scheduled,
                    scheduled.len() as int,
                    Seq::empty(),
                ),
                self.known() == names(dll_passes@),
            decreases patches.0@.len() - i,
        {
            let ghost entered = database@;
            let files = &patches.0[i].1;
            let ghost file_models = scheduled[i as int].files;
            assert(file_models == files_model(files@));
            let mut j: usize = 0;
            while j < files.len()
                invariant
                    j <= files@.len(),
                    i < patches.0@.len(),
                    scheduled.len() == patches.0@.len(),
                    file_models == files_model(files@),
                    file_models == scheduled[i as int].files,
                    database.wf(),
                    outcome(self.known(), self.patches()) == run_passes(
                        scheduled,
                        scheduled.len() as int,
                        Seq::empty(),
                    ),
                    run_passes(scheduled, i as int, Seq::empty()) == Ok::<Seq<NodeModel>, Fault>(entered),
                    run_files(file_models, j as int, entered) == Ok::<Seq<NodeModel>, Fault>(database@),
                decreases files@.len() - j,
            {
                let file = &files[j];
                let ghost opened = database@;
                let ghost patch_models = file_models[j as int].patches;
                assert(patch_models == patches_model(file.contents@));
                assert(file_models[j as int].path == file.path@);
                let mut k: usize = 0;
                while k < file.contents.len()
                    invariant
                        k <= file.contents@.len(),
                        i < patches.0@.len(),
                        j < files@.len(),
                        scheduled.len() == patches.0@.len(),
                        file_models == files_model(files@),
                        file_models == scheduled[i as int].files,
                        patch_models == patches_model(file.contents@),
                        patch_models == file_models[j as int].patches,
                        file_models[j as int].path == file.path@,
                        database.wf(),
                        outcome(self.known(), self.patches()) == run_passes(
                            scheduled,
                            scheduled.len() as int,
                            Seq::empty(),
                        ),
                        run_passes(scheduled, i as int, Seq::empty()) == Ok::<Seq<NodeModel>, Fault>(entered),
                        run_files(file_models, j as int, entered) == Ok::<Seq<NodeModel>, Fault>(opened),
                        run_patches(patch_models, k as int, file.path@, opened) == Ok::<Seq<NodeModel>, Fault>(
                            database@,
                        ),
                    decreases file.contents@.len() - k,
                {
                    let patch = &file.contents[k];
                    assert(patch_models[k as int] == patch@);
                    match Patcher::new(&mut database, file.path.clone(), patch).evaluate() {
                        Ok(()) => {},
                        Err(e) => {
                            proof {
                                lemma_run_patches_fails(
                                    patch_models,
                                    k + 1,
                                    patch_models.len() as int,
                                    file.path@,
                                    opened,
                                );
                                lemma_run_files_fails(file_models, j + 1, file_models.len() as int, entered);
                                lemma_run_passes_fails(scheduled, i + 1, scheduled.len() as int, Seq::empty());
                            }
                            return Err(e);
                        },
                    }
                    k = k + 1;
                }
                j = j + 1;
            }
            i = i + 1;
        }
        Ok(database)
    }

    /// The identifiers of the `For` passes of the set.
    pub fn scan_declared_passes(patches: &PatchSet) -> (r: Vec<String>)
        ensures
            names(r@) == declared_by(patches@),
    {
        let mut declared: Vec<String> = Vec::new();
        let mut i: usize = 0;
        while i < patches.0.len()
            invariant
                i <= patches.0@.len(),
                forall|name: Seq<char>|
                    names(declared@).contains(name) <==> exists|k: int|
                        0 <= k < i && (#[trigger] patches@[k]).pass == PassModel::For(name),
            decreases patches.0@.len() - i,
        {
            let ghost before = declared@;
            match &patches.0[i].0 {
                Pass::For(ident) => {
                    declared.push(ident.0.clone());
                    proof {
                        assert(patches@[i as int].pass == PassModel::For(ident@));
                        assert forall|name: Seq<char>| names(declared@).contains(name) <==> exists|k: int|
                            0 <= k < i + 1 && (#[trigger] patches@[k]).pass == PassModel::For(name) by {
                            if names(declared@).contains(name) {
                                let w = choose|w: int| 0 <= w < declared@.len() && (#[trigger] declared@[w])@ == name;
                                if w < before.len() {
                                    assert(before[w]@ == name);
                                    assert(names(before).contains(name));
                                } else {
                                    assert(patches@[i as int].pass == PassModel::For(name));
                                }
                            }
                            if exists|k: int| 0 <= k < i + 1 && (#[trigger] patches@[k]).pass == PassModel::For(name) {
                                let k = choose|k: int| 0 <= k < i + 1 && (#[trigger] patches@[k]).pass == PassModel::For(name);
                                if k < i {
                                    assert(names(before).contains(name));
                                    let w = choose|w: int| 0 <= w < before.len() && (#[trigger] before[w])@ == name;
                                    assert(declared@[w]@ == name);
                                } else {
                                    assert(declared@[before.len() as int]@ == name);
                                }
                            }
                        }
                    }
                },
                _ => {
                    proof {
                        assert forall|name: Seq<char>| names(declared@).contains(name) <==> exists|k: int|
                            0 <= k < i + 1 && (#[trigger] patches@[k]).pass == PassModel::For(name) by {
                            if exists|k: int| 0 <= k < i + 1 && (#[trigger] patches@[k]).pass == PassModel::For(name) {
                                let k = choose|k: int| 0 <= k < i + 1 && (#[trigger] patches@[k]).pass == PassModel::For(name);
                                assert(k < i);
                            }
                        }
                    }
                },
            }
            i = i + 1;
        }
        assert(names(declared@) =~= declared_by(patches@));
        declared
    }

    /// Drops the passes that run before or after the patches of a mod that
    /// is not among the declared ones. Every other pass stays, with its files
    /// and patches, and the passes that stay keep their order.
    pub fn prune_before_after(patches: &mut PatchSet, declared_passes: &Vec<String>)
        ensures
            final(patches)@ == kept_passes(old(patches)@, old(patches)@.len() as int, names(declared_passes@)),
            forall|i: int|
                0 <= i < old(patches)@.len() && keeps((#[trigger] old(patches)@[i]).pass, names(declared_passes@))
                    ==> exists|k: int| 0 <= k < final(patches)@.len() && final(patches)@[k] == old(patches)@[i],
            forall|k: int|
                0 <= k < final(patches)@.len() ==> keeps(
                    (#[trigger] final(patches)@[k]).pass,
                    names(declared_passes@),
                ) && exists|i: int| 0 <= i < old(patches)@.len() && old(patches)@[i] == final(patches)@[k],
    {
        let ghost existing = names(declared_passes@);
        let ghost model = patches@;
        proof {
            lemma_kept_passes(model, model.len() as int, existing);
        }
        let mut kept: Vec<PatchesInPass> = Vec::new();
        let n = patches.0.len();
        let mut i: usize = 0;
        proof {
            assert(set_model(kept@) =~= kept_passes(model, 0, existing));
        }
        while i < n
            invariant
                i <= n,
                n == patches.0@.len(),
                n == model.len(),
                model == old(patches)@,
                existing == names(declared_passes@),
                forall|k: int| i <= k < n ==> patches.0@[k] == old(patches).0@[k],
                set_model(kept@) == kept_passes(model, i as int, existing),
            decreases n - i,
        {
            let mut entry: PatchesInPass = (Pass::Default, Vec::new());
            core::mem::swap(&mut patches.0[i], &mut entry);
            assert(entry == old(patches).0@[i as int]);
            assert(model[i as int] == (PassPatches { pass: entry.0@, files: files_model(entry.1@) }));
            let keep = match &entry.0 {
                Pass::Before(ident) => crate::module_manager::operator::needs::declares(
                    declared_passes,
                    ident.0.as_str(),
                ),
                Pass::After(ident) => crate::module_manager::operator::needs::declares(
                    declared_passes,
                    ident.0.as_str(),
                ),
                _ => true,
            };
            assert(keep == keeps(model[i as int].pass, existing));
            if keep {
                kept.push(entry);
                assert(set_model(kept@) =~= kept_passes(model, i + 1, existing));
            }
            i = i + 1;
        }
        patches.0 = kept;
    }

    /// Whether the pruning of the set meets no malformed condition. The set is only read.
    fn check_needs(patches: &PatchSet, declared_passes: &Vec<String>) -> (r: Result<(), PatchingError>)
        ensures
            match r {
                Ok(()) => prune_passes(patches@, patches@.len() as int, names(declared_passes@)) is Some,
                Err(e) => e@ is Internal && prune_passes(patches@, patches@.len() as int, names(declared_passes@))
                    is None,
            },
    {
        let ghost existing = names(declared_passes@);
        let ghost model = patches@;
        let mut i: usize = 0;
        while i < patches.0.len()
            invariant
                i <= patches.0@.len(),
                model == patches@,
                existing == names(declared_passes@),
                prune_passes(model, i as int, existing) is Some,
            decreases patches.0@.len() - i,
        {
            let files = &patches.0[i].1;
            let ghost file_models = model[i as int].files;
            assert(file_models == files_model(files@));
            let mut j: usize = 0;
            while j < files.len()
                invariant
                    i < patches.0@.len(),
                    j <= files@.len(),
                    model == patches@,
                    existing == names(declared_passes@),
                    file_models == files_model(files@),
                    file_models == model[i as int].files,
                    prune_passes(model, i as int, existing) is Some,
                    prune_files(file_models, j as int, existing) is Some,
                decreases files@.len() - j,
            {
                assert(file_models[j as int].patches == patches_model(files@[j as int].contents@));
                match check_list(&files[j].contents, declared_passes) {
                    Ok(()) => {},
                    Err(e) => {
                        proof {
                            lemma_prune_files_fails(file_models, j + 1, file_models.len() as int, existing);
                            lemma_prune_passes_fails(model, i + 1, model.len() as int, existing);
                        }
                        return Err(e);
                    },
                }
                j = j + 1;
            }
            i = i + 1;
        }
        Ok(())
    }

    /// Drops the patches whose needs fail. A failure leaves the set as it was.
    pub fn prune_needs(patches: &mut PatchSet, declared_passes: &Vec<String>) -> (r: Result<(), PatchingError>)
        ensures
            match r {
                Ok(()) => prune_passes(old(patches)@, old(patches)@.len() as int, names(declared_passes@))
                    == Some(final(patches)@),
                Err(e) => {
                    &&& e@ is Internal
                    &&& prune_passes(old(patches)@, old(patches)@.len() as int, names(declared_passes@)) is None
                    &&& *final(patches) == *old(patches)
                },
            },
    {
        match Self::check_needs(patches, declared_passes) {
            Ok(()) => {},
            Err(e) => {
                return Err(e);
            },
        }
        let ghost existing = names(declared_passes@);
        let ghost model = patches@;
        let n = patches.0.len();
        let mut i: usize = 0;
        proof {
            assert(patches@.take(0) =~= Seq::<PassPatches>::empty());
        }
        while i < n
            invariant
                i <= n,
                n == patches.0@.len(),
                n == model.len(),
                model == old(patches)@,
                existing == names(declared_passes@),
                forall|k: int| i <= k < n ==> patches.0@[k] == old(patches).0@[k],
                prune_passes(model, n as int, existing) is Some,
                prune_passes(model, i as int, existing) == Some(patches@.take(i as int)),
            decreases n - i,
        {
            let ghost files = model[i as int].files;
            let ghost before = patches@;
            let count = patches.0[i].1.len();
            let mut j: usize = 0;
            assert(files == files_model(patches.0@[i as int].1@));
            proof {
                assert(files_model(patches.0@[i as int].1@).take(0) =~= Seq::<FileModel>::empty());
            }
            while j < count
                invariant
                    i < n,
                    j <= count,
                    n == patches.0@.len(),
                    n == model.len(),
                    count == files.len(),
                    count == patches.0@[i as int].1@.len(),
                    model == old(patches)@,
                    files == model[i as int].files,
                    existing == names(declared_passes@),
                    patches.0@[i as int].0 == old(patches).0@[i as int].0,
                    patches@.take(i as int) == before.take(i as int),
                    forall|k: int| i < k < n ==> patches.0@[k] == old(patches).0@[k],
                    forall|k: int| j <= k < count ==> patches.0@[i as int].1@[k] == old(patches).0@[i as int].1@[k],
                    prune_passes(model, n as int, existing) is Some,
                    prune_files(files, j as int, existing) == Some(
                        files_model(patches.0@[i as int].1@).take(j as int),
                    ),
                decreases count - j,
            {
                let ghost entry_before = patches.0@[i as int].1@;
                let ghost whole_before = patches@;
                assert(files[j as int] == (FileModel {
                    path: entry_before[j as int].path@,
                    patches: patches_model(entry_before[j as int].contents@),
                }));
                match prune_list(&mut patches.0[i].1[j].contents, declared_passes) {
                    Ok(()) => {},
                    Err(e) => {
                        proof {
                            lemma_prune_files_fails(files, j + 1, count as int, existing);
                            lemma_prune_passes_fails(model, i + 1, n as int, existing);
                        }
                        return Err(e);
                    },
                }
                proof {
                    let entry_after = patches.0@[i as int].1@;
                    assert(files_model(entry_after).take(j + 1) =~= files_model(entry_before).take(j as int).push(
                        FileModel {
                            path: entry_after[j as int].path@,
                            patches: patches_model(entry_after[j as int].contents@),
                        },
                    ));
                    assert(patches@.take(i as int) =~= whole_before.take(i as int));
                }
                j = j + 1;
            }
            proof {
                let entry_after = patches.0@[i as int].1@;
                assert(files_model(entry_after).take(count as int) =~= files_model(entry_after));
                assert(patches@.take(i + 1) =~= patches@.take(i as int).push(
                    PassPatches { pass: model[i as int].pass, files: files_model(entry_after) },
                ));
            }
            i = i + 1;
        }
        proof {
            assert(patches@.take(n as int) =~= patches@);
        }
        Ok(())
    }
}

} // verus!
