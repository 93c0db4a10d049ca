//! The patches of all files, ordered: by pass, and within a pass by file.

use vstd::prelude::*;
use crate::file::File;
use crate::node_patch::{patches_model, NodePatch, NodePatchModel};
use crate::pass::{lemma_pass_order_strict_total, pass_lt, Pass, PassModel};
use crate::text::{
    lemma_lt_asymmetric, lemma_lt_irreflexive, lemma_lt_total, lemma_lt_transitive, path_lt, path_precedes,
    same, Order,
};

verus! {

/// A pass with the files that hold patches for it.
pub type PatchesInPass = (Pass, Vec<File<Vec<NodePatch>>>);

/// The patches of all files. Passes stand in the order in which they run,
/// each pass once; the files of a pass stand in the order of their paths,
/// each file once; the patches of a file stand in the order of the document.
#[derive(Debug)]
pub struct PatchSet(pub Vec<PatchesInPass>);

/// The patches of one file for one pass.
pub struct FileModel {
    pub path: Seq<char>,
    pub patches: Seq<NodePatchModel>,
}

/// The files of one pass.
pub struct PassPatches {
    pub pass: PassModel,
    pub files: Seq<FileModel>,
}

/// The files of a list, as models.
pub open spec fn files_model(files: Seq<File<Vec<NodePatch>>>) -> Seq<FileModel> {
    Seq::new(files.len(), |i: int| FileModel { path: files[i].path@, patches: patches_model(files[i].contents@) })
}

/// The passes of a list, as models.
pub open spec fn set_model(passes: Seq<PatchesInPass>) -> Seq<PassPatches> {
    Seq::new(passes.len(), |i: int| PassPatches { pass: passes[i].0@, files: files_model(passes[i].1@) })
}

impl View for PatchSet {
    type V = Seq<PassPatches>;

    open spec fn view(&self) -> Seq<PassPatches> {
        set_model(self.0@)
    }
}

/// The files stand in the strict order of their paths.
pub open spec fn files_sorted(files: Seq<FileModel>) -> bool {
    forall|i: int, j: int| 0 <= i < j < files.len() ==> path_lt(files[i].path, files[j].path)
}

/// The passes stand in the strict order in which they run, and the files of each are sorted.
pub open spec fn set_sorted(set: Seq<PassPatches>) -> bool {
    &&& forall|i: int, j: int| 0 <= i < j < set.len() ==> pass_lt(set[i].pass, set[j].pass)
    &&& forall|i: int| 0 <= i < set.len() ==> files_sorted(#[trigger] set[i].files)
}

/// The place of a path among files: the index of the first file whose
/// path does not come before it, or the number of files.
pub open spec fn file_place(files: Seq<FileModel>, path: Seq<char>) -> int
    decreases files.len(),
{
    if files.len() == 0 || !path_lt(files[0].path, path) {
        0
    } else {
        1 + file_place(files.drop_first(), path)
    }
}

/// The place of a pass among passes: the index of the first entry whose
/// pass does not run before it, or the number of entries.
pub open spec fn pass_place(set: Seq<PassPatches>, pass: PassModel) -> int
    decreases set.len(),
{
    if set.len() == 0 || !pass_lt(set[0].pass, pass) {
        0
    } else {
        1 + pass_place(set.drop_first(), pass)
    }
}

pub proof fn lemma_file_place(files: Seq<FileModel>, path: Seq<char>)
    ensures
        0 <= file_place(files, path) <= files.len(),
        file_place(files, path) < files.len() ==> !path_lt(files[file_place(files, path)].path, path),
        forall|j: int| 0 <= j < file_place(files, path) ==> path_lt((#[trigger] files[j]).path, path),
    decreases files.len(),
{
    if files.len() == 0 || !path_lt(files[0].path, path) {
    } else {
        let rest = files.drop_first();
        lemma_file_place(rest, path);
        assert forall|j: int| 0 <= j < file_place(files, path) implies path_lt((#[trigger] files[j]).path, path) by {
            if j > 0 {
                assert(files[j] == rest[j - 1]);
            }
        }
    }
}

pub proof fn lemma_file_place_is(files: Seq<FileModel>, path: Seq<char>, i: int)
    requires
        0 <= i <= files.len(),
        i < files.len() ==> !path_lt(files[i].path, path),
        forall|j: int| 0 <= j < i ==> path_lt((#[trigger] files[j]).path, path),
    ensures
        file_place(files, path) == i,
{
    lemma_file_place(files, path);
    let f = file_place(files, path);
    if f < i {
        assert(path_lt(files[f].path, path));
    }
}

pub proof fn lemma_pass_place(set: Seq<PassPatches>, pass: PassModel)
    ensures
        0 <= pass_place(set, pass) <= set.len(),
        pass_place(set, pass) < set.len() ==> !pass_lt(set[pass_place(set, pass)].pass, pass),
        forall|j: int| 0 <= j < pass_place(set, pass) ==> pass_lt((#[trigger] set[j]).pass, pass),
    decreases set.len(),
{
    if set.len() == 0 || !pass_lt(set[0].pass, pass) {
    } else {
        let rest = set.drop_first();
        lemma_pass_place(rest, pass);
        assert forall|j: int| 0 <= j < pass_place(set, pass) implies pass_lt((#[trigger] set[j]).pass, pass) by {
            if j > 0 {
                assert(set[j] == rest[j - 1]);
            }
        }
    }
}

pub proof fn lemma_pass_place_is(set: Seq<PassPatches>, pass: PassModel, i: int)
    requires
        0 <= i <= set.len(),
        i < set.len() ==> !pass_lt(set[i].pass, pass),
        forall|j: int| 0 <= j < i ==> pass_lt((#[trigger] set[j]).pass, pass),
    ensures
        pass_place(set, pass) == i,
{
    lemma_pass_place(set, pass);
    let f = pass_place(set, pass);
    if f < i {
        assert(pass_lt(set[f].pass, pass));
    }
}

/// The files of a pass with one more patch for the file at `path`: at the
/// end of that file's patches or, if the file is new, in a new entry at the
/// path's place.
pub open spec fn files_add(files: Seq<FileModel>, path: Seq<char>, patch: NodePatchModel) -> Seq<FileModel> {
    let at = file_place(files, path);
    if at < files.len() && files[at].path == path {
        files.update(at, FileModel { path, patches: files[at].patches.push(patch) })
    } else {
        files.insert(at, FileModel { path, patches: seq![patch] })
    }
}

/// The set with an entry for the pass: as it is, if it has one, and else
/// with a new entry without files at the pass's place.
pub open spec fn set_touch(set: Seq<PassPatches>, pass: PassModel) -> Seq<PassPatches> {
    let at = pass_place(set, pass);
    if at < set.len() && set[at].pass == pass {
        set
    } else {
        set.insert(at, PassPatches { pass, files: Seq::empty() })
    }
}

/// The set with one more patch for the pass and the file at `path`.
pub open spec fn set_add(set: Seq<PassPatches>, pass: PassModel, path: Seq<char>, patch: NodePatchModel) -> Seq<
    PassPatches,
> {
    let touched = set_touch(set, pass);
    let at = pass_place(set, pass);
    touched.update(at, PassPatches { pass, files: files_add(touched[at].files, path, patch) })
}

/// Adding a patch keeps the files in order.
pub proof fn lemma_files_add_sorted(files: Seq<FileModel>, path: Seq<char>, patch: NodePatchModel)
    requires
        files_sorted(files),
    ensures
        files_sorted(files_add(files, path, patch)),
{
    lemma_file_place(files, path);
    let at = file_place(files, path);
    let out = files_add(files, path, patch);
    if at < files.len() && files[at].path == path {
        assert forall|i: int, j: int| 0 <= i < j < out.len() implies path_lt(out[i].path, out[j].path) by {
            assert(out[i].path == files[i].path);
            assert(out[j].path == files[j].path);
        }
    } else {
        assert forall|i: int, j: int| 0 <= i < j < out.len() implies path_lt(out[i].path, out[j].path) by {
            if j == at {
                assert(out[i] == files[i]);
            } else if i == at {
                assert(out[j] == files[j - 1]);
                lemma_lt_total(files[at].path, path, Order::Components);
                if j - 1 > at {
                    assert(path_lt(files[at].path, files[j - 1].path));
                    lemma_lt_transitive(path, files[at].path, files[j - 1].path, Order::Components);
                }
            } else {
                let oi = if i < at { i } else { i - 1 };
                let oj = if j < at { j } else { j - 1 };
                assert(out[i] == files[oi]);
                assert(out[j] == files[oj]);
            }
        }
    }
}

/// Touching a pass keeps the set in order.
pub proof fn lemma_set_touch_sorted(set: Seq<PassPatches>, pass: PassModel)
    requires
        set_sorted(set),
    ensures
        set_sorted(set_touch(set, pass)),
        pass_place(set, pass) < set_touch(set, pass).len(),
        set_touch(set, pass)[pass_place(set, pass)].pass == pass,
{
    lemma_pass_place(set, pass);
    let at = pass_place(set, pass);
    let out = set_touch(set, pass);
    if at < set.len() && set[at].pass == pass {
    } else {
        assert forall|i: int, j: int| 0 <= i < j < out.len() implies pass_lt(out[i].pass, out[j].pass) by {
            if j == at {
                assert(out[i] == set[i]);
            } else if i == at {
                assert(out[j] == set[j - 1]);
                lemma_pass_order_strict_total(set[at].pass, pass, pass);
                if j - 1 > at {
                    lemma_pass_order_strict_total(pass, set[at].pass, set[j - 1].pass);
                }
            } else {
                let oi = if i < at { i } else { i - 1 };
                let oj = if j < at { j } else { j - 1 };
                assert(out[i] == set[oi]);
                assert(out[j] == set[oj]);
            }
        }
        assert forall|i: int| 0 <= i < out.len() implies files_sorted(#[trigger] out[i].files) by {
            if i != at {
                let oi = if i < at { i } else { i - 1 };
                assert(out[i] == set[oi]);
            }
        }
    }
}

/// Adding a patch keeps the set in order.
pub proof fn lemma_set_add_sorted(set: Seq<PassPatches>, pass: PassModel, path: Seq<char>, patch: NodePatchModel)
    requires
        set_sorted(set),
    ensures
        set_sorted(set_add(set, pass, path, patch)),
{
    lemma_set_touch_sorted(set, pass);
    lemma_pass_place(set, pass);
    let touched = set_touch(set, pass);
    let at = pass_place(set, pass);
    assert(files_sorted(touched[at].files));
    lemma_files_add_sorted(touched[at].files, path, patch);
    let out = set_add(set, pass, path, patch);
    assert forall|i: int, j: int| 0 <= i < j < out.len() implies pass_lt(out[i].pass, out[j].pass) by {
        assert(out[i].pass == touched[i].pass);
        assert(out[j].pass == touched[j].pass);
    }
    assert forall|i: int| 0 <= i < out.len() implies files_sorted(#[trigger] out[i].files) by {
        if i != at {
            assert(out[i] == touched[i]);
        }
    }
}

/// The patches that the files hold for the file at `path`: none, if the file has no entry.
pub open spec fn patches_of_file(files: Seq<FileModel>, path: Seq<char>) -> Seq<NodePatchModel> {
    let at = file_place(files, path);
    if at < files.len() && files[at].path == path {
        files[at].patches
    } else {
        Seq::empty()
    }
}

/// Whether the set has an entry for the pass.
pub open spec fn has_pass(set: Seq<PassPatches>, pass: PassModel) -> bool {
    pass_place(set, pass) < set.len() && set[pass_place(set, pass)].pass == pass
}

/// The files that the set holds for a pass: none, if the pass has no entry.
pub open spec fn files_of(set: Seq<PassPatches>, pass: PassModel) -> Seq<FileModel> {
    if has_pass(set, pass) {
        set[pass_place(set, pass)].files
    } else {
        Seq::empty()
    }
}

/// The patches that the set holds for a pass and a file.
pub open spec fn patches_in(set: Seq<PassPatches>, pass: PassModel, path: Seq<char>) -> Seq<NodePatchModel> {
    patches_of_file(files_of(set, pass), path)
}

/// In sorted files the place of a path that has an entry is that entry.
pub proof fn lemma_file_found(files: Seq<FileModel>, i: int)
    requires
        files_sorted(files),
        0 <= i < files.len(),
    ensures
        file_place(files, files[i].path) == i,
{
    lemma_lt_irreflexive(files[i].path, Order::Components);
    lemma_file_place_is(files, files[i].path, i);
}

/// In a sorted set the place of a pass that has an entry is that entry.
pub proof fn lemma_pass_found(set: Seq<PassPatches>, i: int)
    requires
        set_sorted(set),
        0 <= i < set.len(),
    ensures
        pass_place(set, set[i].pass) == i,
{
    lemma_pass_order_strict_total(set[i].pass, set[i].pass, set[i].pass);
    lemma_pass_place_is(set, set[i].pass, i);
}

/// What the files hold after a patch was added: the patch, at the end of
/// the patches of its file, and for every other file what they held before.
pub proof fn lemma_files_add_lookup(files: Seq<FileModel>, path: Seq<char>, patch: NodePatchModel, other: Seq<char>)
    requires
        files_sorted(files),
    ensures
        patches_of_file(files_add(files, path, patch), other) == if other == path {
            patches_of_file(files, path).push(patch)
        } else {
            patches_of_file(files, other)
        },
{
    lemma_file_place(files, path);
    lemma_files_add_sorted(files, path, patch);
    let at = file_place(files, path);
    let out = files_add(files, path, patch);
    let found = file_place(files, other);
    let now = file_place(out, other);
    lemma_file_place(files, other);
    lemma_file_place(out, other);
    if at < files.len() && files[at].path == path {
        assert forall|j: int| 0 <= j < out.len() implies (#[trigger] out[j]).path == files[j].path by {}
        lemma_file_place_is(out, other, found);
        if other != path && found < files.len() && files[found].path == other {
            assert(found != at);
        }
    } else {
        assert(out[at].path == path);
        lemma_file_found(out, at);
        if other == path {
            assert(patches_of_file(files, path) =~= Seq::<NodePatchModel>::empty());
            assert(seq![patch] =~= Seq::<NodePatchModel>::empty().push(patch));
        } else if found < files.len() && files[found].path == other {
            let moved = if found < at { found } else { found + 1 };
            assert(out[moved] == files[found]);
            lemma_file_found(out, moved);
        } else {
            if now < out.len() && out[now].path == other {
                assert(now != at);
                let back = if now < at { now } else { now - 1 };
                assert(out[now] == files[back]);
                lemma_file_found(files, back);
            }
        }
    }
}

/// What the set holds after a pass was touched: what it held before.
pub proof fn lemma_set_touch_lookup(set: Seq<PassPatches>, pass: PassModel, other: PassModel)
    requires
        set_sorted(set),
    ensures
        files_of(set_touch(set, pass), other) == files_of(set, other),
        has_pass(set_touch(set, pass), other) == (other == pass || has_pass(set, other)),
{
    lemma_pass_place(set, pass);
    lemma_set_touch_sorted(set, pass);
    let at = pass_place(set, pass);
    let out = set_touch(set, pass);
    let found = pass_place(set, other);
    let now = pass_place(out, other);
    lemma_pass_place(set, other);
    lemma_pass_place(out, other);
    if at < set.len() && set[at].pass == pass {
    } else {
        assert(out[at].pass == pass);
        lemma_pass_found(out, at);
        if other == pass {
        } else if found < set.len() && set[found].pass == other {
            let moved = if found < at { found } else { found + 1 };
            assert(out[moved] == set[found]);
            lemma_pass_found(out, moved);
        } else {
            if now < out.len() && out[now].pass == other {
                assert(now != at);
                let back = if now < at { now } else { now - 1 };
                assert(out[now] == set[back]);
                lemma_pass_found(set, back);
            }
        }
    }
}

/// What the set holds after a patch was added: the patch, at the end of
/// the patches for its pass and its file, and everywhere else what it held
/// before. The pass of the patch has an entry now; no other pass has gained
/// or lost one.
pub proof fn lemma_set_add_lookup(
    set: Seq<PassPatches>,
    pass: PassModel,
    path: Seq<char>,
    patch: NodePatchModel,
    other_pass: PassModel,
    other_path: Seq<char>,
)
    requires
        set_sorted(set),
    ensures
        patches_in(set_add(set, pass, path, patch), other_pass, other_path) == if other_pass == pass
            && other_path == path {
            patches_in(set, pass, path).push(patch)
        } else {
            patches_in(set, other_pass, other_path)
        },
        has_pass(set_add(set, pass, path, patch), other_pass) == (other_pass == pass || has_pass(
            set,
            other_pass,
        )),
{
    lemma_pass_place(set, pass);
    lemma_set_touch_sorted(set, pass);
    lemma_set_touch_lookup(set, pass, other_pass);
    lemma_set_touch_lookup(set, pass, pass);
    lemma_set_add_sorted(set, pass, path, patch);
    let touched = set_touch(set, pass);
    let at = pass_place(set, pass);
    let out = set_add(set, pass, path, patch);
    assert(files_sorted(touched[at].files));
    lemma_files_add_lookup(touched[at].files, path, patch, other_path);
    assert forall|j: int| 0 <= j < out.len() implies (#[trigger] out[j]).pass == touched[j].pass by {}
    lemma_pass_place(touched, other_pass);
    lemma_pass_place_is(out, other_pass, pass_place(touched, other_pass));
    lemma_pass_found(touched, at);
    if other_pass == pass {
        assert(pass_place(out, pass) == at);
        assert(files_of(touched, pass) == touched[at].files);
    } else {
        let found = pass_place(touched, other_pass);
        if found < touched.len() && touched[found].pass == other_pass {
            assert(found != at);
            assert(out[found] == touched[found]);
        }
    }
}

/// Every file that has an entry holds a patch.
pub open spec fn no_empty_files(set: Seq<PassPatches>) -> bool {
    forall|i: int, j: int|
        0 <= i < set.len() && 0 <= j < set[i].files.len() ==> (#[trigger] set[i].files[j]).patches.len() > 0
}

/// Adding a patch leaves no file without patches.
pub proof fn lemma_set_add_no_empty(set: Seq<PassPatches>, pass: PassModel, path: Seq<char>, patch: NodePatchModel)
    requires
        no_empty_files(set),
    ensures
        no_empty_files(set_add(set, pass, path, patch)),
{
    lemma_pass_place(set, pass);
    let touched = set_touch(set, pass);
    let at = pass_place(set, pass);
    let out = set_add(set, pass, path, patch);
    assert forall|i: int, j: int| 0 <= i < touched.len() && 0 <= j < touched[i].files.len() implies (
    #[trigger] touched[i].files[j]).patches.len() > 0 by {
        if at < set.len() && set[at].pass == pass {
        } else if i != at {
            let oi = if i < at { i } else { i - 1 };
            assert(touched[i] == set[oi]);
            assert(set[oi].files[j].patches.len() > 0);
        }
    }
    let files = touched[at].files;
    lemma_file_place(files, path);
    let spot = file_place(files, path);
    assert forall|i: int, j: int| 0 <= i < out.len() && 0 <= j < out[i].files.len() implies (
    #[trigger] out[i].files[j]).patches.len() > 0 by {
        if i != at {
            assert(out[i] == touched[i]);
            assert(touched[i].files[j].patches.len() > 0);
        } else if spot < files.len() && files[spot].path == path {
            if j != spot {
                assert(out[i].files[j] == files[j]);
                assert(touched[at].files[j].patches.len() > 0);
            }
        } else {
            if j != spot {
                let oj = if j < spot { j } else { j - 1 };
                assert(out[i].files[j] == files[oj]);
                assert(touched[at].files[oj].patches.len() > 0);
            }
        }
    }
}

/// Whether the files have an entry for the path.
pub open spec fn has_file(files: Seq<FileModel>, path: Seq<char>) -> bool {
    file_place(files, path) < files.len() && files[file_place(files, path)].path == path
}

/// Two sorted lists of files that hold the same patches for every path,
/// and no file without patches, agree up to any length that both have.
pub proof fn lemma_files_agree(a: Seq<FileModel>, b: Seq<FileModel>, n: int)
    requires
        files_sorted(a),
        files_sorted(b),
        forall|i: int| 0 <= i < a.len() ==> (#[trigger] a[i]).patches.len() > 0,
        forall|i: int| 0 <= i < b.len() ==> (#[trigger] b[i]).patches.len() > 0,
        forall|path: Seq<char>| #[trigger] patches_of_file(a, path) == patches_of_file(b, path),
        0 <= n <= a.len(),
        n <= b.len(),
    ensures
        forall|i: int| 0 <= i < n ==> a[i] == b[i],
    decreases n,
{
    if n > 0 {
        lemma_files_agree(a, b, n - 1);
        let i = n - 1;
        lemma_file_step(a, b, i);
        lemma_file_step(b, a, i);
        lemma_lt_total(a[i].path, b[i].path, Order::Components);
        if path_lt(a[i].path, b[i].path) {
            lemma_lt_asymmetric(a[i].path, b[i].path, Order::Components);
        }
        lemma_file_found(a, i);
        lemma_file_found(b, i);
        assert(patches_of_file(a, a[i].path) == patches_of_file(b, a[i].path));
    }
}

/// In two lists as above that agree before `i`, the path at `i` of the
/// one does not come before the path at `i` of the other.
proof fn lemma_file_step(a: Seq<FileModel>, b: Seq<FileModel>, i: int)
    requires
        files_sorted(a),
        files_sorted(b),
        forall|k: int| 0 <= k < a.len() ==> (#[trigger] a[k]).patches.len() > 0,
        forall|path: Seq<char>| #[trigger] patches_of_file(a, path) == patches_of_file(b, path),
        0 <= i < a.len(),
        i < b.len(),
        forall|k: int| 0 <= k < i ==> a[k] == b[k],
    ensures
        !path_lt(a[i].path, b[i].path),
{
    let path = a[i].path;
    lemma_file_found(a, i);
    assert(patches_of_file(a, path) == patches_of_file(b, path));
    lemma_file_place(b, path);
    let j = file_place(b, path);
    assert(has_file(b, path));
    if j < i {
        assert(b[j] == a[j]);
        assert(path_lt(a[j].path, a[i].path));
        lemma_lt_irreflexive(path, Order::Components);
    } else if j > i {
        assert(path_lt(b[i].path, path));
        lemma_lt_asymmetric(b[i].path, path, Order::Components);
    } else {
        lemma_lt_irreflexive(path, Order::Components);
    }
}

/// Two sorted lists of files that hold the same patches for every path,
/// and no file without patches, are the same list.
pub proof fn lemma_files_unique(a: Seq<FileModel>, b: Seq<FileModel>)
    requires
        files_sorted(a),
        files_sorted(b),
        forall|i: int| 0 <= i < a.len() ==> (#[trigger] a[i]).patches.len() > 0,
        forall|i: int| 0 <= i < b.len() ==> (#[trigger] b[i]).patches.len() > 0,
        forall|path: Seq<char>| #[trigger] patches_of_file(a, path) == patches_of_file(b, path),
    ensures
        a == b,
{
    let n = if a.len() <= b.len() { a.len() as int } else { b.len() as int };
    lemma_files_agree(a, b, n);
    lemma_files_agree(b, a, n);
    lemma_file_extra(a, b);
    lemma_file_extra(b, a);
    assert(a =~= b);
}

/// Of two lists as above that agree where both have entries, the one is no longer than the other.
proof fn lemma_file_extra(a: Seq<FileModel>, b: Seq<FileModel>)
    requires
        files_sorted(a),
        files_sorted(b),
        forall|i: int| 0 <= i < b.len() ==> (#[trigger] b[i]).patches.len() > 0,
        forall|path: Seq<char>| #[trigger] patches_of_file(a, path) == patches_of_file(b, path),
        forall|i: int| 0 <= i < a.len() && i < b.len() ==> a[i] == b[i],
    ensures
        b.len() <= a.len(),
{
    if a.len() < b.len() {
        lemma_file_beyond(a, b);
    }
}

/// The entry of the longer list just behind the shorter one has no place in the shorter one.
proof fn lemma_file_beyond(a: Seq<FileModel>, b: Seq<FileModel>)
    requires
        files_sorted(a),
        files_sorted(b),
        forall|i: int| 0 <= i < b.len() ==> (#[trigger] b[i]).patches.len() > 0,
        forall|i: int| 0 <= i < a.len() && i < b.len() ==> a[i] == b[i],
        a.len() < b.len(),
    ensures
        patches_of_file(a, b[a.len() as int].path) != patches_of_file(b, b[a.len() as int].path),
{
    let extra = b[a.len() as int];
    lemma_file_found(b, a.len() as int);
    lemma_file_place(a, extra.path);
    let j = file_place(a, extra.path);
    if has_file(a, extra.path) {
        assert(a[j] == b[j]);
        assert(path_lt(b[j].path, extra.path));
        lemma_lt_irreflexive(extra.path, Order::Components);
    }
}

/// In two sets as below that agree on the passes before `i`, the pass at
/// `i` of the one does not run before the pass at `i` of the other.
proof fn lemma_pass_step(a: Seq<PassPatches>, b: Seq<PassPatches>, i: int)
    requires
        set_sorted(a),
        set_sorted(b),
        forall|pass: PassModel| #[trigger] has_pass(a, pass) == has_pass(b, pass),
        0 <= i < a.len(),
        i < b.len(),
        forall|k: int| 0 <= k < i ==> a[k].pass == b[k].pass,
    ensures
        !pass_lt(a[i].pass, b[i].pass),
{
    let pass = a[i].pass;
    lemma_pass_found(a, i);
    assert(has_pass(a, pass) == has_pass(b, pass));
    lemma_pass_place(b, pass);
    let j = pass_place(b, pass);
    lemma_pass_order_strict_total(pass, pass, pass);
    if j < i {
        assert(b[j].pass == a[j].pass);
        assert(pass_lt(a[j].pass, a[i].pass));
    } else if j > i {
        assert(pass_lt(b[i].pass, pass));
        lemma_pass_order_strict_total(b[i].pass, pass, pass);
    }
}

/// Two sorted sets with entries for the same passes agree on the passes
/// up to any length that both have.
proof fn lemma_passes_agree(a: Seq<PassPatches>, b: Seq<PassPatches>, n: int)
    requires
        set_sorted(a),
        set_sorted(b),
        forall|pass: PassModel| #[trigger] has_pass(a, pass) == has_pass(b, pass),
        0 <= n <= a.len(),
        n <= b.len(),
    ensures
        forall|i: int| 0 <= i < n ==> a[i].pass == b[i].pass,
    decreases n,
{
    if n > 0 {
        lemma_passes_agree(a, b, n - 1);
        let i = n - 1;
        lemma_pass_step(a, b, i);
        lemma_pass_step(b, a, i);
        lemma_pass_order_strict_total(a[i].pass, b[i].pass, b[i].pass);
    }
}

/// Of two sets as above that agree where both have entries, the one is no longer than the other.
proof fn lemma_pass_extra(a: Seq<PassPatches>, b: Seq<PassPatches>)
    requires
        set_sorted(a),
        set_sorted(b),
        forall|pass: PassModel| #[trigger] has_pass(a, pass) == has_pass(b, pass),
        forall|i: int| 0 <= i < a.len() && i < b.len() ==> a[i].pass == b[i].pass,
    ensures
        b.len() <= a.len(),
{
    if a.len() < b.len() {
        let extra = b[a.len() as int].pass;
        lemma_pass_found(b, a.len() as int);
        assert(has_pass(a, extra) == has_pass(b, extra));
        lemma_pass_place(a, extra);
        let j = pass_place(a, extra);
        assert(a[j].pass == b[j].pass);
        assert(pass_lt(b[j].pass, extra));
        lemma_pass_order_strict_total(extra, extra, extra);
    }
}

/// A sorted set without empty files is determined by the passes that it
/// has entries for and by the patches that it holds for each pass and path.
pub proof fn lemma_set_unique(a: Seq<PassPatches>, b: Seq<PassPatches>)
    requires
        set_sorted(a),
        set_sorted(b),
        no_empty_files(a),
        no_empty_files(b),
        forall|pass: PassModel| #[trigger] has_pass(a, pass) == has_pass(b, pass),
        forall|pass: PassModel, path: Seq<char>| #[trigger] patches_in(a, pass, path) == patches_in(b, pass, path),
    ensures
        a == b,
{
    let n = if a.len() <= b.len() { a.len() as int } else { b.len() as int };
    lemma_passes_agree(a, b, n);
    lemma_passes_agree(b, a, n);
    lemma_pass_extra(a, b);
    lemma_pass_extra(b, a);
    assert forall|i: int| 0 <= i < a.len() implies a[i] == b[i] by {
        let pass = a[i].pass;
        lemma_pass_found(a, i);
        lemma_pass_found(b, i);
        assert(files_of(a, pass) == a[i].files);
        assert(files_of(b, pass) == b[i].files);
        assert(files_sorted(a[i].files));
        assert(files_sorted(b[i].files));
        assert forall|k: int| 0 <= k < a[i].files.len() implies (#[trigger] a[i].files[k]).patches.len() > 0 by {}
        assert forall|k: int| 0 <= k < b[i].files.len() implies (#[trigger] b[i].files[k]).patches.len() > 0 by {}
        assert forall|path: Seq<char>| #[trigger]
            patches_of_file(a[i].files, path) == patches_of_file(b[i].files, path) by {
            assert(patches_in(a, pass, path) == patches_in(b, pass, path));
        }
        lemma_files_unique(a[i].files, b[i].files);
    }
    assert(a =~= b);
}

impl Default for PatchSet {
    fn default() -> (r: Self)
        ensures
            r@ == Seq::<PassPatches>::empty(),
    {
        let r = PatchSet(Vec::new());
        assert(r@ =~= Seq::<PassPatches>::empty());
        r
    }
}

/// A copy of the patches of a file.
fn copy_patches(patches: &Vec<NodePatch>) -> (r: Vec<NodePatch>)
    ensures
        patches_model(r@) == patches_model(patches@),
{
    let mut out: Vec<NodePatch> = Vec::new();
    let mut i: usize = 0;
    while i < patches.len()
        invariant
            i <= patches@.len(),
            out@.len() == i,
            forall|k: int| 0 <= k < i ==> (#[trigger] out@[k])@ == patches@[k]@,
        decreases patches@.len() - i,
    {
        out.push(patches[i].clone());
        i = i + 1;
    }
    assert(patches_model(out@) =~= patches_model(patches@));
    out
}

/// A copy of the files of a pass.
fn copy_files(files: &Vec<File<Vec<NodePatch>>>) -> (r: Vec<File<Vec<NodePatch>>>)
    ensures
        files_model(r@) == files_model(files@),
{
    let mut out: Vec<File<Vec<NodePatch>>> = Vec::new();
    let mut i: usize = 0;
    while i < files.len()
        invariant
            i <= files@.len(),
            out@.len() == i,
            forall|k: int|
                0 <= k < i ==> (#[trigger] out@[k]).path@ == files@[k].path@ && patches_model(out@[k].contents@)
                    == patches_model(files@[k].contents@),
        decreases files@.len() - i,
    {
        out.push(File::new(files[i].path.clone(), copy_patches(&files[i].contents)));
        i = i + 1;
    }
    assert(files_model(out@) =~= files_model(files@));
    out
}

impl Clone for PatchSet {
    fn clone(&self) -> (r: Self)
        ensures
            r@ == self@,
    {
        let mut out: Vec<PatchesInPass> = Vec::new();
        let mut i: usize = 0;
        while i < self.0.len()
            invariant
                i <= self.0@.len(),
                out@.len() == i,
                forall|k: int|
                    0 <= k < i ==> (#[trigger] out@[k]).0@ == self.0@[k].0@ && files_model(out@[k].1@)
                        == files_model(self.0@[k].1@),
            decreases self.0@.len() - i,
        {
            out.push((self.0[i].0.clone(), copy_files(&self.0[i].1)));
            i = i + 1;
        }
        let r = PatchSet(out);
        assert(r@ =~= self@);
        r
    }
}

/// The index at which the file at `path` stands or would stand.
fn find_file(files: &Vec<File<Vec<NodePatch>>>, path: &str) -> (r: usize)
    ensures
        r == file_place(files_model(files@), path@),
{
    let mut i: usize = 0;
    while i < files.len()
        invariant
            i <= files@.len(),
            forall|j: int| 0 <= j < i ==> path_lt((#[trigger] files_model(files@)[j]).path, path@),
        decreases files@.len() - i,
    {
        if !path_precedes(files[i].path.as_str(), path) {
            proof {
                lemma_file_place_is(files_model(files@), path@, i as int);
            }
            return i;
        }
        i = i + 1;
    }
    proof {
        lemma_file_place_is(files_model(files@), path@, i as int);
    }
    i
}

/// Adds a patch for the file at `path` to the files of a pass.
fn add_to_files(files: &mut Vec<File<Vec<NodePatch>>>, path: &str, patch: NodePatch)
    ensures
        files_model(final(files)@) == files_add(files_model(old(files)@), path@, patch@),
{
    let at = find_file(files, path);
    proof {
        lemma_file_place(files_model(files@), path@);
    }
    if at < files.len() && same(files[at].path.as_str(), path) {
        files[at].contents.push(patch);
        proof {
            assert(patches_model(files@[at as int].contents@) =~= patches_model(old(files)@[at as int].contents@).push(
                patch@,
            ));
            assert(files_model(files@) =~= files_add(files_model(old(files)@), path@, patch@));
        }
    } else {
        let mut contents: Vec<NodePatch> = Vec::new();
        contents.push(patch);
        files.insert(at, File::new(path.to_owned(), contents));
        proof {
            assert(patches_model(contents@) =~= seq![patch@]);
            assert(files_model(files@) =~= files_add(files_model(old(files)@), path@, patch@));
        }
    }
}

impl PatchSet {
    /// The passes with their files, in the order in which they run.
    pub fn iter(&self) -> (r: &Vec<PatchesInPass>)
        ensures
            *r == self.0,
    {
        &self.0
    }

    /// The passes with their files, in the order in which they run, to be changed in place.
    pub fn iter_mut(&mut self) -> (r: &mut Vec<PatchesInPass>)
        ensures
            *r == old(self).0,
            final(self).0 == *final(r),
    {
        &mut self.0
    }

    /// The index at which the pass stands or would stand.
    fn find_pass(&self, pass: &Pass) -> (r: usize)
        ensures
            r == pass_place(self@, pass@),
    {
        let mut i: usize = 0;
        while i < self.0.len()
            invariant
                i <= self.0@.len(),
                forall|j: int| 0 <= j < i ==> pass_lt((#[trigger] self@[j]).pass, pass@),
            decreases self.0@.len() - i,
        {
            if !self.0[i].0.runs_before(pass) {
                proof {
                    lemma_pass_place_is(self@, pass@, i as int);
                }
                return i;
            }
            i = i + 1;
        }
        proof {
            lemma_pass_place_is(self@, pass@, i as int);
        }
        i
    }

    /// Makes sure that the set has an entry for the pass, and says where it stands.
    pub fn touch(&mut self, pass: Pass) -> (r: usize)
        ensures
            final(self)@ == set_touch(old(self)@, pass@),
            r == pass_place(old(self)@, pass@),
            r < final(self).0@.len(),
            final(self)@[r as int].pass == pass@,
            set_sorted(old(self)@) ==> set_sorted(final(self)@),
    {
        let at = self.find_pass(&pass);
        proof {
            lemma_pass_place(self@, pass@);
            if set_sorted(self@) {
                lemma_set_touch_sorted(self@, pass@);
            }
        }
        if at < self.0.len() && self.0[at].0 == pass {
            at
        } else {
            self.0.insert(at, (pass, Vec::new()));
            proof {
                assert(files_model(Seq::<File<Vec<NodePatch>>>::empty()) =~= Seq::<FileModel>::empty());
                assert(self@ =~= set_touch(old(self)@, pass@));
            }
            at
        }
    }

    /// Adds a patch for the pass and the file at `path`.
    pub fn add(&mut self, pass: Pass, path: &str, patch: NodePatch)
        ensures
            final(self)@ == set_add(old(self)@, pass@, path@, patch@),
            set_sorted(old(self)@) ==> set_sorted(final(self)@),
    {
        proof {
            if set_sorted(self@) {
                lemma_set_add_sorted(self@, pass@, path@, patch@);
            }
        }
        let at = self.touch(pass);
        let ghost touched = self@;
        add_to_files(&mut self.0[at].1, path, patch);
        proof {
            assert(self@ =~= set_add(old(self)@, pass@, path@, patch@));
        }
    }
}

} // verus!
