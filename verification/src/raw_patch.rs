//! The parsed documents, and how the patch set is made of them.

use vstd::prelude::*;
use crate::document::{Document, NodeItem};
use crate::file::File;
use crate::node_patch::{patch_of, NodePatch, NodePatchModel};
use crate::pass::{pass_of, Pass, PassModel};
use crate::patch_set::{
    has_pass, lemma_pass_found, lemma_pass_place, lemma_set_add_lookup, lemma_set_add_no_empty,
    lemma_set_add_sorted, lemma_set_touch_lookup, no_empty_files, pass_place, patches_in, set_add,
    set_sorted, PassPatches, PatchSet,
};
use crate::{internal_error, ErrorModel, PatchingError};

verus! {

/// The parsed documents of all files, in the order in which they were read.
#[derive(Debug, Default)]
pub struct RawPatches {
    pub files: Vec<File<Document>>,
}

/// A statement at the top level of a file is a key. That is not allowed.
pub open spec fn has_top_level_key(files: Seq<File<Document>>) -> bool {
    exists|i: int, j: int|
        0 <= i < files.len() && 0 <= j < files[i].contents.statements@.len() && (
        #[trigger] files[i].contents.statements@[j]) is KeyVal
}

/// The set with the patches of the first `n` statements of a file added:
/// each node is a patch for the pass that it is tagged with.
pub open spec fn add_statements(set: Seq<PassPatches>, path: Seq<char>, statements: Seq<NodeItem>, n: int) -> Seq<
    PassPatches,
>
    decreases n,
{
    if n <= 0 || n > statements.len() {
        set
    } else {
        let before = add_statements(set, path, statements, n - 1);
        match statements[n - 1] {
            NodeItem::Node(node) => set_add(before, pass_of(node.pass), path, patch_of(node, true)),
            _ => before,
        }
    }
}

/// The set with the patches of the first `n` files added.
pub open spec fn add_files(set: Seq<PassPatches>, files: Seq<File<Document>>, n: int) -> Seq<PassPatches>
    decreases n,
{
    if n <= 0 || n > files.len() {
        set
    } else {
        add_statements(
            add_files(set, files, n - 1),
            files[n - 1].path@,
            files[n - 1].contents.statements@,
            files[n - 1].contents.statements@.len() as int,
        )
    }
}

/// Adding the patches of a file keeps the set in order.
pub proof fn lemma_add_statements_sorted(set: Seq<PassPatches>, path: Seq<char>, statements: Seq<NodeItem>, n: int)
    requires
        set_sorted(set),
    ensures
        set_sorted(add_statements(set, path, statements, n)),
    decreases n,
{
    if 0 < n <= statements.len() {
        lemma_add_statements_sorted(set, path, statements, n - 1);
        match statements[n - 1] {
            NodeItem::Node(node) => {
                lemma_set_add_sorted(
                    add_statements(set, path, statements, n - 1),
                    pass_of(node.pass),
                    path,
                    patch_of(node, true),
                );
            },
            _ => {},
        }
    }
}

/// Whether the statement is a node tagged with the pass.
pub open spec fn is_tagged(statement: NodeItem, pass: PassModel) -> bool {
    statement matches NodeItem::Node(node) && pass_of(node.pass) == pass
}

/// Whether one of the first `n` statements is a node tagged with the pass.
pub open spec fn tagged_in(statements: Seq<NodeItem>, n: int, pass: PassModel) -> bool {
    exists|j: int| 0 <= j < n && j < statements.len() && is_tagged(#[trigger] statements[j], pass)
}

/// Whether one of the first `n` files holds a top-level node tagged with the pass.
pub open spec fn tagged(files: Seq<File<Document>>, n: int, pass: PassModel) -> bool {
    exists|i: int|
        0 <= i < n && i < files.len() && tagged_in(
            (#[trigger] files[i]).contents.statements@,
            files[i].contents.statements@.len() as int,
            pass,
        )
}

/// The patches of the nodes tagged with the pass among the first `n`
/// statements, in the order of the statements.
pub open spec fn collected_in(statements: Seq<NodeItem>, n: int, pass: PassModel) -> Seq<NodePatchModel>
    decreases n,
{
    if n <= 0 || n > statements.len() {
        Seq::empty()
    } else {
        let before = collected_in(statements, n - 1, pass);
        match statements[n - 1] {
            NodeItem::Node(node) => if pass_of(node.pass) == pass {
                before.push(patch_of(node, true))
            } else {
                before
            },
            _ => before,
        }
    }
}

/// The patches of the top-level nodes tagged with the pass in those of the
/// first `n` files that have the given path, in the order of the files and,
/// within a file, of the statements.
pub open spec fn collected(files: Seq<File<Document>>, n: int, pass: PassModel, path: Seq<char>) -> Seq<
    NodePatchModel,
>
    decreases n,
{
    if n <= 0 || n > files.len() {
        Seq::empty()
    } else if files[n - 1].path@ == path {
        collected(files, n - 1, pass, path) + collected_in(
            files[n - 1].contents.statements@,
            files[n - 1].contents.statements@.len() as int,
            pass,
        )
    } else {
        collected(files, n - 1, pass, path)
    }
}

/// What the set holds after the patches of a file were added.
pub proof fn lemma_add_statements_lookup(
    set: Seq<PassPatches>,
    path: Seq<char>,
    statements: Seq<NodeItem>,
    n: int,
    pass: PassModel,
    other: Seq<char>,
)
    requires
        set_sorted(set),
        no_empty_files(set),
        0 <= n <= statements.len(),
    ensures
        set_sorted(add_statements(set, path, statements, n)),
        no_empty_files(add_statements(set, path, statements, n)),
        patches_in(add_statements(set, path, statements, n), pass, other) == if other == path {
            patches_in(set, pass, path) + collected_in(statements, n, pass)
        } else {
            patches_in(set, pass, other)
        },
        has_pass(add_statements(set, path, statements, n), pass) == (has_pass(set, pass) || tagged_in(
            statements,
            n,
            pass,
        )),
    decreases n,
{
    if n > 0 {
        lemma_add_statements_lookup(set, path, statements, n - 1, pass, other);
        let before = add_statements(set, path, statements, n - 1);
        match statements[n - 1] {
            NodeItem::Node(node) => {
                lemma_set_add_sorted(before, pass_of(node.pass), path, patch_of(node, true));
                lemma_set_add_no_empty(before, pass_of(node.pass), path, patch_of(node, true));
                lemma_set_add_lookup(before, pass_of(node.pass), path, patch_of(node, true), pass, other);
                if other == path && pass_of(node.pass) == pass {
                    assert((patches_in(set, pass, path) + collected_in(statements, n - 1, pass)).push(
                        patch_of(node, true),
                    ) =~= patches_in(set, pass, path) + collected_in(statements, n, pass));
                }
                if pass_of(node.pass) == pass {
                    assert(is_tagged(statements[n - 1], pass));
                }
            },
            _ => {},
        }
        if tagged_in(statements, n, pass) && !tagged_in(statements, n - 1, pass) {
            let j = choose|j: int| 0 <= j < n && j < statements.len() && is_tagged(#[trigger] statements[j], pass);
            assert(j == n - 1);
        }
        if tagged_in(statements, n - 1, pass) {
            let j = choose|j: int| 0 <= j < n - 1 && j < statements.len() && is_tagged(#[trigger] statements[j], pass);
            assert(is_tagged(statements[j], pass));
        }
    } else {
        assert(patches_in(set, pass, path) + collected_in(statements, n, pass) =~= patches_in(set, pass, path));
    }
}

/// What the set holds after the patches of the first `n` files were added.
pub proof fn lemma_add_files_lookup(
    set: Seq<PassPatches>,
    files: Seq<File<Document>>,
    n: int,
    pass: PassModel,
    path: Seq<char>,
)
    requires
        set_sorted(set),
        no_empty_files(set),
        0 <= n <= files.len(),
    ensures
        set_sorted(add_files(set, files, n)),
        no_empty_files(add_files(set, files, n)),
        has_pass(add_files(set, files, n), pass) == (has_pass(set, pass) || tagged(files, n, pass)),
        patches_in(add_files(set, files, n), pass, path) == patches_in(set, pass, path) + collected(
            files,
            n,
            pass,
            path,
        ),
    decreases n,
{
    if n > 0 {
        lemma_add_files_lookup(set, files, n - 1, pass, path);
        let statements = files[n - 1].contents.statements@;
        lemma_add_statements_lookup(
            add_files(set, files, n - 1),
            files[n - 1].path@,
            statements,
            statements.len() as int,
            pass,
            path,
        );
        if tagged(files, n, pass) && !tagged(files, n - 1, pass) {
            let i = choose|i: int|
                0 <= i < n && i < files.len() && tagged_in(
                    (#[trigger] files[i]).contents.statements@,
                    files[i].contents.statements@.len() as int,
                    pass,
                );
            assert(i == n - 1);
        }
        if tagged(files, n - 1, pass) {
            let i = choose|i: int|
                0 <= i < n - 1 && i < files.len() && tagged_in(
                    (#[trigger] files[i]).contents.statements@,
                    files[i].contents.statements@.len() as int,
                    pass,
                );
            assert(tagged_in(files[i].contents.statements@, files[i].contents.statements@.len() as int, pass));
        }
        if tagged_in(statements, statements.len() as int, pass) {
            assert(tagged_in(
                files[n - 1].contents.statements@,
                files[n - 1].contents.statements@.len() as int,
                pass,
            ));
        }
        if files[n - 1].path@ == path {
            assert((patches_in(set, pass, path) + collected(files, n - 1, pass, path)) + collected_in(
                statements,
                statements.len() as int,
                pass,
            ) =~= patches_in(set, pass, path) + collected(files, n, pass, path));
        }
    } else {
        assert(patches_in(set, pass, path) + collected(files, n, pass, path) =~= patches_in(set, pass, path));
    }
}

/// Whether `set` is the patch set of the files. It is in order: each pass
/// once, in the order in which the passes run, and under each pass each file
/// once, in the order of the paths. It has an entry for the default pass and
/// for every pass that a top-level node is tagged with, and for no other.
/// For a pass and a path it holds the patches of the top-level nodes with
/// that tag in the files with that path, in the order in which they stand;
/// a file has an entry under a pass only if it holds such a node.
pub open spec fn is_patch_set_of(set: Seq<PassPatches>, files: Seq<File<Document>>) -> bool {
    &&& set_sorted(set)
    &&& no_empty_files(set)
    &&& forall|pass: PassModel| #[trigger]
        has_pass(set, pass) == (pass is Default || tagged(files, files.len() as int, pass))
    &&& forall|pass: PassModel, path: Seq<char>| #[trigger]
        patches_in(set, pass, path) == collected(files, files.len() as int, pass, path)
}

/// The files have one patch set only.
pub proof fn lemma_patch_set_unique(a: Seq<PassPatches>, b: Seq<PassPatches>, files: Seq<File<Document>>)
    requires
        is_patch_set_of(a, files),
        is_patch_set_of(b, files),
    ensures
        a == b,
{
    assert forall|pass: PassModel| #[trigger] has_pass(a, pass) == has_pass(b, pass) by {
        assert(has_pass(a, pass) == (pass is Default || tagged(files, files.len() as int, pass)));
        assert(has_pass(b, pass) == (pass is Default || tagged(files, files.len() as int, pass)));
    }
    assert forall|pass: PassModel, path: Seq<char>| #[trigger]
        patches_in(a, pass, path) == patches_in(b, pass, path) by {
        assert(patches_in(a, pass, path) == collected(files, files.len() as int, pass, path));
        assert(patches_in(b, pass, path) == collected(files, files.len() as int, pass, path));
    }
    crate::patch_set::lemma_set_unique(a, b);
}

/// The passes stand in the strict order in which they run.
pub open spec fn passes_sorted(passes: Seq<Pass>) -> bool {
    forall|i: int, j: int| 0 <= i < j < passes.len() ==> crate::pass::pass_lt(passes[i]@, passes[j]@)
}

/// Whether the list holds the pass.
pub open spec fn lists_pass(passes: Seq<Pass>, pass: PassModel) -> bool {
    exists|i: int| 0 <= i < passes.len() && (#[trigger] passes[i])@ == pass
}

impl RawPatches {
    /// The passes that the top-level nodes are tagged with, each once, in
    /// the order in which the passes run. A key at the top level of a file is
    /// an internal error.
    pub fn extract_passes(&self) -> (r: Result<Vec<Pass>, PatchingError>)
        ensures
            match r {
                Ok(passes) => {
                    &&& !has_top_level_key(self.files@)
                    &&& passes_sorted(passes@)
                    &&& forall|pass: PassModel| #[trigger]
                        lists_pass(passes@, pass) == tagged(self.files@, self.files@.len() as int, pass)
                },
                Err(e) => e@ is Internal && has_top_level_key(self.files@),
            },
    {
        let mut set = PatchSet::default();
        let ghost files = self.files@;
        let mut i: usize = 0;
        while i < self.files.len()
            invariant
                i <= files.len(),
                files == self.files@,
                forall|k: int, j: int|
                    0 <= k < i && 0 <= j < files[k].contents.statements@.len() ==> !((
                    #[trigger] files[k].contents.statements@[j]) is KeyVal),
                set_sorted(set@),
                forall|pass: PassModel| #[trigger] has_pass(set@, pass) == tagged(files, i as int, pass),
            decreases files.len() - i,
        {
            let statements = &self.files[i].contents.statements;
            let ghost entered = set@;
            let mut j: usize = 0;
            while j < statements.len()
                invariant
                    i < files.len(),
                    j <= statements@.len(),
                    files == self.files@,
                    statements@ == files[i as int].contents.statements@,
                    forall|k: int| 0 <= k < j ==> !((#[trigger] statements@[k]) is KeyVal),
                    set_sorted(set@),
                    forall|pass: PassModel| #[trigger]
                        has_pass(set@, pass) == (tagged(files, i as int, pass) || tagged_in(
                            statements@,
                            j as int,
                            pass,
                        )),
                decreases statements@.len() - j,
            {
                let ghost before = set@;
                match &statements[j] {
                    NodeItem::Node(node) => {
                        let pass = Pass::from(node.pass.clone());
                        let _ = set.touch(pass);
                        proof {
                            assert forall|other: PassModel| #[trigger]
                                has_pass(set@, other) == (tagged(files, i as int, other) || tagged_in(
                                    statements@,
                                    j + 1,
                                    other,
                                )) by {
                                lemma_set_touch_lookup(before, pass_of(node.pass), other);
                                lemma_tagged_in_step(statements@, j as int, other);
                            }
                        }
                    },
                    NodeItem::KeyVal(_) => {
                        assert(files[i as int].contents.statements@[j as int] is KeyVal);
                        return internal_error("top-level keys are illegal");
                    },
                    _ => {
                        proof {
                            assert forall|other: PassModel| #[trigger]
                                has_pass(set@, other) == (tagged(files, i as int, other) || tagged_in(
                                    statements@,
                                    j + 1,
                                    other,
                                )) by {
                                lemma_tagged_in_step(statements@, j as int, other);
                            }
                        }
                    },
                }
                j = j + 1;
            }
            proof {
                assert forall|pass: PassModel| #[trigger]
                    has_pass(set@, pass) == tagged(files, i + 1, pass) by {
                    lemma_tagged_step(files, i as int, pass);
                }
            }
            i = i + 1;
        }
        let mut passes: Vec<Pass> = Vec::new();
        let mut set = set;
        let ghost model = set@;
        let n = set.0.len();
        let mut k: usize = 0;
        while k < n
            invariant
                k <= n,
                n == set.0@.len(),
                n == model.len(),
                passes@.len() == k,
                forall|m: int| 0 <= m < k ==> (#[trigger] passes@[m])@ == model[m].pass,
                forall|m: int| k <= m < n ==> (#[trigger] set.0@[m]).0@ == model[m].pass,
            decreases n - k,
        {
            let mut entry: (Pass, Vec<File<Vec<NodePatch>>>) = (Pass::Default, Vec::new());
            core::mem::swap(&mut set.0[k], &mut entry);
            passes.push(entry.0);
            k = k + 1;
        }
        proof {
            assert forall|pass: PassModel| #[trigger]
                lists_pass(passes@, pass) == tagged(files, files.len() as int, pass) by {
                lemma_pass_place(model, pass);
                if lists_pass(passes@, pass) {
                    let m = choose|m: int| 0 <= m < passes@.len() && (#[trigger] passes@[m])@ == pass;
                    lemma_pass_found(model, m);
                }
                if has_pass(model, pass) {
                    assert(passes@[pass_place(model, pass)]@ == pass);
                }
            }
        }
        Ok(passes)
    }

    /// Makes the patch set of the documents. Every top-level node becomes
    /// a patch for the pass that it is tagged with and for its file; the
    /// default pass is there in any case. A key at the top level of a file
    /// is an internal error.
    pub fn extract(self) -> (r: Result<PatchSet, PatchingError>)
        ensures
            match r {
                Ok(set) => !has_top_level_key(self.files@) && is_patch_set_of(set@, self.files@),
                Err(e) => e@ is Internal && has_top_level_key(self.files@),
            },
    {
        let referenced_passes = match self.extract_passes() {
            Ok(passes) => passes,
            Err(e) => {
                return Err(e);
            },
        };
        let ghost listed = referenced_passes@;
        let mut referenced_passes = referenced_passes;
        referenced_passes.push(Pass::Default);
        let ghost referenced = referenced_passes@;
        let mut set = PatchSet::default();
        let seeds = referenced_passes.len();
        let mut s: usize = 0;
        proof {
            assert(no_empty_files(set@));
            assert(set_sorted(set@));
            assert forall|pass: PassModel| !#[trigger] has_pass(set@, pass) by {
                lemma_pass_place(set@, pass);
            }
        }
        while s < seeds
            invariant
                s <= seeds,
                seeds == referenced.len(),
                referenced_passes@.len() == seeds,
                forall|m: int| s <= m < seeds ==> referenced_passes@[m] == referenced[m],
                set_sorted(set@),
                forall|m: int| 0 <= m < set@.len() ==> (#[trigger] set@[m]).files.len() == 0,
                forall|pass: PassModel| #[trigger]
                    has_pass(set@, pass) == exists|m: int| 0 <= m < s && (#[trigger] referenced[m])@ == pass,
            decreases seeds - s,
        {
            let mut pass = Pass::Default;
            core::mem::swap(&mut referenced_passes[s], &mut pass);
            let ghost before = set@;
            let ghost wanted = pass@;
            let at = set.touch(pass);
            proof {
                lemma_pass_place(before, wanted);
                assert forall|m: int| 0 <= m < set@.len() implies (#[trigger] set@[m]).files.len() == 0 by {
                    if has_pass(before, wanted) {
                    } else if m != at {
                        let om = if m < at { m } else { m - 1 };
                        assert(set@[m] == before[om]);
                    }
                }
                assert forall|other: PassModel| #[trigger]
                    has_pass(set@, other) == exists|m: int| 0 <= m < s + 1 && (#[trigger] referenced[m])@ == other by {
                    lemma_set_touch_lookup(before, wanted, other);
                    if exists|m: int| 0 <= m < s + 1 && (#[trigger] referenced[m])@ == other {
                        let m = choose|m: int| 0 <= m < s + 1 && (#[trigger] referenced[m])@ == other;
                        if m < s {
                            assert(has_pass(before, other));
                        }
                    }
                    if has_pass(before, other) {
                        let m = choose|m: int| 0 <= m < s && (#[trigger] referenced[m])@ == other;
                        assert(referenced[m]@ == other);
                    }
                    if other == wanted {
                        assert(referenced[s as int]@ == other);
                    }
                }
            }
            s = s + 1;
        }
        let mut files = self.files;
        let ghost orig = files@;
        let ghost start = set@;
        proof {
            assert(no_empty_files(start));
            assert forall|pass: PassModel| #[trigger]
                has_pass(start, pass) == (pass is Default || tagged(orig, orig.len() as int, pass)) by {
                assert(lists_pass(listed, pass) == tagged(orig, orig.len() as int, pass));
                if has_pass(start, pass) {
                    let m = choose|m: int| 0 <= m < seeds && (#[trigger] referenced[m])@ == pass;
                    if m < seeds - 1 {
                        assert(listed[m]@ == pass);
                    }
                }
                if tagged(orig, orig.len() as int, pass) {
                    let m = choose|m: int| 0 <= m < listed.len() && (#[trigger] listed[m])@ == pass;
                    assert(referenced[m]@ == pass);
                }
                if pass is Default {
                    assert(referenced[seeds - 1]@ == pass);
                }
            }
            assert forall|pass: PassModel, path: Seq<char>| #[trigger]
                patches_in(start, pass, path) == Seq::<NodePatchModel>::empty() by {
                lemma_pass_place(start, pass);
                if has_pass(start, pass) {
                    assert(start[pass_place(start, pass)].files.len() == 0);
                }
                assert(patches_in(start, pass, path) =~= Seq::<NodePatchModel>::empty());
            }
        }
        let mut i: usize = 0;
        while i < files.len()
            invariant
                i <= files@.len(),
                orig == self.files@,
                files@.len() == orig.len(),
                forall|k: int| i <= k < files@.len() ==> files@[k] == orig[k],
                set@ == add_files(start, orig, i as int),
                set_sorted(start),
                set_sorted(set@),
            decreases files@.len() - i,
        {
            let ghost statements = orig[i as int].contents.statements@;
            let ghost path = orig[i as int].path@;
            let ghost entered = set@;
            let count = files[i].contents.statements.len();
            let mut j: usize = 0;
            while j < count
                invariant
                    i < files@.len(),
                    j <= count,
                    count == statements.len(),
                    orig == self.files@,
                    files@.len() == orig.len(),
                    statements == orig[i as int].contents.statements@,
                    path == orig[i as int].path@,
                    files@[i as int].path == orig[i as int].path,
                    files@[i as int].contents.statements@.len() == count,
                    forall|k: int| i < k < files@.len() ==> files@[k] == orig[k],
                    forall|k: int| j <= k < count ==> files@[i as int].contents.statements@[k] == statements[k],
                    set@ == add_statements(entered, path, statements, j as int),
                    set_sorted(entered),
                    set_sorted(set@),
                decreases count - j,
            {
                let mut item = NodeItem::EmptyLine;
                core::mem::swap(&mut files[i].contents.statements[j], &mut item);
                assert(item == statements[j as int]);
                match item {
                    NodeItem::Node(node) => {
                        let pass = Pass::from(node.pass.clone());
                        match NodePatch::from_cst(node, true) {
                            Ok(patch) => {
                                proof {
                                    lemma_add_statements_sorted(entered, path, statements, j + 1);
                                }
                                set.add(pass, files[i].path.as_str(), patch);
                            },
                            Err(e) => {
                                return Err(e);
                            },
                        }
                    },
                    NodeItem::KeyVal(_) => {
                        assert(orig[i as int].contents.statements@[j as int] is KeyVal);
                        return internal_error("top-level keys are illegal");
                    },
                    NodeItem::Comment(_) => {},
                    NodeItem::EmptyLine => {},
                }
                j = j + 1;
            }
            i = i + 1;
        }
        proof {
            let total = orig.len() as int;
            assert forall|pass: PassModel| #[trigger]
                has_pass(set@, pass) == (pass is Default || tagged(orig, total, pass)) by {
                lemma_add_files_lookup(start, orig, total, pass, Seq::empty());
            }
            assert forall|pass: PassModel, path: Seq<char>| #[trigger]
                patches_in(set@, pass, path) == collected(orig, total, pass, path) by {
                lemma_add_files_lookup(start, orig, total, pass, path);
                assert(patches_in(start, pass, path) == Seq::<NodePatchModel>::empty());
                assert(Seq::<NodePatchModel>::empty() + collected(orig, total, pass, path) =~= collected(
                    orig,
                    total,
                    pass,
                    path,
                ));
            }
            lemma_add_files_lookup(start, orig, total, PassModel::Default, Seq::empty());
        }
        Ok(set)
    }
}

/// One more statement is tagged if it is, or if one before it was.
pub proof fn lemma_tagged_in_step(statements: Seq<NodeItem>, j: int, pass: PassModel)
    requires
        0 <= j < statements.len(),
    ensures
        tagged_in(statements, j + 1, pass) == (tagged_in(statements, j, pass) || is_tagged(statements[j], pass)),
{
    if tagged_in(statements, j + 1, pass) {
        let w = choose|w: int| 0 <= w < j + 1 && w < statements.len() && is_tagged(#[trigger] statements[w], pass);
        if w < j {
            assert(is_tagged(statements[w], pass));
        }
    }
    if tagged_in(statements, j, pass) {
        let w = choose|w: int| 0 <= w < j && w < statements.len() && is_tagged(#[trigger] statements[w], pass);
        assert(is_tagged(statements[w], pass));
    }
    if is_tagged(statements[j], pass) {
        assert(tagged_in(statements, j + 1, pass));
    }
}

/// One more file holds a tagged node if it does, or if one before it did.
pub proof fn lemma_tagged_step(files: Seq<File<Document>>, i: int, pass: PassModel)
    requires
        0 <= i < files.len(),
    ensures
        tagged(files, i + 1, pass) == (tagged(files, i, pass) || tagged_in(
            files[i].contents.statements@,
            files[i].contents.statements@.len() as int,
            pass,
        )),
{
    if tagged(files, i + 1, pass) {
        let w = choose|w: int|
            0 <= w < i + 1 && w < files.len() && tagged_in(
                (#[trigger] files[w]).contents.statements@,
                files[w].contents.statements@.len() as int,
                pass,
            );
        if w < i {
            assert(tagged_in(files[w].contents.statements@, files[w].contents.statements@.len() as int, pass));
        }
    }
    if tagged(files, i, pass) {
        let w = choose|w: int|
            0 <= w < i && w < files.len() && tagged_in(
                (#[trigger] files[w]).contents.statements@,
                files[w].contents.statements@.len() as int,
                pass,
            );
        assert(tagged_in(files[w].contents.statements@, files[w].contents.statements@.len() as int, pass));
    }
    if tagged_in(files[i].contents.statements@, files[i].contents.statements@.len() as int, pass) {
        assert(tagged(files, i + 1, pass));
    }
}

} // verus!
