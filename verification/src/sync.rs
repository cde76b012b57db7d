//! The cache synchronizer: what one pass over the two trees deletes and what
//! it generates.
//!
//! The pass itself touches no file system. It is given a listing of the
//! identity tree and a listing of the artifact tree, and it answers with a
//! plan. Whoever carries the plan out removes the listed directories with all
//! they hold, removes the listed files, and writes the compressed artifact of
//! every listed identity file.

use crate::naming::{
    is_skipped, parse_artifact, path_difference, relative_to, skipped, CompressedArtifact,
    CompressedArtifactView, GenerationSpec, GenerationSpecView, NameError,
};
use crate::text::{chars_of, same_text, starts_with};
use vstd::prelude::*;
use vstd::string::StrSliceExecFns;

verus! {

/// A listing of the identity tree in the mathematical model.
pub struct IdentityTreeView {
    pub dirs: Seq<Seq<char>>,
    pub files: Seq<GenerationSpecView>,
}

/// Whether the identity file `f` is the one that the artifact `a` was made
/// from: the paths agree, and so do the hashes where `a` carries one.
pub open spec fn is_source_of(f: GenerationSpecView, a: CompressedArtifactView) -> bool {
    &&& f.identity_file == a.source_identity_path
    &&& a.hash_suffix is Some ==> f.hash == a.hash_suffix
}

/// Whether `path` lies inside the directory `dir`, at any depth.
pub open spec fn inside(dir: Seq<char>, path: Seq<char>) -> bool {
    (dir + seq!['/']).is_prefix_of(path)
}

/// What the artifact tree holds at a path, seen from the identity tree.
pub enum ArtifactStatus {
    /// The path is no artifact name. Such a file is reported and left alone.
    Malformed(NameError),
    /// No identity file is the source of this artifact. It is deleted.
    Stale,
    /// The artifact of the identity file at the path given.
    Current(Seq<char>),
}

impl IdentityTreeView {
    /// Whether the tree has a directory at `path`. The root is the empty path.
    pub open spec fn has_dir(self, path: Seq<char>) -> bool {
        path.len() == 0 || self.dirs.contains(path)
    }

    /// Whether some file of the tree is the source of `a`.
    pub open spec fn holds_source_of(self, a: CompressedArtifactView) -> bool {
        exists|i: int| 0 <= i < self.files.len() && is_source_of(#[trigger] self.files[i], a)
    }

    /// What a file of the artifact tree at `path` is to this tree.
    pub open spec fn status(self, path: Seq<char>) -> ArtifactStatus {
        match parse_artifact(path) {
            Err(e) => ArtifactStatus::Malformed(e),
            Ok(a) => if self.holds_source_of(a) {
                ArtifactStatus::Current(a.source_identity_path)
            } else {
                ArtifactStatus::Stale
            },
        }
    }

    /// Whether the listing describes a tree: every file is well-formed, no
    /// two files share a path, and every directory above a file is listed.
    pub open spec fn wf(self) -> bool {
        &&& forall|i: int| 0 <= i < self.files.len() ==> (#[trigger] self.files[i]).wf()
        &&& forall|i: int, j: int|
            #![trigger self.files[i], self.files[j]]
            0 <= i < self.files.len() && 0 <= j < self.files.len() && i != j
                ==> self.files[i].identity_file != self.files[j].identity_file
        &&& forall|i: int, d: Seq<char>|
            0 <= i < self.files.len() && #[trigger] inside(d, self.files[i].identity_file)
                ==> self.has_dir(d)
    }

    /// Whether the naming rule can be inverted on every file that gets an
    /// artifact.
    pub open spec fn invertible(self) -> bool {
        forall|i: int|
            0 <= i < self.files.len() && !is_skipped((#[trigger] self.files[i]).identity_file)
                ==> self.files[i].invertible()
    }
}

/// A listing of the identity tree: its directories below the root, and its
/// files with their content hashes.
#[derive(Clone, Debug, PartialEq, Eq)]
pub struct IdentityTree {
    pub dirs: Vec<String>,
    pub files: Vec<GenerationSpec>,
}

impl View for IdentityTree {
    type V = IdentityTreeView;

    open spec fn view(&self) -> IdentityTreeView {
        IdentityTreeView { dirs: self.dirs.deep_view(), files: self.files.deep_view() }
    }
}

/// An entry of the artifact tree in the mathematical model.
pub struct ArtifactEntryView {
    pub path: Seq<char>,
    pub is_dir: bool,
}

/// An entry of the artifact tree: a directory or a file, at a path relative
/// to the root of the tree.
#[derive(Clone, Debug, PartialEq, Eq)]
pub struct ArtifactEntry {
    pub path: String,
    pub is_dir: bool,
}

impl View for ArtifactEntry {
    type V = ArtifactEntryView;

    open spec fn view(&self) -> ArtifactEntryView {
        ArtifactEntryView { path: self.path@, is_dir: self.is_dir }
    }
}

impl DeepView for ArtifactEntry {
    type V = ArtifactEntryView;

    open spec fn deep_view(&self) -> ArtifactEntryView {
        self@
    }
}

/// A plan in the mathematical model.
pub struct SyncPlanView {
    pub delete_dirs: Seq<Seq<char>>,
    pub delete_files: Seq<Seq<char>>,
    pub malformed: Seq<Seq<char>>,
    pub generate: Seq<GenerationSpecView>,
}

/// What one synchronization pass does to the artifact tree.
#[derive(Clone, Debug, PartialEq, Eq)]
pub struct SyncPlan {
    /// Directories to remove with all they hold.
    pub delete_dirs: Vec<String>,
    /// Files to remove.
    pub delete_files: Vec<String>,
    /// Files that are no artifacts by their name; they are left untouched.
    pub malformed: Vec<String>,
    /// Identity files whose artifact is to be written.
    pub generate: Vec<GenerationSpec>,
}

impl View for SyncPlan {
    type V = SyncPlanView;

    open spec fn view(&self) -> SyncPlanView {
        SyncPlanView {
            delete_dirs: self.delete_dirs.deep_view(),
            delete_files: self.delete_files.deep_view(),
            malformed: self.malformed.deep_view(),
            generate: self.generate.deep_view(),
        }
    }
}

/// Picks the directories of the artifact tree that the identity tree does
/// not mirror.
pub open spec fn orphan_dir(tree: IdentityTreeView) -> spec_fn(ArtifactEntryView) -> Option<
    Seq<char>,
> {
    |e: ArtifactEntryView|
        if e.is_dir && !tree.has_dir(e.path) {
            Some(e.path)
        } else {
            None
        }
}

/// Picks the files of the artifact tree that are stale.
pub open spec fn stale_file(tree: IdentityTreeView) -> spec_fn(ArtifactEntryView) -> Option<
    Seq<char>,
> {
    |e: ArtifactEntryView|
        if !e.is_dir && tree.status(e.path) is Stale {
            Some(e.path)
        } else {
            None
        }
}

/// Picks the files of the artifact tree whose name is no artifact name.
pub open spec fn malformed_file() -> spec_fn(ArtifactEntryView) -> Option<Seq<char>> {
    |e: ArtifactEntryView|
        if !e.is_dir && parse_artifact(e.path) is Err {
            Some(e.path)
        } else {
            None
        }
}

/// Picks, for each current artifact, the path of its identity file.
pub open spec fn current_source(tree: IdentityTreeView) -> spec_fn(ArtifactEntryView) -> Option<
    Seq<char>,
> {
    |e: ArtifactEntryView|
        if e.is_dir {
            None
        } else {
            match tree.status(e.path) {
                ArtifactStatus::Current(source) => Some(source),
                _ => None,
            }
        }
}

/// The paths of the identity files that have a current artifact already.
pub open spec fn satisfied(tree: IdentityTreeView, artifacts: Seq<ArtifactEntryView>) -> Seq<
    Seq<char>,
> {
    artifacts.filter_map(current_source(tree))
}

/// Picks the identity files whose artifact has to be written: those that are
/// not skipped and whose path is not among `done`.
pub open spec fn pending(done: Seq<Seq<char>>) -> spec_fn(GenerationSpecView) -> Option<
    GenerationSpecView,
> {
    |f: GenerationSpecView|
        if !is_skipped(f.identity_file) && !done.contains(f.identity_file) {
            Some(f)
        } else {
            None
        }
}

/// The directories of the artifact tree that the identity tree does not
/// mirror.
pub open spec fn orphans(tree: IdentityTreeView, artifacts: Seq<ArtifactEntryView>) -> Seq<
    Seq<char>,
> {
    artifacts.filter_map(orphan_dir(tree))
}

/// The identity files whose artifact is written.
pub open spec fn written(tree: IdentityTreeView, artifacts: Seq<ArtifactEntryView>) -> Seq<
    GenerationSpecView,
> {
    tree.files.filter_map(pending(satisfied(tree, artifacts)))
}

/// Whether `path` lies inside one of the directories `dirs`.
pub open spec fn below_one_of(dirs: Seq<Seq<char>>, path: Seq<char>) -> bool {
    exists|i: int| 0 <= i < dirs.len() && inside(#[trigger] dirs[i], path)
}

/// Whether one of `files` lies inside the directory `dir`, at any depth.
pub open spec fn holds_one_of(dir: Seq<char>, files: Seq<Seq<char>>) -> bool {
    exists|i: int| 0 <= i < files.len() && inside(dir, #[trigger] files[i])
}

/// Picks the files of the artifact tree that are not stale.
pub open spec fn fresh_file(tree: IdentityTreeView) -> spec_fn(ArtifactEntryView) -> Option<
    Seq<char>,
> {
    |e: ArtifactEntryView|
        if !e.is_dir && !(tree.status(e.path) is Stale) {
            Some(e.path)
        } else {
            None
        }
}

/// Picks the paths that lie inside none of the directories `dirs`.
pub open spec fn outside(dirs: Seq<Seq<char>>) -> spec_fn(Seq<char>) -> Option<Seq<char>> {
    |path: Seq<char>|
        if below_one_of(dirs, path) {
            None
        } else {
            Some(path)
        }
}

/// The artifact path of an identity file.
pub open spec fn target_of() -> spec_fn(GenerationSpecView) -> Seq<char> {
    |g: GenerationSpecView| g.target()
}

/// The files that the artifact tree holds after the pass: those that were
/// there, are not stale and lie in no directory without a mirror, and those
/// that are written.
pub open spec fn remaining(tree: IdentityTreeView, artifacts: Seq<ArtifactEntryView>) -> Seq<
    Seq<char>,
> {
    artifacts.filter_map(fresh_file(tree)).filter_map(outside(orphans(tree, artifacts)))
        + written(tree, artifacts).map_values(target_of())
}

/// Picks the directories that the pass removes. The root, which is the empty
/// path, always stays. A directory below it goes where the identity tree
/// does not mirror it, or where none of the files `left` lies inside it.
pub open spec fn doomed_dir(tree: IdentityTreeView, left: Seq<Seq<char>>) -> spec_fn(
    ArtifactEntryView,
) -> Option<Seq<char>> {
    |e: ArtifactEntryView|
        if e.is_dir && e.path.len() > 0 && (!tree.has_dir(e.path) || !holds_one_of(e.path, left)) {
            Some(e.path)
        } else {
            None
        }
}

/// The plan of one pass over the identity tree `tree` and the artifact tree
/// listed in `artifacts`. Each list keeps the order of the listing it is
/// drawn from.
///
/// A directory is removed where the identity tree does not mirror it, and
/// where the pass leaves no file inside it. A file is removed where it is
/// stale. The artifact of an identity file is written where the file is not
/// skipped and no current artifact of it is listed.
pub open spec fn plan_of(
    tree: IdentityTreeView,
    artifacts: Seq<ArtifactEntryView>,
) -> SyncPlanView {
    SyncPlanView {
        delete_dirs: artifacts.filter_map(doomed_dir(tree, remaining(tree, artifacts))),
        delete_files: artifacts.filter_map(stale_file(tree)),
        malformed: artifacts.filter_map(malformed_file()),
        generate: written(tree, artifacts),
    }
}

impl ArtifactEntry {
    /// The entry for the directory or the file at `path`.
    pub fn new(path: String, is_dir: bool) -> (e: ArtifactEntry)
        ensures
            e@ == (ArtifactEntryView { path: path@, is_dir }),
    {
        ArtifactEntry { path, is_dir }
    }

    /// The entry for what was found at `path` in the tree rooted at `root`,
    /// under its path relative to the root; `None` where there is no such
    /// path.
    pub fn locate(path: &str, root: &str, is_dir: bool) -> (r: Option<ArtifactEntry>)
        ensures
            match r {
                Some(e) => path_difference(path@, root@) == Some(e@.path) && e.is_dir == is_dir,
                None => path_difference(path@, root@) is None,
            },
    {
        match relative_to(path, root) {
            Some(relative) => Some(ArtifactEntry::new(relative, is_dir)),
            None => None,
        }
    }
}

/// Whether `path` is among `paths`.
fn among(paths: &Vec<String>, path: &str) -> (r: bool)
    ensures
        r == paths.deep_view().contains(path@),
{
    let mut i: usize = 0;
    while i < paths.len()
        invariant
            i <= paths.len(),
            forall|j: int| 0 <= j < i ==> paths.deep_view()[j] != path@,
        decreases paths.len() - i,
    {
        if same_text(paths[i].as_str(), path) {
            assert(paths.deep_view()[i as int] == path@);
            return true;
        }
        i = i + 1;
    }
    false
}

/// Whether `path` lies inside the directory `dir`, at any depth.
pub fn is_inside(dir: &str, path: &str) -> (r: bool)
    ensures
        r == inside(dir@, path@),
{
    let d = chars_of(dir);
    let p = chars_of(path);
    if d.len() >= p.len() {
        return false;
    }
    let ghost lead = dir@ + seq!['/'];
    if !starts_with(&p, &d) {
        proof {
            if inside(dir@, path@) {
                assert(path@.subrange(0, d.len() as int) =~= path@.subrange(
                    0,
                    lead.len() as int,
                ).subrange(0, d.len() as int));
                assert(lead.subrange(0, d.len() as int) =~= dir@);
            }
        }
        return false;
    }
    proof {
        if p[d.len() as int] == '/' {
            assert(lead =~= path@.subrange(0, lead.len() as int));
        } else {
            assert(lead[d.len() as int] == '/');
            if inside(dir@, path@) {
                assert(path@.subrange(0, lead.len() as int)[d.len() as int]
                    == path@[d.len() as int]);
            }
        }
    }
    p[d.len()] == '/'
}

/// Whether `path` lies inside one of the directories `dirs`.
fn lies_below(dirs: &Vec<String>, path: &str) -> (r: bool)
    ensures
        r == below_one_of(dirs.deep_view(), path@),
{
    let mut i: usize = 0;
    while i < dirs.len()
        invariant
            i <= dirs.len(),
            forall|j: int| 0 <= j < i ==> !inside(#[trigger] dirs.deep_view()[j], path@),
        decreases dirs.len() - i,
    {
        if is_inside(dirs[i].as_str(), path) {
            assert(inside(dirs.deep_view()[i as int], path@));
            return true;
        }
        i = i + 1;
    }
    false
}

/// Whether one of `files` lies inside the directory `dir`.
fn holds_file(dir: &str, files: &Vec<String>) -> (r: bool)
    ensures
        r == holds_one_of(dir@, files.deep_view()),
{
    let mut i: usize = 0;
    while i < files.len()
        invariant
            i <= files.len(),
            forall|j: int| 0 <= j < i ==> !inside(dir@, #[trigger] files.deep_view()[j]),
        decreases files.len() - i,
    {
        if is_inside(dir, files[i].as_str()) {
            assert(inside(dir@, files.deep_view()[i as int]));
            return true;
        }
        i = i + 1;
    }
    false
}

/// A copy of `g`.
fn copy_of(g: &GenerationSpec) -> (r: GenerationSpec)
    ensures
        r@ == g@,
{
    GenerationSpec {
        identity_file: g.identity_file.clone(),
        hash: match &g.hash {
            Some(h) => Some(h.clone()),
            None => None,
        },
    }
}

impl IdentityTree {
    /// Whether the tree has a directory at `path`. The root is the empty path.
    pub fn has_dir(&self, path: &str) -> (r: bool)
        ensures
            r == self@.has_dir(path@),
    {
        let chars = crate::text::chars_of(path);
        chars.len() == 0 || among(&self.dirs, path)
    }

    /// Whether every directory above the file `path` is listed.
    fn lists_ancestors_of(&self, path: &str) -> (r: bool)
        ensures
            r == (forall|d: Seq<char>| #[trigger] inside(d, path@) ==> self@.has_dir(d)),
    {
        let chars = chars_of(path);
        let mut i: usize = 0;
        while i < chars.len()
            invariant
                i <= chars.len(),
                chars@ == path@,
                forall|d: Seq<char>|
                    d.len() < i && #[trigger] inside(d, path@) ==> self@.has_dir(d),
            decreases chars.len() - i,
        {
            if chars[i] == '/' {
                let dir = path.substring_char(0, i);
                proof {
                    assert((dir@ + seq!['/']) =~= path@.subrange(0, i + 1));
                    assert(inside(dir@, path@));
                }
                if !self.has_dir(dir) {
                    return false;
                }
            }
            proof {
                assert forall|d: Seq<char>| d.len() < i + 1 && #[trigger] inside(
                    d,
                    path@,
                ) implies self@.has_dir(d) by {
                    if d.len() == i {
                        let lead = d + seq!['/'];
                        assert(path@.subrange(0, lead.len() as int)[i as int] == lead[i as int]);
                        assert(d =~= path@.subrange(0, i as int));
                    }
                }
            }
            i = i + 1;
        }
        proof {
            assert forall|d: Seq<char>| #[trigger] inside(d, path@) implies self@.has_dir(d) by {
                assert(d.len() < chars.len());
            }
        }
        true
    }

    /// Whether no file after number `i` has the path of file number `i`.
    fn path_is_unique_after(&self, i: usize) -> (r: bool)
        requires
            i < self.files.len(),
        ensures
            r == (forall|j: int|
                i < j < self@.files.len() ==> (#[trigger] self@.files[j]).identity_file
                    != self@.files[i as int].identity_file),
    {
        let mut j: usize = i + 1;
        while j < self.files.len()
            invariant
                i < j <= self.files.len(),
                forall|k: int|
                    i < k < j ==> (#[trigger] self@.files[k]).identity_file
                        != self@.files[i as int].identity_file,
            decreases self.files.len() - j,
        {
            assert(self@.files[j as int] == self.files[j as int]@);
            assert(self@.files[i as int] == self.files[i as int]@);
            let path = self.files[i].identity_file.as_str();
            if same_text(self.files[j].identity_file.as_str(), path) {
                return false;
            }
            j = j + 1;
        }
        true
    }

    /// Whether the listing describes a tree: every file is well-formed, no
    /// two files share a path, and every directory above a file is listed.
    pub fn is_well_formed(&self) -> (r: bool)
        ensures
            r == self@.wf(),
    {
        let mut i: usize = 0;
        while i < self.files.len()
            invariant
                i <= self.files.len(),
                forall|k: int| 0 <= k < i ==> (#[trigger] self@.files[k]).wf(),
                forall|k: int, j: int|
                    #![trigger self@.files[k], self@.files[j]]
                    0 <= k < i && k < j < self@.files.len() ==> self@.files[k].identity_file
                        != self@.files[j].identity_file,
                forall|k: int, d: Seq<char>|
                    0 <= k < i && #[trigger] inside(d, self@.files[k].identity_file)
                        ==> self@.has_dir(d),
            decreases self.files.len() - i,
        {
            let f = &self.files[i];
            assert(self@.files[i as int] == f@);
            if !f.is_wf() {
                return false;
            }
            if !self.path_is_unique_after(i) {
                let ghost j = choose|j: int|
                    i < j < self@.files.len() && (#[trigger] self@.files[j]).identity_file
                        == self@.files[i as int].identity_file;
                assert(self@.files[i as int].identity_file == self@.files[j].identity_file);
                return false;
            }
            if !self.lists_ancestors_of(f.identity_file.as_str()) {
                return false;
            }
            i = i + 1;
        }
        proof {
            assert forall|k: int, j: int|
                #![trigger self@.files[k], self@.files[j]]
                0 <= k < self@.files.len() && 0 <= j < self@.files.len() && k
                    != j implies self@.files[k].identity_file != self@.files[j].identity_file by {
                if j < k {
                    assert(self@.files[j].identity_file != self@.files[k].identity_file);
                }
            }
        }
        true
    }

    /// Whether the naming rule can be inverted on every file that gets an
    /// artifact.
    pub fn is_invertible(&self) -> (r: bool)
        ensures
            r == self@.invertible(),
    {
        let mut i: usize = 0;
        while i < self.files.len()
            invariant
                i <= self.files.len(),
                forall|k: int|
                    0 <= k < i && !is_skipped((#[trigger] self@.files[k]).identity_file)
                        ==> self@.files[k].invertible(),
            decreases self.files.len() - i,
        {
            let f = &self.files[i];
            assert(self@.files[i as int] == f@);
            if !skipped(f.identity_file.as_str()) && !f.is_invertible() {
                return false;
            }
            i = i + 1;
        }
        true
    }

    /// Whether some file of the tree is the source of `artifact`.
    pub fn holds_source_of(&self, artifact: &CompressedArtifact) -> (r: bool)
        ensures
            r == self@.holds_source_of(artifact@),
    {
        let mut i: usize = 0;
        while i < self.files.len()
            invariant
                i <= self.files.len(),
                forall|j: int| 0 <= j < i ==> !is_source_of(self@.files[j], artifact@),
            decreases self.files.len() - i,
        {
            let f = &self.files[i];
            assert(self@.files[i as int] == f@);
            if same_text(f.identity_file.as_str(), artifact.source_identity_path.as_str()) {
                let agree = match (&artifact.hash_suffix, &f.hash) {
                    (None, _) => true,
                    (Some(a), Some(b)) => same_text(a.as_str(), b.as_str()),
                    (Some(_), None) => false,
                };
                if agree {
                    assert(is_source_of(self@.files[i as int], artifact@));
                    return true;
                }
            }
            i = i + 1;
        }
        false
    }
}

/// Plans one synchronization pass: which directories and files of the
/// artifact tree are deleted, which files are left alone as malformed, and
/// which identity files get their artifact written.
pub fn plan_sync(tree: &IdentityTree, artifacts: &Vec<ArtifactEntry>) -> (plan: SyncPlan)
    ensures
        plan@ == plan_of(tree@, artifacts.deep_view()),
{
    let ghost entries = artifacts.deep_view();
    let mut unmirrored: Vec<String> = Vec::new();
    let mut delete_files: Vec<String> = Vec::new();
    let mut malformed: Vec<String> = Vec::new();
    let mut fresh: Vec<String> = Vec::new();
    let mut done: Vec<String> = Vec::new();
    let mut i: usize = 0;
    while i < artifacts.len()
        invariant
            i <= artifacts.len(),
            entries == artifacts.deep_view(),
            unmirrored.deep_view() == entries.take(i as int).filter_map(orphan_dir(tree@)),
            delete_files.deep_view() == entries.take(i as int).filter_map(stale_file(tree@)),
            malformed.deep_view() == entries.take(i as int).filter_map(malformed_file()),
            fresh.deep_view() == entries.take(i as int).filter_map(fresh_file(tree@)),
            done.deep_view() == entries.take(i as int).filter_map(current_source(tree@)),
        decreases artifacts.len() - i,
    {
        let entry = &artifacts[i];
        let ghost dirs0 = unmirrored.deep_view();
        let ghost files0 = delete_files.deep_view();
        let ghost malformed0 = malformed.deep_view();
        let ghost fresh0 = fresh.deep_view();
        let ghost done0 = done.deep_view();
        proof {
            assert(entries[i as int] == entry@);
            entries.lemma_filter_map_take_succ(orphan_dir(tree@), i as int);
            entries.lemma_filter_map_take_succ(stale_file(tree@), i as int);
            entries.lemma_filter_map_take_succ(malformed_file(), i as int);
            entries.lemma_filter_map_take_succ(fresh_file(tree@), i as int);
            entries.lemma_filter_map_take_succ(current_source(tree@), i as int);
        }
        if entry.is_dir {
            if !tree.has_dir(entry.path.as_str()) {
                unmirrored.push(entry.path.clone());
                assert(unmirrored.deep_view() =~= dirs0 + seq![entry@.path]);
            }
        } else {
            match CompressedArtifact::parse(entry.path.as_str()) {
                Err(_) => {
                    malformed.push(entry.path.clone());
                    assert(malformed.deep_view() =~= malformed0 + seq![entry@.path]);
                    fresh.push(entry.path.clone());
                    assert(fresh.deep_view() =~= fresh0 + seq![entry@.path]);
                },
                Ok(artifact) => {
                    if tree.holds_source_of(&artifact) {
                        done.push(artifact.source_identity_path);
                        assert(done.deep_view() =~= done0 + seq![
                            artifact@.source_identity_path,
                        ]);
                        fresh.push(entry.path.clone());
                        assert(fresh.deep_view() =~= fresh0 + seq![entry@.path]);
                    } else {
                        delete_files.push(entry.path.clone());
                        assert(delete_files.deep_view() =~= files0 + seq![entry@.path]);
                    }
                },
            }
        }
        assert(unmirrored.deep_view() =~= entries.take(i + 1).filter_map(orphan_dir(tree@)));
        assert(delete_files.deep_view() =~= entries.take(i + 1).filter_map(stale_file(tree@)));
        assert(malformed.deep_view() =~= entries.take(i + 1).filter_map(malformed_file()));
        assert(fresh.deep_view() =~= entries.take(i + 1).filter_map(fresh_file(tree@)));
        assert(done.deep_view() =~= entries.take(i + 1).filter_map(current_source(tree@)));
        i = i + 1;
    }
    assert(entries.take(i as int) =~= entries);

    let ghost files = tree@.files;
    let ghost keep = pending(done.deep_view());
    let mut generate: Vec<GenerationSpec> = Vec::new();
    let mut left: Vec<String> = Vec::new();
    let mut k: usize = 0;
    assert(files.take(0).filter_map(keep).map_values(target_of()) =~= Seq::<Seq<char>>::empty());
    while k < tree.files.len()
        invariant
            k <= tree.files.len(),
            files == tree@.files,
            keep == pending(done.deep_view()),
            generate.deep_view() == files.take(k as int).filter_map(keep),
            left.deep_view() == generate.deep_view().map_values(target_of()),
        decreases tree.files.len() - k,
    {
        let f = &tree.files[k];
        let ghost generate0 = generate.deep_view();
        let ghost left0 = left.deep_view();
        proof {
            assert(files[k as int] == f@);
            files.lemma_filter_map_take_succ(keep, k as int);
        }
        if !skipped(f.identity_file.as_str()) && !among(&done, f.identity_file.as_str()) {
            generate.push(copy_of(f));
            assert(generate.deep_view() =~= generate0 + seq![f@]);
            left.push(f.to_target());
            assert(left.deep_view() =~= left0.push(f@.target()));
            assert(left.deep_view() =~= generate.deep_view().map_values(target_of()));
        }
        assert(generate.deep_view() =~= files.take(k + 1).filter_map(keep));
        k = k + 1;
    }
    assert(files.take(k as int) =~= files);

    let ghost away = outside(unmirrored.deep_view());
    let ghost was = fresh.deep_view();
    let ghost new = left.deep_view();
    let mut kept: Vec<String> = Vec::new();
    let mut n: usize = 0;
    while n < fresh.len()
        invariant
            n <= fresh.len(),
            was == fresh.deep_view(),
            away == outside(unmirrored.deep_view()),
            kept.deep_view() == was.take(n as int).filter_map(away),
        decreases fresh.len() - n,
    {
        let ghost kept0 = kept.deep_view();
        proof {
            was.lemma_filter_map_take_succ(away, n as int);
        }
        if !lies_below(&unmirrored, fresh[n].as_str()) {
            kept.push(fresh[n].clone());
            assert(kept.deep_view() =~= kept0 + seq![was[n as int]]);
        }
        assert(kept.deep_view() =~= was.take(n + 1).filter_map(away));
        n = n + 1;
    }
    assert(was.take(n as int) =~= was);
    let ghost kept_view = kept.deep_view();
    kept.append(&mut left);
    assert(kept.deep_view() =~= kept_view + new);
    assert(kept.deep_view() == remaining(tree@, entries));

    let ghost doomed = doomed_dir(tree@, kept.deep_view());
    let mut delete_dirs: Vec<String> = Vec::new();
    let mut m: usize = 0;
    while m < artifacts.len()
        invariant
            m <= artifacts.len(),
            entries == artifacts.deep_view(),
            doomed == doomed_dir(tree@, kept.deep_view()),
            delete_dirs.deep_view() == entries.take(m as int).filter_map(doomed),
        decreases artifacts.len() - m,
    {
        let entry = &artifacts[m];
        let ghost dirs0 = delete_dirs.deep_view();
        proof {
            assert(entries[m as int] == entry@);
            entries.lemma_filter_map_take_succ(doomed, m as int);
        }
        if entry.is_dir && chars_of(entry.path.as_str()).len() > 0 && (!tree.has_dir(
            entry.path.as_str(),
        ) || !holds_file(entry.path.as_str(), &kept)) {
            delete_dirs.push(entry.path.clone());
            assert(delete_dirs.deep_view() =~= dirs0 + seq![entry@.path]);
        }
        assert(delete_dirs.deep_view() =~= entries.take(m + 1).filter_map(doomed));
        m = m + 1;
    }
    assert(entries.take(m as int) =~= entries);
    SyncPlan { delete_dirs, delete_files, malformed, generate }
}

} // verus!
