//! What carrying out a plan does to the artifact tree, and what the
//! synchronizer guarantees of the tree that results.
//!
//! The artifact tree is modelled as two sets of paths, its directories and its
//! files. Carrying out a plan removes the listed directories with all that
//! lies inside them, removes the listed files, and then writes the artifact of
//! each listed identity file, creating the directories above it.

use crate::digest::is_hex;
use crate::naming::{
    asset_target, br_suffix, file_name_of, is_asset_path, is_skipped, lemma_asset_by_parent,
    lemma_hex_is_plain, lemma_last_index_append, lemma_path_parts, lemma_rename,
    lemma_target_round_trip, name_start, parent_of, parse_artifact, CompressedArtifactView,
    GenerationSpecView, NameError,
};
use crate::sync::{
    below_one_of, current_source, doomed_dir, fresh_file, holds_one_of, inside, is_source_of,
    malformed_file, orphan_dir, orphans, outside, pending, plan_of, remaining, satisfied,
    stale_file, target_of, written, ArtifactEntryView, ArtifactStatus, IdentityTreeView,
    SyncPlanView,
};
use crate::text::{free_of, lemma_last_index_joint};
use vstd::prelude::*;

verus! {

/// The artifact tree: the paths of its directories and of its files.
pub struct ArtifactTree {
    pub dirs: Set<Seq<char>>,
    pub files: Set<Seq<char>>,
}

/// The tree that a listing describes.
pub open spec fn tree_of(listing: Seq<ArtifactEntryView>) -> ArtifactTree {
    ArtifactTree {
        dirs: Set::new(
            |d: Seq<char>| listing.contains(ArtifactEntryView { path: d, is_dir: true }),
        ),
        files: Set::new(
            |p: Seq<char>| listing.contains(ArtifactEntryView { path: p, is_dir: false }),
        ),
    }
}

impl SyncPlanView {
    /// Whether the plan removes the directory `dir`: it is listed, or lies
    /// inside a listed directory.
    pub open spec fn removes_dir(self, dir: Seq<char>) -> bool {
        exists|i: int|
            0 <= i < self.delete_dirs.len() && (#[trigger] self.delete_dirs[i] == dir || inside(
                self.delete_dirs[i],
                dir,
            ))
    }

    /// Whether the plan removes the file `path`: it is listed, or lies inside
    /// a listed directory.
    pub open spec fn removes_file(self, path: Seq<char>) -> bool {
        self.delete_files.contains(path) || exists|i: int|
            0 <= i < self.delete_dirs.len() && inside(#[trigger] self.delete_dirs[i], path)
    }

    /// Whether the plan writes a file at `path`.
    pub open spec fn writes(self, path: Seq<char>) -> bool {
        exists|i: int|
            0 <= i < self.generate.len() && (#[trigger] self.generate[i]).target() == path
    }

    /// Whether the plan creates the directory `dir` on the way to a file it
    /// writes.
    pub open spec fn creates_dir(self, dir: Seq<char>) -> bool {
        exists|i: int|
            0 <= i < self.generate.len() && inside(dir, (#[trigger] self.generate[i]).target())
    }

    /// The artifact tree after the plan was carried out on `tree`.
    pub open spec fn carried_out(self, tree: ArtifactTree) -> ArtifactTree {
        ArtifactTree {
            dirs: Set::new(
                |d: Seq<char>|
                    (tree.dirs.contains(d) && !self.removes_dir(d)) || self.creates_dir(d),
            ),
            files: Set::new(
                |p: Seq<char>| (tree.files.contains(p) && !self.removes_file(p)) || self.writes(p),
            ),
        }
    }

    /// Whether the plan leaves the artifact tree as it is.
    pub open spec fn is_quiet(self) -> bool {
        &&& self.delete_dirs.len() == 0
        &&& self.delete_files.len() == 0
        &&& self.generate.len() == 0
    }
}

impl IdentityTreeView {
    /// Whether the artifact tree `artifacts` corresponds to this identity
    /// tree: every file that is not skipped has its artifact; every file of
    /// the artifact tree with an artifact name is the artifact of a file of
    /// this tree, under the naming rule; every directory mirrors one of this
    /// tree; and every directory below the root holds a file, at some depth.
    pub open spec fn in_step_with(self, artifacts: ArtifactTree) -> bool {
        &&& forall|i: int|
            0 <= i < self.files.len() && !is_skipped((#[trigger] self.files[i]).identity_file)
                ==> artifacts.files.contains(self.files[i].target())
        &&& forall|p: Seq<char>| #[trigger]
            artifacts.files.contains(p) ==> match self.status(p) {
                ArtifactStatus::Malformed(_) => true,
                ArtifactStatus::Stale => false,
                ArtifactStatus::Current(source) => exists|i: int|
                    0 <= i < self.files.len() && (#[trigger] self.files[i]).identity_file == source
                        && self.files[i].target() == p,
            }
        &&& forall|d: Seq<char>| #[trigger] artifacts.dirs.contains(d) ==> self.has_dir(d)
        &&& forall|d: Seq<char>| #[trigger]
            artifacts.dirs.contains(d) && d.len() > 0 ==> exists|p: Seq<char>|
                artifacts.files.contains(p) && #[trigger] inside(d, p)
    }
}

/// An element is among the results of `filter_map` exactly if it is the
/// result for some element of the sequence.
proof fn lemma_filter_map_member<A, B>(s: Seq<A>, f: spec_fn(A) -> Option<B>, x: B)
    ensures
        s.filter_map(f).contains(x) <==> exists|i: int|
            0 <= i < s.len() && f(#[trigger] s[i]) == Some(x),
    decreases s.len(),
{
    if s.len() > 0 {
        let rest = s.drop_last();
        lemma_filter_map_member(rest, f, x);
        let out = s.filter_map(f);
        let head = rest.filter_map(f);
        if out.contains(x) {
            let j = choose|j: int| 0 <= j < out.len() && out[j] == x;
            if j < head.len() {
                assert(head[j] == x);
                assert(head.contains(x));
                let i = choose|i: int| 0 <= i < rest.len() && f(#[trigger] rest[i]) == Some(x);
                assert(s[i] == rest[i]);
            } else {
                assert(f(s[s.len() - 1]) == Some(x));
            }
        }
        if exists|i: int| 0 <= i < s.len() && f(#[trigger] s[i]) == Some(x) {
            let i = choose|i: int| 0 <= i < s.len() && f(#[trigger] s[i]) == Some(x);
            if i < rest.len() {
                assert(rest[i] == s[i]);
                assert(head.contains(x));
                let j = choose|j: int| 0 <= j < head.len() && head[j] == x;
                assert(out[j] == x);
            } else {
                assert(out[out.len() - 1] == x);
            }
        }
    }
}

/// A file is left by the pass exactly if it was there, is not stale and lies
/// in no directory without a mirror, or if it is written.
proof fn lemma_remaining_member(
    tree: IdentityTreeView,
    listing: Seq<ArtifactEntryView>,
    p: Seq<char>,
)
    ensures
        remaining(tree, listing).contains(p) <==> ((listing.contains(
            ArtifactEntryView { path: p, is_dir: false },
        ) && !(tree.status(p) is Stale) && !below_one_of(orphans(tree, listing), p)) || plan_of(
            tree,
            listing,
        ).writes(p)),
{
    let orph = orphans(tree, listing);
    let fresh = listing.filter_map(fresh_file(tree));
    let kept = fresh.filter_map(outside(orph));
    let gen = written(tree, listing);
    let targets = gen.map_values(target_of());
    let rem = kept + targets;
    let e = ArtifactEntryView { path: p, is_dir: false };
    lemma_filter_map_member(listing, fresh_file(tree), p);
    lemma_filter_map_member(fresh, outside(orph), p);
    if fresh.contains(p) {
        let i = choose|i: int|
            0 <= i < listing.len() && fresh_file(tree)(#[trigger] listing[i]) == Some(p);
        assert(listing[i] == e);
    }
    if listing.contains(e) && !(tree.status(p) is Stale) {
        let i = choose|i: int| 0 <= i < listing.len() && listing[i] == e;
        assert(fresh_file(tree)(listing[i]) == Some(p));
    }
    if kept.contains(p) {
        let i = choose|i: int|
            0 <= i < fresh.len() && outside(orph)(#[trigger] fresh[i]) == Some(p);
        assert(fresh[i] == p);
    }
    if fresh.contains(p) && !below_one_of(orph, p) {
        let i = choose|i: int| 0 <= i < fresh.len() && fresh[i] == p;
        assert(outside(orph)(fresh[i]) == Some(p));
    }
    assert(plan_of(tree, listing).generate == gen);
    if targets.contains(p) {
        let j = choose|j: int| 0 <= j < targets.len() && targets[j] == p;
        assert(targets[j] == target_of()(gen[j]));
        assert(gen[j].target() == p);
        assert(plan_of(tree, listing).writes(p));
    }
    if plan_of(tree, listing).writes(p) {
        let j = choose|j: int| 0 <= j < gen.len() && (#[trigger] gen[j]).target() == p;
        assert(targets[j] == target_of()(gen[j]));
        assert(targets[j] == p);
        assert(targets.contains(p));
    }
    if rem.contains(p) {
        let j = choose|j: int| 0 <= j < rem.len() && rem[j] == p;
        if j < kept.len() {
            assert(kept[j] == p);
        } else {
            assert(targets[j - kept.len()] == p);
        }
    }
    if kept.contains(p) {
        let j = choose|j: int| 0 <= j < kept.len() && kept[j] == p;
        assert(rem[j] == p);
    }
    if targets.contains(p) {
        let j = choose|j: int| 0 <= j < targets.len() && targets[j] == p;
        assert(rem[kept.len() + j] == p);
    }
}

/// What each list of a plan holds.
pub proof fn lemma_plan_members(tree: IdentityTreeView, listing: Seq<ArtifactEntryView>)
    ensures
        forall|d: Seq<char>| #[trigger]
            orphans(tree, listing).contains(d) <==> (!tree.has_dir(d) && listing.contains(
                ArtifactEntryView { path: d, is_dir: true },
            )),
        forall|p: Seq<char>| #[trigger]
            remaining(tree, listing).contains(p) <==> ((listing.contains(
                ArtifactEntryView { path: p, is_dir: false },
            ) && !(tree.status(p) is Stale) && !below_one_of(orphans(tree, listing), p))
                || plan_of(tree, listing).writes(p)),
        forall|d: Seq<char>| #[trigger]
            plan_of(tree, listing).delete_dirs.contains(d) <==> (listing.contains(
                ArtifactEntryView { path: d, is_dir: true },
            ) && d.len() > 0 && (!tree.has_dir(d) || !holds_one_of(d, remaining(tree, listing)))),
        forall|p: Seq<char>| #[trigger]
            plan_of(tree, listing).delete_files.contains(p) <==> (tree.status(p) is Stale
                && listing.contains(ArtifactEntryView { path: p, is_dir: false })),
        forall|p: Seq<char>| #[trigger]
            plan_of(tree, listing).malformed.contains(p) <==> (parse_artifact(p) is Err
                && listing.contains(ArtifactEntryView { path: p, is_dir: false })),
        forall|s: Seq<char>| #[trigger]
            satisfied(tree, listing).contains(s) <==> exists|i: int|
                0 <= i < listing.len() && !(#[trigger] listing[i]).is_dir && tree.status(
                    listing[i].path,
                ) == ArtifactStatus::Current(s),
        forall|g: GenerationSpecView| #[trigger]
            plan_of(tree, listing).generate.contains(g) <==> (tree.files.contains(g) && !is_skipped(
                g.identity_file,
            ) && !satisfied(tree, listing).contains(g.identity_file)),
{
    assert forall|d: Seq<char>| #[trigger]
        orphans(tree, listing).contains(d) <==> (!tree.has_dir(d) && listing.contains(
            ArtifactEntryView { path: d, is_dir: true },
        )) by {
        lemma_filter_map_member(listing, orphan_dir(tree), d);
        let e = ArtifactEntryView { path: d, is_dir: true };
        if orphans(tree, listing).contains(d) {
            let i = choose|i: int|
                0 <= i < listing.len() && orphan_dir(tree)(#[trigger] listing[i]) == Some(d);
            assert(listing[i] == e);
        }
        if !tree.has_dir(d) && listing.contains(e) {
            let i = choose|i: int| 0 <= i < listing.len() && listing[i] == e;
            assert(orphan_dir(tree)(listing[i]) == Some(d));
        }
    }
    assert forall|p: Seq<char>| #[trigger]
        remaining(tree, listing).contains(p) <==> ((listing.contains(
            ArtifactEntryView { path: p, is_dir: false },
        ) && !(tree.status(p) is Stale) && !below_one_of(orphans(tree, listing), p)) || plan_of(
            tree,
            listing,
        ).writes(p)) by {
        lemma_remaining_member(tree, listing, p);
    }
    let left = remaining(tree, listing);
    assert forall|d: Seq<char>| #[trigger]
        plan_of(tree, listing).delete_dirs.contains(d) <==> (listing.contains(
            ArtifactEntryView { path: d, is_dir: true },
        ) && d.len() > 0 && (!tree.has_dir(d) || !holds_one_of(d, left))) by {
        lemma_filter_map_member(listing, doomed_dir(tree, left), d);
        let e = ArtifactEntryView { path: d, is_dir: true };
        if plan_of(tree, listing).delete_dirs.contains(d) {
            let i = choose|i: int|
                0 <= i < listing.len() && doomed_dir(tree, left)(#[trigger] listing[i]) == Some(d);
            assert(listing[i] == e);
        }
        if listing.contains(e) && d.len() > 0 && (!tree.has_dir(d) || !holds_one_of(d, left)) {
            let i = choose|i: int| 0 <= i < listing.len() && listing[i] == e;
            assert(doomed_dir(tree, left)(listing[i]) == Some(d));
        }
    }
    assert forall|p: Seq<char>| #[trigger]
        plan_of(tree, listing).delete_files.contains(p) <==> (tree.status(p) is Stale
            && listing.contains(ArtifactEntryView { path: p, is_dir: false })) by {
        lemma_filter_map_member(listing, stale_file(tree), p);
        let e = ArtifactEntryView { path: p, is_dir: false };
        if plan_of(tree, listing).delete_files.contains(p) {
            let i = choose|i: int|
                0 <= i < listing.len() && stale_file(tree)(#[trigger] listing[i]) == Some(p);
            assert(listing[i] == e);
        }
        if tree.status(p) is Stale && listing.contains(e) {
            let i = choose|i: int| 0 <= i < listing.len() && listing[i] == e;
            assert(stale_file(tree)(listing[i]) == Some(p));
        }
    }
    assert forall|p: Seq<char>| #[trigger]
        plan_of(tree, listing).malformed.contains(p) <==> (parse_artifact(p) is Err
            && listing.contains(ArtifactEntryView { path: p, is_dir: false })) by {
        lemma_filter_map_member(listing, malformed_file(), p);
        let e = ArtifactEntryView { path: p, is_dir: false };
        if plan_of(tree, listing).malformed.contains(p) {
            let i = choose|i: int|
                0 <= i < listing.len() && malformed_file()(#[trigger] listing[i]) == Some(p);
            assert(listing[i] == e);
        }
        if parse_artifact(p) is Err && listing.contains(e) {
            let i = choose|i: int| 0 <= i < listing.len() && listing[i] == e;
            assert(malformed_file()(listing[i]) == Some(p));
        }
    }
    assert forall|s: Seq<char>| #[trigger]
        satisfied(tree, listing).contains(s) <==> exists|i: int|
            0 <= i < listing.len() && !(#[trigger] listing[i]).is_dir && tree.status(
                listing[i].path,
            ) == ArtifactStatus::Current(s) by {
        lemma_filter_map_member(listing, current_source(tree), s);
        if satisfied(tree, listing).contains(s) {
            let i = choose|i: int|
                0 <= i < listing.len() && current_source(tree)(#[trigger] listing[i]) == Some(s);
            assert(!listing[i].is_dir && tree.status(listing[i].path) == ArtifactStatus::Current(
                s,
            ));
        }
        if exists|i: int|
            0 <= i < listing.len() && !(#[trigger] listing[i]).is_dir && tree.status(
                listing[i].path,
            ) == ArtifactStatus::Current(s) {
            let i = choose|i: int|
                0 <= i < listing.len() && !(#[trigger] listing[i]).is_dir && tree.status(
                    listing[i].path,
                ) == ArtifactStatus::Current(s);
            assert(current_source(tree)(listing[i]) == Some(s));
        }
    }
    let done = satisfied(tree, listing);
    assert forall|g: GenerationSpecView| #[trigger]
        plan_of(tree, listing).generate.contains(g) <==> (tree.files.contains(g) && !is_skipped(
            g.identity_file,
        ) && !done.contains(g.identity_file)) by {
        lemma_filter_map_member(tree.files, pending(done), g);
        if plan_of(tree, listing).generate.contains(g) {
            let i = choose|i: int|
                0 <= i < tree.files.len() && pending(done)(#[trigger] tree.files[i]) == Some(g);
            assert(tree.files[i] == g);
        }
        if tree.files.contains(g) && !is_skipped(g.identity_file) && !done.contains(
            g.identity_file,
        ) {
            let i = choose|i: int| 0 <= i < tree.files.len() && tree.files[i] == g;
            assert(pending(done)(tree.files[i]) == Some(g));
        }
    }
}

/// A path lies inside `dir` exactly if its parent does, or is `dir` itself
/// with its closing `/`.
proof fn lemma_inside_by_parent(dir: Seq<char>, path: Seq<char>)
    ensures
        inside(dir, path) <==> (dir + seq!['/']).is_prefix_of(parent_of(path)),
{
    lemma_path_parts(path);
    let lead = dir + seq!['/'];
    let parent = parent_of(path);
    if inside(dir, path) {
        assert(path.subrange(0, lead.len() as int)[dir.len() as int] == '/');
        assert(path[dir.len() as int] == '/');
        path.index_of_last_ensures('/');
        assert(path.contains('/'));
        assert(name_start(path) >= lead.len());
        assert(parent.subrange(0, lead.len() as int) =~= path.subrange(0, lead.len() as int));
    }
    if lead.is_prefix_of(parent) {
        assert(path.subrange(0, lead.len() as int) =~= parent.subrange(0, lead.len() as int));
    }
}

/// The artifact of a well-formed identity file lies in the directory that
/// mirrors the file's own.
proof fn lemma_target_parent(g: GenerationSpecView)
    requires
        g.wf(),
    ensures
        parent_of(g.target()) == parent_of(g.identity_file),
{
    let p = g.identity_file;
    lemma_path_parts(p);
    match g.hash {
        None => {
            assert(free_of(br_suffix(), '/'));
            lemma_last_index_append(p, br_suffix(), '/');
            assert(parent_of(g.target()) =~= parent_of(p));
        },
        Some(h) => {
            lemma_hex_is_plain(h);
            let name = file_name_of(p);
            let (stem, ext) = match name.index_of_last('.') {
                Some(d) => (name.take(d), name.skip(d + 1)),
                None => (Seq::<char>::empty(), name),
            };
            let new_name = stem + seq!['-'] + h + seq!['.'] + ext + br_suffix();
            assert(g.target() =~= parent_of(p) + new_name);
            name.index_of_last_ensures('.');
            assert forall|i: int| 0 <= i < ext.len() implies ext[i] != '/' by {
                if name.index_of_last('.') is Some {
                    assert(ext[i] == name[name.index_of_last('.').unwrap() + 1 + i]);
                }
            }
            assert forall|i: int| 0 <= i < stem.len() implies stem[i] != '/' by {
                assert(stem[i] == name[i]);
            }
            assert(free_of(new_name, '/'));
            lemma_rename(p, new_name);
        },
    }
}

/// The artifact of a file of the tree is current.
pub proof fn lemma_target_is_current(tree: IdentityTreeView, k: int)
    requires
        tree.wf(),
        0 <= k < tree.files.len(),
        tree.files[k].invertible(),
    ensures
        tree.status(tree.files[k].target()) == ArtifactStatus::Current(tree.files[k].identity_file),
{
    let f = tree.files[k];
    lemma_target_round_trip(f);
    let a = parse_artifact(f.target()).unwrap();
    assert(is_source_of(tree.files[k], a));
}

/// The naming rule written backwards and forwards again: a path that parses
/// as an artifact is the artifact path of the file it names.
#[verifier::rlimit(40)]
pub proof fn lemma_parse_then_target(path: Seq<char>, f: GenerationSpecView)
    requires
        parse_artifact(path) is Ok,
        f.wf(),
        is_source_of(f, parse_artifact(path).unwrap()),
    ensures
        f.target() == path,
{
    let a = parse_artifact(path).unwrap();
    lemma_path_parts(path);
    let name = file_name_of(path);
    let parent = parent_of(path);
    if !is_asset_path(path) {
        let source = path.take(path.len() - 3);
        assert(name.len() >= 3);
        assert(path.skip(path.len() - 3) =~= name.skip(name.len() - 3));
        assert(source + br_suffix() =~= path);
        if is_asset_path(source) {
            assert(path.subrange(0, 7) =~= source.subrange(0, 7));
        }
    } else {
        let stripped = name.take(name.len() - 3);
        stripped.index_of_last_ensures('.');
        let d = stripped.index_of_last('.').unwrap();
        let rest = stripped.take(d);
        let ext = stripped.skip(d + 1);
        rest.index_of_last_ensures('-');
        let k = rest.index_of_last('-').unwrap();
        let stem = rest.take(k);
        let h = rest.skip(k + 1);
        let old_name = stem + seq!['.'] + ext;
        assert forall|i: int| 0 <= i < old_name.len() implies old_name[i] != '/' by {
            if i < stem.len() {
                assert(old_name[i] == name[i]);
            } else if i > stem.len() {
                assert(old_name[i] == name[d + 1 + (i - stem.len() - 1)]);
            }
        }
        lemma_rename(path, old_name);
        assert(a.source_identity_path =~= parent + old_name);
        assert forall|i: int| 0 <= i < ext.len() implies ext[i] != '.' by {
            assert(ext[i] == stripped[d + 1 + i]);
        }
        lemma_last_index_joint(stem, '.', ext);
        assert(name =~= stem + seq!['-'] + h + seq!['.'] + ext + br_suffix());
        assert(asset_target(a.source_identity_path, h) =~= parent + name);
    }
}

/// A current artifact is the artifact of exactly the file it names.
pub proof fn lemma_current_is_target(tree: IdentityTreeView, path: Seq<char>) -> (k: int)
    requires
        tree.wf(),
        tree.status(path) is Current,
    ensures
        0 <= k < tree.files.len(),
        tree.status(path) == ArtifactStatus::Current(tree.files[k].identity_file),
        tree.files[k].target() == path,
{
    let a = parse_artifact(path).unwrap();
    let k = choose|i: int| 0 <= i < tree.files.len() && is_source_of(#[trigger] tree.files[i], a);
    lemma_parse_then_target(path, tree.files[k]);
    k
}

/// A current artifact lies in no directory that the identity tree lacks.
proof fn lemma_current_is_mirrored(tree: IdentityTreeView, path: Seq<char>, dir: Seq<char>)
    requires
        tree.wf(),
        tree.status(path) is Current,
        inside(dir, path),
    ensures
        tree.has_dir(dir),
{
    let k = lemma_current_is_target(tree, path);
    lemma_target_parent(tree.files[k]);
    lemma_inside_by_parent(dir, path);
    lemma_inside_by_parent(dir, tree.files[k].identity_file);
    assert(inside(dir, tree.files[k].identity_file));
}

/// A file that the pass leaves lies in no directory that the pass removes.
proof fn lemma_left_is_not_removed(
    tree: IdentityTreeView,
    listing: Seq<ArtifactEntryView>,
    p: Seq<char>,
)
    requires
        listing.contains(ArtifactEntryView { path: p, is_dir: false }),
        !(tree.status(p) is Stale),
        !below_one_of(orphans(tree, listing), p),
    ensures
        remaining(tree, listing).contains(p),
        !plan_of(tree, listing).removes_file(p),
{
    let plan = plan_of(tree, listing);
    let left = remaining(tree, listing);
    lemma_plan_members(tree, listing);
    assert(left.contains(p));
    let j = choose|j: int| 0 <= j < left.len() && left[j] == p;
    if plan.removes_file(p) {
        assert(!plan.delete_files.contains(p));
        let x = choose|x: int|
            0 <= x < plan.delete_dirs.len() && inside(#[trigger] plan.delete_dirs[x], p);
        let d = plan.delete_dirs[x];
        assert(plan.delete_dirs.contains(d));
        assert(inside(d, left[j]));
        assert(holds_one_of(d, left));
        assert(orphans(tree, listing).contains(d));
        let o = choose|o: int|
            0 <= o < orphans(tree, listing).len() && orphans(tree, listing)[o] == d;
        assert(inside(orphans(tree, listing)[o], p));
    }
}

/// A current artifact that is listed stays where it is.
proof fn lemma_current_stays(
    tree: IdentityTreeView,
    listing: Seq<ArtifactEntryView>,
    p: Seq<char>,
)
    requires
        tree.wf(),
        listing.contains(ArtifactEntryView { path: p, is_dir: false }),
        tree.status(p) is Current,
    ensures
        remaining(tree, listing).contains(p),
        !plan_of(tree, listing).removes_file(p),
{
    let orph = orphans(tree, listing);
    lemma_plan_members(tree, listing);
    if below_one_of(orph, p) {
        let o = choose|o: int| 0 <= o < orph.len() && inside(#[trigger] orph[o], p);
        assert(orph.contains(orph[o]));
        lemma_current_is_mirrored(tree, p, orph[o]);
    }
    lemma_left_is_not_removed(tree, listing, p);
}

/// After one pass the artifact tree corresponds to the identity tree,
/// whatever it held before.
pub proof fn lemma_one_pass_converges(tree: IdentityTreeView, before: Seq<ArtifactEntryView>)
    requires
        tree.wf(),
        tree.invertible(),
    ensures
        tree.in_step_with(plan_of(tree, before).carried_out(tree_of(before))),
{
    let plan = plan_of(tree, before);
    let old_tree = tree_of(before);
    let new_tree = plan.carried_out(old_tree);
    lemma_plan_members(tree, before);
    assert forall|i: int|
        0 <= i < tree.files.len() && !is_skipped(
            (#[trigger] tree.files[i]).identity_file,
        ) implies new_tree.files.contains(tree.files[i].target()) by {
        let f = tree.files[i];
        let target = f.target();
        assert(tree.files.contains(f));
        if plan.generate.contains(f) {
            let j = choose|j: int| 0 <= j < plan.generate.len() && plan.generate[j] == f;
            assert(plan.generate[j].target() == target);
            assert(plan.writes(target));
        } else {
            assert(satisfied(tree, before).contains(f.identity_file));
            let e = choose|e: int|
                0 <= e < before.len() && !(#[trigger] before[e]).is_dir && tree.status(
                    before[e].path,
                ) == ArtifactStatus::Current(f.identity_file);
            let path = before[e].path;
            let k = lemma_current_is_target(tree, path);
            assert(k == i);
            assert(before[e] == ArtifactEntryView { path: target, is_dir: false });
            assert(old_tree.files.contains(target));
            lemma_current_stays(tree, before, target);
        }
    }
    assert forall|p: Seq<char>| #[trigger] new_tree.files.contains(p) implies match tree.status(p) {
        ArtifactStatus::Malformed(_) => true,
        ArtifactStatus::Stale => false,
        ArtifactStatus::Current(source) => exists|i: int|
            0 <= i < tree.files.len() && (#[trigger] tree.files[i]).identity_file == source
                && tree.files[i].target() == p,
    } by {
        if plan.writes(p) {
            let j = choose|j: int|
                0 <= j < plan.generate.len() && (#[trigger] plan.generate[j]).target() == p;
            let g = plan.generate[j];
            assert(plan.generate.contains(g));
            let k = choose|k: int| 0 <= k < tree.files.len() && tree.files[k] == g;
            lemma_target_is_current(tree, k);
        } else {
            assert(old_tree.files.contains(p) && !plan.removes_file(p));
        }
        if tree.status(p) is Current {
            let k = lemma_current_is_target(tree, p);
        }
    }
    assert forall|d: Seq<char>| #[trigger] new_tree.dirs.contains(d) implies tree.has_dir(d) by {
        if plan.creates_dir(d) {
            let j = choose|j: int|
                0 <= j < plan.generate.len() && inside(d, (#[trigger] plan.generate[j]).target());
            let g = plan.generate[j];
            assert(plan.generate.contains(g));
            let k = choose|k: int| 0 <= k < tree.files.len() && tree.files[k] == g;
            lemma_target_parent(g);
            lemma_inside_by_parent(d, g.target());
            lemma_inside_by_parent(d, g.identity_file);
            assert(inside(d, tree.files[k].identity_file));
        } else {
            assert(old_tree.dirs.contains(d) && !plan.removes_dir(d));
            if !tree.has_dir(d) {
                assert(plan.delete_dirs.contains(d));
                let x = choose|x: int| 0 <= x < plan.delete_dirs.len() && plan.delete_dirs[x] == d;
                assert(plan.removes_dir(d));
            }
        }
    }
    let left = remaining(tree, before);
    assert forall|d: Seq<char>| #[trigger]
        new_tree.dirs.contains(d) && d.len() > 0 implies exists|p: Seq<char>|
        new_tree.files.contains(p) && #[trigger] inside(d, p) by {
        if plan.creates_dir(d) {
            let j = choose|j: int|
                0 <= j < plan.generate.len() && inside(d, (#[trigger] plan.generate[j]).target());
            let p = plan.generate[j].target();
            assert(plan.writes(p));
            assert(new_tree.files.contains(p) && inside(d, p));
        } else {
            assert(old_tree.dirs.contains(d) && !plan.removes_dir(d));
            if !plan.delete_dirs.contains(d) {
                assert(holds_one_of(d, left));
                let j = choose|j: int| 0 <= j < left.len() && inside(d, #[trigger] left[j]);
                let p = left[j];
                assert(left.contains(p));
                if !plan.writes(p) {
                    lemma_left_is_not_removed(tree, before, p);
                    assert(old_tree.files.contains(p));
                }
                assert(new_tree.files.contains(p) && inside(d, p));
            } else {
                let x = choose|x: int| 0 <= x < plan.delete_dirs.len() && plan.delete_dirs[x] == d;
                assert(plan.removes_dir(d));
            }
        }
    }
}

/// On an artifact tree that corresponds to the identity tree, a pass deletes
/// nothing and writes nothing.
pub proof fn lemma_in_step_is_quiet(tree: IdentityTreeView, listing: Seq<ArtifactEntryView>)
    requires
        tree.wf(),
        tree.invertible(),
        tree.in_step_with(tree_of(listing)),
    ensures
        plan_of(tree, listing).is_quiet(),
{
    let plan = plan_of(tree, listing);
    let artifacts = tree_of(listing);
    lemma_plan_members(tree, listing);
    if plan.delete_dirs.len() > 0 {
        let d = plan.delete_dirs[0];
        assert(plan.delete_dirs.contains(d));
        assert(artifacts.dirs.contains(d));
        let p = choose|p: Seq<char>| artifacts.files.contains(p) && #[trigger] inside(d, p);
        let orph = orphans(tree, listing);
        if below_one_of(orph, p) {
            let o = choose|o: int| 0 <= o < orph.len() && inside(#[trigger] orph[o], p);
            assert(orph.contains(orph[o]));
            assert(artifacts.dirs.contains(orph[o]));
        }
        let left = remaining(tree, listing);
        assert(left.contains(p));
        let j = choose|j: int| 0 <= j < left.len() && left[j] == p;
        assert(inside(d, left[j]));
    }
    if plan.delete_files.len() > 0 {
        let p = plan.delete_files[0];
        assert(plan.delete_files.contains(p));
        assert(artifacts.files.contains(p));
    }
    if plan.generate.len() > 0 {
        let g = plan.generate[0];
        assert(plan.generate.contains(g));
        let k = choose|k: int| 0 <= k < tree.files.len() && tree.files[k] == g;
        lemma_target_is_current(tree, k);
        let target = tree.files[k].target();
        assert(artifacts.files.contains(target));
        let e = ArtifactEntryView { path: target, is_dir: false };
        let i = choose|i: int| 0 <= i < listing.len() && listing[i] == e;
        assert(!listing[i].is_dir && tree.status(listing[i].path) == ArtifactStatus::Current(
            g.identity_file,
        ));
        assert(satisfied(tree, listing).contains(g.identity_file));
    }
}

/// A second pass over an unchanged identity tree deletes nothing and writes
/// nothing: `after` is any listing of the artifact tree that the first pass
/// left.
pub proof fn lemma_second_pass_is_quiet(
    tree: IdentityTreeView,
    before: Seq<ArtifactEntryView>,
    after: Seq<ArtifactEntryView>,
)
    requires
        tree.wf(),
        tree.invertible(),
        tree_of(after) == plan_of(tree, before).carried_out(tree_of(before)),
    ensures
        plan_of(tree, after).is_quiet(),
{
    lemma_one_pass_converges(tree, before);
    lemma_in_step_is_quiet(tree, after);
}

/// An identity file that is not skipped is written exactly if the artifact
/// tree has no file at its artifact path.
pub proof fn lemma_written_iff_missing(
    tree: IdentityTreeView,
    listing: Seq<ArtifactEntryView>,
    k: int,
)
    requires
        tree.wf(),
        0 <= k < tree.files.len(),
        tree.files[k].invertible(),
        !is_skipped(tree.files[k].identity_file),
    ensures
        plan_of(tree, listing).generate.contains(tree.files[k]) <==> !listing.contains(
            ArtifactEntryView { path: tree.files[k].target(), is_dir: false },
        ),
{
    let f = tree.files[k];
    let e = ArtifactEntryView { path: f.target(), is_dir: false };
    lemma_plan_members(tree, listing);
    lemma_target_is_current(tree, k);
    assert(tree.files.contains(f));
    if listing.contains(e) {
        let i = choose|i: int| 0 <= i < listing.len() && listing[i] == e;
        assert(!listing[i].is_dir && tree.status(listing[i].path) == ArtifactStatus::Current(
            f.identity_file,
        ));
        assert(satisfied(tree, listing).contains(f.identity_file));
    }
    if satisfied(tree, listing).contains(f.identity_file) {
        let i = choose|i: int|
            0 <= i < listing.len() && !(#[trigger] listing[i]).is_dir && tree.status(
                listing[i].path,
            ) == ArtifactStatus::Current(f.identity_file);
        let j = lemma_current_is_target(tree, listing[i].path);
        assert(j == k);
        assert(listing[i] == e);
    }
}

/// When the content of an asset-class file changes, the artifact that
/// carries the old hash is deleted.
pub proof fn lemma_old_hash_is_stale(
    tree: IdentityTreeView,
    listing: Seq<ArtifactEntryView>,
    k: int,
    old_hash: Seq<char>,
)
    requires
        tree.wf(),
        0 <= k < tree.files.len(),
        tree.files[k].invertible(),
        tree.files[k].hash is Some,
        is_hex(old_hash),
        tree.files[k].hash != Some(old_hash),
        listing.contains(
            ArtifactEntryView {
                path: asset_target(tree.files[k].identity_file, old_hash),
                is_dir: false,
            },
        ),
    ensures
        plan_of(tree, listing).delete_files.contains(
            asset_target(tree.files[k].identity_file, old_hash),
        ),
{
    let f = tree.files[k];
    let old = GenerationSpecView { identity_file: f.identity_file, hash: Some(old_hash) };
    lemma_target_round_trip(old);
    let a = parse_artifact(old.target()).unwrap();
    lemma_plan_members(tree, listing);
    if tree.holds_source_of(a) {
        let i = choose|i: int|
            0 <= i < tree.files.len() && is_source_of(#[trigger] tree.files[i], a);
        assert(i == k);
    }
}

/// An artifact whose identity file is gone is deleted, and so is a directory
/// that the identity tree does not mirror.
pub proof fn lemma_orphans_are_deleted(
    tree: IdentityTreeView,
    listing: Seq<ArtifactEntryView>,
    entry: ArtifactEntryView,
)
    requires
        listing.contains(entry),
    ensures
        entry.is_dir && !tree.has_dir(entry.path) ==> plan_of(tree, listing).delete_dirs.contains(
            entry.path,
        ),
        !entry.is_dir && parse_artifact(entry.path) is Ok && (forall|i: int|
            0 <= i < tree.files.len() ==> (#[trigger] tree.files[i]).identity_file
                != parse_artifact(entry.path).unwrap().source_identity_path)
            ==> plan_of(tree, listing).delete_files.contains(entry.path),
{
    lemma_plan_members(tree, listing);
}

/// A directory of the artifact tree is removed where the directory of the
/// identity tree that it mirrors holds no file any more, and the files
/// inside it are removed with it. Only a file that is no artifact by its
/// name keeps its directory.
pub proof fn lemma_emptied_dir_is_deleted(
    tree: IdentityTreeView,
    listing: Seq<ArtifactEntryView>,
    dir: Seq<char>,
)
    requires
        tree.wf(),
        listing.contains(ArtifactEntryView { path: dir, is_dir: true }),
        dir.len() > 0,
        forall|i: int|
            0 <= i < tree.files.len() ==> !inside(dir, (#[trigger] tree.files[i]).identity_file),
        forall|p: Seq<char>|
            listing.contains(ArtifactEntryView { path: p, is_dir: false }) && #[trigger] inside(
                dir,
                p,
            ) ==> parse_artifact(p) is Ok,
    ensures
        plan_of(tree, listing).delete_dirs.contains(dir),
        forall|p: Seq<char>|
            listing.contains(ArtifactEntryView { path: p, is_dir: false }) && #[trigger] inside(
                dir,
                p,
            ) ==> plan_of(tree, listing).removes_file(p),
{
    let plan = plan_of(tree, listing);
    let left = remaining(tree, listing);
    lemma_plan_members(tree, listing);
    if holds_one_of(dir, left) {
        let j = choose|j: int| 0 <= j < left.len() && inside(dir, #[trigger] left[j]);
        let p = left[j];
        assert(left.contains(p));
        let k = if plan.writes(p) {
            let x = choose|x: int|
                0 <= x < plan.generate.len() && (#[trigger] plan.generate[x]).target() == p;
            assert(plan.generate.contains(plan.generate[x]));
            choose|k: int| 0 <= k < tree.files.len() && tree.files[k] == plan.generate[x]
        } else {
            lemma_current_is_target(tree, p)
        };
        lemma_target_parent(tree.files[k]);
        lemma_inside_by_parent(dir, p);
        lemma_inside_by_parent(dir, tree.files[k].identity_file);
        assert(inside(dir, tree.files[k].identity_file));
    }
    assert(plan.delete_dirs.contains(dir));
    let x = choose|x: int| 0 <= x < plan.delete_dirs.len() && plan.delete_dirs[x] == dir;
    assert forall|p: Seq<char>|
        listing.contains(ArtifactEntryView { path: p, is_dir: false }) && #[trigger] inside(
            dir,
            p,
        ) implies plan.removes_file(p) by {
        assert(inside(plan.delete_dirs[x], p));
    }
}

} // verus!
