use serve_yew::naming::{CompressedArtifact, GenerationSpec};
use serve_yew::sync::{is_inside, plan_sync, ArtifactEntry, IdentityTree, SyncPlan};

fn dir(path: &str) -> ArtifactEntry {
    ArtifactEntry { path: path.to_string(), is_dir: true }
}

fn file(path: &str) -> ArtifactEntry {
    ArtifactEntry { path: path.to_string(), is_dir: false }
}

fn tree(dirs: &[&str], files: &[(&str, &[u8])]) -> IdentityTree {
    IdentityTree {
        dirs: dirs.iter().map(|d| d.to_string()).collect(),
        files: files.iter().map(|(p, data)| GenerationSpec::new(p.to_string(), data)).collect(),
    }
}

fn inside(dir: &str, path: &str) -> bool {
    path.starts_with(&format!("{}/", dir))
}

/// Carries a plan out on a listing of the artifact tree.
fn carry_out(plan: &SyncPlan, before: &[ArtifactEntry]) -> Vec<ArtifactEntry> {
    let mut after: Vec<ArtifactEntry> = Vec::new();
    for e in before {
        let with_dir =
            plan.delete_dirs.iter().any(|d| inside(d, &e.path) || (e.is_dir && *d == e.path));
        let listed = !e.is_dir && plan.delete_files.contains(&e.path);
        if !with_dir && !listed {
            after.push(e.clone());
        }
    }
    for g in &plan.generate {
        let target = g.to_target();
        for (i, c) in target.char_indices() {
            if c == '/' && !after.iter().any(|e| e.is_dir && e.path == target[..i]) {
                after.push(dir(&target[..i]));
            }
        }
        if !after.iter().any(|e| !e.is_dir && e.path == target) {
            after.push(file(&target));
        }
    }
    after
}

fn site() -> IdentityTree {
    tree(
        &["assets", "assets/img", "foo"],
        &[
            ("index.html", b"<html></html>"),
            ("frontend-3c585650ceac9d6d.js", b"js"),
            ("foo/bar.js", b"bar"),
            ("assets/logo.svg", b"abc"),
            ("assets/img/photo.png", b"png"),
            ("assets/img/icon.svg", b""),
        ],
    )
}

const LOGO: &str = "assets/logo-900150983cd24fb0d6963f7d28e17f72.svg.br";
const ICON: &str = "assets/img/icon-d41d8cd98f00b204e9800998ecf8427e.svg.br";

#[test]
fn empty_artifact_tree_gets_every_artifact() {
    let t = site();
    let plan = plan_sync(&t, &vec![dir("")]);
    assert!(plan.delete_dirs.is_empty());
    assert!(plan.delete_files.is_empty());
    assert!(plan.malformed.is_empty());
    let targets: Vec<String> = plan.generate.iter().map(|g| g.to_target()).collect();
    assert_eq!(
        targets,
        vec![
            "frontend-3c585650ceac9d6d.js.br".to_string(),
            "foo/bar.js.br".to_string(),
            LOGO.to_string(),
            ICON.to_string(),
        ]
    );
    assert_eq!(plan.generate[2], t.files[3]);
}

#[test]
fn no_listing_at_all_gets_every_artifact() {
    let plan = plan_sync(&site(), &vec![]);
    assert_eq!(plan.generate.len(), 4);
    assert!(plan.delete_dirs.is_empty() && plan.delete_files.is_empty());
}

#[test]
fn second_pass_does_nothing() {
    let t = site();
    let before = vec![dir("")];
    let first = plan_sync(&t, &before);
    let after = carry_out(&first, &before);
    let second = plan_sync(&t, &after);
    assert!(second.delete_dirs.is_empty());
    assert!(second.delete_files.is_empty());
    assert!(second.generate.is_empty());
    assert!(second.malformed.is_empty());
}

#[test]
fn second_pass_does_nothing_after_stale_state() {
    let t = site();
    let before = vec![
        dir(""),
        dir("gone"),
        file("gone/old.js.br"),
        dir("assets"),
        file("assets/logo-00000000000000000000000000000000.svg.br"),
        file("foo.js.br"),
        file("notes.txt"),
    ];
    let first = plan_sync(&t, &before);
    let after = carry_out(&first, &before);
    let second = plan_sync(&t, &after);
    assert!(second.delete_dirs.is_empty());
    assert!(second.delete_files.is_empty());
    assert!(second.generate.is_empty());
    assert_eq!(second.malformed, vec!["notes.txt".to_string()]);
}

#[test]
fn one_pass_brings_the_trees_in_step() {
    let t = site();
    let before = vec![
        dir(""),
        dir("gone"),
        dir("gone/deeper"),
        file("gone/deeper/x.css.br"),
        dir("foo"),
        file("foo/bar.js.br"),
        file("foo/baz.js.br"),
        dir("assets"),
        file("assets/logo-00000000000000000000000000000000.svg.br"),
    ];
    let plan = plan_sync(&t, &before);
    let after = carry_out(&plan, &before);
    let mut files: Vec<String> =
        after.iter().filter(|e| !e.is_dir).map(|e| e.path.clone()).collect();
    files.sort();
    let mut expected: Vec<String> = t
        .files
        .iter()
        .filter(|g| g.identity_file != "index.html" && !g.identity_file.ends_with(".png"))
        .map(|g| g.to_target())
        .collect();
    expected.sort();
    assert_eq!(files, expected);
    for e in after.iter().filter(|e| e.is_dir) {
        assert!(t.has_dir(&e.path), "{}", e.path);
    }
    for f in &files {
        let a = CompressedArtifact::parse(f).unwrap();
        assert!(t.holds_source_of(&a));
        assert_eq!(t.files.iter().filter(|g| g.identity_file == a.source_identity_path).count(), 1);
    }
}

#[test]
fn changed_asset_gets_new_artifact_and_loses_old() {
    let before_change = tree(&["assets"], &[("assets/logo.svg", b"abc")]);
    let listing = vec![dir(""), dir("assets")];
    let listing = carry_out(&plan_sync(&before_change, &listing), &listing);
    assert!(listing.contains(&file(LOGO)));

    let after_change = tree(&["assets"], &[("assets/logo.svg", b"abcd")]);
    let plan = plan_sync(&after_change, &listing);
    assert_eq!(plan.delete_files, vec![LOGO.to_string()]);
    assert_eq!(plan.generate.len(), 1);
    assert_eq!(
        plan.generate[0].to_target(),
        "assets/logo-e2fc714c4727ee9395f324cd2e7f331f.svg.br"
    );
    assert!(plan.delete_dirs.is_empty());
    let result = carry_out(&plan, &listing);
    assert!(!result.contains(&file(LOGO)));
    assert!(result.contains(&file("assets/logo-e2fc714c4727ee9395f324cd2e7f331f.svg.br")));
}

#[test]
fn changed_plain_file_keeps_its_artifact_path() {
    let before_change = tree(&["foo"], &[("foo/bar.js", b"old")]);
    let listing = vec![dir("")];
    let listing = carry_out(&plan_sync(&before_change, &listing), &listing);
    assert!(listing.contains(&file("foo/bar.js.br")));

    let after_change = tree(&["foo"], &[("foo/bar.js", b"new")]);
    assert_eq!(after_change.files[0].hash, None);
    assert_eq!(after_change.files[0].to_target(), "foo/bar.js.br");
    let plan = plan_sync(&after_change, &listing);
    assert!(plan.delete_files.is_empty());
    assert!(plan.delete_dirs.is_empty());
}

#[test]
fn artifact_of_deleted_file_is_removed() {
    let t = tree(&["foo"], &[("foo/keep.js", b"k")]);
    let listing = vec![dir(""), dir("foo"), file("foo/bar.js.br"), file("foo/keep.js.br")];
    let plan = plan_sync(&t, &listing);
    assert_eq!(plan.delete_files, vec!["foo/bar.js.br".to_string()]);
    assert!(plan.delete_dirs.is_empty());
    assert!(plan.generate.is_empty());
}

#[test]
fn directory_without_mirror_is_removed() {
    let t = tree(&[], &[("app.js", b"k")]);
    let listing = vec![dir(""), dir("foo"), file("foo/bar.js.br"), file("app.js.br")];
    let plan = plan_sync(&t, &listing);
    assert_eq!(plan.delete_dirs, vec!["foo".to_string()]);
    assert_eq!(plan.delete_files, vec!["foo/bar.js.br".to_string()]);
    let after = carry_out(&plan, &listing);
    assert_eq!(after, vec![dir(""), file("app.js.br")]);
}

#[test]
fn root_directory_is_never_removed() {
    let t = tree(&[], &[]);
    let plan = plan_sync(&t, &vec![dir("")]);
    assert!(plan.delete_dirs.is_empty());
    assert!(t.has_dir(""));
    assert!(!t.has_dir("foo"));
}

#[test]
fn malformed_files_are_reported_and_left() {
    let t = tree(&["assets"], &[("assets/logo.svg", b"abc")]);
    let listing = vec![
        dir(""),
        file("README"),
        dir("assets"),
        file("assets/logo.svg.br"),
        file("assets/logo-00ff.br"),
        file(LOGO),
    ];
    let plan = plan_sync(&t, &listing);
    assert_eq!(
        plan.malformed,
        vec![
            "README".to_string(),
            "assets/logo.svg.br".to_string(),
            "assets/logo-00ff.br".to_string()
        ]
    );
    assert!(plan.delete_files.is_empty());
    assert!(plan.generate.is_empty());
    assert_eq!(carry_out(&plan, &listing), listing);
}

#[test]
fn artifact_of_skipped_file_is_kept_but_never_written() {
    let t = tree(&[], &[("photo.png", b"p"), ("index.html", b"i")]);
    let with = vec![dir(""), file("photo.png.br")];
    let plan = plan_sync(&t, &with);
    assert!(plan.delete_files.is_empty());
    assert!(plan.generate.is_empty());
    let without = vec![dir("")];
    assert!(plan_sync(&t, &without).generate.is_empty());
}

#[test]
fn artifact_with_wrong_hash_is_stale() {
    let t = tree(&["assets"], &[("assets/logo.svg", b"abc")]);
    let a = CompressedArtifact::parse("assets/logo-00ff.svg.br").unwrap();
    assert!(!t.holds_source_of(&a));
    let b = CompressedArtifact::parse(LOGO).unwrap();
    assert!(t.holds_source_of(&b));
    let c = CompressedArtifact::parse("assets/other-900150983cd24fb0d6963f7d28e17f72.svg.br")
        .unwrap();
    assert!(!t.holds_source_of(&c));
}

#[test]
fn lists_keep_the_order_of_the_listing() {
    let t = tree(&[], &[("b.js", b""), ("a.js", b"")]);
    let listing = vec![file("z.css.br"), dir("y"), file("c.css.br"), dir("x")];
    let plan = plan_sync(&t, &listing);
    assert_eq!(plan.delete_files, vec!["z.css.br".to_string(), "c.css.br".to_string()]);
    assert_eq!(plan.delete_dirs, vec!["y".to_string(), "x".to_string()]);
    let names: Vec<&str> = plan.generate.iter().map(|g| g.identity_file.as_str()).collect();
    assert_eq!(names, vec!["b.js", "a.js"]);
}

#[test]
fn located_entries_are_relative_to_the_root() {
    assert_eq!(ArtifactEntry::locate("/site/brotli", "/site/brotli", true), Some(dir("")));
    assert_eq!(ArtifactEntry::locate("/site/brotli/foo", "/site/brotli", true), Some(dir("foo")));
    assert_eq!(
        ArtifactEntry::locate("/site/brotli/foo/bar.js.br", "/site/brotli", false),
        Some(file("foo/bar.js.br"))
    );
    assert_eq!(ArtifactEntry::locate("foo", "/site/brotli", false), None);
    assert_eq!(ArtifactEntry::new("a/b".to_string(), true), dir("a/b"));
}

#[test]
fn listing_of_a_tree_is_well_formed() {
    assert!(site().is_well_formed());
    assert!(site().is_invertible());
    assert!(tree(&[], &[]).is_well_formed());
    assert!(tree(&["unused"], &[("a.js", b"")]).is_well_formed());
}

#[test]
fn listing_without_a_directory_above_a_file_is_not_a_tree() {
    assert!(!tree(&["assets"], &[("assets/img/icon.svg", b"")]).is_well_formed());
    assert!(!tree(&["assets/img"], &[("assets/img/icon.svg", b"")]).is_well_formed());
    assert!(!tree(&[], &[("foo/bar.js", b"")]).is_well_formed());
    assert!(tree(&["assets", "assets/img"], &[("assets/img/icon.svg", b"")]).is_well_formed());
}

#[test]
fn listing_with_a_path_twice_is_not_a_tree() {
    assert!(!tree(&[], &[("a.js", b"1"), ("b.js", b"2"), ("a.js", b"3")]).is_well_formed());
}

#[test]
fn listing_with_a_misplaced_hash_is_not_a_tree() {
    let mut t = tree(&["assets"], &[("assets/logo.svg", b"abc"), ("app.js", b"abc")]);
    assert!(t.is_well_formed());
    t.files[1].hash = Some("00ff".to_string());
    assert!(!t.is_well_formed());
    t.files[1].hash = None;
    t.files[0].hash = None;
    assert!(!t.is_well_formed());
    t.files[0].hash = Some("00FF".to_string());
    assert!(!t.is_well_formed());
    t.files[0].hash = Some("00ff".to_string());
    assert!(t.is_well_formed());
}

#[test]
fn asset_without_a_dot_cannot_be_inverted() {
    let t = tree(&["assets"], &[("assets/LICENSE", b"abc"), ("NOTICE", b"abc")]);
    assert!(t.is_well_formed());
    assert!(!t.is_invertible());
    assert!(t.files[1].is_invertible());
    assert!(!t.files[0].is_invertible());
    let first = plan_sync(&t, &vec![dir("")]);
    let after = carry_out(&first, &vec![dir("")]);
    let second = plan_sync(&t, &after);
    assert_eq!(second.delete_files, vec!["assets/-900150983cd24fb0d6963f7d28e17f72.LICENSE.br"]);
    assert_eq!(second.generate.len(), 1);
}

#[test]
fn emptied_directory_is_removed() {
    let t = tree(&["foo"], &[("app.js", b"k")]);
    let listing = vec![dir(""), dir("foo"), file("foo/bar.js.br"), file("app.js.br")];
    let plan = plan_sync(&t, &listing);
    assert_eq!(plan.delete_files, vec!["foo/bar.js.br".to_string()]);
    assert_eq!(plan.delete_dirs, vec!["foo".to_string()]);
    assert!(plan.generate.is_empty());
    let after = carry_out(&plan, &listing);
    assert_eq!(after, vec![dir(""), file("app.js.br")]);
    let second = plan_sync(&t, &after);
    assert!(second.delete_dirs.is_empty());
    assert!(second.delete_files.is_empty());
    assert!(second.generate.is_empty());
}

#[test]
fn directory_without_any_file_is_removed() {
    let t = tree(&["a", "a/b", "c"], &[("c/keep.js", b"k")]);
    let listing = vec![
        dir(""),
        dir("a"),
        dir("a/b"),
        file("a/b/gone.js.br"),
        dir("c"),
        file("c/keep.js.br"),
        dir("c/empty"),
    ];
    let plan = plan_sync(&t, &listing);
    assert_eq!(
        plan.delete_dirs,
        vec!["a".to_string(), "a/b".to_string(), "c/empty".to_string()]
    );
    assert_eq!(plan.delete_files, vec!["a/b/gone.js.br".to_string()]);
    assert_eq!(carry_out(&plan, &listing), vec![dir(""), dir("c"), file("c/keep.js.br")]);
}

#[test]
fn directory_that_gets_an_artifact_stays() {
    let t = tree(&["foo"], &[("foo/new.js", b"n")]);
    let listing = vec![dir(""), dir("foo"), file("foo/old.js.br")];
    let plan = plan_sync(&t, &listing);
    assert_eq!(plan.delete_files, vec!["foo/old.js.br".to_string()]);
    assert!(plan.delete_dirs.is_empty());
    assert_eq!(plan.generate.len(), 1);
    let after = carry_out(&plan, &listing);
    assert_eq!(after, vec![dir(""), dir("foo"), file("foo/new.js.br")]);
}

#[test]
fn directory_with_a_file_that_is_left_stays() {
    let t = tree(&["notes", "img"], &[("img/photo.png", b"p")]);
    let listing = vec![
        dir(""),
        dir("notes"),
        file("notes/README"),
        dir("img"),
        file("img/photo.png.br"),
    ];
    let plan = plan_sync(&t, &listing);
    assert!(plan.delete_dirs.is_empty());
    assert!(plan.delete_files.is_empty());
    assert_eq!(plan.malformed, vec!["notes/README".to_string()]);
}

#[test]
fn file_in_a_directory_without_mirror_does_not_keep_the_directory_above() {
    let t = tree(&["a"], &[]);
    let listing = vec![dir(""), dir("a"), dir("a/gone"), file("a/gone/README")];
    let plan = plan_sync(&t, &listing);
    assert_eq!(plan.delete_dirs, vec!["a".to_string(), "a/gone".to_string()]);
    assert_eq!(carry_out(&plan, &listing), vec![dir("")]);
}

#[test]
fn paths_inside_a_directory() {
    assert!(is_inside("foo", "foo/bar.js.br"));
    assert!(is_inside("foo", "foo/a/b"));
    assert!(is_inside("foo/a", "foo/a/b"));
    assert!(is_inside("foo", "foo/"));
    assert!(!is_inside("foo", "foo"));
    assert!(!is_inside("foo", "foobar/x"));
    assert!(!is_inside("foo", "fo/o"));
    assert!(!is_inside("foo/a", "foo/b/a"));
    assert!(!is_inside("", "foo"));
    assert!(is_inside("", "/foo"));
}
