use serve_yew::digest::{content_hash, is_hex_text, to_hex};
use serve_yew::naming::{is_asset, skipped, CompressedArtifact, GenerationSpec, NameError};

#[test]
fn hash_of_empty_content() {
    assert_eq!(content_hash(b""), "d41d8cd98f00b204e9800998ecf8427e");
}

#[test]
fn hash_of_known_contents() {
    assert_eq!(content_hash(b"abc"), "900150983cd24fb0d6963f7d28e17f72");
    assert_eq!(content_hash(b"a"), "0cc175b9c0f1b6a831c399e269772661");
    assert_eq!(
        content_hash(b"abcdefghijklmnopqrstuvwxyz"),
        "c3fcd3d76192e4007dfb496cca67e13b"
    );
}

#[test]
fn hash_is_not_the_content() {
    let data = b"900150983cd24fb0d6963f7d28e17f72";
    assert_ne!(content_hash(data).as_bytes(), &data[..]);
    assert_eq!(content_hash(data).len(), 32);
}

#[test]
fn hex_writes_two_digits_per_byte() {
    assert_eq!(to_hex(&[]), "");
    assert_eq!(to_hex(&[0x00, 0x0f, 0xa0, 0xff]), "000fa0ff");
    assert_eq!(to_hex(&[0x12, 0x34, 0x56, 0x78, 0x9a, 0xbc, 0xde]), "123456789abcde");
}

#[test]
fn asset_paths_lie_under_assets() {
    assert!(is_asset("assets/logo.svg"));
    assert!(is_asset("assets/img/logo.svg"));
    assert!(is_asset("assets/"));
    assert!(!is_asset("assets"));
    assert!(!is_asset("assetsfoo/logo.svg"));
    assert!(!is_asset("foo/assets/logo.svg"));
    assert!(!is_asset(""));
}

#[test]
fn media_and_index_are_skipped() {
    for name in [
        "a.png", "a.jpg", "a.jpeg", "a.gif", "a.ico", "a.mp3", "a.mp4", "a.webm", "a.ogg", "a.wav",
    ] {
        assert!(skipped(name), "{}", name);
        assert!(skipped(&format!("assets/img/{}", name)), "{}", name);
    }
    assert!(skipped("index.html"));
    assert!(skipped("docs/index.html"));
    assert!(!skipped("index.html/app.js"));
    assert!(!skipped("myindex.html"));
    assert!(!skipped("app.js"));
    assert!(!skipped("assets/logo.svg"));
    assert!(!skipped("a.PNG"));
    assert!(!skipped("png"));
    assert!(!skipped("folder.png/readme.txt"));
}

#[test]
fn hash_only_for_assets() {
    let plain = GenerationSpec::new("foo/bar.js".to_string(), b"abc");
    assert_eq!(plain.identity_file, "foo/bar.js");
    assert_eq!(plain.hash, None);
    let asset = GenerationSpec::new("assets/logo.svg".to_string(), b"abc");
    assert_eq!(asset.hash.as_deref(), Some("900150983cd24fb0d6963f7d28e17f72"));
}

#[test]
fn target_of_plain_file() {
    let g = GenerationSpec::new("dir/name.ext".to_string(), b"x");
    assert_eq!(g.to_target(), "dir/name.ext.br");
    let top = GenerationSpec::new("app.js".to_string(), b"x");
    assert_eq!(top.to_target(), "app.js.br");
}

#[test]
fn target_of_plain_file_ignores_content() {
    let old = GenerationSpec::new("dir/app.js".to_string(), b"old");
    let new = GenerationSpec::new("dir/app.js".to_string(), b"new");
    assert_eq!(old.to_target(), new.to_target());
    assert_eq!(new.to_target(), "dir/app.js.br");
}

#[test]
fn target_of_asset_carries_hash() {
    let g = GenerationSpec::new("assets/logo.svg".to_string(), b"abc");
    assert_eq!(g.to_target(), "assets/logo-900150983cd24fb0d6963f7d28e17f72.svg.br");
    let nested = GenerationSpec::new("assets/img/logo.svg".to_string(), b"");
    assert_eq!(
        nested.to_target(),
        "assets/img/logo-d41d8cd98f00b204e9800998ecf8427e.svg.br"
    );
}

#[test]
fn target_keeps_dots_and_dashes_of_stem() {
    let g = GenerationSpec {
        identity_file: "assets/a.b-c.min.js".to_string(),
        hash: Some("00ff".to_string()),
    };
    assert_eq!(g.to_target(), "assets/a.b-c.min-00ff.js.br");
}

#[test]
fn target_of_name_without_dot() {
    let g = GenerationSpec {
        identity_file: "assets/LICENSE".to_string(),
        hash: Some("00ff".to_string()),
    };
    assert_eq!(g.to_target(), "assets/-00ff.LICENSE.br");
}

#[test]
fn parse_plain_artifact() {
    let a = CompressedArtifact::parse("foo/bar.js.br").unwrap();
    assert_eq!(a.relative_path, "foo/bar.js.br");
    assert_eq!(a.source_identity_path, "foo/bar.js");
    assert_eq!(a.hash_suffix, None);
}

#[test]
fn parse_asset_artifact() {
    let a = CompressedArtifact::parse("assets/img/logo-6fe88bf3de22ed271405d7597167aa85.svg.br")
        .unwrap();
    assert_eq!(a.source_identity_path, "assets/img/logo.svg");
    assert_eq!(a.hash_suffix.as_deref(), Some("6fe88bf3de22ed271405d7597167aa85"));
}

#[test]
fn parse_inverts_target() {
    for (path, data) in [
        ("assets/logo.svg", &b"abc"[..]),
        ("assets/a.b-c.min.js", &b"x"[..]),
        ("assets/deep/er/frontend-app.wasm", &b""[..]),
        ("foo/bar.js", &b"abc"[..]),
        ("style.css", &b"abc"[..]),
    ] {
        let g = GenerationSpec::new(path.to_string(), data);
        let target = g.to_target();
        let a = CompressedArtifact::parse(&target).unwrap();
        assert_eq!(a.relative_path, target);
        assert_eq!(a.source_identity_path, path);
        assert_eq!(a.hash_suffix, g.hash);
    }
}

#[test]
fn parse_does_not_invert_dotless_asset() {
    let g = GenerationSpec::new("assets/LICENSE".to_string(), b"abc");
    let a = CompressedArtifact::parse(&g.to_target()).unwrap();
    assert_eq!(a.source_identity_path, "assets/.LICENSE");
}

#[test]
fn parse_rejects_missing_suffix() {
    assert_eq!(CompressedArtifact::parse("foo/bar.js"), Err(NameError::MissingSuffix));
    assert_eq!(CompressedArtifact::parse("assets/logo-00ff.svg"), Err(NameError::MissingSuffix));
    assert_eq!(CompressedArtifact::parse("br"), Err(NameError::MissingSuffix));
    assert_eq!(CompressedArtifact::parse(""), Err(NameError::MissingSuffix));
    assert_eq!(CompressedArtifact::parse("dir.br/readme"), Err(NameError::MissingSuffix));
}

#[test]
fn parse_rejects_asset_without_extension() {
    assert_eq!(CompressedArtifact::parse("assets/logo-00ff.br"), Err(NameError::MissingExtension));
    assert_eq!(CompressedArtifact::parse("assets/.br"), Err(NameError::MissingExtension));
}

#[test]
fn parse_rejects_asset_without_hash() {
    assert_eq!(CompressedArtifact::parse("assets/logo.svg.br"), Err(NameError::MissingHash));
    assert_eq!(CompressedArtifact::parse("assets/logo.s-vg.br"), Err(NameError::MissingHash));
}

#[test]
fn parse_of_bare_suffix_outside_assets() {
    let a = CompressedArtifact::parse("foo/.br").unwrap();
    assert_eq!(a.source_identity_path, "foo/");
    assert_eq!(a.hash_suffix, None);
}

#[test]
fn paths_with_wide_characters() {
    let g = GenerationSpec {
        identity_file: "assets/caf\u{e9}/\u{1f600}.t\u{e9}st.svg".to_string(),
        hash: Some("00ff".to_string()),
    };
    let target = g.to_target();
    assert_eq!(target, "assets/caf\u{e9}/\u{1f600}.t\u{e9}st-00ff.svg.br");
    let a = CompressedArtifact::parse(&target).unwrap();
    assert_eq!(a.source_identity_path, g.identity_file);
}

#[test]
fn located_file_is_known_by_its_relative_path() {
    let g = GenerationSpec::locate("/site/identity/assets/logo.svg", "/site/identity", b"abc")
        .unwrap();
    assert_eq!(g.identity_file, "assets/logo.svg");
    assert_eq!(g.hash.as_deref(), Some("900150983cd24fb0d6963f7d28e17f72"));
    let g = GenerationSpec::locate(
        "../frontend/dist/identity/foo/bar.js",
        "../frontend/dist/identity/",
        b"abc",
    )
    .unwrap();
    assert_eq!(g.identity_file, "foo/bar.js");
    assert_eq!(g.hash, None);
    assert_eq!(g.to_target(), "foo/bar.js.br");
}

#[test]
fn relative_path_below_absolute_root_is_not_located() {
    assert_eq!(GenerationSpec::locate("foo/bar.js", "/site/identity", b""), None);
}

#[test]
fn hexadecimal_text() {
    assert!(is_hex_text(""));
    assert!(is_hex_text("0123456789abcdef"));
    assert!(!is_hex_text("0123456789ABCDEF"));
    assert!(!is_hex_text("12g4"));
    assert!(!is_hex_text("12-4"));
    assert!(is_hex_text(&content_hash(b"anything")));
}

#[test]
fn well_formed_files() {
    assert!(GenerationSpec::new("assets/logo.svg".to_string(), b"abc").is_wf());
    assert!(GenerationSpec::new("logo.svg".to_string(), b"abc").is_wf());
    let g = GenerationSpec { identity_file: "logo.svg".to_string(), hash: Some("00".to_string()) };
    assert!(!g.is_wf());
    assert!(g.is_invertible());
    let g = GenerationSpec { identity_file: "assets/x.y/z".to_string(), hash: Some("00".to_string()) };
    assert!(g.is_wf());
    assert!(!g.is_invertible());
}
