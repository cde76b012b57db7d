use serve_yew::mime::{artifact_source_of, ConfigError, MimeMap};

fn names(list: &[&str]) -> Vec<String> {
    list.iter().map(|s| s.to_string()).collect()
}

#[test]
fn content_types_by_extension() {
    let m = MimeMap::try_init(
        &names(&["assets/logo.svg", "assets/app.wasm", "index.html"]),
        &names(&["frontend-3c585650ceac9d6d.js.br", "styles/site.css.br"]),
    )
    .unwrap();
    assert_eq!(m.get("assets/logo.svg").map(|s| s.as_str()), Some("image/svg+xml"));
    assert_eq!(m.get("assets/app.wasm").map(|s| s.as_str()), Some("application/wasm"));
    assert_eq!(m.get("index.html").map(|s| s.as_str()), Some("text/html"));
    assert_eq!(m.get("frontend-3c585650ceac9d6d.js").map(|s| s.as_str()), Some("text/javascript"));
    assert_eq!(m.get("styles/site.css").map(|s| s.as_str()), Some("text/css"));
    assert_eq!(m.get("frontend-3c585650ceac9d6d.js.br"), None);
    assert_eq!(m.get("logo.svg"), None);
    assert_eq!(m.get(""), None);
}

#[test]
fn content_type_is_not_the_path() {
    let mut m = MimeMap::new();
    m.register("text/html").unwrap_err();
    m.register("readme.txt").unwrap();
    assert_eq!(m.get("readme.txt").map(|s| s.as_str()), Some("text/plain"));
}

#[test]
fn compressed_asset_is_registered_under_its_identity_path() {
    let m = MimeMap::try_init(
        &names(&[]),
        &names(&["assets/logo-6fe88bf3de22ed271405d7597167aa85.svg.br"]),
    )
    .unwrap();
    assert_eq!(m.get("assets/logo.svg").map(|s| s.as_str()), Some("image/svg+xml"));
    assert_eq!(m.get("assets/logo-6fe88bf3de22ed271405d7597167aa85.svg"), None);
}

#[test]
fn unknown_extension_is_an_error() {
    let r = MimeMap::try_init(&names(&["a.js", "README", "b.oddity"]), &names(&[]));
    assert_eq!(r.unwrap_err(), ConfigError::UnknownMime("README".to_string()));
    let r = MimeMap::try_init(&names(&["a.js"]), &names(&["b.oddity.br"]));
    assert_eq!(r.unwrap_err(), ConfigError::UnknownMime("b.oddity".to_string()));
}

#[test]
fn bad_artifact_name_is_an_error() {
    let r = MimeMap::try_init(&names(&["a.js"]), &names(&["b.js.br", "c.js"]));
    assert_eq!(r.unwrap_err(), ConfigError::BadArtifactName("c.js".to_string()));
    let r = MimeMap::try_init(&names(&[]), &names(&["assets/logo-00ff.svg"]));
    assert_eq!(r.unwrap_err(), ConfigError::BadArtifactName("assets/logo-00ff.svg".to_string()));
    let r = MimeMap::try_init(&names(&[]), &names(&["dir.br/app.js"]));
    assert_eq!(r.unwrap_err(), ConfigError::BadArtifactName("dir.br/app.js".to_string()));
}

#[test]
fn compressed_asset_without_hash_is_registered_without_its_suffix() {
    let m = MimeMap::try_init(&names(&[]), &names(&["assets/app.js.br", "assets/logo.svg.br"]))
        .unwrap();
    assert_eq!(m.get("assets/app.js").map(|s| s.as_str()), Some("text/javascript"));
    assert_eq!(m.get("assets/logo.svg").map(|s| s.as_str()), Some("image/svg+xml"));
    assert_eq!(m.get("assets/app.js.br"), None);
}

#[test]
fn only_a_hexadecimal_segment_is_taken_for_a_hash() {
    let m = MimeMap::try_init(
        &names(&[]),
        &names(&["assets/my-app.js.br", "assets/my-cafe.css.br", "assets/a-b-00ff.svg.br"]),
    )
    .unwrap();
    assert_eq!(m.get("assets/my-app.js").map(|s| s.as_str()), Some("text/javascript"));
    assert_eq!(m.get("assets/my.js"), None);
    assert_eq!(m.get("assets/my.css").map(|s| s.as_str()), Some("text/css"));
    assert_eq!(m.get("assets/my-cafe.css"), None);
    assert_eq!(m.get("assets/a-b.svg").map(|s| s.as_str()), Some("image/svg+xml"));
}

#[test]
fn identity_path_of_a_compressed_path() {
    assert_eq!(artifact_source_of("foo/bar.js.br").as_deref(), Some("foo/bar.js"));
    assert_eq!(
        artifact_source_of("assets/logo-6fe88bf3de22ed271405d7597167aa85.svg.br").as_deref(),
        Some("assets/logo.svg")
    );
    assert_eq!(artifact_source_of("assets/app.js.br").as_deref(), Some("assets/app.js"));
    assert_eq!(artifact_source_of("assets/logo-00ff.br").as_deref(), Some("assets/logo-00ff"));
    assert_eq!(artifact_source_of("assets/.br").as_deref(), Some("assets/"));
    assert_eq!(artifact_source_of(".br").as_deref(), Some(""));
    assert_eq!(artifact_source_of("assets/app.js"), None);
    assert_eq!(artifact_source_of(""), None);
}

#[test]
fn compressed_asset_without_extension_has_no_content_type() {
    let r = MimeMap::try_init(&names(&[]), &names(&["assets/logo-00ff.br"]));
    assert_eq!(r.unwrap_err(), ConfigError::UnknownMime("assets/logo-00ff".to_string()));
}

#[test]
fn table_is_built_where_the_check_passes() {
    let identity = names(&["index.html", "assets/logo.svg"]);
    let compressed = names(&["style.css.br"]);
    assert_eq!(MimeMap::check(&identity, &compressed), Ok(()));
    let m = MimeMap::init(&identity, &compressed);
    assert_eq!(m.get("index.html").map(|s| s.as_str()), Some("text/html"));
    assert_eq!(m.get("style.css").map(|s| s.as_str()), Some("text/css"));
    assert_eq!(m.get("assets/logo.svg").map(|s| s.as_str()), Some("image/svg+xml"));
    assert_eq!(
        MimeMap::check(&identity, &names(&["style.css"])),
        Err(ConfigError::BadArtifactName("style.css".to_string()))
    );
    assert_eq!(
        MimeMap::check(&names(&["LICENSE"]), &compressed),
        Err(ConfigError::UnknownMime("LICENSE".to_string()))
    );
}

#[test]
fn first_failure_is_reported() {
    let r = MimeMap::try_init(&names(&["x.oddity"]), &names(&["c.js"]));
    assert_eq!(r.unwrap_err(), ConfigError::UnknownMime("x.oddity".to_string()));
    let r = MimeMap::try_init(&names(&[]), &names(&["c.js", "x.oddity.br"]));
    assert_eq!(r.unwrap_err(), ConfigError::BadArtifactName("c.js".to_string()));
}

#[test]
fn failed_registration_leaves_the_table() {
    let mut m = MimeMap::new();
    m.register("a.css").unwrap();
    assert_eq!(m.register("README"), Err(ConfigError::UnknownMime("README".to_string())));
    assert_eq!(
        m.register_artifact("b.css"),
        Err(ConfigError::BadArtifactName("b.css".to_string()))
    );
    assert_eq!(m.get("a.css").map(|s| s.as_str()), Some("text/css"));
    assert_eq!(m.get("README"), None);
    m.register_artifact("b.css.br").unwrap();
    assert_eq!(m.get("b.css").map(|s| s.as_str()), Some("text/css"));
}

#[test]
fn guess_ignores_case_of_extension() {
    let mut m = MimeMap::new();
    m.register("LOGO.SVG").unwrap();
    assert_eq!(m.get("LOGO.SVG").map(|s| s.as_str()), Some("image/svg+xml"));
    assert_eq!(m.get("logo.svg"), None);
}
