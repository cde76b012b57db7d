use serve_yew::template::splice;

#[test]
fn page_goes_into_the_index_document() {
    let index = "<html><head><title>t</title></head><body><div id=\"app\"></div></body></html>";
    assert_eq!(
        splice(index, "<style>s</style>", "<main>m</main>").as_deref(),
        Some("<html><head><title>t</title><style>s</style><body><div id=\"app\"></div><main>m</main></html>")
    );
}

#[test]
fn tags_are_replaced_not_kept() {
    assert_eq!(splice("a</head>b</body>c", "S", "B").as_deref(), Some("aSbBc"));
    assert_eq!(splice("</head></body>", "S", "B").as_deref(), Some("SB"));
    assert_eq!(splice("</head></body>", "", "").as_deref(), Some(""));
}

#[test]
fn only_the_first_pieces_count() {
    assert_eq!(splice("a</head>b</body>c</body>d", "S", "B").as_deref(), Some("aSbBc"));
    assert_eq!(splice("a</head>b</body>c</head>d</body>e", "S", "B").as_deref(), Some("aSbBc"));
    assert_eq!(splice("a</head>b</head>c</body>d", "S", "B"), None);
}

#[test]
fn index_document_without_the_tags() {
    assert_eq!(splice("", "S", "B"), None);
    assert_eq!(splice("<html></html>", "S", "B"), None);
    assert_eq!(splice("a</body>b", "S", "B"), None);
    assert_eq!(splice("a</head>b", "S", "B"), None);
    assert_eq!(splice("a</body>b</head>c", "S", "B"), None);
    assert_eq!(splice("a</hea", "S", "B"), None);
}

#[test]
fn wide_characters_in_the_document() {
    assert_eq!(
        splice("\u{e9}</head>\u{1f600}</body>\u{fc}", "\u{df}", "\u{e0}").as_deref(),
        Some("\u{e9}\u{df}\u{1f600}\u{e0}\u{fc}")
    );
}
