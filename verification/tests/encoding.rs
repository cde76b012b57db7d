use serve_yew::encoding::Encoding;

#[test]
fn encoding_tokens() {
    assert_eq!(Encoding::Gzip.to_str(), "gzip");
    assert_eq!(Encoding::Brotli.to_str(), "br");
    assert_eq!(Encoding::Identity.to_str(), "identity");
}
