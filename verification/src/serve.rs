//! The negotiation service: for the target of a request it decides what is
//! sent back, or that a document has to be rendered first.
//!
//! The service holds no state of a request. `ServeYew::route` takes the
//! target and answers with a reply, or asks for a rendered document; the
//! caller renders, encodes the body as `Asset::document_encoding` says, and
//! gets the reply from `ServeYew::document`.

use crate::assets::{lemma_asset_negotiation, Asset, AssetView};
use crate::encoding::Encoding;
use crate::mime::{
    artifact_source, guessed_mime, identity_key, init_keys, lemma_mime_table_keys, mime_table,
    ConfigError, ConfigErrorView, MimeKey, MimeMap,
};
use crate::naming::{
    br_suffix, is_asset, is_asset_path, lemma_target_round_trip, parse_artifact,
    GenerationSpecView,
};
use crate::table::{lemma_names_are_keys, Table};
use crate::text::{chars_of, ends_with, last_index_of, same_text};
use vstd::prelude::*;
use vstd::slice::slice_to_vec;
use vstd::string::{StrSliceExecFns, StringExecFns};

verus! {

/// How long a response may be reused.
#[derive(Clone, Copy, Debug, PartialEq, Eq, Structural)]
pub enum CacheDirective {
    /// The response never changes: it may be kept for a year.
    Immutable,
    /// The response is checked with the server before each reuse.
    Revalidate,
}

impl CacheDirective {
    /// The value of the `Cache-Control` header.
    pub open spec fn token(self) -> Seq<char> {
        match self {
            CacheDirective::Immutable => "public, max-age=31536000, immutable"@,
            CacheDirective::Revalidate => "max-age=0, private, must-revalidate"@,
        }
    }

    /// The value of the `Cache-Control` header.
    pub fn to_str(self) -> (s: &'static str)
        ensures
            s@ == self.token(),
    {
        match self {
            CacheDirective::Immutable => "public, max-age=31536000, immutable",
            CacheDirective::Revalidate => "max-age=0, private, must-revalidate",
        }
    }
}

/// The seconds between two keep-alive pings on the version stream.
pub const KEEP_ALIVE_SECS: u64 = 15;

/// The cache directive of a stored file served for `key` with the content
/// type `content_type`: an asset-class file never changes, and of the others
/// an HTML document is revalidated.
pub open spec fn cache_for(key: Seq<char>, content_type: Seq<char>) -> CacheDirective {
    if is_asset_path(key) {
        CacheDirective::Immutable
    } else if content_type == "text/html"@ {
        CacheDirective::Revalidate
    } else {
        CacheDirective::Immutable
    }
}

/// A negotiated response in the mathematical model.
pub struct NegotiatedResponseView {
    pub bytes: Seq<u8>,
    pub content_type: Seq<char>,
    pub encoding: Encoding,
    pub cache_directive: CacheDirective,
}

/// The representation chosen for a request: a body and what the headers say
/// of it.
#[derive(Clone, Debug, PartialEq, Eq)]
pub struct NegotiatedResponse {
    pub bytes: Vec<u8>,
    pub content_type: String,
    pub encoding: Encoding,
    pub cache_directive: CacheDirective,
}

impl View for NegotiatedResponse {
    type V = NegotiatedResponseView;

    open spec fn view(&self) -> NegotiatedResponseView {
        NegotiatedResponseView {
            bytes: self.bytes@,
            content_type: self.content_type@,
            encoding: self.encoding,
            cache_directive: self.cache_directive,
        }
    }
}

/// A reply in the mathematical model.
pub enum ReplyView {
    BadRequest,
    Version(Seq<char>),
    Content(NegotiatedResponseView),
}

impl ReplyView {
    /// The status code of the reply.
    pub open spec fn status(self) -> int {
        match self {
            ReplyView::BadRequest => 400,
            _ => 200,
        }
    }

    /// The headers that the reply sets, by lower-case name, in the order in
    /// which they are set.
    pub open spec fn headers(self) -> Seq<(Seq<char>, Seq<char>)> {
        match self {
            ReplyView::BadRequest => Seq::empty(),
            ReplyView::Version(_) => seq![
                ("content-type"@, "text/event-stream"@),
                ("cache-control"@, CacheDirective::Revalidate.token()),
            ],
            ReplyView::Content(r) => seq![
                ("content-type"@, r.content_type),
                ("content-encoding"@, r.encoding.token()),
                ("cache-control"@, r.cache_directive.token()),
            ],
        }
    }

    /// The bytes of the body, where the body is not a stream.
    pub open spec fn body(self) -> Seq<u8> {
        match self {
            ReplyView::Content(r) => r.bytes,
            _ => Seq::empty(),
        }
    }
}

/// What is sent back for a request.
#[derive(Clone, Debug, PartialEq, Eq)]
pub enum Reply {
    /// Status 400 with an empty body: the target of the request could not be
    /// read as a path.
    BadRequest,
    /// A stream of server-sent events: one event named `version` that
    /// carries this string, then nothing but a keep-alive ping every
    /// `KEEP_ALIVE_SECS` seconds.
    Version(String),
    /// A body with its content type, encoding and cache directive.
    Content(NegotiatedResponse),
}

impl View for Reply {
    type V = ReplyView;

    open spec fn view(&self) -> ReplyView {
        match self {
            Reply::BadRequest => ReplyView::BadRequest,
            Reply::Version(v) => ReplyView::Version(v@),
            Reply::Content(r) => ReplyView::Content(r@),
        }
    }
}

impl Reply {
    /// The status code of the reply.
    pub fn status(&self) -> (code: u16)
        ensures
            code == self@.status(),
    {
        match self {
            Reply::BadRequest => 400,
            _ => 200,
        }
    }

    /// The headers that the reply sets, by lower-case name, in the order in
    /// which they are set. A header set earlier under the same name is
    /// replaced.
    pub fn headers(&self) -> (list: Vec<(String, String)>)
        ensures
            list.deep_view() == self@.headers(),
    {
        let mut list: Vec<(String, String)> = Vec::new();
        match self {
            Reply::BadRequest => {},
            Reply::Version(_) => {
                list.push(
                    (String::from_str("content-type"), String::from_str("text/event-stream")),
                );
                list.push(
                    (
                        String::from_str("cache-control"),
                        String::from_str(CacheDirective::Revalidate.to_str()),
                    ),
                );
            },
            Reply::Content(r) => {
                list.push((String::from_str("content-type"), r.content_type.clone()));
                list.push(
                    (String::from_str("content-encoding"), String::from_str(r.encoding.to_str())),
                );
                list.push(
                    (
                        String::from_str("cache-control"),
                        String::from_str(r.cache_directive.to_str()),
                    ),
                );
            },
        }
        assert(list.deep_view() =~= self@.headers());
        list
    }
}

/// A step in the mathematical model.
pub enum StepView {
    Respond(ReplyView),
    Render { template: Seq<u8>, path: Seq<char> },
}

/// What the service decides for a request.
#[derive(Debug)]
pub enum Step<'a> {
    /// Send this reply.
    Respond(Reply),
    /// No stored file matches. Render the document for the request path
    /// `path` from the index document `template`, then hand the body to
    /// `ServeYew::document`.
    Render { template: &'a Vec<u8>, path: String },
}

impl<'a> View for Step<'a> {
    type V = StepView;

    open spec fn view(&self) -> StepView {
        match self {
            Step::Respond(r) => StepView::Respond(r@),
            Step::Render { template, path } => StepView::Render {
                template: template@,
                path: path@,
            },
        }
    }
}

/// What follows the last `-` of `name`; all of `name` where it holds none.
pub open spec fn after_last_dash(name: Seq<char>) -> Seq<char> {
    match name.index_of_last('-') {
        Some(i) => name.skip(i + 1),
        None => name,
    }
}

/// `s` without the repetitions of `suffix` at its end.
pub open spec fn trim_end(s: Seq<char>, suffix: Seq<char>) -> Seq<char>
    decreases s.len(),
{
    if suffix.len() > 0 && suffix.is_suffix_of(s) {
        trim_end(s.take(s.len() - suffix.len()), suffix)
    } else {
        s
    }
}

/// The first of `names` that ends in `suffix`.
pub open spec fn first_with_suffix(names: Seq<Seq<char>>, suffix: Seq<char>) -> Option<Seq<char>>
    decreases names.len(),
{
    if names.len() == 0 {
        None
    } else if suffix.is_suffix_of(names[0]) {
        Some(names[0])
    } else {
        first_with_suffix(names.drop_first(), suffix)
    }
}

/// The version that the file names `names` carry: the hash segment of the
/// first name that ends in `suffix`, which is what stands between its last
/// `-` and the suffix.
pub open spec fn version_in(names: Seq<Seq<char>>, suffix: Seq<char>) -> Option<Seq<char>> {
    match first_with_suffix(names, suffix) {
        Some(name) => Some(trim_end(after_last_dash(name), suffix)),
        None => None,
    }
}

impl AssetView {
    /// The version of the build: that of the scripts among the compressed
    /// files outside `assets/` where compression is enabled, else that of the
    /// scripts among the identity files.
    pub open spec fn version(self) -> Option<Seq<char>> {
        match self.compressed {
            Some(c) => version_in(c.code_names, ".js.br"@),
            None => version_in(self.identity_names, ".js"@),
        }
    }

    /// The paths that are served under their own name: the identity files
    /// and the asset paths that the mapping lists.
    pub open spec fn typed_names(self) -> Seq<Seq<char>> {
        match self.compressed {
            Some(c) => self.identity_names + c.mapped_names,
            None => self.identity_names,
        }
    }

    /// The paths of the compressed files outside `assets/`.
    pub open spec fn code_names(self) -> Seq<Seq<char>> {
        match self.compressed {
            Some(c) => c.code_names,
            None => Seq::empty(),
        }
    }

    /// The paths that get a content type, in the order in which they are
    /// registered: the identity files, the asset paths that the mapping
    /// lists, and the identity paths of the compressed files.
    pub open spec fn mime_keys(self) -> Seq<MimeKey> {
        init_keys(self.typed_names(), self.code_names())
    }
}

/// The hash segment of the script name `name`.
fn hash_segment(name: &str, suffix: &str) -> (segment: String)
    ensures
        segment@ == trim_end(after_last_dash(name@), suffix@),
{
    let chars = chars_of(name);
    let tail = chars_of(suffix);
    let start: usize = match last_index_of(&chars, '-') {
        Some(i) => i + 1,
        None => 0,
    };
    let mut piece = crate::text::slice_of(&chars, start, chars.len());
    let ghost whole = piece@;
    proof {
        chars@.index_of_last_ensures('-');
        assert(whole =~= after_last_dash(name@));
    }
    while tail.len() > 0 && ends_with(&piece, &tail)
        invariant
            piece@ == whole.take(piece.len() as int),
            piece.len() <= whole.len(),
            trim_end(whole, tail@) == trim_end(piece@, tail@),
        decreases piece.len(),
    {
        let shorter: usize = piece.len() - tail.len();
        piece.truncate(shorter);
        assert(piece@ =~= whole.take(shorter as int));
    }
    let end: usize = start + piece.len();
    let segment = String::from_str(name.substring_char(start, end));
    assert(segment@ =~= piece@);
    segment
}

/// The version that the files named in `files` carry.
fn version_of(files: &Table<Vec<u8>>, suffix: &str) -> (v: Option<String>)
    ensures
        match v {
            Some(s) => version_in(files.names(), suffix@) == Some(s@),
            None => version_in(files.names(), suffix@) is None,
        },
{
    let ghost names = files.names();
    let tail = chars_of(suffix);
    let mut i: usize = 0;
    assert(names.skip(0) =~= names);
    while i < files.len()
        invariant
            i <= files.entries().len(),
            names == files.names(),
            tail@ == suffix@,
            first_with_suffix(names, suffix@) == first_with_suffix(names.skip(i as int), suffix@),
        decreases files.entries().len() - i,
    {
        let name = files.name(i);
        let chars = chars_of(name.as_str());
        proof {
            assert(names.skip(i as int)[0] == names[i as int]);
            assert(names.skip(i as int).drop_first() =~= names.skip(i + 1));
        }
        if ends_with(&chars, &tail) {
            return Some(hash_segment(name.as_str(), suffix));
        }
        i = i + 1;
    }
    None
}

/// The service in the mathematical model.
pub struct ServeYewView {
    pub assets: AssetView,
    pub mime: Map<Seq<char>, Seq<char>>,
    pub version: Seq<char>,
    pub headers: Seq<Seq<char>>,
}

/// The path of the version stream: `/version`.
pub open spec fn version_path() -> Seq<char> {
    "/version"@
}

/// The path under which the files know a request path: without its leading
/// separator.
pub open spec fn request_key(path: Seq<char>) -> Seq<char> {
    if path.len() > 0 {
        path.skip(1)
    } else {
        path
    }
}

impl ServeYewView {
    /// The stored file served for `key`, if there is one.
    pub open spec fn served(self, key: Seq<char>) -> Option<NegotiatedResponseView> {
        match self.assets.resolve(key) {
            Some((bytes, encoding)) => Some(
                NegotiatedResponseView {
                    bytes,
                    content_type: self.mime[key],
                    encoding,
                    cache_directive: cache_for(key, self.mime[key]),
                },
            ),
            None => None,
        }
    }

    /// What the service decides for a request with the path `target`, or
    /// with a target that could not be read as a path.
    pub open spec fn route(self, target: Option<Seq<char>>) -> StepView {
        match target {
            None => StepView::Respond(ReplyView::BadRequest),
            Some(path) => if path == version_path() {
                StepView::Respond(ReplyView::Version(self.version))
            } else {
                match self.served(request_key(path)) {
                    Some(r) => StepView::Respond(ReplyView::Content(r)),
                    None => StepView::Render { template: self.assets.index, path },
                }
            },
        }
    }

    /// The reply that carries a rendered document whose encoded body is
    /// `body`.
    pub open spec fn document(self, body: Seq<u8>) -> ReplyView {
        ReplyView::Content(
            NegotiatedResponseView {
                bytes: body,
                content_type: "text/html"@,
                encoding: self.assets.document_encoding(),
                cache_directive: CacheDirective::Revalidate,
            },
        )
    }
}

/// The names of the request headers that are in `allowed`, with their
/// values, in the order of the request.
pub open spec fn forwarded(
    request: Seq<(Seq<char>, Seq<char>)>,
    allowed: Seq<Seq<char>>,
) -> Seq<(Seq<char>, Seq<char>)> {
    request.filter(|h: (Seq<char>, Seq<char>)| allowed.contains(h.0))
}

/// The negotiation service: the files, their content types, the version of
/// the build, and the names of the request headers that are handed on to the
/// renderer.
#[derive(Debug)]
pub struct ServeYew {
    assets: Asset,
    mime_map: MimeMap,
    version: String,
    headers: Vec<String>,
}

impl View for ServeYew {
    type V = ServeYewView;

    closed spec fn view(&self) -> ServeYewView {
        ServeYewView {
            assets: self.assets@,
            mime: self.mime_map@,
            version: self.version@,
            headers: self.headers.deep_view(),
        }
    }
}

/// A content type is registered for every path that resolves to a stored
/// file, and it is the one guessed from that path.
pub proof fn lemma_served_paths_typed(
    assets: &Asset,
    mime: Map<Seq<char>, Seq<char>>,
    path: Seq<char>,
)
    requires
        mime_table(assets@.mime_keys()) == Ok::<Map<Seq<char>, Seq<char>>, ConfigErrorView>(mime),
        assets@.resolve(path) is Some,
    ensures
        mime.contains_key(path),
        mime[path] == guessed_mime(path)->0,
{
    let a = assets@;
    let keys = a.mime_keys();
    let n = a.identity_names.len() as int;
    let typed = a.typed_names().len() as int;
    lemma_names_are_keys(&assets.identity, path);
    match assets.compressed {
        None => {
            let i = choose|i: int| 0 <= i < n && a.identity_names[i] == path;
            assert(keys[i] == identity_key()(path));
            lemma_mime_table_keys(keys, i);
        },
        Some(c) => {
            if is_asset_path(path) {
                lemma_names_are_keys(&c.asset_mapping, path);
                if c@.asset_mapping.contains_key(path) {
                    let i = choose|i: int|
                        0 <= i < c@.mapped_names.len() && c@.mapped_names[i] == path;
                    assert(keys[n + i] == identity_key()(path));
                    lemma_mime_table_keys(keys, n + i);
                } else {
                    let i = choose|i: int| 0 <= i < n && a.identity_names[i] == path;
                    assert(keys[i] == identity_key()(path));
                    lemma_mime_table_keys(keys, i);
                }
            } else {
                let artifact = path + br_suffix();
                lemma_names_are_keys(&c.code, artifact);
                let i = choose|i: int| 0 <= i < c@.code_names.len() && c@.code_names[i] == artifact;
                lemma_target_round_trip(GenerationSpecView { identity_file: path, hash: None });
                assert(parse_artifact(artifact) is Ok);
                assert(artifact_source(artifact) == Some(path));
                assert(keys[typed + i] == Ok::<Seq<char>, ConfigErrorView>(path));
                lemma_mime_table_keys(keys, typed + i);
            }
        },
    }
}

/// Adds the names of `files`, in order, to `names`.
fn append_names<V>(files: &Table<V>, names: &mut Vec<String>)
    ensures
        final(names).deep_view() == old(names).deep_view() + files.names(),
{
    let ghost start = names.deep_view();
    let mut i: usize = 0;
    assert(files.names().take(0) =~= Seq::<Seq<char>>::empty());
    assert(start + Seq::<Seq<char>>::empty() =~= start);
    while i < files.len()
        invariant
            i <= files.entries().len(),
            names.deep_view() == start + files.names().take(i as int),
        decreases files.entries().len() - i,
    {
        let ghost before = names.deep_view();
        names.push(files.name(i).clone());
        assert(names.deep_view() =~= before.push(files.names()[i as int]));
        assert(files.names().take(i + 1) =~= files.names().take(i as int).push(
            files.names()[i as int],
        ));
        assert(names.deep_view() =~= start + files.names().take(i + 1));
        i = i + 1;
    }
    assert(files.names().take(i as int) =~= files.names());
}

impl Asset {
    /// The paths that are served under their own name.
    fn typed_names(&self) -> (names: Vec<String>)
        ensures
            names.deep_view() == self@.typed_names(),
    {
        let mut names: Vec<String> = Vec::new();
        assert(names.deep_view() =~= Seq::<Seq<char>>::empty());
        append_names(&self.identity, &mut names);
        assert(names.deep_view() =~= self@.identity_names);
        match &self.compressed {
            Some(c) => {
                append_names(&c.asset_mapping, &mut names);
            },
            None => {},
        }
        names
    }

    /// The paths of the compressed files outside `assets/`.
    fn code_names(&self) -> (names: Vec<String>)
        ensures
            names.deep_view() == self@.code_names(),
    {
        let mut names: Vec<String> = Vec::new();
        assert(names.deep_view() =~= Seq::<Seq<char>>::empty());
        match &self.compressed {
            Some(c) => {
                append_names(&c.code, &mut names);
                assert(names.deep_view() =~= c@.code_names);
            },
            None => {},
        }
        names
    }

    /// The version of the build, read off the name of the first script, if
    /// there is a script.
    pub fn version(&self) -> (v: Option<String>)
        ensures
            match v {
                Some(s) => self@.version() == Some(s@),
                None => self@.version() is None,
            },
    {
        match &self.compressed {
            Some(c) => version_of(&c.code, ".js.br"),
            None => version_of(&self.identity, ".js"),
        }
    }
}

impl ServeYew {
    #[verifier::type_invariant]
    spec fn typed(self) -> bool {
        forall|path: Seq<char>|
            (#[trigger] self.assets@.resolve(path)) is Some ==> self.mime_map@.contains_key(path)
    }

    /// Whether the service can be set up for the files `assets`: a content
    /// type is known for every path that can be served, and a script carries
    /// the version. Where it cannot, a path without a content type is
    /// reported first.
    pub fn check(assets: &Asset) -> (r: Result<(), ConfigError>)
        ensures
            match r {
                Ok(_) => mime_table(assets@.mime_keys()) is Ok && assets@.version() is Some,
                Err(e) => {
                    ||| mime_table(assets@.mime_keys()) == Err::<
                        Map<Seq<char>, Seq<char>>,
                        ConfigErrorView,
                    >(e@)
                    ||| (mime_table(assets@.mime_keys()) is Ok && assets@.version() is None && e@
                        == ConfigErrorView::MissingVersion)
                },
            },
    {
        let typed = assets.typed_names();
        let code = assets.code_names();
        match MimeMap::check(&typed, &code) {
            Ok(_) => {},
            Err(e) => {
                return Err(e);
            },
        }
        match assets.version() {
            Some(_) => Ok(()),
            None => Err(ConfigError::MissingVersion),
        }
    }

    /// Sets the service up for the files `assets`. `headers` names, in lower
    /// case, the request headers that are handed on to the renderer.
    ///
    /// The content type of every path that can be served is guessed, and the
    /// version is read off the script names. Both have to be there: `check`
    /// tells whether they are.
    pub fn new(assets: Asset, headers: Vec<String>) -> (s: ServeYew)
        requires
            mime_table(assets@.mime_keys()) is Ok,
            assets@.version() is Some,
        ensures
            s@.assets == assets@,
            s@.headers == headers.deep_view(),
            mime_table(assets@.mime_keys()) == Ok::<Map<Seq<char>, Seq<char>>, ConfigErrorView>(
                s@.mime,
            ),
            assets@.version() == Some(s@.version),
    {
        let typed = assets.typed_names();
        let code = assets.code_names();
        let mime_map = MimeMap::init(&typed, &code);
        let version = match assets.version() {
            Some(v) => v,
            None => vstd::pervasive::unreached(),
        };
        proof {
            assert forall|path: Seq<char>| (#[trigger] assets@.resolve(path)) is Some implies
                mime_map@.contains_key(path) by {
                lemma_served_paths_typed(&assets, mime_map@, path);
            }
        }
        ServeYew { assets, mime_map, version, headers }
    }

    /// Sets the service up for the files `assets`, where that can be done;
    /// else says why not.
    pub fn try_new(assets: Asset, headers: Vec<String>) -> (r: Result<ServeYew, ConfigError>)
        ensures
            match r {
                Ok(s) => {
                    &&& s@.assets == assets@
                    &&& s@.headers == headers.deep_view()
                    &&& mime_table(assets@.mime_keys()) == Ok::<
                        Map<Seq<char>, Seq<char>>,
                        ConfigErrorView,
                    >(s@.mime)
                    &&& assets@.version() == Some(s@.version)
                },
                Err(e) => {
                    ||| mime_table(assets@.mime_keys()) == Err::<
                        Map<Seq<char>, Seq<char>>,
                        ConfigErrorView,
                    >(e@)
                    ||| (mime_table(assets@.mime_keys()) is Ok && assets@.version() is None && e@
                        == ConfigErrorView::MissingVersion)
                },
            },
    {
        match ServeYew::check(&assets) {
            Ok(_) => Ok(ServeYew::new(assets, headers)),
            Err(e) => Err(e),
        }
    }

    /// The version of the build, as it was read off the script names when
    /// the service was set up.
    pub fn get_version(&self) -> (v: String)
        ensures
            v@ == self@.version,
    {
        self.version.clone()
    }

    /// The files that the service serves.
    pub fn assets(&self) -> (a: &Asset)
        ensures
            a@ == self@.assets,
    {
        &self.assets
    }

    /// The stored file served for the path `path`, which carries no leading
    /// separator: its bytes, content type, encoding and cache directive.
    pub fn get_asset(&self, path: &str) -> (r: Option<NegotiatedResponse>)
        ensures
            match r {
                Some(response) => self@.served(path@) == Some(response@),
                None => self@.served(path@) is None,
            },
    {
        proof {
            use_type_invariant(self);
        }
        match self.assets.get_fr(path) {
            None => None,
            Some((data, encoding)) => {
                let content_type = match self.mime_map.get(path) {
                    Some(t) => t.clone(),
                    None => vstd::pervasive::unreached(),
                };
                let cache_directive = if is_asset(path) {
                    CacheDirective::Immutable
                } else if same_text(content_type.as_str(), "text/html") {
                    CacheDirective::Revalidate
                } else {
                    CacheDirective::Immutable
                };
                Some(
                    NegotiatedResponse {
                        bytes: slice_to_vec(data.as_slice()),
                        content_type,
                        encoding,
                        cache_directive,
                    },
                )
            },
        }
    }

    /// Decides what to do for a request. `target` is the path of the request,
    /// or `None` where the target of the request holds no path.
    pub fn route(&self, target: Option<&str>) -> (step: Step<'_>)
        ensures
            step@ == self@.route(
                match target {
                    Some(path) => Some(path@),
                    None => None,
                },
            ),
    {
        let path = match target {
            Some(path) => path,
            None => {
                return Step::Respond(Reply::BadRequest);
            },
        };
        if same_text(path, "/version") {
            return Step::Respond(Reply::Version(self.version.clone()));
        }
        let chars = chars_of(path);
        let key = if chars.len() > 0 {
            path.substring_char(1, chars.len())
        } else {
            path
        };
        match self.get_asset(key) {
            Some(response) => Step::Respond(Reply::Content(response)),
            None => Step::Render {
                template: self.assets.get_index(),
                path: String::from_str(path),
            },
        }
    }

    /// The reply that carries a rendered document. `body` is the document,
    /// encoded as `Asset::document_encoding` says.
    pub fn document(&self, body: Vec<u8>) -> (reply: Reply)
        ensures
            reply@ == self@.document(body@),
    {
        Reply::Content(
            NegotiatedResponse {
                bytes: body,
                content_type: String::from_str("text/html"),
                encoding: self.assets.document_encoding(),
                cache_directive: CacheDirective::Revalidate,
            },
        )
    }

    /// The request headers that are handed on to the renderer: those whose
    /// name the service was set up with.
    pub fn extracted_headers(&self, request: &Vec<(String, String)>) -> (kept: Vec<
        (String, String),
    >)
        ensures
            kept.deep_view() == forwarded(request.deep_view(), self@.headers),
    {
        let ghost all = request.deep_view();
        let ghost allowed = self@.headers;
        let ghost keep = |h: (Seq<char>, Seq<char>)| allowed.contains(h.0);
        let mut kept: Vec<(String, String)> = Vec::new();
        let mut i: usize = 0;
        while i < request.len()
            invariant
                i <= request.len(),
                all == request.deep_view(),
                allowed == self@.headers,
                keep == |h: (Seq<char>, Seq<char>)| allowed.contains(h.0),
                kept.deep_view() == all.take(i as int).filter(keep),
            decreases request.len() - i,
        {
            let ghost before = kept.deep_view();
            proof {
                assert(all.take(i + 1) =~= all.take(i as int).push(all[i as int]));
                all.take(i as int).lemma_filter_push(all[i as int], keep);
            }
            if self.allows(request[i].0.as_str()) {
                kept.push((request[i].0.clone(), request[i].1.clone()));
                assert(kept.deep_view() =~= before.push(all[i as int]));
            }
            i = i + 1;
        }
        assert(all.take(i as int) =~= all);
        kept
    }

    /// Whether the header `name` is handed on to the renderer.
    pub fn allows(&self, name: &str) -> (r: bool)
        ensures
            r == self@.headers.contains(name@),
    {
        let mut i: usize = 0;
        while i < self.headers.len()
            invariant
                i <= self.headers.len(),
                forall|j: int| 0 <= j < i ==> self.headers.deep_view()[j] != name@,
            decreases self.headers.len() - i,
        {
            if same_text(self.headers[i].as_str(), name) {
                assert(self.headers.deep_view()[i as int] == name@);
                return true;
            }
            i = i + 1;
        }
        false
    }
}

/// A stored file served for an asset-class path is immutable, and a rendered
/// document is revalidated; the `Cache-Control` header says so.
pub proof fn lemma_cache_headers(s: ServeYewView, path: Seq<char>, body: Seq<u8>)
    ensures
        is_asset_path(request_key(path)) ==> (s.route(Some(path)) matches StepView::Respond(
            ReplyView::Content(r),
        ) ==> r.cache_directive == CacheDirective::Immutable && ReplyView::Content(r).headers()[2]
            == ("cache-control"@, "public, max-age=31536000, immutable"@)),
        s.document(body).headers()[2] == ("cache-control"@, "max-age=0, private, must-revalidate"@),
        s.document(body).headers()[0] == ("content-type"@, "text/html"@),
{
}

/// A request for an asset-class path gets the bytes of the compressed
/// artifact, encoded with Brotli, where compression is enabled and the
/// mapping lists the path; it gets the bytes of the identity file, not
/// encoded, where compression is disabled.
pub proof fn lemma_asset_requests(s: ServeYewView, path: Seq<char>)
    requires
        path != version_path(),
        is_asset_path(request_key(path)),
    ensures
        s.assets.compressed matches Some(c) ==> (c.asset_mapping.contains_key(request_key(path))
            && c.assets.contains_key(c.asset_mapping[request_key(path)]) ==> (s.route(
            Some(path),
        ) matches StepView::Respond(ReplyView::Content(r)) && r.encoding == Encoding::Brotli
            && r.bytes == c.assets[c.asset_mapping[request_key(path)]])),
        s.assets.compressed is None && s.assets.identity.contains_key(request_key(path)) ==> (
        s.route(Some(path)) matches StepView::Respond(ReplyView::Content(r)) && r.encoding
            == Encoding::Identity && r.bytes == s.assets.identity[request_key(path)]),
{
    lemma_asset_negotiation(s.assets, request_key(path));
}

/// A request for the version path gets the version stream, whatever else the
/// service holds; its event carries the version of the build.
pub proof fn lemma_version_beacon(s: ServeYewView)
    ensures
        s.route(Some(version_path())) == StepView::Respond(ReplyView::Version(s.version)),
        ReplyView::Version(s.version).status() == 200,
        ReplyView::Version(s.version).headers()[1] == (
            "cache-control"@,
            "max-age=0, private, must-revalidate"@,
        ),
{
}

/// A request whose target holds no path gets status 400, no header and an
/// empty body.
pub proof fn lemma_malformed_request(s: ServeYewView)
    ensures
        s.route(None) == StepView::Respond(ReplyView::BadRequest),
        ReplyView::BadRequest.status() == 400,
        ReplyView::BadRequest.headers().len() == 0,
        ReplyView::BadRequest.body().len() == 0,
{
}

} // verus!
