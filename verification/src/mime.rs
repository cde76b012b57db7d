//! Content types by path: a table that is filled once, from the paths that
//! can be served, and then looked up by exact path.

use crate::digest::{is_hex, is_hex_text};
use crate::naming::{
    br_suffix, file_name_of, lemma_path_parts, parse_artifact, CompressedArtifact, NameError,
};
use crate::text::chars_of;
use crate::table::Table;
use vstd::prelude::*;
use vstd::string::{StrSliceExecFns, StringExecFns};

verus! {

/// The first media type that `mime_guess::from_path` offers for `path`, if it
/// offers any.
pub uninterp spec fn guessed_mime(path: Seq<char>) -> Option<Seq<char>>;

/// Calls `mime_guess::from_path` on `path` and takes the first media type of
/// the guess with `first_raw`. Trusted: that the answer depends on the text of
/// `path` alone. The guess goes by the extension of the path and reads no
/// file.
#[verifier::external_body]
fn guess_mime(path: &str) -> (r: Option<&'static str>)
    ensures
        match r {
            Some(m) => guessed_mime(path@) == Some(m@),
            None => guessed_mime(path@) is None,
        },
{
    mime_guess::from_path(path).first_raw()
}

/// Why the served files cannot be set up.
#[derive(Clone, Debug, PartialEq, Eq)]
pub enum ConfigError {
    /// No content type is known for this path.
    UnknownMime(String),
    /// This path of the compressed set is no artifact name.
    BadArtifactName(String),
    /// No script carries the version.
    MissingVersion,
    /// The identity set has no index document.
    MissingIndex,
}

/// A `ConfigError` in the mathematical model.
pub enum ConfigErrorView {
    UnknownMime(Seq<char>),
    BadArtifactName(Seq<char>),
    MissingVersion,
    MissingIndex,
}

impl View for ConfigError {
    type V = ConfigErrorView;

    open spec fn view(&self) -> ConfigErrorView {
        match self {
            ConfigError::UnknownMime(p) => ConfigErrorView::UnknownMime(p@),
            ConfigError::BadArtifactName(p) => ConfigErrorView::BadArtifactName(p@),
            ConfigError::MissingVersion => ConfigErrorView::MissingVersion,
            ConfigError::MissingIndex => ConfigErrorView::MissingIndex,
        }
    }
}

/// A path to register, or the reason why there is none.
pub type MimeKey = Result<Seq<char>, ConfigErrorView>;

/// The key under which an identity path is registered: the path itself.
pub open spec fn identity_key() -> spec_fn(Seq<char>) -> MimeKey {
    |name: Seq<char>| Ok::<Seq<char>, ConfigErrorView>(name)
}

/// The identity path that the compressed path `name` stands for: `name`
/// without its `.br`, and without the hash segment where `name` is the
/// artifact name of an asset. `None` where `name` does not end in `.br`.
pub open spec fn artifact_source(name: Seq<char>) -> Option<Seq<char>> {
    if !br_suffix().is_suffix_of(file_name_of(name)) {
        None
    } else {
        match parse_artifact(name) {
            Ok(a) => if a.hash_suffix is None || is_hex(a.hash_suffix.unwrap()) {
                Some(a.source_identity_path)
            } else {
                Some(name.take(name.len() - 3))
            },
            Err(_) => Some(name.take(name.len() - 3)),
        }
    }
}

/// The key under which the path of a compressed artifact is registered: the
/// identity path it stands for.
pub open spec fn artifact_key() -> spec_fn(Seq<char>) -> MimeKey {
    |name: Seq<char>|
        match artifact_source(name) {
            Some(source) => Ok::<Seq<char>, ConfigErrorView>(source),
            None => Err::<Seq<char>, ConfigErrorView>(ConfigErrorView::BadArtifactName(name)),
        }
}

/// Why `key` cannot be registered, if it cannot: it is no key, or no content
/// type is known for it.
pub open spec fn key_failure(key: MimeKey) -> Option<ConfigErrorView> {
    match key {
        Err(e) => Some(e),
        Ok(k) => if guessed_mime(k) is None {
            Some(ConfigErrorView::UnknownMime(k))
        } else {
            None
        },
    }
}

/// The table that registering `keys` in order builds, or the first failure on
/// the way: a key that is none, or a key without a known content type.
pub open spec fn mime_table(keys: Seq<MimeKey>) -> Result<
    Map<Seq<char>, Seq<char>>,
    ConfigErrorView,
>
    decreases keys.len(),
{
    if keys.len() == 0 {
        Ok(Map::empty())
    } else {
        match mime_table(keys.drop_last()) {
            Err(e) => Err(e),
            Ok(m) => match key_failure(keys.last()) {
                Some(e) => Err(e),
                None => Ok(m.insert(keys.last()->Ok_0, guessed_mime(keys.last()->Ok_0)->0)),
            },
        }
    }
}

/// The keys that `MimeMap::init` registers, in order: the identity paths,
/// then the identity paths of the compressed artifacts.
pub open spec fn init_keys(identity: Seq<Seq<char>>, compressed: Seq<Seq<char>>) -> Seq<MimeKey> {
    identity.map_values(identity_key()) + compressed.map_values(artifact_key())
}

/// A failure on a prefix of the keys is the failure on all of them.
pub proof fn lemma_mime_table_fails(keys: Seq<MimeKey>, n: int)
    requires
        0 <= n <= keys.len(),
        mime_table(keys.take(n)) is Err,
    ensures
        mime_table(keys) == mime_table(keys.take(n)),
    decreases keys.len(),
{
    if n < keys.len() {
        assert(keys.drop_last().take(n) =~= keys.take(n));
        lemma_mime_table_fails(keys.drop_last(), n);
    } else {
        assert(keys.take(n) =~= keys);
    }
}

/// A table that was built holds every key that was registered.
pub proof fn lemma_mime_table_keys(keys: Seq<MimeKey>, i: int)
    requires
        mime_table(keys) is Ok,
        0 <= i < keys.len(),
    ensures
        key_failure(keys[i]) is None,
        mime_table(keys)->Ok_0.contains_key(keys[i]->Ok_0),
        mime_table(keys)->Ok_0[keys[i]->Ok_0] == guessed_mime(keys[i]->Ok_0)->0,
    decreases keys.len(),
{
    if i < keys.len() - 1 {
        lemma_mime_table_keys(keys.drop_last(), i);
        assert(keys.drop_last()[i] == keys[i]);
    }
}

/// The identity path that the compressed path `name` stands for.
pub fn artifact_source_of(name: &str) -> (r: Option<String>)
    ensures
        match r {
            Some(source) => artifact_source(name@) == Some(source@),
            None => artifact_source(name@) is None,
        },
{
    let parsed = CompressedArtifact::parse(name);
    let hashed = match &parsed {
        Err(NameError::MissingSuffix) => {
            return None;
        },
        Ok(a) => match &a.hash_suffix {
            None => true,
            Some(h) => is_hex_text(h.as_str()),
        },
        Err(_) => false,
    };
    if hashed {
        match parsed {
            Ok(a) => Some(a.source_identity_path),
            Err(_) => vstd::pervasive::unreached(),
        }
    } else {
        let chars = chars_of(name);
        proof {
            lemma_path_parts(name@);
        }
        Some(String::from_str(name.substring_char(0, chars.len() - 3)))
    }
}

/// The content types of the paths that can be served.
#[derive(Debug)]
pub struct MimeMap {
    table: Table<String>,
}

impl View for MimeMap {
    type V = Map<Seq<char>, Seq<char>>;

    closed spec fn view(&self) -> Map<Seq<char>, Seq<char>> {
        self.table@.map_values(|t: String| t@)
    }
}

impl MimeMap {
    /// A table without entries.
    pub fn new() -> (m: MimeMap)
        ensures
            m@ == Map::<Seq<char>, Seq<char>>::empty(),
    {
        let m = MimeMap { table: Table::new() };
        assert(m@ =~= Map::<Seq<char>, Seq<char>>::empty());
        m
    }

    /// Registers `path` under the content type guessed from it.
    pub fn register(&mut self, path: &str) -> (r: Result<(), ConfigError>)
        ensures
            match r {
                Ok(_) => guessed_mime(path@) is Some && final(self)@ == old(self)@.insert(
                    path@,
                    guessed_mime(path@).unwrap(),
                ),
                Err(e) => guessed_mime(path@) is None && final(self)@ == old(self)@ && e@
                    == ConfigErrorView::UnknownMime(path@),
            },
    {
        match guess_mime(path) {
            Some(content_type) => {
                self.table.insert(String::from_str(path), String::from_str(content_type));
                assert(self@ =~= old(self)@.insert(path@, content_type@));
                Ok(())
            },
            None => Err(ConfigError::UnknownMime(String::from_str(path))),
        }
    }

    /// Registers the identity path that the compressed path `name` stands
    /// for, under the content type guessed from that path.
    pub fn register_artifact(&mut self, name: &str) -> (r: Result<(), ConfigError>)
        ensures
            match r {
                Ok(_) => key_failure(artifact_key()(name@)) is None && final(self)@ == old(
                    self,
                )@.insert(artifact_source(name@)->0, guessed_mime(artifact_source(name@)->0)->0),
                Err(e) => key_failure(artifact_key()(name@)) == Some(e@) && final(self)@ == old(
                    self,
                )@,
            },
    {
        match artifact_source_of(name) {
            Some(source) => self.register(source.as_str()),
            None => Err(ConfigError::BadArtifactName(String::from_str(name))),
        }
    }

    /// Whether a table can be built for a set of identity paths and a set of
    /// paths of compressed artifacts; where it cannot, the first failure.
    pub fn check(identity: &Vec<String>, compressed: &Vec<String>) -> (r: Result<(), ConfigError>)
        ensures
            match r {
                Ok(_) => mime_table(init_keys(identity.deep_view(), compressed.deep_view())) is Ok,
                Err(e) => mime_table(init_keys(identity.deep_view(), compressed.deep_view()))
                    == Err::<Map<Seq<char>, Seq<char>>, ConfigErrorView>(e@),
            },
    {
        let ghost keys = init_keys(identity.deep_view(), compressed.deep_view());
        let mut i: usize = 0;
        while i < identity.len()
            invariant
                i <= identity.len(),
                keys == init_keys(identity.deep_view(), compressed.deep_view()),
                mime_table(keys.take(i as int)) is Ok,
            decreases identity.len() - i,
        {
            proof {
                assert(keys.take(i + 1).drop_last() =~= keys.take(i as int));
                assert(keys.take(i + 1).last() == Ok::<Seq<char>, ConfigErrorView>(
                    identity.deep_view()[i as int],
                ));
            }
            if guess_mime(identity[i].as_str()).is_none() {
                proof {
                    lemma_mime_table_fails(keys, i + 1);
                }
                return Err(ConfigError::UnknownMime(identity[i].clone()));
            }
            i = i + 1;
        }
        let base: usize = identity.len();
        let mut k: usize = 0;
        while k < compressed.len()
            invariant
                k <= compressed.len(),
                base == identity.len(),
                keys == init_keys(identity.deep_view(), compressed.deep_view()),
                mime_table(keys.take(base + k)) is Ok,
            decreases compressed.len() - k,
        {
            proof {
                assert(keys.take(base + k + 1).drop_last() =~= keys.take(base + k));
                assert(keys.take(base + k + 1).last() == artifact_key()(
                    compressed.deep_view()[k as int],
                ));
            }
            let failure = match artifact_source_of(compressed[k].as_str()) {
                None => Some(ConfigError::BadArtifactName(compressed[k].clone())),
                Some(source) => if guess_mime(source.as_str()).is_none() {
                    Some(ConfigError::UnknownMime(source))
                } else {
                    None
                },
            };
            match failure {
                Some(e) => {
                    proof {
                        lemma_mime_table_fails(keys, base + k + 1);
                    }
                    return Err(e);
                },
                None => {},
            }
            k = k + 1;
        }
        assert(keys.take(base + k) =~= keys);
        Ok(())
    }

    /// The table for a set of identity paths and a set of paths of compressed
    /// artifacts. Each artifact is registered under the identity path it
    /// stands for. Every path has to have a known content type: `check`
    /// tells whether that is so.
    pub fn init(identity: &Vec<String>, compressed: &Vec<String>) -> (m: MimeMap)
        requires
            mime_table(init_keys(identity.deep_view(), compressed.deep_view())) is Ok,
        ensures
            mime_table(init_keys(identity.deep_view(), compressed.deep_view())) == Ok::<
                Map<Seq<char>, Seq<char>>,
                ConfigErrorView,
            >(m@),
    {
        let ghost keys = init_keys(identity.deep_view(), compressed.deep_view());
        let mut mimes = MimeMap::new();
        let mut i: usize = 0;
        while i < identity.len()
            invariant
                i <= identity.len(),
                keys == init_keys(identity.deep_view(), compressed.deep_view()),
                mime_table(keys) is Ok,
                mime_table(keys.take(i as int)) == Ok::<Map<Seq<char>, Seq<char>>, ConfigErrorView>(
                    mimes@,
                ),
            decreases identity.len() - i,
        {
            proof {
                assert(keys.take(i + 1).drop_last() =~= keys.take(i as int));
                assert(keys[i as int] == Ok::<Seq<char>, ConfigErrorView>(
                    identity.deep_view()[i as int],
                ));
                lemma_mime_table_keys(keys, i as int);
            }
            match mimes.register(identity[i].as_str()) {
                Ok(_) => {},
                Err(_) => vstd::pervasive::unreached(),
            }
            i = i + 1;
        }
        let base: usize = identity.len();
        let mut k: usize = 0;
        while k < compressed.len()
            invariant
                k <= compressed.len(),
                base == identity.len(),
                keys == init_keys(identity.deep_view(), compressed.deep_view()),
                mime_table(keys) is Ok,
                mime_table(keys.take(base + k)) == Ok::<Map<Seq<char>, Seq<char>>, ConfigErrorView>(
                    mimes@,
                ),
            decreases compressed.len() - k,
        {
            proof {
                assert(keys.take(base + k + 1).drop_last() =~= keys.take(base + k));
                assert(keys[base + k] == artifact_key()(compressed.deep_view()[k as int]));
                lemma_mime_table_keys(keys, base + k);
            }
            match mimes.register_artifact(compressed[k].as_str()) {
                Ok(_) => {},
                Err(_) => vstd::pervasive::unreached(),
            }
            k = k + 1;
        }
        assert(keys.take(base + k) =~= keys);
        mimes
    }

    /// The table for a set of identity paths and a set of paths of compressed
    /// artifacts, or the first failure on the way: a compressed path that
    /// does not end in `.br`, or a path without a known content type.
    pub fn try_init(identity: &Vec<String>, compressed: &Vec<String>) -> (r: Result<
        MimeMap,
        ConfigError,
    >)
        ensures
            match r {
                Ok(m) => mime_table(init_keys(identity.deep_view(), compressed.deep_view())) == Ok::<
                    Map<Seq<char>, Seq<char>>,
                    ConfigErrorView,
                >(m@),
                Err(e) => mime_table(init_keys(identity.deep_view(), compressed.deep_view()))
                    == Err::<Map<Seq<char>, Seq<char>>, ConfigErrorView>(e@),
            },
    {
        match MimeMap::check(identity, compressed) {
            Ok(_) => Ok(MimeMap::init(identity, compressed)),
            Err(e) => Err(e),
        }
    }

    /// The content type registered for `path`, if there is one.
    pub fn get(&self, path: &str) -> (r: Option<&String>)
        ensures
            match r {
                Some(t) => self@.contains_key(path@) && self@[path@] == t@,
                None => !self@.contains_key(path@),
            },
    {
        self.table.get(path)
    }
}

} // verus!
