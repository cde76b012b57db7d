//! The rule that names the compressed artifact of an identity file, and its
//! inverse.
//!
//! Paths are relative to the root of their tree and use `/` between
//! components. A file outside `assets/` named `dir/name.ext` has the artifact
//! `dir/name.ext.br`. A file under `assets/` with content hash `H` has the
//! artifact `assets/name-H.ext.br`, where `ext` is what follows the last `.` of
//! the file's name and `name` is what stands before it.

use crate::digest::{content_hash, content_hash_of, is_hex, is_hex_text};
use crate::text::{
    chars_of, ends_with, free_of, last_index_of, lemma_last_index_is, lemma_last_index_joint,
    lemma_last_index_none, slice_of, starts_with,
};
use vstd::prelude::*;
use vstd::string::{StrSliceExecFns, StringExecFns};

verus! {

/// The prefix of every asset-class path: `assets/`.
pub open spec fn assets_prefix() -> Seq<char> {
    seq!['a', 's', 's', 'e', 't', 's', '/']
}

/// The suffix of every compressed artifact: `.br`.
pub open spec fn br_suffix() -> Seq<char> {
    seq!['.', 'b', 'r']
}

/// Whether `path` lies under `assets/`.
pub open spec fn is_asset_path(path: Seq<char>) -> bool {
    assets_prefix().is_prefix_of(path)
}

/// The index at which the last component of `path` starts.
pub open spec fn name_start(path: Seq<char>) -> int {
    match path.index_of_last('/') {
        Some(i) => i + 1,
        None => 0,
    }
}

/// What stands before the last component of `path`: empty, or a directory
/// path with its closing `/`.
pub open spec fn parent_of(path: Seq<char>) -> Seq<char> {
    path.take(name_start(path))
}

/// The last component of `path`.
pub open spec fn file_name_of(path: Seq<char>) -> Seq<char> {
    path.skip(name_start(path))
}

/// Whether the file `path` is left without a compressed artifact: media that
/// is compressed already, and every `index.html`.
pub open spec fn is_skipped(path: Seq<char>) -> bool {
    let name = file_name_of(path);
    ||| ".png"@.is_suffix_of(name)
    ||| ".jpg"@.is_suffix_of(name)
    ||| ".jpeg"@.is_suffix_of(name)
    ||| ".gif"@.is_suffix_of(name)
    ||| ".ico"@.is_suffix_of(name)
    ||| ".mp3"@.is_suffix_of(name)
    ||| ".mp4"@.is_suffix_of(name)
    ||| ".webm"@.is_suffix_of(name)
    ||| ".ogg"@.is_suffix_of(name)
    ||| ".wav"@.is_suffix_of(name)
    ||| name == "index.html"@
}

/// The artifact path of the asset-class file `path` whose content hash is
/// `hash`. A name without a `.` counts as an extension with an empty stem.
pub open spec fn asset_target(path: Seq<char>, hash: Seq<char>) -> Seq<char> {
    let name = file_name_of(path);
    match name.index_of_last('.') {
        Some(d) => parent_of(path) + name.take(d) + seq!['-'] + hash + seq!['.'] + name.skip(
            d + 1,
        ) + br_suffix(),
        None => parent_of(path) + seq!['-'] + hash + seq!['.'] + name + br_suffix(),
    }
}

/// An identity file in the mathematical model: its path, and its content hash
/// where it has one.
pub struct GenerationSpecView {
    pub identity_file: Seq<char>,
    pub hash: Option<Seq<char>>,
}

impl GenerationSpecView {
    /// The path of the compressed artifact of this file.
    pub open spec fn target(self) -> Seq<char> {
        match self.hash {
            Some(h) => asset_target(self.identity_file, h),
            None => self.identity_file + br_suffix(),
        }
    }

    /// A file carries a hash exactly if it is asset-class, and the hash is
    /// written in hexadecimal.
    pub open spec fn wf(self) -> bool {
        &&& self.hash is Some <==> is_asset_path(self.identity_file)
        &&& self.hash matches Some(h) ==> is_hex(h)
    }

    /// Whether the naming rule can be inverted on this file: an asset-class
    /// file needs a `.` in its name.
    pub open spec fn invertible(self) -> bool {
        self.hash is Some ==> file_name_of(self.identity_file).contains('.')
    }
}

/// An identity file, with its content hash where it is asset-class.
#[derive(Clone, Debug, PartialEq, Eq)]
pub struct GenerationSpec {
    pub identity_file: String,
    pub hash: Option<String>,
}

impl View for GenerationSpec {
    type V = GenerationSpecView;

    open spec fn view(&self) -> GenerationSpecView {
        GenerationSpecView {
            identity_file: self.identity_file@,
            hash: match self.hash {
                Some(h) => Some(h@),
                None => None,
            },
        }
    }
}

impl DeepView for GenerationSpec {
    type V = GenerationSpecView;

    open spec fn deep_view(&self) -> GenerationSpecView {
        self@
    }
}

/// Why a path in the artifact tree is not the name of a compressed artifact.
#[derive(Clone, Copy, Debug, PartialEq, Eq, Structural)]
pub enum NameError {
    /// The file name does not end in `.br`.
    MissingSuffix,
    /// An asset-class name holds no `.` before `.br`.
    MissingExtension,
    /// An asset-class name holds no `-` before its extension.
    MissingHash,
}

/// A compressed artifact in the mathematical model.
pub struct CompressedArtifactView {
    pub relative_path: Seq<char>,
    pub source_identity_path: Seq<char>,
    pub hash_suffix: Option<Seq<char>>,
}

/// A compressed artifact: where it lies, the identity file it was made from,
/// and the content hash in its name where it is asset-class.
#[derive(Clone, Debug, PartialEq, Eq)]
pub struct CompressedArtifact {
    pub relative_path: String,
    pub source_identity_path: String,
    pub hash_suffix: Option<String>,
}

impl View for CompressedArtifact {
    type V = CompressedArtifactView;

    open spec fn view(&self) -> CompressedArtifactView {
        CompressedArtifactView {
            relative_path: self.relative_path@,
            source_identity_path: self.source_identity_path@,
            hash_suffix: match self.hash_suffix {
                Some(h) => Some(h@),
                None => None,
            },
        }
    }
}

/// The naming rule read backwards: the artifact that lies at `path`, or why
/// `path` names none.
pub open spec fn parse_artifact(path: Seq<char>) -> Result<CompressedArtifactView, NameError> {
    let name = file_name_of(path);
    if !br_suffix().is_suffix_of(name) {
        Err(NameError::MissingSuffix)
    } else if !is_asset_path(path) {
        Ok(
            CompressedArtifactView {
                relative_path: path,
                source_identity_path: path.take(path.len() - 3),
                hash_suffix: None,
            },
        )
    } else {
        let stripped = name.take(name.len() - 3);
        match stripped.index_of_last('.') {
            None => Err(NameError::MissingExtension),
            Some(d) => {
                let rest = stripped.take(d);
                match rest.index_of_last('-') {
                    None => Err(NameError::MissingHash),
                    Some(k) => Ok(
                        CompressedArtifactView {
                            relative_path: path,
                            source_identity_path: parent_of(path) + rest.take(k) + seq!['.']
                                + stripped.skip(d + 1),
                            hash_suffix: Some(rest.skip(k + 1)),
                        },
                    ),
                }
            },
        }
    }
}

/// Appending characters other than `c` leaves the last index of `c` where it
/// was.
pub proof fn lemma_last_index_append(s: Seq<char>, t: Seq<char>, c: char)
    requires
        free_of(t, c),
    ensures
        (s + t).index_of_last(c) == s.index_of_last(c),
{
    s.index_of_last_ensures(c);
    let u = s + t;
    match s.index_of_last(c) {
        Some(i) => {
            assert forall|j: int| i < j < u.len() implies u[j] != c by {
                if j >= s.len() {
                    assert(u[j] == t[j - s.len()]);
                }
            }
            lemma_last_index_is(u, c, i);
        },
        None => {
            assert forall|j: int| 0 <= j < u.len() implies u[j] != c by {
                if j < s.len() {
                    assert(u[j] == s[j]);
                    if s[j] == c {
                        assert(s.contains(c));
                    }
                } else {
                    assert(u[j] == t[j - s.len()]);
                }
            }
            lemma_last_index_none(u, c);
        },
    }
}

/// A path is its parent followed by its file name, and the file name holds
/// no `/`.
pub proof fn lemma_path_parts(path: Seq<char>)
    ensures
        0 <= name_start(path) <= path.len(),
        parent_of(path) + file_name_of(path) == path,
        free_of(file_name_of(path), '/'),
        name_start(parent_of(path)) == name_start(path),
{
    path.index_of_last_ensures('/');
    let k = name_start(path);
    assert(parent_of(path) + file_name_of(path) =~= path);
    assert forall|i: int| 0 <= i < file_name_of(path).len() implies file_name_of(path)[i]
        != '/' by {
        assert(file_name_of(path)[i] == path[k + i]);
    }
    lemma_last_index_append(parent_of(path), file_name_of(path), '/');
}

/// A path keeps its parent when its file name is replaced by one without `/`.
pub proof fn lemma_rename(path: Seq<char>, name: Seq<char>)
    requires
        free_of(name, '/'),
    ensures
        parent_of(parent_of(path) + name) == parent_of(path),
        file_name_of(parent_of(path) + name) == name,
{
    lemma_path_parts(path);
    let parent = parent_of(path);
    lemma_last_index_append(parent, name, '/');
    assert((parent + name).take(parent.len() as int) =~= parent);
    assert((parent + name).skip(parent.len() as int) =~= name);
}

/// Hexadecimal digits are none of the characters the naming rule uses.
pub proof fn lemma_hex_is_plain(h: Seq<char>)
    requires
        is_hex(h),
    ensures
        free_of(h, '/'),
        free_of(h, '.'),
        free_of(h, '-'),
{
    assert forall|i: int| 0 <= i < h.len() implies h[i] != '/' && h[i] != '.' && h[i] != '-' by {
        assert(crate::digest::is_hex_digit(h[i]));
    }
}

/// Whether a path is asset-class is decided by its parent.
pub proof fn lemma_asset_by_parent(path: Seq<char>)
    ensures
        is_asset_path(path) <==> is_asset_path(parent_of(path)),
{
    lemma_path_parts(path);
    let parent = parent_of(path);
    if is_asset_path(path) {
        assert(path.subrange(0, 7)[6] == '/');
        assert(path[6] == '/');
        path.index_of_last_ensures('/');
        assert(path.contains('/'));
        assert(name_start(path) >= 7);
        assert(parent.subrange(0, 7) =~= path.subrange(0, 7));
    }
    if is_asset_path(parent) {
        assert(path.subrange(0, 7) =~= parent.subrange(0, 7));
    }
}

/// The naming rule can be read backwards: the artifact path of a well-formed
/// identity file parses to that file's path and hash.
pub proof fn lemma_target_round_trip(g: GenerationSpecView)
    requires
        g.wf(),
        g.invertible(),
    ensures
        parse_artifact(g.target()) == Ok::<CompressedArtifactView, NameError>(
            CompressedArtifactView {
                relative_path: g.target(),
                source_identity_path: g.identity_file,
                hash_suffix: g.hash,
            },
        ),
{
    let p = g.identity_file;
    let t = g.target();
    lemma_path_parts(p);
    match g.hash {
        None => {
            assert(free_of(br_suffix(), '/'));
            lemma_last_index_append(p, br_suffix(), '/');
            assert(file_name_of(t) =~= file_name_of(p) + br_suffix());
            assert(br_suffix().is_suffix_of(file_name_of(t)));
            assert(t.take(t.len() - 3) =~= p);
            if is_asset_path(t) {
                assert(t.subrange(0, 7)[6] == '/');
                assert(t[6] == '/');
                assert(p.len() >= 7);
                assert(p.subrange(0, 7) =~= t.subrange(0, 7));
            }
        },
        Some(h) => {
            lemma_hex_is_plain(h);
            let name = file_name_of(p);
            let parent = parent_of(p);
            name.index_of_last_ensures('.');
            let d = name.index_of_last('.').unwrap();
            let stem = name.take(d);
            let ext = name.skip(d + 1);
            let rest = stem + seq!['-'] + h;
            let stripped = rest + seq!['.'] + ext;
            let new_name = stripped + br_suffix();
            assert(t =~= parent + new_name);
            assert forall|i: int| 0 <= i < ext.len() implies ext[i] != '.' && ext[i] != '/' by {
                assert(ext[i] == name[d + 1 + i]);
            }
            assert forall|i: int| 0 <= i < stem.len() implies stem[i] != '/' by {
                assert(stem[i] == name[i]);
            }
            assert(free_of(new_name, '/'));
            lemma_rename(p, new_name);
            lemma_asset_by_parent(p);
            lemma_asset_by_parent(t);
            assert(br_suffix().is_suffix_of(new_name));
            assert(new_name.take(new_name.len() - 3) =~= stripped);
            lemma_last_index_joint(rest, '.', ext);
            lemma_last_index_joint(stem, '-', h);
            assert(parent + stem + seq!['.'] + ext =~= parent + name);
        },
    }
}

/// Two well-formed identity files with the same artifact path are the same
/// file.
pub proof fn lemma_target_injective(a: GenerationSpecView, b: GenerationSpecView)
    requires
        a.wf(),
        a.invertible(),
        b.wf(),
        b.invertible(),
        a.target() == b.target(),
    ensures
        a == b,
{
    lemma_target_round_trip(a);
    lemma_target_round_trip(b);
}

/// For a file outside `assets/`, the artifact path is the file's path and
/// `.br`, whatever the file holds.
pub proof fn lemma_plain_target_ignores_content(
    path: Seq<char>,
    old_data: Seq<u8>,
    new_data: Seq<u8>,
)
    requires
        !is_asset_path(path),
    ensures
        spec_of(path, old_data).target() == spec_of(path, new_data).target(),
        spec_of(path, old_data).target() == path + br_suffix(),
        spec_of(path, old_data).hash is None,
{
}

/// The identity file at `path` that holds `data`.
pub open spec fn spec_of(path: Seq<char>, data: Seq<u8>) -> GenerationSpecView {
    GenerationSpecView {
        identity_file: path,
        hash: if is_asset_path(path) {
            Some(content_hash_of(data))
        } else {
            None
        },
    }
}

/// The relative path that `pathdiff::diff_paths` gives for the way from the
/// directory `base` to `path`, as text; `None` where it gives none.
pub uninterp spec fn path_difference(path: Seq<char>, base: Seq<char>) -> Option<Seq<char>>;

/// Calls `pathdiff::diff_paths` for the way from the directory `root` to
/// `path`, and hands the relative path back as text. Trusted: that the
/// answer depends on the text of the two paths alone. The crate compares
/// the paths component by component; it reads no file and asks for no
/// working directory.
#[verifier::external_body]
pub(crate) fn relative_to(path: &str, root: &str) -> (relative: Option<String>)
    ensures
        match relative {
            Some(r) => path_difference(path@, root@) == Some(r@),
            None => path_difference(path@, root@) is None,
        },
{
    pathdiff::diff_paths(path, root).and_then(|p| p.into_os_string().into_string().ok())
}

/// The identity file that is found at `path` in the tree rooted at `root`
/// and holds `data`: it is known by its path relative to the root. `None`
/// where there is no such relative path.
pub open spec fn located(path: Seq<char>, root: Seq<char>, data: Seq<u8>) -> Option<
    GenerationSpecView,
> {
    match path_difference(path, root) {
        Some(relative) => Some(spec_of(relative, data)),
        None => None,
    }
}

/// The index at which the last component of `chars` starts.
fn name_start_of(chars: &Vec<char>) -> (k: usize)
    ensures
        k == name_start(chars@),
        k <= chars.len(),
{
    proof {
        chars@.index_of_last_ensures('/');
    }
    match last_index_of(chars, '/') {
        Some(i) => i + 1,
        None => 0,
    }
}

/// Whether `path` lies under `assets/`.
pub fn is_asset(path: &str) -> (r: bool)
    ensures
        r == is_asset_path(path@),
{
    proof {
        reveal_strlit("assets/");
    }
    let chars = chars_of(path);
    let prefix = chars_of("assets/");
    assert(prefix@ =~= assets_prefix());
    starts_with(&chars, &prefix)
}

/// Whether `name` ends in the text `suffix`.
fn name_ends_with(name: &Vec<char>, suffix: &str) -> (r: bool)
    ensures
        r == suffix@.is_suffix_of(name@),
{
    let s = chars_of(suffix);
    ends_with(name, &s)
}

/// Whether the file `path` is left without a compressed artifact.
pub fn skipped(path: &str) -> (r: bool)
    ensures
        r == is_skipped(path@),
{
    let chars = chars_of(path);
    let start = name_start_of(&chars);
    let name = slice_of(&chars, start, chars.len());
    let index = chars_of("index.html");
    name_ends_with(&name, ".png") || name_ends_with(&name, ".jpg") || name_ends_with(
        &name,
        ".jpeg",
    ) || name_ends_with(&name, ".gif") || name_ends_with(&name, ".ico") || name_ends_with(
        &name,
        ".mp3",
    ) || name_ends_with(&name, ".mp4") || name_ends_with(&name, ".webm") || name_ends_with(
        &name,
        ".ogg",
    ) || name_ends_with(&name, ".wav") || crate::text::same_chars(&name, &index)
}

impl GenerationSpec {
    /// The identity file at `path` that holds `data`. The content is hashed
    /// only where the path is asset-class.
    pub fn new(path: String, data: &[u8]) -> (g: GenerationSpec)
        ensures
            g@ == spec_of(path@, data@),
            g@.wf(),
    {
        let hash = if is_asset(path.as_str()) {
            Some(content_hash(data))
        } else {
            None
        };
        GenerationSpec { identity_file: path, hash }
    }

    /// The identity file that was found at `path` in the tree rooted at
    /// `root` and holds `data`, under its path relative to the root; `None`
    /// where there is no such path.
    pub fn locate(path: &str, root: &str, data: &[u8]) -> (r: Option<GenerationSpec>)
        ensures
            match r {
                Some(g) => located(path@, root@, data@) == Some(g@) && g@.wf(),
                None => located(path@, root@, data@) is None,
            },
    {
        match relative_to(path, root) {
            Some(relative) => Some(GenerationSpec::new(relative, data)),
            None => None,
        }
    }

    /// Whether the file carries a hash exactly if it is asset-class, and a
    /// hash in hexadecimal.
    pub fn is_wf(&self) -> (r: bool)
        ensures
            r == self@.wf(),
    {
        let asset = is_asset(self.identity_file.as_str());
        match &self.hash {
            Some(h) => asset && is_hex_text(h.as_str()),
            None => !asset,
        }
    }

    /// Whether the naming rule can be inverted on this file.
    pub fn is_invertible(&self) -> (r: bool)
        ensures
            r == self@.invertible(),
    {
        match &self.hash {
            None => true,
            Some(_) => {
                let chars = chars_of(self.identity_file.as_str());
                let start = name_start_of(&chars);
                let name = slice_of(&chars, start, chars.len());
                proof {
                    name@.index_of_last_ensures('.');
                }
                last_index_of(&name, '.').is_some()
            },
        }
    }

    /// The path of the compressed artifact of this file.
    pub fn to_target(&self) -> (target: String)
        ensures
            target@ == self@.target(),
    {
        proof {
            reveal_strlit(".br");
            reveal_strlit("-");
            reveal_strlit(".");
        }
        let path = self.identity_file.as_str();
        match &self.hash {
            None => {
                let mut target = String::from_str(path);
                target.append(".br");
                assert(target@ =~= self@.target());
                target
            },
            Some(hash) => {
                let chars = chars_of(path);
                let start = name_start_of(&chars);
                let name = slice_of(&chars, start, chars.len());
                let (stem_end, ext_start) = match last_index_of(&name, '.') {
                    Some(d) => (start + d, start + d + 1),
                    None => (start, start),
                };
                let mut target = String::from_str(path.substring_char(0, stem_end));
                target.append("-");
                target.append(hash.as_str());
                target.append(".");
                target.append(path.substring_char(ext_start, chars.len()));
                target.append(".br");
                proof {
                    name@.index_of_last_ensures('.');
                    assert(target@ =~= asset_target(path@, hash@));
                }
                target
            },
        }
    }
}

impl CompressedArtifact {
    /// Reads the path of an entry of the artifact tree as the name of a
    /// compressed artifact.
    pub fn parse(path: &str) -> (r: Result<CompressedArtifact, NameError>)
        ensures
            match r {
                Ok(a) => parse_artifact(path@) == Ok::<CompressedArtifactView, NameError>(a@),
                Err(e) => parse_artifact(path@) == Err::<CompressedArtifactView, NameError>(e),
            },
    {
        proof {
            reveal_strlit(".br");
            reveal_strlit(".");
        }
        let chars = chars_of(path);
        let n = chars.len();
        let start = name_start_of(&chars);
        let name = slice_of(&chars, start, n);
        let suffix = chars_of(".br");
        assert(suffix@ =~= br_suffix());
        if !ends_with(&name, &suffix) {
            return Err(NameError::MissingSuffix);
        }
        if !is_asset(path) {
            return Ok(
                CompressedArtifact {
                    relative_path: String::from_str(path),
                    source_identity_path: String::from_str(path.substring_char(0, n - 3)),
                    hash_suffix: None,
                },
            );
        }
        let stripped = slice_of(&name, 0, name.len() - 3);
        let d = match last_index_of(&stripped, '.') {
            Some(d) => d,
            None => {
                return Err(NameError::MissingExtension);
            },
        };
        let rest = slice_of(&stripped, 0, d);
        let k = match last_index_of(&rest, '-') {
            Some(k) => k,
            None => {
                return Err(NameError::MissingHash);
            },
        };
        proof {
            stripped@.index_of_last_ensures('.');
            rest@.index_of_last_ensures('-');
        }
        let mut source = String::from_str(path.substring_char(0, start + k));
        source.append(".");
        source.append(path.substring_char(start + d + 1, n - 3));
        let hash = String::from_str(path.substring_char(start + k + 1, start + d));
        proof {
            assert(source@ =~= parent_of(path@) + rest@.take(k as int) + seq!['.']
                + stripped@.skip(d + 1));
            assert(hash@ =~= rest@.skip(k + 1));
        }
        Ok(
            CompressedArtifact {
                relative_path: String::from_str(path),
                source_identity_path: source,
                hash_suffix: Some(hash),
            },
        )
    }
}

} // verus!
