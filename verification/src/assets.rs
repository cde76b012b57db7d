//! The files that can be served: the identity set, and with compression the
//! sets of compressed artifacts beside it.

use crate::encoding::Encoding;
use crate::mime::ConfigError;
use crate::naming::{br_suffix, is_asset, is_asset_path};
use crate::table::Table;
use vstd::prelude::*;
use vstd::slice::slice_to_vec;
use vstd::string::StringExecFns;

verus! {

/// A set of files that holds nothing. It stands where a set of files is
/// asked for and none exists.
#[derive(Clone, Copy, Debug, PartialEq, Eq, Structural)]
pub struct NoAssets;

impl NoAssets {
    /// The file at `file_path`: there is none.
    pub fn get(file_path: &str) -> (file: Option<Vec<u8>>)
        ensures
            file is None,
    {
        None
    }

    /// The paths of the files of the set: there are none.
    pub fn iter() -> (names: Vec<String>)
        ensures
            names@.len() == 0,
    {
        Vec::new()
    }

    /// The empty set as a table of files.
    pub fn files() -> (files: Table<Vec<u8>>)
        ensures
            files@ == Map::<Seq<char>, Vec<u8>>::empty(),
            files.names().len() == 0,
    {
        Table::new()
    }
}

/// The sets of compressed artifacts.
#[derive(Debug)]
pub struct Compressed {
    /// The artifacts of the files outside `assets/`, by their path in the
    /// artifact tree.
    pub code: Table<Vec<u8>>,
    /// The artifacts of the asset-class files.
    pub assets: Table<Vec<u8>>,
    /// For an asset path, the path of its artifact in `assets`.
    pub asset_mapping: Table<String>,
}

/// The files that can be served.
#[derive(Debug)]
pub struct Asset {
    /// The identity files, by path.
    pub identity: Table<Vec<u8>>,
    /// The compressed artifacts, where compression is enabled.
    pub compressed: Option<Compressed>,
    /// The index document, the template of every rendered page.
    pub index: Vec<u8>,
}

/// `Compressed` in the mathematical model.
pub struct CompressedView {
    pub code: Map<Seq<char>, Seq<u8>>,
    pub code_names: Seq<Seq<char>>,
    pub assets: Map<Seq<char>, Seq<u8>>,
    pub asset_mapping: Map<Seq<char>, Seq<char>>,
    pub mapped_names: Seq<Seq<char>>,
}

/// `Asset` in the mathematical model.
pub struct AssetView {
    pub identity: Map<Seq<char>, Seq<u8>>,
    pub identity_names: Seq<Seq<char>>,
    pub compressed: Option<CompressedView>,
    pub index: Seq<u8>,
}

/// The bytes of each file of `files`.
pub open spec fn contents(files: Map<Seq<char>, Vec<u8>>) -> Map<Seq<char>, Seq<u8>> {
    files.map_values(|data: Vec<u8>| data@)
}

impl View for Compressed {
    type V = CompressedView;

    open spec fn view(&self) -> CompressedView {
        CompressedView {
            code: contents(self.code@),
            code_names: self.code.names(),
            assets: contents(self.assets@),
            asset_mapping: self.asset_mapping@.map_values(|target: String| target@),
            mapped_names: self.asset_mapping.names(),
        }
    }
}

impl View for Asset {
    type V = AssetView;

    open spec fn view(&self) -> AssetView {
        AssetView {
            identity: contents(self.identity@),
            identity_names: self.identity.names(),
            compressed: match self.compressed {
                Some(c) => Some(c@),
                None => None,
            },
            index: self.index@,
        }
    }
}

/// The file of `files` at `path`, with the encoding it is stored in.
pub open spec fn stored(
    files: Map<Seq<char>, Seq<u8>>,
    path: Seq<char>,
    encoding: Encoding,
) -> Option<(Seq<u8>, Encoding)> {
    if files.contains_key(path) {
        Some((files[path], encoding))
    } else {
        None
    }
}

impl AssetView {
    /// The stored representation to serve for `path`, if there is one.
    ///
    /// Without compression it is the identity file. With compression, an
    /// asset-class path that the mapping lists is served from its artifact,
    /// one that it does not list from the identity file, and any other path
    /// from the artifact at `path` with `.br` added.
    pub open spec fn resolve(self, path: Seq<char>) -> Option<(Seq<u8>, Encoding)> {
        match self.compressed {
            None => stored(self.identity, path, Encoding::Identity),
            Some(c) => if is_asset_path(path) {
                if c.asset_mapping.contains_key(path) {
                    stored(c.assets, c.asset_mapping[path], Encoding::Brotli)
                } else {
                    stored(self.identity, path, Encoding::Identity)
                }
            } else {
                stored(c.code, path + br_suffix(), Encoding::Brotli)
            },
        }
    }

    /// The encoding of a rendered document: gzip where compression is
    /// enabled.
    pub open spec fn document_encoding(self) -> Encoding {
        if self.compressed is Some {
            Encoding::Gzip
        } else {
            Encoding::Identity
        }
    }
}

/// The file of `files` at `path`, with the encoding it is stored in.
fn fetch<'a>(files: &'a Table<Vec<u8>>, path: &str, encoding: Encoding) -> (r: Option<
    (&'a Vec<u8>, Encoding),
>)
    ensures
        match r {
            Some((data, e)) => stored(contents(files@), path@, encoding) == Some((data@, e)),
            None => stored(contents(files@), path@, encoding) is None,
        },
{
    match files.get(path) {
        Some(data) => Some((data, encoding)),
        None => None,
    }
}

impl Asset {
    /// The files served without compression. The index document is the file
    /// `index.html` of the identity set.
    pub fn plain(identity: Table<Vec<u8>>) -> (r: Result<Asset, ConfigError>)
        ensures
            match r {
                Ok(a) => {
                    &&& a.identity == identity
                    &&& a.compressed is None
                    &&& identity@.contains_key("index.html"@)
                    &&& a.index@ == identity@["index.html"@]@
                },
                Err(e) => !identity@.contains_key("index.html"@) && e == ConfigError::MissingIndex,
            },
    {
        let index = match identity.get("index.html") {
            Some(data) => slice_to_vec(data.as_slice()),
            None => {
                return Err(ConfigError::MissingIndex);
            },
        };
        Ok(Asset { identity, compressed: None, index })
    }

    /// The files served with compression.
    pub fn compressed(identity: Table<Vec<u8>>, compressed: Compressed, index: Vec<u8>) -> (a:
        Asset)
        ensures
            a.identity == identity,
            a.compressed == Some(compressed),
            a.index == index,
    {
        Asset { identity, compressed: Some(compressed), index }
    }

    /// The stored representation to serve for `path`, if there is one.
    pub fn get_fr(&self, path: &str) -> (r: Option<(&Vec<u8>, Encoding)>)
        ensures
            match r {
                Some((data, encoding)) => self@.resolve(path@) == Some((data@, encoding)),
                None => self@.resolve(path@) is None,
            },
    {
        proof {
            reveal_strlit(".br");
        }
        match &self.compressed {
            None => fetch(&self.identity, path, Encoding::Identity),
            Some(c) => {
                if is_asset(path) {
                    match c.asset_mapping.get(path) {
                        Some(target) => fetch(&c.assets, target.as_str(), Encoding::Brotli),
                        None => fetch(&self.identity, path, Encoding::Identity),
                    }
                } else {
                    let mut artifact = String::from_str(path);
                    artifact.append(".br");
                    assert(artifact@ =~= path@ + br_suffix());
                    fetch(&c.code, artifact.as_str(), Encoding::Brotli)
                }
            },
        }
    }

    /// The index document.
    pub fn get_index(&self) -> (index: &Vec<u8>)
        ensures
            index@ == self@.index,
    {
        &self.index
    }

    /// The encoding of a rendered document: gzip where compression is
    /// enabled.
    pub fn document_encoding(&self) -> (e: Encoding)
        ensures
            e == self@.document_encoding(),
    {
        match &self.compressed {
            Some(_) => Encoding::Gzip,
            None => Encoding::Identity,
        }
    }
}

/// An asset-class path is served from its compressed artifact where
/// compression is enabled and the mapping lists it, and from the identity
/// file, byte for byte, where compression is disabled.
pub proof fn lemma_asset_negotiation(a: AssetView, path: Seq<char>)
    requires
        is_asset_path(path),
    ensures
        a.compressed matches Some(c) ==> (c.asset_mapping.contains_key(path)
            && c.assets.contains_key(c.asset_mapping[path]) ==> a.resolve(path) == Some(
            (c.assets[c.asset_mapping[path]], Encoding::Brotli),
        )),
        a.compressed is None && a.identity.contains_key(path) ==> a.resolve(path) == Some(
            (a.identity[path], Encoding::Identity),
        ),
{
}

} // verus!
