//! Creates a torrent from a data source.

use super::hash::{hash_sized, piece_length_for, resolve_piece_length};
use super::source::DataSource;
use crate::error::{Error, ErrorKind};
use crate::metainfo::{exact_layout, hashes_match, Info, InfoHash, Metainfo};
use crate::text::{hex_encode, hex_of};
use vstd::prelude::*;
use vstd::string::StringExecFns;

verus! {

/// The fields of a torrent that its maker chooses.
pub struct SeedOptions {
    /// Piece length in bytes; inferred from the size if not given.
    pub piece_length: Option<u32>,
    /// URL of the main tracker.
    pub announce: Option<String>,
    /// Tracker tiers.
    pub announce_list: Option<Vec<Vec<String>>>,
    /// Name; that of the source if not given.
    pub name: Option<String>,
    /// Free-form comment.
    pub comment: Option<String>,
    /// The program that made the torrent.
    pub created_by: Option<String>,
    /// Whether the torrent is private.
    pub is_private: bool,
}

/// Builder for creating a torrent from a data source.
///
/// Configure the metadata, then call [`hash`](Self::hash).
pub struct SeedBuilder<S> {
    /// The data.
    pub source: S,
    /// The chosen fields.
    pub options: SeedOptions,
}

/// A torrent whose data is hashed. What is left is to encode it.
pub struct HashedTorrent<S> {
    /// The data.
    pub source: S,
    /// Whether the torrent is private.
    pub is_private: bool,
    /// URL of the main tracker.
    pub announce: String,
    /// Tracker tiers.
    pub announce_list: Vec<Vec<String>>,
    /// Free-form comment.
    pub comment: Option<String>,
    /// The program that made the torrent.
    pub created_by: Option<String>,
    /// The info dictionary.
    pub info: Info,
}

impl<S: DataSource> SeedBuilder<S> {
    /// Create a new builder in which nothing is chosen.
    pub fn new(source: S) -> (b: SeedBuilder<S>)
        ensures
            b.source == source,
            b.options == (SeedOptions {
                piece_length: None,
                announce: None,
                announce_list: None,
                name: None,
                comment: None,
                created_by: None,
                is_private: false,
            }),
    {
        SeedBuilder {
            source,
            options: SeedOptions {
                piece_length: None,
                announce: None,
                announce_list: None,
                name: None,
                comment: None,
                created_by: None,
                is_private: false,
            },
        }
    }

    /// Set the piece length in bytes.
    pub fn piece_length(self, bytes: u32) -> (b: SeedBuilder<S>)
        ensures
            b.source == self.source,
            b.options == (SeedOptions { piece_length: Some(bytes), ..self.options }),
    {
        SeedBuilder {
            source: self.source,
            options: SeedOptions { piece_length: Some(bytes), ..self.options },
        }
    }

    /// Set the URL of the main tracker.
    pub fn announce(self, url: String) -> (b: SeedBuilder<S>)
        ensures
            b.source == self.source,
            b.options == (SeedOptions { announce: Some(url), ..self.options }),
    {
        SeedBuilder {
            source: self.source,
            options: SeedOptions { announce: Some(url), ..self.options },
        }
    }

    /// Set the tracker tiers.
    pub fn announce_list(self, tiers: Vec<Vec<String>>) -> (b: SeedBuilder<S>)
        ensures
            b.source == self.source,
            b.options == (SeedOptions { announce_list: Some(tiers), ..self.options }),
    {
        SeedBuilder {
            source: self.source,
            options: SeedOptions { announce_list: Some(tiers), ..self.options },
        }
    }

    /// Override the name of the torrent.
    pub fn name(self, name: String) -> (b: SeedBuilder<S>)
        ensures
            b.source == self.source,
            b.options == (SeedOptions { name: Some(name), ..self.options }),
    {
        SeedBuilder {
            source: self.source,
            options: SeedOptions { name: Some(name), ..self.options },
        }
    }

    /// Set a free-form comment.
    pub fn comment(self, comment: String) -> (b: SeedBuilder<S>)
        ensures
            b.source == self.source,
            b.options == (SeedOptions { comment: Some(comment), ..self.options }),
    {
        SeedBuilder {
            source: self.source,
            options: SeedOptions { comment: Some(comment), ..self.options },
        }
    }

    /// Set the program that made the torrent.
    pub fn created_by(self, created_by: String) -> (b: SeedBuilder<S>)
        ensures
            b.source == self.source,
            b.options == (SeedOptions { created_by: Some(created_by), ..self.options }),
    {
        SeedBuilder {
            source: self.source,
            options: SeedOptions { created_by: Some(created_by), ..self.options },
        }
    }

    /// Mark the torrent as private: when it is seeded, DHT and peer exchange are
    /// off for it.
    pub fn private(self) -> (b: SeedBuilder<S>)
        ensures
            b.source == self.source,
            b.options == (SeedOptions { is_private: true, ..self.options }),
    {
        SeedBuilder {
            source: self.source,
            options: SeedOptions { is_private: true, ..self.options },
        }
    }

    /// Hash the data source: asks for its size once, then reads all of it and
    /// hashes every piece.
    ///
    /// Fails if the source fails, and with `InvalidInput` if there is data but
    /// the pieces are empty.
    pub fn hash(self) -> (r: Result<HashedTorrent<S>, Error>)
        ensures
            ({
                let content = self.source.content();
                let pl = piece_length_for(content.len() as int, self.options.piece_length);
                match r {
                    Ok(t) => {
                        &&& t.source == self.source
                        &&& t.is_private == self.options.is_private
                        &&& t.announce@ == match self.options.announce {
                            Some(u) => u@,
                            None => Seq::empty(),
                        }
                        &&& match self.options.announce_list {
                            Some(l) => t.announce_list == l,
                            None => t.announce_list@ == Seq::<Vec<String>>::empty(),
                        }
                        &&& t.comment == self.options.comment
                        &&& t.created_by == self.options.created_by
                        &&& t.info.name@ == match self.options.name {
                            Some(n) => n@,
                            None => self.source.spec_name(),
                        }
                        &&& t.info.piece_length == pl
                        &&& t.info.length == content.len()
                        &&& pl > 0 ==> exact_layout(t.info)
                        &&& pl == 0 ==> t.info.pieces@.len() == 0 && content.len() == 0
                        &&& hashes_match(t.info, content)
                    },
                    Err(e) => {
                        ||| !self.source.is_readable()
                        ||| pl == 0 && content.len() > 0 && e.spec_kind() == ErrorKind::InvalidInput
                    },
                }
            }),
    {
        let total: u64 = match self.source.total_size() {
            Ok(n) => n,
            Err(e) => {
                return Err(e);
            },
        };
        let piece_length: u32 = resolve_piece_length(total, self.options.piece_length);
        let builder = match hash_sized(&self.source, total, piece_length) {
            Ok(b) => b,
            Err(e) => {
                return Err(e);
            },
        };
        let name = match self.options.name {
            Some(n) => n,
            None => self.source.name().to_string(),
        };
        let announce = match self.options.announce {
            Some(u) => u,
            None => String::new(),
        };
        let announce_list = match self.options.announce_list {
            Some(l) => l,
            None => Vec::new(),
        };
        let info = builder.finish(name);
        Ok(
            HashedTorrent {
                source: self.source,
                is_private: self.options.is_private,
                announce,
                announce_list,
                comment: self.options.comment,
                created_by: self.options.created_by,
                info,
            },
        )
    }
}

impl<S: DataSource> HashedTorrent<S> {
    /// Take the encoded torrent in: the hash of the info dictionary and the
    /// bytes of the torrent file. A torrent that cannot be encoded is an error.
    pub fn encoded(self, info_hash: InfoHash, torrent_bytes: Option<Vec<u8>>) -> (r: Result<
        PreparedTorrent<S>,
        Error,
    >)
        ensures
            match r {
                Ok(t) => {
                    &&& torrent_bytes == Some(t.spec_torrent_bytes())
                    &&& t.spec_source() == self.source
                    &&& t.spec_metainfo() == (Metainfo {
                        announce: self.announce,
                        announce_list: self.announce_list,
                        comment: self.comment,
                        created_by: self.created_by,
                        private: self.is_private,
                        info_hash,
                        info: self.info,
                    })
                },
                Err(e) => torrent_bytes is None && e.spec_kind() == ErrorKind::InvalidInput,
            },
    {
        match torrent_bytes {
            Some(torrent_bytes) => Ok(
                PreparedTorrent {
                    source: self.source,
                    metainfo: Metainfo {
                        announce: self.announce,
                        announce_list: self.announce_list,
                        comment: self.comment,
                        created_by: self.created_by,
                        private: self.is_private,
                        info_hash,
                        info: self.info,
                    },
                    torrent_bytes,
                },
            ),
            None => Err(Error::new(ErrorKind::InvalidInput)),
        }
    }
}

/// A fully hashed torrent, ready to be exported or seeded.
pub struct PreparedTorrent<S> {
    source: S,
    metainfo: Metainfo,
    torrent_bytes: Vec<u8>,
}

/// A magnet URI: the info hash and the display name.
pub open spec fn magnet_text(info_hash: Seq<u8>, name: Seq<char>) -> Seq<char> {
    "magnet:?xt=urn:btih:"@ + hex_of(info_hash) + "&dn="@ + name
}

/// A magnet URI: the info hash and the display name.
pub fn magnet_for(info_hash: &InfoHash, name: &str) -> (r: String)
    ensures
        r@ == magnet_text(info_hash@, name@),
{
    let mut r = "magnet:?xt=urn:btih:".to_string();
    r.append(hex_encode(info_hash.as_slice()).as_str());
    r.append("&dn=");
    r.append(name);
    r
}

impl<S: DataSource> PreparedTorrent<S> {
    /// The source, as contracts speak of it.
    pub closed spec fn spec_source(&self) -> S {
        self.source
    }

    /// The metadata, as contracts speak of it.
    pub closed spec fn spec_metainfo(&self) -> Metainfo {
        self.metainfo
    }

    /// The bytes of the torrent file, as contracts speak of them.
    pub closed spec fn spec_torrent_bytes(&self) -> Vec<u8> {
        self.torrent_bytes
    }

    /// The bytes of the torrent file.
    pub fn torrent_bytes(&self) -> (r: &[u8])
        ensures
            r@ == self.spec_torrent_bytes()@,
    {
        self.torrent_bytes.as_slice()
    }

    /// Generate a magnet URI from this torrent: the info hash and the name.
    pub fn magnet_uri(&self) -> (r: String)
        ensures
            r@ == magnet_text(
                self.spec_metainfo().info_hash@,
                self.spec_metainfo().info.name@,
            ),
    {
        magnet_for(&self.metainfo.info_hash, self.metainfo.info.name.as_str())
    }

    /// The info hash.
    pub fn info_hash(&self) -> (h: InfoHash)
        ensures
            h == self.spec_metainfo().info_hash,
    {
        self.metainfo.info_hash
    }

    /// The metadata.
    pub fn metainfo(&self) -> (m: &Metainfo)
        ensures
            *m == self.spec_metainfo(),
    {
        &self.metainfo
    }

    /// Consume this value and return the data source and the metadata.
    pub fn into_parts(self) -> (r: (S, Metainfo))
        ensures
            r.0 == self.spec_source(),
            r.1 == self.spec_metainfo(),
    {
        (self.source, self.metainfo)
    }

    /// Consume this value and return the data source.
    pub fn into_source(self) -> (s: S)
        ensures
            s == self.spec_source(),
    {
        self.source
    }
}

/// A magnet URI names the torrent by its info hash in hexadecimal digits, and then
/// the display name as it is.
pub proof fn law_magnet(info_hash: Seq<u8>, name: Seq<char>)
    requires
        info_hash.len() == 20,
    ensures
        ({
            let t = magnet_text(info_hash, name);
            &&& t.take(20) == "magnet:?xt=urn:btih:"@
            &&& t.subrange(20, 60) == hex_of(info_hash)
            &&& t.subrange(60, 64) == "&dn="@
            &&& t.skip(64) == name
        }),
{
    let t = magnet_text(info_hash, name);
    reveal_strlit("magnet:?xt=urn:btih:");
    reveal_strlit("&dn=");
    assert(t.take(20) =~= "magnet:?xt=urn:btih:"@);
    assert(t.subrange(20, 60) =~= hex_of(info_hash));
    assert(t.subrange(60, 64) =~= "&dn="@);
    assert(t.skip(64) =~= name);
}

} // verus!
