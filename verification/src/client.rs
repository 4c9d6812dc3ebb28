//! The in-memory registry of added torrents.

use vstd::prelude::*;

use crate::bencoding::SpecValue;
use crate::bencoding::spec_decode;
use crate::torrent::NewTorrentFromFileError;
use crate::torrent::Torrent;
use crate::torrent::TorrentModel;
use crate::torrent::spec_assemble;
use crate::torrent::torrent_model;

verus! {

/// A client session: the torrents added so far, in order.
pub struct Client {
    /// The added torrents, oldest first.
    pub torrents: Vec<Torrent>,
}

impl Client {
    /// Starts a session with no torrents.
    pub fn new() -> (c: Client)
        ensures
            c.torrents@ == Seq::<Torrent>::empty(),
    {
        Client { torrents: Vec::new() }
    }

    /// Decodes a metainfo buffer and appends the torrent it describes
    /// to the session; on failure the session is unchanged.
    pub fn add_torrent(&mut self, encoded: Vec<u8>) -> (r: Result<(), NewTorrentFromFileError>)
        ensures
            match r {
                Ok(_) => {
                    &&& final(self).torrents@.len() == old(self).torrents@.len() + 1
                    &&& final(self).torrents@.drop_last() == old(self).torrents@
                    &&& (spec_decode(encoded@) matches Some(SpecValue::Dict(d)) && spec_assemble(d)
                        == Ok::<TorrentModel, Seq<char>>(torrent_model(
                        final(self).torrents@.last(),
                    )))
                },
                Err(NewTorrentFromFileError::Decode(_)) => *final(self) == *old(self) && spec_decode(
                    encoded@,
                ) is None,
                Err(NewTorrentFromFileError::MissingField(e)) => *final(self) == *old(self) && (
                spec_decode(encoded@) matches Some(SpecValue::Dict(d)) && spec_assemble(d) matches
                    Err(f) && e.field@ == f),
            },
    {
        match Torrent::from_bencoded(encoded) {
            Ok(t) => {
                self.torrents.push(t);
                proof {
                    assert(self.torrents@.drop_last() =~= old(self).torrents@);
                }
                Ok(())
            },
            Err(e) => Err(e),
        }
    }
}

} // verus!
