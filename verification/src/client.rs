//! The client facade.  Driving a whole download performs network and file
//! I/O, so the loop lives with the caller; the client itself only carries
//! the error taxonomy.

use crate::metainfo;
use crate::torrent;
use vstd::prelude::*;

verus! {

/// Everything a download run can report.
#[derive(Debug)]
pub enum Error {
    MetaInfoError(metainfo::Error),
    TorrentError(torrent::Error),
}

/// The client facade.
pub struct Client {}

impl Client {
    pub fn new() -> (r: Client)
        ensures
            r == (Client {  }),
    {
        Client {  }
    }
}

impl Default for Client {
    fn default() -> (r: Client)
        ensures
            r == (Client {  }),
    {
        Client::new()
    }
}

} // verus!
