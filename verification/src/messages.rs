use vstd::prelude::*;

verus! {

/// What the server answers to a command.
#[derive(Debug, PartialEq, Eq)]
pub enum ServerToClientResponse {
    /// The upload of the named file succeeded; the new root hash follows.
    UploadOk(String, String),
    /// The upload of the named file failed, for the given reason.
    UploadFailed(String, String),
    /// No stored file has the requested name.
    FileNotFound(String),
    /// A stored file record and the hashes that accompany it.
    File(Vec<u8>, Vec<String>),
    /// Names of stored files.
    FileListing(Vec<String>),
    /// A raw message echoed back.
    Raw(String),
    /// The command was not understood.
    UnknownCommand(String),
}

/// What a client asks of the server.
#[derive(Debug, PartialEq, Eq)]
pub enum ClientToServerCommand {
    /// Fetch the named file.
    Get(String),
    /// Store a file under a name.
    Upload(String, Vec<u8>),
    /// List stored files against a filter.
    List(String),
    /// A raw message to be echoed.
    Raw(String),
}

/// A stored file together with its name; the server keeps each file as
/// the serialized bytes of one such record.
#[derive(Debug, PartialEq, Eq)]
pub struct FileAndMeta {
    pub name: String,
    pub data: Vec<u8>,
}

} // verus!
