//! What the crate asks of the outside world, and what it hears back.
//!
//! The operations of this crate touch files, clocks and streams only through
//! [`Request`]s. Whoever runs an operation carries each request out, hands the
//! [`Reply`] back, and gets the next request, until there is none.

use vstd::prelude::*;

verus! {

/// What a try for an exclusive lock came to.
#[derive(Clone, Copy, Debug, PartialEq, Eq, Structural)]
pub enum LockOutcome {
    /// The lock is ours.
    Acquired,
    /// Somebody else holds it.
    Busy,
    /// It could not be tried.
    Failed,
}

/// One entry of a directory.
#[derive(Debug, PartialEq, Eq)]
pub struct DirEntry {
    /// Its name; empty if that is no text.
    pub name: String,
    /// Its size in bytes, if it could be found out.
    pub size: Option<u64>,
}

/// One thing to do, or to find out.
#[derive(Debug, PartialEq, Eq)]
pub enum Request {
    /// Create the directory and those above it that are missing.
    CreateDirs { path: String },
    /// List the entries of the directory. One whose name is no text is listed
    /// without a name.
    ListDir { path: String },
    /// Find out whether anything is at `path`.
    Exists { path: String },
    /// Create or truncate the file, write all of `data`, flush it to the disk.
    WriteSynced { path: String, data: Vec<u8> },
    /// Create or truncate the file and write all of `data`.
    Write { path: String, data: Vec<u8> },
    /// Create the file, empty.
    CreateFile { path: String },
    /// Put what is at `from` in the place of what is at `to`.
    Rename { from: String, to: String },
    /// Find out the size of the file.
    Size { path: String },
    /// Remove the file.
    Remove { path: String },
    /// Flush the directory to the disk.
    SyncDir { path: String },
    /// Read the whole file as text.
    ReadText { path: String },
    /// Read the whole file.
    ReadBytes { path: String },
    /// Take the exclusive lock on the file, without waiting for it.
    Lock { path: String },
    /// Find out how many seconds have passed since the epoch.
    Clock,
    /// Tell the user.
    Tell { text: String },
}

/// What came of a [`Request`].
#[derive(Debug, PartialEq, Eq)]
pub enum Reply {
    Done,
    Failed,
    Listing(Vec<DirEntry>),
    Present(bool),
    Size(u64),
    Seconds(u64),
    Text(String),
    Bytes(Vec<u8>),
    Lock(LockOutcome),
}

/// A directory entry as a name and a size.
pub struct EntryView {
    pub name: Seq<char>,
    pub size: Option<u64>,
}

/// A request, in characters and bytes.
#[verifier::ext_equal]
pub enum Op {
    CreateDirs { path: Seq<char> },
    ListDir { path: Seq<char> },
    Exists { path: Seq<char> },
    WriteSynced { path: Seq<char>, data: Seq<u8> },
    Write { path: Seq<char>, data: Seq<u8> },
    CreateFile { path: Seq<char> },
    Rename { from: Seq<char>, to: Seq<char> },
    Size { path: Seq<char> },
    Remove { path: Seq<char> },
    SyncDir { path: Seq<char> },
    ReadText { path: Seq<char> },
    ReadBytes { path: Seq<char> },
    Lock { path: Seq<char> },
    Clock,
    Tell { text: Seq<char> },
}

/// A reply, in characters and bytes.
#[verifier::ext_equal]
pub enum Answer {
    Done,
    Failed,
    Listing(Seq<EntryView>),
    Present(bool),
    Size(u64),
    Seconds(u64),
    Text(Seq<char>),
    Bytes(Seq<u8>),
    Lock(LockOutcome),
}

impl View for DirEntry {
    type V = EntryView;

    open spec fn view(&self) -> EntryView {
        EntryView { name: self.name@, size: self.size }
    }
}

/// The views of a run of entries.
pub open spec fn entry_views(entries: Seq<DirEntry>) -> Seq<EntryView> {
    entries.map_values(|e: DirEntry| e@)
}

impl View for Request {
    type V = Op;

    open spec fn view(&self) -> Op {
        match self {
            Request::CreateDirs { path } => Op::CreateDirs { path: path@ },
            Request::ListDir { path } => Op::ListDir { path: path@ },
            Request::Exists { path } => Op::Exists { path: path@ },
            Request::WriteSynced { path, data } => Op::WriteSynced { path: path@, data: data@ },
            Request::Write { path, data } => Op::Write { path: path@, data: data@ },
            Request::CreateFile { path } => Op::CreateFile { path: path@ },
            Request::Rename { from, to } => Op::Rename { from: from@, to: to@ },
            Request::Size { path } => Op::Size { path: path@ },
            Request::Remove { path } => Op::Remove { path: path@ },
            Request::SyncDir { path } => Op::SyncDir { path: path@ },
            Request::ReadText { path } => Op::ReadText { path: path@ },
            Request::ReadBytes { path } => Op::ReadBytes { path: path@ },
            Request::Lock { path } => Op::Lock { path: path@ },
            Request::Clock => Op::Clock,
            Request::Tell { text } => Op::Tell { text: text@ },
        }
    }
}

impl View for Reply {
    type V = Answer;

    open spec fn view(&self) -> Answer {
        match self {
            Reply::Done => Answer::Done,
            Reply::Failed => Answer::Failed,
            Reply::Listing(entries) => Answer::Listing(entry_views(entries@)),
            Reply::Present(yes) => Answer::Present(*yes),
            Reply::Size(size) => Answer::Size(*size),
            Reply::Seconds(seconds) => Answer::Seconds(*seconds),
            Reply::Text(text) => Answer::Text(text@),
            Reply::Bytes(bytes) => Answer::Bytes(bytes@),
            Reply::Lock(outcome) => Answer::Lock(*outcome),
        }
    }
}

/// `request` asks for `op`, and for nothing if there is none.
pub open spec fn asks(request: Option<Request>, op: Option<Op>) -> bool {
    match (request, op) {
        (Some(r), Some(o)) => r@ == o,
        (None, None) => true,
        _ => false,
    }
}

} // verus!
