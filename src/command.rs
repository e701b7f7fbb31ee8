use vstd::prelude::*;

use crate::codec::Record;

verus! {

/// A command: the records of the log, and the requests of the frontend.
#[derive(Clone, Debug)]
pub enum Command {
    Put { key: String, value: String },
    Get { key: String },
    Remove { key: String },
}

impl View for Command {
    type V = Record;

    open spec fn view(&self) -> Record {
        match self {
            Command::Put { key, value } => Record::Put { key: key@, value: value@ },
            Command::Get { key } => Record::Get { key: key@ },
            Command::Remove { key } => Record::Remove { key: key@ },
        }
    }
}

/// The command line of the tools: one command.
pub struct Cli {
    pub command: Command,
}

/// Location of an encoded `Set` record: segment id, start offset and length in bytes.
#[derive(Clone, Copy, Debug, PartialEq, Eq, Structural)]
pub struct CmdIdx {
    pub file: u32,
    pub pos: u64,
    pub len: u64,
}

impl CmdIdx {
    /// Builds the location of the bytes `[start, end)` of segment `file`.
    pub fn from(file: u32, start: u64, end: u64) -> (r: CmdIdx)
        requires
            start <= end,
        ensures
            r.file == file,
            r.pos == start,
            r.len == end - start,
    {
        CmdIdx { file, pos: start, len: end - start }
    }
}

} // verus!
