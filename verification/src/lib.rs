//! The staging area of a version-control tool: the binary record of every
//! tracked path, the ordered table of those records, and the protocol by which
//! the table is written out as one checksummed file.

pub mod bytes;
pub mod digest;
pub mod entry;
pub mod error;
pub mod ignore;
pub mod index;
pub mod paths;
pub mod protocol;
pub mod scan;
pub mod workspace;

pub use crate::entry::{Entry, FileStat};
pub use crate::error::{IndexError, PathError};
pub use crate::index::Index;
pub use crate::protocol::{WritePhase, WriterAction, WriterEvent};
pub use crate::scan::{DirEntry, FileKind, ScanAction, ScanEvent, Scanner};
pub use crate::workspace::Workspace;
