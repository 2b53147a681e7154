//! When files are opened for direct I/O, and when that is given up.
//!
//! A file is first opened for direct I/O. A file system that does not know it refuses the open, and
//! the file is opened for buffered I/O. One that accepts the open may still refuse a transfer that is
//! not aligned; then the file is opened again for buffered I/O and the transfer is tried once more.

use vstd::prelude::*;
use crate::types::IoError;

verus! {

/// The error number for an argument that the system refuses.
pub const EINVAL: i32 = 22;

/// The error number for an operation that the file system does not know.
pub const EOPNOTSUPP: i32 = 95;

/// How a file is opened. A link in the last place of the path is never followed.
#[derive(Clone, Copy, PartialEq, Eq, Structural, Debug)]
pub struct OpenFlags {
    pub write: bool,
    pub create: bool,
    pub truncate: bool,
    pub direct: bool,
}

/// A file that is being opened.
#[derive(Clone, Copy, PartialEq, Eq, Structural, Debug)]
pub struct DioOpening {
    flags: OpenFlags,
}

/// An open file.
#[derive(Clone, Copy, PartialEq, Eq, Structural, Debug)]
pub struct DioFile {
    flags: OpenFlags,
}

/// What follows an attempt to open a file.
#[derive(Clone, Copy, PartialEq, Eq, Structural, Debug)]
pub enum OpenTurn {
    /// The file is open.
    Ready(DioFile),
    /// Try again.
    Again(DioOpening),
    Failed(IoError),
}

/// What follows an attempt to read or write.
#[derive(Clone, Copy, Debug)]
pub enum IoTurn {
    /// The transfer is over.
    Done(Result<usize, IoError>),
    /// Open the file again with these flags, and then try the transfer once more.
    Reopen(OpenFlags),
}

impl DioOpening {
    pub closed spec fn flags_of(&self) -> OpenFlags {
        self.flags
    }

    /// The flags to open the file with.
    pub fn flags(&self) -> (r: OpenFlags)
        ensures
            r == self.flags_of(),
    {
        self.flags
    }

    /// Takes in how the attempt went.
    pub fn opened(self, result: Result<(), IoError>) -> (r: OpenTurn)
        ensures
            match result {
                Ok(_) => r matches OpenTurn::Ready(f) && f.flags_of() == self.flags_of(),
                Err(e) => if self.flags_of().direct && (e.code == EINVAL || e.code == EOPNOTSUPP) {
                    r matches OpenTurn::Again(o) && o.flags_of() == (OpenFlags {
                        direct: false,
                        ..self.flags_of()
                    })
                } else {
                    r == OpenTurn::Failed(e)
                },
            },
    {
        match result {
            Ok(_) => OpenTurn::Ready(DioFile { flags: self.flags }),
            Err(e) => if self.flags.direct && (e.code == EINVAL || e.code == EOPNOTSUPP) {
                OpenTurn::Again(DioOpening { flags: OpenFlags { direct: false, ..self.flags } })
            } else {
                OpenTurn::Failed(e)
            },
        }
    }
}

impl DioFile {
    pub closed spec fn flags_of(&self) -> OpenFlags {
        self.flags
    }

    /// Begins to open a file for reading.
    pub fn open_read() -> (r: DioOpening)
        ensures
            r.flags_of() == (OpenFlags {
                write: false,
                create: false,
                truncate: false,
                direct: true,
            }),
    {
        DioOpening {
            flags: OpenFlags { write: false, create: false, truncate: false, direct: true },
        }
    }

    /// Begins to create a file for writing; what it held is cut off.
    pub fn create_write() -> (r: DioOpening)
        ensures
            r.flags_of() == (OpenFlags { write: true, create: true, truncate: true, direct: true }),
    {
        DioOpening {
            flags: OpenFlags { write: true, create: true, truncate: true, direct: true },
        }
    }

    /// Whether direct I/O is in effect.
    pub fn is_direct(&self) -> (r: bool)
        ensures
            r == self.flags_of().direct,
    {
        self.flags.direct
    }

    /// Takes in how a read went.
    pub fn pread_at(&self, result: Result<usize, IoError>) -> (r: IoTurn)
        ensures
            r == self.transfer(result),
    {
        self.transferred(result)
    }

    /// Takes in how a write went.
    pub fn pwrite_at(&self, result: Result<usize, IoError>) -> (r: IoTurn)
        ensures
            r == self.transfer(result),
    {
        self.transferred(result)
    }

    /// What follows a transfer: one that direct I/O refuses is tried once more without it, in the
    /// same file and with what it holds.
    pub open spec fn transfer(&self, result: Result<usize, IoError>) -> IoTurn {
        match result {
            Err(e) => if e.code == EINVAL && self.flags_of().direct {
                IoTurn::Reopen(
                    OpenFlags {
                        write: self.flags_of().write,
                        create: false,
                        truncate: false,
                        direct: false,
                    },
                )
            } else {
                IoTurn::Done(result)
            },
            Ok(_) => IoTurn::Done(result),
        }
    }

    fn transferred(&self, result: Result<usize, IoError>) -> (r: IoTurn)
        ensures
            r == self.transfer(result),
    {
        match result {
            Err(e) => if e.code == EINVAL && self.flags.direct {
                IoTurn::Reopen(
                    OpenFlags {
                        write: self.flags.write,
                        create: false,
                        truncate: false,
                        direct: false,
                    },
                )
            } else {
                IoTurn::Done(result)
            },
            Ok(_) => IoTurn::Done(result),
        }
    }

    /// Takes in that the file was opened again for buffered I/O, or could not be.
    pub fn fallback_buffered(&mut self, result: Result<(), IoError>) -> (r: Result<(), IoError>)
        ensures
            r == result,
            final(self).flags_of() == (if result is Ok {
                OpenFlags { direct: false, ..old(self).flags_of() }
            } else {
                old(self).flags_of()
            }),
    {
        if result.is_ok() {
            self.flags = OpenFlags { direct: false, ..self.flags };
        }
        result
    }
}

/// A file is opened again at most once: once direct I/O was given up, a transfer ends as it went.
pub proof fn fallback_happens_once(file: DioFile, result: Result<usize, IoError>)
    requires
        !file.flags_of().direct,
    ensures
        file.transfer(result) == IoTurn::Done(result),
{
}

/// Opening a file again never cuts off what was written to it.
pub proof fn fallback_keeps_the_data(file: DioFile, result: Result<usize, IoError>)
    ensures
        file.transfer(result) matches IoTurn::Reopen(flags) ==> !flags.truncate && !flags.create
            && !flags.direct,
{
}

} // verus!
