//! Error kinds surfaced by the disk layer.
use vstd::prelude::*;

verus! {

/// The kind of a failure.
#[derive(Clone, Copy, Debug, PartialEq, Eq, Structural)]
pub enum Errno {
    InvalidArgs,
    NotFound,
    OutOfDisk,
    IoFailed,
    TxAborted,
    PermissionDenied,
    OutOfMemory,
}

/// A failure: its kind and a fixed description.
#[derive(Clone, Copy, Debug)]
pub struct Error {
    errno: Errno,
    msg: &'static str,
}

impl Error {
    /// The kind of this failure, as a specification value.
    pub closed spec fn kind(&self) -> Errno {
        self.errno
    }

    /// The description of this failure, as a specification value.
    pub closed spec fn description(&self) -> Seq<char> {
        self.msg@
    }

    /// A failure of the given kind without a description.
    pub fn new(errno: Errno) -> (e: Error)
        ensures
            e.kind() == errno,
            e.description() == Seq::<char>::empty(),
    {
        proof {
            reveal_strlit("");
        }
        let e = Error { errno, msg: "" };
        proof {
            assert(e.description() =~= Seq::<char>::empty());
        }
        e
    }

    /// A failure of the given kind with a description.
    pub fn with_msg(errno: Errno, msg: &'static str) -> (e: Error)
        ensures
            e.kind() == errno,
            e.description() == msg@,
    {
        Error { errno, msg }
    }

    /// The kind of this failure.
    pub fn errno(&self) -> (k: Errno)
        ensures
            k == self.kind(),
    {
        self.errno
    }

    /// The description given when the failure was made.
    pub fn msg(&self) -> (m: &'static str)
        ensures
            m@ == self.description(),
    {
        self.msg
    }
}

/// The failures that a file system above the device tells apart.
#[derive(Clone, Copy, Debug, PartialEq, Eq, Structural)]
pub enum FsErrorKind {
    EntryNotFound,
    InvalidParam,
    NoDeviceSpace,
    PermError,
    DeviceError(i32),
}

impl Error {
    /// What a file system above the device is told of this failure: the
    /// kinds that it tells apart, and a device error for every other.
    pub fn to_fs_error(&self) -> (k: FsErrorKind)
        ensures
            k == match self.kind() {
                Errno::NotFound => FsErrorKind::EntryNotFound,
                Errno::InvalidArgs => FsErrorKind::InvalidParam,
                Errno::OutOfDisk => FsErrorKind::NoDeviceSpace,
                Errno::PermissionDenied => FsErrorKind::PermError,
                _ => FsErrorKind::DeviceError(0),
            },
    {
        match self.errno {
            Errno::NotFound => FsErrorKind::EntryNotFound,
            Errno::InvalidArgs => FsErrorKind::InvalidParam,
            Errno::OutOfDisk => FsErrorKind::NoDeviceSpace,
            Errno::PermissionDenied => FsErrorKind::PermError,
            _ => FsErrorKind::DeviceError(0),
        }
    }
}

} // verus!
