//! Pseudo-terminals: what reading from the master side means, and when the local
//! terminal's settings are put back.

use vstd::prelude::*;

verus! {

/// What a read from the master side came back with.
#[derive(Debug, Clone, Copy, PartialEq, Eq, Structural)]
pub enum MasterRead {
    /// That many bytes were read.
    Bytes(usize),
    /// Nothing is there yet.
    WouldBlock,
    /// It failed with the system's error for input and output, `EIO`.
    IoError,
    /// It failed with another error number, if the system gave one.
    Failed(Option<i32>),
}

/// What the read means for whoever reads the terminal's output.
#[derive(Debug, Clone, Copy, PartialEq, Eq, Structural)]
pub enum Output {
    /// So many bytes of output; none at its end.
    Bytes(usize),
    /// Wait until the terminal is readable, and read again.
    Wait,
    Failed(Option<i32>),
}

/// The output that a read from the master side stands for.
pub open spec fn output_of(read: MasterRead) -> Output {
    match read {
        MasterRead::Bytes(n) => Output::Bytes(n),
        MasterRead::WouldBlock => Output::Wait,
        MasterRead::IoError => Output::Bytes(0),
        MasterRead::Failed(code) => Output::Failed(code),
    }
}

/// What a read from the master side means. Linux reports an I/O error once the
/// last slave is closed: that is simply the end of output.
pub fn poll_read(read: MasterRead) -> (out: Output)
    ensures
        out == output_of(read),
{
    match read {
        MasterRead::Bytes(n) => Output::Bytes(n),
        MasterRead::WouldBlock => Output::Wait,
        MasterRead::IoError => Output::Bytes(0),
        MasterRead::Failed(code) => Output::Failed(code),
    }
}

/// A terminal in raw mode, which gets its settings back when the guard goes.
#[derive(Debug)]
pub struct RawMode {
    pub restored: bool,
}

impl RawMode {
    /// The terminal has just been switched to raw mode.
    pub fn new() -> (guard: RawMode)
        ensures
            !guard.restored,
    {
        RawMode { restored: false }
    }

    /// Restore the saved settings: are they to be written now? Only the first
    /// time.
    pub fn restore(&mut self) -> (write: bool)
        ensures
            write == !old(self).restored,
            final(self).restored,
    {
        let write = !self.restored;
        self.restored = true;
        write
    }
}

/// Whatever was read comes out, all of it; output ends, without a failure, when
/// nothing is left or the last slave is closed, and never while there may be
/// more; and every other failure is told, with its number.
pub proof fn law_terminal_output(read: MasterRead)
    ensures
        forall|n: usize| #[trigger] output_of(MasterRead::Bytes(n)) == Output::Bytes(n),
        output_of(read) == Output::Bytes(0) <==> read == MasterRead::Bytes(0) || read is IoError,
        output_of(read) is Wait <==> read is WouldBlock,
        output_of(read) is Failed <==> read is Failed,
        read is Failed ==> output_of(read)->Failed_0 == read->Failed_0,
{
}

} // verus!
