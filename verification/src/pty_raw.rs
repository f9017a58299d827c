//! Trusted bindings to the pseudo-terminal layer.
//!
//! Everything the registry and the streamer need from the portable_pty
//! crate and from the raw I/O handles it yields lives here, one small
//! wrapper per outside function.  The handles themselves are opaque: they
//! are boxed trait objects, which cannot be declared to the verifier, so
//! each is held in a struct whose body the verifier does not read.

use vstd::prelude::*;

verus! {

/// The platform's pseudo-terminal implementation.
#[verifier::external_body]
pub(crate) struct PtySystemHandle {
    inner: Box<dyn portable_pty::PtySystem + Send>,
}

/// Relies on portable_pty::native_pty_system: yields the pseudo-terminal
/// implementation native to this platform.
#[verifier::external_body]
pub(crate) fn native_system() -> PtySystemHandle {
    PtySystemHandle { inner: portable_pty::native_pty_system() }
}

#[verifier::external_type_specification]
#[verifier::external_body]
pub struct ExPtyPair(portable_pty::PtyPair);

#[verifier::external_type_specification]
#[verifier::external_body]
pub struct ExCommandBuilder(portable_pty::CommandBuilder);

/// Relies on portable_pty::PtySystem::openpty: opens a master/slave pair
/// with the given window size, or reports why it could not.
#[verifier::external_body]
pub(crate) fn open_pair(sys: &PtySystemHandle, rows: u16, cols: u16) -> (r: Result<
    portable_pty::PtyPair,
    String,
>) {
    sys.inner.openpty(
        portable_pty::PtySize { rows, cols, pixel_width: 0, pixel_height: 0 },
    ).map_err(|e| format!("Failed to open PTY: {}", e))
}

/// Relies on portable_pty::CommandBuilder::new: a command that will run
/// the given program.
#[verifier::external_body]
pub(crate) fn command_new(program: &str) -> portable_pty::CommandBuilder {
    portable_pty::CommandBuilder::new(program)
}

/// Relies on portable_pty::CommandBuilder::args: appends the given
/// arguments to the command line.
#[verifier::external_body]
pub(crate) fn command_args(cmd: &mut portable_pty::CommandBuilder, args: &Vec<String>) {
    cmd.args(args)
}

/// Relies on portable_pty::CommandBuilder::cwd: sets the child's working
/// directory.
#[verifier::external_body]
pub(crate) fn command_cwd(cmd: &mut portable_pty::CommandBuilder, dir: &str) {
    cmd.cwd(dir)
}

/// Relies on portable_pty::CommandBuilder::env: sets one environment
/// variable for the child.
#[verifier::external_body]
pub(crate) fn command_env(cmd: &mut portable_pty::CommandBuilder, key: &str, value: &str) {
    cmd.env(key, value)
}

/// A spawned child process; its owner blocks on [`wait_child`] to reap it.
#[verifier::external_body]
pub struct ChildProcess {
    inner: Box<dyn portable_pty::Child + Send + Sync>,
}

/// Relies on portable_pty::SlavePty::spawn_command: launches the command
/// attached to the pair's slave end, or reports why it could not.
#[verifier::external_body]
pub(crate) fn spawn_on_slave(pair: &portable_pty::PtyPair, cmd: portable_pty::CommandBuilder) -> (r:
    Result<ChildProcess, String>) {
    match pair.slave.spawn_command(cmd) {
        Ok(c) => Ok(ChildProcess { inner: c }),
        Err(e) => Err(format!("Failed to spawn command: {}", e)),
    }
}

/// Relies on portable_pty::Child::wait: blocks until the child process
/// has completed, reaping it.
#[verifier::external_body]
pub fn wait_child(child: &mut ChildProcess) {
    let _ = child.inner.wait();
}

/// The readable end of a session's pseudo-terminal: the child's output.
#[verifier::external_body]
pub struct PtyReader {
    inner: Box<dyn std::io::Read + Send>,
}

/// Relies on portable_pty::MasterPty::try_clone_reader: a stream carrying
/// the child's output.
#[verifier::external_body]
pub(crate) fn clone_reader(pair: &portable_pty::PtyPair) -> (r: Result<PtyReader, String>) {
    match pair.master.try_clone_reader() {
        Ok(rd) => Ok(PtyReader { inner: rd }),
        Err(e) => Err(format!("Failed to clone reader: {}", e)),
    }
}

/// Relies on std::io::Read::read: one blocking read from the
/// pseudo-terminal into the caller's buffer.  A result of `Ok(n)` means
/// the first `n` bytes of the buffer were filled; `Ok(0)` is end of
/// stream; an error is unrecoverable for the session.
#[verifier::external_body]
pub fn read_block(reader: &mut PtyReader, buf: &mut Vec<u8>) -> (r: Result<usize, String>)
    ensures
        final(buf)@.len() == old(buf)@.len(),
        r matches Ok(n) ==> n <= old(buf)@.len(),
{
    match reader.inner.read(buf.as_mut_slice()) {
        Ok(n) => Ok(n),
        Err(e) => Err(format!("PTY read error: {}", e)),
    }
}

/// The writable end of a session's pseudo-terminal: bytes written here
/// reach the child's input.
#[verifier::external_body]
pub struct PtyWriter {
    inner: Box<dyn std::io::Write + Send>,
}

/// Relies on portable_pty::MasterPty::take_writer: the single writer of
/// the pair.
#[verifier::external_body]
pub(crate) fn take_writer(pair: &portable_pty::PtyPair) -> (r: Result<PtyWriter, String>) {
    match pair.master.take_writer() {
        Ok(w) => Ok(PtyWriter { inner: w }),
        Err(e) => Err(format!("Failed to take writer: {}", e)),
    }
}

/// The master end of a session's pseudo-terminal, kept for resizing.
#[verifier::external_body]
pub struct MasterHandle {
    inner: Box<dyn portable_pty::MasterPty + Send>,
}

/// Keeps the master end of the pair and drops the slave end, so that the
/// reader sees end of stream once the child has exited and closed its
/// side.
#[verifier::external_body]
pub(crate) fn into_master(pair: portable_pty::PtyPair) -> MasterHandle {
    MasterHandle { inner: pair.master }
}

/// Relies on portable_pty::MasterPty::resize: updates the window size
/// kept by the kernel; the child observes the change through the standard
/// pseudo-terminal mechanism.
#[verifier::external_body]
pub(crate) fn resize_master(master: &MasterHandle, rows: u16, cols: u16) -> (r: Result<(), String>) {
    master.inner.resize(
        portable_pty::PtySize { rows, cols, pixel_width: 0, pixel_height: 0 },
    ).map_err(|e| format!("Failed to resize PTY: {}", e))
}

/// Relies on std::io::Write::write_all: forwards the whole buffer to the
/// child's input, or reports the first error.
#[verifier::external_body]
pub(crate) fn write_all_bytes(writer: &mut PtyWriter, data: &[u8]) -> (r: Result<(), String>) {
    writer.inner.write_all(data).map_err(|e| format!("Failed to write to PTY: {}", e))
}

/// Relies on std::io::Write::flush: pushes any buffered bytes through
/// immediately, so interactive input is never batched.
#[verifier::external_body]
pub(crate) fn flush_writer(writer: &mut PtyWriter) -> (r: Result<(), String>) {
    writer.inner.flush().map_err(|e| format!("Failed to flush PTY: {}", e))
}

} // verus!
