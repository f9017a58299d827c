//! The session registry: the set of live pseudo-terminal sessions, keyed
//! by identifiers that are issued once and never reused.
//!
//! [`PtyManager::spawn`] opens a pseudo-terminal, launches the child
//! attached to it with a fixed terminal environment, and registers the
//! session before returning, so a caller who immediately writes or
//! resizes cannot race an unregistered id.  [`PtyManager::write`],
//! [`PtyManager::resize`] and [`PtyManager::kill`] report `NotFound`
//! exactly when the id is absent — in particular for every id already
//! killed — and `kill` is the only operation that removes a session.
//!
//! Identifiers come from a counter: every id ever issued is below
//! [`PtyManager::next_id_spec`], ids of live sessions are pairwise
//! distinct, and the counter never goes backward, so a removed id can
//! never be accepted again.

use crate::pty_raw::ChildProcess;
use crate::pty_raw::MasterHandle;
use crate::pty_raw::PtyReader;
use crate::pty_raw::PtyWriter;
use crate::pty_raw::clone_reader;
use crate::pty_raw::command_args;
use crate::pty_raw::command_cwd;
use crate::pty_raw::command_env;
use crate::pty_raw::command_new;
use crate::pty_raw::flush_writer;
use crate::pty_raw::into_master;
use crate::pty_raw::native_system;
use crate::pty_raw::open_pair;
use crate::pty_raw::resize_master;
use crate::pty_raw::spawn_on_slave;
use crate::pty_raw::take_writer;
use crate::pty_raw::write_all_bytes;
use vstd::prelude::*;

verus! {

/// Failure of a registry operation.
pub enum PtyError {
    /// The session id is unknown or was already removed.
    NotFound,
    /// The session exists but the underlying write or resize failed,
    /// typically because the child already exited; the caller should
    /// treat the session as dead and kill it.
    Io(String),
}

struct PtySession {
    id: u64,
    master: MasterHandle,
    writer: PtyWriter,
}

/// What a successful spawn hands back: the fresh session id, and the two
/// handles the session's background tasks need — the output reader for
/// the streamer task, and the child for the exit-monitor task.
pub struct SpawnedSession {
    pub id: u64,
    pub reader: PtyReader,
    pub child: ChildProcess,
}

/// The registry of live pseudo-terminal sessions.
pub struct PtyManager {
    sessions: Vec<PtySession>,
    next_id: u64,
}

impl PtyManager {
    /// Identifiers of the live sessions, in registration order.
    pub closed spec fn id_seq(self) -> Seq<u64> {
        self.sessions@.map_values(|s: PtySession| s.id)
    }

    /// True when `id` names a live session.
    pub open spec fn has_id(self, id: u64) -> bool {
        self.id_seq().contains(id)
    }

    /// The next identifier to be issued; every id ever issued is smaller.
    pub closed spec fn next_id_spec(self) -> u64 {
        self.next_id
    }

    /// Well-formedness: live ids are pairwise distinct and all below the
    /// issue counter, so no id is ever issued twice.
    pub closed spec fn wf(self) -> bool {
        &&& (forall|i: int, j: int|
            0 <= i < j < self.id_seq().len() ==> self.id_seq()[i] != self.id_seq()[j])
        &&& (forall|i: int| 0 <= i < self.id_seq().len() ==> self.id_seq()[i] < self.next_id)
    }

    /// An empty registry.
    pub fn new() -> (m: PtyManager)
        ensures
            m.wf(),
            m.id_seq() == Seq::<u64>::empty(),
            m.next_id_spec() == 0,
    {
        let m = PtyManager { sessions: Vec::new(), next_id: 0 };
        proof {
            assert(m.id_seq() =~= Seq::<u64>::empty());
        }
        m
    }

    /// Law: the id about to be issued never names a live session — a
    /// fresh id can collide with nothing, so ids are never recycled.
    pub proof fn lemma_fresh_id(self)
        requires
            self.wf(),
        ensures
            !self.has_id(self.next_id_spec()),
    {
        if self.has_id(self.next_id) {
            let i = choose|i: int|
                0 <= i < self.id_seq().len() && self.id_seq()[i] == self.next_id;
            assert(self.id_seq()[i] < self.next_id);
        }
    }

    /// The id the next successful spawn will use: one above every id
    /// ever issued by this registry.
    pub fn next_session_id(&self) -> (r: u64)
        ensures
            r == self.next_id_spec(),
    {
        self.next_id
    }

    /// Law: an id that is gone never comes back.  Each operation's
    /// contract changes the live set in one of three ways — write and
    /// resize leave it unchanged, kill only removes, and spawn adds only
    /// the counter value, which lies above every id ever issued, while
    /// the counter never decreases.  So an id once removed is absent
    /// after any further operation, and write, resize and kill all
    /// report it `NotFound` for good: a second kill never succeeds, and
    /// a resize after a kill never reports a stale success.
    pub proof fn lemma_dead_id_stays_dead(before: PtyManager, after: PtyManager, id: u64)
        requires
            before.wf(),
            id < before.next_id_spec(),
            !before.has_id(id),
            after.id_seq() == before.id_seq() || after.id_seq() == before.id_seq().push(
                before.next_id_spec(),
            ) || (forall|x: u64| after.has_id(x) ==> before.has_id(x)),
            after.next_id_spec() >= before.next_id_spec(),
        ensures
            !after.has_id(id),
            id < after.next_id_spec(),
    {
        if after.id_seq() == before.id_seq().push(before.next_id_spec()) {
            if after.has_id(id) {
                let i = choose|i: int|
                    0 <= i < after.id_seq().len() && after.id_seq()[i] == id;
                if i < before.id_seq().len() {
                    assert(before.id_seq()[i] == id);
                } else {
                    assert(id == before.next_id_spec());
                }
            }
        } else if after.id_seq() == before.id_seq() {
            assert(!after.has_id(id));
        }
    }

    fn find_index(&self, id: u64) -> (r: Option<usize>)
        ensures
            (r matches Some(i) ==> i < self.id_seq().len() && self.id_seq()[i as int] == id),
            r is Some <==> self.has_id(id),
    {
        let n = self.sessions.len();
        let mut i: usize = 0;
        while i < n
            invariant
                0 <= i <= n,
                n == self.id_seq().len(),
                forall|j: int| 0 <= j < i ==> self.id_seq()[j] != id,
            decreases n - i,
        {
            if self.sessions[i].id == id {
                proof {
                    assert(self.id_seq()[i as int] == id);
                }
                return Some(i);
            }
            i = i + 1;
        }
        proof {
            assert(!self.has_id(id)) by {
                if self.has_id(id) {
                    let j = choose|j: int|
                        0 <= j < self.id_seq().len() && self.id_seq()[j] == id;
                    assert(self.id_seq()[j] != id);
                }
            }
        }
        None
    }

    /// Allocate a new session: open a pseudo-terminal of the given size,
    /// launch `command` with `args` in `cwd` under a fixed terminal
    /// environment, and register the session under a fresh id.  On any
    /// failure of the pseudo-terminal layer the registry is unchanged and
    /// the layer's message is returned.  On success the id is the current
    /// counter value, which no earlier session ever carried.
    pub fn spawn(
        &mut self,
        command: &str,
        args: &Vec<String>,
        cwd: &str,
        cols: u16,
        rows: u16,
    ) -> (r: Result<SpawnedSession, String>)
        requires
            old(self).wf(),
            old(self).next_id_spec() < u64::MAX,
        ensures
            final(self).wf(),
            (r matches Ok(s) ==> {
                &&& s.id == old(self).next_id_spec()
                &&& !old(self).has_id(s.id)
                &&& final(self).id_seq() == old(self).id_seq().push(s.id)
                &&& final(self).next_id_spec() == old(self).next_id_spec() + 1
            }),
            r is Err ==> final(self).id_seq() == old(self).id_seq(),
            r is Err ==> final(self).next_id_spec() == old(self).next_id_spec(),
    {
        let sys = native_system();
        let pair = match open_pair(&sys, rows, cols) {
            Ok(p) => p,
            Err(e) => {
                return Err(e);
            },
        };
        let mut cmd = command_new(command);
        command_args(&mut cmd, args);
        command_cwd(&mut cmd, cwd);
        // a fixed terminal environment, so escape-sequence behaviour does
        // not depend on the caller's environment
        command_env(&mut cmd, "TERM", "xterm-256color");
        command_env(&mut cmd, "COLORTERM", "truecolor");
        command_env(&mut cmd, "LANG", "en_US.UTF-8");
        let child = match spawn_on_slave(&pair, cmd) {
            Ok(c) => c,
            Err(e) => {
                return Err(e);
            },
        };
        let reader = match clone_reader(&pair) {
            Ok(rd) => rd,
            Err(e) => {
                return Err(e);
            },
        };
        let writer = match take_writer(&pair) {
            Ok(w) => w,
            Err(e) => {
                return Err(e);
            },
        };
        let master = into_master(pair);
        let id = self.next_id;
        proof {
            old(self).lemma_fresh_id();
        }
        self.next_id = self.next_id + 1;
        self.sessions.push(PtySession { id, master, writer });
        proof {
            assert(self.id_seq() =~= old(self).id_seq().push(id));
        }
        Ok(SpawnedSession { id, reader, child })
    }

    /// Forward `data` verbatim to the child's input and flush at once.
    /// Reports `NotFound` exactly when `id` names no live session, and
    /// `Io` when the underlying write or flush fails against a live one;
    /// the set of live sessions is unchanged either way.
    pub fn write(&mut self, id: u64, data: &[u8]) -> (r: Result<(), PtyError>)
        requires
            old(self).wf(),
        ensures
            final(self).wf(),
            final(self).id_seq() == old(self).id_seq(),
            final(self).next_id_spec() == old(self).next_id_spec(),
            ((r matches Err(e) && e is NotFound) <==> !old(self).has_id(id)),
    {
        match self.find_index(id) {
            None => Err(PtyError::NotFound),
            Some(i) => {
                let ghost before = self.sessions@;
                let mut sess = self.sessions.remove(i);
                let attempt = match write_all_bytes(&mut sess.writer, data) {
                    Ok(()) => flush_writer(&mut sess.writer),
                    Err(e) => Err(e),
                };
                self.sessions.insert(i, sess);
                proof {
                    let mid = before.remove(i as int);
                    before.remove_ensures(i as int);
                    mid.insert_ensures(i as int, self.sessions@[i as int]);
                    assert(self.sessions@ == mid.insert(i as int, self.sessions@[i as int]));
                    assert(self.sessions@[i as int].id == id);
                    assert(before[i as int].id == id);
                    assert forall|k: int| 0 <= k < self.id_seq().len() implies self.id_seq()[k]
                        == old(self).id_seq()[k] by {
                        if k < i as int {
                            assert(self.sessions@[k] == mid[k]);
                            assert(mid[k] == before[k]);
                        } else if k == i as int {
                        } else {
                            assert(self.sessions@[k] == mid[k - 1]);
                            assert(mid[k - 1] == before[k]);
                        }
                    }
                    assert(self.id_seq() =~= old(self).id_seq());
                }
                match attempt {
                    Ok(()) => Ok(()),
                    Err(m) => Err(PtyError::Io(m)),
                }
            },
        }
    }

    /// Update the pseudo-terminal's window size; the child observes the
    /// change through the standard mechanism.  Reports `NotFound` exactly
    /// when `id` names no live session — in particular after a kill,
    /// never a stale success — and `Io` when the layer refuses.
    pub fn resize(&self, id: u64, cols: u16, rows: u16) -> (r: Result<(), PtyError>)
        ensures
            ((r matches Err(e) && e is NotFound) <==> !self.has_id(id)),
    {
        match self.find_index(id) {
            None => Err(PtyError::NotFound),
            Some(i) => {
                match resize_master(&self.sessions[i].master, rows, cols) {
                    Ok(()) => Ok(()),
                    Err(m) => Err(PtyError::Io(m)),
                }
            },
        }
    }

    /// Remove the session from the registry, dropping its handles: no
    /// further write or resize on this id can succeed, and the id is
    /// never issued again.  Succeeds exactly when the id was live;
    /// reports `NotFound` otherwise — so a second kill of the same id
    /// always reports `NotFound`, never a stale success.
    pub fn kill(&mut self, id: u64) -> (r: Result<(), PtyError>)
        requires
            old(self).wf(),
        ensures
            final(self).wf(),
            final(self).next_id_spec() == old(self).next_id_spec(),
            (r is Ok <==> old(self).has_id(id)),
            ((r matches Err(e) && e is NotFound) <==> !old(self).has_id(id)),
            !final(self).has_id(id),
            (forall|x: u64| x != id ==> (final(self).has_id(x) <==> old(self).has_id(x))),
            r is Err ==> final(self).id_seq() == old(self).id_seq(),
    {
        match self.find_index(id) {
            None => Err(PtyError::NotFound),
            Some(i) => {
                // dropping the removed entry drops its master and writer
                let _ = self.sessions.remove(i);
                proof {
                    assert(self.id_seq() =~= old(self).id_seq().remove(i as int));
                    assert(!self.has_id(id)) by {
                        if self.has_id(id) {
                            let j = choose|j: int|
                                0 <= j < self.id_seq().len() && self.id_seq()[j] == id;
                            if j < i {
                                assert(old(self).id_seq()[j] == id);
                            } else {
                                assert(old(self).id_seq()[j + 1] == id);
                            }
                        }
                    }
                    assert forall|x: u64| x != id implies (self.has_id(x) <==> old(
                        self,
                    ).has_id(x)) by {
                        if old(self).has_id(x) {
                            let j = choose|j: int|
                                0 <= j < old(self).id_seq().len() && old(self).id_seq()[j] == x;
                            if j < i {
                                assert(self.id_seq()[j] == x);
                            } else {
                                assert(self.id_seq()[j - 1] == x);
                            }
                        }
                        if self.has_id(x) {
                            let j = choose|j: int|
                                0 <= j < self.id_seq().len() && self.id_seq()[j] == x;
                            if j < i {
                                assert(old(self).id_seq()[j] == x);
                            } else {
                                assert(old(self).id_seq()[j + 1] == x);
                            }
                        }
                    }
                }
                Ok(())
            },
        }
    }
}

} // verus!
