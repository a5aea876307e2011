//! The bookkeeping of a bounded connection pool: idle connections are handed out first, a new
//! one is opened while fewer than the maximum are out, and otherwise the caller waits. The
//! threads, locks and waiting stay with the caller; every decision is made here.

use vstd::prelude::*;

verus! {

/// Opens connections for a pool.
pub trait ManageConnection: Send + Sync + 'static {
    type Connection: Send + 'static;
    type Error: Send + 'static;

    /// Opens a new connection.
    fn connect(&self) -> Result<Self::Connection, Self::Error>;
}

/// Why no connection was handed out.
#[derive(Debug, PartialEq)]
pub enum PoolError<E> {
    Factory(E),
    Timeout,
}

/// What a request for a connection should do next.
pub enum Acquire<T> {
    /// Use this idle connection.
    Ready(T),
    /// A slot is reserved: open a new connection (and give the slot back if that fails).
    Connect,
    /// All slots are taken: wait until one is given back.
    Wait,
}

/// The idle connections and the number handed out (or being opened).
pub struct PoolState<T> {
    idle: Vec<T>,
    active_count: usize,
    max_size: usize,
}

impl<T> PoolState<T> {
    pub closed spec fn idle(&self) -> Seq<T> {
        self.idle@
    }

    pub closed spec fn active(&self) -> nat {
        self.active_count as nat
    }

    pub closed spec fn max_size(&self) -> nat {
        self.max_size as nat
    }

    /// Never more connections than the maximum, idle and out together.
    pub closed spec fn wf(&self) -> bool {
        self.max_size > 0 && self.idle@.len() + self.active_count <= self.max_size
    }

    /// An empty pool of at most `max_size` connections.
    pub fn new(max_size: usize) -> (s: Self)
        requires
            max_size > 0,
        ensures
            s.wf(),
            s.idle() == Seq::<T>::empty(),
            s.active() == 0,
            s.max_size() == max_size,
    {
        PoolState { idle: Vec::new(), active_count: 0, max_size }
    }

    /// A request for a connection: the most recently returned idle one, else a reserved slot
    /// for a new one while fewer than the maximum are out, else wait.
    pub fn acquire(&mut self) -> (r: Acquire<T>)
        requires
            old(self).wf(),
        ensures
            final(self).wf(),
            final(self).max_size() == old(self).max_size(),
            old(self).idle().len() > 0 ==> r == Acquire::Ready(old(self).idle().last()) && final(self).idle()
                == old(self).idle().drop_last() && final(self).active() == old(self).active() + 1,
            old(self).idle().len() == 0 && old(self).active() < old(self).max_size() ==> r is Connect && final(self).idle()
                == old(self).idle() && final(self).active() == old(self).active() + 1,
            old(self).idle().len() == 0 && old(self).active() >= old(self).max_size() ==> r is Wait && *final(self)
                == *old(self),
    {
        if self.idle.len() > 0 {
            let conn = self.idle.pop().unwrap();
            self.active_count = self.active_count + 1;
            Acquire::Ready(conn)
        } else if self.active_count < self.max_size {
            self.active_count = self.active_count + 1;
            Acquire::Connect
        } else {
            Acquire::Wait
        }
    }

    /// After a wait timed out: an idle connection if one came back meanwhile.
    pub fn take_idle(&mut self) -> (r: Option<T>)
        requires
            old(self).wf(),
        ensures
            final(self).wf(),
            final(self).max_size() == old(self).max_size(),
            old(self).idle().len() > 0 ==> r == Some(old(self).idle().last()) && final(self).idle() == old(
                self,
            ).idle().drop_last() && final(self).active() == old(self).active() + 1,
            old(self).idle().len() == 0 ==> r is None && *final(self) == *old(self),
    {
        if self.idle.len() > 0 {
            let conn = self.idle.pop().unwrap();
            self.active_count = self.active_count + 1;
            Some(conn)
        } else {
            None
        }
    }

    /// Gives back a slot whose connection could not be opened.
    pub fn connect_failed(&mut self)
        requires
            old(self).wf(),
            old(self).active() > 0,
        ensures
            final(self).wf(),
            final(self).max_size() == old(self).max_size(),
            final(self).idle() == old(self).idle(),
            final(self).active() == old(self).active() - 1,
    {
        self.active_count = self.active_count - 1;
    }

    /// Returns a handed-out connection: it becomes idle, unless it was discarded.
    pub fn release(&mut self, item: Option<T>)
        requires
            old(self).wf(),
            old(self).active() > 0,
        ensures
            final(self).wf(),
            final(self).max_size() == old(self).max_size(),
            final(self).active() == old(self).active() - 1,
            final(self).idle() == match item {
                Some(x) => old(self).idle().push(x),
                None => old(self).idle(),
            },
    {
        if let Some(x) = item {
            self.idle.push(x);
        }
        self.active_count = self.active_count - 1;
    }

    /// The number of idle connections.
    pub fn idle_count(&self) -> (n: usize)
        ensures
            n == self.idle().len(),
    {
        self.idle.len()
    }

    /// The number of connections handed out or being opened.
    pub fn active_count(&self) -> (n: usize)
        ensures
            n == self.active(),
    {
        self.active_count
    }
}

} // verus!
