//! The engine's connection roster: admission, lifecycle transitions and
//! eviction of terminated connections.

use vstd::prelude::*;
use crate::pk::RecvResult;

verus! {

/// What the engine knows of one connection: its admission id, the
/// application state, and whether it is terminating.
pub ghost struct ConnView<S> {
    pub id: u64,
    pub state: S,
    pub closing: bool,
}

/// Server side representation of a client connection: the transport handle
/// `H` (opaque to the engine), the application state `S`, and the
/// termination flag.
pub struct Conn<S, H> {
    id: u64,
    /// Application-defined connection state.
    pub state: S,
    stream: H,
    should_close: bool,
}

impl<S, H> View for Conn<S, H> {
    type V = ConnView<S>;

    closed spec fn view(&self) -> ConnView<S> {
        ConnView { id: self.id, state: self.state, closing: self.should_close }
    }
}

impl<S, H> Conn<S, H> {
    /// Create a connection in the active state around a transport handle.
    pub fn new(id: u64, state: S, stream: H) -> (c: Conn<S, H>)
        ensures
            c@ == (ConnView { id, state, closing: false }),
    {
        Conn { id, state, stream, should_close: false }
    }

    /// The id this connection was admitted under.
    pub fn id(&self) -> (r: u64)
        ensures
            r == self@.id,
    {
        self.id
    }

    /// Whether this connection is terminating and will be evicted at the
    /// next sweep.
    pub fn should_close(&self) -> (r: bool)
        ensures
            r == self@.closing,
    {
        self.should_close
    }

    /// Mark the connection as terminating.
    pub fn close(&mut self)
        ensures
            final(self)@ == (ConnView { closing: true, ..old(self)@ }),
    {
        self.should_close = true;
    }

    /// Borrow the transport handle.
    pub fn stream(&self) -> (r: &H) {
        &self.stream
    }

    /// Borrow the transport handle mutably. The engine's view of the
    /// connection does not depend on the handle.
    pub fn stream_mut(&mut self) -> (r: &mut H)
        ensures
            final(self)@ == old(self)@,
    {
        &mut self.stream
    }

    /// Apply one poll result to this connection, as the engine's transition
    /// table demands: a message or silence leaves the connection active; a
    /// clean close, an abrupt close or an error makes it terminating. The
    /// returned dispatch names the callback the caller must now invoke,
    /// carrying the message or the error through untouched.
    pub fn apply_poll<M, E>(&mut self, r: Result<RecvResult<M>, E>) -> (d: Dispatch<M, E>)
        requires
            !old(self)@.closing,
        ensures
            final(self)@.id == old(self)@.id,
            final(self)@.state == old(self)@.state,
            match r {
                Result::Ok(RecvResult::Message(m)) => {
                    &&& d matches Dispatch::Message(dm) && dm == m
                    &&& !final(self)@.closing
                },
                Result::Ok(RecvResult::NoData) => d is Idle && !final(self)@.closing,
                Result::Ok(RecvResult::Closed) => d is Closed && final(self)@.closing,
                Result::Ok(RecvResult::ClosedWrongly) => {
                    &&& d is ClosedUnexpected
                    &&& final(self)@.closing
                },
                Result::Err(e) => {
                    &&& d matches Dispatch::Failed(de) && de == e
                    &&& final(self)@.closing
                },
            },
    {
        match r {
            Result::Ok(RecvResult::Message(m)) => Dispatch::Message(m),
            Result::Ok(RecvResult::NoData) => Dispatch::Idle,
            Result::Ok(RecvResult::Closed) => {
                self.should_close = true;
                Dispatch::Closed
            }
            Result::Ok(RecvResult::ClosedWrongly) => {
                self.should_close = true;
                Dispatch::ClosedUnexpected
            }
            Result::Err(e) => {
                self.should_close = true;
                Dispatch::Failed(e)
            }
        }
    }
}

/// Which callback the engine must invoke after polling a connection.
pub enum Dispatch<M, E> {
    /// A message arrived: invoke the message callback with it.
    Message(M),
    /// Nothing arrived: no callback.
    Idle,
    /// The peer closed correctly: invoke the closed callback.
    Closed,
    /// The peer closed mid-frame: invoke the closed-unexpectedly callback.
    ClosedUnexpected,
    /// Receiving failed: invoke the error callback with the error.
    Failed(E),
}

/// Connection views stand in admission order when their ids strictly
/// increase along the sequence.
pub open spec fn ascending<S>(s: Seq<ConnView<S>>) -> bool {
    forall|j: int, k: int| 0 <= j < k < s.len() ==> s[j].id < s[k].id
}

/// The live part of a roster: the connections that are not terminating, in
/// their original order.
pub open spec fn live<S>(s: Seq<ConnView<S>>) -> Seq<ConnView<S>> {
    s.filter(|c: ConnView<S>| !c.closing)
}

/// Represents our server's engine state: the live connection collection in
/// admission order, and the id the next admitted connection will get.
pub struct Server<S, H> {
    conns: Vec<Conn<S, H>>,
    next_id: u64,
}

impl<S, H> Server<S, H> {
    /// The engine's view of its connections, in admission order.
    pub closed spec fn roster(&self) -> Seq<ConnView<S>> {
        self.conns@.map_values(|c: Conn<S, H>| c@)
    }

    /// The id the next admitted connection will get.
    pub closed spec fn fresh_id(&self) -> u64 {
        self.next_id
    }

    /// The roster is well formed: ids strictly increase along it (so every
    /// id occurs once, in admission order) and all stay below the next id.
    pub open spec fn wf(&self) -> bool {
        &&& ascending(self.roster())
        &&& forall|j: int| 0 <= j < self.roster().len() ==> self.roster()[j].id < self.fresh_id()
    }

    /// A new engine with no connections.
    pub fn new() -> (s: Server<S, H>)
        ensures
            s.roster() == Seq::<ConnView<S>>::empty(),
            s.fresh_id() == 0,
            s.wf(),
    {
        let s = Server { conns: Vec::new(), next_id: 0 };
        proof {
            assert(s.roster() =~= Seq::<ConnView<S>>::empty());
        }
        s
    }

    /// The id the next accepted connection will get.
    pub fn next_conn_id(&self) -> (id: u64)
        ensures
            id == self.fresh_id(),
    {
        self.next_id
    }

    /// How many connections are on the roster.
    pub fn len(&self) -> (n: usize)
        ensures
            n == self.roster().len(),
    {
        self.conns.len()
    }

    /// Admit a freshly accepted connection: it joins the end of the roster,
    /// active, under a fresh id, with the given initial state.
    pub fn accept(&mut self, state: S, stream: H) -> (id: u64)
        requires
            old(self).wf(),
            old(self).fresh_id() < u64::MAX,
        ensures
            id == old(self).fresh_id(),
            final(self).roster() == old(self).roster().push(
                ConnView { id: old(self).fresh_id(), state, closing: false },
            ),
            final(self).fresh_id() == old(self).fresh_id() + 1,
            final(self).wf(),
    {
        let id = self.next_id;
        self.next_id = self.next_id + 1;
        let c = Conn::new(id, state, stream);
        proof {
            assert(self.conns@.push(c).map_values(|x: Conn<S, H>| x@)
                =~= self.roster().push(c@));
        }
        self.conns.push(c);
        id
    }

    /// Whether the connection at `i` should be polled this iteration:
    /// terminating connections are skipped and receive no further
    /// callbacks.
    pub fn should_poll(&self, i: usize) -> (r: bool)
        requires
            i < self.roster().len(),
        ensures
            r == !self.roster()[i as int].closing,
    {
        !self.conns[i].should_close()
    }

    /// Borrow the connection at `i`.
    pub fn conn_at(&self, i: usize) -> (r: &Conn<S, H>)
        requires
            i < self.roster().len(),
        ensures
            r@ == self.roster()[i as int],
    {
        &self.conns[i]
    }

    /// Borrow the connection at `i` mutably; the rest of the roster is
    /// untouched.
    pub fn conn_at_mut(&mut self, i: usize) -> (r: &mut Conn<S, H>)
        requires
            i < old(self).roster().len(),
        ensures
            (*r)@ == old(self).roster()[i as int],
            final(self).roster().len() == old(self).roster().len(),
            final(self).roster()[i as int] == (*final(r))@,
            forall|j: int|
                0 <= j < old(self).roster().len() && j != i
                    ==> final(self).roster()[j] == old(self).roster()[j],
            final(self).fresh_id() == old(self).fresh_id(),
    {
        &mut self.conns[i]
    }

    /// Remove every terminating connection from the roster, keeping the
    /// live connections in their admission order.
    pub fn sweep(&mut self)
        requires
            old(self).wf(),
        ensures
            final(self).roster() == live(old(self).roster()),
            final(self).fresh_id() == old(self).fresh_id(),
            forall|j: int|
                0 <= j < final(self).roster().len()
                    ==> !(#[trigger] final(self).roster()[j]).closing,
            final(self).wf(),
    {
        let ghost ov = self.roster();
        let ghost onid = self.next_id;
        let mut j: usize = 0;
        let ghost mut k: int = 0;
        proof {
            reveal(Seq::filter);
            assert(ov.take(0) =~= Seq::<ConnView<S>>::empty());
            assert(live(ov.take(0)) =~= Seq::<ConnView<S>>::empty());
            assert(self.roster() =~= live(ov.take(0)) + ov.skip(0));
        }
        while j < self.conns.len()
            invariant
                0 <= j,
                j as int <= k <= ov.len(),
                self.roster() == live(ov.take(k)) + ov.skip(k),
                j as int == live(ov.take(k)).len(),
                self.next_id == onid,
            decreases self.conns.len() - j,
        {
            let ghost v = ov[k];
            proof {
                assert(self.roster().len() == self.conns@.len());
                assert(ov.skip(k).len() > 0);
                assert(self.roster()[j as int] == ov.skip(k)[0]);
                assert(ov.skip(k)[0] == ov[k]);
                assert((self.conns@[j as int])@ == self.roster()[j as int]);
                lemma_live_push(ov.take(k), v);
                assert(ov.take(k + 1) =~= ov.take(k).push(v));
            }
            if self.conns[j].should_close() {
                proof {
                    assert(v.closing);
                    assert(live(ov.take(k + 1)) =~= live(ov.take(k)));
                }
                let ghost pre = self.roster();
                self.conns.remove(j);
                proof {
                    assert(self.roster() =~= pre.remove(j as int));
                    assert(pre.remove(j as int) =~= live(ov.take(k)) + ov.skip(k + 1));
                    assert(self.roster() =~= live(ov.take(k + 1)) + ov.skip(k + 1));
                    k = k + 1;
                }
            } else {
                proof {
                    assert(!v.closing);
                    assert(live(ov.take(k + 1)) =~= live(ov.take(k)).push(v));
                    assert(self.roster() =~= live(ov.take(k + 1)) + ov.skip(k + 1));
                }
                j = j + 1;
                proof {
                    k = k + 1;
                }
            }
        }
        proof {
            assert(ov.skip(k).len() == 0);
            assert(k == ov.len());
            assert(ov.take(k) =~= ov);
            assert(self.roster() =~= live(ov));
            lemma_live_facts(ov);
            assert forall|j2: int|
                0 <= j2 < self.roster().len()
                    implies self.roster()[j2].id < self.next_id by {
                assert(ov.contains(live(ov)[j2]));
                let m = choose|m: int| 0 <= m < ov.len() && ov[m] == live(ov)[j2];
                assert(ov[m].id < old(self).fresh_id());
            }
        }
    }
}

/// Extending a roster by one connection extends its live part by that
/// connection exactly when the connection is not terminating.
proof fn lemma_live_push<S>(s: Seq<ConnView<S>>, v: ConnView<S>)
    ensures
        live(s.push(v)) == if !v.closing {
            live(s).push(v)
        } else {
            live(s)
        },
{
    reveal(Seq::filter);
    assert(s.push(v).drop_last() =~= s);
    assert(s.push(v).last() == v);
}

/// What eviction keeps: every element of the live part is an element of the
/// roster, none of them is terminating, and admission order is preserved.
pub proof fn lemma_live_facts<S>(s: Seq<ConnView<S>>)
    ensures
        forall|j: int| 0 <= j < live(s).len() ==> !(#[trigger] live(s)[j]).closing,
        forall|j: int| 0 <= j < live(s).len() ==> s.contains(#[trigger] live(s)[j]),
        ascending(s) ==> ascending(live(s)),
    decreases s.len(),
{
    reveal(Seq::filter);
    if s.len() == 0 {
    } else {
        let t = s.drop_last();
        let v = s.last();
        lemma_live_facts(t);
        assert(forall|j: int| 0 <= j < t.len() ==> t[j] == s[j]);
        assert forall|j: int| 0 <= j < live(t).len() implies s.contains(#[trigger] live(t)[j]) by {
            assert(t.contains(live(t)[j]));
            let m = choose|m: int| 0 <= m < t.len() && t[m] == live(t)[j];
            assert(s[m] == live(t)[j]);
        }
        if !v.closing {
            assert(live(s) == live(t).push(v));
            assert(s.contains(v)) by {
                assert(s[s.len() - 1] == v);
            }
            if ascending(s) {
                assert(ascending(t));
                assert forall|j: int, k: int|
                    0 <= j < k < live(s).len() implies live(s)[j].id < live(s)[k].id by {
                    if k < live(s).len() - 1 {
                        assert(live(t)[j].id < live(t)[k].id);
                    } else {
                        assert(live(s)[k] == v);
                        assert(t.contains(live(t)[j]));
                        let m = choose|m: int| 0 <= m < t.len() && t[m] == live(t)[j];
                        assert(s[m].id < s[s.len() - 1].id);
                    }
                }
            }
        } else {
            assert(live(s) == live(t));
            if ascending(s) {
                assert(ascending(t));
            }
        }
    }
}

/// A terminated connection is absent from the live part of the roster: no
/// connection that reported a close or an error survives a sweep.
pub proof fn lemma_terminated_absent<S>(s: Seq<ConnView<S>>, i: int)
    requires
        ascending(s),
        0 <= i < s.len(),
        s[i].closing,
    ensures
        forall|j: int| 0 <= j < live(s).len() ==> (#[trigger] live(s)[j]).id != s[i].id,
{
    lemma_live_facts(s);
    assert forall|j: int| 0 <= j < live(s).len() implies (#[trigger] live(s)[j]).id != s[i].id by {
        assert(s.contains(live(s)[j]));
        let m = choose|m: int| 0 <= m < s.len() && s[m] == live(s)[j];
        assert(!s[m].closing);
        if m < i {
            assert(s[m].id < s[i].id);
        } else if i < m {
            assert(s[i].id < s[m].id);
        }
    }
}

} // verus!
