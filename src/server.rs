//! The decisions of one client connection: what each request is answered
//! with, which aligned read it needs, and the order of the answers.
//!
//! The connection reads one request, answers it, and only then reads the
//! next, so at most one read is in flight and answers leave in the order the
//! requests came.
use vstd::prelude::*;

use crate::geometry::{aligned_read, request_slice, ReadGeometry};
use crate::protocol::{Request, RequestType, Response};
use crate::wire::{lemma_be_value_bound, lemma_pow256_values};
use crate::toc::{has_key, is_sorted, key_rank, TableOfContents};

verus! {

/// The body that reads are answered with when they skip the index.
pub open spec fn short_circuit_body() -> Seq<u8> {
    seq![0u8, 1u8, 2u8, 3u8]
}

/// The body that acknowledges a write.
pub open spec fn write_ack_body() -> Seq<u8> {
    seq![119u8, 114u8, 105u8, 116u8, 101u8]
}

/// A read waiting for its aligned read to complete.
#[derive(Clone, Copy, Debug)]
pub struct PendingRead {
    pub id: u64,
    pub geometry: ReadGeometry,
}

/// What to do with a request.
pub enum Step {
    /// Send this response.
    Reply(Response),
    /// Read `geometry` from the data file, then call `Connection::read_done`.
    Read(ReadGeometry),
}

/// The state of one connection: its settings, the read in flight, and the
/// ids of the requests taken and the responses sent.
pub struct Connection {
    short_circuit_reads: bool,
    max_value_len: usize,
    pending: Option<PendingRead>,
    received: Ghost<Seq<u64>>,
    sent: Ghost<Seq<u64>>,
}

impl Connection {
    /// Ids of the requests taken so far, in order.
    pub closed spec fn received(&self) -> Seq<u64> {
        self.received@
    }

    /// Ids of the responses sent so far, in order.
    pub closed spec fn sent(&self) -> Seq<u64> {
        self.sent@
    }

    /// The read in flight, if any.
    pub closed spec fn awaiting(&self) -> Option<u64> {
        match self.pending {
            Some(p) => Some(p.id),
            None => None,
        }
    }

    /// The geometry of the read in flight, if any.
    pub closed spec fn awaiting_geometry(&self) -> Option<ReadGeometry> {
        match self.pending {
            Some(p) => Some(p.geometry),
            None => None,
        }
    }

    /// Whether reads are answered without the index.
    pub closed spec fn short_circuit(&self) -> bool {
        self.short_circuit_reads
    }

    /// The largest body a request may carry.
    pub closed spec fn max_value(&self) -> nat {
        self.max_value_len as nat
    }

    /// Every request but the one in flight is answered, in the order the
    /// requests came.
    pub open spec fn wf(&self) -> bool {
        &&& self.sent().len() + (if self.awaiting() is Some { 1int } else { 0int })
            == self.received().len()
        &&& self.sent() == self.received().take(self.sent().len() as int)
        &&& self.awaiting() matches Some(id) ==> id == self.received().last()
    }

    /// A connection that has taken no request yet.
    pub fn new(short_circuit_reads: bool, max_value_len: usize) -> (r: Connection)
        ensures
            r.wf(),
            r.received() == Seq::<u64>::empty(),
            r.sent() == Seq::<u64>::empty(),
            r.awaiting() is None,
            r.short_circuit() == short_circuit_reads,
            r.max_value() == max_value_len,
    {
        let r = Connection {
            short_circuit_reads,
            max_value_len,
            pending: None,
            received: Ghost(Seq::empty()),
            sent: Ghost(Seq::empty()),
        };
        assert(r.received().take(0) =~= r.sent());
        r
    }

    /// The largest body a request on this connection may carry.
    pub fn max_value_len(&self) -> (r: usize)
        ensures
            r == self.max_value(),
    {
        self.max_value_len
    }

    /// Whether a read is in flight, so that no request may be taken.
    pub fn is_awaiting(&self) -> (r: bool)
        ensures
            r == self.awaiting() is Some,
    {
        self.pending.is_some()
    }

    /// Takes the next request: either answers it at once or asks for the
    /// aligned read that answers it.
    ///
    /// Reads skip the index when the connection short-circuits them; a key
    /// that the index lacks is answered with an empty body; any other key
    /// needs the sector-aligned read that covers its value. Writes are
    /// acknowledged.
    pub fn on_request(&mut self, toc: &TableOfContents, req: &Request) -> (r: Step)
        requires
            old(self).wf(),
            old(self).awaiting() is None,
            toc.wf(),
        ensures
            final(self).wf(),
            final(self).received() == old(self).received().push(req.id),
            final(self).short_circuit() == old(self).short_circuit(),
            final(self).max_value() == old(self).max_value(),
            match r {
                Step::Reply(resp) => {
                    &&& resp.id == req.id
                    &&& final(self).awaiting() is None
                    &&& final(self).sent() == old(self).sent().push(req.id)
                    &&& req.reqtype == RequestType::Write ==> resp.body@ == write_ack_body()
                    &&& req.reqtype == RequestType::Read && old(self).short_circuit()
                        ==> resp.body@ == short_circuit_body()
                    &&& req.reqtype == RequestType::Read && !old(self).short_circuit()
                        ==> resp.body@.len() == 0
                },
                Step::Read(g) => {
                    &&& req.reqtype == RequestType::Read
                    &&& !old(self).short_circuit()
                    &&& final(self).awaiting() == Some(req.id)
                    &&& final(self).awaiting_geometry() == Some(g)
                    &&& final(self).sent() == old(self).sent()
                    &&& exists|i: int|
                        0 <= i < toc@.len() && #[trigger] toc@[i].0 == key_rank(req.uuid@)
                            && g.covers(toc@[i].1, toc@[i].2 as u64)
                    &&& g.is_aligned()
                    &&& g.contains_request()
                },
            },
            req.reqtype == RequestType::Read && !old(self).short_circuit() && is_sorted(toc@) ==> (
            r is Reply <==> !has_key(toc@, key_rank(req.uuid@))),
    {
        let ghost before = self.received@;
        self.received = Ghost(self.received@.push(req.id));
        let step = match req.reqtype {
            RequestType::Write => {
                self.sent = Ghost(self.sent@.push(req.id));
                Step::Reply(respond_write(req))
            },
            RequestType::Read => {
                if self.short_circuit_reads {
                    let mut body: Vec<u8> = Vec::new();
                    body.push(0u8);
                    body.push(1u8);
                    body.push(2u8);
                    body.push(3u8);
                    assert(body@ =~= short_circuit_body());
                    self.sent = Ghost(self.sent@.push(req.id));
                    Step::Reply(Response { id: req.id, body })
                } else {
                    match toc.offset_and_len(&req.uuid) {
                        None => {
                            self.sent = Ghost(self.sent@.push(req.id));
                            Step::Reply(Response { id: req.id, body: Vec::new() })
                        },
                        Some((offset, len)) => {
                            let g = aligned_read(offset, len);
                            proof {
                                lemma_be_value_bound(req.uuid@);
                                lemma_pow256_values();
                                let i = choose|i: int|
                                    0 <= i < toc@.len() && #[trigger] toc@[i] == (
                                        key_rank(req.uuid@) as u128,
                                        offset,
                                        len,
                                    );
                                assert(toc@[i].0 == key_rank(req.uuid@));
                            }
                            self.pending = Some(PendingRead { id: req.id, geometry: g });
                            Step::Read(g)
                        },
                    }
                }
            },
        };
        proof {
            let n = old(self).sent().len() as int;
            assert(self.received().take(n) =~= before.take(n));
            assert(self.received().take(n + 1) =~= before.take(n).push(req.id));
        }
        step
    }

    /// Answers the read in flight with the bytes that the aligned read
    /// returned, or with an empty body when it failed.
    pub fn read_done(&mut self, data: Option<&[u8]>) -> (r: Response)
        requires
            old(self).wf(),
            old(self).awaiting() is Some,
        ensures
            final(self).wf(),
            final(self).awaiting() is None,
            final(self).received() == old(self).received(),
            final(self).sent() == old(self).sent().push(old(self).awaiting()->Some_0),
            final(self).short_circuit() == old(self).short_circuit(),
            final(self).max_value() == old(self).max_value(),
            r.id == old(self).awaiting()->Some_0,
            ({
                let g = old(self).awaiting_geometry()->Some_0;
                match data {
                    Some(buf) => if g.pad_left + g.len <= buf@.len() {
                        r.body@ == buf@.subrange(g.pad_left as int, g.pad_left + g.len)
                    } else {
                        r.body@.len() == 0
                    },
                    None => r.body@.len() == 0,
                }
            }),
    {
        let p = self.pending.take().unwrap();
        let body = match data {
            Some(buf) => request_slice(&p.geometry, buf),
            None => Vec::new(),
        };
        self.sent = Ghost(self.sent@.push(p.id));
        proof {
            let n = old(self).sent().len() as int;
            assert(self.received().take(n + 1) =~= old(self).received().take(n).push(p.id));
        }
        Response { id: p.id, body }
    }
}

/// Acknowledges a write, echoing its id.
pub fn respond_write(req: &Request) -> (r: Response)
    ensures
        r.id == req.id,
        r.body@ == write_ack_body(),
{
    let mut body: Vec<u8> = Vec::new();
    body.push(119u8);
    body.push(114u8);
    body.push(105u8);
    body.push(116u8);
    body.push(101u8);
    assert(body@ =~= write_ack_body());
    Response { id: req.id, body }
}

/// Responses leave a connection in the order its requests came: the ids sent
/// so far are the ids of the first requests taken, in the same order.
pub proof fn lemma_responses_in_order(c: &Connection)
    requires
        c.wf(),
    ensures
        c.sent().len() <= c.received().len(),
        forall|i: int| 0 <= i < c.sent().len() ==> #[trigger] c.sent()[i] == c.received()[i],
{
    assert forall|i: int| 0 <= i < c.sent().len() implies #[trigger] c.sent()[i] == c.received()[i] by {
        assert(c.sent()[i] == c.received().take(c.sent().len() as int)[i]);
    }
}

} // verus!
