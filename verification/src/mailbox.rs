//! The mailbox multiplexer's decision core: a bounded FIFO of pending
//! requests, each pairing a command with the single-use reply slot of the
//! caller that issued it. The owner task around it performs the I/O: it
//! pops one entry at a time, writes the entry's request bytes, reads one
//! reply frame, and resolves exactly the popped entry's slot — so requests
//! reach the wire in enqueue order and no caller can receive another's
//! reply.

use vstd::prelude::*;
use crate::codec::{spec_encode, encode_frame};
use crate::command::{spec_request_frame, Command, CommandModel};
use crate::connection::WireError;
use crate::frame::{Frame, FrameModel};
use crate::store::ok_text;

verus! {

broadcast use vstd::std_specs::vec::group_vec_axioms, vstd::seq::group_seq_axioms;

/// An outbound command paired with the reply slot that its response
/// resolves; the slot is owned by the caller and resolved at most once.
pub struct Pending {
    pub cmd: Command,
    pub slot: u64,
}

impl View for Pending {
    type V = (CommandModel, u64);

    open spec fn view(&self) -> (CommandModel, u64) {
        (self.cmd@, self.slot)
    }
}

/// The bounded many-producer queue of pending requests, serviced one at a
/// time in FIFO order.
pub struct Mailbox {
    queue: Vec<Pending>,
    capacity: usize,
}

impl View for Mailbox {
    type V = Seq<(CommandModel, u64)>;

    closed spec fn view(&self) -> Seq<(CommandModel, u64)> {
        Seq::new(self.queue@.len(), |i: int| self.queue@[i]@)
    }
}

impl Mailbox {
    pub closed spec fn capacity_spec(&self) -> int {
        self.capacity as int
    }

    pub fn new(capacity: usize) -> (r: Mailbox)
        ensures
            r@ == Seq::<(CommandModel, u64)>::empty(),
            r.capacity_spec() == capacity,
    {
        let r = Mailbox { queue: Vec::new(), capacity };
        proof {
            assert(r@ =~= Seq::<(CommandModel, u64)>::empty());
        }
        r
    }

    pub fn len(&self) -> (r: usize)
        ensures
            r == self@.len(),
    {
        self.queue.len()
    }

    /// A caller's attempt to enqueue a request. On a full queue nothing
    /// changes and the caller suspends (backpressure) rather than failing.
    pub fn try_enqueue(&mut self, p: Pending) -> (r: bool)
        ensures
            old(self)@.len() < old(self).capacity_spec() ==> r && final(self)@ == old(
                self,
            )@.push(p@),
            old(self)@.len() >= old(self).capacity_spec() ==> !r && final(self)@ == old(self)@,
            final(self).capacity_spec() == old(self).capacity_spec(),
    {
        if self.queue.len() < self.capacity {
            let ghost pv = p@;
            self.queue.push(p);
            proof {
                assert(self@ =~= old(self)@.push(pv));
            }
            true
        } else {
            false
        }
    }

    /// The owner task takes the oldest pending request; entries behind it
    /// keep their order.
    pub fn take_next(&mut self) -> (r: Option<Pending>)
        ensures
            old(self)@.len() == 0 ==> r is None && final(self)@ == old(self)@,
            old(self)@.len() > 0 ==> (r matches Some(p) && p@ == old(self)@[0] && final(self)@
                == old(self)@.skip(1)),
            final(self).capacity_spec() == old(self).capacity_spec(),
    {
        if self.queue.len() == 0 {
            None
        } else {
            let p = self.queue.remove(0);
            proof {
                assert(self@ =~= old(self)@.skip(1));
            }
            Some(p)
        }
    }
}

/// The owner task's outbound step for one entry: the exact request bytes to
/// write for the entry's command, and the slot that the reply, once read,
/// must resolve. Pairing the slot with the bytes here is what routes each
/// reply to the caller that issued the request.
pub fn begin_exchange(p: &Pending) -> (r: (Vec<u8>, u64))
    ensures
        r.0@ == spec_encode(spec_request_frame(p.cmd@)),
        r.1 == p.slot,
{
    let request = p.cmd.to_frame();
    (encode_frame(&request), p.slot)
}

/// Client-side reduction of the reply to a fetch: a bulk frame is the
/// value, the null frame a miss; any other reply is outside the protocol
/// surface a fetch can answer.
pub fn fetch_reply(f: &Frame) -> (r: Result<Option<Vec<u8>>, WireError>)
    ensures
        (f@ matches FrameModel::Bulk(p) ==> r matches Ok(Some(v)) && v@ == p),
        f@ is Null ==> r == Ok::<Option<Vec<u8>>, WireError>(None),
        !(f@ is Bulk) && !(f@ is Null) ==> r == Err::<Option<Vec<u8>>, WireError>(
            WireError::Unsupported,
        ),
{
    match f {
        Frame::Bulk(p) => Ok(Some(crate::codec::clone_bytes(p))),
        Frame::Null => Ok(None),
        _ => Err(WireError::Unsupported),
    }
}

/// Client-side reduction of the reply to a store: exactly `Simple(OK)`
/// succeeds.
pub fn store_reply(f: &Frame) -> (r: Result<(), WireError>)
    ensures
        f@ == FrameModel::Simple(ok_text()) ==> r == Ok::<(), WireError>(()),
        f@ != FrameModel::Simple(ok_text()) ==> r == Err::<(), WireError>(
            WireError::Unsupported,
        ),
{
    match f {
        Frame::Simple(s) => {
            if s.len() == 2 && s[0] == 79 && s[1] == 75 {
                proof {
                    assert(s@ =~= ok_text());
                }
                Ok(())
            } else {
                proof {
                    if s@ == ok_text() {
                        assert(s@.len() == 2 && s@[0] == 79 && s@[1] == 75);
                    }
                }
                Err(WireError::Unsupported)
            }
        },
        _ => Err(WireError::Unsupported),
    }
}

/// Ordering law: two callers' requests enqueued one after the other are
/// serviced in that order — the first service takes the earlier entry and
/// leaves the later one at the head for the second service — and each
/// service resolves the slot of exactly the entry it took.
pub proof fn lemma_fifo_ordering(q: Seq<(CommandModel, u64)>, a: (CommandModel, u64), b: (
    CommandModel,
    u64,
))
    requires
        q.len() == 0,
    ensures
        q.push(a).push(b)[0] == a,
        q.push(a).push(b).skip(1)[0] == b,
        q.push(a).push(b).skip(1).skip(1).len() == 0,
{
    let q2 = q.push(a).push(b);
    assert(q2.len() == 2);
    assert(q2[0] == a);
    assert(q2[1] == b);
    assert(q2.skip(1)[0] == q2[1]);
    assert(q2.skip(1).skip(1).len() == 0);
}

} // verus!
