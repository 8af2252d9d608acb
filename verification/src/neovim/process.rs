//! The transport's protocol state: the monotonically increasing request id,
//! the set of outstanding request ids, and the ordered queue of encoded
//! messages waiting for the writer. The process itself and the two I/O
//! workers live with the host; they feed this state plain values and drain
//! the queue in order.

use vstd::prelude::*;
use vstd::hash_set::HashSetWithView;

use crate::neovim::value::{SpecValue, TaggedValue, spec_value_of, spec_values_of, lemma_spec_values_of, lemma_wf_values};
use crate::neovim::codec::{encode, spec_encode};

verus! {

broadcast use vstd::std_specs::hash::axiom_u32_obeys_hash_table_key_model;

/// The wire form of one outgoing request: `[0, msgid, method, params]`.
pub open spec fn spec_request_msg(msgid: u32, method: Seq<char>, params: Seq<SpecValue>) -> SpecValue {
    SpecValue::Array(
        seq![
            SpecValue::Int(0),
            SpecValue::Int(msgid as int),
            SpecValue::Str(method),
            SpecValue::Array(params),
        ],
    )
}

/// The wire form of one outgoing notification: `[2, method, params]`.
pub open spec fn spec_notify_msg(method: Seq<char>, params: Seq<SpecValue>) -> SpecValue {
    SpecValue::Array(
        seq![SpecValue::Int(2), SpecValue::Str(method), SpecValue::Array(params)],
    )
}

/// The request id a received value answers: the value must be an array of at
/// least two elements whose first element is the integer 1; the id is its
/// second element, whatever integer that is.
pub open spec fn spec_response_msgid(v: SpecValue) -> Option<int> {
    match v {
        SpecValue::Array(items) => if items.len() >= 2 && items[0] == SpecValue::Int(1) {
            match items[1] {
                SpecValue::Int(id) => Some(id),
                _ => None,
            }
        } else {
            None
        },
        _ => None,
    }
}

/// What became of one received value: passed through to the dispatcher, or
/// dropped as a protocol violation (a response whose id was never issued, or
/// is no 32-bit integer).
pub enum CheckOutcome {
    Accepted(TaggedValue),
    Violation(TaggedValue),
}

/// The bridge's per-process protocol state.
pub struct NeovimProcess {
    msgid: u32,
    pending_requests: HashSetWithView<u32>,
    send_queue: Vec<Vec<u8>>,
}

impl NeovimProcess {
    /// The next request id to assign.
    pub closed spec fn msgid_spec(&self) -> u32 {
        self.msgid
    }

    /// The ids of requests sent and not yet answered.
    pub closed spec fn pending(&self) -> Set<u32> {
        self.pending_requests@
    }

    /// The encoded messages enqueued and not yet handed to the writer, in
    /// send order.
    pub closed spec fn queue(&self) -> Seq<Seq<u8>> {
        self.send_queue.deep_view()
    }

    /// Every outstanding id was assigned before the current counter.
    pub open spec fn wf(&self) -> bool {
        forall|id: u32| self.pending().contains(id) ==> id < self.msgid_spec()
    }

    /// Fresh state: ids start at zero, nothing outstanding, nothing queued.
    pub fn new() -> (r: Self)
        ensures
            r.msgid_spec() == 0,
            r.pending() == Set::<u32>::empty(),
            r.queue() == Seq::<Seq<u8>>::empty(),
            r.wf(),
    {
        let r = NeovimProcess {
            msgid: 0,
            pending_requests: HashSetWithView::new(),
            send_queue: Vec::new(),
        };
        proof {
            assert(r.queue() =~= Seq::<Seq<u8>>::empty());
        }
        r
    }

    /// How `request` changes the state: it hands out the current id, bumps
    /// the counter by one, marks the id outstanding, and appends exactly one
    /// encoded request to the back of the send queue.
    pub open spec fn request_transition(
        pre: NeovimProcess,
        post: NeovimProcess,
        method: Seq<char>,
        params: Seq<SpecValue>,
        id: u32,
    ) -> bool {
        &&& id == pre.msgid_spec()
        &&& post.msgid_spec() == pre.msgid_spec() + 1
        &&& post.pending() == pre.pending().insert(id)
        &&& post.queue() == pre.queue().push(spec_encode(spec_request_msg(id, method, params)))
    }

    /// Encodes `[0, msgid, method, params]`, queues the bytes, marks the id
    /// outstanding, and returns the id assigned.
    pub fn request(&mut self, method: &str, params: Vec<TaggedValue>) -> (r: u32)
        requires
            old(self).msgid_spec() < 0xffff_ffffu32,
            spec_request_msg(old(self).msgid_spec(), method@, spec_values_of(params@)).wf(),
        ensures
            Self::request_transition(
                *old(self),
                *final(self),
                method@,
                spec_values_of(params@),
                r,
            ),
            old(self).wf() ==> final(self).wf(),
    {
        let id = self.msgid;
        let ghost msg_spec = spec_request_msg(id, method@, spec_values_of(params@));
        let mut items: Vec<TaggedValue> = Vec::new();
        items.push(TaggedValue::Int(0));
        items.push(TaggedValue::Int(id as i64));
        items.push(TaggedValue::Str(method.to_owned()));
        items.push(TaggedValue::Array(params));
        let msg = TaggedValue::Array(items);
        proof {
            lemma_spec_values_of(items@);
            assert(spec_values_of(items@) =~= seq![
                SpecValue::Int(0),
                SpecValue::Int(id as int),
                SpecValue::Str(method@),
                SpecValue::Array(spec_values_of(params@)),
            ]);
            assert(spec_value_of(msg) == msg_spec);
        }
        let bytes = encode(&msg);
        self.send_queue.push(bytes);
        self.pending_requests.insert(id);
        self.msgid = self.msgid + 1;
        proof {
            assert(self.queue() =~~= old(self).queue().push(spec_encode(msg_spec)));
        }
        id
    }

    /// Issues one request whose parameters are host values: projects them
    /// onto the wire and hands them to `request`; the id comes back as the
    /// host's signed integer.
    pub fn var_request(&mut self, method: &str, params: &Vec<crate::neovim::msgpack::HostValue>)
        -> (r: i32)
        requires
            old(self).msgid_spec() <= 0x7fff_ffff,
            spec_request_msg(
                old(self).msgid_spec(),
                method@,
                crate::neovim::msgpack::spec_to_wire_values(
                    crate::neovim::msgpack::spec_hosts_of(params@),
                ),
            ).wf(),
        ensures
            r == old(self).msgid_spec() as i32,
            Self::request_transition(
                *old(self),
                *final(self),
                method@,
                crate::neovim::msgpack::spec_to_wire_values(
                    crate::neovim::msgpack::spec_hosts_of(params@),
                ),
                r as u32,
            ),
            old(self).wf() ==> final(self).wf(),
    {
        let wire = crate::neovim::msgpack::hosts_to_wire(params);
        let id = self.request(method, wire);
        id as i32
    }

    /// How `notify` changes the state: ids and the outstanding set stay as
    /// they are; exactly one encoded notification goes to the back of the
    /// send queue.
    pub open spec fn notify_transition(
        pre: NeovimProcess,
        post: NeovimProcess,
        method: Seq<char>,
        params: Seq<SpecValue>,
    ) -> bool {
        &&& post.msgid_spec() == pre.msgid_spec()
        &&& post.pending() == pre.pending()
        &&& post.queue() == pre.queue().push(spec_encode(spec_notify_msg(method, params)))
    }

    /// Encodes `[2, method, params]` and queues the bytes; notifications
    /// carry no id and touch nothing else.
    pub fn notify(&mut self, method: &str, params: Vec<TaggedValue>)
        requires
            spec_notify_msg(method@, spec_values_of(params@)).wf(),
        ensures
            Self::notify_transition(*old(self), *final(self), method@, spec_values_of(params@)),
            old(self).wf() ==> final(self).wf(),
    {
        let ghost msg_spec = spec_notify_msg(method@, spec_values_of(params@));
        let mut items: Vec<TaggedValue> = Vec::new();
        items.push(TaggedValue::Int(2));
        items.push(TaggedValue::Str(method.to_owned()));
        items.push(TaggedValue::Array(params));
        let msg = TaggedValue::Array(items);
        proof {
            lemma_spec_values_of(items@);
            assert(spec_values_of(items@) =~= seq![
                SpecValue::Int(2),
                SpecValue::Str(method@),
                SpecValue::Array(spec_values_of(params@)),
            ]);
            assert(spec_value_of(msg) == msg_spec);
        }
        let bytes = encode(&msg);
        self.send_queue.push(bytes);
        proof {
            assert(self.queue() =~~= old(self).queue().push(spec_encode(msg_spec)));
        }
    }

    /// How one received value changes the outstanding set: a response to an
    /// outstanding id retires that id; everything else leaves the set alone.
    pub open spec fn pending_after(pending: Set<u32>, v: SpecValue) -> Set<u32> {
        match spec_response_msgid(v) {
            Some(id) => if 0 <= id < 0x1_0000_0000 && pending.contains(id as u32) {
                pending.remove(id as u32)
            } else {
                pending
            },
            None => pending,
        }
    }

    /// True of a response whose id is outside every outstanding request:
    /// the protocol violation that `check` reports and drops.
    pub open spec fn is_violation(pending: Set<u32>, v: SpecValue) -> bool {
        match spec_response_msgid(v) {
            Some(id) => !(0 <= id < 0x1_0000_0000 && pending.contains(id as u32)),
            None => false,
        }
    }

    /// Bookkeeping for one received value: a response retires its id from
    /// the outstanding set; a response carrying an id that was never issued
    /// is reported as a violation and dropped. Counter and queue never move.
    pub fn check(&mut self, v: TaggedValue) -> (r: CheckOutcome)
        ensures
            final(self).pending() == Self::pending_after(old(self).pending(), spec_value_of(v)),
            final(self).msgid_spec() == old(self).msgid_spec(),
            final(self).queue() == old(self).queue(),
            match r {
                CheckOutcome::Accepted(w) => w == v && !Self::is_violation(
                    old(self).pending(),
                    spec_value_of(v),
                ),
                CheckOutcome::Violation(w) => w == v && Self::is_violation(
                    old(self).pending(),
                    spec_value_of(v),
                ),
            },
            old(self).wf() ==> final(self).wf(),
    {
        let id_opt: Option<u32> = match &v {
            TaggedValue::Array(items) => {
                proof {
                    lemma_spec_values_of(items@);
                }
                if items.len() >= 2 {
                    let is_response = match &items[0] {
                        TaggedValue::Int(x) => *x == 1,
                        TaggedValue::UInt(x) => *x == 1,
                        _ => false,
                    };
                    if is_response {
                        match &items[1] {
                            TaggedValue::Int(id) => {
                                if *id >= 0 && *id <= 0xffff_ffffi64 {
                                    Some(*id as u32)
                                } else {
                                    return CheckOutcome::Violation(v);
                                }
                            },
                            TaggedValue::UInt(id) => {
                                if *id <= 0xffff_ffffu64 {
                                    Some(*id as u32)
                                } else {
                                    return CheckOutcome::Violation(v);
                                }
                            },
                            _ => None,
                        }
                    } else {
                        None
                    }
                } else {
                    None
                }
            },
            _ => None,
        };
        match id_opt {
            Some(id32) => {
                proof {
                    assert(spec_response_msgid(spec_value_of(v)) == Some(id32 as int));
                }
                if self.pending_requests.remove(&id32) {
                    CheckOutcome::Accepted(v)
                } else {
                    proof {
                        assert(old(self).pending().remove(id32) =~= old(self).pending());
                    }
                    CheckOutcome::Violation(v)
                }
            },
            None => {
                proof {
                    assert(spec_response_msgid(spec_value_of(v)) is None);
                }
                CheckOutcome::Accepted(v)
            },
        }
    }

    /// Takes the oldest queued message, if any: the writer sends these in
    /// exactly this order.
    pub fn pop_outgoing(&mut self) -> (r: Option<Vec<u8>>)
        ensures
            final(self).msgid_spec() == old(self).msgid_spec(),
            final(self).pending() == old(self).pending(),
            match r {
                Some(bytes) => old(self).queue().len() > 0 && bytes.deep_view() == old(
                    self,
                ).queue()[0] && final(self).queue() == old(self).queue().drop_first(),
                None => old(self).queue().len() == 0 && final(self).queue() == old(self).queue(),
            },
    {
        if self.send_queue.len() == 0 {
            None
        } else {
            let bytes = self.send_queue.remove(0);
            proof {
                assert(self.queue() =~~= old(self).queue().drop_first());
                assert(bytes.deep_view() =~~= old(self).queue()[0]);
            }
            Some(bytes)
        }
    }

    /// The next id `request` would assign.
    pub fn next_msgid(&self) -> (r: u32)
        ensures
            r == self.msgid_spec(),
    {
        self.msgid
    }

    /// Whether a request id is still waiting for its response.
    pub fn is_pending(&self, id: u32) -> (r: bool)
        ensures
            r == self.pending().contains(id),
    {
        self.pending_requests.contains(&id)
    }

    /// How many requests are still waiting for their response.
    pub fn pending_len(&self) -> (r: usize)
        ensures
            r == self.pending().len(),
    {
        self.pending_requests.len()
    }

    /// How many messages wait in the send queue.
    pub fn queue_len(&self) -> (r: usize)
        ensures
            r == self.queue().len(),
    {
        self.send_queue.len()
    }
}

/// Sequential calls to `request` hand out strictly increasing ids: the
/// second call's id exceeds the first's by exactly one, and a fresh state
/// starts at zero.
pub proof fn lemma_msgid_monotonic(
    s0: NeovimProcess,
    s1: NeovimProcess,
    s2: NeovimProcess,
    m1: Seq<char>,
    p1: Seq<SpecValue>,
    id1: u32,
    m2: Seq<char>,
    p2: Seq<SpecValue>,
    id2: u32,
)
    requires
        NeovimProcess::request_transition(s0, s1, m1, p1, id1),
        NeovimProcess::request_transition(s1, s2, m2, p2, id2),
    ensures
        id2 == id1 + 1,
{
}

/// Order preservation on the send side: after two `request` calls, the bytes
/// of the first stand in the queue directly before the bytes of the second,
/// after everything queued earlier.
pub proof fn lemma_send_order(
    s0: NeovimProcess,
    s1: NeovimProcess,
    s2: NeovimProcess,
    m1: Seq<char>,
    p1: Seq<SpecValue>,
    id1: u32,
    m2: Seq<char>,
    p2: Seq<SpecValue>,
    id2: u32,
)
    requires
        NeovimProcess::request_transition(s0, s1, m1, p1, id1),
        NeovimProcess::request_transition(s1, s2, m2, p2, id2),
    ensures
        s2.queue().len() == s0.queue().len() + 2,
        s2.queue()[s0.queue().len() as int] == spec_encode(spec_request_msg(id1, m1, p1)),
        s2.queue()[s0.queue().len() as int + 1] == spec_encode(spec_request_msg(id2, m2, p2)),
        forall|i: int| 0 <= i < s0.queue().len() ==> s2.queue()[i] == s0.queue()[i],
{
}

} // verus!
