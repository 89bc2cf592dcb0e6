//! System-V style message queues: typed messages, page-chained payloads,
//! blocking send and receive, and queue teardown that wakes every waiter.
//!
//! Waiting is modelled explicitly: an operation that would sleep reports
//! `Blocked` after queueing its record, and whatever later wakes the
//! process appends its outcome to the wakeup list, so a caller collects it
//! exactly once.

use vstd::prelude::*;

verus! {

use crate::PAGE_SIZE;

/// Queues per identifier table.
pub const SEQ_MULTIPLIER: i32 = 16;

/// Most messages a queue holds at once.
pub const MAX_MSGNUM: i32 = 256;

/// Remove a queue.
pub const IPC_RMID: i32 = 0;

/// Key that always makes a fresh queue.
pub const IPC_PRIVATE: i32 = 0;

/// Create the queue if the key is new.
pub const IPC_CREATE: i32 = 2;

/// Fail if the key already exists.
pub const IPC_EXCL: i32 = 1;

/// Never sleep; fail instead.
pub const IPC_NOWAIT: i32 = 1;

/// Out of pages.
pub const ENOMEM: i32 = -1;

/// No identifier slot left.
pub const ENOSEQ: i32 = -2;

/// No queue with that key.
pub const ENOENT: i32 = -3;

/// The key already exists.
pub const EEXIST: i32 = -4;

/// Bad argument, such as a message type below 1.
pub const EINVAL: i32 = -5;

/// The queue is full or empty and sleeping was refused.
pub const EAGAIN: i32 = -6;

/// The queue was removed while waiting.
pub const EIDRM: i32 = -7;

/// The buffer is smaller than the message.
pub const E2BIG: i32 = -8;

/// No matching message and sleeping was refused.
pub const ENOMSG: i32 = -9;

/// Payload bytes in the first page of a message, after its header.
pub const MSG_SIZE: usize = 4056;

/// Payload bytes in each chained page, after its segment header.
pub const MSG_SEG_SIZE: usize = 4088;

/// A message: its type and its payload, the payload held as the chain of
/// page segments that carries it.
pub struct Message {
    /// Sender-chosen type, at least 1.
    pub mtype: i32,
    /// Payload length in bytes.
    pub size: usize,
    /// The payload, split over the first page and the chained segments.
    pub segs: Vec<Vec<u8>>,
}

/// All the payload bytes of a chain of segments, in order.
pub open spec fn flat(segs: Seq<Seq<u8>>) -> Seq<u8>
    decreases segs.len(),
{
    if segs.len() == 0 {
        Seq::empty()
    } else {
        segs[0] + flat(segs.drop_first())
    }
}

/// A segment chain as `load_msg` builds it: the first segment holds up to
/// [`MSG_SIZE`] bytes, later ones up to [`MSG_SEG_SIZE`], every segment
/// before the last one full.
pub open spec fn well_segmented(segs: Seq<Seq<u8>>) -> bool {
    &&& segs.len() >= 1
    &&& segs[0].len() <= MSG_SIZE
    &&& forall|i: int| 1 <= i < segs.len() ==> (#[trigger] segs[i]).len() <= MSG_SEG_SIZE
    &&& segs.len() > 1 ==> segs[0].len() == MSG_SIZE
    &&& forall|i: int| 1 <= i < segs.len() - 1 ==> (#[trigger] segs[i]).len() == MSG_SEG_SIZE
    &&& segs.len() > 1 ==> segs.last().len() >= 1
}

impl Message {
    /// A message whose segments carry exactly its payload.
    pub open spec fn wf(self) -> bool {
        &&& well_segmented(self.segs@.map_values(|s: Vec<u8>| s@))
        &&& flat(self.segs@.map_values(|s: Vec<u8>| s@)).len() == self.size
        &&& self.mtype >= 1
    }

    /// The payload as one byte sequence.
    pub open spec fn bytes(self) -> Seq<u8> {
        flat(self.segs@.map_values(|s: Vec<u8>| s@))
    }
}

proof fn lemma_flat_push(segs: Seq<Seq<u8>>, s: Seq<u8>)
    ensures
        flat(segs.push(s)) == flat(segs) + s,
    decreases segs.len(),
{
    if segs.len() == 0 {
        assert(segs.push(s).drop_first() =~= Seq::<Seq<u8>>::empty());
        assert(flat(segs.push(s)) == s + flat(Seq::<Seq<u8>>::empty()));
        assert(s + Seq::<u8>::empty() =~= s);
        assert(flat(segs) + s =~= s);
    } else {
        lemma_flat_push(segs.drop_first(), s);
        assert(segs.push(s).drop_first() =~= segs.drop_first().push(s));
        assert(segs.push(s)[0] == segs[0]);
        assert(segs[0] + (flat(segs.drop_first()) + s) =~= (segs[0] + flat(segs.drop_first()))
            + s);
    }
}

/// Splits a payload into its page segments: a first page, then a chain of
/// follow-up pages, each filled before the next begins.
pub fn load_msg(src: &[u8]) -> (m: Vec<Vec<u8>>)
    ensures
        flat(m@.map_values(|s: Vec<u8>| s@)) == src@,
        well_segmented(m@.map_values(|s: Vec<u8>| s@)),
{
    let mut segs: Vec<Vec<u8>> = Vec::new();
    let total = src.len();
    let first_len = if total < MSG_SIZE {
        total
    } else {
        MSG_SIZE
    };
    let mut seg: Vec<u8> = Vec::new();
    let mut i: usize = 0;
    while i < first_len
        invariant
            i <= first_len <= src@.len(),
            seg@ == src@.subrange(0, i as int),
        decreases first_len - i,
    {
        seg.push(src[i]);
        i += 1;
    }
    segs.push(seg);
    proof {
        assert(segs@.map_values(|s: Vec<u8>| s@) =~= Seq::empty().push(
            src@.subrange(0, first_len as int),
        ));
        lemma_flat_push(Seq::empty(), src@.subrange(0, first_len as int));
        assert(flat(Seq::<Seq<u8>>::empty()) + src@.subrange(0, first_len as int)
            =~= src@.subrange(0, first_len as int));
    }
    let mut done: usize = first_len;
    while done < total
        invariant
            first_len <= done <= total,
            total == src@.len(),
            first_len == if total < MSG_SIZE {
                total as int
            } else {
                MSG_SIZE as int
            },
            flat(segs@.map_values(|s: Vec<u8>| s@)) == src@.subrange(0, done as int),
            segs@.len() >= 1,
            segs@.map_values(|s: Vec<u8>| s@)[0].len() == first_len,
            forall|k: int|
                1 <= k < segs@.len() - 1 ==> (#[trigger] segs@[k])@.len() == MSG_SEG_SIZE,
            segs@.len() > 1 ==> 1 <= segs@.last()@.len() <= MSG_SEG_SIZE,
            done < total ==> (segs@.len() == 1 || segs@.last()@.len() == MSG_SEG_SIZE),
            segs@.len() > 1 ==> first_len == MSG_SIZE as int,
        decreases total - done,
    {
        let remaining = total - done;
        let seg_len = if remaining < MSG_SEG_SIZE {
            remaining
        } else {
            MSG_SEG_SIZE
        };
        let mut seg: Vec<u8> = Vec::new();
        let end = done + seg_len;
        let mut idx: usize = done;
        while idx < end
            invariant
                done <= idx <= end,
                end <= src@.len(),
                seg@ == src@.subrange(done as int, idx as int),
            decreases end - idx,
        {
            seg.push(src[idx]);
            idx += 1;
        }
        let ghost before = segs@.map_values(|s: Vec<u8>| s@);
        segs.push(seg);
        proof {
            assert(segs@.map_values(|s: Vec<u8>| s@) =~= before.push(
                src@.subrange(done as int, done as int + seg_len as int),
            ));
            lemma_flat_push(before, src@.subrange(done as int, done as int + seg_len as int));
            assert(src@.subrange(0, done as int) + src@.subrange(
                done as int,
                done as int + seg_len as int,
            ) =~= src@.subrange(0, done as int + seg_len as int));
        }
        done = done + seg_len;
        proof {
            if done < total {
                assert(seg_len == MSG_SEG_SIZE);
            }
        }
    }
    proof {
        assert(src@.subrange(0, total as int) =~= src@);
    }
    segs
}

/// Copies the first `want` payload bytes of a segment chain back into one
/// buffer, walking the chain segment by segment.
pub fn store_msg(m: &Vec<Vec<u8>>, want: usize) -> (out: Vec<u8>)
    requires
        want <= flat(m@.map_values(|s: Vec<u8>| s@)).len(),
    ensures
        out@ == flat(m@.map_values(|s: Vec<u8>| s@)).subrange(0, want as int),
{
    let ghost whole = flat(m@.map_values(|s: Vec<u8>| s@));
    let mut out: Vec<u8> = Vec::new();
    let mut si: usize = 0;
    proof {
        lemma_flat_prefix(m@.map_values(|s: Vec<u8>| s@), 0);
    }
    while si < m.len() && out.len() < want
        invariant
            si <= m@.len(),
            want <= whole.len(),
            whole == flat(m@.map_values(|s: Vec<u8>| s@)),
            out@.len() <= want,
            out@ == flat(m@.map_values(|s: Vec<u8>| s@).take(si as int)).take(out@.len() as int),
            out@.len() == vstd::math::min(
                flat(m@.map_values(|s: Vec<u8>| s@).take(si as int)).len() as int,
                want as int,
            ),
        decreases m@.len() - si,
    {
        let seg = &m[si];
        let mut k: usize = 0;
        let ghost out0 = out@;
        while k < seg.len() && out.len() < want
            invariant
                k <= seg@.len(),
                out@.len() <= want,
                out@ == out0 + seg@.subrange(0, k as int),
                out@.len() == out0.len() + k,
            decreases seg@.len() - k,
        {
            out.push(seg[k]);
            k += 1;
        }
        proof {
            let view = m@.map_values(|s: Vec<u8>| s@);
            lemma_flat_take(view, si as int);
            assert(view.take(si as int + 1).drop_last() =~= view.take(si as int));
            assert(view.take(si as int + 1).last() == view[si as int]);
        }
        si += 1;
    }
    proof {
        let view = m@.map_values(|s: Vec<u8>| s@);
        if si == m@.len() {
            assert(view.take(si as int) =~= view);
        } else {
            lemma_flat_take_le(view, si as int);
        }
        assert(out@ =~= whole.subrange(0, want as int));
    }
    out
}

/// The flattening of a prefix of the chain is a prefix of the whole
/// flattening.
proof fn lemma_flat_take(segs: Seq<Seq<u8>>, i: int)
    requires
        0 <= i < segs.len(),
    ensures
        flat(segs.take(i + 1)) == flat(segs.take(i)) + segs[i],
{
    assert(segs.take(i + 1) =~= segs.take(i).push(segs[i]));
    lemma_flat_push(segs.take(i), segs[i]);
}

proof fn lemma_flat_prefix(segs: Seq<Seq<u8>>, i: int)
    requires
        0 <= i <= segs.len(),
    ensures
        flat(segs.take(i)).len() <= flat(segs).len(),
        flat(segs.take(i)) == flat(segs).subrange(0, flat(segs.take(i)).len() as int),
    decreases segs.len() - i,
{
    if i == segs.len() {
        assert(segs.take(i) =~= segs);
        assert(flat(segs).subrange(0, flat(segs).len() as int) =~= flat(segs));
    } else {
        lemma_flat_take(segs, i);
        lemma_flat_prefix(segs, i + 1);
        assert(flat(segs.take(i)) =~= (flat(segs.take(i)) + segs[i]).subrange(
            0,
            flat(segs.take(i)).len() as int,
        ));
    }
}

/// A strict prefix of the chain flattens to at most the whole length.
proof fn lemma_flat_take_le(segs: Seq<Seq<u8>>, i: int)
    requires
        0 <= i <= segs.len(),
    ensures
        flat(segs.take(i)).len() <= flat(segs).len(),
        flat(segs.take(i)) == flat(segs).subrange(0, flat(segs.take(i)).len() as int),
{
    lemma_flat_prefix(segs, i);
}

/// Loading a payload and storing all of it back returns the same bytes:
/// the two copies mirror each other.
pub proof fn lemma_msg_round_trip(src: Seq<u8>, segs: Seq<Seq<u8>>)
    requires
        flat(segs) == src,
    ensures
        flat(segs).subrange(0, src.len() as int) == src,
{
    assert(flat(segs).subrange(0, src.len() as int) =~= src);
}

} // verus!
verus! {

use vstd::seq_lib::*;

/// What a caller hands to send and gets back from receive: a typed byte
/// buffer.
pub struct MessageBuffer {
    /// Message type; senders must use 1 or more.
    pub mtype: i32,
    /// Payload bytes.
    pub data: Vec<u8>,
}

/// A sender asleep on a full queue, with the message it still has to
/// deliver.
pub struct MessageSender {
    /// The sleeping process.
    pub pid: usize,
    /// The message it will enqueue once there is room.
    pub msg: Message,
}

/// A receiver asleep on a queue with no matching message.
#[derive(Clone, Copy)]
pub struct MessageReceiver {
    /// The sleeping process.
    pub pid: usize,
    /// The type selector it asked for.
    pub mtype: i32,
    /// Its buffer's capacity in bytes.
    pub size: usize,
}

/// The outcome a woken receiver finds: a delivered message, or nothing,
/// which it reads as its buffer having been too small or the queue gone.
pub struct WokenReceiver {
    /// The woken process.
    pub pid: usize,
    /// The delivered message, if one fit its buffer.
    pub r_msg: Option<Message>,
}

/// The outcome a woken sender finds: 0 when its message was enqueued, or
/// an error code.
pub struct WokenSender {
    /// The woken process.
    pub pid: usize,
    /// 0, or the error the send ends with.
    pub result: i32,
}

/// One message queue.
pub struct MessageQueue {
    /// Creation key.
    pub key: i32,
    /// Sequence stamp baked into the queue's public identifier.
    pub seq: i32,
    /// Most messages the queue may hold.
    pub max_msg: i32,
    /// Messages it holds now.
    pub sum_msg: i32,
    /// The held messages, oldest first.
    pub q_message: Vec<Message>,
    /// Senders asleep on the full queue, oldest first.
    pub q_sender: Vec<MessageSender>,
    /// Receivers asleep on the queue, oldest first.
    pub q_receiver: Vec<MessageReceiver>,
}

impl MessageQueue {
    /// The message counter matches the list, within capacity, and every
    /// held or pending message is sound.
    pub open spec fn wf(self) -> bool {
        &&& self.sum_msg == self.q_message@.len()
        &&& self.max_msg == MAX_MSGNUM
        &&& self.sum_msg <= self.max_msg
        &&& 0 <= self.seq < 0x100
        &&& forall|i: int| 0 <= i < self.q_message@.len() ==> (#[trigger] self.q_message@[i]).wf()
        &&& forall|i: int|
            0 <= i < self.q_sender@.len() ==> (#[trigger] self.q_sender@[i]).msg.wf()
    }
}

/// The queue table and the wakeup lists.
pub struct IPCIds {
    /// Number of live queues.
    pub in_use: i32,
    /// Next sequence stamp.
    pub seq: i32,
    /// One slot per possible queue.
    pub entries: Vec<Option<MessageQueue>>,
    /// Receivers woken since the caller last collected them.
    pub woken_receivers: Vec<WokenReceiver>,
    /// Senders woken since the caller last collected them.
    pub woken_senders: Vec<WokenSender>,
}

/// Builds a queue's public identifier from its slot and sequence stamp.
pub fn ipc_buildin(id: i32, seq: i32) -> (r: i32)
    requires
        0 <= id < SEQ_MULTIPLIER,
        0 <= seq < 0x100,
    ensures
        r == seq * SEQ_MULTIPLIER + id,
{
    seq * SEQ_MULTIPLIER + id
}

/// Whether a receiver asking for `receive_type` takes a message of type
/// `msg_type`: 0 takes anything, a positive selector its own type, a
/// negative one any type at most its magnitude.
pub open spec fn spec_test_msg(receive_type: int, msg_type: int) -> bool {
    if receive_type == 0 {
        true
    } else if receive_type > 0 {
        receive_type == msg_type
    } else {
        receive_type <= -msg_type
    }
}

/// Decides whether a receiver's type selector takes a message type.
pub fn test_msg(receive_type: i32, msg_type: i32) -> (r: bool)
    requires
        msg_type > i32::MIN,
    ensures
        r == spec_test_msg(receive_type as int, msg_type as int),
{
    if receive_type == 0 {
        true
    } else if receive_type > 0 {
        receive_type == msg_type
    } else {
        receive_type <= -msg_type
    }
}

impl IPCIds {
    /// Table of `SEQ_MULTIPLIER` empty slots.
    pub fn new() -> (r: Self)
        ensures
            r.wf(),
            forall|i: int| 0 <= i < SEQ_MULTIPLIER ==> r.entries@[i] is None,
            r.woken_receivers@.len() == 0,
            r.woken_senders@.len() == 0,
    {
        let mut entries: Vec<Option<MessageQueue>> = Vec::new();
        let mut i: usize = 0;
        while i < 16
            invariant
                i <= 16,
                entries@.len() == i,
                forall|k: int| 0 <= k < i ==> entries@[k] is None,
            decreases 16 - i,
        {
            entries.push(None);
            i += 1;
        }
        IPCIds { in_use: 0, seq: 0, entries, woken_receivers: Vec::new(), woken_senders: Vec::new() }
    }

    /// Table shape and every live queue well formed.
    pub open spec fn wf(self) -> bool {
        &&& self.entries@.len() == SEQ_MULTIPLIER
        &&& 0 <= self.seq < 0x100
        &&& forall|i: int|
            0 <= i < self.entries@.len() ==> match #[trigger] self.entries@[i] {
                Some(q) => q.wf(),
                None => true,
            }
    }

    /// The slot a valid identifier names, if its stamp still matches.
    pub open spec fn spec_lookup(self, msg_id: int) -> Option<int> {
        if msg_id < 0 {
            None
        } else {
            let slot = msg_id % (SEQ_MULTIPLIER as int);
            match self.entries@[slot] {
                Some(q) => if q.seq == msg_id / (SEQ_MULTIPLIER as int) {
                    Some(slot)
                } else {
                    None
                },
                None => None,
            }
        }
    }

    /// Finds the queue an identifier names.
    fn get_msg_queue(&self, msg_id: i32) -> (r: Option<usize>)
        requires
            self.wf(),
        ensures
            match r {
                Some(slot) => self.spec_lookup(msg_id as int) == Some(slot as int),
                None => self.spec_lookup(msg_id as int) is None,
            },
    {
        if msg_id < 0 {
            return None;
        }
        let slot = (msg_id % SEQ_MULTIPLIER) as usize;
        match &self.entries[slot] {
            Some(q) => {
                if q.seq == msg_id / SEQ_MULTIPLIER {
                    Some(slot)
                } else {
                    None
                }
            },
            None => None,
        }
    }

    /// The slot holding a live queue with this key, if any.
    pub open spec fn spec_findkey(self, key: int) -> Option<int> {
        if exists|i: int|
            0 <= i < self.entries@.len() && ((#[trigger] self.entries@[i]) matches Some(q)
                && q.key == key) {
            Some(
                choose|i: int|
                    0 <= i < self.entries@.len() && ((#[trigger] self.entries@[i]) matches Some(q)
                        && q.key == key),
            )
        } else {
            None
        }
    }

    /// Looks a key up in the table.
    fn ipc_findkey(&self, key: i32) -> (r: Option<usize>)
        requires
            self.wf(),
        ensures
            match r {
                Some(i) => i < self.entries@.len() && (self.entries@[i as int] matches Some(q)
                    && q.key == key),
                None => forall|i: int|
                    0 <= i < self.entries@.len() ==> !((#[trigger] self.entries@[i]) matches
                    Some(q) && q.key == key),
            },
    {
        let mut i: usize = 0;
        while i < self.entries.len()
            invariant
                i <= self.entries@.len(),
                forall|k: int|
                    0 <= k < i ==> !((#[trigger] self.entries@[k]) matches Some(q) && q.key
                        == key),
            decreases self.entries@.len() - i,
        {
            match &self.entries[i] {
                Some(q) => {
                    if q.key == key {
                        return Some(i);
                    }
                },
                None => {},
            }
            i += 1;
        }
        None
    }

    /// Puts a fresh queue into the first empty slot and stamps it with the
    /// next sequence number. Fails with `ENOSEQ` when the table is full.
    pub fn new_queue(&mut self, key: i32) -> (r: Result<i32, i32>)
        requires
            old(self).wf(),
        ensures
            final(self).wf(),
            final(self).woken_receivers@ == old(self).woken_receivers@,
            final(self).woken_senders@ == old(self).woken_senders@,
            queue_created(*old(self), *final(self), key as int, r),
    {
        let mut slot: usize = 0;
        let mut found = false;
        while slot < self.entries.len() && !found
            invariant
                self == old(self),
                self.wf(),
                slot <= self.entries@.len(),
                forall|k: int| 0 <= k < slot ==> !((#[trigger] self.entries@[k]) is None),
                found ==> slot < self.entries@.len() && self.entries@[slot as int] is None,
            decreases self.entries@.len() - slot, if found { 0int } else { 1int },
        {
            if self.entries[slot].is_none() {
                found = true;
            } else {
                slot += 1;
            }
        }
        if !found {
            return Err(ENOSEQ);
        }
        let seq = self.seq;
        self.seq = (self.seq + 1) % 0x100;
        self.in_use = if self.in_use < SEQ_MULTIPLIER {
            self.in_use + 1
        } else {
            self.in_use
        };
        let q = MessageQueue {
            key,
            seq,
            max_msg: MAX_MSGNUM,
            sum_msg: 0,
            q_message: Vec::new(),
            q_sender: Vec::new(),
            q_receiver: Vec::new(),
        };
        let id = ipc_buildin(slot as i32, seq);
        self.entries.set(slot, Some(q));
        proof {
            let s = slot as int;
            assert(final(self).entries@[s] matches Some(q2) ==> q2.seq == seq);
            assert(final(self).entries@[s] is Some);
            assert(id as int % (SEQ_MULTIPLIER as int) == s && id as int / (SEQ_MULTIPLIER as int)
                == seq) by {
                vstd::arithmetic::div_mod::lemma_fundamental_div_mod(id as int, 16);
            }
        }
        Ok(id)
    }

    /// Returns the identifier of the queue with `key`, creating it as the
    /// flags ask: a fresh private queue for `IPC_PRIVATE`, `EEXIST` when
    /// `IPC_EXCL` finds the key taken, `ENOENT` when the key is new and
    /// `IPC_CREATE` is absent.
    pub fn sys_msgget(&mut self, key: i32, msgflg: i32) -> (r: Result<i32, i32>)
        requires
            old(self).wf(),
        ensures
            final(self).wf(),
            key == IPC_PRIVATE ==> queue_created(*old(self), *final(self), key as int, r),
            key != IPC_PRIVATE && old(self).spec_findkey(key as int) is Some && msgflg
                & IPC_EXCL != 0 ==> r == Result::<i32, i32>::Err(EEXIST) && ipc_unchanged(
                *old(self),
                *final(self),
            ),
            key != IPC_PRIVATE && old(self).spec_findkey(key as int) is Some && msgflg
                & IPC_EXCL == 0 ==> (r matches Ok(id) && *final(self) == *old(self)
                && (final(self).spec_lookup(id as int) matches Some(slot)
                    && (final(self).entries@[slot] matches Some(q) && q.key == key))),
            key != IPC_PRIVATE && old(self).spec_findkey(key as int) is None && msgflg
                & IPC_CREATE != 0 ==> queue_created(*old(self), *final(self), key as int, r),
            key != IPC_PRIVATE && old(self).spec_findkey(key as int) is None && msgflg
                & IPC_CREATE == 0 ==> r == Result::<i32, i32>::Err(ENOENT) && *final(self) == *old(self),
    {
        if key == IPC_PRIVATE {
            return self.new_queue(key);
        }
        let found = self.ipc_findkey(key);
        match found {
            Some(i) => {
                if msgflg & IPC_EXCL != 0 {
                    Err(EEXIST)
                } else {
                    let seq = match &self.entries[i] {
                        Some(q) => q.seq,
                        None => 0,
                    };
                    let id = ipc_buildin(i as i32, seq);
                    proof {
                        vstd::arithmetic::div_mod::lemma_fundamental_div_mod(id as int, 16);
                    }
                    Ok(id)
                }
            },
            None => {
                if msgflg & IPC_CREATE != 0 {
                    self.new_queue(key)
                } else {
                    Err(ENOENT)
                }
            },
        }
    }
}

} // verus!
verus! {

/// What making a queue means: some empty slot now holds a fresh, empty
/// queue for the key, its identifier resolving back to that slot — or the
/// table was full, nothing changed, and the caller got `ENOSEQ`.
pub open spec fn queue_created(pre: IPCIds, post: IPCIds, key: int, r: Result<i32, i32>) -> bool {
    match r {
        Ok(id) => exists|i: int|
            0 <= i < SEQ_MULTIPLIER && pre.entries@[i] is None && ((#[trigger] post.entries@[
                i]) matches Some(q) && q.key == key && q.sum_msg == 0 && q.max_msg == MAX_MSGNUM
                && q.q_message@.len() == 0 && q.q_sender@.len() == 0 && q.q_receiver@.len() == 0
                && id == q.seq * SEQ_MULTIPLIER + i && post.spec_lookup(id as int) == Some(i)),
        Err(e) => {
            &&& e == ENOSEQ
            &&& forall|i: int|
                0 <= i < SEQ_MULTIPLIER ==> !((#[trigger] pre.entries@[i]) is None)
            &&& ipc_unchanged(pre, post)
        },
    }
}

/// What a send ends as: delivered or queued, waiting for room, or failed.
pub enum SendOutcome {
    /// The message was handed to a receiver or placed in the queue.
    Sent,
    /// The queue was full; the sender sleeps with its message pending.
    Blocked,
    /// The send failed with this error code.
    Failed(i32),
}

/// What a receive ends as: a message, a wait, or an error.
pub enum RecvOutcome {
    /// A message arrived; the buffer holds its type and truncated payload.
    Received(MessageBuffer),
    /// Nothing matched; the receiver sleeps.
    Blocked,
    /// The receive failed with this error code.
    Failed(i32),
}

/// Whether two table states hold the same queues and wakeup lists.
pub open spec fn ipc_unchanged(a: IPCIds, b: IPCIds) -> bool {
    &&& a.entries@ == b.entries@
    &&& a.woken_receivers@ == b.woken_receivers@
    &&& a.woken_senders@ == b.woken_senders@
    &&& a.seq == b.seq
    &&& a.in_use == b.in_use
}

/// Keep a receiver that does not take messages of type `mt`.
pub open spec fn keeps(mt: int) -> spec_fn(MessageReceiver) -> bool {
    |r: MessageReceiver| !spec_test_msg(r.mtype as int, mt)
}

/// Drop a receiver that takes messages of type `mt`.
pub open spec fn takes(mt: int) -> spec_fn(MessageReceiver) -> bool {
    |r: MessageReceiver| spec_test_msg(r.mtype as int, mt)
}

/// The wakeups for receivers sent away empty-handed.
pub open spec fn wake_null(rs: Seq<MessageReceiver>) -> Seq<WokenReceiver> {
    rs.map_values(|r: MessageReceiver| WokenReceiver { pid: r.pid, r_msg: None })
}

proof fn lemma_filter_take_step<A>(s: Seq<A>, i: int, pred: spec_fn(A) -> bool)
    requires
        0 <= i < s.len(),
    ensures
        s.take(i + 1).filter(pred) == if pred(s[i]) {
            s.take(i).filter(pred).push(s[i])
        } else {
            s.take(i).filter(pred)
        },
{
    reveal(Seq::filter);
    assert(s.take(i + 1).drop_last() =~= s.take(i));
    assert(s.take(i + 1).last() == s[i]);
}

/// A mutable view of one slot of the queue table.
fn slot_mut(entries: &mut Vec<Option<MessageQueue>>, i: usize) -> (r: &mut Option<MessageQueue>)
    requires
        i < old(entries)@.len(),
    ensures
        *r == old(entries)@[i as int],
        final(entries)@ == old(entries)@.update(i as int, *final(r)),
{
    &mut entries[i]
}

impl IPCIds {
    /// Sends a message: refused for a type below 1, gone queues, and full
    /// queues without patience; otherwise handed to the first waiting
    /// receiver it fits, waking every passed-over receiver it would fit by
    /// type but not by size, or appended to the queue.
    #[verifier::rlimit(100)]
    pub fn sys_msgsend(
        &mut self,
        msg_id: i32,
        msgp: &MessageBuffer,
        msg_size: usize,
        msgflg: i32,
        pid: usize,
    ) -> (r: SendOutcome)
        requires
            old(self).wf(),
            msg_size <= msgp.data@.len(),
        ensures
            final(self).wf(),
            msgp.mtype < 1 ==> r == SendOutcome::Failed(EINVAL) && ipc_unchanged(
                *old(self),
                *final(self),
            ),
            msgp.mtype >= 1 && old(self).spec_lookup(msg_id as int) is None ==> r
                == SendOutcome::Failed(EIDRM) && ipc_unchanged(*old(self), *final(self)),
            msgp.mtype >= 1 && (old(self).spec_lookup(msg_id as int) matches Some(slot)
                && (old(self).entries@[slot] matches Some(q0)
                && q0.sum_msg >= q0.max_msg)) ==> (if msgflg & IPC_NOWAIT != 0 {
                r == SendOutcome::Failed(EAGAIN) && ipc_unchanged(*old(self), *final(self))
            } else {
                r == SendOutcome::Blocked && (final(self).entries@[
                    old(self).spec_lookup(msg_id as int).unwrap()] matches Some(q1)
                    && q1.q_sender@.len() == old(self).entries@[
                    old(self).spec_lookup(msg_id as int).unwrap()].unwrap().q_sender@.len() + 1
                    && q1.q_sender@.last().pid == pid
                    && q1.q_sender@.last().msg.mtype == msgp.mtype
                    && q1.q_sender@.last().msg.bytes() == msgp.data@.subrange(
                        0, msg_size as int)
                    && q1.q_message@ == old(self).entries@[
                    old(self).spec_lookup(msg_id as int).unwrap()].unwrap().q_message@
                    && q1.key == old(self).entries@[
                    old(self).spec_lookup(msg_id as int).unwrap()].unwrap().key
                    && q1.seq == old(self).entries@[
                    old(self).spec_lookup(msg_id as int).unwrap()].unwrap().seq
                    && q1.max_msg == old(self).entries@[
                    old(self).spec_lookup(msg_id as int).unwrap()].unwrap().max_msg
                    && q1.q_receiver@ == old(self).entries@[
                    old(self).spec_lookup(msg_id as int).unwrap()].unwrap().q_receiver@)
            }),
            msgp.mtype >= 1 && (old(self).spec_lookup(msg_id as int) matches Some(slot)
                && (old(self).entries@[slot] matches Some(q0)
                && q0.sum_msg < q0.max_msg)) ==> r == SendOutcome::Sent && sent_effect(
                *old(self),
                *final(self),
                old(self).spec_lookup(msg_id as int).unwrap(),
                msgp.mtype as int,
                msgp.data@.subrange(0, msg_size as int),
                pid,
            ),
    {
        if msgp.mtype < 1 {
            return SendOutcome::Failed(EINVAL);
        }
        let slot = match self.get_msg_queue(msg_id) {
            Some(s) => s,
            None => {
                return SendOutcome::Failed(EIDRM);
            },
        };
        let segs = load_msg(vstd::slice::slice_subrange(msgp.data.as_slice(), 0, msg_size));
        let msg = Message { mtype: msgp.mtype, size: msg_size, segs };
        let mut q_opt: Option<MessageQueue> = None;
        core::mem::swap(slot_mut(&mut self.entries, slot), &mut q_opt);
        let mut q = match q_opt {
            Some(q) => q,
            None => {
                proof {
                    assert(false);
                }
                return SendOutcome::Failed(EIDRM);
            },
        };
        if q.sum_msg >= q.max_msg {
            if msgflg & IPC_NOWAIT != 0 {
                let mut back = Some(q);
                core::mem::swap(slot_mut(&mut self.entries, slot), &mut back);
                proof {
                    assert(self.entries@ =~= old(self).entries@);
                }
                return SendOutcome::Failed(EAGAIN);
            }
            q.q_sender.push(MessageSender { pid, msg });
            let mut back = Some(q);
            core::mem::swap(slot_mut(&mut self.entries, slot), &mut back);
            return SendOutcome::Blocked;
        }
        let ghost q_pre = q;
        let ghost msgsz = msg.size as int;
        let ghost w_pre = self.woken_receivers@;
        let delivered = pipeline_send(&mut q.q_receiver, &mut self.woken_receivers, msg, pid);
        let ghost got_back = delivered is Some;
        match delivered {
            None => {},
            Some(m) => {
                q.q_message.push(m);
                q.sum_msg = q.sum_msg + 1;
            },
        }
        let ghost qfin = q;
        let mut back = Some(q);
        core::mem::swap(slot_mut(&mut self.entries, slot), &mut back);
        proof {
            let slot_i = slot as int;
            let q0 = old(self).entries@[slot_i].unwrap();
            let rs0 = q0.q_receiver@;
            let mt = msgp.mtype as int;
            let payload = msgp.data@.subrange(0, msg_size as int);
            assert(self.entries@[slot_i] == Some(qfin));
            assert(q0 == q_pre);
            assert(payload.len() == msgsz);
            if got_back {
                assert forall|ri: int| !matching_fit(rs0, ri, mt, payload.len() as int) by {
                    assert(!matching_fit(rs0, ri, mt, msgsz));
                }
                assert(qfin.q_message@.len() == q0.q_message@.len() + 1);
                assert(qfin.q_receiver@ == rs0.filter(keeps(mt)));
            } else {
                let ri_p = choose|ri: int| matching_fit_first(rs0, ri, mt, msgsz);
                assert(matching_fit_first(rs0, ri_p, mt, msgsz));
                assert(matching_fit(rs0, ri_p, mt, payload.len() as int));
                assert(matching_fit_first(rs0, ri_p, mt, payload.len() as int)) by {
                    assert forall|k: int| 0 <= k < ri_p implies !matching_fit(
                        rs0,
                        k,
                        mt,
                        payload.len() as int,
                    ) by {
                        assert(!matching_fit(rs0, k, mt, msgsz));
                    }
                }
                let ri_s = choose|ri: int| matching_fit_first(rs0, ri, mt, payload.len() as int);
                assert(matching_fit_first(rs0, ri_s, mt, payload.len() as int));
                assert(ri_s == ri_p) by {
                    if ri_s < ri_p {
                        assert(!matching_fit(rs0, ri_s, mt, msgsz));
                    } else if ri_s > ri_p {
                        assert(!matching_fit(rs0, ri_p, mt, payload.len() as int));
                    }
                }
                let wn = wake_null(rs0.take(ri_p).filter(takes(mt)));
                assert(self.woken_receivers@.drop_last() =~= w_pre + wn);
                assert(qfin.q_message@ == q0.q_message@);
            }
        }
        SendOutcome::Sent
    }
}

/// What a successful, non-blocking send did: the receivers the message
/// passed over by size were woken empty-handed; then either the first
/// receiver it fit got it, or it joined the queue.
pub open spec fn sent_effect(
    pre: IPCIds,
    post: IPCIds,
    slot: int,
    mt: int,
    payload: Seq<u8>,
    pid: usize,
) -> bool {
    let q0 = pre.entries@[slot].unwrap();
    let rs0 = q0.q_receiver@;
    let q1 = post.entries@[slot].unwrap();
    &&& post.entries@[slot] is Some
    &&& q1.q_sender@ == q0.q_sender@
    &&& q1.key == q0.key
    &&& q1.seq == q0.seq
    &&& q1.max_msg == q0.max_msg
    &&& (forall|i: int| 0 <= i < pre.entries@.len() && i != slot ==> post.entries@[i] == pre.entries@[i])
    &&& post.woken_senders@ == pre.woken_senders@
    &&& if exists|ri: int| matching_fit(rs0, ri, mt, payload.len() as int) {
        let ri = choose|ri: int| matching_fit_first(rs0, ri, mt, payload.len() as int);
        &&& matching_fit_first(rs0, ri, mt, payload.len() as int)
        &&& q1.q_message@ == q0.q_message@
        &&& q1.q_receiver@ == rs0.take(ri).filter(keeps(mt)) + rs0.skip(ri + 1)
        &&& post.woken_receivers@.len() == pre.woken_receivers@.len() + rs0.take(ri).filter(
            takes(mt),
        ).len() + 1
        &&& post.woken_receivers@.drop_last() == pre.woken_receivers@ + wake_null(
            rs0.take(ri).filter(takes(mt)),
        )
        &&& post.woken_receivers@.last().pid == rs0[ri].pid
        &&& (post.woken_receivers@.last().r_msg matches Some(m) && m.mtype == mt && m.bytes()
            == payload && m.wf())
    } else {
        &&& q1.q_message@.len() == q0.q_message@.len() + 1
        &&& q1.q_message@.last().mtype == mt
        &&& q1.q_message@.last().bytes() == payload
        &&& forall|k: int| 0 <= k < q0.q_message@.len() ==> q1.q_message@[k] == q0.q_message@[k]
        &&& q1.q_receiver@ == rs0.filter(keeps(mt))
        &&& post.woken_receivers@ == pre.woken_receivers@ + wake_null(rs0.filter(takes(mt)))
    }
}

/// Whether receiver `ri` takes type `mt` and has room for `size` bytes.
pub open spec fn matching_fit(rs: Seq<MessageReceiver>, ri: int, mt: int, size: int) -> bool {
    0 <= ri < rs.len() && spec_test_msg(rs[ri].mtype as int, mt) && size <= rs[ri].size
}

/// Whether `ri` is the first receiver that takes type `mt` with room for
/// `size` bytes.
pub open spec fn matching_fit_first(
    rs: Seq<MessageReceiver>,
    ri: int,
    mt: int,
    size: int,
) -> bool {
    matching_fit(rs, ri, mt, size) && forall|k: int| 0 <= k < ri ==> !matching_fit(rs, k, mt, size)
}

/// Walks the waiting receivers with a fresh message: wakes, empty-handed,
/// every receiver that takes the type but lacks the room, and hands the
/// message to the first receiver that takes it and has room. Returns the
/// message back if nobody could take it.
#[verifier::rlimit(100)]
#[verifier::spinoff_prover]
fn pipeline_send(
    q_receiver: &mut Vec<MessageReceiver>,
    woken: &mut Vec<WokenReceiver>,
    msg: Message,
    pid: usize,
) -> (left: Option<Message>)
    requires
        msg.wf(),
    ensures
        ({
            let rs0 = old(q_receiver)@;
            let mt = msg.mtype as int;
            let size = msg.size as int;
            match left {
                None => {
                    &&& exists|ri: int| matching_fit(rs0, ri, mt, size)
                    &&& ({
                        let ri = choose|ri: int| matching_fit_first(rs0, ri, mt, size);
                        &&& matching_fit_first(rs0, ri, mt, size)
                        &&& final(q_receiver)@ == rs0.take(ri).filter(keeps(mt)) + rs0.skip(
                            ri + 1,
                        )
                        &&& final(woken)@ == old(woken)@ + wake_null(
                            rs0.take(ri).filter(takes(mt)),
                        ).push(
                            WokenReceiver { pid: rs0[ri].pid, r_msg: Some(msg) },
                        )
                    })
                },
                Some(m) => {
                    &&& m == msg
                    &&& forall|ri: int| !matching_fit(rs0, ri, mt, size)
                    &&& final(q_receiver)@ == rs0.filter(keeps(mt))
                    &&& final(woken)@ == old(woken)@ + wake_null(rs0.filter(takes(mt)))
                },
            }
        }),
{
    let ghost rs0 = q_receiver@;
    let ghost mt = msg.mtype as int;
    let ghost size = msg.size as int;
    let ghost w0 = woken@;
    let mut kept: Vec<MessageReceiver> = Vec::new();
    let mut i: usize = 0;
    let n = q_receiver.len();
    let mut fit: bool = false;
    while i < n && !fit
        invariant
            q_receiver@ == rs0,
            n == rs0.len(),
            0 <= i <= n,
            mt == msg.mtype as int,
            size == msg.size as int,
            msg.wf(),
            !fit ==> {
                &&& kept@ == rs0.take(i as int).filter(keeps(mt))
                &&& woken@ == w0 + wake_null(rs0.take(i as int).filter(takes(mt)))
                &&& forall|k: int| 0 <= k < i ==> !matching_fit(rs0, k, mt, size)
            },
            fit ==> {
                &&& i < n
                &&& matching_fit_first(rs0, i as int, mt, size)
                &&& kept@ == rs0.take(i as int).filter(keeps(mt))
                &&& woken@ == w0 + wake_null(rs0.take(i as int).filter(takes(mt)))
            },
        decreases n - i, if fit { 0int } else { 1int },
    {
        let r = q_receiver[i];
        proof {
            lemma_filter_take_step(rs0, i as int, keeps(mt));
            lemma_filter_take_step(rs0, i as int, takes(mt));
        }
        if test_msg(r.mtype, msg.mtype) {
            if msg.size > r.size {
                woken.push(WokenReceiver { pid: r.pid, r_msg: None });
                proof {
                    assert(wake_null(rs0.take(i as int).filter(takes(mt)).push(rs0[i as int]))
                        =~= wake_null(rs0.take(i as int).filter(takes(mt))).push(
                        WokenReceiver { pid: rs0[i as int].pid, r_msg: None },
                    ));
                }
                i += 1;
            } else {
                fit = true;
            }
        } else {
            kept.push(r);
            i += 1;
        }
    }
    if fit {
        let r = q_receiver[i];
        woken.push(WokenReceiver { pid: r.pid, r_msg: Some(msg) });
        let mut rest: usize = i + 1;
        while rest < n
            invariant
                q_receiver@ == rs0,
                n == rs0.len(),
                i < n,
                i + 1 <= rest <= n,
                kept@ == rs0.take(i as int).filter(keeps(mt)) + rs0.subrange(
                    i + 1,
                    rest as int,
                ),
            decreases n - rest,
        {
            let r2 = q_receiver[rest];
            kept.push(r2);
            proof {
                assert(rs0.take(i as int).filter(keeps(mt)) + rs0.subrange(i + 1, rest + 1)
                    =~= (rs0.take(i as int).filter(keeps(mt)) + rs0.subrange(
                    i + 1,
                    rest as int,
                )).push(rs0[rest as int]));
            }
            rest += 1;
        }
        *q_receiver = kept;
        proof {
            assert(rs0.subrange(i + 1, n as int) =~= rs0.skip(i + 1));
            let ri = choose|ri: int| matching_fit_first(rs0, ri, mt, size);
            assert(matching_fit_first(rs0, i as int, mt, size));
            assert(ri == i as int) by {
                if ri < i as int {
                    assert(!matching_fit(rs0, ri, mt, size));
                } else if ri > i as int {
                    assert(!matching_fit(rs0, i as int, mt, size));
                }
            }
        }
        None
    } else {
        *q_receiver = kept;
        proof {
            assert(rs0.take(i as int) =~= rs0);
        }
        Some(msg)
    }
}

} // verus!
verus! {

/// The message the selector picks: the first it takes for a selector of
/// -1 and above; for one below -1, the |selector|-th message it takes, or
/// the last such message when fewer than |selector| qualify. Returns the
/// chosen index, or -1 with no match at all.
pub open spec fn spec_pick(msgs: Seq<Message>, mtype: int, i: int, found: int, left: int) -> int
    decreases msgs.len() - i,
{
    if i < 0 || i >= msgs.len() {
        found
    } else if spec_test_msg(mtype, msgs[i].mtype as int) {
        if left <= 1 {
            i
        } else {
            spec_pick(msgs, mtype, i + 1, i, left - 1)
        }
    } else {
        spec_pick(msgs, mtype, i + 1, found, left)
    }
}

/// How many matches the selector still has to pass over before it takes
/// one: its magnitude below -1, else one.
pub open spec fn spec_wanted(mtype: int) -> int {
    if mtype < -1 {
        -mtype
    } else {
        1
    }
}

impl IPCIds {
    /// Receives a message: the scan's choice if it fits the buffer,
    /// `E2BIG` without detaching it if not, and otherwise `ENOMSG` or a
    /// wait, as the flags allow. Detaching a message lets waiting senders
    /// enqueue their pending messages while there is room, oldest first.
    #[verifier::rlimit(100)]
    pub fn sys_msgrcv(
        &mut self,
        msg_id: i32,
        msg_size: usize,
        mtype: i32,
        msgflg: i32,
        pid: usize,
    ) -> (r: RecvOutcome)
        requires
            old(self).wf(),
            mtype > i32::MIN,
        ensures
            final(self).wf(),
            old(self).spec_lookup(msg_id as int) is None ==> r == RecvOutcome::Failed(EIDRM)
                && ipc_unchanged(*old(self), *final(self)),
            (old(self).spec_lookup(msg_id as int) matches Some(slot)
                && (old(self).entries@[slot] matches Some(q0))) ==> ({
                let slot = old(self).spec_lookup(msg_id as int).unwrap();
                let q0 = old(self).entries@[slot].unwrap();
                let f = spec_pick(q0.q_message@, mtype as int, 0, -1, spec_wanted(mtype as int));
                if f >= 0 {
                    if q0.q_message@[f].size > msg_size {
                        r == RecvOutcome::Failed(E2BIG) && ipc_unchanged(
                            *old(self),
                            *final(self),
                        )
                    } else {
                        recv_effect(*old(self), *final(self), slot, f, msg_size as int, r)
                    }
                } else {
                    if msgflg & IPC_NOWAIT != 0 {
                        r == RecvOutcome::Failed(ENOMSG) && ipc_unchanged(
                            *old(self),
                            *final(self),
                        )
                    } else {
                        r == RecvOutcome::Blocked && blocked_effect(
                            *old(self),
                            *final(self),
                            slot,
                            mtype as int,
                            msg_size as int,
                            pid,
                        )
                    }
                }
            }),
    {
        let slot = match self.get_msg_queue(msg_id) {
            Some(s) => s,
            None => {
                return RecvOutcome::Failed(EIDRM);
            },
        };
        let mut q_opt: Option<MessageQueue> = None;
        core::mem::swap(slot_mut(&mut self.entries, slot), &mut q_opt);
        let mut q = match q_opt {
            Some(q) => q,
            None => {
                proof {
                    assert(false);
                }
                return RecvOutcome::Failed(EIDRM);
            },
        };
        let ghost q0 = q;
        // Scan for the chosen message: the first match, or the
        // |selector|-th for a selector below -1.
        let mut i: usize = 0;
        let mut left: i32 = if mtype < -1 {
            -mtype
        } else {
            1
        };
        let mut found: i32 = -1;
        let n = q.q_message.len();
        let mut done = false;
        while i < n && !done
            invariant
                q == q0,
                n == q.q_message@.len(),
                q.wf(),
                0 <= i <= n,
                -1 <= found < n as i32,
                mtype > i32::MIN,
                1 <= left <= spec_wanted(mtype as int),
                spec_pick(q.q_message@, mtype as int, 0, -1, spec_wanted(mtype as int)) == if done {
                    found as int
                } else {
                    spec_pick(q.q_message@, mtype as int, i as int, found as int, left as int)
                },
            decreases n - i, if done { 0int } else { 1int },
        {
            let m_mtype = q.q_message[i].mtype;
            proof {
                assert(q.q_message@[i as int].wf());
            }
            if test_msg(mtype, m_mtype) {
                found = i as i32;
                if left > 1 {
                    left = left - 1;
                    i += 1;
                } else {
                    done = true;
                }
            } else {
                i += 1;
            }
        }
        if found >= 0 {
            let f = found as usize;
            if q.q_message[f].size > msg_size {
                // The buffer cannot take the chosen message: fail without
                // detaching it.
                let mut back = Some(q);
                core::mem::swap(slot_mut(&mut self.entries, slot), &mut back);
                proof {
                    assert(self.entries@ =~= old(self).entries@);
                }
                return RecvOutcome::Failed(E2BIG);
            }
            let m = q.q_message.remove(f);
            q.sum_msg = q.sum_msg - 1;
            // There is room now: waiting senders enqueue, oldest first.
            let ghost senders0 = q.q_sender@;
            let ghost msgs_after = q.q_message@;
            let ghost woken0 = self.woken_senders@;
            let ghost entries_mid = self.entries@;
            let ghost wr_mid = self.woken_receivers@;
            let ghost seq_mid = self.seq;
            let ghost iu_mid = self.in_use;
            let mut k: usize = 0;
            while q.q_sender.len() > 0 && q.sum_msg < q.max_msg
                invariant
                    q.wf(),
                    self.entries@ == entries_mid,
                    self.woken_receivers@ == wr_mid,
                    self.seq == seq_mid,
                    self.in_use == iu_mid,
                    slot < entries_mid.len(),
                    q.q_receiver@ == q0.q_receiver@,
                    q.key == q0.key,
                    q.seq == q0.seq,
                    q.max_msg == q0.max_msg,
                    k <= senders0.len(),
                    q.q_sender@ == senders0.skip(k as int),
                    q.q_message@ == msgs_after + senders0.take(k as int).map_values(
                        |s: MessageSender| s.msg,
                    ),
                    self.woken_senders@ == woken0 + senders0.take(k as int).map_values(
                        |s: MessageSender| WokenSender { pid: s.pid, result: 0 },
                    ),
                    k < senders0.len() ==> q.sum_msg == msgs_after.len() + k,
                decreases q.q_sender@.len(),
            {
                let sender = q.q_sender.remove(0);
                q.q_message.push(sender.msg);
                q.sum_msg = q.sum_msg + 1;
                self.woken_senders.push(WokenSender { pid: sender.pid, result: 0 });
                proof {
                    assert(senders0.skip(k as int).remove(0) =~= senders0.skip(k as int + 1));
                    assert(senders0.take(k as int + 1).map_values(|s: MessageSender| s.msg)
                        =~= senders0.take(k as int).map_values(|s: MessageSender| s.msg).push(
                        senders0[k as int].msg,
                    ));
                    assert(senders0.take(k as int + 1).map_values(
                        |s: MessageSender| WokenSender { pid: s.pid, result: 0 },
                    ) =~= senders0.take(k as int).map_values(
                        |s: MessageSender| WokenSender { pid: s.pid, result: 0 },
                    ).push(WokenSender { pid: senders0[k as int].pid, result: 0 }));
                    assert(msgs_after + senders0.take(k as int).map_values(
                        |s: MessageSender| s.msg,
                    ).push(senders0[k as int].msg) =~= (msgs_after + senders0.take(
                        k as int,
                    ).map_values(|s: MessageSender| s.msg)).push(senders0[k as int].msg));
                }
                k += 1;
            }
            let want = if msg_size < m.size {
                msg_size
            } else {
                m.size
            };
            let out = store_msg(&m.segs, want);
            let buf = MessageBuffer { mtype: m.mtype, data: out };
            let mut back = Some(q);
            core::mem::swap(slot_mut(&mut self.entries, slot), &mut back);
            return RecvOutcome::Received(buf);
        }
        if msgflg & IPC_NOWAIT != 0 {
            let mut back = Some(q);
            core::mem::swap(slot_mut(&mut self.entries, slot), &mut back);
            proof {
                assert(self.entries@ =~= old(self).entries@);
            }
            return RecvOutcome::Failed(ENOMSG);
        }
        q.q_receiver.push(MessageReceiver { pid, mtype, size: msg_size });
        let mut back = Some(q);
        core::mem::swap(slot_mut(&mut self.entries, slot), &mut back);
        RecvOutcome::Blocked
    }
}

/// What a successful receive did: the chosen message left the queue, as
/// many pending senders as the freed room allows enqueued their messages
/// oldest first, each woken exactly once, and the caller got the message's
/// type and its payload truncated to the buffer.
pub open spec fn recv_effect(
    pre: IPCIds,
    post: IPCIds,
    slot: int,
    f: int,
    msg_size: int,
    r: RecvOutcome,
) -> bool {
    let q0 = pre.entries@[slot].unwrap();
    let m = q0.q_message@[f];
    let q1 = post.entries@[slot].unwrap();
    let moved = q1.q_message@.len() - (q0.q_message@.len() - 1);
    &&& post.entries@[slot] is Some
    &&& q1.q_receiver@ == q0.q_receiver@
    &&& q1.key == q0.key
    &&& q1.seq == q0.seq
    &&& q1.max_msg == q0.max_msg
    &&& (forall|i: int| 0 <= i < pre.entries@.len() && i != slot ==> post.entries@[i] == pre.entries@[i])
    &&& 0 <= moved <= q0.q_sender@.len()
    &&& q1.q_sender@ == q0.q_sender@.skip(moved)
    &&& q1.q_message@ == q0.q_message@.remove(f) + q0.q_sender@.take(moved).map_values(
        |s: MessageSender| s.msg,
    )
    &&& post.woken_senders@ == pre.woken_senders@ + q0.q_sender@.take(moved).map_values(
        |s: MessageSender| WokenSender { pid: s.pid, result: 0 },
    )
    &&& moved < q0.q_sender@.len() ==> q1.q_message@.len() == q1.max_msg
    &&& post.woken_receivers@ == pre.woken_receivers@
    &&& (r matches RecvOutcome::Received(buf) && buf.mtype == m.mtype && buf.data@ == m.bytes()
        .subrange(0, if msg_size < m.size { msg_size as int } else { m.size as int }))
}

/// What blocking on a receive did: the caller joined the queue's waiting
/// receivers with the selector as the scan left it.
pub open spec fn blocked_effect(
    pre: IPCIds,
    post: IPCIds,
    slot: int,
    end_mtype: int,
    msg_size: int,
    pid: usize,
) -> bool {
    let q0 = pre.entries@[slot].unwrap();
    let q1 = post.entries@[slot].unwrap();
    &&& post.entries@[slot] is Some
    &&& q1.q_message@ == q0.q_message@
    &&& q1.q_sender@ == q0.q_sender@
    &&& q1.key == q0.key
    &&& q1.seq == q0.seq
    &&& q1.max_msg == q0.max_msg
    &&& (forall|i: int| 0 <= i < pre.entries@.len() && i != slot ==> post.entries@[i] == pre.entries@[i])
    &&& q1.q_receiver@ == q0.q_receiver@.push(
        MessageReceiver { pid, mtype: end_mtype as i32, size: msg_size as usize },
    )
    &&& post.woken_receivers@ == pre.woken_receivers@
    &&& post.woken_senders@ == pre.woken_senders@
}

} // verus!
verus! {

impl IPCIds {
    /// Controls a queue. The one command is removal, which empties the
    /// slot, drops every held message, and wakes each blocked sender and
    /// each blocked receiver exactly once: receivers find no message,
    /// senders find `EIDRM`.
    pub fn sys_msgctl(&mut self, msg_id: i32, cmd: i32) -> (r: Result<i32, i32>)
        requires
            old(self).wf(),
        ensures
            final(self).wf(),
            cmd != IPC_RMID ==> r == Result::<i32, i32>::Err(EINVAL) && ipc_unchanged(
                *old(self),
                *final(self),
            ),
            cmd == IPC_RMID && old(self).spec_lookup(msg_id as int) is None ==> r
                == Result::<i32, i32>::Ok(0) && ipc_unchanged(*old(self), *final(self)),
            cmd == IPC_RMID && (old(self).spec_lookup(msg_id as int) matches Some(slot)
                && (old(self).entries@[slot] matches Some(q0))) ==> ({
                let slot = old(self).spec_lookup(msg_id as int).unwrap();
                let q0 = old(self).entries@[slot].unwrap();
                &&& r == Result::<i32, i32>::Ok(0)
                &&& final(self).entries@[slot] is None
                &&& forall|i: int|
                    0 <= i < old(self).entries@.len() && i != slot ==> final(self).entries@[i]
                        == old(self).entries@[i]
                &&& final(self).woken_receivers@ == old(self).woken_receivers@ + wake_null(
                    q0.q_receiver@,
                )
                &&& final(self).woken_senders@ == old(self).woken_senders@
                    + q0.q_sender@.map_values(
                    |s: MessageSender| WokenSender { pid: s.pid, result: EIDRM },
                )
            }),
    {
        if cmd != IPC_RMID {
            return Err(EINVAL);
        }
        let slot = match self.get_msg_queue(msg_id) {
            Some(s) => s,
            None => {
                return Ok(0);
            },
        };
        let mut q_opt: Option<MessageQueue> = None;
        core::mem::swap(slot_mut(&mut self.entries, slot), &mut q_opt);
        let q = match q_opt {
            Some(q) => q,
            None => {
                proof {
                    assert(false);
                }
                return Ok(0);
            },
        };
        let ghost q0 = q;
        let ghost wr0 = self.woken_receivers@;
        let ghost ws0 = self.woken_senders@;
        let ghost entries_mid = self.entries@;
        let ghost seq_mid = self.seq;
        let ghost iu_mid = self.in_use;
        let mut i: usize = 0;
        let rn = q.q_receiver.len();
        while i < rn
            invariant
                i <= rn,
                rn == q0.q_receiver@.len(),
                q == q0,
                self.entries@ == entries_mid,
                self.woken_senders@ == ws0,
                self.seq == seq_mid,
                self.in_use == iu_mid,
                self.woken_receivers@ == wr0 + wake_null(q0.q_receiver@.take(i as int)),
            decreases rn - i,
        {
            let rc = q.q_receiver[i];
            self.woken_receivers.push(WokenReceiver { pid: rc.pid, r_msg: None });
            proof {
                assert(wake_null(q0.q_receiver@.take(i as int + 1)) =~= wake_null(
                    q0.q_receiver@.take(i as int),
                ).push(WokenReceiver { pid: q0.q_receiver@[i as int].pid, r_msg: None }));
                assert(wr0 + wake_null(q0.q_receiver@.take(i as int)).push(
                    WokenReceiver { pid: q0.q_receiver@[i as int].pid, r_msg: None },
                ) =~= (wr0 + wake_null(q0.q_receiver@.take(i as int))).push(
                    WokenReceiver { pid: q0.q_receiver@[i as int].pid, r_msg: None },
                ));
            }
            i += 1;
        }
        let mut j: usize = 0;
        let sn = q.q_sender.len();
        while j < sn
            invariant
                j <= sn,
                sn == q0.q_sender@.len(),
                q == q0,
                self.entries@ == entries_mid,
                self.woken_receivers@ == wr0 + wake_null(q0.q_receiver@.take(rn as int)),
                rn == q0.q_receiver@.len(),
                self.seq == seq_mid,
                self.in_use == iu_mid,
                self.woken_senders@ == ws0 + q0.q_sender@.take(j as int).map_values(
                    |s: MessageSender| WokenSender { pid: s.pid, result: EIDRM },
                ),
            decreases sn - j,
        {
            let pid = q.q_sender[j].pid;
            self.woken_senders.push(WokenSender { pid, result: EIDRM });
            proof {
                assert(q0.q_sender@.take(j as int + 1).map_values(
                    |s: MessageSender| WokenSender { pid: s.pid, result: EIDRM },
                ) =~= q0.q_sender@.take(j as int).map_values(
                    |s: MessageSender| WokenSender { pid: s.pid, result: EIDRM },
                ).push(WokenSender { pid: q0.q_sender@[j as int].pid, result: EIDRM }));
                assert(ws0 + q0.q_sender@.take(j as int).map_values(
                    |s: MessageSender| WokenSender { pid: s.pid, result: EIDRM },
                ).push(WokenSender { pid: q0.q_sender@[j as int].pid, result: EIDRM }) =~= (ws0
                    + q0.q_sender@.take(j as int).map_values(
                    |s: MessageSender| WokenSender { pid: s.pid, result: EIDRM },
                )).push(WokenSender { pid: q0.q_sender@[j as int].pid, result: EIDRM }));
            }
            j += 1;
        }
        if self.in_use > 0 {
            self.in_use = self.in_use - 1;
        }
        proof {
            assert(q0.q_receiver@.take(rn as int) =~= q0.q_receiver@);
            assert(q0.q_sender@.take(sn as int) =~= q0.q_sender@);
        }
        Ok(0)
    }
}

} // verus!
