use vstd::prelude::*;
use crate::record::{StudentRanking, Message, rank_le, sorted};
use crate::queue::{TaskQueue, served};

verus! {

/// Largest payload that a 4-byte length prefix can announce.
pub const MAX_PAYLOAD: usize = 0xffff_ffff;

/// The four bytes of `n`, most significant first.
pub open spec fn be_bytes(n: u32) -> Seq<u8> {
    seq![
        ((n >> 24u32) & 0xffu32) as u8,
        ((n >> 16u32) & 0xffu32) as u8,
        ((n >> 8u32) & 0xffu32) as u8,
        (n & 0xffu32) as u8,
    ]
}

/// The number that the first four bytes of `b` spell, most significant first.
pub open spec fn be_value(b: Seq<u8>) -> u32
    recommends
        b.len() >= 4,
{
    ((b[0] as u32) << 24u32) | ((b[1] as u32) << 16u32) | ((b[2] as u32) << 8u32) | (b[3] as u32)
}

/// The frame that carries `payload`: its length as four big-endian bytes, then the payload.
pub open spec fn frame_of(payload: Seq<u8>) -> Seq<u8>
    recommends
        payload.len() <= MAX_PAYLOAD,
{
    be_bytes(payload.len() as u32) + payload
}

/// Why a buffer does not begin with a whole frame.
#[derive(Debug, PartialEq, Eq, Structural)]
pub enum FrameError {
    /// Fewer than four bytes: the length prefix itself is incomplete.
    ShortHeader,
    /// The declared length is longer than the bytes that follow the prefix.
    Truncated,
}

proof fn lemma_be_round_trip(n: u32)
    ensures
        be_value(be_bytes(n)) == n,
{
    let b = be_bytes(n);
    assert((n >> 24u32) & 0xffu32 < 256) by (bit_vector);
    assert((n >> 16u32) & 0xffu32 < 256) by (bit_vector);
    assert((n >> 8u32) & 0xffu32 < 256) by (bit_vector);
    assert(n & 0xffu32 < 256) by (bit_vector);
    assert(b[0] as u32 == (n >> 24u32) & 0xffu32);
    assert(b[1] as u32 == (n >> 16u32) & 0xffu32);
    assert(b[2] as u32 == (n >> 8u32) & 0xffu32);
    assert(b[3] as u32 == n & 0xffu32);
    assert((((n >> 24u32) & 0xffu32) << 24u32) | (((n >> 16u32) & 0xffu32) << 16u32) | (((n
        >> 8u32) & 0xffu32) << 8u32) | (n & 0xffu32) == n) by (bit_vector);
}

/// Encoding a payload as a frame and decoding the start of any buffer that
/// begins with that frame gives back the payload, and the frame's length.
pub proof fn lemma_frame_round_trip(payload: Seq<u8>, rest: Seq<u8>)
    requires
        payload.len() <= MAX_PAYLOAD,
    ensures
        (frame_of(payload) + rest).len() >= 4,
        be_value(frame_of(payload) + rest) == payload.len(),
        (frame_of(payload) + rest).subrange(4, 4 + payload.len() as int) == payload,
{
    lemma_be_round_trip(payload.len() as u32);
    let b = frame_of(payload) + rest;
    assert(b.subrange(0, 4) =~= be_bytes(payload.len() as u32));
    assert(b.subrange(4, 4 + payload.len() as int) =~= payload);
}

/// Any strict prefix of a frame, at least as long as the length prefix, declares
/// more bytes than it holds: a decoder that checks the length rejects it.
pub proof fn lemma_cut_frame_declares_too_much(payload: Seq<u8>, n: int)
    requires
        payload.len() <= MAX_PAYLOAD,
        4 <= n < frame_of(payload).len(),
    ensures
        4 + be_value(frame_of(payload).take(n)) > n,
{
    lemma_be_round_trip(payload.len() as u32);
    assert(frame_of(payload).take(n).subrange(0, 4) =~= be_bytes(payload.len() as u32));
    assert(frame_of(payload).take(n)[0] == be_bytes(payload.len() as u32)[0]);
    assert(frame_of(payload).take(n)[1] == be_bytes(payload.len() as u32)[1]);
    assert(frame_of(payload).take(n)[2] == be_bytes(payload.len() as u32)[2]);
    assert(frame_of(payload).take(n)[3] == be_bytes(payload.len() as u32)[3]);
}

/// The frame that carries `payload`.
pub fn encode_frame(payload: &Vec<u8>) -> (r: Vec<u8>)
    requires
        payload.len() <= MAX_PAYLOAD,
    ensures
        r@ == frame_of(payload@),
{
    let n = payload.len() as u32;
    let mut r: Vec<u8> = Vec::new();
    r.push(((n >> 24u32) & 0xffu32) as u8);
    r.push(((n >> 16u32) & 0xffu32) as u8);
    r.push(((n >> 8u32) & 0xffu32) as u8);
    r.push((n & 0xffu32) as u8);
    let mut i: usize = 0;
    while i < payload.len()
        invariant
            i <= payload.len(),
            r@ == be_bytes(n) + payload@.take(i as int),
        decreases payload.len() - i,
    {
        r.push(payload[i]);
        assert(payload@.take(i + 1) =~= payload@.take(i as int).push(payload@[i as int]));
        i += 1;
    }
    assert(payload@.take(payload.len() as int) =~= payload@);
    r
}

/// The length that a frame header announces.
pub fn declared_len(header: &Vec<u8>) -> (r: u32)
    requires
        header.len() >= 4,
    ensures
        r == be_value(header@),
{
    ((header[0] as u32) << 24u32) | ((header[1] as u32) << 16u32) | ((header[2] as u32) << 8u32)
        | (header[3] as u32)
}

/// Splits the frame at the start of `buf`: its payload and the number of bytes
/// that the frame takes. A buffer whose declared length exceeds the bytes that
/// follow is refused, never cut short.
pub fn decode_frame(buf: &Vec<u8>) -> (r: Result<(Vec<u8>, usize), FrameError>)
    ensures
        r == Err::<(Vec<u8>, usize), FrameError>(FrameError::ShortHeader) <==> buf.len() < 4,
        r == Err::<(Vec<u8>, usize), FrameError>(FrameError::Truncated) <==> buf.len() >= 4 && 4
            + be_value(buf@) > buf.len(),
        r is Ok <==> buf.len() >= 4 && 4 + be_value(buf@) <= buf.len(),
        r matches Ok((p, used)) ==> used == 4 + be_value(buf@) && p@ == buf@.subrange(4, used as int),
{
    if buf.len() < 4 {
        return Err(FrameError::ShortHeader);
    }
    let n = declared_len(buf) as usize;
    if n > buf.len() - 4 {
        return Err(FrameError::Truncated);
    }
    let mut p: Vec<u8> = Vec::new();
    let mut i: usize = 0;
    while i < n
        invariant
            n + 4 <= buf.len(),
            i <= n,
            p@ == buf@.subrange(4, 4 + i),
        decreases n - i,
    {
        p.push(buf[4 + i]);
        assert(buf@.subrange(4, 4 + i + 1) =~= buf@.subrange(4, 4 + i).push(buf@[4 + i]));
        i += 1;
    }
    Ok((p, n + 4))
}

/// Whether the records are in ascending key order.
pub fn is_sorted_chunk(v: &Vec<StudentRanking>) -> (r: bool)
    ensures
        r == sorted(v@),
{
    if v.len() == 0 {
        return true;
    }
    let mut i: usize = 1;
    while i < v.len()
        invariant
            1 <= i <= v.len(),
            sorted(v@.take(i as int)),
        decreases v.len() - i,
    {
        if !v[i - 1].le(&v[i]) {
            return false;
        }
        assert forall|a: int, b: int| 0 <= a < b < i + 1 implies rank_le(
            #[trigger] v@.take(i + 1)[a], #[trigger] v@.take(i + 1)[b]) by {
            if b == i {
                if a < i - 1 {
                    assert(rank_le(v@.take(i as int)[a], v@.take(i as int)[i - 1]));
                }
            }
        }
        i += 1;
    }
    assert(v@.take(v.len() as int) =~= v@);
    true
}

/// What the coordinator does after one message from a worker.
pub enum HandlerAction {
    /// Send this message back and read the next one.
    Reply(Message),
    /// Read the next message.
    Continue,
    /// The message breaks the protocol: close the connection.
    Close,
}

/// The coordinator's answer to one message: a task request pops the queue and
/// is answered with the task or with `NoMoreTasks`; a sorted result is stored;
/// anything else, an unsorted result included, closes the connection.
pub fn handle_message(q: &mut TaskQueue, msg: Message) -> (r: HandlerAction)
    ensures
        final(q).task_count_view() == old(q).task_count_view(),
        old(q).wf() ==> final(q).wf(),
        match msg {
            Message::RequestTask => {
                &&& final(q).results_view() == old(q).results_view()
                &&& served(old(q).pending_view(), 1).len() == 0 ==> r is Reply && r->Reply_0 is NoMoreTasks
                &&& served(old(q).pending_view(), 1).len() == 1 ==> r is Reply && r->Reply_0 is AssignTask
                    && r->Reply_0->AssignTask_0 == served(old(q).pending_view(), 1)[0]
                &&& final(q).pending_view() == old(q).pending_view().drop_last() || (old(q).pending_view().len() == 0
                    && final(q).pending_view() == old(q).pending_view())
            },
            Message::TaskResult(v) => {
                &&& final(q).pending_view() == old(q).pending_view()
                &&& sorted(v@) ==> r is Continue && final(q).results_view() == old(q).results_view().push(v@)
                &&& !sorted(v@) ==> r is Close && final(q).results_view() == old(q).results_view()
            },
            _ => {
                &&& r is Close
                &&& final(q).pending_view() == old(q).pending_view()
                &&& final(q).results_view() == old(q).results_view()
            },
        },
{
    match msg {
        Message::RequestTask => {
            let t = q.next_task();
            proof {
                let p = old(q).pending_view();
                if p.len() > 0 {
                    assert(served(p.drop_last(), 0) =~= Seq::<String>::empty());
                    assert(served(p, 1) =~= seq![p.last()]);
                } else {
                    assert(served(p, 1) =~= Seq::<String>::empty());
                }
            }
            match t {
                Some(t) => HandlerAction::Reply(Message::AssignTask(t)),
                None => HandlerAction::Reply(Message::NoMoreTasks),
            }
        },
        Message::TaskResult(v) => {
            if is_sorted_chunk(&v) {
                q.record_result(v);
                HandlerAction::Continue
            } else {
                HandlerAction::Close
            }
        },
        _ => HandlerAction::Close,
    }
}

} // verus!
