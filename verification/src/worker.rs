//! The worker's life: blocked on the job queue when idle, serving one
//! connection at a time, gone after a terminate token.  The decisions are
//! pure; the threads, sockets and the detector handle live outside and
//! feed them.

use vstd::prelude::*;
use crate::codec::response_bytes;
use crate::request::well_formed_request;
use crate::wire::{concat_frames, deframe, lemma_deframe_roundtrip};

verus! {

/// One element of the job queue.
#[derive(Clone, Copy, Debug, PartialEq, Eq, Structural)]
pub enum WorkerMessage {
    /// A connection awaiting a worker.  The connection itself is carried
    /// outside; the queue model carries only the fact of the job.
    NewJob,
    /// The instruction to exit the worker loop.
    Terminate,
}

/// A worker's place in its lifecycle.
#[derive(Clone, Copy, Debug, PartialEq, Eq, Structural)]
pub enum WorkerState {
    /// Blocked on the job queue.
    Idle,
    /// Running the per-connection loop.
    Serving,
    /// Exited after a terminate token; never runs again.
    Terminated,
}

/// What an idle worker does with the message it receives: a job puts it to
/// serving, a terminate token ends it.
pub fn worker_receive(state: &WorkerState, msg: &WorkerMessage) -> (next: WorkerState)
    requires
        state is Idle,
    ensures
        msg is NewJob ==> next is Serving,
        msg is Terminate ==> next is Terminated,
{
    match msg {
        WorkerMessage::NewJob => WorkerState::Serving,
        WorkerMessage::Terminate => WorkerState::Terminated,
    }
}

/// A serving worker whose connection ended — end of stream, a truncated
/// frame, or a write failure — returns to the queue.
pub fn worker_connection_done(state: &WorkerState) -> (next: WorkerState)
    requires
        state is Serving,
    ensures
        next is Idle,
{
    WorkerState::Idle
}

/// Where a worker stands after consuming a prefix of its messages: it
/// serves each job in turn and stops at the first terminate token.
pub open spec fn worker_after(msgs: Seq<WorkerMessage>) -> WorkerState
    decreases msgs.len(),
{
    if msgs.len() == 0 {
        WorkerState::Idle
    } else if msgs[0] is Terminate {
        WorkerState::Terminated
    } else {
        worker_after(msgs.skip(1))
    }
}

/// A worker whose messages hold a terminate token ends terminated: no
/// worker outlives a shutdown that reaches it.
pub proof fn lemma_terminate_stops_worker(msgs: Seq<WorkerMessage>)
    requires
        msgs.contains(WorkerMessage::Terminate),
    ensures
        worker_after(msgs) is Terminated,
    decreases msgs.len(),
{
    if !(msgs[0] is Terminate) {
        let i = choose|i: int|
            0 <= i < msgs.len() && msgs[i] == WorkerMessage::Terminate;
        assert(msgs.skip(1)[i - 1] == msgs[i]);
        lemma_terminate_stops_worker(msgs.skip(1));
    }
}

/// How many frames of a connection earn a response.
pub open spec fn count_well_formed(frames: Seq<Seq<u8>>) -> nat
    decreases frames.len(),
{
    if frames.len() == 0 {
        0
    } else {
        (if well_formed_request(frames[0]) {
            1nat
        } else {
            0nat
        }) + count_well_formed(frames.skip(1))
    }
}

/// The responses one connection receives for the frames it sent, in order.
///
/// `outcomes[k]` is the `(face_count, detect_time_ms)` pair that the
/// detector produced for the k-th well-formed frame.  A malformed frame
/// consumes no outcome and earns no response; the connection goes on.
pub open spec fn session_responses(frames: Seq<Seq<u8>>, outcomes: Seq<(nat, nat)>) -> Seq<
    Seq<u8>,
>
    recommends
        outcomes.len() >= count_well_formed(frames),
    decreases frames.len(),
{
    if frames.len() == 0 || (well_formed_request(frames[0]) && outcomes.len() == 0) {
        Seq::empty()
    } else if well_formed_request(frames[0]) {
        seq![response_bytes(outcomes[0].0, outcomes[0].1)] + session_responses(
            frames.skip(1),
            outcomes.skip(1),
        )
    } else {
        session_responses(frames.skip(1), outcomes)
    }
}

/// Well-formed requests are answered one for one, in the order sent: the
/// k-th response on a connection carries the detector's result for the
/// k-th well-formed request.
pub proof fn lemma_responses_in_order(frames: Seq<Seq<u8>>, outcomes: Seq<(nat, nat)>)
    requires
        forall|i: int| 0 <= i < frames.len() ==> well_formed_request(#[trigger] frames[i]),
        outcomes.len() == frames.len(),
    ensures
        session_responses(frames, outcomes).len() == frames.len(),
        forall|i: int|
            0 <= i < frames.len() ==> #[trigger] session_responses(frames, outcomes)[i]
                == response_bytes(outcomes[i].0, outcomes[i].1),
    decreases frames.len(),
{
    if frames.len() > 0 {
        assert(forall|i: int|
            0 <= i < frames.skip(1).len() ==> well_formed_request(
                #[trigger] frames.skip(1)[i],
            ));
        lemma_responses_in_order(frames.skip(1), outcomes.skip(1));
        let r = session_responses(frames, outcomes);
        let tail = session_responses(frames.skip(1), outcomes.skip(1));
        assert forall|i: int| 0 <= i < frames.len() implies #[trigger] r[i] == response_bytes(
            outcomes[i].0,
            outcomes[i].1,
        ) by {
            if i > 0 {
                assert(r[i] == tail[i - 1]);
                assert(outcomes.skip(1)[i - 1] == outcomes[i]);
            }
        }
    }
}

/// A whole connection, end to end: frame any number of well-formed
/// requests onto one cleanly closed stream, and the stream earns exactly
/// one response per request, in the order the requests were sent, each
/// carrying the detector's result for its own request.
pub proof fn lemma_connection_round_trip(requests: Seq<Seq<u8>>, outcomes: Seq<(nat, nat)>)
    requires
        forall|i: int|
            0 <= i < requests.len() ==> #[trigger] requests[i].len() <= u32::MAX,
        forall|i: int| 0 <= i < requests.len() ==> well_formed_request(#[trigger] requests[i]),
        outcomes.len() == requests.len(),
    ensures
        session_responses(deframe(concat_frames(requests)), outcomes).len() == requests.len(),
        forall|i: int|
            0 <= i < requests.len() ==> #[trigger] session_responses(
                deframe(concat_frames(requests)),
                outcomes,
            )[i] == response_bytes(outcomes[i].0, outcomes[i].1),
{
    lemma_deframe_roundtrip(requests, Seq::empty());
    assert(concat_frames(requests) + Seq::<u8>::empty() =~= concat_frames(requests));
    assert(deframe(concat_frames(requests)) =~~= requests);
    lemma_responses_in_order(requests, outcomes);
}

/// A malformed frame is transparent: it earns no response, closes nothing,
/// and leaves every later frame's response exactly as it would have been.
pub proof fn lemma_malformed_frame_transparent(
    bad: Seq<u8>,
    frames: Seq<Seq<u8>>,
    outcomes: Seq<(nat, nat)>,
)
    requires
        !well_formed_request(bad),
    ensures
        session_responses(seq![bad] + frames, outcomes) == session_responses(frames, outcomes),
{
    let whole = seq![bad] + frames;
    assert(whole[0] == bad);
    assert(whole.skip(1) =~= frames);
}

} // verus!
