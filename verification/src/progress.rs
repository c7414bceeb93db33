//! The progress stream of a file copy.
//!
//! A copy runs as two tasks. One copies and then signals, once, how it
//! ended. The other, the poller, waits for that signal, for the consumer to
//! go away, or for a timer to tick, and on a tick samples the length of the
//! destination. [`Poller`] holds the poller's decisions: which messages to
//! send for each event, and when to stop.

use vstd::prelude::*;

verus! {

/// One message of the progress stream.
#[derive(Debug, PartialEq, Eq)]
pub enum Progress<E> {
    /// That many more bytes have been copied since the last message. Zero
    /// marks the end of a successful copy and nothing else.
    Delta(u64),
    /// The copy failed, for this cause.
    Error(E),
}

/// What the poller can wake up to.
#[derive(Debug, PartialEq, Eq)]
pub enum Event<E> {
    /// The copier has ended: with the number of bytes copied, or with the
    /// cause of its failure.
    Finished(Result<u64, E>),
    /// The consumer has dropped its end of the channel.
    Closed,
    /// The timer has ticked; the destination's length was sampled then, and
    /// is `None` where it could not be read.
    Tick(Option<u64>),
}

/// The poller's state between two events.
#[derive(Clone, Copy, Debug, PartialEq, Eq)]
pub struct Poller {
    /// The destination length last reported: the sum of all deltas sent.
    pub last: u64,
    /// Whether the poller has stopped.
    pub done: bool,
}

/// The length that a sample stands for; an unreadable destination counts as
/// empty.
pub open spec fn sampled(sample: Option<u64>) -> u64 {
    match sample {
        Some(len) => len,
        None => 0,
    }
}

/// The state in which the poller starts.
pub open spec fn fresh() -> Poller {
    Poller { last: 0, done: false }
}

/// The messages that the poller sends when `event` arrives in state `s`.
pub open spec fn messages<E>(s: Poller, event: Event<E>) -> Seq<Progress<E>> {
    if s.done {
        Seq::empty()
    } else {
        match event {
            Event::Finished(Ok(len)) => if len > s.last {
                seq![Progress::Delta((len - s.last) as u64), Progress::Delta(0)]
            } else {
                seq![Progress::Delta(0)]
            },
            Event::Finished(Err(cause)) => seq![Progress::Error(cause)],
            Event::Closed => Seq::empty(),
            Event::Tick(sample) => if sampled(sample) > s.last {
                seq![Progress::Delta((sampled(sample) - s.last) as u64)]
            } else {
                Seq::empty()
            },
        }
    }
}

/// The state of the poller after `event` has arrived in state `s`.
pub open spec fn next<E>(s: Poller, event: Event<E>) -> Poller {
    if s.done {
        s
    } else {
        match event {
            Event::Finished(Ok(len)) => Poller {
                last: if len > s.last {
                    len
                } else {
                    s.last
                },
                done: true,
            },
            Event::Finished(Err(_)) => Poller { last: s.last, done: true },
            Event::Closed => Poller { last: s.last, done: true },
            Event::Tick(sample) => Poller {
                last: if sampled(sample) > s.last {
                    sampled(sample)
                } else {
                    s.last
                },
                done: false,
            },
        }
    }
}

/// The state of a poller that started in `s` and has seen `events`.
pub open spec fn state_after<E>(s: Poller, events: Seq<Event<E>>) -> Poller
    decreases events.len(),
{
    if events.len() == 0 {
        s
    } else {
        next(state_after(s, events.drop_last()), events.last())
    }
}

/// Everything that a poller that started in `s` has sent over `events`.
pub open spec fn stream<E>(s: Poller, events: Seq<Event<E>>) -> Seq<Progress<E>>
    decreases events.len(),
{
    if events.len() == 0 {
        Seq::empty()
    } else {
        stream(s, events.drop_last()) + messages(
            state_after(s, events.drop_last()),
            events.last(),
        )
    }
}

/// The bytes that the deltas of `msgs` add up to.
pub open spec fn delta_sum<E>(msgs: Seq<Progress<E>>) -> nat
    decreases msgs.len(),
{
    if msgs.len() == 0 {
        0
    } else {
        delta_sum(msgs.drop_last()) + match msgs.last() {
            Progress::Delta(n) => n as nat,
            Progress::Error(_) => 0,
        }
    }
}

/// Whether every event of `events` is a tick.
pub open spec fn all_ticks<E>(events: Seq<Event<E>>) -> bool {
    forall|i: int| 0 <= i < events.len() ==> #[trigger] events[i] is Tick
}

/// Whether every sample of `events` is at most `len`.
pub open spec fn samples_within<E>(events: Seq<Event<E>>, len: u64) -> bool {
    forall|i: int|
        0 <= i < events.len() ==> (#[trigger] events[i] matches Event::Tick(sample) ==> sampled(
            sample,
        ) <= len)
}

impl Poller {
    /// A poller that has reported nothing yet.
    pub fn new() -> (p: Poller)
        ensures
            p == fresh(),
    {
        Poller { last: 0, done: false }
    }

    /// Takes one event and returns the messages to send for it, in order.
    /// Once the poller is done it sends nothing more, whatever arrives.
    pub fn on_event<E>(&mut self, event: Event<E>) -> (out: Vec<Progress<E>>)
        ensures
            out@ == messages(*old(self), event),
            *final(self) == next(*old(self), event),
    {
        let mut out: Vec<Progress<E>> = Vec::new();
        if self.done {
            return out;
        }
        match event {
            Event::Finished(Ok(len)) => {
                if len > self.last {
                    out.push(Progress::Delta(len - self.last));
                    self.last = len;
                }
                out.push(Progress::Delta(0));
                self.done = true;
            },
            Event::Finished(Err(cause)) => {
                out.push(Progress::Error(cause));
                self.done = true;
            },
            Event::Closed => {
                self.done = true;
            },
            Event::Tick(sample) => {
                let len: u64 = match sample {
                    Some(len) => len,
                    None => 0,
                };
                if len > self.last {
                    out.push(Progress::Delta(len - self.last));
                    self.last = len;
                }
            },
        }
        assert(out@ =~= messages(*old(self), event));
        out
    }
}

/// The deltas of two streams sent one after the other add up.
pub proof fn lemma_delta_sum_concat<E>(a: Seq<Progress<E>>, b: Seq<Progress<E>>)
    ensures
        delta_sum(a + b) == delta_sum(a) + delta_sum(b),
    decreases b.len(),
{
    if b.len() == 0 {
        assert(a + b =~= a);
    } else {
        assert((a + b).drop_last() =~= a + b.drop_last());
        lemma_delta_sum_concat(a, b.drop_last());
    }
}

/// Seeing `a` and then `b` is seeing `b` from the state that `a` leaves.
pub proof fn lemma_events_concat<E>(s: Poller, a: Seq<Event<E>>, b: Seq<Event<E>>)
    ensures
        state_after(s, a + b) == state_after(state_after(s, a), b),
        stream(s, a + b) == stream(s, a) + stream(state_after(s, a), b),
    decreases b.len(),
{
    if b.len() == 0 {
        assert(a + b =~= a);
        assert(stream(s, a) + Seq::<Progress<E>>::empty() =~= stream(s, a));
    } else {
        assert((a + b).drop_last() =~= a + b.drop_last());
        lemma_events_concat(s, a, b.drop_last());
        let mid = state_after(s, a);
        let tail = messages(state_after(mid, b.drop_last()), b.last());
        assert((stream(s, a) + stream(mid, b.drop_last())) + tail =~= stream(s, a) + (stream(
            mid,
            b.drop_last(),
        ) + tail));
    }
}

/// A poller that is done stays as it is and sends nothing, whatever
/// arrives.
pub proof fn lemma_done_is_final<E>(s: Poller, events: Seq<Event<E>>)
    requires
        s.done,
    ensures
        state_after(s, events) == s,
        stream(s, events) == Seq::<Progress<E>>::empty(),
    decreases events.len(),
{
    if events.len() > 0 {
        lemma_done_is_final(s, events.drop_last());
        assert(Seq::<Progress<E>>::empty() + Seq::<Progress<E>>::empty() =~= Seq::<
            Progress<E>,
        >::empty());
    }
}

/// The deltas sent add up to the growth of the reported length: a poller
/// never reports less than before, and the sum of what it sent over `events`
/// is the difference between the length it reports afterwards and the one it
/// reported at first.
pub proof fn lemma_deltas_sum_to_reported<E>(s: Poller, events: Seq<Event<E>>)
    ensures
        state_after(s, events).last >= s.last,
        delta_sum(stream(s, events)) == state_after(s, events).last - s.last,
    decreases events.len(),
{
    if events.len() > 0 {
        let before = events.drop_last();
        lemma_deltas_sum_to_reported(s, before);
        let mid = state_after(s, before);
        let sent = messages(mid, events.last());
        lemma_delta_sum_concat(stream(s, before), sent);
        lemma_messages_sum(mid, events.last());
    }
}

/// The deltas sent for one event add up to the growth of the reported
/// length over that event.
pub proof fn lemma_messages_sum<E>(s: Poller, event: Event<E>)
    ensures
        next(s, event).last >= s.last,
        delta_sum(messages(s, event)) == next(s, event).last - s.last,
{
    let sent = messages(s, event);
    reveal_with_fuel(delta_sum, 3);
    if sent.len() == 2 {
        assert(sent.drop_last().drop_last().len() == 0);
    } else if sent.len() == 1 {
        assert(sent.drop_last().len() == 0);
    }
}

/// Every message but the last of a stream is a delta of at least one byte;
/// and so is the last one while the poller is not done. A zero delta or an
/// error can therefore only be the very last message of a stream.
pub proof fn lemma_only_last_message_ends<E>(s: Poller, events: Seq<Event<E>>)
    ensures
        forall|i: int|
            0 <= i < stream(s, events).len() - 1 ==> (#[trigger] stream(s, events)[i] matches Progress::Delta(
                n,
            ) && n > 0),
        !state_after(s, events).done ==> forall|i: int|
            0 <= i < stream(s, events).len() ==> (#[trigger] stream(s, events)[i] matches Progress::Delta(
                n,
            ) && n > 0),
    decreases events.len(),
{
    if events.len() > 0 {
        let before = events.drop_last();
        lemma_only_last_message_ends(s, before);
        let mid = state_after(s, before);
        if mid.done {
            assert(messages(mid, events.last()) =~= Seq::<Progress<E>>::empty());
            assert(stream(s, events) =~= stream(s, before));
        }
    }
}

/// A successful copy. Where nothing but ticks came before the copier
/// reported `len` bytes, the stream ends with the zero delta, whatever
/// arrives afterwards, and its deltas add up to `len`; only where a sample
/// was above `len` do they add up to the length reported for that sample.
pub proof fn lemma_successful_copy<E>(ticks: Seq<Event<E>>, len: u64, rest: Seq<Event<E>>)
    requires
        all_ticks(ticks),
    ensures
        ({
            let events = ticks.push(Event::Finished(Ok(len))) + rest;
            let sent = stream(fresh(), events);
            &&& sent.len() > 0
            &&& sent.last() == Progress::<E>::Delta(0)
            &&& delta_sum(sent) == if state_after(fresh(), ticks).last > len {
                state_after(fresh(), ticks).last as nat
            } else {
                len as nat
            }
            &&& samples_within(ticks, len) ==> delta_sum(sent) == len
        }),
{
    let finished = Event::<E>::Finished(Ok(len));
    let first = ticks.push(finished);
    let events = first + rest;
    lemma_ticks_keep_running(fresh(), ticks, len);
    let mid = state_after(fresh(), ticks);
    assert(first.drop_last() =~= ticks);
    assert(first.last() == finished);
    let end = state_after(fresh(), first);
    assert(end == next(mid, finished));
    lemma_events_concat(fresh(), first, rest);
    lemma_done_is_final(end, rest);
    assert(stream(fresh(), events) =~= stream(fresh(), first));
    lemma_deltas_sum_to_reported(fresh(), first);
}

/// A failed copy. Where nothing but ticks came before the copier reported
/// its failure, the stream ends with that one error, whatever arrives
/// afterwards, and every message before it is a delta of at least one byte.
pub proof fn lemma_failed_copy<E>(ticks: Seq<Event<E>>, cause: E, rest: Seq<Event<E>>)
    requires
        all_ticks(ticks),
    ensures
        ({
            let events = ticks.push(Event::Finished(Err(cause))) + rest;
            let sent = stream(fresh(), events);
            &&& sent.len() > 0
            &&& sent.last() == Progress::Error(cause)
            &&& forall|i: int|
                0 <= i < sent.len() - 1 ==> (#[trigger] sent[i] matches Progress::Delta(n) && n
                    > 0)
        }),
{
    let finished = Event::<E>::Finished(Err(cause));
    let first = ticks.push(finished);
    let events = first + rest;
    lemma_ticks_keep_running(fresh(), ticks, 0);
    let mid = state_after(fresh(), ticks);
    assert(first.drop_last() =~= ticks);
    assert(first.last() == finished);
    let end = state_after(fresh(), first);
    assert(end == next(mid, finished));
    lemma_events_concat(fresh(), first, rest);
    lemma_done_is_final(end, rest);
    assert(stream(fresh(), events) =~= stream(fresh(), first));
    lemma_only_last_message_ends(fresh(), events);
}

/// A consumer that goes away. Once the channel is closed the poller sends
/// nothing more: the stream is what the events before the closing gave.
pub proof fn lemma_closed_channel<E>(s: Poller, before: Seq<Event<E>>, rest: Seq<Event<E>>)
    ensures
        stream(s, before.push(Event::Closed) + rest) == stream(s, before),
        state_after(s, before.push(Event::Closed) + rest).done,
{
    let first = before.push(Event::<E>::Closed);
    assert(first.drop_last() =~= before);
    assert(first.last() == Event::<E>::Closed);
    lemma_events_concat(s, first, rest);
    lemma_done_is_final(state_after(s, first), rest);
    assert(stream(s, first) =~= stream(s, before));
    assert(stream(s, first) + Seq::<Progress<E>>::empty() =~= stream(s, first));
}

/// Ticks alone never stop a poller, and samples of at most `len` never take
/// the reported length above `len`.
pub proof fn lemma_ticks_keep_running<E>(s: Poller, ticks: Seq<Event<E>>, len: u64)
    requires
        all_ticks(ticks),
        !s.done,
    ensures
        !state_after(s, ticks).done,
        samples_within(ticks, len) && s.last <= len ==> state_after(s, ticks).last <= len,
    decreases ticks.len(),
{
    if ticks.len() > 0 {
        let before = ticks.drop_last();
        assert(all_ticks(before)) by {
            assert forall|i: int| 0 <= i < before.len() implies #[trigger] before[i] is Tick by {
                assert(before[i] == ticks[i]);
            }
        }
        if samples_within(ticks, len) {
            assert(samples_within(before, len)) by {
                assert forall|i: int| 0 <= i < before.len() implies (#[trigger] before[i] matches Event::Tick(
                    sample,
                ) ==> sampled(sample) <= len) by {
                    assert(before[i] == ticks[i]);
                }
            }
        }
        lemma_ticks_keep_running(s, before, len);
        assert(ticks.last() == ticks[ticks.len() - 1]);
    }
}

} // verus!
