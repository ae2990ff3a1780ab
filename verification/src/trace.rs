//! Runs of an engine: what holds after any sequence of calls.
//!
//! A request that goes to the pending queue stays with the engine until the
//! engine hands it out for completion, and it is handed out once. This module
//! states that over whole runs: whatever is submitted, whatever the backend
//! answers and reports, the requests that the engine holds together with those
//! that it has handed out are the requests that it has taken into its queues.

use crate::engine::{
    backend_serves, promoted, reap, reap_one, AioEngine, AioEvent, AioView, Completion, MAX_EVENTS,
};
use crate::engine::lemma_position;
use crate::mem::MemView;
use crate::request::AioCb;
use vstd::multiset::Multiset;
use vstd::prelude::*;
use vstd::seq_lib::{lemma_multiset_commutative, to_multiset_remove};

verus! {

/// One call on an engine.
pub enum Input<T> {
    /// `submit_request` with this request and host memory.
    Submit { cb: AioCb<T>, mem: MemView },
    /// `submitted` with this answer of the backend.
    Submitted { accepted: Option<usize> },
    /// `handle_complete` with these events.
    Reaped { events: Seq<AioEvent> },
}

/// The requests of a run of completions.
pub open spec fn completed<T>(done: Seq<Completion<T>>) -> Seq<AioCb<T>> {
    done.map_values(|c: Completion<T>| c.cb)
}

impl<T> AioView<T> {
    /// The engine after a call.
    pub open spec fn after(self, input: Input<T>) -> AioView<T> {
        match input {
            Input::Submit { cb, mem } => self.submit(cb, mem),
            Input::Submitted { accepted } => self.submitted(accepted),
            Input::Reaped { events } => self.reaped(events),
        }
    }

    /// The requests that a call puts into the queues, as they stand there.
    pub open spec fn taken(self, input: Input<T>) -> Seq<AioCb<T>> {
        match input {
            Input::Submit { cb, mem } => if self.queues(cb, mem) {
                seq![AioCb { user_data: self.next_tag, ..cb }]
            } else {
                Seq::empty()
            },
            _ => Seq::empty(),
        }
    }

    /// The requests that a call hands out for completion.
    pub open spec fn handed_out(self, input: Input<T>) -> Seq<AioCb<T>> {
        match input {
            Input::Submit { .. } => Seq::empty(),
            Input::Submitted { accepted } => match self.submit_failed(accepted) {
                Some(c) => seq![c.cb],
                None => Seq::empty(),
            },
            Input::Reaped { events } => completed(reap(self.inflight, events).1),
        }
    }

    /// The requests that the engine holds.
    pub open spec fn held(self) -> Seq<AioCb<T>> {
        self.pending + self.inflight
    }
}

/// The engine after a run of calls.
pub open spec fn run<T>(aio: AioView<T>, inputs: Seq<Input<T>>) -> AioView<T>
    decreases inputs.len(),
{
    if inputs.len() == 0 {
        aio
    } else {
        run(aio.after(inputs[0]), inputs.skip(1))
    }
}

/// The requests that a run of calls puts into the queues.
pub open spec fn run_taken<T>(aio: AioView<T>, inputs: Seq<Input<T>>) -> Seq<AioCb<T>>
    decreases inputs.len(),
{
    if inputs.len() == 0 {
        Seq::empty()
    } else {
        aio.taken(inputs[0]) + run_taken(aio.after(inputs[0]), inputs.skip(1))
    }
}

/// The requests that a run of calls hands out for completion.
pub open spec fn run_handed_out<T>(aio: AioView<T>, inputs: Seq<Input<T>>) -> Seq<AioCb<T>>
    decreases inputs.len(),
{
    if inputs.len() == 0 {
        Seq::empty()
    } else {
        aio.handed_out(inputs[0]) + run_handed_out(aio.after(inputs[0]), inputs.skip(1))
    }
}

/// The requests left in flight by a run of events, together with the requests
/// of the completions, are the requests that were in flight.
pub proof fn lemma_reap_conserves<T>(inflight: Seq<AioCb<T>>, events: Seq<AioEvent>)
    ensures
        (reap(inflight, events).0 + completed(reap(inflight, events).1)).to_multiset()
            == inflight.to_multiset(),
        reap(inflight, events).0.len() <= inflight.len(),
    decreases events.len(),
{
    if events.len() == 0 {
        assert(inflight + completed(Seq::<Completion<T>>::empty()) =~= inflight);
    } else {
        let first = reap_one(inflight, events[0]);
        let rest = reap(first.0, events.skip(1));
        lemma_position(inflight, events[0].user_data);
        lemma_reap_conserves(first.0, events.skip(1));
        match first.1 {
            None => {},
            Some(c) => {
                let i = crate::engine::position(inflight, events[0].user_data)->0;
                let here = seq![c.cb];
                let later = completed(rest.1);
                assert(completed(seq![c] + rest.1) =~= here + later);
                // rest.0 + (here + later) has the elements of (rest.0 + later).push(c.cb)
                lemma_multiset_commutative(rest.0, here + later);
                lemma_multiset_commutative(here, later);
                lemma_multiset_commutative(later, here);
                lemma_multiset_commutative(rest.0, later + here);
                assert(rest.0 + (later + here) =~= (rest.0 + later).push(c.cb));
                vstd::seq_lib::to_multiset_build(rest.0 + later, c.cb);
                to_multiset_remove(inflight, i);
                inflight.to_multiset_ensures();
                assert(inflight.contains(c.cb));
                assert(inflight.to_multiset().remove(c.cb).insert(c.cb) =~= inflight.to_multiset());
            },
        }
    }
}

/// One call keeps a well-formed engine well formed, and keeps the requests:
/// those held afterwards and those handed out are those held before and those
/// taken.
pub proof fn lemma_call_conserves<T>(aio: AioView<T>, input: Input<T>)
    requires
        aio.wf(),
    ensures
        aio.after(input).wf(),
        (aio.after(input).held() + aio.handed_out(input)).to_multiset() == (aio.held() + aio.taken(
            input,
        )).to_multiset(),
{
    let next = aio.after(input);
    match input {
        Input::Submit { cb, mem } => {
            if aio.queues(cb, mem) {
                let new = aio.taken(input);
                assert(next.held() + aio.handed_out(input) =~= new + aio.held());
                lemma_multiset_commutative(new, aio.held());
                lemma_multiset_commutative(aio.held(), new);
            } else {
                assert(next.held() + aio.handed_out(input) =~= aio.held() + aio.taken(input));
            }
        },
        Input::Submitted { accepted } => {
            if aio.batch_len() == 0 {
                assert(next.held() + aio.handed_out(input) =~= aio.held() + aio.taken(input));
            } else {
                match accepted {
                    Some(count) => {
                        assert(next.held() + aio.handed_out(input) =~= aio.held() + aio.taken(
                            input,
                        ));
                    },
                    None => {
                        let last = seq![aio.pending.last()];
                        assert(aio.held() + aio.taken(input) =~= aio.pending.drop_last() + (last
                            + aio.inflight));
                        assert(next.held() + aio.handed_out(input) =~= aio.pending.drop_last() + (
                        aio.inflight + last));
                        lemma_multiset_commutative(aio.pending.drop_last(), last + aio.inflight);
                        lemma_multiset_commutative(aio.pending.drop_last(), aio.inflight + last);
                        lemma_multiset_commutative(last, aio.inflight);
                        lemma_multiset_commutative(aio.inflight, last);
                    },
                }
            }
        },
        Input::Reaped { events } => {
            let left = reap(aio.inflight, events).0;
            let done = completed(reap(aio.inflight, events).1);
            lemma_reap_conserves(aio.inflight, events);
            assert(next.held() + aio.handed_out(input) =~= aio.pending + (left + done));
            assert(aio.held() + aio.taken(input) =~= aio.pending + aio.inflight);
            lemma_multiset_commutative(aio.pending, left + done);
            lemma_multiset_commutative(aio.pending, aio.inflight);
        },
    }
}

/// Over any run of calls, the requests that the engine holds in the end and
/// those that it has handed out for completion are the requests that it held
/// at the start and those that it has taken into its queues: none is lost,
/// none is handed out twice, and none is completed that was not taken.
pub proof fn lemma_run_conserves<T>(aio: AioView<T>, inputs: Seq<Input<T>>)
    requires
        aio.wf(),
    ensures
        run(aio, inputs).wf(),
        (run(aio, inputs).held() + run_handed_out(aio, inputs)).to_multiset() == (aio.held()
            + run_taken(aio, inputs)).to_multiset(),
    decreases inputs.len(),
{
    if inputs.len() == 0 {
        assert(aio.held() + Seq::<AioCb<T>>::empty() =~= aio.held());
    } else {
        let next = aio.after(inputs[0]);
        let rest = inputs.skip(1);
        lemma_call_conserves(aio, inputs[0]);
        lemma_run_conserves(next, rest);
        let last = run(aio, inputs);
        let out0 = aio.handed_out(inputs[0]);
        let out1 = run_handed_out(next, rest);
        let in0 = aio.taken(inputs[0]);
        let in1 = run_taken(next, rest);
        let m_last = last.held().to_multiset();
        let m_next = next.held().to_multiset();
        let m_aio = aio.held().to_multiset();
        lemma_multiset_commutative(last.held(), out0 + out1);
        lemma_multiset_commutative(out0, out1);
        lemma_multiset_commutative(last.held(), out1);
        lemma_multiset_commutative(next.held(), in1);
        lemma_multiset_commutative(next.held(), out0);
        lemma_multiset_commutative(aio.held(), in0);
        lemma_multiset_commutative(aio.held(), in0 + in1);
        lemma_multiset_commutative(in0, in1);
        let o0 = out0.to_multiset();
        let o1 = out1.to_multiset();
        let i0 = in0.to_multiset();
        let i1 = in1.to_multiset();
        assert(m_last.add(o1) == m_next.add(i1));
        assert(m_next.add(o0) == m_aio.add(i0));
        assert(m_last.add(o0.add(o1)) =~= m_last.add(o1).add(o0));
        assert(m_next.add(i1).add(o0) =~= m_next.add(o0).add(i1));
        assert(m_aio.add(i0).add(i1) =~= m_aio.add(i0.add(i1)));
    }
}

/// An engine that started with nothing queued holds nothing exactly when the
/// requests that it has handed out for completion are the requests that it
/// has taken into its queues, each as often as it was taken.
pub proof fn lemma_drained_iff_all_completed<T>(engine: AioEngine, inputs: Seq<Input<T>>)
    ensures
        run(AioView::<T>::fresh(engine), inputs).incomplete() == 0 <==> run_handed_out(
            AioView::<T>::fresh(engine),
            inputs,
        ).to_multiset() == run_taken(AioView::<T>::fresh(engine), inputs).to_multiset(),
{
    let fresh = AioView::<T>::fresh(engine);
    let last = run(fresh, inputs);
    let out = run_handed_out(fresh, inputs);
    let taken = run_taken(fresh, inputs);
    lemma_run_conserves(fresh, inputs);
    assert(fresh.held() + taken =~= taken);
    lemma_multiset_commutative(last.held(), out);
    last.held().to_multiset_ensures();
    out.to_multiset_ensures();
    taken.to_multiset_ensures();
    if last.incomplete() == 0 {
        assert(last.held() =~= Seq::<AioCb<T>>::empty());
        assert(last.held() + out =~= out);
    } else {
        assert(last.held().len() > 0);
        assert(last.held().to_multiset().len() > 0);
        assert((last.held() + out).to_multiset().len() == last.held().to_multiset().len()
            + out.to_multiset().len());
    }
}

/// The requests that a run of calls puts into the queues carry tags that
/// grow from one to the next: the engine gives no tag twice. They start at the
/// tag that the engine would have given next before the run, and stay below the
/// one that it would give next after it.
pub proof fn lemma_run_tags<T>(aio: AioView<T>, inputs: Seq<Input<T>>)
    ensures
        aio.next_tag <= run(aio, inputs).next_tag,
        forall|i: int|
            0 <= i < run_taken(aio, inputs).len() ==> aio.next_tag <= (#[trigger] run_taken(
                aio,
                inputs,
            )[i]).user_data < run(aio, inputs).next_tag,
        forall|i: int, j: int|
            0 <= i < j < run_taken(aio, inputs).len() ==> (#[trigger] run_taken(
                aio,
                inputs,
            )[i]).user_data < (#[trigger] run_taken(aio, inputs)[j]).user_data,
    decreases inputs.len(),
{
    if inputs.len() > 0 {
        let next = aio.after(inputs[0]);
        let rest = inputs.skip(1);
        let first = aio.taken(inputs[0]);
        let later = run_taken(next, rest);
        lemma_run_tags(next, rest);
        assert(aio.next_tag <= next.next_tag);
        assert(first.len() <= 1);
        assert(first.len() == 1 ==> first[0].user_data == aio.next_tag && next.next_tag
            == aio.next_tag + 1);
        let all = run_taken(aio, inputs);
        assert(all == first + later);
        assert forall|i: int| 0 <= i < all.len() implies aio.next_tag <= (#[trigger] all[i]).user_data
            < run(aio, inputs).next_tag by {
            if i >= first.len() {
                assert(all[i] == later[i - first.len()]);
            }
        }
        assert forall|i: int, j: int| 0 <= i < j < all.len() implies (#[trigger] all[i]).user_data
            < (#[trigger] all[j]).user_data by {
            assert(all[j] == later[j - first.len()]);
            if i >= first.len() {
                assert(all[i] == later[i - first.len()]);
            }
        }
    }
}

/// Request `i` of a run of submissions, as it stands in the queues: under the
/// tag `i`.
pub open spec fn tagged<T>(cbs: Seq<AioCb<T>>, i: int) -> AioCb<T> {
    AioCb { user_data: i as u64, ..cbs[i] }
}

/// The engine after it has taken `cb` and, where the answer told to flush, a
/// backend that takes every batch in full has been offered the next batch.
pub open spec fn queued_and_flushed<T>(aio: AioView<T>, cb: AioCb<T>, mem: MemView) -> AioView<T> {
    let taken = aio.submit(cb, mem);
    if taken.incomplete() >= taken.max_events {
        taken.submitted(Some(taken.batch_len() as usize))
    } else {
        taken
    }
}

/// The batch that the backend is handed when `cb` is taken, if any: the
/// answer tells to flush, and there is a request to offer and room for it.
pub open spec fn flushed_batch<T>(aio: AioView<T>, cb: AioCb<T>, mem: MemView) -> Option<
    Seq<AioCb<T>>,
> {
    let taken = aio.submit(cb, mem);
    if taken.incomplete() >= taken.max_events && taken.batch_len() > 0 {
        Some(Seq::new(taken.batch_len() as nat, |j: int| taken.batch_at(j)))
    } else {
        None
    }
}

/// The engine after the requests `cbs` have been submitted one after the other
/// to a backend that takes every batch in full, with nothing reaped.
pub open spec fn saturate<T>(aio: AioView<T>, cbs: Seq<AioCb<T>>, mem: MemView) -> AioView<T>
    decreases cbs.len(),
{
    if cbs.len() == 0 {
        aio
    } else {
        queued_and_flushed(saturate(aio, cbs.drop_last(), mem), cbs.last(), mem)
    }
}

/// The batches that the backend has been handed on the way, in their order.
pub open spec fn saturate_batches<T>(aio: AioView<T>, cbs: Seq<AioCb<T>>, mem: MemView) -> Seq<
    Seq<AioCb<T>>,
>
    decreases cbs.len(),
{
    if cbs.len() == 0 {
        Seq::empty()
    } else {
        let before = saturate_batches(aio, cbs.drop_last(), mem);
        match flushed_batch(saturate(aio, cbs.drop_last(), mem), cbs.last(), mem) {
            Some(batch) => before.push(batch),
            None => before,
        }
    }
}

/// Saturation: requests for the backend are submitted one after the other to a
/// fresh engine whose backend takes every batch in full, and nothing is
/// reaped. While fewer requests have come than the backend holds, all wait and
/// the backend has been handed nothing. From then on the backend holds the
/// first requests, as many as it takes, which it was handed in one batch and in
/// the order in which they came; every later request waits, newest first.
/// Nothing is handed out for completion on the way, and the engine holds every
/// request that has come.
pub proof fn lemma_saturation<T>(engine: AioEngine, cbs: Seq<AioCb<T>>, mem: MemView)
    requires
        engine != AioEngine::Off,
        cbs.len() < u64::MAX,
        forall|i: int|
            0 <= i < cbs.len() ==> !(#[trigger] cbs[i]).misaligned() && backend_serves(
                promoted(cbs[i], mem),
            ),
    ensures
        ({
            let last = saturate(AioView::<T>::fresh(engine), cbs, mem);
            let batches = saturate_batches(AioView::<T>::fresh(engine), cbs, mem);
            let n = cbs.len() as int;
            &&& last.wf()
            &&& last.engine == engine
            &&& last.next_tag == n
            &&& last.incomplete() == n
            &&& n < MAX_EVENTS ==> {
                &&& last.inflight.len() == 0
                &&& last.pending == Seq::new(n as nat, |j: int| tagged(cbs, n - 1 - j))
                &&& batches.len() == 0
            }
            &&& n >= MAX_EVENTS ==> {
                &&& last.inflight == Seq::new(
                    MAX_EVENTS as nat,
                    |j: int| tagged(cbs, MAX_EVENTS - 1 - j),
                )
                &&& last.pending == Seq::new(
                    (n - MAX_EVENTS) as nat,
                    |j: int| tagged(cbs, n - 1 - j),
                )
                &&& batches == seq![Seq::new(MAX_EVENTS as nat, |j: int| tagged(cbs, j))]
            }
        }),
    decreases cbs.len(),
{
    let fresh = AioView::<T>::fresh(engine);
    let n = cbs.len() as int;
    if n > 0 {
        let earlier = cbs.drop_last();
        let cb = cbs.last();
        assert forall|i: int| 0 <= i < earlier.len() implies !(#[trigger] earlier[i]).misaligned()
            && backend_serves(promoted(earlier[i], mem)) by {
            assert(earlier[i] == cbs[i]);
        }
        lemma_saturation(engine, earlier, mem);
        let before = saturate(fresh, earlier, mem);
        let taken = before.submit(cb, mem);
        let last = saturate(fresh, cbs, mem);
        assert(before.queues(cb, mem));
        assert(taken.pending =~= seq![tagged(cbs, n - 1)] + before.pending);
        assert forall|j: int| 0 <= j < n - 1 implies tagged(earlier, j) == tagged(cbs, j) by {
            assert(earlier[j] == cbs[j]);
        }
        if n < MAX_EVENTS {
            assert(last == taken);
            assert(last.pending =~= Seq::new(n as nat, |j: int| tagged(cbs, n - 1 - j)));
        } else if n == MAX_EVENTS {
            let whole = Seq::new(n as nat, |j: int| tagged(cbs, n - 1 - j));
            assert(taken.pending =~= whole);
            assert(taken.batch_len() == MAX_EVENTS);
            assert(last == taken.accept(MAX_EVENTS as int));
            assert(last.pending =~= Seq::<AioCb<T>>::empty());
            assert(last.inflight =~= whole);
            let batch = Seq::new(MAX_EVENTS as nat, |j: int| taken.batch_at(j));
            assert(batch =~= Seq::new(MAX_EVENTS as nat, |j: int| tagged(cbs, j)));
            assert(saturate_batches(fresh, cbs, mem) =~= seq![batch]);
        } else {
            assert(taken.batch_len() == 0);
            assert(last == taken);
            assert(last.pending =~= Seq::new(
                (n - MAX_EVENTS) as nat,
                |j: int| tagged(cbs, n - 1 - j),
            ));
            assert(before.inflight =~= Seq::new(
                MAX_EVENTS as nat,
                |j: int| tagged(cbs, MAX_EVENTS - 1 - j),
            ));
            assert(Seq::new(MAX_EVENTS as nat, |j: int| tagged(earlier, j)) =~= Seq::new(
                MAX_EVENTS as nat,
                |j: int| tagged(cbs, j),
            ));
        }
    }
}

} // verus!
