//! What holds of the pool of providers as a whole.
use crate::attempt::{Action, Event, PendingCall, StreamAction, SubscribeAction, SubscribeEvent};
use crate::pool::Pool;
use crate::provider::WsOrIpc;
use alloy::transports::TransportError;
use std::sync::Arc;
use vstd::prelude::*;

verus! {

// ---------------------------------------------------------------------------------------
// Taking turns
// ---------------------------------------------------------------------------------------
/// The pool after `n` selections.
pub open spec fn after_selections<C>(pool: Pool<C>, n: nat) -> Pool<C>
    decreases n,
{
    if n == 0 {
        pool
    } else {
        after_selections(pool, (n - 1) as nat).after_selection()
    }
}

/// The ids that the next `n` selections yield.
pub open spec fn selections<C>(pool: Pool<C>, n: nat) -> Seq<usize> {
    Seq::new(n, |k: int| after_selections(pool, k as nat).selected())
}

/// How many of the next `n` selections yield the id.
pub open spec fn times_selected<C>(pool: Pool<C>, n: nat, id: usize) -> nat
    decreases n,
{
    if n == 0 {
        0
    } else {
        times_selected(pool, (n - 1) as nat, id) + if after_selections(
            pool,
            (n - 1) as nat,
        ).selected() == id {
            1nat
        } else {
            0nat
        }
    }
}

/// Selecting only advances the counter, and each selection is from the next place.
proof fn lemma_after_selections<C>(pool: Pool<C>, n: nat)
    requires
        pool.rotation.len() > 0,
        crate::turns::steady(pool.current, n + 1, pool.rotation.len()),
    ensures
        ({
            let later = after_selections(pool, n);
            let len = pool.rotation.len() as int;
            &&& later == (Pool { current: later.current, ..pool })
            &&& later.current as int % len == (pool.current + n) % len
            &&& pool.current + n <= usize::MAX ==> later.current == pool.current + n
        }),
    decreases n,
{
    if n > 0 {
        let m = (n - 1) as nat;
        lemma_after_selections(pool, m);
        crate::turns::lemma_next_place(
            after_selections(pool, m).current,
            pool.current as nat + m,
            pool.rotation.len(),
        );
    }
}

/// A selection is of the available provider whose turn it is: the number of selections so far
/// says whose it is, going round. It is counted, and changes nothing else.
pub proof fn law_selection_goes_by_the_count<C>(pool: Pool<C>)
    requires
        pool.wf(),
        pool.rotation.len() > 0,
    ensures
        pool.selected() == pool.rotation[pool.current as int % pool.rotation.len() as int],
        pool.available.contains_key(pool.selected()),
        pool.after_selection().current == (pool.current + 1) % (usize::MAX + 1),
        pool.after_selection().available == pool.available,
        pool.after_selection().rotation == pool.rotation,
        pool.after_selection().known == pool.known,
        pool.after_selection().unavailable == pool.unavailable,
        pool.after_selection().next_id == pool.next_id,
{
    pool.lemma_selected_is_available();
    crate::turns::lemma_counter(pool.current, 0);
}

/// Two selections in a row, with two or more providers available, are of different providers,
/// and the second is of the one that follows in the rotation.
pub proof fn law_turn_passes_on<C>(pool: Pool<C>)
    requires
        pool.wf(),
        pool.rotation.len() > 1,
        crate::turns::steady(pool.current, 2, pool.rotation.len()),
    ensures
        pool.after_selection().selected() != pool.selected(),
        pool.rotation.index_of(pool.after_selection().selected()) == (pool.rotation.index_of(
            pool.selected(),
        ) + 1) % pool.rotation.len() as int,
{
    let d = pool.rotation.len() as int;
    let here = pool.current as int % d;
    let next = pool.after_selection();
    let there = next.current as int % d;
    crate::turns::lemma_next_place(pool.current, pool.current as nat, pool.rotation.len());
    vstd::arithmetic::div_mod::lemma_add_mod_noop_right(1, pool.current as int, d);
    crate::turns::lemma_places_differ(
        pool.current as nat,
        (pool.current + 1) as nat,
        pool.rotation.len(),
    );
    assert(0 <= here < d && 0 <= there < d);
    assert(pool.rotation[here] == pool.selected());
    assert(pool.rotation[there] == next.selected());
    assert(pool.rotation.index_of(pool.selected()) == here);
    assert(pool.rotation.index_of(next.selected()) == there);
}

/// Round robin: as long as the pool does not change, every available provider is selected
/// exactly once in a round of as many selections as there are available providers, whoever
/// makes them.
pub proof fn law_one_turn_per_round<C>(pool: Pool<C>)
    requires
        pool.wf(),
        crate::turns::steady(pool.current, pool.rotation.len(), pool.rotation.len()),
    ensures
        selections(pool, pool.rotation.len()).no_duplicates(),
        forall|id: usize| #[trigger]
            selections(pool, pool.rotation.len()).contains(id) <==> pool.available.contains_key(id),
{
    let len = pool.rotation.len();
    let round = selections(pool, len);
    assert forall|k: int| 0 <= k < len implies ({
        let place = (pool.current + k) % (len as int);
        #[trigger] round[k] == pool.rotation[place] && 0 <= place < len
    }) by {
        lemma_after_selections(pool, k as nat);
    }
    assert forall|i: int, j: int| 0 <= i < j < len implies #[trigger] round[i]
        != #[trigger] round[j] by {
        crate::turns::lemma_places_differ(
            (pool.current + i) as nat,
            (pool.current + j) as nat,
            len,
        );
    }
    assert forall|id: usize| #[trigger] round.contains(id) <==> pool.available.contains_key(id) by {
        if round.contains(id) {
            let k = round.index_of(id);
            assert(round[k] == id);
            assert(pool.rotation.contains(id));
        }
        if pool.available.contains_key(id) {
            assert(pool.rotation.contains(id));
            let place = pool.rotation.index_of(id);
            let k = crate::turns::lemma_place_is_visited(pool.current as nat, place as nat, len);
            assert(round[k as int] == id);
        }
    }
}

/// Round robin: as long as the pool does not change, the turns repeat after a round of as
/// many selections as there are available providers.
pub proof fn law_rounds_repeat<C>(pool: Pool<C>, k: nat)
    requires
        pool.rotation.len() > 0,
        crate::turns::steady(pool.current, k + pool.rotation.len() + 1, pool.rotation.len()),
    ensures
        after_selections(pool, k + pool.rotation.len()).selected() == after_selections(
            pool,
            k,
        ).selected(),
{
    lemma_after_selections(pool, k);
    lemma_after_selections(pool, k + pool.rotation.len());
    crate::turns::lemma_place_recurs(pool.current as nat + k, pool.rotation.len());
}

/// Requests are distributed equitably: as long as the pool does not change, of any number of
/// selections every available provider gets its even share, or one more where the last round
/// is not whole.
pub proof fn law_equitable_distribution<C>(pool: Pool<C>, n: nat, id: usize)
    requires
        pool.wf(),
        pool.available.contains_key(id),
        crate::turns::steady(pool.current, n, pool.rotation.len()),
    ensures
        n / pool.rotation.len() <= times_selected(pool, n, id) <= n / pool.rotation.len() + 1,
        n % pool.rotation.len() == 0 ==> times_selected(pool, n, id) == n / pool.rotation.len(),
{
    assert(pool.rotation.contains(id));
    let place = pool.rotation.index_of(id) as nat;
    lemma_times_selected(pool, n, place);
    crate::turns::lemma_visits_are_even(pool.current as nat, n, place, pool.rotation.len());
}

/// A provider is selected as often as its place in the rotation is visited.
proof fn lemma_times_selected<C>(pool: Pool<C>, n: nat, place: nat)
    requires
        pool.wf(),
        place < pool.rotation.len(),
        crate::turns::steady(pool.current, n, pool.rotation.len()),
    ensures
        times_selected(pool, n, pool.rotation[place as int]) == crate::turns::visits(
            pool.current as nat,
            n,
            place,
            pool.rotation.len(),
        ),
    decreases n,
{
    if n > 0 {
        let m = (n - 1) as nat;
        let len = pool.rotation.len() as int;
        lemma_times_selected(pool, m, place);
        lemma_after_selections(pool, m);
        assert(0 <= (pool.current + m) % len && (pool.current + m) % len < len);
    }
}

// ---------------------------------------------------------------------------------------
// Requests
// ---------------------------------------------------------------------------------------
/// A request from its start to its end.
pub struct Run<C, T> {
    /// The pool when the request is over.
    pub pool: Pool<C>,
    /// The ids of the providers that were tried, in order.
    pub tried: Seq<usize>,
    /// The providers that the request was sent to, in order.
    pub sent: Seq<Arc<WsOrIpc<C>>>,
    /// What the request returned.
    pub result: Result<T, TransportError>,
}

impl<C, T> Run<C, T> {
    /// The ids of the providers that were tried and failed, in order: all but the last one
    /// if the request succeeded.
    pub open spec fn failed(self) -> Seq<usize> {
        if self.result is Ok {
            self.tried.drop_last()
        } else {
            self.tried
        }
    }
}

/// How many more steps a request takes at most.
pub open spec fn budget<C, T>(action: Action<C, T>) -> nat {
    match action {
        Action::Call(call) => call.remaining as nat + 1,
        _ => 0,
    }
}

/// A request ends, whatever other requests do to the pool meanwhile: it is sent at most as
/// often as there were available providers at its start, because every reply, and every lack
/// of one, leaves it fewer tries than before.
pub proof fn law_request_ends<C, T>(pool: Pool<C>, event: Event<C, T>, failure: Seq<char>)
    requires
        pool.rotation.len() <= usize::MAX,
    ensures
        event is Start ==> budget(pool.request_step(event, failure).1) <= pool.rotation.len(),
        event matches Event::Replied(call, _) ==> budget(pool.request_step(event, failure).1)
            < budget(Action::<C, T>::Call(call)),
        event matches Event::TimedOut(call) ==> budget(pool.request_step(event, failure).1)
            < budget(Action::<C, T>::Call(call)),
{
}

/// Whatever has happened, a call of a request is to a provider that is available at the time,
/// under the id by which it is registered, and not to the one that has just failed.
pub proof fn law_call_is_to_the_provider_with_its_id<C, T>(
    pool: Pool<C>,
    event: Event<C, T>,
    failure: Seq<char>,
)
    requires
        pool.wf(),
    ensures
        ({
            let (next, action) = pool.request_step(event, failure);
            action matches Action::Call(call) ==> {
                &&& pool.available.contains_key(call.id)
                &&& call.provider == pool.available[call.id]
                &&& pool.known.contains_key(call.id)
                &&& call.provider == pool.known[call.id]
                &&& next.available.contains_key(call.id)
                &&& call.provider == next.available[call.id]
                &&& event matches Event::Replied(failed, _) ==> call.id != failed.id
                &&& event matches Event::TimedOut(failed) ==> call.id != failed.id
            }
        }),
{
    match event {
        Event::Start => {
            if pool.rotation.len() > 0 {
                pool.lemma_selected_is_available();
            }
        },
        Event::Replied(failed, _) => {
            pool.lemma_moved_out_wf(failed.id);
            if pool.moved_out(failed.id).rotation.len() > 0 {
                pool.moved_out(failed.id).lemma_selected_is_available();
            }
        },
        Event::TimedOut(failed) => {
            pool.lemma_moved_out_wf(failed.id);
            if pool.moved_out(failed.id).rotation.len() > 0 {
                pool.moved_out(failed.id).lemma_selected_is_available();
            }
        },
    }
}

/// A request starts with a call to the available provider whose turn it is, and may go on to
/// each of the others; the selection is counted and nothing else changes. With no provider
/// available, it fails with the message after the retry delay and changes nothing.
pub proof fn law_request_starts_with_the_next_turn<C, T>(pool: Pool<C>, failure: Seq<char>)
    requires
        pool.wf(),
        pool.available.len() <= usize::MAX,
    ensures
        ({
            let (next, action) = pool.request_step(Event::<C, T>::Start, failure);
            let turn = pool.rotation[pool.current as int % pool.rotation.len() as int];
            &&& next.available == pool.available
            &&& next.rotation == pool.rotation
            &&& next.known == pool.known
            &&& next.unavailable == pool.unavailable
            &&& next.next_id == pool.next_id
            &&& pool.available.len() > 0 ==> {
                &&& action matches Action::Call(call) && call.id == turn && call.provider
                    == pool.available[turn] && call.remaining + 1 == pool.available.len()
                &&& pool.available.contains_key(turn)
                &&& next.current == (pool.current + 1) % (usize::MAX + 1)
            }
            &&& pool.available.len() == 0 ==> {
                &&& action == Action::<C, T>::FailAfter(
                    crate::provider::RETRY_DELAY_SECS,
                    crate::transport::local_usage_error(failure),
                )
                &&& next.current == pool.current
            }
        }),
{
    pool.lemma_rotation_len();
    crate::turns::lemma_counter(pool.current, 0);
    if pool.rotation.len() > 0 {
        pool.lemma_selected_is_available();
    }
}

/// An answer ends a request: it is returned as it is, and the pool stays as it is.
pub proof fn law_request_returns_the_answer<C, T>(
    pool: Pool<C>,
    call: PendingCall<C>,
    value: T,
    failure: Seq<char>,
)
    ensures
        pool.request_step(Event::Replied(call, Ok(value)), failure).0 == pool,
        pool.request_step(Event::Replied(call, Ok(value)), failure).1 == Action::<C, T>::Return(
            Ok(value),
        ),
{
}

/// A provider that fails a request, or does not reply in time, is set aside, and no other: it
/// is not available, has no turn, and is last on the unavailable list; the others keep their
/// providers and the order of their turns. As long as a try is left and another provider is
/// available, the request goes on to the one whose turn it is among them, with one try less,
/// and the selection is counted. Otherwise it fails with the message.
pub proof fn law_failed_provider_gives_way<C, T>(
    pool: Pool<C>,
    call: PendingCall<C>,
    event: Event<C, T>,
    failure: Seq<char>,
)
    requires
        pool.wf(),
        event == Event::<C, T>::TimedOut(call) || (event matches Event::Replied(failed, Err(_))
            && failed == call),
    ensures
        ({
            let (next, action) = pool.request_step(event, failure);
            let turn = next.rotation[pool.current as int % next.rotation.len() as int];
            &&& next.available == pool.available.remove(call.id)
            &&& next.rotation == pool.rotation.filter(|id: usize| id != call.id)
            &&& next.known == pool.known
            &&& next.unavailable == pool.unavailable.push(call.id)
            &&& next.next_id == pool.next_id
            &&& call.remaining > 0 && next.rotation.len() > 0 ==> {
                &&& action matches Action::Call(second) && second.id == turn && second.provider
                    == pool.available[turn] && second.remaining == call.remaining - 1
                &&& turn != call.id
                &&& pool.available.contains_key(turn)
                &&& next.current == (pool.current + 1) % (usize::MAX + 1)
            }
            &&& !(call.remaining > 0 && next.rotation.len() > 0) ==> {
                &&& action == Action::<C, T>::Return(
                    Err(crate::transport::local_usage_error(failure)),
                )
                &&& next.current == pool.current
            }
        }),
{
    let fewer = pool.moved_out(call.id);
    pool.lemma_moved_out_wf(call.id);
    crate::pool::lemma_remove_is_filter(pool.rotation, call.id);
    crate::turns::lemma_counter(pool.current, 0);
    if fewer.rotation.len() > 0 {
        fewer.lemma_selected_is_available();
    }
}

/// A subscription does what the request for its stream does, whether that is the first one,
/// one more after a stream has ended, or one that is under way: it asks the same provider, an
/// answer is the stream to consume, and the request's failure is its own.
pub proof fn law_subscription_follows_its_request<C, S>(
    pool: Pool<C>,
    event: SubscribeEvent<C, S>,
    request: Event<C, S>,
    failure: Seq<char>,
)
    requires
        event is Start || event is Ended ==> request is Start,
        event matches SubscribeEvent::Replied(call, reply) ==> request == Event::Replied(
            call,
            reply,
        ),
        event matches SubscribeEvent::TimedOut(call) ==> request == Event::<C, S>::TimedOut(call),
    ensures
        ({
            let (next, action) = pool.subscribe_step(event, failure);
            let (requested, underneath) = pool.request_step(request, failure);
            &&& next == requested
            &&& underneath matches Action::Call(call) ==> action == SubscribeAction::<C, S>::Call(
                call,
            )
            &&& underneath matches Action::Return(Ok(stream)) ==> action == SubscribeAction::<
                C,
                S,
            >::Consume(stream)
            &&& underneath matches Action::Return(Err(error)) ==> action == SubscribeAction::<
                C,
                S,
            >::Fail(error)
            &&& underneath matches Action::FailAfter(seconds, error) ==> action
                == SubscribeAction::<C, S>::FailAfter(seconds, error)
        }),
{
}

/// Whatever has happened, a subscription asks a provider that is available at the time, under
/// the id by which it is registered, and not the one that has just refused.
pub proof fn law_subscription_asks_the_provider_with_the_id<C, S>(
    pool: Pool<C>,
    event: SubscribeEvent<C, S>,
    failure: Seq<char>,
)
    requires
        pool.wf(),
    ensures
        ({
            let (next, action) = pool.subscribe_step(event, failure);
            action matches SubscribeAction::Call(call) ==> {
                &&& pool.available.contains_key(call.id)
                &&& call.provider == pool.available[call.id]
                &&& pool.known.contains_key(call.id)
                &&& call.provider == pool.known[call.id]
                &&& next.available.contains_key(call.id)
                &&& call.provider == next.available[call.id]
                &&& event matches SubscribeEvent::Replied(refused, _) ==> call.id != refused.id
                &&& event matches SubscribeEvent::TimedOut(refused) ==> call.id != refused.id
            }
        }),
{
    match event {
        SubscribeEvent::Start => law_call_is_to_the_provider_with_its_id(
            pool,
            Event::<C, S>::Start,
            failure,
        ),
        SubscribeEvent::Ended => law_call_is_to_the_provider_with_its_id(
            pool,
            Event::<C, S>::Start,
            failure,
        ),
        SubscribeEvent::Replied(refused, reply) => law_call_is_to_the_provider_with_its_id(
            pool,
            Event::Replied(refused, reply),
            failure,
        ),
        SubscribeEvent::TimedOut(refused) => law_call_is_to_the_provider_with_its_id(
            pool,
            Event::<C, S>::TimedOut(refused),
            failure,
        ),
    }
}

/// A step of a request, whatever other requests have done to the pool since the call was made.
/// An answer is returned and changes nothing. After a failure, or no reply in time, the
/// provider is set aside; the request goes on to another available provider exactly when a try
/// and such a provider are left, and otherwise fails with the message.
pub proof fn law_request_goes_on_whatever_others_do<C, T>(
    pool: Pool<C>,
    call: PendingCall<C>,
    outcome: Option<Result<T, TransportError>>,
    failure: Seq<char>,
)
    requires
        pool.wf(),
    ensures
        ({
            let (next, action) = pool.request_step(Event::of(call, outcome), failure);
            &&& next.wf()
            &&& crate::attempt::answers(outcome) ==> next == pool && action == Action::<
                C,
                T,
            >::Return(outcome->0)
            &&& !crate::attempt::answers(outcome) ==> {
                &&& !next.available.contains_key(call.id)
                &&& next.unavailable == pool.unavailable.push(call.id)
                &&& action is Call <==> call.remaining > 0 && exists|id: usize|
                    id != call.id && #[trigger] pool.available.contains_key(id)
                &&& action matches Action::Call(second) ==> {
                    &&& second.id != call.id
                    &&& pool.available.contains_key(second.id)
                    &&& second.provider == pool.available[second.id]
                    &&& second.remaining == call.remaining - 1
                    &&& next == pool.moved_out(call.id).after_selection()
                }
                &&& !(action is Call) ==> {
                    &&& next == pool.moved_out(call.id)
                    &&& action == Action::<C, T>::Return(
                        Err(crate::transport::local_usage_error(failure)),
                    )
                }
            }
        }),
{
    let fewer = pool.moved_out(call.id);
    pool.lemma_moved_out_wf(call.id);
    if fewer.rotation.len() > 0 {
        fewer.lemma_selected_is_available();
        assert(pool.available.contains_key(fewer.selected()));
    } else {
        assert forall|id: usize| id != call.id implies !(#[trigger] pool.available.contains_key(
            id,
        )) by {
            assert(!fewer.rotation.contains(id));
            assert(!fewer.available.contains_key(id));
        }
    }
}

/// Every item of a stream is handed to the subscriber, once and in order, before the
/// subscription does anything else; and when the stream ends, reading stops and, whatever the
/// pool is then, a new stream is requested as at the start.
pub proof fn law_items_are_delivered_in_order<C, S, R>(
    items: Seq<R>,
    pool: Pool<C>,
    failure: Seq<char>,
)
    ensures
        items.map_values(|item: R| Some(item)).push(None).map_values(
            |yielded: Option<R>| StreamAction::after(yielded),
        ) == items.map_values(|item: R| StreamAction::Deliver(item)).push(StreamAction::Stop),
        pool.subscribe_step(SubscribeEvent::<C, S>::Ended, failure) == pool.subscribe_step(
            SubscribeEvent::<C, S>::Start,
            failure,
        ),
{
}

/// A provider that does not reply in time is treated as one that replies with an error.
pub proof fn law_time_out_is_a_failure<C, T>(
    pool: Pool<C>,
    call: PendingCall<C>,
    error: TransportError,
    failure: Seq<char>,
)
    ensures
        pool.request_step(Event::<C, T>::TimedOut(call), failure) == pool.request_step(
            Event::<C, T>::Replied(call, Err(error)),
            failure,
        ),
        pool.subscribe_step(SubscribeEvent::<C, T>::TimedOut(call), failure) == pool.subscribe_step(
            SubscribeEvent::<C, T>::Replied(call, Err(error)),
            failure,
        ),
        !pool.request_step(Event::<C, T>::TimedOut(call), failure).0.available.contains_key(call.id),
        pool.request_step(Event::<C, T>::TimedOut(call), failure).0.unavailable
            == pool.unavailable.push(call.id),
{
}

/// The rest of a request that is to perform the action, where a provider that the request is
/// sent to under an id replies as `replies` says of the two, or not in time if that is `None`.
/// Nothing else changes the pool meanwhile.
pub open spec fn run_on<C, T>(
    pool: Pool<C>,
    action: Action<C, T>,
    replies: spec_fn(usize, Arc<WsOrIpc<C>>) -> Option<Result<T, TransportError>>,
    failure: Seq<char>,
) -> Run<C, T>
    decreases budget(action),
{
    match action {
        Action::Call(call) => {
            let (next, then_do) = pool.request_step(
                Event::of(call, replies(call.id, call.provider)),
                failure,
            );
            let rest = run_on(next, then_do, replies, failure);
            Run {
                tried: seq![call.id] + rest.tried,
                sent: seq![call.provider] + rest.sent,
                ..rest
            }
        },
        Action::Return(result) => Run { pool, tried: Seq::empty(), sent: Seq::empty(), result },
        Action::FailAfter(_, error) => Run {
            pool,
            tried: Seq::empty(),
            sent: Seq::empty(),
            result: Err(error),
        },
    }
}

/// A whole request, where a provider that it is sent to under an id replies as `replies` says of
/// the two, or not in time if that is `None`, and nothing else changes the pool from its start
/// to its end.
pub open spec fn run<C, T>(
    pool: Pool<C>,
    replies: spec_fn(usize, Arc<WsOrIpc<C>>) -> Option<Result<T, TransportError>>,
    failure: Seq<char>,
) -> Run<C, T> {
    let (next, action) = pool.request_step(Event::Start, failure);
    run_on(next, action, replies, failure)
}

/// What a request comes to, apart from the message it fails with.
spec fn settles<C, T>(
    pool: Pool<C>,
    replies: spec_fn(usize, Arc<WsOrIpc<C>>) -> Option<Result<T, TransportError>>,
    failure: Seq<char>,
    end: Run<C, T>,
) -> bool {
    &&& end.pool.wf()
    &&& end.pool.known == pool.known
    &&& end.pool.next_id == pool.next_id
    &&& end.pool.current == (pool.current + end.tried.len()) % (usize::MAX + 1)
    &&& end.tried.no_duplicates()
    &&& forall|i: int|
        0 <= i < end.tried.len() ==> pool.available.contains_key(#[trigger] end.tried[i])
    &&& forall|i: int|
        0 <= i < end.failed().len() ==> !crate::attempt::answers(
            replies(#[trigger] end.failed()[i], pool.available[end.failed()[i]]),
        )
    &&& end.sent.len() == end.tried.len()
    &&& forall|i: int|
        0 <= i < end.tried.len() ==> #[trigger] end.sent[i] == pool.available[end.tried[i]]
    &&& end.result is Ok ==> end.tried.len() > 0 && Some(end.result) == replies(
        end.tried.last(),
        pool.available[end.tried.last()],
    )
    &&& end.result is Err ==> {
        &&& end.result == Err::<T, TransportError>(crate::transport::local_usage_error(failure))
        &&& forall|id: usize| #[trigger]
            pool.available.contains_key(id) ==> end.tried.contains(id)
    }
    &&& end.pool.unavailable == pool.unavailable + end.failed()
    &&& forall|id: usize| #[trigger]
        end.pool.available.contains_key(id) <==> pool.available.contains_key(id)
            && !end.failed().contains(id)
}

/// A request that may try every available provider settles.
proof fn lemma_settles<C, T>(
    pool: Pool<C>,
    replies: spec_fn(usize, Arc<WsOrIpc<C>>) -> Option<Result<T, TransportError>>,
    failure: Seq<char>,
)
    requires
        pool.wf(),
        pool.rotation.len() <= usize::MAX,
    ensures
        ({
            let (next, action) = pool.next_attempt::<T>(pool.rotation.len(), failure);
            settles(pool, replies, failure, run_on(next, action, replies, failure))
        }),
    decreases pool.rotation.len(),
{
    let (next, action) = pool.next_attempt::<T>(pool.rotation.len(), failure);
    let end = run_on(next, action, replies, failure);
    crate::turns::lemma_counter(pool.current, 0);
    if pool.rotation.len() == 0 {
        assert forall|id: usize| !(#[trigger] pool.available.contains_key(id)) by {
            assert(!pool.rotation.contains(id));
        }
        assert(pool.unavailable + end.failed() =~= pool.unavailable);
    } else {
        let id = pool.selected();
        let call = PendingCall {
            id,
            provider: pool.available[id],
            remaining: (pool.rotation.len() - 1) as usize,
        };
        pool.lemma_selected_is_available();
        assert(action == Action::<C, T>::Call(call));
        let (second, then_do) = next.request_step(
            Event::of(call, replies(id, call.provider)),
            failure,
        );
        let rest = run_on(second, then_do, replies, failure);
        assert(end.tried == seq![id] + rest.tried);
        assert(end.tried[0] == id);
        assert(end.sent == seq![call.provider] + rest.sent);
        if crate::attempt::answers(replies(id, call.provider)) {
            assert(end.tried =~= seq![id]);
            assert(end.failed() =~= Seq::<usize>::empty());
            assert(pool.unavailable + end.failed() =~= pool.unavailable);
        } else {
            let fewer = next.moved_out(id);
            next.lemma_moved_out_wf(id);
            crate::pool::lemma_remove_id(next.rotation, id);
            assert(fewer.rotation.len() == call.remaining);
            lemma_settles(fewer, replies, failure);
            assert(settles(fewer, replies, failure, rest));
            crate::turns::lemma_counter(pool.current, rest.tried.len());
            assert(end.result == rest.result);
            assert(end.failed() =~= seq![id] + rest.failed());
            assert(end.pool.unavailable =~= pool.unavailable + end.failed());
            assert forall|i: int| 0 <= i < end.tried.len() implies pool.available.contains_key(
                #[trigger] end.tried[i],
            ) && (i > 0 ==> end.tried[i] != id) by {
                if i > 0 {
                    assert(end.tried[i] == rest.tried[i - 1]);
                    assert(fewer.available.contains_key(rest.tried[i - 1]));
                }
            }
            assert forall|i: int, j: int| 0 <= i < j < end.tried.len() implies end.tried[i]
                != end.tried[j] by {
                if i > 0 {
                    assert(rest.tried[i - 1] != rest.tried[j - 1]);
                }
            }
            assert forall|i: int| 0 <= i < end.failed().len() implies !crate::attempt::answers(
                replies(#[trigger] end.failed()[i], pool.available[end.failed()[i]]),
            ) by {
                if i > 0 {
                    assert(end.failed()[i] == rest.failed()[i - 1]);
                    assert(rest.failed()[i - 1] == rest.tried[i - 1]);
                    assert(end.tried[i] == rest.tried[i - 1]);
                }
            }
            assert forall|i: int| 0 <= i < end.tried.len() implies #[trigger] end.sent[i]
                == pool.available[end.tried[i]] by {
                if i > 0 {
                    assert(end.sent[i] == rest.sent[i - 1]);
                    assert(end.tried[i] == rest.tried[i - 1]);
                }
            }
            if rest.tried.len() > 0 {
                assert(end.tried.last() == rest.tried.last());
                assert(end.tried[end.tried.len() - 1] == end.tried.last());
            }
            assert forall|other: usize| #[trigger] end.failed().contains(other) <==> other == id
                || rest.failed().contains(other) by {
                if end.failed().contains(other) {
                    let k = end.failed().index_of(other);
                    if k > 0 {
                        assert(rest.failed()[k - 1] == other);
                    }
                }
                if rest.failed().contains(other) {
                    let k = rest.failed().index_of(other);
                    assert(end.failed()[k + 1] == other);
                }
                assert(end.failed()[0] == id);
            }
            if end.result is Err {
                assert forall|other: usize| #[trigger]
                    pool.available.contains_key(other) implies end.tried.contains(other) by {
                    if other != id {
                        assert(fewer.available.contains_key(other));
                        let k = rest.tried.index_of(other);
                        assert(end.tried[k + 1] == other);
                    }
                }
            }
        }
    }
}

/// A whole request settles, also when no provider is available.
proof fn lemma_run_settles<C, T>(
    pool: Pool<C>,
    replies: spec_fn(usize, Arc<WsOrIpc<C>>) -> Option<Result<T, TransportError>>,
    failure: Seq<char>,
)
    requires
        pool.wf(),
        pool.rotation.len() <= usize::MAX,
    ensures
        settles(pool, replies, failure, run(pool, replies, failure)),
{
    lemma_settles(pool, replies, failure);
}

/// As long as nothing else changes the pool, a request succeeds exactly when one of the
/// providers available at its start answers it, and then returns what the last provider it
/// tried answered.
pub proof fn law_request_succeeds_if_any_provider_answers<C, T>(
    pool: Pool<C>,
    replies: spec_fn(usize, Arc<WsOrIpc<C>>) -> Option<Result<T, TransportError>>,
    failure: Seq<char>,
)
    requires
        pool.wf(),
        pool.rotation.len() <= usize::MAX,
    ensures
        run(pool, replies, failure).result is Ok <==> exists|id: usize| #[trigger]
            pool.available.contains_key(id) && crate::attempt::answers(
                replies(id, pool.available[id]),
            ),
        run(pool, replies, failure).result is Ok ==> run(pool, replies, failure).tried.len() > 0
            && Some(run(pool, replies, failure).result) == replies(
            run(pool, replies, failure).tried.last(),
            run(pool, replies, failure).sent.last(),
        ),
{
    lemma_run_settles(pool, replies, failure);
    let end = run(pool, replies, failure);
    if end.result is Ok {
        assert(end.tried[end.tried.len() - 1] == end.tried.last());
        assert(pool.available.contains_key(end.tried.last()));
    } else {
        assert forall|id: usize| #[trigger]
            pool.available.contains_key(id) implies !crate::attempt::answers(
            replies(id, pool.available[id]),
        ) by {
            let k = end.tried.index_of(id);
            assert(end.failed()[k] == id);
        }
    }
}

/// As long as nothing else changes the pool, a request goes to providers that were available at
/// its start, to none of them twice, and to the next one only after the one before has failed
/// or run out of time. What is sent under an id is sent to the provider that has the id.
pub proof fn law_request_tries_no_provider_twice<C, T>(
    pool: Pool<C>,
    replies: spec_fn(usize, Arc<WsOrIpc<C>>) -> Option<Result<T, TransportError>>,
    failure: Seq<char>,
)
    requires
        pool.wf(),
        pool.rotation.len() <= usize::MAX,
    ensures
        run(pool, replies, failure).tried.no_duplicates(),
        forall|id: usize| #[trigger]
            run(pool, replies, failure).tried.contains(id) ==> pool.available.contains_key(id),
        forall|i: int|
            0 <= i < run(pool, replies, failure).tried.len() - 1 ==> !crate::attempt::answers(
                replies(
                    #[trigger] run(pool, replies, failure).tried[i],
                    run(pool, replies, failure).sent[i],
                ),
            ),
        run(pool, replies, failure).sent.len() == run(pool, replies, failure).tried.len(),
        forall|i: int|
            0 <= i < run(pool, replies, failure).tried.len() ==> #[trigger] run(
                pool,
                replies,
                failure,
            ).sent[i] == pool.available[run(pool, replies, failure).tried[i]],
        pool.rotation.len() > 0 ==> run(pool, replies, failure).tried.len() > 0 && run(
            pool,
            replies,
            failure,
        ).tried[0] == pool.rotation[pool.current as int % pool.rotation.len() as int],
{
    lemma_run_settles(pool, replies, failure);
    let end = run(pool, replies, failure);
    assert forall|id: usize| #[trigger]
        end.tried.contains(id) implies pool.available.contains_key(id) by {
        let k = end.tried.index_of(id);
        assert(end.tried[k] == id);
    }
    assert forall|i: int| 0 <= i < end.tried.len() - 1 implies !crate::attempt::answers(
        replies(#[trigger] end.tried[i], end.sent[i]),
    ) by {
        assert(end.failed()[i] == end.tried[i]);
    }
}

/// As long as nothing else changes the pool, a request leaves exactly the providers that failed
/// it unavailable: they are moved to the unavailable list in the order in which they were
/// tried, and all others stay available. It makes one selection for each provider it tried and
/// registers none.
pub proof fn law_request_moves_failed_providers_out<C, T>(
    pool: Pool<C>,
    replies: spec_fn(usize, Arc<WsOrIpc<C>>) -> Option<Result<T, TransportError>>,
    failure: Seq<char>,
)
    requires
        pool.wf(),
        pool.rotation.len() <= usize::MAX,
    ensures
        run(pool, replies, failure).pool.wf(),
        run(pool, replies, failure).pool.known == pool.known,
        run(pool, replies, failure).pool.next_id == pool.next_id,
        run(pool, replies, failure).pool.current == (pool.current + run(
            pool,
            replies,
            failure,
        ).tried.len()) % (usize::MAX + 1),
        run(pool, replies, failure).pool.unavailable == pool.unavailable + run(
            pool,
            replies,
            failure,
        ).failed(),
        forall|id: usize| #[trigger]
            run(pool, replies, failure).pool.available.contains_key(id)
                <==> pool.available.contains_key(id) && !run(
                pool,
                replies,
                failure,
            ).failed().contains(id),
        forall|id: usize| #[trigger]
            run(pool, replies, failure).pool.available.contains_key(id) ==> run(
                pool,
                replies,
                failure,
            ).pool.available[id] == pool.available[id],
{
    lemma_run_settles(pool, replies, failure);
    let end = run(pool, replies, failure);
    assert forall|id: usize| #[trigger] end.pool.available.contains_key(id) implies
        end.pool.available[id] == pool.available[id] by {
        assert(pool.available.contains_key(id));
    }
}

/// When every provider fails, and nothing else changes the pool, a request has tried each one
/// that was available exactly once, none is available any more, and the request fails with
/// the message.
pub proof fn law_request_fails_after_all_providers<C, T>(
    pool: Pool<C>,
    replies: spec_fn(usize, Arc<WsOrIpc<C>>) -> Option<Result<T, TransportError>>,
    failure: Seq<char>,
)
    requires
        pool.wf(),
        pool.rotation.len() <= usize::MAX,
        forall|id: usize| #[trigger]
            pool.available.contains_key(id) ==> !crate::attempt::answers(
                replies(id, pool.available[id]),
            ),
    ensures
        run(pool, replies, failure).result == Err::<T, TransportError>(
            crate::transport::local_usage_error(failure),
        ),
        run(pool, replies, failure).tried.no_duplicates(),
        forall|id: usize| #[trigger]
            run(pool, replies, failure).tried.contains(id) <==> pool.available.contains_key(id),
        run(pool, replies, failure).pool.available == Map::<usize, Arc<WsOrIpc<C>>>::empty(),
{
    lemma_run_settles(pool, replies, failure);
    law_request_succeeds_if_any_provider_answers(pool, replies, failure);
    law_request_tries_no_provider_twice(pool, replies, failure);
    let end = run(pool, replies, failure);
    assert forall|id: usize| !(#[trigger] end.pool.available.contains_key(id)) by {
        if pool.available.contains_key(id) {
            assert(end.tried.contains(id));
        }
    }
    assert(end.pool.available =~= Map::<usize, Arc<WsOrIpc<C>>>::empty());
}

/// A subscription's search for a stream.
pub struct Search<C, S> {
    /// The pool when the search is over.
    pub pool: Pool<C>,
    /// The ids of the providers that were asked, in order.
    pub tried: Seq<usize>,
    /// The providers that were asked, in order.
    pub sent: Seq<Arc<WsOrIpc<C>>>,
    /// What the search ends with.
    pub action: SubscribeAction<C, S>,
}

/// The rest of a subscription's search for a stream, where a provider that is asked under an id
/// replies as `replies` says of the two, or not in time if that is `None`.
pub open spec fn search_on<C, S>(
    pool: Pool<C>,
    action: SubscribeAction<C, S>,
    replies: spec_fn(usize, Arc<WsOrIpc<C>>) -> Option<Result<S, TransportError>>,
    failure: Seq<char>,
) -> Search<C, S>
    decreases
            match action {
                SubscribeAction::Call(call) => call.remaining as nat + 1,
                _ => 0,
            },
{
    match action {
        SubscribeAction::Call(call) => {
            let (next, then_do) = pool.subscribe_step(
                SubscribeEvent::of(call, replies(call.id, call.provider)),
                failure,
            );
            let rest = search_on(next, then_do, replies, failure);
            Search {
                tried: seq![call.id] + rest.tried,
                sent: seq![call.provider] + rest.sent,
                ..rest
            }
        },
        _ => Search { pool, tried: Seq::empty(), sent: Seq::empty(), action },
    }
}

/// What a subscription does at its start or when its stream has ended, up to the point where
/// it has a stream or has failed.
pub open spec fn search<C, S>(
    pool: Pool<C>,
    event: SubscribeEvent<C, S>,
    replies: spec_fn(usize, Arc<WsOrIpc<C>>) -> Option<Result<S, TransportError>>,
    failure: Seq<char>,
) -> Search<C, S> {
    let (next, action) = pool.subscribe_step(event, failure);
    search_on(next, action, replies, failure)
}

/// A search asks whom the request for a stream asks, and ends as it does.
proof fn lemma_search_on<C, S>(
    pool: Pool<C>,
    action: Action<C, S>,
    replies: spec_fn(usize, Arc<WsOrIpc<C>>) -> Option<Result<S, TransportError>>,
    failure: Seq<char>,
)
    ensures
        ({
            let end = run_on(pool, action, replies, failure);
            let found = search_on(pool, action.as_subscription(), replies, failure);
            &&& found.pool == end.pool
            &&& found.tried == end.tried
            &&& found.sent == end.sent
            &&& end.result matches Ok(stream) ==> found.action == SubscribeAction::<C, S>::Consume(
                stream,
            )
            &&& end.result matches Err(error) ==> found.action == SubscribeAction::<C, S>::Fail(
                error,
            ) || found.action == SubscribeAction::<C, S>::FailAfter(action->FailAfter_0, error)
                && action is FailAfter
        }),
    decreases budget(action),
{
    if let Action::Call(call) = action {
        let (next, then_do) = pool.request_step(
            Event::of(call, replies(call.id, call.provider)),
            failure,
        );
        assert(!(then_do is FailAfter));
        lemma_search_on(next, then_do, replies, failure);
    }
}

/// A subscription survives the failure of providers: at its start and whenever its stream
/// ends it gets a stream if any available provider grants one. It fails exactly when all
/// refuse or run out of time; if none is available at all, after the retry delay. Nothing
/// else changes the pool during the search.
pub proof fn law_subscription_fails_only_with_all_providers<C, S>(
    pool: Pool<C>,
    event: SubscribeEvent<C, S>,
    replies: spec_fn(usize, Arc<WsOrIpc<C>>) -> Option<Result<S, TransportError>>,
    failure: Seq<char>,
)
    requires
        pool.wf(),
        pool.rotation.len() <= usize::MAX,
        event is Start || event is Ended,
    ensures
        search(pool, event, replies, failure).action is Consume <==> exists|id: usize| #[trigger]
            pool.available.contains_key(id) && crate::attempt::answers(
                replies(id, pool.available[id]),
            ),
        search(pool, event, replies, failure).action matches SubscribeAction::Consume(stream)
            ==> exists|id: usize| #[trigger]
            pool.available.contains_key(id) && replies(id, pool.available[id]) == Some(
                Ok::<S, TransportError>(stream),
            ),
        pool.rotation.len() > 0 && !(search(pool, event, replies, failure).action is Consume)
            ==> search(pool, event, replies, failure).action == SubscribeAction::<C, S>::Fail(
            crate::transport::local_usage_error(failure),
        ),
        pool.rotation.len() == 0 ==> search(pool, event, replies, failure).action
            == SubscribeAction::<C, S>::FailAfter(
            crate::provider::RETRY_DELAY_SECS,
            crate::transport::local_usage_error(failure),
        ),
        search(pool, event, replies, failure).pool == run(pool, replies, failure).pool,
{
    let (next, action) = pool.request_step(Event::<C, S>::Start, failure);
    lemma_run_settles(pool, replies, failure);
    law_request_succeeds_if_any_provider_answers(pool, replies, failure);
    law_request_tries_no_provider_twice(pool, replies, failure);
    lemma_search_on(next, action, replies, failure);
    let end = run(pool, replies, failure);
    if end.result is Ok {
        assert(end.tried[end.tried.len() - 1] == end.tried.last());
        assert(end.tried.contains(end.tried.last()));
        assert(pool.available.contains_key(end.tried.last()));
    }
}

/// The search for a stream, at the start of a subscription or after the end of a stream, asks
/// available providers only and none of them twice, each under its own id, and the next one
/// only after the one before has refused or run out of time. The one whose turn it is is asked
/// first. A stream is that of the provider asked last; a search that fails has asked every
/// available provider. Exactly those that did not grant a stream are set aside, in the order in
/// which they were asked. Nothing else changes the pool during the search.
pub proof fn law_subscription_asks_each_provider_once<C, S>(
    pool: Pool<C>,
    event: SubscribeEvent<C, S>,
    replies: spec_fn(usize, Arc<WsOrIpc<C>>) -> Option<Result<S, TransportError>>,
    failure: Seq<char>,
)
    requires
        pool.wf(),
        pool.rotation.len() <= usize::MAX,
        event is Start || event is Ended,
    ensures
        ({
            let found = search(pool, event, replies, failure);
            let refused = if found.action is Consume {
                found.tried.drop_last()
            } else {
                found.tried
            };
            &&& found.tried.no_duplicates()
            &&& found.sent.len() == found.tried.len()
            &&& forall|i: int|
                0 <= i < found.tried.len() ==> pool.available.contains_key(
                    #[trigger] found.tried[i],
                ) && found.sent[i] == pool.available[found.tried[i]]
            &&& forall|i: int|
                0 <= i < refused.len() ==> !crate::attempt::answers(
                    replies(#[trigger] refused[i], found.sent[i]),
                )
            &&& pool.rotation.len() > 0 ==> found.tried.len() > 0 && found.tried[0]
                == pool.rotation[pool.current as int % pool.rotation.len() as int]
            &&& found.action matches SubscribeAction::Consume(stream) ==> found.tried.len() > 0
                && replies(found.tried.last(), found.sent.last()) == Some(
                Ok::<S, TransportError>(stream),
            )
            &&& !(found.action is Consume) ==> forall|id: usize| #[trigger]
                pool.available.contains_key(id) ==> found.tried.contains(id)
            &&& found.pool.unavailable == pool.unavailable + refused
            &&& forall|id: usize| #[trigger]
                found.pool.available.contains_key(id) <==> pool.available.contains_key(id)
                    && !refused.contains(id)
        }),
{
    let (next, action) = pool.request_step(Event::<C, S>::Start, failure);
    lemma_run_settles(pool, replies, failure);
    law_request_tries_no_provider_twice(pool, replies, failure);
    lemma_search_on(next, action, replies, failure);
    let end = run(pool, replies, failure);
    let found = search(pool, event, replies, failure);
    assert(found.tried == end.tried && found.sent == end.sent);
    assert(found.action is Consume <==> end.result is Ok);
    assert forall|i: int| 0 <= i < end.failed().len() implies !crate::attempt::answers(
        replies(#[trigger] end.failed()[i], end.sent[i]),
    ) by {
        assert(end.failed()[i] == end.tried[i]);
    }
}

// ---------------------------------------------------------------------------------------
// Many requests
// ---------------------------------------------------------------------------------------
/// What the providers reply to the request with number `k`.
pub open spec fn replies_to<C, T>(
    replies: spec_fn(nat, usize, Arc<WsOrIpc<C>>) -> Option<Result<T, TransportError>>,
    k: nat,
) -> spec_fn(usize, Arc<WsOrIpc<C>>) -> Option<Result<T, TransportError>> {
    |id: usize, provider: Arc<WsOrIpc<C>>| replies(k, id, provider)
}

/// The pool after `n` requests, one after the other.
pub open spec fn after_requests<C, T>(
    pool: Pool<C>,
    replies: spec_fn(nat, usize, Arc<WsOrIpc<C>>) -> Option<Result<T, TransportError>>,
    failure: Seq<char>,
    n: nat,
) -> Pool<C>
    decreases n,
{
    if n == 0 {
        pool
    } else {
        let m = (n - 1) as nat;
        run(after_requests(pool, replies, failure, m), replies_to(replies, m), failure).pool
    }
}

/// How many of `n` requests, one after the other, are sent to the provider.
pub open spec fn requests_sent<C, T>(
    pool: Pool<C>,
    replies: spec_fn(nat, usize, Arc<WsOrIpc<C>>) -> Option<Result<T, TransportError>>,
    failure: Seq<char>,
    n: nat,
    id: usize,
) -> nat
    decreases n,
{
    if n == 0 {
        0
    } else {
        let m = (n - 1) as nat;
        requests_sent(pool, replies, failure, m, id) + if run(
            after_requests(pool, replies, failure, m),
            replies_to(replies, m),
            failure,
        ).tried.contains(id) {
            1nat
        } else {
            0nat
        }
    }
}

/// The id that has the turn after `k` more selections.
pub open spec fn turn<C>(pool: Pool<C>, k: nat) -> usize {
    pool.rotation[crate::turns::place_after(pool.current, k, pool.rotation.len())]
}

/// The provider whose turn it is answers, for each of the next `n` requests.
pub open spec fn first_answers<C, T>(
    pool: Pool<C>,
    replies: spec_fn(nat, usize, Arc<WsOrIpc<C>>) -> Option<Result<T, TransportError>>,
    n: nat,
) -> bool {
    forall|k: nat|
        k < n ==> crate::attempt::answers(
            #[trigger] replies(k, turn(pool, k), pool.available[turn(pool, k)]),
        )
}

/// A request that the first provider answers is one selection.
proof fn lemma_answered_at_once<C, T>(
    pool: Pool<C>,
    replies: spec_fn(nat, usize, Arc<WsOrIpc<C>>) -> Option<Result<T, TransportError>>,
    failure: Seq<char>,
    n: nat,
    id: usize,
)
    requires
        pool.rotation.len() > 0,
        first_answers(pool, replies, n),
    ensures
        after_requests(pool, replies, failure, n) == after_selections(pool, n),
        after_selections(pool, n) == (Pool {
            current: ((pool.current + n) % (usize::MAX + 1)) as usize,
            ..pool
        }),
        after_selections(pool, n).selected() == turn(pool, n),
        requests_sent(pool, replies, failure, n, id) == times_selected(pool, n, id),
    decreases n,
{
    crate::turns::lemma_counter(pool.current, 0);
    if n > 0 {
        let m = (n - 1) as nat;
        lemma_answered_at_once(pool, replies, failure, m, id);
        let before = after_selections(pool, m);
        let (next, action) = before.request_step(Event::<C, T>::Start, failure);
        let first = before.selected();
        crate::turns::lemma_counted_on(pool.current, m, before.current);
        assert(crate::attempt::answers(replies(m, turn(pool, m), pool.available[turn(pool, m)])));
        reveal_with_fuel(run_on, 3);
        let end = run(before, replies_to(replies, m), failure);
        assert(action is Call && action->Call_0.id == first);
        assert(end.tried =~= seq![first]);
        assert(end.tried[0] == first);
        assert(end.pool == before.after_selection());
    }
}

/// Requests that are answered at once go round: the k-th of several requests, one after the
/// other, that the provider whose turn it is answers is sent to the available provider k places
/// on in the rotation, and to no other, under that provider's id, and returns what it answered.
pub proof fn law_requests_go_round<C, T>(
    pool: Pool<C>,
    replies: spec_fn(nat, usize, Arc<WsOrIpc<C>>) -> Option<Result<T, TransportError>>,
    failure: Seq<char>,
    k: nat,
)
    requires
        pool.rotation.len() > 0,
        first_answers(pool, replies, k + 1),
    ensures
        after_requests(pool, replies, failure, k) == after_selections(pool, k),
        ({
            let end = run(
                after_requests(pool, replies, failure, k),
                replies_to(replies, k),
                failure,
            );
            let place = ((pool.current + k) % (usize::MAX + 1)) % (pool.rotation.len() as int);
            let id = pool.rotation[place];
            &&& end.tried == seq![after_selections(pool, k).selected()]
            &&& end.tried == seq![id]
            &&& end.sent == seq![pool.available[id]]
            &&& Some(end.result) == replies(k, id, pool.available[id])
            &&& crate::turns::steady(pool.current, k + 1, pool.rotation.len()) ==> place == (
            pool.current + k) % pool.rotation.len() as int
        }),
{
    let before = after_selections(pool, k);
    let id = turn(pool, k);
    lemma_answered_at_once(pool, replies, failure, k, id);
    let (next, action) = before.request_step(Event::<C, T>::Start, failure);
    let end = run(before, replies_to(replies, k), failure);
    assert(crate::attempt::answers(replies(k, id, pool.available[id])));
    reveal_with_fuel(run_on, 3);
    assert(action is Call && action->Call_0.id == id);
    assert(end.tried =~= seq![id]);
    assert(end.sent =~= seq![pool.available[id]]);
    if crate::turns::steady(pool.current, k + 1, pool.rotation.len()) {
        crate::turns::lemma_place_after(pool.current, k, pool.rotation.len());
    }
}

/// Requests are distributed equitably: of any number of requests, one after the other, that
/// the first provider they go to answers, every available provider is sent its even share, or
/// one more where the last round is not whole.
pub proof fn law_requests_are_shared_evenly<C, T>(
    pool: Pool<C>,
    replies: spec_fn(nat, usize, Arc<WsOrIpc<C>>) -> Option<Result<T, TransportError>>,
    failure: Seq<char>,
    n: nat,
    id: usize,
)
    requires
        pool.wf(),
        pool.available.contains_key(id),
        first_answers(pool, replies, n),
        crate::turns::steady(pool.current, n, pool.rotation.len()),
    ensures
        n / pool.rotation.len() <= requests_sent(pool, replies, failure, n, id) <= n
            / pool.rotation.len() + 1,
        n % pool.rotation.len() == 0 ==> requests_sent(pool, replies, failure, n, id) == n
            / pool.rotation.len(),
{
    assert(pool.rotation.contains(id));
    lemma_answered_at_once(pool, replies, failure, n, id);
    law_equitable_distribution(pool, n, id);
}

} // verus!
