//! The mathematical model of a fixed list of providers that take turns, and what holds of it.
use crate::attempt::{Action, Event, PendingCall, SubscribeAction, SubscribeEvent};
use crate::provider::WsOrIpc;
use alloy::transports::TransportError;
use std::sync::Arc;
use vstd::prelude::*;

verus! {

/// The state of a balancer over a fixed list, as a mathematical value.
#[verifier::ext_equal]
pub struct RoundRobin<C> {
    /// The providers, in the order in which they take turns.
    pub providers: Seq<Arc<WsOrIpc<C>>>,
    /// How many selections have been made, modulo the size of `usize`.
    pub current: usize,
}

impl<C> RoundRobin<C> {
    /// The place of the provider whose turn it is.
    pub open spec fn selected(self) -> int
        recommends
            self.providers.len() > 0,
    {
        self.current as int % self.providers.len() as int
    }

    /// The state after one selection: the turn passes on.
    pub open spec fn after_selection(self) -> RoundRobin<C> {
        RoundRobin { current: crate::pool::successor(self.current), ..self }
    }

    /// The next step of a request that may still try `remaining` providers.
    pub open spec fn next_attempt<T>(self, remaining: nat, failure: Seq<char>) -> (
        RoundRobin<C>,
        Action<C, T>,
    ) {
        if remaining == 0 || self.providers.len() == 0 {
            (self, Action::Return(Err(crate::transport::local_usage_error(failure))))
        } else {
            (
                self.after_selection(),
                Action::Call(
                    PendingCall {
                        id: self.selected() as usize,
                        provider: self.providers[self.selected()],
                        remaining: (remaining - 1) as usize,
                    },
                ),
            )
        }
    }

    /// One step of a request, which may try as many times as there are providers. An answer
    /// ends it; after a failure, or no reply in time, the next provider is tried.
    pub open spec fn request_step<T>(self, event: Event<C, T>, failure: Seq<char>) -> (
        RoundRobin<C>,
        Action<C, T>,
    ) {
        match event {
            Event::Start => self.next_attempt(self.providers.len(), failure),
            Event::Replied(_, Ok(value)) => (self, Action::Return(Ok(value))),
            Event::Replied(call, Err(_)) => self.next_attempt(call.remaining as nat, failure),
            Event::TimedOut(call) => self.next_attempt(call.remaining as nat, failure),
        }
    }

    /// One step of a subscription, which requests a stream, consumes it, and requests another
    /// one when it has ended.
    pub open spec fn subscribe_step<S>(self, event: SubscribeEvent<C, S>, failure: Seq<char>) -> (
        RoundRobin<C>,
        SubscribeAction<C, S>,
    ) {
        let (next, action) = self.request_step(event.as_request(), failure);
        (next, action.as_subscription())
    }
}

/// The state after `n` selections.
pub open spec fn after_selections<C>(state: RoundRobin<C>, n: nat) -> RoundRobin<C>
    decreases n,
{
    if n == 0 {
        state
    } else {
        after_selections(state, (n - 1) as nat).after_selection()
    }
}

/// How many of the next `n` selections yield the provider at the place.
pub open spec fn times_selected<C>(state: RoundRobin<C>, n: nat, place: int) -> nat
    decreases n,
{
    if n == 0 {
        0
    } else {
        times_selected(state, (n - 1) as nat, place) + if after_selections(
            state,
            (n - 1) as nat,
        ).selected() == place {
            1nat
        } else {
            0nat
        }
    }
}

/// Selecting only advances the counter, and each selection is from the next place.
proof fn lemma_after_selections<C>(state: RoundRobin<C>, n: nat)
    requires
        state.providers.len() > 0,
        crate::turns::steady(state.current, n + 1, state.providers.len()),
    ensures
        ({
            let later = after_selections(state, n);
            &&& later.providers == state.providers
            &&& later.selected() == (state.current + n) % state.providers.len() as int
            &&& state.current + n <= usize::MAX ==> later.current == state.current + n
        }),
    decreases n,
{
    if n > 0 {
        let m = (n - 1) as nat;
        lemma_after_selections(state, m);
        crate::turns::lemma_next_place(
            after_selections(state, m).current,
            state.current as nat + m,
            state.providers.len(),
        );
    }
}

/// Round robin: the k-th selection from now on yields the provider k places on, going round.
pub proof fn law_turns_go_round<C>(state: RoundRobin<C>, k: nat)
    requires
        state.providers.len() > 0,
        crate::turns::steady(state.current, k + 1, state.providers.len()),
    ensures
        after_selections(state, k).selected() == (state.selected() + k)
            % state.providers.len() as int,
{
    lemma_after_selections(state, k);
    vstd::arithmetic::div_mod::lemma_add_mod_noop_right(
        k as int,
        state.current as int,
        state.providers.len() as int,
    );
}

/// A selection is of the provider whose turn it is: the number of selections so far says whose
/// it is, going round the list. It is counted, and changes nothing else.
pub proof fn law_selection_goes_by_the_count<C>(state: RoundRobin<C>)
    requires
        state.providers.len() > 0,
    ensures
        state.selected() == state.current as int % state.providers.len() as int,
        0 <= state.selected() < state.providers.len(),
        state.after_selection().providers == state.providers,
        state.after_selection().current == (state.current + 1) % (usize::MAX + 1),
{
    crate::turns::lemma_counter(state.current, 0);
}

/// Requests are distributed equitably: of any number of selections every provider gets its
/// even share, or one more where the last round is not whole.
pub proof fn law_equitable_distribution<C>(state: RoundRobin<C>, n: nat, place: nat)
    requires
        place < state.providers.len(),
        crate::turns::steady(state.current, n, state.providers.len()),
    ensures
        n / state.providers.len() <= times_selected(state, n, place as int) <= n
            / state.providers.len() + 1,
        n % state.providers.len() == 0 ==> times_selected(state, n, place as int) == n
            / state.providers.len(),
{
    lemma_times_selected(state, n, place);
    crate::turns::lemma_visits_are_even(state.current as nat, n, place, state.providers.len());
}

/// A provider is selected as often as its place is visited.
proof fn lemma_times_selected<C>(state: RoundRobin<C>, n: nat, place: nat)
    requires
        place < state.providers.len(),
        crate::turns::steady(state.current, n, state.providers.len()),
    ensures
        times_selected(state, n, place as int) == crate::turns::visits(
            state.current as nat,
            n,
            place,
            state.providers.len(),
        ),
    decreases n,
{
    if n > 0 {
        lemma_times_selected(state, (n - 1) as nat, place);
        lemma_after_selections(state, (n - 1) as nat);
    }
}

/// A request from its start to its end.
pub struct Run<C, T> {
    /// The state when the request is over.
    pub state: RoundRobin<C>,
    /// The places of the providers that were tried, in order.
    pub tried: Seq<usize>,
    /// The providers that the request was sent to, in order.
    pub sent: Seq<Arc<WsOrIpc<C>>>,
    /// What the request returned.
    pub result: Result<T, TransportError>,
}

/// The rest of a request that is to perform the action, where a provider that the request is
/// sent to under a place replies as `replies` says of the two, or not in time if that is `None`.
/// Nothing else selects a provider meanwhile.
pub open spec fn run_on<C, T>(
    state: RoundRobin<C>,
    action: Action<C, T>,
    replies: spec_fn(usize, Arc<WsOrIpc<C>>) -> Option<Result<T, TransportError>>,
    failure: Seq<char>,
) -> Run<C, T>
    decreases crate::laws::budget(action),
{
    match action {
        Action::Call(call) => {
            let (next, then_do) = state.request_step(
                Event::of(call, replies(call.id, call.provider)),
                failure,
            );
            let rest = run_on(next, then_do, replies, failure);
            Run {
                tried: seq![call.id] + rest.tried,
                sent: seq![call.provider] + rest.sent,
                ..rest
            }
        },
        Action::Return(result) => Run { state, tried: Seq::empty(), sent: Seq::empty(), result },
        Action::FailAfter(_, error) => Run {
            state,
            tried: Seq::empty(),
            sent: Seq::empty(),
            result: Err(error),
        },
    }
}

/// A whole request, where a provider that it is sent to under a place replies as `replies` says
/// of the two, or not in time if that is `None`, and nothing else selects a provider from its
/// start to its end.
pub open spec fn run<C, T>(
    state: RoundRobin<C>,
    replies: spec_fn(usize, Arc<WsOrIpc<C>>) -> Option<Result<T, TransportError>>,
    failure: Seq<char>,
) -> Run<C, T> {
    let (next, action) = state.request_step(Event::Start, failure);
    run_on(next, action, replies, failure)
}

/// A request ends, whatever else selects providers meanwhile: it is sent at most as often as
/// there are providers, because every reply, and every lack of one, leaves it fewer tries than
/// before.
pub proof fn law_request_ends<C, T>(state: RoundRobin<C>, event: Event<C, T>, failure: Seq<char>)
    requires
        state.providers.len() <= usize::MAX,
    ensures
        event is Start ==> crate::laws::budget(state.request_step(event, failure).1)
            <= state.providers.len(),
        event matches Event::Replied(call, _) ==> crate::laws::budget(
            state.request_step(event, failure).1,
        ) < crate::laws::budget(Action::<C, T>::Call(call)),
        event matches Event::TimedOut(call) ==> crate::laws::budget(
            state.request_step(event, failure).1,
        ) < crate::laws::budget(Action::<C, T>::Call(call)),
{
}

/// A call of a request, be it the first or one after a failure, is to the provider of the list
/// whose turn it is, under its place; and so is what a subscription asks, be it at its start,
/// after the end of a stream, or after a refusal. The list stays as it is.
pub proof fn law_call_is_to_the_provider_at_its_place<C, T>(
    state: RoundRobin<C>,
    event: Event<C, T>,
    subscription: SubscribeEvent<C, T>,
    failure: Seq<char>,
)
    requires
        state.providers.len() <= usize::MAX,
    ensures
        ({
            let (next, action) = state.request_step(event, failure);
            let place = state.current as int % state.providers.len() as int;
            &&& next.providers == state.providers
            &&& action matches Action::Call(call) ==> call.id == place && 0 <= place
                < state.providers.len() && call.provider == state.providers[place]
                && call.provider == state.providers[call.id as int]
        }),
        ({
            let (next, action) = state.subscribe_step(subscription, failure);
            let place = state.current as int % state.providers.len() as int;
            &&& next.providers == state.providers
            &&& action matches SubscribeAction::Call(call) ==> call.id == place && 0 <= place
                < state.providers.len() && call.provider == state.providers[place]
                && call.provider == state.providers[call.id as int]
        }),
{
    if state.providers.len() > 0 {
        assert(0 <= state.selected() < state.providers.len());
    }
}

/// A request starts with a call to the provider whose turn it is, and may go on to each of the
/// others. The selection is counted and nothing else changes. Over an empty list it fails with
/// the message at once.
pub proof fn law_request_starts_with_the_next_turn<C, T>(state: RoundRobin<C>, failure: Seq<char>)
    requires
        state.providers.len() <= usize::MAX,
    ensures
        ({
            let (next, action) = state.request_step(Event::<C, T>::Start, failure);
            let place = state.current as int % state.providers.len() as int;
            &&& next.providers == state.providers
            &&& state.providers.len() > 0 ==> {
                &&& action matches Action::Call(call) && call.id == place && call.provider
                    == state.providers[place] && call.remaining + 1 == state.providers.len()
                &&& next.current == (state.current + 1) % (usize::MAX + 1)
            }
            &&& state.providers.len() == 0 ==> {
                &&& action == Action::<C, T>::Return(
                    Err(crate::transport::local_usage_error(failure)),
                )
                &&& next.current == state.current
            }
        }),
{
    crate::turns::lemma_counter(state.current, 0);
    if state.providers.len() > 0 {
        assert(0 <= state.selected() < state.providers.len());
    }
}

/// An answer ends a request: it is returned as it is, and nothing changes.
pub proof fn law_request_returns_the_answer<C, T>(
    state: RoundRobin<C>,
    call: PendingCall<C>,
    value: T,
    failure: Seq<char>,
)
    ensures
        state.request_step(Event::Replied(call, Ok(value)), failure).0 == state,
        state.request_step(Event::Replied(call, Ok(value)), failure).1 == Action::<C, T>::Return(
            Ok(value),
        ),
{
}

/// When a provider fails a request, or does not reply in time, the request goes on to the
/// provider whose turn it is, with one try less, and the selection is counted; and when no try
/// or no provider is left it fails with the message. No provider leaves the list.
pub proof fn law_failed_provider_gives_way<C, T>(
    state: RoundRobin<C>,
    call: PendingCall<C>,
    event: Event<C, T>,
    failure: Seq<char>,
)
    requires
        state.providers.len() <= usize::MAX,
        event == Event::<C, T>::TimedOut(call) || (event matches Event::Replied(failed, Err(_))
            && failed == call),
    ensures
        ({
            let (next, action) = state.request_step(event, failure);
            let place = state.current as int % state.providers.len() as int;
            &&& next.providers == state.providers
            &&& call.remaining > 0 && state.providers.len() > 0 ==> {
                &&& action matches Action::Call(second) && second.id == place && second.provider
                    == state.providers[place] && second.remaining == call.remaining - 1
                &&& next.current == (state.current + 1) % (usize::MAX + 1)
            }
            &&& call.remaining == 0 || state.providers.len() == 0 ==> {
                &&& action == Action::<C, T>::Return(
                    Err(crate::transport::local_usage_error(failure)),
                )
                &&& next.current == state.current
            }
        }),
{
    crate::turns::lemma_counter(state.current, 0);
    if state.providers.len() > 0 {
        assert(0 <= state.selected() < state.providers.len());
    }
}

/// A subscription does what the request for its stream does, whether that is the first one,
/// one more after a stream has ended, or one that is under way: it asks the same provider, an
/// answer is the stream to consume, and the request's failure is its own.
pub proof fn law_subscription_follows_its_request<C, S>(
    state: RoundRobin<C>,
    event: SubscribeEvent<C, S>,
    request: Event<C, S>,
    failure: Seq<char>,
)
    requires
        event is Start || event is Ended ==> request is Start,
        event matches SubscribeEvent::Replied(call, reply) ==> request == Event::Replied(
            call,
            reply,
        ),
        event matches SubscribeEvent::TimedOut(call) ==> request == Event::<C, S>::TimedOut(call),
    ensures
        ({
            let (next, action) = state.subscribe_step(event, failure);
            let (requested, underneath) = state.request_step(request, failure);
            &&& next == requested
            &&& underneath matches Action::Call(call) ==> action == SubscribeAction::<C, S>::Call(
                call,
            )
            &&& underneath matches Action::Return(Ok(stream)) ==> action == SubscribeAction::<
                C,
                S,
            >::Consume(stream)
            &&& underneath matches Action::Return(Err(error)) ==> action == SubscribeAction::<
                C,
                S,
            >::Fail(error)
            &&& !(underneath is FailAfter)
        }),
{
}

/// A step of a request, whatever else has selected providers since the call was made. An answer
/// is returned and changes nothing. After a failure, or no reply in time, the request goes to
/// the provider whose turn it is exactly when a try is left, and otherwise fails with the
/// message.
pub proof fn law_request_goes_on_whatever_others_do<C, T>(
    state: RoundRobin<C>,
    call: PendingCall<C>,
    outcome: Option<Result<T, TransportError>>,
    failure: Seq<char>,
)
    requires
        0 < state.providers.len() <= usize::MAX,
    ensures
        ({
            let (next, action) = state.request_step(Event::of(call, outcome), failure);
            &&& crate::attempt::answers(outcome) ==> next == state && action == Action::<
                C,
                T,
            >::Return(outcome->0)
            &&& !crate::attempt::answers(outcome) ==> {
                &&& action is Call <==> call.remaining > 0
                &&& action matches Action::Call(second) ==> {
                    &&& second.id == state.selected()
                    &&& second.provider == state.providers[state.selected()]
                    &&& second.remaining == call.remaining - 1
                    &&& next == state.after_selection()
                }
                &&& !(action is Call) ==> {
                    &&& next == state
                    &&& action == Action::<C, T>::Return(
                        Err(crate::transport::local_usage_error(failure)),
                    )
                }
            }
        }),
{
    assert(0 <= state.selected() < state.providers.len());
}

/// A provider that does not reply in time is treated as one that replies with an error.
pub proof fn law_time_out_is_a_failure<C, T>(
    state: RoundRobin<C>,
    call: PendingCall<C>,
    error: TransportError,
    failure: Seq<char>,
)
    ensures
        state.request_step(Event::<C, T>::TimedOut(call), failure) == state.request_step(
            Event::<C, T>::Replied(call, Err(error)),
            failure,
        ),
        state.subscribe_step(SubscribeEvent::<C, T>::TimedOut(call), failure)
            == state.subscribe_step(SubscribeEvent::<C, T>::Replied(call, Err(error)), failure),
{
}

/// What is so many places on from the next turn is one more on from this one.
proof fn lemma_place_after_next<C>(state: RoundRobin<C>, k: nat)
    requires
        state.providers.len() > 0,
        state.current < usize::MAX || (usize::MAX + 1) % (state.providers.len() as int) == 0,
    ensures
        (state.after_selection().current + k) % state.providers.len() as int == (state.current + 1
            + k) % state.providers.len() as int,
{
    let d = state.providers.len() as int;
    let next = state.after_selection().current as int;
    crate::turns::lemma_next_place(state.current, state.current as nat, state.providers.len());
    vstd::arithmetic::div_mod::lemma_add_mod_noop_right(k as int, next, d);
    vstd::arithmetic::div_mod::lemma_add_mod_noop_right(k as int, state.current + 1, d);
}

/// A request with so many tries left goes round from the provider whose turn it is until one
/// answers.
proof fn lemma_goes_round<C, T>(
    state: RoundRobin<C>,
    remaining: nat,
    replies: spec_fn(usize, Arc<WsOrIpc<C>>) -> Option<Result<T, TransportError>>,
    failure: Seq<char>,
)
    requires
        0 < state.providers.len() <= usize::MAX,
        remaining <= usize::MAX,
        crate::turns::steady(state.current, remaining, state.providers.len()),
    ensures
        ({
            let (next, action) = state.next_attempt::<T>(remaining, failure);
            let end = run_on(next, action, replies, failure);
            let len = state.providers.len() as int;
            &&& end.tried.len() <= remaining
            &&& forall|k: int|
                0 <= k < end.tried.len() ==> #[trigger] end.tried[k] == (state.current + k) % len
            &&& forall|k: int|
                0 <= k < end.tried.len() - 1 ==> !crate::attempt::answers(
                    replies(#[trigger] end.tried[k], end.sent[k]),
                )
            &&& end.sent.len() == end.tried.len()
            &&& forall|k: int|
                0 <= k < end.tried.len() ==> #[trigger] end.sent[k]
                    == state.providers[end.tried[k] as int]
            &&& end.result is Ok ==> end.tried.len() > 0 && Some(end.result) == replies(
                end.tried.last(),
                end.sent.last(),
            )
            &&& end.result is Err ==> {
                &&& end.tried.len() == remaining
                &&& end.result == Err::<T, TransportError>(
                    crate::transport::local_usage_error(failure),
                )
                &&& forall|k: int|
                    0 <= k < end.tried.len() ==> !crate::attempt::answers(
                        replies(#[trigger] end.tried[k], end.sent[k]),
                    )
            }
            &&& end.state.providers == state.providers
            &&& end.state.current == (state.current + end.tried.len()) % (usize::MAX + 1)
        }),
    decreases remaining,
{
    crate::turns::lemma_counter(state.current, 0);
    if remaining > 0 {
        let (next, action) = state.next_attempt::<T>(remaining, failure);
        let end = run_on(next, action, replies, failure);
        let id = state.selected() as usize;
        let call = PendingCall {
            id,
            provider: state.providers[state.selected()],
            remaining: (remaining - 1) as usize,
        };
        assert(action == Action::<C, T>::Call(call));
        let (second, then_do) = next.request_step(
            Event::of(call, replies(id, call.provider)),
            failure,
        );
        let rest = run_on(second, then_do, replies, failure);
        assert(end.tried == seq![id] + rest.tried);
        assert(id == state.current as int % state.providers.len() as int);
        assert(end.sent == seq![call.provider] + rest.sent);
        if crate::attempt::answers(replies(id, call.provider)) {
            assert(end.tried =~= seq![id]);
            assert(end.sent =~= seq![call.provider]);
        } else if remaining > 1 {
            lemma_goes_round(next, (remaining - 1) as nat, replies, failure);
            crate::turns::lemma_counter(state.current, rest.tried.len());
            assert forall|k: int| 0 <= k < end.tried.len() implies #[trigger] end.tried[k] == (
            state.current + k) % (state.providers.len() as int) by {
                if k > 0 {
                    assert(end.tried[k] == rest.tried[k - 1]);
                    lemma_place_after_next(state, (k - 1) as nat);
                }
            }
            assert forall|k: int| 0 <= k < end.tried.len() implies #[trigger] end.sent[k]
                == state.providers[end.tried[k] as int] by {
                if k > 0 {
                    assert(end.sent[k] == rest.sent[k - 1]);
                    assert(end.tried[k] == rest.tried[k - 1]);
                }
            }
            assert forall|k: int|
                0 <= k < end.tried.len() && (k < end.tried.len() - 1 || end.result is Err) implies
                !crate::attempt::answers(replies(#[trigger] end.tried[k], end.sent[k])) by {
                if k > 0 {
                    assert(end.sent[k] == rest.sent[k - 1]);
                    assert(end.tried[k] == rest.tried[k - 1]);
                }
            }
            if rest.tried.len() > 0 {
                assert(end.tried.last() == rest.tried.last());
                assert(end.sent.last() == rest.sent.last());
            }
        } else {
            assert(end.tried =~= seq![id]);
            assert(end.sent =~= seq![call.provider]);
        }
    }
}

/// A request goes to the providers of the list in turn, to none of them twice, and to the next
/// one only after the one before has failed or run out of time. It returns what the last one it
/// tried answered, or fails with the message after it has tried them all. It makes one selection
/// for each try and changes nothing else. Nothing else selects a provider meanwhile.
pub proof fn law_request_goes_round_once<C, T>(
    state: RoundRobin<C>,
    replies: spec_fn(usize, Arc<WsOrIpc<C>>) -> Option<Result<T, TransportError>>,
    failure: Seq<char>,
)
    requires
        0 < state.providers.len() <= usize::MAX,
        crate::turns::steady(state.current, state.providers.len(), state.providers.len()),
    ensures
        run(state, replies, failure).tried.len() <= state.providers.len(),
        run(state, replies, failure).tried.no_duplicates(),
        forall|k: int|
            0 <= k < run(state, replies, failure).tried.len() ==> #[trigger] run(
                state,
                replies,
                failure,
            ).tried[k] == (state.current + k) % state.providers.len() as int,
        forall|k: int|
            0 <= k < run(state, replies, failure).tried.len() - 1 ==> !crate::attempt::answers(
                replies(
                    #[trigger] run(state, replies, failure).tried[k],
                    run(state, replies, failure).sent[k],
                ),
            ),
        run(state, replies, failure).sent.len() == run(state, replies, failure).tried.len(),
        forall|k: int|
            0 <= k < run(state, replies, failure).sent.len() ==> #[trigger] run(
                state,
                replies,
                failure,
            ).sent[k] == state.providers[(state.current + k) % state.providers.len() as int],
        run(state, replies, failure).result is Ok ==> run(state, replies, failure).tried.len() > 0
            && Some(run(state, replies, failure).result) == replies(
            run(state, replies, failure).tried.last(),
            run(state, replies, failure).sent.last(),
        ),
        run(state, replies, failure).state.providers == state.providers,
        run(state, replies, failure).state.current == (state.current + run(
            state,
            replies,
            failure,
        ).tried.len()) % (usize::MAX + 1),
        run(state, replies, failure).result is Err ==> run(state, replies, failure).result == Err::<
            T,
            TransportError,
        >(crate::transport::local_usage_error(failure)) && run(
            state,
            replies,
            failure,
        ).tried.len() == state.providers.len(),
{
    let len = state.providers.len();
    let end = run(state, replies, failure);
    lemma_goes_round(state, len, replies, failure);
    assert forall|i: int, j: int| 0 <= i < j < end.tried.len() implies end.tried[i]
        != end.tried[j] by {
        crate::turns::lemma_places_differ(
            (state.current + i) as nat,
            (state.current + j) as nat,
            len,
        );
    }
}

/// As long as nothing else selects a provider meanwhile, a request succeeds exactly when one of
/// the providers answers it.
pub proof fn law_request_succeeds_if_any_provider_answers<C, T>(
    state: RoundRobin<C>,
    replies: spec_fn(usize, Arc<WsOrIpc<C>>) -> Option<Result<T, TransportError>>,
    failure: Seq<char>,
)
    requires
        state.providers.len() <= usize::MAX,
        crate::turns::steady(state.current, state.providers.len(), state.providers.len()),
    ensures
        run(state, replies, failure).result is Ok <==> exists|place: usize|
            place < state.providers.len() && crate::attempt::answers(
                #[trigger] replies(place, state.providers[place as int]),
            ),
        run(state, replies, failure).result is Err ==> run(state, replies, failure).result == Err::<
            T,
            TransportError,
        >(crate::transport::local_usage_error(failure)),
{
    let len = state.providers.len();
    let end = run(state, replies, failure);
    if len > 0 {
        lemma_goes_round(state, len, replies, failure);
        if end.result is Ok {
            assert(end.tried[end.tried.len() - 1] == end.tried.last());
            assert(end.tried.last() < len);
            assert(end.sent[end.sent.len() - 1] == end.sent.last());
        } else {
            assert forall|place: usize| place < len implies !crate::attempt::answers(
                #[trigger] replies(place, state.providers[place as int]),
            ) by {
                let k = crate::turns::lemma_place_is_visited(
                    state.current as nat,
                    place as nat,
                    len,
                );
                assert(end.tried[k as int] == place);
                assert(end.sent[k as int] == state.providers[place as int]);
            }
        }
    }
}

/// A subscription's search for a stream.
pub struct Search<C, S> {
    /// The state when the search is over.
    pub state: RoundRobin<C>,
    /// The places of the providers that were asked, in order.
    pub tried: Seq<usize>,
    /// The providers that were asked, in order.
    pub sent: Seq<Arc<WsOrIpc<C>>>,
    /// What the search ends with.
    pub action: SubscribeAction<C, S>,
}

/// The rest of a subscription's search for a stream, where a provider that is asked under a
/// place replies as `replies` says of the two, or not in time if that is `None`.
pub open spec fn search_on<C, S>(
    state: RoundRobin<C>,
    action: SubscribeAction<C, S>,
    replies: spec_fn(usize, Arc<WsOrIpc<C>>) -> Option<Result<S, TransportError>>,
    failure: Seq<char>,
) -> Search<C, S>
    decreases
            match action {
                SubscribeAction::Call(call) => call.remaining as nat + 1,
                _ => 0,
            },
{
    match action {
        SubscribeAction::Call(call) => {
            let (next, then_do) = state.subscribe_step(
                SubscribeEvent::of(call, replies(call.id, call.provider)),
                failure,
            );
            let rest = search_on(next, then_do, replies, failure);
            Search {
                tried: seq![call.id] + rest.tried,
                sent: seq![call.provider] + rest.sent,
                ..rest
            }
        },
        _ => Search { state, tried: Seq::empty(), sent: Seq::empty(), action },
    }
}

/// What a subscription does at its start or when its stream has ended, up to the point where
/// it has a stream or has failed.
pub open spec fn search<C, S>(
    state: RoundRobin<C>,
    event: SubscribeEvent<C, S>,
    replies: spec_fn(usize, Arc<WsOrIpc<C>>) -> Option<Result<S, TransportError>>,
    failure: Seq<char>,
) -> Search<C, S> {
    let (next, action) = state.subscribe_step(event, failure);
    search_on(next, action, replies, failure)
}

/// A search asks whom the request for a stream asks, and ends as it does.
proof fn lemma_search_on<C, S>(
    state: RoundRobin<C>,
    action: Action<C, S>,
    replies: spec_fn(usize, Arc<WsOrIpc<C>>) -> Option<Result<S, TransportError>>,
    failure: Seq<char>,
)
    requires
        !(action is FailAfter),
    ensures
        ({
            let end = run_on(state, action, replies, failure);
            let found = search_on(state, action.as_subscription(), replies, failure);
            &&& found.state == end.state
            &&& found.tried == end.tried
            &&& found.sent == end.sent
            &&& end.result matches Ok(stream) ==> found.action == SubscribeAction::<C, S>::Consume(
                stream,
            )
            &&& end.result matches Err(error) ==> found.action == SubscribeAction::<C, S>::Fail(
                error,
            )
        }),
    decreases crate::laws::budget(action),
{
    if let Action::Call(call) = action {
        let (next, then_do) = state.request_step(
            Event::of(call, replies(call.id, call.provider)),
            failure,
        );
        lemma_search_on(next, then_do, replies, failure);
    }
}

/// A subscription survives the failure of providers: at its start and whenever its stream
/// ends it gets a stream if any provider grants one, and fails exactly when all refuse or
/// run out of time. Nothing else selects a provider during the search.
pub proof fn law_subscription_fails_only_with_all_providers<C, S>(
    state: RoundRobin<C>,
    event: SubscribeEvent<C, S>,
    replies: spec_fn(usize, Arc<WsOrIpc<C>>) -> Option<Result<S, TransportError>>,
    failure: Seq<char>,
)
    requires
        state.providers.len() <= usize::MAX,
        crate::turns::steady(state.current, state.providers.len(), state.providers.len()),
        event is Start || event is Ended,
    ensures
        search(state, event, replies, failure).action is Consume <==> exists|place: usize|
            place < state.providers.len() && crate::attempt::answers(
                #[trigger] replies(place, state.providers[place as int]),
            ),
        search(state, event, replies, failure).action matches SubscribeAction::Consume(stream)
            ==> exists|place: usize|
            place < state.providers.len() && #[trigger] replies(
                place,
                state.providers[place as int],
            ) == Some(Ok::<S, TransportError>(stream)),
        search(state, event, replies, failure).state == run(state, replies, failure).state,
        !(search(state, event, replies, failure).action is Consume) ==> search(
            state,
            event,
            replies,
            failure,
        ).action == SubscribeAction::<C, S>::Fail(crate::transport::local_usage_error(failure)),
{
    let (next, action) = state.request_step(Event::<C, S>::Start, failure);
    law_request_succeeds_if_any_provider_answers(state, replies, failure);
    lemma_search_on(next, action, replies, failure);
    let end = run(state, replies, failure);
    if end.result is Ok {
        law_request_goes_round_once(state, replies, failure);
        assert(end.tried[end.tried.len() - 1] == end.tried.last());
        assert(end.sent[end.sent.len() - 1] == end.sent.last());
        assert(end.tried.last() < state.providers.len());
    }
}

/// The search for a stream, at the start of a subscription or after the end of a stream, asks
/// the providers of the list in turn, from the one whose turn it is, none of them twice, and the
/// next one only after the one before has refused or run out of time. A stream is that of the
/// provider asked last; a search that fails has asked every provider once. Nothing else selects
/// a provider during the search.
pub proof fn law_subscription_asks_each_provider_once<C, S>(
    state: RoundRobin<C>,
    event: SubscribeEvent<C, S>,
    replies: spec_fn(usize, Arc<WsOrIpc<C>>) -> Option<Result<S, TransportError>>,
    failure: Seq<char>,
)
    requires
        0 < state.providers.len() <= usize::MAX,
        crate::turns::steady(state.current, state.providers.len(), state.providers.len()),
        event is Start || event is Ended,
    ensures
        ({
            let found = search(state, event, replies, failure);
            let len = state.providers.len() as int;
            &&& 0 < found.tried.len() <= len
            &&& found.tried.no_duplicates()
            &&& found.sent.len() == found.tried.len()
            &&& forall|k: int|
                0 <= k < found.tried.len() ==> #[trigger] found.tried[k] == (state.current + k)
                    % len && found.sent[k] == state.providers[(state.current + k) % len]
            &&& forall|k: int|
                0 <= k < found.tried.len() && (k < found.tried.len() - 1 || !(
                found.action is Consume)) ==> !crate::attempt::answers(
                    replies(#[trigger] found.tried[k], found.sent[k]),
                )
            &&& found.action matches SubscribeAction::Consume(stream) ==> replies(
                found.tried.last(),
                found.sent.last(),
            ) == Some(Ok::<S, TransportError>(stream))
            &&& !(found.action is Consume) ==> found.tried.len() == len
            &&& found.state.providers == state.providers
            &&& found.state.current == (state.current + found.tried.len()) % (usize::MAX + 1)
        }),
{
    let (next, action) = state.request_step(Event::<C, S>::Start, failure);
    lemma_goes_round(state, state.providers.len(), replies, failure);
    law_request_goes_round_once(state, replies, failure);
    lemma_search_on(next, action, replies, failure);
    let end = run(state, replies, failure);
    let found = search(state, event, replies, failure);
    assert(found.tried == end.tried && found.sent == end.sent);
    assert(found.action is Consume <==> end.result is Ok);
}

/// The state after `n` requests, one after the other.
pub open spec fn after_requests<C, T>(
    state: RoundRobin<C>,
    replies: spec_fn(nat, usize, Arc<WsOrIpc<C>>) -> Option<Result<T, TransportError>>,
    failure: Seq<char>,
    n: nat,
) -> RoundRobin<C>
    decreases n,
{
    if n == 0 {
        state
    } else {
        let m = (n - 1) as nat;
        run(
            after_requests(state, replies, failure, m),
            crate::laws::replies_to(replies, m),
            failure,
        ).state
    }
}

/// How many of `n` requests, one after the other, are sent to the provider at the place.
pub open spec fn requests_sent<C, T>(
    state: RoundRobin<C>,
    replies: spec_fn(nat, usize, Arc<WsOrIpc<C>>) -> Option<Result<T, TransportError>>,
    failure: Seq<char>,
    n: nat,
    place: usize,
) -> nat
    decreases n,
{
    if n == 0 {
        0
    } else {
        let m = (n - 1) as nat;
        requests_sent(state, replies, failure, m, place) + if run(
            after_requests(state, replies, failure, m),
            crate::laws::replies_to(replies, m),
            failure,
        ).tried.contains(place) {
            1nat
        } else {
            0nat
        }
    }
}

/// The place that has the turn after `k` more selections.
pub open spec fn turn<C>(state: RoundRobin<C>, k: nat) -> int {
    crate::turns::place_after(state.current, k, state.providers.len())
}

/// The provider whose turn it is answers, for each of the next `n` requests.
pub open spec fn first_answers<C, T>(
    state: RoundRobin<C>,
    replies: spec_fn(nat, usize, Arc<WsOrIpc<C>>) -> Option<Result<T, TransportError>>,
    n: nat,
) -> bool {
    forall|k: nat|
        k < n ==> crate::attempt::answers(
            #[trigger] replies(k, turn(state, k) as usize, state.providers[turn(state, k)]),
        )
}

/// A request that the first provider answers is one selection.
proof fn lemma_answered_at_once<C, T>(
    state: RoundRobin<C>,
    replies: spec_fn(nat, usize, Arc<WsOrIpc<C>>) -> Option<Result<T, TransportError>>,
    failure: Seq<char>,
    n: nat,
    place: usize,
)
    requires
        0 < state.providers.len() <= usize::MAX,
        first_answers(state, replies, n),
    ensures
        after_requests(state, replies, failure, n) == after_selections(state, n),
        after_selections(state, n) == (RoundRobin {
            current: ((state.current + n) % (usize::MAX + 1)) as usize,
            ..state
        }),
        after_selections(state, n).selected() == turn(state, n),
        requests_sent(state, replies, failure, n, place) == times_selected(
            state,
            n,
            place as int,
        ),
    decreases n,
{
    crate::turns::lemma_counter(state.current, 0);
    if n > 0 {
        let m = (n - 1) as nat;
        lemma_answered_at_once(state, replies, failure, m, place);
        let before = after_selections(state, m);
        let (next, action) = before.request_step(Event::<C, T>::Start, failure);
        let first = before.selected() as usize;
        assert(first == before.selected());
        crate::turns::lemma_counted_on(state.current, m, before.current);
        assert(crate::attempt::answers(
            replies(m, turn(state, m) as usize, state.providers[turn(state, m)]),
        ));
        reveal_with_fuel(run_on, 3);
        let end = run(before, crate::laws::replies_to(replies, m), failure);
        assert(action is Call && action->Call_0.id == first);
        assert(end.tried =~= seq![first]);
        assert(end.tried[0] == first);
        assert(end.state == before.after_selection());
    }
}

/// Requests that are answered at once go round: the k-th of several requests, one after the
/// other, that the provider whose turn it is answers is sent to the provider k places on in the
/// list, and to no other, and returns what it answered.
pub proof fn law_requests_go_round<C, T>(
    state: RoundRobin<C>,
    replies: spec_fn(nat, usize, Arc<WsOrIpc<C>>) -> Option<Result<T, TransportError>>,
    failure: Seq<char>,
    k: nat,
)
    requires
        0 < state.providers.len() <= usize::MAX,
        first_answers(state, replies, k + 1),
    ensures
        after_requests(state, replies, failure, k) == after_selections(state, k),
        ({
            let end = run(
                after_requests(state, replies, failure, k),
                crate::laws::replies_to(replies, k),
                failure,
            );
            let place = ((state.current + k) % (usize::MAX + 1)) % (state.providers.len() as int);
            &&& end.tried == seq![after_selections(state, k).selected() as usize]
            &&& end.tried == seq![place as usize]
            &&& end.sent == seq![state.providers[place]]
            &&& Some(end.result) == replies(k, place as usize, state.providers[place])
            &&& crate::turns::steady(state.current, k + 1, state.providers.len()) ==> place == (
            state.current + k) % state.providers.len() as int
        }),
        crate::turns::steady(state.current, k + 1, state.providers.len()) ==> after_selections(
            state,
            k,
        ).selected() == (state.selected() + k) % state.providers.len() as int,
{
    let before = after_selections(state, k);
    let place = turn(state, k);
    let first = place as usize;
    lemma_answered_at_once(state, replies, failure, k, first);
    let (next, action) = before.request_step(Event::<C, T>::Start, failure);
    let end = run(before, crate::laws::replies_to(replies, k), failure);
    assert(crate::attempt::answers(replies(k, first, state.providers[place])));
    reveal_with_fuel(run_on, 3);
    assert(action is Call && action->Call_0.id == first);
    assert(end.tried =~= seq![first]);
    assert(end.sent =~= seq![state.providers[place]]);
    if crate::turns::steady(state.current, k + 1, state.providers.len()) {
        law_turns_go_round(state, k);
        crate::turns::lemma_place_after(state.current, k, state.providers.len());
    }
}

/// Requests are distributed equitably: of any number of requests, one after the other, that
/// the first provider they go to answers, every provider is sent its even share, or one more
/// where the last round is not whole.
pub proof fn law_requests_are_shared_evenly<C, T>(
    state: RoundRobin<C>,
    replies: spec_fn(nat, usize, Arc<WsOrIpc<C>>) -> Option<Result<T, TransportError>>,
    failure: Seq<char>,
    n: nat,
    place: usize,
)
    requires
        place < state.providers.len() <= usize::MAX,
        first_answers(state, replies, n),
        crate::turns::steady(state.current, n, state.providers.len()),
    ensures
        n / state.providers.len() <= requests_sent(state, replies, failure, n, place) <= n
            / state.providers.len() + 1,
        n % state.providers.len() == 0 ==> requests_sent(state, replies, failure, n, place) == n
            / state.providers.len(),
{
    lemma_answered_at_once(state, replies, failure, n, place);
    law_equitable_distribution(state, n, place as nat);
}

} // verus!
