//! The vocabulary in which a balancer and the code that performs its requests talk.
//!
//! A balancer never sends anything itself. It is handed an event, changes its state, and
//! answers with the action to perform next; the outcome of that action is the next event.
use crate::provider::WsOrIpc;
use alloy::transports::TransportError;
use std::sync::Arc;
use vstd::prelude::*;

verus! {

/// A request that has been assigned to a provider and whose reply is awaited.
#[derive(Debug)]
pub struct PendingCall<C> {
    /// The provider's id.
    pub id: usize,
    /// The provider that the request goes to.
    pub provider: Arc<WsOrIpc<C>>,
    /// How many more providers may be tried if this one fails.
    pub remaining: usize,
}

/// What has happened since the last action of a request for a `T`.
#[derive(Debug)]
pub enum Event<C, T> {
    /// The request begins.
    Start,
    /// The provider of the pending call has replied.
    Replied(PendingCall<C>, Result<T, TransportError>),
    /// The provider of the pending call has not replied in time.
    TimedOut(PendingCall<C>),
}

/// What a request for a `T` does next.
#[derive(Debug)]
pub enum Action<C, T> {
    /// Send the request to the provider and come back with its reply.
    Call(PendingCall<C>),
    /// The request is over.
    Return(Result<T, TransportError>),
    /// The request is over: fail with the error after so many seconds.
    FailAfter(u64, TransportError),
}

/// What has happened since the last action of a subscription that streams an `S`.
#[derive(Debug)]
pub enum SubscribeEvent<C, S> {
    /// The subscription begins.
    Start,
    /// The provider of the pending call has replied.
    Replied(PendingCall<C>, Result<S, TransportError>),
    /// The provider of the pending call has not replied in time.
    TimedOut(PendingCall<C>),
    /// The stream that was being consumed has ended.
    Ended,
}

/// What a subscription that streams an `S` does next.
#[derive(Debug)]
pub enum SubscribeAction<C, S> {
    /// Ask the provider for the stream and come back with its reply.
    Call(PendingCall<C>),
    /// Read the stream by `read_stream`, which hands every item to the subscriber, and come
    /// back when it ends.
    Consume(S),
    /// Give the subscription up with the error.
    Fail(TransportError),
    /// Give the subscription up with the error after so many seconds.
    FailAfter(u64, TransportError),
}

/// The provider has answered: it has replied in time and its reply is no error.
pub open spec fn answers<T>(outcome: Option<Result<T, TransportError>>) -> bool {
    outcome matches Some(Ok(_))
}

impl<C, T> Event<C, T> {
    /// The event that a call leads to: its provider's reply, or none in time.
    pub open spec fn of(call: PendingCall<C>, outcome: Option<Result<T, TransportError>>) -> Self {
        match outcome {
            Some(reply) => Event::Replied(call, reply),
            None => Event::TimedOut(call),
        }
    }
}

impl<C, S> SubscribeEvent<C, S> {
    /// The event that a call leads to: its provider's reply, or none in time.
    pub open spec fn of(call: PendingCall<C>, outcome: Option<Result<S, TransportError>>) -> Self {
        match outcome {
            Some(reply) => SubscribeEvent::Replied(call, reply),
            None => SubscribeEvent::TimedOut(call),
        }
    }

    /// The event, seen as one of the request for a stream. When a stream has ended, a new
    /// one is requested.
    pub open spec fn as_request(self) -> Event<C, S> {
        match self {
            SubscribeEvent::Start => Event::Start,
            SubscribeEvent::Replied(call, reply) => Event::Replied(call, reply),
            SubscribeEvent::TimedOut(call) => Event::TimedOut(call),
            SubscribeEvent::Ended => Event::Start,
        }
    }

    /// Computes `as_request`.
    pub fn into_request(self) -> (event: Event<C, S>)
        ensures
            event == self.as_request(),
    {
        match self {
            SubscribeEvent::Start => Event::Start,
            SubscribeEvent::Replied(call, reply) => Event::Replied(call, reply),
            SubscribeEvent::TimedOut(call) => Event::TimedOut(call),
            SubscribeEvent::Ended => Event::Start,
        }
    }
}

impl<C, S> Action<C, S> {
    /// What a subscription does when the request for its stream does `self`: a stream is
    /// consumed, and the request's failure is the subscription's.
    pub open spec fn as_subscription(self) -> SubscribeAction<C, S> {
        match self {
            Action::Call(call) => SubscribeAction::Call(call),
            Action::Return(Ok(stream)) => SubscribeAction::Consume(stream),
            Action::Return(Err(error)) => SubscribeAction::Fail(error),
            Action::FailAfter(seconds, error) => SubscribeAction::FailAfter(seconds, error),
        }
    }

    /// Computes `as_subscription`.
    pub fn into_subscription(self) -> (action: SubscribeAction<C, S>)
        ensures
            action == self.as_subscription(),
    {
        match self {
            Action::Call(call) => SubscribeAction::Call(call),
            Action::Return(Ok(stream)) => SubscribeAction::Consume(stream),
            Action::Return(Err(error)) => SubscribeAction::Fail(error),
            Action::FailAfter(seconds, error) => SubscribeAction::FailAfter(seconds, error),
        }
    }
}

/// What a subscription does with what its stream yields.
#[derive(Debug)]
pub enum StreamAction<R> {
    /// Hand the item to the subscriber and read on.
    Deliver(R),
    /// Stop reading: the stream has ended, which is `SubscribeEvent::Ended`.
    Stop,
}

impl<R> StreamAction<R> {
    /// What follows when the stream yields an item, or nothing any more.
    pub open spec fn after(yielded: Option<R>) -> Self {
        match yielded {
            Some(item) => StreamAction::Deliver(item),
            None => StreamAction::Stop,
        }
    }
}

/// One step of reading a stream. It needs no balancer, so that nothing which keeps a balancer
/// busy can hold up an item.
pub fn read_stream<R>(yielded: Option<R>) -> (action: StreamAction<R>)
    ensures
        action == StreamAction::after(yielded),
{
    match yielded {
        Some(item) => StreamAction::Deliver(item),
        None => StreamAction::Stop,
    }
}

/// What has happened since the last action of the regular pings.
#[derive(Debug)]
pub enum MonitorEvent {
    /// The regular pings begin.
    Start,
    /// The clock has ticked.
    Ticked,
    /// The targets of a round of pings have replied, or not, each in its place.
    Pinged(Vec<Result<(), TransportError>>),
}

/// What the regular pings do next.
#[derive(Debug)]
pub enum MonitorAction<C> {
    /// Come back at the next tick of a clock that ticks at once and then every so many seconds.
    AwaitTick(u64),
    /// Ping the providers with these ids, and come back with the outcomes before anything else
    /// is done to the pool.
    Ping(Vec<(usize, Arc<WsOrIpc<C>>)>),
}

} // verus!
