//! Balances JSON-RPC requests over several Ethereum nodes.
//!
//! Two balancers decide which node a request goes to. The one at the root of the crate hands
//! requests to a fixed list of providers in turn. The one in [`provider`] also takes
//! providers that fail out of rotation, and brings them back once they answer a ping.
//!
//! Neither performs any request itself: a request or a subscription is a sequence of steps,
//! each from an event to the action to perform next (see [`attempt`]).
pub mod attempt;
pub mod laws;
pub mod pool;
pub mod provider;
pub mod recovery;
pub mod round_robin;
pub mod transport;
pub mod turns;

use crate::attempt::{Action, Event, PendingCall, SubscribeAction, SubscribeEvent};
use crate::provider::WsOrIpc;
use crate::round_robin::RoundRobin;
use crate::transport::local_usage_str;
use std::sync::Arc;
use vstd::prelude::*;

verus! {

/// What a request fails with when no provider answered it.
pub const REQUEST_FAILURE: &'static str = "All providers failed";

/// A fixed list of providers that take turns.
#[derive(Debug)]
pub struct RpcBalancer<C> {
    providers: Vec<Arc<WsOrIpc<C>>>,
    current: usize,
}

impl<C> View for RpcBalancer<C> {
    type V = RoundRobin<C>;

    closed spec fn view(&self) -> RoundRobin<C> {
        RoundRobin { providers: self.providers@, current: self.current }
    }
}

impl<C> RpcBalancer<C> {
    /// A balancer over the given providers, of which the first one has the first turn.
    pub fn new(providers: Vec<Arc<WsOrIpc<C>>>) -> (balancer: Self)
        ensures
            balancer@ == (RoundRobin { providers: providers@, current: 0 }),
    {
        RpcBalancer { providers, current: 0 }
    }

    /// Selects the provider whose turn it is and passes the turn on.
    pub fn next_provider(&mut self) -> (provider: Arc<WsOrIpc<C>>)
        requires
            old(self)@.providers.len() > 0,
        ensures
            provider == old(self)@.providers[old(self)@.selected()],
            final(self)@ == old(self)@.after_selection(),
    {
        let index: usize = self.current % self.providers.len();
        self.current = self.current.wrapping_add(1);
        self.providers[index].clone()
    }

    /// One step of a request. A provider that answers ends it with its answer. After a
    /// failure, or when no reply has come in time, the next provider is tried, until there
    /// were as many tries as providers.
    pub fn execute<T>(&mut self, event: Event<C, T>) -> (action: Action<C, T>)
        ensures
            (final(self)@, action) == old(self)@.request_step(event, REQUEST_FAILURE@),
            action matches Action::Call(call) ==> call.id == old(self)@.current as int
                % old(self)@.providers.len() as int && call.provider
                == old(self)@.providers[call.id as int],
    {
        match event {
            Event::Start => self.next_attempt(self.providers.len()),
            Event::Replied(call, reply) => match reply {
                Ok(value) => Action::Return(Ok(value)),
                Err(_) => self.next_attempt(call.remaining),
            },
            Event::TimedOut(call) => self.next_attempt(call.remaining),
        }
    }

    /// One step of the request for a subscription. It goes on as `execute` does.
    pub fn get_subscription<S>(&mut self, event: Event<C, S>) -> (action: Action<C, S>)
        ensures
            (final(self)@, action) == old(self)@.request_step(event, REQUEST_FAILURE@),
            action matches Action::Call(call) ==> call.id == old(self)@.current as int
                % old(self)@.providers.len() as int && call.provider
                == old(self)@.providers[call.id as int],
    {
        self.execute(event)
    }

    /// One step of a subscription. A stream is consumed as soon as a provider grants one, and
    /// another is requested when it ends. The subscription fails when the request for a
    /// stream fails, that is, when every provider has refused it.
    pub fn subscribe<S>(&mut self, event: SubscribeEvent<C, S>) -> (action: SubscribeAction<C, S>)
        ensures
            (final(self)@, action) == old(self)@.subscribe_step(event, REQUEST_FAILURE@),
            action matches SubscribeAction::Call(call) ==> call.id == old(self)@.current as int
                % old(self)@.providers.len() as int && call.provider
                == old(self)@.providers[call.id as int],
    {
        self.get_subscription(event.into_request()).into_subscription()
    }

    /// The client that the request for a subscription to the provider goes through.
    pub fn try_subscribe<'a>(&self, provider: &'a Arc<WsOrIpc<C>>) -> (client: &'a C)
        ensures
            *client == provider.inner(),
    {
        provider.client()
    }

    /// Goes on to the next provider, if one of `remaining` tries is left.
    fn next_attempt<T>(&mut self, remaining: usize) -> (action: Action<C, T>)
        ensures
            (final(self)@, action) == old(self)@.next_attempt::<T>(
                remaining as nat,
                REQUEST_FAILURE@,
            ),
            action matches Action::Call(call) ==> call.id == old(self)@.current as int
                % old(self)@.providers.len() as int && call.provider
                == old(self)@.providers[call.id as int],
    {
        if remaining == 0 || self.providers.len() == 0 {
            Action::Return(Err(local_usage_str(REQUEST_FAILURE)))
        } else {
            let id: usize = self.current % self.providers.len();
            let provider = self.next_provider();
            Action::Call(PendingCall { id, provider, remaining: remaining - 1 })
        }
    }
}

} // verus!
