//! A balancer that takes failing providers out of rotation and brings them back once they
//! answer a ping.
use crate::attempt::{
    Action, Event, MonitorAction, MonitorEvent, PendingCall, SubscribeAction, SubscribeEvent,
};
use crate::pool::Pool;
use crate::transport::local_usage_str;
use alloy::transports::TransportError;
use std::collections::HashMap;
use std::collections::VecDeque;
use std::sync::Arc;
use vstd::prelude::*;

verus! {

broadcast use vstd::std_specs::hash::group_hash_axioms;

/// Seconds between two rounds of pings.
pub const PING_INTERVAL_SECS: u64 = 10;

/// Seconds that a request waits before it fails when no provider is available.
pub const RETRY_DELAY_SECS: u64 = 1;

/// Seconds within which a provider has to reply, where no other limit is set.
pub const REQUEST_TIMEOUT_SECS: u64 = 30;

/// What a request fails with when no provider answered it.
pub const REQUEST_FAILURE: &'static str = "All providers failed.";

/// What the request for a subscription fails with when no provider granted it.
pub const SUBSCRIPTION_FAILURE: &'static str = "All providers failed for subscription.";

/// What a ping fails with when no reply has come in time.
pub const PING_TIMEOUT: &'static str = "Ping timed out.";

/// A connection to a node, by the kind of its transport. `C` is the client that speaks to
/// the node.
#[derive(Clone, Debug)]
pub enum WsOrIpc<C> {
    Ws(C),
    Ipc(C),
}

impl<C> WsOrIpc<C> {
    /// The client, whatever the transport.
    pub open spec fn inner(self) -> C {
        match self {
            WsOrIpc::Ws(client) => client,
            WsOrIpc::Ipc(client) => client,
        }
    }

    /// The client that requests to this provider go through.
    pub fn client(&self) -> (client: &C)
        ensures
            *client == self.inner(),
    {
        match self {
            WsOrIpc::Ws(client) => client,
            WsOrIpc::Ipc(client) => client,
        }
    }
}

/// A pool of providers that take turns, of which those that fail are set aside until they
/// answer a ping.
#[derive(Debug)]
pub struct RpcBalancer<C> {
    /// The available providers, by id.
    providers: HashMap<usize, Arc<WsOrIpc<C>>>,
    /// The ids of the available providers, in the order of their turns.
    rotation: Vec<usize>,
    /// Every provider that was ever registered, by id. From here one on the unavailable list
    /// is pinged and restored.
    known: HashMap<usize, Arc<WsOrIpc<C>>>,
    /// The number of selections so far; it wraps around.
    current: usize,
    /// The ids of the providers that await a ping.
    unavailable_providers: VecDeque<usize>,
    /// The id of the next provider to be added; it wraps around.
    provider_id_counter: usize,
}

impl<C> View for RpcBalancer<C> {
    type V = Pool<C>;

    closed spec fn view(&self) -> Pool<C> {
        Pool {
            available: self.providers@,
            rotation: self.rotation@,
            known: self.known@,
            unavailable: self.unavailable_providers@,
            current: self.current,
            next_id: self.provider_id_counter,
        }
    }
}

impl<C> RpcBalancer<C> {
    /// The available providers, by id.
    pub fn providers(&self) -> (providers: &HashMap<usize, Arc<WsOrIpc<C>>>)
        ensures
            providers@ == self@.available,
    {
        &self.providers
    }

    /// The number of selections so far; it wraps around.
    pub fn current(&self) -> (current: usize)
        ensures
            current == self@.current,
    {
        self.current
    }

    /// The ids of the providers that await a ping, oldest first.
    pub fn unavailable_providers(&self) -> (ids: &VecDeque<usize>)
        ensures
            ids@ == self@.unavailable,
    {
        &self.unavailable_providers
    }

    /// The id that the next provider gets.
    pub fn next_id(&self) -> (id: usize)
        ensures
            id == self@.next_id,
    {
        self.provider_id_counter
    }

    /// A balancer over the given providers. They get the ids 0, 1, 2 and so on in the order
    /// given, all are available, and the first one has the first turn.
    pub fn new(providers: Vec<Arc<WsOrIpc<C>>>) -> (balancer: Self)
        ensures
            balancer@.wf(),
            balancer@.ids_are_fresh(),
            balancer@.available == Map::new(
                |id: usize| id < providers@.len(),
                |id: usize| providers@[id as int],
            ),
            balancer@.known == balancer@.available,
            balancer@.rotation == Seq::new(providers@.len(), |i: int| i as usize),
            balancer@.unavailable == Seq::<usize>::empty(),
            balancer@.current == 0,
            balancer@.next_id == providers@.len(),
    {
        let mut provider_map: HashMap<usize, Arc<WsOrIpc<C>>> = HashMap::new();
        let mut known: HashMap<usize, Arc<WsOrIpc<C>>> = HashMap::new();
        let mut rotation: Vec<usize> = Vec::new();
        let count: usize = providers.len();
        let mut provider_id_counter: usize = 0;
        while provider_id_counter < count
            invariant
                provider_id_counter <= count,
                count == providers@.len(),
                provider_map@ == Map::new(
                    |id: usize| id < provider_id_counter,
                    |id: usize| providers@[id as int],
                ),
                known@ == provider_map@,
                rotation@ == Seq::new(provider_id_counter as nat, |i: int| i as usize),
            decreases count - provider_id_counter,
        {
            let provider = providers[provider_id_counter].clone();
            provider_map.insert(provider_id_counter, provider.clone());
            known.insert(provider_id_counter, provider);
            rotation.push(provider_id_counter);
            provider_id_counter += 1;
        }
        let balancer = RpcBalancer {
            providers: provider_map,
            rotation,
            known,
            current: 0,
            unavailable_providers: VecDeque::new(),
            provider_id_counter,
        };
        proof {
            assert forall|id: usize|
                balancer@.available.contains_key(id) implies #[trigger] balancer@.rotation.contains(
                id,
            ) by {
                assert(balancer@.rotation[id as int] == id);
            }
        }
        balancer
    }

    /// Registers a provider under the next id. It is available at once and its turn comes
    /// last.
    pub fn add_provider(&mut self, provider: Arc<WsOrIpc<C>>)
        requires
            old(self)@.wf(),
        ensures
            final(self)@ == old(self)@.added(provider),
            final(self)@.wf(),
    {
        proof {
            self@.lemma_added_wf(provider);
        }
        let new_id: usize = self.provider_id_counter;
        self.provider_id_counter = self.provider_id_counter.wrapping_add(1);
        let available_before = self.providers.insert(new_id, provider.clone());
        if available_before.is_none() {
            self.rotation.push(new_id);
        }
        self.known.insert(new_id, provider);
    }

    /// Selects the provider whose turn it is and passes the turn on. There is none exactly
    /// when no provider is available.
    pub fn next_provider(&mut self) -> (selection: Option<(usize, Arc<WsOrIpc<C>>)>)
        requires
            old(self)@.wf(),
        ensures
            final(self)@.wf(),
            old(self)@.rotation.len() == 0 ==> selection is None && final(self)@ == old(self)@,
            old(self)@.rotation.len() > 0 ==> selection == Some(
                (old(self)@.selected(), old(self)@.available[old(self)@.selected()]),
            ) && final(self)@ == old(self)@.after_selection(),
            selection matches Some((id, provider)) ==> old(self)@.available.contains_key(id)
                && provider == old(self)@.available[id],
    {
        if self.rotation.len() == 0 {
            None
        } else {
            proof {
                self@.lemma_selected_is_available();
            }
            let index: usize = self.current % self.rotation.len();
            self.current = self.current.wrapping_add(1);
            let provider_id: usize = self.rotation[index];
            match self.providers.get(&provider_id) {
                Some(provider) => Some((provider_id, provider.clone())),
                None => None,
            }
        }
    }

    /// Takes a provider that has failed out of rotation and puts it on the unavailable list.
    pub fn move_to_unavailable_providers(&mut self, provider_id: usize)
        requires
            old(self)@.wf(),
        ensures
            final(self)@ == old(self)@.moved_out(provider_id),
            final(self)@.wf(),
    {
        proof {
            self@.lemma_moved_out_wf(provider_id);
            self@.rotation.index_of_first_ensures(provider_id);
        }
        self.providers.remove(&provider_id);
        let mut i: usize = 0;
        while i < self.rotation.len()
            invariant
                i <= self.rotation@.len(),
                forall|k: int| 0 <= k < i ==> self.rotation@[k] != provider_id,
            ensures
                i <= self.rotation@.len(),
                forall|k: int| 0 <= k < i ==> self.rotation@[k] != provider_id,
                i < self.rotation@.len() ==> self.rotation@[i as int] == provider_id,
            decreases self.rotation@.len() - i,
        {
            if self.rotation[i] == provider_id {
                break;
            }
            i += 1;
        }
        if i < self.rotation.len() {
            self.rotation.remove(i);
        }
        self.unavailable_providers.push_back(provider_id);
    }

    /// The providers to ping in the next round, with their ids: those on the unavailable
    /// list, in its order.
    pub fn ping_targets(&self) -> (targets: Vec<(usize, Arc<WsOrIpc<C>>)>)
        ensures
            targets@ == self@.ping_targets().map_values(|id: usize| (id, self@.known[id])),
    {
        let mut targets: Vec<(usize, Arc<WsOrIpc<C>>)> = Vec::new();
        let ghost registered = |id: usize| self@.known.contains_key(id);
        let ghost target = |id: usize| (id, self@.known[id]);
        let count: usize = self.unavailable_providers.len();
        let mut i: usize = 0;
        proof {
            reveal(Seq::filter);
        }
        while i < count
            invariant
                i <= count,
                count == self.unavailable_providers@.len(),
                registered == (|id: usize| self@.known.contains_key(id)),
                target == (|id: usize| (id, self@.known[id])),
                targets@ == self.unavailable_providers@.take(i as int).filter(
                    registered,
                ).map_values(target),
            decreases count - i,
        {
            let provider_id: usize = self.unavailable_providers[i];
            proof {
                let listed = self.unavailable_providers@;
                assert(listed.take(i + 1) == listed.take(i as int).push(provider_id));
                listed.take(i as int).lemma_filter_push(provider_id, registered);
            }
            if let Some(provider) = self.known.get(&provider_id) {
                targets.push((provider_id, provider.clone()));
            }
            i += 1;
        }
        proof {
            assert(self.unavailable_providers@.take(count as int) == self.unavailable_providers@);
        }
        targets
    }

    /// Settles a round of pings, given the reply of each of `ping_targets` in its order. A
    /// provider that replied is available again; one that did not stays on the unavailable
    /// list.
    pub fn ping_unavailable_providers(&mut self, replies: &Vec<Result<(), TransportError>>)
        requires
            old(self)@.wf(),
            replies@.len() == old(self)@.ping_targets().len(),
        ensures
            final(self)@ == old(self)@.after_pings(crate::pool::online(replies@)),
            final(self)@.wf(),
            forall|i: int|
                0 <= i < replies@.len() && replies@[i] is Ok
                    ==> final(self)@.available.contains_key(
                    #[trigger] old(self)@.ping_targets()[i],
                ),
            crate::recovery::kept(
                final(self)@.unavailable,
                old(self)@.ping_targets(),
                |i: int| replies@[i] is Err,
            ),
    {
        let ghost before = self@;
        let ghost start = Pool { unavailable: Seq::<usize>::empty(), ..before };
        let ghost ids = before.ping_targets();
        let ghost answers = crate::pool::online(replies@);
        let targets = self.ping_targets();
        self.unavailable_providers = VecDeque::new();
        let mut i: usize = 0;
        proof {
            before.lemma_ping_targets();
            before.lemma_after_pings_wf(answers);
            crate::recovery::law_each_reply_decides_on_its_provider(before, replies@);
        }
        while i < targets.len()
            invariant
                i <= targets@.len(),
                before.wf(),
                ids == before.ping_targets(),
                start == (Pool { unavailable: Seq::<usize>::empty(), ..before }),
                answers == crate::pool::online(replies@),
                replies@.len() == ids.len(),
                targets@ == ids.map_values(|id: usize| (id, before.known[id])),
                forall|k: int|
                    0 <= k < ids.len() ==> before.known.contains_key(#[trigger] ids[k]),
                self@ == start.pinged_in_turn(ids, answers, i as nat),
            decreases targets@.len() - i,
        {
            proof {
                start.lemma_pinged_in_turn(ids, answers, i as nat);
            }
            let (provider_id, provider) = &targets[i];
            match &replies[i] {
                Ok(_) => {
                    let available_before = self.providers.insert(*provider_id, provider.clone());
                    if available_before.is_none() {
                        self.rotation.push(*provider_id);
                    }
                },
                Err(_) => {
                    self.unavailable_providers.push_back(*provider_id);
                },
            }
            i += 1;
        }
    }

    /// The client that a ping to the provider goes through; the ping asks it for the number
    /// of the latest block.
    pub fn ping<'a>(&self, provider: &'a Arc<WsOrIpc<C>>) -> (client: &'a C)
        ensures
            *client == provider.inner(),
    {
        provider.client()
    }

    /// The outcome of a ping: any block number will do, a failure is passed on, and no reply in
    /// time is a failure.
    pub fn ping_outcome(reply: Option<Result<u64, TransportError>>) -> (outcome: Result<
        (),
        TransportError,
    >)
        ensures
            reply matches Some(Ok(_)) ==> outcome == Ok::<(), TransportError>(()),
            reply matches Some(Err(error)) ==> outcome == Err::<(), TransportError>(error),
            reply is None ==> outcome == Err::<(), TransportError>(
                crate::transport::local_usage_error(PING_TIMEOUT@),
            ),
    {
        match reply {
            Some(Ok(_)) => Ok(()),
            Some(Err(error)) => Err(error),
            None => Err(local_usage_str(PING_TIMEOUT)),
        }
    }

    /// One step of the regular pings, which never end. At every tick all of `ping_targets` are
    /// pinged, and the round is settled before the next tick is awaited.
    pub fn monitor(&mut self, event: MonitorEvent) -> (action: MonitorAction<C>)
        requires
            old(self)@.wf(),
            event matches MonitorEvent::Pinged(replies) ==> replies@.len() == old(
                self,
            )@.ping_targets().len(),
        ensures
            final(self)@.wf(),
            event matches MonitorEvent::Pinged(replies) ==> final(self)@ == old(self)@.after_pings(
                crate::pool::online(replies@),
            ),
            !(event is Pinged) ==> final(self)@ == old(self)@,
            event is Ticked ==> (action matches MonitorAction::Ping(targets) && targets@ == old(
                self,
            )@.ping_targets().map_values(|id: usize| (id, old(self)@.known[id]))),
            !(event is Ticked) ==> action == MonitorAction::<C>::AwaitTick(PING_INTERVAL_SECS),
    {
        match event {
            MonitorEvent::Start => MonitorAction::AwaitTick(PING_INTERVAL_SECS),
            MonitorEvent::Ticked => MonitorAction::Ping(self.ping_targets()),
            MonitorEvent::Pinged(replies) => {
                self.ping_unavailable_providers(&replies);
                MonitorAction::AwaitTick(PING_INTERVAL_SECS)
            },
        }
    }

    /// The client that the request for a subscription to the provider goes through.
    pub fn try_subscribe<'a>(&self, provider: &'a Arc<WsOrIpc<C>>) -> (client: &'a C)
        ensures
            *client == provider.inner(),
    {
        provider.client()
    }

    /// One step of a request. A provider that answers ends it with its answer. A provider
    /// that fails, or does not reply in time, is moved to the unavailable list, and the next
    /// one is tried, until as many were tried as were available at the start.
    pub fn execute<T>(&mut self, event: Event<C, T>) -> (action: Action<C, T>)
        requires
            old(self)@.wf(),
        ensures
            (final(self)@, action) == old(self)@.request_step(event, REQUEST_FAILURE@),
            final(self)@.wf(),
            action matches Action::Call(call) ==> old(self)@.available.contains_key(call.id)
                && call.provider == old(self)@.available[call.id],
    {
        self.request_step(event, REQUEST_FAILURE)
    }

    /// One step of the request for a subscription. It goes on as `execute` does.
    pub fn get_subscription<S>(&mut self, event: Event<C, S>) -> (action: Action<C, S>)
        requires
            old(self)@.wf(),
        ensures
            (final(self)@, action) == old(self)@.request_step(event, SUBSCRIPTION_FAILURE@),
            final(self)@.wf(),
            action matches Action::Call(call) ==> old(self)@.available.contains_key(call.id)
                && call.provider == old(self)@.available[call.id],
    {
        self.request_step(event, SUBSCRIPTION_FAILURE)
    }

    /// One step of a subscription. A stream is consumed as soon as a provider grants one, and
    /// another is requested when it ends. The subscription fails when the request for a
    /// stream fails, that is, when every provider that was available has refused it.
    pub fn subscribe<S>(&mut self, event: SubscribeEvent<C, S>) -> (action: SubscribeAction<C, S>)
        requires
            old(self)@.wf(),
        ensures
            (final(self)@, action) == old(self)@.subscribe_step(event, SUBSCRIPTION_FAILURE@),
            final(self)@.wf(),
            action matches SubscribeAction::Call(call) ==> old(self)@.available.contains_key(
                call.id,
            ) && call.provider == old(self)@.available[call.id],
    {
        self.get_subscription(event.into_request()).into_subscription()
    }

    /// One step of a request that fails with the given message.
    fn request_step<T>(&mut self, event: Event<C, T>, failure: &str) -> (action: Action<C, T>)
        requires
            old(self)@.wf(),
        ensures
            (final(self)@, action) == old(self)@.request_step(event, failure@),
            final(self)@.wf(),
            action matches Action::Call(call) ==> old(self)@.available.contains_key(call.id)
                && call.provider == old(self)@.available[call.id],
    {
        proof {
            crate::laws::law_call_is_to_the_provider_with_its_id(self@, event, failure@);
        }
        match event {
            Event::Start => {
                proof {
                    self@.lemma_rotation_len();
                }
                let count: usize = self.providers.len();
                if count == 0 {
                    Action::FailAfter(RETRY_DELAY_SECS, local_usage_str(failure))
                } else {
                    self.next_attempt(count, failure)
                }
            },
            Event::Replied(call, reply) => match reply {
                Ok(value) => Action::Return(Ok(value)),
                Err(_) => {
                    self.move_to_unavailable_providers(call.id);
                    self.next_attempt(call.remaining, failure)
                },
            },
            Event::TimedOut(call) => {
                self.move_to_unavailable_providers(call.id);
                self.next_attempt(call.remaining, failure)
            },
        }
    }

    /// Goes on to the next provider, if one of `remaining` tries is left.
    fn next_attempt<T>(&mut self, remaining: usize, failure: &str) -> (action: Action<C, T>)
        requires
            old(self)@.wf(),
        ensures
            (final(self)@, action) == old(self)@.next_attempt::<T>(
                remaining as nat,
                failure@,
            ),
            final(self)@.wf(),
    {
        if remaining > 0 {
            if let Some((id, provider)) = self.next_provider() {
                return Action::Call(PendingCall { id, provider, remaining: remaining - 1 });
            }
        }
        Action::Return(Err(local_usage_str(failure)))
    }
}

} // verus!
