//! The mathematical model of a pool of providers, and what each operation does to it.
use crate::attempt::{Action, Event, PendingCall, SubscribeAction, SubscribeEvent};
use crate::provider::WsOrIpc;
use alloy::transports::TransportError;
use std::sync::Arc;
use vstd::prelude::*;

verus! {

/// The state of a balancer, as a mathematical value.
#[verifier::ext_equal]
pub struct Pool<C> {
    /// The providers that requests may be sent to, by id.
    pub available: Map<usize, Arc<WsOrIpc<C>>>,
    /// The ids of the available providers, in the order in which they take turns.
    pub rotation: Seq<usize>,
    /// Every provider that was ever registered, by id.
    pub known: Map<usize, Arc<WsOrIpc<C>>>,
    /// The ids that await a ping, oldest first.
    pub unavailable: Seq<usize>,
    /// How many selections have been made, modulo the size of `usize`.
    pub current: usize,
    /// The id that the next provider gets.
    pub next_id: usize,
}

/// The successor of a counter that wraps around.
pub open spec fn successor(counter: usize) -> usize {
    if counter == usize::MAX {
        0
    } else {
        (counter + 1) as usize
    }
}

/// The rotation with an id in it: a newcomer goes last, and one that takes part already
/// keeps its place.
pub open spec fn enlisted(rotation: Seq<usize>, id: usize) -> Seq<usize> {
    if rotation.contains(id) {
        rotation
    } else {
        rotation.push(id)
    }
}

impl<C> Pool<C> {
    /// The pool's invariant: exactly the available providers take turns, each has one turn,
    /// each is registered, and a registered provider that is not available awaits a ping.
    pub open spec fn wf(self) -> bool {
        &&& self.rotation.no_duplicates()
        &&& forall|id: usize|
            #[trigger] self.rotation.contains(id) <==> self.available.contains_key(id)
        &&& forall|id: usize| #[trigger]
            self.available.contains_key(id) ==> self.known.contains_key(id) && self.known[id]
                == self.available[id]
        &&& forall|id: usize|
            #![trigger self.known.contains_key(id)]
            self.known.contains_key(id) && !self.available.contains_key(id)
                ==> self.unavailable.contains(id)
    }

    /// No registered provider has the id that the next one gets, or a later one.
    pub open spec fn ids_are_fresh(self) -> bool {
        forall|id: usize| #[trigger] self.known.contains_key(id) ==> id < self.next_id
    }

    /// The id of the provider whose turn it is.
    pub open spec fn selected(self) -> usize
        recommends
            self.rotation.len() > 0,
    {
        self.rotation[self.current as int % self.rotation.len() as int]
    }

    /// The pool after one selection: the turn passes on.
    pub open spec fn after_selection(self) -> Pool<C> {
        Pool { current: successor(self.current), ..self }
    }

    /// The pool with a new provider, which is available at once.
    pub open spec fn added(self, provider: Arc<WsOrIpc<C>>) -> Pool<C> {
        Pool {
            available: self.available.insert(self.next_id, provider),
            rotation: enlisted(self.rotation, self.next_id),
            known: self.known.insert(self.next_id, provider),
            next_id: successor(self.next_id),
            ..self
        }
    }

    /// The pool after a failure of the provider: it is no longer available and awaits a ping.
    pub open spec fn moved_out(self, id: usize) -> Pool<C> {
        Pool {
            available: self.available.remove(id),
            rotation: self.rotation.remove_value(id),
            unavailable: self.unavailable.push(id),
            ..self
        }
    }

    /// The ids that a round of pings goes to: those that await a ping and belong to a
    /// registered provider.
    pub open spec fn ping_targets(self) -> Seq<usize> {
        self.unavailable.filter(|id: usize| self.known.contains_key(id))
    }

    /// The pool after the reply to one ping. A provider that is online is available again;
    /// one that is not awaits another ping.
    pub open spec fn pinged(self, id: usize, online: bool) -> Pool<C> {
        if online {
            Pool {
                available: self.available.insert(id, self.known[id]),
                rotation: enlisted(self.rotation, id),
                ..self
            }
        } else {
            Pool { unavailable: self.unavailable.push(id), ..self }
        }
    }

    /// The pool after the replies to the first `n` pings, where the i-th went to
    /// `targets[i]` and found its provider online if `online[i]`.
    pub open spec fn pinged_in_turn(self, targets: Seq<usize>, online: Seq<bool>, n: nat) -> Pool<C>
        decreases n,
    {
        if n == 0 {
            self
        } else {
            self.pinged_in_turn(targets, online, (n - 1) as nat).pinged(
                targets[n - 1],
                online[n - 1],
            )
        }
    }

    /// The pool after a round of pings, of which the i-th target was found online if
    /// `online[i]`. Only the targets that were not stay on the list.
    pub open spec fn after_pings(self, online: Seq<bool>) -> Pool<C> {
        Pool { unavailable: Seq::empty(), ..self }.pinged_in_turn(
            self.ping_targets(),
            online,
            self.ping_targets().len(),
        )
    }

    /// The next step of a request that may still try `remaining` providers: it goes to the
    /// provider whose turn it is, or fails when no try or no provider is left.
    pub open spec fn next_attempt<T>(self, remaining: nat, failure: Seq<char>) -> (
        Pool<C>,
        Action<C, T>,
    ) {
        if remaining == 0 || self.rotation.len() == 0 {
            (self, Action::Return(Err(crate::transport::local_usage_error(failure))))
        } else {
            (
                self.after_selection(),
                Action::Call(
                    PendingCall {
                        id: self.selected(),
                        provider: self.available[self.selected()],
                        remaining: (remaining - 1) as usize,
                    },
                ),
            )
        }
    }

    /// One step of a request. It may try as many providers as are available when it starts;
    /// if there is none it fails after the retry delay. An answer ends it; a failure, or no
    /// reply in time, moves the provider out and goes on with the next one.
    pub open spec fn request_step<T>(self, event: Event<C, T>, failure: Seq<char>) -> (
        Pool<C>,
        Action<C, T>,
    ) {
        match event {
            Event::Start => if self.rotation.len() == 0 {
                (
                    self,
                    Action::FailAfter(
                        crate::provider::RETRY_DELAY_SECS,
                        crate::transport::local_usage_error(failure),
                    ),
                )
            } else {
                self.next_attempt(self.rotation.len(), failure)
            },
            Event::Replied(_, Ok(value)) => (self, Action::Return(Ok(value))),
            Event::Replied(call, Err(_)) => self.moved_out(call.id).next_attempt(
                call.remaining as nat,
                failure,
            ),
            Event::TimedOut(call) => self.moved_out(call.id).next_attempt(
                call.remaining as nat,
                failure,
            ),
        }
    }

    /// One step of a subscription, which requests a stream, consumes it, and requests another
    /// one when it has ended.
    pub open spec fn subscribe_step<S>(self, event: SubscribeEvent<C, S>, failure: Seq<char>) -> (
        Pool<C>,
        SubscribeAction<C, S>,
    ) {
        let (pool, action) = self.request_step(event.as_request(), failure);
        (pool, action.as_subscription())
    }
}

/// Removing an id from a sequence without duplicates takes out that id and no other.
pub proof fn lemma_remove_id(ids: Seq<usize>, id: usize)
    requires
        ids.no_duplicates(),
    ensures
        ids.remove_value(id).no_duplicates(),
        forall|other: usize| #[trigger]
            ids.remove_value(id).contains(other) <==> ids.contains(other) && other != id,
        ids.contains(id) ==> ids.remove_value(id).len() + 1 == ids.len(),
        !ids.contains(id) ==> ids.remove_value(id) == ids,
{
    ids.index_of_first_ensures(id);
    if ids.contains(id) {
        let i = ids.index_of_first(id).unwrap();
        let rest = ids.remove(i);
        assert(ids.remove_value(id) == rest);
        assert forall|other: usize| #[trigger] rest.contains(other) <==> ids.contains(other) && other
            != id by {
            if rest.contains(other) {
                let k = rest.index_of(other);
                if k < i {
                    assert(ids[k] == other);
                } else {
                    assert(ids[k + 1] == other);
                }
            }
            if ids.contains(other) && other != id {
                let k = ids.index_of(other);
                if k < i {
                    assert(rest[k] == other);
                } else {
                    assert(rest[k - 1] == other);
                }
            }
        }
    }
}

/// Removing an id from a sequence without duplicates leaves all the others, in order.
pub proof fn lemma_remove_is_filter(ids: Seq<usize>, id: usize)
    requires
        ids.no_duplicates(),
    ensures
        ids.remove_value(id) == ids.filter(|other: usize| other != id),
    decreases ids.len(),
{
    reveal(Seq::filter);
    let others = |other: usize| other != id;
    ids.index_of_first_ensures(id);
    if ids.len() > 0 {
        let init = ids.drop_last();
        lemma_remove_is_filter(init, id);
        init.index_of_first_ensures(id);
        if ids.last() == id {
            assert(!init.contains(id));
            assert(ids.contains(id));
            assert(init.remove_value(id) == init);
            assert(ids.remove_value(id) =~= init);
        } else if init.contains(id) {
            assert(ids.contains(id)) by {
                assert(ids[init.index_of(id)] == id);
            }
            assert(ids.remove_value(id) =~= init.remove_value(id).push(ids.last()));
        } else {
            assert(!ids.contains(id)) by {
                if ids.contains(id) {
                    let k = ids.index_of(id);
                    assert(init[k] == id);
                }
            }
            assert(ids.remove_value(id) =~= init.remove_value(id).push(ids.last()));
        }
    }
}

/// Enlisting an id adds that id and no other.
pub proof fn lemma_enlist_id(rotation: Seq<usize>, id: usize)
    requires
        rotation.no_duplicates(),
    ensures
        enlisted(rotation, id).no_duplicates(),
        forall|other: usize| #[trigger]
            enlisted(rotation, id).contains(other) <==> rotation.contains(other) || other == id,
{
    let longer = rotation.push(id);
    assert(longer[rotation.len() as int] == id);
    assert forall|other: usize| rotation.contains(other) implies #[trigger] longer.contains(
        other,
    ) by {
        let k = rotation.index_of(other);
        assert(longer[k] == other);
    }
}

impl<C> Pool<C> {
    /// As many providers take turns as are available.
    pub proof fn lemma_rotation_len(self)
        requires
            self.wf(),
        ensures
            self.available.dom().finite(),
            self.available.len() == self.rotation.len(),
    {
        self.rotation.unique_seq_to_set();
        assert(self.rotation.to_set() =~= self.available.dom());
    }

    /// While a provider is available, one has the turn, and it is available.
    pub proof fn lemma_selected_is_available(self)
        requires
            self.wf(),
            self.rotation.len() > 0,
        ensures
            self.rotation.contains(self.selected()),
            self.available.contains_key(self.selected()),
    {
        assert(0 <= (self.current as int) % (self.rotation.len() as int) && (self.current as int) % (
            self.rotation.len() as int) < self.rotation.len());
        assert(self.rotation.contains(self.selected()));
    }

    /// Adding a provider keeps the pool's invariant.
    pub proof fn lemma_added_wf(self, provider: Arc<WsOrIpc<C>>)
        requires
            self.wf(),
        ensures
            self.added(provider).wf(),
    {
        lemma_enlist_id(self.rotation, self.next_id);
    }

    /// Moving a provider out keeps the pool's invariant.
    pub proof fn lemma_moved_out_wf(self, id: usize)
        requires
            self.wf(),
        ensures
            self.moved_out(id).wf(),
    {
        lemma_remove_id(self.rotation, id);
        let longer = self.unavailable.push(id);
        assert(longer[self.unavailable.len() as int] == id);
        assert forall|other: usize| self.unavailable.contains(other) implies longer.contains(
            other,
        ) by {
            assert(longer[self.unavailable.index_of(other)] == other);
        }
    }
}

impl<C> Pool<C> {
    /// What the first `n` replies to pings leave of the pool. Nothing registered is touched;
    /// a provider is available if it was before or was found online; and one that was found
    /// offline awaits a ping behind those that did already.
    pub proof fn lemma_pinged_in_turn(self, targets: Seq<usize>, online: Seq<bool>, n: nat)
        requires
            self.rotation.no_duplicates(),
            forall|id: usize| #[trigger]
                self.rotation.contains(id) <==> self.available.contains_key(id),
            forall|id: usize| #[trigger]
                self.available.contains_key(id) ==> self.known.contains_key(id) && self.known[id]
                    == self.available[id],
            forall|i: int| 0 <= i < n ==> self.known.contains_key(#[trigger] targets[i]),
        ensures
            ({
                let after = self.pinged_in_turn(targets, online, n);
                &&& after.rotation.no_duplicates()
                &&& forall|id: usize| #[trigger]
                    after.rotation.contains(id) <==> after.available.contains_key(id)
                &&& forall|id: usize| #[trigger]
                    after.available.contains_key(id) ==> after.known.contains_key(id)
                        && after.known[id] == after.available[id]
                &&& after.known == self.known
                &&& after.current == self.current
                &&& after.next_id == self.next_id
                &&& forall|id: usize| #[trigger]
                    after.available.contains_key(id) <==> self.available.contains_key(id)
                        || found(targets, online, n, id, true)
                &&& forall|id: usize| #[trigger]
                    after.unavailable.contains(id) <==> self.unavailable.contains(id) || found(
                        targets,
                        online,
                        n,
                        id,
                        false,
                    )
            }),
        decreases n,
    {
        if n > 0 {
            let m = (n - 1) as nat;
            self.lemma_pinged_in_turn(targets, online, m);
            let before = self.pinged_in_turn(targets, online, m);
            let after = self.pinged_in_turn(targets, online, n);
            let target = targets[n - 1];
            lemma_enlist_id(before.rotation, target);
            assert forall|id: usize, reply: bool| #[trigger]
                found(targets, online, n, id, reply) <==> found(targets, online, m, id, reply) || (
                id == target && reply == online[n - 1]) by {
                if found(targets, online, n, id, reply) {
                    let i = choose|i: int|
                        0 <= i < n && #[trigger] targets[i] == id && online[i] == reply;
                    if i < m {
                        assert(targets[i] == id);
                    }
                }
                if found(targets, online, m, id, reply) {
                    let i = choose|i: int|
                        0 <= i < m && #[trigger] targets[i] == id && online[i] == reply;
                    assert(targets[i] == id);
                }
            }
            if !online[n - 1] {
                assert(after.unavailable[before.unavailable.len() as int] == target);
                assert forall|id: usize| #[trigger]
                    after.unavailable.contains(id) <==> before.unavailable.contains(id) || id
                        == target by {
                    if before.unavailable.contains(id) {
                        assert(after.unavailable[before.unavailable.index_of(id)] == id);
                    }
                }
            }
        }
    }

    /// Exactly the registered ids on the unavailable list are pinged.
    pub proof fn lemma_ping_targets(self)
        ensures
            forall|id: usize| #[trigger]
                self.ping_targets().contains(id) <==> self.unavailable.contains(id)
                    && self.known.contains_key(id),
            forall|i: int|
                0 <= i < self.ping_targets().len() ==> self.known.contains_key(
                    #[trigger] self.ping_targets()[i],
                ),
    {
        broadcast use vstd::seq_lib::group_filter_ensures;

        let registered = |id: usize| self.known.contains_key(id);
        assert forall|id: usize| #[trigger]
            self.ping_targets().contains(id) <==> self.unavailable.contains(id)
                && self.known.contains_key(id) by {
            if self.ping_targets().contains(id) {
                let k = self.ping_targets().index_of(id);
                assert(registered(self.ping_targets()[k]));
                self.unavailable.lemma_filter_contains_rev(registered, id);
            }
            if self.unavailable.contains(id) && self.known.contains_key(id) {
                let k = self.unavailable.index_of(id);
                assert(registered(self.unavailable[k]));
                self.unavailable.lemma_filter_contains(registered, k);
            }
        }
    }

    /// A round of pings keeps the pool's invariant.
    pub proof fn lemma_after_pings_wf(self, online: Seq<bool>)
        requires
            self.wf(),
            online.len() == self.ping_targets().len(),
        ensures
            self.after_pings(online).wf(),
    {
        let targets = self.ping_targets();
        let start = Pool { unavailable: Seq::<usize>::empty(), ..self };
        self.lemma_ping_targets();
        start.lemma_pinged_in_turn(targets, online, targets.len());
        let after = self.after_pings(online);
        assert forall|id: usize|
            #![trigger after.known.contains_key(id)]
            after.known.contains_key(id) && !after.available.contains_key(
                id,
            ) implies after.unavailable.contains(id) by {
            assert(targets.contains(id));
            let k = targets.index_of(id);
            assert(targets[k] == id);
            assert(found(targets, online, targets.len(), id, online[k]));
        }
    }
}

/// One of the first `n` pings went to the provider and found it online, or offline, as
/// `reply` says.
pub open spec fn found(
    targets: Seq<usize>,
    online: Seq<bool>,
    n: nat,
    id: usize,
    reply: bool,
) -> bool {
    exists|i: int| 0 <= i < n && #[trigger] targets[i] == id && online[i] == reply
}

/// Which of the replies to a round of pings found the provider online.
pub open spec fn online(replies: Seq<Result<(), TransportError>>) -> Seq<bool> {
    replies.map_values(|reply: Result<(), TransportError>| reply is Ok)
}

} // verus!
