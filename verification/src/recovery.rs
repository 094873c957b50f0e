//! What holds of the pool of providers over time: failing providers are set aside, none is
//! lost, and those that answer a ping come back.
use crate::attempt::Event;
use crate::pool::Pool;
use crate::provider::WsOrIpc;
use alloy::transports::TransportError;
use std::sync::Arc;
use vstd::prelude::*;

verus! {

/// Something that happens to a pool. Every step of a request or a subscription comes down to
/// moves and selections.
pub enum Operation<C> {
    /// A provider is selected.
    Select,
    /// A provider is added.
    Add(Arc<WsOrIpc<C>>),
    /// The failure of a provider is noted.
    MoveOut(usize),
    /// A round of pings found the i-th target online or not.
    Ping(Seq<bool>),
}

/// The pool after one operation.
pub open spec fn after_one<C>(pool: Pool<C>, operation: Operation<C>) -> Pool<C> {
    match operation {
        Operation::Select => pool.after_selection(),
        Operation::Add(provider) => pool.added(provider),
        Operation::MoveOut(id) => pool.moved_out(id),
        Operation::Ping(online) => pool.after_pings(online),
    }
}

/// The pool after the first `n` operations.
pub open spec fn after<C>(pool: Pool<C>, operations: Seq<Operation<C>>, n: nat) -> Pool<C>
    decreases n,
{
    if n == 0 {
        pool
    } else {
        after_one(after(pool, operations, (n - 1) as nat), operations[n - 1])
    }
}

/// How many of the first `n` operations add a provider.
pub open spec fn additions<C>(operations: Seq<Operation<C>>, n: nat) -> nat
    decreases n,
{
    if n == 0 {
        0
    } else {
        additions(operations, (n - 1) as nat) + if operations[n - 1] is Add {
            1nat
        } else {
            0nat
        }
    }
}

/// A round of pings has one reply for each of its targets.
pub open spec fn replies_match<C>(pool: Pool<C>, operation: Operation<C>) -> bool {
    operation matches Operation::Ping(online) ==> online.len() == pool.ping_targets().len()
}

/// Every round of pings has one reply for each of its targets.
pub open spec fn history<C>(pool: Pool<C>, operations: Seq<Operation<C>>) -> bool {
    forall|n: nat|
        n < operations.len() ==> replies_match(
            #[trigger] after(pool, operations, n),
            operations[n as int],
        )
}

/// The operation is a round of pings in which the provider is found online.
pub open spec fn recovers<C>(pool: Pool<C>, operation: Operation<C>, id: usize) -> bool {
    operation matches Operation::Ping(online) && crate::pool::found(
        pool.ping_targets(),
        online,
        pool.ping_targets().len(),
        id,
        true,
    )
}

/// The places, in ascending order, at which the ids of `short` stand in `long`.
pub open spec fn picks(places: Seq<int>, short: Seq<usize>, long: Seq<usize>) -> bool {
    &&& places.len() == short.len()
    &&& forall|i: int|
        0 <= i < places.len() ==> 0 <= #[trigger] places[i] < long.len() && short[i]
            == long[places[i]]
    &&& forall|i: int, j: int| 0 <= i < j < places.len() ==> places[i] < places[j]
}

/// `short` is `long` with some ids left out and the order of the others kept.
pub open spec fn subsequence(short: Seq<usize>, long: Seq<usize>) -> bool {
    exists|places: Seq<int>| picks(places, short, long)
}

/// `short` consists of the ids of `long` at the places to keep, in order, and of no others.
pub open spec fn kept(short: Seq<usize>, long: Seq<usize>, keep: spec_fn(int) -> bool) -> bool {
    exists|places: Seq<int>| #[trigger]
        picks(places, short, long) && forall|i: int|
            0 <= i < long.len() ==> (#[trigger] keep(i) <==> places.contains(i))
}

/// A subsequence of a subsequence is a subsequence.
proof fn lemma_subsequence_transitive(short: Seq<usize>, middle: Seq<usize>, long: Seq<usize>)
    requires
        subsequence(short, middle),
        subsequence(middle, long),
    ensures
        subsequence(short, long),
{
    let inner = choose|places: Seq<int>| picks(places, short, middle);
    let outer = choose|places: Seq<int>| picks(places, middle, long);
    let places = Seq::new(inner.len(), |i: int| outer[inner[i]]);
    assert(picks(places, short, long));
}

/// A subsequence of distinct ids has distinct ids.
proof fn lemma_subsequence_distinct(short: Seq<usize>, long: Seq<usize>)
    requires
        subsequence(short, long),
        long.no_duplicates(),
    ensures
        short.no_duplicates(),
{
    let places = choose|places: Seq<int>| picks(places, short, long);
    assert forall|i: int, j: int| 0 <= i < j < short.len() implies short[i] != short[j] by {
        assert(places[i] < places[j]);
        assert(long[places[i]] != long[places[j]]);
    }
}

/// Filtering leaves a subsequence.
proof fn lemma_filter_is_subsequence(ids: Seq<usize>, keep: spec_fn(usize) -> bool)
    ensures
        subsequence(ids.filter(keep), ids),
    decreases ids.len(),
{
    reveal(Seq::filter);
    if ids.len() == 0 {
        assert(picks(Seq::empty(), ids.filter(keep), ids));
    } else {
        let init = ids.drop_last();
        lemma_filter_is_subsequence(init, keep);
        let before = choose|places: Seq<int>| picks(places, init.filter(keep), init);
        if keep(ids.last()) {
            assert(picks(before.push(ids.len() - 1), ids.filter(keep), ids));
        } else {
            assert(picks(before, ids.filter(keep), ids));
        }
    }
}

/// One more place is what was there before, and the new one.
proof fn lemma_one_more_place(places: Seq<int>, place: int)
    ensures
        forall|i: int| #[trigger]
            places.push(place).contains(i) <==> places.contains(i) || i == place,
{
    let more = places.push(place);
    assert(more[places.len() as int] == place);
    assert forall|i: int| #[trigger] more.contains(i) <==> places.contains(i) || i == place by {
        if places.contains(i) {
            assert(more[places.index_of(i)] == i);
        }
    }
}

/// The places at which a filter keeps what it finds.
proof fn lemma_filter_places(ids: Seq<usize>, keep: spec_fn(usize) -> bool) -> (places: Seq<int>)
    ensures
        picks(places, ids.filter(keep), ids),
        forall|i: int| 0 <= i < ids.len() ==> (keep(#[trigger] ids[i]) <==> places.contains(i)),
    decreases ids.len(),
{
    reveal(Seq::filter);
    if ids.len() == 0 {
        Seq::empty()
    } else {
        let init = ids.drop_last();
        let last = ids.len() - 1;
        let before = lemma_filter_places(init, keep);
        lemma_one_more_place(before, last);
        let places = if keep(ids.last()) {
            before.push(last)
        } else {
            before
        };
        assert(picks(places, ids.filter(keep), ids));
        assert forall|i: int| 0 <= i < ids.len() implies (keep(#[trigger] ids[i])
            <==> places.contains(i)) by {
            if i < last {
                assert(init[i] == ids[i]);
            } else if before.contains(i) {
                let j = before.index_of(i);
                assert(before[j] < init.len());
            }
        }
        places
    }
}

/// The places of the pings that found nobody, and of those that first found a provider that
/// had no turn, among the first `n` pings.
proof fn lemma_ping_places<C>(
    pool: Pool<C>,
    targets: Seq<usize>,
    online: Seq<bool>,
    n: nat,
) -> (places: (Seq<int>, Seq<int>))
    requires
        pool.unavailable == Seq::<usize>::empty(),
        pool.rotation.no_duplicates(),
        n <= targets.len(),
    ensures
        ({
            let after = pool.pinged_in_turn(targets, online, n);
            let len = pool.rotation.len() as int;
            &&& picks(places.0, after.unavailable, targets)
            &&& forall|i: int|
                #![trigger places.0.contains(i)]
                #![trigger online[i]]
                places.0.contains(i) <==> 0 <= i < n && !online[i]
            &&& after.rotation.no_duplicates()
            &&& after.rotation.len() >= len
            &&& after.rotation.take(len) == pool.rotation
            &&& picks(places.1, after.rotation.skip(len), targets)
            &&& forall|j: int|
                0 <= j < places.1.len() ==> #[trigger] places.1[j] < n && online[places.1[j]]
            &&& forall|i: int, j: int|
                0 <= j < places.1.len() && 0 <= i < places.1[j] && #[trigger] online[i]
                    ==> targets[i] != targets[#[trigger] places.1[j]]
            &&& forall|i: int|
                0 <= i < n && #[trigger] online[i] ==> after.rotation.contains(targets[i])
        }),
    decreases n,
{
    let len = pool.rotation.len() as int;
    if n == 0 {
        assert(pool.rotation.take(len) =~= pool.rotation);
        (Seq::empty(), Seq::empty())
    } else {
        let m = (n - 1) as nat;
        let (offline, first) = lemma_ping_places(pool, targets, online, m);
        let before = pool.pinged_in_turn(targets, online, m);
        let after = pool.pinged_in_turn(targets, online, n);
        let target = targets[n - 1];
        lemma_one_more_place(offline, n - 1);
        crate::pool::lemma_enlist_id(before.rotation, target);
        if !online[n - 1] {
            let more = offline.push(n - 1);
            assert forall|j: int| 0 <= j < offline.len() implies #[trigger] offline[j] < m by {
                assert(offline.contains(offline[j]));
                assert(!online[offline[j]]);
            }
            assert(picks(more, after.unavailable, targets));
            (more, first)
        } else if before.rotation.contains(target) {
            (offline, first)
        } else {
            let more = first.push(n - 1);
            assert(after.rotation == before.rotation.push(target));
            assert(after.rotation.take(len) =~= before.rotation.take(len));
            assert(after.rotation.skip(len) =~= before.rotation.skip(len).push(target));
            assert(picks(more, after.rotation.skip(len), targets));
            assert forall|i: int, j: int|
                0 <= j < more.len() && 0 <= i < more[j] && #[trigger] online[i] implies targets[i]
                != targets[#[trigger] more[j]] by {
                if j < first.len() {
                    assert(more[j] == first[j]);
                } else {
                    assert(before.rotation.contains(targets[i]));
                }
            }
            (offline, more)
        }
    }
}

/// The first `n` pings leave a subsequence of their targets on the list.
proof fn lemma_offline_is_subsequence<C>(
    pool: Pool<C>,
    targets: Seq<usize>,
    online: Seq<bool>,
    n: nat,
)
    requires
        pool.unavailable == Seq::<usize>::empty(),
        n <= targets.len(),
    ensures
        subsequence(pool.pinged_in_turn(targets, online, n).unavailable, targets.take(n as int)),
    decreases n,
{
    let left = pool.pinged_in_turn(targets, online, n).unavailable;
    if n == 0 {
        assert(picks(Seq::empty(), left, targets.take(0)));
    } else {
        let m = (n - 1) as nat;
        lemma_offline_is_subsequence(pool, targets, online, m);
        let left_before = pool.pinged_in_turn(targets, online, m).unavailable;
        let before = choose|places: Seq<int>| picks(places, left_before, targets.take(m as int));
        if online[n - 1] {
            assert(picks(before, left, targets.take(n as int)));
        } else {
            assert(picks(before.push(n - 1), left, targets.take(n as int)));
        }
    }
}

/// What a round of pings does to a provider that was or was not available.
proof fn lemma_after_pings<C>(pool: Pool<C>, online: Seq<bool>)
    requires
        pool.wf(),
        online.len() == pool.ping_targets().len(),
    ensures
        pool.after_pings(online).wf(),
        pool.after_pings(online).known == pool.known,
        pool.after_pings(online).next_id == pool.next_id,
        pool.after_pings(online).current == pool.current,
        subsequence(pool.after_pings(online).unavailable, pool.ping_targets()),
        subsequence(pool.after_pings(online).unavailable, pool.unavailable),
        forall|id: usize| #[trigger]
            pool.after_pings(online).available.contains_key(id) <==> pool.available.contains_key(id)
                || crate::pool::found(
                pool.ping_targets(),
                online,
                pool.ping_targets().len(),
                id,
                true,
            ),
        forall|id: usize| #[trigger]
            pool.after_pings(online).unavailable.contains(id) <==> crate::pool::found(
                pool.ping_targets(),
                online,
                pool.ping_targets().len(),
                id,
                false,
            ),
{
    let targets = pool.ping_targets();
    let start = Pool { unavailable: Seq::<usize>::empty(), ..pool };
    pool.lemma_ping_targets();
    pool.lemma_after_pings_wf(online);
    start.lemma_pinged_in_turn(targets, online, targets.len());
    lemma_offline_is_subsequence(start, targets, online, targets.len());
    assert(targets.take(targets.len() as int) == targets);
    lemma_filter_is_subsequence(pool.unavailable, |id: usize| pool.known.contains_key(id));
    lemma_subsequence_transitive(
        pool.after_pings(online).unavailable,
        targets,
        pool.unavailable,
    );
}

/// Every operation keeps the pool's invariant: the available providers and no others take
/// turns, and every registered provider is available or awaits a ping.
pub proof fn law_invariant_is_kept<C>(pool: Pool<C>, operations: Seq<Operation<C>>, n: nat)
    requires
        pool.wf(),
        history(pool, operations),
        n <= operations.len(),
    ensures
        after(pool, operations, n).wf(),
    decreases n,
{
    if n > 0 {
        let before = after(pool, operations, (n - 1) as nat);
        law_invariant_is_kept(pool, operations, (n - 1) as nat);
        assert(replies_match(before, operations[n - 1]));
        match operations[n - 1] {
            Operation::Select => {},
            Operation::Add(provider) => before.lemma_added_wf(provider),
            Operation::MoveOut(id) => before.lemma_moved_out_wf(id),
            Operation::Ping(online) => before.lemma_after_pings_wf(online),
        }
    }
}

/// No provider is lost or mistaken for another: whatever happens, a registered provider stays
/// registered under its id, and is available or awaits a ping.
pub proof fn law_no_provider_is_lost<C>(
    pool: Pool<C>,
    operations: Seq<Operation<C>>,
    n: nat,
    id: usize,
)
    requires
        pool.wf(),
        pool.ids_are_fresh(),
        history(pool, operations),
        n <= operations.len(),
        pool.next_id + additions(operations, n) <= usize::MAX,
        pool.known.contains_key(id),
    ensures
        after(pool, operations, n).known.contains_key(id),
        after(pool, operations, n).known[id] == pool.known[id],
        after(pool, operations, n).available.contains_key(id) || after(
            pool,
            operations,
            n,
        ).ping_targets().contains(id),
{
    law_ids_are_given_out_in_order(pool, operations, n);
    law_invariant_is_kept(pool, operations, n);
    after(pool, operations, n).lemma_ping_targets();
}

/// Ids are given out in order, once each: until they run out, every addition takes the next one,
/// no provider has it before, and every provider keeps the one it got.
pub proof fn law_ids_are_given_out_in_order<C>(pool: Pool<C>, operations: Seq<Operation<C>>, n: nat)
    requires
        pool.wf(),
        pool.ids_are_fresh(),
        history(pool, operations),
        n <= operations.len(),
        pool.next_id + additions(operations, n) <= usize::MAX,
    ensures
        after(pool, operations, n).ids_are_fresh(),
        after(pool, operations, n).next_id == pool.next_id + additions(operations, n),
        forall|id: usize| #[trigger]
            pool.known.contains_key(id) ==> after(pool, operations, n).known.contains_key(id)
                && after(pool, operations, n).known[id] == pool.known[id],
        forall|k: nat|
            k < n ==> (#[trigger] operations[k as int] matches Operation::Add(provider) ==> {
                let id = (pool.next_id + additions(operations, k)) as usize;
                &&& !after(pool, operations, k).known.contains_key(id)
                &&& after(pool, operations, n).known.contains_key(id)
                &&& after(pool, operations, n).known[id] == provider
            }),
    decreases n,
{
    if n > 0 {
        let before = after(pool, operations, (n - 1) as nat);
        law_ids_are_given_out_in_order(pool, operations, (n - 1) as nat);
        law_invariant_is_kept(pool, operations, (n - 1) as nat);
        assert(replies_match(before, operations[n - 1]));
        if let Operation::Ping(online) = operations[n - 1] {
            lemma_after_pings(before, online);
        }
    }
}

/// Requests are not sent to a problematic provider until it recovers: one that is not
/// available does not become available, and is not selected, before a ping finds it online.
pub proof fn law_set_aside_until_it_recovers<C>(
    pool: Pool<C>,
    operations: Seq<Operation<C>>,
    n: nat,
    id: usize,
)
    requires
        pool.wf(),
        pool.ids_are_fresh(),
        history(pool, operations),
        n <= operations.len(),
        pool.next_id + additions(operations, n) <= usize::MAX,
        pool.known.contains_key(id),
        !pool.available.contains_key(id),
        forall|k: nat|
            k < n ==> !recovers(#[trigger] after(pool, operations, k), operations[k as int], id),
    ensures
        !after(pool, operations, n).available.contains_key(id),
        after(pool, operations, n).rotation.len() > 0 ==> after(pool, operations, n).selected()
            != id,
    decreases n,
{
    law_invariant_is_kept(pool, operations, n);
    if n > 0 {
        let m = (n - 1) as nat;
        let before = after(pool, operations, m);
        law_set_aside_until_it_recovers(pool, operations, m, id);
        law_invariant_is_kept(pool, operations, m);
        law_ids_are_given_out_in_order(pool, operations, m);
        assert(replies_match(before, operations[n - 1]));
        assert(!recovers(before, operations[n - 1], id));
        if let Operation::Ping(online) = operations[n - 1] {
            lemma_after_pings(before, online);
        }
    }
    if after(pool, operations, n).rotation.len() > 0 {
        after(pool, operations, n).lemma_selected_is_available();
    }
}

/// A failure sets the provider aside: it is not available, is not selected, and is pinged in
/// the next round. No other provider becomes available or unavailable.
pub proof fn law_failure_sets_aside<C>(pool: Pool<C>, id: usize)
    requires
        pool.wf(),
        pool.available.contains_key(id),
    ensures
        !pool.moved_out(id).available.contains_key(id),
        pool.moved_out(id).rotation.len() > 0 ==> pool.moved_out(id).selected() != id,
        pool.moved_out(id).ping_targets().contains(id),
        forall|other: usize|
            other != id ==> (#[trigger] pool.moved_out(id).available.contains_key(other)
                <==> pool.available.contains_key(other)),
{
    pool.lemma_moved_out_wf(id);
    pool.moved_out(id).lemma_ping_targets();
    assert(pool.moved_out(id).known.contains_key(id));
    if pool.moved_out(id).rotation.len() > 0 {
        pool.moved_out(id).lemma_selected_is_available();
    }
}

/// A round of pings reaches every registered provider that is not available, and decides on
/// it: it is available again if a ping found it online, and otherwise still awaits a ping.
/// No available provider is taken away. Those that still await a ping do so in the order in
/// which they did before; nobody's turn passes and nobody is registered.
pub proof fn law_pings_decide<C>(pool: Pool<C>, online: Seq<bool>, id: usize)
    requires
        pool.wf(),
        online.len() == pool.ping_targets().len(),
        pool.known.contains_key(id),
    ensures
        !pool.available.contains_key(id) ==> pool.ping_targets().contains(id),
        recovers(pool, Operation::Ping(online), id) ==> pool.after_pings(
            online,
        ).available.contains_key(id) && pool.after_pings(online).available[id] == pool.known[id]
            && pool.after_pings(online).rotation.contains(id),
        !pool.available.contains_key(id) && !recovers(pool, Operation::Ping(online), id)
            ==> !pool.after_pings(online).available.contains_key(id) && pool.after_pings(
            online,
        ).ping_targets().contains(id),
        pool.available.contains_key(id) ==> pool.after_pings(online).available.contains_key(id),
        subsequence(pool.after_pings(online).unavailable, pool.unavailable),
        pool.after_pings(online).known == pool.known,
        pool.after_pings(online).current == pool.current,
        pool.after_pings(online).next_id == pool.next_id,
{
    pool.lemma_ping_targets();
    lemma_after_pings(pool, online);
    pool.after_pings(online).lemma_ping_targets();
    assert(pool.after_pings(online).known.contains_key(id));
}

/// A round of pings goes to the registered ids on the unavailable list, to each as often as it
/// is listed and in the order of the list, and to no others.
pub proof fn law_pings_go_to_the_listed_providers<C>(pool: Pool<C>)
    ensures
        kept(
            pool.ping_targets(),
            pool.unavailable,
            |i: int| pool.known.contains_key(pool.unavailable[i]),
        ),
{
    let registered = |id: usize| pool.known.contains_key(id);
    let keep = |i: int| pool.known.contains_key(pool.unavailable[i]);
    let places = lemma_filter_places(pool.unavailable, registered);
    assert(picks(places, pool.ping_targets(), pool.unavailable));
    assert forall|i: int| 0 <= i < pool.unavailable.len() implies (#[trigger] keep(i)
        <==> places.contains(i)) by {
        assert(registered(pool.unavailable[i]) <==> places.contains(i));
    }
}

/// Each reply to a round of pings decides on the provider that gave it, and on no other. Where
/// it is no error, the provider that was pinged is available again, as it was registered; where
/// it is one, it stays on the unavailable list. Exactly the targets whose reply is an error are
/// listed afterwards, in order. A provider that was not available before, and of which every
/// reply is an error, is not available. One that was stays so. Those that come back take their
/// turns after the others, in the order in which they were found. Nobody's turn passes and
/// nobody is registered.
pub proof fn law_each_reply_decides_on_its_provider<C>(
    pool: Pool<C>,
    replies: Seq<Result<(), TransportError>>,
)
    requires
        pool.wf(),
        replies.len() == pool.ping_targets().len(),
    ensures
        ({
            let targets = pool.ping_targets();
            let after = pool.after_pings(crate::pool::online(replies));
            let len = pool.rotation.len() as int;
            &&& after.wf()
            &&& after.known == pool.known
            &&& after.current == pool.current
            &&& after.next_id == pool.next_id
            &&& forall|i: int|
                0 <= i < targets.len() && replies[i] is Ok ==> after.available.contains_key(
                    #[trigger] targets[i],
                ) && after.available[targets[i]] == pool.known[targets[i]]
            &&& forall|i: int|
                0 <= i < targets.len() && replies[i] is Err ==> after.unavailable.contains(
                    #[trigger] targets[i],
                )
            &&& forall|id: usize|
                !pool.available.contains_key(id) && (forall|i: int|
                    0 <= i < targets.len() && #[trigger] targets[i] == id ==> replies[i] is Err)
                    ==> !(#[trigger] after.available.contains_key(id)) && (pool.known.contains_key(
                    id,
                ) ==> after.unavailable.contains(id))
            &&& forall|id: usize| #[trigger]
                pool.available.contains_key(id) ==> after.available.contains_key(id)
                    && after.available[id] == pool.available[id]
            &&& kept(after.unavailable, targets, |i: int| replies[i] is Err)
            &&& after.rotation.take(len) == pool.rotation
            &&& exists|places: Seq<int>| #[trigger]
                picks(places, after.rotation.skip(len), targets) && forall|j: int|
                    0 <= j < places.len() ==> replies[#[trigger] places[j]] is Ok && forall|i: int|
                        0 <= i < places[j] && #[trigger] targets[i] == targets[places[j]]
                            ==> replies[i] is Err
        }),
{
    let targets = pool.ping_targets();
    let online = crate::pool::online(replies);
    let start = Pool { unavailable: Seq::<usize>::empty(), ..pool };
    let after = pool.after_pings(online);
    let len = pool.rotation.len() as int;
    pool.lemma_ping_targets();
    lemma_after_pings(pool, online);
    after.lemma_ping_targets();
    let (offline, first) = lemma_ping_places(start, targets, online, targets.len());
    assert forall|i: int| 0 <= i < targets.len() && replies[i] is Ok implies
        after.available.contains_key(#[trigger] targets[i]) && after.available[targets[i]]
        == pool.known[targets[i]] by {
        assert(online[i]);
        assert(crate::pool::found(targets, online, targets.len(), targets[i], true));
    }
    assert forall|i: int| 0 <= i < targets.len() && replies[i] is Err implies
        after.unavailable.contains(#[trigger] targets[i]) by {
        assert(!online[i]);
        assert(crate::pool::found(targets, online, targets.len(), targets[i], false));
    }
    assert forall|id: usize|
        !pool.available.contains_key(id) && (forall|i: int|
            0 <= i < targets.len() && #[trigger] targets[i] == id ==> replies[i] is Err) implies !(
    #[trigger] after.available.contains_key(id)) && (pool.known.contains_key(id)
        ==> after.unavailable.contains(id)) by {
        if after.available.contains_key(id) {
            let k = choose|k: int|
                0 <= k < targets.len() && #[trigger] targets[k] == id && online[k] == true;
            assert(replies[k] is Err);
        }
        if pool.known.contains_key(id) {
            assert(after.known.contains_key(id));
        }
    }
    let keep = |i: int| replies[i] is Err;
    assert(picks(offline, after.unavailable, targets));
    assert forall|i: int| 0 <= i < targets.len() implies (#[trigger] keep(i) <==> offline.contains(
        i,
    )) by {
        assert(online[i] <==> replies[i] is Ok);
    }
    assert(kept(after.unavailable, targets, keep));
    assert(picks(first, after.rotation.skip(len), targets));
    assert forall|j: int| 0 <= j < first.len() implies replies[#[trigger] first[j]] is Ok && forall|
        i: int,
    |
        0 <= i < first[j] && #[trigger] targets[i] == targets[first[j]] ==> replies[i] is Err by {
        assert(online[first[j]]);
        assert forall|i: int| 0 <= i < first[j] && #[trigger] targets[i] == targets[first[j]] implies
            replies[i] is Err by {
            assert(!online[i]);
        }
    }
}

/// A provider that is added is registered under the next id, is available at once, and takes
/// its turn after the others; if one with that id has a turn, it takes that one. The next id is
/// counted on, and nothing else changes.
pub proof fn law_addition_changes_nothing_else<C>(pool: Pool<C>, provider: Arc<WsOrIpc<C>>)
    requires
        pool.wf(),
    ensures
        pool.added(provider).wf(),
        pool.added(provider).available == pool.available.insert(pool.next_id, provider),
        pool.added(provider).known == pool.known.insert(pool.next_id, provider),
        !pool.available.contains_key(pool.next_id) ==> pool.added(provider).rotation
            == pool.rotation.push(pool.next_id),
        pool.available.contains_key(pool.next_id) ==> pool.added(provider).rotation
            == pool.rotation,
        pool.added(provider).unavailable == pool.unavailable,
        pool.added(provider).current == pool.current,
        pool.added(provider).next_id == (pool.next_id + 1) % (usize::MAX + 1),
{
    pool.lemma_added_wf(provider);
    crate::turns::lemma_counter(pool.next_id, 0);
    assert(pool.rotation.contains(pool.next_id) <==> pool.available.contains_key(pool.next_id));
}

/// A failure that is noted takes the provider with the id, and no other, out of those that are
/// available and take turns, and puts the id last on the unavailable list. The others keep
/// their providers and the order of their turns, and nothing else changes.
pub proof fn law_failure_changes_nothing_else<C>(pool: Pool<C>, id: usize)
    requires
        pool.wf(),
    ensures
        pool.moved_out(id).wf(),
        pool.moved_out(id).available == pool.available.remove(id),
        pool.moved_out(id).rotation == pool.rotation.filter(|other: usize| other != id),
        pool.moved_out(id).unavailable == pool.unavailable.push(id),
        pool.moved_out(id).known == pool.known,
        pool.moved_out(id).current == pool.current,
        pool.moved_out(id).next_id == pool.next_id,
{
    pool.lemma_moved_out_wf(id);
    crate::pool::lemma_remove_is_filter(pool.rotation, id);
}

/// When all the nodes have recovered, one round of pings makes every registered provider
/// available again and leaves the unavailable list empty.
pub proof fn law_all_recover<C>(pool: Pool<C>, online: Seq<bool>)
    requires
        pool.wf(),
        online.len() == pool.ping_targets().len(),
        forall|i: int| 0 <= i < online.len() ==> #[trigger] online[i],
    ensures
        pool.after_pings(online).available == pool.known,
        pool.after_pings(online).unavailable == Seq::<usize>::empty(),
{
    let targets = pool.ping_targets();
    let end = pool.after_pings(online);
    pool.lemma_ping_targets();
    lemma_after_pings(pool, online);
    assert forall|id: usize| pool.known.contains_key(id) implies #[trigger] end.available.contains_key(
        id,
    ) by {
        if !pool.available.contains_key(id) {
            assert(targets.contains(id));
            let k = targets.index_of(id);
            assert(targets[k] == id && online[k]);
            assert(crate::pool::found(targets, online, targets.len(), id, true));
        }
    }
    assert(end.available =~= pool.known);
    if end.unavailable.len() > 0 {
        let id = end.unavailable[0];
        assert(end.unavailable.contains(id));
        let k = choose|k: int| 0 <= k < targets.len() && #[trigger] targets[k] == id && online[k]
            == false;
        assert(online[k]);
    }
}

/// A ping undoes a failure: if every provider was available, one fails, and the ping to it
/// finds it online, then the same providers are available as before.
pub proof fn law_ping_undoes_failure<C>(pool: Pool<C>, id: usize)
    requires
        pool.wf(),
        pool.available == pool.known,
        pool.unavailable == Seq::<usize>::empty(),
        pool.available.contains_key(id),
    ensures
        pool.moved_out(id).ping_targets() == seq![id],
        pool.moved_out(id).after_pings(seq![true]).available == pool.available,
        pool.moved_out(id).after_pings(seq![true]).unavailable == pool.unavailable,
{
    let out = pool.moved_out(id);
    pool.lemma_moved_out_wf(id);
    out.lemma_ping_targets();
    reveal(Seq::filter);
    assert(out.unavailable =~= seq![id]);
    assert(out.unavailable.drop_last() =~= Seq::<usize>::empty());
    assert(out.ping_targets() =~= seq![id]) by {
        reveal_with_fuel(Seq::filter, 3);
    }
    law_all_recover(out, seq![true]);
}

/// A new provider gets an id that no other provider has, and takes turns at once, after the
/// others. Nothing changes for them.
pub proof fn law_added_provider_joins<C>(pool: Pool<C>, provider: Arc<WsOrIpc<C>>)
    requires
        pool.wf(),
        pool.ids_are_fresh(),
        pool.next_id < usize::MAX,
    ensures
        !pool.known.contains_key(pool.next_id),
        pool.added(provider).available.contains_key(pool.next_id),
        pool.added(provider).available[pool.next_id] == provider,
        pool.added(provider).rotation == pool.rotation.push(pool.next_id),
        pool.added(provider).ids_are_fresh(),
        forall|id: usize| #[trigger]
            pool.known.contains_key(id) ==> pool.added(provider).known[id] == pool.known[id] && (
            pool.added(provider).available.contains_key(id) <==> pool.available.contains_key(id)),
{
    assert(!pool.rotation.contains(pool.next_id));
}

/// The operations by which a request goes on after the provider has failed it.
pub open spec fn after_failure<C>(pool: Pool<C>, id: usize, remaining: usize) -> Seq<Operation<C>> {
    if remaining == 0 || pool.moved_out(id).rotation.len() == 0 {
        seq![Operation::MoveOut(id)]
    } else {
        seq![Operation::MoveOut(id), Operation::Select]
    }
}

/// The operations that a step of a request consists of.
pub open spec fn operations_of<C, T>(pool: Pool<C>, event: Event<C, T>) -> Seq<Operation<C>> {
    match event {
        Event::Start => if pool.rotation.len() == 0 {
            Seq::empty()
        } else {
            seq![Operation::Select]
        },
        Event::Replied(_, Ok(_)) => Seq::empty(),
        Event::Replied(call, Err(_)) => after_failure(pool, call.id, call.remaining),
        Event::TimedOut(call) => after_failure(pool, call.id, call.remaining),
    }
}

/// A step of a request does nothing to the pool but note a failure and select a provider, so
/// that what holds of all operations holds of requests and subscriptions.
pub proof fn law_requests_only_move_and_select<C, T>(
    pool: Pool<C>,
    event: Event<C, T>,
    failure: Seq<char>,
)
    ensures
        pool.request_step(event, failure).0 == after(
            pool,
            operations_of(pool, event),
            operations_of(pool, event).len(),
        ),
{
    reveal_with_fuel(after, 3);
}

/// A provider awaits at most one ping, and none while it is available.
pub open spec fn tidy<C>(pool: Pool<C>) -> bool {
    &&& pool.unavailable.no_duplicates()
    &&& forall|id: usize| #[trigger]
        pool.unavailable.contains(id) ==> pool.known.contains_key(id)
            && !pool.available.contains_key(id)
}

/// Every failure in the history is noted of a provider that is available at the time.
pub open spec fn failures_are_new<C>(pool: Pool<C>, operations: Seq<Operation<C>>) -> bool {
    forall|k: nat|
        k < operations.len() ==> (operations[k as int] matches Operation::MoveOut(id) ==> (
        #[trigger] after(pool, operations, k)).available.contains_key(id))
}

/// A provider is on one side only: as long as failures are noted of available providers, a
/// provider is available or on the unavailable list, never both, and never on it twice.
pub proof fn law_available_or_unavailable<C>(pool: Pool<C>, operations: Seq<Operation<C>>, n: nat)
    requires
        pool.wf(),
        pool.ids_are_fresh(),
        tidy(pool),
        history(pool, operations),
        failures_are_new(pool, operations),
        n <= operations.len(),
        pool.next_id + additions(operations, n) <= usize::MAX,
    ensures
        tidy(after(pool, operations, n)),
    decreases n,
{
    if n > 0 {
        let m = (n - 1) as nat;
        let before = after(pool, operations, m);
        law_available_or_unavailable(pool, operations, m);
        law_invariant_is_kept(pool, operations, m);
        law_ids_are_given_out_in_order(pool, operations, m);
        assert(replies_match(before, operations[n - 1]));
        lemma_tidy_after_one(before, operations[n - 1]);
    }
}

/// One operation leaves a tidy pool tidy.
proof fn lemma_tidy_after_one<C>(pool: Pool<C>, operation: Operation<C>)
    requires
        pool.wf(),
        pool.ids_are_fresh(),
        tidy(pool),
        replies_match(pool, operation),
        operation matches Operation::MoveOut(id) ==> pool.available.contains_key(id),
    ensures
        tidy(after_one(pool, operation)),
{
    match operation {
        Operation::Select => {},
        Operation::Add(_) => {},
        Operation::MoveOut(id) => {
            assert(!pool.unavailable.contains(id));
            let longer = pool.unavailable.push(id);
            assert forall|other: usize| #[trigger]
                longer.contains(other) implies pool.unavailable.contains(other) || other == id by {
                let k = longer.index_of(other);
                if k < pool.unavailable.len() {
                    assert(pool.unavailable[k] == other);
                }
            }
            assert forall|i: int, j: int| 0 <= i < j < longer.len() implies longer[i]
                != longer[j] by {
                assert(pool.unavailable.contains(longer[i]));
            }
        },
        Operation::Ping(online) => {
            let targets = pool.ping_targets();
            let end = pool.after_pings(online);
            pool.lemma_ping_targets();
            lemma_after_pings(pool, online);
            lemma_filter_is_subsequence(
                pool.unavailable,
                |id: usize| pool.known.contains_key(id),
            );
            lemma_subsequence_distinct(targets, pool.unavailable);
            lemma_subsequence_distinct(end.unavailable, pool.unavailable);
            assert forall|id: usize| #[trigger]
                end.unavailable.contains(id) implies end.known.contains_key(id)
                && !end.available.contains_key(id) by {
                let k = choose|k: int|
                    0 <= k < targets.len() && #[trigger] targets[k] == id && online[k] == false;
                assert(targets.contains(targets[k]));
                assert(pool.unavailable.contains(id));
                if end.available.contains_key(id) {
                    let l = choose|l: int|
                        0 <= l < targets.len() && #[trigger] targets[l] == id && online[l] == true;
                    assert(targets[k] == targets[l]);
                }
            }
        },
    }
}

} // verus!
