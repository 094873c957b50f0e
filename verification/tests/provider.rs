use alloy::transports::TransportError;
use juggler::attempt::{
    read_stream, Action, Event, MonitorAction, MonitorEvent, StreamAction, SubscribeAction,
    SubscribeEvent,
};
use juggler::provider::{
    RpcBalancer, WsOrIpc, PING_INTERVAL_SECS, REQUEST_TIMEOUT_SECS, RETRY_DELAY_SECS,
};
use std::sync::Arc;

type Balancer = RpcBalancer<&'static str>;

fn ws(names: &[&'static str]) -> Vec<Arc<WsOrIpc<&'static str>>> {
    names.iter().map(|name| Arc::new(WsOrIpc::Ws(*name))).collect()
}

fn down() -> TransportError {
    TransportError::local_usage_str("down")
}

/// Drives a request to its end: the ids that were tried and what came of it.
fn request(
    balancer: &mut Balancer,
    up: &[&'static str],
) -> (Vec<usize>, u64, Result<&'static str, TransportError>) {
    let mut tried = Vec::new();
    let mut event = Event::Start;
    loop {
        match balancer.execute(event) {
            Action::Call(call) => {
                tried.push(call.id);
                let client = *call.provider.client();
                let reply = if up.contains(&client) { Ok(client) } else { Err(down()) };
                event = Event::Replied(call, reply);
            }
            Action::Return(result) => return (tried, 0, result),
            Action::FailAfter(seconds, error) => return (tried, seconds, Err(error)),
        }
    }
}

/// Performs a round of pings: the clients that were pinged.
fn ping(balancer: &mut Balancer, up: &[&'static str]) -> Vec<&'static str> {
    let mut pinged = Vec::new();
    let mut replies = Vec::new();
    for (_, provider) in &balancer.ping_targets() {
        let client = *balancer.ping(provider);
        pinged.push(client);
        let reply = if up.contains(&client) { Ok(1) } else { Err(down()) };
        replies.push(Balancer::ping_outcome(Some(reply)));
    }
    balancer.ping_unavailable_providers(&replies);
    pinged
}

fn available(balancer: &Balancer) -> Vec<usize> {
    let mut ids: Vec<usize> = balancer.providers().keys().copied().collect();
    ids.sort();
    ids
}

fn unavailable(balancer: &Balancer) -> Vec<usize> {
    balancer.unavailable_providers().iter().copied().collect()
}

#[test]
fn delays() {
    assert_eq!(PING_INTERVAL_SECS, 10);
    assert_eq!(RETRY_DELAY_SECS, 1);
    assert_eq!(REQUEST_TIMEOUT_SECS, 30);
}

#[test]
fn client_is_the_same_for_both_transports() {
    assert_eq!(*WsOrIpc::Ws("a").client(), "a");
    assert_eq!(*WsOrIpc::Ipc("b").client(), "b");
}

#[test]
fn new_makes_all_available() {
    let balancer = Balancer::new(ws(&["a", "b", "c"]));
    assert_eq!(available(&balancer), [0, 1, 2]);
    assert!(unavailable(&balancer).is_empty());
    assert_eq!(balancer.current(), 0);
    assert_eq!(*balancer.providers()[&1].client(), "b");
}

#[test]
fn every_provider_has_one_turn_per_round() {
    let mut balancer = Balancer::new(ws(&["a", "b", "c"]));
    let ids: Vec<usize> = (0..6).map(|_| balancer.next_provider().unwrap().0).collect();
    assert_eq!(ids, [0, 1, 2, 0, 1, 2]);
    assert_eq!(balancer.current(), 6);
}

#[test]
fn selections_are_distributed_equitably() {
    let mut balancer = Balancer::new(ws(&["a", "b", "c", "d"]));
    let ids: Vec<usize> = (0..10).map(|_| balancer.next_provider().unwrap().0).collect();
    for id in 0..4 {
        let times = ids.iter().filter(|other| **other == id).count();
        assert!(times == 2 || times == 3);
    }
}

#[test]
fn next_provider_of_an_empty_pool_is_none() {
    let mut balancer = Balancer::new(ws(&[]));
    assert!(balancer.next_provider().is_none());
    assert_eq!(balancer.current(), 0);
}

#[test]
fn an_added_provider_takes_its_turn() {
    let mut balancer = Balancer::new(ws(&["a"]));
    balancer.add_provider(Arc::new(WsOrIpc::Ipc("b")));
    assert_eq!(available(&balancer), [0, 1]);
    let clients: Vec<&str> =
        (0..4).map(|_| *balancer.next_provider().unwrap().1.client()).collect();
    assert_eq!(clients, ["a", "b", "a", "b"]);
}

#[test]
fn an_added_provider_gets_a_fresh_id() {
    let mut balancer = Balancer::new(ws(&["a", "b"]));
    balancer.move_to_unavailable_providers(1);
    balancer.add_provider(Arc::new(WsOrIpc::Ws("c")));
    assert_eq!(available(&balancer), [0, 2]);
    assert_eq!(unavailable(&balancer), [1]);
}

#[test]
fn a_failed_provider_is_set_aside() {
    let mut balancer = Balancer::new(ws(&["a", "b", "c"]));
    balancer.move_to_unavailable_providers(1);
    assert_eq!(available(&balancer), [0, 2]);
    assert_eq!(unavailable(&balancer), [1]);
    for _ in 0..10 {
        assert_ne!(balancer.next_provider().unwrap().0, 1);
    }
}

#[test]
fn a_second_report_of_a_failure_is_listed_too() {
    let mut balancer = Balancer::new(ws(&["a", "b"]));
    balancer.move_to_unavailable_providers(0);
    balancer.move_to_unavailable_providers(0);
    assert_eq!(available(&balancer), [1]);
    assert_eq!(unavailable(&balancer), [0, 0]);
    assert_eq!(ping(&mut balancer, &["a"]), ["a", "a"]);
    assert_eq!(available(&balancer), [0, 1]);
    assert!(unavailable(&balancer).is_empty());
}

#[test]
fn an_id_that_was_never_registered_is_not_pinged() {
    let mut balancer = Balancer::new(ws(&["a"]));
    balancer.move_to_unavailable_providers(5);
    assert_eq!(unavailable(&balancer), [5]);
    assert!(ping(&mut balancer, &["a"]).is_empty());
    assert!(unavailable(&balancer).is_empty());
    assert_eq!(available(&balancer), [0]);
}

#[test]
fn a_provider_that_answers_a_ping_comes_back() {
    let mut balancer = Balancer::new(ws(&["a", "b", "c"]));
    balancer.move_to_unavailable_providers(2);
    balancer.move_to_unavailable_providers(0);
    assert_eq!(ping(&mut balancer, &["a"]), ["c", "a"]);
    assert_eq!(available(&balancer), [0, 1]);
    assert_eq!(unavailable(&balancer), [2]);
    assert_eq!(*balancer.providers()[&0].client(), "a");
    assert_eq!(ping(&mut balancer, &["a", "b", "c"]), ["c"]);
    assert_eq!(available(&balancer), [0, 1, 2]);
    assert!(unavailable(&balancer).is_empty());
}

#[test]
fn a_restored_provider_is_selected_again() {
    let mut balancer = Balancer::new(ws(&["a", "b"]));
    let (tried, _, result) = request(&mut balancer, &["b"]);
    assert_eq!(tried, [0, 1]);
    assert_eq!(result.unwrap(), "b");
    ping(&mut balancer, &["a", "b"]);
    let mut ids: Vec<usize> = (0..2).map(|_| balancer.next_provider().unwrap().0).collect();
    ids.sort();
    assert_eq!(ids, [0, 1]);
}

#[test]
fn a_ping_passes_its_failure_on() {
    assert!(Balancer::ping_outcome(Some(Ok(0))).is_ok());
    let error = Balancer::ping_outcome(Some(Err(down()))).unwrap_err();
    assert_eq!(error.to_string(), "local usage error: down");
}

#[test]
fn a_ping_without_a_reply_has_failed() {
    let error = Balancer::ping_outcome(None).unwrap_err();
    assert_eq!(error.to_string(), "local usage error: Ping timed out.");
}

#[test]
fn every_tick_pings_and_the_round_is_settled() {
    let mut balancer = Balancer::new(ws(&["a", "b", "c"]));
    balancer.move_to_unavailable_providers(2);
    balancer.move_to_unavailable_providers(0);
    assert!(matches!(
        balancer.monitor(MonitorEvent::Start),
        MonitorAction::AwaitTick(10)
    ));
    assert_eq!(unavailable(&balancer), [2, 0]);
    match balancer.monitor(MonitorEvent::Ticked) {
        MonitorAction::Ping(targets) => {
            let pinged: Vec<_> = targets.iter().map(|(id, p)| (*id, *p.client())).collect();
            assert_eq!(pinged, [(2, "c"), (0, "a")]);
        }
        other => panic!("{:?}", other),
    }
    assert_eq!(unavailable(&balancer), [2, 0]);
    assert!(matches!(
        balancer.monitor(MonitorEvent::Pinged(vec![Ok(()), Err(down())])),
        MonitorAction::AwaitTick(10)
    ));
    assert_eq!(available(&balancer), [1, 2]);
    assert_eq!(unavailable(&balancer), [0]);
}

#[test]
fn a_tick_with_nothing_set_aside_pings_nobody() {
    let mut balancer = Balancer::new(ws(&["a"]));
    match balancer.monitor(MonitorEvent::Ticked) {
        MonitorAction::Ping(targets) => assert!(targets.is_empty()),
        other => panic!("{:?}", other),
    }
}

#[test]
fn every_item_of_a_stream_is_delivered_in_order() {
    let mut stream = vec![3, 1, 2].into_iter();
    let mut delivered = Vec::new();
    while let StreamAction::Deliver(item) = read_stream(stream.next()) {
        delivered.push(item);
    }
    assert_eq!(delivered, [3, 1, 2]);
    assert!(matches!(read_stream::<u32>(None), StreamAction::Stop));
}

#[test]
fn a_request_goes_on_whatever_others_do() {
    let mut balancer = Balancer::new(ws(&["a", "b", "c"]));
    let call = match balancer.execute(Event::<_, u32>::Start) {
        Action::Call(call) => call,
        other => panic!("{:?}", other),
    };
    assert_eq!((call.id, call.remaining), (0, 2));
    balancer.move_to_unavailable_providers(1);
    balancer.add_provider(Arc::new(WsOrIpc::Ws("d")));
    let call = match balancer.execute(Event::<_, u32>::Replied(call, Err(down()))) {
        Action::Call(call) => call,
        other => panic!("{:?}", other),
    };
    assert_eq!((call.id, call.remaining), (3, 1));
    assert_eq!(unavailable(&balancer), [1, 0]);
    match balancer.execute(Event::Replied(call, Ok(5))) {
        Action::Return(result) => assert_eq!(result.unwrap(), 5),
        other => panic!("{:?}", other),
    }
    assert_eq!(unavailable(&balancer), [1, 0]);
}

#[test]
fn requests_go_round() {
    let mut balancer = Balancer::new(ws(&["a", "b", "c"]));
    balancer.next_provider();
    let tried: Vec<Vec<usize>> =
        (0..4).map(|_| request(&mut balancer, &["a", "b", "c"]).0).collect();
    assert_eq!(tried, [[1], [2], [0], [1]]);
}

#[test]
fn a_request_succeeds_if_any_provider_answers() {
    for up in ["a", "b", "c"] {
        let mut balancer = Balancer::new(ws(&["a", "b", "c"]));
        let (tried, delay, result) = request(&mut balancer, &[up]);
        assert_eq!(result.unwrap(), up);
        assert_eq!(delay, 0);
        assert_eq!(unavailable(&balancer), tried[..tried.len() - 1]);
        assert_eq!(available(&balancer).len() + tried.len() - 1, 3);
    }
}

#[test]
fn a_request_tries_each_provider_once() {
    let mut balancer = Balancer::new(ws(&["a", "b", "c", "d", "e"]));
    balancer.next_provider();
    let (mut tried, delay, result) = request(&mut balancer, &[]);
    assert_eq!(delay, 0);
    assert_eq!(
        result.unwrap_err().to_string(),
        "local usage error: All providers failed."
    );
    assert_eq!(unavailable(&balancer), tried);
    assert!(available(&balancer).is_empty());
    tried.sort();
    assert_eq!(tried, [0, 1, 2, 3, 4]);
}

#[test]
fn a_request_to_an_empty_pool_fails_after_a_delay() {
    let mut balancer = Balancer::new(ws(&[]));
    let (tried, delay, result) = request(&mut balancer, &["a"]);
    assert!(tried.is_empty());
    assert_eq!(delay, 1);
    let error = result.unwrap_err();
    assert!(error.is_local_usage_error());
    assert_eq!(error.to_string(), "local usage error: All providers failed.");
}

#[test]
fn a_request_recovers_with_its_nodes() {
    let mut balancer = Balancer::new(ws(&["a", "b"]));
    assert!(request(&mut balancer, &[]).2.is_err());
    assert!(request(&mut balancer, &["a"]).2.is_err());
    ping(&mut balancer, &["a"]);
    assert_eq!(request(&mut balancer, &["a"]).2.unwrap(), "a");
}

#[test]
fn a_request_stops_when_others_have_emptied_the_pool() {
    let mut balancer = Balancer::new(ws(&["a", "b"]));
    let call = match balancer.execute(Event::<_, u32>::Start) {
        Action::Call(call) => call,
        other => panic!("{:?}", other),
    };
    assert_eq!(call.remaining, 1);
    balancer.move_to_unavailable_providers(1);
    match balancer.execute(Event::<_, u32>::Replied(call, Err(down()))) {
        Action::Return(Err(error)) => {
            assert_eq!(error.to_string(), "local usage error: All providers failed.")
        }
        other => panic!("{:?}", other),
    }
    assert_eq!(unavailable(&balancer), [1, 0]);
}

#[test]
fn a_subscription_reconnects_when_its_stream_ends() {
    let mut balancer = Balancer::new(ws(&["a", "b"]));
    let call = match balancer.subscribe(SubscribeEvent::<_, u32>::Start) {
        SubscribeAction::Call(call) => call,
        other => panic!("{:?}", other),
    };
    assert_eq!(*balancer.try_subscribe(&call.provider), "a");
    match balancer.subscribe(SubscribeEvent::Replied(call, Ok(1u32))) {
        SubscribeAction::Consume(stream) => assert_eq!(stream, 1),
        other => panic!("{:?}", other),
    }
    match balancer.subscribe(SubscribeEvent::<_, u32>::Ended) {
        SubscribeAction::Call(call) => assert_eq!(*balancer.try_subscribe(&call.provider), "b"),
        other => panic!("{:?}", other),
    }
}

#[test]
fn a_subscription_fails_when_all_providers_refuse() {
    let mut balancer = Balancer::new(ws(&["a", "b"]));
    let mut event = SubscribeEvent::<_, u32>::Start;
    let message = "local usage error: All providers failed for subscription.";
    loop {
        match balancer.subscribe(event) {
            SubscribeAction::Call(call) => event = SubscribeEvent::Replied(call, Err(down())),
            SubscribeAction::Fail(error) => {
                assert_eq!(error.to_string(), message);
                break;
            }
            other => panic!("{:?}", other),
        }
    }
    assert_eq!(unavailable(&balancer), [0, 1]);
    match balancer.subscribe(SubscribeEvent::<_, u32>::Ended) {
        SubscribeAction::FailAfter(seconds, error) => {
            assert_eq!(seconds, 1);
            assert_eq!(error.to_string(), message);
        }
        other => panic!("{:?}", other),
    }
}

#[test]
fn get_subscription_returns_the_stream() {
    let mut balancer = Balancer::new(ws(&["a", "b"]));
    let call = match balancer.get_subscription(Event::<_, u32>::Start) {
        Action::Call(call) => call,
        other => panic!("{:?}", other),
    };
    let call = match balancer.get_subscription(Event::<_, u32>::Replied(call, Err(down()))) {
        Action::Call(call) => call,
        other => panic!("{:?}", other),
    };
    match balancer.get_subscription(Event::Replied(call, Ok(3u32))) {
        Action::Return(Ok(stream)) => assert_eq!(stream, 3),
        other => panic!("{:?}", other),
    }
    assert_eq!(unavailable(&balancer), [0]);
}

#[test]
fn a_provider_that_times_out_is_set_aside() {
    let mut balancer = Balancer::new(ws(&["a", "b"]));
    let call = match balancer.execute(Event::<_, u32>::Start) {
        Action::Call(call) => call,
        other => panic!("{:?}", other),
    };
    assert_eq!(call.id, 0);
    let call = match balancer.execute(Event::<_, u32>::TimedOut(call)) {
        Action::Call(call) => call,
        other => panic!("{:?}", other),
    };
    assert_eq!(call.id, 1);
    assert_eq!(unavailable(&balancer), [0]);
    match balancer.execute(Event::<_, u32>::TimedOut(call)) {
        Action::Return(Err(error)) => {
            assert_eq!(error.to_string(), "local usage error: All providers failed.")
        }
        other => panic!("{:?}", other),
    }
    assert_eq!(unavailable(&balancer), [0, 1]);
    ping(&mut balancer, &["a"]);
    assert_eq!(available(&balancer), [0]);
}

#[test]
fn a_subscription_moves_on_when_a_provider_times_out() {
    let mut balancer = Balancer::new(ws(&["a", "b"]));
    let call = match balancer.subscribe(SubscribeEvent::<_, u32>::Start) {
        SubscribeAction::Call(call) => call,
        other => panic!("{:?}", other),
    };
    match balancer.subscribe(SubscribeEvent::<_, u32>::TimedOut(call)) {
        SubscribeAction::Call(call) => assert_eq!(*call.provider.client(), "b"),
        other => panic!("{:?}", other),
    }
    assert_eq!(unavailable(&balancer), [0]);
}

#[test]
fn requests_are_shared_evenly() {
    let mut balancer = Balancer::new(ws(&["a", "b", "c"]));
    let mut tried = Vec::new();
    for _ in 0..9 {
        tried.extend(request(&mut balancer, &["a", "b", "c"]).0);
    }
    for id in 0..3 {
        assert_eq!(tried.iter().filter(|other| **other == id).count(), 3);
    }
}

#[test]
fn a_request_makes_one_selection_per_try() {
    let mut balancer = Balancer::new(ws(&["a", "b", "c"]));
    let (tried, _, _) = request(&mut balancer, &["c"]);
    assert_eq!(balancer.current(), tried.len());
    assert_eq!(balancer.next_id(), 3);
}

#[test]
fn ids_are_given_out_in_order() {
    let mut balancer = Balancer::new(ws(&["a"]));
    for id in 1..4 {
        assert_eq!(balancer.next_id(), id);
        balancer.add_provider(Arc::new(WsOrIpc::Ws("more")));
        balancer.move_to_unavailable_providers(id);
    }
    assert_eq!(unavailable(&balancer), [1, 2, 3]);
}

#[test]
fn pings_keep_the_order_of_the_list() {
    let mut balancer = Balancer::new(ws(&["a", "b", "c", "d"]));
    for id in [3, 1, 0, 2] {
        balancer.move_to_unavailable_providers(id);
    }
    ping(&mut balancer, &["b"]);
    assert_eq!(unavailable(&balancer), [3, 0, 2]);
    assert_eq!(balancer.current(), 0);
}
