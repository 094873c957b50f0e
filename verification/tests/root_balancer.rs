use alloy::transports::TransportError;
use juggler::attempt::{Action, Event, SubscribeAction, SubscribeEvent};
use juggler::provider::WsOrIpc;
use juggler::RpcBalancer;
use std::sync::Arc;

fn ws(names: &[&'static str]) -> Vec<Arc<WsOrIpc<&'static str>>> {
    names.iter().map(|name| Arc::new(WsOrIpc::Ws(*name))).collect()
}

/// Drives a request to its end: the clients that were tried and what came of it.
fn request(
    balancer: &mut RpcBalancer<&'static str>,
    up: &[&'static str],
) -> (Vec<&'static str>, Result<String, TransportError>) {
    let mut tried = Vec::new();
    let mut event = Event::Start;
    loop {
        match balancer.execute(event) {
            Action::Call(call) => {
                let client = *call.provider.client();
                tried.push(client);
                let reply = if up.contains(&client) {
                    Ok(format!("from {}", client))
                } else {
                    Err(TransportError::local_usage_str("down"))
                };
                event = Event::Replied(call, reply);
            }
            Action::Return(result) => return (tried, result),
            Action::FailAfter(..) => panic!("this balancer never waits"),
        }
    }
}

#[test]
fn root_selects_in_turn() {
    let mut balancer = RpcBalancer::new(ws(&["a", "b", "c"]));
    let turns: Vec<&str> = (0..7).map(|_| *balancer.next_provider().client()).collect();
    assert_eq!(turns, ["a", "b", "c", "a", "b", "c", "a"]);
}

#[test]
fn root_distributes_equitably() {
    let mut balancer = RpcBalancer::new(ws(&["a", "b", "c"]));
    let turns: Vec<&str> = (0..11).map(|_| *balancer.next_provider().client()).collect();
    for name in ["a", "b", "c"] {
        let times = turns.iter().filter(|turn| **turn == name).count();
        assert!(times == 3 || times == 4);
    }
}

#[test]
fn root_request_returns_the_first_answer() {
    let mut balancer = RpcBalancer::new(ws(&["a", "b", "c"]));
    let (tried, result) = request(&mut balancer, &["b", "c"]);
    assert_eq!(tried, ["a", "b"]);
    assert_eq!(result.unwrap(), "from b");
    let (tried, result) = request(&mut balancer, &["b", "c"]);
    assert_eq!(tried, ["c"]);
    assert_eq!(result.unwrap(), "from c");
}

#[test]
fn root_request_fails_after_one_round() {
    let mut balancer = RpcBalancer::new(ws(&["a", "b", "c"]));
    balancer.next_provider();
    let (tried, result) = request(&mut balancer, &[]);
    assert_eq!(tried, ["b", "c", "a"]);
    let error = result.unwrap_err();
    assert!(error.is_local_usage_error());
    assert_eq!(error.to_string(), "local usage error: All providers failed");
}

#[test]
fn root_request_without_providers_fails_at_once() {
    let mut balancer = RpcBalancer::new(ws(&[]));
    let (tried, result) = request(&mut balancer, &["a"]);
    assert!(tried.is_empty());
    assert_eq!(
        result.unwrap_err().to_string(),
        "local usage error: All providers failed"
    );
}

#[test]
fn root_subscription_moves_on_and_reconnects() {
    let mut balancer = RpcBalancer::new(ws(&["a", "b"]));
    let call = match balancer.subscribe(SubscribeEvent::<_, u32>::Start) {
        SubscribeAction::Call(call) => call,
        other => panic!("{:?}", other),
    };
    assert_eq!(*balancer.try_subscribe(&call.provider), "a");
    let refusal = Err(TransportError::local_usage_str("down"));
    let call = match balancer.subscribe(SubscribeEvent::<_, u32>::Replied(call, refusal)) {
        SubscribeAction::Call(call) => call,
        other => panic!("{:?}", other),
    };
    assert_eq!(*balancer.try_subscribe(&call.provider), "b");
    match balancer.subscribe(SubscribeEvent::Replied(call, Ok(7u32))) {
        SubscribeAction::Consume(stream) => assert_eq!(stream, 7),
        other => panic!("{:?}", other),
    }
    match balancer.subscribe(SubscribeEvent::<_, u32>::Ended) {
        SubscribeAction::Call(call) => assert_eq!(*call.provider.client(), "a"),
        other => panic!("{:?}", other),
    }
}

#[test]
fn root_subscription_fails_when_all_refuse() {
    let mut balancer = RpcBalancer::new(ws(&["a", "b"]));
    let mut event = SubscribeEvent::<_, u32>::Start;
    let mut refusals = 0;
    loop {
        match balancer.subscribe(event) {
            SubscribeAction::Call(call) => {
                refusals += 1;
                let refusal = Err(TransportError::local_usage_str("down"));
                event = SubscribeEvent::Replied(call, refusal);
            }
            SubscribeAction::Fail(error) => {
                assert_eq!(error.to_string(), "local usage error: All providers failed");
                break;
            }
            other => panic!("{:?}", other),
        }
    }
    assert_eq!(refusals, 2);
}

#[test]
fn root_get_subscription_returns_the_stream() {
    let mut balancer = RpcBalancer::new(ws(&["a"]));
    let call = match balancer.get_subscription(Event::<_, u32>::Start) {
        Action::Call(call) => call,
        other => panic!("{:?}", other),
    };
    match balancer.get_subscription(Event::Replied(call, Ok(9u32))) {
        Action::Return(Ok(stream)) => assert_eq!(stream, 9),
        other => panic!("{:?}", other),
    }
}

#[test]
fn root_request_goes_on_after_a_time_out() {
    let mut balancer = RpcBalancer::new(ws(&["a", "b"]));
    let call = match balancer.execute(Event::<_, u32>::Start) {
        Action::Call(call) => call,
        other => panic!("{:?}", other),
    };
    let call = match balancer.execute(Event::<_, u32>::TimedOut(call)) {
        Action::Call(call) => call,
        other => panic!("{:?}", other),
    };
    assert_eq!(*call.provider.client(), "b");
    match balancer.execute(Event::<_, u32>::TimedOut(call)) {
        Action::Return(Err(error)) => {
            assert_eq!(error.to_string(), "local usage error: All providers failed")
        }
        other => panic!("{:?}", other),
    }
}

#[test]
fn root_requests_are_shared_evenly() {
    let mut balancer = RpcBalancer::new(ws(&["a", "b", "c"]));
    let mut tried = Vec::new();
    for _ in 0..6 {
        tried.extend(request(&mut balancer, &["a", "b", "c"]).0);
    }
    assert_eq!(tried, ["a", "b", "c", "a", "b", "c"]);
}

#[test]
fn root_requests_go_round() {
    let mut balancer = RpcBalancer::new(ws(&["a", "b", "c"]));
    balancer.next_provider();
    let tried: Vec<Vec<&str>> =
        (0..4).map(|_| request(&mut balancer, &["a", "b", "c"]).0).collect();
    assert_eq!(tried, [["b"], ["c"], ["a"], ["b"]]);
}

#[test]
fn root_request_ends_whatever_others_select() {
    let mut balancer = RpcBalancer::new(ws(&["a", "b"]));
    let call = match balancer.execute(Event::<_, u32>::Start) {
        Action::Call(call) => call,
        other => panic!("{:?}", other),
    };
    assert_eq!((*call.provider.client(), call.remaining), ("a", 1));
    balancer.next_provider();
    let call = match balancer.execute(Event::<_, u32>::TimedOut(call)) {
        Action::Call(call) => call,
        other => panic!("{:?}", other),
    };
    assert_eq!((*call.provider.client(), call.remaining), ("a", 0));
    balancer.next_provider();
    let refusal = Err(TransportError::local_usage_str("down"));
    match balancer.execute(Event::<_, u32>::Replied(call, refusal)) {
        Action::Return(Err(error)) => {
            assert_eq!(error.to_string(), "local usage error: All providers failed")
        }
        other => panic!("{:?}", other),
    }
}
