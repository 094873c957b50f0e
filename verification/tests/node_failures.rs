use alloy::transports::TransportError;
use juggler::attempt::{Action, Event, SubscribeAction, SubscribeEvent};
use juggler::provider::WsOrIpc;
use std::sync::Arc;

/// A local node, by its port. It produces a block per request while it runs.
struct Anvil {
    port: u16,
    running: bool,
}

struct Network {
    nodes: Vec<Anvil>,
}

impl Network {
    fn spawn(ports: [u16; 3]) -> Self {
        Network { nodes: ports.iter().map(|port| Anvil { port: *port, running: true }).collect() }
    }

    fn stop(&mut self, port: u16) {
        for node in self.nodes.iter_mut() {
            if node.port == port {
                node.running = false;
            }
        }
    }

    fn providers(&self) -> Vec<Arc<WsOrIpc<u16>>> {
        self.nodes.iter().map(|node| Arc::new(WsOrIpc::Ws(node.port))).collect()
    }

    fn get_block_number(&self, provider: &WsOrIpc<u16>) -> Result<u64, TransportError> {
        match provider {
            WsOrIpc::Ws(port) => {
                if self.nodes.iter().any(|node| node.port == *port && node.running) {
                    Ok(1)
                } else {
                    Err(TransportError::local_usage_str("connection refused"))
                }
            }
            WsOrIpc::Ipc(_) => {
                Err(TransportError::local_usage_str("IPC not supported in this test"))
            }
        }
    }
}

fn root_execute(
    balancer: &mut juggler::RpcBalancer<u16>,
    network: &Network,
) -> Result<u64, TransportError> {
    let mut event = Event::Start;
    loop {
        match balancer.execute(event) {
            Action::Call(call) => {
                let reply = network.get_block_number(&call.provider);
                event = Event::Replied(call, reply);
            }
            Action::Return(result) => return result,
            Action::FailAfter(_, error) => return Err(error),
        }
    }
}

fn execute(
    balancer: &mut juggler::provider::RpcBalancer<u16>,
    network: &Network,
) -> Result<u64, TransportError> {
    let mut event = Event::Start;
    loop {
        match balancer.execute(event) {
            Action::Call(call) => {
                let reply = network.get_block_number(&call.provider);
                event = Event::Replied(call, reply);
            }
            Action::Return(result) => return result,
            Action::FailAfter(_, error) => return Err(error),
        }
    }
}

#[test]
fn lib_test_rpc_balancer_with_node_failures() {
    let mut network = Network::spawn([8545, 8546, 8547]);
    let mut balancer = juggler::RpcBalancer::new(network.providers());

    let result = root_execute(&mut balancer, &network);
    assert!(result.is_ok(), "Initial request should succeed");

    network.stop(8545);
    let result = root_execute(&mut balancer, &network);
    assert!(result.is_ok(), "Request should succeed after node 1 failure");

    network.stop(8546);
    let result = root_execute(&mut balancer, &network);
    assert!(result.is_ok(), "Request should succeed after node 2 failure");

    let result = root_execute(&mut balancer, &network);
    assert!(result.is_ok(), "Request should succeed again");
}

#[test]
fn e2e_test_rpc_balancer_with_node_failures() {
    let mut network = Network::spawn([8545, 8546, 8547]);
    let mut balancer = juggler::provider::RpcBalancer::new(network.providers());

    let result = execute(&mut balancer, &network);
    assert!(result.is_ok(), "Initial request should succeed");

    network.stop(8545);
    let result = execute(&mut balancer, &network);
    assert!(result.is_ok(), "Request should succeed after node 1 failure");

    network.stop(8546);
    let result = execute(&mut balancer, &network);
    assert!(result.is_ok(), "Request should succeed after node 2 failure");

    let result = execute(&mut balancer, &network);
    assert!(result.is_ok(), "Request should succeed again");
}

/// Subscribes, and stops a node whenever a stream has been granted. What the subscription
/// ends with, and how many streams it had.
fn subscribe_blocks<B>(
    mut step: impl FnMut(&mut B, SubscribeEvent<u16, u64>) -> SubscribeAction<u16, u64>,
    balancer: &mut B,
    network: &mut Network,
    stops: &[u16],
) -> (Result<(), TransportError>, usize) {
    let mut streams = 0;
    let mut event = SubscribeEvent::Start;
    loop {
        match step(balancer, event) {
            SubscribeAction::Call(call) => {
                let reply = network.get_block_number(&call.provider);
                event = SubscribeEvent::Replied(call, reply);
            }
            SubscribeAction::Consume(_) => {
                network.stop(stops[streams]);
                streams += 1;
                event = SubscribeEvent::Ended;
            }
            SubscribeAction::Fail(error) => return (Err(error), streams),
            SubscribeAction::FailAfter(_, error) => return (Err(error), streams),
        }
    }
}

#[test]
fn lib_test_rpc_balancer_subscribe_blocks() {
    let mut network = Network::spawn([8548, 8549, 8550]);
    let mut balancer = juggler::RpcBalancer::new(network.providers());
    let (result, streams) = subscribe_blocks(
        |balancer: &mut juggler::RpcBalancer<u16>, event| balancer.subscribe(event),
        &mut balancer,
        &mut network,
        &[8548, 8549, 8550],
    );
    assert_eq!(streams, 3);
    assert!(
        result.is_err(),
        "Subscription should eventually fail if all nodes are down"
    );
}

#[test]
fn e2e_test_rpc_balancer_subscribe_blocks() {
    let mut network = Network::spawn([8545, 8546, 8547]);
    let mut balancer = juggler::provider::RpcBalancer::new(network.providers());
    let (result, streams) = subscribe_blocks(
        |balancer: &mut juggler::provider::RpcBalancer<u16>, event| balancer.subscribe(event),
        &mut balancer,
        &mut network,
        &[8545, 8546, 8547],
    );
    assert_eq!(streams, 3);
    assert!(
        result.is_err(),
        "Subscription should eventually fail if all nodes are down"
    );
}
