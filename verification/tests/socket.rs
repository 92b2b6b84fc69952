//! Tests of the multiplexer.
use bytes::Bytes;
use soe_protocol::driver::{wake_up, Command, Next, Wake};
use soe_protocol::packets::RemapConnection;
use soe_protocol::rc4::Rc4KeyState;
use soe_protocol::socket::address::{IpAddr, SocketAddr};
use soe_protocol::time::{Duration, Instant};
use soe_protocol::{
    ApplicationParameters, DisconnectReason, RemoteAddr, SessionParameters, SocketConfig,
    SocketEvent, SoeMultiplexer,
};

const CLIENT: &str = "127.0.0.1:4001";
const SERVER: &str = "127.0.0.1:4002";

fn addr(s: &str) -> SocketAddr {
    let (host, port) = s.split_once(':').unwrap();
    let ip = host
        .split('.')
        .fold(0u32, |n, part| n * 256 + part.parse::<u32>().unwrap());
    SocketAddr {
        ip: IpAddr::V4(ip),
        port: port.parse().unwrap(),
        flowinfo: 0,
        scope_id: 0,
    }
}

fn now_instant() -> Instant {
    Instant { nanos: 2_000_000_000 }
}

fn config(protocol: &str, seed: u64) -> SocketConfig {
    let mut params = SessionParameters {
        application_protocol: protocol.to_owned(),
        ..SessionParameters::default()
    };
    params.heartbeat_after = Duration { nanos: 0 };
    params.inactivity_timeout = Duration { nanos: 0 };
    SocketConfig {
        default_session_params: params,
        app_params: ApplicationParameters::default(),
        allow_port_remaps: false,
        base_rng_seed: seed,
    }
}

/// Exchanges datagrams between two multiplexers until both fall silent. `client`
/// reaches `server` at `SERVER`; `server` sees the client at `CLIENT`.
fn pump(client: &mut SoeMultiplexer<SocketAddr>, server: &mut SoeMultiplexer<SocketAddr>) {
    let now = now_instant();
    for _ in 0..64 {
        // Tick first so any enqueued data is dispatched into the outgoing queue.
        client.run_tick(now);
        server.run_tick(now);

        let from_client = client.take_outgoing();
        let from_server = server.take_outgoing();
        if from_client.is_empty() && from_server.is_empty() {
            break;
        }
        for (_dest, dg) in from_client {
            server.process_incoming(addr(CLIENT), dg, now);
        }
        for (_dest, dg) in from_server {
            client.process_incoming(addr(SERVER), dg, now);
        }
    }
}

#[test]
fn establishes_session_and_emits_opened() {
    let now = now_instant();
    let mut client = SoeMultiplexer::new(config("TestProtocol", 1));
    let mut server = SoeMultiplexer::new(config("TestProtocol", 2));

    client.connect(addr(SERVER), now);
    pump(&mut client, &mut server);

    assert_eq!(client.session_count(), 1);
    assert_eq!(server.session_count(), 1);
    assert!(client.take_events().iter().any(|e| matches!(
        e,
        SocketEvent::SessionOpened { remote } if *remote == addr(SERVER)
    )));

    // The server opens its session on the first packet after responding, so nudge
    // it with a data packet from the client.
    client.enqueue_data(&addr(SERVER), b"hi");
    pump(&mut client, &mut server);
    assert!(server.take_events().iter().any(|e| matches!(
        e,
        SocketEvent::SessionOpened { remote } if *remote == addr(CLIENT)
    )));
}

#[test]
fn routes_data_between_peers() {
    let mut client = SoeMultiplexer::new(config("TestProtocol", 1));
    let mut server = SoeMultiplexer::new(config("TestProtocol", 2));

    client.connect(addr(SERVER), now_instant());
    pump(&mut client, &mut server);

    assert!(client.enqueue_data(&addr(SERVER), b"ping"));
    pump(&mut client, &mut server);
    assert!(server.take_events().iter().any(|e| matches!(
        e,
        SocketEvent::DataReceived { remote, data } if *remote == addr(CLIENT) && data == "ping"
    )));

    assert!(server.enqueue_data(&addr(CLIENT), b"pong"));
    pump(&mut client, &mut server);
    assert!(client.take_events().iter().any(|e| matches!(
        e,
        SocketEvent::DataReceived { remote, data } if *remote == addr(SERVER) && data == "pong"
    )));
}

#[test]
fn encrypted_data_routes_between_peers() {
    let key = Rc4KeyState::new(&[1, 2, 3, 4, 5]);
    let mut client_cfg = config("TestProtocol", 1);
    let mut server_cfg = config("TestProtocol", 2);
    client_cfg.app_params.encryption_key_state = Some(key.clone());
    server_cfg.app_params.encryption_key_state = Some(key);

    let mut client = SoeMultiplexer::new(client_cfg);
    let mut server = SoeMultiplexer::new(server_cfg);

    client.connect(addr(SERVER), now_instant());
    pump(&mut client, &mut server);

    let payload = vec![0u8; 200];
    assert!(client.enqueue_data(&addr(SERVER), &payload));
    pump(&mut client, &mut server);
    assert!(server.take_events().iter().any(|e| matches!(
        e,
        SocketEvent::DataReceived { remote, data }
            if *remote == addr(CLIENT) && data.as_ref() == payload.as_slice()
    )));
}

#[test]
fn terminate_notifies_remote_and_removes_session() {
    let now = now_instant();
    let mut client = SoeMultiplexer::new(config("TestProtocol", 1));
    let mut server = SoeMultiplexer::new(config("TestProtocol", 2));

    client.connect(addr(SERVER), now);
    pump(&mut client, &mut server);
    // Drain the opened events.
    client.take_events();
    server.take_events();

    client.terminate(&addr(SERVER), DisconnectReason::Application, now);
    pump(&mut client, &mut server);

    assert_eq!(client.session_count(), 0);
    assert_eq!(server.session_count(), 0);
    assert!(server.take_events().iter().any(|e| matches!(
        e,
        SocketEvent::SessionClosed { remote, reason }
            if *remote == addr(CLIENT) && *reason == DisconnectReason::Application
    )));
}

#[test]
fn ignores_stray_datagram_without_session() {
    let now = now_instant();
    let mut server = SoeMultiplexer::<SocketAddr>::new(config("TestProtocol", 1));

    // A contextual-looking datagram from an unknown peer is dropped, not turned
    // into a session.
    server.process_incoming(addr(CLIENT), Bytes::from_static(&[0x00, 0x09, 0x00]), now);

    assert_eq!(server.session_count(), 0);
    assert!(server.take_outgoing().is_empty());
    assert!(server.take_events().is_empty());
}

#[test]
fn remaps_port_for_matching_session() {
    let now = now_instant();
    let mut client = SoeMultiplexer::new(config("TestProtocol", 1));
    let mut server_cfg = config("TestProtocol", 2);
    server_cfg.allow_port_remaps = true;
    let mut server = SoeMultiplexer::new(server_cfg);

    client.connect(addr(SERVER), now);
    pump(&mut client, &mut server);

    let session = server.session(&addr(CLIENT)).expect("server session");
    let remap = RemapConnection {
        session_id: session.session_id(),
        crc_seed: session.crc_seed(),
    };
    let mut buf = [0u8; RemapConnection::SIZE];
    let n = remap.serialize(&mut buf).unwrap();

    let new_client = addr("127.0.0.1:4099");
    server.process_incoming(new_client, Bytes::copy_from_slice(&buf[..n]), now);

    assert!(server.session(&addr(CLIENT)).is_none());
    assert!(server.session(&new_client).is_some());
}

#[test]
fn rejects_remap_from_different_host() {
    let now = now_instant();
    let mut client = SoeMultiplexer::new(config("TestProtocol", 1));
    let mut server_cfg = config("TestProtocol", 2);
    server_cfg.allow_port_remaps = true;
    let mut server = SoeMultiplexer::new(server_cfg);

    client.connect(addr(SERVER), now);
    pump(&mut client, &mut server);

    let session = server.session(&addr(CLIENT)).expect("server session");
    let remap = RemapConnection {
        session_id: session.session_id(),
        crc_seed: session.crc_seed(),
    };
    let mut buf = [0u8; RemapConnection::SIZE];
    let n = remap.serialize(&mut buf).unwrap();

    // A remap arriving from a different host (not just a different port) must be
    // refused as a likely hijack attempt.
    let attacker = addr("10.0.0.1:5000");
    server.process_incoming(attacker, Bytes::copy_from_slice(&buf[..n]), now);

    assert!(server.session(&addr(CLIENT)).is_some());
    assert!(server.session(&attacker).is_none());
}

fn remap_datagram(remap: &RemapConnection) -> Bytes {
    let mut buf = [0u8; RemapConnection::SIZE];
    let n = remap.serialize(&mut buf).unwrap();
    Bytes::copy_from_slice(&buf[..n])
}

/// A session stays where it is while moving is not allowed, or the packet names another.
#[test]
fn remap_needs_permission_and_the_right_seed() {
    let now = now_instant();
    let mut client = SoeMultiplexer::new(config("TestProtocol", 1));
    let mut server = SoeMultiplexer::new(config("TestProtocol", 2));
    client.connect(addr(SERVER), now);
    pump(&mut client, &mut server);
    let session = server.session(&addr(CLIENT)).unwrap();
    let remap = RemapConnection {
        session_id: session.session_id(),
        crc_seed: session.crc_seed(),
    };
    let moved = addr("127.0.0.1:4099");
    server.process_incoming(moved, remap_datagram(&remap), now);
    assert!(server.session(&moved).is_none());

    let mut server_cfg = config("TestProtocol", 2);
    server_cfg.allow_port_remaps = true;
    let mut server = SoeMultiplexer::new(server_cfg);
    let mut client = SoeMultiplexer::new(config("TestProtocol", 1));
    client.connect(addr(SERVER), now);
    pump(&mut client, &mut server);
    let wrong = RemapConnection {
        crc_seed: remap.crc_seed ^ 1,
        ..remap
    };
    server.process_incoming(moved, remap_datagram(&wrong), now);
    server.process_incoming(moved, Bytes::from_static(&[0, 0x1E, 0, 0]), now);
    assert!(server.session(&moved).is_none());
    assert!(server.session(&addr(CLIENT)).is_some());
}

/// What happens with one remote does not touch the others.
#[test]
fn remotes_are_kept_apart() {
    let now = now_instant();
    let mut server = SoeMultiplexer::new(config("TestProtocol", 9));
    let mut clients: Vec<SoeMultiplexer<SocketAddr>> = Vec::new();
    for i in 0..3u64 {
        let mut client = SoeMultiplexer::new(config("TestProtocol", i));
        client.connect(addr(SERVER), now);
        clients.push(client);
    }
    let remotes = [
        addr("127.0.0.1:1"),
        addr("127.0.0.1:2"),
        addr("10.0.0.7:1"),
    ];
    for _ in 0..8 {
        for (client, remote) in clients.iter_mut().zip(&remotes) {
            client.run_tick(now);
            for (_, dg) in client.take_outgoing() {
                server.process_incoming(*remote, dg, now);
            }
        }
        server.run_tick(now);
        for (to, dg) in server.take_outgoing() {
            let i = remotes.iter().position(|r| *r == to).unwrap();
            clients[i].process_incoming(addr(SERVER), dg, now);
        }
    }
    assert_eq!(server.session_count(), 3);
    let seeds: Vec<u32> = remotes
        .iter()
        .map(|r| server.session(r).unwrap().crc_seed())
        .collect();
    assert_ne!(seeds[0], seeds[1]);
    assert_ne!(seeds[1], seeds[2]);

    server.terminate(&remotes[1], DisconnectReason::Application, now);
    assert_eq!(server.session_count(), 2);
    assert_eq!(server.session(&remotes[0]).unwrap().crc_seed(), seeds[0]);
    assert_eq!(server.session(&remotes[2]).unwrap().crc_seed(), seeds[2]);
    assert!(server.session(&remotes[1]).is_none());
    assert!(!server.enqueue_data(&remotes[1], b"gone"));
    assert!(server.enqueue_data(&remotes[2], b"here"));
}

/// A session that closes in the same step in which its data arrives surfaces that it
/// opened first, then the data, then that it closed.
#[test]
fn events_come_in_order() {
    let now = now_instant();
    let mut client = SoeMultiplexer::new(config("TestProtocol", 1));
    let mut server = SoeMultiplexer::new(config("TestProtocol", 2));
    client.connect(addr(SERVER), now);
    pump(&mut client, &mut server);
    assert!(client.enqueue_data(&addr(SERVER), b"last words"));
    client.terminate(&addr(SERVER), DisconnectReason::Application, now);
    for (_, dg) in client.take_outgoing() {
        server.process_incoming(addr(CLIENT), dg, now);
    }
    let events = server.take_events();
    assert_eq!(
        events,
        vec![
            SocketEvent::SessionOpened {
                remote: addr(CLIENT)
            },
            SocketEvent::DataReceived {
                remote: addr(CLIENT),
                data: Bytes::from_static(b"last words"),
            },
            SocketEvent::SessionClosed {
                remote: addr(CLIENT),
                reason: DisconnectReason::Application,
            },
        ]
    );
    assert_eq!(server.session_count(), 0);
    assert_eq!(events[1].clone(), events[1]);
}

/// Connecting again to a remote starts over in the same place.
#[test]
fn connecting_again_replaces_the_session() {
    let now = now_instant();
    let mut client = SoeMultiplexer::new(config("TestProtocol", 1));
    client.connect(addr(SERVER), now);
    let first = client.session(&addr(SERVER)).unwrap().session_id();
    client.connect(addr(SERVER), now);
    assert_eq!(client.session_count(), 1);
    assert_ne!(client.session(&addr(SERVER)).unwrap().session_id(), first);
    assert_eq!(client.take_outgoing().len(), 2);
}

/// A session that times out is dropped by a tick.
#[test]
fn tick_drops_sessions_that_time_out() {
    let now = now_instant();
    let mut cfg = config("TestProtocol", 1);
    cfg.default_session_params.inactivity_timeout = Duration::from_millis(10);
    let mut client = SoeMultiplexer::new(cfg);
    client.connect(addr(SERVER), now);
    client.connect(addr(CLIENT), now);
    client.run_tick(Instant {
        nanos: now.nanos + 10_000_001,
    });
    assert_eq!(client.session_count(), 0);
    assert_eq!(client.take_events().len(), 2);
}

/// Hosts are told apart by their address alone.
#[test]
fn same_host_ignores_the_port() {
    assert!(addr("10.1.2.3:1").same_host(&addr("10.1.2.3:2")));
    assert!(!addr("10.1.2.3:1").same_host(&addr("10.1.2.4:1")));
    assert!(addr("10.1.2.3:1") != addr("10.1.2.3:2"));
    let server = SoeMultiplexer::<SocketAddr>::new(SocketConfig::default());
    assert!(server.is_ready_for(&addr(CLIENT), &Bytes::from_static(&[0, 9])));
}

/// What a driver does when it wakes up.
#[test]
fn driver_wakes_up() {
    let now = now_instant();
    let mut client = SoeMultiplexer::new(config("TestProtocol", 1));
    let mut server = SoeMultiplexer::new(config("TestProtocol", 2));
    assert_eq!(
        wake_up(&mut client, Wake::Commanded(Command::Connect(addr(SERVER))), now),
        Next::Flush
    );
    assert_eq!(client.session_count(), 1);
    for (_, datagram) in client.take_outgoing() {
        let from = addr(CLIENT);
        assert_eq!(
            wake_up(&mut server, Wake::Received { from, datagram }, now),
            Next::Flush
        );
    }
    assert_eq!(server.session_count(), 1);
    pump(&mut client, &mut server);

    let data = Command::EnqueueData {
        remote: addr(SERVER),
        data: Bytes::from_static(b"over"),
    };
    assert_eq!(wake_up(&mut client, Wake::Commanded(data), now), Next::Flush);
    assert!(client.take_outgoing().is_empty());
    assert_eq!(wake_up(&mut client, Wake::Tick, now), Next::Flush);
    assert_eq!(client.take_outgoing().len(), 1);

    assert_eq!(wake_up(&mut client, Wake::ReceiveFailed, now), Next::Wait);
    assert_eq!(client.session_count(), 1);
    let end = Command::Terminate {
        remote: addr(SERVER),
        reason: DisconnectReason::Application,
    };
    assert_eq!(wake_up(&mut client, Wake::Commanded(end), now), Next::Flush);
    assert_eq!(client.session_count(), 0);
    assert_eq!(wake_up(&mut client, Wake::Abandoned, now), Next::Stop);
    assert_eq!(wake_up(&mut client, Wake::Unheard, now), Next::Stop);
}
