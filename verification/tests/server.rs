use oxide_network::codec::CodecError;
use oxide_network::commands::{
    handle_client_command, CommandContext, Effect, PlayerProfile, VoteState,
};
use oxide_network::listener::{
    accepted_connection, allocate_connection_id, apply_register_udp, classify_datagram,
    connection_id_of, decide_admission, departing_unit, is_free_id, player_id_of,
    route_inbound_udp, udp_handshake_complete, Admission, DatagramAction, NetworkListener,
    RegisterUdpOutcome,
};
use oxide_network::outbound::{
    after_queue, broadcast, broadcast_except, enqueue_outbound, enqueue_outbound_routed,
    generated_tcp_body, ip_of, order_for, order_step, route_outbound, Endpoint, FrameEmit,
    NoopEmit, Outcome, Outgoing, PendingConnection, SendResult, SendStep, Tried, NOOP,
};
use oxide_network::parallel::{
    gather, map_ordered, map_with_threads, ParallelExecution, ParallelMetrics,
};
use oxide_network::registry::{NamedRegistry, Registry};
use oxide_network::text::is_whitespace;
use oxide_network::wire::{
    connection_limit_blocks_accept, encode_chat_message2_frame, encode_player_entity,
    encode_server_info, encode_text_frame, frame_generated_packet, framework_keepalive,
    framework_keepalive_udp, framework_registration, kick_message_frame, kick_reason_frame,
    parse_framework_ping, record_inbound_game_packet, tcp_idle_timed_out, tcp_needs_keepalive,
    udp_needs_keepalive, valid_client_noop_payload, write_discovery_string, DiscoveryState,
    GameMode, ServerInfo, SessionPlayer,
};

fn session(id: i32, name: &str, uuid: &str, admin: bool) -> SessionPlayer {
    SessionPlayer {
        id,
        unit_id: id + 1_000_000,
        name: name.to_string(),
        uuid: uuid.to_string(),
        admin,
        boosting: false,
        color: 0x12AB_CDEF,
        mouse_x: 1.5f32.to_bits(),
        mouse_y: 0,
        x: 8.0f32.to_bits(),
        y: 16.0f32.to_bits(),
        last_shot: 0,
    }
}

fn connection(ip: &str, name: Option<&str>) -> PendingConnection {
    let mut c = accepted_connection(ip.to_string(), true);
    c.player_name = name.map(|n| n.to_string());
    c
}

#[test]
fn frames_have_their_lengths() {
    let frame = frame_generated_packet(66, &vec![11]).unwrap();
    assert_eq!(frame, vec![0, 5, 66, 0, 1, 0, 11]);
    assert_eq!(kick_reason_frame(11).unwrap(), frame);
    assert_eq!(generated_tcp_body(&frame), Some(&[66u8, 0, 1, 0, 11][..]));
    assert_eq!(
        kick_message_frame("no").unwrap(),
        vec![0, 9, 65, 0, 5, 0, 1, 0, 2, b'n', b'o']
    );
    assert_eq!(generated_tcp_body(&[0, 2, 1]), None);
    assert_eq!(generated_tcp_body(&framework_keepalive()), None);
    assert_eq!(generated_tcp_body(&framework_registration(4, 7)), None);
    assert_eq!(generated_tcp_body(&[0, 0]), None);
    assert_eq!(
        frame_generated_packet(1, &vec![0; 65_532]),
        Err(CodecError::FrameTooLong)
    );
    assert_eq!(frame_generated_packet(1, &vec![0; 65_531]).unwrap().len(), 65_537);
    assert_eq!(
        encode_text_frame(1, &"x".repeat(65_536)),
        Err(CodecError::StringTooLong)
    );
}

#[test]
fn framework_messages() {
    assert_eq!(
        framework_registration(3, 0x0102_0304),
        [0, 6, 0xFE, 3, 1, 2, 3, 4]
    );
    assert_eq!(
        framework_registration(4, -1),
        [0, 6, 0xFE, 4, 0xFF, 0xFF, 0xFF, 0xFF]
    );
    assert_eq!(framework_keepalive(), [0, 2, 0xFE, 2]);
    assert_eq!(framework_keepalive_udp(), [0xFE, 2]);
    assert_eq!(
        parse_framework_ping(&[0xFE, 0, 0xFF, 0xFF, 0xFF, 0xFE, 1]),
        Some((-2, true))
    );
    assert_eq!(parse_framework_ping(&[0xFE, 0, 0, 0, 0, 9, 0, 5]), Some((9, false)));
    assert_eq!(parse_framework_ping(&[0xFE, 1, 0, 0, 0, 9, 0]), None);
    assert_eq!(parse_framework_ping(&[0xFE, 0, 0, 0, 0, 9]), None);
}

#[test]
fn noop_payloads_are_checked() {
    assert!(valid_client_noop_payload(148, &[0; 4]));
    assert!(!valid_client_noop_payload(148, &[0; 8]));
    assert!(valid_client_noop_payload(97, &[]));
    assert!(!valid_client_noop_payload(97, &[0]));
    assert!(valid_client_noop_payload(79, &[0; 8]));
    assert!(!valid_client_noop_payload(1, &[]));
    let id = 146;
    assert!(valid_client_noop_payload(id, &[0, 0, 0, 1, 0]));
    assert!(!valid_client_noop_payload(id, &[0, 0, 0, 1, 0, 0]));
    assert!(valid_client_noop_payload(id, &[0, 0, 0, 1, 1, 0, 2, b'h', b'i']));
    assert!(!valid_client_noop_payload(id, &[0, 0, 0, 1, 1, 0, 3, b'h', b'i']));
    assert!(!valid_client_noop_payload(id, &[0, 0, 0, 1, 1, 0]));
    assert!(!valid_client_noop_payload(id, &[0, 0, 0, 1, 2, 0, 0]));
    assert!(!valid_client_noop_payload(id, &[0, 0, 0, 1]));
}

#[test]
fn clocks_and_limits() {
    let second = 1_000_000_000u64;
    assert!(!tcp_idle_timed_out(second, 13 * second - 1));
    assert!(tcp_idle_timed_out(second, 13 * second));
    assert!(!tcp_idle_timed_out(13 * second, second));
    assert!(tcp_needs_keepalive(0, 8 * second));
    assert!(!tcp_needs_keepalive(0, 8 * second - 1));
    assert!(udp_needs_keepalive(0, 19 * second));
    assert!(!udp_needs_keepalive(0, 19 * second - 1));
    assert!(!connection_limit_blocks_accept(0, 1000));
    assert!(connection_limit_blocks_accept(3, 3));
    assert!(!connection_limit_blocks_accept(3, 2));
    assert_eq!(record_inbound_game_packet(&[]), None);
    assert_eq!(record_inbound_game_packet(&[0xFE, 2]), None);
    assert_eq!(record_inbound_game_packet(&[29]), Some((3000, 300)));
}

#[test]
fn discovery_fields_are_cut_between_characters() {
    let mut out = vec![7];
    write_discovery_string(&mut out, "aäb", 2);
    assert_eq!(out, vec![7, 1, b'a']);
    let mut out = Vec::new();
    write_discovery_string(&mut out, "aäb", 3);
    assert_eq!(out, vec![3, b'a', 0xC3, 0xA4]);
    let mut out = Vec::new();
    write_discovery_string(&mut out, &"x".repeat(300), 1000);
    assert_eq!(out.len(), 256);
    assert_eq!(out[0], 255);
    let mut out = Vec::new();
    write_discovery_string(&mut out, "ä", 0);
    assert_eq!(out, vec![0]);
}

#[test]
fn server_info_layout() {
    let info = ServerInfo {
        name: "N".to_string(),
        description: "D".to_string(),
        build: 160,
        version_type: "v".to_string(),
    };
    let state = DiscoveryState {
        map_name: "M".to_string(),
        players: 2,
        wave: 3,
        mode: GameMode::Pvp,
        player_limit: 4,
    };
    let bytes = encode_server_info(&info, &state, 0x1A2B);
    let mut expected = vec![1, b'N', 1, b'M'];
    for n in [2i32, 3, 160] {
        expected.extend_from_slice(&n.to_be_bytes());
    }
    expected.extend_from_slice(&[1, b'v', 3, 0, 0, 0, 4, 1, b'D', 0, 0x1A, 0x2B]);
    assert_eq!(bytes, expected);
    let numbers = [
        (GameMode::Survival, 0),
        (GameMode::Sandbox, 1),
        (GameMode::Attack, 2),
        (GameMode::Pvp, 3),
    ];
    for (mode, number) in numbers {
        let state = DiscoveryState {
            map_name: "".to_string(),
            players: 0,
            wave: 0,
            mode,
            player_limit: 0,
        };
        assert_eq!(encode_server_info(&info, &state, 1)[17], number);
    }
}

#[test]
fn chat_messages_carry_their_sender() {
    let player = session(1_000_007, "Ann", "u", true);
    let entity = encode_player_entity(&player, 1, 2, true).unwrap();
    let mut expected = 1_000_007i32.to_be_bytes().to_vec();
    expected.extend_from_slice(&[12, 1, 0]);
    expected.extend_from_slice(&0x12AB_CDEFi32.to_be_bytes());
    expected.extend_from_slice(&1.5f32.to_be_bytes());
    expected.extend_from_slice(&0f32.to_be_bytes());
    expected.extend_from_slice(&[1, 0, 3, b'A', b'n', b'n']);
    expected.extend_from_slice(&(-1i16).to_be_bytes());
    expected.extend_from_slice(&0i32.to_be_bytes());
    expected.extend_from_slice(&[1, 1, 0, 2]);
    expected.extend_from_slice(&2_000_007i32.to_be_bytes());
    expected.extend_from_slice(&[0, 0, 0, 1, 0, 0, 0, 2]);
    assert_eq!(entity, expected);
    let frame = encode_chat_message2_frame(&player, "hey").unwrap();
    let line = "[coral][[[#ABCDEF]Ann[coral]]:[white] hey";
    let mut payload = vec![1, 0, line.len() as u8];
    payload.extend_from_slice(line.as_bytes());
    payload.extend_from_slice(&[1, 0, 3, b'h', b'e', b'y']);
    payload.extend_from_slice(&encode_player_entity(&player, player.x, player.y, false).unwrap());
    assert_eq!(frame, frame_generated_packet(107, &payload).unwrap());
    assert_eq!(
        encode_chat_message2_frame(&player, &"x".repeat(65_536)),
        Err(CodecError::StringTooLong)
    );
}

/// The steps of a frame, with a socket and a queue that answer like this.
fn way(
    c: &mut PendingConnection,
    frame: &Vec<u8>,
    (critical, force_tcp): (bool, bool),
    sent: bool,
    answer: SendResult,
) -> Vec<SendStep> {
    let mut steps = Vec::new();
    let mut tried = Tried::Nothing;
    loop {
        let step = enqueue_outbound_routed(c, frame, critical, force_tcp, tried);
        tried = match step {
            SendStep::Datagram(_) => Tried::Datagram { sent },
            SendStep::Queue(_) => Tried::Queue { answer },
            SendStep::Done(_) => {
                steps.push(step);
                return steps;
            }
        };
        steps.push(step);
    }
}

#[test]
fn unreliable_frames_prefer_datagrams_and_fall_back() {
    let unreliable = frame_generated_packet(49, &vec![1]).unwrap();
    let reliable = frame_generated_packet(65, &vec![1]).unwrap();
    let body = unreliable[2..].to_vec();
    let plain = (false, false);
    let mut c = connection("10.0.0.1", None);
    let queued = |frame: &Vec<u8>| {
        vec![SendStep::Queue(frame.clone()), SendStep::Done(Outcome::Queued)]
    };
    // Not registered yet.
    assert_eq!(way(&mut c, &unreliable, plain, true, SendResult::Sent), queued(&unreliable));
    c.udp_endpoint = Some(Endpoint { ip: "10.0.0.1".to_string(), port: 5 });
    assert_eq!(route_outbound(&c, &unreliable, false), Some(body.clone()));
    assert_eq!(route_outbound(&c, &unreliable, true), None);
    assert_eq!(route_outbound(&c, &reliable, false), None);
    // After a datagram that was sent nothing is queued.
    assert_eq!(
        way(&mut c, &unreliable, plain, true, SendResult::Sent),
        vec![SendStep::Datagram(body.clone()), SendStep::Done(Outcome::Datagram)]
    );
    assert_eq!(c.outbound_queued, 1);
    assert_eq!(
        way(&mut c, &unreliable, plain, false, SendResult::Sent),
        vec![
            SendStep::Datagram(body),
            SendStep::Queue(unreliable.clone()),
            SendStep::Done(Outcome::Queued)
        ]
    );
    assert_eq!(way(&mut c, &reliable, plain, true, SendResult::Sent), queued(&reliable));
    assert_eq!(
        way(&mut c, &unreliable, (false, true), true, SendResult::Sent),
        queued(&unreliable)
    );
    assert_eq!((c.outbound_queued, c.outbound_drops, c.critical_drops), (4, 0, 0));
    assert_eq!(
        enqueue_outbound(&mut c, &unreliable, true, None),
        SendStep::Queue(unreliable.clone())
    );
    for (critical, answer, outcome) in [
        (true, SendResult::Full, Outcome::Dropped),
        (false, SendResult::Full, Outcome::Dropped),
        (true, SendResult::Closed, Outcome::Closed),
        (true, SendResult::Sent, Outcome::Queued),
    ] {
        assert_eq!(
            enqueue_outbound(&mut c, &reliable, critical, Some(answer)),
            SendStep::Done(outcome)
        );
    }
    assert_eq!((c.outbound_queued, c.outbound_drops, c.critical_drops), (5, 2, 1));
    assert_eq!(after_queue(&mut c, true, SendResult::Full), Outcome::Dropped);
    assert_eq!((c.outbound_drops, c.critical_drops), (3, 2));
}

#[test]
fn broadcasts_reach_everyone_but_the_excluded() {
    let mut connections = Registry::new();
    for id in [4, 5, 6] {
        connections.insert(id, connection("10.0.0.1", None));
    }
    let frame = kick_reason_frame(1).unwrap();
    let order = |connection: i32| Outgoing {
        connection,
        frame: kick_reason_frame(1).unwrap(),
        critical: false,
        force_tcp: false,
    };
    assert_eq!(broadcast(&connections, &frame), vec![order(4), order(5), order(6)]);
    assert_eq!(broadcast_except(&connections, 5, &frame), vec![order(4), order(6)]);
    assert_eq!(broadcast_except(&connections, 9, &frame).len(), 3);
    // An order is carried out step by step, and counted at its end.
    assert_eq!(
        order_step(&mut connections, &order(5), Tried::Nothing),
        Some(SendStep::Queue(frame.clone()))
    );
    assert_eq!(connections.get(5).unwrap().outbound_queued, 0);
    assert_eq!(
        order_step(&mut connections, &order(5), Tried::Queue { answer: SendResult::Sent }),
        Some(SendStep::Done(Outcome::Queued))
    );
    assert_eq!(connections.get(5).unwrap().outbound_queued, 1);
    assert_eq!(order_step(&mut connections, &order(7), Tried::Nothing), None);
    let direct = order_for(&connections, 6, &frame, true).unwrap();
    assert_eq!(
        (direct.connection, direct.critical, direct.force_tcp, &direct.frame),
        (6, true, true, &frame)
    );
    assert_eq!(order_for(&connections, 7, &frame, true), None);
    assert_eq!(ip_of(&connections, 6), "10.0.0.1");
    assert_eq!(ip_of(&connections, 7), "");
    NOOP.broadcast(frame.clone());
    assert!(NoopEmit.enqueue_to(1, frame, true));
    assert!(NOOP.connection_ids().is_empty());
    assert_eq!(NOOP.connection_ip(1), "");
}

#[test]
fn registries_keep_what_they_are_given() {
    let mut r: Registry<&str> = Registry::new();
    for (key, value) in [(3, "a"), (-7, "b"), (9, "c")] {
        r.insert(key, value);
    }
    assert_eq!(r.keys(), vec![3, -7, 9]);
    r.insert(-7, "d");
    assert_eq!(r.len(), 3);
    assert_eq!(r.get(-7), Some(&"d"));
    assert_eq!(r.remove(3), Some("a"));
    assert_eq!(r.remove(3), None);
    assert_eq!(r.get(9), Some(&"c"));
    assert!(!r.contains_key(3) && r.contains_key(-7));
    *r.get_mut(9).unwrap() = "e";
    assert!(r.get_mut(1).is_none());
    let mut keys = r.keys();
    keys.sort();
    assert_eq!(keys, vec![-7, 9]);
    assert_eq!(r.get(9), Some(&"e"));
}

#[test]
fn registration_binds_once() {
    let mut connections = Registry::new();
    connections.insert(8, connection("10.0.0.1", None));
    let at = |ip: &str, port: u16| Endpoint { ip: ip.to_string(), port };
    assert!(!udp_handshake_complete(&connections, 8));
    assert_eq!(
        apply_register_udp(&mut connections, 9, at("10.0.0.1", 5)),
        (RegisterUdpOutcome::UnknownId, None)
    );
    assert_eq!(
        apply_register_udp(&mut connections, 8, at("10.0.0.2", 5)),
        (RegisterUdpOutcome::IpMismatch, None)
    );
    assert!(!udp_handshake_complete(&connections, 8));
    let confirmation = Outgoing {
        connection: 8,
        frame: vec![0, 6, 0xFE, 3, 0, 0, 0, 0],
        critical: true,
        force_tcp: true,
    };
    assert_eq!(
        apply_register_udp(&mut connections, 8, at("10.0.0.1", 5)),
        (RegisterUdpOutcome::Bound, Some(confirmation))
    );
    assert_eq!(
        apply_register_udp(&mut connections, 8, at("10.0.0.1", 6)),
        (RegisterUdpOutcome::AlreadyBound, None)
    );
    assert_eq!(
        apply_register_udp(&mut connections, 8, at("10.0.0.2", 5)),
        (RegisterUdpOutcome::IpMismatch, None)
    );
    assert!(udp_handshake_complete(&connections, 8));
    assert!(!udp_handshake_complete(&connections, 9));
    assert_eq!(connections.get(8).unwrap().udp_endpoint.as_ref().unwrap().port, 5);
    // Datagrams find the connection by their sender.
    assert_eq!(route_inbound_udp(&connections, &at("10.0.0.1", 5)), Some(8));
    assert_eq!(route_inbound_udp(&connections, &at("10.0.0.1", 6)), None);
    assert_eq!(route_inbound_udp(&connections, &at("10.0.0.2", 5)), None);
}

#[test]
fn datagrams_are_told_apart() {
    assert_eq!(classify_datagram(&[0xFE, 1]), DatagramAction::Discovery);
    assert_eq!(
        classify_datagram(&[0xFE, 3, 0xFF, 0xFF, 0xFF, 0xFD]),
        DatagramAction::Register(-3)
    );
    assert_eq!(classify_datagram(&[0xFE, 3, 0]), DatagramAction::MalformedRegistration);
    assert_eq!(classify_datagram(&[0xFE, 2]), DatagramAction::Ignore);
    assert_eq!(classify_datagram(&[0xFE]), DatagramAction::Route);
    assert_eq!(classify_datagram(&[29, 3]), DatagramAction::Route);
    assert_eq!(classify_datagram(&[]), DatagramAction::Route);
}

#[test]
fn connections_get_free_numbers() {
    let mut connections = Registry::new();
    assert!(!is_free_id(&connections, 0));
    assert!(is_free_id(&connections, 5));
    connections.insert(5, connection("10.0.0.1", None));
    assert!(!is_free_id(&connections, 5));
    let mut seen = Vec::new();
    for _ in 0..20 {
        let id = allocate_connection_id(&connections);
        assert!(is_free_id(&connections, id));
        connections.insert(id, connection("10.0.0.1", None));
        seen.push(id);
    }
    seen.sort();
    seen.dedup();
    assert_eq!(seen.len(), 20);
    assert_eq!(decide_admission(true, false, 0, 0), Admission::Banned);
    assert_eq!(decide_admission(false, true, 0, 0), Admission::Banned);
    assert_eq!(decide_admission(false, false, 2, 2), Admission::LimitReached);
    assert_eq!(decide_admission(false, false, 2, 1), Admission::Accepted);
    for id in [0, 7, -1, i32::MAX, i32::MIN] {
        assert_eq!(player_id_of(id), 1_000_000i32.wrapping_add(id));
        assert_eq!(connection_id_of(player_id_of(id)), id);
    }
    let mut sessions = Registry::new();
    sessions.insert(42, session(1_000_005, "A", "a", false));
    assert_eq!(departing_unit(&sessions, 5), 42);
    assert_eq!(departing_unit(&sessions, 6), 2_000_006);
}

#[test]
fn listener_settings() {
    let info = ServerInfo {
        name: "a".to_string(),
        description: "b".to_string(),
        build: 1,
        version_type: "c".to_string(),
    };
    let listener = NetworkListener::new(6567, info);
    assert_eq!(listener.save_path, "world-delta.json");
    assert_eq!((listener.port, listener.tps), (6567, 10));
    assert!(listener.map_path.is_none());
    let listener = listener
        .with_tps(0)
        .with_save_path("s.json".to_string())
        .with_map_path(Some("m.msav".to_string()))
        .with_server_info("n".to_string(), "d".to_string(), 160, "v".to_string());
    assert_eq!(listener.tps, 1);
    assert_eq!(listener.save_path, "s.json");
    assert_eq!(listener.map_path.as_deref(), Some("m.msav"));
    assert_eq!((listener.server_info.name.as_str(), listener.server_info.build), ("n", 160));
    assert_eq!(listener.with_tps(60).tps, 60);
}

struct Server {
    connections: Registry<PendingConnection>,
    sessions: Registry<SessionPlayer>,
    profiles: NamedRegistry<PlayerProfile>,
    votes: VoteState,
}

impl Server {
    fn new(players: &[(&str, u8, bool)]) -> Server {
        let mut server = Server {
            connections: Registry::new(),
            sessions: Registry::new(),
            profiles: NamedRegistry::new(),
            votes: VoteState::new(),
        };
        for (i, (name, team, admin)) in players.iter().enumerate() {
            let id = i as i32 + 1;
            let player_id = 1_000_000 + id;
            server.connections.insert(id, connection(&format!("10.0.0.{id}"), Some(name)));
            server.sessions.insert(id, session(player_id, name, &format!("uuid{id}"), *admin));
            server
                .profiles
                .insert(format!("uuid{id}"), PlayerProfile { player_id, team: *team });
        }
        server
    }

    fn run(&mut self, id: i32, message: &str, now: u64) -> Vec<Effect> {
        let mut player = self.sessions.remove(id).unwrap();
        let restored = session(player.id, &player.name, &player.uuid, player.admin);
        self.sessions.insert(id, restored);
        let ctx = CommandContext {
            connections: &self.connections,
            sessions: &self.sessions,
            profiles: &self.profiles,
            now,
        };
        let effects = handle_client_command(&ctx, &mut self.votes, &mut player, message);
        self.sessions.insert(id, player);
        effects
    }

    fn said(&mut self, id: i32, message: &str, now: u64) -> Vec<(i32, String)> {
        self.run(id, message, now)
            .into_iter()
            .map(|effect| match effect {
                Effect::Send { connection, frame, critical } => {
                    assert!(!critical);
                    assert_eq!(frame[2], 106);
                    (connection, String::from_utf8(frame[9..].to_vec()).unwrap())
                }
                Effect::Kicked { .. } => panic!("nobody is kicked here"),
            })
            .collect()
    }
}

const MINUTE: u64 = 60_000_000_000;

#[test]
fn team_and_admin_chat_reach_their_channel() {
    let mut server = Server::new(&[("Ann", 1, true), ("Bob", 2, false), ("Cid", 1, false)]);
    let line = "[#2ad4d6]<T> [coral][[Ann[coral]]:[white] go  left".to_string();
    assert_eq!(
        server.said(1, "/T go  left", 0),
        vec![(1, line.clone()), (3, line)]
    );
    assert_eq!(
        server.said(2, "/a hi", 0),
        vec![(2, "[scarlet]You must be an admin to use this command.".to_string())]
    );
    assert_eq!(
        server.said(1, "/adminchat hi", 0),
        vec![(1, "[#ffd37e]<A> [coral][[Ann[coral]]:[white] hi".to_string())]
    );
    assert!(server.said(1, &format!("/t {}", "x".repeat(65_500)), 0).is_empty());
    assert_eq!(
        server.said(2, "/Dance now", 0),
        vec![(2, "[scarlet]Unknown command '/dance'. Use /help.".to_string())]
    );
    assert!(server.said(2, "/help", 0)[0].1.starts_with("[orange]-- Commands --\n"));
}

#[test]
fn sync_waits_five_seconds() {
    let mut server = Server::new(&[("Ann", 1, false)]);
    let second = 1_000_000_000u64;
    assert_eq!(
        server.said(1, "/sync", 5 * second),
        vec![(1, "[lightgray]World synchronization requested.".to_string())]
    );
    let again = vec![(1, "[scarlet]You may only /sync every 5 seconds.".to_string())];
    let mut player = session(1_000_001, "Ann", "uuid1", false);
    player.last_shot = 5 * second;
    let ctx = CommandContext {
        connections: &server.connections,
        sessions: &server.sessions,
        profiles: &server.profiles,
        now: 10 * second - 1,
    };
    let effects = handle_client_command(&ctx, &mut server.votes, &mut player, "/sync");
    assert_eq!(effects.len(), again.len());
    assert_eq!(player.last_shot, 5 * second);
    assert_eq!(
        server.said(1, "/sync", 0),
        vec![(1, "[scarlet]You may only /sync every 5 seconds.".to_string())]
    );
}

#[test]
fn votes_are_refused_for_a_reason() {
    let mut server = Server::new(&[("Ann", 1, false), ("Bob", 1, false)]);
    let told = |server: &mut Server, message: &str, now: u64| server.said(1, message, now)[0].1.clone();
    assert_eq!(
        told(&mut server, "/votekick bob x", 0),
        "[scarlet]At least 3 players are needed to start a votekick."
    );
    let mut server = Server::new(&[("Ann", 1, false), ("Bob", 1, false), ("Cid", 1, true)]);
    assert_eq!(
        told(&mut server, "/votekick", 0),
        "[orange]Players to kick: use /votekick <name> <reason>"
    );
    assert_eq!(
        told(&mut server, "/votekick bob  ", 0),
        "[orange]You need a valid reason to kick the player. Add a reason after the player name."
    );
    assert_eq!(
        told(&mut server, "/votekick eve being  rude", 0),
        "[scarlet]No player [orange]'eve'[scarlet] found."
    );
    assert_eq!(told(&mut server, "/vote y", 0), "[scarlet]Nobody is being voted on.");
    assert_eq!(
        told(&mut server, "/votekick  bOB  being   rude ", 0),
        "[lightgray]Reason:[orange] being rude[lightgray]. Vote started for [orange]bOB[lightgray]. Type /vote y or /vote n."
    );
    assert_eq!(
        told(&mut server, "/votekick bob x", 0),
        "[scarlet]A vote is already in progress."
    );
    assert_eq!(
        told(&mut server, "/vote perhaps", 0),
        "[scarlet]Vote either 'y' (yes) or 'n' (no)."
    );
    assert_eq!(told(&mut server, "/vote y", 0), "[scarlet]You've already voted. Sit down.");
    assert_eq!(told(&mut server, "/vote c", 0), "[scarlet]Only admins can cancel the vote.");
    assert_eq!(
        server.said(3, "/vote  Cancel ", 0)[0].1,
        "[lightgray]Vote canceled by admin [orange]Cid[lightgray]."
    );
    assert!(server.votes.target.is_none() && server.votes.voters.len() == 0);
    assert_eq!(
        told(&mut server, "/votekick bob x", 5 * MINUTE - 1),
        "[scarlet]You must wait 5 minutes between votekicks."
    );
    assert!(told(&mut server, "/votekick bob x", 5 * MINUTE).starts_with("[lightgray]Reason:"));
}

#[test]
fn a_vote_passes_with_enough_voices() {
    let mut server = Server::new(&[
        ("Ann", 1, false),
        ("Bob", 1, false),
        ("Cid", 1, false),
        ("Dan", 1, false),
        ("Eve", 1, false),
    ]);
    server.run(1, "/votekick BOB reason", 0);
    assert_eq!(server.votes.votes, 1);
    assert_eq!(server.said(3, "/vote n", 0)[0].1, "[lightgray]Vote recorded.");
    assert_eq!(server.votes.votes, 0);
    assert!(server.run(4, "/vote yes", 0).is_empty());
    assert!(server.run(5, "/vote Y", 0).is_empty());
    assert_eq!(server.votes.votes, 2, "five connections need three voices");
    let effects = server.run(2, "/vote y", 0);
    assert_eq!(effects.len(), 2);
    match &effects[0] {
        Effect::Send { connection, frame, critical } => {
            assert_eq!((*connection, *critical), (2, true));
            assert_eq!(frame, &kick_reason_frame(11).unwrap());
        }
        Effect::Kicked { .. } => panic!("the kick comes first"),
    }
    match &effects[1] {
        Effect::Kicked { uuid, ip, seconds } => {
            assert_eq!((uuid.as_str(), ip.as_str(), *seconds), ("uuid2", "10.0.0.2", 3600));
        }
        Effect::Send { .. } => panic!("the ban comes second"),
    }
    assert!(server.votes.target.is_none());
    assert_eq!(server.votes.votes, 0);
    // Three connections need two voices.
    let mut server = Server::new(&[("Ann", 1, false), ("Bob", 1, false), ("Cid", 1, false)]);
    server.run(1, "/votekick bob reason", 0);
    assert_eq!(server.run(3, "/vote y", 0).len(), 2);
}

fn pause() {
    let lock = parking_lot::Mutex::new(());
    let signal = parking_lot::Condvar::new();
    signal.wait_for(&mut lock.lock(), std::time::Duration::from_micros(50));
}

#[test]
fn ordered_map_uses_multiple_pool_threads_and_preserves_order() {
    let pool = rayon::ThreadPoolBuilder::new()
        .num_threads(4)
        .build()
        .unwrap();
    let input: Vec<u32> = (0..256).collect();
    let mut metrics = ParallelMetrics::new();
    let before = metrics;
    let output = pool.install(|| {
        map_ordered(
            &input,
            2,
            |value: &u32| {
                pause();
                value.wrapping_mul(17).wrapping_add(3)
            },
            &mut metrics,
        )
    });
    let after = metrics;

    assert!(output.execution.parallel);
    assert!(
        output.execution.workers_used > 1,
        "four-thread pool must execute snapshot work on multiple workers: {:?}",
        output.execution
    );
    assert_eq!(
        output.values,
        input
            .iter()
            .map(|value| value.wrapping_mul(17).wrapping_add(3))
            .collect::<Vec<_>>()
    );
    assert!(after.calls > before.calls);
    assert!(after.parallel_calls > before.parallel_calls);
    assert!(after.parallel_items >= before.parallel_items + input.len() as u64);
    assert!(after.max_workers_used >= output.execution.workers_used as u64);
}

#[test]
fn ordered_map_stays_sequential_below_threshold() {
    let pool = rayon::ThreadPoolBuilder::new()
        .num_threads(4)
        .build()
        .unwrap();
    let input = [3, 1, 4, 1, 5];
    let mut metrics = ParallelMetrics::new();
    let output =
        pool.install(|| map_ordered(&input, 64, |value: &i32| value * 2, &mut metrics));
    assert_eq!(output.values, vec![6, 2, 8, 2, 10]);
    assert_eq!(
        output.execution,
        ParallelExecution {
            items: input.len(),
            workers_used: 1,
            parallel: false,
        }
    );
    assert_eq!((metrics.calls, metrics.items, metrics.parallel_calls), (1, 5, 0));
    let empty: [i32; 0] = [];
    let output = map_ordered(&empty, 0, |value: &i32| value * 2, &mut metrics);
    assert_eq!(output.execution.workers_used, 0);
}

#[test]
fn maps_run_in_parallel_from_the_threshold_on() {
    let input = [3, 1, 4, 1, 5];
    let mut metrics = ParallelMetrics::new();
    let mut parallel = |threshold: usize, threads: usize| {
        let output =
            map_with_threads(&input, threshold, threads, |v: &i32| v + 1, &mut metrics);
        assert_eq!(output.values, vec![4, 2, 5, 2, 6]);
        assert!((1..=5).contains(&output.execution.workers_used));
        assert!(output.execution.workers_used <= threads.max(1));
        output.execution.parallel
    };
    assert!(parallel(5, 2));
    assert!(parallel(0, 8));
    assert!(!parallel(6, 2));
    assert!(!parallel(5, 1));
    assert!(!parallel(5, 0));
    let one = [7];
    let output = map_with_threads(&one, 0, 8, |v: &i32| v + 1, &mut metrics);
    assert!(!output.execution.parallel);
    assert_eq!(metrics.parallel_calls, 2);
}

#[test]
fn noted_results_are_gathered_in_order() {
    assert_eq!(gather(vec![(3, 'a'), (0, 'b'), (3, 'c')]), (vec!['a', 'b', 'c'], 2));
    // Workers from the 64th on count as one.
    assert_eq!(gather(vec![(63, 1), (64, 2), (900, 3), (62, 4)]), (vec![1, 2, 3, 4], 2));
    assert_eq!(gather::<u8>(Vec::new()), (Vec::new(), 0));
}

#[test]
fn white_space_is_that_of_unicode() {
    for n in 0..=0x10_FFFF {
        if let Some(c) = char::from_u32(n) {
            assert_eq!(is_whitespace(c), c.is_whitespace(), "{n:x}");
        }
    }
}
