//! The process state's decisions, driven with a clock of their own.

use dcsbridge::config::{Config, Token};
use dcsbridge::fanout::{Class, ConnectionId};
use dcsbridge::inbound::{AuthError, Command, Delivery, RejectedReason, Session};
use dcsbridge::registry::{Capability, RecordClass, Target};
use dcsbridge::state::{Bridge, CommitError, PollError, SchemaError, Stamp};
use dcsbridge::topic;
use sha2::{Digest, Sha256};

/// A bridge configured with `interval` between heartbeat stamps.
fn ticking(instance: u64, interval: u64) -> Bridge {
    let mut bridge = Bridge::new(instance, 0);
    bridge.apply(Config { heartbeat_interval_ms: interval, ..Config::default() }, 0);
    bridge
}

/// The heartbeat's stamp, as an age read at the stamp itself.
fn stamped_at(bridge: &Bridge, now: u64) -> Option<u64> {
    bridge.liveness(now).last_heard_ms.map(|age| now - age)
}

#[test]
fn authentication_matches_a_token_and_holds_the_session_count() {
    let mut bridge = Bridge::new(1, 0);
    let max_connections = Config::default().max_connections;
    assert_eq!(bridge.authenticate(b"anything"), Err(AuthError::BadToken));

    bridge.set_tokens(vec![
        Token { id: "reader".into(), secret: b"correct horse".to_vec(), caps: vec![Capability::Read] },
        Token { id: "useless".into(), secret: b"battery staple".to_vec(), caps: Vec::new() },
    ]);
    assert_eq!(bridge.authenticate(b"correct hors"), Err(AuthError::BadToken));
    assert_eq!(bridge.authenticate(b"correct horses"), Err(AuthError::BadToken));
    assert_eq!(bridge.authenticate(b"battery staple"), Err(AuthError::EmptyCapabilitySet));
    assert_eq!(bridge.authenticated(), 0, "a refusal took a slot");

    let sessions: Vec<Session> = (0..max_connections)
        .map(|_| bridge.authenticate(b"correct horse").expect("under the cap"))
        .collect();
    assert_eq!(sessions[0].token_id, "reader");
    assert_eq!(sessions[0].caps, vec![Capability::Read]);
    assert_eq!(bridge.authenticate(b"correct horse"), Err(AuthError::ServerFull));

    bridge.disconnected(&sessions[0]);
    assert!(bridge.authenticate(b"correct horse").is_ok(), "a freed slot was not reused");
    for session in &sessions {
        bridge.disconnected(session);
    }
    bridge.disconnected(&sessions[0]);
    assert_eq!(bridge.authenticated(), 0, "the count went below zero");
    assert!(bridge.authenticate(b"correct horse").is_ok());
}

#[test]
fn the_first_token_carrying_the_secret_opens_the_session() {
    let mut bridge = Bridge::new(1, 0);
    bridge.set_tokens(vec![
        Token { id: "first".into(), secret: b"same".to_vec(), caps: vec![Capability::Read] },
        Token { id: "second".into(), secret: b"same".to_vec(), caps: vec![Capability::Command] },
    ]);
    let session = bridge.authenticate(b"same").unwrap();
    assert_eq!(session.token_id, "first");
    assert_eq!(bridge.authenticate(b""), Err(AuthError::BadToken));
}

#[test]
fn configure_swaps_the_live_keys_and_counts_the_rest() {
    let mut bridge = Bridge::new(2, 0);
    assert!(!bridge.configured());
    let first = bridge.apply(Config { port: 0, ..Config::default() }, 1);
    assert!(first.is_empty());
    assert!(bridge.configured());
    assert_eq!(bridge.config().port, 0);
    assert_eq!(bridge.unknown_keys(), 1);

    let pending = bridge.apply(
        Config { port: 9, max_connections: 2, handshake_timeout_ms: 250, enabled: false, ..Config::default() },
        0,
    );
    assert_eq!(pending, vec!["port", "max_connections"]);
    assert_eq!(bridge.pending_restart(), 2);
    assert_eq!(bridge.unknown_keys(), 0);
    assert_eq!(bridge.config().port, 0, "a restart key moved");
    assert_eq!(bridge.config().max_connections, 8, "a restart key moved");
    assert_eq!(bridge.config().handshake_timeout_ms, 250, "a live key did not");
    assert!(!bridge.enabled());
    bridge.set_enabled(true);
    assert!(bridge.enabled());
}

#[test]
fn the_schema_is_held_once_after_configure_and_served_back() {
    let mut bridge = Bridge::new(3, 0);
    let set = b"\x0a\x05hello".to_vec();
    assert_eq!(bridge.hold_schema(&set), Err(SchemaError::NotConfigured), "held before configure");
    assert!(bridge.schema().is_none());
    assert_eq!(bridge.handshake().schema_sha256, None);

    bridge.apply(Config { port: 0, ..Config::default() }, 0);
    assert_eq!(bridge.hold_schema(b""), Err(SchemaError::Empty));
    assert!(bridge.schema().is_none(), "an empty schema was held");

    bridge.apply(Config { max_frame_bytes: 256, ..Config::default() }, 0);
    let wide = vec![0x0a; 200];
    assert_eq!(
        bridge.hold_schema(&wide),
        Err(SchemaError::TooLarge { len: 200, max_frame_bytes: 256 })
    );
    assert_eq!(
        SchemaError::TooLarge { len: 200, max_frame_bytes: 256 }.to_string(),
        "the schema is 200 bytes and its answer would not fit max_frame_bytes 256"
    );
    assert!(bridge.schema().is_none(), "an oversized schema was held");
    bridge.apply(Config { max_frame_bytes: 1024, ..Config::default() }, 0);

    let sha256 = bridge.hold_schema(&set).expect("the first hand-off");
    assert_eq!(sha256, <[u8; 32]>::from(Sha256::digest(&set)));
    assert_eq!(bridge.handshake().schema_sha256, Some(sha256));
    assert_eq!(bridge.schema().expect("a schema to serve"), &set[..]);

    assert_eq!(bridge.hold_schema(b"\x0a\x05other"), Err(SchemaError::Held), "a second hand-off was applied");
    assert_eq!(bridge.handshake().schema_sha256, Some(sha256));
    assert_eq!(bridge.schema().unwrap(), &set[..], "the held set changed");
}

#[test]
fn the_acknowledgement_is_addressable_and_a_fan_out_topic_is_refused() {
    let mut bridge = Bridge::new(4, 0);
    assert!(bridge.addressable(topic::COMMAND_ACK.as_bytes()));
    assert_eq!(bridge.misaddressed(), 0, "an accepted address was counted");
    assert!(!bridge.addressable(b"dcsbridge.builtin.sim.UnitDestroyed"));
    assert!(!bridge.addressable(b""));
    assert_eq!(bridge.misaddressed(), 2, "two refusals were not counted as two");
}

#[test]
fn registrations_merge_through_the_bridge() {
    let mut bridge = Bridge::new(3, 0);
    const EVENT: &str = "dcsbridge.builtin.sim.UnitDestroyed";
    const COMMAND: &str = "dcsbridge.builtin.sim.SetFlag";

    assert_eq!(bridge.register_classes(vec![(EVENT.to_string(), RecordClass::Durable)]), Ok(1));
    assert_eq!(
        bridge.register_classes(vec![
            (EVENT.to_string(), RecordClass::Durable),
            (COMMAND.to_string(), RecordClass::Command),
        ]),
        Ok(1)
    );
    assert_eq!(bridge.register_routes(vec![(COMMAND.to_string(), Target::SimDriver)]), Ok(1));
    assert_eq!(
        bridge.register_caps(vec![
            (EVENT.to_string(), Capability::Read),
            (COMMAND.to_string(), Capability::Command),
        ]),
        Ok(2)
    );
    let refused = bridge.register_caps(vec![(EVENT.to_string(), Capability::Command)]);
    assert_eq!(
        refused.map_err(|c| c.to_string()),
        Err(format!("{EVENT} is registered as read, not command"))
    );

    let registry = bridge.registry();
    assert_eq!(registry.classes().len(), 2);
    assert_eq!(registry.routes().len(), 1);
    assert_eq!(registry.caps().get(EVENT), Some(Capability::Read));
}

#[test]
fn a_begin_needs_a_class_and_a_capability_and_a_reply_needs_registering() {
    let mut bridge = Bridge::new(4, 0);
    const EVENT: &str = "dcsbridge.builtin.sim.UnitDestroyed";
    const REPLY: &str = "dcsbridge.builtin.sim.FlagValue";

    assert_eq!(bridge.registered(EVENT.as_bytes()), None);
    assert_eq!(bridge.partial_registration(), 1);

    bridge.register_classes(vec![(EVENT.to_string(), RecordClass::Durable)]).expect("classes");
    assert_eq!(bridge.registered(EVENT.as_bytes()), None, "a class alone made a topic registered");
    bridge.register_caps(vec![(EVENT.to_string(), Capability::Read)]).expect("caps");
    assert_eq!(
        bridge.registered(EVENT.as_bytes()),
        Some((Capability::Read, Class::Durable, None)),
        "a registered topic did not name its capability"
    );
    assert_eq!(bridge.partial_registration(), 2, "an allowed begin was counted");

    assert_eq!(
        bridge.registered(topic::COMMAND_ACK.as_bytes()),
        Some((Capability::Command, Class::Durable, None))
    );

    assert!(!bridge.addressable(REPLY.as_bytes()));
    assert_eq!(bridge.register_replies(vec![REPLY.to_string()]), 1);
    assert!(bridge.addressable(REPLY.as_bytes()));
    assert_eq!(bridge.misaddressed(), 1);
}

#[test]
fn a_commit_waits_for_the_outbound_path_and_then_reaches_the_writer() {
    let mut bridge = Bridge::new(5, 0);
    assert_eq!(
        bridge.commit(Capability::Read, Class::Durable, None, b"tail".to_vec()),
        Err(CommitError::NotStarted)
    );
    assert_eq!(CommitError::NotStarted.to_string(), "the outbound path is not started");
    bridge.start_outbound(2);
    assert_eq!(bridge.commit(Capability::Read, Class::Durable, None, b"one".to_vec()), Ok(()));
    assert_eq!(bridge.commit_to(ConnectionId::from_raw(4), Class::Durable, b"two".to_vec()), Ok(()));
    assert_eq!(bridge.commit(Capability::Read, Class::Lifecycle, Some(0), b"three".to_vec()), Ok(()));

    let first = bridge.take_committed().expect("two remain after an eviction");
    assert_eq!(first.record, b"two");
    assert_eq!(first.to, Some(ConnectionId::from_raw(4)));
    let second = bridge.take_committed().expect("one remains");
    assert_eq!(second.record, b"three");
    assert_eq!(second.class, Class::Lifecycle);
    assert_eq!(second.slot, Some(0));
    assert!(bridge.take_committed().is_none());
}

#[test]
fn opening_registers_nothing() {
    let mut bridge = Bridge::new(8, 0);
    bridge.open();
    let registry = bridge.registry();

    assert!(registry.classes().is_empty(), "an open registered a class");
    assert!(registry.routes().is_empty(), "an open registered a route");
    assert!(registry.caps().is_empty(), "an open registered a capability");
}

#[test]
fn each_open_is_numbered() {
    let mut bridge = Bridge::new(6, 0);
    assert_eq!(bridge.open(), 1);
    assert_eq!(bridge.open(), 2);
    assert_eq!(bridge.opens(), 2);
}

#[test]
fn the_first_tick_stamps_and_every_tick_publishes_mission_time() {
    let mut bridge = ticking(10, 1000);
    assert_eq!(stamped_at(&bridge, 0), None);
    assert_eq!(bridge.liveness(0).last_heard_ms, None);

    bridge.tick_at(5, 12.5f64.to_bits());
    assert_eq!(stamped_at(&bridge, 5), Some(5));
    assert_eq!(f64::from_bits(bridge.mission_time()), 12.5);

    bridge.tick_at(6, 12.75f64.to_bits());
    assert_eq!(stamped_at(&bridge, 6), Some(5), "a tick inside the interval stamped");
    assert_eq!(f64::from_bits(bridge.mission_time()), 12.75, "the mission time was throttled");
}

#[test]
fn the_heartbeat_is_stamped_at_most_once_per_interval() {
    let mut bridge = ticking(11, 1000);

    bridge.tick_at(100, 0);
    for now in (116..1100).step_by(16) {
        bridge.tick_at(now, 0);
    }
    assert_eq!(stamped_at(&bridge, 1099), Some(100), "a tick under the interval stamped");

    bridge.tick_at(1100, 0);
    assert_eq!(stamped_at(&bridge, 1100), Some(1100), "the tick at the interval did not stamp");

    bridge.tick_at(2000, 0);
    assert_eq!(stamped_at(&bridge, 2000), Some(1100));
    bridge.tick_at(2100, 0);
    assert_eq!(stamped_at(&bridge, 2100), Some(2100));
}

#[test]
fn the_throttle_reads_the_interval_in_force() {
    let mut bridge = ticking(12, 100);

    bridge.tick_at(0, 0);
    bridge.tick_at(100, 0);
    assert_eq!(stamped_at(&bridge, 100), Some(100));

    bridge.apply(Config { heartbeat_interval_ms: 500, ..Config::default() }, 0);
    bridge.tick_at(200, 0);
    assert_eq!(stamped_at(&bridge, 200), Some(100), "the old interval was read");
    bridge.tick_at(600, 0);
    assert_eq!(stamped_at(&bridge, 600), Some(600));
}

#[test]
fn a_load_in_progress_judges_liveness_by_the_loading_threshold() {
    let mut bridge = Bridge::new(13, 0);
    bridge.apply(
        Config {
            heartbeat_interval_ms: 1,
            dcs_alive_threshold_ms: 0,
            dcs_alive_threshold_loading_ms: 120_000,
            ..Config::default()
        },
        0,
    );
    assert!(!bridge.liveness(0).alive, "never heard from read alive");

    bridge.tick_at(0, 0);
    assert!(!bridge.liveness(0).alive, "an age at the running threshold read alive");

    bridge.set_loading(true);
    assert!(bridge.liveness(0).alive, "a load in progress read the running threshold");

    bridge.set_loading(false);
    assert!(!bridge.liveness(0).alive, "the load's end kept the loading threshold");
}

#[test]
fn the_stamp_is_the_open_epoch_and_the_clock_or_nothing() {
    let mut bridge = ticking(14, 1000);
    bridge.tick_at(0, 41.5f64.to_bits());
    assert_eq!(bridge.stamp(), None, "a stamp outside an epoch");

    bridge.set_epoch(Some(3));
    assert_eq!(bridge.stamp(), Some(Stamp { epoch: 3, mission_time: 41.5f64.to_bits() }));

    bridge.tick_at(1, 42.0f64.to_bits());
    assert_eq!(
        bridge.stamp().map(|stamp| f64::from_bits(stamp.mission_time)),
        Some(42.0),
        "the stamp did not follow the clock"
    );

    bridge.set_epoch(None);
    assert_eq!(bridge.stamp(), None, "a stamp after the epoch closed");
    assert_eq!(f64::from_bits(bridge.mission_time()), 42.0, "closing the epoch moved the clock");
}

const SIM_COMMAND: &str = "dcsbridge.builtin.sim.SetFlag";
const HOOK_COMMAND: &str = "dcsbridge.builtin.hook.Kick";

fn command(from: u64, topic: &str, value: &[u8]) -> Command {
    Command { from: ConnectionId::from_raw(from), topic: topic.to_owned(), value: value.to_vec() }
}

fn route_both(bridge: &mut Bridge) {
    bridge
        .register_routes(vec![
            (SIM_COMMAND.to_string(), Target::SimDriver),
            (HOOK_COMMAND.to_string(), Target::HookDriver),
        ])
        .expect("two new routes merge");
    bridge
        .register_caps(vec![
            (SIM_COMMAND.to_string(), Capability::Command),
            (HOOK_COMMAND.to_string(), Capability::Command),
        ])
        .expect("two new capabilities merge");
}

const COMMANDING: &[Capability] = &[Capability::Command];

#[test]
fn a_command_the_token_does_not_cover_is_handed_back() {
    let mut bridge = Bridge::new(24, 0);
    bridge.start_inbound(4, 4);
    route_both(&mut bridge);
    const ROUTED_ONLY: &str = "dcsbridge.builtin.sim.Uncapped";
    bridge.register_routes(vec![(ROUTED_ONLY.to_string(), Target::SimDriver)]).unwrap();

    let sent = command(1, SIM_COMMAND, b"read-only");
    assert_eq!(bridge.deliver(&[Capability::Read], sent.clone()), Delivery::Uncovered(sent));
    let uncapped = command(1, ROUTED_ONLY, b"");
    assert_eq!(bridge.deliver(COMMANDING, uncapped.clone()), Delivery::Uncovered(uncapped));
    let stray = command(1, "dcsbridge.sim.Resync", b"");
    assert_eq!(bridge.deliver(&[], stray.clone()), Delivery::Unrouted(stray));
    assert_eq!(bridge.poll(Target::SimDriver), Ok(None));
    assert_eq!(bridge.unrouted_topic(), 1, "an uncovered command was counted as unrouted");
    assert_eq!(bridge.inbound_busy(Target::SimDriver), 0);
}

#[test]
fn a_routed_command_is_polled_from_its_ring_and_no_other() {
    let mut bridge = Bridge::new(20, 0);
    bridge.start_inbound(4, 4);
    bridge.start_inbound(1, 1);
    route_both(&mut bridge);

    assert_eq!(bridge.poll(Target::SimDriver), Ok(None));
    assert_eq!(bridge.poll(Target::HookDriver), Ok(None));

    assert_eq!(bridge.deliver(COMMANDING, command(7, SIM_COMMAND, b"first")), Delivery::Stored);
    assert_eq!(bridge.deliver(COMMANDING, command(8, HOOK_COMMAND, b"kick")), Delivery::Stored);
    assert_eq!(bridge.deliver(COMMANDING, command(9, SIM_COMMAND, b"second")), Delivery::Stored);

    assert_eq!(
        bridge.poll(Target::HookDriver),
        Ok(Some(command(8, HOOK_COMMAND, b"kick"))),
        "the hook ring did not hold the hook command"
    );
    assert_eq!(bridge.poll(Target::HookDriver), Ok(None), "the hook ring held a sim command");
    assert_eq!(bridge.poll(Target::SimDriver), Ok(Some(command(7, SIM_COMMAND, b"first"))));
    assert_eq!(bridge.poll(Target::SimDriver), Ok(Some(command(9, SIM_COMMAND, b"second"))));
    assert_eq!(bridge.poll(Target::SimDriver), Ok(None));
    assert_eq!(bridge.unrouted_topic(), 0, "a routed command was counted as unrouted");
    assert_eq!(
        bridge.inbound_busy(Target::SimDriver) + bridge.inbound_busy(Target::HookDriver),
        0,
        "a stored command was counted as turned away"
    );
}

#[test]
fn an_unrouted_command_is_counted_and_polled_from_neither() {
    let mut bridge = Bridge::new(21, 0);
    bridge.start_inbound(4, 4);
    route_both(&mut bridge);
    const EVENT: &str = "dcsbridge.builtin.sim.UnitDestroyed";
    bridge.register_classes(vec![(EVENT.to_string(), RecordClass::Durable)]).unwrap();
    bridge.register_caps(vec![(EVENT.to_string(), Capability::Read)]).unwrap();

    let stray = command(3, "dcsbridge.sim.Resync", b"");
    assert_eq!(bridge.deliver(COMMANDING, stray.clone()), Delivery::Unrouted(stray));
    let outbound_only = command(3, EVENT, b"");
    assert_eq!(bridge.deliver(COMMANDING, outbound_only.clone()), Delivery::Unrouted(outbound_only));
    assert_eq!(bridge.unrouted_topic(), 2);
    assert_eq!(bridge.poll(Target::SimDriver), Ok(None));
    assert_eq!(bridge.poll(Target::HookDriver), Ok(None));
}

#[test]
fn a_full_ring_refuses_the_newest_and_keeps_the_first() {
    let mut bridge = Bridge::new(22, 0);
    bridge.start_inbound(2, 1);
    route_both(&mut bridge);

    assert_eq!(bridge.deliver(COMMANDING, command(1, SIM_COMMAND, b"a")), Delivery::Stored);
    assert_eq!(bridge.deliver(COMMANDING, command(1, SIM_COMMAND, b"b")), Delivery::Stored);
    let third = command(1, SIM_COMMAND, b"c");
    assert_eq!(bridge.deliver(COMMANDING, third.clone()), Delivery::Busy(third));
    assert_eq!(bridge.inbound_busy(Target::SimDriver), 1);
    assert_eq!(bridge.inbound_busy(Target::HookDriver), 0);
    assert_eq!(bridge.unrouted_topic(), 0, "a full ring was counted as no route");

    assert_eq!(
        bridge.poll(Target::SimDriver),
        Ok(Some(command(1, SIM_COMMAND, b"a"))),
        "the oldest command was not kept"
    );
    assert_eq!(bridge.deliver(COMMANDING, command(1, SIM_COMMAND, b"d")), Delivery::Stored);
    assert_eq!(bridge.poll(Target::SimDriver), Ok(Some(command(1, SIM_COMMAND, b"b"))));
    assert_eq!(bridge.poll(Target::SimDriver), Ok(Some(command(1, SIM_COMMAND, b"d"))));
    assert_eq!(bridge.poll(Target::SimDriver), Ok(None));
}

#[test]
fn a_poll_before_the_rings_exist_is_refused() {
    let mut bridge = Bridge::new(23, 0);
    route_both(&mut bridge);
    assert_eq!(bridge.poll(Target::SimDriver), Err(PollError::NotStarted));
    assert_eq!(bridge.poll(Target::HookDriver), Err(PollError::NotStarted));
    let early = command(1, SIM_COMMAND, b"");
    assert_eq!(bridge.deliver(COMMANDING, early.clone()), Delivery::Unrouted(early));
    assert_eq!(bridge.unrouted_topic(), 1);
    assert_eq!(bridge.inbound_busy(Target::SimDriver), 0);
    assert_eq!(
        PollError::NotStarted.to_string(),
        "configure comes first: the rings are allocated by it"
    );
}

#[test]
fn a_refusal_counts_by_reason_and_a_withheld_one_as_suppressed_too() {
    let mut bridge = Bridge::new(29, 0);
    for reason in RejectedReason::all() {
        assert_eq!(bridge.commands_rejected(reason), 0);
    }
    bridge.rejected(RejectedReason::UnknownTopic, true);
    bridge.rejected(RejectedReason::UnknownTopic, false);
    bridge.rejected(RejectedReason::Busy, false);
    assert_eq!(bridge.commands_rejected(RejectedReason::UnknownTopic), 2);
    assert_eq!(bridge.commands_rejected(RejectedReason::NoCapability), 0);
    assert_eq!(bridge.commands_rejected(RejectedReason::RateLimited), 0);
    assert_eq!(bridge.commands_rejected(RejectedReason::Busy), 1);
    assert_eq!(bridge.rejections_suppressed(), 2);
}

#[test]
fn the_inbound_total_is_one_window_across_connections() {
    let mut bridge = Bridge::new(31, 0);
    let now = 5000;
    assert!(bridge.admit_total(now, 2));
    assert!(bridge.admit_total(now, 2));
    assert!(!bridge.admit_total(now, 2), "a third record fit under two");
    assert!(bridge.admit_total(now + 1000, 2));
}
