use dcsbridge::fanout::Class;
use dcsbridge::registry::{Capability, Member, RecordClass, Refusal, Registry, Target, Topic};
use dcsbridge::topic;

const EVENT: &str = "dcsbridge.builtin.sim.UnitDestroyed";
const COMMAND: &str = "dcsbridge.builtin.sim.SetFlag";
const REPLY: &str = "dcsbridge.builtin.sim.FlagValue";

/// A cap no test here reaches, unless it is about the cap.
const CAP: u32 = 64;

fn rows<V: Member>(rows: &[(&str, V)]) -> Vec<(Topic, V)> {
    rows.iter().map(|(t, v)| (t.to_string(), *v)).collect()
}

/// `count` distinct `LIFECYCLE` topics, numbered from `from`.
fn lifecycle(from: u32, count: u32) -> Vec<(Topic, RecordClass)> {
    (from..from + count)
        .map(|n| (format!("dcsbridge.builtin.hook.Boundary{n}"), RecordClass::Lifecycle))
        .collect()
}

#[test]
fn a_second_registrar_over_new_topics_merges() {
    let mut registry = Registry::default();

    let hook = registry.register_classes(rows(&[(EVENT, RecordClass::Durable)]), CAP);
    let sim = registry.register_classes(rows(&[(COMMAND, RecordClass::Command)]), CAP);

    assert_eq!(hook, Ok(1));
    assert_eq!(sim, Ok(1));
    assert_eq!(registry.classes().len(), 2);
    assert_eq!(registry.classes().get(COMMAND), Some(RecordClass::Command));
}

#[test]
fn an_identical_registration_is_a_no_op() {
    let mut registry = Registry::default();
    let table = rows(&[(EVENT, Capability::Read), (COMMAND, Capability::Command)]);

    assert_eq!(registry.register_caps(table.clone()), Ok(2));
    assert_eq!(registry.register_caps(table), Ok(0));
    assert_eq!(registry.caps().len(), 2);
}

#[test]
fn a_conflicting_row_refuses_the_whole_call() {
    let mut registry = Registry::default();
    registry
        .register_routes(rows(&[(COMMAND, Target::SimDriver)]))
        .expect("the first registration");

    let refused = registry.register_routes(rows(&[
        ("dcsbridge.builtin.sim.Other", Target::HookDriver),
        (COMMAND, Target::HookDriver),
        ("dcsbridge.builtin.sim.Another", Target::HookDriver),
    ]));

    assert_eq!(
        refused,
        Err(Refusal::Conflict {
            topic: COMMAND.into(),
            held: "sim_driver",
            offered: "hook_driver",
        })
    );
    assert_eq!(
        refused.unwrap_err().to_string(),
        "dcsbridge.builtin.sim.SetFlag is registered as sim_driver, not hook_driver"
    );
    assert_eq!(registry.routes().len(), 1, "a refused call applied a row");
}

#[test]
fn a_call_that_disagrees_with_itself_is_refused() {
    let mut registry = Registry::default();

    let refused = registry.register_classes(
        rows(&[(EVENT, RecordClass::Durable), (EVENT, RecordClass::Lossy)]),
        CAP,
    );

    assert_eq!(
        refused,
        Err(Refusal::Conflict {
            topic: EVENT.into(),
            held: "durable",
            offered: "lossy",
        })
    );
    assert!(registry.classes().is_empty(), "a refused call applied a row");
}

#[test]
fn a_topic_is_complete_with_a_class_and_a_capability_and_no_route() {
    let mut registry = Registry::default();
    registry
        .register_classes(
            rows(&[(EVENT, RecordClass::Durable), (COMMAND, RecordClass::Command)]),
            CAP,
        )
        .expect("classes");
    registry.register_caps(rows(&[(EVENT, Capability::Read)])).expect("caps");
    registry.register_routes(rows(&[(COMMAND, Target::SimDriver)])).expect("routes");

    assert!(registry.is_complete(EVENT.as_bytes()));
    assert_eq!(
        registry.required(EVENT.as_bytes()),
        Some((Capability::Read, Class::Durable, None))
    );
    assert!(
        !registry.is_complete(COMMAND.as_bytes()),
        "a class and a route made a topic complete without a capability"
    );
    assert!(!registry.is_complete(b"dcsbridge.builtin.sim.Unregistered"));
    assert!(!registry.is_complete(b"\xff"));

    let mut classless = Registry::default();
    classless.register_caps(rows(&[(EVENT, Capability::Read)])).expect("caps");
    assert_eq!(classless.required(EVENT.as_bytes()), None);
}

#[test]
fn a_topic_takes_the_ring_of_its_class_and_a_command_the_durable_one() {
    const GAUGE: &str = "dcsbridge.builtin.sim.Gauge";
    const EDGE: &str = "dcsbridge.builtin.hook.Edge";
    let all = [
        (GAUGE, RecordClass::Lossy, Class::Lossy, None),
        (EVENT, RecordClass::Durable, Class::Durable, None),
        (EDGE, RecordClass::Lifecycle, Class::Lifecycle, Some(0)),
        (COMMAND, RecordClass::Command, Class::Durable, None),
    ];
    let mut registry = Registry::default();
    for (topic, class, _, _) in all {
        registry.register_classes(rows(&[(topic, class)]), CAP).expect("classes");
        registry.register_caps(rows(&[(topic, Capability::Read)])).expect("caps");
    }

    for (topic, _, ring, slot) in all {
        assert_eq!(
            registry.required(topic.as_bytes()),
            Some((Capability::Read, ring, slot)),
            "{topic}"
        );
    }
    assert_eq!(
        registry.required(topic::COMMAND_ACK.as_bytes()),
        Some((Capability::Command, Class::Durable, None))
    );
}

#[test]
fn a_lifecycle_registration_past_the_cap_is_refused_whole() {
    let mut registry = Registry::default();

    assert_eq!(registry.register_classes(lifecycle(0, CAP), CAP), Ok(64));
    assert_eq!(
        registry.register_classes(lifecycle(0, CAP), CAP),
        Ok(0),
        "a re-registration bound a slot"
    );

    let mut over = lifecycle(CAP, 1);
    over.push((EVENT.to_string(), RecordClass::Durable));
    assert_eq!(
        registry.register_classes(over, CAP),
        Err(Refusal::OverCap { bound: 64, offered: 1, cap: 64 })
    );
    assert_eq!(
        registry.classes().len(),
        64,
        "a refused call applied the durable row beside the cap"
    );
    assert_eq!(
        Refusal::OverCap { bound: 64, offered: 1, cap: 64 }.to_string(),
        "1 LIFECYCLE topics beside 64 bound would exceed max_lifecycle_topics 64"
    );

    let mut slots: Vec<u32> = registry.slots().iter().map(|(_, slot)| *slot).collect();
    slots.sort_unstable();
    slots.dedup();
    assert_eq!(slots.len(), 64, "two topics share a slot");
    assert!(slots.iter().all(|slot| *slot < CAP), "a slot past the cap");
}

#[test]
fn one_call_over_a_small_cap_binds_nothing() {
    let mut registry = Registry::default();

    assert_eq!(
        registry.register_classes(lifecycle(0, 17), 16),
        Err(Refusal::OverCap { bound: 0, offered: 17, cap: 16 })
    );
    assert!(registry.classes().is_empty(), "a refused call applied a row");
    assert_eq!(registry.register_classes(lifecycle(0, 16), 16), Ok(16));
}

#[test]
fn the_acknowledgement_is_complete_and_addressable_by_name() {
    let registry = Registry::default();
    let ack = topic::COMMAND_ACK.as_bytes();

    assert!(registry.is_complete(ack));
    assert!(registry.is_addressable(ack));
    assert!(registry.replies().is_empty());
}

#[test]
fn a_registered_reply_is_addressable() {
    let mut registry = Registry::default();
    assert!(!registry.is_addressable(REPLY.as_bytes()));

    assert_eq!(registry.register_replies(vec![REPLY.to_string()]), 1);
    assert_eq!(registry.register_replies(vec![REPLY.to_string(), EVENT.to_string()]), 1);

    assert!(registry.is_addressable(REPLY.as_bytes()));
    assert!(registry.is_addressable(EVENT.as_bytes()));
    assert_eq!(registry.replies().len(), 2);
}

#[test]
fn a_member_reads_from_its_name_or_its_number() {
    fn check<V: Member + PartialEq + std::fmt::Debug>() {
        for member in V::all() {
            assert_eq!(V::from_name(member.name().as_bytes()), Some(member));
            assert_eq!(V::from_number(member.number()), Some(member));
        }
        assert_eq!(V::from_name(b"unspecified"), None);
        assert_eq!(V::from_name(b"DURABLE"), None, "names are lowercase");
        assert_eq!(V::from_number(0), None);
    }
    check::<RecordClass>();
    check::<Target>();
    check::<Capability>();
}

#[test]
fn the_outbound_ring_of_each_class() {
    assert_eq!(RecordClass::Lossy.outbound(), Class::Lossy);
    assert_eq!(RecordClass::Durable.outbound(), Class::Durable);
    assert_eq!(RecordClass::Lifecycle.outbound(), Class::Lifecycle);
    assert_eq!(RecordClass::Command.outbound(), Class::Durable);
}

#[test]
fn a_registration_counts_each_fresh_topic_once_and_binds_its_lifecycle_ones() {
    let mut registry = Registry::default();
    assert_eq!(registry.register_classes(rows(&[(EVENT, RecordClass::Durable)]), CAP), Ok(1));

    // The held topic repeated, a fresh topic twice, and a fresh LIFECYCLE one.
    let boundary = "dcsbridge.builtin.hook.Boundary0";
    let call = rows(&[
        (EVENT, RecordClass::Durable),
        (COMMAND, RecordClass::Command),
        (COMMAND, RecordClass::Command),
        (boundary, RecordClass::Lifecycle),
    ]);
    assert_eq!(registry.register_classes(call, CAP), Ok(2));
    assert_eq!(registry.classes().len(), 3);
    assert_eq!(registry.classes().get(EVENT), Some(RecordClass::Durable));
    assert_eq!(registry.classes().get(COMMAND), Some(RecordClass::Command));
    assert_eq!(registry.classes().get(boundary), Some(RecordClass::Lifecycle));
    assert_eq!(registry.slots().len(), 1);
    assert_eq!(registry.slots()[0], (boundary.to_string(), 0));

    // A row disagreeing with an earlier row of the same call refuses it whole.
    let call = rows(&[(REPLY, RecordClass::Lossy), (REPLY, RecordClass::Durable)]);
    assert!(matches!(registry.register_classes(call, CAP), Err(Refusal::Conflict { .. })));
    assert_eq!(registry.classes().len(), 3);
}

#[test]
fn a_table_merge_counts_each_fresh_topic_once() {
    let mut registry = Registry::default();
    let call = rows(&[(EVENT, Capability::Read), (COMMAND, Capability::Command), (EVENT, Capability::Read)]);
    assert_eq!(registry.register_caps(call), Ok(2));
    let call = rows(&[(COMMAND, Capability::Command), (REPLY, Capability::Read), (REPLY, Capability::Read)]);
    assert_eq!(registry.register_caps(call), Ok(1));
    assert_eq!(registry.caps().len(), 3);
    let call = rows(&[(REPLY, Capability::Command)]);
    assert!(matches!(registry.register_caps(call), Err(Refusal::Conflict { .. })));
    assert_eq!(registry.caps().len(), 3);
}
