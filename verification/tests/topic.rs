use dcsbridge::topic::{all, PACKAGE, TYPE_URL_PREFIX};
use dcsbridge::{BROKER_VERSION, PROTOCOL_VERSION};

#[test]
fn every_topic_is_in_the_package() {
    for topic in all() {
        assert_eq!(
            topic.rsplit_once('.').map(|(package, _)| package),
            Some(PACKAGE),
            "{topic} is not in {PACKAGE}"
        );
    }
}

#[test]
fn broker_version_is_three_numbers() {
    let core = BROKER_VERSION.split(['-', '+']).next().expect("split always yields one part");
    let parts: Vec<&str> = core.split('.').collect();

    assert_eq!(parts.len(), 3, "{BROKER_VERSION} does not carry major.minor.patch");
    for part in parts {
        assert!(
            !part.is_empty() && part.bytes().all(|b| b.is_ascii_digit()),
            "{BROKER_VERSION} has a non-numeric component {part:?}"
        );
    }
}

#[test]
fn every_topic_is_named_once() {
    let topics = all();
    assert_eq!(topics.len(), 11);
    for (i, a) in topics.iter().enumerate() {
        for b in &topics[i + 1..] {
            assert_ne!(a, b);
        }
    }
    assert_eq!(TYPE_URL_PREFIX, "type.googleapis.com/");
    assert_eq!(PROTOCOL_VERSION, 1);
}
