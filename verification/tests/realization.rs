use std::str::FromStr;

use vigie::realization::{parse_member, Configuration, Event, Member, MemberList, VigieBuilder};

#[test]
fn parses_member_addresses() {
    let m = Member::from_str("127.0.0.1:30000").unwrap();
    // the text gives the last address byte first, as a member is printed
    assert_eq!(m.protocol_member(), vigie::Member::new_ipv4([1, 0, 0, 127], 30000));
    assert_eq!(m.protocol_member().ip(), [1, 0, 0, 127]);
    assert_eq!(m.protocol_member().port(), 30000);
    let m = parse_member("0.10.200.255:0").unwrap();
    assert_eq!(m.protocol_member(), vigie::Member::new_ipv4([255, 200, 10, 0], 0));
    assert!(parse_member("255.255.255.255:65535").is_some());
}

#[test]
fn rejects_malformed_addresses() {
    for text in [
        "",
        "127.0.0.1",
        "127.0.0:1",
        "127.0.0.1:",
        "256.0.0.1:1",
        "01.0.0.1:1",
        "1.2.3.4:65536",
        "1.2.3.4:080",
        "1.2.3.4:80x",
        "1.2.3.4.5:80",
        "a.b.c.d:1",
        " 1.2.3.4:1",
    ] {
        assert!(parse_member(text).is_none(), "{text}");
        assert!(Member::from_str(text).is_err(), "{text}");
    }
}

#[test]
fn runtime_builder_collects_settings() {
    // the settings of a two-node convergence scenario
    let builder = VigieBuilder::new()
        .id("127.0.0.1:30000")
        .seed("127.0.0.1:30001")
        .k(1)
        .period(10_000)
        .timeout(1_000);
    let text = format!("{builder:?}");
    assert!(text.contains("127.0.0.1:30000"));
    assert!(text.contains("127.0.0.1:30001"));
    assert!(text.contains("10000"));
    assert!(text.contains("1000"));
}

#[test]
fn runtime_types() {
    let id = Member::from_str("127.0.0.1:30000").unwrap();
    let seed = Member::from_str("127.0.0.1:30001").unwrap();
    let config = Configuration { id, seeds: vec![seed] };
    assert_eq!(config.seeds.len(), 1);
    let event: Event<()> = Event::MemberAlive { id: seed, data: None };
    assert!(matches!(event, Event::MemberAlive { id: s, data: None } if s == seed));
    assert_eq!(MemberList {}, MemberList {});
}
