use vigie::{
    BuiltinEffectStore, BuiltinMemberStore, Effect, EffectStore, Member, MemberStatus,
    MemberStore, MembershipEntry, MembershipEvent, Message, Vigie, VigieBuilder, VigieError,
};

type Node = Vigie<BuiltinMemberStore, BuiltinEffectStore>;

fn member(ip_offset: u8) -> Member {
    Member::new_ipv4([0, 0, 0, ip_offset], 9000)
}

fn node(id: Member) -> Node {
    VigieBuilder::new(id, BuiltinMemberStore::new(), BuiltinEffectStore::new())
        .build()
        .unwrap()
}

fn entry(m: Member, incarnation_counter: u64, status: MemberStatus) -> MembershipEntry {
    MembershipEntry { member: m, incarnation_counter, status }
}

fn event(m: Member, incarnation_counter: u64, status: MemberStatus, infection_number: u64) -> MembershipEvent {
    MembershipEvent { entry: entry(m, incarnation_counter, status), infection_number }
}

fn drain(vigie: &mut Node) -> Vec<Effect> {
    let mut out = Vec::new();
    while let Some(e) = vigie.pop_effect() {
        out.push(e);
    }
    out
}

fn sorted_members(vigie: &Node) -> Vec<MembershipEntry> {
    let mut v = vigie.get_members().to_vec();
    v.sort();
    v
}

#[test]
fn test_ingest_ping() {
    let me = member(0);
    let mut vigie = node(me);
    let msg = Message::Ping { src: Member::default(), dest: me, events: vec![] };
    vigie.ingest(msg).unwrap();
    assert!(vigie.pop_effect().is_some())
}

#[test]
fn test_ingest_ping_not_the_target() {
    let mut vigie = node(member(1));
    let msg = Message::Ping { src: Member::default(), dest: member(0), events: vec![] };
    vigie.ingest(msg).unwrap();
    assert!(vigie.pop_effect().is_none())
}

#[test]
fn test_ingest_ack() {
    let me = member(0);
    let other = member(2);
    let mut vigie = VigieBuilder::new(me, BuiltinMemberStore::new(), BuiltinEffectStore::new())
        .seed(other)
        .build()
        .unwrap();
    vigie.start_period(1000).unwrap();
    assert_eq!(vigie.awaited_member(), Some(other));
    vigie.ingest(Message::PingRequest { src: other, dest: me, target: other }).unwrap();
    assert!(vigie.has_pending_ping_request(other));
    drain(&mut vigie);

    vigie.ingest(Message::Ack { src: other, dest: me, events: vec![] }).unwrap();

    assert!(!vigie.has_pending_ping_request(other));
    assert!(vigie.awaited_member().is_none());
    // the answer is relayed to the member that asked for it, in the name of
    // the member that answered
    match vigie.pop_effect() {
        Some(Effect::Ack { src, dest, .. }) => {
            assert_eq!(src, other);
            assert_eq!(dest, other);
        },
        _ => panic!("an Ack should have been relayed"),
    }
}

#[test]
fn test_ingest_ack_not_the_target() {
    let mut vigie = node(member(1));
    let msg = Message::Ack { src: Member::default(), dest: member(0), events: vec![] };
    vigie.ingest(msg).unwrap();
    assert!(vigie.pop_effect().is_none())
}

#[test]
fn test_ingest_pingreq() {
    let me = member(0);
    let target = member(3);
    let mut store = BuiltinMemberStore::new();
    store.insert(entry(target, 0, MemberStatus::Alive));
    let mut vigie = VigieBuilder::new(me, store, BuiltinEffectStore::new()).build().unwrap();

    vigie.ingest(Message::PingRequest { src: Member::default(), target, dest: me }).unwrap();

    let Some(Effect::Ping { src, dest, events: _ }) = vigie.pop_effect() else {
        panic!("Should have a Effect::Ping effect");
    };
    assert_eq!(src, me);
    assert_eq!(dest, target);
    assert!(vigie.has_pending_ping_request(target));
}

#[test]
fn test_ingest_pingreq_not_the_target() {
    let mut vigie = node(member(0));
    let msg = Message::PingRequest { src: Member::default(), target: Member::default(), dest: member(1) };
    vigie.ingest(msg).unwrap();
    assert!(vigie.pop_effect().is_none())
}

#[test]
fn test_ingest_pingreq_not_have_target() {
    let me = member(0);
    let mut vigie = node(me);
    let msg = Message::PingRequest { src: Member::default(), target: Member::default(), dest: me };
    vigie.ingest(msg).unwrap();
    assert!(vigie.pop_effect().is_none())
}

#[test]
fn test_resurrection() {
    let me = member(0);
    let src = member(1);
    let mut store = BuiltinMemberStore::new();
    store.insert(entry(src, 0, MemberStatus::Confirm));
    let mut vigie = VigieBuilder::new(me, store, BuiltinEffectStore::new()).build().unwrap();
    drain(&mut vigie);

    let src_event = event(src, 0, MemberStatus::Alive, 0);
    vigie.ingest(Message::Ping { src, dest: me, events: vec![src_event] }).unwrap();

    assert_eq!(vigie.get_members()[0], entry(src, 0, MemberStatus::Alive));
    let Some(Effect::Ack { events, .. }) = vigie.pop_effect() else {
        panic!("the ping should be acknowledged")
    };
    assert!(events.iter().any(|e| e.entry == entry(src, 0, MemberStatus::Alive)));
}

#[test]
fn test_defend_against_suspicion() {
    let me = member(0);
    let mut vigie = node(me);
    let current = vigie.get_members()[0];
    let suspicion = event(me, 0, MemberStatus::Suspect, 0);

    vigie.ingest(Message::Ack { src: member(5), dest: me, events: vec![suspicion] }).unwrap();

    let Some(MembershipEvent { entry: MembershipEntry { member: actual_member, incarnation_counter, status }, infection_number: _ }) =
        vigie.dissemination_event(me)
    else {
        panic!()
    };
    assert_eq!(actual_member, me);
    assert_eq!(status, MemberStatus::Alive);
    assert_eq!(incarnation_counter, current.incarnation_counter + 1);
    // the table keeps the node alive, with the new incarnation
    assert_eq!(vigie.get_members()[0], entry(me, 1, MemberStatus::Alive));
}

fn three_events() -> Vec<MembershipEvent> {
    vec![
        event(Member::new_ipv4([0, 0, 0, 1], 0), 695773933846812385, MemberStatus::Confirm, 1724690186970220747),
        event(Member::new_ipv4([0, 0, 0, 1], 0), 7581484833041126904, MemberStatus::Confirm, 6132923370804885193),
        event(Member::new_ipv4([0, 0, 0, 1], 0), 12862825752618528021, MemberStatus::Suspect, 9902733496451980313),
    ]
}

#[test]
fn test_merge_received_events_confirm_confirm_suspect_confirm_suspect_confirm() {
    let events = three_events();
    let shuffled = vec![events[1], events[2], events[0]];

    let mut vigie_a = node(Member::default());
    let mut vigie_b = node(Member::default());
    vigie_a.ingest(Message::Ack { src: member(9), dest: Member::default(), events }).unwrap();
    vigie_b.ingest(Message::Ack { src: member(9), dest: Member::default(), events: shuffled }).unwrap();

    assert_eq!(sorted_members(&vigie_a), sorted_members(&vigie_b));
    // the greatest knowledge wins: the confirmed death with the higher incarnation
    assert!(sorted_members(&vigie_a).contains(&entry(Member::new_ipv4([0, 0, 0, 1], 0), 7581484833041126904, MemberStatus::Confirm)));
}

#[test]
fn merge_converges_for_every_order() {
    let m = member(7);
    let events = vec![
        event(m, 3, MemberStatus::Alive, 1),
        event(m, 3, MemberStatus::Suspect, 1),
        event(m, 2, MemberStatus::Alive, 1),
        event(m, 4, MemberStatus::Alive, 1),
        event(m, 4, MemberStatus::Suspect, 1),
    ];
    let orders: Vec<Vec<usize>> = vec![vec![0, 1, 2, 3, 4], vec![4, 3, 2, 1, 0], vec![2, 4, 0, 3, 1], vec![1, 0, 4, 2, 3]];
    let mut results = Vec::new();
    for order in orders {
        let evs: Vec<MembershipEvent> = order.iter().map(|&i| events[i]).collect();
        let mut vigie = node(Member::default());
        vigie.ingest(Message::Ack { src: member(9), dest: Member::default(), events: evs }).unwrap();
        results.push(sorted_members(&vigie));
    }
    for r in &results {
        assert_eq!(r, &results[0]);
    }
    assert!(results[0].contains(&entry(m, 4, MemberStatus::Suspect)));
}

#[test]
fn update_is_idempotent() {
    let me = Member::default();
    for ev in [
        event(member(4), 2, MemberStatus::Alive, 1),
        event(member(4), 2, MemberStatus::Suspect, 1),
        event(member(4), 9, MemberStatus::Confirm, 1),
        event(me, 5, MemberStatus::Alive, 1),
    ] {
        let mut vigie = node(me);
        vigie.ingest(Message::Ack { src: member(9), dest: me, events: vec![ev] }).unwrap();
        let t0 = vigie.get_members().to_vec();
        vigie.ingest(Message::Ack { src: member(9), dest: me, events: vec![ev] }).unwrap();
        let t1 = vigie.get_members().to_vec();
        assert_eq!(t0, t1);
    }
}

#[test]
fn knowledge_never_decreases() {
    let me = Member::default();
    let m = member(4);
    let mut vigie = node(me);
    let send = |vigie: &mut Node, e: MembershipEvent| {
        vigie.ingest(Message::Ack { src: member(9), dest: me, events: vec![e] }).unwrap();
        *vigie.get_members().iter().find(|x| x.member == m).unwrap()
    };
    assert_eq!(send(&mut vigie, event(m, 5, MemberStatus::Suspect, 1)), entry(m, 5, MemberStatus::Suspect));
    // older or weaker news is ignored
    assert_eq!(send(&mut vigie, event(m, 5, MemberStatus::Alive, 1)), entry(m, 5, MemberStatus::Suspect));
    assert_eq!(send(&mut vigie, event(m, 4, MemberStatus::Suspect, 1)), entry(m, 5, MemberStatus::Suspect));
    // a newer incarnation overrides a suspicion
    assert_eq!(send(&mut vigie, event(m, 6, MemberStatus::Alive, 1)), entry(m, 6, MemberStatus::Alive));
    // a confirmed death overrides everything, and merges with later ones
    assert_eq!(send(&mut vigie, event(m, 1, MemberStatus::Confirm, 1)), entry(m, 1, MemberStatus::Confirm));
    assert_eq!(send(&mut vigie, event(m, 99, MemberStatus::Alive, 1)), entry(m, 1, MemberStatus::Confirm));
    assert_eq!(send(&mut vigie, event(m, 3, MemberStatus::Confirm, 1)), entry(m, 3, MemberStatus::Confirm));
    assert_eq!(send(&mut vigie, event(m, 2, MemberStatus::Confirm, 1)), entry(m, 3, MemberStatus::Confirm));
}

#[test]
fn test_compute_infection_count() {
    // the ceiling of log2, and at least one transmission
    let cases: [(u64, u64); 12] =
        [(0, 1), (1, 1), (2, 1), (3, 2), (4, 2), (5, 3), (8, 3), (9, 4), (1024, 10), (1025, 11), (u64::MAX - 1, 64), (u64::MAX, 64)];
    for (len, expected) in cases {
        assert_eq!(Node::compute_infection_count(len), expected);
        assert!(Node::compute_infection_count(len) >= 1);
    }
}

#[test]
fn build_joins_with_seeds() {
    let me = member(0);
    let seed = member(1);
    let vigie = VigieBuilder::new(me, BuiltinMemberStore::new(), BuiltinEffectStore::new())
        .seed(seed)
        .k(3)
        .period(1000)
        .timeout(500)
        .suspicion_timeout(1500)
        .build()
        .unwrap();
    assert_eq!(vigie.get_members(), &[entry(me, 0, MemberStatus::Alive), entry(seed, 0, MemberStatus::Alive)][..]);
    assert_eq!(vigie.id(), me);
    assert_eq!(vigie.period_start(), 0);
    assert_eq!(vigie.awaited_member(), None);
    assert_eq!(vigie.dissemination_event(me), Some(event(me, 0, MemberStatus::Alive, 1)));
    assert_eq!(vigie.dissemination_event(seed), Some(event(seed, 0, MemberStatus::Alive, 1)));
    assert!(vigie.has_probe_candidate());
    assert!(!node(me).has_probe_candidate());
}

#[test]
fn start_period_probes_then_suspects() {
    let me = member(0);
    let seed = member(1);
    let mut vigie = VigieBuilder::new(me, BuiltinMemberStore::new(), BuiltinEffectStore::new())
        .seed(seed)
        .period(1000)
        .timeout(500)
        .suspicion_timeout(1500)
        .build()
        .unwrap();

    assert_eq!(vigie.start_period(999), Err(VigieError::PeriodNotOver));
    assert!(vigie.pop_effect().is_none());

    assert_eq!(vigie.start_period(1000), Ok(()));
    let effects = drain(&mut vigie);
    assert_eq!(effects.len(), 3);
    match &effects[0] {
        Effect::Ping { src, dest, events } => {
            assert_eq!(*src, me);
            assert_eq!(*dest, seed);
            assert_eq!(events.len(), 2);
        },
        _ => panic!("first effect should be the probe"),
    }
    assert!(matches!(effects[1], Effect::ScheduleIndirectProbe { delay: 500, target } if target == seed));
    assert!(matches!(effects[2], Effect::ScheduleNextPeriod { delay: 1000 }));
    assert_eq!(vigie.awaited_member(), Some(seed));
    // every event was sent its single time
    assert_eq!(vigie.dissemination_event(me), None);

    // the seed never answered: it is suspected at the next period
    assert_eq!(vigie.start_period(2000), Ok(()));
    let effects = drain(&mut vigie);
    assert_eq!(effects.len(), 4);
    assert!(matches!(effects[1], Effect::ScheduleSuspicionTimeout { delay: 1500, target } if target == seed));
    assert!(vigie.get_members().contains(&entry(seed, 0, MemberStatus::Suspect)));
    assert_eq!(vigie.dissemination_event(seed), Some(event(seed, 0, MemberStatus::Suspect, 1)));

    // the suspicion times out: the death is confirmed
    assert_eq!(vigie.confirm_suspicion(3500, seed), Ok(()));
    assert!(vigie.get_members().contains(&entry(seed, 0, MemberStatus::Confirm)));
    assert_eq!(vigie.dissemination_event(seed), Some(event(seed, 0, MemberStatus::Confirm, 1)));
}

#[test]
fn confirm_suspicion_needs_a_suspect() {
    let me = member(0);
    let seed = member(1);
    let mut vigie = VigieBuilder::new(me, BuiltinMemberStore::new(), BuiltinEffectStore::new())
        .seed(seed)
        .build()
        .unwrap();
    let before = vigie.get_members().to_vec();
    assert_eq!(vigie.confirm_suspicion(0, seed), Ok(()));
    assert_eq!(vigie.get_members(), &before[..]);
    assert_eq!(vigie.confirm_suspicion(0, member(77)), Ok(()));
    assert_eq!(vigie.get_members(), &before[..]);
}

#[test]
fn indirect_probe_asks_k_members() {
    let me = member(0);
    let mut builder = VigieBuilder::new(me, BuiltinMemberStore::new(), BuiltinEffectStore::new()).k(2).timeout(500);
    for i in 1..=5 {
        builder = builder.seed(member(i));
    }
    let mut vigie = builder.build().unwrap();
    // nothing is awaited yet
    assert_eq!(vigie.indirect_probe(600), Ok(()));
    assert!(vigie.pop_effect().is_none());

    vigie.start_period(1000).unwrap();
    drain(&mut vigie);
    let awaited = vigie.awaited_member().unwrap();
    assert_eq!(vigie.indirect_probe(1499), Err(VigieError::TimeoutNotReached));
    assert_eq!(vigie.indirect_probe(1500), Ok(()));
    let effects = drain(&mut vigie);
    assert_eq!(effects.len(), 2);
    let mut relays = Vec::new();
    for e in effects {
        match e {
            Effect::PingRequest { src, dest, target } => {
                assert_eq!(src, me);
                assert_eq!(target, awaited);
                assert_ne!(dest, awaited);
                assert_ne!(dest, me);
                relays.push(dest);
            },
            _ => panic!("only probe requests are expected"),
        }
    }
    assert_ne!(relays[0], relays[1]);
}

#[test]
fn indirect_probe_asks_the_only_other_member() {
    let a = Member::new_ipv4([0, 0, 0, 1], 1);
    let s1 = Member::new_ipv4([0, 0, 0, 2], 2);
    let s2 = Member::new_ipv4([0, 0, 0, 3], 3);
    let mut v = VigieBuilder::new(a, BuiltinMemberStore::new(), BuiltinEffectStore::new())
        .seed(s1)
        .seed(s2)
        .build()
        .unwrap();
    assert_eq!(v.start_period(1000), Ok(()));
    drain(&mut v);
    // the table is walked in order: the first seed is probed
    assert_eq!(v.awaited_member(), Some(s1));
    assert_eq!(v.indirect_probe(1499), Err(VigieError::TimeoutNotReached));
    assert_eq!(v.indirect_probe(1500), Ok(()));
    assert!(matches!(
        v.pop_effect(),
        Some(Effect::PingRequest { src, dest, target }) if src == a && dest == s2 && target == s1
    ));
    assert!(v.pop_effect().is_none());
}

#[test]
fn relayed_ack_clears_the_wait() {
    let a = member(1);
    let r = member(2);
    let t = member(3);
    let mut prober = VigieBuilder::new(a, BuiltinMemberStore::new(), BuiltinEffectStore::new())
        .seed(t)
        .seed(r)
        .build()
        .unwrap();
    prober.start_period(1000).unwrap();
    drain(&mut prober);
    assert_eq!(prober.awaited_member(), Some(t));
    prober.indirect_probe(1500).unwrap();
    let Some(Effect::PingRequest { src, dest, target }) = prober.pop_effect() else { panic!() };
    assert_eq!((src, dest, target), (a, r, t));

    let mut relay_store = BuiltinMemberStore::new();
    relay_store.insert(entry(t, 0, MemberStatus::Alive));
    let mut relay = VigieBuilder::new(r, relay_store, BuiltinEffectStore::new()).build().unwrap();
    drain(&mut relay);
    relay.ingest(Message::PingRequest { src, dest, target }).unwrap();
    let Some(Effect::Ping { src: ps, dest: pd, .. }) = relay.pop_effect() else { panic!() };
    assert_eq!((ps, pd), (r, t));
    relay.ingest(Message::Ack { src: t, dest: r, events: vec![] }).unwrap();
    let Some(Effect::Ack { src: x, dest: to, events }) = relay.pop_effect() else { panic!() };
    assert_eq!((x, to), (t, a));

    prober.ingest(Message::Ack { src: x, dest: to, events }).unwrap();
    assert_eq!(prober.awaited_member(), None);
    // the member that answered through the relay is not suspected
    prober.start_period(2000).unwrap();
    assert!(prober.get_members().contains(&entry(t, 0, MemberStatus::Alive)));
}

#[test]
fn refutation_raises_the_own_incarnation() {
    let me = member(0);
    let mut vigie = node(me);
    // the node learns of a newer incarnation of itself
    vigie.ingest(Message::Ack { src: member(5), dest: me, events: vec![event(me, 7, MemberStatus::Alive, 1)] }).unwrap();
    assert_eq!(vigie.get_members()[0], entry(me, 7, MemberStatus::Alive));
    // an old suspicion is refuted above the node's own incarnation
    vigie.ingest(Message::Ack { src: member(5), dest: me, events: vec![event(me, 2, MemberStatus::Suspect, 1)] }).unwrap();
    assert_eq!(vigie.get_members()[0], entry(me, 8, MemberStatus::Alive));
    // a newer suspicion is refuted above the suspicion
    vigie.ingest(Message::Ack { src: member(5), dest: me, events: vec![event(me, 20, MemberStatus::Suspect, 1)] }).unwrap();
    assert_eq!(vigie.get_members()[0], entry(me, 21, MemberStatus::Alive));
    assert_eq!(vigie.dissemination_event(me).map(|e| e.entry), Some(entry(me, 21, MemberStatus::Alive)));
}

#[test]
fn gossip_is_bounded_by_event_slots() {
    let me = Member::default();
    let mut vigie = node(me);
    let events: Vec<MembershipEvent> =
        (0..2100u32).map(|i| event(Member::new_ipv4([10, 0, (i / 256) as u8, (i % 256) as u8], 1), 0, MemberStatus::Alive, 1)).collect();
    vigie.ingest(Message::Ack { src: member(9), dest: me, events }).unwrap();
    vigie.ingest(Message::Ping { src: member(9), dest: me, events: vec![] }).unwrap();
    let Some(Effect::Ack { events, .. }) = vigie.pop_effect() else { panic!() };
    assert_eq!(events.len(), 2015);
    // the events with the fewest transmissions left come first
    for w in events.windows(2) {
        assert!(w[0].infection_number <= w[1].infection_number);
    }
}

#[test]
fn error_messages() {
    assert_eq!(VigieError::PeriodNotOver.message(), "The protocol period is not over yet");
    assert_eq!(VigieError::TimeoutNotReached.message(), "The timeout is not reached yet");
}

#[test]
fn builtin_effect_store_is_fifo() {
    let mut store = BuiltinEffectStore::new();
    assert!(store.pop().is_none());
    store.push(Effect::ScheduleNextPeriod { delay: 1 });
    store.push(Effect::ScheduleNextPeriod { delay: 2 });
    assert!(matches!(store.pop(), Some(Effect::ScheduleNextPeriod { delay: 1 })));
    assert!(matches!(store.pop(), Some(Effect::ScheduleNextPeriod { delay: 2 })));
    assert!(store.pop().is_none());
}

#[test]
fn builtin_member_store_operations() {
    let mut store = BuiltinMemberStore::new();
    assert!(store.is_empty());
    let a = entry(member(1), 0, MemberStatus::Alive);
    let b = entry(member(2), 1, MemberStatus::Suspect);
    let c = entry(member(3), 2, MemberStatus::Confirm);
    store.insert(a);
    store.insert(b);
    store.insert(c);
    assert_eq!(store.len(), 3);
    assert!(store.contains(member(2)));
    assert!(!store.contains(member(4)));
    assert_eq!(store.get(member(3)), Some(c));
    assert_eq!(store.get(member(4)), None);
    store.get_mut(member(1)).unwrap().incarnation_counter = 7;
    assert_eq!(store.get(member(1)).unwrap().incarnation_counter, 7);
    // the walk goes through the entries in order, then stops
    assert_eq!(store.next().unwrap().member, member(1));
    assert_eq!(store.next(), Some(b));
    assert_eq!(store.next(), Some(c));
    assert_eq!(store.next(), None);
    // shuffling keeps the entries and restarts the walk
    store.shuffle();
    let mut walked = vec![store.next().unwrap(), store.next().unwrap(), store.next().unwrap()];
    walked.sort();
    let mut all = store.members().to_vec();
    all.sort();
    assert_eq!(walked, all);
    assert_eq!(all.len(), 3);
    let sample = store.get_randomly(5, member(2));
    assert_eq!(sample.len(), 2);
    assert!(sample.iter().all(|e| e.member != member(2)));
    assert_eq!(store.get_randomly(1, member(2)).len(), 1);
    store.remove(member(2));
    assert_eq!(store.len(), 2);
    assert!(!store.contains(member(2)));
    store.clean();
    assert!(store.is_empty());
}

#[test]
fn member_address() {
    let m = Member::new_ipv4([127, 0, 0, 1], 9000);
    assert_eq!(m.ip(), [127, 0, 0, 1]);
    assert_eq!(m.port(), 9000);
    assert_eq!(MembershipEvent::new(entry(m, 1, MemberStatus::Alive), 4).infection_number, 4);
    // the packed key: address bytes, then the port
    assert_eq!(m.key(), 0x7f00_0001_2328);
    assert_ne!(Member::new_ipv4([127, 0, 0, 1], 9001).key(), m.key());
    assert_ne!(Member::new_ipv4([1, 0, 0, 127], 9000).key(), m.key());
}

#[test]
fn gossip_spends_one_transmission_per_message() {
    let me = Member::default();
    let (a, b, c) = (member(1), member(2), member(3));
    let mut vigie = node(me);
    let alive = |m: Member| event(m, 0, MemberStatus::Alive, 9);
    vigie.ingest(Message::Ack { src: member(9), dest: me, events: vec![alive(a), alive(b), alive(c)] }).unwrap();
    // gossiped ceil(log2(n)) times, n the table size when learnt: 2, 3 and 4 members
    assert_eq!(vigie.dissemination_event(a).unwrap().infection_number, 1);
    assert_eq!(vigie.dissemination_event(b).unwrap().infection_number, 2);
    assert_eq!(vigie.dissemination_event(c).unwrap().infection_number, 2);

    vigie.ingest(Message::Ping { src: member(9), dest: me, events: vec![] }).unwrap();
    let Some(Effect::Ack { events, .. }) = vigie.pop_effect() else { panic!() };
    assert_eq!(events.len(), 4);
    assert_eq!(vigie.dissemination_event(a), None);
    assert_eq!(vigie.dissemination_event(b).unwrap().infection_number, 1);
    assert_eq!(vigie.dissemination_event(c).unwrap().infection_number, 1);

    vigie.ingest(Message::Ping { src: member(9), dest: me, events: vec![] }).unwrap();
    let Some(Effect::Ack { events, .. }) = vigie.pop_effect() else { panic!() };
    assert_eq!(events.len(), 2);
    assert_eq!(vigie.dissemination_event(b), None);
    assert_eq!(vigie.dissemination_event(c), None);
}

#[test]
fn small_buffer_news_is_sent_its_infection_number_of_times() {
    let me = Member::default();
    let (a, b, c, d) = (member(1), member(2), member(3), member(4));
    let mut vigie = node(me);
    let alive = |m: Member| event(m, 0, MemberStatus::Alive, 9);
    vigie.ingest(Message::Ack { src: member(9), dest: me, events: vec![alive(a), alive(b), alive(c), alive(d)] }).unwrap();
    // learnt with tables of 2, 3, 4 and 5 members
    let expected = [(me, 1), (a, 1), (b, 2), (c, 2), (d, 3)];
    let mut carried = [0usize; 5];
    for _ in 0..5 {
        vigie.ingest(Message::Ping { src: member(9), dest: me, events: vec![] }).unwrap();
        let Some(Effect::Ack { events, .. }) = vigie.pop_effect() else { panic!() };
        for (k, (m, _)) in expected.iter().enumerate() {
            if events.iter().any(|e| e.entry.member == *m) {
                carried[k] += 1;
            }
        }
    }
    for (k, (m, times)) in expected.iter().enumerate() {
        assert_eq!(carried[k], *times);
        assert_eq!(vigie.dissemination_event(*m), None);
    }
}

#[test]
fn ingest_keeps_one_entry_per_member() {
    let me = member(0);
    let (a, b) = (member(1), member(2));
    let mut vigie = VigieBuilder::new(me, BuiltinMemberStore::new(), BuiltinEffectStore::new())
        .seed(a)
        .build()
        .unwrap();
    let messages = vec![
        Message::Ack { src: a, dest: me, events: vec![event(a, 1, MemberStatus::Suspect, 1), event(b, 0, MemberStatus::Alive, 1)] },
        Message::Ping { src: b, dest: me, events: vec![event(b, 2, MemberStatus::Alive, 1), event(a, 3, MemberStatus::Alive, 1)] },
        Message::Ack { src: b, dest: me, events: vec![event(me, 4, MemberStatus::Suspect, 1), event(b, 1, MemberStatus::Confirm, 1)] },
        Message::PingRequest { src: a, dest: me, target: b },
        Message::Ping { src: b, dest: me, events: vec![event(b, 5, MemberStatus::Alive, 1)] },
    ];
    for msg in messages {
        vigie.ingest(msg).unwrap();
        let members: Vec<Member> = vigie.get_members().iter().map(|e| e.member).collect();
        for (i, m) in members.iter().enumerate() {
            assert!(!members[i + 1..].contains(m));
        }
        assert!(members.contains(&me));
        // gossip is only ever about members of the table
        for other in [member(3), member(4), member(9)] {
            assert_eq!(vigie.dissemination_event(other), None);
        }
    }
    assert_eq!(vigie.get_members().len(), 3);
}

#[test]
fn test_ingest_pingreq_about_itself() {
    // the node itself is the member to probe
    let me = member(0);
    let mut vigie = node(me);
    drain(&mut vigie);
    vigie.ingest(Message::PingRequest { src: Member::default(), target: me, dest: me }).unwrap();
    let Some(Effect::Ping { src, dest, events: _ }) = vigie.pop_effect() else {
        panic!("Should have a Effect::Ping effect");
    };
    assert_eq!(src, me);
    assert_eq!(dest, me);
    assert!(vigie.has_pending_ping_request(me));
}

#[test]
fn test_ingest_ack_from_itself() {
    // the node itself asked for the probe and answers it
    let me = member(0);
    let mut vigie = node(me);
    vigie.ingest(Message::PingRequest { src: me, target: me, dest: me }).unwrap();
    drain(&mut vigie);
    assert!(vigie.has_pending_ping_request(me));

    vigie.ingest(Message::Ack { src: me, dest: me, events: vec![] }).unwrap();

    assert!(!vigie.has_pending_ping_request(me));
    assert!(vigie.awaited_member().is_none());
    assert!(matches!(vigie.pop_effect(), Some(Effect::Ack { src, dest, .. }) if src == me && dest == me));
}
