use gengis_mimi::config::{ClusterConfig, Config};
use gengis_mimi::error::Error;
use gengis_mimi::lease::{
    admits, lease_path, nonce, Contender, LeaseRead, Opened, Phase, Put, Settled, Version,
};

const MS: u64 = 1_000_000;

fn contender() -> Contender {
    let config = Config {
        cluster: Some(ClusterConfig::Worker { node_id: "a1".into(), lease_ms: 3000 }),
        ..Config::default()
    };
    Contender::new(&config).unwrap()
}

fn version(tag: &str) -> Version {
    Version { e_tag: Some(tag.into()), version: None }
}

fn found(tag: &str) -> LeaseRead {
    LeaseRead::Found(version(tag), Ok(3000))
}

#[test]
fn a_worker_configuration_is_required() {
    let result = Contender::new(&Config::default());
    assert!(matches!(result, Err(Error::Config(m)) if m == "worker configuration required"));
    let contender = contender();
    assert_eq!(contender.interval(), 1000 * MS as u128);
    let lease = contender.lease();
    assert_eq!((lease.node.as_str(), lease.ttl_ms), ("a1", 3000));
    assert_eq!(lease_path("p/v1"), "p/v1/coordination/owner.json");
}

#[test]
fn nonces_are_fresh_version_four_identifiers() {
    let (a, b) = (nonce(), nonce());
    assert_ne!(a, b);
    for text in [a, b] {
        assert_eq!(text.len(), 36);
        for (i, c) in text.chars().enumerate() {
            if [8, 13, 18, 23].contains(&i) {
                assert_eq!(c, '-');
            } else {
                assert!(c.is_ascii_digit() || ('a'..='f').contains(&c));
            }
        }
        assert_eq!(&text[14..15], "4");
    }
}

#[test]
fn a_missing_lease_is_created_and_a_renewal_extends_it() {
    let mut node = contender();
    assert!(!node.tick(0, false));
    assert!(node.renewal().is_none());
    assert!(matches!(node.observe(0, LeaseRead::Missing), Ok(Some(Put::Create))));
    assert!(matches!(node.settle(0, 10 * MS, Some(version("1"))), Settled::Open));
    assert!(matches!(node.phase, Phase::Opening));
    assert!(matches!(node.opened(20 * MS, true), Opened::Serve(until) if until == 3000 * MS as u128));
    assert!(admits(3000 * MS as u128, 3000 * MS - 1, false));
    assert!(!admits(3000 * MS as u128, 3000 * MS, false));
    assert!(!admits(3000 * MS as u128, 0, true));
    assert!(!node.tick(1000 * MS, false));
    match node.renewal() {
        Some(Put::Update(v)) => assert_eq!(v.e_tag.as_deref(), Some("1")),
        _ => panic!("an owner renews in place"),
    }
    let next = node.settle(1000 * MS, 1001 * MS, Some(version("2")));
    assert!(matches!(next, Settled::Extend(until) if until == 4000 * MS as u128));
}

#[test]
fn takeover_waits_for_a_whole_unchanged_ttl() {
    let mut node = contender();
    assert!(matches!(node.observe(0, found("x")), Ok(None)));
    assert!(matches!(node.observe(2999 * MS, found("x")), Ok(None)));
    // A renewal by the owner starts the wait again.
    assert!(matches!(node.observe(3000 * MS, found("y")), Ok(None)));
    assert!(matches!(node.observe(5999 * MS, found("y")), Ok(None)));
    match node.observe(6000 * MS, found("y")) {
        Ok(Some(Put::Update(v))) => assert_eq!(v.e_tag.as_deref(), Some("y")),
        _ => panic!("the lease has expired"),
    }
    assert!(matches!(node.observe(7000 * MS, LeaseRead::Failed), Ok(None)));
}

#[test]
fn a_standby_takes_over_after_the_owner_has_stopped_admitting() {
    // The standby's clock is ahead by this much.
    let offset = 50_000 * MS;
    let mut owner = contender();
    let _ = owner.observe(0, LeaseRead::Missing);
    owner.settle(0, 5 * MS, Some(version("1")));
    let Opened::Serve(until) = owner.opened(6 * MS, true) else { panic!("opened in time") };
    let mut standby = contender();
    let mut now = 2 * MS;
    loop {
        let read = standby.observe(offset + now, found("1"));
        match read.unwrap() {
            Some(Put::Update(_)) => break,
            _ => assert!(now < 4000 * MS),
        }
        now += 500 * MS;
    }
    assert_eq!(now, 3002 * MS);
    assert!(!admits(until, now, false));
    assert!(owner.tick(now, false));
}

#[test]
fn unreadable_leases_stop_the_worker() {
    let untagged = LeaseRead::Found(Version { e_tag: None, version: None }, Ok(3000));
    assert!(matches!(contender().observe(0, untagged),
        Err(Error::Config(m)) if m == "lease object requires an ETag"));
    for ttl in [2999, 300_001] {
        assert!(matches!(contender().observe(0, LeaseRead::Found(version("x"), Ok(ttl))),
            Err(Error::Corrupt(m)) if m == "invalid lease TTL"));
    }
    let broken = LeaseRead::Found(version("x"), Err(Error::Encoding("eof".into())));
    assert!(matches!(contender().observe(0, broken), Err(Error::Encoding(_))));
}

#[test]
fn ownership_ends_at_the_deadline_on_failure_and_on_an_uncertain_write() {
    let serving = || {
        let mut node = contender();
        let _ = node.observe(0, LeaseRead::Missing);
        node.settle(0, 0, Some(version("1")));
        node.opened(0, true);
        node
    };
    let mut late = serving();
    assert!(!late.tick(3000 * MS - 1, false));
    assert!(late.tick(3000 * MS, false));
    assert!(matches!(late.phase, Phase::Standby) && late.owned.is_none());
    assert!(serving().tick(1, true));
    let mut uncertain = serving();
    assert!(matches!(uncertain.settle(MS, 2 * MS, None), Settled::Retire));
    assert!(uncertain.owned.is_none() && uncertain.observed.is_none());
    let mut slow = serving();
    let next = slow.settle(0, 3000 * MS, Some(version("2")));
    assert!(matches!(next, Settled::Retire));
    assert!(matches!(slow.phase, Phase::Standby));
}

#[test]
fn a_database_that_opens_late_or_not_at_all_is_not_served() {
    let opening = || {
        let mut node = contender();
        let _ = node.observe(0, LeaseRead::Missing);
        node.settle(0, 0, Some(version("1")));
        node
    };
    let mut late = opening();
    assert!(matches!(late.opened(3000 * MS, true), Opened::Close));
    assert!(matches!(late.phase, Phase::Standby));
    let mut failed = opening();
    assert!(matches!(failed.opened(0, false), Opened::Drop));
    assert!(failed.owned.is_none());
    // Renewals during a long recovery keep the node opening.
    let mut renewing = opening();
    renewing.settle(1000 * MS, 1000 * MS, Some(version("2")));
    assert!(matches!(renewing.phase, Phase::Opening));
    assert!(matches!(renewing.opened(3500 * MS, true),
        Opened::Serve(until) if until == 4000 * MS as u128));
}
