use chrono::Utc;
use combat_log::classify::{classify, LineKind};
use combat_log::heal::{parse_heal, stats_heal, Heal};
use combat_log::stamp::Stamp;
use combat_log::tally::Tally;
use std::collections::HashMap;

fn now() -> Stamp {
    let t = Utc::now();
    Stamp::new(t.timestamp(), t.timestamp_subsec_nanos())
}

fn as_map(t: &Tally) -> HashMap<String, u128> {
    t.entries.iter().cloned().collect()
}

#[test]
fn assert_self_heal_simple() {
    let tt = "Your Electrogenesis healed You for 486 hit points.";
    let dt = now();
    assert!(classify(tt) == LineKind::Heal);
    assert_eq!(
        parse_heal(tt, dt).unwrap(),
        Heal {
            date: dt,
            emitter: "Your".to_string(),
            spell: "Electrogenesis".to_string(),
            receiver: "You".to_string(),
            heal: 486,
            absorbed: 0,
            critical: false,
        }
    )
}

#[test]
fn assert_self_heal_critical() {
    let tt = "Your Retaliate healed You for 162 hit points (Critical).";
    let dt = now();
    assert!(classify(tt) == LineKind::Heal);
    assert_eq!(
        parse_heal(tt, dt).unwrap(),
        Heal {
            date: dt,
            emitter: "Your".to_string(),
            spell: "Retaliate".to_string(),
            receiver: "You".to_string(),
            heal: 162,
            absorbed: 0,
            critical: true,
        }
    )
}

#[test]
fn assert_self_heal_absorbed() {
    let tt = "Your Coalesce Life healed patibulaire for 0 (401 absorbed).";
    let dt = now();
    assert!(classify(tt) == LineKind::Heal);
    assert_eq!(
        parse_heal(tt, dt).unwrap(),
        Heal {
            date: dt,
            emitter: "Your".to_string(),
            spell: "Coalesce Life".to_string(),
            receiver: "patibulaire".to_string(),
            heal: 0,
            absorbed: 401,
            critical: false,
        }
    )
}

#[test]
fn assert_heal_received() {
    let tt = "royo Divine Light healed You for 518 hit points (Critical).";
    let dt = now();
    assert!(classify(tt) == LineKind::Heal);
    assert_eq!(
        parse_heal(tt, dt).unwrap(),
        Heal {
            date: dt,
            emitter: "royo".to_string(),
            spell: "Divine Light".to_string(),
            receiver: "You".to_string(),
            heal: 518,
            absorbed: 0,
            critical: true,
        }
    )
}

#[test]
fn assert_ally_received_sum() {
    let list = vec![
        Heal {
            date: now(),
            emitter: "John".to_string(),
            spell: "Spell".to_string(),
            receiver: "You".to_string(),
            absorbed: 0,
            critical: false,
            heal: 150,
        },
        Heal {
            date: now(),
            emitter: "John".to_string(),
            spell: "Spell".to_string(),
            receiver: "You".to_string(),
            absorbed: 5,
            critical: false,
            heal: 800,
        },
        Heal {
            date: now(),
            emitter: "Lennon".to_string(),
            spell: "Spell".to_string(),
            receiver: "You".to_string(),
            absorbed: 0,
            critical: true,
            heal: 1000,
        },
    ];
    let mut res: HashMap<String, u128> = HashMap::new();
    res.insert("Lennon".to_string(), 1000);
    res.insert("John".to_string(), 955);
    assert_eq!(as_map(&stats_heal(&list, None, None).0.received_by_ally), res)
}

#[test]
fn heal_needs_a_spell() {
    let dt = now();
    assert!(parse_heal("Your healed You for 5 hit points.", dt).is_none());
    assert!(parse_heal("Your Mend healed You for 5 hit points", dt).is_none());
    assert!(parse_heal("Your Mend healed You for 5 mana.", dt).is_none());
}

#[test]
fn heal_too_large_is_rejected() {
    let dt = now();
    let line = "Your Mend healed You for 9999999999 hit points.";
    assert!(classify(line) == LineKind::Heal);
    assert!(parse_heal(line, dt).is_none());
}

#[test]
fn heal_given_by_second() {
    let start: i64 = 1_600_000_000;
    let list = vec![
        Heal {
            date: Stamp::new(start + 1, 5),
            emitter: "Your".to_string(),
            spell: "Mend".to_string(),
            receiver: "Ally".to_string(),
            heal: 40,
            absorbed: 2,
            critical: false,
        },
        Heal {
            date: Stamp::new(start, 0),
            emitter: "Bob".to_string(),
            spell: "Mend".to_string(),
            receiver: "You".to_string(),
            heal: 30,
            absorbed: 3,
            critical: false,
        },
    ];
    let (stats, names) = stats_heal(&list, Some(start), Some(start + 2));
    assert_eq!(stats.emit_by_seconds, vec![0u128, 40, 0]);
    assert_eq!(stats.emit_by_seconds_absorbed, vec![0u128, 2, 0]);
    assert_eq!(stats.received_by_seconds, vec![30u128, 0, 0]);
    assert_eq!(stats.received_by_seconds_absorbed, vec![3u128, 0, 0]);
    assert_eq!(as_map(&stats.emit_by_ally)["Ally"], 42);
    assert_eq!(as_map(&stats.received_by_ally)["Bob"], 33);
    assert_eq!(names, vec!["ally".to_string(), "bob".to_string()]);
}

#[test]
fn heal_receiver_may_hold_for() {
    let dt = now();
    let h = parse_heal("A S healed b for for 5 hit points.", dt).unwrap();
    assert_eq!((h.emitter.as_str(), h.spell.as_str(), h.receiver.as_str(), h.heal), ("A", "S", "b for", 5));
}

#[test]
fn heal_spell_runs_to_the_last_healed() {
    let dt = now();
    let h = parse_heal("Your healed x healed You for 5 hit points.", dt).unwrap();
    assert_eq!((h.spell.as_str(), h.receiver.as_str(), h.heal), ("healed x", "You", 5));
}
