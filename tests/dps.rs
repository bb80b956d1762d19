use chrono::Utc;
use combat_log::classify::{classify, LineKind};
use combat_log::dps::{parse_dps, stats_dps, Dps};
use combat_log::stamp::{parse_stamp, Stamp};
use combat_log::tally::Tally;
use std::collections::HashMap;

fn now() -> Stamp {
    let t = Utc::now();
    Stamp::new(t.timestamp(), t.timestamp_subsec_nanos())
}

fn at(text: &str) -> Stamp {
    parse_stamp(text).unwrap()
}

fn as_map(t: &Tally) -> HashMap<String, u128> {
    t.entries.iter().cloned().collect()
}

fn hit(date: Stamp, emitter: &str, receiver: &str, damage: u32, kind: &str, absorbed: u32) -> Dps {
    Dps {
        date,
        emitter: emitter.to_string(),
        spell: "Spell".to_string(),
        receiver: receiver.to_string(),
        damage,
        kind: kind.to_string(),
        absorbed,
        critical: false,
    }
}

#[test]
fn assert_dps_simple() {
    let tt = "Your Freezing Storm hit Major Thrall of Dark for 101 Ice damage.";
    let dt = now();
    assert!(classify(tt) == LineKind::Damage);
    assert_eq!(
        parse_dps(tt, dt).unwrap(),
        Dps {
            date: dt,
            emitter: "Your".to_string(),
            spell: "Freezing Storm".to_string(),
            receiver: "Major Thrall of Dark".to_string(),
            damage: 101,
            kind: "Ice".to_string(),
            absorbed: 0,
            critical: false,
        }
    )
}

#[test]
fn assert_dps_full_absorbed() {
    let tt = "Your Shatter Storm hit RexAlchy for 0 (51 absorbed).";
    let dt = now();
    assert!(classify(tt) == LineKind::Damage);
    assert_eq!(
        parse_dps(tt, dt).unwrap(),
        Dps {
            date: dt,
            emitter: "Your".to_string(),
            spell: "Shatter Storm".to_string(),
            receiver: "RexAlchy".to_string(),
            damage: 0,
            kind: "".to_string(),
            absorbed: 51,
            critical: false,
        }
    )
}

#[test]
fn assert_dps_partially_absorbed() {
    let tt = "Your Spiral Cast hit Thrall Soul for 272 (12 absorbed) Ice damage.";
    let dt = now();
    assert!(classify(tt) == LineKind::Damage);
    assert_eq!(
        parse_dps(tt, dt).unwrap(),
        Dps {
            date: dt,
            emitter: "Your".to_string(),
            spell: "Spiral Cast".to_string(),
            receiver: "Thrall Soul".to_string(),
            damage: 272,
            kind: "Ice".to_string(),
            absorbed: 12,
            critical: false,
        }
    )
}

#[test]
fn assert_dps_critical() {
    let tt = "Your Coalesce Forestry hit Urgu Myrmidon Chief for 311 Nature damage (Critical).";
    let dt = now();
    assert!(classify(tt) == LineKind::Damage);
    assert_eq!(
        parse_dps(tt, dt).unwrap(),
        Dps {
            date: dt,
            emitter: "Your".to_string(),
            spell: "Coalesce Forestry".to_string(),
            receiver: "Urgu Myrmidon Chief".to_string(),
            damage: 311,
            kind: "Nature".to_string(),
            absorbed: 0,
            critical: true,
        }
    )
}

#[test]
fn assert_dps_partially_absorbed_critical() {
    let tt = "Your Retaliate hit UDeadPRO for 292 (233 absorbed) Nature damage (Critical).";
    let dt = now();
    assert!(classify(tt) == LineKind::Damage);
    assert_eq!(
        parse_dps(tt, dt).unwrap(),
        Dps {
            date: dt,
            emitter: "Your".to_string(),
            spell: "Retaliate".to_string(),
            receiver: "UDeadPRO".to_string(),
            damage: 292,
            kind: "Nature".to_string(),
            absorbed: 233,
            critical: true,
        }
    )
}

#[test]
fn assert_dps_none() {
    let tt = "Your Holy Symbol hit Zankara for 0 (Critical).";
    let dt = now();
    assert!(classify(tt) == LineKind::Damage);
    assert_eq!(
        parse_dps(tt, dt).unwrap(),
        Dps {
            date: dt,
            emitter: "Your".to_string(),
            spell: "Holy Symbol".to_string(),
            receiver: "Zankara".to_string(),
            damage: 0,
            kind: "".to_string(),
            absorbed: 0,
            critical: true,
        }
    )
}

#[test]
fn assert_hit_none_critical() {
    let tt = "Gamako Fervor hit You for 0 (Critical).";
    let dt = now();
    assert!(classify(tt) == LineKind::Damage);
    assert_eq!(
        parse_dps(tt, dt).unwrap(),
        Dps {
            date: dt,
            emitter: "Gamako".to_string(),
            spell: "Fervor".to_string(),
            receiver: "You".to_string(),
            damage: 0,
            kind: "".to_string(),
            absorbed: 0,
            critical: true,
        }
    )
}

#[test]
fn assert_fire_dps() {
    let tt = "Sun Elf Confessor Fire Aura hit You for 26 Fire damage.";
    let dt = now();
    assert!(classify(tt) == LineKind::Damage);
    assert_eq!(
        parse_dps(tt, dt).unwrap(),
        Dps {
            date: dt,
            emitter: "Sun".to_string(),
            spell: "Elf Confessor Fire Aura".to_string(),
            receiver: "You".to_string(),
            damage: 26,
            kind: "Fire".to_string(),
            absorbed: 0,
            critical: false,
        }
    )
}

#[test]
fn assert_no_spell() {
    let tt = "Swoop hit You for 46 Piercing damage.";
    let dt = now();
    assert!(classify(tt) == LineKind::Damage);
    assert_eq!(
        parse_dps(tt, dt).unwrap(),
        Dps {
            date: dt,
            emitter: "Swoop".to_string(),
            spell: "".to_string(),
            receiver: "You".to_string(),
            damage: 46,
            kind: "Piercing".to_string(),
            absorbed: 0,
            critical: false,
        }
    )
}

#[test]
fn assert_partially_absorbed() {
    let tt = "Urgu Myrmidon Chief Slash hit You for 206 (198 absorbed) Crushing damage.";
    let dt = now();
    assert!(classify(tt) == LineKind::Damage);
    assert_eq!(
        parse_dps(tt, dt).unwrap(),
        Dps {
            date: dt,
            emitter: "Urgu".to_string(),
            spell: "Myrmidon Chief Slash".to_string(),
            receiver: "You".to_string(),
            damage: 206,
            kind: "Crushing".to_string(),
            absorbed: 198,
            critical: false,
        }
    )
}

#[test]
fn assert_received_by_kind_empty() {
    let list = vec![
        hit(now(), "John", "SomeoneElse", 100, "Ice", 100),
        hit(now(), "John", "You", 100, "", 100),
    ];
    assert_eq!(as_map(&stats_dps(&list, None, None).0.received_by_kind), HashMap::new())
}

#[test]
fn assert_received_by_kind_sum() {
    let list = vec![
        hit(now(), "John", "You", 1000, "Ice", 100),
        hit(now(), "John", "You", 100, "Ice", 10),
        hit(now(), "John", "You", 123, "Fire", 2000),
    ];
    let mut res: HashMap<String, u128> = HashMap::new();
    res.insert("Ice".to_string(), 1210);
    res.insert("Fire".to_string(), 2123);
    assert_eq!(as_map(&stats_dps(&list, None, None).0.received_by_kind), res)
}

#[test]
fn assert_emit_by_kind_empty() {
    let list = vec![
        hit(now(), "SomeoneElse", "John", 100, "Ice", 100),
        hit(now(), "You", "John", 100, "", 100),
    ];
    assert_eq!(as_map(&stats_dps(&list, None, None).0.emit_by_kind), HashMap::new())
}

#[test]
fn assert_emit_by_kind_sum() {
    let list = vec![
        hit(now(), "Your", "SomeoneElse", 10, "Ice", 200),
        hit(now(), "Your", "SomeoneElse", 600, "Fire", 0),
        hit(now(), "Your", "SomeoneElse", 900, "Fire", 25),
    ];
    let mut res: HashMap<String, u128> = HashMap::new();
    res.insert("Ice".to_string(), 210);
    res.insert("Fire".to_string(), 1525);
    assert_eq!(as_map(&stats_dps(&list, None, None).0.emit_by_kind), res)
}

#[test]
fn assert_received_by_enemy_empty() {
    let list = vec![hit(now(), "John", "SomeoneElse", 100, "Ice", 100)];
    assert_eq!(as_map(&stats_dps(&list, None, None).0.received_by_enemy), HashMap::new())
}

#[test]
fn assert_received_by_enemy_sum() {
    let list = vec![
        hit(now(), "John", "You", 123, "Ice", 0),
        hit(now(), "John", "You", 1000, "Ice", 5),
        hit(now(), "Lennon", "You", 3500, "Fire", 0),
    ];
    let mut res: HashMap<String, u128> = HashMap::new();
    res.insert("John".to_string(), 1128);
    res.insert("Lennon".to_string(), 3500);
    assert_eq!(as_map(&stats_dps(&list, None, None).0.received_by_enemy), res)
}

#[test]
fn assert_emit_by_enemy_empty() {
    let list = vec![hit(now(), "SomeoneElse", "You", 100, "Ice", 100)];
    assert_eq!(as_map(&stats_dps(&list, None, None).0.emit_by_enemy), HashMap::new())
}

#[test]
fn assert_emit_by_enemy_sum() {
    let list = vec![
        hit(now(), "Your", "Paul", 800, "Ice", 100),
        hit(now(), "Your", "Jacques", 352, "Ice", 48),
        hit(now(), "Your", "Paul", 88, "Fire", 1000),
    ];
    let mut res: HashMap<String, u128> = HashMap::new();
    res.insert("Jacques".to_string(), 400);
    res.insert("Paul".to_string(), 1988);
    assert_eq!(as_map(&stats_dps(&list, None, None).0.emit_by_enemy), res)
}

#[test]
fn assert_emit_by_enemy_clenup_by_time() {
    let list = vec![
        hit(at("2021-03-17T20:20:45.111Z"), "Your", "Paul", 800, "Ice", 100),
        hit(at("2021-03-17T20:50:45.111Z"), "Your", "Jacques", 352, "Ice", 48),
        hit(at("2021-03-17T20:40:45.111Z"), "Your", "Paul", 88, "Fire", 1000),
    ];
    let mut res: HashMap<String, u128> = HashMap::new();
    res.insert("Paul".to_string(), 1088);
    let stats = stats_dps(
        &list,
        Some(at("2021-03-17T20:40:00.111Z").timestamp()),
        Some(at("2021-03-17T20:42:00.111Z").timestamp()),
    )
    .0;
    assert_eq!(as_map(&stats.emit_by_enemy), res);
    let mut seconds = vec![0u128; 121];
    seconds[45] = 88;
    assert_eq!(stats.emit_by_seconds, seconds);
    let mut seconds_absorbed = vec![0u128; 121];
    seconds_absorbed[45] = 1000;
    assert_eq!(stats.emit_by_seconds_absorbed, seconds_absorbed)
}

#[test]
fn absorbed_only_hit_has_no_kind() {
    let dt = now();
    let d = parse_dps("Your X hit Y for 0 (51 absorbed).", dt).unwrap();
    assert_eq!(d.damage, 0);
    assert_eq!(d.absorbed, 51);
    assert_eq!(d.kind, "");
    assert_eq!(d.spell, "X");
    assert_eq!(d.receiver, "Y");
}

#[test]
fn critical_flag_with_each_optional_group() {
    let dt = now();
    let lines = [
        ("Your A hit B for 1 (Critical).", true),
        ("Your A hit B for 1 (2 absorbed) (Critical).", true),
        ("Your A hit B for 1 Ice damage (Critical).", true),
        ("Your A hit B for 1 (2 absorbed) Ice damage (Critical).", true),
        ("Your A hit B for 1.", false),
        ("Your A hit B for 1 (2 absorbed) Ice damage.", false),
    ];
    for (line, critical) in lines.iter() {
        assert_eq!(parse_dps(line, dt).unwrap().critical, *critical, "{}", line);
    }
}

#[test]
fn self_hit_line_reads_its_parts() {
    let dt = now();
    let d = parse_dps("Your Ice Bolt hit Big Troll for 4242 Frost damage.", dt).unwrap();
    assert_eq!(d.emitter, "Your");
    assert_eq!(d.spell, "Ice Bolt");
    assert_eq!(d.receiver, "Big Troll");
    assert_eq!(d.damage, 4242);
    assert_eq!(d.kind, "Frost");
    assert_eq!(d.absorbed, 0);
    assert!(!d.critical);
}

#[test]
fn damage_too_large_is_rejected() {
    let dt = now();
    let line = "Your A hit B for 4294967296 Ice damage.";
    assert!(classify(line) == LineKind::Damage);
    assert!(parse_dps(line, dt).is_none());
    let largest = parse_dps("Your A hit B for 4294967295 (4294967295 absorbed) Ice damage.", dt).unwrap();
    assert_eq!(largest.damage, u32::MAX);
    assert_eq!(largest.absorbed, u32::MAX);
    assert!(parse_dps("Your A hit B for 1 (4294967296 absorbed) Ice damage.", dt).is_none());
}

#[test]
fn line_without_period_is_not_damage() {
    let dt = now();
    assert!(parse_dps("Your A hit B for 12 Ice damage", dt).is_none());
    assert!(parse_dps("Your A hit B for Ice damage.", dt).is_none());
    assert!(classify("Your A hit B for 12 Ice damage") == LineKind::Unrecognized);
}

#[test]
fn totals_do_not_depend_on_order() {
    let a = vec![
        hit(now(), "Your", "Paul", 800, "Ice", 100),
        hit(now(), "John", "You", 352, "Fire", 48),
        hit(now(), "Your", "Paul", 88, "Fire", 1000),
    ];
    let b = vec![a[2].clone(), a[0].clone(), a[1].clone()];
    let (sa, na) = stats_dps(&a, None, None);
    let (sb, nb) = stats_dps(&b, None, None);
    assert_eq!(as_map(&sa.emit_by_kind), as_map(&sb.emit_by_kind));
    assert_eq!(as_map(&sa.received_by_kind), as_map(&sb.received_by_kind));
    assert_eq!(as_map(&sa.emit_by_enemy), as_map(&sb.emit_by_enemy));
    assert_eq!(as_map(&sa.received_by_enemy), as_map(&sb.received_by_enemy));
    assert_eq!(na, nb);
    assert_eq!(as_map(&sa.emit_by_enemy)["Paul"], 1988);
}

#[test]
fn empty_window_gives_zeros() {
    let list = vec![
        hit(at("2021-03-17T20:20:45.111Z"), "Your", "Paul", 800, "Ice", 100),
        hit(at("2021-03-17T20:50:45.111Z"), "John", "You", 352, "Ice", 48),
    ];
    let start = at("2021-03-17T20:30:00.000Z").timestamp();
    let (stats, names) = stats_dps(&list, Some(start), Some(start + 9));
    assert!(stats.received_by_kind.entries.is_empty());
    assert!(stats.emit_by_kind.entries.is_empty());
    assert!(stats.received_by_enemy.entries.is_empty());
    assert!(stats.emit_by_enemy.entries.is_empty());
    assert_eq!(stats.emit_by_seconds, vec![0u128; 10]);
    assert_eq!(stats.emit_by_seconds_absorbed, vec![0u128; 10]);
    assert_eq!(stats.received_by_seconds, vec![0u128; 10]);
    assert_eq!(stats.received_by_seconds_absorbed, vec![0u128; 10]);
    assert!(names.is_empty());
}

#[test]
fn no_events_without_window() {
    let (stats, names) = stats_dps(&vec![], None, None);
    assert!(stats.emit_by_seconds.is_empty());
    assert!(stats.received_by_seconds.is_empty());
    assert!(stats.emit_by_enemy.entries.is_empty());
    assert!(names.is_empty());
}

#[test]
fn window_bounds_are_included() {
    let start = at("2021-03-17T20:30:00.000Z").timestamp();
    let list = vec![
        hit(Stamp::new(start, 0), "Your", "Paul", 5, "Ice", 1),
        hit(Stamp::new(start + 2, 0), "Your", "Paul", 7, "Ice", 2),
        hit(Stamp::new(start + 3, 0), "Your", "Paul", 100, "Ice", 3),
    ];
    let (stats, _) = stats_dps(&list, Some(start), Some(start + 2));
    assert_eq!(stats.emit_by_seconds, vec![5u128, 0, 7]);
    assert_eq!(stats.emit_by_seconds_absorbed, vec![1u128, 0, 2]);
    assert_eq!(as_map(&stats.emit_by_kind)["Ice"], 15);
}

#[test]
fn opponent_names_sorted_lowered_distinct() {
    let list = vec![
        hit(now(), "Your", "John", 1, "Ice", 0),
        hit(now(), "JOHN", "You", 1, "Ice", 0),
        hit(now(), "Zed", "You", 1, "Ice", 0),
        hit(now(), "Your", "Amy", 1, "Ice", 0),
    ];
    let (_, names) = stats_dps(&list, None, None);
    assert_eq!(names, vec!["amy".to_string(), "john".to_string(), "zed".to_string()]);
}

#[test]
fn table_lookup() {
    let list = vec![hit(now(), "Your", "Paul", 800, "Ice", 100)];
    let (stats, _) = stats_dps(&list, None, None);
    assert_eq!(stats.emit_by_enemy.get(&"Paul".to_string()), Some(900));
    assert_eq!(stats.emit_by_enemy.get(&"Jacques".to_string()), None);
    assert_eq!(stats.emit_by_enemy.len(), 1);
}

#[test]
fn receiver_may_hold_for() {
    let dt = now();
    let d = parse_dps("Your S hit b for for 5 Ice damage.", dt).unwrap();
    assert_eq!((d.spell.as_str(), d.receiver.as_str(), d.damage, d.kind.as_str()), ("S", "b for", 5, "Ice"));
    let d = parse_dps("Your X hit b for for 0 (51 absorbed).", dt).unwrap();
    assert_eq!((d.receiver.as_str(), d.damage, d.absorbed, d.kind.as_str()), ("b for", 0, 51, ""));
    let d = parse_dps("Your Strike hit Sword for Hire for 30 Slashing damage.", dt).unwrap();
    assert_eq!((d.receiver.as_str(), d.damage, d.kind.as_str()), ("Sword for Hire", 30, "Slashing"));
}

#[test]
fn spell_runs_to_the_last_hit() {
    let dt = now();
    let d = parse_dps("Your hit x hit Bob for 5 Ice damage.", dt).unwrap();
    assert_eq!((d.emitter.as_str(), d.spell.as_str(), d.receiver.as_str()), ("Your", "hit x", "Bob"));
}
