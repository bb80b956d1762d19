use combat_log::classify::{classify, LineKind};
use combat_log::log::parse_rust;

const LOG: &str = "2021-03-17T20:30:45.111Z INFO    COMBAT    - Combat _||_ Event=[Your Freezing Storm hit Major Thrall of Dark for 101 Ice damage.] \n\
2021-03-17T20:30:50.000Z INFO    COMBAT    - Combat _||_ Event=[Major Thrall of Dark Claw hit You for 40 (10 absorbed) Crushing damage.] \r\n\
a line without any event\n\
2021-03-17T20:30:52.000Z INFO    COMBAT    - Combat _||_ Event=[Your Mend healed You for 30 hit points.] \n\
2021-03-17T20:30:53.000Z INFO    COMBAT    - Combat _||_ Event=[Something odd happened.] \n\
2021-03-17T20:30:54.000Z INFO    COMBAT    - Combat _||_ Event=[Your meal restored You for 12 food.] \n\
2021-03-17T21:00:00.000Z INFO    COMBAT    - Combat _||_ Event=[Your Strike hit Wolf for 7 Slashing damage.] \n\
2021-03-17T21:00:20.000Z INFO    COMBAT    - Combat _||_ Event=[Your Strike hit Wolf for 9 Slashing damage.] \n";

#[test]
fn log_is_read_into_totals_and_fights() {
    let data = parse_rust(LOG, 30, 0);
    assert_eq!(data.errors, vec!["Something odd happened.".to_string()]);
    assert_eq!(data.fights.len(), 2);
    assert_eq!(data.fights[0].time.start, 1_616_013_045);
    assert_eq!(data.fights[0].time.end, 1_616_013_054);
    assert_eq!(data.fights[1].time.start, 1_616_014_800);
    assert_eq!(data.fights[1].time.end, 1_616_014_820);
    assert_eq!(
        data.fights[0].opponent,
        vec![
            "major".to_string(),
            "major thrall of dark".to_string(),
            "you".to_string(),
            "your".to_string()
        ]
    );
    assert_eq!(data.fights[1].opponent, vec!["wolf".to_string()]);
    assert_eq!(data.dps_stats.emit_by_enemy.get(&"Wolf".to_string()), Some(16));
    assert_eq!(data.dps_stats.received_by_kind.get(&"Crushing".to_string()), Some(50));
    assert_eq!(data.heal_stats.received_by_ally.get(&"Your".to_string()), Some(30));
    assert_eq!(data.fights[1].dps_stats.emit_by_seconds.len(), 21);
    assert_eq!(data.fights[1].dps_stats.emit_by_seconds[20], 9);
    assert!(data.dps_stats.emit_by_seconds.is_empty());
}

#[test]
fn short_fights_are_dropped() {
    let data = parse_rust(LOG, 30, 15);
    assert_eq!(data.fights.len(), 1);
    assert_eq!(data.fights[0].time.start, 1_616_014_800);
}

#[test]
fn empty_log() {
    let data = parse_rust("", 30, 0);
    assert!(data.errors.is_empty());
    assert!(data.fights.is_empty());
    assert!(data.dps_stats.emit_by_enemy.entries.is_empty());
}

#[test]
fn number_too_large_is_an_error() {
    let text = "2021-03-17T20:30:45.111Z x Event=[Your A hit B for 99999999999 Ice damage.]";
    let data = parse_rust(text, 30, 0);
    assert_eq!(data.errors, vec!["Your A hit B for 99999999999 Ice damage.".to_string()]);
    assert!(data.fights.is_empty());
}

#[test]
fn kinds_of_line() {
    assert!(classify("Your meal restored You for 12 food.") == LineKind::Food);
    assert!(classify("Bob Spirit drained You for 12 mana.") == LineKind::Resource);
    assert!(classify("Your Focus restored You for 3 energy.") == LineKind::Resource);
    assert!(classify("Bob Smash hit You for 12 Crushing damage.") == LineKind::Damage);
    assert!(classify("Bob Mend healed You for 12 hit points.") == LineKind::Heal);
    assert!(classify("Bob waved.") == LineKind::Unrecognized);
}
