use combat_log::split::{drop_short_fights, split_in_fight, FightTimer};
use combat_log::stamp::{parse_stamp, Stamp};

fn at(text: &str) -> Stamp {
    parse_stamp(text).unwrap()
}

#[test]
fn assert_one_date() {
    assert_eq!(
        split_in_fight(vec![at("2021-03-17T20:30:45.111Z")], 60),
        vec![FightTimer {
            start: at("2021-03-17T20:30:45.111Z").timestamp(),
            end: at("2021-03-17T20:30:45.111Z").timestamp()
        }]
    )
}

#[test]
fn assert_multiple_date() {
    assert_eq!(
        split_in_fight(
            vec![
                at("2021-03-17T20:30:45.111Z"),
                at("2021-03-17T20:30:55.111Z"),
                at("2021-03-17T20:31:28.111Z"),
                at("2021-03-17T17:18:44.111Z"),
                at("2021-03-17T17:18:45.111Z"),
                at("2021-03-17T15:02:12.111Z"),
                at("2021-03-17T15:01:45.111Z"),
                at("2021-03-17T15:02:45.111Z"),
                at("2021-03-17T15:03:45.111Z")
            ],
            120
        ),
        vec![
            FightTimer {
                start: at("2021-03-17T15:01:45.111Z").timestamp(),
                end: at("2021-03-17T15:03:45.111Z").timestamp()
            },
            FightTimer {
                start: at("2021-03-17T17:18:44.111Z").timestamp(),
                end: at("2021-03-17T17:18:45.111Z").timestamp()
            },
            FightTimer {
                start: at("2021-03-17T20:30:45.111Z").timestamp(),
                end: at("2021-03-17T20:31:28.111Z").timestamp()
            },
        ]
    )
}

#[test]
fn close_moments_make_one_fight() {
    assert_eq!(
        split_in_fight(
            vec![
                at("2021-03-17T15:01:45.111Z"),
                at("2021-03-17T15:02:12.111Z"),
                at("2021-03-17T15:02:45.111Z"),
                at("2021-03-17T15:03:45.111Z")
            ],
            120
        ),
        vec![FightTimer {
            start: at("2021-03-17T15:01:45.111Z").timestamp(),
            end: at("2021-03-17T15:03:45.111Z").timestamp()
        }]
    )
}

#[test]
fn no_moment_no_fight() {
    assert_eq!(split_in_fight(vec![], 30), vec![]);
}

#[test]
fn gap_is_measured_below_the_second() {
    // 120.4 seconds apart: more than the gap, though the whole seconds differ
    // by 120; then 119.1 seconds apart: within it, though they differ by 120.
    let a = Stamp::new(1_000, 500_000_000);
    let b = Stamp::new(1_120, 900_000_000);
    let c = Stamp::new(1_240, 0);
    assert_eq!(
        split_in_fight(vec![c, a, b], 120),
        vec![
            FightTimer { start: 1_000, end: 1_000 },
            FightTimer { start: 1_120, end: 1_240 },
        ]
    );
}

#[test]
fn timestamp_parsing() {
    let s = at("2021-03-17T20:30:45.111Z");
    assert_eq!(s.timestamp(), 1_616_013_045);
    assert_eq!(s.nanos, 111_000_000);
    assert_eq!(at("2021-03-17T21:30:45.111+01:00").timestamp(), 1_616_013_045);
    assert!(parse_stamp("2021-13-17T20:30:45.111Z").is_none());
    assert!(parse_stamp("yesterday").is_none());
}

#[test]
fn short_fights_are_left_out() {
    let fights = vec![
        FightTimer { start: 10, end: 10 },
        FightTimer { start: 20, end: 50 },
        FightTimer { start: 100, end: 129 },
        FightTimer { start: 200, end: 230 },
    ];
    assert_eq!(
        drop_short_fights(fights.clone(), 30),
        vec![FightTimer { start: 20, end: 50 }, FightTimer { start: 200, end: 230 }]
    );
    assert_eq!(drop_short_fights(fights.clone(), 0), fights);
}
