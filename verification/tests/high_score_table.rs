use rust_lander::high_score_table::{format_time, HighScore, HighScoreTable, TABLE_SIZE};

fn scores(t: &HighScoreTable) -> Vec<i32> {
    t.table.iter().map(|h| h.score).collect()
}

fn ids(t: &HighScoreTable) -> Vec<i32> {
    t.table.iter().map(|h| h.id).collect()
}

#[test]
fn format_time_epoch() {
    assert_eq!(format_time(0), "01/01/1970 00:00");
    assert_eq!(format_time(59), "01/01/1970 00:00");
    assert_eq!(format_time(86399), "01/01/1970 23:59");
    assert_eq!(format_time(86400), "02/01/1970 00:00");
}

#[test]
fn format_time_leap_days() {
    assert_eq!(format_time(951782400), "29/02/2000 00:00");
    assert_eq!(format_time(68169599), "28/02/1972 23:59");
    assert_eq!(format_time(1609372800), "31/12/2020 00:00");
    assert_eq!(format_time(1609459199), "31/12/2020 23:59");
}

#[test]
fn format_time_ordinary_dates() {
    assert_eq!(format_time(946684799), "31/12/1999 23:59");
    assert_eq!(format_time(1000000000), "09/09/2001 01:46");
    assert_eq!(format_time(1700000000), "14/11/2023 22:13");
}

#[test]
fn format_time_day_count_taken_as_i32() {
    // The day count is held in an i32: past its range it wraps, as in the game.
    assert_eq!(format_time(185542587187199), "11/07/5881580 23:59");
    assert_eq!(format_time(185542587187200), "31/12/1969 00:00");
    assert_eq!(format_time(u64::MAX), "02/06/3172604 07:00");
}

#[test]
fn new_table_is_empty() {
    let t = HighScoreTable::new();
    assert!(t.table.is_empty());
    assert_eq!(t.len(), 0);
    assert!(t.is_current_score(0));
    assert!(!t.is_current_score(1));
}

#[test]
fn add_score_at_orders_by_score() {
    let mut t = HighScoreTable::new();
    assert!(t.add_score_at(50, 1, 0));
    assert!(t.add_score_at(70, 2, 86400));
    assert!(t.add_score_at(60, 3, 951782400));
    assert_eq!(scores(&t), vec![70, 60, 50]);
    assert_eq!(ids(&t), vec![2, 3, 1]);
    assert!(t.is_current_score(3));
    let line = t.line(1);
    assert_eq!(line.level, 3);
    assert_eq!(line.by, "");
    assert_eq!(line.when, 951782400);
    assert_eq!(line.formatted, "29/02/2000 00:00");
}

#[test]
fn add_score_at_equal_scores_keep_order() {
    let mut t = HighScoreTable::new();
    t.add_score_at(10, 1, 0);
    t.add_score_at(20, 1, 0);
    t.add_score_at(10, 1, 0);
    t.add_score_at(20, 1, 0);
    assert_eq!(scores(&t), vec![20, 20, 10, 10]);
    assert_eq!(ids(&t), vec![2, 4, 1, 3]);
}

#[test]
fn add_score_at_keeps_best_ten() {
    let mut t = HighScoreTable::new();
    for s in 1..=10 {
        assert!(t.add_score_at(s * 10, 1, 0));
    }
    assert_eq!(t.len(), TABLE_SIZE);
    assert!(!t.add_score_at(5, 1, 0));
    assert_eq!(t.len(), TABLE_SIZE);
    assert_eq!(*scores(&t).last().unwrap(), 10);
    // An equal score does not push out an older line of that score.
    assert!(!t.add_score_at(10, 1, 0));
    assert!(t.add_score_at(15, 1, 0));
    assert_eq!(scores(&t), vec![100, 90, 80, 70, 60, 50, 40, 30, 20, 15]);
    assert!(t.add_score_at(1000, 1, 0));
    assert_eq!(scores(&t)[0], 1000);
    assert_eq!(t.len(), TABLE_SIZE);
}

#[test]
fn add_score_sorts_a_table_built_by_hand() {
    let mut t = HighScoreTable::new();
    for (id, s) in [(7, 3), (8, 9), (9, 3)] {
        t.table.push(HighScore {
            id,
            score: s,
            level: 1,
            by: String::from("x"),
            when: 0,
            formatted: String::new(),
        });
    }
    assert!(t.add_score_at(5, 1, 0));
    assert_eq!(scores(&t), vec![9, 5, 3, 3]);
    assert_eq!(ids(&t), vec![8, 1, 7, 9]);
}

#[test]
fn add_score_reads_the_clock() {
    let mut t = HighScoreTable::new();
    assert!(t.add_score(42, 2));
    assert_eq!(t.len(), 1);
    assert!(t.line(0).when > 1_600_000_000);
    assert_eq!(t.line(0).formatted, format_time(t.line(0).when));
}

#[test]
fn set_name_names_only_the_last_game() {
    let mut t = HighScoreTable::new();
    t.add_score_at(30, 1, 0);
    t.add_score_at(40, 1, 0);
    t.set_name(&String::from("ACE"));
    assert_eq!(t.line(0).by, "ACE");
    assert_eq!(t.line(1).by, "");
    t.set_name(&String::from("BOB"));
    assert_eq!(t.line(0).by, "BOB");
}

#[test]
fn set_name_after_missing_the_table_changes_nothing() {
    let mut t = HighScoreTable::new();
    for _ in 0..10 {
        t.add_score_at(100, 1, 0);
    }
    assert!(!t.add_score_at(1, 1, 0));
    t.set_name(&String::from("ZED"));
    assert!(t.table.iter().all(|h| h.by.is_empty()));
}

#[test]
fn format_time_minutes_tell_apart() {
    assert_eq!(format_time(120), format_time(179));
    assert_ne!(format_time(119), format_time(120));
    assert_ne!(format_time(0), format_time(86400));
}

#[test]
fn newest_id_counts_games_entered() {
    let mut t = HighScoreTable::new();
    for n in 1..=12 {
        t.add_score_at(n, 1, 0);
        t.set_name(&String::from("N"));
        assert!(t.is_current_score(n));
        assert!(!t.is_current_score(n - 1));
    }
    let mut seen: Vec<i32> = ids(&t);
    seen.sort();
    seen.dedup();
    assert_eq!(seen.len(), t.len());
    assert_eq!(t.lines().len(), TABLE_SIZE);
    assert_eq!(*ids(&t).iter().max().unwrap(), 12);
}
