use blackboards::taskmaster_entry::{
    parse_leaderboard, Leaderboard, LeaderboardError, TaskmasterEntry,
};

fn entry(name: &str, score: i32) -> TaskmasterEntry {
    TaskmasterEntry { name: name.to_string(), score }
}

#[test]
fn three_lines_replace_the_leaderboard() {
    let mut board = Leaderboard::new();
    assert_eq!(entry("old", 1).insert(&mut board), Ok(1));
    assert_eq!(entry("older", 2).insert(&mut board), Ok(1));
    assert_eq!(TaskmasterEntry::update_all("ann,10\nbob,-3\ncy,0\n", &mut board), Ok(3));
    assert_eq!(
        TaskmasterEntry::get_results(&board),
        vec![entry("ann", 10), entry("bob", -3), entry("cy", 0)]
    );
}

#[test]
fn a_bad_text_leaves_the_old_leaderboard() {
    let mut board = Leaderboard::new();
    assert_eq!(TaskmasterEntry::update_all("ann,10\nbob,20", &mut board), Ok(2));
    let old = TaskmasterEntry::get_results(&board);
    for text in ["ann,1\nbob", "ann,1\n\nbob,2", "ann,x", "ann,", "ann, 5", "ann,5 ,x", "a,99999999999"] {
        assert_eq!(
            TaskmasterEntry::update_all(text, &mut board),
            Err(LeaderboardError::Malformed),
            "{:?}",
            text
        );
        assert_eq!(TaskmasterEntry::get_results(&board), old);
    }
    assert_eq!(
        TaskmasterEntry::update_all("ann,1\nbob,2\nann,3", &mut board),
        Err(LeaderboardError::Duplicate)
    );
    assert_eq!(TaskmasterEntry::get_results(&board), old);
}

#[test]
fn white_space_and_line_endings() {
    assert_eq!(parse_leaderboard(""), Some(vec![]));
    assert_eq!(parse_leaderboard(" \n\t \r\n"), Some(vec![]));
    assert_eq!(parse_leaderboard("\n\n ann,1\r\nbob,2\r\n\n"), Some(vec![entry("ann", 1), entry("bob", 2)]));
    assert_eq!(parse_leaderboard("\u{3000}ann,1\u{a0}"), Some(vec![entry("ann", 1)]));
    // White space inside the text belongs to the fields.
    assert_eq!(parse_leaderboard("a b ,7"), Some(vec![entry("a b ", 7)]));
    assert_eq!(parse_leaderboard("x,1\n y,2"), Some(vec![entry("x", 1), entry(" y", 2)]));
    // A carriage return counts only just before a line feed.
    assert_eq!(parse_leaderboard("x,1\r\ny,2"), Some(vec![entry("x", 1), entry("y", 2)]));
    assert_eq!(parse_leaderboard("x,1\ry,2"), None);
    assert_eq!(parse_leaderboard("x,1\r,z\ny,2"), None);
    assert_eq!(parse_leaderboard("x\r,1\ny,2"), Some(vec![entry("x\r", 1), entry("y", 2)]));
}

#[test]
fn fields_and_scores() {
    assert_eq!(parse_leaderboard(",5"), Some(vec![entry("", 5)]));
    assert_eq!(parse_leaderboard("ann,5,ignored,more"), Some(vec![entry("ann", 5)]));
    assert_eq!(parse_leaderboard("ann,5,"), Some(vec![entry("ann", 5)]));
    assert_eq!(parse_leaderboard("ann,+5"), Some(vec![entry("ann", 5)]));
    assert_eq!(parse_leaderboard("ann,-0"), Some(vec![entry("ann", 0)]));
    assert_eq!(parse_leaderboard("ann,0007"), Some(vec![entry("ann", 7)]));
    assert_eq!(parse_leaderboard("ann,000000000000000000000012"), Some(vec![entry("ann", 12)]));
    assert_eq!(parse_leaderboard("ann,2147483647"), Some(vec![entry("ann", i32::MAX)]));
    assert_eq!(parse_leaderboard("ann,-2147483648"), Some(vec![entry("ann", i32::MIN)]));
    assert_eq!(parse_leaderboard("ann,2147483648"), None);
    assert_eq!(parse_leaderboard("ann,-2147483649"), None);
    assert_eq!(parse_leaderboard("ann,+"), None);
    assert_eq!(parse_leaderboard("ann,-"), None);
    assert_eq!(parse_leaderboard("ann,--1"), None);
    assert_eq!(parse_leaderboard("ann,1-"), None);
    assert_eq!(parse_leaderboard("ann,١"), None);
    assert_eq!(parse_leaderboard("ann"), None);
    assert_eq!(parse_leaderboard("née,3"), Some(vec![entry("née", 3)]));
}

#[test]
fn parsing_agrees_with_the_standard_library() {
    for text in [
        "a,1\nb,2\nc,3",
        "  a,1\r\nb,-2\r\n",
        "a , 1",
        "a,1\n\nb,2",
        "a,+7,x\n,0",
        "a,1\rb,2",
        "only",
        "a,2147483648",
        "\u{2003}z,9\u{2003}",
        "",
    ] {
        let mut expected: Option<Vec<TaskmasterEntry>> = Some(Vec::new());
        for line in text.trim().lines() {
            let mut fields = line.split(',');
            let name = fields.next();
            let score = fields.next().and_then(|s| s.parse::<i32>().ok());
            match (name, score, expected.as_mut()) {
                (Some(name), Some(score), Some(rows)) => rows.push(entry(name, score)),
                _ => expected = None,
            }
        }
        assert_eq!(parse_leaderboard(text), expected, "{:?}", text);
    }
}

#[test]
fn insert_refuses_a_name_that_is_there() {
    let mut board = Leaderboard::new();
    assert_eq!(entry("ann", 1).insert(&mut board), Ok(1));
    assert_eq!(entry("ann", 2).insert(&mut board), Err(LeaderboardError::Duplicate));
    assert_eq!(entry("bob", 1).insert(&mut board), Ok(1));
    assert_eq!(TaskmasterEntry::get_results(&board), vec![entry("ann", 1), entry("bob", 1)]);
    assert_eq!(TaskmasterEntry::default(), entry("", 0));
}
