use space_game::leaderboard::Leaderboard;

fn names_scores(lb: &Leaderboard) -> Vec<(String, u32)> {
    lb.entries.clone()
}

fn table(v: &[(&str, u32)]) -> Vec<(String, u32)> {
    v.iter().map(|(n, s)| (n.to_string(), *s)).collect()
}

#[test]
fn new_without_file_has_five_cpu_entries() {
    let lb = Leaderboard::new(None);
    assert_eq!(names_scores(&lb), table(&[("CPU", 10); 5]));
}

#[test]
fn load_reads_sorts_and_pads() {
    let lb = Leaderboard::new(Some("AAA:50\nBBB:20\r\nbad line\nCCC:x\nDDD:70"));
    assert_eq!(
        names_scores(&lb),
        table(&[("DDD", 70), ("AAA", 50), ("BBB", 20), ("CPU", 10), ("CPU", 10)])
    );
}

#[test]
fn load_keeps_more_than_five_entries() {
    let lb = Leaderboard::new(Some("A:1\nB:2\nC:3\nD:4\nE:5\nF:6\n"));
    assert_eq!(lb.entries.len(), 6);
    assert_eq!(lb.entries[0], ("F".to_string(), 6));
    assert_eq!(lb.entries[5], ("A".to_string(), 1));
}

#[test]
fn load_skips_lines_without_exactly_one_colon() {
    let lb = Leaderboard::new(Some("A:B:3\nNOCOLON\n:4\nX:+5\nY:-1\n\n"));
    assert_eq!(
        names_scores(&lb),
        table(&[("CPU", 10), ("CPU", 10), ("CPU", 10), ("X", 5), ("", 4)])
    );
}

#[test]
fn sort_is_stable_for_equal_scores() {
    let lb = Leaderboard::new(Some("A:5\nB:9\nC:5\nD:5\nE:9"));
    assert_eq!(names_scores(&lb), table(&[("B", 9), ("E", 9), ("A", 5), ("C", 5), ("D", 5)]));
}

#[test]
fn load_without_text_keeps_entries() {
    let mut lb = Leaderboard::new(Some("A:1\nB:2\nC:3\nD:4\nE:5"));
    lb.entries.push(("Z".to_string(), 100));
    lb.load(None);
    assert_eq!(lb.entries[0], ("Z".to_string(), 100));
    assert_eq!(lb.entries.len(), 6);
}

#[test]
fn is_high_score_against_last_entry() {
    let lb = Leaderboard::new(Some("A:50\nB:40\nC:30\nD:20\nE:10"));
    assert!(lb.is_high_score(11));
    assert!(!lb.is_high_score(10));
    assert!(!lb.is_high_score(0));
    let short = Leaderboard { entries: table(&[("A", 50)]) };
    assert!(short.is_high_score(0));
}

#[test]
fn add_entry_upper_cases_sorts_and_truncates() {
    let mut lb = Leaderboard::new(Some("A:50\nB:40\nC:30\nD:20\nE:10"));
    lb.add_entry("xyz".to_string(), 35);
    assert_eq!(names_scores(&lb), table(&[("A", 50), ("B", 40), ("XYZ", 35), ("C", 30), ("D", 20)]));
}

#[test]
fn add_entry_with_low_score_leaves_table_unchanged() {
    let mut lb = Leaderboard::new(Some("A:50\nB:40\nC:30\nD:20\nE:10"));
    let before = names_scores(&lb);
    assert!(!lb.is_high_score(10));
    lb.add_entry("NEW".to_string(), 10);
    assert_eq!(names_scores(&lb), before);
}

#[test]
fn add_entry_to_short_table_grows_it() {
    let mut lb = Leaderboard { entries: table(&[("A", 5), ("B", 3)]) };
    lb.add_entry("c".to_string(), 4);
    assert_eq!(names_scores(&lb), table(&[("A", 5), ("C", 4), ("B", 3)]));
}

#[test]
fn save_content_is_one_line_per_entry() {
    let lb = Leaderboard::new(Some("AAA:50\nBBB:20"));
    assert_eq!(lb.save_content(), "AAA:50\nBBB:20\nCPU:10\nCPU:10\nCPU:10");
}

#[test]
fn save_then_load_gives_same_table() {
    let lb = Leaderboard::new(Some("JOE:4294967295\nAMY:0\nBOB:17\nX Y:3\nZED:3"));
    let text = lb.save_content();
    let mut other = Leaderboard::new(Some("Q:1"));
    other.load(Some(&text));
    assert_eq!(names_scores(&other), names_scores(&lb));
}

#[test]
fn typed_name_survives_save_and_load() {
    let mut lb = Leaderboard::new(None);
    lb.add_entry("zed".to_string(), 99);
    assert_eq!(lb.entries[0], ("ZED".to_string(), 99));
    let text = lb.save_content();
    let back = Leaderboard::new(Some(&text));
    assert_eq!(names_scores(&back), names_scores(&lb));
}
