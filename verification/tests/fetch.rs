use known_chess::fetch::{
    download_jobs, extract_tag, filter_entries, match_tag, parse_list, processed_cell,
    select_entries, Entry,
};

fn entry(tag: &str) -> Entry {
    Entry {
        tag: tag.to_string(),
        url: format!("https://x/{tag}.pgn.zst"),
        filename: format!("{tag}.pgn.zst"),
    }
}

#[test]
fn extract_tag_finds_the_first_month() {
    assert_eq!(
        extract_tag("lichess_db_standard_rated_2013-01.pgn.zst"),
        Some("2013-01".to_string())
    );
    assert_eq!(extract_tag("2014-12_and_2015-01"), Some("2014-12".to_string()));
    assert_eq!(extract_tag("x1234-5"), None);
    assert_eq!(extract_tag("123-4567"), None);
    assert_eq!(extract_tag("2013-1"), None);
    assert_eq!(extract_tag(""), None);
    assert_eq!(extract_tag("1999-99"), Some("1999-99".to_string()));
}

#[test]
fn parse_list_reads_urls_by_line() {
    let body = "https://database.lichess.org/standard/lichess_db_standard_rated_2024-02.pgn.zst\r\n\n   \nhttps://x/readme.txt\n  https://x/y/lichess_2013-01.pgn.zst  \nhttps://x/2012-12/";
    let entries = parse_list(body);
    assert_eq!(entries.len(), 2);
    assert_eq!(entries[0].tag, "2024-02");
    assert_eq!(
        entries[0].url,
        "https://database.lichess.org/standard/lichess_db_standard_rated_2024-02.pgn.zst"
    );
    assert_eq!(entries[0].filename, "lichess_db_standard_rated_2024-02.pgn.zst");
    assert_eq!(entries[1].tag, "2013-01");
    assert_eq!(entries[1].url, "https://x/y/lichess_2013-01.pgn.zst");
    assert_eq!(entries[1].filename, "lichess_2013-01.pgn.zst");
    assert!(parse_list("").is_empty());
    assert_eq!(parse_list("2020-01").len(), 1);
}

#[test]
fn match_tag_by_substring_or_latest() {
    let entries = vec![entry("2024-02"), entry("2024-01"), entry("2013-01")];
    let latest = match_tag(&entries, "LaTeSt");
    assert_eq!(latest.len(), 1);
    assert_eq!(latest[0].tag, "2024-02");
    let year: Vec<&str> = match_tag(&entries, "2024").iter().map(|e| e.tag.as_str()).collect();
    assert_eq!(year, vec!["2024-02", "2024-01"]);
    assert_eq!(match_tag(&entries, "-01").len(), 2);
    assert!(match_tag(&entries, "1999").is_empty());
    assert!(match_tag(&[], "latest").is_empty());
}

#[test]
fn filter_entries_is_case_sensitive_substring() {
    let entries = vec![entry("2024-02"), entry("2013-01")];
    assert_eq!(filter_entries(&entries, None).len(), 2);
    let f = filter_entries(&entries, Some("13"));
    assert_eq!(f.len(), 1);
    assert_eq!(f[0].tag, "2013-01");
}

#[test]
fn select_entries_keeps_each_month_once() {
    let entries = vec![entry("2024-02"), entry("2024-01"), entry("2013-01")];
    let tags = vec!["2024-01".to_string(), "2024".to_string(), "latest".to_string(), "nope".to_string()];
    let sel = select_entries(&entries, &tags);
    let got: Vec<&str> = sel.iter().map(|e| e.tag.as_str()).collect();
    assert_eq!(got, vec!["2024-01", "2024-02"]);
    assert_eq!(sel[0].filename, "2024-01.pgn.zst");
}

#[test]
fn download_jobs_clamps() {
    assert_eq!(download_jobs(0, 10), 1);
    assert_eq!(download_jobs(3, 10), 3);
    assert_eq!(download_jobs(9, 10), 5);
    assert_eq!(download_jobs(5, 2), 2);
}

#[test]
fn processed_cell_states() {
    assert_eq!(processed_cell(true, true), "yes");
    assert_eq!(processed_cell(false, true), "yes");
    assert_eq!(processed_cell(true, false), "pending");
    assert_eq!(processed_cell(false, false), "\u{2014}");
}

#[test]
fn match_tag_ignores_case_on_both_sides() {
    let entries = vec![entry("Spring-A"), entry("summer-b"), entry("2013-01")];
    let got: Vec<&str> = match_tag(&entries, "SPRING").iter().map(|e| e.tag.as_str()).collect();
    assert_eq!(got, vec!["Spring-A"]);
    let got: Vec<&str> = match_tag(&entries, "-B").iter().map(|e| e.tag.as_str()).collect();
    assert_eq!(got, vec!["summer-b"]);
    assert_eq!(match_tag(&entries, "-").len(), 3);
}
