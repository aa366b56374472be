use hed::{
    content_to_lines, lines_to_content, lines_to_list, new_lines_by_list, parse_line,
    split_ip_hosts, GlobalID, Item, Line, ValidLine,
};

fn valid(ip: &str, hosts: &[&str], comment: Option<&str>, enabled: bool) -> Line {
    Line::Valid(ValidLine {
        ip: ip.to_string(),
        hosts: hosts.iter().map(|h| h.to_string()).collect(),
        comment: comment.map(|c| c.to_string()),
        enabled,
    })
}

fn names(item: &Item) -> Vec<(String, bool)> {
    item.hosts.iter().map(|h| (h.name.clone(), h.enabled)).collect()
}

#[test]
fn parse_blank_and_whitespace_lines() {
    assert_eq!(parse_line(""), Line::Empty);
    assert_eq!(parse_line("   \t "), Line::Empty);
}

#[test]
fn parse_plain_comment_keeps_trimmed_text() {
    assert_eq!(parse_line("  # note  "), Line::Comment("# note".to_string()));
}

#[test]
fn parse_mapping_line() {
    assert_eq!(
        parse_line("  127.0.0.1   localhost  local "),
        valid("127.0.0.1", &["localhost", "local"], None, true)
    );
}

#[test]
fn parse_mapping_line_with_trailing_comment() {
    assert_eq!(
        parse_line("10.0.0.1 a.com #   main box  "),
        valid("10.0.0.1", &["a.com"], Some("main box"), true)
    );
}

#[test]
fn parse_disabled_mapping_line() {
    assert_eq!(
        parse_line("#(hed) 2.2.2.2 b.com"),
        valid("2.2.2.2", &["b.com"], None, false)
    );
}

#[test]
fn parse_ipv6_mapping_line() {
    assert_eq!(
        parse_line("::1 localhost"),
        valid("::1", &["localhost"], None, true)
    );
}

#[test]
fn parse_marker_followed_by_hash_is_a_comment() {
    assert_eq!(
        parse_line("#(hed)# old"),
        Line::Comment("#(hed)# old".to_string())
    );
}

#[test]
fn parse_address_without_alias_is_other() {
    assert_eq!(parse_line("1.1.1.1"), Line::Other("1.1.1.1".to_string()));
}

#[test]
fn parse_non_address_is_other() {
    assert_eq!(
        parse_line("not.an.ip a.com"),
        Line::Other("not.an.ip a.com".to_string())
    );
    assert_eq!(
        parse_line("300.1.1.1 a.com"),
        Line::Other("300.1.1.1 a.com".to_string())
    );
}

#[test]
fn content_splits_lines_without_final_empty_piece() {
    let lines = content_to_lines("1.1.1.1 a.com\r\n# note\n\n2.2.2.2 b.com c.com\n");
    assert_eq!(
        lines,
        vec![
            valid("1.1.1.1", &["a.com"], None, true),
            Line::Comment("# note".to_string()),
            Line::Empty,
            valid("2.2.2.2", &["b.com", "c.com"], None, true),
        ]
    );
    assert_eq!(content_to_lines(""), Vec::<Line>::new());
    assert_eq!(content_to_lines("\n"), vec![Line::Empty]);
}

#[test]
fn serialize_renders_each_kind() {
    let lines = vec![
        valid("1.1.1.1", &["a.com", "b.com"], Some("x"), true),
        valid("2.2.2.2", &["c.com"], None, false),
        Line::Comment("# c".to_string()),
        Line::Empty,
        Line::Other("junk".to_string()),
    ];
    assert_eq!(
        lines_to_content(&lines, false),
        "1.1.1.1 a.com b.com # x\n#(hed) 2.2.2.2 c.com\n# c\n\njunk"
    );
    assert_eq!(
        lines_to_content(&lines, true),
        "1.1.1.1 a.com b.com # x\r\n#(hed) 2.2.2.2 c.com\r\n# c\r\n\r\njunk"
    );
    assert_eq!(lines_to_content(&Vec::new(), false), "");
}

#[test]
fn round_trip_of_canonical_text() {
    let text = "1.1.1.1 a.com\n# note\n\n#(hed) 2.2.2.2 b.com # old\nsome junk";
    assert_eq!(lines_to_content(&content_to_lines(text), false), text);
}

#[test]
fn round_trip_drops_final_line_break() {
    let text = "1.1.1.1 a.com\n";
    assert_eq!(lines_to_content(&content_to_lines(text), false), "1.1.1.1 a.com");
}

#[test]
fn merge_lines_of_one_address() {
    let lines = content_to_lines("10.0.0.1 a.com\n10.0.0.1 b.com");
    let mut ids = GlobalID::new();
    let list = lines_to_list(&lines, &mut ids);
    assert_eq!(list.len(), 1);
    assert_eq!(list[0].ip, "10.0.0.1");
    assert_eq!(
        names(&list[0]),
        vec![("a.com".to_string(), true), ("b.com".to_string(), true)]
    );
}

#[test]
fn projection_keeps_first_state_of_a_name() {
    let lines = content_to_lines("#(hed) 1.1.1.1 a.com b.com\n1.1.1.1 a.com c.com\n2.2.2.2 d.com");
    let mut ids = GlobalID::new();
    let list = lines_to_list(&lines, &mut ids);
    assert_eq!(list.len(), 2);
    assert_eq!(
        names(&list[0]),
        vec![
            ("a.com".to_string(), false),
            ("b.com".to_string(), false),
            ("c.com".to_string(), true)
        ]
    );
    assert_eq!(list[1].ip, "2.2.2.2");
    let mut all_ids: Vec<usize> = list.iter().map(|i| i.id).collect();
    for item in &list {
        all_ids.extend(item.hosts.iter().map(|h| h.id));
    }
    let n = all_ids.len();
    all_ids.sort();
    all_ids.dedup();
    assert_eq!(all_ids.len(), n);
}

#[test]
fn scenario_disable_then_reconcile() {
    let lines = content_to_lines("1.1.1.1 a.com\n# note\n\n2.2.2.2 b.com c.com\n");
    let mut ids = GlobalID::new();
    let mut list = lines_to_list(&lines, &mut ids);
    assert_eq!(list.len(), 2);
    assert_eq!(list[0].ip, "1.1.1.1");
    assert_eq!(names(&list[0]), vec![("a.com".to_string(), true)]);
    assert_eq!(list[1].ip, "2.2.2.2");
    assert_eq!(
        names(&list[1]),
        vec![("b.com".to_string(), true), ("c.com".to_string(), true)]
    );
    let b = list[1].hosts[0].id;
    list[1].toggle_host(b);
    let new_lines = new_lines_by_list(&lines, &list);
    assert_eq!(
        new_lines,
        vec![
            valid("1.1.1.1", &["a.com"], None, true),
            Line::Comment("# note".to_string()),
            Line::Empty,
            valid("2.2.2.2", &["c.com"], None, true),
            valid("2.2.2.2", &["b.com"], None, false),
            Line::Empty,
        ]
    );
    assert_eq!(
        lines_to_content(&new_lines, false),
        "1.1.1.1 a.com\n# note\n\n2.2.2.2 c.com\n#(hed) 2.2.2.2 b.com\n"
    );
}

#[test]
fn scenario_delete_entry_then_reconcile() {
    let lines = vec![
        valid("1.1.1.1", &["a.com"], None, true),
        Line::Comment("# note".to_string()),
        Line::Empty,
        valid("2.2.2.2", &["c.com"], None, true),
        valid("2.2.2.2", &["b.com"], None, false),
        Line::Empty,
    ];
    let mut ids = GlobalID::new();
    let mut list = lines_to_list(&lines, &mut ids);
    list.remove(1);
    let new_lines = new_lines_by_list(&lines, &list);
    assert_eq!(
        new_lines,
        vec![
            valid("1.1.1.1", &["a.com"], None, true),
            Line::Comment("# note".to_string()),
            Line::Empty,
        ]
    );
}

#[test]
fn disable_round_trip_through_text() {
    let lines = content_to_lines("1.1.1.1 a.com b.com");
    let mut ids = GlobalID::new();
    let mut list = lines_to_list(&lines, &mut ids);
    let a = list[0].hosts[0].id;
    list[0].toggle_host(a);
    let text = lines_to_content(&new_lines_by_list(&lines, &list), false);
    let again = lines_to_list(&content_to_lines(&text), &mut ids);
    assert_eq!(
        names(&again[0]),
        vec![("b.com".to_string(), true), ("a.com".to_string(), false)]
    );
}

#[test]
fn reconcile_with_own_projection_twice_is_stable() {
    let lines = content_to_lines(
        "\n\n1.1.1.1 a.com\n# c\n1.1.1.1 b.com\n#(hed) 1.1.1.1 x.com\n\n\n\njunk\n#(hed) 1.1.1.1 y.com",
    );
    let mut ids = GlobalID::new();
    let list = lines_to_list(&lines, &mut ids);
    let once = new_lines_by_list(&lines, &list);
    let twice = new_lines_by_list(&once, &list);
    assert_eq!(once, twice);
    assert_eq!(
        once,
        vec![
            Line::Empty,
            valid("1.1.1.1", &["a.com", "b.com"], None, true),
            Line::Comment("# c".to_string()),
            valid("1.1.1.1", &["x.com", "y.com"], None, false),
            Line::Empty,
            Line::Other("junk".to_string()),
            Line::Empty,
        ]
    );
}

#[test]
fn reconcile_appends_new_entry_at_end() {
    let lines = content_to_lines("# header\n1.1.1.1 a.com");
    let mut ids = GlobalID::new();
    let mut list = lines_to_list(&lines, &mut ids);
    list.push(Item::new("3.3.3.3", vec!["z.com".to_string()], true, &mut ids));
    let new_lines = new_lines_by_list(&lines, &list);
    assert_eq!(
        new_lines,
        vec![
            Line::Comment("# header".to_string()),
            valid("1.1.1.1", &["a.com"], None, true),
            valid("3.3.3.3", &["z.com"], None, true),
            Line::Empty,
        ]
    );
}

#[test]
fn reconcile_of_empty_store_stays_empty() {
    let list: Vec<Item> = Vec::new();
    assert_eq!(new_lines_by_list(&Vec::new(), &list), Vec::<Line>::new());
}

#[test]
fn reconcile_keeps_trailing_comment_of_updated_line() {
    let lines = content_to_lines("1.1.1.1 a.com b.com # keep me");
    let mut ids = GlobalID::new();
    let mut list = lines_to_list(&lines, &mut ids);
    let b = list[0].hosts[1].id;
    list[0].remove_host(b);
    let new_lines = new_lines_by_list(&lines, &list);
    assert_eq!(
        new_lines,
        vec![valid("1.1.1.1", &["a.com"], Some("keep me"), true), Line::Empty]
    );
}

#[test]
fn split_words_into_address_and_aliases() {
    let words: Vec<String> = vec!["1.1.1.1".into(), "a.com".into(), "b.com".into()];
    assert_eq!(
        split_ip_hosts(words.clone(), true),
        Some(("1.1.1.1".to_string(), vec!["a.com".to_string(), "b.com".to_string()]))
    );
    assert_eq!(split_ip_hosts(words, false), None);
    assert_eq!(split_ip_hosts(vec!["1.1.1.1".into()], true), None);
}
