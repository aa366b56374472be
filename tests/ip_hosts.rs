use hed::{ip_hosts_of, strip_comment, IpHosts};
use indexmap::IndexSet;

fn set(names: &[&str]) -> IndexSet<String> {
    names.iter().map(|n| n.to_string()).collect()
}

#[test]
fn test_ip_hosts_parse() {
    let s = "172.16.254.1 a.com b.com b.com # comment";
    let parsed = s.parse::<IpHosts>().unwrap();
    assert_eq!(
        parsed,
        IpHosts {
            ip: "172.16.254.1".to_string(),
            hosts: set(&["a.com", "b.com"]),
        }
    );
}

#[test]
fn test_ip_hosts_parse_ipv6() {
    let s = "2402:1200:4f00:1234:0000:5678:9abc:def0 a.com b.com b.com # comment";
    let parsed = s.parse::<IpHosts>().unwrap();
    assert_eq!(
        parsed,
        IpHosts {
            ip: "2402:1200:4f00:1234:0000:5678:9abc:def0".to_string(),
            hosts: set(&["a.com", "b.com"]),
        }
    );
}

#[test]
fn ip_hosts_keeps_alias_order() {
    let parsed = IpHosts::parse("  10.0.0.1\tz.com  a.com z.com m.com").unwrap();
    assert_eq!(parsed.ip, "10.0.0.1");
    let names: Vec<&String> = parsed.hosts.iter().collect();
    assert_eq!(names, vec!["z.com", "a.com", "m.com"]);
}

#[test]
fn ip_hosts_address_alone() {
    let parsed = IpHosts::parse("::1 # loopback").unwrap();
    assert_eq!(parsed.ip, "::1");
    assert!(parsed.hosts.is_empty());
}

#[test]
fn ip_hosts_rejects_other_lines() {
    assert!("# 1.1.1.1 a.com".parse::<IpHosts>().is_err());
    assert!("localhost 127.0.0.1".parse::<IpHosts>().is_err());
    assert!("".parse::<IpHosts>().is_err());
}

#[test]
fn strip_comment_cases() {
    assert_eq!(strip_comment("foo#bar"), "foo");
    assert_eq!(strip_comment("foo #bar"), "foo");
    assert_eq!(strip_comment("foo #     bar"), "foo");
    assert_eq!(strip_comment("foo     #     bar"), "foo");
    assert_eq!(strip_comment("foo foo   #     bar"), "foo foo");
    assert_eq!(strip_comment("  no comment  "), "no comment");
}

#[test]
fn ip_hosts_of_merges_by_address() {
    let content = "# header\n127.0.0.1 localhost\n  # 10.0.0.9 skipped\nnot a line\n\n10.0.0.1 a.com b.com\n127.0.0.1 local localhost\n::1\n";
    let all = ip_hosts_of(content);
    assert_eq!(all.len(), 3);
    assert_eq!(all[0].ip, "127.0.0.1");
    assert_eq!(all[0].hosts, set(&["localhost", "local"]));
    assert_eq!(all[1].ip, "10.0.0.1");
    assert_eq!(all[1].hosts, set(&["a.com", "b.com"]));
    assert_eq!(all[2].ip, "::1");
    assert!(all[2].hosts.is_empty());
    assert!(ip_hosts_of("").is_empty());
}
