use hed::{
    FormWindowResponse, GlobalID, HostsInfo, InvokeEvent, Item, ItemForm, OpenedWindow,
    ProfileForm, StringExt, ViewKind,
};

fn names(item: &Item) -> Vec<String> {
    item.hosts.iter().map(|h| h.name.clone()).collect()
}

#[test]
fn ids_count_up_from_one() {
    let mut ids = GlobalID::new();
    assert_eq!(ids.next(), 1);
    assert_eq!(ids.next(), 2);
    assert_eq!(ids.room(), usize::MAX - 3);
}

#[test]
fn new_item_drops_repeated_names() {
    let mut ids = GlobalID::new();
    let item = Item::new(
        "1.1.1.1",
        vec!["a.com".to_string(), "b.com".to_string(), "a.com".to_string()],
        false,
        &mut ids,
    );
    assert_eq!(item.id, 1);
    assert_eq!(item.ip, "1.1.1.1");
    assert_eq!(names(&item), vec!["a.com", "b.com"]);
    assert_eq!(item.hosts[0].id, 2);
    assert_eq!(item.hosts[1].id, 3);
    assert!(item.hosts.iter().all(|h| !h.enabled));
    assert_eq!(ids.next(), 5);
}

#[test]
fn add_hosts_keeps_first_occurrence() {
    let mut ids = GlobalID::new();
    let mut item = Item::new("1.1.1.1", vec!["a.com".to_string()], false, &mut ids);
    let first = item.hosts[0].id;
    item.add_hosts(vec!["a.com".to_string(), "c.com".to_string()], true, &mut ids);
    assert_eq!(names(&item), vec!["a.com", "c.com"]);
    assert_eq!(item.hosts[0].id, first);
    assert!(!item.hosts[0].enabled);
    assert!(item.hosts[1].enabled);
}

#[test]
fn add_hosts_never_repeats_a_name() {
    let mut ids = GlobalID::new();
    let mut item = Item::new("1.1.1.1", vec![], true, &mut ids);
    for batch in [vec!["x", "y"], vec!["y", "z", "x"], vec!["z", "z"]] {
        item.add_hosts(batch.into_iter().map(String::from).collect(), true, &mut ids);
    }
    assert_eq!(names(&item), vec!["x", "y", "z"]);
}

#[test]
fn contains_searches_address_and_names() {
    let mut ids = GlobalID::new();
    let item = Item::new("192.168.0.1", vec!["example.org".to_string()], true, &mut ids);
    assert!(item.contains("168.0"));
    assert!(item.contains("ample"));
    assert!(item.contains(""));
    assert!(!item.contains("nope"));
}

#[test]
fn validate_ip_checks_literals() {
    let mut ids = GlobalID::new();
    let item = Item::new("1.1.1.1", vec![], true, &mut ids);
    assert!(item.validate_ip("10.0.0.1"));
    assert!(item.validate_ip("2402:1200:4f00:1234:0000:5678:9abc:def0"));
    assert!(!item.validate_ip("10.0.0"));
    assert!(!item.validate_ip(" 10.0.0.1"));
}

#[test]
fn rename_and_remove_hosts() {
    let mut ids = GlobalID::new();
    let mut item = Item::new(
        "1.1.1.1",
        vec!["a.com".to_string(), "b.com".to_string(), "c.com".to_string()],
        true,
        &mut ids,
    );
    let (a, b, c) = (item.hosts[0].id, item.hosts[1].id, item.hosts[2].id);
    item.rename_host(c, "a.com".to_string());
    assert_eq!(names(&item), vec!["a.com", "b.com"]);
    item.rename_host(b, "bb.com".to_string());
    assert_eq!(names(&item), vec!["a.com", "bb.com"]);
    item.remove_host(a);
    assert_eq!(names(&item), vec!["bb.com"]);
    item.remove_host(a);
    assert_eq!(names(&item), vec!["bb.com"]);
    if let Some(h) = item.get_host_mut(b) {
        h.enabled = false;
    }
    assert!(!item.hosts[0].enabled);
    assert!(item.get_host_mut(999).is_none());
}

#[test]
fn document_from_content_and_back() {
    let mut ids = GlobalID::new();
    let mut info =
        HostsInfo::from_content("1.1.1.1 a.com\n# note\n1.1.1.1 b.com".to_string(), &mut ids)
            .unwrap();
    assert_eq!(info.list.len(), 1);
    assert_eq!(names(&info.list[0]), vec!["a.com", "b.com"]);
    info.update_content(false);
    assert_eq!(info.content, "1.1.1.1 a.com b.com\n# note\n");
    info.update_content(true);
    assert_eq!(info.content, "1.1.1.1 a.com b.com\r\n# note\r\n");
}

#[test]
fn document_edits() {
    let mut ids = GlobalID::new();
    let mut info =
        HostsInfo::from_content("1.1.1.1 a.com b.com\n2.2.2.2 c.com".to_string(), &mut ids)
            .unwrap();
    let first = info.list[0].id;
    let second = info.list[1].id;
    let b = info.list[0].hosts[1].id;
    info.toggle_host_enable(first, b);
    info.edit_host(first, b, "bee.com".to_string());
    info.edit_item_ip(second, "not an ip".to_string());
    assert_eq!(info.list[1].ip, "2.2.2.2");
    info.edit_item_ip(second, "3.3.3.3".to_string());
    assert_eq!(info.list[1].ip, "3.3.3.3");
    info.update_content(false);
    assert_eq!(info.content, "1.1.1.1 a.com\n#(hed) 1.1.1.1 bee.com\n3.3.3.3 c.com\n");
    let c = info.list[1].hosts[0].id;
    info.delete_host(second, c);
    assert_eq!(info.list.len(), 1);
    info.update_content(false);
    assert_eq!(info.content, "1.1.1.1 a.com\n#(hed) 1.1.1.1 bee.com\n");
    info.remove_item(first);
    info.update_content(false);
    assert_eq!(info.content, "");
}

#[test]
fn add_item_merges_or_appends() {
    let mut ids = GlobalID::new();
    let mut info = HostsInfo::from_content("1.1.1.1 a.com".to_string(), &mut ids).unwrap();
    let form = ItemForm {
        ip: "1.1.1.1".to_string(),
        hosts: " a.com  z.com ".to_string(),
        ..Default::default()
    };
    info.add_item(&form, &mut ids);
    assert_eq!(info.list.len(), 1);
    assert_eq!(names(&info.list[0]), vec!["a.com", "z.com"]);
    let form = ItemForm {
        ip: "::1".to_string(),
        hosts: "local".to_string(),
        ..Default::default()
    };
    info.add_item(&form, &mut ids);
    assert_eq!(info.list.len(), 2);
    info.update_content(false);
    assert_eq!(info.content, "1.1.1.1 a.com z.com\n::1 local\n");
    assert!(info.update_list(&mut ids));
    assert_eq!(info.list.len(), 2);
    assert!(info.get_item_mut(12345).is_none());
}

#[test]
fn item_form_validation_messages() {
    let mut form = ItemForm {
        ip: "   ".to_string(),
        ..Default::default()
    };
    assert!(!form.validate());
    assert_eq!(form.ip_error, "IP address is empty");

    let mut form = ItemForm {
        ip: " 1.2.3 ".to_string(),
        ..Default::default()
    };
    assert!(!form.validate());
    assert_eq!(form.ip, "1.2.3");
    assert_eq!(form.ip_error, "`1.2.3` is not a valid IP address");

    let mut form = ItemForm {
        ip: "1.2.3.4".to_string(),
        hosts: "  ".to_string(),
        ..Default::default()
    };
    assert!(!form.validate());
    assert_eq!(form.hosts_error, "hosts is empty");

    let mut form = ItemForm {
        ip: "1.2.3.4".to_string(),
        hosts: " a.com ".to_string(),
        ..Default::default()
    };
    assert!(form.validate());
    assert_eq!(form.hosts, "a.com");
    form.reset();
    assert_eq!(form.ip, "");
    assert_eq!(form.hosts, "");
}

#[test]
fn profile_form_validation_messages() {
    let mut form = ProfileForm {
        name: "  ".to_string(),
        error: String::new(),
    };
    assert!(!form.validate(|_| false));
    assert_eq!(form.error, "name is empty");

    let mut form = ProfileForm {
        name: " work ".to_string(),
        error: String::new(),
    };
    assert!(!form.validate(|n| n == "work"));
    assert_eq!(form.error, "`work` already exists");

    let mut form = ProfileForm {
        name: " home ".to_string(),
        error: String::new(),
    };
    assert!(form.validate(|n| n == "work"));
    assert_eq!(form.name, "home");
    form.reset();
    assert_eq!(form.name, "");
}

#[test]
fn view_kind_toggles_between_options_and_text() {
    let mut v = ViewKind::default();
    assert!(v.is_options());
    v.toogle();
    assert!(v.is_text());
    v.toogle();
    assert!(v.is_options());
    let mut all = ViewKind::All;
    all.toogle();
    assert_eq!(all, ViewKind::All);
    assert_ne!(OpenedWindow::NewItem, OpenedWindow::EditHost);
    assert_eq!(InvokeEvent::Parse, InvokeEvent::Parse);
    assert_eq!(
        FormWindowResponse::default(),
        FormWindowResponse { close: false, ok: false }
    );
}

#[test]
fn string_ext_trims_and_splits() {
    let mut s = "\t a b  c \n".to_string();
    assert_eq!(s.to_split_whitespace_vec(), vec!["a", "b", "c"]);
    s.make_trim();
    assert_eq!(s, "a b  c");
    assert!(String::new().to_split_whitespace_vec().is_empty());
}

#[test]
fn first_letter_made_upper_case() {
    assert_eq!(hed::first_uppercase("hed"), "Hed");
    assert_eq!(hed::first_uppercase("Hed"), "Hed");
    assert_eq!(hed::first_uppercase("1st"), "1st");
    assert_eq!(hed::first_uppercase("été"), "été");
    assert_eq!(hed::first_uppercase(""), "");
}
