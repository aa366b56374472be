use hed::{Action, Event, Hed, OpenedWindow};

fn loaded(text: &str) -> Hed {
    let mut hed = Hed::new(false);
    assert_eq!(hed.init(), Action::ParseSysHosts);
    assert!(hed.sys_hosts_loading);
    assert_eq!(hed.handle_event(Event::ParseHostsOk(text.to_string())), Action::Idle);
    assert!(!hed.sys_hosts_loading);
    hed
}

#[test]
fn session_loads_text_into_both_documents() {
    let hed = loaded("1.1.1.1 a.com\n# note\n2.2.2.2 b.com c.com");
    assert_eq!(hed.hosts_info.list.len(), 2);
    assert_eq!(hed.hosts_info_draft.list.len(), 2);
    assert_eq!(hed.hosts_info_draft.content, "1.1.1.1 a.com\n# note\n2.2.2.2 b.com c.com");
    assert!(!hed.is_hosts_changed());
}

#[test]
fn session_edits_are_written_back_to_the_draft() {
    let mut hed = loaded("1.1.1.1 a.com\n# note\n\n2.2.2.2 b.com c.com\n");
    let item = hed.hosts_info_draft.list[1].id;
    let host = hed.hosts_info_draft.list[1].hosts[0].id;
    assert_eq!(hed.handle_event(Event::ToggleHostEnable(item, host)), Action::Idle);
    assert_eq!(
        hed.hosts_info_draft.content,
        "1.1.1.1 a.com\n# note\n\n2.2.2.2 c.com\n#(hed) 2.2.2.2 b.com\n"
    );
    assert!(hed.is_hosts_changed());
    hed.handle_event(Event::DeleteItem(item));
    assert_eq!(hed.hosts_info_draft.content, "1.1.1.1 a.com\n# note\n");
    hed.reset_hosts();
    assert!(!hed.is_hosts_changed());
}

#[test]
fn session_new_item_and_add_hosts() {
    let mut hed = loaded("1.1.1.1 a.com");
    hed.set_opened_window(OpenedWindow::NewItem);
    hed.item_form.ip = " 3.3.3.3 ".to_string();
    hed.item_form.hosts = "x.com y.com".to_string();
    hed.new_item();
    assert!(hed.opened_window.is_none());
    assert_eq!(hed.hosts_info_draft.content, "1.1.1.1 a.com\n3.3.3.3 x.com y.com\n");

    let first = hed.hosts_info_draft.list[0].id;
    hed.handle_event(Event::OpenAddHostsWindow(first));
    assert!(hed.is_window_open(OpenedWindow::AddHosts));
    hed.item_form.hosts = "  b.com a.com ".to_string();
    hed.add_hosts();
    assert!(hed.opened_window.is_none());
    assert_eq!(
        hed.hosts_info_draft.content,
        "1.1.1.1 a.com b.com\n3.3.3.3 x.com y.com\n"
    );
}

#[test]
fn session_rejects_invalid_forms() {
    let mut hed = loaded("1.1.1.1 a.com");
    hed.set_opened_window(OpenedWindow::NewItem);
    hed.item_form.ip = "nope".to_string();
    hed.item_form.hosts = "x.com".to_string();
    hed.new_item();
    assert!(hed.is_window_open(OpenedWindow::NewItem));
    assert_eq!(hed.item_form.ip_error, "`nope` is not a valid IP address");
    assert_eq!(hed.hosts_info_draft.list.len(), 1);
    hed.close_item_form_window();
    assert!(hed.opened_window.is_none());
    assert_eq!(hed.item_form.ip, "");
}

#[test]
fn session_renames_a_host() {
    let mut hed = loaded("1.1.1.1 a.com b.com");
    let item = hed.hosts_info_draft.list[0].id;
    let host = hed.hosts_info_draft.list[0].hosts[1].id;
    hed.handle_event(Event::OpenEditHostWindow(item, host));
    assert!(hed.is_window_open(OpenedWindow::EditHost));
    assert_eq!(hed.item_form.hosts, "b.com");
    hed.item_form.hosts = " bee.com ".to_string();
    hed.edit_host();
    assert!(hed.opened_window.is_none());
    assert_eq!(hed.hosts_info_draft.content, "1.1.1.1 a.com bee.com\n");
}

#[test]
fn session_save_then_reload() {
    let mut hed = loaded("1.1.1.1 a.com");
    assert_eq!(hed.save_hosts(), Action::SaveHosts);
    assert!(hed.sys_hosts_loading);
    assert_eq!(hed.handle_event(Event::SaveHostsOk), Action::ParseSysHosts);
    assert_eq!(
        hed.handle_event(Event::OsErr("denied".to_string())),
        Action::Idle
    );
    assert_eq!(hed.os_err, "denied");
    assert!(!hed.sys_hosts_loading);
}

#[test]
fn session_ids_are_not_reused_across_loads() {
    let mut hed = loaded("1.1.1.1 a.com");
    let first_ids: Vec<usize> = hed.hosts_info.list.iter().map(|i| i.id).collect();
    hed.handle_event(Event::ParseHostsOk("1.1.1.1 a.com".to_string()));
    let second_ids: Vec<usize> = hed.hosts_info.list.iter().map(|i| i.id).collect();
    assert!(first_ids.iter().all(|i| !second_ids.contains(i)));
}
