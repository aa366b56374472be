//! The editing session: the saved document and its draft, the allocator of ids, the form
//! window that is open, and how the session reacts to what it is told. Reading and
//! writing the file is asked for, not done, here.
use vstd::prelude::*;
use crate::addr::ip_literal;
use crate::form::ItemForm;
use crate::hosts_info::{
    aliases_added, find_item, host_deleted, host_renamed, host_toggled, ip_edited, item_index,
    item_removed, HostsInfo,
};
use crate::item::{find_host, host_index, items_view, GlobalID};
use crate::line::{lines_view, parse_text, serialize, LineModel};
use crate::project::{add_line, id_demand, project};
use crate::reconcile::reconcile;
use crate::string_ext::StringExt;
use crate::text::{trim, words};
use crate::view_kind::{OpenedWindow, ViewKind};

verus! {

/// What the session is told, by the user or by the work it asked for.
#[derive(Debug)]
pub enum Event {
    /// The text of the hosts file, read.
    ParseHostsOk(String),
    /// Reading or writing the file failed.
    OsErr(String),
    EditItemIp(usize, String),
    ToggleHostEnable(usize, usize),
    DeleteItem(usize),
    DeleteHost(usize, usize),
    OpenAddHostsWindow(usize),
    OpenEditHostWindow(usize, usize),
    /// The draft's text was written to the file.
    SaveHostsOk,
}

/// Outside work that the session asks for.
#[derive(Debug, Clone, Copy, PartialEq, Eq, Structural)]
pub enum Action {
    Idle,
    /// Read the hosts file and report its text.
    ParseSysHosts,
    /// Write the draft's text to the hosts file.
    SaveHosts,
}

/// The document holds `content`, parsed.
pub open spec fn loaded(d: HostsInfo, content: String) -> bool {
    &&& d.content == content
    &&& lines_view(d.lines@) == parse_text(content@)
    &&& items_view(d.list@) == project(parse_text(content@))
}

/// The document's lines are its entries written back into `before`, and its text
/// renders those lines.
pub open spec fn resynced(d: HostsInfo, before: Seq<LineModel>, crlf: bool) -> bool {
    &&& lines_view(d.lines@) == reconcile(before, items_view(d.list@))
    &&& d.content@ == serialize(lines_view(d.lines@), crlf)
}

/// An editing session of the system hosts file.
#[derive(Debug)]
pub struct Hed {
    pub is_win: bool,
    pub ids: GlobalID,
    pub sys_hosts_loading: bool,
    pub os_err: String,
    pub hosts_info: HostsInfo,
    pub hosts_info_draft: HostsInfo,
    pub view_kind: ViewKind,
    pub view_all: bool,
    pub search_ip_hosts: String,
    pub item_form: ItemForm,
    pub opened_window: Option<OpenedWindow>,
    pub selected_item_id: Option<usize>,
    pub selected_host_id: Option<usize>,
}

impl Hed {
    /// A session with empty documents; `is_win` chooses `"\r\n"` line endings.
    pub fn new(is_win: bool) -> (r: Self)
        ensures
            r.is_win == is_win,
            r.ids@ == 1,
            !r.sys_hosts_loading,
            r.opened_window is None,
            r.hosts_info.list@.len() == 0,
            r.hosts_info_draft.list@.len() == 0,
    {
        Hed {
            is_win,
            ids: GlobalID::new(),
            sys_hosts_loading: false,
            os_err: String::new(),
            hosts_info: HostsInfo::default(),
            hosts_info_draft: HostsInfo::default(),
            view_kind: ViewKind::default(),
            view_all: false,
            search_ip_hosts: String::new(),
            item_form: ItemForm {
                ip: String::new(),
                hosts: String::new(),
                ip_error: String::new(),
                hosts_error: String::new(),
            },
            opened_window: None,
            selected_item_id: None,
            selected_host_id: None,
        }
    }

    /// Starts the session: the hosts file is to be read.
    pub fn init(&mut self) -> (r: Action)
        ensures
            r == Action::ParseSysHosts,
            final(self).sys_hosts_loading,
            final(self).hosts_info == old(self).hosts_info,
            final(self).hosts_info_draft == old(self).hosts_info_draft,
            final(self).is_win == old(self).is_win,
    {
        self.parse_sys_hosts()
    }

    fn parse_sys_hosts(&mut self) -> (r: Action)
        ensures
            r == Action::ParseSysHosts,
            final(self).sys_hosts_loading,
            final(self).hosts_info == old(self).hosts_info,
            final(self).hosts_info_draft == old(self).hosts_info_draft,
            final(self).is_win == old(self).is_win,
    {
        self.sys_hosts_loading = true;
        Action::ParseSysHosts
    }

    /// Reacts to one event and says what outside work comes next.
    pub fn handle_event(&mut self, event: Event) -> (r: Action)
        ensures
            match event {
                Event::ParseHostsOk(content) => {
                    &&& r == Action::Idle
                    &&& !final(self).sys_hosts_loading
                    &&& old(self).ids@ + id_demand(parse_text(content@)) <= usize::MAX ==> loaded(
                        final(self).hosts_info,
                        content,
                    ) && loaded(final(self).hosts_info_draft, content)
                },
                Event::OsErr(err) => {
                    &&& r == Action::Idle
                    &&& final(self).os_err == err
                    &&& !final(self).sys_hosts_loading
                    &&& final(self).hosts_info_draft == old(self).hosts_info_draft
                },
                Event::EditItemIp(item_id, ip) => {
                    &&& r == Action::Idle
                    &&& ip_edited(old(self).hosts_info_draft.list@, final(self).hosts_info_draft.list@, item_id, ip)
                    &&& resynced(final(self).hosts_info_draft, lines_view(old(self).hosts_info_draft.lines@), old(self).is_win)
                },
                Event::ToggleHostEnable(item_id, host_id) => {
                    &&& r == Action::Idle
                    &&& host_toggled(old(self).hosts_info_draft.list@, final(self).hosts_info_draft.list@, item_id, host_id)
                    &&& resynced(final(self).hosts_info_draft, lines_view(old(self).hosts_info_draft.lines@), old(self).is_win)
                },
                Event::DeleteItem(item_id) => {
                    &&& r == Action::Idle
                    &&& item_removed(old(self).hosts_info_draft.list@, final(self).hosts_info_draft.list@, item_id)
                    &&& resynced(final(self).hosts_info_draft, lines_view(old(self).hosts_info_draft.lines@), old(self).is_win)
                },
                Event::DeleteHost(item_id, host_id) => {
                    &&& r == Action::Idle
                    &&& host_deleted(old(self).hosts_info_draft.list@, final(self).hosts_info_draft.list@, item_id, host_id)
                    &&& resynced(final(self).hosts_info_draft, lines_view(old(self).hosts_info_draft.lines@), old(self).is_win)
                },
                Event::OpenAddHostsWindow(item_id) => {
                    &&& r == Action::Idle
                    &&& final(self).selected_item_id == Some(item_id)
                    &&& final(self).opened_window == Some(OpenedWindow::AddHosts)
                },
                Event::OpenEditHostWindow(item_id, host_id) => {
                    &&& r == Action::Idle
                    &&& final(self).selected_item_id == Some(item_id)
                    &&& final(self).selected_host_id == Some(host_id)
                    &&& final(self).opened_window == Some(OpenedWindow::EditHost)
                },
                Event::SaveHostsOk => r == Action::ParseSysHosts && final(self).sys_hosts_loading,
            },
            final(self).is_win == old(self).is_win,
    {
        match event {
            Event::ParseHostsOk(content) => {
                self.handle_parse_hosts_ok(content);
                Action::Idle
            },
            Event::OsErr(err) => {
                self.handle_os_err(err);
                Action::Idle
            },
            Event::EditItemIp(item_id, ip) => {
                self.edit_item_ip(item_id, ip);
                Action::Idle
            },
            Event::ToggleHostEnable(item_id, host_id) => {
                self.toggle_host_enable(item_id, host_id);
                Action::Idle
            },
            Event::DeleteItem(item_id) => {
                self.delete_item(item_id);
                Action::Idle
            },
            Event::DeleteHost(item_id, host_id) => {
                self.delete_host(item_id, host_id);
                Action::Idle
            },
            Event::OpenAddHostsWindow(item_id) => {
                self.open_add_hosts_window(item_id);
                Action::Idle
            },
            Event::OpenEditHostWindow(item_id, host_id) => {
                self.open_edit_host_window(item_id, host_id);
                Action::Idle
            },
            Event::SaveHostsOk => self.parse_sys_hosts(),
        }
    }

    fn handle_parse_hosts_ok(&mut self, content: String)
        ensures
            !final(self).sys_hosts_loading,
            old(self).ids@ + id_demand(parse_text(content@)) <= usize::MAX ==> loaded(
                final(self).hosts_info,
                content,
            ) && loaded(final(self).hosts_info_draft, content),
            final(self).is_win == old(self).is_win,
    {
        match HostsInfo::from_content(content, &mut self.ids) {
            Some(info) => {
                self.hosts_info_draft = info.clone();
                self.hosts_info = info;
            },
            None => {
                self.os_err = String::from_str("the hosts file has more entries than ids are left");
            },
        }
        self.sys_hosts_loading = false;
    }

    fn handle_os_err(&mut self, err: String)
        ensures
            final(self).os_err == err,
            !final(self).sys_hosts_loading,
            final(self).hosts_info_draft == old(self).hosts_info_draft,
            final(self).is_win == old(self).is_win,
    {
        self.os_err = err;
        self.sys_hosts_loading = false;
    }

    /// Closes the form window and empties the form.
    pub fn close_item_form_window(&mut self)
        ensures
            final(self).opened_window is None,
            final(self).item_form.ip@.len() == 0,
            final(self).item_form.hosts@.len() == 0,
            final(self).hosts_info == old(self).hosts_info,
            final(self).hosts_info_draft == old(self).hosts_info_draft,
            final(self).selected_item_id == old(self).selected_item_id,
            final(self).selected_host_id == old(self).selected_host_id,
            final(self).is_win == old(self).is_win,
            final(self).ids == old(self).ids,
    {
        self.opened_window = None;
        self.item_form.reset();
    }

    /// Adds the entry of the form to the draft when the form is valid, then writes the
    /// draft back and closes the window; a form that is not valid keeps its messages.
    pub fn new_item(&mut self)
        ensures
            final(self).hosts_info == old(self).hosts_info,
            ({
                let ip = trim(old(self).item_form.ip@);
                let hosts = trim(old(self).item_form.hosts@);
                if ip.len() > 0 && ip_literal(ip) && hosts.len() > 0 && old(self).ids@ + hosts.len()
                    + 1 <= usize::MAX {
                    &&& items_view(final(self).hosts_info_draft.list@) == add_line(
                        items_view(old(self).hosts_info_draft.list@),
                        ip,
                        words(hosts),
                        true,
                    )
                    &&& resynced(final(self).hosts_info_draft, lines_view(old(self).hosts_info_draft.lines@), old(self).is_win)
                    &&& final(self).opened_window is None
                } else {
                    final(self).hosts_info_draft == old(self).hosts_info_draft
                }
            }),
    {
        if !self.item_form.validate() {
            return;
        }
        let n = self.item_form.hosts.as_str().unicode_len();
        if n >= self.ids.room() {
            return;
        }
        self.hosts_info_draft.add_item(&self.item_form, &mut self.ids);
        self.update_content();
        self.close_item_form_window();
    }

    /// Asks for the draft's text to be written to the file.
    pub fn save_hosts(&mut self) -> (r: Action)
        ensures
            r == Action::SaveHosts,
            final(self).sys_hosts_loading,
            final(self).hosts_info_draft == old(self).hosts_info_draft,
    {
        self.sys_hosts_loading = true;
        Action::SaveHosts
    }

    /// Drops the edits: the draft becomes a copy of the saved document.
    pub fn reset_hosts(&mut self)
        ensures
            final(self).hosts_info_draft.content == old(self).hosts_info.content,
            items_view(final(self).hosts_info_draft.list@) == items_view(old(self).hosts_info.list@),
            lines_view(final(self).hosts_info_draft.lines@) == lines_view(old(self).hosts_info.lines@),
            final(self).hosts_info == old(self).hosts_info,
    {
        self.hosts_info_draft = self.hosts_info.clone();
    }

    /// Whether the draft's text differs from the saved one.
    pub fn is_hosts_changed(&self) -> (r: bool)
        ensures
            r == (self.hosts_info_draft.content@ != self.hosts_info.content@),
    {
        !(self.hosts_info_draft.content == self.hosts_info.content)
    }

    /// Parses the draft's text again; `false`, with nothing changed, when the ids run out.
    pub fn update_list(&mut self) -> (r: bool)
        ensures
            r == (old(self).ids@ + id_demand(parse_text(old(self).hosts_info_draft.content@)) <= usize::MAX),
            r ==> loaded(final(self).hosts_info_draft, old(self).hosts_info_draft.content),
            !r ==> final(self).hosts_info_draft == old(self).hosts_info_draft,
            final(self).hosts_info == old(self).hosts_info,
    {
        self.hosts_info_draft.update_list(&mut self.ids)
    }

    /// Writes the draft's entries back into its lines and renders its text.
    pub fn update_content(&mut self)
        ensures
            resynced(final(self).hosts_info_draft, lines_view(old(self).hosts_info_draft.lines@), old(self).is_win),
            final(self).hosts_info_draft.list == old(self).hosts_info_draft.list,
            final(self).hosts_info == old(self).hosts_info,
            final(self).opened_window == old(self).opened_window,
            final(self).selected_item_id == old(self).selected_item_id,
            final(self).selected_host_id == old(self).selected_host_id,
            final(self).item_form == old(self).item_form,
            final(self).is_win == old(self).is_win,
            final(self).ids == old(self).ids,
    {
        self.hosts_info_draft.update_content(self.is_win);
    }

    pub fn set_opened_window(&mut self, window: OpenedWindow)
        ensures
            final(self).opened_window == Some(window),
            final(self).hosts_info_draft == old(self).hosts_info_draft,
            final(self).item_form == old(self).item_form,
            final(self).selected_item_id == old(self).selected_item_id,
            final(self).selected_host_id == old(self).selected_host_id,
            final(self).is_win == old(self).is_win,
    {
        self.opened_window = Some(window);
    }

    pub fn is_window_open(&self, window: OpenedWindow) -> (r: bool)
        ensures
            r == (self.opened_window == Some(window)),
    {
        match self.opened_window {
            Some(win) => win == window,
            None => false,
        }
    }

    fn edit_item_ip(&mut self, item_id: usize, ip: String)
        ensures
            ip_edited(old(self).hosts_info_draft.list@, final(self).hosts_info_draft.list@, item_id, ip),
            resynced(final(self).hosts_info_draft, lines_view(old(self).hosts_info_draft.lines@), old(self).is_win),
            final(self).is_win == old(self).is_win,
    {
        self.hosts_info_draft.edit_item_ip(item_id, ip);
        self.update_content();
    }

    fn toggle_host_enable(&mut self, item_id: usize, host_id: usize)
        ensures
            host_toggled(old(self).hosts_info_draft.list@, final(self).hosts_info_draft.list@, item_id, host_id),
            resynced(final(self).hosts_info_draft, lines_view(old(self).hosts_info_draft.lines@), old(self).is_win),
            final(self).is_win == old(self).is_win,
    {
        self.hosts_info_draft.toggle_host_enable(item_id, host_id);
        self.update_content();
    }

    fn delete_item(&mut self, item_id: usize)
        ensures
            item_removed(old(self).hosts_info_draft.list@, final(self).hosts_info_draft.list@, item_id),
            resynced(final(self).hosts_info_draft, lines_view(old(self).hosts_info_draft.lines@), old(self).is_win),
            final(self).is_win == old(self).is_win,
    {
        self.hosts_info_draft.remove_item(item_id);
        self.update_content();
    }

    fn delete_host(&mut self, item_id: usize, host_id: usize)
        ensures
            host_deleted(old(self).hosts_info_draft.list@, final(self).hosts_info_draft.list@, item_id, host_id),
            resynced(final(self).hosts_info_draft, lines_view(old(self).hosts_info_draft.lines@), old(self).is_win),
            final(self).is_win == old(self).is_win,
    {
        self.hosts_info_draft.delete_host(item_id, host_id);
        self.update_content();
    }

    fn open_add_hosts_window(&mut self, item_id: usize)
        ensures
            final(self).selected_item_id == Some(item_id),
            final(self).opened_window == Some(OpenedWindow::AddHosts),
            final(self).is_win == old(self).is_win,
    {
        self.selected_item_id = Some(item_id);
        self.set_opened_window(OpenedWindow::AddHosts);
    }

    /// Closes the window that adds aliases.
    pub fn close_add_hosts_window(&mut self)
        ensures
            final(self).selected_item_id is None,
            final(self).opened_window is None,
            final(self).hosts_info_draft == old(self).hosts_info_draft,
            final(self).hosts_info == old(self).hosts_info,
            final(self).is_win == old(self).is_win,
            final(self).ids == old(self).ids,
    {
        self.selected_item_id = None;
        self.close_item_form_window();
    }

    /// Adds the form's aliases, enabled, to the selected entry when there are some, then
    /// closes the window and writes the draft back.
    pub fn add_hosts(&mut self)
        ensures
            final(self).hosts_info == old(self).hosts_info,
            ({
                let hosts = trim(old(self).item_form.hosts@);
                if hosts.len() > 0 && old(self).selected_item_id is Some && item_index(
                    old(self).hosts_info_draft.list@,
                    old(self).selected_item_id->0,
                ) >= 0 && old(self).ids@ + hosts.len() <= usize::MAX {
                    &&& aliases_added(
                        old(self).hosts_info_draft.list@,
                        final(self).hosts_info_draft.list@,
                        old(self).selected_item_id->0,
                        hosts,
                    )
                    &&& resynced(final(self).hosts_info_draft, lines_view(old(self).hosts_info_draft.lines@), old(self).is_win)
                    &&& final(self).opened_window is None
                    &&& final(self).selected_item_id is None
                } else {
                    final(self).hosts_info_draft == old(self).hosts_info_draft
                }
            }),
    {
        if !self.item_form.validate_hosts() {
            return;
        }
        let item_id = match self.selected_item_id {
            Some(id) => id,
            None => return ,
        };
        if find_item(&self.hosts_info_draft.list, item_id).is_none() {
            return;
        }
        let n = self.item_form.hosts.as_str().unicode_len();
        if n > self.ids.room() {
            return;
        }
        self.hosts_info_draft.add_hosts(item_id, &self.item_form.hosts, &mut self.ids);
        self.close_add_hosts_window();
        self.update_content();
    }

    fn open_edit_host_window(&mut self, item_id: usize, host_id: usize)
        ensures
            final(self).selected_item_id == Some(item_id),
            final(self).selected_host_id == Some(host_id),
            final(self).opened_window == Some(OpenedWindow::EditHost),
            ({
                let k = item_index(old(self).hosts_info_draft.list@, item_id);
                let j = if k >= 0 {
                    host_index(old(self).hosts_info_draft.list@[k].hosts@, host_id)
                } else {
                    -1
                };
                if k >= 0 && j >= 0 {
                    final(self).item_form.hosts == old(self).hosts_info_draft.list@[k].hosts@[j].name
                } else {
                    final(self).item_form == old(self).item_form
                }
            }),
            final(self).is_win == old(self).is_win,
    {
        self.selected_item_id = Some(item_id);
        self.selected_host_id = Some(host_id);
        if let Some(k) = find_item(&self.hosts_info_draft.list, item_id) {
            if let Some(j) = find_host(&self.hosts_info_draft.list[k].hosts, host_id) {
                self.item_form.hosts = self.hosts_info_draft.list[k].hosts[j].name.clone();
            }
        }
        self.set_opened_window(OpenedWindow::EditHost);
    }

    /// Closes the window that renames an alias.
    pub fn close_edit_host_window(&mut self)
        ensures
            final(self).selected_item_id is None,
            final(self).selected_host_id is None,
            final(self).opened_window is None,
            final(self).hosts_info_draft == old(self).hosts_info_draft,
            final(self).hosts_info == old(self).hosts_info,
            final(self).is_win == old(self).is_win,
            final(self).ids == old(self).ids,
    {
        self.selected_item_id = None;
        self.selected_host_id = None;
        self.close_item_form_window();
    }

    /// Renames the selected alias of the selected entry to the form's text when it is not
    /// empty, then closes the window and writes the draft back.
    pub fn edit_host(&mut self)
        ensures
            final(self).hosts_info == old(self).hosts_info,
            ({
                let name = trim(old(self).item_form.hosts@);
                if name.len() > 0 && old(self).selected_item_id is Some && old(self).selected_host_id is Some
                    && item_index(old(self).hosts_info_draft.list@, old(self).selected_item_id->0) >= 0 {
                    &&& exists|s: String|
                        s@ == name && host_renamed(
                            old(self).hosts_info_draft.list@,
                            final(self).hosts_info_draft.list@,
                            old(self).selected_item_id->0,
                            old(self).selected_host_id->0,
                            s,
                        )
                    &&& resynced(final(self).hosts_info_draft, lines_view(old(self).hosts_info_draft.lines@), old(self).is_win)
                    &&& final(self).opened_window is None
                } else {
                    final(self).hosts_info_draft == old(self).hosts_info_draft
                }
            }),
    {
        if !self.item_form.validate_hosts() {
            return;
        }
        let (item_id, host_id) = match (self.selected_item_id, self.selected_host_id) {
            (Some(i), Some(h)) => (i, h),
            _ => return ,
        };
        if find_item(&self.hosts_info_draft.list, item_id).is_none() {
            return;
        }
        let name = self.item_form.hosts.clone();
        self.hosts_info_draft.edit_host(item_id, host_id, name);
        self.close_edit_host_window();
        self.update_content();
    }
}

} // verus!
