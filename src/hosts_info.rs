//! The document: the text of a hosts file, its line store, its entries, and the edits
//! that change the entries before they are written back.
use vstd::prelude::*;
use crate::addr::{ip_literal, is_ip};
use crate::form::ItemForm;
use crate::item::{
    dedup, dedup_models, ids_distinct, ids_in, items_view, name_models, GlobalID, Host, Item,
};
use crate::line::{content_to_lines, lines_to_content, lines_view, parse_text, serialize, Line};
use crate::project::{add_line, entry_index, id_demand, lines_to_list, project};
use crate::reconcile::{new_lines_by_list, reconcile};
use crate::string_ext::StringExt;
use crate::text::{words, lemma_words_len};

verus! {

/// A hosts file being edited.
#[derive(Debug)]
pub struct HostsInfo {
    pub content: String,
    pub list: Vec<Item>,
    pub lines: Vec<Line>,
}

/// The position of the first entry with id `id`, or -1.
pub open spec fn item_index(items: Seq<Item>, id: usize) -> int {
    if exists|k: int| 0 <= k < items.len() && items[k].id == id && forall|j: int| 0 <= j < k ==> items[j].id != id {
        choose|k: int| 0 <= k < items.len() && items[k].id == id && forall|j: int| 0 <= j < k ==> items[j].id != id
    } else {
        -1
    }
}

/// `items` and `other` agree everywhere but at position `k`.
pub open spec fn same_but(items: Seq<Item>, other: Seq<Item>, k: int) -> bool {
    items.len() == other.len() && forall|i: int| 0 <= i < items.len() && i != k ==> items[i] == other[i]
}

/// The entries after the words of `hosts` join, enabled, the aliases of entry `item_id`.
pub open spec fn aliases_added(a: Seq<Item>, b: Seq<Item>, item_id: usize, hosts: Seq<char>) -> bool {
    let k = item_index(a, item_id);
    if k >= 0 {
        &&& same_but(b, a, k)
        &&& b[k].id == a[k].id
        &&& b[k].ip == a[k].ip
        &&& b[k]@.hosts == dedup_models(
            a[k]@.hosts + name_models(words(hosts), true),
        )
    } else {
        b == a
    }
}

/// The entries after entry `item_id` takes the address `ip`, if it is an address literal.
pub open spec fn ip_edited(a: Seq<Item>, b: Seq<Item>, item_id: usize, ip: String) -> bool {
    let k = item_index(a, item_id);
    if k >= 0 && ip_literal(ip@) {
        &&& same_but(b, a, k)
        &&& b[k].id == a[k].id
        &&& b[k].ip == ip
        &&& b[k].hosts == a[k].hosts
    } else {
        b == a
    }
}

/// The entries after alias `host_id` of entry `item_id` flips its state.
pub open spec fn host_toggled(a: Seq<Item>, b: Seq<Item>, item_id: usize, host_id: usize) -> bool {
    let k = item_index(a, item_id);
    let j = if k >= 0 {
        crate::item::host_index(a[k].hosts@, host_id)
    } else {
        -1
    };
    if k >= 0 && j >= 0 {
        let h = a[k].hosts@[j];
        &&& same_but(b, a, k)
        &&& b[k].id == a[k].id
        &&& b[k].ip == a[k].ip
        &&& b[k].hosts@ == a[k].hosts@.update(
            j,
            Host { id: h.id, name: h.name, enabled: !h.enabled },
        )
    } else {
        b == a
    }
}

/// The entries after alias `host_id` of entry `item_id` goes, and the entry with it if it has no alias left.
pub open spec fn host_deleted(a: Seq<Item>, b: Seq<Item>, item_id: usize, host_id: usize) -> bool {
    let k = item_index(a, item_id);
    if k >= 0 {
        let hs = a[k].hosts@;
        let j = crate::item::host_index(hs, host_id);
        let left = if j >= 0 { hs.remove(j) } else { hs };
        if left.len() == 0 {
            b == a.remove(k)
        } else {
            &&& same_but(b, a, k)
            &&& b[k].id == a[k].id
            &&& b[k].ip == a[k].ip
            &&& b[k].hosts@ == left
        }
    } else {
        b == a
    }
}

/// The entries after alias `host_id` of entry `item_id` is renamed to `name`, a repeated name kept once.
pub open spec fn host_renamed(a: Seq<Item>, b: Seq<Item>, item_id: usize, host_id: usize, name: String) -> bool {
    let k = item_index(a, item_id);
    if k >= 0 {
        &&& same_but(b, a, k)
        &&& b[k].id == a[k].id
        &&& b[k].ip == a[k].ip
        &&& b[k].hosts@ == dedup(
            crate::item::renamed(a[k].hosts@, host_id, name),
        )
    } else {
        b == a
    }
}

/// The entries after the first with id `item_id` goes, if there is one.
pub open spec fn item_removed(a: Seq<Item>, b: Seq<Item>, item_id: usize) -> bool {
    b == if item_index(a, item_id) >= 0 {
        a.remove(item_index(a, item_id))
    } else {
        a
    }
}

/// The number of ids that projecting `lines` may need, if it fits in a `usize`.
pub fn id_demand_of(lines: &Vec<Line>) -> (r: Option<usize>)
    ensures
        match r {
            Some(d) => d == id_demand(lines_view(lines@)),
            None => id_demand(lines_view(lines@)) > usize::MAX,
        },
{
    let ghost all = lines_view(lines@);
    let mut total: usize = 0;
    let mut i: usize = 0;
    while i < lines.len()
        invariant
            i <= lines.len(),
            all == lines_view(lines@),
            total == id_demand(all.take(i as int)),
        decreases lines.len() - i,
    {
        assert(all.take(i + 1).drop_last() == all.take(i as int));
        assert(all.take(i + 1).last() == lines@[i as int]@);
        if let Line::Valid(v) = &lines[i] {
            let n = v.hosts.len();
            if n >= usize::MAX - total {
                proof {
                    crate::project::lemma_id_demand_prefix(all, i + 1);
                }
                return None;
            }
            total = total + n + 1;
        }
        i += 1;
    }
    assert(all.take(lines.len() as int) == all);
    Some(total)
}

/// The position of the first entry with address `ip`.
fn find_item_by_ip(list: &Vec<Item>, ip: &String) -> (r: Option<usize>)
    ensures
        match r {
            Some(k) => k < list@.len() && entry_index(items_view(list@), ip@) == k,
            None => entry_index(items_view(list@), ip@) == -1,
        },
{
    let ghost es = items_view(list@);
    let mut i: usize = 0;
    while i < list.len()
        invariant
            i <= list.len(),
            es == items_view(list@),
            forall|j: int| 0 <= j < i ==> (#[trigger] es[j]).ip != ip@,
        decreases list.len() - i,
    {
        if list[i].ip == *ip {
            proof {
                let k = entry_index(es, ip@);
                assert(es[i as int].ip == ip@);
                assert(k >= 0);
                if k < i {
                    assert(es[k].ip != ip@);
                } else if k > i {
                    assert(es[i as int].ip != ip@);
                }
            }
            return Some(i);
        }
        i += 1;
    }
    None
}

/// The position of the first entry with id `id`.
pub(crate) fn find_item(list: &Vec<Item>, id: usize) -> (r: Option<usize>)
    ensures
        match r {
            Some(k) => k < list@.len() && item_index(list@, id) == k,
            None => item_index(list@, id) == -1,
        },
{
    let mut i: usize = 0;
    while i < list.len()
        invariant
            i <= list.len(),
            forall|j: int| 0 <= j < i ==> list@[j].id != id,
        decreases list.len() - i,
    {
        if list[i].id == id {
            proof {
                let k = item_index(list@, id);
                assert(k >= 0);
                if k < i {
                    assert(list@[k].id == id);
                } else if k > i {
                    assert(list@[i as int].id != id);
                }
            }
            return Some(i);
        }
        i += 1;
    }
    None
}

impl Default for HostsInfo {
    fn default() -> (r: Self)
        ensures
            r.content@.len() == 0,
            r.list@.len() == 0,
            r.lines@.len() == 0,
    {
        HostsInfo { content: String::new(), list: Vec::new(), lines: Vec::new() }
    }
}

/// The entries of `b` are copies of those of `a`.
pub open spec fn same_items(a: Seq<Item>, b: Seq<Item>) -> bool {
    a.len() == b.len() && forall|k: int|
        0 <= k < a.len() ==> (#[trigger] b[k]).id == a[k].id && b[k].ip == a[k].ip && b[k].hosts@
            == a[k].hosts@
}

impl Clone for HostsInfo {
    fn clone(&self) -> (r: Self)
        ensures
            r.content == self.content,
            same_items(self.list@, r.list@),
            items_view(r.list@) == items_view(self.list@),
            lines_view(r.lines@) == lines_view(self.lines@),
    {
        let mut list: Vec<Item> = Vec::new();
        let mut i: usize = 0;
        while i < self.list.len()
            invariant
                i <= self.list@.len(),
                same_items(self.list@.take(i as int), list@),
            decreases self.list.len() - i,
        {
            let it = self.list[i].clone();
            list.push(it);
            i += 1;
        }
        assert(self.list@.take(self.list@.len() as int) == self.list@);
        assert(items_view(list@) =~= items_view(self.list@));
        HostsInfo {
            content: self.content.clone(),
            list,
            lines: crate::reconcile::clone_lines(&self.lines),
        }
    }
}

impl HostsInfo {
    /// The document for a text: its lines and its entries, with ids from `ids`; `None`,
    /// with `ids` as it was, when the entries would need more ids than `ids` has left.
    pub fn from_content(content: String, ids: &mut GlobalID) -> (r: Option<Self>)
        ensures
            r is Some <==> old(ids)@ + id_demand(parse_text(content@)) <= usize::MAX,
            r is None ==> final(ids)@ == old(ids)@,
            r matches Some(h) ==> {
                &&& h.content == content
                &&& lines_view(h.lines@) == parse_text(content@)
                &&& items_view(h.list@) == project(parse_text(content@))
                &&& ids_in(h.list@, old(ids)@, final(ids)@)
                &&& ids_distinct(h.list@)
            },
    {
        let lines = content_to_lines(content.as_str());
        match id_demand_of(&lines) {
            Some(d) => {
                if d > ids.room() {
                    return None;
                }
                let list = lines_to_list(&lines, ids);
                Some(HostsInfo { content, list, lines })
            },
            None => None,
        }
    }

    /// Writes the entries back into the lines, then renders the text with `"\r\n"` line
    /// endings when `is_win` holds, else `"\n"`.
    pub fn update_content(&mut self, is_win: bool)
        ensures
            lines_view(final(self).lines@) == reconcile(
                lines_view(old(self).lines@),
                items_view(old(self).list@),
            ),
            final(self).content@ == serialize(lines_view(final(self).lines@), is_win),
            final(self).list == old(self).list,
    {
        self.lines = new_lines_by_list(&self.lines, &self.list);
        self.content = lines_to_content(&self.lines, is_win);
    }

    /// Parses the text again, replacing the lines and the entries; `false`, with nothing
    /// changed, when `ids` has too few ids left for the new entries.
    pub fn update_list(&mut self, ids: &mut GlobalID) -> (r: bool)
        ensures
            r == (old(ids)@ + id_demand(parse_text(old(self).content@)) <= usize::MAX),
            final(self).content == old(self).content,
            r ==> lines_view(final(self).lines@) == parse_text(old(self).content@) && items_view(
                final(self).list@,
            ) == project(parse_text(old(self).content@)) && ids_in(
                final(self).list@,
                old(ids)@,
                final(ids)@,
            ) && ids_distinct(final(self).list@),
            !r ==> *final(self) == *old(self) && final(ids)@ == old(ids)@,
    {
        let lines = content_to_lines(self.content.as_str());
        match id_demand_of(&lines) {
            Some(d) => {
                if d > ids.room() {
                    return false;
                }
                self.list = lines_to_list(&lines, ids);
                self.lines = lines;
                true
            },
            None => false,
        }
    }

    /// Adds the form's aliases, enabled, to the entry for its address, or adds a new entry
    /// at the end for an address that has none.
    pub fn add_item(&mut self, form: &ItemForm, ids: &mut GlobalID)
        requires
            old(ids)@ + form.hosts@.len() + 1 <= usize::MAX,
        ensures
            items_view(final(self).list@) == add_line(
                items_view(old(self).list@),
                form.ip@,
                words(form.hosts@),
                true,
            ),
            final(self).content == old(self).content,
            final(self).lines == old(self).lines,
    {
        let names = form.hosts.to_split_whitespace_vec();
        proof {
            lemma_words_len(form.hosts@);
        }
        let ghost es = items_view(self.list@);
        match find_item_by_ip(&self.list, &form.ip) {
            Some(k) => {
                self.list[k].add_hosts(names, true, ids);
                assert(items_view(self.list@) == es.update(k as int, self.list@[k as int]@));
            },
            None => {
                let item = Item::new(form.ip.as_str(), names, true, ids);
                self.list.push(item);
                assert(items_view(self.list@) == es.push(item@));
            },
        }
    }

    /// The first entry with id `item_id`, to be changed in place.
    pub fn get_item_mut(&mut self, item_id: usize) -> (r: Option<&mut Item>)
        ensures
            match r {
                Some(it) => {
                    let k = item_index(old(self).list@, item_id);
                    &&& k >= 0
                    &&& *it == old(self).list@[k]
                    &&& final(self).list@ == old(self).list@.update(k, *final(it))
                    &&& final(self).content == old(self).content
                    &&& final(self).lines == old(self).lines
                },
                None => item_index(old(self).list@, item_id) == -1 && *final(self) == *old(self),
            },
    {
        match find_item(&self.list, item_id) {
            Some(k) => Some(&mut self.list[k]),
            None => None,
        }
    }

    /// Adds the words of `hosts`, enabled, to the entry `item_id`; names it already has
    /// are left as they are.
    pub fn add_hosts(&mut self, item_id: usize, hosts: &String, ids: &mut GlobalID)
        requires
            old(ids)@ + hosts@.len() <= usize::MAX,
        ensures
            final(self).content == old(self).content,
            final(self).lines == old(self).lines,
            aliases_added(old(self).list@, final(self).list@, item_id, hosts@),
    {
        if let Some(k) = find_item(&self.list, item_id) {
            let names = hosts.to_split_whitespace_vec();
            proof {
                lemma_words_len(hosts@);
            }
            self.list[k].add_hosts(names, true, ids);
        }
    }

    /// Removes the first entry with id `item_id`, if there is one.
    pub fn remove_item(&mut self, item_id: usize)
        ensures
            item_removed(old(self).list@, final(self).list@, item_id),
            final(self).content == old(self).content,
            final(self).lines == old(self).lines,
    {
        if let Some(k) = find_item(&self.list, item_id) {
            self.list.remove(k);
        }
    }

    /// Gives the entry `item_id` the address `ip`, if `ip` is an address literal.
    pub fn edit_item_ip(&mut self, item_id: usize, ip: String)
        ensures
            final(self).content == old(self).content,
            final(self).lines == old(self).lines,
            ip_edited(old(self).list@, final(self).list@, item_id, ip),
    {
        if let Some(k) = find_item(&self.list, item_id) {
            if is_ip(ip.as_str()) {
                self.list[k].ip = ip;
            }
        }
    }

    /// Flips the state of alias `host_id` of entry `item_id`.
    pub fn toggle_host_enable(&mut self, item_id: usize, host_id: usize)
        ensures
            final(self).content == old(self).content,
            final(self).lines == old(self).lines,
            host_toggled(old(self).list@, final(self).list@, item_id, host_id),
    {
        if let Some(k) = find_item(&self.list, item_id) {
            let ghost before = self.list@;
            self.list[k].toggle_host(host_id);
            proof {
                if crate::item::host_index(before[k as int].hosts@, host_id) < 0 {
                    assert(self.list@ =~= before);
                }
            }
        }
    }

    /// Removes alias `host_id` of entry `item_id`; an entry left without aliases goes too.
    pub fn delete_host(&mut self, item_id: usize, host_id: usize)
        ensures
            final(self).content == old(self).content,
            final(self).lines == old(self).lines,
            host_deleted(old(self).list@, final(self).list@, item_id, host_id),
    {
        if let Some(k) = find_item(&self.list, item_id) {
            let ghost before = self.list@;
            self.list[k].remove_host(host_id);
            let ghost mid = self.list@;
            assert(same_but(mid, before, k as int));
            if self.list[k].hosts.len() == 0 {
                self.list.remove(k);
                assert(self.list@ =~= before.remove(k as int));
            }
        }
    }

    /// Renames alias `host_id` of entry `item_id`; a name the entry already has is not
    /// added twice.
    pub fn edit_host(&mut self, item_id: usize, host_id: usize, name: String)
        ensures
            final(self).content == old(self).content,
            final(self).lines == old(self).lines,
            host_renamed(old(self).list@, final(self).list@, item_id, host_id, name),
    {
        if let Some(k) = find_item(&self.list, item_id) {
            self.list[k].rename_host(host_id, name);
        }
    }
}

} // verus!
