//! The logical view: address entries with their aliases, and the allocator of their ids.
use vstd::prelude::*;
use crate::addr::{ip_literal, is_ip};
use crate::text::{chars_of, occurs_in};

verus! {

/// Hands out identifiers in increasing order, each one once.
#[derive(Debug)]
pub struct GlobalID {
    inner: usize,
}

impl View for GlobalID {
    type V = nat;

    /// The next identifier to be handed out.
    closed spec fn view(&self) -> nat {
        self.inner as nat
    }
}

impl GlobalID {
    pub fn new() -> (r: Self)
        ensures
            r@ == 1,
    {
        GlobalID { inner: 1 }
    }

    pub fn next(&mut self) -> (r: usize)
        requires
            old(self)@ < usize::MAX,
        ensures
            r == old(self)@,
            final(self)@ == old(self)@ + 1,
    {
        let r = self.inner;
        self.inner = self.inner + 1;
        r
    }

    /// How many identifiers can still be handed out.
    pub fn room(&self) -> (r: usize)
        ensures
            r == usize::MAX - self@,
    {
        usize::MAX - self.inner
    }
}

/// One alias of an entry.
#[derive(Debug, PartialEq, Eq)]
pub struct Host {
    pub id: usize,
    pub name: String,
    pub enabled: bool,
}

/// All aliases of one address, enabled or not.
#[derive(Debug, PartialEq, Eq)]
pub struct Item {
    pub id: usize,
    pub ip: String,
    pub hosts: Vec<Host>,
}

/// An alias without its id.
pub struct HostModel {
    pub name: Seq<char>,
    pub enabled: bool,
}

/// An entry without ids.
pub struct EntryModel {
    pub ip: Seq<char>,
    pub hosts: Seq<HostModel>,
}

impl View for Host {
    type V = HostModel;

    open spec fn view(&self) -> HostModel {
        HostModel { name: self.name@, enabled: self.enabled }
    }
}

impl View for Item {
    type V = EntryModel;

    open spec fn view(&self) -> EntryModel {
        EntryModel { ip: self.ip@, hosts: hosts_view(self.hosts@) }
    }
}

pub open spec fn hosts_view(hs: Seq<Host>) -> Seq<HostModel> {
    hs.map_values(|h: Host| h@)
}

pub open spec fn items_view(items: Seq<Item>) -> Seq<EntryModel> {
    items.map_values(|it: Item| it@)
}

/// Whether some alias in `hs` is called `n`.
pub open spec fn has_name(hs: Seq<HostModel>, n: Seq<char>) -> bool {
    exists|i: int| 0 <= i < hs.len() && #[trigger] hs[i].name == n
}

/// No two aliases share a name.
pub open spec fn unique_names(hs: Seq<HostModel>) -> bool {
    forall|i: int, j: int| 0 <= i < j < hs.len() ==> #[trigger] hs[i].name != #[trigger] hs[j].name
}

/// The aliases with later repeats of a name left out; the first of each name stays.
pub open spec fn dedup(hs: Seq<Host>) -> Seq<Host>
    decreases hs.len(),
{
    if hs.len() == 0 {
        hs
    } else {
        let d = dedup(hs.drop_last());
        if has_name(hosts_view(d), hs.last().name@) {
            d
        } else {
            d.push(hs.last())
        }
    }
}

/// `dedup` on aliases without ids.
pub open spec fn dedup_models(hs: Seq<HostModel>) -> Seq<HostModel>
    decreases hs.len(),
{
    if hs.len() == 0 {
        hs
    } else {
        let d = dedup_models(hs.drop_last());
        if has_name(d, hs.last().name) {
            d
        } else {
            d.push(hs.last())
        }
    }
}

/// New aliases named by `names`, with ids counted up from `start`.
pub open spec fn fresh_hosts(start: nat, names: Seq<String>, enabled: bool) -> Seq<Host> {
    Seq::new(names.len(), |i: int| Host { id: (start + i) as usize, name: names[i], enabled })
}

/// The aliases named by `names`, all with the same state.
pub open spec fn name_models(names: Seq<Seq<char>>, enabled: bool) -> Seq<HostModel> {
    names.map_values(|n: Seq<char>| HostModel { name: n, enabled })
}

pub proof fn lemma_dedup_view(hs: Seq<Host>)
    ensures
        hosts_view(dedup(hs)) == dedup_models(hosts_view(hs)),
    decreases hs.len(),
{
    if hs.len() > 0 {
        lemma_dedup_view(hs.drop_last());
        assert(hosts_view(hs).drop_last() == hosts_view(hs.drop_last()));
        let d = dedup(hs.drop_last());
        assert(hosts_view(d.push(hs.last())) == hosts_view(d).push(hs.last()@));
    }
}

pub proof fn lemma_dedup_unique(hs: Seq<HostModel>)
    ensures
        unique_names(dedup_models(hs)),
        forall|n: Seq<char>| has_name(dedup_models(hs), n) <==> has_name(hs, n),
    decreases hs.len(),
{
    if hs.len() > 0 {
        let p = hs.drop_last();
        lemma_dedup_unique(p);
        let d = dedup_models(p);
        assert forall|n: Seq<char>| has_name(dedup_models(hs), n) <==> has_name(hs, n) by {
            let r = dedup_models(hs);
            assert(forall|k: int| 0 <= k < d.len() ==> r[k] == d[k]);
            if has_name(hs, n) {
                let i = choose|i: int| 0 <= i < hs.len() && #[trigger] hs[i].name == n;
                if i < p.len() {
                    assert(p[i].name == n);
                    assert(has_name(p, n));
                    assert(has_name(d, n));
                    let k = choose|k: int| 0 <= k < d.len() && #[trigger] d[k].name == n;
                    assert(r[k].name == n);
                } else if !has_name(d, n) {
                    assert(r[d.len() as int].name == n);
                } else {
                    let k = choose|k: int| 0 <= k < d.len() && #[trigger] d[k].name == n;
                    assert(r[k].name == n);
                }
            }
            if has_name(r, n) {
                let i = choose|i: int| 0 <= i < r.len() && #[trigger] r[i].name == n;
                if i < d.len() {
                    assert(d[i].name == n);
                    assert(has_name(p, n));
                    let k = choose|k: int| 0 <= k < p.len() && #[trigger] p[k].name == n;
                    assert(hs[k].name == n);
                } else {
                    assert(hs[hs.len() - 1].name == n);
                }
            }
        }
        if !has_name(d, hs.last().name) {
            assert forall|i: int, j: int|
                0 <= i < j < dedup_models(hs).len() implies #[trigger] dedup_models(hs)[i].name
                != #[trigger] dedup_models(hs)[j].name by {
                if j == d.len() {
                    assert(d[i].name == dedup_models(hs)[i].name);
                }
            }
        }
    }
}

/// Keeps the first alias of each name, in order.
fn dedup_hosts(hosts: Vec<Host>) -> (r: Vec<Host>)
    ensures
        r@ == dedup(hosts@),
{
    let mut r: Vec<Host> = Vec::new();
    let ghost all = hosts@;
    for h in it: hosts
        invariant
            it.seq() == all,
            r@ == dedup(all.take(it.index() as int)),
    {
        let ghost i = it.index();
        assert(h == all[i]);
        assert(all.take(i + 1).drop_last() == all.take(i));
        let mut seen = false;
        let mut j: usize = 0;
        while j < r.len()
            invariant
                j <= r.len(),
                seen <==> exists|k: int| 0 <= k < j && r@[k].name@ == h.name@,
            decreases r.len() - j,
        {
            if r[j].name == h.name {
                seen = true;
            }
            j += 1;
        }
        proof {
            if seen {
                let k = choose|k: int| 0 <= k < r@.len() && r@[k].name@ == h.name@;
                assert(hosts_view(r@)[k].name == h.name@);
            }
            if has_name(hosts_view(r@), h.name@) {
                let k = choose|k: int|
                    0 <= k < hosts_view(r@).len() && #[trigger] hosts_view(r@)[k].name == h.name@;
                assert(r@[k].name@ == h.name@);
            }
        }
        if !seen {
            r.push(h);
        }
    }
    assert(all.take(all.len() as int) == all);
    r
}

/// New aliases for `names`, each with a fresh id.
fn make_hosts(names: Vec<String>, enabled: bool, ids: &mut GlobalID) -> (r: Vec<Host>)
    requires
        old(ids)@ + names@.len() <= usize::MAX,
    ensures
        r@ == fresh_hosts(old(ids)@, names@, enabled),
        final(ids)@ == old(ids)@ + names@.len(),
{
    let ghost start = ids@;
    let ghost all = names@;
    let mut r: Vec<Host> = Vec::new();
    for name in it: names
        invariant
            it.seq() == all,
            r@.len() == it.index(),
            r@ == fresh_hosts(start, all.take(it.index() as int), enabled),
            ids@ == start + it.index(),
            start + all.len() <= usize::MAX,
    {
        let ghost i = it.index();
        assert(name == all[i]);
        let id = ids.next();
        r.push(Host { id, name, enabled });
        assert(r@ =~= fresh_hosts(start, all.take(i + 1), enabled));
    }
    assert(all.take(all.len() as int) == all);
    r
}

/// Whether `needle` occurs in `hay`.
fn contains_chars(hay: &String, needle: &Vec<char>) -> (r: bool)
    ensures
        r == occurs_in(needle@, hay@),
{
    let h = chars_of(hay.as_str());
    if needle.len() == 0 {
        assert(hay@.subrange(0, 0 + needle@.len() as int) == needle@);
        return true;
    }
    if needle.len() > h.len() {
        return false;
    }
    let mut i: usize = 0;
    while i <= h.len() - needle.len()
        invariant
            0 < needle@.len() <= h@.len(),
            h@ == hay@,
            forall|k: int| 0 <= k < i ==> #[trigger] h@.subrange(k, k + needle@.len()) != needle@,
        decreases h.len() - needle.len() + 1 - i,
    {
        let mut j: usize = 0;
        assert(h@.subrange(i as int, i as int) == needle@.take(0));
        while j < needle.len() && h[i + j] == needle[j]
            invariant
                j <= needle.len(),
                i + needle.len() <= h.len(),
                h@.subrange(i as int, i + j) == needle@.take(j as int),
            decreases needle.len() - j,
        {
            assert(h@.subrange(i as int, i + j + 1) == h@.subrange(i as int, i + j).push(h@[i + j]));
            assert(needle@.take(j + 1) == needle@.take(j as int).push(needle@[j as int]));
            j += 1;
        }
        let same = j == needle.len();
        proof {
            if same {
                assert(needle@.take(needle@.len() as int) == needle@);
            } else {
                assert(h@.subrange(i as int, i + needle@.len())[j as int] == h@[i + j]);
            }
        }
        if same {
            return true;
        }
        i += 1;
    }
    false
}

/// The position of the first alias with id `id`, or -1.
pub open spec fn host_index(hs: Seq<Host>, id: usize) -> int {
    if exists|k: int| 0 <= k < hs.len() && hs[k].id == id && forall|j: int| 0 <= j < k ==> hs[j].id != id {
        choose|k: int| 0 <= k < hs.len() && hs[k].id == id && forall|j: int| 0 <= j < k ==> hs[j].id != id
    } else {
        -1
    }
}

/// The aliases after the first with id `id` is renamed to `name`.
pub open spec fn renamed(hs: Seq<Host>, id: usize, name: String) -> Seq<Host> {
    let k = host_index(hs, id);
    if k >= 0 {
        hs.update(k, Host { id: hs[k].id, name, enabled: hs[k].enabled })
    } else {
        hs
    }
}

/// The position of the first alias with id `id`.
pub(crate) fn find_host(hosts: &Vec<Host>, id: usize) -> (r: Option<usize>)
    ensures
        match r {
            Some(k) => k < hosts@.len() && host_index(hosts@, id) == k,
            None => host_index(hosts@, id) == -1,
        },
{
    let mut i: usize = 0;
    while i < hosts.len()
        invariant
            i <= hosts.len(),
            forall|j: int| 0 <= j < i ==> hosts@[j].id != id,
        decreases hosts.len() - i,
    {
        if hosts[i].id == id {
            proof {
                let hs = hosts@;
                let k = host_index(hs, id);
                assert(hs[i as int].id == id && forall|j: int| 0 <= j < i ==> hs[j].id != id);
                assert(k >= 0);
                if k < i {
                    assert(hs[k].id == id);
                } else if k > i {
                    assert(hs[i as int].id != id);
                }
            }
            return Some(i);
        }
        i += 1;
    }
    None
}

impl Clone for Host {
    fn clone(&self) -> (r: Self)
        ensures
            r == *self,
    {
        Host { id: self.id, name: self.name.clone(), enabled: self.enabled }
    }
}

impl Clone for Item {
    fn clone(&self) -> (r: Self)
        ensures
            r.id == self.id,
            r.ip == self.ip,
            r.hosts@ == self.hosts@,
    {
        let mut hosts: Vec<Host> = Vec::new();
        let mut i: usize = 0;
        while i < self.hosts.len()
            invariant
                i <= self.hosts@.len(),
                hosts@ == self.hosts@.take(i as int),
            decreases self.hosts.len() - i,
        {
            hosts.push(self.hosts[i].clone());
            assert(self.hosts@.take(i + 1) == self.hosts@.take(i as int).push(self.hosts@[i as int]));
            i += 1;
        }
        assert(self.hosts@.take(self.hosts@.len() as int) == self.hosts@);
        Item { id: self.id, ip: self.ip.clone(), hosts }
    }
}

impl Item {
    /// A new entry for `ip` with the aliases `hosts`, later repeats of a name left out.
    pub fn new(ip: &str, hosts: Vec<String>, enabled: bool, ids: &mut GlobalID) -> (r: Self)
        requires
            old(ids)@ + hosts@.len() + 1 <= usize::MAX,
        ensures
            r.id == old(ids)@,
            r.ip@ == ip@,
            r.hosts@ == dedup(fresh_hosts(old(ids)@ + 1, hosts@, enabled)),
            r@.hosts == dedup_models(name_models(crate::text::strs_view(hosts@), enabled)),
            unique_names(r@.hosts),
            final(ids)@ == old(ids)@ + hosts@.len() + 1,
    {
        let id = ids.next();
        let ghost names = hosts@;
        let ghost start = ids@;
        let made = make_hosts(hosts, enabled, ids);
        let item = Item { id, ip: ip.to_owned(), hosts: dedup_hosts(made) };
        proof {
            lemma_fresh_view(start, names, enabled);
            lemma_dedup_view(made@);
            lemma_dedup_unique(hosts_view(made@));
        }
        item
    }

    /// Adds aliases with fresh ids; a name already present is left as it was.
    pub fn add_hosts(&mut self, hosts: Vec<String>, enabled: bool, ids: &mut GlobalID)
        requires
            old(ids)@ + hosts@.len() <= usize::MAX,
        ensures
            final(self).id == old(self).id,
            final(self).ip == old(self).ip,
            final(self).hosts@ == dedup(old(self).hosts@ + fresh_hosts(old(ids)@, hosts@, enabled)),
            final(self)@.hosts == dedup_models(
                old(self)@.hosts + name_models(crate::text::strs_view(hosts@), enabled),
            ),
            unique_names(final(self)@.hosts),
            final(ids)@ == old(ids)@ + hosts@.len(),
    {
        let ghost names = hosts@;
        let ghost start = ids@;
        let mut made = make_hosts(hosts, enabled, ids);
        let mut all = Vec::new();
        std::mem::swap(&mut all, &mut self.hosts);
        let ghost old_hosts = all@;
        all.append(&mut made);
        self.hosts = dedup_hosts(all);
        proof {
            lemma_fresh_view(start, names, enabled);
            assert(hosts_view(old_hosts + fresh_hosts(start, names, enabled)) == hosts_view(
                old_hosts,
            ) + hosts_view(fresh_hosts(start, names, enabled)));
            lemma_dedup_view(old_hosts + fresh_hosts(start, names, enabled));
            lemma_dedup_unique(hosts_view(old_hosts + fresh_hosts(start, names, enabled)));
        }
    }

    /// Whether the address or some alias contains `s`.
    pub fn contains(&self, s: &str) -> (r: bool)
        ensures
            r == (occurs_in(s@, self.ip@) || exists|i: int|
                0 <= i < self.hosts@.len() && occurs_in(s@, #[trigger] self.hosts@[i].name@)),
    {
        let needle = chars_of(s);
        if contains_chars(&self.ip, &needle) {
            return true;
        }
        let mut i: usize = 0;
        while i < self.hosts.len()
            invariant
                i <= self.hosts@.len(),
                needle@ == s@,
                forall|k: int| 0 <= k < i ==> !occurs_in(s@, #[trigger] self.hosts@[k].name@),
            decreases self.hosts.len() - i,
        {
            if contains_chars(&self.hosts[i].name, &needle) {
                return true;
            }
            i += 1;
        }
        false
    }

    /// Whether `ip` is an address literal.
    pub fn validate_ip(&self, ip: &str) -> (r: bool)
        ensures
            r == ip_literal(ip@),
    {
        is_ip(ip)
    }

    /// The first alias with id `host_id`, to be changed in place.
    pub fn get_host_mut(&mut self, host_id: usize) -> (r: Option<&mut Host>)
        ensures
            match r {
                Some(h) => {
                    let k = host_index(old(self).hosts@, host_id);
                    &&& k >= 0
                    &&& *h == old(self).hosts@[k]
                    &&& final(self).hosts@ == old(self).hosts@.update(k, *final(h))
                    &&& final(self).id == old(self).id
                    &&& final(self).ip == old(self).ip
                },
                None => host_index(old(self).hosts@, host_id) == -1 && *final(self) == *old(self),
            },
    {
        match find_host(&self.hosts, host_id) {
            Some(k) => Some(&mut self.hosts[k]),
            None => None,
        }
    }

    /// Flips the state of the first alias with id `host_id`, if there is one.
    pub fn toggle_host(&mut self, host_id: usize)
        ensures
            final(self).id == old(self).id,
            final(self).ip == old(self).ip,
            ({
                let j = host_index(old(self).hosts@, host_id);
                let h = old(self).hosts@[j];
                if j >= 0 {
                    final(self).hosts@ == old(self).hosts@.update(
                        j,
                        Host { id: h.id, name: h.name, enabled: !h.enabled },
                    )
                } else {
                    *final(self) == *old(self)
                }
            }),
    {
        if let Some(k) = find_host(&self.hosts, host_id) {
            let h = Host {
                id: self.hosts[k].id,
                name: self.hosts[k].name.clone(),
                enabled: !self.hosts[k].enabled,
            };
            self.hosts.set(k, h);
        }
    }

    /// Removes the first alias with id `host_id`, if there is one.
    pub fn remove_host(&mut self, host_id: usize)
        ensures
            final(self).id == old(self).id,
            final(self).ip == old(self).ip,
            final(self).hosts@ == (if host_index(old(self).hosts@, host_id) >= 0 {
                old(self).hosts@.remove(host_index(old(self).hosts@, host_id))
            } else {
                old(self).hosts@
            }),
    {
        if let Some(k) = find_host(&self.hosts, host_id) {
            self.hosts.remove(k);
        }
    }

    /// Renames the first alias with id `host_id`; if another alias already has the new
    /// name, only the first of the two stays.
    pub fn rename_host(&mut self, host_id: usize, name: String)
        ensures
            final(self).id == old(self).id,
            final(self).ip == old(self).ip,
            final(self).hosts@ == dedup(renamed(old(self).hosts@, host_id, name)),
            unique_names(final(self)@.hosts),
    {
        if let Some(k) = find_host(&self.hosts, host_id) {
            let h = Host { id: self.hosts[k].id, name, enabled: self.hosts[k].enabled };
            self.hosts.set(k, h);
        }
        let mut all = Vec::new();
        std::mem::swap(&mut all, &mut self.hosts);
        self.hosts = dedup_hosts(all);
        proof {
            lemma_dedup_view(renamed(old(self).hosts@, host_id, name));
            lemma_dedup_unique(hosts_view(renamed(old(self).hosts@, host_id, name)));
        }
    }
}

/// Every id among the entries and their aliases lies in `[lo, hi)`.
pub open spec fn ids_in(items: Seq<Item>, lo: nat, hi: nat) -> bool {
    &&& forall|k: int| 0 <= k < items.len() ==> lo <= #[trigger] items[k].id < hi
    &&& forall|k: int, m: int|
        0 <= k < items.len() && 0 <= m < items[k].hosts@.len() ==> lo <= #[trigger] items[k].hosts@[m].id < hi
}

/// No id occurs twice among the entries and their aliases.
pub open spec fn ids_distinct(items: Seq<Item>) -> bool {
    &&& forall|a: int, b: int| 0 <= a < b < items.len() ==> #[trigger] items[a].id != #[trigger] items[b].id
    &&& forall|k: int, m: int, j: int|
        0 <= k < items.len() && 0 <= m < items[k].hosts@.len() && 0 <= j < items.len()
            ==> #[trigger] items[k].hosts@[m].id != #[trigger] items[j].id
    &&& forall|k: int, m: int, j: int, n: int|
        0 <= k < items.len() && 0 <= m < items[k].hosts@.len() && 0 <= j < items.len() && 0 <= n
            < items[j].hosts@.len() && (k != j || m != n) ==> #[trigger] items[k].hosts@[m].id
            != #[trigger] items[j].hosts@[n].id
}

/// No two aliases share an id.
pub open spec fn host_ids_distinct(hs: Seq<Host>) -> bool {
    forall|a: int, b: int| 0 <= a < b < hs.len() ==> #[trigger] hs[a].id != #[trigger] hs[b].id
}

/// `dedup` keeps some of the aliases, in order: each one it keeps is one of `hs`, and
/// distinct ids stay distinct.
pub proof fn lemma_dedup_subset(hs: Seq<Host>)
    ensures
        forall|i: int| 0 <= i < dedup(hs).len() ==> hs.contains(#[trigger] dedup(hs)[i]),
        host_ids_distinct(hs) ==> host_ids_distinct(dedup(hs)),
    decreases hs.len(),
{
    if hs.len() > 0 {
        let p = hs.drop_last();
        lemma_dedup_subset(p);
        let d = dedup(p);
        let r = dedup(hs);
        assert forall|i: int| 0 <= i < r.len() implies hs.contains(#[trigger] r[i]) by {
            if i < d.len() {
                assert(p.contains(d[i]));
                let j = choose|j: int| 0 <= j < p.len() && p[j] == d[i];
                assert(hs[j] == r[i]);
            } else {
                assert(hs[hs.len() - 1] == r[i]);
            }
        }
        if host_ids_distinct(hs) {
            assert(host_ids_distinct(p)) by {
                assert forall|a: int, b: int| 0 <= a < b < p.len() implies #[trigger] p[a].id != #[trigger] p[b].id by {
                    assert(hs[a].id != hs[b].id);
                }
            }
            assert forall|a: int, b: int| 0 <= a < b < r.len() implies #[trigger] r[a].id != #[trigger] r[b].id by {
                if b == d.len() {
                    assert(p.contains(d[a]));
                    let j = choose|j: int| 0 <= j < p.len() && p[j] == d[a];
                    assert(hs[j].id != hs[hs.len() - 1].id);
                } else {
                    assert(d[a].id != d[b].id);
                }
            }
        }
    }
}

pub proof fn lemma_fresh_ids(start: nat, names: Seq<String>, enabled: bool)
    requires
        start + names.len() <= usize::MAX,
    ensures
        host_ids_distinct(fresh_hosts(start, names, enabled)),
        forall|i: int|
            0 <= i < names.len() ==> start <= (#[trigger] fresh_hosts(start, names, enabled)[i]).id
                < start + names.len(),
        host_ids_distinct(dedup(fresh_hosts(start, names, enabled))),
        forall|i: int|
            0 <= i < dedup(fresh_hosts(start, names, enabled)).len() ==> start <= (#[trigger] dedup(
                fresh_hosts(start, names, enabled),
            )[i]).id < start + names.len(),
{
    let f = fresh_hosts(start, names, enabled);
    assert forall|a: int, b: int| 0 <= a < b < f.len() implies #[trigger] f[a].id != #[trigger] f[b].id by {
        assert(f[a].id == start + a);
        assert(f[b].id == start + b);
    }
    assert forall|i: int| 0 <= i < names.len() implies start <= (#[trigger] f[i]).id < start
        + names.len() by {
        assert(f[i].id == start + i);
    }
    lemma_dedup_subset(f);
    let d = dedup(f);
    assert forall|i: int| 0 <= i < d.len() implies start <= (#[trigger] d[i]).id < start + names.len() by {
        assert(f.contains(d[i]));
        let j = choose|j: int| 0 <= j < f.len() && f[j] == d[i];
        assert(f[j].id == start + j);
    }
}

/// A new entry with a fresh id and fresh alias ids keeps the ids in range and distinct.
pub proof fn lemma_push_item(items: Seq<Item>, x: Item, lo: nat, hi: nat, hi2: nat)
    requires
        ids_in(items, lo, hi),
        ids_distinct(items),
        lo <= hi < hi2,
        x.id == hi,
        host_ids_distinct(x.hosts@),
        forall|i: int| 0 <= i < x.hosts@.len() ==> hi < (#[trigger] x.hosts@[i]).id < hi2,
    ensures
        ids_in(items.push(x), lo, hi2),
        ids_distinct(items.push(x)),
{
    let r = items.push(x);
    let n = items.len() as int;
    assert(r[n] == x);
    assert forall|k: int| 0 <= k < r.len() implies lo <= #[trigger] r[k].id < hi2 by {
        if k < n {
            assert(r[k] == items[k]);
        }
    }
    assert forall|k: int, m: int|
        0 <= k < r.len() && 0 <= m < r[k].hosts@.len() implies lo <= #[trigger] r[k].hosts@[m].id < hi2 by {
        if k < n {
            assert(r[k] == items[k]);
            assert(lo <= items[k].hosts@[m].id < hi);
        }
    }
    assert forall|a: int, b: int| 0 <= a < b < r.len() implies #[trigger] r[a].id != #[trigger] r[b].id by {
        if b < n {
            assert(items[a].id != items[b].id);
        } else {
            assert(items[a].id < hi);
        }
    }
    assert forall|k: int, m: int, j: int|
        0 <= k < r.len() && 0 <= m < r[k].hosts@.len() && 0 <= j < r.len() implies #[trigger] r[k].hosts@[m].id
        != #[trigger] r[j].id by {
        if k < n && j < n {
            assert(items[k].hosts@[m].id != items[j].id);
        } else if k < n {
            assert(items[k].hosts@[m].id < hi);
        } else if j < n {
            assert(items[j].id < hi);
        }
    }
    assert forall|k: int, m: int, j: int, q: int|
        0 <= k < r.len() && 0 <= m < r[k].hosts@.len() && 0 <= j < r.len() && 0 <= q < r[j].hosts@.len() && (
        k != j || m != q) implies #[trigger] r[k].hosts@[m].id != #[trigger] r[j].hosts@[q].id by {
        if k < n && j < n {
            assert(items[k].hosts@[m].id != items[j].hosts@[q].id);
        } else if k < n {
            assert(items[k].hosts@[m].id < hi);
        } else if j < n {
            assert(items[j].hosts@[q].id < hi);
        } else {
            if m < q {
                assert(x.hosts@[m].id != x.hosts@[q].id);
            } else {
                assert(x.hosts@[q].id != x.hosts@[m].id);
            }
        }
    }
}

/// Aliases with fresh ids added to one entry keep the ids in range and distinct.
pub proof fn lemma_grow_item(items: Seq<Item>, k0: int, x: Item, fresh: Seq<Host>, lo: nat, hi: nat, hi2: nat)
    requires
        ids_in(items, lo, hi),
        ids_distinct(items),
        0 <= k0 < items.len(),
        hi <= hi2,
        x.id == items[k0].id,
        x.hosts@ == dedup(items[k0].hosts@ + fresh),
        host_ids_distinct(fresh),
        forall|i: int| 0 <= i < fresh.len() ==> hi <= (#[trigger] fresh[i]).id < hi2,
    ensures
        ids_in(items.update(k0, x), lo, hi2),
        ids_distinct(items.update(k0, x)),
{
    let old_h = items[k0].hosts@;
    let all = old_h + fresh;
    assert(host_ids_distinct(all)) by {
        assert forall|a: int, b: int| 0 <= a < b < all.len() implies #[trigger] all[a].id != #[trigger] all[b].id by {
            if b < old_h.len() {
                assert(items[k0].hosts@[a].id != items[k0].hosts@[b].id);
            } else if a < old_h.len() {
                assert(items[k0].hosts@[a].id < hi);
                assert(all[b] == fresh[b - old_h.len()]);
            } else {
                assert(all[a] == fresh[a - old_h.len()]);
                assert(all[b] == fresh[b - old_h.len()]);
            }
        }
    }
    lemma_dedup_subset(all);
    // Each alias of the grown entry is an old one of it, or a fresh one.
    assert forall|m: int| #![trigger x.hosts@[m]] 0 <= m < x.hosts@.len() implies (exists|q: int|
        0 <= q < old_h.len() && #[trigger] old_h[q] == x.hosts@[m]) || hi <= x.hosts@[m].id < hi2 by {
        assert(all.contains(x.hosts@[m]));
        let j = choose|j: int| 0 <= j < all.len() && all[j] == x.hosts@[m];
        if j < old_h.len() {
            assert(old_h[j] == x.hosts@[m]);
        } else {
            assert(all[j] == fresh[j - old_h.len()]);
        }
    }
    let r = items.update(k0, x);
    assert forall|k: int| 0 <= k < r.len() implies lo <= #[trigger] r[k].id < hi2 by {
        assert(lo <= items[k].id < hi);
    }
    assert forall|k: int, m: int|
        0 <= k < r.len() && 0 <= m < r[k].hosts@.len() implies lo <= #[trigger] r[k].hosts@[m].id < hi2 by {
        if k != k0 {
            assert(lo <= items[k].hosts@[m].id < hi);
        } else if !(hi <= x.hosts@[m].id < hi2) {
            let q = choose|q: int| 0 <= q < old_h.len() && #[trigger] old_h[q] == x.hosts@[m];
            assert(lo <= items[k0].hosts@[q].id < hi);
        }
    }
    assert forall|a: int, b: int| 0 <= a < b < r.len() implies #[trigger] r[a].id != #[trigger] r[b].id by {
        assert(items[a].id != items[b].id);
    }
    assert forall|k: int, m: int, j: int|
        0 <= k < r.len() && 0 <= m < r[k].hosts@.len() && 0 <= j < r.len() implies #[trigger] r[k].hosts@[m].id
        != #[trigger] r[j].id by {
        assert(r[j].id == items[j].id);
        assert(items[j].id < hi);
        if k != k0 {
            assert(items[k].hosts@[m].id != items[j].id);
        } else if !(hi <= x.hosts@[m].id < hi2) {
            let q = choose|q: int| 0 <= q < old_h.len() && #[trigger] old_h[q] == x.hosts@[m];
            assert(items[k0].hosts@[q].id != items[j].id);
        }
    }
    assert forall|k: int, m: int, j: int, q: int|
        0 <= k < r.len() && 0 <= m < r[k].hosts@.len() && 0 <= j < r.len() && 0 <= q < r[j].hosts@.len() && (
        k != j || m != q) implies #[trigger] r[k].hosts@[m].id != #[trigger] r[j].hosts@[q].id by {
        if k != k0 && j != k0 {
            assert(items[k].hosts@[m].id != items[j].hosts@[q].id);
        } else if k == k0 && j == k0 {
            if m < q {
                assert(x.hosts@[m].id != x.hosts@[q].id);
            } else {
                assert(x.hosts@[q].id != x.hosts@[m].id);
            }
        } else if k == k0 {
            assert(items[j].hosts@[q].id < hi);
            if !(hi <= x.hosts@[m].id < hi2) {
                let p = choose|p: int| 0 <= p < old_h.len() && #[trigger] old_h[p] == x.hosts@[m];
                assert(items[k0].hosts@[p].id != items[j].hosts@[q].id);
            }
        } else {
            assert(items[k].hosts@[m].id < hi);
            if !(hi <= x.hosts@[q].id < hi2) {
                let p = choose|p: int| 0 <= p < old_h.len() && #[trigger] old_h[p] == x.hosts@[q];
                assert(items[k].hosts@[m].id != items[k0].hosts@[p].id);
            }
        }
    }
}

pub proof fn lemma_fresh_view(start: nat, names: Seq<String>, enabled: bool)
    ensures
        hosts_view(fresh_hosts(start, names, enabled)) == name_models(
            crate::text::strs_view(names),
            enabled,
        ),
{
    assert(hosts_view(fresh_hosts(start, names, enabled)) =~= name_models(
        crate::text::strs_view(names),
        enabled,
    ));
}

} // verus!
