//! The projector: folds the line store into one entry per address.
use indexmap::IndexMap;
use vstd::prelude::*;
use crate::item::{
    dedup_models, fresh_hosts, ids_distinct, ids_in, items_view, lemma_fresh_ids, lemma_grow_item,
    lemma_push_item, name_models, EntryModel, GlobalID, Item,
};
use crate::line::{clone_strings, lines_view, Line, LineModel};

verus! {

#[verifier::external_type_specification]
#[verifier::external_body]
#[verifier::reject_recursive_types(K)]
#[verifier::reject_recursive_types(V)]
#[verifier::reject_recursive_types(S)]
pub struct ExIndexMap<K, V, S>(IndexMap<K, V, S>);

/// Positions of entries by address.
pub type AddrIndex = IndexMap<String, usize>;

/// What an address index holds: for each address, a position in the entry list.
pub uninterp spec fn addr_positions(m: AddrIndex) -> Map<Seq<char>, usize>;

/// Relies on `IndexMap::new`: a new map holds nothing.
#[verifier::external_body]
pub(crate) fn new_addr_index() -> (r: AddrIndex)
    ensures
        addr_positions(r).dom() == Set::<Seq<char>>::empty(),
{
    IndexMap::new()
}

/// Relies on `IndexMap::get`: the value stored under a key equal to `k`, if any.
#[verifier::external_body]
pub(crate) fn addr_index_get(m: &AddrIndex, k: &String) -> (r: Option<usize>)
    ensures
        r == (if addr_positions(*m).contains_key(k@) {
            Some(addr_positions(*m)[k@])
        } else {
            None::<usize>
        }),
{
    m.get(k).copied()
}

/// Relies on `IndexMap::insert`: afterwards `k` maps to `v`, all other keys as before.
#[verifier::external_body]
pub(crate) fn addr_index_insert(m: &mut AddrIndex, k: String, v: usize)
    ensures
        addr_positions(*final(m)) == addr_positions(*old(m)).insert(k@, v),
{
    m.insert(k, v);
}

/// The position of the first entry for `ip`, or -1.
pub open spec fn entry_index(es: Seq<EntryModel>, ip: Seq<char>) -> int {
    if exists|k: int| 0 <= k < es.len() && es[k].ip == ip && forall|j: int| 0 <= j < k ==> es[j].ip != ip {
        choose|k: int| 0 <= k < es.len() && es[k].ip == ip && forall|j: int| 0 <= j < k ==> es[j].ip != ip
    } else {
        -1
    }
}

/// No two entries share an address.
pub open spec fn distinct_ips(es: Seq<EntryModel>) -> bool {
    forall|a: int, b: int| 0 <= a < b < es.len() ==> #[trigger] es[a].ip != #[trigger] es[b].ip
}

/// The entries after one mapping line is taken in: its aliases join the entry for its
/// address, or start a new entry at the end.
pub open spec fn add_line(
    es: Seq<EntryModel>,
    ip: Seq<char>,
    hosts: Seq<Seq<char>>,
    enabled: bool,
) -> Seq<EntryModel> {
    let k = entry_index(es, ip);
    let fresh = name_models(hosts, enabled);
    if k >= 0 {
        es.update(k, EntryModel { ip, hosts: dedup_models(es[k].hosts + fresh) })
    } else {
        es.push(EntryModel { ip, hosts: dedup_models(fresh) })
    }
}

/// The logical entries of a store, in order of each address's first line.
pub open spec fn project(lines: Seq<LineModel>) -> Seq<EntryModel>
    decreases lines.len(),
{
    if lines.len() == 0 {
        seq![]
    } else {
        let p = project(lines.drop_last());
        match lines.last() {
            LineModel::Valid { ip, hosts, enabled, .. } => add_line(p, ip, hosts, enabled),
            _ => p,
        }
    }
}

/// An upper bound of the ids that projecting the lines hands out.
pub open spec fn id_demand(lines: Seq<LineModel>) -> nat
    decreases lines.len(),
{
    if lines.len() == 0 {
        0
    } else {
        id_demand(lines.drop_last()) + match lines.last() {
            LineModel::Valid { hosts, .. } => hosts.len() + 1,
            _ => 0,
        }
    }
}

pub proof fn lemma_id_demand_prefix(lines: Seq<LineModel>, i: int)
    requires
        0 <= i <= lines.len(),
    ensures
        id_demand(lines.take(i)) <= id_demand(lines),
    decreases lines.len() - i,
{
    if i < lines.len() {
        assert(lines.take(i + 1).drop_last() == lines.take(i));
        lemma_id_demand_prefix(lines, i + 1);
    } else {
        assert(lines.take(i) == lines);
    }
}

pub proof fn lemma_entry_index(es: Seq<EntryModel>, ip: Seq<char>, k: int)
    requires
        distinct_ips(es),
        -1 <= k < es.len(),
        k >= 0 ==> es[k].ip == ip,
        k == -1 ==> forall|j: int| 0 <= j < es.len() ==> es[j].ip != ip,
    ensures
        entry_index(es, ip) == k,
{
    if k >= 0 {
        assert(forall|j: int| 0 <= j < k ==> es[j].ip != ip);
        let c = entry_index(es, ip);
        assert(c >= 0);
        if c != k {
            assert(es[c].ip == ip);
        }
    }
}

/// The entries of a store: one per address, in order of first appearance; the aliases of
/// all lines for the address, each name once with the state of its first line.
pub fn lines_to_list(lines: &Vec<Line>, ids: &mut GlobalID) -> (r: Vec<Item>)
    requires
        old(ids)@ + id_demand(lines_view(lines@)) <= usize::MAX,
    ensures
        items_view(r@) == project(lines_view(lines@)),
        distinct_ips(items_view(r@)),
        old(ids)@ <= final(ids)@ <= old(ids)@ + id_demand(lines_view(lines@)),
        ids_in(r@, old(ids)@, final(ids)@),
        ids_distinct(r@),
{
    let ghost all = lines_view(lines@);
    let ghost start = ids@;
    let mut items: Vec<Item> = Vec::new();
    let mut index = new_addr_index();
    let mut i: usize = 0;
    while i < lines.len()
        invariant
            i <= lines.len(),
            all == lines_view(lines@),
            start + id_demand(all) <= usize::MAX,
            start <= ids@ <= start + id_demand(all.take(i as int)),
            items_view(items@) == project(all.take(i as int)),
            distinct_ips(items_view(items@)),
            ids_in(items@, start, ids@),
            ids_distinct(items@),
            forall|ip: Seq<char>| #[trigger]
                addr_positions(index).contains_key(ip) <==> exists|k: int|
                    0 <= k < items@.len() && #[trigger] items@[k].ip@ == ip,
            forall|ip: Seq<char>| #[trigger]
                addr_positions(index).contains_key(ip) ==> addr_positions(index)[ip]
                    < items@.len() && items@[addr_positions(index)[ip] as int].ip@ == ip,
        decreases lines.len() - i,
    {
        proof {
            assert(all.take(i + 1).drop_last() == all.take(i as int));
            assert(all.take(i + 1).last() == lines@[i as int]@);
            lemma_id_demand_prefix(all, i + 1);
        }
        match &lines[i] {
            Line::Valid(v) => {
                let ghost es = items_view(items@);
                match addr_index_get(&index, &v.ip) {
                    Some(k) => {
                        proof {
                            lemma_entry_index(es, v.ip@, k as int);
                        }
                        let names = clone_strings(&v.hosts);
                        let ghost i0 = ids@;
                        let ghost items0 = items@;
                        let ghost nv = names@;
                        items[k].add_hosts(names, v.enabled, ids);
                        proof {
                            lemma_fresh_ids(i0, nv, v.enabled);
                            assert(items@ == items0.update(k as int, items@[k as int]));
                            lemma_grow_item(
                                items0,
                                k as int,
                                items@[k as int],
                                fresh_hosts(i0, nv, v.enabled),
                                start,
                                i0,
                                ids@,
                            );
                            assert(items_view(items@) == es.update(k as int, items@[k as int]@));
                            assert forall|ip: Seq<char>| #[trigger]
                                addr_positions(index).contains_key(ip) implies exists|j: int|
                                    0 <= j < items@.len() && #[trigger] items@[j].ip@ == ip by {
                                let j = addr_positions(index)[ip] as int;
                                assert(items@[j].ip@ == ip);
                            }
                        }
                    },
                    None => {
                        proof {
                            assert forall|j: int| 0 <= j < es.len() implies es[j].ip != v.ip@ by {
                                if es[j].ip == v.ip@ {
                                    assert(items@[j].ip@ == v.ip@);
                                }
                            }
                            lemma_entry_index(es, v.ip@, -1);
                        }
                        let k = items.len();
                        let names = clone_strings(&v.hosts);
                        let ghost i0 = ids@;
                        let ghost nv = names@;
                        let item = Item::new(v.ip.as_str(), names, v.enabled, ids);
                        let ghost old_pos = addr_positions(index);
                        let ghost old_items = items@;
                        items.push(item);
                        proof {
                            lemma_fresh_ids(i0 + 1, nv, v.enabled);
                            lemma_push_item(old_items, item, start, i0, ids@);
                        }
                        addr_index_insert(&mut index, v.ip.clone(), k);
                        proof {
                            assert(items_view(items@) == es.push(item@));
                            assert forall|ip: Seq<char>| #[trigger]
                                addr_positions(index).contains_key(ip) <==> exists|j: int|
                                    0 <= j < items@.len() && #[trigger] items@[j].ip@ == ip by {
                                if ip == v.ip@ {
                                    assert(items@[k as int].ip@ == ip);
                                } else {
                                    if old_pos.contains_key(ip) {
                                        let j = old_pos[ip] as int;
                                        assert(old_items[j].ip@ == ip);
                                        assert(items@[j] == old_items[j]);
                                    }
                                    if exists|j: int|
                                        0 <= j < items@.len() && #[trigger] items@[j].ip@ == ip {
                                        let j = choose|j: int|
                                            0 <= j < items@.len() && #[trigger] items@[j].ip@ == ip;
                                        assert(j < k);
                                        assert(old_items[j].ip@ == ip);
                                    }
                                }
                            }
                        }
                    },
                }
            },
            _ => {},
        }
        i += 1;
    }
    assert(all.take(lines.len() as int) == all);
    items
}

} // verus!
