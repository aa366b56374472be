//! The reconciler: writes an edited entry list back into the line store, keeping every
//! line that the edit did not touch where it was.
use vstd::prelude::*;
use crate::item::{items_view, EntryModel, HostModel, Item};
use crate::line::{lines_view, Line, LineModel, ValidLine};
use crate::text::strs_view;

verus! {

/// The address and state of a mapping line.
pub open spec fn key_of(l: LineModel) -> Option<(Seq<char>, bool)> {
    match l {
        LineModel::Valid { ip, enabled, .. } => Some((ip, enabled)),
        _ => None,
    }
}

/// Whether an earlier line has the same address and state as the mapping line `l`.
pub open spec fn is_repeat(prefix: Seq<LineModel>, l: LineModel) -> bool {
    key_of(l) is Some && exists|j: int| 0 <= j < prefix.len() && key_of(#[trigger] prefix[j]) == key_of(l)
}

/// The store with every mapping line dropped whose address and state an earlier line has.
pub open spec fn collapse_keys(s: Seq<LineModel>) -> Seq<LineModel>
    decreases s.len(),
{
    if s.len() == 0 {
        s
    } else {
        let p = collapse_keys(s.drop_last());
        if is_repeat(s.drop_last(), s.last()) {
            p
        } else {
            p.push(s.last())
        }
    }
}

/// The position of the first line with address `ip` and state `enabled`, or -1.
pub open spec fn key_index(s: Seq<LineModel>, ip: Seq<char>, enabled: bool) -> int {
    if exists|k: int|
        0 <= k < s.len() && key_of(s[k]) == Some((ip, enabled)) && forall|j: int|
            0 <= j < k ==> key_of(s[j]) != Some((ip, enabled)) {
        choose|k: int|
            0 <= k < s.len() && key_of(s[k]) == Some((ip, enabled)) && forall|j: int|
                0 <= j < k ==> key_of(s[j]) != Some((ip, enabled))
    } else {
        -1
    }
}

/// The names of the aliases in state `enabled`, in order.
pub open spec fn names_with(hs: Seq<HostModel>, enabled: bool) -> Seq<Seq<char>>
    decreases hs.len(),
{
    if hs.len() == 0 {
        seq![]
    } else {
        let p = names_with(hs.drop_last(), enabled);
        if hs.last().enabled == enabled {
            p.push(hs.last().name)
        } else {
            p
        }
    }
}

/// A mapping line with its aliases replaced; any other line as it is.
pub open spec fn set_hosts(l: LineModel, names: Seq<Seq<char>>) -> LineModel {
    match l {
        LineModel::Valid { ip, comment, enabled, .. } => LineModel::Valid {
            ip,
            hosts: names,
            comment,
            enabled,
        },
        _ => l,
    }
}

/// One address group written back: the line that `base` has for the key gets the names;
/// without such a line, a new one is appended if there are names.
pub open spec fn apply_group(
    cur: Seq<LineModel>,
    base: Seq<LineModel>,
    ip: Seq<char>,
    enabled: bool,
    names: Seq<Seq<char>>,
) -> Seq<LineModel> {
    let k = key_index(base, ip, enabled);
    if k >= 0 {
        cur.update(k, set_hosts(cur[k], names))
    } else if names.len() > 0 {
        cur.push(LineModel::Valid { ip, hosts: names, comment: None, enabled })
    } else {
        cur
    }
}

/// One entry written back: its enabled group, then its disabled group.
pub open spec fn apply_entry(cur: Seq<LineModel>, base: Seq<LineModel>, e: EntryModel) -> Seq<
    LineModel,
> {
    apply_group(
        apply_group(cur, base, e.ip, true, names_with(e.hosts, true)),
        base,
        e.ip,
        false,
        names_with(e.hosts, false),
    )
}

/// All entries written back, in order, into the collapsed store `base`.
pub open spec fn apply_entries(base: Seq<LineModel>, es: Seq<EntryModel>) -> Seq<LineModel>
    decreases es.len(),
{
    if es.len() == 0 {
        base
    } else {
        apply_entry(apply_entries(base, es.drop_last()), base, es.last())
    }
}

/// Whether some entry has address `ip`.
pub open spec fn listed(es: Seq<EntryModel>, ip: Seq<char>) -> bool {
    exists|i: int| 0 <= i < es.len() && #[trigger] es[i].ip == ip
}

/// Whether a line goes: a mapping line left without aliases, or whose address no entry has.
pub open spec fn dropped(l: LineModel, es: Seq<EntryModel>) -> bool {
    match l {
        LineModel::Valid { ip, hosts, .. } => hosts.len() == 0 || !listed(es, ip),
        _ => false,
    }
}

/// The store without the lines that go.
pub open spec fn prune(s: Seq<LineModel>, es: Seq<EntryModel>) -> Seq<LineModel>
    decreases s.len(),
{
    if s.len() == 0 {
        s
    } else {
        let p = prune(s.drop_last(), es);
        if dropped(s.last(), es) {
            p
        } else {
            p.push(s.last())
        }
    }
}

/// Each run of blank lines cut down to one.
pub open spec fn squeeze_blanks(s: Seq<LineModel>) -> Seq<LineModel>
    decreases s.len(),
{
    if s.len() == 0 {
        s
    } else {
        let p = squeeze_blanks(s.drop_last());
        if s.last() is Empty && s.len() >= 2 && s[s.len() - 2] is Empty {
            p
        } else {
            p.push(s.last())
        }
    }
}

/// A blank line added at the end of a store that does not end in one.
pub open spec fn end_blank(s: Seq<LineModel>) -> Seq<LineModel> {
    if s.len() > 0 && !(s.last() is Empty) {
        s.push(LineModel::Empty)
    } else {
        s
    }
}

/// The store after the entries `es` are written back into `s`.
pub open spec fn reconcile(s: Seq<LineModel>, es: Seq<EntryModel>) -> Seq<LineModel> {
    end_blank(squeeze_blanks(prune(apply_entries(collapse_keys(s), es), es)))
}

/// Whether a line has address `ip` and state `enabled`.
fn has_key(l: &Line, ip: &String, enabled: bool) -> (r: bool)
    ensures
        r == (key_of(l@) == Some((ip@, enabled))),
{
    match l {
        Line::Valid(v) => v.enabled == enabled && v.ip == *ip,
        _ => false,
    }
}

pub(crate) fn clone_lines(v: &Vec<Line>) -> (r: Vec<Line>)
    ensures
        lines_view(r@) == lines_view(v@),
        r@.len() == v@.len(),
{
    let mut r: Vec<Line> = Vec::new();
    let mut i: usize = 0;
    while i < v.len()
        invariant
            i <= v.len(),
            lines_view(r@) == lines_view(v@).take(i as int),
            r@.len() == i,
        decreases v.len() - i,
    {
        let ghost before = r@;
        r.push(v[i].clone());
        assert(lines_view(r@) == lines_view(before).push(v@[i as int]@));
        assert(lines_view(v@).take(i + 1) == lines_view(v@).take(i as int).push(v@[i as int]@));
        i += 1;
    }
    r
}

/// Drops every mapping line whose address and state an earlier line has.
fn collapse_lines(lines: &Vec<Line>) -> (r: Vec<Line>)
    ensures
        lines_view(r@) == collapse_keys(lines_view(lines@)),
{
    let ghost all = lines_view(lines@);
    let mut r: Vec<Line> = Vec::new();
    let mut i: usize = 0;
    while i < lines.len()
        invariant
            i <= lines.len(),
            all == lines_view(lines@),
            lines_view(r@) == collapse_keys(all.take(i as int)),
        decreases lines.len() - i,
    {
        let ghost pre = all.take(i as int);
        assert(all.take(i + 1).drop_last() == pre);
        assert(all.take(i + 1).last() == lines@[i as int]@);
        let mut repeat = false;
        if let Line::Valid(v) = &lines[i] {
            let mut j: usize = 0;
            while j < i
                invariant
                    j <= i < lines.len(),
                    all == lines_view(lines@),
                    pre == all.take(i as int),
                    key_of(lines@[i as int]@) == Some((v.ip@, v.enabled)),
                    repeat <==> exists|k: int|
                        0 <= k < j && key_of(#[trigger] pre[k]) == key_of(lines@[i as int]@),
                decreases i - j,
            {
                if has_key(&lines[j], &v.ip, v.enabled) {
                    repeat = true;
                }
                assert(pre[j as int] == lines@[j as int]@);
                j += 1;
            }
        }
        assert(repeat == is_repeat(pre, lines@[i as int]@));
        if !repeat {
            let ghost before = r@;
            r.push(lines[i].clone());
            assert(lines_view(r@) == lines_view(before).push(lines@[i as int]@));
        }
        i += 1;
    }
    assert(all.take(lines.len() as int) == all);
    r
}

/// The first line of `base` with address `ip` and state `enabled`.
fn find_key(base: &Vec<Line>, ip: &String, enabled: bool) -> (r: Option<usize>)
    ensures
        match r {
            Some(k) => k < base@.len() && key_index(lines_view(base@), ip@, enabled) == k,
            None => key_index(lines_view(base@), ip@, enabled) == -1,
        },
{
    let ghost s = lines_view(base@);
    let mut i: usize = 0;
    while i < base.len()
        invariant
            i <= base.len(),
            s == lines_view(base@),
            forall|j: int| 0 <= j < i ==> key_of(#[trigger] s[j]) != Some((ip@, enabled)),
        decreases base.len() - i,
    {
        if has_key(&base[i], ip, enabled) {
            proof {
                let k = key_index(s, ip@, enabled);
                assert(key_of(s[i as int]) == Some((ip@, enabled)));
                assert(k >= 0);
                if k < i {
                    assert(key_of(s[k]) != Some((ip@, enabled)));
                } else if k > i {
                    assert(key_of(s[i as int]) != Some((ip@, enabled)));
                }
            }
            return Some(i);
        }
        i += 1;
    }
    None
}

/// The names of the aliases in state `enabled`, in order.
fn names_in_state(hosts: &Vec<crate::item::Host>, enabled: bool) -> (r: Vec<String>)
    ensures
        strs_view(r@) == names_with(crate::item::hosts_view(hosts@), enabled),
{
    let ghost hs = crate::item::hosts_view(hosts@);
    let mut r: Vec<String> = Vec::new();
    let mut i: usize = 0;
    while i < hosts.len()
        invariant
            i <= hosts.len(),
            hs == crate::item::hosts_view(hosts@),
            strs_view(r@) == names_with(hs.take(i as int), enabled),
        decreases hosts.len() - i,
    {
        assert(hs.take(i + 1).drop_last() == hs.take(i as int));
        assert(hs.take(i + 1).last() == hosts@[i as int]@);
        if hosts[i].enabled == enabled {
            let ghost before = r@;
            r.push(hosts[i].name.clone());
            assert(strs_view(r@) == strs_view(before).push(hosts@[i as int].name@));
        }
        i += 1;
    }
    assert(hs.take(hosts.len() as int) == hs);
    r
}

/// Writes one address group back into `cur`.
fn write_group(cur: &mut Vec<Line>, base: &Vec<Line>, ip: &String, enabled: bool, names: Vec<String>)
    requires
        old(cur)@.len() >= base@.len(),
    ensures
        lines_view(final(cur)@) == apply_group(
            lines_view(old(cur)@),
            lines_view(base@),
            ip@,
            enabled,
            strs_view(names@),
        ),
        final(cur)@.len() >= old(cur)@.len(),
{
    match find_key(base, ip, enabled) {
        Some(k) => {
            let updated = match &cur[k] {
                Line::Valid(v) => Line::Valid(
                    ValidLine {
                        ip: v.ip.clone(),
                        hosts: names,
                        comment: match &v.comment {
                            Some(c) => Some(c.clone()),
                            None => None,
                        },
                        enabled: v.enabled,
                    },
                ),
                other => other.clone(),
            };
            let ghost before = cur@;
            cur.set(k, updated);
            assert(lines_view(cur@) == lines_view(before).update(k as int, updated@));
        },
        None => {
            if names.len() > 0 {
                let ghost before = cur@;
                let line = Line::Valid(
                    ValidLine { ip: ip.clone(), hosts: names, comment: None, enabled },
                );
                cur.push(line);
                assert(lines_view(cur@) == lines_view(before).push(line@));
            }
        },
    }
}

/// Whether some entry has address `ip`.
fn is_listed(list: &Vec<Item>, ip: &String) -> (r: bool)
    ensures
        r == listed(items_view(list@), ip@),
{
    let ghost es = items_view(list@);
    let mut i: usize = 0;
    while i < list.len()
        invariant
            i <= list.len(),
            es == items_view(list@),
            forall|j: int| 0 <= j < i ==> (#[trigger] es[j]).ip != ip@,
        decreases list.len() - i,
    {
        if list[i].ip == *ip {
            assert(es[i as int].ip == ip@);
            return true;
        }
        i += 1;
    }
    false
}

/// Drops mapping lines left without aliases or whose address no entry has.
fn prune_lines(lines: Vec<Line>, list: &Vec<Item>) -> (r: Vec<Line>)
    ensures
        lines_view(r@) == prune(lines_view(lines@), items_view(list@)),
{
    let ghost all = lines_view(lines@);
    let ghost es = items_view(list@);
    let mut r: Vec<Line> = Vec::new();
    for l in it: lines
        invariant
            all == lines_view(it.seq()),
            es == items_view(list@),
            lines_view(r@) == prune(all.take(it.index() as int), es),
    {
        let ghost i = it.index();
        assert(l@ == all[i]);
        assert(all.take(i + 1).drop_last() == all.take(i));
        let drop = match &l {
            Line::Valid(v) => v.hosts.len() == 0 || !is_listed(list, &v.ip),
            _ => false,
        };
        if !drop {
            let ghost before = r@;
            r.push(l);
            assert(lines_view(r@) == lines_view(before).push(all[i]));
        }
    }
    assert(all.take(all.len() as int) == all);
    r
}

/// Cuts each run of blank lines down to one, then ends a non-empty store with a blank line.
fn squeeze_lines(lines: Vec<Line>) -> (r: Vec<Line>)
    ensures
        lines_view(r@) == end_blank(squeeze_blanks(lines_view(lines@))),
{
    let ghost all = lines_view(lines@);
    let mut r: Vec<Line> = Vec::new();
    let mut prev_empty = false;
    for l in it: lines
        invariant
            all == lines_view(it.seq()),
            prev_empty <==> (it.index() > 0 && all[it.index() - 1] is Empty),
            lines_view(r@) == squeeze_blanks(all.take(it.index() as int)),
    {
        let ghost i = it.index();
        assert(l@ == all[i]);
        assert(all.take(i + 1).drop_last() == all.take(i));
        let is_empty = match &l {
            Line::Empty => true,
            _ => false,
        };
        if !(is_empty && prev_empty) {
            let ghost before = r@;
            r.push(l);
            assert(lines_view(r@) == lines_view(before).push(all[i]));
        }
        prev_empty = is_empty;
    }
    assert(all.take(all.len() as int) == all);
    let ends_blank = r.len() > 0 && match &r[r.len() - 1] {
        Line::Empty => true,
        _ => false,
    };
    if r.len() > 0 && !ends_blank {
        let ghost before = r@;
        r.push(Line::Empty);
        assert(lines_view(r@) == lines_view(before).push(LineModel::Empty));
    }
    r
}

/// Writes the edited entries back into the store: lines repeating an earlier line's
/// address and state are dropped, each entry's enabled and disabled aliases replace
/// those of its lines (new lines go at the end), lines without aliases or whose address
/// no entry has are removed, and blank runs are cut down to one with a blank line last.
pub fn new_lines_by_list(lines: &Vec<Line>, list: &Vec<Item>) -> (r: Vec<Line>)
    ensures
        lines_view(r@) == reconcile(lines_view(lines@), items_view(list@)),
{
    let base = collapse_lines(lines);
    let ghost b = lines_view(base@);
    let ghost es = items_view(list@);
    let mut cur = clone_lines(&base);
    let mut i: usize = 0;
    while i < list.len()
        invariant
            i <= list.len(),
            b == lines_view(base@),
            es == items_view(list@),
            cur@.len() >= base@.len(),
            lines_view(cur@) == apply_entries(b, es.take(i as int)),
        decreases list.len() - i,
    {
        assert(es.take(i + 1).drop_last() == es.take(i as int));
        assert(es.take(i + 1).last() == list@[i as int]@);
        let item = &list[i];
        let enabled_names = names_in_state(&item.hosts, true);
        let disabled_names = names_in_state(&item.hosts, false);
        write_group(&mut cur, &base, &item.ip, true, enabled_names);
        write_group(&mut cur, &base, &item.ip, false, disabled_names);
        i += 1;
    }
    assert(es.take(list.len() as int) == es);
    let kept = prune_lines(cur, list);
    squeeze_lines(kept)
}

} // verus!
