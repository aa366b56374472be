//! A single-line reader that yields an address and its set of aliases, comments cut off.
use indexmap::IndexSet;
use vstd::prelude::*;
use crate::addr::{ip_literal, is_ip};
use crate::project::{addr_index_get, addr_index_insert, addr_positions, new_addr_index};
use crate::text::{
    chars_of, find, find_in, is_space, is_space_char, line_ranges, raw_lines,
    string_from, strs_view, trim, trim_range, words, words_in,
};

verus! {

#[verifier::external_type_specification]
#[verifier::external_body]
#[verifier::reject_recursive_types(T)]
#[verifier::reject_recursive_types(S)]
pub struct ExIndexSet<T, S>(IndexSet<T, S>);

/// Alias names, each once, in order of insertion.
pub type NameSet = IndexSet<String>;

/// What a name set holds, in order of insertion.
pub uninterp spec fn set_names(s: NameSet) -> Seq<Seq<char>>;

/// Relies on `IndexSet::new`: a new set holds nothing.
#[verifier::external_body]
fn new_name_set() -> (r: NameSet)
    ensures
        set_names(r).len() == 0,
{
    IndexSet::new()
}

/// Relies on `IndexSet::insert`: an item equal to one in the set is not added and
/// `false` comes back; any other goes last and `true` comes back.
#[verifier::external_body]
fn name_set_insert(s: &mut NameSet, v: String) -> (r: bool)
    ensures
        r == !set_names(*old(s)).contains(v@),
        set_names(*final(s)) == if set_names(*old(s)).contains(v@) {
            set_names(*old(s))
        } else {
            set_names(*old(s)).push(v@)
        },
{
    s.insert(v)
}

/// Relies on `IndexSet::into_iter`: the items come out in order of insertion.
#[verifier::external_body]
fn name_set_into_vec(s: NameSet) -> (r: Vec<String>)
    ensures
        strs_view(r@) == set_names(s),
{
    s.into_iter().collect()
}

/// The first position of a whitespace character in `s`, or -1.
pub open spec fn find_space(s: Seq<char>) -> int
    decreases s.len(),
{
    if s.len() == 0 {
        -1
    } else {
        let f = find_space(s.drop_last());
        if f >= 0 {
            f
        } else if is_space(s.last()) {
            s.len() - 1
        } else {
            -1
        }
    }
}

/// `d` with each of `ws` added at the end unless already there, in order.
pub open spec fn insert_all(d: Seq<Seq<char>>, ws: Seq<Seq<char>>) -> Seq<Seq<char>>
    decreases ws.len(),
{
    if ws.len() == 0 {
        d
    } else {
        let p = insert_all(d, ws.drop_last());
        if p.contains(ws.last()) {
            p
        } else {
            p.push(ws.last())
        }
    }
}

/// The words with later repeats left out.
pub open spec fn distinct_words(ws: Seq<Seq<char>>) -> Seq<Seq<char>> {
    insert_all(seq![], ws)
}

/// The line up to its first `#`, trimmed.
pub open spec fn strip_comment_spec(s: Seq<char>) -> Seq<char> {
    let k = find(s, '#');
    trim(if k >= 0 { s.take(k) } else { s })
}

/// The address and aliases that a line reads as: the text before the first whitespace
/// must be an address, and the words after it are the aliases; or the whole text is an
/// address without aliases.
pub open spec fn ip_hosts_spec(line: Seq<char>) -> Option<(Seq<char>, Seq<Seq<char>>)> {
    let t = strip_comment_spec(line);
    let w = find_space(t);
    if w >= 0 && ip_literal(t.take(w)) {
        Some((t.take(w), distinct_words(words(t.skip(w + 1)))))
    } else if ip_literal(t) {
        Some((t, seq![]))
    } else {
        None
    }
}

pub proof fn lemma_find_space_prefix(s: Seq<char>, n: int)
    requires
        0 <= n <= s.len(),
        find_space(s.subrange(0, n)) >= 0,
    ensures
        find_space(s) == find_space(s.subrange(0, n)),
    decreases s.len() - n,
{
    if n < s.len() {
        assert(s.subrange(0, n + 1).drop_last() == s.subrange(0, n));
        lemma_find_space_prefix(s, n + 1);
    } else {
        assert(s.subrange(0, n) == s);
    }
}

/// The first whitespace position in `buf[from..to]`, counted from `from`.
fn find_space_in(buf: &Vec<char>, from: usize, to: usize) -> (r: Option<usize>)
    requires
        from <= to <= buf@.len(),
    ensures
        match r {
            Some(k) => find_space(buf@.subrange(from as int, to as int)) == k as int && from + k < to,
            None => find_space(buf@.subrange(from as int, to as int)) == -1,
        },
{
    let mut i = from;
    while i < to
        invariant
            from <= i <= to <= buf@.len(),
            find_space(buf@.subrange(from as int, i as int)) == -1,
        decreases to - i,
    {
        assert(buf@.subrange(from as int, i + 1).drop_last() == buf@.subrange(from as int, i as int));
        if is_space_char(buf[i]) {
            proof {
                lemma_find_space_prefix(buf@.subrange(from as int, to as int), (i - from) as int + 1);
                assert(buf@.subrange(from as int, to as int).subrange(0, (i - from) as int + 1)
                    == buf@.subrange(from as int, i + 1));
            }
            return Some(i - from);
        }
        i += 1;
    }
    None
}

/// The bounds of the text before the first `#`, trimmed.
fn strip_comment_range(buf: &Vec<char>) -> (r: (usize, usize))
    ensures
        r.0 <= r.1 <= buf@.len(),
        buf@.subrange(r.0 as int, r.1 as int) == strip_comment_spec(buf@),
{
    let n = buf.len();
    assert(buf@.subrange(0, n as int) == buf@);
    let end = match find_in(buf, 0, n, '#') {
        Some(k) => {
            assert(buf@.take(k as int) == buf@.subrange(0, k as int));
            k
        },
        None => n,
    };
    trim_range(buf, 0, end)
}

/// The line up to its first `#`, trimmed.
pub fn strip_comment(s: &str) -> (r: String)
    ensures
        r@ == strip_comment_spec(s@),
{
    let buf = chars_of(s);
    let (a, b) = strip_comment_range(&buf);
    string_from(&buf, a, b)
}

/// An address with the set of its aliases.
#[derive(Debug, PartialEq, Eq)]
pub struct IpHosts {
    pub ip: String,
    pub hosts: NameSet,
}

impl IpHosts {
    /// Reads a line as an address and its aliases; `None` when it does not start with an
    /// address.
    pub fn parse(line: &str) -> (r: Option<IpHosts>)
        ensures
            match ip_hosts_spec(line@) {
                Some((ip, hosts)) => r matches Some(v) && v.ip@ == ip && set_names(v.hosts) == hosts,
                None => r is None,
            },
    {
        let buf = chars_of(line);
        let (a, b) = strip_comment_range(&buf);
        let ghost t = buf@.subrange(a as int, b as int);
        if let Some(w) = find_space_in(&buf, a, b) {
            let ip = string_from(&buf, a, a + w);
            assert(ip@ == t.take(w as int));
            if is_ip(ip.as_str()) {
                let ws = words_in(&buf, a + w + 1, b);
                assert(buf@.subrange((a + w + 1) as int, b as int) == t.skip(w + 1));
                let ghost all = strs_view(ws@);
                let mut hosts = new_name_set();
                let mut i: usize = 0;
                while i < ws.len()
                    invariant
                        i <= ws.len(),
                        all == strs_view(ws@),
                        set_names(hosts) == distinct_words(all.take(i as int)),
                    decreases ws.len() - i,
                {
                    assert(all.take(i + 1).drop_last() == all.take(i as int));
                    name_set_insert(&mut hosts, ws[i].clone());
                    i += 1;
                }
                assert(all.take(ws.len() as int) == all);
                return Some(IpHosts { ip, hosts });
            }
        }
        let whole = string_from(&buf, a, b);
        if is_ip(whole.as_str()) {
            let hosts = new_name_set();
            assert(set_names(hosts) == Seq::<Seq<char>>::empty());
            Some(IpHosts { ip: whole, hosts })
        } else {
            None
        }
    }
}

/// The position of the first pair for `ip`, or -1.
pub open spec fn pair_index(ps: Seq<(Seq<char>, Seq<Seq<char>>)>, ip: Seq<char>) -> int {
    if exists|k: int| 0 <= k < ps.len() && ps[k].0 == ip && forall|j: int| 0 <= j < k ==> ps[j].0 != ip {
        choose|k: int| 0 <= k < ps.len() && ps[k].0 == ip && forall|j: int| 0 <= j < k ==> ps[j].0 != ip
    } else {
        -1
    }
}

/// What the reader makes of the lines of a text: each line that, trimmed, is no comment
/// and reads as an address with aliases adds them to those of its address, or starts a
/// new address at the end.
pub open spec fn ip_hosts_fold(lines: Seq<Seq<char>>) -> Seq<(Seq<char>, Seq<Seq<char>>)>
    decreases lines.len(),
{
    if lines.len() == 0 {
        seq![]
    } else {
        let p = ip_hosts_fold(lines.drop_last());
        let t = trim(lines.last());
        if t.len() > 0 && t[0] == '#' {
            p
        } else {
            match ip_hosts_spec(t) {
                Some((ip, hosts)) => {
                    let k = pair_index(p, ip);
                    if k >= 0 {
                        p.update(k, (ip, insert_all(p[k].1, hosts)))
                    } else {
                        p.push((ip, hosts))
                    }
                },
                None => p,
            }
        }
    }
}

pub open spec fn ip_hosts_view(v: Seq<IpHosts>) -> Seq<(Seq<char>, Seq<Seq<char>>)> {
    v.map_values(|x: IpHosts| (x.ip@, set_names(x.hosts)))
}

pub proof fn lemma_pair_index(ps: Seq<(Seq<char>, Seq<Seq<char>>)>, ip: Seq<char>, k: int)
    requires
        forall|a: int, b: int| 0 <= a < b < ps.len() ==> #[trigger] ps[a].0 != #[trigger] ps[b].0,
        -1 <= k < ps.len(),
        k >= 0 ==> ps[k].0 == ip,
        k == -1 ==> forall|j: int| 0 <= j < ps.len() ==> ps[j].0 != ip,
    ensures
        pair_index(ps, ip) == k,
{
    if k >= 0 {
        assert(forall|j: int| 0 <= j < k ==> ps[j].0 != ip);
        let c = pair_index(ps, ip);
        if c != k {
            assert(ps[c].0 == ip);
        }
    }
}

/// The addresses of a text with their aliases, one per address in order of first
/// appearance; comment lines and lines without an address are passed over.
pub fn ip_hosts_of(content: &str) -> (r: Vec<IpHosts>)
    ensures
        ip_hosts_view(r@) == ip_hosts_fold(raw_lines(content@)),
{
    let buf = chars_of(content);
    let ranges = line_ranges(&buf);
    let ghost raw = raw_lines(buf@);
    let mut items: Vec<IpHosts> = Vec::new();
    let mut index = new_addr_index();
    let mut i: usize = 0;
    while i < ranges.len()
        invariant
            i <= ranges.len() == raw.len(),
            raw == raw_lines(buf@),
            forall|q: int| 0 <= q < ranges@.len() ==> (#[trigger] ranges@[q]).0 <= ranges@[q].1 <= buf@.len(),
            forall|q: int|
                0 <= q < ranges@.len() ==> buf@.subrange(ranges@[q].0 as int, ranges@[q].1 as int)
                    == #[trigger] raw[q],
            ip_hosts_view(items@) == ip_hosts_fold(raw.take(i as int)),
            forall|a: int, b: int|
                0 <= a < b < items@.len() ==> #[trigger] items@[a].ip@ != #[trigger] items@[b].ip@,
            forall|ip: Seq<char>| #[trigger]
                addr_positions(index).contains_key(ip) <==> exists|k: int|
                    0 <= k < items@.len() && #[trigger] items@[k].ip@ == ip,
            forall|ip: Seq<char>| #[trigger]
                addr_positions(index).contains_key(ip) ==> addr_positions(index)[ip]
                    < items@.len() && items@[addr_positions(index)[ip] as int].ip@ == ip,
        decreases ranges.len() - i,
    {
        let ghost ps = ip_hosts_view(items@);
        assert(raw.take(i + 1).drop_last() == raw.take(i as int));
        assert(raw.take(i + 1).last() == raw[i as int]);
        let (lo, hi) = ranges[i];
        let (a, b) = trim_range(&buf, lo, hi);
        if a < b && buf[a] == '#' {
            i += 1;
            continue;
        }
        let line = string_from(&buf, a, b);
        if let Some(found) = IpHosts::parse(line.as_str()) {
            let IpHosts { ip, hosts } = found;
            match addr_index_get(&index, &ip) {
                Some(k) => {
                    proof {
                        lemma_pair_index(ps, ip@, k as int);
                    }
                    let names = name_set_into_vec(hosts);
                    let ghost before = set_names(items@[k as int].hosts);
                    let ghost items0 = items@;
                    let ghost nv = strs_view(names@);
                    let mut m: usize = 0;
                    while m < names.len()
                        invariant
                            m <= names.len(),
                            k < items@.len(),
                            nv == strs_view(names@),
                            set_names(items@[k as int].hosts) == insert_all(before, nv.take(m as int)),
                            items@.len() == items0.len(),
                            items@[k as int].ip == items0[k as int].ip,
                            forall|q: int| 0 <= q < items@.len() && q != k ==> items@[q] == items0[q],
                        decreases names.len() - m,
                    {
                        assert(nv.take(m + 1).drop_last() == nv.take(m as int));
                        name_set_insert(&mut items[k].hosts, names[m].clone());
                        m += 1;
                    }
                    assert(nv.take(names.len() as int) == nv);
                    proof {
                        assert(ip_hosts_view(items@) == ps.update(
                            k as int,
                            (ip@, insert_all(ps[k as int].1, nv)),
                        ));
                        assert forall|q: Seq<char>| #[trigger]
                            addr_positions(index).contains_key(q) <==> exists|j: int|
                                0 <= j < items@.len() && #[trigger] items@[j].ip@ == q by {
                            if addr_positions(index).contains_key(q) {
                                let j = addr_positions(index)[q] as int;
                                assert(items0[j].ip@ == q);
                                assert(items@[j].ip@ == q);
                            }
                            if exists|j: int| 0 <= j < items@.len() && #[trigger] items@[j].ip@ == q {
                                let j = choose|j: int| 0 <= j < items@.len() && #[trigger] items@[j].ip@ == q;
                                assert(items0[j].ip@ == q);
                            }
                        }
                        assert forall|a: int, b: int|
                            0 <= a < b < items@.len() implies #[trigger] items@[a].ip@ != #[trigger] items@[b].ip@ by {
                            assert(items0[a].ip@ != items0[b].ip@);
                        }
                        assert forall|q: Seq<char>| #[trigger]
                            addr_positions(index).contains_key(q) implies addr_positions(index)[q]
                                < items@.len() && items@[addr_positions(index)[q] as int].ip@ == q by {
                            let j = addr_positions(index)[q] as int;
                            assert(items0[j].ip@ == q);
                        }
                    }
                },
                None => {
                    proof {
                        assert forall|j: int| 0 <= j < ps.len() implies ps[j].0 != ip@ by {
                            if ps[j].0 == ip@ {
                                assert(items@[j].ip@ == ip@);
                            }
                        }
                        lemma_pair_index(ps, ip@, -1);
                    }
                    let k = items.len();
                    let ghost old_pos = addr_positions(index);
                    let ghost old_items = items@;
                    let key = ip.clone();
                    items.push(IpHosts { ip, hosts });
                    addr_index_insert(&mut index, key, k);
                    proof {
                        assert(ip_hosts_view(items@) == ps.push((key@, set_names(items@[k as int].hosts))));
                        assert forall|q: Seq<char>| #[trigger]
                            addr_positions(index).contains_key(q) <==> exists|j: int|
                                0 <= j < items@.len() && #[trigger] items@[j].ip@ == q by {
                            if q == key@ {
                                assert(items@[k as int].ip@ == q);
                            } else {
                                if old_pos.contains_key(q) {
                                    let j = old_pos[q] as int;
                                    assert(old_items[j].ip@ == q);
                                    assert(items@[j] == old_items[j]);
                                }
                                if exists|j: int| 0 <= j < items@.len() && #[trigger] items@[j].ip@ == q {
                                    let j = choose|j: int| 0 <= j < items@.len() && #[trigger] items@[j].ip@ == q;
                                    assert(j < k);
                                    assert(old_items[j].ip@ == q);
                                }
                            }
                        }
                    }
                },
            }
        }
        i += 1;
    }
    assert(raw.take(ranges.len() as int) == raw);
    items
}

impl core::str::FromStr for IpHosts {
    type Err = ();

    fn from_str(line: &str) -> Result<IpHosts, ()> {
        match IpHosts::parse(line) {
            Some(v) => Ok(v),
            None => Err(()),
        }
    }
}

} // verus!
