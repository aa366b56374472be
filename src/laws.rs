//! Properties that relate the parser, the serializer, the projector and the reconciler.
use vstd::prelude::*;
use crate::item::{
    dedup_models, has_name, lemma_dedup_unique, name_models, unique_names, EntryModel, HostModel,
};
use crate::line::{parse_spec, parse_text, render, serialize, LineModel};
use crate::project::{distinct_ips, entry_index, lemma_entry_index, project};
use crate::reconcile::{
    apply_entries, apply_group, collapse_keys, dropped, end_blank, is_repeat,
    key_index, key_of, listed, names_with, prune, reconcile, set_hosts, squeeze_blanks,
};
use crate::text::{join, pieces, raw_lines};

verus! {

/// Joining the pieces of a text with line feeds gives the text back.
pub proof fn lemma_join_pieces(s: Seq<char>)
    ensures
        join(pieces(s), seq!['\n']) == s,
        pieces(s).len() >= 1,
        s.len() > 0 && s.last() != '\n' ==> pieces(s).last().len() > 0,
    decreases s.len(),
{
    if s.len() == 0 {
        assert(join(pieces(s), seq!['\n']) == Seq::<char>::empty());
    } else {
        let p = pieces(s.drop_last());
        lemma_join_pieces(s.drop_last());
        let c = s.last();
        if c == '\n' {
            assert(p.push(seq![]).drop_last() == p);
            assert(join(p.push(seq![]), seq!['\n']) == s.drop_last() + seq!['\n'] + seq![]);
            assert(s.drop_last() + seq!['\n'] + Seq::<char>::empty() == s);
        } else {
            let q = p.update(p.len() - 1, p.last().push(c));
            if p.len() == 1 {
                assert(join(q, seq!['\n']) == p[0].push(c));
                assert(s.drop_last().push(c) == s);
            } else {
                assert(q.drop_last() == p.drop_last());
                assert(join(q, seq!['\n']) == join(p.drop_last(), seq!['\n']) + seq!['\n']
                    + p.last().push(c));
                assert(join(p, seq!['\n']) == join(p.drop_last(), seq!['\n']) + seq!['\n']
                    + p.last());
                assert(join(p.drop_last(), seq!['\n']) + seq!['\n'] + p.last().push(c) == (join(
                    p.drop_last(),
                    seq!['\n'],
                ) + seq!['\n'] + p.last()).push(c));
                assert(s.drop_last().push(c) == s);
            }
            assert(q.last() == p.last().push(c));
        }
    }
}

/// Round trip: a text each of whose lines already reads as the serializer writes that
/// line, and which does not end in a line feed, is given back unchanged by parsing it and
/// serializing the result with `"\n"` line endings.
pub proof fn law_round_trip(text: Seq<char>)
    requires
        forall|i: int|
            0 <= i < raw_lines(text).len() ==> render(parse_spec(#[trigger] raw_lines(text)[i]))
                == raw_lines(text)[i],
        text.len() == 0 || text.last() != '\n',
    ensures
        serialize(parse_text(text), false) == text,
{
    lemma_join_pieces(text);
    let raw = raw_lines(text);
    let rendered = parse_text(text).map_values(|l: LineModel| render(l));
    assert(rendered =~= raw);
    if text.len() == 0 {
        assert(raw.len() == 0);
        assert(join(raw, seq!['\n']) == text);
    } else {
        assert(raw == pieces(text));
    }
}

/// No two mapping lines share an address and a state.
pub open spec fn unique_keys(s: Seq<LineModel>) -> bool {
    forall|i: int, j: int|
        0 <= i < j < s.len() && key_of(s[i]) is Some ==> key_of(#[trigger] s[i]) != key_of(
            #[trigger] s[j],
        )
}

/// Whether some line has address `ip` and state `enabled`.
pub open spec fn has_key(s: Seq<LineModel>, ip: Seq<char>, enabled: bool) -> bool {
    exists|k: int| 0 <= k < s.len() && key_of(#[trigger] s[k]) == Some((ip, enabled))
}

/// The names in state `enabled` of the entry for `ip`.
pub open spec fn group_names(es: Seq<EntryModel>, ip: Seq<char>, enabled: bool) -> Seq<Seq<char>> {
    names_with(es[entry_index(es, ip)].hosts, enabled)
}

/// A mapping line holds exactly the names of its group, and there are some.
pub open spec fn line_settled(l: LineModel, es: Seq<EntryModel>) -> bool {
    match l {
        LineModel::Valid { ip, hosts, enabled, .. } => listed(es, ip) && hosts.len() > 0 && hosts
            == group_names(es, ip, enabled),
        _ => true,
    }
}

/// Every group with names has a line.
pub open spec fn complete(s: Seq<LineModel>, es: Seq<EntryModel>) -> bool {
    forall|i: int, en: bool|
        0 <= i < es.len() && (#[trigger] names_with(es[i].hosts, en)).len() > 0 ==> has_key(
            s,
            es[i].ip,
            en,
        )
}

/// No blank line follows a blank line, and a non-empty store ends in one.
pub open spec fn blanks_settled(s: Seq<LineModel>) -> bool {
    &&& forall|i: int| 0 < i < s.len() && (#[trigger] s[i]) is Empty ==> !(s[i - 1] is Empty)
    &&& (s.len() == 0 || s.last() is Empty)
}

/// A store that already says what the entries say.
pub open spec fn settled(s: Seq<LineModel>, es: Seq<EntryModel>) -> bool {
    &&& unique_keys(s)
    &&& forall|i: int| 0 <= i < s.len() ==> line_settled(#[trigger] s[i], es)
    &&& complete(s, es)
    &&& blanks_settled(s)
}

pub proof fn lemma_key_index_found(s: Seq<LineModel>, ip: Seq<char>, en: bool)
    requires
        key_index(s, ip, en) >= 0,
    ensures
        0 <= key_index(s, ip, en) < s.len(),
        key_of(s[key_index(s, ip, en)]) == Some((ip, en)),
{
}

pub proof fn lemma_key_index_first(s: Seq<LineModel>, ip: Seq<char>, en: bool, k: int)
    requires
        0 <= k < s.len(),
        key_of(s[k]) == Some((ip, en)),
    ensures
        key_index(s, ip, en) >= 0,
    decreases k,
{
    if exists|j: int| 0 <= j < k && key_of(s[j]) == Some((ip, en)) {
        let j = choose|j: int| 0 <= j < k && key_of(s[j]) == Some((ip, en));
        lemma_key_index_first(s, ip, en, j);
    } else {
        assert(forall|j: int| 0 <= j < k ==> key_of(s[j]) != Some((ip, en)));
    }
}

pub proof fn lemma_collapse_unique_id(s: Seq<LineModel>)
    requires
        unique_keys(s),
    ensures
        collapse_keys(s) == s,
    decreases s.len(),
{
    if s.len() > 0 {
        let p = s.drop_last();
        assert(unique_keys(p)) by {
            assert forall|i: int, j: int|
                0 <= i < j < p.len() && key_of(p[i]) is Some implies key_of(#[trigger] p[i])
                != key_of(#[trigger] p[j]) by {
                assert(key_of(s[i]) != key_of(s[j]));
            }
        }
        lemma_collapse_unique_id(p);
        if is_repeat(p, s.last()) {
            let j = choose|j: int| 0 <= j < p.len() && key_of(#[trigger] p[j]) == key_of(s.last());
            assert(key_of(s[j]) != key_of(s[s.len() - 1]));
        }
        assert(p.push(s.last()) == s);
    }
}

pub proof fn lemma_prune_id(s: Seq<LineModel>, es: Seq<EntryModel>)
    requires
        forall|i: int| 0 <= i < s.len() ==> !dropped(#[trigger] s[i], es),
    ensures
        prune(s, es) == s,
    decreases s.len(),
{
    if s.len() > 0 {
        let p = s.drop_last();
        assert forall|i: int| 0 <= i < p.len() implies !dropped(#[trigger] p[i], es) by {
            assert(p[i] == s[i]);
        }
        lemma_prune_id(p, es);
        assert(!dropped(s[s.len() - 1], es));
        assert(p.push(s.last()) == s);
    }
}

pub proof fn lemma_squeeze_id(s: Seq<LineModel>)
    requires
        forall|i: int| 0 < i < s.len() && (#[trigger] s[i]) is Empty ==> !(s[i - 1] is Empty),
    ensures
        squeeze_blanks(s) == s,
    decreases s.len(),
{
    if s.len() > 0 {
        let p = s.drop_last();
        assert forall|i: int| 0 < i < p.len() && (#[trigger] p[i]) is Empty implies !(p[i
            - 1] is Empty) by {
            assert(p[i] == s[i]);
            assert(p[i - 1] == s[i - 1]);
        }
        lemma_squeeze_id(p);
        if s.last() is Empty && s.len() >= 2 {
            assert(s[s.len() - 1] is Empty);
        }
        assert(p.push(s.last()) == s);
    }
}

pub proof fn lemma_apply_settled(r: Seq<LineModel>, es: Seq<EntryModel>, i: int)
    requires
        settled(r, es),
        distinct_ips(es),
        0 <= i <= es.len(),
    ensures
        apply_entries(r, es.take(i)) == r,
    decreases i,
{
    if i > 0 {
        lemma_apply_settled(r, es, i - 1);
        let t = es.take(i);
        assert(t.drop_last() == es.take(i - 1));
        let e = es[i - 1];
        assert(t.last() == e);
        lemma_entry_index(es, e.ip, i - 1);
        lemma_group_fixed(r, es, i - 1, true);
        let r1 = apply_group(r, r, e.ip, true, names_with(e.hosts, true));
        assert(r1 == r);
        lemma_group_fixed(r, es, i - 1, false);
    }
}

pub proof fn lemma_group_fixed(r: Seq<LineModel>, es: Seq<EntryModel>, i: int, en: bool)
    requires
        settled(r, es),
        distinct_ips(es),
        0 <= i < es.len(),
        entry_index(es, es[i].ip) == i,
    ensures
        apply_group(r, r, es[i].ip, en, names_with(es[i].hosts, en)) == r,
{
    let e = es[i];
    let n = names_with(e.hosts, en);
    let k = key_index(r, e.ip, en);
    if k >= 0 {
        lemma_key_index_found(r, e.ip, en);
        assert(line_settled(r[k], es));
        assert(set_hosts(r[k], n) == r[k]);
        assert(r.update(k, r[k]) == r);
    } else if n.len() > 0 {
        assert(has_key(r, e.ip, en));
        let j = choose|j: int| 0 <= j < r.len() && key_of(#[trigger] r[j]) == Some((e.ip, en));
        lemma_key_index_first(r, e.ip, en, j);
    }
}

/// A settled store is left as it is by writing the same entries back again.
pub proof fn lemma_settled_fixed(r: Seq<LineModel>, es: Seq<EntryModel>)
    requires
        settled(r, es),
        distinct_ips(es),
    ensures
        reconcile(r, es) == r,
{
    lemma_collapse_unique_id(r);
    lemma_apply_settled(r, es, es.len() as int);
    assert(es.take(es.len() as int) == es);
    assert forall|i: int| 0 <= i < r.len() implies !dropped(#[trigger] r[i], es) by {
        assert(line_settled(r[i], es));
    }
    lemma_prune_id(r, es);
    lemma_squeeze_id(r);
}

/// The names written back so far for each address and state, if any.
pub type Done = spec_fn(Seq<char>, bool) -> Option<Seq<Seq<char>>>;

/// A line appended by the write-back: a new mapping line for a group with names that the
/// collapsed store had no line for.
pub open spec fn appended_ok(l: LineModel, base: Seq<LineModel>, d: Done) -> bool {
    match l {
        LineModel::Valid { ip, hosts, comment, enabled } => comment is None && d(ip, enabled)
            == Some(hosts) && hosts.len() > 0 && !has_key(base, ip, enabled),
        _ => false,
    }
}

/// What the lines of `base` become once the groups in `d` are written back.
pub open spec fn written(l: LineModel, d: Done) -> LineModel {
    match key_of(l) {
        Some(key) => match d(key.0, key.1) {
            Some(n) => set_hosts(l, n),
            None => l,
        },
        None => l,
    }
}

/// The store `w` is `base` with the groups in `d` written back.
pub open spec fn char_w(w: Seq<LineModel>, base: Seq<LineModel>, d: Done) -> bool {
    &&& w.len() >= base.len()
    &&& forall|k: int| 0 <= k < base.len() ==> #[trigger] w[k] == written(base[k], d)
    &&& forall|k: int| base.len() <= k < w.len() ==> appended_ok(#[trigger] w[k], base, d)
    &&& unique_keys(w)
    &&& forall|ip: Seq<char>, en: bool|
        #![trigger d(ip, en)]
        (d(ip, en) matches Some(n) && n.len() > 0) ==> has_key(w, ip, en)
}

/// The groups of the entries `t`.
pub open spec fn done_of(t: Seq<EntryModel>) -> Done {
    |a: Seq<char>, b: bool| if listed(t, a) { Some(group_names(t, a, b)) } else { None }
}

pub proof fn lemma_no_key(s: Seq<LineModel>, ip: Seq<char>, en: bool)
    requires
        key_index(s, ip, en) < 0,
    ensures
        !has_key(s, ip, en),
{
    if has_key(s, ip, en) {
        let j = choose|j: int| 0 <= j < s.len() && key_of(#[trigger] s[j]) == Some((ip, en));
        lemma_key_index_first(s, ip, en, j);
    }
}

/// Writing one group back keeps the characterization, with the group now done.
pub proof fn lemma_group_step(
    w: Seq<LineModel>,
    base: Seq<LineModel>,
    d: Done,
    ip: Seq<char>,
    en: bool,
    n: Seq<Seq<char>>,
)
    requires
        unique_keys(base),
        char_w(w, base, d),
        d(ip, en) is None,
    ensures
        char_w(
            apply_group(w, base, ip, en, n),
            base,
            |a: Seq<char>, b: bool| if a == ip && b == en { Some(n) } else { d(a, b) },
        ),
{
    let d2: Done = |a: Seq<char>, b: bool| if a == ip && b == en { Some(n) } else { d(a, b) };
    let w2 = apply_group(w, base, ip, en, n);
    let k0 = key_index(base, ip, en);
    if k0 >= 0 {
        lemma_key_index_found(base, ip, en);
        assert(w[k0] == base[k0]);
        assert forall|k: int| 0 <= k < base.len() implies #[trigger] w2[k] == written(base[k], d2) by {
            if k != k0 {
                if key_of(base[k]) == Some((ip, en)) {
                    assert(key_of(base[k]) != key_of(base[k0]) || key_of(base[k0]) != key_of(base[k]));
                }
            }
        }
        assert forall|k: int| base.len() <= k < w2.len() implies appended_ok(#[trigger] w2[k], base, d2) by {
            assert(w2[k] == w[k]);
            assert(appended_ok(w[k], base, d));
        }
        assert forall|i: int, j: int|
            0 <= i < j < w2.len() && key_of(w2[i]) is Some implies key_of(#[trigger] w2[i]) != key_of(
            #[trigger] w2[j]) by {
            assert(key_of(w2[i]) == key_of(w[i]));
            assert(key_of(w2[j]) == key_of(w[j]));
            assert(key_of(w[i]) != key_of(w[j]));
        }
        assert forall|a: Seq<char>, b: bool|
            #![trigger d2(a, b)]
            (d2(a, b) matches Some(m) && m.len() > 0) implies has_key(w2, a, b) by {
            if a == ip && b == en {
                assert(key_of(w2[k0]) == Some((ip, en)));
            } else {
                assert(has_key(w, a, b));
                let j = choose|j: int| 0 <= j < w.len() && key_of(#[trigger] w[j]) == Some((a, b));
                assert(key_of(w2[j]) == key_of(w[j]));
            }
        }
    } else {
        lemma_no_key(base, ip, en);
        let line = LineModel::Valid { ip, hosts: n, comment: None, enabled: en };
        assert forall|k: int| 0 <= k < base.len() implies #[trigger] w2[k] == written(base[k], d2) by {
            assert(w2[k] == w[k]);
            if key_of(base[k]) == Some((ip, en)) {
                assert(has_key(base, ip, en));
            }
        }
        assert forall|k: int| base.len() <= k < w2.len() implies appended_ok(#[trigger] w2[k], base, d2) by {
            if k < w.len() {
                assert(w2[k] == w[k]);
                assert(appended_ok(w[k], base, d));
            }
        }
        // The group had no line in `w`: not among the lines of `base`, nor among those
        // appended, which are all done.
        assert forall|j: int| 0 <= j < w.len() implies key_of(#[trigger] w[j]) != Some((ip, en)) by {
            if j < base.len() {
                assert(w[j] == written(base[j], d));
                if key_of(base[j]) == Some((ip, en)) {
                    assert(has_key(base, ip, en));
                }
            } else {
                assert(appended_ok(w[j], base, d));
            }
        }
        assert forall|i: int, j: int|
            0 <= i < j < w2.len() && key_of(w2[i]) is Some implies key_of(#[trigger] w2[i]) != key_of(
            #[trigger] w2[j]) by {
            if j < w.len() {
                assert(key_of(w[i]) != key_of(w[j]));
            } else if n.len() > 0 {
                assert(w2[j] == line);
                assert(w2[i] == w[i]);
            }
        }
        assert forall|a: Seq<char>, b: bool|
            #![trigger d2(a, b)]
            (d2(a, b) matches Some(m) && m.len() > 0) implies has_key(w2, a, b) by {
            if a == ip && b == en {
                assert(key_of(w2[w.len() as int]) == Some((ip, en)));
            } else {
                assert(has_key(w, a, b));
                let j = choose|j: int| 0 <= j < w.len() && key_of(#[trigger] w[j]) == Some((a, b));
                assert(w2[j] == w[j]);
            }
        }
    }
}

pub proof fn lemma_char_congruent(w: Seq<LineModel>, base: Seq<LineModel>, d1: Done, d2: Done)
    requires
        char_w(w, base, d1),
        forall|a: Seq<char>, b: bool| #[trigger] d1(a, b) == d2(a, b),
    ensures
        char_w(w, base, d2),
{
    assert forall|k: int| 0 <= k < base.len() implies #[trigger] w[k] == written(base[k], d2) by {
        assert(w[k] == written(base[k], d1));
    }
    assert forall|k: int| base.len() <= k < w.len() implies appended_ok(#[trigger] w[k], base, d2) by {
        assert(appended_ok(w[k], base, d1));
    }
    assert forall|a: Seq<char>, b: bool|
        #![trigger d2(a, b)]
        (d2(a, b) matches Some(m) && m.len() > 0) implies has_key(w, a, b) by {
        assert(d1(a, b) == d2(a, b));
    }
}

pub proof fn lemma_distinct_take(es: Seq<EntryModel>, i: int)
    requires
        distinct_ips(es),
        0 <= i <= es.len(),
    ensures
        distinct_ips(es.take(i)),
{
    assert forall|a: int, b: int| 0 <= a < b < es.take(i).len() implies #[trigger] es.take(i)[a].ip
        != #[trigger] es.take(i)[b].ip by {
        assert(es[a].ip != es[b].ip);
    }
}

/// Writing back the first `i` entries into the collapsed store gives the store with their
/// groups done.
pub proof fn lemma_apply_char(base: Seq<LineModel>, es: Seq<EntryModel>, i: int)
    requires
        unique_keys(base),
        distinct_ips(es),
        0 <= i <= es.len(),
    ensures
        char_w(apply_entries(base, es.take(i)), base, done_of(es.take(i))),
    decreases i,
{
    if i == 0 {
        assert(es.take(0).len() == 0);
        let d = done_of(es.take(0));
        assert forall|k: int| 0 <= k < base.len() implies #[trigger] base[k] == written(base[k], d) by {
        }
    } else {
        lemma_apply_char(base, es, i - 1);
        let t = es.take(i - 1);
        let t2 = es.take(i);
        let e = es[i - 1];
        assert(t2.drop_last() == t);
        assert(t2.last() == e);
        assert(t2 == t.push(e));
        lemma_distinct_take(es, i);
        lemma_distinct_take(es, i - 1);
        let w = apply_entries(base, t);
        let d = done_of(t);
        assert(!listed(t, e.ip)) by {
            if listed(t, e.ip) {
                let m = choose|m: int| 0 <= m < t.len() && #[trigger] t[m].ip == e.ip;
                assert(es[m].ip != es[i - 1].ip);
            }
        }
        let n1 = names_with(e.hosts, true);
        let n0 = names_with(e.hosts, false);
        lemma_group_step(w, base, d, e.ip, true, n1);
        let d1: Done = |a: Seq<char>, b: bool| if a == e.ip && b == true { Some(n1) } else { d(a, b) };
        let w1 = apply_group(w, base, e.ip, true, n1);
        lemma_group_step(w1, base, d1, e.ip, false, n0);
        let d2: Done = |a: Seq<char>, b: bool| if a == e.ip && b == false { Some(n0) } else { d1(a, b) };
        lemma_entry_index(t2, e.ip, i - 1);
        assert forall|a: Seq<char>, b: bool| #[trigger] d2(a, b) == done_of(t2)(a, b) by {
            if a == e.ip {
                assert(t2[i - 1].ip == e.ip);
                assert(listed(t2, a));
            } else {
                if listed(t, a) {
                    let m = choose|m: int| 0 <= m < t.len() && #[trigger] t[m].ip == a;
                    assert(t2[m].ip == a);
                    lemma_entry_index(t, a, m);
                    lemma_entry_index(t2, a, m);
                }
                if listed(t2, a) {
                    let m = choose|m: int| 0 <= m < t2.len() && #[trigger] t2[m].ip == a;
                    assert(m < t.len());
                    assert(t[m].ip == a);
                }
            }
        }
        lemma_char_congruent(apply_entries(base, t2), base, d2, done_of(t2));
    }
}

pub proof fn lemma_collapse_props(s: Seq<LineModel>)
    ensures
        unique_keys(collapse_keys(s)),
        forall|i: int| 0 <= i < collapse_keys(s).len() ==> s.contains(#[trigger] collapse_keys(s)[i]),
    decreases s.len(),
{
    if s.len() > 0 {
        let p = s.drop_last();
        lemma_collapse_props(p);
        let c = collapse_keys(p);
        let r = collapse_keys(s);
        assert forall|i: int| 0 <= i < r.len() implies s.contains(#[trigger] r[i]) by {
            if i < c.len() {
                assert(p.contains(c[i]));
                let j = choose|j: int| 0 <= j < p.len() && p[j] == c[i];
                assert(s[j] == r[i]);
            } else {
                assert(s[s.len() - 1] == r[i]);
            }
        }
        if !is_repeat(p, s.last()) {
            assert forall|i: int, j: int|
                0 <= i < j < r.len() && key_of(r[i]) is Some implies key_of(#[trigger] r[i]) != key_of(
                #[trigger] r[j]) by {
                if j == c.len() {
                    assert(p.contains(c[i]));
                    let m = choose|m: int| 0 <= m < p.len() && p[m] == c[i];
                    assert(key_of(p[m]) == key_of(r[i]));
                } else {
                    assert(key_of(c[i]) != key_of(c[j]));
                }
            }
        }
    }
}

pub proof fn lemma_prune_props(s: Seq<LineModel>, es: Seq<EntryModel>)
    ensures
        forall|i: int|
            0 <= i < prune(s, es).len() ==> s.contains(#[trigger] prune(s, es)[i]) && !dropped(
                prune(s, es)[i],
                es,
            ),
        forall|j: int| 0 <= j < s.len() && !dropped(#[trigger] s[j], es) ==> prune(s, es).contains(s[j]),
        unique_keys(s) ==> unique_keys(prune(s, es)),
    decreases s.len(),
{
    if s.len() > 0 {
        let p = s.drop_last();
        lemma_prune_props(p, es);
        let c = prune(p, es);
        let r = prune(s, es);
        assert forall|i: int| 0 <= i < r.len() implies s.contains(#[trigger] r[i]) && !dropped(r[i], es) by {
            if i < c.len() {
                assert(p.contains(c[i]));
                let j = choose|j: int| 0 <= j < p.len() && p[j] == c[i];
                assert(s[j] == r[i]);
            } else {
                assert(s[s.len() - 1] == r[i]);
            }
        }
        assert forall|j: int| 0 <= j < s.len() && !dropped(#[trigger] s[j], es) implies r.contains(s[j]) by {
            if j < p.len() {
                assert(p[j] == s[j]);
                assert(c.contains(p[j]));
                let m = choose|m: int| 0 <= m < c.len() && c[m] == p[j];
                assert(r[m] == c[m]);
            } else {
                assert(r[c.len() as int] == s[j]);
            }
        }
        if unique_keys(s) {
            assert(unique_keys(p)) by {
                assert forall|i: int, j: int|
                    0 <= i < j < p.len() && key_of(p[i]) is Some implies key_of(#[trigger] p[i])
                    != key_of(#[trigger] p[j]) by {
                    assert(key_of(s[i]) != key_of(s[j]));
                }
            }
            assert forall|i: int, j: int|
                0 <= i < j < r.len() && key_of(r[i]) is Some implies key_of(#[trigger] r[i]) != key_of(
                #[trigger] r[j]) by {
                if j == c.len() {
                    assert(p.contains(c[i]));
                    let m = choose|m: int| 0 <= m < p.len() && p[m] == c[i];
                    assert(key_of(s[m]) != key_of(s[s.len() - 1]));
                } else {
                    assert(key_of(c[i]) != key_of(c[j]));
                }
            }
        }
    }
}

pub proof fn lemma_squeeze_props(s: Seq<LineModel>)
    ensures
        forall|i: int| 0 <= i < squeeze_blanks(s).len() ==> s.contains(#[trigger] squeeze_blanks(s)[i]),
        forall|j: int| 0 <= j < s.len() && !((#[trigger] s[j]) is Empty) ==> squeeze_blanks(s).contains(s[j]),
        unique_keys(s) ==> unique_keys(squeeze_blanks(s)),
        forall|i: int|
            0 < i < squeeze_blanks(s).len() && (#[trigger] squeeze_blanks(s)[i]) is Empty ==> !(
            squeeze_blanks(s)[i - 1] is Empty),
        s.len() > 0 ==> squeeze_blanks(s).len() > 0 && (squeeze_blanks(s).last() is Empty <==> s.last() is Empty),
    decreases s.len(),
{
    if s.len() > 0 {
        let p = s.drop_last();
        lemma_squeeze_props(p);
        let c = squeeze_blanks(p);
        let r = squeeze_blanks(s);
        assert forall|i: int| 0 <= i < r.len() implies s.contains(#[trigger] r[i]) by {
            if i < c.len() {
                assert(p.contains(c[i]));
                let j = choose|j: int| 0 <= j < p.len() && p[j] == c[i];
                assert(s[j] == r[i]);
            } else {
                assert(s[s.len() - 1] == r[i]);
            }
        }
        assert forall|j: int| 0 <= j < s.len() && !((#[trigger] s[j]) is Empty) implies r.contains(s[j]) by {
            if j < p.len() {
                assert(p[j] == s[j]);
                assert(c.contains(p[j]));
                let m = choose|m: int| 0 <= m < c.len() && c[m] == p[j];
                assert(r[m] == c[m]);
            } else {
                assert(r[c.len() as int] == s[j]);
            }
        }
        if unique_keys(s) {
            assert(unique_keys(p)) by {
                assert forall|i: int, j: int|
                    0 <= i < j < p.len() && key_of(p[i]) is Some implies key_of(#[trigger] p[i])
                    != key_of(#[trigger] p[j]) by {
                    assert(key_of(s[i]) != key_of(s[j]));
                }
            }
            assert forall|i: int, j: int|
                0 <= i < j < r.len() && key_of(r[i]) is Some implies key_of(#[trigger] r[i]) != key_of(
                #[trigger] r[j]) by {
                if j == c.len() {
                    assert(p.contains(c[i]));
                    let m = choose|m: int| 0 <= m < p.len() && p[m] == c[i];
                    assert(key_of(s[m]) != key_of(s[s.len() - 1]));
                } else {
                    assert(key_of(c[i]) != key_of(c[j]));
                }
            }
        }
        if s.len() >= 2 {
            assert(p.last() == s[s.len() - 2]);
        }
        assert forall|i: int| 0 < i < r.len() && (#[trigger] r[i]) is Empty implies !(r[i - 1] is Empty) by {
            if i < c.len() {
                assert(r[i] == c[i] && r[i - 1] == c[i - 1]);
            } else {
                assert(r[i - 1] == c.last());
            }
        }
    }
}

/// Writing the entries back gives a store that already says what they say.
pub proof fn lemma_reconcile_settled(s: Seq<LineModel>, es: Seq<EntryModel>)
    requires
        distinct_ips(es),
    ensures
        settled(reconcile(s, es), es),
{
    let base = collapse_keys(s);
    lemma_collapse_props(s);
    lemma_apply_char(base, es, es.len() as int);
    assert(es.take(es.len() as int) == es);
    let d = done_of(es);
    let w = apply_entries(base, es);
    let pr = prune(w, es);
    let q = squeeze_blanks(pr);
    let r = end_blank(q);
    lemma_prune_props(w, es);
    lemma_squeeze_props(pr);
    // Every line of `r` other than a final added blank is a line of `w` that stays.
    assert forall|i: int| 0 <= i < r.len() implies line_settled(#[trigger] r[i], es) by {
        if i < q.len() {
            assert(r[i] == q[i]);
            assert(pr.contains(q[i]));
            let j = choose|j: int| 0 <= j < pr.len() && pr[j] == q[i];
            assert(w.contains(pr[j]) && !dropped(pr[j], es));
            let k = choose|k: int| 0 <= k < w.len() && w[k] == pr[j];
            if let LineModel::Valid { ip, hosts, enabled, .. } = w[k] {
                if k < base.len() {
                    assert(w[k] == written(base[k], d));
                    assert(key_of(base[k]) == Some((ip, enabled)));
                } else {
                    assert(appended_ok(w[k], base, d));
                }
            }
        }
    }
    assert forall|i: int, en: bool|
        0 <= i < es.len() && (#[trigger] names_with(es[i].hosts, en)).len() > 0 implies has_key(
        r,
        es[i].ip,
        en,
    ) by {
        let ip = es[i].ip;
        lemma_entry_index(es, ip, i);
        assert(listed(es, ip));
        assert(d(ip, en) == Some(names_with(es[i].hosts, en)));
        assert(has_key(w, ip, en));
        let k = choose|k: int| 0 <= k < w.len() && key_of(#[trigger] w[k]) == Some((ip, en));
        if k < base.len() {
            assert(w[k] == written(base[k], d));
        } else {
            assert(appended_ok(w[k], base, d));
        }
        assert(!dropped(w[k], es));
        assert(pr.contains(w[k]));
        let j = choose|j: int| 0 <= j < pr.len() && pr[j] == w[k];
        assert(q.contains(pr[j]));
        let m = choose|m: int| 0 <= m < q.len() && q[m] == pr[j];
        assert(r[m] == q[m]);
    }
    assert(unique_keys(r)) by {
        assert forall|i: int, j: int|
            0 <= i < j < r.len() && key_of(r[i]) is Some implies key_of(#[trigger] r[i]) != key_of(
            #[trigger] r[j]) by {
            if j < q.len() {
                assert(key_of(q[i]) != key_of(q[j]));
            }
        }
    }
    assert forall|i: int| 0 < i < r.len() && (#[trigger] r[i]) is Empty implies !(r[i - 1] is Empty) by {
        if i < q.len() {
            assert(r[i] == q[i] && r[i - 1] == q[i - 1]);
        }
    }
}

/// Writing the same entries back twice changes nothing further: the store that one
/// write-back gives is left as it is by the next (entries with distinct addresses, as
/// the projection gives them).
pub proof fn law_reconcile_idempotent(s: Seq<LineModel>, es: Seq<EntryModel>)
    requires
        distinct_ips(es),
    ensures
        reconcile(reconcile(s, es), es) == reconcile(s, es),
{
    lemma_reconcile_settled(s, es);
    lemma_settled_fixed(reconcile(s, es), es);
}

/// Dropping repeated address-and-state lines twice drops nothing more the second time.
pub proof fn law_collapse_idempotent(s: Seq<LineModel>)
    ensures
        collapse_keys(collapse_keys(s)) == collapse_keys(s),
{
    lemma_collapse_props(s);
    lemma_collapse_unique_id(collapse_keys(s));
}

/// Cutting blank runs and ending with a blank line, done twice, changes nothing more the
/// second time.
pub proof fn law_blanks_idempotent(s: Seq<LineModel>)
    ensures
        end_blank(squeeze_blanks(end_blank(squeeze_blanks(s)))) == end_blank(squeeze_blanks(s)),
{
    let q = squeeze_blanks(s);
    let r = end_blank(q);
    lemma_squeeze_props(s);
    assert forall|i: int| 0 < i < r.len() && (#[trigger] r[i]) is Empty implies !(r[i - 1] is Empty) by {
        if i < q.len() {
            assert(r[i] == q[i] && r[i - 1] == q[i - 1]);
        }
    }
    lemma_squeeze_id(r);
}

/// Whether `l` is a mapping line for `ip`.
pub open spec fn is_line_of(l: LineModel, ip: Seq<char>) -> bool {
    l is Valid && l->ip == ip
}

/// Whether some mapping line has address `ip`.
pub open spec fn has_ip(s: Seq<LineModel>, ip: Seq<char>) -> bool {
    exists|k: int| 0 <= k < s.len() && is_line_of(#[trigger] s[k], ip)
}

/// The aliases of all mapping lines for `ip`, in line order, each with its line's state.
pub open spec fn flat(s: Seq<LineModel>, ip: Seq<char>) -> Seq<HostModel>
    decreases s.len(),
{
    if s.len() == 0 {
        seq![]
    } else {
        let p = flat(s.drop_last(), ip);
        match s.last() {
            LineModel::Valid { ip: a, hosts, enabled, .. } => if a == ip {
                p + name_models(hosts, enabled)
            } else {
                p
            },
            _ => p,
        }
    }
}

pub proof fn lemma_entry_first(es: Seq<EntryModel>, ip: Seq<char>, k: int)
    requires
        0 <= k < es.len(),
        es[k].ip == ip,
    ensures
        entry_index(es, ip) >= 0,
        0 <= entry_index(es, ip) < es.len(),
        es[entry_index(es, ip)].ip == ip,
    decreases k,
{
    if exists|j: int| 0 <= j < k && es[j].ip == ip {
        let j = choose|j: int| 0 <= j < k && es[j].ip == ip;
        lemma_entry_first(es, ip, j);
    } else {
        assert(forall|j: int| 0 <= j < k ==> es[j].ip != ip);
    }
}

pub proof fn lemma_unique_dedup_id(hs: Seq<HostModel>)
    requires
        unique_names(hs),
    ensures
        dedup_models(hs) == hs,
    decreases hs.len(),
{
    if hs.len() > 0 {
        let p = hs.drop_last();
        assert(unique_names(p)) by {
            assert forall|i: int, j: int| 0 <= i < j < p.len() implies #[trigger] p[i].name
                != #[trigger] p[j].name by {
                assert(hs[i].name != hs[j].name);
            }
        }
        lemma_unique_dedup_id(p);
        if has_name(p, hs.last().name) {
            let i = choose|i: int| 0 <= i < p.len() && #[trigger] p[i].name == hs.last().name;
            assert(hs[i].name != hs[hs.len() - 1].name);
        }
        assert(p.push(hs.last()) == hs);
    }
}

pub proof fn lemma_dedup_concat(a: Seq<HostModel>, b: Seq<HostModel>)
    ensures
        dedup_models(dedup_models(a) + b) == dedup_models(a + b),
    decreases b.len(),
{
    if b.len() == 0 {
        assert(dedup_models(a) + b == dedup_models(a));
        assert(a + b == a);
        lemma_dedup_unique(a);
        lemma_unique_dedup_id(dedup_models(a));
    } else {
        let b2 = b.drop_last();
        lemma_dedup_concat(a, b2);
        assert((dedup_models(a) + b).drop_last() == dedup_models(a) + b2);
        assert((a + b).drop_last() == a + b2);
        assert((dedup_models(a) + b).last() == b.last());
        assert((a + b).last() == b.last());
    }
}

pub proof fn lemma_dedup_contains(hs: Seq<HostModel>)
    ensures
        forall|i: int| 0 <= i < dedup_models(hs).len() ==> hs.contains(#[trigger] dedup_models(hs)[i]),
    decreases hs.len(),
{
    if hs.len() > 0 {
        let p = hs.drop_last();
        lemma_dedup_contains(p);
        let d = dedup_models(p);
        assert forall|i: int| 0 <= i < dedup_models(hs).len() implies hs.contains(
            #[trigger] dedup_models(hs)[i],
        ) by {
            if i < d.len() {
                assert(p.contains(d[i]));
                let j = choose|j: int| 0 <= j < p.len() && p[j] == d[i];
                assert(hs[j] == d[i]);
            } else {
                assert(hs[hs.len() - 1] == dedup_models(hs)[i]);
            }
        }
    }
}

pub proof fn lemma_names_with(hs: Seq<HostModel>, en: bool, x: Seq<char>)
    ensures
        names_with(hs, en).contains(x) <==> exists|m: int|
            0 <= m < hs.len() && (#[trigger] hs[m]).enabled == en && hs[m].name == x,
    decreases hs.len(),
{
    if hs.len() > 0 {
        let p = hs.drop_last();
        lemma_names_with(p, en, x);
        let np = names_with(p, en);
        if names_with(hs, en).contains(x) {
            let i = choose|i: int| 0 <= i < names_with(hs, en).len() && names_with(hs, en)[i] == x;
            if i < np.len() {
                assert(np[i] == x);
                assert(np.contains(x));
                let m = choose|m: int| 0 <= m < p.len() && (#[trigger] p[m]).enabled == en && p[m].name == x;
                assert(hs[m] == p[m]);
            } else {
                assert(hs[hs.len() - 1].name == x);
            }
        }
        if exists|m: int| 0 <= m < hs.len() && (#[trigger] hs[m]).enabled == en && hs[m].name == x {
            let m = choose|m: int| 0 <= m < hs.len() && (#[trigger] hs[m]).enabled == en && hs[m].name == x;
            if m < p.len() {
                assert(p[m] == hs[m]);
                assert(np.contains(x));
                let i = choose|i: int| 0 <= i < np.len() && np[i] == x;
                assert(names_with(hs, en)[i] == x);
            } else {
                assert(names_with(hs, en)[np.len() as int] == x);
            }
        }
    }
}

pub proof fn lemma_flat_members(s: Seq<LineModel>, ip: Seq<char>)
    ensures
        forall|i: int|
            #![trigger flat(s, ip)[i]]
            0 <= i < flat(s, ip).len() ==> exists|k: int|
                0 <= k < s.len() && is_line_of(#[trigger] s[k], ip) && s[k]->enabled == flat(s, ip)[i].enabled
                    && s[k]->hosts.contains(flat(s, ip)[i].name),
        forall|k: int, m: int|
            #![trigger s[k]->hosts[m]]
            0 <= k < s.len() && is_line_of(s[k], ip) && 0 <= m < s[k]->hosts.len() ==> flat(
                s,
                ip,
            ).contains(HostModel { name: s[k]->hosts[m], enabled: s[k]->enabled }),
    decreases s.len(),
{
    if s.len() > 0 {
        let p = s.drop_last();
        lemma_flat_members(p, ip);
        let fp = flat(p, ip);
        let f = flat(s, ip);
        assert forall|i: int| #![trigger f[i]] 0 <= i < f.len() implies exists|k: int|
            0 <= k < s.len() && is_line_of(#[trigger] s[k], ip) && s[k]->enabled == f[i].enabled
                && s[k]->hosts.contains(f[i].name) by {
            if i < fp.len() {
                assert(f[i] == fp[i]);
                let k = choose|k: int|
                    0 <= k < p.len() && is_line_of(#[trigger] p[k], ip) && p[k]->enabled == fp[i].enabled
                        && p[k]->hosts.contains(fp[i].name);
                assert(s[k] == p[k]);
            } else {
                if let LineModel::Valid { ip: a, hosts, enabled, .. } = s.last() {
                    let m = i - fp.len();
                    assert(f[i] == name_models(hosts, enabled)[m]);
                    assert(hosts[m] == f[i].name);
                    assert(s[s.len() - 1] == s.last());
                }
            }
        }
        assert forall|k: int, m: int|
            #![trigger s[k]->hosts[m]]
            0 <= k < s.len() && is_line_of(s[k], ip) && 0 <= m < s[k]->hosts.len() implies f.contains(
            HostModel { name: s[k]->hosts[m], enabled: s[k]->enabled },
        ) by {
            let h = HostModel { name: s[k]->hosts[m], enabled: s[k]->enabled };
            if k < p.len() {
                assert(p[k] == s[k]);
                assert(fp.contains(h));
                let i = choose|i: int| 0 <= i < fp.len() && fp[i] == h;
                assert(f[i] == fp[i]);
            } else {
                assert(s.last() == s[k]);
                assert(f[fp.len() + m] == name_models(s[k]->hosts, s[k]->enabled)[m]);
            }
        }
    }
}

pub proof fn lemma_project_distinct(s: Seq<LineModel>)
    ensures
        distinct_ips(project(s)),
        forall|ip: Seq<char>| #[trigger] listed(project(s), ip) <==> has_ip(s, ip),
    decreases s.len(),
{
    if s.len() > 0 {
        let p = s.drop_last();
        lemma_project_distinct(p);
        let pp = project(p);
        let r = project(s);
        assert forall|k: int| 0 <= k < p.len() implies #[trigger] s[k] == p[k] by {}
        if let LineModel::Valid { ip: y, hosts, enabled, .. } = s.last() {
            let k = entry_index(pp, y);
            if k >= 0 {
                assert(r == pp.update(k, r[k]));
                assert forall|a: int, b: int| 0 <= a < b < r.len() implies #[trigger] r[a].ip
                    != #[trigger] r[b].ip by {
                    assert(pp[a].ip != pp[b].ip);
                }
                assert forall|ip: Seq<char>| #[trigger] listed(r, ip) <==> has_ip(s, ip) by {
                    if listed(r, ip) {
                        let m = choose|m: int| 0 <= m < r.len() && #[trigger] r[m].ip == ip;
                        assert(pp[m].ip == ip);
                        assert(listed(pp, ip));
                        let j = choose|j: int| 0 <= j < p.len() && is_line_of(#[trigger] p[j], ip);
                        assert(s[j] == p[j]);
                    }
                    if has_ip(s, ip) {
                        let j = choose|j: int| 0 <= j < s.len() && is_line_of(#[trigger] s[j], ip);
                        if j < p.len() {
                            assert(p[j] == s[j]);
                            assert(has_ip(p, ip));
                            assert(listed(pp, ip));
                            let m = choose|m: int| 0 <= m < pp.len() && #[trigger] pp[m].ip == ip;
                            assert(r[m].ip == ip);
                        } else {
                            assert(r[k].ip == ip);
                        }
                    }
                }
            } else {
                assert(forall|m: int| 0 <= m < pp.len() ==> pp[m].ip != y) by {
                    if exists|m: int| 0 <= m < pp.len() && pp[m].ip == y {
                        let m = choose|m: int| 0 <= m < pp.len() && pp[m].ip == y;
                        lemma_entry_first(pp, y, m);
                    }
                }
                assert forall|a: int, b: int| 0 <= a < b < r.len() implies #[trigger] r[a].ip
                    != #[trigger] r[b].ip by {
                    if b < pp.len() {
                        assert(pp[a].ip != pp[b].ip);
                    }
                }
                assert forall|ip: Seq<char>| #[trigger] listed(r, ip) <==> has_ip(s, ip) by {
                    if listed(r, ip) {
                        let m = choose|m: int| 0 <= m < r.len() && #[trigger] r[m].ip == ip;
                        if m < pp.len() {
                            assert(pp[m].ip == ip);
                            assert(listed(pp, ip));
                            let j = choose|j: int| 0 <= j < p.len() && is_line_of(#[trigger] p[j], ip);
                            assert(s[j] == p[j]);
                        } else {
                            assert(s[s.len() - 1] == s.last());
                        }
                    }
                    if has_ip(s, ip) {
                        let j = choose|j: int| 0 <= j < s.len() && is_line_of(#[trigger] s[j], ip);
                        if j < p.len() {
                            assert(p[j] == s[j]);
                            assert(has_ip(p, ip));
                            assert(listed(pp, ip));
                            let m = choose|m: int| 0 <= m < pp.len() && #[trigger] pp[m].ip == ip;
                            assert(r[m].ip == ip);
                        } else {
                            assert(r[pp.len() as int].ip == ip);
                        }
                    }
                }
            }
        } else {
            assert forall|ip: Seq<char>| #[trigger] listed(r, ip) <==> has_ip(s, ip) by {
                if has_ip(s, ip) {
                    let j = choose|j: int| 0 <= j < s.len() && is_line_of(#[trigger] s[j], ip);
                    if j < p.len() {
                        assert(p[j] == s[j]);
                    } else {
                        assert(s[s.len() - 1] == s.last());
                    }
                }
                if has_ip(p, ip) {
                    let j = choose|j: int| 0 <= j < p.len() && is_line_of(#[trigger] p[j], ip);
                    assert(s[j] == p[j]);
                }
            }
        }
    }
}

/// The entry that the projection gives for an address holds the aliases of all its lines,
/// in line order, each name once with the state of its first line.
pub proof fn lemma_project_entry(s: Seq<LineModel>, ip: Seq<char>)
    requires
        has_ip(s, ip),
    ensures
        entry_index(project(s), ip) >= 0,
        project(s)[entry_index(project(s), ip)].hosts == dedup_models(flat(s, ip)),
    decreases s.len(),
{
    let p = s.drop_last();
    let pp = project(p);
    let r = project(s);
    lemma_project_distinct(p);
    lemma_project_distinct(s);
    assert(listed(r, ip));
    let m = choose|m: int| 0 <= m < r.len() && #[trigger] r[m].ip == ip;
    lemma_entry_index(r, ip, m);
    if has_ip(p, ip) {
        lemma_project_entry(p, ip);
        let k = entry_index(pp, ip);
        lemma_entry_first(pp, ip, 0 + k);
        if let LineModel::Valid { ip: y, hosts, enabled, .. } = s.last() {
            let ky = entry_index(pp, y);
            if y == ip {
                assert(ky == k);
                assert(r[k].hosts == dedup_models(pp[k].hosts + name_models(hosts, enabled)));
                lemma_dedup_concat(flat(p, ip), name_models(hosts, enabled));
                lemma_entry_index(r, ip, k);
            } else {
                if ky >= 0 {
                    lemma_entry_first(pp, y, 0 + ky);
                    assert(ky != k);
                    assert(r[k] == pp[k]);
                } else {
                    assert(r[k] == pp[k]);
                }
                lemma_entry_index(r, ip, k);
            }
        } else {
            lemma_entry_index(r, ip, k);
        }
    } else {
        assert(flat(p, ip) == Seq::<HostModel>::empty()) by {
            lemma_flat_members(p, ip);
            if flat(p, ip).len() > 0 {
                let k = choose|k: int|
                    0 <= k < p.len() && is_line_of(#[trigger] p[k], ip) && p[k]->enabled == flat(p, ip)[0].enabled
                        && p[k]->hosts.contains(flat(p, ip)[0].name);
                assert(has_ip(p, ip));
            }
        }
        assert(!listed(pp, ip));
        let j = choose|j: int| 0 <= j < s.len() && is_line_of(#[trigger] s[j], ip);
        if j < p.len() {
            assert(p[j] == s[j]);
        }
        if let LineModel::Valid { ip: y, hosts, enabled, .. } = s.last() {
            assert(y == ip);
            assert(forall|q: int| 0 <= q < pp.len() ==> pp[q].ip != ip);
            assert(entry_index(pp, ip) == -1);
            assert(r == pp.push(EntryModel { ip, hosts: dedup_models(name_models(hosts, enabled)) }));
            assert(Seq::<HostModel>::empty() + name_models(hosts, enabled) == name_models(hosts, enabled));
            lemma_entry_index(r, ip, pp.len() as int);
        }
    }
}

/// The entries with alias `j` of entry `i` set to disabled.
pub open spec fn disable_alias(es: Seq<EntryModel>, i: int, j: int) -> Seq<EntryModel> {
    es.update(
        i,
        EntryModel {
            ip: es[i].ip,
            hosts: es[i].hosts.update(j, HostModel { name: es[i].hosts[j].name, enabled: false }),
        },
    )
}

/// Disable round trip: after alias `j` of entry `i` is set to disabled and the entries are
/// written back, projecting the store again gives, under the same address, that alias,
/// disabled (for entries with distinct addresses and an entry whose aliases have distinct
/// names, as the projection and the edits keep them).
pub proof fn law_disable_round_trip(s: Seq<LineModel>, es: Seq<EntryModel>, i: int, j: int)
    requires
        distinct_ips(es),
        0 <= i < es.len(),
        0 <= j < es[i].hosts.len(),
        unique_names(es[i].hosts),
    ensures
        ({
            let p = project(reconcile(s, disable_alias(es, i, j)));
            let k = entry_index(p, es[i].ip);
            k >= 0 && p[k].hosts.contains(HostModel { name: es[i].hosts[j].name, enabled: false })
        }),
{
    let e = es[i];
    let ip = e.ip;
    let n = e.hosts[j].name;
    let hs = e.hosts.update(j, HostModel { name: n, enabled: false });
    let t = disable_alias(es, i, j);
    assert(t[i].hosts == hs);
    assert(distinct_ips(t)) by {
        assert forall|a: int, b: int| 0 <= a < b < t.len() implies #[trigger] t[a].ip != #[trigger] t[b].ip by {
            assert(es[a].ip != es[b].ip);
        }
    }
    assert(unique_names(hs)) by {
        assert forall|a: int, b: int| 0 <= a < b < hs.len() implies #[trigger] hs[a].name != #[trigger] hs[b].name by {
            assert(e.hosts[a].name != e.hosts[b].name);
        }
    }
    let r = reconcile(s, t);
    lemma_reconcile_settled(s, t);
    lemma_entry_index(t, ip, i);
    lemma_names_with(hs, false, n);
    assert(hs[j].enabled == false && hs[j].name == n);
    assert(names_with(hs, false).contains(n));
    assert(names_with(t[i].hosts, false).len() > 0);
    assert(has_key(r, ip, false));
    let kf = choose|k: int| 0 <= k < r.len() && key_of(#[trigger] r[k]) == Some((ip, false));
    assert(line_settled(r[kf], t));
    let mm = choose|mm: int| 0 <= mm < names_with(hs, false).len() && names_with(hs, false)[mm] == n;
    lemma_flat_members(r, ip);
    assert(is_line_of(r[kf], ip));
    assert(r[kf]->hosts[mm] == n);
    let fl = flat(r, ip);
    assert(fl.contains(HostModel { name: n, enabled: false }));
    let x = choose|x: int| 0 <= x < fl.len() && fl[x] == HostModel { name: n, enabled: false };
    assert(fl[x].name == n);
    assert(has_name(fl, n));
    assert(has_ip(r, ip));
    lemma_project_entry(r, ip);
    let p = project(r);
    let k = entry_index(p, ip);
    lemma_dedup_unique(fl);
    let d = dedup_models(fl);
    assert(has_name(d, n));
    let q = choose|q: int| 0 <= q < d.len() && #[trigger] d[q].name == n;
    lemma_dedup_contains(fl);
    assert(fl.contains(d[q]));
    let y = choose|y: int| 0 <= y < fl.len() && fl[y] == d[q];
    let k2 = choose|k2: int|
        0 <= k2 < r.len() && is_line_of(#[trigger] r[k2], ip) && r[k2]->enabled == fl[y].enabled
            && r[k2]->hosts.contains(fl[y].name);
    assert(line_settled(r[k2], t));
    if d[q].enabled {
        assert(r[k2]->hosts == names_with(hs, true));
        lemma_names_with(hs, true, n);
        let m = choose|m: int| 0 <= m < hs.len() && (#[trigger] hs[m]).enabled == true && hs[m].name == n;
        if m < j {
            assert(hs[m].name != hs[j].name);
        } else if m > j {
            assert(hs[j].name != hs[m].name);
        }
    }
    assert(d[q] == HostModel { name: n, enabled: false });
    assert(p[k].hosts == d);
}

/// Writing a store's own projection back into it gives a store that the same write-back
/// leaves as it is.
pub proof fn law_reconcile_own_projection(s: Seq<LineModel>)
    ensures
        reconcile(reconcile(s, project(s)), project(s)) == reconcile(s, project(s)),
{
    lemma_project_distinct(s);
    law_reconcile_idempotent(s, project(s));
}

} // verus!
