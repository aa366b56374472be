//! The line-kind store: one classified record per physical line of a hosts file,
//! the parser that builds it and the serializer that writes it back.
use vstd::prelude::*;
use crate::addr::{ip_literal, is_ip};
use crate::text::{
    chars_of, find, find_in, join, line_ranges, raw_lines, strs_view, string_from, trim, trim_range, words,
    words_in,
};

verus! {

/// A line that maps an address to aliases; disabled lines carry the marker prefix.
#[derive(Debug, PartialEq, Eq)]
pub struct ValidLine {
    pub ip: String,
    pub hosts: Vec<String>,
    pub comment: Option<String>,
    pub enabled: bool,
}

/// One classified line of the file.
#[derive(Debug, PartialEq, Eq)]
pub enum Line {
    Valid(ValidLine),
    Comment(String),
    Empty,
    Other(String),
}

/// The mathematical value of a [`Line`].
pub enum LineModel {
    Valid { ip: Seq<char>, hosts: Seq<Seq<char>>, comment: Option<Seq<char>>, enabled: bool },
    Comment(Seq<char>),
    Empty,
    Other(Seq<char>),
}

pub open spec fn opt_view(o: Option<String>) -> Option<Seq<char>> {
    match o {
        Some(s) => Some(s@),
        None => None,
    }
}

impl View for Line {
    type V = LineModel;

    open spec fn view(&self) -> LineModel {
        match self {
            Line::Valid(v) => LineModel::Valid {
                ip: v.ip@,
                hosts: strs_view(v.hosts@),
                comment: opt_view(v.comment),
                enabled: v.enabled,
            },
            Line::Comment(s) => LineModel::Comment(s@),
            Line::Empty => LineModel::Empty,
            Line::Other(s) => LineModel::Other(s@),
        }
    }
}

/// The views of a sequence of lines.
pub open spec fn lines_view(v: Seq<Line>) -> Seq<LineModel> {
    v.map_values(|l: Line| l@)
}

/// The prefix that marks a disabled mapping line.
pub open spec fn mark() -> Seq<char> {
    seq!['#', '(', 'h', 'e', 'd', ')']
}

pub open spec fn has_mark(t: Seq<char>) -> bool {
    t.len() >= 6 && t.take(6) == mark()
}

/// The record for one raw line of text.
pub open spec fn parse_spec(raw: Seq<char>) -> LineModel {
    let t = trim(raw);
    if t.len() == 0 {
        LineModel::Empty
    } else {
        let enabled = !has_mark(t);
        let rest = if has_mark(t) { t.skip(6) } else { t };
        if rest.len() > 0 && rest[0] == '#' {
            LineModel::Comment(t)
        } else {
            let k = find(rest, '#');
            let payload = if k >= 0 { rest.take(k) } else { rest };
            let comment = if k >= 0 { Some(trim(rest.skip(k + 1))) } else { None };
            let ws = words(payload);
            if ws.len() > 1 && ip_literal(ws[0]) {
                LineModel::Valid { ip: ws[0], hosts: ws.skip(1), comment, enabled }
            } else {
                LineModel::Other(t)
            }
        }
    }
}

/// The records for a whole text, one per line.
pub open spec fn parse_text(s: Seq<char>) -> Seq<LineModel> {
    raw_lines(s).map_values(|p: Seq<char>| parse_spec(p))
}

/// The words that a mapping line is written as.
pub open spec fn valid_parts(
    ip: Seq<char>,
    hosts: Seq<Seq<char>>,
    comment: Option<Seq<char>>,
    enabled: bool,
) -> Seq<Seq<char>> {
    (if enabled { seq![] } else { seq![mark()] }) + seq![ip] + hosts + match comment {
        Some(c) => seq![seq!['#', ' '] + c],
        None => seq![],
    }
}

/// The text of one record.
pub open spec fn render(l: LineModel) -> Seq<char> {
    match l {
        LineModel::Valid { ip, hosts, comment, enabled } => join(
            valid_parts(ip, hosts, comment, enabled),
            seq![' '],
        ),
        LineModel::Comment(t) => t,
        LineModel::Other(t) => t,
        LineModel::Empty => seq![],
    }
}

pub open spec fn eol(crlf: bool) -> Seq<char> {
    if crlf { seq!['\r', '\n'] } else { seq!['\n'] }
}

/// The text of a store: each record rendered, joined by the line ending.
pub open spec fn serialize(lines: Seq<LineModel>, crlf: bool) -> Seq<char> {
    join(lines.map_values(|l: LineModel| render(l)), eol(crlf))
}

pub fn clone_strings(v: &Vec<String>) -> (r: Vec<String>)
    ensures
        strs_view(r@) == strs_view(v@),
{
    let mut r: Vec<String> = Vec::new();
    let mut i: usize = 0;
    while i < v.len()
        invariant
            i <= v.len(),
            strs_view(r@) == strs_view(v@).take(i as int),
        decreases v.len() - i,
    {
        let ghost before = r@;
        r.push(v[i].clone());
        assert(strs_view(r@) == strs_view(before).push(v@[i as int]@));
        assert(strs_view(v@).take(i + 1) == strs_view(v@).take(i as int).push(v@[i as int]@));
        i += 1;
    }
    r
}

impl Clone for ValidLine {
    fn clone(&self) -> (r: Self)
        ensures
            r.ip@ == self.ip@,
            strs_view(r.hosts@) == strs_view(self.hosts@),
            opt_view(r.comment) == opt_view(self.comment),
            r.enabled == self.enabled,
    {
        ValidLine {
            ip: self.ip.clone(),
            hosts: clone_strings(&self.hosts),
            comment: match &self.comment {
                Some(c) => Some(c.clone()),
                None => None,
            },
            enabled: self.enabled,
        }
    }
}

impl Clone for Line {
    fn clone(&self) -> (r: Self)
        ensures
            r@ == self@,
    {
        match self {
            Line::Valid(v) => Line::Valid(v.clone()),
            Line::Comment(s) => Line::Comment(s.clone()),
            Line::Empty => Line::Empty,
            Line::Other(s) => Line::Other(s.clone()),
        }
    }
}

/// Whether `buf[a..b]` starts with the disabled marker.
fn mark_at(buf: &Vec<char>, a: usize, b: usize) -> (r: bool)
    requires
        a <= b <= buf@.len(),
    ensures
        r == has_mark(buf@.subrange(a as int, b as int)),
{
    let t = Ghost(buf@.subrange(a as int, b as int));
    if b - a < 6 {
        return false;
    }
    let r = buf[a] == '#' && buf[a + 1] == '(' && buf[a + 2] == 'h' && buf[a + 3] == 'e' && buf[a
        + 4] == 'd' && buf[a + 5] == ')';
    proof {
        if r {
            assert(t@.take(6) =~= mark());
        } else {
            assert(t@.take(6) != mark()) by {
                if t@.take(6) == mark() {
                    assert(t@.take(6)[0] == '#');
                    assert(t@.take(6)[1] == '(');
                    assert(t@.take(6)[2] == 'h');
                    assert(t@.take(6)[3] == 'e');
                    assert(t@.take(6)[4] == 'd');
                    assert(t@.take(6)[5] == ')');
                }
            }
        }
    }
    r
}

/// Parses `buf[from..to]`, one raw line.
fn parse_range(buf: &Vec<char>, from: usize, to: usize) -> (r: Line)
    requires
        from <= to <= buf@.len(),
    ensures
        r@ == parse_spec(buf@.subrange(from as int, to as int)),
{
    let ghost raw = buf@.subrange(from as int, to as int);
    let (a, b) = trim_range(buf, from, to);
    let ghost t = buf@.subrange(a as int, b as int);
    if a == b {
        return Line::Empty;
    }
    let marked = mark_at(buf, a, b);
    let p = if marked { a + 6 } else { a };
    let ghost rest = buf@.subrange(p as int, b as int);
    assert(rest == (if has_mark(t) { t.skip(6) } else { t }));
    if p < b && buf[p] == '#' {
        return Line::Comment(string_from(buf, a, b));
    }
    let found = find_in(buf, p, b, '#');
    let (end, comment) = match found {
        Some(k) => {
            let (ca, cb) = trim_range(buf, p + k + 1, b);
            assert(rest.take(k as int) == buf@.subrange(p as int, (p + k) as int));
            assert(rest.skip(k + 1) == buf@.subrange((p + k + 1) as int, b as int));
            (p + k, Some(string_from(buf, ca, cb)))
        },
        None => (b, None),
    };
    let ws = words_in(buf, p, end);
    let first_is_ip = ws.len() > 1 && is_ip(ws[0].as_str());
    match split_ip_hosts(ws, first_is_ip) {
        Some((ip, hosts)) => Line::Valid(ValidLine { ip, hosts, comment, enabled: !marked }),
        None => Line::Other(string_from(buf, a, b)),
    }
}

/// The address and the aliases among the words of a line: there must be at least two
/// words, the first of them an address (`first_is_ip` says whether it is one).
pub fn split_ip_hosts(words: Vec<String>, first_is_ip: bool) -> (r: Option<(String, Vec<String>)>)
    ensures
        r is Some <==> words@.len() > 1 && first_is_ip,
        r matches Some((ip, hosts)) ==> ip@ == words@[0]@ && strs_view(hosts@) == strs_view(
            words@,
        ).skip(1),
{
    if words.len() > 1 && first_is_ip {
        let mut hosts = words;
        let ghost wv = strs_view(hosts@);
        let ip = hosts.remove(0);
        assert(strs_view(hosts@) == wv.skip(1));
        Some((ip, hosts))
    } else {
        None
    }
}

/// Parses one line of text (it is trimmed first).
pub fn parse_line(raw: &str) -> (r: Line)
    ensures
        r@ == parse_spec(raw@),
{
    let buf = chars_of(raw);
    assert(buf@.subrange(0, buf@.len() as int) == buf@);
    parse_range(&buf, 0, buf.len())
}

/// Splits a text into lines and classifies each of them.
pub fn content_to_lines(s: &str) -> (r: Vec<Line>)
    ensures
        lines_view(r@) == parse_text(s@),
{
    let buf = chars_of(s);
    let ranges = line_ranges(&buf);
    let ghost raw = raw_lines(buf@);
    let mut out: Vec<Line> = Vec::new();
    let mut i: usize = 0;
    while i < ranges.len()
        invariant
            i <= ranges@.len() == raw.len(),
            raw == raw_lines(buf@),
            forall|q: int| 0 <= q < ranges@.len() ==> (#[trigger] ranges@[q]).0 <= ranges@[q].1 <= buf@.len(),
            forall|q: int|
                0 <= q < ranges@.len() ==> buf@.subrange(ranges@[q].0 as int, ranges@[q].1 as int)
                    == #[trigger] raw[q],
            lines_view(out@) == raw.take(i as int).map_values(|p: Seq<char>| parse_spec(p)),
        decreases ranges.len() - i,
    {
        let (lo, hi) = ranges[i];
        let line = parse_range(&buf, lo, hi);
        let ghost before = out@;
        out.push(line);
        proof {
            assert(lines_view(out@) == lines_view(before).push(line@));
            assert(raw.take(i + 1) == raw.take(i as int).push(raw[i as int]));
            assert(raw.take(i + 1).map_values(|p: Seq<char>| parse_spec(p)) == raw.take(
                i as int,
            ).map_values(|p: Seq<char>| parse_spec(p)).push(parse_spec(raw[i as int])));
        }
        i += 1;
    }
    assert(raw.take(ranges.len() as int) == raw);
    out
}

/// Appends `text` to `s`.
fn append_chars(s: &mut String, text: &String)
    ensures
        final(s)@ == old(s)@ + text@,
{
    s.append(text.as_str());
}

/// Puts the parts together with `sep` between each two of them.
fn join_strings(parts: &Vec<String>, sep: &String) -> (r: String)
    ensures
        r@ == join(strs_view(parts@), sep@),
{
    let mut r = String::new();
    let mut i: usize = 0;
    while i < parts.len()
        invariant
            i <= parts.len(),
            r@ == join(strs_view(parts@).take(i as int), sep@),
        decreases parts.len() - i,
    {
        let ghost t = strs_view(parts@).take(i + 1);
        assert(t.drop_last() == strs_view(parts@).take(i as int));
        if i > 0 {
            append_chars(&mut r, sep);
        } else {
            assert(t.len() == 1);
        }
        append_chars(&mut r, &parts[i]);
        i += 1;
    }
    assert(strs_view(parts@).take(parts.len() as int) == strs_view(parts@));
    r
}

/// The text of one record.
pub fn render_line(line: &Line) -> (r: String)
    ensures
        r@ == render(line@),
{
    match line {
        Line::Valid(v) => {
            let mut parts: Vec<String> = Vec::new();
            if !v.enabled {
                let mut m = String::new();
                m.append("#(hed)");
                proof {
                    reveal_strlit("#(hed)");
                    assert(m@ == mark());
                }
                parts.push(m);
            }
            let ghost head = strs_view(parts@);
            parts.push(v.ip.clone());
            let mut i: usize = 0;
            while i < v.hosts.len()
                invariant
                    i <= v.hosts.len(),
                    strs_view(parts@) == head.push(v.ip@) + strs_view(v.hosts@).take(i as int),
                decreases v.hosts.len() - i,
            {
                let ghost before = parts@;
                parts.push(v.hosts[i].clone());
                assert(strs_view(parts@) == strs_view(before).push(v.hosts@[i as int]@));
                assert(strs_view(v.hosts@).take(i + 1) == strs_view(v.hosts@).take(i as int).push(
                    v.hosts@[i as int]@,
                ));
                i += 1;
            }
            assert(strs_view(v.hosts@).take(v.hosts.len() as int) == strs_view(v.hosts@));
            if let Some(c) = &v.comment {
                let mut t = String::new();
                t.append("# ");
                t.append(c.as_str());
                proof {
                    reveal_strlit("# ");
                    assert(t@ == seq!['#', ' '] + c@);
                }
                let ghost before = parts@;
                parts.push(t);
                assert(strs_view(parts@) == strs_view(before).push(t@));
            }
            let mut sep = String::new();
            sep.append(" ");
            proof {
                reveal_strlit(" ");
            }
            assert(sep@ == seq![' ']);
            assert(strs_view(parts@) == valid_parts(
                v.ip@,
                strs_view(v.hosts@),
                opt_view(v.comment),
                v.enabled,
            ));
            join_strings(&parts, &sep)
        },
        Line::Comment(s) => s.clone(),
        Line::Other(s) => s.clone(),
        Line::Empty => String::new(),
    }
}

/// Renders every record and joins them with `"\r\n"` when `is_win` holds, else `"\n"`.
pub fn lines_to_content(lines: &Vec<Line>, is_win: bool) -> (r: String)
    ensures
        r@ == serialize(lines_view(lines@), is_win),
{
    let mut texts: Vec<String> = Vec::new();
    let mut i: usize = 0;
    while i < lines.len()
        invariant
            i <= lines.len(),
            strs_view(texts@) == lines_view(lines@).take(i as int).map_values(
                |l: LineModel| render(l),
            ),
        decreases lines.len() - i,
    {
        let ghost before = texts@;
        let t = render_line(&lines[i]);
        texts.push(t);
        assert(strs_view(texts@) == strs_view(before).push(t@));
        assert(lines_view(lines@).take(i + 1) == lines_view(lines@).take(i as int).push(
            lines@[i as int]@,
        ));
        assert(lines_view(lines@).take(i + 1).map_values(|l: LineModel| render(l)) == lines_view(
            lines@,
        ).take(i as int).map_values(|l: LineModel| render(l)).push(render(lines@[i as int]@)));
        i += 1;
    }
    assert(lines_view(lines@).take(lines.len() as int) == lines_view(lines@));
    let mut sep = String::new();
    if is_win {
        sep.append("\r\n");
        proof {
            reveal_strlit("\r\n");
        }
    } else {
        sep.append("\n");
        proof {
            reveal_strlit("\n");
        }
    }
    assert(sep@ == eol(is_win));
    join_strings(&texts, &sep)
}

} // verus!
