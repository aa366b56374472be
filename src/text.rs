//! Character-level helpers: whitespace, trimming, words and line pieces,
//! stated over `Seq<char>` and computed over `Vec<char>` buffers.
use vstd::prelude::*;

verus! {

/// Unicode `White_Space`, the set that `char::is_whitespace` tests.
pub open spec fn is_space(c: char) -> bool {
    let u = c as u32;
    (9 <= u <= 13) || u == 32 || u == 0x85 || u == 0xa0 || u == 0x1680 || (0x2000 <= u <= 0x200a)
        || u == 0x2028 || u == 0x2029 || u == 0x202f || u == 0x205f || u == 0x3000
}

pub fn is_space_char(c: char) -> (r: bool)
    ensures
        r == is_space(c),
{
    let u = c as u32;
    (9 <= u && u <= 13) || u == 32 || u == 0x85 || u == 0xa0 || u == 0x1680 || (0x2000 <= u && u
        <= 0x200a) || u == 0x2028 || u == 0x2029 || u == 0x202f || u == 0x205f || u == 0x3000
}

/// Drops leading whitespace.
pub open spec fn trim_start(s: Seq<char>) -> Seq<char>
    decreases s.len(),
{
    if s.len() > 0 && is_space(s[0]) {
        trim_start(s.drop_first())
    } else {
        s
    }
}

/// Drops trailing whitespace.
pub open spec fn trim_end(s: Seq<char>) -> Seq<char>
    decreases s.len(),
{
    if s.len() > 0 && is_space(s.last()) {
        trim_end(s.drop_last())
    } else {
        s
    }
}

/// What `str::trim` gives: the text without whitespace at either end.
pub open spec fn trim(s: Seq<char>) -> Seq<char> {
    trim_end(trim_start(s))
}

/// The maximal runs of non-whitespace characters, in order (`split_whitespace`).
pub open spec fn words(s: Seq<char>) -> Seq<Seq<char>>
    decreases s.len(),
{
    if s.len() == 0 {
        seq![]
    } else {
        let w = words(s.drop_last());
        let c = s.last();
        if is_space(c) {
            w
        } else if s.len() >= 2 && !is_space(s[s.len() - 2]) {
            w.update(w.len() - 1, w.last().push(c))
        } else {
            w.push(seq![c])
        }
    }
}

/// The first position of `c` in `s`, or -1.
pub open spec fn find(s: Seq<char>, c: char) -> int
    decreases s.len(),
{
    if s.len() == 0 {
        -1
    } else {
        let f = find(s.drop_last(), c);
        if f >= 0 {
            f
        } else if s.last() == c {
            s.len() - 1
        } else {
            -1
        }
    }
}

/// The pieces between line feeds; there is always one more piece than line feeds.
pub open spec fn pieces(s: Seq<char>) -> Seq<Seq<char>>
    decreases s.len(),
{
    if s.len() == 0 {
        seq![seq![]]
    } else {
        let p = pieces(s.drop_last());
        if s.last() == '\n' {
            p.push(seq![])
        } else {
            p.update(p.len() - 1, p.last().push(s.last()))
        }
    }
}

/// The lines of a text as `str::lines` reads them, before trimming: the pieces between
/// line feeds, without the empty piece after a final line feed.
pub open spec fn raw_lines(s: Seq<char>) -> Seq<Seq<char>> {
    let p = pieces(s);
    if p.last().len() == 0 {
        p.drop_last()
    } else {
        p
    }
}

/// The parts put together with `sep` between each two of them.
pub open spec fn join(parts: Seq<Seq<char>>, sep: Seq<char>) -> Seq<char>
    decreases parts.len(),
{
    if parts.len() == 0 {
        seq![]
    } else if parts.len() == 1 {
        parts[0]
    } else {
        join(parts.drop_last(), sep) + sep + parts.last()
    }
}

/// Whether `needle` occurs in `hay` at some position.
pub open spec fn occurs_in(needle: Seq<char>, hay: Seq<char>) -> bool {
    exists|i: int| 0 <= i <= hay.len() - needle.len() && #[trigger] hay.subrange(i, i + needle.len()) == needle
}

/// A text has no more words than characters.
pub proof fn lemma_words_len(s: Seq<char>)
    ensures
        words(s).len() <= s.len(),
        s.len() > 0 && !is_space(s.last()) ==> words(s).len() >= 1,
    decreases s.len(),
{
    if s.len() > 0 {
        lemma_words_len(s.drop_last());
        if s.len() >= 2 {
            assert(s.drop_last().last() == s[s.len() - 2]);
        }
    }
}

/// Copies a text into a buffer of its characters.
pub fn chars_of(s: &str) -> (r: Vec<char>)
    ensures
        r@ == s@,
{
    let mut r: Vec<char> = Vec::new();
    for c in it: s.chars()
        invariant
            r@ == it.seq().take(it.index() as int),
    {
        r.push(c);
    }
    r
}


/// Relies on `String::push`: the character is appended at the end.
#[verifier::external_body]
fn push_char(s: &mut String, c: char)
    ensures
        final(s)@ == old(s)@.push(c),
{
    s.push(c)
}

/// A new string holding `buf[from..to]`.
pub fn string_from(buf: &Vec<char>, from: usize, to: usize) -> (r: String)
    requires
        from <= to <= buf@.len(),
    ensures
        r@ == buf@.subrange(from as int, to as int),
{
    let mut r = String::new();
    let mut i = from;
    while i < to
        invariant
            from <= i <= to <= buf@.len(),
            r@ == buf@.subrange(from as int, i as int),
        decreases to - i,
    {
        push_char(&mut r, buf[i]);
        assert(buf@.subrange(from as int, i + 1) == buf@.subrange(from as int, i as int).push(
            buf@[i as int],
        ));
        i += 1;
    }
    r
}

/// The bounds of `trim(buf[from..to])` inside `buf`.
pub fn trim_range(buf: &Vec<char>, from: usize, to: usize) -> (r: (usize, usize))
    requires
        from <= to <= buf@.len(),
    ensures
        from <= r.0 <= r.1 <= to,
        buf@.subrange(r.0 as int, r.1 as int) == trim(buf@.subrange(from as int, to as int)),
{
    let ghost s = buf@.subrange(from as int, to as int);
    let mut a = from;
    while a < to && is_space_char(buf[a])
        invariant
            from <= a <= to <= buf@.len(),
            s == buf@.subrange(from as int, to as int),
            trim_start(s) == trim_start(buf@.subrange(a as int, to as int)),
        decreases to - a,
    {
        assert(buf@.subrange(a as int, to as int).drop_first() == buf@.subrange(a + 1, to as int));
        a += 1;
    }
    let ghost t = buf@.subrange(a as int, to as int);
    assert(trim_start(s) == t);
    let mut b = to;
    while b > a && is_space_char(buf[b - 1])
        invariant
            from <= a <= b <= to <= buf@.len(),
            t == buf@.subrange(a as int, to as int),
            trim_end(t) == trim_end(buf@.subrange(a as int, b as int)),
        decreases b,
    {
        assert(buf@.subrange(a as int, b as int).drop_last() == buf@.subrange(a as int, b - 1));
        b -= 1;
    }
    (a, b)
}

/// The first position of `c` in `buf[from..to]`, counted from `from`.
pub fn find_in(buf: &Vec<char>, from: usize, to: usize, c: char) -> (r: Option<usize>)
    requires
        from <= to <= buf@.len(),
    ensures
        match r {
            Some(k) => find(buf@.subrange(from as int, to as int), c) == k as int && from + k < to,
            None => find(buf@.subrange(from as int, to as int), c) == -1,
        },
{
    let mut i = from;
    while i < to
        invariant
            from <= i <= to <= buf@.len(),
            find(buf@.subrange(from as int, i as int), c) == -1,
        decreases to - i,
    {
        assert(buf@.subrange(from as int, i + 1).drop_last() == buf@.subrange(from as int, i as int));
        if buf[i] == c {
            proof {
                lemma_find_prefix(buf@.subrange(from as int, to as int), (i - from) as int + 1, c);
                assert(buf@.subrange(from as int, to as int).subrange(0, (i - from) as int + 1)
                    == buf@.subrange(from as int, i + 1));
            }
            return Some(i - from);
        }
        i += 1;
    }
    None
}

/// A position found in a prefix stays the first position in the whole text.
pub proof fn lemma_find_prefix(s: Seq<char>, n: int, c: char)
    requires
        0 <= n <= s.len(),
        find(s.subrange(0, n), c) >= 0,
    ensures
        find(s, c) == find(s.subrange(0, n), c),
    decreases s.len() - n,
{
    if n < s.len() {
        assert(s.subrange(0, n + 1).drop_last() == s.subrange(0, n));
        lemma_find_prefix(s, n + 1, c);
    } else {
        assert(s.subrange(0, n) == s);
    }
}

/// The words of `buf[from..to]`, each as a new string.
pub fn words_in(buf: &Vec<char>, from: usize, to: usize) -> (r: Vec<String>)
    requires
        from <= to <= buf@.len(),
    ensures
        strs_view(r@) == words(buf@.subrange(from as int, to as int)),
{
    let mut r: Vec<String> = Vec::new();
    let mut i = from;
    let mut start = from;
    let mut in_word = false;
    while i < to
        invariant
            from <= start <= i <= to <= buf@.len(),
            in_word ==> start < i,
            !in_word ==> start == i,
            in_word ==> words(buf@.subrange(from as int, i as int)) == strs_view(r@).push(
                buf@.subrange(start as int, i as int),
            ),
            in_word ==> !is_space(buf@[i - 1]),
            !in_word ==> words(buf@.subrange(from as int, i as int)) == strs_view(r@),
            !in_word && i > from ==> is_space(buf@[i - 1]),
        decreases to - i,
    {
        let ghost pre = buf@.subrange(from as int, i as int);
        let ghost cur = buf@.subrange(from as int, i + 1);
        assert(cur.drop_last() == pre);
        assert(cur.last() == buf@[i as int]);
        if is_space_char(buf[i]) {
            if in_word {
                let ghost before = r@;
                let w = string_from(buf, start, i);
                r.push(w);
                assert(strs_view(r@) == strs_view(before).push(w@));
            }
            in_word = false;
            start = i + 1;
        } else {
            if !in_word {
                start = i;
                in_word = true;
                assert(buf@.subrange(start as int, i + 1) == seq![buf@[i as int]]);
            } else {
                let ghost w0 = buf@.subrange(start as int, i as int);
                assert(buf@.subrange(start as int, i + 1) == w0.push(buf@[i as int]));
                assert(strs_view(r@).push(w0).update(strs_view(r@).len() as int, w0.push(
                    buf@[i as int],
                )) == strs_view(r@).push(w0.push(buf@[i as int])));
            }
        }
        i += 1;
    }
    assert(buf@.subrange(from as int, i as int) == buf@.subrange(from as int, to as int));
    if in_word {
        let ghost before = r@;
        let w = string_from(buf, start, to);
        r.push(w);
        assert(strs_view(r@) == strs_view(before).push(w@));
    }
    r
}

/// The views of a sequence of strings.
pub open spec fn strs_view(v: Seq<String>) -> Seq<Seq<char>> {
    v.map_values(|s: String| s@)
}

/// The bounds in `buf` of each of its lines, as `raw_lines` gives them.
pub fn line_ranges(buf: &Vec<char>) -> (r: Vec<(usize, usize)>)
    ensures
        r@.len() == raw_lines(buf@).len(),
        forall|q: int| 0 <= q < r@.len() ==> (#[trigger] r@[q]).0 <= r@[q].1 <= buf@.len(),
        forall|q: int|
            0 <= q < r@.len() ==> buf@.subrange(r@[q].0 as int, r@[q].1 as int)
                == #[trigger] raw_lines(buf@)[q],
{
    let n = buf.len();
    let mut out: Vec<(usize, usize)> = Vec::new();
    let ghost mut done: Seq<Seq<char>> = seq![];
    let mut start: usize = 0;
    let mut i: usize = 0;
    assert(buf@.subrange(0, 0) == Seq::<char>::empty());
    while i < n
        invariant
            n == buf@.len(),
            start <= i <= n,
            pieces(buf@.subrange(0, i as int)) == done.push(buf@.subrange(start as int, i as int)),
            out@.len() == done.len(),
            forall|q: int| 0 <= q < out@.len() ==> (#[trigger] out@[q]).0 <= out@[q].1 <= n,
            forall|q: int|
                0 <= q < out@.len() ==> buf@.subrange(out@[q].0 as int, out@[q].1 as int)
                    == #[trigger] done[q],
        decreases n - i,
    {
        assert(buf@.subrange(0, i + 1).drop_last() == buf@.subrange(0, i as int));
        assert(buf@.subrange(0, i + 1).last() == buf@[i as int]);
        if buf[i] == '\n' {
            let ghost out0 = out@;
            let ghost done0 = done;
            out.push((start, i));
            proof {
                done = done.push(buf@.subrange(start as int, i as int));
                assert(buf@.subrange(i + 1, i + 1) == Seq::<char>::empty());
                assert forall|q: int|
                    0 <= q < out@.len() implies out@[q].0 <= out@[q].1 <= n && buf@.subrange(
                    out@[q].0 as int,
                    out@[q].1 as int,
                ) == #[trigger] done[q] by {
                    if q < out0.len() {
                        assert(out@[q] == out0[q]);
                        assert(done[q] == done0[q]);
                    }
                }
            }
            start = i + 1;
        } else {
            proof {
                let cur = buf@.subrange(start as int, i as int);
                assert(buf@.subrange(start as int, i + 1) == cur.push(buf@[i as int]));
                assert(done.push(cur).update(done.len() as int, cur.push(buf@[i as int])) == done.push(
                    cur.push(buf@[i as int]),
                ));
            }
        }
        i += 1;
    }
    assert(buf@.subrange(0, n as int) == buf@);
    let ghost out0 = out@;
    let ghost done0 = done;
    if start < n {
        out.push((start, n));
        proof {
            done = done.push(buf@.subrange(start as int, n as int));
            assert(raw_lines(buf@) == done);
        }
    } else {
        assert(done.push(buf@.subrange(start as int, n as int)).drop_last() == done);
        assert(raw_lines(buf@) == done);
    }
    assert forall|q: int|
        0 <= q < out@.len() implies (#[trigger] out@[q]).0 <= out@[q].1 <= buf@.len() && buf@.subrange(
        out@[q].0 as int,
        out@[q].1 as int,
    ) == raw_lines(buf@)[q] by {
        assert(raw_lines(buf@)[q] == done[q]);
        if q < out0.len() {
            assert(out@[q] == out0[q]);
            assert(done[q] == done0[q]);
        }
    }
    out
}

/// The text with its first character made upper case when it is an ASCII lower-case letter.
pub open spec fn first_upper(s: Seq<char>) -> Seq<char> {
    if s.len() > 0 && 'a' <= s[0] <= 'z' {
        s.update(0, (((s[0] as u32) - 32) as u8) as char)
    } else {
        s
    }
}

/// The text with its first character made upper case when it is an ASCII lower-case letter.
pub fn first_uppercase(s: &str) -> (r: String)
    ensures
        r@ == first_upper(s@),
{
    let mut buf = chars_of(s);
    if buf.len() > 0 && 'a' <= buf[0] && buf[0] <= 'z' {
        let c = (((buf[0] as u32) - 32) as u8) as char;
        buf.set(0, c);
    }
    assert(buf@.subrange(0, buf@.len() as int) == buf@);
    string_from(&buf, 0, buf.len())
}

} // verus!
