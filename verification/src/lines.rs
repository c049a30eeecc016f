//! Splitting text into lines, and joining lines back.
use vstd::prelude::*;
use crate::text::{trim_text, trim_chars, slice_chars, string_of, chars_of};
use crate::sorted::char_views;

verus! {

/// `str::split(c)`: the pieces between the occurrences of `c` (always at least one).
pub open spec fn split_on(s: Seq<char>, c: char) -> Seq<Seq<char>>
    decreases s.len(),
{
    match s.index_of_first(c) {
        Some(i) => {
            proof {
                s.index_of_first_ensures(c);
            }
            seq![s.take(i)] + split_on(s.skip(i + 1), c)
        },
        None => seq![s],
    }
}

/// A line without the `\r` of a `\r\n` ending.
pub open spec fn strip_cr(l: Seq<char>) -> Seq<char> {
    if l.len() > 0 && l.last() == '\r' {
        l.drop_last()
    } else {
        l
    }
}

/// `str::lines`: the lines of `s`, split at `\n` or `\r\n`, with no line after
/// a final line ending.
pub open spec fn text_lines(s: Seq<char>) -> Seq<Seq<char>> {
    let ps = split_on(s, '\n');
    if s.len() == 0 {
        seq![]
    } else {
        let init = ps.drop_last().map_values(|l: Seq<char>| strip_cr(l));
        if s.last() == '\n' {
            init
        } else {
            init.push(ps.last())
        }
    }
}

/// The pieces of `s` split at `c`, found by scanning from `start`.
proof fn lemma_split_step(s: Seq<char>, c: char, start: int, j: int)
    requires
        0 <= start <= j < s.len(),
        s[j] == c,
        forall|k: int| start <= k < j ==> s[k] != c,
    ensures
        split_on(s.skip(start), c) == seq![s.subrange(start, j)] + split_on(s.skip(j + 1), c),
{
    let t = s.skip(start);
    t.index_of_first_ensures(c);
    assert(t[j - start] == c);
    assert(t.contains(c));
    let idx = t.index_of_first(c)->0;
    assert(idx == j - start) by {
        if idx < j - start {
            assert(t[idx] == s[start + idx]);
        }
    }
    assert(t.take(j - start) =~= s.subrange(start, j));
    assert(t.skip(j - start + 1) =~= s.skip(j + 1));
}

/// The last piece: no `c` from `start` on.
proof fn lemma_split_last(s: Seq<char>, c: char, start: int)
    requires
        0 <= start <= s.len(),
        forall|k: int| start <= k < s.len() ==> s[k] != c,
    ensures
        split_on(s.skip(start), c) == seq![s.skip(start)],
{
    let t = s.skip(start);
    t.index_of_first_ensures(c);
    if t.contains(c) {
        let k = choose|k: int| 0 <= k < t.len() && t[k] == c;
        assert(s[start + k] == c);
    }
}

/// `str::split(c)` on characters.
pub fn split_chars(s: &[char], c: char) -> (r: Vec<Vec<char>>)
    ensures
        char_views(r@) == split_on(s@, c),
        r@.len() >= 1,
{
    let mut r: Vec<Vec<char>> = Vec::new();
    let mut start: usize = 0;
    let mut j: usize = 0;
    assert(s@.skip(0) =~= s@);
    while j < s.len()
        invariant
            start <= j <= s.len(),
            forall|k: int| start <= k < j ==> s@[k] != c,
            char_views(r@) + split_on(s@.skip(start as int), c) == split_on(s@, c),
        decreases s.len() - j,
    {
        if s[j] == c {
            proof {
                lemma_split_step(s@, c, start as int, j as int);
            }
            let piece = slice_chars(s, start, j);
            let ghost prev = r@;
            r.push(piece);
            assert(char_views(r@) =~= char_views(prev) + seq![s@.subrange(start as int, j as int)]);
            start = j + 1;
        }
        j = j + 1;
    }
    proof {
        lemma_split_last(s@, c, start as int);
    }
    let piece = slice_chars(s, start, s.len());
    let ghost prev = r@;
    r.push(piece);
    assert(s@.subrange(start as int, s@.len() as int) =~= s@.skip(start as int));
    assert(char_views(r@) =~= char_views(prev) + seq![s@.skip(start as int)]);
    r
}

/// `str::lines` on characters.
pub fn lines_chars(s: &[char]) -> (r: Vec<Vec<char>>)
    ensures
        char_views(r@) == text_lines(s@),
{
    let ps = split_chars(s, '\n');
    let mut r: Vec<Vec<char>> = Vec::new();
    if s.len() == 0 {
        assert(char_views(r@) =~= text_lines(s@));
        return r;
    }
    let n = ps.len() - 1;
    let mut i: usize = 0;
    while i < n
        invariant
            n == ps.len() - 1,
            i <= n,
            char_views(ps@) == split_on(s@, '\n'),
            char_views(r@) == split_on(s@, '\n').drop_last().map_values(
                |l: Seq<char>| strip_cr(l),
            ).take(i as int),
        decreases n - i,
    {
        let p = &ps[i];
        let line = if p.len() > 0 && p[p.len() - 1] == '\r' {
            slice_chars(p, 0, p.len() - 1)
        } else {
            slice_chars(p, 0, p.len())
        };
        assert(char_views(ps@)[i as int] == p@);
        assert(line@ == strip_cr(p@));
        let ghost prev = r@;
        r.push(line);
        assert(char_views(r@) =~= char_views(prev).push(line@));
        assert(char_views(r@) =~= split_on(s@, '\n').drop_last().map_values(
            |l: Seq<char>| strip_cr(l),
        ).take(i + 1));
        i = i + 1;
    }
    assert(split_on(s@, '\n').drop_last().map_values(|l: Seq<char>| strip_cr(l)).take(
        n as int,
    ) =~= split_on(s@, '\n').drop_last().map_values(|l: Seq<char>| strip_cr(l)));
    if s[s.len() - 1] != '\n' {
        let last = slice_chars(&ps[n], 0, ps[n].len());
        assert(char_views(ps@)[n as int] == last@);
        let ghost prev = r@;
        r.push(last);
        assert(char_views(r@) =~= char_views(prev).push(last@));
    }
    r
}

/// The trimmed, non-empty lines, in order: how the list of links is read
/// from a file or from pasted text.
pub open spec fn kept_lines(ls: Seq<Seq<char>>) -> Seq<Seq<char>>
    decreases ls.len(),
{
    if ls.len() == 0 {
        seq![]
    } else {
        let rest = kept_lines(ls.drop_last());
        let t = trim_text(ls.last());
        if t.len() == 0 {
            rest
        } else {
            rest.push(t)
        }
    }
}

/// The links of a list: each line trimmed, empty lines left out
/// (`lines().map(trim).filter(non-empty)`).
pub fn clean_lines(content: &str) -> (r: Vec<String>)
    ensures
        r@.map_values(|s: String| s@) == kept_lines(text_lines(content@)),
{
    let cs = chars_of(content);
    let ls = lines_chars(&cs);
    let mut r: Vec<String> = Vec::new();
    let mut i: usize = 0;
    while i < ls.len()
        invariant
            i <= ls.len(),
            char_views(ls@) == text_lines(content@),
            r@.map_values(|s: String| s@) == kept_lines(char_views(ls@).take(i as int)),
        decreases ls.len() - i,
    {
        let t = trim_chars(&ls[i]);
        assert(char_views(ls@).take(i + 1).drop_last() =~= char_views(ls@).take(i as int));
        assert(char_views(ls@).take(i + 1).last() == ls@[i as int]@);
        if t.len() > 0 {
            let ghost prev = r@;
            r.push(string_of(&t));
            assert(r@.map_values(|s: String| s@) =~= prev.map_values(|s: String| s@).push(t@));
        }
        i = i + 1;
    }
    assert(char_views(ls@).take(ls@.len() as int) =~= char_views(ls@));
    r
}

/// Texts joined with a separator between each two.
pub open spec fn join_with(parts: Seq<Seq<char>>, sep: Seq<char>) -> Seq<char>
    decreases parts.len(),
{
    if parts.len() == 0 {
        seq![]
    } else if parts.len() == 1 {
        parts[0]
    } else {
        join_with(parts.drop_last(), sep) + sep + parts.last()
    }
}

/// `[String]::join("\n")`: the lines one after another, a newline between each two.
pub fn join_lines(parts: &Vec<String>) -> (r: String)
    ensures
        r@ == join_with(parts@.map_values(|s: String| s@), seq!['\n']),
{
    let ghost views = parts@.map_values(|s: String| s@);
    let mut out: Vec<char> = Vec::new();
    let mut i: usize = 0;
    while i < parts.len()
        invariant
            i <= parts.len(),
            views == parts@.map_values(|s: String| s@),
            out@ == join_with(views.take(i as int), seq!['\n']),
        decreases parts.len() - i,
    {
        if i > 0 {
            out.push('\n');
        }
        let cs = chars_of(parts[i].as_str());
        let mut k: usize = 0;
        let ghost base = out@;
        while k < cs.len()
            invariant
                k <= cs.len(),
                out@ == base + cs@.take(k as int),
            decreases cs.len() - k,
        {
            out.push(cs[k]);
            assert(cs@.take(k + 1) =~= cs@.take(k as int).push(cs@[k as int]));
            k = k + 1;
        }
        assert(cs@.take(cs@.len() as int) =~= cs@);
        assert(views.take(i + 1).drop_last() =~= views.take(i as int));
        assert(views.take(i + 1).last() == cs@);
        if i == 0 {
            assert(out@ =~= views.take(1)[0]);
        } else {
            assert(out@ =~= join_with(views.take(i as int), seq!['\n']) + seq!['\n'] + cs@);
        }
        i = i + 1;
    }
    assert(views.take(parts@.len() as int) =~= views);
    string_of(&out)
}


/// No piece of a split holds the separator.
pub proof fn lemma_split_pieces(s: Seq<char>, c: char)
    ensures
        forall|i: int| 0 <= i < split_on(s, c).len() ==> !(#[trigger] split_on(s, c)[i]).contains(c),
    decreases s.len(),
{
    s.index_of_first_ensures(c);
    match s.index_of_first(c) {
        Some(i) => {
            lemma_split_pieces(s.skip(i + 1), c);
            let head = s.take(i);
            assert(!head.contains(c)) by {
                if head.contains(c) {
                    let k = choose|k: int| 0 <= k < head.len() && head[k] == c;
                    assert(s[k] == c);
                }
            }
            let ps = split_on(s, c);
            assert forall|j: int| 0 <= j < ps.len() implies !(#[trigger] ps[j]).contains(c) by {
                if j > 0 {
                    assert(ps[j] == split_on(s.skip(i + 1), c)[j - 1]);
                }
            }
        },
        None => {},
    }
}

/// No line of a text holds a newline.
pub proof fn lemma_lines_have_no_newline(s: Seq<char>)
    ensures
        forall|i: int| 0 <= i < text_lines(s).len() ==> !(#[trigger] text_lines(s)[i]).contains('\n'),
{
    lemma_split_pieces(s, '\n');
    let ps = split_on(s, '\n');
    let ls = text_lines(s);
    assert forall|i: int| 0 <= i < ls.len() implies !(#[trigger] ls[i]).contains('\n') by {
        assert(!ps[i].contains('\n'));
        if ls[i] != ps[i] {
            assert(ls[i] =~= ps[i].drop_last());
            if ls[i].contains('\n') {
                let k = choose|k: int| 0 <= k < ls[i].len() && ls[i][k] == '\n';
                assert(ps[i][k] == '\n');
            }
        }
    }
}

/// Joining from the front: the first text, the separator, then the rest joined.
pub proof fn lemma_join_front(parts: Seq<Seq<char>>, sep: Seq<char>)
    requires
        parts.len() >= 2,
    ensures
        join_with(parts, sep) == parts[0] + sep + join_with(parts.drop_first(), sep),
    decreases parts.len(),
{
    let rest = parts.drop_first();
    if parts.len() == 2 {
        assert(parts.drop_last().len() == 1);
        assert(join_with(parts.drop_last(), sep) == parts[0]);
        assert(rest.len() == 1);
        assert(join_with(rest, sep) == parts[1]);
        assert(join_with(parts, sep) == join_with(parts.drop_last(), sep) + sep + parts[1]);
    } else {
        lemma_join_front(parts.drop_last(), sep);
        assert(parts.drop_last().drop_first() =~= rest.drop_last());
        assert(rest.last() == parts.last());
        assert(join_with(parts, sep) =~= parts[0] + sep + join_with(rest, sep));
    }
}

/// Splitting at the first separator when the text before it has none.
proof fn lemma_split_prefix(a: Seq<char>, b: Seq<char>, c: char)
    requires
        !a.contains(c),
    ensures
        split_on(a + seq![c] + b, c) == seq![a] + split_on(b, c),
{
    let s = a + seq![c] + b;
    assert forall|k: int| 0 <= k < a.len() implies s[k] != c by {
        assert(s[k] == a[k]);
        if a[k] == c {
            assert(a.contains(c));
        }
    }
    assert(s[a.len() as int] == c);
    lemma_split_step(s, c, 0, a.len() as int);
    assert(s.skip(0) =~= s);
    assert(s.subrange(0, a.len() as int) =~= a);
    assert(s.skip(a.len() as int + 1) =~= b);
}

/// Splitting lines joined by newlines, followed by a newline and more text,
/// gives the lines back, then the pieces of what follows.
proof fn lemma_split_joined(parts: Seq<Seq<char>>, t: Seq<char>)
    requires
        parts.len() >= 1,
        forall|i: int| 0 <= i < parts.len() ==> !(#[trigger] parts[i]).contains('\n'),
    ensures
        split_on(join_with(parts, seq!['\n']) + seq!['\n'] + t, '\n') == parts + split_on(t, '\n'),
    decreases parts.len(),
{
    let nl = seq!['\n'];
    if parts.len() == 1 {
        assert(!parts[0].contains('\n'));
        lemma_split_prefix(parts[0], t, '\n');
        assert(seq![parts[0]] =~= parts);
    } else {
        let rest = parts.drop_first();
        lemma_join_front(parts, nl);
        assert forall|i: int| 0 <= i < rest.len() implies !(#[trigger] rest[i]).contains('\n') by {
            assert(rest[i] == parts[i + 1]);
        }
        lemma_split_joined(rest, t);
        let tail = join_with(rest, nl) + nl + t;
        assert(join_with(parts, nl) + nl + t =~= parts[0] + nl + tail);
        assert(!parts[0].contains('\n'));
        lemma_split_prefix(parts[0], tail, '\n');
        assert(seq![parts[0]] + rest =~= parts);
        assert(seq![parts[0]] + (rest + split_on(t, '\n')) =~= parts + split_on(t, '\n'));
    }
}

/// Splitting lines joined by newlines gives the lines back.
proof fn lemma_split_joined_end(parts: Seq<Seq<char>>)
    requires
        parts.len() >= 1,
        forall|i: int| 0 <= i < parts.len() ==> !(#[trigger] parts[i]).contains('\n'),
    ensures
        split_on(join_with(parts, seq!['\n']), '\n') == parts,
    decreases parts.len(),
{
    let nl = seq!['\n'];
    if parts.len() == 1 {
        let p = parts[0];
        assert forall|k: int| 0 <= k < p.len() implies p[k] != '\n' by {
            if p[k] == '\n' {
                assert(p.contains('\n'));
            }
        }
        lemma_split_last(p, '\n', 0);
        assert(p.skip(0) =~= p);
        assert(seq![p] =~= parts);
    } else {
        let rest = parts.drop_first();
        lemma_join_front(parts, nl);
        assert forall|i: int| 0 <= i < rest.len() implies !(#[trigger] rest[i]).contains('\n') by {
            assert(rest[i] == parts[i + 1]);
        }
        lemma_split_joined_end(rest);
        assert(!parts[0].contains('\n'));
        lemma_split_prefix(parts[0], join_with(rest, nl), '\n');
        assert(seq![parts[0]] + rest =~= parts);
    }
}

/// A trimmed line does not end with the `\r` of a line ending.
proof fn lemma_strip_cr_trimmed(l: Seq<char>)
    requires
        l.len() > 0 ==> !crate::text::is_white_space(l.last()),
    ensures
        strip_cr(l) == l,
{
}

/// The lines of lines joined by newlines, each followed by a newline, are
/// those lines, when none holds a newline or ends with `\r`.
pub proof fn lemma_lines_of_terminated(parts: Seq<Seq<char>>)
    requires
        parts.len() >= 1,
        forall|i: int| 0 <= i < parts.len() ==> !(#[trigger] parts[i]).contains('\n'),
        forall|i: int| 0 <= i < parts.len() ==> strip_cr(#[trigger] parts[i]) == parts[i],
    ensures
        text_lines(join_with(parts, seq!['\n']) + seq!['\n']) == parts,
{
    let s = join_with(parts, seq!['\n']) + seq!['\n'];
    lemma_split_joined(parts, seq![]);
    assert(s + seq![] =~= s);
    assert(split_on(seq![], '\n') =~= seq![seq![]]) by {
        let e: Seq<char> = seq![];
        e.index_of_first_ensures('\n');
    }
    let ps = split_on(s, '\n');
    assert(ps.drop_last() =~= parts);
    assert(ps.drop_last().map_values(|l: Seq<char>| strip_cr(l)) =~= parts);
}

/// The lines of lines joined by newlines are those lines, when none is
/// empty, holds a newline or ends with `\r`.
pub proof fn lemma_lines_of_joined(parts: Seq<Seq<char>>)
    requires
        forall|i: int| 0 <= i < parts.len() ==> (#[trigger] parts[i]).len() > 0,
        forall|i: int| 0 <= i < parts.len() ==> !(#[trigger] parts[i]).contains('\n'),
        forall|i: int| 0 <= i < parts.len() ==> strip_cr(#[trigger] parts[i]) == parts[i],
    ensures
        text_lines(join_with(parts, seq!['\n'])) == parts,
{
    let s = join_with(parts, seq!['\n']);
    if parts.len() == 0 {
        assert(text_lines(s) =~= parts);
    } else {
        lemma_split_joined_end(parts);
        lemma_join_last(parts, seq!['\n']);
        let last = parts.last();
        assert(last.len() > 0);
        assert(!last.contains('\n'));
        assert(s.last() != '\n') by {
            assert(s.last() == last.last());
            if last.last() == '\n' {
                assert(last.contains('\n'));
            }
        }
        assert(parts.drop_last().map_values(|l: Seq<char>| strip_cr(l)) =~= parts.drop_last());
        assert(parts.drop_last().push(last) =~= parts);
    }
}

/// Lines joined end with the last line.
proof fn lemma_join_last(parts: Seq<Seq<char>>, sep: Seq<char>)
    requires
        parts.len() >= 1,
    ensures
        join_with(parts, sep).len() >= parts.last().len(),
        parts.last().len() > 0 ==> join_with(parts, sep).last() == parts.last().last(),
{
    let j = join_with(parts, sep);
    if parts.len() > 1 {
        assert(j == join_with(parts.drop_last(), sep) + sep + parts.last());
    }
}

/// Trimmed, non-empty lines are kept as they are.
pub proof fn lemma_kept_clean(ls: Seq<Seq<char>>)
    requires
        forall|i: int| 0 <= i < ls.len() ==> (#[trigger] ls[i]).len() > 0 && trim_text(ls[i]) == ls[i],
    ensures
        kept_lines(ls) == ls,
    decreases ls.len(),
{
    if ls.len() > 0 {
        let init = ls.drop_last();
        assert forall|i: int| 0 <= i < init.len() implies (#[trigger] init[i]).len() > 0 && trim_text(init[i]) == init[i] by {
            assert(init[i] == ls[i]);
        }
        lemma_kept_clean(init);
        assert(init.push(ls.last()) =~= ls);
    }
}

/// The links written to the list file, one per line, are the links read
/// back from it, when each is non-empty, trimmed and on one line.
pub proof fn lemma_saved_links_load_back(links: Seq<Seq<char>>)
    requires
        forall|i: int| 0 <= i < links.len() ==> (#[trigger] links[i]).len() > 0,
        forall|i: int| 0 <= i < links.len() ==> trim_text(#[trigger] links[i]) == links[i],
        forall|i: int| 0 <= i < links.len() ==> !(#[trigger] links[i]).contains('\n'),
    ensures
        kept_lines(text_lines(join_with(links, seq!['\n']))) == links,
{
    assert forall|i: int| 0 <= i < links.len() implies strip_cr(#[trigger] links[i]) == links[i] by {
        crate::text::lemma_trim_shape(links[i]);
        lemma_strip_cr_trimmed(links[i]);
    }
    lemma_lines_of_joined(links);
    lemma_kept_clean(links);
}

/// A lone newline is one empty line.
pub proof fn lemma_lines_of_newline()
    ensures
        text_lines(seq!['\n']) == seq![Seq::<char>::empty()],
{
    let e: Seq<char> = seq![];
    lemma_split_prefix(e, e, '\n');
    assert(e + seq!['\n'] + e =~= seq!['\n']);
    e.index_of_first_ensures('\n');
    assert(split_on(e, '\n') =~= seq![e]);
    let ps = split_on(seq!['\n'], '\n');
    assert(ps =~= seq![e, e]);
    assert(ps.drop_last().map_values(|l: Seq<char>| strip_cr(l)) =~= seq![e]);
}

/// Cutting the `\r` of a line ending does not change the trimmed line.
pub proof fn lemma_trim_strip_cr(l: Seq<char>)
    ensures
        trim_text(strip_cr(l)) == trim_text(l),
{
    if l.len() > 0 && l.last() == '\r' {
        assert(crate::text::is_white_space('\r'));
        crate::text::lemma_trim_drop_space_last(l);
    }
}

/// Reading back lines joined by newlines gives no more lines than were
/// joined, and each line read, trimmed, is the joined line at its position,
/// trimmed.
pub proof fn lemma_lines_of_joined_trimmed(parts: Seq<Seq<char>>)
    requires
        forall|i: int| 0 <= i < parts.len() ==> !(#[trigger] parts[i]).contains('\n'),
    ensures
        text_lines(join_with(parts, seq!['\n'])).len() <= parts.len(),
        forall|i: int|
            0 <= i < text_lines(join_with(parts, seq!['\n'])).len() ==> trim_text(
                #[trigger] text_lines(join_with(parts, seq!['\n']))[i],
            ) == trim_text(parts[i]),
{
    let s = join_with(parts, seq!['\n']);
    let ls = text_lines(s);
    if parts.len() == 0 {
        assert(s.len() == 0);
    } else if s.len() > 0 {
        lemma_split_joined_end(parts);
        let ps = split_on(s, '\n');
        assert(ps == parts);
        assert forall|i: int| 0 <= i < ls.len() implies trim_text(#[trigger] ls[i]) == trim_text(parts[i]) by {
            if i < parts.len() - 1 {
                assert(ls[i] == strip_cr(parts[i]));
                lemma_trim_strip_cr(parts[i]);
            } else {
                assert(ls[i] == parts.last());
            }
        }
    }
}

} // verus!
