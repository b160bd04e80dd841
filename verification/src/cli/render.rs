//! Shared terminal-output helpers: width resolution and char-safe text
//! wrapping, truncation and tables.
use vstd::prelude::*;

use crate::model::project::Project;
use crate::text::{
    chars_of, concat, is_whitespace, is_ws, join, join_chars, push_all, push_range, push_str, split_by, split_chars,
    split_lines, string_from, words, lemma_split_pieces_clean, lemma_split_nonempty, is_sep,
};

verus! {

/// Default wrap width when no config is set and the terminal size is unknown.
pub const DEFAULT_WRAP_WIDTH: usize = 80;

/// Minimum columns a wrap/format target is clamped to.
pub const MIN_WRAP_WIDTH: usize = 8;

/// Columns a description block is indented by when printed beneath a table row.
pub const DESC_INDENT: usize = 5;

/// `width`, but at least 1.
pub open spec fn at_least_one(width: nat) -> nat {
    if width == 0 {
        1
    } else {
        width
    }
}

/// One source line hard-wrapped: a newline after every `w` characters, except at the end.
pub open spec fn hard_line(l: Seq<char>, w: nat) -> Seq<char>
    decreases l.len(),
{
    if w == 0 || l.len() <= w {
        l
    } else {
        l.take(w as int) + seq!['\n'] + hard_line(l.skip(w as int), w)
    }
}

/// `text` hard-wrapped to `width` columns: each source line is cut into
/// chunks of at most `width` characters (an empty line stays empty).
pub open spec fn hard_wrap_spec(text: Seq<char>, width: nat) -> Seq<char> {
    join(
        split_lines(text).map_values(|l: Seq<char>| hard_line(l, at_least_one(width))),
        seq!['\n'],
    )
}

/// A token cut into pieces of at most `w` characters.
pub open spec fn chunks(t: Seq<char>, w: nat) -> Seq<Seq<char>>
    decreases t.len(),
{
    if w == 0 || t.len() <= w {
        seq![t]
    } else {
        seq![t.take(w as int)] + chunks(t.skip(w as int), w)
    }
}

/// The tokens of a line: each word, cut into chunks when longer than `w`.
pub open spec fn pieces(ws: Seq<Seq<char>>, w: nat) -> Seq<Seq<char>>
    decreases ws.len(),
{
    if ws.len() == 0 {
        Seq::empty()
    } else {
        pieces(ws.drop_last(), w) + chunks(ws.last(), w)
    }
}

/// Greedy line filling: the finished lines (each followed by a newline) and
/// the line being filled. A token joins the current line, after one space,
/// while the line stays within `w`; otherwise it starts a new line.
pub open spec fn fill_state(ps: Seq<Seq<char>>, w: nat) -> (Seq<char>, Seq<char>)
    decreases ps.len(),
{
    if ps.len() == 0 {
        (Seq::empty(), Seq::empty())
    } else {
        let (d, cur) = fill_state(ps.drop_last(), w);
        let t = ps.last();
        if cur.len() == 0 {
            (d, t)
        } else if cur.len() + 1 + t.len() <= w {
            (d, cur + seq![' '] + t)
        } else {
            (d + cur + seq!['\n'], t)
        }
    }
}

/// The text of one source line word-wrapped to `w` columns.
pub open spec fn fill(ps: Seq<Seq<char>>, w: nat) -> Seq<char> {
    fill_state(ps, w).0 + fill_state(ps, w).1
}

/// `text` word-wrapped to `width` columns: every source line is wrapped on
/// its own, words kept whole unless longer than the width.
pub open spec fn wrap_words_spec(text: Seq<char>, width: nat) -> Seq<char> {
    join(
        split_lines(text).map_values(
            |l: Seq<char>| fill(pieces(words(l), at_least_one(width)), at_least_one(width)),
        ),
        seq!['\n'],
    )
}

/// One line hard-wrapped to `w > 0` columns.
fn hard_line_exec(l: &[char], w: usize) -> (r: Vec<char>)
    requires
        w > 0,
    ensures
        r@ == hard_line(l@, w as nat),
{
    let mut out: Vec<char> = Vec::new();
    let mut i: usize = 0;
    assert(l@.skip(0) =~= l@);
    while l.len() - i > w
        invariant
            i <= l@.len(),
            w > 0,
            out@ + hard_line(l@.skip(i as int), w as nat) == hard_line(l@, w as nat),
        decreases l@.len() - i,
    {
        let ghost rest = l@.skip(i as int);
        assert(rest.skip(w as int) =~= l@.skip(i + w));
        assert(rest.take(w as int) =~= l@.subrange(i as int, i + w));
        push_range(&mut out, l, i, i + w);
        out.push('\n');
        i += w;
    }
    let ghost rest = l@.skip(i as int);
    assert(rest =~= l@.subrange(i as int, l@.len() as int));
    push_range(&mut out, l, i, l.len());
    out
}

/// Hard-wrap `text` to `width` columns, breaking at the column limit even
/// mid-word. Existing newlines are preserved as forced breaks. Works on
/// Unicode scalar values, so multibyte text stays valid.
pub fn hard_wrap(text: &str, width: usize) -> (r: String)
    ensures
        r@ == hard_wrap_spec(text@, width as nat),
{
    let w = if width == 0 { 1 } else { width };
    let chars = chars_of(text);
    let lines = split_chars(chars.as_slice(), false);
    let mut out: Vec<Vec<char>> = Vec::new();
    let mut i: usize = 0;
    while i < lines.len()
        invariant
            i <= lines@.len(),
            w == at_least_one(width as nat),
            w > 0,
            out.deep_view() == lines.deep_view().take(i as int).map_values(
                |l: Seq<char>| hard_line(l, w as nat),
            ),
        decreases lines@.len() - i,
    {
        let h = hard_line_exec(lines[i].as_slice(), w);
        let ghost before = out.deep_view();
        let ghost hv = h@;
        assert(lines[i as int].deep_view() =~= lines[i as int]@);
        assert(lines.deep_view()[i as int] == lines[i as int]@);
        assert(h.deep_view() =~= h@);
        out.push(h);
        assert(out.deep_view() =~= before.push(hv));
        assert(out.deep_view() =~= lines.deep_view().take(i + 1).map_values(
            |l: Seq<char>| hard_line(l, w as nat),
        ));
        i += 1;
    }
    assert(lines.deep_view().take(i as int) =~= lines.deep_view());
    let joined = join_chars(&out, '\n');
    string_from(joined.as_slice())
}

/// The words of a line (no newline in it), as `split_whitespace` gives them.
pub(crate) fn line_words(line: &[char]) -> (r: Vec<Vec<char>>)
    ensures
        r.deep_view() == words(line@),
{
    let parts = split_chars(line, true);
    let ghost all = parts.deep_view();
    let mut r: Vec<Vec<char>> = Vec::new();
    let mut i: usize = 0;
    while i < parts.len()
        invariant
            i <= parts@.len(),
            all == parts.deep_view(),
            all == split_by(line@, true),
            r.deep_view() == all.take(i as int).filter(|w: Seq<char>| w.len() > 0),
        decreases parts@.len() - i,
    {
        let ghost t = all.take(i + 1);
        assert(t.drop_last() =~= all.take(i as int));
        assert(t.last() == parts[i as int]@) by {
            assert(parts[i as int].deep_view() =~= parts[i as int]@);
        }
        reveal_with_fuel(Seq::filter, 2);
        let ghost before = r.deep_view();
        if parts[i].len() > 0 {
            let mut piece: Vec<char> = Vec::new();
            push_all(&mut piece, parts[i].as_slice());
            let ghost pv = piece@;
            assert(piece.deep_view() =~= piece@);
            r.push(piece);
            assert(r.deep_view() =~= before.push(pv));
        }
        assert(r.deep_view() =~= t.filter(|w: Seq<char>| w.len() > 0));
        i += 1;
    }
    assert(all.take(i as int) =~= all);
    r
}

/// A word cut into chunks of at most `w > 0` characters.
fn chunks_exec(t: &[char], w: usize) -> (r: Vec<Vec<char>>)
    requires
        w > 0,
    ensures
        r.deep_view() == chunks(t@, w as nat),
{
    let mut r: Vec<Vec<char>> = Vec::new();
    let mut i: usize = 0;
    assert(t@.skip(0) =~= t@);
    while t.len() - i > w
        invariant
            i <= t@.len(),
            w > 0,
            r.deep_view() + chunks(t@.skip(i as int), w as nat) == chunks(t@, w as nat),
        decreases t@.len() - i,
    {
        let ghost rest = t@.skip(i as int);
        assert(rest.skip(w as int) =~= t@.skip(i + w));
        let mut c: Vec<char> = Vec::new();
        push_range(&mut c, t, i, i + w);
        assert(c@ =~= rest.take(w as int));
        let ghost before = r.deep_view();
        let ghost cv = c@;
        assert(c.deep_view() =~= c@);
        r.push(c);
        assert(r.deep_view() =~= before.push(cv));
        assert(chunks(rest, w as nat) == seq![cv] + chunks(t@.skip(i + w), w as nat));
        assert(r.deep_view() + chunks(t@.skip(i + w), w as nat) =~= before + chunks(rest, w as nat));
        i += w;
    }
    let mut c: Vec<char> = Vec::new();
    push_range(&mut c, t, i, t.len());
    let ghost rest = t@.skip(i as int);
    assert(c@ =~= rest);
    let ghost before = r.deep_view();
    let ghost cv = c@;
    assert(c.deep_view() =~= c@);
    r.push(c);
    assert(r.deep_view() =~= before.push(cv));
    assert(chunks(rest, w as nat) == seq![cv]);
    assert(r.deep_view() =~= before + chunks(rest, w as nat));
    r
}

/// One source line word-wrapped to `w > 0` columns.
fn fill_line(line: &[char], w: usize) -> (r: Vec<char>)
    requires
        w > 0,
    ensures
        r@ == fill(pieces(words(line@), w as nat), w as nat),
{
    let ws = line_words(line);
    let mut ps: Vec<Vec<char>> = Vec::new();
    let mut i: usize = 0;
    while i < ws.len()
        invariant
            i <= ws@.len(),
            w > 0,
            ps.deep_view() == pieces(ws.deep_view().take(i as int), w as nat),
        decreases ws@.len() - i,
    {
        let ghost t = ws.deep_view().take(i + 1);
        assert(t.drop_last() =~= ws.deep_view().take(i as int));
        assert(t.last() == ws[i as int]@) by {
            assert(ws[i as int].deep_view() =~= ws[i as int]@);
        }
        let cs = chunks_exec(ws[i].as_slice(), w);
        let mut k: usize = 0;
        let ghost base = ps.deep_view();
        while k < cs.len()
            invariant
                k <= cs@.len(),
                ps.deep_view() == base + cs.deep_view().take(k as int),
            decreases cs@.len() - k,
        {
            let mut c: Vec<char> = Vec::new();
            push_all(&mut c, cs[k].as_slice());
            let ghost before = ps.deep_view();
            let ghost cv = c@;
            assert(c.deep_view() =~= c@);
            assert(cs.deep_view()[k as int] == cs[k as int]@) by {
                assert(cs[k as int].deep_view() =~= cs[k as int]@);
            }
            ps.push(c);
            assert(ps.deep_view() =~= before.push(cv));
            assert(ps.deep_view() =~= base + cs.deep_view().take(k + 1));
            k += 1;
        }
        assert(cs.deep_view().take(k as int) =~= cs.deep_view());
        assert(ps.deep_view() =~= pieces(t, w as nat));
        i += 1;
    }
    assert(ws.deep_view().take(i as int) =~= ws.deep_view());
    let ghost pv = ps.deep_view();
    let mut done: Vec<char> = Vec::new();
    let mut cur: Vec<char> = Vec::new();
    let mut j: usize = 0;
    while j < ps.len()
        invariant
            j <= ps@.len(),
            pv == ps.deep_view(),
            (done@, cur@) == fill_state(pv.take(j as int), w as nat),
        decreases ps@.len() - j,
    {
        let ghost t = pv.take(j + 1);
        assert(t.drop_last() =~= pv.take(j as int));
        assert(t.last() == ps[j as int]@) by {
            assert(ps[j as int].deep_view() =~= ps[j as int]@);
        }
        let tok = ps[j].as_slice();
        if cur.len() == 0 {
            push_all(&mut cur, tok);
        } else if cur.len() < w && tok.len() <= w - cur.len() - 1 {
            cur.push(' ');
            push_all(&mut cur, tok);
        } else {
            push_all(&mut done, cur.as_slice());
            done.push('\n');
            cur = Vec::new();
            push_all(&mut cur, tok);
        }
        assert((done@, cur@) =~= fill_state(t, w as nat));
        j += 1;
    }
    assert(pv.take(j as int) =~= pv);
    push_all(&mut done, cur.as_slice());
    done
}

/// Wrap `text` to `width` columns, breaking at whitespace so words stay whole.
/// A word too long to fit is cut at the column limit. Existing newlines are
/// preserved as forced breaks; runs of whitespace are consumed as separators.
pub fn wrap_words(text: &str, width: usize) -> (r: String)
    ensures
        r@ == wrap_words_spec(text@, width as nat),
{
    let w = if width == 0 { 1 } else { width };
    let chars = chars_of(text);
    let lines = split_chars(chars.as_slice(), false);
    let mut out: Vec<Vec<char>> = Vec::new();
    let mut i: usize = 0;
    while i < lines.len()
        invariant
            i <= lines@.len(),
            w == at_least_one(width as nat),
            w > 0,
            out.deep_view() == lines.deep_view().take(i as int).map_values(
                |l: Seq<char>| fill(pieces(words(l), w as nat), w as nat),
            ),
        decreases lines@.len() - i,
    {
        let h = fill_line(lines[i].as_slice(), w);
        let ghost before = out.deep_view();
        let ghost hv = h@;
        assert(lines[i as int].deep_view() =~= lines[i as int]@);
        assert(lines.deep_view()[i as int] == lines[i as int]@);
        assert(h.deep_view() =~= h@);
        out.push(h);
        assert(out.deep_view() =~= before.push(hv));
        assert(out.deep_view() =~= lines.deep_view().take(i + 1).map_values(
            |l: Seq<char>| fill(pieces(words(l), w as nat), w as nat),
        ));
        i += 1;
    }
    assert(lines.deep_view().take(i as int) =~= lines.deep_view());
    let joined = join_chars(&out, '\n');
    string_from(joined.as_slice())
}

/// `s` cut to at most `max` characters, with `…` marking a cut.
pub open spec fn truncate_spec(s: Seq<char>, max: nat) -> Seq<char> {
    if max == 0 {
        Seq::empty()
    } else if s.len() <= max {
        s
    } else if max == 1 {
        seq!['…']
    } else {
        s.take(max - 1).push('…')
    }
}

/// Truncate `s` to at most `max` columns (Unicode scalar values), appending
/// `…` when shortened. `max == 0` yields an empty string.
pub fn truncate(s: &str, max: usize) -> (r: String)
    ensures
        r@ == truncate_spec(s@, max as nat),
{
    let v = chars_of(s);
    let out = truncate_chars(v.as_slice(), max);
    string_from(out.as_slice())
}

/// `truncate` on characters.
pub fn truncate_chars(v: &[char], max: usize) -> (r: Vec<char>)
    ensures
        r@ == truncate_spec(v@, max as nat),
{
    let mut out: Vec<char> = Vec::new();
    if max == 0 {
        return out;
    }
    if v.len() <= max {
        push_all(&mut out, v);
        return out;
    }
    if max == 1 {
        out.push('…');
        assert(out@ =~= seq!['…']);
        return out;
    }
    push_range(&mut out, v, 0, max - 1);
    out.push('…');
    assert(out@ =~= v@.take(max - 1).push('…'));
    out
}

/// Columns left for text after `indent` is consumed, at least `MIN_WRAP_WIDTH`.
pub open spec fn avail_spec(width: nat, indent: nat) -> nat {
    let rest = if width >= indent { (width - indent) as nat } else { 0 };
    if rest >= 8 {
        rest
    } else {
        8
    }
}

/// Columns left for text after `indent` is consumed, floored at `MIN_WRAP_WIDTH`.
pub fn avail_width(width: usize, indent: usize) -> (r: usize)
    ensures
        r == avail_spec(width as nat, indent as nat),
{
    let rest = if width >= indent { width - indent } else { 0 };
    if rest >= MIN_WRAP_WIDTH {
        rest
    } else {
        MIN_WRAP_WIDTH
    }
}

/// A line of `str::lines` output: one trailing carriage return dropped.
pub open spec fn strip_cr(l: Seq<char>) -> Seq<char> {
    if l.len() > 0 && l.last() == '\r' {
        l.drop_last()
    } else {
        l
    }
}

/// The lines of `s` as `str::lines` gives them: split at newlines, a `\r`
/// before a newline dropped, and no final empty line.
pub open spec fn std_lines(s: Seq<char>) -> Seq<Seq<char>> {
    let p = split_lines(s);
    p.take(p.len() - 1).map_values(|l: Seq<char>| strip_cr(l)) + if p.last().len() > 0 {
        seq![p.last()]
    } else {
        Seq::empty()
    }
}

/// `n` spaces.
pub open spec fn spaces(n: nat) -> Seq<char> {
    Seq::new(n, |i: int| ' ')
}

/// Every line of `s` (as `str::lines` gives them) indented by `n` spaces,
/// joined with newlines.
pub open spec fn indent_lines(s: Seq<char>, n: nat) -> Seq<char> {
    join(std_lines(s).map_values(|l: Seq<char>| spaces(n) + l), seq!['\n'])
}

/// Appends `n` spaces.
pub fn push_spaces(v: &mut Vec<char>, n: usize)
    ensures
        final(v)@ == old(v)@ + spaces(n as nat),
{
    let mut i: usize = 0;
    while i < n
        invariant
            i <= n,
            v@ == old(v)@ + spaces(i as nat),
        decreases n - i,
    {
        v.push(' ');
        assert(spaces((i + 1) as nat) =~= spaces(i as nat).push(' '));
        i += 1;
    }
}

/// Indents every line of `s` by `n` spaces, as `indent_lines` describes.
fn indent_lines_exec(s: &[char], n: usize) -> (r: Vec<char>)
    ensures
        r@ == indent_lines(s@, n as nat),
{
    let parts = split_chars(s, false);
    proof {
        crate::text::lemma_split_nonempty(s@, false);
    }
    let ghost pv = parts.deep_view();
    let ghost ls = std_lines(s@);
    let mut out: Vec<Vec<char>> = Vec::new();
    let mut i: usize = 0;
    let last = parts.len() - 1;
    while i < last
        invariant
            i <= last,
            last == parts@.len() - 1,
            pv == parts.deep_view(),
            pv == split_lines(s@),
            out.deep_view() == pv.take(i as int).map_values(|l: Seq<char>| spaces(n as nat) + strip_cr(l)),
        decreases last - i,
    {
        let line = parts[i].as_slice();
        let mut l: Vec<char> = Vec::new();
        push_spaces(&mut l, n);
        if line.len() > 0 && line[line.len() - 1] == '\r' {
            push_range(&mut l, line, 0, line.len() - 1);
        } else {
            push_all(&mut l, line);
        }
        assert(pv[i as int] == line@) by {
            assert(parts[i as int].deep_view() =~= parts[i as int]@);
        }
        assert(l@ =~= spaces(n as nat) + strip_cr(line@));
        let ghost before = out.deep_view();
        let ghost lv = l@;
        assert(l.deep_view() =~= l@);
        out.push(l);
        assert(out.deep_view() =~= before.push(lv));
        assert(out.deep_view() =~= pv.take(i + 1).map_values(|l: Seq<char>| spaces(n as nat) + strip_cr(l)));
        i += 1;
    }
    let lastp = parts[last].as_slice();
    assert(pv.last() == lastp@) by {
        assert(parts[last as int].deep_view() =~= parts[last as int]@);
    }
    if lastp.len() > 0 {
        let mut l: Vec<char> = Vec::new();
        push_spaces(&mut l, n);
        push_all(&mut l, lastp);
        let ghost before = out.deep_view();
        let ghost lv = l@;
        assert(l.deep_view() =~= l@);
        out.push(l);
        assert(out.deep_view() =~= before.push(lv));
    }
    assert(out.deep_view() =~= ls.map_values(|l: Seq<char>| spaces(n as nat) + l));
    join_chars(&out, '\n')
}

/// Word-wrap `text` into a block indented by `indent` columns, sized so the
/// indent plus the text still fits `width`. Every line carries the indent.
pub fn wrap_block(text: &str, indent: usize, width: usize) -> (r: String)
    ensures
        r@ == indent_lines(wrap_words_spec(text@, avail_spec(width as nat, indent as nat)), indent as nat),
{
    let wrapped = wrap_words(text, avail_width(width, indent));
    let v = chars_of(wrapped.as_str());
    let out = indent_lines_exec(v.as_slice(), indent);
    string_from(out.as_slice())
}

/// How much of an entity's description a listing shows.
#[derive(Clone, Copy, Debug, PartialEq, Eq, Structural)]
pub enum DescMode {
    /// Print no descriptions at all (the default).
    Omit,
    /// A single line, truncated with `…` to the available width.
    Short,
    /// The complete description, wrapped across as many lines as it needs.
    Full,
}

impl Default for DescMode {
    fn default() -> (m: DescMode)
        ensures
            m == DescMode::Omit,
    {
        DescMode::Omit
    }
}

impl DescMode {
    /// Parses `short` or `full`; the error names the two accepted values.
    pub fn parse_str(s: &str) -> (r: Result<DescMode, String>)
        ensures
            s@ == "short"@ ==> r == Ok::<DescMode, String>(DescMode::Short),
            s@ == "full"@ ==> r == Ok::<DescMode, String>(DescMode::Full),
            s@ != "short"@ && s@ != "full"@ ==> (r matches Err(m) && m@ == "invalid description mode '"@
                + s@ + "': expected 'short' or 'full'"@),
    {
        proof {
            reveal_strlit("short");
            reveal_strlit("full");
            assert("short"@.len() != "full"@.len());
        }
        if crate::text::str_eq(s, "short") {
            Ok(DescMode::Short)
        } else if crate::text::str_eq(s, "full") {
            Ok(DescMode::Full)
        } else {
            let mut v: Vec<char> = Vec::new();
            push_str(&mut v, "invalid description mode '");
            push_str(&mut v, s);
            push_str(&mut v, "': expected 'short' or 'full'");
            Err(string_from(v.as_slice()))
        }
    }
}

impl std::str::FromStr for DescMode {
    type Err = String;

    fn from_str(s: &str) -> (r: Result<DescMode, String>)
        ensures
            s@ == "short"@ ==> r == Ok::<DescMode, String>(DescMode::Short),
            s@ == "full"@ ==> r == Ok::<DescMode, String>(DescMode::Full),
            s@ != "short"@ && s@ != "full"@ ==> (r matches Err(m) && m@ == "invalid description mode '"@
                + s@ + "': expected 'short' or 'full'"@),
    {
        DescMode::parse_str(s)
    }
}

/// The bracketed description text fitted to `avail` columns, unindented.
pub open spec fn desc_text_spec(desc: Seq<char>, mode: DescMode, avail: nat) -> Option<Seq<char>> {
    match mode {
        DescMode::Omit => None,
        DescMode::Short => Some(
            seq!['['] + truncate_spec(desc, if avail >= 3 { (avail - 2) as nat } else { 1 }) + seq![']'],
        ),
        DescMode::Full => Some(wrap_words_spec(seq!['['] + desc + seq![']'], avail)),
    }
}

/// Render `desc` as bracketed text fitted to `avail` columns, unindented:
/// nothing, one truncated line, or the whole text word-wrapped.
pub fn desc_text(desc: &str, mode: DescMode, avail: usize) -> (r: Option<String>)
    ensures
        match desc_text_spec(desc@, mode, avail as nat) {
            Some(t) => r matches Some(x) && x@ == t,
            None => r is None,
        },
{
    match mode {
        DescMode::Omit => None,
        DescMode::Short => {
            let d = chars_of(desc);
            let keep = if avail >= 3 { avail - 2 } else { 1 };
            let t = truncate_chars(d.as_slice(), keep);
            let mut v: Vec<char> = Vec::new();
            v.push('[');
            push_all(&mut v, t.as_slice());
            v.push(']');
            assert(v@ =~= seq!['['] + t@ + seq![']']);
            Some(string_from(v.as_slice()))
        },
        DescMode::Full => {
            let mut v: Vec<char> = Vec::new();
            v.push('[');
            push_str(&mut v, desc);
            v.push(']');
            assert(v@ =~= seq!['['] + desc@ + seq![']']);
            let s = string_from(v.as_slice());
            Some(wrap_words(s.as_str(), avail))
        },
    }
}

/// `desc_text`, indented by `indent` columns on every line, to sit beneath a
/// table row. `None` when nothing should print.
pub fn desc_block(desc: &str, mode: DescMode, indent: usize, width: usize) -> (r: Option<String>)
    ensures
        match desc_text_spec(desc@, mode, avail_spec(width as nat, indent as nat)) {
            Some(t) => r matches Some(x) && x@ == indent_lines(t, indent as nat),
            None => r is None,
        },
{
    match desc_text(desc, mode, avail_width(width, indent)) {
        Some(t) => {
            let v = chars_of(t.as_str());
            let out = indent_lines_exec(v.as_slice(), indent);
            Some(string_from(out.as_slice()))
        },
        None => None,
    }
}

/// Width of `s` in columns (Unicode scalar values).
pub fn col_width(s: &str) -> (r: usize)
    ensures
        r == s@.len(),
{
    let v = chars_of(s);
    v.len()
}

/// Columns between adjacent table columns.
pub const GUTTER: usize = 2;

/// The characters of each header.
pub open spec fn headers_view(headers: Seq<&str>) -> Seq<Seq<char>> {
    headers.map_values(|h: &str| h@)
}

/// The characters of each cell of each row.
pub open spec fn rows_view(rows: Seq<Vec<String>>) -> Seq<Seq<Seq<char>>> {
    rows.map_values(|r: Vec<String>| r@.map_values(|c: String| c@))
}

/// The characters of each optional block.
pub open spec fn blocks_view(blocks: Seq<Option<String>>) -> Seq<Option<Seq<char>>> {
    blocks.map_values(
        |b: Option<String>|
            match b {
                Some(x) => Some(x@),
                None => None,
            },
    )
}

/// Width of cell `i` of a row, 0 when the row is shorter.
pub open spec fn cell_width(r: Seq<Seq<char>>, i: int) -> nat {
    if 0 <= i < r.len() {
        r[i].len()
    } else {
        0
    }
}

/// Natural width of column `i`: the widest of its header and its cells.
pub open spec fn col_natural(h: Seq<Seq<char>>, rs: Seq<Seq<Seq<char>>>, i: int) -> nat
    decreases rs.len(),
{
    if rs.len() == 0 {
        h[i].len()
    } else {
        let m = col_natural(h, rs.drop_last(), i);
        let c = cell_width(rs.last(), i);
        if c > m {
            c
        } else {
            m
        }
    }
}

/// Sum of a sequence of widths.
pub open spec fn sum_widths(ws: Seq<nat>) -> nat
    decreases ws.len(),
{
    if ws.len() == 0 {
        0
    } else {
        sum_widths(ws.drop_last()) + ws.last()
    }
}

/// Column widths: natural widths, with the `flex` column shrunk toward
/// `MIN_WRAP_WIDTH` (never widened) when the table would exceed `budget`.
pub open spec fn column_widths_spec(
    h: Seq<Seq<char>>,
    rs: Seq<Seq<Seq<char>>>,
    flex: Option<usize>,
    budget: nat,
) -> Seq<nat> {
    let nw = Seq::new(h.len(), |i: int| col_natural(h, rs, i));
    match flex {
        Some(f) if f < h.len() => {
            let total = sum_widths(nw) + 2 * (h.len() - 1);
            if total > budget {
                let excess = (total - budget) as nat;
                let shrunk = if nw[f as int] >= excess { (nw[f as int] - excess) as nat } else { 0 };
                let floored = if shrunk >= 8 { shrunk } else { 8 };
                nw.update(f as int, if floored <= nw[f as int] { floored } else { nw[f as int] })
            } else {
                nw
            }
        },
        _ => nw,
    }
}

/// Natural width of column `i`.
fn natural_width(headers: &[&str], rows: &[Vec<String>], i: usize) -> (r: usize)
    requires
        i < headers@.len(),
    ensures
        r == col_natural(headers_view(headers@), rows_view(rows@), i as int),
{
    let ghost h = headers_view(headers@);
    let ghost rs = rows_view(rows@);
    let mut m = col_width(headers[i]);
    let mut k: usize = 0;
    while k < rows.len()
        invariant
            k <= rows@.len(),
            i < headers@.len(),
            h == headers_view(headers@),
            rs == rows_view(rows@),
            m == col_natural(h, rs.take(k as int), i as int),
        decreases rows@.len() - k,
    {
        assert(rs.take(k + 1).drop_last() =~= rs.take(k as int));
        assert(rs.take(k + 1).last() == rs[k as int]);
        if i < rows[k].len() {
            let c = col_width(rows[k][i].as_str());
            if c > m {
                m = c;
            }
        }
        k += 1;
    }
    assert(rs.take(k as int) =~= rs);
    m
}

/// Natural width per column (the widest of the header and any cell), with
/// the `flex` column shrunk toward `MIN_WRAP_WIDTH` when the table would
/// exceed `budget`.
pub fn column_widths(headers: &[&str], rows: &[Vec<String>], flex: Option<usize>, budget: usize) -> (r: Vec<usize>)
    ensures
        r@.len() == headers@.len(),
        forall|i: int| 0 <= i < r@.len() ==> r@[i] as nat == #[trigger] column_widths_spec(
            headers_view(headers@),
            rows_view(rows@),
            flex,
            budget as nat,
        )[i],
{
    let ghost h = headers_view(headers@);
    let ghost rs = rows_view(rows@);
    let ghost nw = Seq::new(h.len(), |i: int| col_natural(h, rs, i));
    let ncols = headers.len();
    let mut widths: Vec<usize> = Vec::new();
    let mut total: u128 = 0;
    let mut i: usize = 0;
    while i < ncols
        invariant
            i <= ncols,
            ncols == headers@.len(),
            h == headers_view(headers@),
            rs == rows_view(rows@),
            nw == Seq::new(h.len(), |i: int| col_natural(h, rs, i)),
            widths@.len() == i,
            forall|k: int| 0 <= k < i ==> widths@[k] as nat == nw[k],
            total as nat == sum_widths(nw.take(i as int)),
            total <= i * 0xffff_ffff_ffff_ffffu128,
        decreases ncols - i,
    {
        let w = natural_width(headers, rows, i);
        assert(nw.take(i + 1).drop_last() =~= nw.take(i as int));
        widths.push(w);
        total = total + w as u128;
        i += 1;
    }
    assert(nw.take(i as int) =~= nw);
    if let Some(f) = flex {
        if f < ncols {
            let sep: u128 = 2 * ((ncols - 1) as u128);
            let all = total + sep;
            if all > budget as u128 {
                let excess = all - budget as u128;
                let nf = widths[f];
                let shrunk: usize = if nf as u128 >= excess { (nf as u128 - excess) as usize } else { 0 };
                let floored = if shrunk >= MIN_WRAP_WIDTH { shrunk } else { MIN_WRAP_WIDTH };
                let v = if floored <= nf { floored } else { nf };
                widths.set(f, v);
            }
        }
    }
    widths
}

/// `s` without trailing whitespace.
pub open spec fn trim_end(s: Seq<char>) -> Seq<char>
    decreases s.len(),
{
    if s.len() > 0 && is_ws(s.last()) {
        trim_end(s.drop_last())
    } else {
        s
    }
}

/// Drops trailing whitespace.
pub fn trim_end_chars(v: &mut Vec<char>)
    ensures
        final(v)@ == trim_end(old(v)@),
{
    while v.len() > 0 && is_whitespace(v[v.len() - 1])
        invariant
            trim_end(v@) == trim_end(old(v)@),
        decreases v@.len(),
    {
        let ghost before = v@;
        v.pop();
        assert(v@ =~= before.drop_last());
    }
}

/// One table row: cell `i` truncated to `widths[i]` and, except in the last
/// column, padded to it; columns joined by `gutter`; trailing whitespace trimmed.
pub open spec fn row_spec(cells: Seq<Seq<char>>, widths: Seq<nat>, gutter: Seq<char>) -> Seq<char> {
    trim_end(join(row_parts(cells, widths), gutter))
}

/// The padded or truncated cells of a row.
pub open spec fn row_parts(cells: Seq<Seq<char>>, widths: Seq<nat>) -> Seq<Seq<char>> {
    Seq::new(
        widths.len(),
        |i: int|
            {
                let c = truncate_spec(if i < cells.len() { cells[i] } else { Seq::empty() }, widths[i]);
                if i == widths.len() - 1 {
                    c
                } else {
                    c + spaces((widths[i] - c.len()) as nat)
                }
            },
    )
}

/// `truncate` never produces more than `max` characters.
pub proof fn lemma_truncate_len(s: Seq<char>, max: nat)
    ensures
        truncate_spec(s, max).len() <= max,
{
}

/// Render one row (see `row_spec`).
pub fn render_row(cells: &[String], widths: &[usize], gutter: &str) -> (r: String)
    ensures
        r@ == row_spec(
            cells@.map_values(|c: String| c@),
            widths@.map_values(|w: usize| w as nat),
            gutter@,
        ),
{
    let ghost cv = cells@.map_values(|c: String| c@);
    let ghost wv = widths@.map_values(|w: usize| w as nat);
    let ghost parts = row_parts(cv, wv);
    let g = chars_of(gutter);
    let mut out: Vec<char> = Vec::new();
    let mut i: usize = 0;
    while i < widths.len()
        invariant
            i <= widths@.len(),
            cv == cells@.map_values(|c: String| c@),
            wv == widths@.map_values(|w: usize| w as nat),
            parts == row_parts(cv, wv),
            g@ == gutter@,
            out@ == join(parts.take(i as int), g@),
        decreases widths@.len() - i,
    {
        let w = widths[i];
        let cell: Vec<char> = if i < cells.len() { chars_of(cells[i].as_str()) } else { Vec::new() };
        let t = truncate_chars(cell.as_slice(), w);
        proof {
            lemma_truncate_len(cell@, w as nat);
        }
        let mut part: Vec<char> = Vec::new();
        push_all(&mut part, t.as_slice());
        if i + 1 != widths.len() {
            push_spaces(&mut part, w - t.len());
        }
        assert(part@ =~= parts[i as int]);
        let ghost tk = parts.take(i + 1);
        assert(tk.drop_last() =~= parts.take(i as int));
        if i > 0 {
            push_all(&mut out, g.as_slice());
        }
        push_all(&mut out, part.as_slice());
        assert(out@ =~= join(tk, g@)) by {
            if i == 0 {
                assert(tk.len() == 1);
            }
        }
        i += 1;
    }
    assert(parts.take(i as int) =~= parts);
    trim_end_chars(&mut out);
    string_from(out.as_slice())
}

/// The lines of a table body: each row, followed by its block when it has one.
pub open spec fn body_lines(
    rs: Seq<Seq<Seq<char>>>,
    bs: Seq<Option<Seq<char>>>,
    widths: Seq<nat>,
) -> Seq<Seq<char>>
    decreases rs.len(),
{
    if rs.len() == 0 {
        Seq::empty()
    } else {
        let i = rs.len() - 1;
        body_lines(rs.drop_last(), bs, widths) + seq![row_spec(rs.last(), widths, seq![' ', ' '])]
            + if i < bs.len() && bs[i] is Some {
            seq![bs[i]->0]
        } else {
            Seq::empty()
        }
    }
}

/// The text of a table: the header row, then the body lines, joined by newlines.
pub open spec fn table_spec(
    h: Seq<Seq<char>>,
    rs: Seq<Seq<Seq<char>>>,
    bs: Seq<Option<Seq<char>>>,
    flex: Option<usize>,
    budget: nat,
) -> Seq<char> {
    let widths = column_widths_spec(h, rs, flex, budget);
    join(seq![row_spec(h, widths, seq![' ', ' '])] + body_lines(rs, bs, widths), seq!['\n'])
}

/// How many of the first `i` rows carry a block.
pub open spec fn blocks_before(bs: Seq<Option<Seq<char>>>, i: int) -> nat
    decreases i,
{
    if i <= 0 {
        0
    } else {
        blocks_before(bs, i - 1) + if i - 1 < bs.len() && bs[i - 1] is Some {
            1nat
        } else {
            0nat
        }
    }
}

/// Blocks never change a table's rows: the column widths are computed from
/// the headers and rows alone, and the body holds every row line of the
/// plain table in order, row `i` at line `i` plus the number of blocks before
/// it, followed directly by its block when it has one.
pub proof fn lemma_blocks_keep_rows(
    h: Seq<Seq<char>>,
    rs: Seq<Seq<Seq<char>>>,
    bs: Seq<Option<Seq<char>>>,
    flex: Option<usize>,
    budget: nat,
)
    ensures
        ({
            let w = column_widths_spec(h, rs, flex, budget);
            let body = body_lines(rs, bs, w);
            &&& table_spec(h, rs, bs, flex, budget) == join(seq![row_spec(h, w, seq![' ', ' '])] + body, seq!['\n'])
            &&& table_spec(h, rs, Seq::empty(), flex, budget) == join(
                seq![row_spec(h, w, seq![' ', ' '])] + body_lines(rs, Seq::empty(), w),
                seq!['\n'],
            )
            &&& body_lines(rs, Seq::empty(), w) == rs.map_values(|r: Seq<Seq<char>>| row_spec(r, w, seq![' ', ' ']))
            &&& body.len() == rs.len() + blocks_before(bs, rs.len() as int)
            &&& forall|i: int| 0 <= i < rs.len() ==> body[i + blocks_before(bs, i)] == row_spec(#[trigger] rs[i], w, seq![' ', ' '])
            &&& forall|i: int| 0 <= i < rs.len() && i < bs.len() && #[trigger] bs[i] is Some ==> body[i + blocks_before(bs, i) + 1] == bs[i]->0
        }),
{
    let w = column_widths_spec(h, rs, flex, budget);
    lemma_body_lines_rows(rs, bs, w);
    lemma_body_lines_rows(rs, Seq::empty(), w);
    lemma_body_plain(rs, w);
}

/// Without blocks the body is the row lines.
proof fn lemma_body_plain(rs: Seq<Seq<Seq<char>>>, w: Seq<nat>)
    ensures
        body_lines(rs, Seq::empty(), w) == rs.map_values(|r: Seq<Seq<char>>| row_spec(r, w, seq![' ', ' '])),
    decreases rs.len(),
{
    if rs.len() > 0 {
        lemma_body_plain(rs.drop_last(), w);
        assert(rs.map_values(|r: Seq<Seq<char>>| row_spec(r, w, seq![' ', ' '])) =~= rs.drop_last().map_values(
            |r: Seq<Seq<char>>| row_spec(r, w, seq![' ', ' ']),
        ).push(row_spec(rs.last(), w, seq![' ', ' '])));
    }
}

/// Where each row line and block sits in the body.
#[verifier::rlimit(60)]
proof fn lemma_body_lines_rows(rs: Seq<Seq<Seq<char>>>, bs: Seq<Option<Seq<char>>>, w: Seq<nat>)
    ensures
        body_lines(rs, bs, w).len() == rs.len() + blocks_before(bs, rs.len() as int),
        forall|i: int| 0 <= i < rs.len() ==> body_lines(rs, bs, w)[i + blocks_before(bs, i)] == row_spec(#[trigger] rs[i], w, seq![' ', ' ']),
        forall|i: int| 0 <= i < rs.len() && i < bs.len() && #[trigger] bs[i] is Some ==> body_lines(rs, bs, w)[i + blocks_before(bs, i) + 1] == bs[i]->0,
    decreases rs.len(),
{
    if rs.len() > 0 {
        let d = rs.drop_last();
        lemma_body_lines_rows(d, bs, w);
        let bd = body_lines(d, bs, w);
        let n = rs.len() - 1;
        let has = n < bs.len() && bs[n] is Some;
        let tail = seq![row_spec(rs.last(), w, seq![' ', ' '])] + if has {
            seq![bs[n]->0]
        } else {
            Seq::empty()
        };
        let all = body_lines(rs, bs, w);
        assert(all == bd + tail);
        assert(bd.len() == n + blocks_before(bs, n));
        assert forall|i: int| 0 <= i < rs.len() implies all[i + blocks_before(bs, i)] == row_spec(#[trigger] rs[i], w, seq![' ', ' ']) by {
            if i < n {
                lemma_blocks_before_mono(bs, i, n);
                let k = i + blocks_before(bs, i);
                assert(k < bd.len());
                assert(all[k] == bd[k]);
                assert(d[i] == rs[i]);
            } else {
                assert(all[bd.len() as int] == tail[0]);
            }
        }
        assert forall|i: int| 0 <= i < rs.len() && i < bs.len() && #[trigger] bs[i] is Some implies all[i + blocks_before(bs, i) + 1] == bs[i]->0 by {
            if i < n {
                assert(blocks_before(bs, i + 1) == blocks_before(bs, i) + 1);
                lemma_blocks_before_mono(bs, i + 1, n);
                let k = i + blocks_before(bs, i) + 1;
                assert(k < bd.len());
                assert(all[k] == bd[k]);
            } else {
                assert(all[bd.len() as int + 1] == tail[1]);
            }
        }
    }
}

/// Counting blocks over more rows never gives fewer.
proof fn lemma_blocks_before_mono(bs: Seq<Option<Seq<char>>>, i: int, j: int)
    requires
        0 <= i <= j,
    ensures
        blocks_before(bs, i) <= blocks_before(bs, j),
    decreases j - i,
{
    if i < j {
        lemma_blocks_before_mono(bs, i, j - 1);
    }
}

/// Render a left-aligned text table. Each column is sized to its widest cell
/// or header; when the total exceeds `budget`, the `flex` column is shrunk
/// and its over-long cells truncated with `…`. Columns are separated by two
/// spaces; no line carries trailing whitespace; no trailing newline.
pub fn render_table(headers: &[&str], rows: &[Vec<String>], flex: Option<usize>, budget: usize) -> (r: String)
    ensures
        r@ == table_spec(headers_view(headers@), rows_view(rows@), Seq::empty(), flex, budget as nat),
{
    let blocks: Vec<Option<String>> = Vec::new();
    assert(blocks_view(blocks@) =~= Seq::<Option<Seq<char>>>::empty());
    render_table_with_blocks(headers, rows, blocks.as_slice(), flex, budget)
}

/// `render_table`, with an optional pre-rendered block printed beneath each
/// row (`blocks[i]` belongs to `rows[i]`; a shorter slice annotates fewer rows).
pub fn render_table_with_blocks(
    headers: &[&str],
    rows: &[Vec<String>],
    blocks: &[Option<String>],
    flex: Option<usize>,
    budget: usize,
) -> (r: String)
    ensures
        r@ == table_spec(headers_view(headers@), rows_view(rows@), blocks_view(blocks@), flex, budget as nat),
{
    let ghost h = headers_view(headers@);
    let ghost rs = rows_view(rows@);
    let ghost bs = blocks_view(blocks@);
    let widths = column_widths(headers, rows, flex, budget);
    let ghost wv = widths@.map_values(|w: usize| w as nat);
    assert(wv =~= column_widths_spec(h, rs, flex, budget as nat));
    let mut header_cells: Vec<String> = Vec::new();
    let mut k: usize = 0;
    while k < headers.len()
        invariant
            k <= headers@.len(),
            header_cells@.map_values(|c: String| c@) == headers_view(headers@).take(k as int),
        decreases headers@.len() - k,
    {
        let v = chars_of(headers[k]);
        let hs = string_from(v.as_slice());
        let ghost before = header_cells@.map_values(|c: String| c@);
        assert(headers_view(headers@)[k as int] == headers@[k as int]@);
        header_cells.push(hs);
        assert(header_cells@.map_values(|c: String| c@) =~= before.push(headers@[k as int]@));
        assert(header_cells@.map_values(|c: String| c@) =~= headers_view(headers@).take(k + 1));
        k += 1;
    }
    assert(headers_view(headers@).take(k as int) =~= h);
    let mut lines: Vec<Vec<char>> = Vec::new();
    let hr = render_row(header_cells.as_slice(), widths.as_slice(), "  ");
    proof {
        reveal_strlit("  ");
        assert("  "@ =~= seq![' ', ' ']);
    }
    let hv = chars_of(hr.as_str());
    let ghost hvv = hv@;
    assert(hv.deep_view() =~= hv@);
    lines.push(hv);
    assert(lines.deep_view() =~= seq![hvv]);
    let mut i: usize = 0;
    while i < rows.len()
        invariant
            i <= rows@.len(),
            h == headers_view(headers@),
            rs == rows_view(rows@),
            bs == blocks_view(blocks@),
            wv == widths@.map_values(|w: usize| w as nat),
            "  "@ == seq![' ', ' '],
            lines.deep_view() == seq![row_spec(h, wv, seq![' ', ' '])] + body_lines(rs.take(i as int), bs, wv),
        decreases rows@.len() - i,
    {
        let ghost t = rs.take(i + 1);
        assert(t.drop_last() =~= rs.take(i as int));
        assert(t.last() == rows@[i as int]@.map_values(|c: String| c@));
        let rr = render_row(rows[i].as_slice(), widths.as_slice(), "  ");
        let rv = chars_of(rr.as_str());
        let ghost before = lines.deep_view();
        let ghost rvv = rv@;
        assert(rv.deep_view() =~= rv@);
        lines.push(rv);
        assert(lines.deep_view() =~= before.push(rvv));
        if i < blocks.len() {
            match &blocks[i] {
                Some(b) => {
                    let bv = chars_of(b.as_str());
                    let ghost before2 = lines.deep_view();
                    let ghost bvv = bv@;
                    assert(bv.deep_view() =~= bv@);
                    lines.push(bv);
                    assert(lines.deep_view() =~= before2.push(bvv));
                },
                None => {},
            }
        }
        assert(lines.deep_view() =~= seq![row_spec(h, wv, seq![' ', ' '])] + body_lines(t, bs, wv));
        i += 1;
    }
    assert(rs.take(i as int) =~= rs);
    let out = join_chars(&lines, '\n');
    string_from(out.as_slice())
}

/// `terminal_size::terminal_size()`: the width in columns of the first
/// terminal found among standard output, standard error and standard input,
/// when there is one. Which width comes back depends on the environment; the
/// crate reports a terminal only when its column count is above zero, and
/// that count is a `u16`, so a width lies between 1 and 65535.
#[verifier::external_body]
fn terminal_width() -> (r: Option<usize>)
    ensures
        r matches Some(w) ==> 1 <= w <= 65535,
{
    terminal_size::terminal_size().map(|(terminal_size::Width(w), _)| w as usize)
}

/// The rendering width given the detected terminal width: the project's
/// configured `wrap_width` (at least `MIN_WRAP_WIDTH`), else the terminal's
/// width, else `DEFAULT_WRAP_WIDTH`.
pub fn wrap_width_for(project: &Project, terminal: Option<usize>) -> (r: usize)
    ensures
        r == match project.wrap_width {
            Some(w) => if w >= 8 { w as usize } else { 8 },
            None => match terminal {
                Some(t) => t,
                None => 80,
            },
        },
{
    match project.wrap_width {
        Some(w) => {
            if w as usize >= MIN_WRAP_WIDTH {
                w as usize
            } else {
                MIN_WRAP_WIDTH
            }
        },
        None => match terminal {
            Some(t) => t,
            None => DEFAULT_WRAP_WIDTH,
        },
    }
}

/// Resolve the column width for rendering: the project's configured
/// `wrap_width` (at least `MIN_WRAP_WIDTH`), else the detected terminal
/// width (some width from 1 to 65535), else `DEFAULT_WRAP_WIDTH`.
pub fn resolve_wrap_width(project: &Project) -> (r: usize)
    ensures
        project.wrap_width matches Some(w) ==> r == if w >= 8 { w as usize } else { 8 },
        project.wrap_width is None ==> (r == 80 || 1 <= r <= 65535),
{
    let t = terminal_width();
    wrap_width_for(project, t)
}

/// A truncated text never exceeds the column budget.
pub proof fn lemma_truncate_fits(s: Seq<char>, max: nat)
    ensures
        truncate_spec(s, max).len() <= max,
        s.len() <= max ==> truncate_spec(s, max) == s,
{
}

// --- Wrapped text never exceeds the width ---------------------------------------------

/// The number of characters since the last line break before position `j`.
pub open spec fn run_before(s: Seq<char>, j: int) -> nat
    decreases j,
{
    if j <= 0 || j > s.len() {
        0
    } else if s[j - 1] == '\n' {
        0
    } else {
        run_before(s, j - 1) + 1
    }
}

/// No line of `s` is longer than `w` characters.
pub open spec fn lines_fit(s: Seq<char>, w: nat) -> bool {
    forall|j: int| 0 <= j <= s.len() ==> #[trigger] run_before(s, j) <= w
}

/// `s` holds no line break.
pub open spec fn no_break(s: Seq<char>) -> bool {
    forall|k: int| 0 <= k < s.len() ==> #[trigger] s[k] != '\n'
}

proof fn lemma_run_le(s: Seq<char>, j: int)
    requires
        0 <= j <= s.len(),
    ensures
        run_before(s, j) <= j,
        no_break(s.take(j)) ==> run_before(s, j) == j,
    decreases j,
{
    if j > 0 {
        lemma_run_le(s, j - 1);
        if no_break(s.take(j)) {
            assert(s.take(j - 1) =~= s.take(j).take(j - 1));
            assert(no_break(s.take(j - 1))) by {
                assert forall|k: int| 0 <= k < s.take(j - 1).len() implies #[trigger] s.take(j - 1)[k] != '\n' by {
                    assert(s.take(j)[k] != '\n');
                }
            }
            assert(s.take(j)[j - 1] != '\n');
        }
    }
}

/// Runs inside `a` are unchanged by appending; runs inside `b` continue `a`'s last run
/// until `b`'s first break.
proof fn lemma_run_concat(a: Seq<char>, b: Seq<char>, j: int)
    requires
        0 <= j <= a.len() + b.len(),
    ensures
        j <= a.len() ==> run_before(a + b, j) == run_before(a, j),
        j > a.len() ==> run_before(a + b, j) == if run_before(b, j - a.len()) == j - a.len() {
            run_before(a, a.len() as int) + (j - a.len())
        } else {
            run_before(b, j - a.len()) as int
        },
    decreases j,
{
    if j > 0 {
        lemma_run_concat(a, b, j - 1);
        let ab = a + b;
        if j <= a.len() {
            assert(ab[j - 1] == a[j - 1]);
        } else {
            assert(ab[j - 1] == b[j - a.len() - 1]);
            lemma_run_le(b, j - a.len());
            lemma_run_le(b, j - a.len() - 1);
        }
    }
}

/// A line break ends every run.
proof fn lemma_fit_newline(a: Seq<char>, w: nat)
    requires
        lines_fit(a, w),
    ensures
        lines_fit(a + seq!['\n'], w),
        run_before(a + seq!['\n'], a.len() as int + 1) == 0,
{
    let n = seq!['\n'];
    assert(run_before(n, 1) == 0);
    assert forall|j: int| 0 <= j <= (a + n).len() implies #[trigger] run_before(a + n, j) <= w by {
        lemma_run_concat(a, n, j);
        if j > a.len() {
            assert(run_before(n, 1) == 0);
        }
    }
    lemma_run_concat(a, n, a.len() as int + 1);
}

/// Text whose last run is empty, followed by a short unbroken piece, fits.
proof fn lemma_fit_append_piece(d: Seq<char>, c: Seq<char>, w: nat)
    requires
        lines_fit(d, w),
        run_before(d, d.len() as int) == 0,
        no_break(c),
        c.len() <= w,
    ensures
        lines_fit(d + c, w),
{
    assert forall|j: int| 0 <= j <= (d + c).len() implies #[trigger] run_before(d + c, j) <= w by {
        lemma_run_concat(d, c, j);
        if j > d.len() {
            lemma_run_le(c, j - d.len());
        }
    }
}

/// Parts that fit, joined by line breaks, fit.
proof fn lemma_fit_join(parts: Seq<Seq<char>>, w: nat)
    requires
        forall|i: int| 0 <= i < parts.len() ==> lines_fit(#[trigger] parts[i], w),
    ensures
        lines_fit(join(parts, seq!['\n']), w),
    decreases parts.len(),
{
    if parts.len() == 1 {
        assert(lines_fit(parts[0], w));
    } else if parts.len() > 1 {
        let d = parts.drop_last();
        assert forall|i: int| 0 <= i < d.len() implies lines_fit(#[trigger] d[i], w) by {
            assert(d[i] == parts[i]);
        }
        lemma_fit_join(d, w);
        let a = join(d, seq!['\n']);
        lemma_fit_newline(a, w);
        let an = a + seq!['\n'];
        let l = parts.last();
        assert(lines_fit(l, w)) by {
            assert(lines_fit(parts[parts.len() - 1], w));
        }
        assert(join(parts, seq!['\n']) == an + l);
        assert forall|j: int| 0 <= j <= (an + l).len() implies #[trigger] run_before(an + l, j) <= w by {
            lemma_run_concat(an, l, j);
            if j > an.len() {
                lemma_run_le(l, j - an.len());
            }
        }
    }
}

/// Every piece of `chunks` is unbroken and at most `w` long.
proof fn lemma_chunks_fit(t: Seq<char>, w: nat)
    requires
        w > 0,
        t.len() > 0 ==> no_break(t),
    ensures
        forall|i: int| 0 <= i < chunks(t, w).len() ==> no_break(#[trigger] chunks(t, w)[i]) && chunks(t, w)[i].len() <= w
            || t.len() > w && false,
    decreases t.len(),
{
    if t.len() <= w {
        assert(chunks(t, w) == seq![t]);
        assert(no_break(t)) by {
            assert forall|k: int| 0 <= k < t.len() implies #[trigger] t[k] != '\n' by {}
        }
    } else {
        let r = t.skip(w as int);
        assert(no_break(r)) by {
            assert forall|k: int| 0 <= k < r.len() implies #[trigger] r[k] != '\n' by {
                assert(r[k] == t[k + w]);
            }
        }
        lemma_chunks_fit(r, w);
        let h = t.take(w as int);
        assert(no_break(h)) by {
            assert forall|k: int| 0 <= k < h.len() implies #[trigger] h[k] != '\n' by {
                assert(h[k] == t[k]);
            }
        }
        let c = chunks(t, w);
        assert(c == seq![h] + chunks(r, w));
        assert forall|i: int| 0 <= i < c.len() implies no_break(#[trigger] c[i]) && c[i].len() <= w by {
            if i > 0 {
                assert(c[i] == chunks(r, w)[i - 1]);
            }
        }
    }
}

/// Every token of a line is unbroken and at most `w` long.
proof fn lemma_pieces_fit(ws: Seq<Seq<char>>, w: nat)
    requires
        w > 0,
        forall|i: int| 0 <= i < ws.len() ==> no_break(#[trigger] ws[i]),
    ensures
        forall|i: int| 0 <= i < pieces(ws, w).len() ==> no_break(#[trigger] pieces(ws, w)[i]) && pieces(ws, w)[i].len() <= w,
    decreases ws.len(),
{
    if ws.len() > 0 {
        let d = ws.drop_last();
        assert forall|i: int| 0 <= i < d.len() implies no_break(#[trigger] d[i]) by {
            assert(d[i] == ws[i]);
        }
        lemma_pieces_fit(d, w);
        assert(no_break(ws.last())) by {
            assert(no_break(ws[ws.len() - 1]));
        }
        lemma_chunks_fit(ws.last(), w);
        let p = pieces(ws, w);
        let a = pieces(d, w);
        let c = chunks(ws.last(), w);
        assert(p == a + c);
        assert forall|i: int| 0 <= i < p.len() implies no_break(#[trigger] p[i]) && p[i].len() <= w by {
            if i < a.len() {
                assert(p[i] == a[i]);
            } else {
                assert(p[i] == c[i - a.len()]);
            }
        }
    }
}

/// Greedy filling keeps finished lines and the open line within `w`.
proof fn lemma_fill_state_fits(ps: Seq<Seq<char>>, w: nat)
    requires
        forall|i: int| 0 <= i < ps.len() ==> no_break(#[trigger] ps[i]) && ps[i].len() <= w,
    ensures
        lines_fit(fill_state(ps, w).0, w),
        run_before(fill_state(ps, w).0, fill_state(ps, w).0.len() as int) == 0,
        no_break(fill_state(ps, w).1),
        fill_state(ps, w).1.len() <= w,
    decreases ps.len(),
{
    if ps.len() == 0 {
        assert(lines_fit(Seq::<char>::empty(), w)) by {
            assert forall|j: int| 0 <= j <= 0 implies #[trigger] run_before(Seq::<char>::empty(), j) <= w by {}
        }
    } else {
        let d0 = ps.drop_last();
        assert forall|i: int| 0 <= i < d0.len() implies no_break(#[trigger] d0[i]) && d0[i].len() <= w by {
            assert(d0[i] == ps[i]);
        }
        lemma_fill_state_fits(d0, w);
        let (d, cur) = fill_state(d0, w);
        let t = ps.last();
        assert(no_break(t) && t.len() <= w) by {
            assert(no_break(ps[ps.len() - 1]));
        }
        if cur.len() == 0 {
        } else if cur.len() + 1 + t.len() <= w {
            let n = cur + seq![' '] + t;
            assert forall|k: int| 0 <= k < n.len() implies #[trigger] n[k] != '\n' by {
                if k < cur.len() {
                    assert(n[k] == cur[k]);
                } else if k > cur.len() {
                    assert(n[k] == t[k - cur.len() - 1]);
                }
            }
        } else {
            lemma_fit_append_piece(d, cur, w);
            lemma_fit_newline(d + cur, w);
        }
    }
}

/// Word wrapping never produces a line longer than the width (at least 1).
pub proof fn lemma_wrap_words_fits(text: Seq<char>, width: nat)
    ensures
        lines_fit(wrap_words_spec(text, width), at_least_one(width)),
{
    let w = at_least_one(width);
    let ls = split_lines(text);
    let parts = ls.map_values(|l: Seq<char>| fill(pieces(words(l), w), w));
    assert forall|i: int| 0 <= i < parts.len() implies lines_fit(#[trigger] parts[i], w) by {
        let l = ls[i];
        let ws = words(l);
        let sp = split_by(l, true);
        let f = |x: Seq<char>| x.len() > 0;
        lemma_split_pieces_clean(l, true);
        crate::model::project::lemma_filter_in(sp, f);
        assert forall|k: int| 0 <= k < ws.len() implies no_break(#[trigger] ws[k]) by {
            assert(sp.contains(ws[k]));
            let m = choose|m: int| 0 <= m < sp.len() && sp[m] == ws[k];
            assert forall|q: int| 0 <= q < ws[k].len() implies #[trigger] ws[k][q] != '\n' by {
                assert(!is_sep(true, sp[m][q]));
            }
        }
        lemma_pieces_fit(ws, w);
        let ps = pieces(ws, w);
        lemma_fill_state_fits(ps, w);
        lemma_fit_append_piece(fill_state(ps, w).0, fill_state(ps, w).1, w);
    }
    lemma_fit_join(parts, w);
}

/// One unbroken line hard-wrapped to `w > 0` has no line longer than `w`.
proof fn lemma_hard_line_fits(l: Seq<char>, w: nat)
    requires
        w > 0,
        no_break(l),
    ensures
        lines_fit(hard_line(l, w), w),
    decreases l.len(),
{
    if l.len() <= w {
        let e = Seq::<char>::empty();
        assert(lines_fit(e, w)) by {
            assert forall|j: int| 0 <= j <= 0 implies #[trigger] run_before(e, j) <= w by {}
        }
        assert(run_before(e, 0) == 0);
        lemma_fit_append_piece(e, l, w);
        assert(e + l == l);
    } else {
        let h = l.take(w as int);
        let r = l.skip(w as int);
        assert(no_break(r)) by {
            assert forall|k: int| 0 <= k < r.len() implies #[trigger] r[k] != '\n' by {
                assert(r[k] == l[k + w]);
            }
        }
        assert(no_break(h)) by {
            assert forall|k: int| 0 <= k < h.len() implies #[trigger] h[k] != '\n' by {
                assert(h[k] == l[k]);
            }
        }
        lemma_hard_line_fits(r, w);
        let e = Seq::<char>::empty();
        assert(lines_fit(e, w)) by {
            assert forall|j: int| 0 <= j <= 0 implies #[trigger] run_before(e, j) <= w by {}
        }
        lemma_fit_append_piece(e, h, w);
        assert(e + h == h);
        let two = seq![h, hard_line(r, w)];
        assert(hard_line(l, w) == join(two, seq!['\n'])) by {
            assert(two.drop_last() =~= seq![h]);
            assert(join(seq![h], seq!['\n']) == h);
            assert(two.last() == hard_line(r, w));
            assert(hard_line(l, w) == h + seq!['\n'] + hard_line(r, w));
            assert(join(two, seq!['\n']) == join(two.drop_last(), seq!['\n']) + seq!['\n'] + two.last());
        }
        assert forall|i: int| 0 <= i < two.len() implies lines_fit(#[trigger] two[i], w) by {}
        lemma_fit_join(two, w);
    }
}

/// Hard wrapping never produces a line longer than the width (at least 1).
pub proof fn lemma_hard_wrap_fits(text: Seq<char>, width: nat)
    ensures
        lines_fit(hard_wrap_spec(text, width), at_least_one(width)),
{
    let w = at_least_one(width);
    let ls = split_lines(text);
    let parts = ls.map_values(|l: Seq<char>| hard_line(l, w));
    lemma_split_pieces_clean(text, false);
    assert forall|i: int| 0 <= i < parts.len() implies lines_fit(#[trigger] parts[i], w) by {
        assert forall|k: int| 0 <= k < ls[i].len() implies #[trigger] ls[i][k] != '\n' by {
            assert(!is_sep(false, ls[i][k]));
        }
        lemma_hard_line_fits(ls[i], w);
    }
    lemma_fit_join(parts, w);
}

/// Under `lines_fit(t, w)` no piece of `split_lines(t)` is longer than `w`,
/// and the last piece is the run that ends `t`.
proof fn lemma_split_fit(t: Seq<char>, w: nat)
    requires
        lines_fit(t, w),
    ensures
        forall|i: int| 0 <= i < split_lines(t).len() ==> (#[trigger] split_lines(t)[i]).len() <= w,
        split_lines(t).last().len() == run_before(t, t.len() as int),
    decreases t.len(),
{
    if t.len() > 0 {
        let u = t.drop_last();
        let c = seq![t.last()];
        assert(t =~= u + c);
        assert forall|j: int| 0 <= j <= u.len() implies #[trigger] run_before(u, j) <= w by {
            lemma_run_concat(u, c, j);
            assert(run_before(t, j) <= w);
        }
        lemma_split_fit(u, w);
        lemma_run_concat(u, c, t.len() as int);
        assert(run_before(c, 0) == 0);
        assert(run_before(t, t.len() as int) <= w);
        lemma_split_nonempty(u, false);
        let r = split_lines(u);
        if t.last() == '\n' {
            assert(split_lines(t) == r.push(Seq::empty()));
        } else {
            assert(split_lines(t) == r.update(r.len() - 1, r.last().push(t.last())));
            assert forall|i: int| 0 <= i < split_lines(t).len() implies (#[trigger] split_lines(t)[i]).len() <= w by {
                if i < r.len() - 1 {
                    assert(split_lines(t)[i] == r[i]);
                }
            }
        }
    } else {
        assert(split_lines(t) == seq![Seq::<char>::empty()]);
    }
}

/// Every line of `indent_lines(t, n)` is `n` spaces and a line of `t`, so it
/// fits `n + w` columns when the lines of `t` fit `w`.
proof fn lemma_indent_fits(t: Seq<char>, n: nat, w: nat)
    requires
        lines_fit(t, w),
    ensures
        lines_fit(indent_lines(t, n), n + w),
{
    let p = split_lines(t);
    lemma_split_fit(t, w);
    lemma_split_nonempty(t, false);
    lemma_split_pieces_clean(t, false);
    let ls = std_lines(t);
    assert forall|i: int| 0 <= i < ls.len() implies (#[trigger] ls[i]).len() <= w && no_break(ls[i]) by {
        if i < p.len() - 1 {
            let l = p[i];
            assert(ls[i] == strip_cr(l));
            assert(l.len() <= w);
            assert forall|k: int| 0 <= k < strip_cr(l).len() implies #[trigger] strip_cr(l)[k] != '\n' by {
                assert(strip_cr(l)[k] == l[k]);
                assert(!is_sep(false, p[i][k]));
            }
        } else {
            assert(ls[i] == p.last());
            assert forall|k: int| 0 <= k < p.last().len() implies #[trigger] p.last()[k] != '\n' by {
                assert(!is_sep(false, p[p.len() - 1][k]));
            }
        }
    }
    let parts = ls.map_values(|l: Seq<char>| spaces(n) + l);
    assert forall|i: int| 0 <= i < parts.len() implies lines_fit(#[trigger] parts[i], n + w) by {
        let x = spaces(n) + ls[i];
        assert(parts[i] == x);
        assert forall|j: int| 0 <= j <= x.len() implies #[trigger] run_before(x, j) <= n + w by {
            lemma_run_le(x, j);
        }
    }
    lemma_fit_join(parts, n + w);
}

/// Every line of `s` begins with `n` spaces: each character in one of the
/// first `n` columns of its line is a space (so no line ends before column
/// `n`), and a non-empty text does not end before column `n` either.
pub open spec fn lines_indented(s: Seq<char>, n: nat) -> bool {
    &&& forall|j: int| 0 <= j < s.len() && #[trigger] run_before(s, j) < n ==> s[j] == ' '
    &&& s.len() > 0 ==> run_before(s, s.len() as int) >= n
}

/// A text without line breaks: every position is its own column.
proof fn lemma_run_unbroken(l: Seq<char>, t: int)
    requires
        no_break(l),
        0 <= t <= l.len(),
    ensures
        run_before(l, t) == t,
{
    assert forall|k: int| 0 <= k < l.take(t).len() implies #[trigger] l.take(t)[k] != '\n' by {
        assert(l.take(t)[k] == l[k]);
    }
    lemma_run_le(l, t);
}

/// Lines that each begin with `n` spaces, joined by line breaks, give a text
/// whose every line begins with `n` spaces.
proof fn lemma_indented_join(parts: Seq<Seq<char>>, n: nat)
    requires
        forall|i: int| 0 <= i < parts.len() ==> no_break(#[trigger] parts[i]) && parts[i].len() >= n,
        forall|i: int, k: int| 0 <= i < parts.len() && 0 <= k < n ==> #[trigger] parts[i][k] == ' ',
    ensures
        lines_indented(join(parts, seq!['\n']), n),
    decreases parts.len(),
{
    if parts.len() == 1 {
        let l = parts[0];
        assert(no_break(l) && l.len() >= n);
        assert forall|j: int| 0 <= j < l.len() && #[trigger] run_before(l, j) < n implies l[j] == ' ' by {
            lemma_run_unbroken(l, j);
            assert(parts[0][j] == ' ');
        }
        lemma_run_unbroken(l, l.len() as int);
    } else if parts.len() > 1 {
        let d = parts.drop_last();
        assert forall|i: int| 0 <= i < d.len() implies no_break(#[trigger] d[i]) && d[i].len() >= n by {
            assert(d[i] == parts[i]);
        }
        assert forall|i: int, k: int| 0 <= i < d.len() && 0 <= k < n implies #[trigger] d[i][k] == ' ' by {
            assert(d[i] == parts[i]);
            assert(parts[i][k] == ' ');
        }
        lemma_indented_join(d, n);
        let a = join(d, seq!['\n']);
        let nl = seq!['\n'];
        let an = a + nl;
        let l = parts.last();
        assert(no_break(parts[parts.len() - 1]) && parts[parts.len() - 1].len() >= n);
        let s2 = an + l;
        assert(join(parts, nl) == s2);
        assert(run_before(an, an.len() as int) == 0) by {
            assert(an[an.len() - 1] == '\n');
        }
        if n > 0 {
            assert(d[0] == parts[0]);
            lemma_join_len_ge(d, n);
        }
        assert forall|j: int| 0 <= j < s2.len() && #[trigger] run_before(s2, j) < n implies s2[j] == ' ' by {
            lemma_run_concat(an, l, j);
            if j < a.len() {
                lemma_run_concat(a, nl, j);
                assert(s2[j] == a[j]);
            } else if j == a.len() {
                lemma_run_concat(a, nl, j);
                assert(run_before(a, a.len() as int) >= n);
                assert(false);
            } else {
                let t = j - an.len();
                lemma_run_unbroken(l, t);
                assert(s2[j] == l[t]);
                assert(parts[parts.len() - 1][t] == ' ');
            }
        }
        lemma_run_concat(an, l, s2.len() as int);
        lemma_run_unbroken(l, l.len() as int);
    }
}

/// Joining non-empty lines gives a text at least as long as the first line.
proof fn lemma_join_len_ge(parts: Seq<Seq<char>>, n: nat)
    requires
        parts.len() > 0,
        forall|i: int| 0 <= i < parts.len() ==> (#[trigger] parts[i]).len() >= n,
    ensures
        join(parts, seq!['\n']).len() >= n,
    decreases parts.len(),
{
    if parts.len() > 1 {
        let d = parts.drop_last();
        assert forall|i: int| 0 <= i < d.len() implies (#[trigger] d[i]).len() >= n by {
            assert(d[i] == parts[i]);
        }
        lemma_join_len_ge(d, n);
    }
}

/// Every line of an indented text begins with the indent.
proof fn lemma_indent_lines_indented(t: Seq<char>, n: nat)
    ensures
        lines_indented(indent_lines(t, n), n),
{
    let p = split_lines(t);
    lemma_split_nonempty(t, false);
    lemma_split_pieces_clean(t, false);
    let ls = std_lines(t);
    assert forall|i: int| 0 <= i < ls.len() implies no_break(#[trigger] ls[i]) by {
        if i < p.len() - 1 {
            let l = p[i];
            assert(ls[i] == strip_cr(l));
            assert forall|k: int| 0 <= k < strip_cr(l).len() implies #[trigger] strip_cr(l)[k] != '\n' by {
                assert(strip_cr(l)[k] == l[k]);
                assert(!is_sep(false, p[i][k]));
            }
        } else {
            assert(ls[i] == p.last());
            assert forall|k: int| 0 <= k < p.last().len() implies #[trigger] p.last()[k] != '\n' by {
                assert(!is_sep(false, p[p.len() - 1][k]));
            }
        }
    }
    let parts = ls.map_values(|l: Seq<char>| spaces(n) + l);
    assert forall|i: int| 0 <= i < parts.len() implies no_break(#[trigger] parts[i]) && parts[i].len() >= n by {
        let x = spaces(n) + ls[i];
        assert(parts[i] == x);
        assert forall|k: int| 0 <= k < x.len() implies #[trigger] x[k] != '\n' by {
            if k >= n {
                assert(x[k] == ls[i][k - n]);
            }
        }
    }
    assert forall|i: int, k: int| 0 <= i < parts.len() && 0 <= k < n implies #[trigger] parts[i][k] == ' ' by {
        assert(parts[i] == spaces(n) + ls[i]);
    }
    lemma_indented_join(parts, n);
}

/// A description block never has a line wider than `width`, and every line
/// begins with the indent, when the width leaves room for the indent and the
/// narrowest text (`MIN_WRAP_WIDTH`): the text is fitted to the columns left
/// after the indent.
pub proof fn lemma_desc_block_fits(desc: Seq<char>, mode: DescMode, indent: nat, width: nat)
    requires
        width >= indent + 8,
    ensures
        desc_text_spec(desc, mode, avail_spec(width, indent)) matches Some(t) ==> lines_fit(indent_lines(t, indent), width)
            && lines_indented(indent_lines(t, indent), indent),
{
    let avail = avail_spec(width, indent);
    assert(avail == width - indent);
    match desc_text_spec(desc, mode, avail) {
        Some(t) => {
            match mode {
                DescMode::Short => {
                    lemma_truncate_fits(desc, (avail - 2) as nat);
                    assert forall|j: int| 0 <= j <= t.len() implies #[trigger] run_before(t, j) <= avail by {
                        lemma_run_le(t, j);
                    }
                },
                DescMode::Full => {
                    lemma_wrap_words_fits(seq!['['] + desc + seq![']'], avail);
                },
                DescMode::Omit => {},
            }
            lemma_indent_fits(t, indent, avail);
            lemma_indent_lines_indented(t, indent);
        },
        None => {},
    }
}

/// A wrapped block never has a line wider than `width`, and every line
/// begins with the indent, when the width leaves room for the indent and the
/// narrowest text (`MIN_WRAP_WIDTH`).
pub proof fn lemma_wrap_block_fits(text: Seq<char>, indent: nat, width: nat)
    requires
        width >= indent + 8,
    ensures
        lines_fit(indent_lines(wrap_words_spec(text, avail_spec(width, indent)), indent), width),
        lines_indented(indent_lines(wrap_words_spec(text, avail_spec(width, indent)), indent), indent),
{
    let avail = avail_spec(width, indent);
    assert(avail == width - indent);
    lemma_wrap_words_fits(text, avail);
    lemma_indent_fits(wrap_words_spec(text, avail), indent, avail);
    lemma_indent_lines_indented(wrap_words_spec(text, avail), indent);
}


// --- No line ends in whitespace ------------------------------------------------------

/// No line of `s` ends in whitespace: every whitespace character other than
/// a line break is followed, on the same line, by one that is not whitespace.
pub open spec fn no_trailing_ws(s: Seq<char>) -> bool {
    forall|k: int| 0 <= k < s.len() && #[trigger] is_ws(s[k]) && s[k] != '\n' ==> k + 1 < s.len() && !is_ws(s[k + 1])
}

/// Concatenating texts whose lines do not end in whitespace gives such a text.
proof fn lemma_no_trailing_concat(a: Seq<char>, b: Seq<char>)
    requires
        no_trailing_ws(a),
        no_trailing_ws(b),
    ensures
        no_trailing_ws(a + b),
{
    let ab = a + b;
    assert forall|k: int| 0 <= k < ab.len() && #[trigger] is_ws(ab[k]) && ab[k] != '\n' implies k + 1 < ab.len() && !is_ws(ab[k + 1]) by {
        if k < a.len() {
            assert(ab[k] == a[k]);
            assert(is_ws(a[k]));
            assert(ab[k + 1] == a[k + 1]);
        } else {
            assert(ab[k] == b[k - a.len()]);
            assert(is_ws(b[k - a.len()]));
            assert(ab[k + 1] == b[k - a.len() + 1]);
        }
    }
}

/// Text without any whitespace.
pub open spec fn no_ws(t: Seq<char>) -> bool {
    forall|k: int| 0 <= k < t.len() ==> !is_ws(#[trigger] t[k])
}

/// The chunks of a non-empty token without whitespace are such tokens.
proof fn lemma_chunks_clean(t: Seq<char>, w: nat)
    requires
        w > 0,
        t.len() > 0,
        no_ws(t),
    ensures
        forall|i: int| 0 <= i < chunks(t, w).len() ==> (#[trigger] chunks(t, w)[i]).len() > 0 && no_ws(chunks(t, w)[i]),
    decreases t.len(),
{
    if t.len() > w {
        let rest = t.skip(w as int);
        assert forall|k: int| 0 <= k < rest.len() implies !is_ws(#[trigger] rest[k]) by {
            assert(rest[k] == t[k + w]);
        }
        lemma_chunks_clean(rest, w);
        let head = t.take(w as int);
        assert forall|k: int| 0 <= k < head.len() implies !is_ws(#[trigger] head[k]) by {
            assert(head[k] == t[k]);
        }
        assert forall|i: int| 0 <= i < chunks(t, w).len() implies (#[trigger] chunks(t, w)[i]).len() > 0 && no_ws(chunks(t, w)[i]) by {
            if i > 0 {
                assert(chunks(t, w)[i] == chunks(rest, w)[i - 1]);
            }
        }
    }
}

/// The pieces of words without whitespace are non-empty and without whitespace.
proof fn lemma_pieces_clean(ws: Seq<Seq<char>>, w: nat)
    requires
        w > 0,
        forall|i: int| 0 <= i < ws.len() ==> (#[trigger] ws[i]).len() > 0 && no_ws(ws[i]),
    ensures
        forall|i: int| 0 <= i < pieces(ws, w).len() ==> (#[trigger] pieces(ws, w)[i]).len() > 0 && no_ws(pieces(ws, w)[i]),
    decreases ws.len(),
{
    if ws.len() > 0 {
        let d = ws.drop_last();
        assert forall|i: int| 0 <= i < d.len() implies (#[trigger] d[i]).len() > 0 && no_ws(d[i]) by {
            assert(d[i] == ws[i]);
        }
        lemma_pieces_clean(d, w);
        assert(ws.last().len() > 0 && no_ws(ws.last())) by {
            assert(ws[ws.len() - 1] == ws.last());
        }
        lemma_chunks_clean(ws.last(), w);
        let a = pieces(d, w);
        let b = chunks(ws.last(), w);
        assert forall|i: int| 0 <= i < pieces(ws, w).len() implies (#[trigger] pieces(ws, w)[i]).len() > 0 && no_ws(pieces(ws, w)[i]) by {
            if i < a.len() {
                assert(pieces(ws, w)[i] == a[i]);
            } else {
                assert(pieces(ws, w)[i] == b[i - a.len()]);
            }
        }
    }
}

/// Filling lines with non-empty tokens without whitespace leaves no line
/// ending in whitespace.
proof fn lemma_fill_state_clean(ps: Seq<Seq<char>>, w: nat)
    requires
        forall|i: int| 0 <= i < ps.len() ==> (#[trigger] ps[i]).len() > 0 && no_ws(ps[i]),
    ensures
        no_trailing_ws(fill_state(ps, w).0),
        no_trailing_ws(fill_state(ps, w).1),
    decreases ps.len(),
{
    if ps.len() > 0 {
        let d0 = ps.drop_last();
        assert forall|i: int| 0 <= i < d0.len() implies (#[trigger] d0[i]).len() > 0 && no_ws(d0[i]) by {
            assert(d0[i] == ps[i]);
        }
        lemma_fill_state_clean(d0, w);
        let (d, cur) = fill_state(d0, w);
        let t = ps.last();
        assert(t.len() > 0 && no_ws(t)) by {
            assert(ps[ps.len() - 1] == t);
        }
        assert(no_trailing_ws(t));
        let nl = seq!['\n'];
        assert(no_trailing_ws(nl));
        let st = seq![' '] + t;
        assert forall|k: int| 0 <= k < st.len() && #[trigger] is_ws(st[k]) && st[k] != '\n' implies k + 1 < st.len() && !is_ws(st[k + 1]) by {
            if k > 0 {
                assert(st[k] == t[k - 1]);
            } else {
                assert(st[1] == t[0]);
            }
        }
        lemma_no_trailing_concat(cur, st);
        assert(cur + seq![' '] + t =~= cur + st);
        lemma_no_trailing_concat(d, cur);
        lemma_no_trailing_concat(d + cur, nl);
    }
}

/// Word wrapping never leaves a line ending in whitespace.
pub proof fn lemma_wrap_words_no_trailing_ws(text: Seq<char>, width: nat)
    ensures
        no_trailing_ws(wrap_words_spec(text, width)),
{
    let w = at_least_one(width);
    let ls = split_lines(text);
    let parts = ls.map_values(|l: Seq<char>| fill(pieces(words(l), w), w));
    assert forall|i: int| 0 <= i < parts.len() implies no_trailing_ws(#[trigger] parts[i]) by {
        let l = ls[i];
        let sp = split_by(l, true);
        lemma_split_pieces_clean(l, true);
        let g = |x: Seq<char>| x.len() > 0;
        crate::model::project::lemma_filter_in(sp, g);
        let ws = words(l);
        assert forall|j: int| 0 <= j < ws.len() implies (#[trigger] ws[j]).len() > 0 && no_ws(ws[j]) by {
            assert(sp.contains(ws[j]));
            let m = choose|m: int| 0 <= m < sp.len() && sp[m] == ws[j];
            assert forall|k: int| 0 <= k < ws[j].len() implies !is_ws(#[trigger] ws[j][k]) by {
                assert(!is_sep(true, sp[m][k]));
            }
        }
        lemma_pieces_clean(ws, w);
        lemma_fill_state_clean(pieces(ws, w), w);
        lemma_no_trailing_concat(fill_state(pieces(ws, w), w).0, fill_state(pieces(ws, w), w).1);
    }
    lemma_join_clean(parts);
}

/// Joining texts without trailing whitespace by line breaks keeps that.
proof fn lemma_join_clean(parts: Seq<Seq<char>>)
    requires
        forall|i: int| 0 <= i < parts.len() ==> no_trailing_ws(#[trigger] parts[i]),
    ensures
        no_trailing_ws(join(parts, seq!['\n'])),
    decreases parts.len(),
{
    if parts.len() == 1 {
        assert(no_trailing_ws(parts[0]));
    } else if parts.len() > 1 {
        let d = parts.drop_last();
        assert forall|i: int| 0 <= i < d.len() implies no_trailing_ws(#[trigger] d[i]) by {
            assert(d[i] == parts[i]);
        }
        lemma_join_clean(d);
        let nl = seq!['\n'];
        assert(no_trailing_ws(nl));
        assert(no_trailing_ws(parts.last())) by {
            assert(parts[parts.len() - 1] == parts.last());
        }
        lemma_no_trailing_concat(join(d, nl), nl);
        lemma_no_trailing_concat(join(d, nl) + nl, parts.last());
    }
}

/// Trimming leaves no whitespace at the end.
pub proof fn lemma_trim_end_clean(s: Seq<char>)
    ensures
        trim_end(s).len() > 0 ==> !is_ws(trim_end(s).last()),
    decreases s.len(),
{
    if s.len() > 0 && is_ws(s.last()) {
        lemma_trim_end_clean(s.drop_last());
    }
}

/// A table row never ends in whitespace, whatever its cells.
pub proof fn lemma_row_no_trailing_ws(cells: Seq<Seq<char>>, widths: Seq<nat>, gutter: Seq<char>)
    ensures
        row_spec(cells, widths, gutter).len() > 0 ==> !is_ws(row_spec(cells, widths, gutter).last()),
{
    lemma_trim_end_clean(join(row_parts(cells, widths), gutter));
}


// --- Wrapping loses no text ----------------------------------------------------------

/// The characters of `s` that are not whitespace, in order.
pub open spec fn solid(s: Seq<char>) -> Seq<char>
    decreases s.len(),
{
    if s.len() == 0 {
        Seq::empty()
    } else if is_ws(s.last()) {
        solid(s.drop_last())
    } else {
        solid(s.drop_last()).push(s.last())
    }
}

/// Taking the non-whitespace characters distributes over concatenation.
proof fn lemma_solid_add(a: Seq<char>, b: Seq<char>)
    ensures
        solid(a + b) == solid(a) + solid(b),
    decreases b.len(),
{
    if b.len() == 0 {
        assert(a + b =~= a);
        assert(solid(a) + solid(b) =~= solid(a));
    } else {
        lemma_solid_add(a, b.drop_last());
        assert((a + b).drop_last() =~= a + b.drop_last());
        assert((a + b).last() == b.last());
        if !is_ws(b.last()) {
            assert(solid(a) + solid(b) =~= (solid(a) + solid(b.drop_last())).push(b.last()));
        }
    }
}

/// One character: kept when it is not whitespace.
proof fn lemma_solid_one(c: char)
    ensures
        solid(seq![c]) == if is_ws(c) {
            Seq::<char>::empty()
        } else {
            seq![c]
        },
{
    assert(seq![c].drop_last() =~= Seq::<char>::empty());
    assert(solid(Seq::<char>::empty()) == Seq::<char>::empty());
    assert(seq![c].last() == c);
    assert(Seq::<char>::empty().push(c) =~= seq![c]);
}

/// One piece reads as itself.
proof fn lemma_concat_one(t: Seq<char>)
    ensures
        concat(seq![t]) == t,
{
    assert(seq![t].drop_last() =~= Seq::<Seq<char>>::empty());
    assert(concat(Seq::<Seq<char>>::empty()) == Seq::<char>::empty());
    assert(seq![t].last() == t);
    assert(Seq::<char>::empty() + t =~= t);
}

/// Concatenation distributes over appending lists of pieces.
proof fn lemma_concat_add(a: Seq<Seq<char>>, b: Seq<Seq<char>>)
    ensures
        concat(a + b) == concat(a) + concat(b),
    decreases b.len(),
{
    if b.len() == 0 {
        assert(a + b =~= a);
        assert(concat(a) + concat(b) =~= concat(a));
    } else {
        lemma_concat_add(a, b.drop_last());
        assert((a + b).drop_last() =~= a + b.drop_last());
        assert((a + b).last() == b.last());
        assert(concat(a) + concat(b) =~= concat(a) + concat(b.drop_last()) + b.last());
    }
}

/// Splitting at separators that are whitespace drops no other character.
proof fn lemma_solid_split(s: Seq<char>, on_ws: bool)
    ensures
        solid(concat(split_by(s, on_ws))) == solid(s),
    decreases s.len(),
{
    if s.len() == 0 {
        lemma_concat_one(Seq::<char>::empty());
        assert(split_by(s, on_ws) == seq![Seq::<char>::empty()]);
    } else {
        let d = s.drop_last();
        let c = s.last();
        lemma_solid_split(d, on_ws);
        lemma_split_nonempty(d, on_ws);
        let r = split_by(d, on_ws);
        assert(s == d.push(c));
        assert(d + seq![c] =~= s);
        lemma_solid_add(d, seq![c]);
        lemma_solid_one(c);
        if is_sep(on_ws, c) {
            assert(is_ws(c));
            let r2 = r.push(Seq::<char>::empty());
            assert(r2.drop_last() =~= r);
            assert(concat(r2) =~= concat(r));
        } else {
            let r2 = r.update(r.len() - 1, r.last().push(c));
            assert(r2.drop_last() =~= r.drop_last());
            assert(concat(r2) == concat(r.drop_last()) + r.last().push(c));
            assert(concat(r) == concat(r.drop_last()) + r.last());
            assert(concat(r2) =~= concat(r) + seq![c]);
            lemma_solid_add(concat(r), seq![c]);
        }
    }
}

/// Dropping pieces that keep nothing changes no concatenation.
proof fn lemma_concat_filter(p: Seq<Seq<char>>, pred: spec_fn(Seq<char>) -> bool)
    requires
        forall|w: Seq<char>| w.len() > 0 ==> #[trigger] pred(w),
    ensures
        concat(p.filter(pred)) == concat(p),
    decreases p.len(),
{
    reveal_with_fuel(Seq::filter, 1);
    if p.len() > 0 {
        lemma_concat_filter(p.drop_last(), pred);
        let f = p.drop_last().filter(pred);
        if pred(p.last()) {
            assert(f.push(p.last()).drop_last() =~= f);
        } else {
            assert(p.last().len() == 0);
            assert(concat(p) =~= concat(p.drop_last()));
        }
    }
}

/// A word cut into chunks reads as the word.
proof fn lemma_concat_chunks(t: Seq<char>, w: nat)
    ensures
        concat(chunks(t, w)) == t,
    decreases t.len(),
{
    if w == 0 || t.len() <= w {
        lemma_concat_one(t);
    } else {
        lemma_concat_chunks(t.skip(w as int), w);
        lemma_concat_add(seq![t.take(w as int)], chunks(t.skip(w as int), w));
        lemma_concat_one(t.take(w as int));
        assert(t.take(w as int) + t.skip(w as int) =~= t);
    }
}

/// Cutting words into chunks reads as the words.
proof fn lemma_concat_pieces(ws: Seq<Seq<char>>, w: nat)
    ensures
        concat(pieces(ws, w)) == concat(ws),
    decreases ws.len(),
{
    if ws.len() > 0 {
        lemma_concat_pieces(ws.drop_last(), w);
        lemma_concat_add(pieces(ws.drop_last(), w), chunks(ws.last(), w));
        lemma_concat_chunks(ws.last(), w);
    }
}

/// Filling lines adds only spaces and line breaks.
proof fn lemma_fill_state_solid(ps: Seq<Seq<char>>, w: nat)
    ensures
        solid(fill_state(ps, w).0 + fill_state(ps, w).1) == solid(concat(ps)),
    decreases ps.len(),
{
    if ps.len() == 0 {
        assert(Seq::<char>::empty() + Seq::<char>::empty() =~= Seq::<char>::empty());
    } else {
        lemma_fill_state_solid(ps.drop_last(), w);
        let (d, cur) = fill_state(ps.drop_last(), w);
        let t = ps.last();
        lemma_solid_add(concat(ps.drop_last()), t);
        lemma_solid_add(d + cur, t);
        lemma_solid_one(' ');
        lemma_solid_one('\n');
        if cur.len() == 0 {
            assert(d + cur =~= d);
            assert(d + t =~= d + cur + t);
        } else if cur.len() + 1 + t.len() <= w {
            assert(d + (cur + seq![' '] + t) =~= (d + cur) + seq![' '] + t);
            lemma_solid_add(d + cur, seq![' ']);
            lemma_solid_add((d + cur) + seq![' '], t);
        } else {
            assert((d + cur + seq!['\n']) + t =~= (d + cur) + seq!['\n'] + t);
            lemma_solid_add(d + cur, seq!['\n']);
            lemma_solid_add((d + cur) + seq!['\n'], t);
        }
    }
}

/// Joining with line breaks adds only whitespace.
proof fn lemma_solid_join(parts: Seq<Seq<char>>)
    ensures
        solid(join(parts, seq!['\n'])) == solid(concat(parts)),
    decreases parts.len(),
{
    if parts.len() == 1 {
        assert(parts =~= seq![parts[0]]);
        lemma_concat_one(parts[0]);
    } else if parts.len() > 1 {
        let d = parts.drop_last();
        lemma_solid_join(d);
        lemma_solid_one('\n');
        lemma_solid_add(join(d, seq!['\n']), seq!['\n']);
        lemma_solid_add(join(d, seq!['\n']) + seq!['\n'], parts.last());
        lemma_solid_add(concat(d), parts.last());
    }
}

/// Lists whose pieces keep the same text keep it together.
proof fn lemma_solid_concat_same(a: Seq<Seq<char>>, b: Seq<Seq<char>>)
    requires
        a.len() == b.len(),
        forall|i: int| 0 <= i < a.len() ==> solid(#[trigger] a[i]) == solid(b[i]),
    ensures
        solid(concat(a)) == solid(concat(b)),
    decreases a.len(),
{
    if a.len() > 0 {
        lemma_solid_concat_same(a.drop_last(), b.drop_last());
        lemma_solid_add(concat(a.drop_last()), a.last());
        lemma_solid_add(concat(b.drop_last()), b.last());
        assert(solid(a[a.len() - 1]) == solid(b[b.len() - 1]));
    }
}

/// Word-wrapping loses no text: the wrapped text holds every character of
/// `text` that is not whitespace, in order, and no other; only whitespace is
/// changed (long words are cut, never dropped).
pub proof fn lemma_wrap_words_keeps_text(text: Seq<char>, width: nat)
    ensures
        solid(wrap_words_spec(text, width)) == solid(text),
{
    let w = at_least_one(width);
    let ls = split_lines(text);
    let parts = ls.map_values(|l: Seq<char>| fill(pieces(words(l), w), w));
    assert forall|i: int| 0 <= i < parts.len() implies solid(#[trigger] parts[i]) == solid(ls[i]) by {
        let l = ls[i];
        let ps = pieces(words(l), w);
        lemma_fill_state_solid(ps, w);
        lemma_concat_pieces(words(l), w);
        lemma_concat_filter(split_by(l, true), |p: Seq<char>| p.len() > 0);
        assert(words(l) == split_by(l, true).filter(|p: Seq<char>| p.len() > 0));
        lemma_solid_split(l, true);
    }
    lemma_solid_join(parts);
    lemma_solid_concat_same(parts, ls);
    lemma_solid_split(text, false);
}
/// Text without separators is a single piece.
proof fn lemma_split_single(s: Seq<char>, on_ws: bool)
    requires
        forall|k: int| 0 <= k < s.len() ==> !is_sep(on_ws, #[trigger] s[k]),
    ensures
        split_by(s, on_ws) == seq![s],
    decreases s.len(),
{
    if s.len() == 0 {
        assert(s =~= Seq::<char>::empty());
        assert(split_by(s, on_ws) =~= seq![s]);
    } else {
        let d = s.drop_last();
        assert forall|k: int| 0 <= k < d.len() implies !is_sep(on_ws, #[trigger] d[k]) by {
            assert(d[k] == s[k]);
        }
        lemma_split_single(d, on_ws);
        assert(!is_sep(on_ws, s[s.len() - 1]));
        assert(d.push(s.last()) =~= s);
        assert(seq![d].update(0, d.push(s.last())) =~= seq![s]);
    }
}

/// Line breaks are forced breaks: wrapping a text is wrapping each of its
/// lines on its own and joining the results with line breaks.
pub proof fn lemma_wrap_words_by_line(text: Seq<char>, width: nat)
    ensures
        wrap_words_spec(text, width) == join(
            split_lines(text).map_values(|l: Seq<char>| wrap_words_spec(l, width)),
            seq!['\n'],
        ),
{
    let w = at_least_one(width);
    let ls = split_lines(text);
    lemma_split_pieces_clean(text, false);
    let a = ls.map_values(|l: Seq<char>| fill(pieces(words(l), w), w));
    let b = ls.map_values(|l: Seq<char>| wrap_words_spec(l, width));
    assert forall|i: int| 0 <= i < ls.len() implies a[i] == b[i] by {
        let l = ls[i];
        assert forall|k: int| 0 <= k < l.len() implies !is_sep(false, #[trigger] l[k]) by {
            assert(!is_sep(false, split_by(text, false)[i][k]));
        }
        lemma_split_single(l, false);
        assert(split_lines(l) == seq![l]);
        let m = split_lines(l).map_values(|x: Seq<char>| fill(pieces(words(x), w), w));
        assert(m =~= seq![fill(pieces(words(l), w), w)]);
    }
    assert(a =~= b);
}
/// Lines interleaved with blocks: line `i`, then block `i` when there is one.
pub open spec fn with_blocks(lines: Seq<Seq<char>>, bs: Seq<Option<Seq<char>>>) -> Seq<Seq<char>>
    decreases lines.len(),
{
    if lines.len() == 0 {
        Seq::empty()
    } else {
        let i = lines.len() - 1;
        with_blocks(lines.drop_last(), bs) + seq![lines.last()] + if i < bs.len() && bs[i] is Some {
            seq![bs[i]->0]
        } else {
            Seq::empty()
        }
    }
}

/// The body is the row lines interleaved with the blocks.
proof fn lemma_body_with_blocks(rs: Seq<Seq<Seq<char>>>, bs: Seq<Option<Seq<char>>>, w: Seq<nat>)
    ensures
        body_lines(rs, bs, w) == with_blocks(rs.map_values(|r: Seq<Seq<char>>| row_spec(r, w, seq![' ', ' '])), bs),
    decreases rs.len(),
{
    if rs.len() > 0 {
        lemma_body_with_blocks(rs.drop_last(), bs, w);
        let m = rs.map_values(|r: Seq<Seq<char>>| row_spec(r, w, seq![' ', ' ']));
        assert(m.drop_last() =~= rs.drop_last().map_values(|r: Seq<Seq<char>>| row_spec(r, w, seq![' ', ' '])));
        assert(m.last() == row_spec(rs.last(), w, seq![' ', ' ']));
    }
}

/// Truncating keeps a text free of line breaks.
proof fn lemma_truncate_no_break(s: Seq<char>, max: nat)
    requires
        no_break(s),
    ensures
        no_break(truncate_spec(s, max)),
{
    let t = truncate_spec(s, max);
    assert forall|k: int| 0 <= k < t.len() implies #[trigger] t[k] != '\n' by {
        if max > 1 && s.len() > max && k < max - 1 {
            assert(t[k] == s[k]);
        }
    }
}

/// Joining texts free of line breaks with a separator free of them gives
/// such a text.
proof fn lemma_join_no_break(parts: Seq<Seq<char>>, sep: Seq<char>)
    requires
        no_break(sep),
        forall|i: int| 0 <= i < parts.len() ==> no_break(#[trigger] parts[i]),
    ensures
        no_break(join(parts, sep)),
    decreases parts.len(),
{
    if parts.len() == 1 {
        assert(no_break(parts[0]));
    } else if parts.len() > 1 {
        let d = parts.drop_last();
        assert forall|i: int| 0 <= i < d.len() implies no_break(#[trigger] d[i]) by {
            assert(d[i] == parts[i]);
        }
        lemma_join_no_break(d, sep);
        let a = join(d, sep);
        let l = parts.last();
        assert(no_break(parts[parts.len() - 1]));
        let x = a + sep + l;
        assert forall|k: int| 0 <= k < x.len() implies #[trigger] x[k] != '\n' by {
            if k < a.len() {
                assert(x[k] == a[k]);
            } else if k < a.len() + sep.len() {
                assert(x[k] == sep[k - a.len()]);
            } else {
                assert(x[k] == l[k - a.len() - sep.len()]);
            }
        }
    }
}

/// Dropping trailing whitespace keeps a text free of line breaks.
proof fn lemma_trim_end_no_break(s: Seq<char>)
    requires
        no_break(s),
    ensures
        no_break(trim_end(s)),
    decreases s.len(),
{
    if s.len() > 0 && is_ws(s.last()) {
        let d = s.drop_last();
        assert forall|k: int| 0 <= k < d.len() implies #[trigger] d[k] != '\n' by {
            assert(d[k] == s[k]);
        }
        lemma_trim_end_no_break(d);
    }
}

/// A table row of cells free of line breaks is a single line.
proof fn lemma_row_no_break(cells: Seq<Seq<char>>, widths: Seq<nat>)
    requires
        forall|i: int| 0 <= i < cells.len() ==> no_break(#[trigger] cells[i]),
    ensures
        no_break(row_spec(cells, widths, seq![' ', ' '])),
{
    let parts = row_parts(cells, widths);
    assert forall|i: int| 0 <= i < parts.len() implies no_break(#[trigger] parts[i]) by {
        let src = if i < cells.len() { cells[i] } else { Seq::<char>::empty() };
        if i < cells.len() {
            assert(no_break(cells[i]));
        }
        assert(no_break(src));
        lemma_truncate_no_break(src, widths[i]);
        let c = truncate_spec(src, widths[i]);
        if i != widths.len() - 1 {
            let x = c + spaces((widths[i] - c.len()) as nat);
            assert forall|k: int| 0 <= k < x.len() implies #[trigger] x[k] != '\n' by {
                if k < c.len() {
                    assert(x[k] == c[k]);
                }
            }
        }
    }
    let g = seq![' ', ' '];
    assert(no_break(g));
    lemma_join_no_break(parts, g);
    lemma_trim_end_no_break(join(parts, g));
}

/// Appending text free of line breaks extends the last line.
proof fn lemma_split_append(a: Seq<char>, b: Seq<char>)
    requires
        no_break(b),
    ensures
        split_lines(a + b) == split_lines(a).update(split_lines(a).len() - 1, split_lines(a).last() + b),
    decreases b.len(),
{
    lemma_split_nonempty(a, false);
    if b.len() == 0 {
        assert(a + b =~= a);
        assert(split_lines(a).last() + b =~= split_lines(a).last());
        assert(split_lines(a).update(split_lines(a).len() - 1, split_lines(a).last()) =~= split_lines(a));
    } else {
        let bd = b.drop_last();
        assert(no_break(bd)) by {
            assert forall|k: int| 0 <= k < bd.len() implies #[trigger] bd[k] != '\n' by {
                assert(bd[k] == b[k]);
            }
        }
        lemma_split_append(a, bd);
        assert((a + b).drop_last() =~= a + bd);
        assert((a + b).last() == b.last());
        assert(b.last() != '\n') by {
            assert(b[b.len() - 1] != '\n');
        }
        lemma_split_nonempty(a + bd, false);
        let r = split_lines(a + bd);
        assert(split_lines(a + b) == r.update(r.len() - 1, r.last().push(b.last())));
        let sa = split_lines(a);
        assert(r.len() == sa.len());
        assert(r.last() == sa.last() + bd);
        assert((sa.last() + bd).push(b.last()) =~= sa.last() + b);
        assert(r.update(r.len() - 1, r.last().push(b.last())) =~= sa.update(sa.len() - 1, sa.last() + b));
    }
}

/// Lines free of line breaks, joined with line breaks, split back into
/// themselves.
proof fn lemma_split_join(ls: Seq<Seq<char>>)
    requires
        ls.len() > 0,
        forall|i: int| 0 <= i < ls.len() ==> no_break(#[trigger] ls[i]),
    ensures
        split_lines(join(ls, seq!['\n'])) == ls,
    decreases ls.len(),
{
    if ls.len() == 1 {
        let l = ls[0];
        assert(no_break(l));
        assert forall|k: int| 0 <= k < l.len() implies !is_sep(false, #[trigger] l[k]) by {}
        lemma_split_single(l, false);
        assert(ls =~= seq![l]);
    } else {
        let d = ls.drop_last();
        assert forall|i: int| 0 <= i < d.len() implies no_break(#[trigger] d[i]) by {
            assert(d[i] == ls[i]);
        }
        lemma_split_join(d);
        let a = join(d, seq!['\n']);
        let an = a + seq!['\n'];
        lemma_split_nonempty(a, false);
        assert(an.drop_last() =~= a);
        assert(an.last() == '\n');
        assert(split_lines(an) == split_lines(a).push(Seq::<char>::empty()));
        let l = ls.last();
        assert(no_break(ls[ls.len() - 1]));
        lemma_split_append(an, l);
        assert(Seq::<char>::empty() + l =~= l);
        assert(split_lines(an + l) =~= ls);
    }
}

/// Blocks never change a table's lines: when no header or cell holds a line
/// break, the plain table splits into its header line and one line per row,
/// and the table with blocks is exactly those lines with each row's block,
/// when it has one, inserted right after the row. A block list shorter than
/// the rows annotates only its rows; extra blocks are ignored.
pub proof fn lemma_blocks_keep_table_lines(
    h: Seq<Seq<char>>,
    rs: Seq<Seq<Seq<char>>>,
    bs: Seq<Option<Seq<char>>>,
    flex: Option<usize>,
    budget: nat,
)
    requires
        forall|i: int| 0 <= i < h.len() ==> no_break(#[trigger] h[i]),
        forall|i: int, j: int| 0 <= i < rs.len() && 0 <= j < rs[i].len() ==> no_break(#[trigger] rs[i][j]),
    ensures
        ({
            let base = split_lines(table_spec(h, rs, Seq::empty(), flex, budget));
            &&& base.len() == rs.len() + 1
            &&& table_spec(h, rs, bs, flex, budget) == join(seq![base[0]] + with_blocks(base.drop_first(), bs), seq!['\n'])
        }),
{
    let w = column_widths_spec(h, rs, flex, budget);
    let g = seq![' ', ' '];
    let head = row_spec(h, w, g);
    let rows = table_rows(rs, w);
    lemma_rows_no_break(rs, w);
    lemma_row_no_break(h, w);
    let all = seq![head] + rows;
    assert forall|i: int| 0 <= i < all.len() implies no_break(#[trigger] all[i]) by {
        if i > 0 {
            assert(all[i] == rows[i - 1]);
        }
    }
    lemma_body_plain(rs, w);
    assert(table_spec(h, rs, Seq::empty(), flex, budget) == join(all, seq!['\n']));
    lemma_split_join(all);
    let base = split_lines(table_spec(h, rs, Seq::empty(), flex, budget));
    assert(base == all);
    assert(base.drop_first() =~= rows);
    lemma_body_with_blocks(rs, bs, w);
    assert(table_spec(h, rs, bs, flex, budget) == join(seq![head] + body_lines(rs, bs, w), seq!['\n']));
}

/// The row lines of a table body.
pub open spec fn table_rows(rs: Seq<Seq<Seq<char>>>, w: Seq<nat>) -> Seq<Seq<char>> {
    rs.map_values(|r: Seq<Seq<char>>| row_spec(r, w, seq![' ', ' ']))
}

/// The rows of cells free of line breaks are single lines.
proof fn lemma_rows_no_break(rs: Seq<Seq<Seq<char>>>, w: Seq<nat>)
    requires
        forall|i: int, j: int| 0 <= i < rs.len() && 0 <= j < rs[i].len() ==> no_break(#[trigger] rs[i][j]),
    ensures
        forall|i: int| 0 <= i < rs.len() ==> no_break(#[trigger] table_rows(rs, w)[i]),
{
    assert forall|i: int| 0 <= i < rs.len() implies no_break(#[trigger] table_rows(rs, w)[i]) by {
        let cells = rs[i];
        assert forall|j: int| 0 <= j < cells.len() implies no_break(#[trigger] cells[j]) by {
            assert(no_break(rs[i][j]));
        }
        lemma_row_no_break(cells, w);
    }
}
} // verus!
