//! Case-insensitive search over concept and task names and descriptions, with
//! excerpts around description hits.
use vstd::prelude::*;

use super::render::{avail_spec, avail_width, truncate_chars, truncate_spec, DESC_INDENT};
use crate::model::project::Project;
use crate::text::{chars_of, push_all, push_range, replace_char, replace_in, string_from};

verus! {

/// Characters of context shown on each side of a hit in a snippet.
pub const SNIPPET_CONTEXT: usize = 40;

/// What `str::to_lowercase` returns for `s`.
pub uninterp spec fn str_lowercase(s: Seq<char>) -> Seq<char>;

/// What `char::to_lowercase` yields for `c`.
pub uninterp spec fn char_lowercase(c: char) -> Seq<char>;

/// `str::to_lowercase`: the lowercase form of `s`, named by `str_lowercase`.
#[verifier::external_body]
fn lowercase(s: &str) -> (r: String)
    ensures
        r@ == str_lowercase(s@),
{
    s.to_lowercase()
}

/// `char::to_lowercase`, collected: the lowercase mapping of `c`, named by
/// `char_lowercase`. The documentation promises one or more characters.
#[verifier::external_body]
fn lowercase_char(c: char) -> (r: Vec<char>)
    ensures
        r@ == char_lowercase(c),
        r@.len() >= 1,
{
    c.to_lowercase().collect()
}

/// `q` occurs in `h` starting at `p`.
pub open spec fn occurs_at(h: Seq<char>, q: Seq<char>, p: int) -> bool {
    0 <= p && p + q.len() <= h.len() && h.subrange(p, p + q.len()) == q
}

/// The first position at or after `from` where `q` occurs in `h`.
pub open spec fn find_from(h: Seq<char>, q: Seq<char>, from: int) -> Option<int>
    decreases h.len() + 1 - from,
{
    if from < 0 || from + q.len() > h.len() {
        None
    } else if occurs_at(h, q, from) {
        Some(from)
    } else {
        find_from(h, q, from + 1)
    }
}

/// The first position where `q` occurs in `h`, as `str::find` gives it (in characters).
pub open spec fn find_spec(h: Seq<char>, q: Seq<char>) -> Option<int> {
    find_from(h, q, 0)
}

fn occurs_at_exec(h: &[char], q: &[char], p: usize) -> (r: bool)
    requires
        p + q@.len() <= h@.len(),
    ensures
        r == occurs_at(h@, q@, p as int),
{
    let hl = h.len();
    let mut k: usize = 0;
    while k < q.len()
        invariant
            k <= q@.len(),
            p + q@.len() <= h@.len(),
            hl == h@.len(),
            forall|m: int| 0 <= m < k ==> h@[p + m] == q@[m],
        decreases q@.len() - k,
    {
        if h[p + k] != q[k] {
            assert(h@.subrange(p as int, p + q@.len())[k as int] != q@[k as int]);
            return false;
        }
        k += 1;
    }
    assert(h@.subrange(p as int, p + q@.len()) =~= q@);
    true
}

/// The first character position where `q` occurs in `h`.
pub fn find_chars(h: &[char], q: &[char]) -> (r: Option<usize>)
    ensures
        match r {
            Some(p) => find_spec(h@, q@) == Some(p as int),
            None => find_spec(h@, q@) is None,
        },
{
    if q.len() > h.len() {
        return None;
    }
    let last = h.len() - q.len();
    let mut p: usize = 0;
    loop
        invariant
            last + q@.len() == h@.len(),
            p <= last,
            find_spec(h@, q@) == find_from(h@, q@, p as int),
        decreases last - p,
    {
        if occurs_at_exec(h, q, p) {
            return Some(p);
        }
        if p == last {
            assert(find_from(h@, q@, p + 1) is None);
            return None;
        }
        p += 1;
    }
}

/// `haystack` lowercased by `str::to_lowercase` contains the (already lowercase) `query`.
pub open spec fn matches_spec(haystack: Seq<char>, query: Seq<char>) -> bool {
    find_spec(str_lowercase(haystack), query) is Some
}

/// Whether `haystack`, lowercased, contains `query` (which the caller has
/// already lowercased).
pub fn matches(haystack: &str, query: &str) -> (r: bool)
    ensures
        r == matches_spec(haystack@, query@),
{
    let lowered = lowercase(haystack);
    let h = chars_of(lowered.as_str());
    let q = chars_of(query);
    find_chars(h.as_slice(), q.as_slice()).is_some()
}

/// `s` lowercased character by character, with, for each character of the
/// result, the position of the character of `s` it came from.
pub open spec fn lower_map(s: Seq<char>) -> (Seq<char>, Seq<usize>)
    decreases s.len(),
{
    if s.len() == 0 {
        (Seq::empty(), Seq::empty())
    } else {
        let (l, o) = lower_map(s.drop_last());
        let lc = char_lowercase(s.last());
        (l + lc, o + Seq::new(lc.len(), |k: int| (s.len() - 1) as usize))
    }
}

/// The origin map of `lower_map` has one entry per lowered character, every
/// entry is a position of `s`, and the entries never decrease.
pub open spec fn origin_ok(n: nat, lowered: Seq<char>, origin: Seq<usize>) -> bool {
    &&& origin.len() == lowered.len()
    &&& forall|k: int| 0 <= k < origin.len() ==> (#[trigger] origin[k]) < n
    &&& forall|i: int, j: int| 0 <= i <= j < origin.len() ==> origin[i] <= origin[j]
}

/// Lowercase `s`, returning the lowercased text alongside, for each of its
/// characters, the index of the source character it came from.
///
/// `char::to_lowercase` can yield several characters for one input (`İ`), so
/// positions in the lowercased text do not line up with the source text.
pub fn lower_with_map(s: &str) -> (r: (String, Vec<usize>))
    ensures
        (r.0@, r.1@) == lower_map(s@),
        origin_ok(s@.len(), r.0@, r.1@),
{
    let v = chars_of(s);
    let mut lowered: Vec<char> = Vec::new();
    let mut origin: Vec<usize> = Vec::new();
    let mut i: usize = 0;
    while i < v.len()
        invariant
            v@ == s@,
            i <= v@.len(),
            (lowered@, origin@) == lower_map(v@.take(i as int)),
            origin_ok(i as nat, lowered@, origin@),
        decreases v@.len() - i,
    {
        let ghost t = v@.take(i + 1);
        assert(t.drop_last() =~= v@.take(i as int));
        let lc = lowercase_char(v[i]);
        let ghost o0 = origin@;
        push_all(&mut lowered, lc.as_slice());
        let mut k: usize = 0;
        while k < lc.len()
            invariant
                k <= lc@.len(),
                i < v@.len(),
                origin@ == o0 + Seq::new(k as nat, |m: int| i),
            decreases lc@.len() - k,
        {
            origin.push(i);
            assert(origin@ =~= o0 + Seq::new((k + 1) as nat, |m: int| i));
            k += 1;
        }
        assert(Seq::new(lc@.len(), |m: int| i) =~= Seq::new(lc@.len(), |m: int| (t.len() - 1) as usize));
        assert(origin_ok((i + 1) as nat, lowered@, origin@)) by {
            assert forall|a: int, b: int| 0 <= a <= b < origin@.len() implies origin@[a] <= origin@[b] by {
                if b >= o0.len() {
                    assert(origin@[b] == i);
                    if a < o0.len() {
                        assert(o0[a] < i);
                    }
                }
            }
        }
        i += 1;
    }
    assert(v@.take(i as int) =~= v@);
    (string_from(lowered.as_slice()), origin)
}

/// The excerpt bounds around the hit `[p, p + qlen)` of the lowered text:
/// the hit mapped back to source positions `[start, end)`, widened by the
/// context on each side and kept within the `n` characters of the text.
pub open spec fn excerpt_bounds(origin: Seq<usize>, n: nat, p: int, qlen: nat) -> (int, int) {
    let lower_end = p + qlen;
    let start: int = if 0 <= p < origin.len() { origin[p] as int } else { 0 };
    let back: int = if lower_end >= 1 { lower_end - 1 } else { 0 };
    let end0: int = if 0 <= back < origin.len() { origin[back] + 1 } else { n as int };
    let end: int = if end0 <= n { end0 } else { n as int };
    let from: int = if start >= 40 { start - 40 } else { 0 };
    let to: int = if end + 40 <= n { end + 40 } else { n as int };
    (from, to)
}

/// The excerpt of `text` for a hit at `p` of the lowered text: `…` marks each
/// trimmed end, newlines become spaces, and the line is cut to `avail` columns.
pub open spec fn excerpt_spec(text: Seq<char>, origin: Seq<usize>, p: int, qlen: nat, avail: nat) -> Seq<char> {
    let (from, to) = excerpt_bounds(origin, text.len(), p, qlen);
    let body = (if from > 0 { seq!['…'] } else { Seq::empty() }) + text.subrange(from, to) + (if to < text.len() {
        seq!['…']
    } else {
        Seq::empty()
    });
    truncate_spec(replace_char(body, '\n', ' '), avail)
}

/// The snippet for `text` given its lowered form and origin map: the excerpt
/// around the first hit of `query`, or `None` when `query` does not occur.
pub open spec fn snippet_from_spec(
    text: Seq<char>,
    lowered: Seq<char>,
    origin: Seq<usize>,
    query: Seq<char>,
    avail: nat,
) -> Option<Seq<char>> {
    match find_spec(lowered, query) {
        None => None,
        Some(p) => Some(excerpt_spec(text, origin, p, query.len(), avail)),
    }
}

/// What `snippet` gives: the excerpt of `text` around its first
/// case-insensitive hit of `query`.
pub open spec fn snippet_spec(text: Seq<char>, query: Seq<char>, avail: nat) -> Option<Seq<char>> {
    snippet_from_spec(text, lower_map(text).0, lower_map(text).1, query, avail)
}

/// The position of a hit lies within the text it was found in.
proof fn lemma_find_from_bounds(h: Seq<char>, q: Seq<char>, from: int)
    ensures
        find_from(h, q, from) matches Some(p) ==> from <= p && p + q.len() <= h.len() && occurs_at(h, q, p),
    decreases h.len() + 1 - from,
{
    if from >= 0 && from + q.len() <= h.len() && !occurs_at(h, q, from) {
        lemma_find_from_bounds(h, q, from + 1);
    }
}

/// The excerpt around the first hit of the lowercase `query` in `lowered`,
/// the lowercased `text` whose characters came from the positions in `origin`.
pub fn snippet_from(text: &str, lowered: &str, origin: &Vec<usize>, query: &str, avail: usize) -> (r: Option<String>)
    requires
        origin_ok(text@.len(), lowered@, origin@),
    ensures
        match r {
            Some(s) => snippet_from_spec(text@, lowered@, origin@, query@, avail as nat) == Some(s@),
            None => snippet_from_spec(text@, lowered@, origin@, query@, avail as nat) is None,
        },
{
    let low = chars_of(lowered);
    let q = chars_of(query);
    let p = match find_chars(low.as_slice(), q.as_slice()) {
        None => return None,
        Some(p) => p,
    };
    let ll = low.len();
    proof {
        lemma_find_from_bounds(low@, q@, 0);
        if q@.len() == 0 {
            assert(low@.subrange(0, 0) =~= q@);
            assert(occurs_at(low@, q@, 0));
        }
    }
    let chars = chars_of(text);
    let n = chars.len();
    let lower_end = p + q.len();
    let start: usize = if p < origin.len() { origin[p] } else { 0 };
    let back: usize = if lower_end >= 1 { lower_end - 1 } else { 0 };
    let end0: usize = if back < origin.len() { origin[back] + 1 } else { n };
    let end: usize = if end0 <= n { end0 } else { n };
    let from: usize = if start >= SNIPPET_CONTEXT { start - SNIPPET_CONTEXT } else { 0 };
    let to: usize = if n - end >= SNIPPET_CONTEXT {
        end + SNIPPET_CONTEXT
    } else {
        n
    };
    proof {
        if p < origin@.len() {
            if q@.len() >= 1 {
                assert(origin@[p as int] <= origin@[back as int]);
            } else {
                assert(back == p);
            }
        }
    }
    assert(from <= to);
    let mut out: Vec<char> = Vec::new();
    if from > 0 {
        out.push('…');
    }
    push_range(&mut out, chars.as_slice(), from, to);
    if to < n {
        out.push('…');
    }
    replace_in(&mut out, '\n', ' ');
    let cut = truncate_chars(out.as_slice(), avail);
    assert(cut@ == excerpt_spec(text@, origin@, p as int, q@.len(), avail as nat)) by {
        let b = excerpt_bounds(origin@, text@.len(), p as int, q@.len());
        assert(b.0 == from && b.1 == to);
    }
    Some(string_from(cut.as_slice()))
}

/// A one-line excerpt of `text` around its first match of the already
/// lowercased `query`, with `…` marking each trimmed end. `None` when `query`
/// is absent.
pub fn snippet(text: &str, query: &str, avail: usize) -> (r: Option<String>)
    ensures
        match r {
            Some(s) => snippet_spec(text@, query@, avail as nat) == Some(s@),
            None => snippet_spec(text@, query@, avail as nat) is None,
        },
{
    let (lowered, origin) = lower_with_map(text);
    snippet_from(text, lowered.as_str(), &origin, query, avail)
}

/// What `snippet_block` gives.
pub open spec fn snippet_block_spec(description: Option<Seq<char>>, query: Seq<char>, search_description: bool, width: nat) -> Option<
    Seq<char>,
> {
    if !search_description {
        None
    } else {
        match description {
            None => None,
            Some(d) => match snippet_spec(d, query, avail_spec(width, 5)) {
                None => None,
                Some(t) => Some(seq![' ', ' ', ' ', ' ', ' '] + t),
            },
        }
    }
}

/// The indented excerpt shown beneath a row whose description matched, or
/// `None` when it did not (a name match is already visible in the row).
pub fn snippet_block(description: Option<&str>, query: &str, search_description: bool, width: usize) -> (r: Option<String>)
    ensures
        match r {
            Some(s) => snippet_block_spec(crate::export::opt_text(description), query@, search_description, width as nat)
                == Some(s@),
            None => snippet_block_spec(crate::export::opt_text(description), query@, search_description, width as nat)
                is None,
        },
{
    if !search_description {
        return None;
    }
    let d = match description {
        None => return None,
        Some(d) => d,
    };
    let avail = avail_width(width, DESC_INDENT);
    let text = match snippet(d, query, avail) {
        None => return None,
        Some(t) => t,
    };
    let mut v: Vec<char> = Vec::new();
    let mut k: usize = 0;
    while k < DESC_INDENT
        invariant
            k <= DESC_INDENT,
            v@ == Seq::new(k as nat, |m: int| ' '),
        decreases DESC_INDENT - k,
    {
        v.push(' ');
        assert(v@ =~= Seq::new((k + 1) as nat, |m: int| ' '));
        k += 1;
    }
    let tv = chars_of(text.as_str());
    push_all(&mut v, tv.as_slice());
    assert(v@ =~= seq![' ', ' ', ' ', ' ', ' '] + text@);
    Some(string_from(v.as_slice()))
}

/// A name, or (when descriptions are searched) a description, contains the query.
pub open spec fn is_hit(name: Seq<char>, description: Option<String>, query: Seq<char>, search_description: bool) -> bool {
    matches_spec(name, query) || (search_description && match description {
        Some(d) => matches_spec(d@, query),
        None => false,
    })
}

/// The positions `0..n` that satisfy `keep`, in order.
pub open spec fn positions(n: nat, keep: spec_fn(int) -> bool) -> Seq<usize> {
    Seq::new(n, |k: int| k as usize).filter(|k: usize| keep(k as int))
}

fn is_hit_exec(name: &str, description: &Option<String>, query: &str, search_description: bool) -> (r: bool)
    ensures
        r == is_hit(name@, *description, query@, search_description),
{
    if matches(name, query) {
        return true;
    }
    if !search_description {
        return false;
    }
    match description {
        Some(d) => matches(d.as_str(), query),
        None => false,
    }
}

/// The hits of a search: the lowercased query, then the positions of the
/// matching concepts and of the matching tasks, in project order.
pub fn search_hits(project: &Project, query: &str, search_description: bool) -> (r: (String, Vec<usize>, Vec<usize>))
    ensures
        r.0@ == str_lowercase(query@),
        r.1@ == positions(project.concepts@.len(), |k: int| is_hit(project.concepts@[k].name@, project.concepts@[k].description, r.0@, search_description)),
        r.2@ == positions(project.tasks@.len(), |k: int| is_hit(project.tasks@[k].name@, project.tasks@[k].description, r.0@, search_description)),
{
    let q = lowercase(query);
    let ghost cs = project.concepts@;
    let ghost ts = project.tasks@;
    let ghost ck = |k: int| is_hit(cs[k].name@, cs[k].description, q@, search_description);
    let ghost tk = |k: int| is_hit(ts[k].name@, ts[k].description, q@, search_description);
    let mut concepts: Vec<usize> = Vec::new();
    let mut i: usize = 0;
    while i < project.concepts.len()
        invariant
            cs == project.concepts@,
            ck == (|k: int| is_hit(cs[k].name@, cs[k].description, q@, search_description)),
            i <= cs.len(),
            concepts@ == Seq::new(i as nat, |k: int| k as usize).filter(|k: usize| ck(k as int)),
        decreases cs.len() - i,
    {
        assert(Seq::new((i + 1) as nat, |k: int| k as usize).drop_last() =~= Seq::new(i as nat, |k: int| k as usize));
        reveal_with_fuel(Seq::filter, 2);
        let c = &project.concepts[i];
        assert(Seq::new((i + 1) as nat, |k: int| k as usize).last() == i);
        assert(ck(i as int) == is_hit(c.name@, c.description, q@, search_description));
        if is_hit_exec(c.name.as_str(), &c.description, q.as_str(), search_description) {
            concepts.push(i);
        }
        assert(concepts@ =~= Seq::new((i + 1) as nat, |k: int| k as usize).filter(|k: usize| ck(k as int)));
        i += 1;
    }
    let mut tasks: Vec<usize> = Vec::new();
    let mut i: usize = 0;
    while i < project.tasks.len()
        invariant
            ts == project.tasks@,
            tk == (|k: int| is_hit(ts[k].name@, ts[k].description, q@, search_description)),
            i <= ts.len(),
            tasks@ == Seq::new(i as nat, |k: int| k as usize).filter(|k: usize| tk(k as int)),
        decreases ts.len() - i,
    {
        assert(Seq::new((i + 1) as nat, |k: int| k as usize).drop_last() =~= Seq::new(i as nat, |k: int| k as usize));
        reveal_with_fuel(Seq::filter, 2);
        let t = &project.tasks[i];
        assert(Seq::new((i + 1) as nat, |k: int| k as usize).last() == i);
        assert(tk(i as int) == is_hit(t.name@, t.description, q@, search_description));
        if is_hit_exec(t.name.as_str(), &t.description, q.as_str(), search_description) {
            tasks.push(i);
        }
        assert(tasks@ =~= Seq::new((i + 1) as nat, |k: int| k as usize).filter(|k: usize| tk(k as int)));
        i += 1;
    }
    (q, concepts, tasks)
}

/// A search from `from` finds something when `q` occurs at or after `from`.
proof fn lemma_find_from_complete(h: Seq<char>, q: Seq<char>, from: int, p: int)
    requires
        0 <= from <= p,
        occurs_at(h, q, p),
    ensures
        find_from(h, q, from) is Some,
    decreases p - from,
{
    if from < p && !occurs_at(h, q, from) {
        lemma_find_from_complete(h, q, from + 1, p);
    }
}

/// A name matches a query exactly when the query occurs somewhere in the
/// lowercased name, whatever surrounds it (a match inside a word counts).
pub proof fn lemma_matches_iff_occurs(haystack: Seq<char>, query: Seq<char>)
    ensures
        matches_spec(haystack, query) <==> exists|p: int|
            0 <= p && p + query.len() <= str_lowercase(haystack).len()
                && #[trigger] str_lowercase(haystack).subrange(p, p + query.len()) == query,
{
    let h = str_lowercase(haystack);
    lemma_find_from_bounds(h, query, 0);
    if exists|p: int| 0 <= p && p + query.len() <= h.len() && #[trigger] h.subrange(p, p + query.len()) == query {
        let p = choose|p: int| 0 <= p && p + query.len() <= h.len() && #[trigger] h.subrange(p, p + query.len()) == query;
        lemma_find_from_complete(h, query, 0, p);
    }
    if matches_spec(haystack, query) {
        let p = find_spec(h, query)->0;
        assert(h.subrange(p, p + query.len()) == query);
    }
}

} // verus!
