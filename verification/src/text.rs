//! Character-level helpers shared by the model, the renderers and the exporters.
use vstd::prelude::*;

verus! {

/// `String::push`: appends one character.
#[verifier::external_body]
pub(crate) fn string_push(s: &mut String, c: char)
    ensures
        final(s)@ == old(s)@.push(c),
{
    s.push(c);
}

/// The characters of `s`, in order.
pub fn chars_of(s: &str) -> (v: Vec<char>)
    ensures
        v@ == s@,
{
    let mut v: Vec<char> = Vec::new();
    for c in it: s.chars()
        invariant
            v@ == it.seq().take(it.index() as int),
    {
        v.push(c);
    }
    v
}

/// A `String` holding exactly the characters of `v`.
pub fn string_from(v: &[char]) -> (s: String)
    ensures
        s@ == v@,
{
    let mut s = String::new();
    let mut i: usize = 0;
    while i < v.len()
        invariant
            i <= v.len(),
            s@ == v@.take(i as int),
        decreases v.len() - i,
    {
        string_push(&mut s, v[i]);
        assert(v@.take(i as int).push(v@[i as int]) =~= v@.take(i + 1));
        i += 1;
    }
    assert(v@.take(v.len() as int) =~= v@);
    s
}

/// Appends every character of `src` to `dst`.
pub fn push_all(dst: &mut Vec<char>, src: &[char])
    ensures
        final(dst)@ == old(dst)@ + src@,
{
    let mut i: usize = 0;
    while i < src.len()
        invariant
            i <= src.len(),
            dst@ == old(dst)@ + src@.take(i as int),
        decreases src.len() - i,
    {
        dst.push(src[i]);
        assert(src@.take(i as int).push(src@[i as int]) =~= src@.take(i + 1));
        i += 1;
    }
    assert(src@.take(src.len() as int) =~= src@);
}

/// Appends `src[from..to]` to `dst`.
pub fn push_range(dst: &mut Vec<char>, src: &[char], from: usize, to: usize)
    requires
        from <= to <= src@.len(),
    ensures
        final(dst)@ == old(dst)@ + src@.subrange(from as int, to as int),
{
    let mut i = from;
    while i < to
        invariant
            from <= i <= to,
            to <= src@.len(),
            dst@ == old(dst)@ + src@.subrange(from as int, i as int),
        decreases to - i,
    {
        dst.push(src[i]);
        assert(src@.subrange(from as int, i + 1) =~= src@.subrange(from as int, i as int).push(src@[i as int]));
        i += 1;
    }
}

/// Appends every character of `src` to `dst`.
pub fn push_str(dst: &mut Vec<char>, src: &str)
    ensures
        final(dst)@ == old(dst)@ + src@,
{
    let v = chars_of(src);
    push_all(dst, v.as_slice());
}

/// Whether two strings hold the same characters.
pub fn str_eq(a: &str, b: &str) -> (r: bool)
    ensures
        r == (a@ == b@),
{
    let x = chars_of(a);
    let y = chars_of(b);
    slice_eq(x.as_slice(), y.as_slice())
}

/// Whether two character slices are equal.
pub fn slice_eq(x: &[char], y: &[char]) -> (r: bool)
    ensures
        r == (x@ == y@),
{
    if x.len() != y.len() {
        return false;
    }
    let mut i: usize = 0;
    while i < x.len()
        invariant
            i <= x.len(),
            x.len() == y.len(),
            forall|k: int| 0 <= k < i ==> x@[k] == y@[k],
        decreases x.len() - i,
    {
        if x[i] != y[i] {
            return false;
        }
        i += 1;
    }
    assert(x@ =~= y@);
    true
}

/// Whether `c` has the Unicode `White_Space` property (what
/// `char::is_whitespace` tests).
pub open spec fn is_ws(c: char) -> bool {
    ||| c == ' '
    ||| ('\u{9}' <= c <= '\u{d}')
    ||| c == '\u{85}'
    ||| c == '\u{a0}'
    ||| c == '\u{1680}'
    ||| ('\u{2000}' <= c <= '\u{200a}')
    ||| c == '\u{2028}'
    ||| c == '\u{2029}'
    ||| c == '\u{202f}'
    ||| c == '\u{205f}'
    ||| c == '\u{3000}'
}

/// Whether `c` is whitespace.
pub fn is_whitespace(c: char) -> (r: bool)
    ensures
        r == is_ws(c),
{
    c == ' ' || ('\u{9}' <= c && c <= '\u{d}') || c == '\u{85}' || c == '\u{a0}' || c == '\u{1680}'
        || ('\u{2000}' <= c && c <= '\u{200a}') || c == '\u{2028}' || c == '\u{2029}' || c
        == '\u{202f}' || c == '\u{205f}' || c == '\u{3000}'
}

/// Whether `c` is a control character (general category `Cc`, what
/// `char::is_control` tests).
pub open spec fn is_ctrl(c: char) -> bool {
    c <= '\u{1f}' || ('\u{7f}' <= c <= '\u{9f}')
}

/// Whether `c` is a control character.
pub fn is_control(c: char) -> (r: bool)
    ensures
        r == is_ctrl(c),
{
    c <= '\u{1f}' || ('\u{7f}' <= c && c <= '\u{9f}')
}

/// The separator test: whitespace when `on_ws`, else the newline.
pub open spec fn is_sep(on_ws: bool, c: char) -> bool {
    if on_ws {
        is_ws(c)
    } else {
        c == '\n'
    }
}

/// `s` split at every separator (the separators dropped). There is always at
/// least one piece; an empty `s` gives one empty piece.
pub open spec fn split_by(s: Seq<char>, on_ws: bool) -> Seq<Seq<char>>
    decreases s.len(),
{
    if s.len() == 0 {
        seq![Seq::empty()]
    } else {
        let r = split_by(s.drop_last(), on_ws);
        if is_sep(on_ws, s.last()) {
            r.push(Seq::empty())
        } else {
            r.update(r.len() - 1, r.last().push(s.last()))
        }
    }
}

/// `s` split at every newline, as `str::split('\n')` does.
pub open spec fn split_lines(s: Seq<char>) -> Seq<Seq<char>> {
    split_by(s, false)
}

/// The pieces of `s` between runs of whitespace, as `str::split_whitespace` gives them.
pub open spec fn words(s: Seq<char>) -> Seq<Seq<char>> {
    split_by(s, true).filter(|w: Seq<char>| w.len() > 0)
}

/// `parts` joined with the separator `sep` between consecutive parts.
pub open spec fn join(parts: Seq<Seq<char>>, sep: Seq<char>) -> Seq<char>
    decreases parts.len(),
{
    if parts.len() == 0 {
        Seq::empty()
    } else if parts.len() == 1 {
        parts[0]
    } else {
        join(parts.drop_last(), sep) + sep + parts.last()
    }
}

/// The pieces laid end to end.
pub open spec fn concat(parts: Seq<Seq<char>>) -> Seq<char>
    decreases parts.len(),
{
    if parts.len() == 0 {
        Seq::empty()
    } else {
        concat(parts.drop_last()) + parts.last()
    }
}

/// Concatenating one more piece appends it.
pub proof fn lemma_concat_take(parts: Seq<Seq<char>>, i: int)
    requires
        0 <= i < parts.len(),
    ensures
        concat(parts.take(i + 1)) == concat(parts.take(i)) + parts[i],
{
    assert(parts.take(i + 1).drop_last() =~= parts.take(i));
}

/// `s` with every `from` replaced by `to`.
pub open spec fn replace_char(s: Seq<char>, from: char, to: char) -> Seq<char> {
    s.map_values(|c: char| if c == from { to } else { c })
}

/// Replaces every `from` in `v` by `to`.
pub fn replace_in(v: &mut Vec<char>, from: char, to: char)
    ensures
        final(v)@ == replace_char(old(v)@, from, to),
{
    let mut i: usize = 0;
    while i < v.len()
        invariant
            i <= v@.len(),
            v@.len() == old(v)@.len(),
            forall|k: int| 0 <= k < i ==> v@[k] == (if old(v)@[k] == from { to } else { old(v)@[k] }),
            forall|k: int| i <= k < v@.len() ==> v@[k] == old(v)@[k],
        decreases v@.len() - i,
    {
        if v[i] == from {
            v.set(i, to);
        }
        i += 1;
    }
    assert(v@ =~= replace_char(old(v)@, from, to));
}

/// No piece of `split_by` holds a separator.
pub proof fn lemma_split_pieces_clean(s: Seq<char>, on_ws: bool)
    ensures
        forall|i: int, j: int|
            0 <= i < split_by(s, on_ws).len() && 0 <= j < split_by(s, on_ws)[i].len() ==> !is_sep(
                on_ws,
                #[trigger] split_by(s, on_ws)[i][j],
            ),
    decreases s.len(),
{
    if s.len() > 0 {
        lemma_split_pieces_clean(s.drop_last(), on_ws);
        lemma_split_nonempty(s.drop_last(), on_ws);
        let r = split_by(s.drop_last(), on_ws);
        if !is_sep(on_ws, s.last()) {
            let n = r.update(r.len() - 1, r.last().push(s.last()));
            assert forall|i: int, j: int| 0 <= i < n.len() && 0 <= j < n[i].len() implies !is_sep(on_ws, #[trigger] n[i][j]) by {
                if i < r.len() - 1 {
                    assert(n[i] == r[i]);
                } else if j < r.last().len() {
                    assert(n[i][j] == r[r.len() - 1][j]);
                }
            }
        } else {
            let n = r.push(Seq::<char>::empty());
            assert forall|i: int, j: int| 0 <= i < n.len() && 0 <= j < n[i].len() implies !is_sep(on_ws, #[trigger] n[i][j]) by {
                assert(n[i] == r[i]);
            }
        }
    }
}

/// Joining whitespace-free parts with single spaces leaves plain spaces as
/// the only whitespace.
pub proof fn lemma_join_spaces_only(parts: Seq<Seq<char>>)
    requires
        forall|i: int, j: int| 0 <= i < parts.len() && 0 <= j < parts[i].len() ==> !is_ws(#[trigger] parts[i][j]),
    ensures
        forall|k: int| 0 <= k < join(parts, seq![' ']).len() ==> #[trigger] join(parts, seq![' '])[k] == ' ' || !is_ws(
            join(parts, seq![' '])[k],
        ),
    decreases parts.len(),
{
    if parts.len() == 1 {
        assert forall|k: int| 0 <= k < join(parts, seq![' ']).len() implies #[trigger] join(parts, seq![' '])[k] == ' '
            || !is_ws(join(parts, seq![' '])[k]) by {
            assert(!is_ws(parts[0][k]));
        }
    } else if parts.len() > 1 {
        let d = parts.drop_last();
        assert forall|i: int, j: int| 0 <= i < d.len() && 0 <= j < d[i].len() implies !is_ws(#[trigger] d[i][j]) by {
            assert(d[i] == parts[i]);
        }
        lemma_join_spaces_only(d);
        let a = join(d, seq![' ']);
        let l = parts.last();
        assert forall|k: int| 0 <= k < join(parts, seq![' ']).len() implies #[trigger] join(parts, seq![' '])[k] == ' '
            || !is_ws(join(parts, seq![' '])[k]) by {
            let whole = a + seq![' '] + l;
            assert(join(parts, seq![' ']) == whole);
            if k < a.len() {
                assert(whole[k] == a[k]);
            } else if k == a.len() {
                assert(whole[k] == ' ');
            } else {
                assert(whole[k] == l[k - a.len() - 1]);
                assert(!is_ws(parts[parts.len() - 1][k - a.len() - 1]));
            }
        }
    }
}

/// `split_by` always yields at least one piece.
pub proof fn lemma_split_nonempty(s: Seq<char>, on_ws: bool)
    ensures
        split_by(s, on_ws).len() >= 1,
    decreases s.len(),
{
    if s.len() > 0 {
        lemma_split_nonempty(s.drop_last(), on_ws);
    }
}

/// Splits `v` at every separator (`'\n'`, or whitespace when `on_ws`).
pub fn split_chars(v: &[char], on_ws: bool) -> (r: Vec<Vec<char>>)
    ensures
        r.deep_view() == split_by(v@, on_ws),
{
    let mut done: Vec<Vec<char>> = Vec::new();
    let mut cur: Vec<char> = Vec::new();
    let mut i: usize = 0;
    assert(v@.take(0) =~= Seq::<char>::empty());
    assert(done.deep_view().push(cur@) =~= seq![Seq::<char>::empty()]);
    while i < v.len()
        invariant
            i <= v@.len(),
            done.deep_view().push(cur@) == split_by(v@.take(i as int), on_ws),
        decreases v@.len() - i,
    {
        let c = v[i];
        let sep = if on_ws { is_whitespace(c) } else { c == '\n' };
        let ghost t = v@.take(i + 1);
        assert(t.drop_last() =~= v@.take(i as int));
        assert(t.last() == c);
        let ghost before = done.deep_view().push(cur@);
        let ghost old_done = done.deep_view();
        if sep {
            let mut finished: Vec<char> = Vec::new();
            std::mem::swap(&mut finished, &mut cur);
            assert(finished.deep_view() =~= finished@);
            done.push(finished);
            assert(done.deep_view() =~= old_done.push(before.last()));
            assert(done.deep_view().push(cur@) =~= before.push(Seq::empty()));
        } else {
            cur.push(c);
            assert(done.deep_view().push(cur@) =~= before.update(before.len() - 1, before.last().push(c)));
        }
        i += 1;
    }
    assert(v@.take(i as int) =~= v@);
    let ghost old_done = done.deep_view();
    let ghost last = cur@;
    assert(cur.deep_view() =~= cur@);
    done.push(cur);
    assert(done.deep_view() =~= old_done.push(last));
    done
}

/// Joins `parts` with the one-character separator `sep`.
pub fn join_chars(parts: &Vec<Vec<char>>, sep: char) -> (r: Vec<char>)
    ensures
        r@ == join(parts.deep_view(), seq![sep]),
{
    let mut r: Vec<char> = Vec::new();
    let mut i: usize = 0;
    while i < parts.len()
        invariant
            i <= parts@.len(),
            r@ == join(parts.deep_view().take(i as int), seq![sep]),
        decreases parts@.len() - i,
    {
        let ghost t = parts.deep_view().take(i + 1);
        assert(t.drop_last() =~= parts.deep_view().take(i as int));
        if i > 0 {
            r.push(sep);
        }
        push_all(&mut r, parts[i].as_slice());
        assert(r@ =~= join(t, seq![sep])) by {
            if i == 0 {
                assert(t.len() == 1);
            }
        }
        i += 1;
    }
    assert(parts.deep_view().take(i as int) =~= parts.deep_view());
    r
}

/// The character of a decimal digit `d < 10`.
pub open spec fn digit_char(d: nat) -> char {
    (('0' as nat) + d) as char
}

/// Decimal representation of `n`, most significant digit first, no leading zeros.
pub open spec fn decimal(n: nat) -> Seq<char>
    decreases n,
{
    if n < 10 {
        seq![digit_char(n)]
    } else {
        decimal(n / 10).push(digit_char(n % 10))
    }
}

/// The decimal representation of `n`.
pub fn u64_decimal(n: u64) -> (v: Vec<char>)
    ensures
        v@ == decimal(n as nat),
{
    let mut acc: Vec<char> = Vec::new();
    let mut m: u64 = n;
    loop
        invariant
            decimal(n as nat) == decimal(m as nat) + acc@,
        decreases m,
    {
        let d: u64 = m % 10;
        let c: char = if d == 0 { '0' } else if d == 1 { '1' } else if d == 2 { '2' } else if d
            == 3 {
            '3'
        } else if d == 4 {
            '4'
        } else if d == 5 {
            '5'
        } else if d == 6 {
            '6'
        } else if d == 7 {
            '7'
        } else if d == 8 {
            '8'
        } else {
            '9'
        };
        assert(c == digit_char(d as nat));
        let ghost old_acc = acc@;
        acc.insert(0, c);
        assert(acc@ =~= seq![c] + old_acc);
        if m < 10 {
            assert(decimal(m as nat) =~= seq![c]);
            return acc;
        }
        assert(decimal(m as nat) == decimal((m / 10) as nat).push(c));
        assert(decimal((m / 10) as nat).push(c) + old_acc =~= decimal((m / 10) as nat) + acc@);
        m = m / 10;
    }
}


/// Whether `c` is an ASCII decimal digit.
pub open spec fn is_digit(c: char) -> bool {
    '0' <= c <= '9'
}

/// The value of a run of decimal digits.
pub open spec fn digits_value(s: Seq<char>) -> nat
    decreases s.len(),
{
    if s.len() == 0 {
        0
    } else {
        digits_value(s.drop_last()) * 10 + ((s.last() as nat) - ('0' as nat)) as nat
    }
}

/// The digits part of a `u64` literal: `s` without one leading `+`.
pub open spec fn strip_plus(s: Seq<char>) -> Seq<char> {
    if s.len() > 0 && s[0] == '+' {
        s.drop_first()
    } else {
        s
    }
}

/// Whether every character of `d` is a decimal digit.
pub open spec fn all_digits(d: Seq<char>) -> bool {
    forall|i: int| 0 <= i < d.len() ==> is_digit(#[trigger] d[i])
}

/// What `u64::from_str` accepts: an optional `+`, then one or more decimal
/// digits whose value fits in a `u64`.
pub open spec fn parse_u64_spec(s: Seq<char>) -> Option<u64> {
    let d = strip_plus(s);
    if d.len() > 0 && all_digits(d) && digits_value(d) <= u64::MAX {
        Some(digits_value(d) as u64)
    } else {
        None
    }
}

/// Parses `s[from..]` as `u64::from_str` does.
pub fn parse_u64(s: &[char], from: usize) -> (r: Option<u64>)
    requires
        from <= s.len(),
    ensures
        r == parse_u64_spec(s@.skip(from as int)),
{
    let ghost t = s@.skip(from as int);
    let mut i = from;
    if i < s.len() && s[i] == '+' {
        i += 1;
    }
    let ghost d = strip_plus(t);
    assert(d =~= s@.skip(i as int));
    if i == s.len() {
        return None;
    }
    let start = i;
    let mut acc: u64 = 0;
    let mut overflow = false;
    while i < s.len()
        invariant
            start <= i <= s.len(),
            start < s.len(),
            d =~= s@.skip(start as int),
            d == strip_plus(s@.skip(from as int)),
            forall|k: int| 0 <= k < i - start ==> is_digit(#[trigger] d[k]),
            !overflow ==> acc as nat == digits_value(d.take(i - start)),
            overflow ==> exists|k: int|
                0 <= k <= i - start && digits_value(#[trigger] d.take(k)) > u64::MAX,
        decreases s.len() - i,
    {
        let c = s[i];
        if !('0' <= c && c <= '9') {
            assert(!is_digit(d[i - start]));
            assert(!all_digits(d));
            return None;
        }
        if !overflow {
            let dv: u64 = (c as u32 - '0' as u32) as u64;
            assert(d.take(i + 1 - start).drop_last() =~= d.take(i - start));
            assert(digits_value(d.take(i + 1 - start)) == digits_value(d.take(i - start)) * 10
                + dv);
            if acc > (u64::MAX - dv) / 10 {
                overflow = true;
                assert(digits_value(d.take(i + 1 - start)) > u64::MAX);
            } else {
                acc = acc * 10 + dv;
            }
        }
        i += 1;
    }
    assert(d.take(i - start) =~= d);
    if overflow {
        proof {
            let k = choose|k: int| 0 <= k <= i - start && digits_value(#[trigger] d.take(k)) > u64::MAX;
            lemma_digits_prefix_le(d, k);
        }
        return None;
    }
    Some(acc)
}

/// The value of a digit prefix never exceeds the value of the whole run.
proof fn lemma_digits_prefix_le(d: Seq<char>, k: int)
    requires
        0 <= k <= d.len(),
        forall|i: int| 0 <= i < d.len() ==> is_digit(#[trigger] d[i]),
    ensures
        digits_value(d.take(k)) <= digits_value(d),
    decreases d.len() - k,
{
    if k < d.len() {
        lemma_digits_prefix_le(d, k + 1);
        assert(d.take(k + 1).drop_last() =~= d.take(k));
        assert(is_digit(d[k]));
    } else {
        assert(d.take(k) =~= d);
    }
}

/// `w` occurs in `s` as a run of consecutive characters.
pub open spec fn contains_text(s: Seq<char>, w: Seq<char>) -> bool {
    exists|i: int| 0 <= i && i + w.len() <= s.len() && #[trigger] s.subrange(i, i + w.len()) == w
}

/// A text contains itself.
pub proof fn lemma_contains_refl(w: Seq<char>)
    ensures
        contains_text(w, w),
{
    let i: int = 0;
    assert(w.subrange(i, i + w.len()) =~= w);
}

/// Containment is transitive.
pub proof fn lemma_contains_trans(a: Seq<char>, b: Seq<char>, w: Seq<char>)
    requires
        contains_text(a, b),
        contains_text(b, w),
    ensures
        contains_text(a, w),
{
    let i = choose|i: int| 0 <= i && i + b.len() <= a.len() && #[trigger] a.subrange(i, i + b.len()) == b;
    let j = choose|j: int| 0 <= j && j + w.len() <= b.len() && #[trigger] b.subrange(j, j + w.len()) == w;
    assert(a.subrange(i + j, i + j + w.len()) =~= b.subrange(j, j + w.len()));
}

/// What the right part contains, the whole contains.
pub proof fn lemma_contains_right(a: Seq<char>, b: Seq<char>, w: Seq<char>)
    requires
        contains_text(b, w),
    ensures
        contains_text(a + b, w),
{
    let j = choose|j: int| 0 <= j && j + w.len() <= b.len() && #[trigger] b.subrange(j, j + w.len()) == w;
    assert((a + b).subrange(a.len() + j, a.len() + j + w.len()) =~= b.subrange(j, j + w.len()));
}

/// What the left part contains, the whole contains.
pub proof fn lemma_contains_left(a: Seq<char>, b: Seq<char>, w: Seq<char>)
    requires
        contains_text(a, w),
    ensures
        contains_text(a + b, w),
{
    let j = choose|j: int| 0 <= j && j + w.len() <= a.len() && #[trigger] a.subrange(j, j + w.len()) == w;
    assert((a + b).subrange(j, j + w.len()) =~= a.subrange(j, j + w.len()));
}

/// Concatenated pieces contain each piece.
pub proof fn lemma_concat_has(parts: Seq<Seq<char>>, k: int)
    requires
        0 <= k < parts.len(),
    ensures
        contains_text(concat(parts), parts[k]),
    decreases parts.len(),
{
    lemma_contains_refl(parts[k]);
    if k == parts.len() - 1 {
        lemma_contains_right(concat(parts.drop_last()), parts.last(), parts[k]);
    } else {
        lemma_concat_has(parts.drop_last(), k);
        assert(parts.drop_last()[k] == parts[k]);
        lemma_contains_left(concat(parts.drop_last()), parts.last(), parts[k]);
    }
}

/// Joined pieces contain each piece.
pub proof fn lemma_join_has(parts: Seq<Seq<char>>, sep: Seq<char>, k: int)
    requires
        0 <= k < parts.len(),
    ensures
        contains_text(join(parts, sep), parts[k]),
    decreases parts.len(),
{
    lemma_contains_refl(parts[k]);
    if parts.len() > 1 {
        let d = parts.drop_last();
        if k == parts.len() - 1 {
            lemma_contains_right(join(d, sep) + sep, parts.last(), parts[k]);
        } else {
            lemma_join_has(d, sep, k);
            assert(d[k] == parts[k]);
            lemma_contains_left(join(d, sep), sep, parts[k]);
            lemma_contains_left(join(d, sep) + sep, parts.last(), parts[k]);
        }
    }
}

} // verus!
