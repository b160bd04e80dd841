//! Boundary checks for user-supplied names.
use vstd::prelude::*;

use super::project::ProjectError;
use crate::cli::render::trim_end;
use crate::text::{chars_of, is_control, is_ctrl, is_whitespace, is_ws, push_range, string_from};

verus! {

/// `s` without leading whitespace.
pub open spec fn trim_start(s: Seq<char>) -> Seq<char>
    decreases s.len(),
{
    if s.len() > 0 && is_ws(s[0]) {
        trim_start(s.drop_first())
    } else {
        s
    }
}

/// `s` without leading and trailing whitespace, as `str::trim` gives it.
pub open spec fn trim(s: Seq<char>) -> Seq<char> {
    crate::cli::render::trim_end(trim_start(s))
}

/// Index of the first control character of `s`, or `-1`.
pub open spec fn first_ctrl(s: Seq<char>) -> int
    decreases s.len(),
{
    if s.len() == 0 {
        -1
    } else if first_ctrl(s.drop_last()) >= 0 {
        first_ctrl(s.drop_last())
    } else if is_ctrl(s.last()) {
        s.len() - 1
    } else {
        -1
    }
}

/// `v` without leading and trailing whitespace.
pub fn trim_chars(v: &[char]) -> (t: Vec<char>)
    ensures
        t@ == trim(v@),
{
    let mut a: usize = 0;
    assert(v@.skip(0) =~= v@);
    while a < v.len() && is_whitespace(v[a])
        invariant
            a <= v@.len(),
            trim_start(v@) == trim_start(v@.skip(a as int)),
        decreases v@.len() - a,
    {
        assert(v@.skip(a as int).drop_first() =~= v@.skip(a + 1));
        a += 1;
    }
    let mut b: usize = v.len();
    assert(v@.skip(a as int) =~= v@.subrange(a as int, b as int));
    while b > a && is_whitespace(v[b - 1])
        invariant
            a <= b <= v@.len(),
            trim(v@) == crate::cli::render::trim_end(v@.subrange(a as int, b as int)),
        decreases b,
    {
        assert(v@.subrange(a as int, b as int).drop_last() =~= v@.subrange(a as int, b - 1));
        b -= 1;
    }
    let mut t: Vec<char> = Vec::new();
    push_range(&mut t, v, a, b);
    assert(trim(v@) =~= t@);
    t
}

/// Check a concept or task name and return it trimmed. What remains must be
/// non-empty and free of control characters; the first control character is
/// reported.
pub fn validate_name(name: &str) -> (r: Result<String, ProjectError>)
    ensures
        trim(name@).len() == 0 ==> r matches Err(ProjectError::EmptyName),
        trim(name@).len() > 0 && first_ctrl(trim(name@)) >= 0 ==> (r matches Err(
            ProjectError::ControlCharInName(c),
        ) && c == trim(name@)[first_ctrl(trim(name@))]),
        trim(name@).len() > 0 && first_ctrl(trim(name@)) < 0 ==> (r matches Ok(s) && s@ == trim(name@)),
{
    let v = chars_of(name);
    let t = trim_chars(v.as_slice());
    if t.len() == 0 {
        return Err(ProjectError::EmptyName);
    }
    let mut i: usize = 0;
    while i < t.len()
        invariant
            i <= t@.len(),
            t@ == trim(name@),
            t@.len() > 0,
            first_ctrl(t@.take(i as int)) < 0,
        decreases t@.len() - i,
    {
        let ghost tk = t@.take(i + 1);
        assert(tk.drop_last() =~= t@.take(i as int));
        if is_control(t[i]) {
            proof {
                lemma_first_ctrl_prefix(t@, i + 1);
            }
            return Err(ProjectError::ControlCharInName(t[i]));
        }
        i += 1;
    }
    assert(t@.take(i as int) =~= t@);
    Ok(string_from(t.as_slice()))
}

/// A prefix holding a control character fixes the first one.
proof fn lemma_first_ctrl_prefix(s: Seq<char>, j: int)
    requires
        0 <= j <= s.len(),
        first_ctrl(s.take(j)) >= 0,
    ensures
        first_ctrl(s) == first_ctrl(s.take(j)),
    decreases s.len() - j,
{
    if j < s.len() {
        assert(s.take(j + 1).drop_last() =~= s.take(j));
        lemma_first_ctrl_prefix(s, j + 1);
    } else {
        assert(s.take(j) =~= s);
    }
}

/// Trimming the start leaves no whitespace at the front.
proof fn lemma_trim_start_clean(s: Seq<char>)
    ensures
        trim_start(s).len() > 0 ==> !is_ws(trim_start(s)[0]),
    decreases s.len(),
{
    if s.len() > 0 && is_ws(s[0]) {
        lemma_trim_start_clean(s.drop_first());
    }
}

/// Trimming the end keeps a prefix.
proof fn lemma_trim_end_prefix(s: Seq<char>)
    ensures
        trim_end(s).len() <= s.len(),
        trim_end(s) == s.take(trim_end(s).len() as int),
    decreases s.len(),
{
    if s.len() > 0 && is_ws(s.last()) {
        lemma_trim_end_prefix(s.drop_last());
        assert(s.drop_last().take(trim_end(s).len() as int) =~= s.take(trim_end(s).len() as int));
    } else {
        assert(s.take(s.len() as int) =~= s);
    }
}

/// Trimming is idempotent: a trimmed name trims to itself.
pub proof fn lemma_trim_idempotent(s: Seq<char>)
    ensures
        trim(trim(s)) == trim(s),
{
    let a = trim_start(s);
    let b = trim_end(a);
    lemma_trim_start_clean(s);
    lemma_trim_end_prefix(a);
    if b.len() > 0 {
        assert(b[0] == a[0]);
    }
    assert(trim_start(b) == b);
    crate::cli::render::lemma_trim_end_clean(a);
    assert(trim_end(b) == b);
}

/// Validating a name that passed validation gives that name back: the
/// accepted name is its own trimmed form, non-empty and free of control
/// characters.
pub proof fn lemma_validate_name_idempotent(name: Seq<char>)
    requires
        trim(name).len() > 0,
        first_ctrl(trim(name)) < 0,
    ensures
        trim(trim(name)) == trim(name),
        trim(trim(name)).len() > 0,
        first_ctrl(trim(trim(name))) < 0,
{
    lemma_trim_idempotent(name);
}

} // verus!
