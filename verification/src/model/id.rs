//! Typed identifiers for concepts and tasks, and their textual form.
use vstd::prelude::*;

use crate::text::{chars_of, decimal, digits_value, is_digit, parse_u64, parse_u64_spec, push_all,
    string_from, strip_plus, u64_decimal, all_digits, digit_char};

verus! {

/// Identifier of a concept.
#[derive(Debug, Clone, Copy, PartialEq, Eq, Hash, Structural)]
pub struct ConceptId(pub u64);

/// Identifier of a task.
#[derive(Debug, Clone, Copy, PartialEq, Eq, Hash, Structural)]
pub struct TaskId(pub u64);

/// The text of an identifier: its one-letter prefix followed by the decimal number.
pub open spec fn id_text(prefix: char, n: u64) -> Seq<char> {
    seq![prefix] + decimal(n as nat)
}

/// What parsing accepts: a `u64` literal, optionally after the prefix letter.
pub open spec fn parse_id_spec(prefix: char, s: Seq<char>) -> Option<u64> {
    if s.len() > 0 && s[0] == prefix {
        parse_u64_spec(s.drop_first())
    } else {
        parse_u64_spec(s)
    }
}

/// Renders `prefix` followed by the decimal form of `n`.
fn id_to_string(prefix: char, n: u64) -> (s: String)
    ensures
        s@ == id_text(prefix, n),
{
    let mut v: Vec<char> = Vec::new();
    v.push(prefix);
    let d = u64_decimal(n);
    push_all(&mut v, d.as_slice());
    assert(v@ =~= id_text(prefix, n));
    string_from(v.as_slice())
}

/// Appends the text of a concept identifier.
pub fn push_concept_id(v: &mut Vec<char>, id: ConceptId)
    ensures
        final(v)@ == old(v)@ + id_text('c', id.0),
{
    v.push('c');
    let d = u64_decimal(id.0);
    push_all(v, d.as_slice());
    assert(final(v)@ =~= old(v)@ + id_text('c', id.0));
}

/// Appends the text of a task identifier.
pub fn push_task_id(v: &mut Vec<char>, id: TaskId)
    ensures
        final(v)@ == old(v)@ + id_text('t', id.0),
{
    v.push('t');
    let d = u64_decimal(id.0);
    push_all(v, d.as_slice());
    assert(final(v)@ =~= old(v)@ + id_text('t', id.0));
}

/// Parses a `u64` literal, optionally after `prefix`.
fn parse_prefixed(prefix: char, s: &str) -> (r: Option<u64>)
    ensures
        r == parse_id_spec(prefix, s@),
{
    let v = chars_of(s);
    if v.len() > 0 && v[0] == prefix {
        assert(v@.skip(1) =~= v@.drop_first());
        parse_u64(v.as_slice(), 1)
    } else {
        assert(v@.skip(0) =~= v@);
        parse_u64(v.as_slice(), 0)
    }
}

/// Errors from parsing an identifier.
#[derive(Debug, Clone, PartialEq, Eq)]
pub enum IdParseError {
    /// The text is neither `c<number>` nor a bare number.
    InvalidConceptId(String),
    /// The text is neither `t<number>` nor a bare number.
    InvalidTaskId(String),
}

impl IdParseError {
    /// The human-readable message of the error.
    pub fn message(&self) -> (s: String)
        ensures
            s@ == match self {
                IdParseError::InvalidConceptId(t) =>
                    "invalid concept ID format: expected 'c<number>', got '"@ + t@ + "'"@,
                IdParseError::InvalidTaskId(t) =>
                    "invalid task ID format: expected 't<number>', got '"@ + t@ + "'"@,
            },
    {
        let mut v: Vec<char> = Vec::new();
        match self {
            IdParseError::InvalidConceptId(t) => {
                crate::text::push_str(&mut v, "invalid concept ID format: expected 'c<number>', got '");
                crate::text::push_str(&mut v, t.as_str());
            },
            IdParseError::InvalidTaskId(t) => {
                crate::text::push_str(&mut v, "invalid task ID format: expected 't<number>', got '");
                crate::text::push_str(&mut v, t.as_str());
            },
        }
        crate::text::push_str(&mut v, "'");
        string_from(v.as_slice())
    }
}

impl ConceptId {
    /// The display form `c<number>`.
    pub fn to_string(&self) -> (s: String)
        ensures
            s@ == id_text('c', self.0),
    {
        id_to_string('c', self.0)
    }

    /// Parses the display form `c<number>`.
    pub fn parse_str(s: &str) -> (r: Result<ConceptId, IdParseError>)
        ensures
            match parse_id_spec('c', s@) {
                Some(n) => r == Ok::<ConceptId, IdParseError>(ConceptId(n)),
                None => r matches Err(IdParseError::InvalidConceptId(t)) && t@ == s@,
            },
    {
        match parse_prefixed('c', s) {
            Some(n) => Ok(ConceptId(n)),
            None => Err(IdParseError::InvalidConceptId(s.to_string())),
        }
    }
}

impl TaskId {
    /// The display form `t<number>`.
    pub fn to_string(&self) -> (s: String)
        ensures
            s@ == id_text('t', self.0),
    {
        id_to_string('t', self.0)
    }

    /// Parses the display form `t<number>`.
    pub fn parse_str(s: &str) -> (r: Result<TaskId, IdParseError>)
        ensures
            match parse_id_spec('t', s@) {
                Some(n) => r == Ok::<TaskId, IdParseError>(TaskId(n)),
                None => r matches Err(IdParseError::InvalidTaskId(t)) && t@ == s@,
            },
    {
        match parse_prefixed('t', s) {
            Some(n) => Ok(TaskId(n)),
            None => Err(IdParseError::InvalidTaskId(s.to_string())),
        }
    }
}

impl std::str::FromStr for ConceptId {
    type Err = IdParseError;

    fn from_str(s: &str) -> (r: Result<ConceptId, IdParseError>)
        ensures
            match parse_id_spec('c', s@) {
                Some(n) => r == Ok::<ConceptId, IdParseError>(ConceptId(n)),
                None => r matches Err(IdParseError::InvalidConceptId(t)) && t@ == s@,
            },
    {
        ConceptId::parse_str(s)
    }
}

impl std::str::FromStr for TaskId {
    type Err = IdParseError;

    fn from_str(s: &str) -> (r: Result<TaskId, IdParseError>)
        ensures
            match parse_id_spec('t', s@) {
                Some(n) => r == Ok::<TaskId, IdParseError>(TaskId(n)),
                None => r matches Err(IdParseError::InvalidTaskId(t)) && t@ == s@,
            },
    {
        TaskId::parse_str(s)
    }
}

/// The decimal form of `n` is all digits, carries no sign and denotes `n`.
pub proof fn lemma_decimal_digits(n: nat)
    ensures
        decimal(n).len() > 0,
        all_digits(decimal(n)),
        digits_value(decimal(n)) == n,
        decimal(n)[0] != '+',
    decreases n,
{
    if n >= 10 {
        lemma_decimal_digits(n / 10);
        let d = decimal(n);
        assert(d.drop_last() =~= decimal(n / 10));
        assert forall|i: int| 0 <= i < d.len() implies is_digit(#[trigger] d[i]) by {
            if i < d.len() - 1 {
                assert(d[i] == decimal(n / 10)[i]);
            }
        }
        assert((d.last() as nat) == ('0' as nat) + n % 10);
        assert(n == (n / 10) * 10 + n % 10) by (nonlinear_arith);
        assert(digits_value(d) == digits_value(d.drop_last()) * 10 + (n % 10));
    } else {
        let d = decimal(n);
        assert(d.drop_last() =~= Seq::<char>::empty());
        assert((d.last() as nat) == ('0' as nat) + n);
        assert(digits_value(d.drop_last()) == 0);
        assert(digits_value(d) == digits_value(d.drop_last()) * 10 + n);
    }
}

/// Parsing the display form of a concept identifier gives back that identifier.
pub proof fn lemma_concept_id_roundtrip(id: ConceptId)
    ensures
        parse_id_spec('c', id_text('c', id.0)) == Some(id.0),
{
    lemma_decimal_digits(id.0 as nat);
    assert(id_text('c', id.0).drop_first() =~= decimal(id.0 as nat));
    assert(strip_plus(decimal(id.0 as nat)) == decimal(id.0 as nat));
}

/// Parsing the display form of a task identifier gives back that identifier.
pub proof fn lemma_task_id_roundtrip(id: TaskId)
    ensures
        parse_id_spec('t', id_text('t', id.0)) == Some(id.0),
{
    lemma_decimal_digits(id.0 as nat);
    assert(id_text('t', id.0).drop_first() =~= decimal(id.0 as nat));
    assert(strip_plus(decimal(id.0 as nat)) == decimal(id.0 as nat));
}

} // verus!
