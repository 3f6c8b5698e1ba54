//! Lexical primitives: runs of characters, fixed text and terminators.
//!
//! The recognisers of `nom` do the scanning. Each is called through one function of
//! this module, whose contract states over [`span`], `is_prefix_of`, `take` and `skip`
//! what the recogniser returns on a `&str`.
use nom::InputTakeAtPosition;
use vstd::prelude::*;
use vstd::string::StrSliceExecFns;

verus! {

/// The sets of characters that the scanners tell apart.
pub ghost enum CharClass {
    /// Space, tab, carriage return and line feed.
    Whitespace,
    /// The ASCII letters and digits.
    AlphaNumeric,
    /// The ASCII letters and digits, and the underscore.
    Identifier,
    /// Every character but those listed.
    NoneOf(Seq<char>),
}

/// An ASCII letter or digit.
pub open spec fn is_alphanumeric(c: char) -> bool {
    ('a' <= c && c <= 'z') || ('A' <= c && c <= 'Z') || ('0' <= c && c <= '9')
}

impl CharClass {
    /// Whether `c` belongs to the class.
    pub open spec fn has(self, c: char) -> bool {
        match self {
            CharClass::Whitespace => c == ' ' || c == '\t' || c == '\r' || c == '\n',
            CharClass::AlphaNumeric => is_alphanumeric(c),
            CharClass::Identifier => is_alphanumeric(c) || c == '_',
            CharClass::NoneOf(stops) => !stops.contains(c),
        }
    }
}

/// The length of the longest prefix of `s` whose characters all belong to `class`.
pub open spec fn span(s: Seq<char>, class: CharClass) -> nat
    decreases s.len(),
{
    if s.len() > 0 && class.has(s[0]) {
        1 + span(s.skip(1), class)
    } else {
        0
    }
}

/// `s` without its longest prefix in `class`.
pub open spec fn after_span(s: Seq<char>, class: CharClass) -> Seq<char> {
    s.skip(span(s, class) as int)
}

/// Whether `needle` occurs in `s` at position `at`.
pub open spec fn occurs_at(s: Seq<char>, needle: Seq<char>, at: int) -> bool {
    0 <= at <= s.len() && needle.is_prefix_of(s.skip(at))
}

/// [`span`] stays within `s`, covers members of the class only, and stops at the
/// first character outside it.
pub proof fn lemma_span(s: Seq<char>, class: CharClass)
    ensures
        span(s, class) <= s.len(),
        forall|i: int| 0 <= i < span(s, class) ==> class.has(#[trigger] s[i]),
        span(s, class) < s.len() ==> !class.has(s[span(s, class) as int]),
    decreases s.len(),
{
    if s.len() > 0 && class.has(s[0]) {
        let t = s.skip(1);
        lemma_span(t, class);
        assert forall|i: int| 0 <= i < span(s, class) implies class.has(#[trigger] s[i]) by {
            if i > 0 {
                assert(s[i] == t[i - 1]);
            }
        }
        if span(s, class) < s.len() {
            assert(s[span(s, class) as int] == t[span(t, class) as int]);
        }
    }
}

/// A prefix of members that ends at a non-member, or at the end, is the span.
pub proof fn lemma_span_is(s: Seq<char>, class: CharClass, n: int)
    requires
        0 <= n <= s.len(),
        forall|i: int| 0 <= i < n ==> class.has(#[trigger] s[i]),
        n < s.len() ==> !class.has(s[n]),
    ensures
        span(s, class) == n,
    decreases s.len(),
{
    if n > 0 {
        let t = s.skip(1);
        assert forall|i: int| 0 <= i < n - 1 implies class.has(#[trigger] t[i]) by {
            assert(t[i] == s[i + 1]);
        }
        if n - 1 < t.len() {
            assert(t[n - 1] == s[n]);
        }
        lemma_span_is(t, class, n - 1);
    }
}

/// Recognises zero or more spaces, tabs, carriage returns and line feeds.
///
/// Calls `nom::character::complete::multispace0`, which splits the input at the first
/// character that is none of the four, or at the end, and never fails.
#[verifier::external_body]
pub(crate) fn multispace0<'a>(input: &'a str) -> (r: Option<(&'a str, &'a str)>)
    ensures
        match r {
            Some((rest, run)) => run@ == input@.take(span(input@, CharClass::Whitespace) as int)
                && rest@ == after_span(input@, CharClass::Whitespace),
            None => false,
        },
{
    nom::character::complete::multispace0::<&str, ()>(input).ok()
}

/// Recognises one or more spaces, tabs, carriage returns and line feeds.
///
/// Calls `nom::character::complete::multispace1`, which splits like `multispace0`
/// and fails where the run is empty.
#[verifier::external_body]
pub(crate) fn multispace1<'a>(input: &'a str) -> (r: Option<(&'a str, &'a str)>)
    ensures
        match r {
            Some((rest, run)) => span(input@, CharClass::Whitespace) > 0 && run@ == input@.take(
                span(input@, CharClass::Whitespace) as int,
            ) && rest@ == after_span(input@, CharClass::Whitespace),
            None => span(input@, CharClass::Whitespace) == 0,
        },
{
    nom::character::complete::multispace1::<&str, ()>(input).ok()
}

/// Recognises one or more ASCII letters and digits.
///
/// Calls `nom::character::complete::alphanumeric1`, which splits the input at the
/// first character that is neither, or at the end, and fails where the run is empty.
#[verifier::external_body]
pub(crate) fn alphanumeric1<'a>(input: &'a str) -> (r: Option<(&'a str, &'a str)>)
    ensures
        match r {
            Some((rest, run)) => span(input@, CharClass::AlphaNumeric) > 0 && run@ == input@.take(
                span(input@, CharClass::AlphaNumeric) as int,
            ) && rest@ == after_span(input@, CharClass::AlphaNumeric),
            None => span(input@, CharClass::AlphaNumeric) == 0,
        },
{
    nom::character::complete::alphanumeric1::<&str, ()>(input).ok()
}

/// Recognises the text `pattern` at the start of the input.
///
/// Calls `nom::bytes::complete::tag`, which returns the matched text and what follows
/// it where the input starts with `pattern`, and fails elsewhere.
#[verifier::external_body]
pub(crate) fn tag<'a>(pattern: &str, input: &'a str) -> (r: Option<(&'a str, &'a str)>)
    ensures
        match r {
            Some((rest, matched)) => pattern@.is_prefix_of(input@) && matched@ == pattern@
                && rest@ == input@.skip(pattern@.len() as int),
            None => !pattern@.is_prefix_of(input@),
        },
{
    nom::bytes::complete::tag::<&str, &str, ()>(pattern)(input).ok()
}

/// Recognises the character `expected` at the start of the input.
///
/// Calls `nom::character::complete::char`, which returns the character and what
/// follows it where the input starts with `expected`, and fails elsewhere.
#[verifier::external_body]
pub(crate) fn char<'a>(expected: char, input: &'a str) -> (r: Option<(&'a str, char)>)
    ensures
        match r {
            Some((rest, found)) => input@.len() > 0 && input@[0] == expected && found == expected
                && rest@ == input@.skip(1),
            None => !(input@.len() > 0 && input@[0] == expected),
        },
{
    nom::character::complete::char::<&str, ()>(expected)(input).ok()
}

/// Returns the input up to the first occurrence of `pattern`, and the input from there.
///
/// Calls `nom::bytes::complete::take_until`, which splits the input where `pattern`
/// first occurs, without consuming it, and fails where it occurs nowhere.
#[verifier::external_body]
pub(crate) fn take_until<'a>(pattern: &str, input: &'a str) -> (r: Option<(&'a str, &'a str)>)
    ensures
        match r {
            Some((rest, before)) => before@ + rest@ == input@ && pattern@.is_prefix_of(rest@)
                && forall|at: int|
                0 <= at < before@.len() ==> !#[trigger] occurs_at(input@, pattern@, at),
            None => forall|at: int| !#[trigger] occurs_at(input@, pattern@, at),
        },
{
    nom::bytes::complete::take_until::<&str, &str, ()>(pattern)(input).ok()
}

/// Whether `c` is one of the characters of `set`.
pub fn find_token(set: &str, c: char) -> (found: bool)
    ensures
        found == set@.contains(c),
{
    let n = set.unicode_len();
    let mut i: usize = 0;
    while i < n
        invariant
            n == set@.len(),
            i <= n,
            forall|j: int| 0 <= j < i ==> set@[j] != c,
        decreases n - i,
    {
        if set.get_char(i) == c {
            return true;
        }
        i = i + 1;
    }
    false
}

/// Returns the input up to the first character that is one of `stops`, or all of it
/// where there is none, and the input from there. Never fails: the run may be empty.
///
/// Calls `nom::InputTakeAtPosition::split_at_position_complete` on the input, which
/// splits it at the first character for which the predicate holds, or at the end. The
/// predicate is [`find_token`].
#[verifier::external_body]
pub(crate) fn is_not_no_fail<'a>(stops: &str, input: &'a str) -> (r: Option<(&'a str, &'a str)>)
    ensures
        match r {
            Some((rest, run)) => run@ == input@.take(
                span(input@, CharClass::NoneOf(stops@)) as int,
            ) && rest@ == after_span(input@, CharClass::NoneOf(stops@)),
            None => false,
        },
{
    input.split_at_position_complete::<_, ()>(|c| find_token(stops, c)).ok()
}

/// One piece of an identifier: a run of ASCII letters and digits, or one underscore.
/// Gives what remains after it.
fn identifier_piece<'a>(input: &'a str) -> (r: Option<&'a str>)
    ensures
        match r {
            Some(rest) => exists|n: int|
                0 < n <= input@.len() && rest@ == input@.skip(n) && forall|i: int|
                    0 <= i < n ==> CharClass::Identifier.has(#[trigger] input@[i]),
            None => input@.len() == 0 || !CharClass::Identifier.has(input@[0]),
        },
{
    proof {
        lemma_span(input@, CharClass::AlphaNumeric);
        reveal_strlit("_");
    }
    match alphanumeric1(input) {
        Some((rest, _)) => Some(rest),
        None => match tag("_", input) {
            Some((rest, _)) => {
                assert(input@[0] == "_"@[0]);
                Some(rest)
            },
            None => {
                proof {
                    if input@.len() > 0 && input@[0] == '_' {
                        assert("_"@ =~= input@.take(1));
                    }
                }
                None
            },
        },
    }
}

/// One or more pieces of an identifier. Gives what remains after the last.
pub fn identifier_run<'a>(input: &'a str) -> (r: Option<&'a str>)
    ensures
        match r {
            Some(rest) => span(input@, CharClass::Identifier) > 0 && rest@ == after_span(
                input@,
                CharClass::Identifier,
            ),
            None => span(input@, CharClass::Identifier) == 0,
        },
{
    match identifier_piece(input) {
        None => None,
        Some(first) => {
            let mut rest = first;
            let ghost mut taken: int = choose|n: int|
                0 < n <= input@.len() && first@ == input@.skip(n) && forall|i: int|
                    0 <= i < n ==> CharClass::Identifier.has(#[trigger] input@[i]);
            loop
                invariant
                    0 < taken <= input@.len(),
                    rest@ == input@.skip(taken),
                    forall|i: int| 0 <= i < taken ==> CharClass::Identifier.has(#[trigger] input@[i]),
                decreases rest@.len(),
            {
                match identifier_piece(rest) {
                    None => {
                        proof {
                            if taken < input@.len() {
                                assert(rest@[0] == input@[taken]);
                            }
                            lemma_span_is(input@, CharClass::Identifier, taken);
                        }
                        return Some(rest);
                    },
                    Some(next) => {
                        proof {
                            let more = choose|n: int|
                                0 < n <= rest@.len() && next@ == rest@.skip(n) && forall|i: int|
                                    0 <= i < n ==> CharClass::Identifier.has(#[trigger] rest@[i]);
                            assert forall|i: int| 0 <= i < taken + more implies CharClass::Identifier.has(
                            #[trigger] input@[i]) by {
                                if i >= taken {
                                    assert(input@[i] == rest@[i - taken]);
                                }
                            }
                            assert(next@ =~= input@.skip(taken + more));
                            taken = taken + more;
                        }
                        rest = next;
                    },
                }
            }
        },
    }
}

/// Recognises an identifier and returns it as one slice of the input.
///
/// Calls `nom::combinator::recognize` on [`identifier_run`]: where the run succeeds,
/// `recognize` returns the part of the input that the run consumed, and what the run
/// left; where it fails, `recognize` fails. `recognize` finds the consumed part by
/// where the rest lies in the input: the rest that [`identifier_run`] gives is a
/// part of its input, cut off by the recognisers above.
#[verifier::external_body]
pub(crate) fn recognize_identifier_run<'a>(input: &'a str) -> (r: Option<(&'a str, &'a str)>)
    ensures
        match r {
            Some((rest, name)) => span(input@, CharClass::Identifier) > 0 && name@ == input@.take(
                span(input@, CharClass::Identifier) as int,
            ) && rest@ == after_span(input@, CharClass::Identifier),
            None => span(input@, CharClass::Identifier) == 0,
        },
{
    nom::combinator::recognize::<&str, _, (), _>(
        |i| identifier_run(i).map(|rest| (rest, ())).ok_or(nom::Err::Error(())),
    )(input).ok()
}

/// Whether `text` is exactly `word`.
pub fn exactly(word: &str, text: &str) -> (same: bool)
    ensures
        same == (text@ == word@),
{
    match tag(word, text) {
        Some((rest, _)) => {
            let same = rest.is_empty();
            proof {
                if same {
                    assert(text@ =~= word@);
                }
            }
            same
        },
        None => false,
    }
}

} // verus!
