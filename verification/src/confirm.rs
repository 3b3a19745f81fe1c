//! The answer to the question whether a file is to be renamed.

use crate::text::chars_of;
use vstd::prelude::*;
use vstd::string::*;

verus! {

/// The line without the terminator at its end: without a final line feed,
/// and without a carriage return that stands before that. Nothing else is
/// taken away.
pub open spec fn without_terminator(line: Seq<char>) -> Seq<char> {
    if line.len() > 0 && line.last() == '\n' {
        if line.len() > 1 && line[line.len() - 2] == '\r' {
            line.take(line.len() - 2)
        } else {
            line.take(line.len() - 1)
        }
    } else {
        line
    }
}

/// What a line that was read stands for: the line without its terminator,
/// and the empty text where no line could be read.
pub open spec fn spec_input(line: Option<Seq<char>>) -> Seq<char> {
    match line {
        Some(line) => without_terminator(line),
        None => Seq::empty(),
    }
}

/// Whether `upper`, a text in upper case, says yes.
pub open spec fn says_yes(upper: Seq<char>) -> bool {
    upper == seq!['Y'] || upper == seq!['Y', 'E', 'S']
}

/// The text that `str::to_uppercase` gives for `text`.
pub uninterp spec fn uppercase(text: Seq<char>) -> Seq<char>;

/// Whether `answer` confirms: it is not empty, and in upper case it is
/// exactly `Y` or `YES`.
pub open spec fn confirms(answer: Seq<char>) -> bool {
    answer.len() > 0 && says_yes(uppercase(answer))
}

/// No answer declines: a line that could not be read does not confirm, nor
/// does a line that holds nothing but its terminator.
pub proof fn lemma_no_answer_declines()
    ensures
        !confirms(spec_input(None)),
        !confirms(spec_input(Some(Seq::empty()))),
        !confirms(spec_input(Some(seq!['\n']))),
        !confirms(spec_input(Some(seq!['\r', '\n']))),
{
    assert(without_terminator(seq!['\n']).len() == 0);
    assert(without_terminator(seq!['\r', '\n']).len() == 0);
}

/// The answer that a line read from the user stands for. `None` is for a
/// line that could not be read, or for the end of the input.
pub fn input(line: Option<&str>) -> (answer: String)
    ensures
        answer@ == spec_input(
            match line {
                Some(line) => Some(line@),
                None => None,
            },
        ),
{
    match line {
        Some(line) => {
            let chars = chars_of(line);
            let n = chars.len();
            let end = if n > 0 && chars[n - 1] == '\n' {
                if n > 1 && chars[n - 2] == '\r' {
                    n - 2
                } else {
                    n - 1
                }
            } else {
                n
            };
            assert(line@.subrange(0, n as int) == line@);
            String::from_str(line.substring_char(0, end))
        },
        None => String::new(),
    }
}

/// `str::to_uppercase`: the upper-case equivalent of `text`, which depends
/// on the text alone.
#[verifier::external_body]
fn to_uppercase(text: &str) -> (upper: String)
    ensures
        upper@ == uppercase(text@),
{
    text.to_uppercase()
}

/// Tells whether `upper`, a text in upper case, says yes.
pub fn is_yes(upper: &str) -> (yes: bool)
    ensures
        yes == says_yes(upper@),
{
    let chars = chars_of(upper);
    if chars.len() == 1 {
        let yes = chars[0] == 'Y';
        assert(yes ==> chars@ == seq!['Y']);
        assert(says_yes(chars@) ==> chars@[0] == 'Y');
        yes
    } else if chars.len() == 3 {
        let yes = chars[0] == 'Y' && chars[1] == 'E' && chars[2] == 'S';
        assert(yes ==> chars@ == seq!['Y', 'E', 'S']);
        assert(says_yes(chars@) ==> chars@[0] == 'Y' && chars@[1] == 'E' && chars@[2] == 'S');
        yes
    } else {
        assert(seq!['Y'].len() == 1 && seq!['Y', 'E', 'S'].len() == 3);
        false
    }
}

/// Tells whether `answer` confirms the rename: whether it is exactly `Y` or
/// `YES` once put in upper case. Anything else declines, the empty answer
/// too. Nothing is taken away from the answer before.
pub fn confirm_rename(answer: &str) -> (confirmed: bool)
    ensures
        confirmed == confirms(answer@),
{
    if answer.unicode_len() == 0 {
        return false;
    }
    let upper = to_uppercase(answer);
    is_yes(upper.as_str())
}

} // verus!
