//! Painting a help text: code and titles in colour.

use vstd::prelude::*;

verus! {

/// The pattern of a piece of code: what stands between two backquotes.
pub const CODE_PATTERN: &'static str = "`([^`]+)`";

/// The pattern of a title: a line that starts with a hash.
pub const TITLE_PATTERN: &'static str = "(?m)^# *(.*?)$";

/// The place of the escape character in a help text.
pub const ESCAPE_MARK: &'static str = "{escape}";

/// What stands for the first group of a match in a replacement.
pub const FIRST_GROUP: &'static str = "$1";

/// `text` with each occurrence of `from` replaced by `to`, found from the left to the right and
/// without overlaps.
pub open spec fn replaced(text: Seq<char>, from: Seq<char>, to: Seq<char>) -> Seq<char>
    decreases text.len(),
{
    if from.len() == 0 || text.len() < from.len() {
        text
    } else if text.take(from.len() as int) == from {
        to + replaced(text.skip(from.len() as int), from, to)
    } else {
        seq![text[0]] + replaced(text.skip(1), from, to)
    }
}

/// What `Regex::replace_all` makes of `text` for the regex that `Regex::new` makes of `pattern`,
/// or nothing if `pattern` is no regex.
pub uninterp spec fn regex_replaced(
    pattern: Seq<char>,
    text: Seq<char>,
    replacement: Seq<char>,
) -> Option<Seq<char>>;

/// Whether `styled` is `text` in the colour with the given code, or plain `text` as it is written
/// where colours are not supported or not wanted.
pub open spec fn is_styled(styled: Seq<char>, text: Seq<char>, colour: Seq<char>) -> bool {
    styled == text || styled == colour + text + "\x1b[0m"@
}

/// What becomes of a help text, given what stands for code and for titles.
pub open spec fn painted(
    help: Seq<char>,
    escape: Seq<char>,
    code: Seq<char>,
    title: Seq<char>,
) -> Option<Seq<char>> {
    match regex_replaced(CODE_PATTERN@, replaced(help, ESCAPE_MARK@, escape), code) {
        Some(text) => regex_replaced(TITLE_PATTERN@, text, title),
        None => None,
    }
}

/// An error of `regex`.
#[verifier::external_type_specification]
#[verifier::external_body]
pub struct ExRegexError(regex::Error);

/// Calls `str::replace`. What is believed: the call replaces all occurrences of `from`, which must
/// not be empty, and nothing else.
#[verifier::external_body]
fn replace_str(text: &str, from: &str, to: &str) -> (result: String)
    requires
        from@.len() > 0,
    ensures
        result@ == replaced(text@, from@, to@),
{
    text.replace(from, to)
}

/// Calls `Regex::replace_all` on the regex that `Regex::new` makes of `pattern`. What is believed:
/// the outcome depends on nothing but the three texts.
#[verifier::external_body]
fn replace_matches(pattern: &str, text: &str, replacement: &str) -> (result: Result<
    String,
    regex::Error,
>)
    ensures
        match result {
            Ok(s) => regex_replaced(pattern@, text@, replacement@) == Some(s@),
            Err(_) => regex_replaced(pattern@, text@, replacement@) is None,
        },
{
    regex::Regex::new(pattern).map(|regex| regex.replace_all(text, replacement).into_owned())
}

/// Writes what `console::style` and `StyledObject::green` make of `text`. What is believed: it is
/// the text in green, or the plain text. Which of the two rests on the terminal and the
/// environment and is left open.
#[verifier::external_body]
fn green(text: &str) -> (styled: String)
    ensures
        is_styled(styled@, text@, "\x1b[32m"@),
{
    console::style(text).green().to_string()
}

/// Writes what `console::style` and `StyledObject::yellow` make of `text`. What is believed: it is
/// the text in yellow, or the plain text. Which of the two rests on the terminal and the
/// environment and is left open.
#[verifier::external_body]
fn yellow(text: &str) -> (styled: String)
    ensures
        is_styled(styled@, text@, "\x1b[33m"@),
{
    console::style(text).yellow().to_string()
}

/// Puts the escape character in its place and replaces code and titles. The replacements may refer
/// to the code and the title without their marks by `$1`. There is no result if the pattern of
/// code or of titles is not taken for a regex.
pub fn paint_with(help: &str, escape: &str, code: &str, title: &str) -> (result: Option<String>)
    ensures
        match result {
            Some(s) => painted(help@, escape@, code@, title@) == Some(s@),
            None => painted(help@, escape@, code@, title@) is None,
        },
{
    proof {
        reveal_strlit("{escape}");
    }
    let help = replace_str(help, ESCAPE_MARK, escape);
    match replace_matches(CODE_PATTERN, help.as_str(), code) {
        Ok(text) => match replace_matches(TITLE_PATTERN, text.as_str(), title) {
            Ok(text) => Some(text),
            Err(_) => None,
        },
        Err(_) => None,
    }
}

/// Paints a help text: the escape character is put in its place, code becomes green and titles
/// become yellow, where colours are supported and wanted, and both lose their marks.
pub fn paint_help(help: &str, escape: &str) -> (result: Option<String>)
    ensures
        exists|code: Seq<char>, title: Seq<char>|
            {
                &&& is_styled(code, FIRST_GROUP@, "\x1b[32m"@)
                &&& is_styled(title, FIRST_GROUP@, "\x1b[33m"@)
                &&& match result {
                    Some(s) => #[trigger] painted(help@, escape@, code, title) == Some(s@),
                    None => painted(help@, escape@, code, title) is None,
                }
            },
{
    let code = green(FIRST_GROUP);
    let title = yellow(FIRST_GROUP);
    let result = paint_with(help, escape, code.as_str(), title.as_str());
    assert(is_styled(code@, FIRST_GROUP@, "\x1b[32m"@));
    result
}

/// Whether `part` occurs in a text at position `k`.
pub open spec fn occurs_at(text: Seq<char>, part: Seq<char>, k: int) -> bool {
    0 <= k <= text.len() - part.len() && text.subrange(k, k + part.len()) == part
}

/// Where `from` first occurs behind `before`, it is replaced, and the text goes on behind it.
pub proof fn first_occurrence_is_replaced(
    before: Seq<char>,
    from: Seq<char>,
    after: Seq<char>,
    to: Seq<char>,
)
    requires
        from.len() > 0,
        forall|k: int|
            0 <= k < before.len() ==> !#[trigger] occurs_at(before + from + after, from, k),
    ensures
        replaced(before + from + after, from, to) == before + to + replaced(after, from, to),
    decreases before.len(),
{
    let text = before + from + after;
    let n = from.len() as int;
    if before.len() == 0 {
        assert(text.take(n) =~= from);
        assert(text.skip(n) =~= after);
        assert(replaced(text, from, to) =~= before + to + replaced(after, from, to));
    } else {
        let rest = before.drop_first();
        let short = rest + from + after;
        assert(text.skip(1) =~= short);
        assert(text.take(n) =~= text.subrange(0, n));
        assert(!occurs_at(text, from, 0));
        assert forall|k: int| 0 <= k < rest.len() implies !#[trigger] occurs_at(short, from, k) by {
            assert(short.subrange(k, k + n) =~= text.subrange(k + 1, k + 1 + n));
            assert(!occurs_at(text, from, k + 1));
        }
        first_occurrence_is_replaced(rest, from, after, to);
        assert(replaced(text, from, to) =~= before + to + replaced(after, from, to));
    }
}

/// A text in which `from` does not occur stays as it is.
pub proof fn other_texts_stay(text: Seq<char>, from: Seq<char>, to: Seq<char>)
    requires
        forall|k: int| !#[trigger] occurs_at(text, from, k),
    ensures
        replaced(text, from, to) == text,
    decreases text.len(),
{
    let n = from.len() as int;
    if n > 0 && text.len() >= n {
        assert(text.take(n) =~= text.subrange(0, n));
        assert(!occurs_at(text, from, 0));
        let rest = text.skip(1);
        assert forall|k: int| !#[trigger] occurs_at(rest, from, k) by {
            if 0 <= k <= rest.len() - n {
                assert(rest.subrange(k, k + n) =~= text.subrange(k + 1, k + 1 + n));
                assert(!occurs_at(text, from, k + 1));
            }
        }
        other_texts_stay(rest, from, to);
        assert(replaced(text, from, to) =~= text);
    }
}

/// A painted help text has the escape character in its place. Then what stands between backquotes
/// is replaced, and then the lines that start with a hash.
pub proof fn help_is_painted_in_steps(
    help: Seq<char>,
    escape: Seq<char>,
    code: Seq<char>,
    title: Seq<char>,
)
    ensures
        ({
            let escaped = replaced(help, "{escape}"@, escape);
            let coded = regex_replaced("`([^`]+)`"@, escaped, code);
            &&& coded is None ==> painted(help, escape, code, title) is None
            &&& coded is Some ==> painted(help, escape, code, title) == regex_replaced(
                "(?m)^# *(.*?)$"@,
                coded->0,
                title,
            )
        }),
{
}

/// A styled text is the text itself, or it starts with the code of the colour, goes on with the
/// text, and ends with the code that resets the colour.
pub proof fn styled_text_holds_the_text(styled: Seq<char>, text: Seq<char>, colour: Seq<char>)
    ensures
        is_styled(styled, text, colour) <==> styled == text || {
            &&& styled.len() == colour.len() + text.len() + 4
            &&& styled.take(colour.len() as int) == colour
            &&& styled.subrange(colour.len() as int, (colour.len() + text.len()) as int) == text
            &&& styled.skip((colour.len() + text.len()) as int) == seq!['\x1b', '[', '0', 'm']
        },
{
    reveal_strlit("\x1b[0m");
    let reset = "\x1b[0m"@;
    assert(reset =~= seq!['\x1b', '[', '0', 'm']);
    let a = colour.len() as int;
    let b = (colour.len() + text.len()) as int;
    let whole = colour + text + reset;
    assert(whole.take(a) =~= colour);
    assert(whole.subrange(a, b) =~= text);
    assert(whole.skip(b) =~= reset);
    if styled.len() == b + 4 && styled.take(a) == colour && styled.subrange(a, b) == text
        && styled.skip(b) == reset {
        assert(styled =~= styled.take(a) + styled.subrange(a, b) + styled.skip(b));
    }
}

/// What is painted of code and titles is what stands between their marks.
pub proof fn marks_are_left_out()
    ensures
        FIRST_GROUP@ == "$1"@,
{
}

} // verus!
