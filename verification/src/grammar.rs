//! The grammar, stated once as spec functions over `Seq<char>`.
//!
//! Each parsing function consumes a prefix of its input and returns the
//! unread suffix, so that results compose by concatenation. The
//! executable parser in [`crate::parser`] is proved to return exactly
//! these functions' results.

use vstd::prelude::*;

use crate::tree::{table_insert, Node};

verus! {

/// Why a parse failed.
#[derive(Debug, Clone, Copy, PartialEq, Eq, Structural)]
pub enum ParseError {
    /// A quoted string had no closing quote before end of input
    /// (reported only when lossy mode is off).
    UnclosedString,
    /// A key was read but no scalar or table value follows it.
    MissingValue,
    /// Inside a braced table, the next significant character starts
    /// neither a key nor the closing brace.
    UnexpectedToken,
}

/// Outcome of lexing a quoted string's body.
pub enum LexResult {
    /// The literal contents and the suffix after the closing quote.
    Done(Seq<char>, Seq<char>),
    /// End of input came before an unescaped closing quote.
    Unclosed,
}

/// Outcome of looking for a quoted string.
pub enum StrResult {
    /// The string's contents and the unread suffix.
    Found(Seq<char>, Seq<char>),
    /// No string starts here; the suffix after skipped whitespace.
    Missing(Seq<char>),
    /// A string started but was not closed (lossy mode off).
    Fail,
}

/// Outcome of looking for a value (scalar or table).
pub enum ValResult {
    /// The value and the unread suffix.
    Found(Node, Seq<char>),
    /// No value starts here; the suffix after skipped whitespace.
    Missing(Seq<char>),
    Fail(ParseError),
}

/// The characters that count as whitespace between tokens: the
/// Unicode characters with the White_Space property.
pub open spec fn is_vdf_whitespace(c: char) -> bool {
    c == '\u{0009}' || c == '\u{000A}' || c == '\u{000B}' || c == '\u{000C}' || c == '\u{000D}'
        || c == '\u{0020}' || c == '\u{0085}' || c == '\u{00A0}' || c == '\u{1680}'
        || c == '\u{2000}' || c == '\u{2001}' || c == '\u{2002}' || c == '\u{2003}'
        || c == '\u{2004}' || c == '\u{2005}' || c == '\u{2006}' || c == '\u{2007}'
        || c == '\u{2008}' || c == '\u{2009}' || c == '\u{200A}' || c == '\u{2028}'
        || c == '\u{2029}' || c == '\u{202F}' || c == '\u{205F}' || c == '\u{3000}'
}

/// The suffix left after skipping whitespace and `//` comments,
/// starting inside a comment when `in_comment` holds. A comment runs
/// to the next `'\n'` or `'\r'` (left in place, then consumed as
/// whitespace) or to end of input. A single `/` is not a comment and
/// stays unread.
pub open spec fn skip_ws_from(s: Seq<char>, in_comment: bool) -> Seq<char>
    decreases s.len(), (if in_comment {
        1int
    } else {
        0int
    }),
{
    if in_comment {
        if s.len() == 0 {
            s
        } else if s[0] == '\n' || s[0] == '\r' {
            skip_ws_from(s, false)
        } else {
            skip_ws_from(s.drop_first(), true)
        }
    } else {
        if s.len() == 0 {
            s
        } else if is_vdf_whitespace(s[0]) {
            skip_ws_from(s.drop_first(), false)
        } else if s.len() >= 2 && s[0] == '/' && s[1] == '/' {
            skip_ws_from(s.skip(2), true)
        } else {
            s
        }
    }
}

/// The suffix left after skipping whitespace and comments.
pub open spec fn skip_ws(s: Seq<char>) -> Seq<char> {
    skip_ws_from(s, false)
}

/// Lexes the body of a quoted string, `s` starting right after the
/// opening quote, `acc` holding what was read so far. A backslash is
/// dropped and the character after it is taken literally, whatever it
/// is; the first unescaped quote closes the string. At end of input,
/// lossy mode accepts the partial contents.
pub open spec fn lex_str(s: Seq<char>, acc: Seq<char>, escaped: bool, lossy: bool) -> LexResult
    decreases s.len(),
{
    if s.len() == 0 {
        if lossy {
            LexResult::Done(acc, s)
        } else {
            LexResult::Unclosed
        }
    } else if escaped {
        lex_str(s.drop_first(), acc.push(s[0]), false, lossy)
    } else if s[0] == '"' {
        LexResult::Done(acc, s.drop_first())
    } else if s[0] == '\\' {
        lex_str(s.drop_first(), acc, true, lossy)
    } else {
        lex_str(s.drop_first(), acc.push(s[0]), false, lossy)
    }
}

/// Looks for a quoted string after skipping whitespace and comments.
/// Anything other than `"` at the cursor is "no string here", left
/// for the caller to interpret.
pub open spec fn parse_str(s: Seq<char>, lossy: bool) -> StrResult {
    let t = skip_ws(s);
    if t.len() == 0 || t[0] != '"' {
        StrResult::Missing(t)
    } else {
        match lex_str(t.drop_first(), Seq::empty(), false, lossy) {
            LexResult::Done(content, rest) => StrResult::Found(content, rest),
            LexResult::Unclosed => StrResult::Fail,
        }
    }
}

/// Looks for a value after skipping whitespace and comments: `{` opens
/// a table, `"` a scalar string; anything else is "no value here".
///
/// The length tests guarding the recursive calls bound the unread
/// suffix so that the recursion visibly terminates; they always hold
/// (`lemma_parse_val_consumes`), so the branches they cut are dead.
pub open spec fn parse_val(s: Seq<char>, lossy: bool) -> ValResult
    decreases s.len(), 1int,
{
    let t = skip_ws(s);
    if t.len() == 0 {
        ValResult::Missing(t)
    } else if t[0] == '{' {
        if t.len() <= s.len() {
            parse_items(t.drop_first(), Seq::empty(), lossy)
        } else {
            ValResult::Fail(ParseError::MissingValue)
        }
    } else if t[0] == '"' {
        match lex_str(t.drop_first(), Seq::empty(), false, lossy) {
            LexResult::Done(content, rest) => ValResult::Found(Node::Value(content), rest),
            LexResult::Unclosed => ValResult::Fail(ParseError::UnclosedString),
        }
    } else {
        ValResult::Missing(t)
    }
}

/// Reads the entries of a braced table, the opening `{` already
/// consumed and `acc` holding the entries read so far: `}` closes the
/// table, otherwise a key string and its value are read and inserted
/// (last write wins). A missing value is an error here, as is any
/// token that starts neither a key nor the closing brace.
pub open spec fn parse_items(
    s: Seq<char>,
    acc: Seq<(Seq<char>, Node)>,
    lossy: bool,
) -> ValResult
    decreases s.len(), 0int,
{
    let t = skip_ws(s);
    if t.len() == 0 {
        ValResult::Fail(ParseError::UnexpectedToken)
    } else if t[0] == '}' {
        ValResult::Found(Node::Table(acc), t.drop_first())
    } else if t[0] != '"' {
        ValResult::Fail(ParseError::UnexpectedToken)
    } else {
        match lex_str(t.drop_first(), Seq::empty(), false, lossy) {
            LexResult::Unclosed => ValResult::Fail(ParseError::UnclosedString),
            LexResult::Done(key, rest) => {
                if rest.len() < s.len() {
                    match parse_val(rest, lossy) {
                        ValResult::Found(v, rest2) => {
                            if rest2.len() < s.len() {
                                parse_items(rest2, table_insert(acc, key, v), lossy)
                            } else {
                                ValResult::Fail(ParseError::MissingValue)
                            }
                        },
                        ValResult::Missing(_) => ValResult::Fail(ParseError::MissingValue),
                        ValResult::Fail(e) => ValResult::Fail(e),
                    }
                } else {
                    ValResult::Fail(ParseError::MissingValue)
                }
            },
        }
    }
}

/// The top-level driver: reads `"key" value` pairs into the root
/// table (`acc`) until no further key is found. Text after the last
/// recognized pair is ignored; a key without a value is an error.
pub open spec fn parse_pairs(s: Seq<char>, acc: Seq<(Seq<char>, Node)>, lossy: bool) -> Result<
    Seq<(Seq<char>, Node)>,
    ParseError,
>
    decreases s.len(),
{
    match parse_str(s, lossy) {
        StrResult::Missing(_) => Ok(acc),
        StrResult::Fail => Err(ParseError::UnclosedString),
        StrResult::Found(key, rest) => match parse_val(rest, lossy) {
            ValResult::Found(v, rest2) => {
                if rest2.len() < s.len() {
                    parse_pairs(rest2, table_insert(acc, key, v), lossy)
                } else {
                    Err(ParseError::MissingValue)
                }
            },
            ValResult::Missing(_) => Err(ParseError::MissingValue),
            ValResult::Fail(e) => Err(e),
        },
    }
}

/// What parsing a whole input means: the root table of its top-level
/// pairs, or the first error met.
pub open spec fn spec_parse(s: Seq<char>, lossy: bool) -> Result<Node, ParseError> {
    match parse_pairs(s, Seq::empty(), lossy) {
        Ok(es) => Ok(Node::Table(es)),
        Err(e) => Err(e),
    }
}

/// The message that reports each parse failure.
pub open spec fn error_message(e: ParseError) -> Seq<char> {
    match e {
        ParseError::UnclosedString => "Unexpected end of input: unclosed string"@,
        ParseError::MissingValue => "Unexpected end of input: missing value"@,
        ParseError::UnexpectedToken => "Unexpected token in table: expected key or '}'"@,
    }
}

/// Skipping never lengthens the input.
pub proof fn lemma_skip_ws_len(s: Seq<char>, in_comment: bool)
    ensures
        skip_ws_from(s, in_comment).len() <= s.len(),
    decreases s.len(), (if in_comment {
        1int
    } else {
        0int
    }),
{
    if in_comment {
        if s.len() == 0 {
        } else if s[0] == '\n' || s[0] == '\r' {
            lemma_skip_ws_len(s, false);
        } else {
            lemma_skip_ws_len(s.drop_first(), true);
        }
    } else {
        if s.len() == 0 {
        } else if is_vdf_whitespace(s[0]) {
            lemma_skip_ws_len(s.drop_first(), false);
        } else if s.len() >= 2 && s[0] == '/' && s[1] == '/' {
            lemma_skip_ws_len(s.skip(2), true);
        }
    }
}

/// Skipping twice is skipping once.
pub proof fn lemma_skip_ws_idempotent(s: Seq<char>)
    ensures
        skip_ws(skip_ws(s)) == skip_ws(s),
    decreases s.len(), 0int,
{
    if s.len() == 0 {
    } else if is_vdf_whitespace(s[0]) {
        lemma_skip_ws_idempotent(s.drop_first());
    } else if s.len() >= 2 && s[0] == '/' && s[1] == '/' {
        lemma_skip_comment_idempotent(s.skip(2));
    }
}

/// Helper for idempotence: what comment skipping leaves is stable.
proof fn lemma_skip_comment_idempotent(s: Seq<char>)
    ensures
        skip_ws(skip_ws_from(s, true)) == skip_ws_from(s, true),
    decreases s.len(), 1int,
{
    if s.len() == 0 {
    } else if s[0] == '\n' || s[0] == '\r' {
        lemma_skip_ws_idempotent(s);
    } else {
        lemma_skip_comment_idempotent(s.drop_first());
    }
}

/// A closed string lies within the input: the unread suffix is
/// shorter than what lexing started from, except in the lossy
/// end-of-input case, where it is empty.
pub proof fn lemma_lex_len(s: Seq<char>, acc: Seq<char>, escaped: bool, lossy: bool)
    ensures
        (match lex_str(s, acc, escaped, lossy) {
            LexResult::Done(_, rest) => rest.len() <= s.len(),
            LexResult::Unclosed => true,
        }),
    decreases s.len(),
{
    if s.len() == 0 {
    } else if escaped {
        lemma_lex_len(s.drop_first(), acc.push(s[0]), false, lossy);
    } else if s[0] == '"' {
    } else if s[0] == '\\' {
        lemma_lex_len(s.drop_first(), acc, true, lossy);
    } else {
        lemma_lex_len(s.drop_first(), acc.push(s[0]), false, lossy);
    }
}

/// A found string consumed at least its opening quote.
pub proof fn lemma_parse_str_consumes(s: Seq<char>, lossy: bool)
    ensures
        (match parse_str(s, lossy) {
            StrResult::Found(_, rest) => rest.len() < s.len(),
            StrResult::Missing(t) => t.len() <= s.len(),
            StrResult::Fail => true,
        }),
{
    lemma_skip_ws_len(s, false);
    let t = skip_ws(s);
    if t.len() > 0 && t[0] == '"' {
        lemma_lex_len(t.drop_first(), Seq::empty(), false, lossy);
    }
}

/// A found value consumed at least one character, so the guards in
/// `parse_items` and `parse_pairs` always hold.
pub proof fn lemma_parse_val_consumes(s: Seq<char>, lossy: bool)
    ensures
        (match parse_val(s, lossy) {
            ValResult::Found(_, rest) => rest.len() < s.len(),
            ValResult::Missing(t) => t.len() <= s.len(),
            ValResult::Fail(_) => true,
        }),
    decreases s.len(), 1int,
{
    lemma_skip_ws_len(s, false);
    let t = skip_ws(s);
    if t.len() > 0 && t[0] == '{' {
        lemma_parse_items_consumes(t.drop_first(), Seq::empty(), lossy);
    } else if t.len() > 0 && t[0] == '"' {
        lemma_lex_len(t.drop_first(), Seq::empty(), false, lossy);
    }
}

/// A completed table consumed at least its closing brace, and table
/// reading never reports "no value here".
pub proof fn lemma_parse_items_consumes(s: Seq<char>, acc: Seq<(Seq<char>, Node)>, lossy: bool)
    ensures
        (match parse_items(s, acc, lossy) {
            ValResult::Found(_, rest) => rest.len() < s.len(),
            ValResult::Missing(_) => false,
            ValResult::Fail(_) => true,
        }),
    decreases s.len(), 0int,
{
    lemma_skip_ws_len(s, false);
    let t = skip_ws(s);
    if t.len() > 0 && t[0] != '}' && t[0] == '"' {
        lemma_lex_len(t.drop_first(), Seq::empty(), false, lossy);
        match lex_str(t.drop_first(), Seq::empty(), false, lossy) {
            LexResult::Unclosed => {},
            LexResult::Done(key, rest) => {
                lemma_parse_val_consumes(rest, lossy);
                match parse_val(rest, lossy) {
                    ValResult::Found(v, rest2) => {
                        lemma_parse_items_consumes(rest2, table_insert(acc, key, v), lossy);
                    },
                    _ => {},
                }
            },
        }
    }
}

} // verus!
