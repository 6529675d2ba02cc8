//! The executable parser, proved against [`crate::grammar`].
//!
//! The input is decoded to a `Vec<char>` once; every routine takes the
//! vector and a cursor and states in its contract that it returns
//! exactly what the corresponding spec function returns on the unread
//! suffix `chars@.skip(pos)`.

use vstd::prelude::*;
use vstd::string::StrSliceExecFns;
use vstd::string::StringExecFns;

use crate::grammar::{
    error_message, is_vdf_whitespace, lex_str, parse_items, parse_pairs, parse_str, parse_val,
    skip_ws, skip_ws_from, spec_parse, ParseError, StrResult, ValResult,
};
use crate::grammar::{
    lemma_parse_str_consumes, lemma_parse_val_consumes, lemma_skip_ws_idempotent,
    lemma_skip_ws_len,
};
use crate::tree::{
    lemma_entries_view, lemma_table_insert_absent, lemma_table_insert_found, table_insert, Node,
    VdfValue,
};

verus! {

/// Relies on `String::push`: appends the given character to the end
/// of the string.
#[verifier::external_body]
fn push_char(s: &mut String, c: char)
    ensures
        final(s)@ == old(s)@.push(c),
{
    s.push(c);
}

/// Whether `c` counts as whitespace between tokens.
pub fn is_whitespace_char(c: char) -> (r: bool)
    ensures
        r == is_vdf_whitespace(c),
{
    c == '\u{0009}' || c == '\u{000A}' || c == '\u{000B}' || c == '\u{000C}' || c == '\u{000D}'
        || c == '\u{0020}' || c == '\u{0085}' || c == '\u{00A0}' || c == '\u{1680}'
        || c == '\u{2000}' || c == '\u{2001}' || c == '\u{2002}' || c == '\u{2003}'
        || c == '\u{2004}' || c == '\u{2005}' || c == '\u{2006}' || c == '\u{2007}'
        || c == '\u{2008}' || c == '\u{2009}' || c == '\u{200A}' || c == '\u{2028}'
        || c == '\u{2029}' || c == '\u{202F}' || c == '\u{205F}' || c == '\u{3000}'
}

/// Decodes the input to its character sequence.
fn str_to_chars(s: &str) -> (r: Vec<char>)
    ensures
        r@ == s@,
{
    let n: usize = s.unicode_len();
    let mut v: Vec<char> = Vec::new();
    let mut i: usize = 0;
    while i < n
        invariant
            i <= n,
            n == s@.len(),
            v@ == s@.take(i as int),
        decreases n - i,
    {
        let c = s.get_char(i);
        v.push(c);
        i = i + 1;
        proof {
            assert(v@ =~= s@.take(i as int));
        }
    }
    proof {
        assert(s@.take(n as int) =~= s@);
    }
    v
}

/// Advances the cursor past whitespace and `//` comments.
pub fn skip_whitespace(chars: &Vec<char>, pos: usize) -> (r: usize)
    requires
        pos <= chars@.len(),
    ensures
        pos <= r <= chars@.len(),
        chars@.skip(r as int) == skip_ws(chars@.skip(pos as int)),
{
    let n: usize = chars.len();
    let mut i: usize = pos;
    let mut in_comment = false;
    loop
        invariant
            pos <= i <= n,
            n == chars@.len(),
            skip_ws(chars@.skip(pos as int)) == skip_ws_from(chars@.skip(i as int), in_comment),
        ensures
            pos <= i <= n,
            chars@.skip(i as int) == skip_ws(chars@.skip(pos as int)),
        decreases n - i + (if in_comment {
            1int
        } else {
            0int
        }),
    {
        if in_comment {
            if i == n {
                proof {
                    assert(chars@.skip(i as int).len() == 0);
                }
                break ;
            }
            let c = chars[i];
            if c == '\n' || c == '\r' {
                in_comment = false;
            } else {
                proof {
                    assert(chars@.skip(i as int).drop_first() =~= chars@.skip(i + 1));
                }
                i = i + 1;
            }
        } else {
            if i == n {
                proof {
                    assert(chars@.skip(i as int).len() == 0);
                }
                break ;
            }
            let c = chars[i];
            if is_whitespace_char(c) {
                proof {
                    assert(chars@.skip(i as int).drop_first() =~= chars@.skip(i + 1));
                }
                i = i + 1;
            } else if c == '/' && i + 1 < n && chars[i + 1] == '/' {
                proof {
                    assert(chars@.skip(i as int).skip(2) =~= chars@.skip(i + 2));
                }
                i = i + 2;
                in_comment = true;
            } else {
                proof {
                    let s = chars@.skip(i as int);
                    assert(s[0] == chars@[i as int]);
                    if s.len() >= 2 {
                        assert(s[1] == chars@[i + 1]);
                    }
                    assert(skip_ws_from(s, false) == s);
                }
                break ;
            }
        }
    }
    i
}

/// Looks for a quoted string at the cursor, after skipping whitespace
/// and comments; returns the parsed contents (or `None` when no
/// string starts here) and the new cursor.
pub fn parse_string(chars: &Vec<char>, pos: usize, lossy: bool) -> (r: (
    Result<Option<String>, ParseError>,
    usize,
))
    requires
        pos <= chars@.len(),
    ensures
        pos <= r.1 <= chars@.len(),
        (match parse_str(chars@.skip(pos as int), lossy) {
            StrResult::Found(content, rest) => (r.0 matches Ok(Some(k)) && k@ == content
                && chars@.skip(r.1 as int) == rest),
            StrResult::Missing(t) => r.0 == Ok::<Option<String>, ParseError>(None) && chars@.skip(
                r.1 as int,
            ) == t,
            StrResult::Fail => r.0 == Err::<Option<String>, ParseError>(
                ParseError::UnclosedString,
            ),
        }),
{
    let n: usize = chars.len();
    let i0 = skip_whitespace(chars, pos);
    if i0 == n {
        return (Ok(None), i0);
    }
    if chars[i0] != '"' {
        proof {
            assert(chars@.skip(i0 as int)[0] == chars@[i0 as int]);
        }
        return (Ok(None), i0);
    }
    let ghost body0 = chars@.skip(i0 + 1);
    proof {
        assert(chars@.skip(i0 as int)[0] == chars@[i0 as int]);
        assert(chars@.skip(i0 as int).drop_first() =~= body0);
    }
    let mut i: usize = i0 + 1;
    let mut out = String::new();
    let mut escaped = false;
    loop
        invariant
            i0 + 1 <= i <= n,
            n == chars@.len(),
            pos <= i0 < n,
            chars@.skip(i0 as int) == skip_ws(chars@.skip(pos as int)),
            chars@[i0 as int] == '"',
            body0 == chars@.skip(i0 + 1),
            lex_str(body0, Seq::empty(), false, lossy) == lex_str(
                chars@.skip(i as int),
                out@,
                escaped,
                lossy,
            ),
        decreases n - i,
    {
        proof {
            let t = skip_ws(chars@.skip(pos as int));
            assert(t == chars@.skip(i0 as int));
            assert(t[0] == chars@[i0 as int]);
            assert(t.drop_first() =~= body0);
        }
        if i == n {
            proof {
                assert(chars@.skip(i as int).len() == 0);
            }
            if lossy {
                return (Ok(Some(out)), i);
            } else {
                return (Err(ParseError::UnclosedString), i);
            }
        }
        let c = chars[i];
        proof {
            assert(chars@.skip(i as int)[0] == chars@[i as int]);
            assert(chars@.skip(i as int).drop_first() =~= chars@.skip(i + 1));
        }
        if escaped {
            push_char(&mut out, c);
            escaped = false;
            i = i + 1;
        } else if c == '"' {
            return (Ok(Some(out)), i + 1);
        } else if c == '\\' {
            escaped = true;
            i = i + 1;
        } else {
            push_char(&mut out, c);
            i = i + 1;
        }
    }
}

/// Inserts `key -> val` into a table's entry list: the first entry
/// already carrying the key is overwritten in place; a new key is
/// appended.
pub fn insert_entry(entries: &mut Vec<(String, VdfValue)>, key: String, val: VdfValue)
    ensures
        VdfValue::entries_view(final(entries)@) == table_insert(
            VdfValue::entries_view(old(entries)@),
            key@,
            val@,
        ),
{
    let n: usize = entries.len();
    let mut idx: usize = 0;
    loop
        invariant
            idx <= n,
            n == entries@.len(),
            entries@ == old(entries)@,
            forall|m: int| 0 <= m < idx ==> (entries@[m].0)@ != key@,
        ensures
            idx <= n,
            entries@ == old(entries)@,
            forall|m: int| 0 <= m < idx ==> (entries@[m].0)@ != key@,
            idx < n ==> (entries@[idx as int].0)@ == key@,
        decreases n - idx,
    {
        if idx == n {
            break ;
        }
        if entries[idx].0 == key {
            break ;
        }
        idx = idx + 1;
    }
    let ghost ev_old = VdfValue::entries_view(old(entries)@);
    proof {
        lemma_entries_view(old(entries)@);
    }
    if idx < n {
        entries.remove(idx);
        entries.insert(idx, (key, val));
        proof {
            assert(entries@ =~= old(entries)@.update(idx as int, (key, val)));
            lemma_entries_view(entries@);
            lemma_table_insert_found(ev_old, key@, val@, idx as int);
            assert(VdfValue::entries_view(entries@) =~= ev_old.update(idx as int, (key@, val@)));
        }
    } else {
        entries.push((key, val));
        proof {
            lemma_entries_view(entries@);
            lemma_table_insert_absent(ev_old, key@, val@);
            assert(VdfValue::entries_view(entries@) =~= ev_old.push((key@, val@)));
        }
    }
}

/// Looks for a value at the cursor: `{` opens a table, `"` a scalar
/// string, anything else is `None`; returns the value and the new
/// cursor.
pub fn parse_value(chars: &Vec<char>, pos: usize, lossy: bool) -> (r: (
    Result<Option<VdfValue>, ParseError>,
    usize,
))
    requires
        pos <= chars@.len(),
    ensures
        pos <= r.1 <= chars@.len(),
        (match parse_val(chars@.skip(pos as int), lossy) {
            ValResult::Found(v, rest) => (r.0 matches Ok(Some(val)) && val@ == v && chars@.skip(
                r.1 as int,
            ) == rest),
            ValResult::Missing(t) => r.0 == Ok::<Option<VdfValue>, ParseError>(None) && chars@.skip(
                r.1 as int,
            ) == t,
            ValResult::Fail(e) => r.0 == Err::<Option<VdfValue>, ParseError>(e),
        }),
    decreases chars@.len() - pos,
{
    let n: usize = chars.len();
    let i = skip_whitespace(chars, pos);
    let ghost s0 = chars@.skip(pos as int);
    let ghost t0 = skip_ws(s0);
    proof {
        lemma_skip_ws_len(s0, false);
        lemma_skip_ws_idempotent(s0);
    }
    if i == n {
        proof {
            assert(t0.len() == 0);
        }
        return (Ok(None), i);
    }
    let c = chars[i];
    proof {
        assert(t0[0] == chars@[i as int]);
    }
    if c == '{' {
        let ghost items0 = chars@.skip(i + 1);
        proof {
            assert(t0.drop_first() =~= items0);
        }
        let mut j: usize = i + 1;
        let mut entries: Vec<(String, VdfValue)> = Vec::new();
        proof {
            assert(VdfValue::entries_view(Seq::empty()) =~= Seq::<(Seq<char>, Node)>::empty());
        }
        loop
            invariant
                i + 1 <= j <= n,
                n == chars@.len(),
                pos <= i < n,
                s0 == chars@.skip(pos as int),
                items0 == chars@.skip(i + 1),
                parse_val(s0, lossy) == parse_items(items0, Seq::empty(), lossy),
                parse_items(items0, Seq::empty(), lossy) == parse_items(
                    chars@.skip(j as int),
                    VdfValue::entries_view(entries@),
                    lossy,
                ),
            decreases n - j,
        {
            let ghost sj = chars@.skip(j as int);
            let ghost acc = VdfValue::entries_view(entries@);
            let k = skip_whitespace(chars, j);
            let ghost tj = skip_ws(sj);
            proof {
                lemma_skip_ws_len(sj, false);
                lemma_skip_ws_idempotent(sj);
            }
            if k == n {
                proof {
                    assert(tj.len() == 0);
                }
                return (Err(ParseError::UnexpectedToken), k);
            }
            let c2 = chars[k];
            proof {
                assert(tj[0] == chars@[k as int]);
            }
            if c2 == '}' {
                proof {
                    assert(tj.drop_first() =~= chars@.skip(k + 1));
                }
                return (Ok(Some(VdfValue::Table(entries))), k + 1);
            }
            if c2 != '"' {
                return (Err(ParseError::UnexpectedToken), k);
            }
            let (ks, k2) = parse_string(chars, k, lossy);
            proof {
                lemma_parse_str_consumes(chars@.skip(k as int), lossy);
            }
            match ks {
                Result::Err(e) => {
                    return (Err(e), k2);
                },
                Result::Ok(None) => {
                    proof {
                        assert(false);
                    }
                    return (Err(ParseError::UnexpectedToken), k2);
                },
                Result::Ok(Some(key)) => {
                    let (vr, k3) = parse_value(chars, k2, lossy);
                    proof {
                        lemma_parse_val_consumes(chars@.skip(k2 as int), lossy);
                    }
                    match vr {
                        Result::Ok(Some(val)) => {
                            insert_entry(&mut entries, key, val);
                            j = k3;
                        },
                        Result::Ok(None) => {
                            return (Err(ParseError::MissingValue), k3);
                        },
                        Result::Err(e) => {
                            return (Err(e), k3);
                        },
                    }
                },
            }
        }
    } else if c == '"' {
        let (rs, j) = parse_string(chars, i, lossy);
        proof {
            assert(chars@.skip(i as int) == t0);
        }
        match rs {
            Result::Ok(Some(sv)) => (Ok(Some(VdfValue::Value(sv))), j),
            Result::Ok(None) => {
                proof {
                    assert(false);
                }
                (Ok(None), j)
            },
            Result::Err(e) => (Err(e), j),
        }
    } else {
        (Ok(None), i)
    }
}

/// The message reported for each parse failure.
pub fn error_string(e: ParseError) -> (r: String)
    ensures
        r@ == error_message(e),
{
    match e {
        ParseError::UnclosedString => String::from_str("Unexpected end of input: unclosed string"),
        ParseError::MissingValue => String::from_str("Unexpected end of input: missing value"),
        ParseError::UnexpectedToken => String::from_str(
            "Unexpected token in table: expected key or '}'",
        ),
    }
}

/// Parses a whole input: reads `"key" value` pairs into the root
/// table until no further key is found, and returns the table, or
/// the first error's message. When `lossy` holds, a string left
/// unterminated at end of input yields its partial contents instead
/// of failing; nothing else is forgiven.
pub fn parse(input: &str, lossy: bool) -> (r: Result<VdfValue, String>)
    ensures
        (match spec_parse(input@, lossy) {
            Ok(node) => (r matches Ok(v) && v@ == node),
            Err(e) => (r matches Err(m) && m@ == error_message(e)),
        }),
{
    let chars = str_to_chars(input);
    let n: usize = chars.len();
    let mut entries: Vec<(String, VdfValue)> = Vec::new();
    let mut pos: usize = 0;
    proof {
        assert(chars@.skip(0) =~= input@);
        assert(VdfValue::entries_view(Seq::empty()) =~= Seq::<(Seq<char>, Node)>::empty());
    }
    loop
        invariant
            pos <= n,
            n == chars@.len(),
            chars@ == input@,
            parse_pairs(input@, Seq::empty(), lossy) == parse_pairs(
                chars@.skip(pos as int),
                VdfValue::entries_view(entries@),
                lossy,
            ),
        decreases n - pos,
    {
        let ghost sp = chars@.skip(pos as int);
        let ghost acc = VdfValue::entries_view(entries@);
        let (ks, p1) = parse_string(&chars, pos, lossy);
        proof {
            lemma_parse_str_consumes(sp, lossy);
        }
        match ks {
            Result::Ok(None) => {
                return Ok(VdfValue::Table(entries));
            },
            Result::Err(e) => {
                return Err(error_string(e));
            },
            Result::Ok(Some(key)) => {
                let (vr, p2) = parse_value(&chars, p1, lossy);
                proof {
                    lemma_parse_val_consumes(chars@.skip(p1 as int), lossy);
                }
                match vr {
                    Result::Ok(Some(val)) => {
                        insert_entry(&mut entries, key, val);
                        pos = p2;
                    },
                    Result::Ok(None) => {
                        return Err(error_string(ParseError::MissingValue));
                    },
                    Result::Err(e) => {
                        return Err(error_string(e));
                    },
                }
            },
        }
    }
}

} // verus!
