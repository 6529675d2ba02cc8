//! The format's laws, proved against the grammar of
//! [`crate::grammar`]: a canonical serializer and its round trip,
//! comment and whitespace transparency, literal escapes, the lossy
//! treatment of unterminated strings, and the fate of a key without
//! a value.

use vstd::prelude::*;

use crate::grammar::{
    is_vdf_whitespace, lex_str, parse_items, parse_pairs, parse_str, parse_val, skip_ws,
    skip_ws_from, spec_parse, LexResult, ParseError, StrResult, ValResult,
};
use crate::grammar::{lemma_parse_str_consumes, lemma_parse_val_consumes, lemma_skip_ws_len};
use crate::tree::{
    lemma_table_insert_absent, lemma_table_insert_wf, lemma_wf_children, table_insert, unique_keys,
    wf_children, wf_entries, wf_node, Node,
};

verus! {

/// A character as it appears inside a quoted string: quotes and
/// backslashes get a backslash before them, all else stands alone.
pub open spec fn escape_char(c: char) -> Seq<char> {
    if c == '"' || c == '\\' {
        seq!['\\', c]
    } else {
        seq![c]
    }
}

/// A string's contents in their escaped, on-the-wire form.
pub open spec fn escape_str(s: Seq<char>) -> Seq<char>
    decreases s.len(),
{
    if s.len() == 0 {
        Seq::empty()
    } else {
        escape_char(s[0]) + escape_str(s.drop_first())
    }
}

/// A quoted string: `"` around the escaped contents.
pub open spec fn quote_str(s: Seq<char>) -> Seq<char> {
    seq!['"'] + escape_str(s) + seq!['"']
}

/// The canonical text of a node: a quoted string for a scalar, a
/// braced entry list for a table.
pub open spec fn ser_node(n: Node) -> Seq<char>
    decreases n,
{
    match n {
        Node::Value(s) => quote_str(s),
        Node::Table(es) => seq!['{'] + ser_entries(es) + seq!['}'],
    }
}

/// The canonical text of an entry list: each key quoted, each value
/// serialized, in order, with no separators (none are needed).
pub open spec fn ser_entries(es: Seq<(Seq<char>, Node)>) -> Seq<char>
    decreases es,
{
    if es.len() == 0 {
        Seq::empty()
    } else {
        quote_str(es[0].0) + ser_node(es[0].1) + ser_entries(es.drop_first())
    }
}

/// Entries inserted one after the other, left to right: the table an
/// input's pair sequence denotes, duplicate keys resolved last-wins.
pub open spec fn fold_insert(acc: Seq<(Seq<char>, Node)>, es: Seq<(Seq<char>, Node)>) -> Seq<
    (Seq<char>, Node),
>
    decreases es.len(),
{
    if es.len() == 0 {
        acc
    } else {
        fold_insert(table_insert(acc, es[0].0, es[0].1), es.drop_first())
    }
}

/// A flat list of `key -> value` string pairs as table entries.
pub open spec fn scalar_entries(pairs: Seq<(Seq<char>, Seq<char>)>) -> Seq<(Seq<char>, Node)>
    decreases pairs.len(),
{
    if pairs.len() == 0 {
        Seq::empty()
    } else {
        seq![(pairs[0].0, Node::Value(pairs[0].1))] + scalar_entries(pairs.drop_first())
    }
}

/// A backslash before any character yields that character literally:
/// lexing `\x` goes on exactly as if `x` had been read verbatim.
pub proof fn lemma_escape_literal(x: char, s: Seq<char>, acc: Seq<char>, lossy: bool)
    ensures
        lex_str(seq!['\\', x] + s, acc, false, lossy) == lex_str(s, acc.push(x), false, lossy),
{
    let t = seq!['\\', x] + s;
    assert(t[0] == '\\');
    assert(t.drop_first() =~= seq![x] + s);
    assert((seq![x] + s)[0] == x);
    assert((seq![x] + s).drop_first() =~= s);
    assert(lex_str(t, acc, false, lossy) == lex_str(seq![x] + s, acc, true, lossy));
    assert(lex_str(seq![x] + s, acc, true, lossy) == lex_str(s, acc.push(x), false, lossy));
}

/// Lexing an escaped string body up to its closing quote yields the
/// original contents and leaves exactly the text after the quote.
pub proof fn lemma_lex_quoted(content: Seq<char>, rest: Seq<char>, acc: Seq<char>, lossy: bool)
    ensures
        lex_str(escape_str(content) + seq!['"'] + rest, acc, false, lossy) == LexResult::Done(
            acc + content,
            rest,
        ),
    decreases content.len(),
{
    let s = escape_str(content) + seq!['"'] + rest;
    if content.len() == 0 {
        assert(s =~= seq!['"'] + rest);
        assert(s[0] == '"');
        assert(s.drop_first() =~= rest);
        assert(acc + content =~= acc);
    } else {
        let c = content[0];
        let tail = content.drop_first();
        lemma_lex_quoted(tail, rest, acc.push(c), lossy);
        assert(acc.push(c) + tail =~= acc + content);
        if c == '"' || c == '\\' {
            assert(s =~= seq!['\\', c] + (escape_str(tail) + seq!['"'] + rest));
            lemma_escape_literal(c, escape_str(tail) + seq!['"'] + rest, acc, lossy);
        } else {
            assert(s =~= seq![c] + (escape_str(tail) + seq!['"'] + rest));
            assert(s[0] == c);
            assert(s.drop_first() =~= escape_str(tail) + seq!['"'] + rest);
        }
    }
}

/// A quoted string at the cursor is found, contents unescaped, with
/// exactly the following text left unread.
pub proof fn lemma_parse_str_quoted(k: Seq<char>, rest: Seq<char>, lossy: bool)
    ensures
        parse_str(quote_str(k) + rest, lossy) == StrResult::Found(k, rest),
{
    let s = quote_str(k) + rest;
    assert(s[0] == '"');
    assert(skip_ws(s) == s);
    assert(s.drop_first() =~= escape_str(k) + seq!['"'] + rest);
    lemma_lex_quoted(k, rest, Seq::empty(), lossy);
    assert(Seq::<char>::empty() + k =~= k);
}

/// In lossy mode lexing never fails; when non-lossy lexing succeeds
/// the two modes agree; and when non-lossy lexing fails with an
/// unclosed string, lossy lexing returns the partial contents with
/// the whole input consumed.
pub proof fn lemma_unterminated_string(s: Seq<char>, acc: Seq<char>, escaped: bool)
    ensures
        !(lex_str(s, acc, escaped, true) is Unclosed),
        lex_str(s, acc, escaped, false) is Done ==> lex_str(s, acc, escaped, true) == lex_str(
            s,
            acc,
            escaped,
            false,
        ),
        lex_str(s, acc, escaped, false) is Unclosed ==> (match lex_str(s, acc, escaped, true) {
            LexResult::Done(_, rest) => rest.len() == 0,
            LexResult::Unclosed => false,
        }),
    decreases s.len(),
{
    if s.len() == 0 {
    } else if escaped {
        lemma_unterminated_string(s.drop_first(), acc.push(s[0]), false);
    } else if s[0] == '"' {
    } else if s[0] == '\\' {
        lemma_unterminated_string(s.drop_first(), acc, true);
    } else {
        lemma_unterminated_string(s.drop_first(), acc.push(s[0]), false);
    }
}

/// Leading whitespace is transparent to the skipper.
pub proof fn lemma_ws_prepend(c: char, s: Seq<char>)
    requires
        is_vdf_whitespace(c),
    ensures
        skip_ws(seq![c] + s) == skip_ws(s),
{
    assert((seq![c] + s)[0] == c);
    assert((seq![c] + s).drop_first() =~= s);
}

/// A `//` comment is transparent to the skipper: with its body free
/// of line breaks and the text after it starting at a line break (or
/// at end of input), skipping leaves exactly what it would have left
/// had the comment not been there. Since all parsing routines read
/// tokens through the skipper, a comment can change no parse.
pub proof fn lemma_comment_transparent(body: Seq<char>, rest: Seq<char>)
    requires
        forall|i: int| 0 <= i < body.len() ==> body[i] != '\n' && body[i] != '\r',
        rest.len() == 0 || rest[0] == '\n' || rest[0] == '\r',
    ensures
        skip_ws(seq!['/', '/'] + body + rest) == skip_ws(rest),
{
    let s = seq!['/', '/'] + body + rest;
    assert(s[0] == '/' && s[1] == '/');
    assert(!is_vdf_whitespace('/'));
    assert(s.skip(2) =~= body + rest);
    lemma_comment_body(body, rest);
}

/// Comment bodies are consumed without effect, up to the line break.
proof fn lemma_comment_body(body: Seq<char>, rest: Seq<char>)
    requires
        forall|i: int| 0 <= i < body.len() ==> body[i] != '\n' && body[i] != '\r',
        rest.len() == 0 || rest[0] == '\n' || rest[0] == '\r',
    ensures
        skip_ws_from(body + rest, true) == skip_ws(rest),
    decreases body.len(),
{
    if body.len() == 0 {
        assert(body + rest =~= rest);
        if rest.len() == 0 {
        } else {
            assert(is_vdf_whitespace(rest[0]));
        }
    } else {
        let s = body + rest;
        assert(s[0] == body[0]);
        assert(s.drop_first() =~= body.drop_first() + rest);
        assert forall|i: int|
            0 <= i < body.drop_first().len() implies body.drop_first()[i] != '\n'
            && body.drop_first()[i] != '\r' by {
            assert(body.drop_first()[i] == body[i + 1]);
        }
        lemma_comment_body(body.drop_first(), rest);
    }
}

/// A key with nothing after it is an error, in either mode: the
/// value is missing.
pub proof fn lemma_key_without_value(k: Seq<char>, lossy: bool)
    ensures
        spec_parse(quote_str(k), lossy) == Err::<Node, ParseError>(ParseError::MissingValue),
{
    lemma_parse_str_quoted(k, Seq::empty(), lossy);
    assert(quote_str(k) + Seq::<char>::empty() =~= quote_str(k));
    assert(skip_ws(Seq::<char>::empty()) == Seq::<char>::empty());
}

/// A serialized value at the cursor parses back to exactly that
/// value, leaving exactly the following text unread.
pub proof fn lemma_parse_val_ser(v: Node, rest: Seq<char>, lossy: bool)
    requires
        wf_node(v),
    ensures
        parse_val(ser_node(v) + rest, lossy) == ValResult::Found(v, rest),
    decreases v,
{
    let s = ser_node(v) + rest;
    match v {
        Node::Value(c) => {
            assert(s =~= quote_str(c) + rest);
            assert(s[0] == '"');
            assert(skip_ws(s) == s);
            assert(s.drop_first() =~= escape_str(c) + seq!['"'] + rest);
            lemma_lex_quoted(c, rest, Seq::empty(), lossy);
            assert(Seq::<char>::empty() + c =~= c);
        },
        Node::Table(es) => {
            assert(s =~= seq!['{'] + (ser_entries(es) + seq!['}'] + rest));
            assert(s[0] == '{');
            assert(skip_ws(s) == s);
            assert(s.drop_first() =~= ser_entries(es) + seq!['}'] + rest);
            lemma_parse_items_ser(es, Seq::empty(), rest, lossy);
            lemma_wf_children(es);
            lemma_fold_insert_disjoint(Seq::empty(), es);
            assert(Seq::<(Seq<char>, Node)>::empty() + es =~= es);
        },
    }
}

/// Reading serialized entries up to a closing brace inserts exactly
/// those entries, in order, into the table under construction.
pub proof fn lemma_parse_items_ser(
    es: Seq<(Seq<char>, Node)>,
    acc: Seq<(Seq<char>, Node)>,
    rest: Seq<char>,
    lossy: bool,
)
    requires
        wf_children(es),
    ensures
        parse_items(ser_entries(es) + seq!['}'] + rest, acc, lossy) == ValResult::Found(
            Node::Table(fold_insert(acc, es)),
            rest,
        ),
    decreases es,
{
    let s = ser_entries(es) + seq!['}'] + rest;
    if es.len() == 0 {
        assert(s =~= seq!['}'] + rest);
        assert(s[0] == '}');
        assert(skip_ws(s) == s);
        assert(s.drop_first() =~= rest);
    } else {
        let k = es[0].0;
        let v = es[0].1;
        let tail = es.drop_first();
        let after_val = ser_entries(tail) + seq!['}'] + rest;
        let after_key = ser_node(v) + after_val;
        assert(s =~= quote_str(k) + after_key);
        assert(s[0] == '"');
        assert(skip_ws(s) == s);
        assert(s.drop_first() =~= escape_str(k) + seq!['"'] + after_key);
        lemma_lex_quoted(k, after_key, Seq::empty(), lossy);
        assert(Seq::<char>::empty() + k =~= k);
        lemma_parse_val_ser(v, after_val, lossy);
        lemma_parse_items_ser(tail, table_insert(acc, k, v), rest, lossy);
        assert((es[0].0, es[0].1) == es[0]);
    }
}

/// Parsing the serialized text of an entry list folds exactly those
/// entries into the root table.
pub proof fn lemma_parse_pairs_ser(
    es: Seq<(Seq<char>, Node)>,
    acc: Seq<(Seq<char>, Node)>,
    lossy: bool,
)
    requires
        wf_children(es),
    ensures
        parse_pairs(ser_entries(es), acc, lossy) == Ok::<Seq<(Seq<char>, Node)>, ParseError>(
            fold_insert(acc, es),
        ),
    decreases es,
{
    let s = ser_entries(es);
    if es.len() == 0 {
        assert(skip_ws(s) == s);
    } else {
        let k = es[0].0;
        let v = es[0].1;
        let tail = es.drop_first();
        let after_key = ser_node(v) + ser_entries(tail);
        assert(s =~= quote_str(k) + after_key);
        lemma_parse_str_quoted(k, after_key, lossy);
        lemma_parse_val_ser(v, ser_entries(tail), lossy);
        lemma_parse_pairs_ser(tail, table_insert(acc, k, v), lossy);
        assert((es[0].0, es[0].1) == es[0]);
    }
}

/// Folding entries whose keys are fresh and mutually distinct just
/// appends them.
pub proof fn lemma_fold_insert_disjoint(acc: Seq<(Seq<char>, Node)>, es: Seq<(Seq<char>, Node)>)
    requires
        forall|i: int, j: int|
            #![trigger acc[i].0, es[j].0]
            0 <= i < acc.len() && 0 <= j < es.len() ==> acc[i].0 != es[j].0,
        unique_keys(es),
    ensures
        fold_insert(acc, es) == acc + es,
    decreases es.len(),
{
    if es.len() == 0 {
        assert(acc + es =~= acc);
    } else {
        let k = es[0].0;
        let v = es[0].1;
        let tail = es.drop_first();
        assert(forall|i: int| 0 <= i < acc.len() ==> acc[i].0 != k);
        lemma_table_insert_absent(acc, k, v);
        assert((es[0].0, es[0].1) == es[0]);
        let acc2 = acc.push(es[0]);
        assert forall|i: int, j: int|
            #![trigger acc2[i].0, tail[j].0]
            0 <= i < acc2.len() && 0 <= j < tail.len() implies acc2[i].0 != tail[j].0 by {
            assert(tail[j] == es[j + 1]);
            if i < acc.len() {
                assert(acc2[i] == acc[i]);
            } else {
                assert(acc2[i] == es[0]);
            }
        }
        assert(unique_keys(tail)) by {
            assert forall|i: int, j: int| 0 <= i < j < tail.len() implies tail[i].0 != tail[j].0 by {
                assert(tail[i] == es[i + 1]);
                assert(tail[j] == es[j + 1]);
            }
        }
        lemma_fold_insert_disjoint(acc2, tail);
        assert(acc2 + tail =~= acc + es);
    }
}

/// The round trip: the canonical text of any well-formed table
/// parses back, in either mode, to exactly that table.
pub proof fn lemma_round_trip(es: Seq<(Seq<char>, Node)>, lossy: bool)
    requires
        wf_entries(es),
    ensures
        spec_parse(ser_entries(es), lossy) == Ok::<Node, ParseError>(Node::Table(es)),
{
    lemma_parse_pairs_ser(es, Seq::empty(), lossy);
    lemma_fold_insert_disjoint(Seq::empty(), es);
    assert(Seq::<(Seq<char>, Node)>::empty() + es =~= es);
}

/// A flat sequence of `"key" "value"` pairs parses to the table of
/// exactly those pairs, inserted left to right (last occurrence of a
/// duplicate key wins).
pub proof fn lemma_parse_flat_pairs(pairs: Seq<(Seq<char>, Seq<char>)>, lossy: bool)
    ensures
        spec_parse(ser_entries(scalar_entries(pairs)), lossy) == Ok::<Node, ParseError>(
            Node::Table(fold_insert(Seq::empty(), scalar_entries(pairs))),
        ),
{
    lemma_scalar_entries_wf(pairs);
    lemma_parse_pairs_ser(scalar_entries(pairs), Seq::empty(), lossy);
}

/// Flat scalar entries are well-formed children.
proof fn lemma_scalar_entries_wf(pairs: Seq<(Seq<char>, Seq<char>)>)
    ensures
        wf_children(scalar_entries(pairs)),
    decreases pairs.len(),
{
    if pairs.len() > 0 {
        lemma_scalar_entries_wf(pairs.drop_first());
        assert(scalar_entries(pairs).drop_first() =~= scalar_entries(pairs.drop_first()));
        assert(scalar_entries(pairs)[0] == (pairs[0].0, Node::Value(pairs[0].1)));
        assert(wf_node(Node::Value(pairs[0].1)));
    }
}

/// Every tree a parse returns is well-formed: each of its tables, at
/// every depth, has unique keys. With the round trip above, the
/// output of a parse re-serializes and re-parses to itself.
pub proof fn lemma_parse_wf(s: Seq<char>, lossy: bool)
    ensures
        (match spec_parse(s, lossy) {
            Ok(n) => wf_node(n),
            Err(_) => true,
        }),
{
    lemma_parse_pairs_wf(s, Seq::empty(), lossy);
}

/// The driver only ever builds well-formed root tables.
pub proof fn lemma_parse_pairs_wf(s: Seq<char>, acc: Seq<(Seq<char>, Node)>, lossy: bool)
    requires
        wf_entries(acc),
    ensures
        (match parse_pairs(s, acc, lossy) {
            Ok(es) => wf_entries(es),
            Err(_) => true,
        }),
    decreases s.len(),
{
    lemma_parse_str_consumes(s, lossy);
    match parse_str(s, lossy) {
        StrResult::Found(key, rest) => {
            lemma_parse_val_consumes(rest, lossy);
            lemma_parse_val_wf(rest, lossy);
            match parse_val(rest, lossy) {
                ValResult::Found(v, rest2) => {
                    if rest2.len() < s.len() {
                        lemma_table_insert_wf(acc, key, v);
                        lemma_parse_pairs_wf(rest2, table_insert(acc, key, v), lossy);
                    }
                },
                _ => {},
            }
        },
        _ => {},
    }
}

/// Every value the value parser returns is well-formed.
pub proof fn lemma_parse_val_wf(s: Seq<char>, lossy: bool)
    ensures
        (match parse_val(s, lossy) {
            ValResult::Found(v, _) => wf_node(v),
            _ => true,
        }),
    decreases s.len(), 1int,
{
    lemma_skip_ws_len(s, false);
    let t = skip_ws(s);
    if t.len() > 0 && t[0] == '{' {
        lemma_parse_items_wf(t.drop_first(), Seq::empty(), lossy);
    }
}

/// Every table the entry reader returns is well-formed, given a
/// well-formed table under construction.
pub proof fn lemma_parse_items_wf(s: Seq<char>, acc: Seq<(Seq<char>, Node)>, lossy: bool)
    requires
        wf_entries(acc),
    ensures
        (match parse_items(s, acc, lossy) {
            ValResult::Found(v, _) => wf_node(v),
            _ => true,
        }),
    decreases s.len(), 0int,
{
    lemma_skip_ws_len(s, false);
    let t = skip_ws(s);
    if t.len() > 0 && t[0] != '}' && t[0] == '"' {
        match lex_str(t.drop_first(), Seq::empty(), false, lossy) {
            LexResult::Unclosed => {},
            LexResult::Done(key, rest) => {
                if rest.len() < s.len() {
                    lemma_parse_val_consumes(rest, lossy);
                    lemma_parse_val_wf(rest, lossy);
                    match parse_val(rest, lossy) {
                        ValResult::Found(v, rest2) => {
                            if rest2.len() < s.len() {
                                lemma_table_insert_wf(acc, key, v);
                                lemma_parse_items_wf(rest2, table_insert(acc, key, v), lossy);
                            }
                        },
                        _ => {},
                    }
                }
            },
        }
    }
}

} // verus!
