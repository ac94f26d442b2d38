//! A plain model of JSON values, and JSON text building.
//!
//! Manifest logic works on this model: the caller parses file text into
//! it and serializes it back, the library reads and edits it.  Numbers
//! keep their source text, so a manifest edit preserves every field it
//! does not touch.  The text builders here render strings and
//! string-to-string maps; the lockfile writer builds on them.

use vstd::prelude::*;
use crate::util::string_push_char;

verus! {

/// A JSON value; a number carries its source text.
pub enum Json {
    Null,
    Bool(bool),
    Num(String),
    Str(String),
    Arr(Vec<Json>),
    Obj(Vec<(String, Json)>),
}

/// The escape of one character inside a JSON string literal: quote,
/// backslash, newline, carriage return and tab are escaped, everything
/// else stands for itself.
pub open spec fn esc_char(c: char) -> Seq<char> {
    if c == '"' {
        seq!['\\', '"']
    } else if c == '\\' {
        seq!['\\', '\\']
    } else if c == '\n' {
        seq!['\\', 'n']
    } else if c == '\r' {
        seq!['\\', 'r']
    } else if c == '\t' {
        seq!['\\', 't']
    } else {
        seq![c]
    }
}

/// The escaped body of a JSON string literal.
pub open spec fn esc(s: Seq<char>) -> Seq<char>
    decreases s.len(),
{
    if s.len() == 0 {
        Seq::empty()
    } else {
        esc_char(s[0]) + esc(s.drop_first())
    }
}

/// A JSON string literal: quoted, escaped text.
pub open spec fn quoted(s: Seq<char>) -> Seq<char> {
    seq!['"'] + esc(s) + seq!['"']
}

/// Escaping distributes over concatenation.
pub proof fn lemma_esc_push(s: Seq<char>, c: char)
    ensures
        esc(s.push(c)) == esc(s) + esc_char(c),
    decreases s.len(),
{
    if s.len() == 0 {
        assert(s.push(c).drop_first() =~= Seq::<char>::empty());
        assert(s.push(c)[0] == c);
        assert(esc(s.push(c).drop_first()) =~= Seq::<char>::empty());
        assert(esc(s.push(c)) =~= esc_char(c) + Seq::<char>::empty());
        assert(esc(s.push(c)) =~= esc_char(c));
        assert(esc(s) + esc_char(c) =~= esc_char(c));
    } else {
        assert(s.push(c).drop_first() =~= s.drop_first().push(c));
        lemma_esc_push(s.drop_first(), c);
        assert(esc(s.push(c)) =~= esc(s) + esc_char(c));
    }
}

/// Appends the escaped body of `s` to `out`.
fn append_escaped(out: &mut String, s: &str)
    ensures
        final(out)@ == old(out)@ + esc(s@),
{
    let n = s.unicode_len();
    let mut i: usize = 0;
    proof {
        assert(s@.subrange(0, 0) =~= Seq::<char>::empty());
        assert(out@ + esc(s@.subrange(0, 0)) =~= out@);
    }
    while i < n
        invariant
            n == s@.len(),
            0 <= i <= n,
            out@ == old(out)@ + esc(s@.subrange(0, i as int)),
        decreases n - i,
    {
        let c = s.get_char(i);
        proof {
            assert(s@.subrange(0, i + 1 as int) =~= s@.subrange(0, i as int).push(s@[i as int]));
            lemma_esc_push(s@.subrange(0, i as int), s@[i as int]);
        }
        if c == '"' {
            string_push_char(out, '\\');
            string_push_char(out, '"');
        } else if c == '\\' {
            string_push_char(out, '\\');
            string_push_char(out, '\\');
        } else if c == '\n' {
            string_push_char(out, '\\');
            string_push_char(out, 'n');
        } else if c == '\r' {
            string_push_char(out, '\\');
            string_push_char(out, 'r');
        } else if c == '\t' {
            string_push_char(out, '\\');
            string_push_char(out, 't');
        } else {
            string_push_char(out, c);
        }
        proof {
            assert(out@ =~= old(out)@ + esc(s@.subrange(0, i + 1 as int)));
        }
        i = i + 1;
    }
    proof {
        assert(s@.subrange(0, n as int) =~= s@);
    }
}

/// Appends the JSON string literal for `s` to `out`.
pub fn append_quoted(out: &mut String, s: &str)
    ensures
        final(out)@ == old(out)@ + quoted(s@),
{
    string_push_char(out, '"');
    append_escaped(out, s);
    string_push_char(out, '"');
    proof {
        assert(out@ =~= old(out)@ + quoted(s@));
    }
}

/// The body of a JSON object whose values are strings: comma-separated
/// `"key": "value"` pairs, in list order.
pub open spec fn str_map_body(pairs: Seq<(String, String)>) -> Seq<char>
    decreases pairs.len(),
{
    if pairs.len() == 0 {
        Seq::empty()
    } else {
        let head = quoted(pairs[0].0@) + seq![':', ' '] + quoted(pairs[0].1@);
        if pairs.len() == 1 {
            head
        } else {
            head + seq![',', ' '] + str_map_body(pairs.drop_first())
        }
    }
}

/// The JSON object text for a string-to-string map, in list order.
pub open spec fn str_map_text(pairs: Seq<(String, String)>) -> Seq<char> {
    seq!['{'] + str_map_body(pairs) + seq!['}']
}

/// The body grows by one rendered pair.
proof fn lemma_str_map_body_push(pairs: Seq<(String, String)>, p: (String, String))
    ensures
        str_map_body(pairs.push(p)) == if pairs.len() == 0 {
            quoted(p.0@) + seq![':', ' '] + quoted(p.1@)
        } else {
            str_map_body(pairs) + seq![',', ' '] + (quoted(p.0@) + seq![':', ' '] + quoted(
                p.1@,
            ))
        },
    decreases pairs.len(),
{
    if pairs.len() == 0 {
        assert(pairs.push(p)[0] == p);
        assert(str_map_body(pairs.push(p)) =~= quoted(p.0@) + seq![':', ' '] + quoted(p.1@));
    } else {
        assert(pairs.push(p).drop_first() =~= pairs.drop_first().push(p));
        lemma_str_map_body_push(pairs.drop_first(), p);
        if pairs.len() == 1 {
            assert(pairs.drop_first().len() == 0);
            assert(str_map_body(pairs.push(p)) =~= str_map_body(pairs) + seq![',', ' '] + (
            quoted(p.0@) + seq![':', ' '] + quoted(p.1@)));
        } else {
            assert(str_map_body(pairs.push(p)) =~= str_map_body(pairs) + seq![',', ' '] + (
            quoted(p.0@) + seq![':', ' '] + quoted(p.1@)));
        }
    }
}

/// Appends the JSON object text for a string-to-string map to `out`.
pub fn append_str_map(out: &mut String, pairs: &Vec<(String, String)>)
    ensures
        final(out)@ == old(out)@ + str_map_text(pairs@),
{
    string_push_char(out, '{');
    let n = pairs.len();
    let mut i: usize = 0;
    proof {
        assert(pairs@.subrange(0, 0) =~= Seq::<(String, String)>::empty());
        assert(out@ =~= old(out)@ + seq!['{'] + str_map_body(pairs@.subrange(0, 0)));
    }
    while i < n
        invariant
            n == pairs@.len(),
            0 <= i <= n,
            out@ == old(out)@ + seq!['{'] + str_map_body(pairs@.subrange(0, i as int)),
        decreases n - i,
    {
        if i > 0 {
            string_push_char(out, ',');
            string_push_char(out, ' ');
        }
        append_quoted(out, pairs[i].0.as_str());
        string_push_char(out, ':');
        string_push_char(out, ' ');
        append_quoted(out, pairs[i].1.as_str());
        proof {
            assert(pairs@.subrange(0, i + 1 as int) =~= pairs@.subrange(0, i as int).push(
                pairs@[i as int],
            ));
            lemma_str_map_body_push(pairs@.subrange(0, i as int), pairs@[i as int]);
            assert(out@ =~= old(out)@ + seq!['{'] + str_map_body(pairs@.subrange(0, i + 1 as int)));
        }
        i = i + 1;
    }
    string_push_char(out, '}');
    proof {
        assert(pairs@.subrange(0, n as int) =~= pairs@);
        assert(out@ =~= old(out)@ + str_map_text(pairs@));
    }
}

} // verus!
