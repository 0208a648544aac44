//! Character-level text utilities for the event log: a three-character escape
//! (backslash, newline, tab), splitting on a separator, and the bridges
//! between `String` and `Vec<char>`.
//!
//! Escaped text contains neither newline nor tab, so escaped fields can be
//! joined with tabs into a line and lines joined with newlines into a log,
//! and both joins can be undone by splitting.

use vstd::prelude::*;

verus! {

/// How one character is written inside an escaped field.
pub open spec fn escape_char(c: char) -> Seq<char> {
    if c == '\\' {
        seq!['\\', '\\']
    } else if c == '\n' {
        seq!['\\', 'n']
    } else if c == '\t' {
        seq!['\\', 't']
    } else {
        seq![c]
    }
}

/// The escaped writing of a string: each character in turn.
pub open spec fn escape(s: Seq<char>) -> Seq<char>
    decreases s.len(),
{
    if s.len() == 0 {
        Seq::empty()
    } else {
        escape_char(s[0]) + escape(s.drop_first())
    }
}

/// Undo [`escape`]: `None` when the text is not valid escaped output
/// (a trailing backslash or an unknown escape).
pub open spec fn unescape(s: Seq<char>) -> Option<Seq<char>>
    decreases s.len(),
{
    if s.len() == 0 {
        Some(Seq::empty())
    } else if s[0] == '\\' {
        if s.len() < 2 {
            None
        } else {
            let c = if s[1] == '\\' {
                Some('\\')
            } else if s[1] == 'n' {
                Some('\n')
            } else if s[1] == 't' {
                Some('\t')
            } else {
                None
            };
            match c {
                Option::None => None,
                Option::Some(c0) => match unescape(s.skip(2)) {
                    Option::None => None,
                    Option::Some(r) => Some(seq![c0] + r),
                },
            }
        }
    } else {
        match unescape(s.skip(1)) {
            Option::None => None,
            Option::Some(r) => Some(seq![s[0]] + r),
        }
    }
}

/// Escaping distributes over concatenation.
pub proof fn lemma_escape_append(a: Seq<char>, b: Seq<char>)
    ensures
        escape(a + b) == escape(a) + escape(b),
    decreases a.len(),
{
    if a.len() == 0 {
        assert(a + b =~= b);
        assert(escape(a) + escape(b) =~= escape(b));
    } else {
        assert((a + b).drop_first() =~= a.drop_first() + b);
        lemma_escape_append(a.drop_first(), b);
        assert(escape(a + b) =~= escape(a) + escape(b));
    }
}

/// Escaped text never contains a newline or a tab.
pub proof fn lemma_escape_plain(s: Seq<char>)
    ensures
        forall|i: int|
            0 <= i < escape(s).len() ==> (#[trigger] escape(s)[i]) != '\n' && escape(s)[i] != '\t',
    decreases s.len(),
{
    if s.len() > 0 {
        lemma_escape_plain(s.drop_first());
        let head = escape_char(s[0]);
        let tail = escape(s.drop_first());
        assert forall|i: int|
            0 <= i < escape(s).len() implies (#[trigger] escape(s)[i]) != '\n' && escape(s)[i]
            != '\t' by {
            if i < head.len() {
                assert(escape(s)[i] == head[i]);
            } else {
                assert(escape(s)[i] == tail[i - head.len()]);
            }
        };
    }
}

/// Unescaping undoes escaping.
pub proof fn lemma_escape_round_trip(s: Seq<char>)
    ensures
        unescape(escape(s)) == Some(s),
    decreases s.len(),
{
    if s.len() == 0 {
    } else {
        lemma_escape_round_trip(s.drop_first());
        let e = escape(s);
        let c = s[0];
        if c == '\\' || c == '\n' || c == '\t' {
            assert(e.skip(2) =~= escape(s.drop_first()));
            assert(seq![c] + s.drop_first() =~= s);
        } else {
            assert(e[0] == c);
            assert(e.skip(1) =~= escape(s.drop_first()));
            assert(seq![c] + s.drop_first() =~= s);
        }
    }
}

/// Split `s` at every occurrence of `sep`; the separators themselves are
/// dropped, and n separators always yield n+1 (possibly empty) pieces.
pub open spec fn split_on(s: Seq<char>, sep: char) -> Seq<Seq<char>>
    decreases s.len(),
{
    if s.len() == 0 {
        seq![Seq::empty()]
    } else if s[0] == sep {
        seq![Seq::<char>::empty()] + split_on(s.drop_first(), sep)
    } else {
        let rest = split_on(s.drop_first(), sep);
        seq![seq![s[0]] + rest[0]] + rest.drop_first()
    }
}

pub proof fn lemma_split_len(s: Seq<char>, sep: char)
    ensures
        split_on(s, sep).len() >= 1,
    decreases s.len(),
{
    if s.len() > 0 {
        lemma_split_len(s.drop_first(), sep);
    }
}

/// A string without the separator is a single piece.
pub proof fn lemma_split_whole(s: Seq<char>, sep: char)
    requires
        forall|i: int| 0 <= i < s.len() ==> s[i] != sep,
    ensures
        split_on(s, sep) == seq![s],
    decreases s.len(),
{
    if s.len() == 0 {
        assert(split_on(s, sep) =~~= seq![s]);
    } else {
        lemma_split_whole(s.drop_first(), sep);
        assert(seq![s[0]] + s.drop_first() =~= s);
        assert(split_on(s, sep) =~~= seq![s]);
    }
}

/// Splitting cuts exactly at an interposed separator.
pub proof fn lemma_split_append(a: Seq<char>, b: Seq<char>, sep: char)
    ensures
        split_on(a + seq![sep] + b, sep) == split_on(a, sep) + split_on(b, sep),
    decreases a.len(),
{
    lemma_split_len(b, sep);
    if a.len() == 0 {
        let s = a + seq![sep] + b;
        assert(s[0] == sep);
        assert(s.drop_first() =~= b);
        assert(split_on(s, sep) =~~= split_on(a, sep) + split_on(b, sep));
    } else {
        lemma_split_append(a.drop_first(), b, sep);
        lemma_split_len(a.drop_first(), sep);
        let s = a + seq![sep] + b;
        assert(s[0] == a[0]);
        assert(s.drop_first() =~= a.drop_first() + seq![sep] + b);
        if a[0] == sep {
            assert(split_on(s, sep) =~~= split_on(a, sep) + split_on(b, sep));
        } else {
            let rest = split_on(a.drop_first() + seq![sep] + b, sep);
            assert(rest == split_on(a.drop_first(), sep) + split_on(b, sep));
            assert(rest[0] == split_on(a.drop_first(), sep)[0]);
            assert(rest.drop_first() =~~= split_on(a.drop_first(), sep).drop_first() + split_on(
                b,
                sep,
            ));
            assert(split_on(s, sep) =~~= split_on(a, sep) + split_on(b, sep));
        }
    }
}

/// What remains to be produced by a split that has already emitted `done`
/// whole pieces and the beginning `cur` of the next piece.
pub open spec fn split_state(
    done: Seq<Seq<char>>,
    cur: Seq<char>,
    rest: Seq<char>,
    sep: char,
) -> Seq<Seq<char>> {
    done + seq![cur + split_on(rest, sep)[0]] + split_on(rest, sep).drop_first()
}

/// Split a character list at every occurrence of `sep`.
pub fn split_chars(s: &Vec<char>, sep: char) -> (r: Vec<Vec<char>>)
    ensures
        r.deep_view() == split_on(s@, sep),
{
    let mut out: Vec<Vec<char>> = Vec::new();
    let mut cur: Vec<char> = Vec::new();
    let mut i: usize = 0;
    proof {
        lemma_split_len(s@, sep);
        assert(s@.skip(0) =~= s@);
        assert(split_state(out.deep_view(), cur@, s@, sep) =~~= split_on(s@, sep));
    }
    while i < s.len()
        invariant
            i <= s@.len(),
            split_state(out.deep_view(), cur@, s@.skip(i as int), sep) == split_on(s@, sep),
        decreases s@.len() - i,
    {
        let ghost rest = s@.skip(i as int);
        proof {
            assert(rest[0] == s@[i as int]);
            assert(rest.drop_first() =~= s@.skip(i as int + 1));
            lemma_split_len(rest.drop_first(), sep);
        }
        let c = s[i];
        if c == sep {
            let ghost prev_done = out.deep_view();
            let ghost prev_cur = cur@;
            out.push(cur);
            cur = Vec::new();
            proof {
                assert(out.deep_view() =~~= prev_done.push(prev_cur));
            }
        } else {
            cur.push(c);
        }
        proof {
            assert(split_state(out.deep_view(), cur@, s@.skip(i as int + 1), sep) =~~= split_on(
                s@,
                sep,
            ));
        }
        i = i + 1;
    }
    proof {
        assert(s@.skip(s@.len() as int) =~= Seq::<char>::empty());
    }
    out.push(cur);
    proof {
        assert(out.deep_view() =~~= split_on(s@, sep));
    }
    out
}

/// Append the escaped writing of `src` to `out`.
pub fn push_escaped(src: &Vec<char>, out: &mut Vec<char>)
    ensures
        final(out)@ == old(out)@ + escape(src@),
{
    let mut i: usize = 0;
    proof {
        assert(src@.take(0) =~= Seq::<char>::empty());
        assert(out@ =~= old(out)@ + escape(src@.take(0)));
    }
    while i < src.len()
        invariant
            i <= src@.len(),
            out@ == old(out)@ + escape(src@.take(i as int)),
        decreases src@.len() - i,
    {
        let c = src[i];
        if c == '\\' {
            out.push('\\');
            out.push('\\');
        } else if c == '\n' {
            out.push('\\');
            out.push('n');
        } else if c == '\t' {
            out.push('\\');
            out.push('t');
        } else {
            out.push(c);
        }
        proof {
            lemma_escape_append(src@.take(i as int), seq![src@[i as int]]);
            assert(src@.take(i as int) + seq![src@[i as int]] =~= src@.take(i as int + 1));
            assert(seq![src@[i as int]].drop_first() =~= Seq::<char>::empty());
            assert(escape(seq![src@[i as int]]) =~= escape_char(src@[i as int]) + escape(
                Seq::<char>::empty(),
            ));
            assert(escape(seq![src@[i as int]]) =~= escape_char(src@[i as int]));
            assert(out@ =~= old(out)@ + escape(src@.take(i as int + 1)));
        }
        i = i + 1;
    }
    proof {
        assert(src@.take(src@.len() as int) =~= src@);
    }
}

/// Undo the escape on a whole character list.
pub fn unescape_chars(s: &Vec<char>) -> (r: Option<Vec<char>>)
    ensures
        match r {
            Option::Some(v) => unescape(s@) == Some(v@),
            Option::None => unescape(s@) is None,
        },
{
    let mut out: Vec<char> = Vec::new();
    let mut i: usize = 0;
    proof {
        assert(s@.skip(0) =~= s@);
    }
    while i < s.len()
        invariant
            i <= s@.len(),
            match unescape(s@.skip(i as int)) {
                Option::Some(r) => unescape(s@) == Some(out@ + r),
                Option::None => unescape(s@) is None,
            },
        decreases s@.len() - i,
    {
        let ghost rest = s@.skip(i as int);
        proof {
            assert(rest[0] == s@[i as int]);
            assert(rest.skip(1) =~= s@.skip(i as int + 1));
        }
        let c = s[i];
        if c == '\\' {
            if i + 1 == s.len() {
                return None;
            }
            proof {
                assert(rest.len() >= 2);
                assert(rest[1] == s@[i as int + 1]);
                assert(rest.skip(2) =~= s@.skip(i as int + 2));
            }
            let e = s[i + 1];
            let c0: char;
            if e == '\\' {
                c0 = '\\';
            } else if e == 'n' {
                c0 = '\n';
            } else if e == 't' {
                c0 = '\t';
            } else {
                return None;
            }
            out.push(c0);
            proof {
                if unescape(s@.skip(i as int + 2)) is Some {
                    let r2 = unescape(s@.skip(i as int + 2))->Some_0;
                    assert(out@ + r2 =~= out@.drop_last() + (seq![c0] + r2));
                }
            }
            i = i + 2;
        } else {
            out.push(c);
            proof {
                if unescape(s@.skip(i as int + 1)) is Some {
                    let r2 = unescape(s@.skip(i as int + 1))->Some_0;
                    assert(out@ + r2 =~= out@.drop_last() + (seq![c] + r2));
                }
            }
            i = i + 1;
        }
    }
    proof {
        assert(s@.skip(s@.len() as int) =~= Seq::<char>::empty());
        assert(out@ + Seq::<char>::empty() =~= out@);
    }
    Some(out)
}

/// The characters of a string, in order.
pub fn str_to_chars(s: &str) -> (v: Vec<char>)
    ensures
        v@ == s@,
{
    let n = s.unicode_len();
    let mut v: Vec<char> = Vec::new();
    let mut i: usize = 0;
    while i < n
        invariant
            i <= n,
            n == s@.len(),
            v@ == s@.take(i as int),
        decreases n - i,
    {
        v.push(s.get_char(i));
        proof {
            assert(s@.take(i as int + 1) =~= s@.take(i as int).push(s@[i as int]));
        }
        i = i + 1;
    }
    proof {
        assert(s@.take(n as int) =~= s@);
    }
    v
}

/// Lexicographic order on character strings, by Unicode scalar value: a
/// proper prefix comes first, otherwise the first differing character
/// decides.
pub open spec fn lex_le(a: Seq<char>, b: Seq<char>) -> bool
    decreases a.len(),
{
    if a.len() == 0 {
        true
    } else if b.len() == 0 {
        false
    } else if a[0] == b[0] {
        lex_le(a.drop_first(), b.drop_first())
    } else {
        (a[0] as u32) < (b[0] as u32)
    }
}

/// Distinct characters have distinct scalar values.
proof fn lemma_char_cast_neq(a: char, b: char)
    requires
        a != b,
    ensures
        a as u32 != b as u32,
{
}

/// The order is total: one of the two directions always holds.
pub proof fn lemma_lex_le_total(a: Seq<char>, b: Seq<char>)
    ensures
        lex_le(a, b) || lex_le(b, a),
    decreases a.len(),
{
    if a.len() > 0 && b.len() > 0 {
        if a[0] == b[0] {
            lemma_lex_le_total(a.drop_first(), b.drop_first());
        } else {
            lemma_char_cast_neq(a[0], b[0]);
        }
    }
}

/// The order is antisymmetric: strings below each other are equal.
pub proof fn lemma_lex_le_antisym(a: Seq<char>, b: Seq<char>)
    requires
        lex_le(a, b),
        lex_le(b, a),
    ensures
        a == b,
    decreases a.len(),
{
    if a.len() == 0 {
        assert(b.len() == 0);
        assert(a =~= b);
    } else {
        assert(b.len() > 0);
        if a[0] != b[0] {
            lemma_char_cast_neq(a[0], b[0]);
            assert((a[0] as u32) < (b[0] as u32));
            assert((b[0] as u32) < (a[0] as u32));
        }
        assert(a[0] == b[0]);
        lemma_lex_le_antisym(a.drop_first(), b.drop_first());
        assert(a.drop_first().len() == a.len() - 1);
        assert(b.drop_first().len() == b.len() - 1);
        assert forall|i: int| 1 <= i < a.len() implies a[i] == b[i] by {
            assert(a.drop_first()[i - 1] == b.drop_first()[i - 1]);
        };
        assert(a =~= b);
    }
}

/// The order is transitive.
pub proof fn lemma_lex_le_trans(a: Seq<char>, b: Seq<char>, c: Seq<char>)
    requires
        lex_le(a, b),
        lex_le(b, c),
    ensures
        lex_le(a, c),
    decreases a.len(),
{
    if a.len() == 0 || b.len() == 0 || c.len() == 0 {
    } else if a[0] == b[0] && b[0] == c[0] {
        lemma_lex_le_trans(a.drop_first(), b.drop_first(), c.drop_first());
    }
}

/// Compare two strings in the order of [`lex_le`].
pub fn str_lex_le(a: &str, b: &str) -> (r: bool)
    ensures
        r == lex_le(a@, b@),
{
    let na = a.unicode_len();
    let nb = b.unicode_len();
    let min: usize = if na < nb {
        na
    } else {
        nb
    };
    let mut i: usize = 0;
    proof {
        assert(a@.skip(0) =~= a@);
        assert(b@.skip(0) =~= b@);
    }
    while i < min
        invariant
            i <= min,
            min <= a@.len() && min <= b@.len(),
            na == a@.len() && nb == b@.len(),
            min == if na < nb {
                na as int
            } else {
                nb as int
            },
            lex_le(a@, b@) == lex_le(a@.skip(i as int), b@.skip(i as int)),
            lex_le(b@, a@) == lex_le(b@.skip(i as int), a@.skip(i as int)),
        decreases min - i,
    {
        let ca = a.get_char(i);
        let cb = b.get_char(i);
        proof {
            assert(a@.skip(i as int)[0] == a@[i as int]);
            assert(b@.skip(i as int)[0] == b@[i as int]);
            assert(a@.skip(i as int).drop_first() =~= a@.skip(i as int + 1));
            assert(b@.skip(i as int).drop_first() =~= b@.skip(i as int + 1));
        }
        if ca != cb {
            return (ca as u32) < (cb as u32);
        }
        i = i + 1;
    }
    proof {
        if na <= nb {
            assert(a@.skip(min as int).len() == 0);
        } else {
            assert(b@.skip(min as int).len() == 0);
            assert(a@.skip(min as int).len() > 0);
        }
    }
    na <= nb
}

/// Do two strings hold the same characters?
pub fn str_eq(a: &str, b: &str) -> (r: bool)
    ensures
        r == (a@ == b@),
{
    let na = a.unicode_len();
    let nb = b.unicode_len();
    if na != nb {
        return false;
    }
    let mut i: usize = 0;
    while i < na
        invariant
            i <= na,
            na == a@.len(),
            na == b@.len(),
            forall|m: int| 0 <= m < i ==> a@[m] == b@[m],
        decreases na - i,
    {
        if a.get_char(i) != b.get_char(i) {
            return false;
        }
        i = i + 1;
    }
    proof {
        assert(a@ =~= b@);
    }
    true
}

/// Relies on String's FromIterator over characters: collecting characters
/// yields the string holding exactly those characters in order.
#[verifier::external_body]
pub(crate) fn chars_to_string(v: &Vec<char>) -> (s: String)
    ensures
        s@ == v@,
{
    v.iter().collect()
}

} // verus!
