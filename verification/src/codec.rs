//! The on-disk writing of events.
//!
//! One event per line: tab-separated fields, the first a two-letter tag, the
//! rest escaped strings or decimal numbers. Text fields are escaped so that
//! they contain neither tab nor newline; a whole encoded line therefore
//! contains no newline, and lines can be joined with newlines into a log.
//! Reading is tolerant: a line that does not decode is skipped.

use vstd::prelude::*;
use crate::events::{Event, EventV, views_of};
use crate::numbers::{
    digits_value, i64_chars, i64_value, lemma_digits_round_trip, lemma_i64_chars_plain,
    lemma_i64_round_trip, lemma_u128_digits_are_digits, parse_i64, parse_u128, push_i64_chars,
    push_u128_chars, u128_digits,
};
use crate::store_interface::{GroupId, HashedPassword, ScorableId, ScoreId};
use crate::text::{
    chars_to_string, escape, lemma_escape_plain, lemma_escape_round_trip, lemma_split_append,
    lemma_split_len, lemma_split_whole, push_escaped, split_chars, split_on, str_to_chars,
    unescape, unescape_chars,
};

verus! {

/// A field that may stand between tabs on a line: free of tab and newline.
pub open spec fn field_plain(f: Seq<char>) -> bool {
    forall|i: int| 0 <= i < f.len() ==> (#[trigger] f[i]) != '\t' && f[i] != '\n'
}

/// Fields joined by tabs into one line.
pub open spec fn join_fields(fs: Seq<Seq<char>>) -> Seq<char>
    decreases fs.len(),
{
    if fs.len() == 0 {
        Seq::empty()
    } else if fs.len() == 1 {
        fs[0]
    } else {
        fs[0] + seq!['\t'] + join_fields(fs.drop_first())
    }
}

pub proof fn lemma_join2(a: Seq<char>, b: Seq<char>)
    ensures
        join_fields(seq![a, b]) == a + seq!['\t'] + b,
{
    assert(seq![a, b].drop_first() =~~= seq![b]);
    assert(join_fields(seq![b]) == b);
}

pub proof fn lemma_join3(a: Seq<char>, b: Seq<char>, c: Seq<char>)
    ensures
        join_fields(seq![a, b, c]) == a + seq!['\t'] + (b + seq!['\t'] + c),
{
    assert(seq![a, b, c].drop_first() =~~= seq![b, c]);
    lemma_join2(b, c);
}

pub proof fn lemma_join4(a: Seq<char>, b: Seq<char>, c: Seq<char>, d: Seq<char>)
    ensures
        join_fields(seq![a, b, c, d]) == a + seq!['\t'] + (b + seq!['\t'] + (c + seq!['\t'] + d)),
{
    assert(seq![a, b, c, d].drop_first() =~~= seq![b, c, d]);
    lemma_join3(b, c, d);
}

pub proof fn lemma_join6(
    a: Seq<char>,
    b: Seq<char>,
    c: Seq<char>,
    d: Seq<char>,
    e: Seq<char>,
    f: Seq<char>,
)
    ensures
        join_fields(seq![a, b, c, d, e, f]) == a + seq!['\t'] + (b + seq!['\t'] + (c + seq!['\t']
            + (d + seq!['\t'] + (e + seq!['\t'] + f)))),
{
    assert(seq![a, b, c, d, e, f].drop_first() =~~= seq![b, c, d, e, f]);
    assert(seq![b, c, d, e, f].drop_first() =~~= seq![c, d, e, f]);
    lemma_join4(c, d, e, f);
    assert(join_fields(seq![b, c, d, e, f]) == b + seq!['\t'] + (c + seq!['\t'] + (d + seq!['\t']
        + (e + seq!['\t'] + f))));
}

/// Splitting on tabs undoes joining, as long as no field contains a tab.
pub proof fn lemma_join_fields_split(fs: Seq<Seq<char>>)
    requires
        fs.len() >= 1,
        forall|k: int| 0 <= k < fs.len() ==> field_plain(#[trigger] fs[k]),
    ensures
        split_on(join_fields(fs), '\t') == fs,
    decreases fs.len(),
{
    if fs.len() == 1 {
        lemma_split_whole(fs[0], '\t');
        assert(split_on(join_fields(fs), '\t') =~~= fs);
    } else {
        let rest = fs.drop_first();
        assert(forall|k: int| 0 <= k < rest.len() ==> field_plain(#[trigger] rest[k]));
        lemma_join_fields_split(rest);
        lemma_split_append(fs[0], join_fields(rest), '\t');
        lemma_split_whole(fs[0], '\t');
        assert(split_on(join_fields(fs), '\t') =~~= fs);
    }
}

/// A line joined from newline-free fields is newline-free.
pub proof fn lemma_join_fields_no_newline(fs: Seq<Seq<char>>)
    requires
        forall|k: int| 0 <= k < fs.len() ==> field_plain(#[trigger] fs[k]),
    ensures
        forall|i: int| 0 <= i < join_fields(fs).len() ==> (#[trigger] join_fields(fs)[i]) != '\n',
    decreases fs.len(),
{
    if fs.len() <= 1 {
    } else {
        let rest = fs.drop_first();
        assert(forall|k: int| 0 <= k < rest.len() ==> field_plain(#[trigger] rest[k]));
        lemma_join_fields_no_newline(rest);
        let head = fs[0] + seq!['\t'];
        let j = join_fields(fs);
        assert forall|i: int| 0 <= i < j.len() implies (#[trigger] j[i]) != '\n' by {
            if i < head.len() {
                assert(j[i] == head[i]);
            } else {
                assert(j[i] == join_fields(rest)[i - head.len()]);
            }
        };
    }
}

/// The tab-separated fields that write an event down.
pub open spec fn fields_of(e: EventV) -> Seq<Seq<char>> {
    match e {
        EventV::UpsertUser { username, hashed_password } => seq![
            seq!['u', 'u'],
            escape(username),
            escape(hashed_password),
        ],
        EventV::DeleteUser { username } => seq![seq!['d', 'u'], escape(username)],
        EventV::UpsertGroup { id, name } => seq![seq!['u', 'g'], u128_digits(id), escape(name)],
        EventV::DeleteGroup { id } => seq![seq!['d', 'g'], u128_digits(id)],
        EventV::UpsertScorable { id, group_id, name } => seq![
            seq!['u', 's'],
            u128_digits(id),
            u128_digits(group_id),
            escape(name),
        ],
        EventV::DeleteScorable { id } => seq![seq!['d', 's'], u128_digits(id)],
        EventV::UpsertScore { id, scorable_id, username, value, date } => seq![
            seq!['u', 'c'],
            u128_digits(id),
            u128_digits(scorable_id),
            escape(username),
            i64_chars(value),
            i64_chars(date),
        ],
        EventV::DeleteScore { id } => seq![seq!['d', 'c'], u128_digits(id)],
    }
}

/// The one line that writes an event down.
pub open spec fn encode_spec(e: EventV) -> Seq<char> {
    join_fields(fields_of(e))
}

/// Every field of an event's writing is free of tab and newline.
pub proof fn lemma_fields_plain(e: EventV)
    ensures
        forall|k: int| 0 <= k < fields_of(e).len() ==> field_plain(#[trigger] fields_of(e)[k]),
{
    match e {
        EventV::UpsertUser { username, hashed_password } => {
            lemma_escape_plain(username);
            lemma_escape_plain(hashed_password);
        },
        EventV::DeleteUser { username } => {
            lemma_escape_plain(username);
        },
        EventV::UpsertGroup { id, name } => {
            lemma_u128_digits_are_digits(id);
            lemma_escape_plain(name);
        },
        EventV::DeleteGroup { id } => {
            lemma_u128_digits_are_digits(id);
        },
        EventV::UpsertScorable { id, group_id, name } => {
            lemma_u128_digits_are_digits(id);
            lemma_u128_digits_are_digits(group_id);
            lemma_escape_plain(name);
        },
        EventV::DeleteScorable { id } => {
            lemma_u128_digits_are_digits(id);
        },
        EventV::UpsertScore { id, scorable_id, username, value, date } => {
            lemma_u128_digits_are_digits(id);
            lemma_u128_digits_are_digits(scorable_id);
            lemma_escape_plain(username);
            lemma_i64_chars_plain(value);
            lemma_i64_chars_plain(date);
        },
        EventV::DeleteScore { id } => {
            lemma_u128_digits_are_digits(id);
        },
    }
}

/// An encoded line never contains a newline.
pub proof fn lemma_encode_no_newline(e: EventV)
    ensures
        forall|i: int|
            0 <= i < encode_spec(e).len() ==> (#[trigger] encode_spec(e)[i]) != '\n',
{
    lemma_fields_plain(e);
    lemma_join_fields_no_newline(fields_of(e));
}

/// The event a line denotes, if any. Field one is the tag; the arity and the
/// field forms must all fit, else the line is not an event.
pub open spec fn decode_spec(line: Seq<char>) -> Option<EventV> {
    let fs = split_on(line, '\t');
    let t = fs[0];
    if t.len() == 2 && t[0] == 'u' && t[1] == 'u' {
        if fs.len() == 3 {
            match (unescape(fs[1]), unescape(fs[2])) {
                (Option::Some(u), Option::Some(h)) => Some(
                    EventV::UpsertUser { username: u, hashed_password: h },
                ),
                _ => None,
            }
        } else {
            None
        }
    } else if t.len() == 2 && t[0] == 'd' && t[1] == 'u' {
        if fs.len() == 2 {
            match unescape(fs[1]) {
                Option::Some(u) => Some(EventV::DeleteUser { username: u }),
                Option::None => None,
            }
        } else {
            None
        }
    } else if t.len() == 2 && t[0] == 'u' && t[1] == 'g' {
        if fs.len() == 3 {
            match (digits_value(fs[1]), unescape(fs[2])) {
                (Option::Some(id), Option::Some(n)) => Some(EventV::UpsertGroup { id, name: n }),
                _ => None,
            }
        } else {
            None
        }
    } else if t.len() == 2 && t[0] == 'd' && t[1] == 'g' {
        if fs.len() == 2 {
            match digits_value(fs[1]) {
                Option::Some(id) => Some(EventV::DeleteGroup { id }),
                Option::None => None,
            }
        } else {
            None
        }
    } else if t.len() == 2 && t[0] == 'u' && t[1] == 's' {
        if fs.len() == 4 {
            match (digits_value(fs[1]), digits_value(fs[2]), unescape(fs[3])) {
                (Option::Some(id), Option::Some(g), Option::Some(n)) => Some(
                    EventV::UpsertScorable { id, group_id: g, name: n },
                ),
                _ => None,
            }
        } else {
            None
        }
    } else if t.len() == 2 && t[0] == 'd' && t[1] == 's' {
        if fs.len() == 2 {
            match digits_value(fs[1]) {
                Option::Some(id) => Some(EventV::DeleteScorable { id }),
                Option::None => None,
            }
        } else {
            None
        }
    } else if t.len() == 2 && t[0] == 'u' && t[1] == 'c' {
        if fs.len() == 6 {
            match (digits_value(fs[1]), digits_value(fs[2]), unescape(fs[3]), i64_value(fs[4]), i64_value(fs[5])) {
                (
                    Option::Some(id),
                    Option::Some(s),
                    Option::Some(u),
                    Option::Some(v),
                    Option::Some(d),
                ) => Some(
                    EventV::UpsertScore {
                        id,
                        scorable_id: s,
                        username: u,
                        value: v,
                        date: d,
                    },
                ),
                _ => None,
            }
        } else {
            None
        }
    } else if t.len() == 2 && t[0] == 'd' && t[1] == 'c' {
        if fs.len() == 2 {
            match digits_value(fs[1]) {
                Option::Some(id) => Some(EventV::DeleteScore { id }),
                Option::None => None,
            }
        } else {
            None
        }
    } else {
        None
    }
}

/// Reading back the writing of any event gives that event.
pub proof fn lemma_event_round_trip(e: EventV)
    ensures
        decode_spec(encode_spec(e)) == Some(e),
{
    lemma_fields_plain(e);
    lemma_join_fields_split(fields_of(e));
    match e {
        EventV::UpsertUser { username, hashed_password } => {
            lemma_escape_round_trip(username);
            lemma_escape_round_trip(hashed_password);
        },
        EventV::DeleteUser { username } => {
            lemma_escape_round_trip(username);
        },
        EventV::UpsertGroup { id, name } => {
            lemma_digits_round_trip(id);
            lemma_escape_round_trip(name);
        },
        EventV::DeleteGroup { id } => {
            lemma_digits_round_trip(id);
        },
        EventV::UpsertScorable { id, group_id, name } => {
            lemma_digits_round_trip(id);
            lemma_digits_round_trip(group_id);
            lemma_escape_round_trip(name);
        },
        EventV::DeleteScorable { id } => {
            lemma_digits_round_trip(id);
        },
        EventV::UpsertScore { id, scorable_id, username, value, date } => {
            lemma_digits_round_trip(id);
            lemma_digits_round_trip(scorable_id);
            lemma_escape_round_trip(username);
            lemma_i64_round_trip(value);
            lemma_i64_round_trip(date);
        },
        EventV::DeleteScore { id } => {
            lemma_digits_round_trip(id);
        },
    }
}

/// Write an event down as characters.
pub fn encode_event(e: &Event) -> (line: Vec<char>)
    ensures
        line@ == encode_spec(e@),
{
    let mut out: Vec<char> = Vec::new();
    match e {
        Event::UpsertUser { username, hashed_password } => {
            out.push('u');
            out.push('u');
            out.push('\t');
            let u = str_to_chars(username.as_str());
            push_escaped(&u, &mut out);
            out.push('\t');
            let h = str_to_chars(hashed_password.encoded_str());
            push_escaped(&h, &mut out);
            proof {
                let fs = fields_of(e@);
                assert(fs =~~= seq![fs[0], fs[1], fs[2]]);
                lemma_join3(fs[0], fs[1], fs[2]);
                assert(out@ =~= fs[0] + seq!['\t'] + (fs[1] + seq!['\t'] + fs[2]));
                assert(out@ == encode_spec(e@));
            }
        },
        Event::DeleteUser { username } => {
            out.push('d');
            out.push('u');
            out.push('\t');
            let u = str_to_chars(username.as_str());
            push_escaped(&u, &mut out);
            proof {
                let fs = fields_of(e@);
                assert(fs =~~= seq![fs[0], fs[1]]);
                lemma_join2(fs[0], fs[1]);
                assert(out@ =~= fs[0] + seq!['\t'] + fs[1]);
                assert(out@ == encode_spec(e@));
            }
        },
        Event::UpsertGroup { id, name } => {
            out.push('u');
            out.push('g');
            out.push('\t');
            push_u128_chars(id.0, &mut out);
            out.push('\t');
            let n = str_to_chars(name.as_str());
            push_escaped(&n, &mut out);
            proof {
                let fs = fields_of(e@);
                assert(fs =~~= seq![fs[0], fs[1], fs[2]]);
                lemma_join3(fs[0], fs[1], fs[2]);
                assert(out@ =~= fs[0] + seq!['\t'] + (fs[1] + seq!['\t'] + fs[2]));
                assert(out@ == encode_spec(e@));
            }
        },
        Event::DeleteGroup { id } => {
            out.push('d');
            out.push('g');
            out.push('\t');
            push_u128_chars(id.0, &mut out);
            proof {
                let fs = fields_of(e@);
                assert(fs =~~= seq![fs[0], fs[1]]);
                lemma_join2(fs[0], fs[1]);
                assert(out@ =~= fs[0] + seq!['\t'] + fs[1]);
                assert(out@ == encode_spec(e@));
            }
        },
        Event::UpsertScorable { id, group_id, name } => {
            out.push('u');
            out.push('s');
            out.push('\t');
            push_u128_chars(id.0, &mut out);
            out.push('\t');
            push_u128_chars(group_id.0, &mut out);
            out.push('\t');
            let n = str_to_chars(name.as_str());
            push_escaped(&n, &mut out);
            proof {
                let fs = fields_of(e@);
                assert(fs =~~= seq![fs[0], fs[1], fs[2], fs[3]]);
                lemma_join4(fs[0], fs[1], fs[2], fs[3]);
                assert(out@ =~= fs[0] + seq!['\t'] + (fs[1] + seq!['\t'] + (fs[2] + seq!['\t']
                    + fs[3])));
                assert(out@ == encode_spec(e@));
            }
        },
        Event::DeleteScorable { id } => {
            out.push('d');
            out.push('s');
            out.push('\t');
            push_u128_chars(id.0, &mut out);
            proof {
                let fs = fields_of(e@);
                assert(fs =~~= seq![fs[0], fs[1]]);
                lemma_join2(fs[0], fs[1]);
                assert(out@ =~= fs[0] + seq!['\t'] + fs[1]);
                assert(out@ == encode_spec(e@));
            }
        },
        Event::UpsertScore { id, scorable_id, username, value, date } => {
            out.push('u');
            out.push('c');
            out.push('\t');
            push_u128_chars(id.0, &mut out);
            out.push('\t');
            push_u128_chars(scorable_id.0, &mut out);
            out.push('\t');
            let u = str_to_chars(username.as_str());
            push_escaped(&u, &mut out);
            out.push('\t');
            push_i64_chars(*value, &mut out);
            out.push('\t');
            push_i64_chars(*date, &mut out);
            proof {
                let fs = fields_of(e@);
                assert(fs =~~= seq![fs[0], fs[1], fs[2], fs[3], fs[4], fs[5]]);
                lemma_join6(fs[0], fs[1], fs[2], fs[3], fs[4], fs[5]);
                assert(out@ =~= fs[0] + seq!['\t'] + (fs[1] + seq!['\t'] + (fs[2] + seq!['\t']
                    + (fs[3] + seq!['\t'] + (fs[4] + seq!['\t'] + fs[5])))));
                assert(out@ == encode_spec(e@));
            }
        },
        Event::DeleteScore { id } => {
            out.push('d');
            out.push('c');
            out.push('\t');
            push_u128_chars(id.0, &mut out);
            proof {
                let fs = fields_of(e@);
                assert(fs =~~= seq![fs[0], fs[1]]);
                lemma_join2(fs[0], fs[1]);
                assert(out@ =~= fs[0] + seq!['\t'] + fs[1]);
                assert(out@ == encode_spec(e@));
            }
        },
    }
    out
}

/// Does this field consist of exactly the two given characters?
fn is_tag(f: &Vec<char>, a: char, b: char) -> (r: bool)
    ensures
        r == (f@.len() == 2 && f@[0] == a && f@[1] == b),
{
    f.len() == 2 && f[0] == a && f[1] == b
}

/// Read one line back as an event; `None` when the line is not one.
pub fn decode_event(line: &Vec<char>) -> (r: Option<Event>)
    ensures
        match r {
            Option::Some(e) => decode_spec(line@) == Some(e@),
            Option::None => decode_spec(line@) is None,
        },
{
    let fields = split_chars(line, '\t');
    let ghost fs = split_on(line@, '\t');
    proof {
        lemma_split_len(line@, '\t');
        assert(fields.deep_view() == fs);
        assert(fields@.len() == fs.len());
        assert(forall|k: int| 0 <= k < fields@.len() ==> (#[trigger] fields@[k])@ == fs[k]);
    }
    if fields.len() == 0 {
        // A split always has at least one piece; treat the impossible case as
        // an undecodable line.
        proof {
            assert(false);
        }
        return None;
    }
    let t = &fields[0];
    if is_tag(t, 'u', 'u') {
        if fields.len() != 3 {
            return None;
        }
        let u = unescape_chars(&fields[1]);
        let h = unescape_chars(&fields[2]);
        match (u, h) {
            (Option::Some(u), Option::Some(h)) => Some(Event::UpsertUser {
                username: chars_to_string(&u),
                hashed_password: HashedPassword::from_encoded(chars_to_string(&h)),
            }),
            _ => None,
        }
    } else if is_tag(t, 'd', 'u') {
        if fields.len() != 2 {
            return None;
        }
        match unescape_chars(&fields[1]) {
            Option::Some(u) => Some(Event::DeleteUser { username: chars_to_string(&u) }),
            Option::None => None,
        }
    } else if is_tag(t, 'u', 'g') {
        if fields.len() != 3 {
            return None;
        }
        let id = parse_u128(&fields[1]);
        let n = unescape_chars(&fields[2]);
        match (id, n) {
            (Option::Some(id), Option::Some(n)) => Some(Event::UpsertGroup {
                id: GroupId(id),
                name: chars_to_string(&n),
            }),
            _ => None,
        }
    } else if is_tag(t, 'd', 'g') {
        if fields.len() != 2 {
            return None;
        }
        match parse_u128(&fields[1]) {
            Option::Some(id) => Some(Event::DeleteGroup { id: GroupId(id) }),
            Option::None => None,
        }
    } else if is_tag(t, 'u', 's') {
        if fields.len() != 4 {
            return None;
        }
        let id = parse_u128(&fields[1]);
        let g = parse_u128(&fields[2]);
        let n = unescape_chars(&fields[3]);
        match (id, g, n) {
            (Option::Some(id), Option::Some(g), Option::Some(n)) => Some(Event::UpsertScorable {
                id: ScorableId(id),
                group_id: GroupId(g),
                name: chars_to_string(&n),
            }),
            _ => None,
        }
    } else if is_tag(t, 'd', 's') {
        if fields.len() != 2 {
            return None;
        }
        match parse_u128(&fields[1]) {
            Option::Some(id) => Some(Event::DeleteScorable { id: ScorableId(id) }),
            Option::None => None,
        }
    } else if is_tag(t, 'u', 'c') {
        if fields.len() != 6 {
            return None;
        }
        let id = parse_u128(&fields[1]);
        let s = parse_u128(&fields[2]);
        let u = unescape_chars(&fields[3]);
        let v = parse_i64(&fields[4]);
        let d = parse_i64(&fields[5]);
        match (id, s, u, v, d) {
            (
                Option::Some(id),
                Option::Some(s),
                Option::Some(u),
                Option::Some(v),
                Option::Some(d),
            ) => Some(Event::UpsertScore {
                id: ScoreId(id),
                scorable_id: ScorableId(s),
                username: chars_to_string(&u),
                value: v,
                date: d,
            }),
            _ => None,
        }
    } else if is_tag(t, 'd', 'c') {
        if fields.len() != 2 {
            return None;
        }
        match parse_u128(&fields[1]) {
            Option::Some(id) => Some(Event::DeleteScore { id: ScoreId(id) }),
            Option::None => None,
        }
    } else {
        None
    }
}

/// The events that a sequence of lines yields: each line that decodes, in
/// order; lines that do not decode are skipped.
pub open spec fn events_of_lines(lines: Seq<Seq<char>>) -> Seq<EventV>
    decreases lines.len(),
{
    if lines.len() == 0 {
        Seq::empty()
    } else {
        match decode_spec(lines[0]) {
            Option::Some(e) => seq![e] + events_of_lines(lines.drop_first()),
            Option::None => events_of_lines(lines.drop_first()),
        }
    }
}

/// The events a whole log text yields.
pub open spec fn events_of_log(s: Seq<char>) -> Seq<EventV> {
    events_of_lines(split_on(s, '\n'))
}

pub proof fn lemma_events_of_lines_append(a: Seq<Seq<char>>, b: Seq<Seq<char>>)
    ensures
        events_of_lines(a + b) == events_of_lines(a) + events_of_lines(b),
    decreases a.len(),
{
    if a.len() == 0 {
        assert(a + b =~= b);
        assert(events_of_lines(a) + events_of_lines(b) =~= events_of_lines(b));
    } else {
        assert((a + b).drop_first() =~= a.drop_first() + b);
        lemma_events_of_lines_append(a.drop_first(), b);
        assert((a + b)[0] == a[0]);
        match decode_spec(a[0]) {
            Option::Some(e) => {
                assert(events_of_lines(a + b) =~= events_of_lines(a) + events_of_lines(b));
            },
            Option::None => {
                assert(events_of_lines(a + b) =~= events_of_lines(a) + events_of_lines(b));
            },
        }
    }
}

/// The events of a single line.
pub proof fn lemma_events_of_lines_singleton(l: Seq<char>)
    ensures
        events_of_lines(seq![l]) == match decode_spec(l) {
            Option::Some(e) => seq![e],
            Option::None => Seq::<EventV>::empty(),
        },
{
    assert(seq![l].drop_first() =~~= Seq::<Seq<char>>::empty());
    assert(events_of_lines(Seq::<Seq<char>>::empty()) == Seq::<EventV>::empty());
    match decode_spec(l) {
        Option::Some(e) => {
            assert(events_of_lines(seq![l]) =~= seq![e]);
        },
        Option::None => {},
    }
}

/// The rendering of a single pending event.
proof fn lemma_render_singleton(e: EventV)
    ensures
        render_pending(seq![e]) == seq!['\n'] + encode_spec(e),
{
    assert(seq![e].drop_first() =~~= Seq::<EventV>::empty());
    assert(render_pending(Seq::<EventV>::empty()) == Seq::<char>::empty());
    assert(render_pending(seq![e]) =~= seq!['\n'] + encode_spec(e));
}

/// Replay tolerance: inserting one line that does not decode, at any
/// position, leaves the decoded events of every other line untouched.
pub proof fn lemma_replay_tolerance(lines: Seq<Seq<char>>, k: int, bad: Seq<char>)
    requires
        0 <= k <= lines.len(),
        decode_spec(bad) is None,
    ensures
        events_of_lines(lines.insert(k, bad)) == events_of_lines(lines),
{
    let a = lines.take(k);
    let b = lines.skip(k);
    assert(lines.insert(k, bad) =~= a + seq![bad] + b);
    assert(lines =~= a + b);
    lemma_events_of_lines_append(a + seq![bad], b);
    lemma_events_of_lines_append(a, seq![bad]);
    lemma_events_of_lines_append(a, b);
    lemma_events_of_lines_singleton(bad);
    assert(events_of_lines(a + seq![bad]) =~= events_of_lines(a));
    assert((a + seq![bad]) + b =~= a + seq![bad] + b);
}

/// The text that carries a batch of pending events to the log: each event's
/// line, preceded by its own newline.
pub open spec fn render_pending(evs: Seq<EventV>) -> Seq<char>
    decreases evs.len(),
{
    if evs.len() == 0 {
        Seq::empty()
    } else {
        seq!['\n'] + encode_spec(evs[0]) + render_pending(evs.drop_first())
    }
}

pub proof fn lemma_render_append(a: Seq<EventV>, b: Seq<EventV>)
    ensures
        render_pending(a + b) == render_pending(a) + render_pending(b),
    decreases a.len(),
{
    if a.len() == 0 {
        assert(a + b =~= b);
        assert(render_pending(a) + render_pending(b) =~= render_pending(b));
    } else {
        assert((a + b).drop_first() =~= a.drop_first() + b);
        lemma_render_append(a.drop_first(), b);
        assert((a + b)[0] == a[0]);
        assert(render_pending(a + b) =~= render_pending(a) + render_pending(b));
    }
}

/// The lines of an encoded batch, decoded after a headless prefix: the events
/// come back exactly.
proof fn lemma_render_tail(e: EventV, rest: Seq<EventV>)
    ensures
        events_of_lines(split_on(encode_spec(e) + render_pending(rest), '\n')) == seq![e]
            + rest,
    decreases rest.len(),
{
    lemma_event_round_trip(e);
    lemma_encode_no_newline(e);
    if rest.len() == 0 {
        assert(encode_spec(e) + render_pending(rest) =~= encode_spec(e));
        lemma_split_whole(encode_spec(e), '\n');
        lemma_events_of_lines_singleton(encode_spec(e));
        assert(seq![e] + rest =~= seq![e]);
    } else {
        let x = encode_spec(rest[0]) + render_pending(rest.drop_first());
        assert(encode_spec(e) + render_pending(rest) =~= encode_spec(e) + seq!['\n'] + x);
        lemma_split_append(encode_spec(e), x, '\n');
        lemma_split_whole(encode_spec(e), '\n');
        lemma_render_tail(rest[0], rest.drop_first());
        lemma_events_of_lines_append(seq![encode_spec(e)], split_on(x, '\n'));
        lemma_events_of_lines_singleton(encode_spec(e));
        assert(seq![e] + (seq![rest[0]] + rest.drop_first()) =~= seq![e] + rest);
    }
}

/// Round trip of the log itself: appending a rendered batch to any existing
/// log text extends the decoded event sequence by exactly that batch.
pub proof fn lemma_append_log(base: Seq<char>, evs: Seq<EventV>)
    ensures
        events_of_log(base + render_pending(evs)) == events_of_log(base) + evs,
{
    if evs.len() == 0 {
        assert(base + render_pending(evs) =~= base);
        assert(events_of_log(base) + evs =~= events_of_log(base));
    } else {
        let x = encode_spec(evs[0]) + render_pending(evs.drop_first());
        assert(base + render_pending(evs) =~= base + seq!['\n'] + x);
        lemma_split_append(base, x, '\n');
        lemma_events_of_lines_append(split_on(base, '\n'), split_on(x, '\n'));
        lemma_render_tail(evs[0], evs.drop_first());
        assert(seq![evs[0]] + evs.drop_first() =~= evs);
    }
}

/// Parse a whole log text: the events of every line that decodes, in order.
pub fn parse_log(text: &str) -> (events: Vec<Event>)
    ensures
        views_of(events@) == events_of_log(text@),
{
    let chars = str_to_chars(text);
    let lines = split_chars(&chars, '\n');
    let ghost ls = split_on(text@, '\n');
    proof {
        assert(lines.deep_view() == ls);
        assert(forall|k: int| 0 <= k < lines@.len() ==> (#[trigger] lines@[k])@ == ls[k]);
    }
    let mut events: Vec<Event> = Vec::new();
    let mut i: usize = 0;
    proof {
        assert(views_of(events@) =~= events_of_lines(ls.take(0)));
    }
    while i < lines.len()
        invariant
            i <= lines@.len(),
            lines.deep_view() == ls,
            forall|k: int| 0 <= k < lines@.len() ==> (#[trigger] lines@[k])@ == ls[k],
            views_of(events@) == events_of_lines(ls.take(i as int)),
        decreases lines@.len() - i,
    {
        let ghost prev = events@;
        let r = decode_event(&lines[i]);
        match r {
            Option::Some(e) => {
                events.push(e);
                proof {
                    assert(views_of(events@) =~= views_of(prev).push(e@));
                }
            },
            Option::None => {},
        }
        proof {
            assert(ls.take(i as int + 1) =~= ls.take(i as int) + seq![ls[i as int]]);
            lemma_events_of_lines_append(ls.take(i as int), seq![ls[i as int]]);
            lemma_events_of_lines_singleton(ls[i as int]);
            assert(views_of(events@) =~= events_of_lines(ls.take(i as int + 1)));
        }
        i = i + 1;
    }
    proof {
        assert(ls.take(ls.len() as int) =~= ls);
    }
    events
}

/// Render a batch of pending events as the text to append to the log.
pub fn render_pending_text(events: &Vec<Event>) -> (s: String)
    ensures
        s@ == render_pending(views_of(events@)),
{
    let mut out: Vec<char> = Vec::new();
    let mut i: usize = 0;
    proof {
        assert(views_of(events@).take(0) =~= views_of(events@.take(0)));
        assert(out@ =~= render_pending(views_of(events@.take(0))));
    }
    while i < events.len()
        invariant
            i <= events@.len(),
            out@ == render_pending(views_of(events@).take(i as int)),
        decreases events@.len() - i,
    {
        out.push('\n');
        let mut line = encode_event(&events[i]);
        out.append(&mut line);
        proof {
            let vs = views_of(events@);
            assert(vs.take(i as int + 1) =~= vs.take(i as int) + seq![vs[i as int]]);
            lemma_render_append(vs.take(i as int), seq![vs[i as int]]);
            lemma_render_singleton(vs[i as int]);
            assert(vs[i as int] == events@[i as int]@);
            assert(out@ =~= render_pending(vs.take(i as int + 1)));
        }
        i = i + 1;
    }
    proof {
        assert(views_of(events@).take(events@.len() as int) =~= views_of(events@));
    }
    chars_to_string(&out)
}

} // verus!
