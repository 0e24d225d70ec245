//! The persisted file format: one JSON object
//! `{"last_item_id": n, "epics": {...}, "stories": {...}}`, with map keys
//! string-encoded integers and statuses serialized as their bare tag.
//!
//! `encode_state` emits the canonical text of a state: no whitespace,
//! entries in ascending id order, strings escaped as JSON asks. The decoder
//! accepts that text and more — whitespace between tokens, map entries in
//! any order, the usual string escapes — and rejects everything else.

use vstd::prelude::*;

use crate::models::{DBState, Epic, EpicView, StateView, Status, Story, StoryView};

verus! {

/// Whitespace the decoder skips between tokens.
pub open spec fn is_ws(c: char) -> bool {
    c == ' ' || c == '\n' || c == '\t' || c == '\r'
}

/// A decimal digit.
pub open spec fn is_digit(c: char) -> bool {
    '0' as u32 <= c as u32 && c as u32 <= '9' as u32
}

/// The numeric value of a decimal digit.
pub open spec fn digit_val(c: char) -> int {
    c as u32 - '0' as u32
}

/// The character of a decimal digit value.
pub open spec fn digit_char(d: int) -> char {
    if d == 0 { '0' }
    else if d == 1 { '1' }
    else if d == 2 { '2' }
    else if d == 3 { '3' }
    else if d == 4 { '4' }
    else if d == 5 { '5' }
    else if d == 6 { '6' }
    else if d == 7 { '7' }
    else if d == 8 { '8' }
    else { '9' }
}

/// The lower-case character of a hexadecimal digit value.
pub open spec fn hex_char(d: int) -> char {
    if d < 10 { digit_char(d) }
    else if d == 10 { 'a' }
    else if d == 11 { 'b' }
    else if d == 12 { 'c' }
    else if d == 13 { 'd' }
    else if d == 14 { 'e' }
    else { 'f' }
}

/// The value of a hexadecimal digit character, upper or lower case;
/// 16 where the character is no such digit.
pub open spec fn hex_val(c: char) -> int {
    if is_digit(c) { digit_val(c) }
    else if c == 'a' || c == 'A' { 10 }
    else if c == 'b' || c == 'B' { 11 }
    else if c == 'c' || c == 'C' { 12 }
    else if c == 'd' || c == 'D' { 13 }
    else if c == 'e' || c == 'E' { 14 }
    else if c == 'f' || c == 'F' { 15 }
    else { 16 }
}

/// Whether a code point is a Unicode scalar value, that is, the value of
/// some `char`.
pub open spec fn is_scalar(v: int) -> bool {
    (0 <= v < 0xD800) || (0xE000 <= v <= 0x10FFFF)
}

/// The scalar value of a character.
pub open spec fn char_val(c: char) -> int {
    (c as u32) as int
}

/// The character with the given scalar value.
pub open spec fn char_of(v: int) -> char {
    choose|c: char| #[trigger] char_val(c) == v
}

/// Every scalar value is the value of exactly one character, so `char_of`
/// inverts the cast to `int`.
pub proof fn lemma_char_of_cast(c: char)
    ensures
        char_of(char_val(c)) == c,
{
    assert(char_val(char_of(char_val(c))) == char_val(c));
}

// ---------------------------------------------------------------------------
// Canonical text of a state
// ---------------------------------------------------------------------------
/// The decimal digits of a non-negative number, most significant first.
pub open spec fn dec_digits(n: int) -> Seq<char>
    recommends
        n >= 0,
    decreases n,
{
    if n < 10 {
        seq![digit_char(n)]
    } else {
        dec_digits(n / 10).push(digit_char(n % 10))
    }
}

/// The canonical text of an id or counter value.
pub open spec fn enc_u32(n: u32) -> Seq<char> {
    dec_digits(n as int)
}

/// The text standing for one character inside a JSON string: itself, a
/// two-character escape, or a `\u00..` escape for the other control
/// characters.
pub open spec fn esc_char(c: char) -> Seq<char> {
    if c == '"' {
        seq!['\\', '"']
    } else if c == '\\' {
        seq!['\\', '\\']
    } else if c == '\n' {
        seq!['\\', 'n']
    } else if c == '\t' {
        seq!['\\', 't']
    } else if c == '\r' {
        seq!['\\', 'r']
    } else if (c as u32) < 0x20 {
        seq!['\\', 'u', '0', '0', hex_char((c as u32) as int / 16), hex_char((c as u32) as int % 16)]
    } else {
        seq![c]
    }
}

/// The escaped body of a JSON string.
pub open spec fn enc_str_body(s: Seq<char>) -> Seq<char>
    decreases s.len(),
{
    if s.len() == 0 {
        Seq::<char>::empty()
    } else {
        esc_char(s[0]) + enc_str_body(s.drop_first())
    }
}

/// A JSON string: quote, escaped body, quote.
pub open spec fn enc_string(s: Seq<char>) -> Seq<char> {
    seq!['"'] + enc_str_body(s) + seq!['"']
}

/// The bare tag of a status.
pub open spec fn tag_chars(st: Status) -> Seq<char> {
    match st {
        Status::Open => seq!['O', 'p', 'e', 'n'],
        Status::InProgress => seq!['I', 'n', 'P', 'r', 'o', 'g', 'r', 'e', 's', 's'],
        Status::Resolved => seq!['R', 'e', 's', 'o', 'l', 'v', 'e', 'd'],
        Status::Closed => seq!['C', 'l', 'o', 's', 'e', 'd'],
    }
}

/// A status as JSON: its tag as a string.
pub open spec fn enc_status(st: Status) -> Seq<char> {
    seq!['"'] + tag_chars(st) + seq!['"']
}

/// The comma-separated ids of an epic's story list.
pub open spec fn enc_ids_body(ids: Seq<u32>) -> Seq<char>
    decreases ids.len(),
{
    if ids.len() == 0 {
        Seq::<char>::empty()
    } else if ids.len() == 1 {
        enc_u32(ids[0])
    } else {
        enc_u32(ids[0]) + seq![','] + enc_ids_body(ids.drop_first())
    }
}

/// A story list as a JSON array of numbers.
pub open spec fn enc_ids(ids: Seq<u32>) -> Seq<char> {
    seq!['['] + enc_ids_body(ids) + seq![']']
}

/// The quoted key `"name"`.
pub open spec fn key_name() -> Seq<char> {
    seq!['"', 'n', 'a', 'm', 'e', '"']
}

/// The quoted key `"description"`.
pub open spec fn key_description() -> Seq<char> {
    seq!['"', 'd', 'e', 's', 'c', 'r', 'i', 'p', 't', 'i', 'o', 'n', '"']
}

/// The quoted key `"status"`.
pub open spec fn key_status() -> Seq<char> {
    seq!['"', 's', 't', 'a', 't', 'u', 's', '"']
}

/// The quoted key `"stories"`.
pub open spec fn key_stories() -> Seq<char> {
    seq!['"', 's', 't', 'o', 'r', 'i', 'e', 's', '"']
}

/// The quoted key `"last_item_id"`.
pub open spec fn key_last_item_id() -> Seq<char> {
    seq!['"', 'l', 'a', 's', 't', '_', 'i', 't', 'e', 'm', '_', 'i', 'd', '"']
}

/// The quoted key `"epics"`.
pub open spec fn key_epics() -> Seq<char> {
    seq!['"', 'e', 'p', 'i', 'c', 's', '"']
}

/// An epic as a JSON object with its four fields in declaration order.
pub open spec fn enc_epic(e: EpicView) -> Seq<char> {
    seq!['{'] + key_name() + seq![':'] + enc_string(e.name) + seq![','] + key_description()
        + seq![':'] + enc_string(e.description) + seq![','] + key_status() + seq![':']
        + enc_status(e.status) + seq![','] + key_stories() + seq![':'] + enc_ids(e.stories)
        + seq!['}']
}

/// A story as a JSON object with its three fields in declaration order.
pub open spec fn enc_story(st: StoryView) -> Seq<char> {
    seq!['{'] + key_name() + seq![':'] + enc_string(st.name) + seq![','] + key_description()
        + seq![':'] + enc_string(st.description) + seq![','] + key_status() + seq![':']
        + enc_status(st.status) + seq!['}']
}

/// The ids in `[lo, hi)` that the epic map contains, in ascending order.
pub open spec fn epic_ids_in(m: Map<u32, EpicView>, lo: int, hi: int) -> Seq<u32>
    decreases hi - lo,
{
    if lo >= hi {
        Seq::<u32>::empty()
    } else if m.contains_key(lo as u32) {
        seq![lo as u32] + epic_ids_in(m, lo + 1, hi)
    } else {
        epic_ids_in(m, lo + 1, hi)
    }
}

/// The ids in `[lo, hi)` that the story map contains, in ascending order.
pub open spec fn story_ids_in(m: Map<u32, StoryView>, lo: int, hi: int) -> Seq<u32>
    decreases hi - lo,
{
    if lo >= hi {
        Seq::<u32>::empty()
    } else if m.contains_key(lo as u32) {
        seq![lo as u32] + story_ids_in(m, lo + 1, hi)
    } else {
        story_ids_in(m, lo + 1, hi)
    }
}

/// One epic map entry: the id as a quoted key, then the epic.
pub open spec fn enc_epic_entry(id: u32, e: EpicView) -> Seq<char> {
    seq!['"'] + enc_u32(id) + seq!['"', ':'] + enc_epic(e)
}

/// One story map entry.
pub open spec fn enc_story_entry(id: u32, st: StoryView) -> Seq<char> {
    seq!['"'] + enc_u32(id) + seq!['"', ':'] + enc_story(st)
}

/// The comma-separated entries of the epic map for the given ids.
pub open spec fn enc_epic_entries(m: Map<u32, EpicView>, ids: Seq<u32>) -> Seq<char>
    decreases ids.len(),
{
    if ids.len() == 0 {
        Seq::<char>::empty()
    } else if ids.len() == 1 {
        enc_epic_entry(ids[0], m[ids[0]])
    } else {
        enc_epic_entry(ids[0], m[ids[0]]) + seq![','] + enc_epic_entries(m, ids.drop_first())
    }
}

/// The comma-separated entries of the story map for the given ids.
pub open spec fn enc_story_entries(m: Map<u32, StoryView>, ids: Seq<u32>) -> Seq<char>
    decreases ids.len(),
{
    if ids.len() == 0 {
        Seq::<char>::empty()
    } else if ids.len() == 1 {
        enc_story_entry(ids[0], m[ids[0]])
    } else {
        enc_story_entry(ids[0], m[ids[0]]) + seq![','] + enc_story_entries(m, ids.drop_first())
    }
}

/// The epic map as a JSON object, entries in ascending id order; ids above
/// `last` are not scanned — a persisted state keeps its ids bounded by the
/// counter.
pub open spec fn enc_epics_obj(m: Map<u32, EpicView>, last: u32) -> Seq<char> {
    seq!['{'] + enc_epic_entries(m, epic_ids_in(m, 0, last + 1)) + seq!['}']
}

/// The story map as a JSON object, entries in ascending id order.
pub open spec fn enc_stories_obj(m: Map<u32, StoryView>, last: u32) -> Seq<char> {
    seq!['{'] + enc_story_entries(m, story_ids_in(m, 0, last + 1)) + seq!['}']
}

/// The canonical text of a full state.
pub open spec fn enc_state(s: StateView) -> Seq<char> {
    seq!['{'] + key_last_item_id() + seq![':'] + enc_u32(s.last_item_id) + seq![','] + key_epics()
        + seq![':'] + enc_epics_obj(s.epics, s.last_item_id) + seq![','] + key_stories()
        + seq![':'] + enc_stories_obj(s.stories, s.last_item_id) + seq!['}']
}

// ---------------------------------------------------------------------------
// Executable encoder
// ---------------------------------------------------------------------------
/// Relies on `String::push`: appends exactly the one character.
#[verifier::external_body]
fn push_char(out: &mut String, c: char)
    ensures
        final(out)@ == old(out)@.push(c),
{
    out.push(c);
}

/// Relies on `str::chars`: yields the string's characters in order.
#[verifier::external_body]
fn chars_to_vec(s: &str) -> (r: Vec<char>)
    ensures
        r@ == s@,
{
    s.chars().collect()
}

/// Relies on `char::from_u32`: `Some` exactly for Unicode scalar values,
/// returning the character with that value.
#[verifier::external_body]
fn char_from_u32(v: u32) -> (r: Option<char>)
    ensures
        (r matches Some(c) ==> c as u32 == v),
        (r is Some <==> is_scalar(v as int)),
{
    char::from_u32(v)
}

/// The character of a decimal digit value.
fn digit_char_exec(d: u32) -> (c: char)
    requires
        d < 10,
    ensures
        c == digit_char(d as int),
{
    match d {
        0u32 => '0',
        1u32 => '1',
        2u32 => '2',
        3u32 => '3',
        4u32 => '4',
        5u32 => '5',
        6u32 => '6',
        7u32 => '7',
        8u32 => '8',
        _ => '9',
    }
}

/// The lower-case character of a hexadecimal digit value.
fn hex_char_exec(d: u32) -> (c: char)
    requires
        d < 16,
    ensures
        c == hex_char(d as int),
{
    if d < 10 {
        digit_char_exec(d)
    } else {
        match d {
            10u32 => 'a',
            11u32 => 'b',
            12u32 => 'c',
            13u32 => 'd',
            14u32 => 'e',
            _ => 'f',
        }
    }
}

/// Appends the decimal digits of `n`.
fn emit_u32(out: &mut String, n: u32)
    ensures
        final(out)@ == old(out)@ + enc_u32(n),
    decreases n,
{
    if n >= 10 {
        emit_u32(out, n / 10);
    }
    push_char(out, digit_char_exec(n % 10));
    proof {
        if n < 10 {
            assert(final(out)@ =~= old(out)@ + dec_digits(n as int));
        } else {
            assert(final(out)@ =~= old(out)@ + dec_digits(n as int));
        }
    }
}

/// `enc_str_body` taken one character from the right.
proof fn lemma_enc_str_body_snoc(s: Seq<char>)
    requires
        s.len() > 0,
    ensures
        enc_str_body(s) == enc_str_body(s.drop_last()) + esc_char(s.last()),
    decreases s.len(),
{
    if s.len() == 1 {
        assert(s.drop_first() =~= Seq::<char>::empty());
        assert(s.drop_last() =~= Seq::<char>::empty());
        assert(enc_str_body(s) =~= enc_str_body(s.drop_last()) + esc_char(s.last()));
    } else {
        lemma_enc_str_body_snoc(s.drop_first());
        assert(s.drop_first().drop_last() =~= s.drop_last().drop_first());
        assert(s.drop_first().last() == s.last());
        assert(s.drop_last()[0] == s[0]);
        assert(enc_str_body(s) == esc_char(s[0]) + enc_str_body(s.drop_first()));
        assert(enc_str_body(s) =~= enc_str_body(s.drop_last()) + esc_char(s.last()));
    }
}

/// Appends one JSON string.
fn emit_string(out: &mut String, s: &String)
    ensures
        final(out)@ == old(out)@ + enc_string(s@),
{
    let cs = chars_to_vec(s.as_str());
    push_char(out, '"');
    proof {
        assert(cs@.take(0) =~= Seq::<char>::empty());
        assert(out@ =~= old(out)@ + seq!['"'] + enc_str_body(cs@.take(0)));
    }
    let n = cs.len();
    let mut i: usize = 0;
    while i < n
        invariant
            n == cs.len(),
            i <= n,
            cs@ == s@,
            out@ == old(out)@ + seq!['"'] + enc_str_body(cs@.take(i as int)),
        decreases n - i,
    {
        let c = cs[i];
        if c == '"' {
            push_char(out, '\\');
            push_char(out, '"');
            proof {
                assert(esc_char(c) =~= seq!['\\', '"']);
            }
        } else if c == '\\' {
            push_char(out, '\\');
            push_char(out, '\\');
            proof {
                assert(esc_char(c) =~= seq!['\\', '\\']);
            }
        } else if c == '\n' {
            push_char(out, '\\');
            push_char(out, 'n');
            proof {
                assert(esc_char(c) =~= seq!['\\', 'n']);
            }
        } else if c == '\t' {
            push_char(out, '\\');
            push_char(out, 't');
            proof {
                assert(esc_char(c) =~= seq!['\\', 't']);
            }
        } else if c == '\r' {
            push_char(out, '\\');
            push_char(out, 'r');
            proof {
                assert(esc_char(c) =~= seq!['\\', 'r']);
            }
        } else if (c as u32) < 0x20 {
            let v = c as u32;
            push_char(out, '\\');
            push_char(out, 'u');
            push_char(out, '0');
            push_char(out, '0');
            push_char(out, hex_char_exec(v / 16));
            push_char(out, hex_char_exec(v % 16));
            proof {
                assert(esc_char(c) =~= seq!['\\', 'u', '0', '0', hex_char((c as u32) as int / 16), hex_char((c as u32) as int % 16)]);
            }
        } else {
            push_char(out, c);
            proof {
                assert(esc_char(c) =~= seq![c]);
            }
        }
        proof {
            assert(cs@.take(i + 1) =~= cs@.take(i as int).push(c));
            lemma_enc_str_body_snoc(cs@.take(i + 1));
            assert(cs@.take(i + 1).drop_last() =~= cs@.take(i as int));
            assert(out@ =~= old(out)@ + seq!['"'] + enc_str_body(cs@.take(i + 1)));
        }
        i += 1;
    }
    push_char(out, '"');
    proof {
        assert(cs@.take(n as int) =~= cs@);
        assert(final(out)@ =~= old(out)@ + enc_string(s@));
    }
}

/// Appends one status tag as a JSON string.
fn emit_status(out: &mut String, st: &Status)
    ensures
        final(out)@ == old(out)@ + enc_status(*st),
{
    push_char(out, '"');
    match st {
        Status::Open => {
            push_char(out, 'O');
            push_char(out, 'p');
            push_char(out, 'e');
            push_char(out, 'n');
        },
        Status::InProgress => {
            push_char(out, 'I');
            push_char(out, 'n');
            push_char(out, 'P');
            push_char(out, 'r');
            push_char(out, 'o');
            push_char(out, 'g');
            push_char(out, 'r');
            push_char(out, 'e');
            push_char(out, 's');
            push_char(out, 's');
        },
        Status::Resolved => {
            push_char(out, 'R');
            push_char(out, 'e');
            push_char(out, 's');
            push_char(out, 'o');
            push_char(out, 'l');
            push_char(out, 'v');
            push_char(out, 'e');
            push_char(out, 'd');
        },
        Status::Closed => {
            push_char(out, 'C');
            push_char(out, 'l');
            push_char(out, 'o');
            push_char(out, 's');
            push_char(out, 'e');
            push_char(out, 'd');
        },
    }
    push_char(out, '"');
    proof {
        assert(final(out)@ =~= old(out)@ + enc_status(*st));
    }
}

/// `enc_ids_body` taken one id from the right.
proof fn lemma_enc_ids_body_snoc(ids: Seq<u32>, x: u32)
    ensures
        ids.len() == 0 ==> enc_ids_body(ids.push(x)) == enc_u32(x),
        ids.len() > 0 ==> enc_ids_body(ids.push(x)) == enc_ids_body(ids) + seq![','] + enc_u32(x),
    decreases ids.len(),
{
    let p = ids.push(x);
    if ids.len() == 0 {
        assert(p.len() == 1);
        assert(p[0] == x);
    } else {
        lemma_enc_ids_body_snoc(ids.drop_first(), x);
        assert(p.drop_first() =~= ids.drop_first().push(x));
        assert(p[0] == ids[0]);
        if ids.len() == 1 {
            assert(enc_ids_body(p) =~= enc_ids_body(ids) + seq![','] + enc_u32(x));
        } else {
            assert(enc_ids_body(p) =~= enc_ids_body(ids) + seq![','] + enc_u32(x));
        }
    }
}

/// Appends a story list as a JSON array.
fn emit_ids(out: &mut String, ids: &Vec<u32>)
    ensures
        final(out)@ == old(out)@ + enc_ids(ids@),
{
    push_char(out, '[');
    proof {
        assert(ids@.take(0) =~= Seq::<u32>::empty());
        assert(out@ =~= old(out)@ + seq!['['] + enc_ids_body(ids@.take(0)));
    }
    let n = ids.len();
    let mut i: usize = 0;
    while i < n
        invariant
            n == ids.len(),
            i <= n,
            out@ == old(out)@ + seq!['['] + enc_ids_body(ids@.take(i as int)),
        decreases n - i,
    {
        if i > 0 {
            push_char(out, ',');
        }
        emit_u32(out, ids[i]);
        proof {
            assert(ids@.take(i + 1) =~= ids@.take(i as int).push(ids@[i as int]));
            lemma_enc_ids_body_snoc(ids@.take(i as int), ids@[i as int]);
            assert(out@ =~= old(out)@ + seq!['['] + enc_ids_body(ids@.take(i + 1)));
        }
        i += 1;
    }
    push_char(out, ']');
    proof {
        assert(ids@.take(n as int) =~= ids@);
        assert(final(out)@ =~= old(out)@ + enc_ids(ids@));
    }
}

/// Appends a quoted key and its colon.
fn emit_key_name(out: &mut String)
    ensures
        final(out)@ == old(out)@ + key_name() + seq![':'],
{
    push_char(out, '"');
    push_char(out, 'n');
    push_char(out, 'a');
    push_char(out, 'm');
    push_char(out, 'e');
    push_char(out, '"');
    push_char(out, ':');
    proof {
        assert(final(out)@ =~= old(out)@ + key_name() + seq![':']);
    }
}

/// Appends a quoted key and its colon.
fn emit_key_description(out: &mut String)
    ensures
        final(out)@ == old(out)@ + key_description() + seq![':'],
{
    push_char(out, '"');
    push_char(out, 'd');
    push_char(out, 'e');
    push_char(out, 's');
    push_char(out, 'c');
    push_char(out, 'r');
    push_char(out, 'i');
    push_char(out, 'p');
    push_char(out, 't');
    push_char(out, 'i');
    push_char(out, 'o');
    push_char(out, 'n');
    push_char(out, '"');
    push_char(out, ':');
    proof {
        assert(final(out)@ =~= old(out)@ + key_description() + seq![':']);
    }
}

/// Appends a quoted key and its colon.
fn emit_key_status(out: &mut String)
    ensures
        final(out)@ == old(out)@ + key_status() + seq![':'],
{
    push_char(out, '"');
    push_char(out, 's');
    push_char(out, 't');
    push_char(out, 'a');
    push_char(out, 't');
    push_char(out, 'u');
    push_char(out, 's');
    push_char(out, '"');
    push_char(out, ':');
    proof {
        assert(final(out)@ =~= old(out)@ + key_status() + seq![':']);
    }
}

/// Appends a quoted key and its colon.
fn emit_key_stories(out: &mut String)
    ensures
        final(out)@ == old(out)@ + key_stories() + seq![':'],
{
    push_char(out, '"');
    push_char(out, 's');
    push_char(out, 't');
    push_char(out, 'o');
    push_char(out, 'r');
    push_char(out, 'i');
    push_char(out, 'e');
    push_char(out, 's');
    push_char(out, '"');
    push_char(out, ':');
    proof {
        assert(final(out)@ =~= old(out)@ + key_stories() + seq![':']);
    }
}

/// Appends a quoted key and its colon.
fn emit_key_last_item_id(out: &mut String)
    ensures
        final(out)@ == old(out)@ + key_last_item_id() + seq![':'],
{
    push_char(out, '"');
    push_char(out, 'l');
    push_char(out, 'a');
    push_char(out, 's');
    push_char(out, 't');
    push_char(out, '_');
    push_char(out, 'i');
    push_char(out, 't');
    push_char(out, 'e');
    push_char(out, 'm');
    push_char(out, '_');
    push_char(out, 'i');
    push_char(out, 'd');
    push_char(out, '"');
    push_char(out, ':');
    proof {
        assert(final(out)@ =~= old(out)@ + key_last_item_id() + seq![':']);
    }
}

/// Appends a quoted key and its colon.
fn emit_key_epics(out: &mut String)
    ensures
        final(out)@ == old(out)@ + key_epics() + seq![':'],
{
    push_char(out, '"');
    push_char(out, 'e');
    push_char(out, 'p');
    push_char(out, 'i');
    push_char(out, 'c');
    push_char(out, 's');
    push_char(out, '"');
    push_char(out, ':');
    proof {
        assert(final(out)@ =~= old(out)@ + key_epics() + seq![':']);
    }
}

/// Appends one epic as a JSON object.
fn emit_epic(out: &mut String, e: &Epic)
    ensures
        final(out)@ == old(out)@ + enc_epic(e@),
{
    push_char(out, '{');
    emit_key_name(out);
    emit_string(out, &e.name);
    push_char(out, ',');
    emit_key_description(out);
    emit_string(out, &e.description);
    push_char(out, ',');
    emit_key_status(out);
    emit_status(out, &e.status);
    push_char(out, ',');
    emit_key_stories(out);
    emit_ids(out, &e.stories);
    push_char(out, '}');
    proof {
        assert(final(out)@ =~= old(out)@ + enc_epic(e@));
    }
}

/// Appends one story as a JSON object.
fn emit_story(out: &mut String, st: &Story)
    ensures
        final(out)@ == old(out)@ + enc_story(st@),
{
    push_char(out, '{');
    emit_key_name(out);
    emit_string(out, &st.name);
    push_char(out, ',');
    emit_key_description(out);
    emit_string(out, &st.description);
    push_char(out, ',');
    emit_key_status(out);
    emit_status(out, &st.status);
    push_char(out, '}');
    proof {
        assert(final(out)@ =~= old(out)@ + enc_story(st@));
    }
}

/// `epic_ids_in` extended by one id at the top.
proof fn lemma_epic_ids_in_snoc(m: Map<u32, EpicView>, lo: int, hi: int)
    requires
        0 <= lo <= hi,
        hi < 0x1_0000_0000,
    ensures
        m.contains_key(hi as u32) ==> epic_ids_in(m, lo, hi + 1) == epic_ids_in(m, lo, hi).push(
            hi as u32,
        ),
        !m.contains_key(hi as u32) ==> epic_ids_in(m, lo, hi + 1) == epic_ids_in(m, lo, hi),
    decreases hi - lo,
{
    if lo >= hi {
        assert(epic_ids_in(m, lo + 1, hi + 1) =~= Seq::<u32>::empty());
        if m.contains_key(hi as u32) {
            assert(epic_ids_in(m, lo, hi + 1) =~= epic_ids_in(m, lo, hi).push(hi as u32));
        } else {
            assert(epic_ids_in(m, lo, hi + 1) =~= epic_ids_in(m, lo, hi));
        }
    } else {
        lemma_epic_ids_in_snoc(m, lo + 1, hi);
        if m.contains_key(lo as u32) {
            if m.contains_key(hi as u32) {
                assert(epic_ids_in(m, lo, hi + 1) =~= epic_ids_in(m, lo, hi).push(hi as u32));
            }
        }
    }
}

/// `story_ids_in` extended by one id at the top.
proof fn lemma_story_ids_in_snoc(m: Map<u32, StoryView>, lo: int, hi: int)
    requires
        0 <= lo <= hi,
        hi < 0x1_0000_0000,
    ensures
        m.contains_key(hi as u32) ==> story_ids_in(m, lo, hi + 1) == story_ids_in(m, lo, hi).push(
            hi as u32,
        ),
        !m.contains_key(hi as u32) ==> story_ids_in(m, lo, hi + 1) == story_ids_in(m, lo, hi),
    decreases hi - lo,
{
    if lo >= hi {
        assert(story_ids_in(m, lo + 1, hi + 1) =~= Seq::<u32>::empty());
        if m.contains_key(hi as u32) {
            assert(story_ids_in(m, lo, hi + 1) =~= story_ids_in(m, lo, hi).push(hi as u32));
        } else {
            assert(story_ids_in(m, lo, hi + 1) =~= story_ids_in(m, lo, hi));
        }
    } else {
        lemma_story_ids_in_snoc(m, lo + 1, hi);
        if m.contains_key(lo as u32) {
            if m.contains_key(hi as u32) {
                assert(story_ids_in(m, lo, hi + 1) =~= story_ids_in(m, lo, hi).push(hi as u32));
            }
        }
    }
}

/// `enc_epic_entries` extended by one entry at the top.
proof fn lemma_enc_epic_entries_snoc(m: Map<u32, EpicView>, ids: Seq<u32>, x: u32)
    ensures
        ids.len() == 0 ==> enc_epic_entries(m, ids.push(x)) == enc_epic_entry(x, m[x]),
        ids.len() > 0 ==> enc_epic_entries(m, ids.push(x)) == enc_epic_entries(m, ids)
            + seq![','] + enc_epic_entry(x, m[x]),
    decreases ids.len(),
{
    let p = ids.push(x);
    if ids.len() == 0 {
        assert(p[0] == x);
    } else {
        lemma_enc_epic_entries_snoc(m, ids.drop_first(), x);
        assert(p.drop_first() =~= ids.drop_first().push(x));
        assert(p[0] == ids[0]);
        if ids.len() == 1 {
            assert(enc_epic_entries(m, p) =~= enc_epic_entries(m, ids) + seq![',']
                + enc_epic_entry(x, m[x]));
        } else {
            assert(enc_epic_entries(m, p) =~= enc_epic_entries(m, ids) + seq![',']
                + enc_epic_entry(x, m[x]));
        }
    }
}

/// `enc_story_entries` extended by one entry at the top.
proof fn lemma_enc_story_entries_snoc(m: Map<u32, StoryView>, ids: Seq<u32>, x: u32)
    ensures
        ids.len() == 0 ==> enc_story_entries(m, ids.push(x)) == enc_story_entry(x, m[x]),
        ids.len() > 0 ==> enc_story_entries(m, ids.push(x)) == enc_story_entries(m, ids)
            + seq![','] + enc_story_entry(x, m[x]),
    decreases ids.len(),
{
    let p = ids.push(x);
    if ids.len() == 0 {
        assert(p[0] == x);
    } else {
        lemma_enc_story_entries_snoc(m, ids.drop_first(), x);
        assert(p.drop_first() =~= ids.drop_first().push(x));
        assert(p[0] == ids[0]);
        if ids.len() == 1 {
            assert(enc_story_entries(m, p) =~= enc_story_entries(m, ids) + seq![',']
                + enc_story_entry(x, m[x]));
        } else {
            assert(enc_story_entries(m, p) =~= enc_story_entries(m, ids) + seq![',']
                + enc_story_entry(x, m[x]));
        }
    }
}

/// Appends the epic map as a JSON object, ids ascending up to `last`.
fn emit_epics(out: &mut String, epics: &std::collections::HashMap<u32, Epic>, last: u32)
    ensures
        final(out)@ == old(out)@ + enc_epics_obj(
            epics@.map_values(|e: Epic| e@),
            last,
        ),
{
    let ghost m = epics@.map_values(|e: Epic| e@);
    push_char(out, '{');
    proof {
        assert(epic_ids_in(m, 0, 0) =~= Seq::<u32>::empty());
        assert(out@ =~= old(out)@ + seq!['{'] + enc_epic_entries(m, epic_ids_in(m, 0, 0)));
    }
    let mut first: bool = true;
    let mut i: u64 = 0;
    while i <= last as u64
        invariant
            m == epics@.map_values(|e: Epic| e@),
            i <= last as u64 + 1,
            first <==> epic_ids_in(m, 0, i as int).len() == 0,
            out@ == old(out)@ + seq!['{'] + enc_epic_entries(m, epic_ids_in(m, 0, i as int)),
        decreases last as u64 + 1 - i,
    {
        let id = i as u32;
        let ghost ids = epic_ids_in(m, 0, i as int);
        proof {
            lemma_epic_ids_in_snoc(m, 0, i as int);
        }
        match epics.get(&id) {
            Some(e) => {
                proof {
                    assert(m.contains_key(id));
                    assert(m[id] == e@);
                    lemma_enc_epic_entries_snoc(m, ids, id);
                }
                if !first {
                    push_char(out, ',');
                }
                push_char(out, '"');
                emit_u32(out, id);
                push_char(out, '"');
                push_char(out, ':');
                emit_epic(out, e);
                first = false;
                proof {
                    assert(out@ =~= old(out)@ + seq!['{'] + enc_epic_entries(
                        m,
                        epic_ids_in(m, 0, i as int + 1),
                    ));
                }
            },
            None => {
                proof {
                    assert(!m.contains_key(id));
                }
            },
        }
        i = i + 1;
    }
    push_char(out, '}');
    proof {
        assert(final(out)@ =~= old(out)@ + enc_epics_obj(m, last));
    }
}

/// Appends the story map as a JSON object, ids ascending up to `last`.
fn emit_stories(out: &mut String, stories: &std::collections::HashMap<u32, Story>, last: u32)
    ensures
        final(out)@ == old(out)@ + enc_stories_obj(
            stories@.map_values(|s: Story| s@),
            last,
        ),
{
    let ghost m = stories@.map_values(|s: Story| s@);
    push_char(out, '{');
    proof {
        assert(story_ids_in(m, 0, 0) =~= Seq::<u32>::empty());
        assert(out@ =~= old(out)@ + seq!['{'] + enc_story_entries(m, story_ids_in(m, 0, 0)));
    }
    let mut first: bool = true;
    let mut i: u64 = 0;
    while i <= last as u64
        invariant
            m == stories@.map_values(|s: Story| s@),
            i <= last as u64 + 1,
            first <==> story_ids_in(m, 0, i as int).len() == 0,
            out@ == old(out)@ + seq!['{'] + enc_story_entries(m, story_ids_in(m, 0, i as int)),
        decreases last as u64 + 1 - i,
    {
        let id = i as u32;
        let ghost ids = story_ids_in(m, 0, i as int);
        proof {
            lemma_story_ids_in_snoc(m, 0, i as int);
        }
        match stories.get(&id) {
            Some(st) => {
                proof {
                    assert(m.contains_key(id));
                    assert(m[id] == st@);
                    lemma_enc_story_entries_snoc(m, ids, id);
                }
                if !first {
                    push_char(out, ',');
                }
                push_char(out, '"');
                emit_u32(out, id);
                push_char(out, '"');
                push_char(out, ':');
                emit_story(out, st);
                first = false;
                proof {
                    assert(out@ =~= old(out)@ + seq!['{'] + enc_story_entries(
                        m,
                        story_ids_in(m, 0, i as int + 1),
                    ));
                }
            },
            None => {
                proof {
                    assert(!m.contains_key(id));
                }
            },
        }
        i = i + 1;
    }
    push_char(out, '}');
    proof {
        assert(final(out)@ =~= old(out)@ + enc_stories_obj(m, last));
    }
}

/// The canonical text of a state: no whitespace, map entries in ascending
/// id order, strings escaped as JSON asks. Map entries under ids above
/// `last_item_id` are not emitted: a valid state has none, and for such a
/// state the text decodes back to exactly the state it came from.
pub fn encode_state(state: &DBState) -> (r: String)
    ensures
        r@ == enc_state(state@),
        crate::db::ids_bounded(state@) ==> decode_spec(r@) == Some(state@),
{
    let mut out = String::new();
    push_char(&mut out, '{');
    emit_key_last_item_id(&mut out);
    emit_u32(&mut out, state.last_item_id);
    push_char(&mut out, ',');
    emit_key_epics(&mut out);
    emit_epics(&mut out, &state.epics, state.last_item_id);
    push_char(&mut out, ',');
    emit_key_stories(&mut out);
    emit_stories(&mut out, &state.stories, state.last_item_id);
    push_char(&mut out, '}');
    proof {
        assert(out@ =~= enc_state(state@));
        if crate::db::ids_bounded(state@) {
            crate::roundtrip::lemma_encode_decode_roundtrip(state@);
        }
    }
    out
}

// ---------------------------------------------------------------------------
// The decoder's specification: recursive descent over the text
// ---------------------------------------------------------------------------
/// The first position at or after `i` holding a non-whitespace character.
pub open spec fn skip_ws(t: Seq<char>, i: int) -> int
    decreases t.len() - i,
{
    if 0 <= i < t.len() && is_ws(t[i]) {
        skip_ws(t, i + 1)
    } else {
        i
    }
}

/// Consumes whitespace, then the one expected character.
pub open spec fn p_lit(t: Seq<char>, i: int, c: char) -> Option<int> {
    let j = skip_ws(t, i);
    if j < t.len() && t[j] == c {
        Some(j + 1)
    } else {
        None
    }
}

/// Consumes the maximal run of digits from `i`, folding them onto `acc`;
/// yields the value and the position after the run.
pub open spec fn scan_digits(t: Seq<char>, i: int, acc: int) -> (int, int)
    decreases t.len() - i,
{
    if 0 <= i < t.len() && is_digit(t[i]) {
        scan_digits(t, i + 1, acc * 10 + digit_val(t[i]))
    } else {
        (acc, i)
    }
}

/// Consumes whitespace, then a number that fits an id or counter: one or
/// more decimal digits.
pub open spec fn p_u32_at(t: Seq<char>, i: int) -> Option<(u32, int)> {
    let j = skip_ws(t, i);
    if j < t.len() && is_digit(t[j]) {
        let (v, end) = scan_digits(t, j, 0);
        if v <= u32::MAX {
            Some((v as u32, end))
        } else {
            None
        }
    } else {
        None
    }
}

/// Whether the text holds exactly `pat` starting at `i`.
pub open spec fn matches_at(t: Seq<char>, i: int, pat: Seq<char>) -> bool {
    0 <= i && i + pat.len() <= t.len() && t.subrange(i, i + pat.len()) == pat
}

/// Consumes whitespace, a fixed quoted key, optional whitespace and the
/// colon after it.
pub open spec fn p_fixed_key(t: Seq<char>, i: int, pat: Seq<char>) -> Option<int> {
    let j = skip_ws(t, i);
    if matches_at(t, j, pat) {
        p_lit(t, j + pat.len(), ':')
    } else {
        None
    }
}

/// Four hexadecimal digits.
pub open spec fn p_hex4(t: Seq<char>, i: int) -> Option<int> {
    if 0 <= i && i + 4 <= t.len() && hex_val(t[i]) < 16 && hex_val(t[i + 1]) < 16 && hex_val(
        t[i + 2],
    ) < 16 && hex_val(t[i + 3]) < 16 {
        Some(
            hex_val(t[i]) * 0x1000 + hex_val(t[i + 1]) * 0x100 + hex_val(t[i + 2]) * 16 + hex_val(
                t[i + 3],
            ),
        )
    } else {
        None
    }
}

/// The body of a JSON string from `i` to its closing quote: raw characters,
/// two-character escapes, and `\u` escapes of Unicode scalar values
/// (a surrogate escape is rejected, paired or not).
pub open spec fn p_str_body(t: Seq<char>, i: int, acc: Seq<char>) -> Option<(Seq<char>, int)>
    decreases t.len() - i,
{
    if !(0 <= i < t.len()) {
        None
    } else if t[i] == '"' {
        Some((acc, i + 1))
    } else if t[i] == '\\' {
        if i + 1 < t.len() {
            let c = t[i + 1];
            if c == '"' {
                p_str_body(t, i + 2, acc.push('"'))
            } else if c == '\\' {
                p_str_body(t, i + 2, acc.push('\\'))
            } else if c == '/' {
                p_str_body(t, i + 2, acc.push('/'))
            } else if c == 'n' {
                p_str_body(t, i + 2, acc.push('\n'))
            } else if c == 't' {
                p_str_body(t, i + 2, acc.push('\t'))
            } else if c == 'r' {
                p_str_body(t, i + 2, acc.push('\r'))
            } else if c == 'b' {
                p_str_body(t, i + 2, acc.push('\u{8}'))
            } else if c == 'f' {
                p_str_body(t, i + 2, acc.push('\u{c}'))
            } else if c == 'u' {
                match p_hex4(t, i + 2) {
                    Some(v) => if is_scalar(v) {
                        p_str_body(t, i + 6, acc.push(char_of(v)))
                    } else {
                        None
                    },
                    None => None,
                }
            } else {
                None
            }
        } else {
            None
        }
    } else {
        p_str_body(t, i + 1, acc.push(t[i]))
    }
}

/// Consumes whitespace, then a JSON string.
pub open spec fn p_string_at(t: Seq<char>, i: int) -> Option<(Seq<char>, int)> {
    let j = skip_ws(t, i);
    if j < t.len() && t[j] == '"' {
        p_str_body(t, j + 1, Seq::<char>::empty())
    } else {
        None
    }
}

/// Consumes whitespace, then a status tag as a string.
pub open spec fn p_status_at(t: Seq<char>, i: int) -> Option<(Status, int)> {
    let j = skip_ws(t, i);
    if j < t.len() && t[j] == '"' {
        if matches_at(t, j + 1, tag_chars(Status::Open) + seq!['"']) {
            Some((Status::Open, j + 6))
        } else if matches_at(t, j + 1, tag_chars(Status::InProgress) + seq!['"']) {
            Some((Status::InProgress, j + 12))
        } else if matches_at(t, j + 1, tag_chars(Status::Resolved) + seq!['"']) {
            Some((Status::Resolved, j + 10))
        } else if matches_at(t, j + 1, tag_chars(Status::Closed) + seq!['"']) {
            Some((Status::Closed, j + 8))
        } else {
            None
        }
    } else {
        None
    }
}

/// The elements of a non-empty id array, from the position after `[` or a
/// comma. The position guard mirrors the termination argument: a parser
/// that failed to advance would mean a malformed text.
pub open spec fn p_ids_rest(t: Seq<char>, i: int, acc: Seq<u32>) -> Option<(Seq<u32>, int)>
    decreases t.len() - i,
{
    match p_u32_at(t, i) {
        None => None,
        Some((v, j)) => {
            let k = skip_ws(t, j);
            if !(i < k + 1 && k + 1 <= t.len()) {
                None
            } else if t[k] == ',' {
                p_ids_rest(t, k + 1, acc.push(v))
            } else if t[k] == ']' {
                Some((acc.push(v), k + 1))
            } else {
                None
            }
        },
    }
}

/// Consumes whitespace, then a JSON array of ids.
pub open spec fn p_ids_at(t: Seq<char>, i: int) -> Option<(Seq<u32>, int)> {
    match p_lit(t, i, '[') {
        None => None,
        Some(j) => {
            let k = skip_ws(t, j);
            if k < t.len() && t[k] == ']' {
                Some((Seq::<u32>::empty(), k + 1))
            } else {
                p_ids_rest(t, j, Seq::<u32>::empty())
            }
        },
    }
}

/// Consumes whitespace, then one epic object, its four keys in declaration
/// order.
pub open spec fn p_epic_at(t: Seq<char>, i: int) -> Option<(EpicView, int)> {
    match p_lit(t, i, '{') {
        None => None,
        Some(j0) => match p_fixed_key(t, j0, key_name()) {
            None => None,
            Some(j1) => match p_string_at(t, j1) {
                None => None,
                Some((name, j2)) => match p_lit(t, j2, ',') {
                    None => None,
                    Some(j3) => match p_fixed_key(t, j3, key_description()) {
                        None => None,
                        Some(j4) => match p_string_at(t, j4) {
                            None => None,
                            Some((description, j5)) => match p_lit(t, j5, ',') {
                                None => None,
                                Some(j6) => match p_fixed_key(t, j6, key_status()) {
                                    None => None,
                                    Some(j7) => match p_status_at(t, j7) {
                                        None => None,
                                        Some((status, j8)) => match p_lit(t, j8, ',') {
                                            None => None,
                                            Some(j9) => match p_fixed_key(t, j9, key_stories()) {
                                                None => None,
                                                Some(j10) => match p_ids_at(t, j10) {
                                                    None => None,
                                                    Some((stories, j11)) => match p_lit(
                                                        t,
                                                        j11,
                                                        '}',
                                                    ) {
                                                        None => None,
                                                        Some(j12) => Some(
                                                            (
                                                                EpicView {
                                                                    name,
                                                                    description,
                                                                    status,
                                                                    stories,
                                                                },
                                                                j12,
                                                            ),
                                                        ),
                                                    },
                                                },
                                            },
                                        },
                                    },
                                },
                            },
                        },
                    },
                },
            },
        },
    }
}

/// Consumes whitespace, then one story object, its three keys in
/// declaration order.
pub open spec fn p_story_at(t: Seq<char>, i: int) -> Option<(StoryView, int)> {
    match p_lit(t, i, '{') {
        None => None,
        Some(j0) => match p_fixed_key(t, j0, key_name()) {
            None => None,
            Some(j1) => match p_string_at(t, j1) {
                None => None,
                Some((name, j2)) => match p_lit(t, j2, ',') {
                    None => None,
                    Some(j3) => match p_fixed_key(t, j3, key_description()) {
                        None => None,
                        Some(j4) => match p_string_at(t, j4) {
                            None => None,
                            Some((description, j5)) => match p_lit(t, j5, ',') {
                                None => None,
                                Some(j6) => match p_fixed_key(t, j6, key_status()) {
                                    None => None,
                                    Some(j7) => match p_status_at(t, j7) {
                                        None => None,
                                        Some((status, j8)) => match p_lit(t, j8, '}') {
                                            None => None,
                                            Some(j9) => Some(
                                                (StoryView { name, description, status }, j9),
                                            ),
                                        },
                                    },
                                },
                            },
                        },
                    },
                },
            },
        },
    }
}

/// Consumes whitespace, then a map key: a quoted id with no whitespace
/// inside the quotes, and the colon after it.
pub open spec fn p_key_u32(t: Seq<char>, i: int) -> Option<(u32, int)> {
    let j = skip_ws(t, i);
    if j + 1 < t.len() && t[j] == '"' && is_digit(t[j + 1]) {
        let (v, end) = scan_digits(t, j + 1, 0);
        if v <= u32::MAX && end < t.len() && t[end] == '"' {
            match p_lit(t, end + 1, ':') {
                None => None,
                Some(k) => Some((v as u32, k)),
            }
        } else {
            None
        }
    } else {
        None
    }
}

/// The entries of a non-empty epic map, from the position after `{` or a
/// comma; a later entry under the same key overwrites the earlier one.
pub open spec fn p_epic_map_rest(t: Seq<char>, i: int, acc: Map<u32, EpicView>) -> Option<
    (Map<u32, EpicView>, int),
>
    decreases t.len() - i,
{
    match p_key_u32(t, i) {
        None => None,
        Some((id, j)) => match p_epic_at(t, j) {
            None => None,
            Some((e, j2)) => {
                let k = skip_ws(t, j2);
                if !(i < k + 1 && k + 1 <= t.len()) {
                    None
                } else if t[k] == ',' {
                    p_epic_map_rest(t, k + 1, acc.insert(id, e))
                } else if t[k] == '}' {
                    Some((acc.insert(id, e), k + 1))
                } else {
                    None
                }
            },
        },
    }
}

/// Consumes whitespace, then the epic map object.
pub open spec fn p_epic_map_at(t: Seq<char>, i: int) -> Option<(Map<u32, EpicView>, int)> {
    match p_lit(t, i, '{') {
        None => None,
        Some(j) => {
            let k = skip_ws(t, j);
            if k < t.len() && t[k] == '}' {
                Some((Map::<u32, EpicView>::empty(), k + 1))
            } else {
                p_epic_map_rest(t, j, Map::<u32, EpicView>::empty())
            }
        },
    }
}

/// The entries of a non-empty story map, from the position after `{` or a
/// comma; a later entry under the same key overwrites the earlier one.
pub open spec fn p_story_map_rest(t: Seq<char>, i: int, acc: Map<u32, StoryView>) -> Option<
    (Map<u32, StoryView>, int),
>
    decreases t.len() - i,
{
    match p_key_u32(t, i) {
        None => None,
        Some((id, j)) => match p_story_at(t, j) {
            None => None,
            Some((st, j2)) => {
                let k = skip_ws(t, j2);
                if !(i < k + 1 && k + 1 <= t.len()) {
                    None
                } else if t[k] == ',' {
                    p_story_map_rest(t, k + 1, acc.insert(id, st))
                } else if t[k] == '}' {
                    Some((acc.insert(id, st), k + 1))
                } else {
                    None
                }
            },
        },
    }
}

/// Consumes whitespace, then the story map object.
pub open spec fn p_story_map_at(t: Seq<char>, i: int) -> Option<(Map<u32, StoryView>, int)> {
    match p_lit(t, i, '{') {
        None => None,
        Some(j) => {
            let k = skip_ws(t, j);
            if k < t.len() && t[k] == '}' {
                Some((Map::<u32, StoryView>::empty(), k + 1))
            } else {
                p_story_map_rest(t, j, Map::<u32, StoryView>::empty())
            }
        },
    }
}

/// Consumes whitespace, then the one state object, its three keys in
/// declaration order.
pub open spec fn p_state_at(t: Seq<char>, i: int) -> Option<(StateView, int)> {
    match p_lit(t, i, '{') {
        None => None,
        Some(j0) => match p_fixed_key(t, j0, key_last_item_id()) {
            None => None,
            Some(j1) => match p_u32_at(t, j1) {
                None => None,
                Some((last_item_id, j2)) => match p_lit(t, j2, ',') {
                    None => None,
                    Some(j3) => match p_fixed_key(t, j3, key_epics()) {
                        None => None,
                        Some(j4) => match p_epic_map_at(t, j4) {
                            None => None,
                            Some((epics, j5)) => match p_lit(t, j5, ',') {
                                None => None,
                                Some(j6) => match p_fixed_key(t, j6, key_stories()) {
                                    None => None,
                                    Some(j7) => match p_story_map_at(t, j7) {
                                        None => None,
                                        Some((stories, j8)) => match p_lit(t, j8, '}') {
                                            None => None,
                                            Some(j9) => Some(
                                                (StateView { last_item_id, epics, stories }, j9),
                                            ),
                                        },
                                    },
                                },
                            },
                        },
                    },
                },
            },
        },
    }
}

/// What the whole text decodes to: the state object followed by nothing but
/// whitespace, or nothing.
pub open spec fn decode_spec(t: Seq<char>) -> Option<StateView> {
    match p_state_at(t, 0) {
        None => None,
        Some((s, end)) => if skip_ws(t, end) == t.len() {
            Some(s)
        } else {
            None
        },
    }
}

// ---------------------------------------------------------------------------
// Executable decoder
// ---------------------------------------------------------------------------
/// Whether the character is whitespace the decoder skips.
fn is_ws_exec(c: char) -> (r: bool)
    ensures
        r == is_ws(c),
{
    c == ' ' || c == '\n' || c == '\t' || c == '\r'
}

/// Whether the character is a decimal digit.
fn is_digit_exec(c: char) -> (r: bool)
    ensures
        r == is_digit(c),
{
    let v = c as u32;
    '0' as u32 <= v && v <= '9' as u32
}

/// The value of a hexadecimal digit character; 16 where it is none.
fn hex_val_exec(c: char) -> (r: u32)
    ensures
        r as int == hex_val(c),
{
    if is_digit_exec(c) {
        c as u32 - '0' as u32
    } else if c == 'a' || c == 'A' {
        10
    } else if c == 'b' || c == 'B' {
        11
    } else if c == 'c' || c == 'C' {
        12
    } else if c == 'd' || c == 'D' {
        13
    } else if c == 'e' || c == 'E' {
        14
    } else if c == 'f' || c == 'F' {
        15
    } else {
        16
    }
}

/// The first non-whitespace position at or after `i`.
fn d_skip_ws(t: &Vec<char>, i: usize) -> (r: usize)
    requires
        i <= t@.len(),
    ensures
        r as int == skip_ws(t@, i as int),
        i <= r <= t@.len(),
{
    let mut k = i;
    while k < t.len() && is_ws_exec(t[k])
        invariant
            i <= k <= t@.len(),
            skip_ws(t@, i as int) == skip_ws(t@, k as int),
        decreases t@.len() - k,
    {
        k = k + 1;
    }
    k
}

/// Consumes whitespace, then the one expected character.
fn d_lit(t: &Vec<char>, i: usize, c: char) -> (r: Option<usize>)
    requires
        i <= t@.len(),
    ensures
        (r matches Some(j) ==> p_lit(t@, i as int, c) == Some(j as int) && i <= j <= t@.len()),
        (r is None ==> p_lit(t@, i as int, c) is None),
{
    let j = d_skip_ws(t, i);
    if j < t.len() && t[j] == c {
        Some(j + 1)
    } else {
        None
    }
}

/// Consumes whitespace, then one or more decimal digits.
fn d_u32(t: &Vec<char>, i: usize) -> (r: Option<(u32, usize)>)
    requires
        i <= t@.len(),
    ensures
        (r matches Some(p) ==> p_u32_at(t@, i as int) == Some((p.0, p.1 as int)) && i <= p.1
            <= t@.len()),
        (r is None ==> p_u32_at(t@, i as int) is None),
{
    let j = d_skip_ws(t, i);
    if j < t.len() && is_digit_exec(t[j]) {
        let mut k = j;
        let mut acc: u64 = 0;
        let ghost mut tv: int = 0int;
        while k < t.len() && is_digit_exec(t[k])
            invariant
                j <= k <= t@.len(),
                scan_digits(t@, j as int, 0) == scan_digits(t@, k as int, tv),
                tv >= 0,
                (tv <= u32::MAX && acc == tv) || (tv > u32::MAX && acc > u32::MAX),
            decreases t@.len() - k,
        {
            let d = t[k] as u32 - '0' as u32;
            proof {
                assert(digit_val(t@[k as int]) == d);
                assert(tv * 10 + d >= tv) by (nonlinear_arith)
                    requires
                        tv >= 0,
                        d >= 0,
                ;
                tv = tv * 10 + d;
            }
            if acc <= u32::MAX as u64 {
                acc = acc * 10 + d as u64;
            }
            k = k + 1;
        }
        proof {
            assert(scan_digits(t@, k as int, tv) == (tv, k as int));
        }
        if acc <= u32::MAX as u64 {
            Some((acc as u32, k))
        } else {
            None
        }
    } else {
        None
    }
}

/// Consumes whitespace, then a map key: a quoted id and its colon.
fn d_key_u32(t: &Vec<char>, i: usize) -> (r: Option<(u32, usize)>)
    requires
        i <= t@.len(),
    ensures
        (r matches Some(p) ==> p_key_u32(t@, i as int) == Some((p.0, p.1 as int)) && i <= p.1
            <= t@.len()),
        (r is None ==> p_key_u32(t@, i as int) is None),
{
    let j = d_skip_ws(t, i);
    if j < t.len() && t.len() - j > 1 && t[j] == '"' && is_digit_exec(t[j + 1]) {
        let mut k = j + 1;
        let mut acc: u64 = 0;
        let ghost mut tv: int = 0int;
        while k < t.len() && is_digit_exec(t[k])
            invariant
                j + 1 <= k <= t@.len(),
                scan_digits(t@, j as int + 1, 0) == scan_digits(t@, k as int, tv),
                tv >= 0,
                (tv <= u32::MAX && acc == tv) || (tv > u32::MAX && acc > u32::MAX),
            decreases t@.len() - k,
        {
            let d = t[k] as u32 - '0' as u32;
            proof {
                assert(digit_val(t@[k as int]) == d);
                assert(tv * 10 + d >= tv) by (nonlinear_arith)
                    requires
                        tv >= 0,
                        d >= 0,
                ;
                tv = tv * 10 + d;
            }
            if acc <= u32::MAX as u64 {
                acc = acc * 10 + d as u64;
            }
            k = k + 1;
        }
        proof {
            assert(scan_digits(t@, k as int, tv) == (tv, k as int));
        }
        if acc <= u32::MAX as u64 && k < t.len() && t[k] == '"' {
            match d_lit(t, k + 1, ':') {
                Some(m) => Some((acc as u32, m)),
                None => None,
            }
        } else {
            None
        }
    } else {
        None
    }
}

/// Consumes whitespace, then a JSON string; yields its unescaped value.
fn d_string(t: &Vec<char>, i: usize) -> (r: Option<(String, usize)>)
    requires
        i <= t@.len(),
    ensures
        (r matches Some(p) ==> p_string_at(t@, i as int) == Some((p.0@, p.1 as int)) && i <= p.1
            <= t@.len()),
        (r is None ==> p_string_at(t@, i as int) is None),
{
    let j = d_skip_ws(t, i);
    if j < t.len() && t[j] == '"' {
        let mut k = j + 1;
        let mut out = String::new();
        proof {
            assert(p_string_at(t@, i as int) == p_str_body(t@, j as int + 1, Seq::<char>::empty()));
        }
        loop
            invariant
                k <= t@.len(),
                p_string_at(t@, i as int) == p_str_body(t@, k as int, out@),
                i <= t@.len(),
                i <= k,
            decreases t@.len() - k,
        {
            if k >= t.len() {
                return None;
            }
            let c = t[k];
            if c == '"' {
                return Some((out, k + 1));
            } else if c == '\\' {
                if t.len() - k < 2 {
                    return None;
                }
                let e = t[k + 1];
                if e == '"' {
                    push_char(&mut out, '"');
                    k = k + 2;
                } else if e == '\\' {
                    push_char(&mut out, '\\');
                    k = k + 2;
                } else if e == '/' {
                    push_char(&mut out, '/');
                    k = k + 2;
                } else if e == 'n' {
                    push_char(&mut out, '\n');
                    k = k + 2;
                } else if e == 't' {
                    push_char(&mut out, '\t');
                    k = k + 2;
                } else if e == 'r' {
                    push_char(&mut out, '\r');
                    k = k + 2;
                } else if e == 'b' {
                    push_char(&mut out, '\u{8}');
                    k = k + 2;
                } else if e == 'f' {
                    push_char(&mut out, '\u{c}');
                    k = k + 2;
                } else if e == 'u' {
                    if t.len() - k < 6 {
                        proof {
                            assert(p_hex4(t@, k as int + 2) is None);
                        }
                        return None;
                    }
                    let h0 = hex_val_exec(t[k + 2]);
                    let h1 = hex_val_exec(t[k + 3]);
                    let h2 = hex_val_exec(t[k + 4]);
                    let h3 = hex_val_exec(t[k + 5]);
                    if h0 < 16 && h1 < 16 && h2 < 16 && h3 < 16 {
                        let v = h0 * 0x1000 + h1 * 0x100 + h2 * 16 + h3;
                        match char_from_u32(v) {
                            Some(c2) => {
                                proof {
                                    lemma_char_of_cast(c2);
                                    assert(char_of(v as int) == c2);
                                }
                                push_char(&mut out, c2);
                                k = k + 6;
                            },
                            None => {
                                return None;
                            },
                        }
                    } else {
                        return None;
                    }
                } else {
                    return None;
                }
            } else {
                push_char(&mut out, c);
                k = k + 1;
            }
        }
    } else {
        None
    }
}

/// A match of the `Open` tag pins the text down.
pub(crate) proof fn lemma_pin_open(t: Seq<char>, p: int)
    requires
        matches_at(t, p, tag_chars(Status::Open) + seq!['"']),
    ensures
        t.len() >= p + 5,
        t[p + 0] == 'O',
        t[p + 1] == 'p',
        t[p + 2] == 'e',
        t[p + 3] == 'n',
        t[p + 4] == '"',
{
    let pat = tag_chars(Status::Open) + seq!['"'];
    assert(pat[0] == 'O');
    assert(pat[1] == 'p');
    assert(pat[2] == 'e');
    assert(pat[3] == 'n');
    assert(pat[4] == '"');
    lemma_matches_at_index(t, p, pat, 0);
    lemma_matches_at_index(t, p, pat, 1);
    lemma_matches_at_index(t, p, pat, 2);
    lemma_matches_at_index(t, p, pat, 3);
    lemma_matches_at_index(t, p, pat, 4);
}

/// A match of the `InProgress` tag pins the text down.
pub(crate) proof fn lemma_pin_inprogress(t: Seq<char>, p: int)
    requires
        matches_at(t, p, tag_chars(Status::InProgress) + seq!['"']),
    ensures
        t.len() >= p + 11,
        t[p + 0] == 'I',
        t[p + 1] == 'n',
        t[p + 2] == 'P',
        t[p + 3] == 'r',
        t[p + 4] == 'o',
        t[p + 5] == 'g',
        t[p + 6] == 'r',
        t[p + 7] == 'e',
        t[p + 8] == 's',
        t[p + 9] == 's',
        t[p + 10] == '"',
{
    let pat = tag_chars(Status::InProgress) + seq!['"'];
    assert(pat[0] == 'I');
    assert(pat[1] == 'n');
    assert(pat[2] == 'P');
    assert(pat[3] == 'r');
    assert(pat[4] == 'o');
    assert(pat[5] == 'g');
    assert(pat[6] == 'r');
    assert(pat[7] == 'e');
    assert(pat[8] == 's');
    assert(pat[9] == 's');
    assert(pat[10] == '"');
    lemma_matches_at_index(t, p, pat, 0);
    lemma_matches_at_index(t, p, pat, 1);
    lemma_matches_at_index(t, p, pat, 2);
    lemma_matches_at_index(t, p, pat, 3);
    lemma_matches_at_index(t, p, pat, 4);
    lemma_matches_at_index(t, p, pat, 5);
    lemma_matches_at_index(t, p, pat, 6);
    lemma_matches_at_index(t, p, pat, 7);
    lemma_matches_at_index(t, p, pat, 8);
    lemma_matches_at_index(t, p, pat, 9);
    lemma_matches_at_index(t, p, pat, 10);
}

/// A match of the `Resolved` tag pins the text down.
pub(crate) proof fn lemma_pin_resolved(t: Seq<char>, p: int)
    requires
        matches_at(t, p, tag_chars(Status::Resolved) + seq!['"']),
    ensures
        t.len() >= p + 9,
        t[p + 0] == 'R',
        t[p + 1] == 'e',
        t[p + 2] == 's',
        t[p + 3] == 'o',
        t[p + 4] == 'l',
        t[p + 5] == 'v',
        t[p + 6] == 'e',
        t[p + 7] == 'd',
        t[p + 8] == '"',
{
    let pat = tag_chars(Status::Resolved) + seq!['"'];
    assert(pat[0] == 'R');
    assert(pat[1] == 'e');
    assert(pat[2] == 's');
    assert(pat[3] == 'o');
    assert(pat[4] == 'l');
    assert(pat[5] == 'v');
    assert(pat[6] == 'e');
    assert(pat[7] == 'd');
    assert(pat[8] == '"');
    lemma_matches_at_index(t, p, pat, 0);
    lemma_matches_at_index(t, p, pat, 1);
    lemma_matches_at_index(t, p, pat, 2);
    lemma_matches_at_index(t, p, pat, 3);
    lemma_matches_at_index(t, p, pat, 4);
    lemma_matches_at_index(t, p, pat, 5);
    lemma_matches_at_index(t, p, pat, 6);
    lemma_matches_at_index(t, p, pat, 7);
    lemma_matches_at_index(t, p, pat, 8);
}

/// A match of the `Closed` tag pins the text down.
pub(crate) proof fn lemma_pin_closed(t: Seq<char>, p: int)
    requires
        matches_at(t, p, tag_chars(Status::Closed) + seq!['"']),
    ensures
        t.len() >= p + 7,
        t[p + 0] == 'C',
        t[p + 1] == 'l',
        t[p + 2] == 'o',
        t[p + 3] == 's',
        t[p + 4] == 'e',
        t[p + 5] == 'd',
        t[p + 6] == '"',
{
    let pat = tag_chars(Status::Closed) + seq!['"'];
    assert(pat[0] == 'C');
    assert(pat[1] == 'l');
    assert(pat[2] == 'o');
    assert(pat[3] == 's');
    assert(pat[4] == 'e');
    assert(pat[5] == 'd');
    assert(pat[6] == '"');
    lemma_matches_at_index(t, p, pat, 0);
    lemma_matches_at_index(t, p, pat, 1);
    lemma_matches_at_index(t, p, pat, 2);
    lemma_matches_at_index(t, p, pat, 3);
    lemma_matches_at_index(t, p, pat, 4);
    lemma_matches_at_index(t, p, pat, 5);
    lemma_matches_at_index(t, p, pat, 6);
}

/// From a match of the whole pattern, the character at one offset.
pub(crate) proof fn lemma_matches_at_index(t: Seq<char>, i: int, pat: Seq<char>, k: int)
    requires
        matches_at(t, i, pat),
        0 <= k < pat.len(),
    ensures
        t[i + k] == pat[k],
{
    assert(t.subrange(i, i + pat.len())[k] == t[i + k]);
}
/// Consumes whitespace, then a status tag as a string.
fn d_status(t: &Vec<char>, i: usize) -> (r: Option<(Status, usize)>)
    requires
        i <= t@.len(),
    ensures
        (r matches Some(p) ==> p_status_at(t@, i as int) == Some((p.0, p.1 as int)) && i <= p.1
            <= t@.len()),
        (r is None ==> p_status_at(t@, i as int) is None),
{
    let ghost open_pat = tag_chars(Status::Open) + seq!['"'];
    let ghost inprogress_pat = tag_chars(Status::InProgress) + seq!['"'];
    let ghost resolved_pat = tag_chars(Status::Resolved) + seq!['"'];
    let ghost closed_pat = tag_chars(Status::Closed) + seq!['"'];
    let j = d_skip_ws(t, i);
    if j < t.len() {
        proof {
            if matches_at(t@, j as int + 1, open_pat) {
                lemma_pin_open(t@, j as int + 1);
            }
            if matches_at(t@, j as int + 1, inprogress_pat) {
                lemma_pin_inprogress(t@, j as int + 1);
            }
            if matches_at(t@, j as int + 1, resolved_pat) {
                lemma_pin_resolved(t@, j as int + 1);
            }
            if matches_at(t@, j as int + 1, closed_pat) {
                lemma_pin_closed(t@, j as int + 1);
            }
        }
    }
    if j < t.len() && t[j] == '"' {
        if t.len() - j >= 6 && t[j + 1] == 'O' && t[j + 2] == 'p' && t[j + 3] == 'e' && t[j + 4]
            == 'n' && t[j + 5] == '"' {
            proof {
                assert(t@.subrange(j + 1, j as int + 6) =~= open_pat);
            }
            Some((Status::Open, j + 6))
        } else if t.len() - j >= 12 && t[j + 1] == 'I' && t[j + 2] == 'n' && t[j + 3] == 'P'
            && t[j + 4] == 'r' && t[j + 5] == 'o' && t[j + 6] == 'g' && t[j + 7] == 'r' && t[j + 8]
            == 'e' && t[j + 9] == 's' && t[j + 10] == 's' && t[j + 11] == '"' {
            proof {
                assert(t@.subrange(j + 1, j as int + 12) =~= inprogress_pat);
                assert(!matches_at(t@, j as int + 1, open_pat));
            }
            Some((Status::InProgress, j + 12))
        } else if t.len() - j >= 10 && t[j + 1] == 'R' && t[j + 2] == 'e' && t[j + 3] == 's'
            && t[j + 4] == 'o' && t[j + 5] == 'l' && t[j + 6] == 'v' && t[j + 7] == 'e' && t[j + 8]
            == 'd' && t[j + 9] == '"' {
            proof {
                assert(t@.subrange(j + 1, j as int + 10) =~= resolved_pat);
                assert(!matches_at(t@, j as int + 1, open_pat));
                assert(!matches_at(t@, j as int + 1, inprogress_pat));
            }
            Some((Status::Resolved, j + 10))
        } else if t.len() - j >= 8 && t[j + 1] == 'C' && t[j + 2] == 'l' && t[j + 3] == 'o'
            && t[j + 4] == 's' && t[j + 5] == 'e' && t[j + 6] == 'd' && t[j + 7] == '"' {
            proof {
                assert(t@.subrange(j + 1, j as int + 8) =~= closed_pat);
                assert(!matches_at(t@, j as int + 1, open_pat));
                assert(!matches_at(t@, j as int + 1, inprogress_pat));
                assert(!matches_at(t@, j as int + 1, resolved_pat));
            }
            Some((Status::Closed, j + 8))
        } else {
            proof {
                assert(!matches_at(t@, j as int + 1, open_pat));
                assert(!matches_at(t@, j as int + 1, inprogress_pat));
                assert(!matches_at(t@, j as int + 1, resolved_pat));
                assert(!matches_at(t@, j as int + 1, closed_pat));
            }
            None
        }
    } else {
        None
    }
}

/// Consumes whitespace, then a JSON array of ids.
fn d_ids(t: &Vec<char>, i: usize) -> (r: Option<(Vec<u32>, usize)>)
    requires
        i <= t@.len(),
    ensures
        (r matches Some(p) ==> p_ids_at(t@, i as int) == Some((p.0@, p.1 as int)) && i <= p.1
            <= t@.len()),
        (r is None ==> p_ids_at(t@, i as int) is None),
{
    let j = match d_lit(t, i, '[') {
        Some(j) => j,
        None => {
            return None;
        },
    };
    let k0 = d_skip_ws(t, j);
    if k0 < t.len() && t[k0] == ']' {
        let empty: Vec<u32> = Vec::new();
        proof {
            assert(empty@ =~= Seq::<u32>::empty());
        }
        return Some((empty, k0 + 1));
    }
    let mut pos = j;
    let mut acc: Vec<u32> = Vec::new();
    proof {
        assert(p_ids_at(t@, i as int) == p_ids_rest(t@, j as int, Seq::<u32>::empty()));
        assert(acc@ =~= Seq::<u32>::empty());
    }
    loop
        invariant
            i <= pos <= t@.len(),
            p_ids_at(t@, i as int) == p_ids_rest(t@, pos as int, acc@),
        decreases t@.len() - pos,
    {
        let (v, j2) = match d_u32(t, pos) {
            Some(p) => p,
            None => {
                return None;
            },
        };
        let k = d_skip_ws(t, j2);
        if !(pos <= k && k < t.len()) {
            return None;
        }
        if t[k] == ',' {
            acc.push(v);
            pos = k + 1;
        } else if t[k] == ']' {
            acc.push(v);
            return Some((acc, k + 1));
        } else {
            return None;
        }
    }
}

/// Whether the text holds exactly the pattern starting at `i`.
fn d_match(t: &Vec<char>, i: usize, pat: &Vec<char>) -> (r: bool)
    requires
        i <= t@.len(),
    ensures
        r == matches_at(t@, i as int, pat@),
{
    let tl = t.len();
    if tl - i < pat.len() {
        return false;
    }
    let n = pat.len();
    let mut k: usize = 0;
    while k < n
        invariant
            k <= n,
            n == pat@.len(),
            i + n <= tl,
            tl == t@.len(),
            forall|q: int| 0 <= q < k ==> t@[i + q] == pat@[q],
        decreases n - k,
    {
        if t[i + k] != pat[k] {
            proof {
                if matches_at(t@, i as int, pat@) {
                    lemma_matches_at_index(t@, i as int, pat@, k as int);
                }
            }
            return false;
        }
        k = k + 1;
    }
    proof {
        assert(t@.subrange(i as int, i + pat@.len()) =~= pat@);
    }
    true
}

/// The characters of the quoted key `"name"`.
fn key_name_vec() -> (r: Vec<char>)
    ensures
        r@ == key_name(),
{
    let mut out: Vec<char> = Vec::new();
    out.push('\"');
    out.push('n');
    out.push('a');
    out.push('m');
    out.push('e');
    out.push('\"');
    proof {
        assert(out@ =~= key_name());
    }
    out
}

/// Consumes whitespace, the quoted key `"name"` and its colon.
fn d_key_name(t: &Vec<char>, i: usize) -> (r: Option<usize>)
    requires
        i <= t@.len(),
    ensures
        (r matches Some(j) ==> p_fixed_key(t@, i as int, key_name()) == Some(j as int) && i <= j
            <= t@.len()),
        (r is None ==> p_fixed_key(t@, i as int, key_name()) is None),
{
    let pat = key_name_vec();
    let j = d_skip_ws(t, i);
    if d_match(t, j, &pat) {
        let tl = t.len();
        proof {
            assert(j + pat@.len() <= tl);
        }
        d_lit(t, j + pat.len(), ':')
    } else {
        None
    }
}

/// The characters of the quoted key `"description"`.
fn key_description_vec() -> (r: Vec<char>)
    ensures
        r@ == key_description(),
{
    let mut out: Vec<char> = Vec::new();
    out.push('\"');
    out.push('d');
    out.push('e');
    out.push('s');
    out.push('c');
    out.push('r');
    out.push('i');
    out.push('p');
    out.push('t');
    out.push('i');
    out.push('o');
    out.push('n');
    out.push('\"');
    proof {
        assert(out@ =~= key_description());
    }
    out
}

/// Consumes whitespace, the quoted key `"description"` and its colon.
fn d_key_description(t: &Vec<char>, i: usize) -> (r: Option<usize>)
    requires
        i <= t@.len(),
    ensures
        (r matches Some(j) ==> p_fixed_key(t@, i as int, key_description()) == Some(j as int) && i <= j
            <= t@.len()),
        (r is None ==> p_fixed_key(t@, i as int, key_description()) is None),
{
    let pat = key_description_vec();
    let j = d_skip_ws(t, i);
    if d_match(t, j, &pat) {
        let tl = t.len();
        proof {
            assert(j + pat@.len() <= tl);
        }
        d_lit(t, j + pat.len(), ':')
    } else {
        None
    }
}

/// The characters of the quoted key `"status"`.
fn key_status_vec() -> (r: Vec<char>)
    ensures
        r@ == key_status(),
{
    let mut out: Vec<char> = Vec::new();
    out.push('\"');
    out.push('s');
    out.push('t');
    out.push('a');
    out.push('t');
    out.push('u');
    out.push('s');
    out.push('\"');
    proof {
        assert(out@ =~= key_status());
    }
    out
}

/// Consumes whitespace, the quoted key `"status"` and its colon.
fn d_key_status(t: &Vec<char>, i: usize) -> (r: Option<usize>)
    requires
        i <= t@.len(),
    ensures
        (r matches Some(j) ==> p_fixed_key(t@, i as int, key_status()) == Some(j as int) && i <= j
            <= t@.len()),
        (r is None ==> p_fixed_key(t@, i as int, key_status()) is None),
{
    let pat = key_status_vec();
    let j = d_skip_ws(t, i);
    if d_match(t, j, &pat) {
        let tl = t.len();
        proof {
            assert(j + pat@.len() <= tl);
        }
        d_lit(t, j + pat.len(), ':')
    } else {
        None
    }
}

/// The characters of the quoted key `"stories"`.
fn key_stories_vec() -> (r: Vec<char>)
    ensures
        r@ == key_stories(),
{
    let mut out: Vec<char> = Vec::new();
    out.push('\"');
    out.push('s');
    out.push('t');
    out.push('o');
    out.push('r');
    out.push('i');
    out.push('e');
    out.push('s');
    out.push('\"');
    proof {
        assert(out@ =~= key_stories());
    }
    out
}

/// Consumes whitespace, the quoted key `"stories"` and its colon.
fn d_key_stories(t: &Vec<char>, i: usize) -> (r: Option<usize>)
    requires
        i <= t@.len(),
    ensures
        (r matches Some(j) ==> p_fixed_key(t@, i as int, key_stories()) == Some(j as int) && i <= j
            <= t@.len()),
        (r is None ==> p_fixed_key(t@, i as int, key_stories()) is None),
{
    let pat = key_stories_vec();
    let j = d_skip_ws(t, i);
    if d_match(t, j, &pat) {
        let tl = t.len();
        proof {
            assert(j + pat@.len() <= tl);
        }
        d_lit(t, j + pat.len(), ':')
    } else {
        None
    }
}

/// The characters of the quoted key `"last_item_id"`.
fn key_last_item_id_vec() -> (r: Vec<char>)
    ensures
        r@ == key_last_item_id(),
{
    let mut out: Vec<char> = Vec::new();
    out.push('\"');
    out.push('l');
    out.push('a');
    out.push('s');
    out.push('t');
    out.push('_');
    out.push('i');
    out.push('t');
    out.push('e');
    out.push('m');
    out.push('_');
    out.push('i');
    out.push('d');
    out.push('\"');
    proof {
        assert(out@ =~= key_last_item_id());
    }
    out
}

/// Consumes whitespace, the quoted key `"last_item_id"` and its colon.
fn d_key_last_item_id(t: &Vec<char>, i: usize) -> (r: Option<usize>)
    requires
        i <= t@.len(),
    ensures
        (r matches Some(j) ==> p_fixed_key(t@, i as int, key_last_item_id()) == Some(j as int) && i <= j
            <= t@.len()),
        (r is None ==> p_fixed_key(t@, i as int, key_last_item_id()) is None),
{
    let pat = key_last_item_id_vec();
    let j = d_skip_ws(t, i);
    if d_match(t, j, &pat) {
        let tl = t.len();
        proof {
            assert(j + pat@.len() <= tl);
        }
        d_lit(t, j + pat.len(), ':')
    } else {
        None
    }
}

/// The characters of the quoted key `"epics"`.
fn key_epics_vec() -> (r: Vec<char>)
    ensures
        r@ == key_epics(),
{
    let mut out: Vec<char> = Vec::new();
    out.push('\"');
    out.push('e');
    out.push('p');
    out.push('i');
    out.push('c');
    out.push('s');
    out.push('\"');
    proof {
        assert(out@ =~= key_epics());
    }
    out
}

/// Consumes whitespace, the quoted key `"epics"` and its colon.
fn d_key_epics(t: &Vec<char>, i: usize) -> (r: Option<usize>)
    requires
        i <= t@.len(),
    ensures
        (r matches Some(j) ==> p_fixed_key(t@, i as int, key_epics()) == Some(j as int) && i <= j
            <= t@.len()),
        (r is None ==> p_fixed_key(t@, i as int, key_epics()) is None),
{
    let pat = key_epics_vec();
    let j = d_skip_ws(t, i);
    if d_match(t, j, &pat) {
        let tl = t.len();
        proof {
            assert(j + pat@.len() <= tl);
        }
        d_lit(t, j + pat.len(), ':')
    } else {
        None
    }
}

/// Consumes whitespace, then one epic object.
fn d_epic(t: &Vec<char>, i: usize) -> (r: Option<(Epic, usize)>)
    requires
        i <= t@.len(),
    ensures
        (r matches Some(p) ==> p_epic_at(t@, i as int) == Some((p.0@, p.1 as int)) && i <= p.1
            <= t@.len()),
        (r is None ==> p_epic_at(t@, i as int) is None),
{
    let j0 = match d_lit(t, i, '{') {
        Some(j) => j,
        None => { return None; },
    };
    let j1 = match d_key_name(t, j0) {
        Some(j) => j,
        None => { return None; },
    };
    let (name, j2) = match d_string(t, j1) {
        Some(p) => p,
        None => { return None; },
    };
    let j3 = match d_lit(t, j2, ',') {
        Some(j) => j,
        None => { return None; },
    };
    let j4 = match d_key_description(t, j3) {
        Some(j) => j,
        None => { return None; },
    };
    let (description, j5) = match d_string(t, j4) {
        Some(p) => p,
        None => { return None; },
    };
    let j6 = match d_lit(t, j5, ',') {
        Some(j) => j,
        None => { return None; },
    };
    let j7 = match d_key_status(t, j6) {
        Some(j) => j,
        None => { return None; },
    };
    let (status, j8) = match d_status(t, j7) {
        Some(p) => p,
        None => { return None; },
    };
    let j9 = match d_lit(t, j8, ',') {
        Some(j) => j,
        None => { return None; },
    };
    let j10 = match d_key_stories(t, j9) {
        Some(j) => j,
        None => { return None; },
    };
    let (stories, j11) = match d_ids(t, j10) {
        Some(p) => p,
        None => { return None; },
    };
    let j12 = match d_lit(t, j11, '}') {
        Some(j) => j,
        None => { return None; },
    };
    Some((Epic { name, description, status, stories }, j12))
}

/// Consumes whitespace, then one story object.
fn d_story(t: &Vec<char>, i: usize) -> (r: Option<(Story, usize)>)
    requires
        i <= t@.len(),
    ensures
        (r matches Some(p) ==> p_story_at(t@, i as int) == Some((p.0@, p.1 as int)) && i <= p.1
            <= t@.len()),
        (r is None ==> p_story_at(t@, i as int) is None),
{
    let j0 = match d_lit(t, i, '{') {
        Some(j) => j,
        None => { return None; },
    };
    let j1 = match d_key_name(t, j0) {
        Some(j) => j,
        None => { return None; },
    };
    let (name, j2) = match d_string(t, j1) {
        Some(p) => p,
        None => { return None; },
    };
    let j3 = match d_lit(t, j2, ',') {
        Some(j) => j,
        None => { return None; },
    };
    let j4 = match d_key_description(t, j3) {
        Some(j) => j,
        None => { return None; },
    };
    let (description, j5) = match d_string(t, j4) {
        Some(p) => p,
        None => { return None; },
    };
    let j6 = match d_lit(t, j5, ',') {
        Some(j) => j,
        None => { return None; },
    };
    let j7 = match d_key_status(t, j6) {
        Some(j) => j,
        None => { return None; },
    };
    let (status, j8) = match d_status(t, j7) {
        Some(p) => p,
        None => { return None; },
    };
    let j9 = match d_lit(t, j8, '}') {
        Some(j) => j,
        None => { return None; },
    };
    Some((Story { name, description, status }, j9))
}

/// Consumes whitespace, then the epic map object.
fn d_epic_map(t: &Vec<char>, i: usize) -> (r: Option<(std::collections::HashMap<u32, Epic>, usize)>)
    requires
        i <= t@.len(),
    ensures
        (r matches Some(p) ==> p_epic_map_at(t@, i as int) == Some(
            (p.0@.map_values(|e: Epic| e@), p.1 as int),
        ) && i <= p.1 <= t@.len()),
        (r is None ==> p_epic_map_at(t@, i as int) is None),
{
    let j = match d_lit(t, i, '{') {
        Some(j) => j,
        None => { return None; },
    };
    let k0 = d_skip_ws(t, j);
    if k0 < t.len() && t[k0] == '}' {
        let m: std::collections::HashMap<u32, Epic> = std::collections::HashMap::new();
        proof {
            assert(m@.map_values(|e: Epic| e@) =~= Map::<u32, EpicView>::empty());
        }
        return Some((m, k0 + 1));
    }
    let mut pos = j;
    let mut acc: std::collections::HashMap<u32, Epic> = std::collections::HashMap::new();
    proof {
        assert(p_epic_map_at(t@, i as int) == p_epic_map_rest(
            t@,
            j as int,
            Map::<u32, EpicView>::empty(),
        ));
        assert(acc@.map_values(|e: Epic| e@) =~= Map::<u32, EpicView>::empty());
    }
    loop
        invariant
            i <= pos <= t@.len(),
            p_epic_map_at(t@, i as int) == p_epic_map_rest(
                t@,
                pos as int,
                acc@.map_values(|e: Epic| e@),
            ),
        decreases t@.len() - pos,
    {
        let (id, j1) = match d_key_u32(t, pos) {
            Some(p) => p,
            None => { return None; },
        };
        let (e, j2) = match d_epic(t, j1) {
            Some(p) => p,
            None => { return None; },
        };
        let k = d_skip_ws(t, j2);
        if !(pos <= k && k < t.len()) {
            return None;
        }
        let ghost before = acc@.map_values(|e2: Epic| e2@);
        let ghost ev = e@;
        if t[k] == ',' {
            acc.insert(id, e);
            proof {
                assert(acc@.map_values(|e2: Epic| e2@) =~= before.insert(id, ev));
            }
            pos = k + 1;
        } else if t[k] == '}' {
            acc.insert(id, e);
            proof {
                assert(acc@.map_values(|e2: Epic| e2@) =~= before.insert(id, ev));
            }
            return Some((acc, k + 1));
        } else {
            return None;
        }
    }
}

/// Consumes whitespace, then the story map object.
fn d_story_map(t: &Vec<char>, i: usize) -> (r: Option<
    (std::collections::HashMap<u32, Story>, usize),
>)
    requires
        i <= t@.len(),
    ensures
        (r matches Some(p) ==> p_story_map_at(t@, i as int) == Some(
            (p.0@.map_values(|s: Story| s@), p.1 as int),
        ) && i <= p.1 <= t@.len()),
        (r is None ==> p_story_map_at(t@, i as int) is None),
{
    let j = match d_lit(t, i, '{') {
        Some(j) => j,
        None => { return None; },
    };
    let k0 = d_skip_ws(t, j);
    if k0 < t.len() && t[k0] == '}' {
        let m: std::collections::HashMap<u32, Story> = std::collections::HashMap::new();
        proof {
            assert(m@.map_values(|s: Story| s@) =~= Map::<u32, StoryView>::empty());
        }
        return Some((m, k0 + 1));
    }
    let mut pos = j;
    let mut acc: std::collections::HashMap<u32, Story> = std::collections::HashMap::new();
    proof {
        assert(p_story_map_at(t@, i as int) == p_story_map_rest(
            t@,
            j as int,
            Map::<u32, StoryView>::empty(),
        ));
        assert(acc@.map_values(|s: Story| s@) =~= Map::<u32, StoryView>::empty());
    }
    loop
        invariant
            i <= pos <= t@.len(),
            p_story_map_at(t@, i as int) == p_story_map_rest(
                t@,
                pos as int,
                acc@.map_values(|s: Story| s@),
            ),
        decreases t@.len() - pos,
    {
        let (id, j1) = match d_key_u32(t, pos) {
            Some(p) => p,
            None => { return None; },
        };
        let (st, j2) = match d_story(t, j1) {
            Some(p) => p,
            None => { return None; },
        };
        let k = d_skip_ws(t, j2);
        if !(pos <= k && k < t.len()) {
            return None;
        }
        let ghost before = acc@.map_values(|s2: Story| s2@);
        let ghost sv = st@;
        if t[k] == ',' {
            acc.insert(id, st);
            proof {
                assert(acc@.map_values(|s2: Story| s2@) =~= before.insert(id, sv));
            }
            pos = k + 1;
        } else if t[k] == '}' {
            acc.insert(id, st);
            proof {
                assert(acc@.map_values(|s2: Story| s2@) =~= before.insert(id, sv));
            }
            return Some((acc, k + 1));
        } else {
            return None;
        }
    }
}

/// Decodes the persisted text into a state: the one JSON object the format
/// describes, with nothing but whitespace after it. `None` where the text
/// cannot be decoded — the storage layer reports that as a format failure.
pub fn decode_state(text: &str) -> (r: Option<DBState>)
    ensures
        (r matches Some(s) ==> decode_spec(text@) == Some(s@)),
        (r is None ==> decode_spec(text@) is None),
{
    let t = chars_to_vec(text);
    let j0 = match d_lit(&t, 0, '{') {
        Some(j) => j,
        None => { return None; },
    };
    let j1 = match d_key_last_item_id(&t, j0) {
        Some(j) => j,
        None => { return None; },
    };
    let (last_item_id, j2) = match d_u32(&t, j1) {
        Some(p) => p,
        None => { return None; },
    };
    let j3 = match d_lit(&t, j2, ',') {
        Some(j) => j,
        None => { return None; },
    };
    let j4 = match d_key_epics(&t, j3) {
        Some(j) => j,
        None => { return None; },
    };
    let (epics, j5) = match d_epic_map(&t, j4) {
        Some(p) => p,
        None => { return None; },
    };
    let j6 = match d_lit(&t, j5, ',') {
        Some(j) => j,
        None => { return None; },
    };
    let j7 = match d_key_stories(&t, j6) {
        Some(j) => j,
        None => { return None; },
    };
    let (stories, j8) = match d_story_map(&t, j7) {
        Some(p) => p,
        None => { return None; },
    };
    let j9 = match d_lit(&t, j8, '}') {
        Some(j) => j,
        None => { return None; },
    };
    let end = d_skip_ws(&t, j9);
    if end == t.len() {
        let s = DBState { last_item_id, epics, stories };
        Some(s)
    } else {
        None
    }
}

} // verus!