//! The canonical text of a state decodes back to that state: the encoder
//! and the decoder's specification are inverse on every state whose
//! identifiers are bounded by its counter.

use vstd::prelude::*;

use crate::codec::{
    char_of, char_val, lemma_char_of_cast, dec_digits, decode_spec, digit_char, digit_val, enc_epic, enc_epic_entries,
    enc_epic_entry, enc_epics_obj, enc_ids, enc_ids_body, enc_state, enc_status, enc_story,
    enc_story_entries, enc_story_entry, enc_stories_obj, enc_str_body, enc_string, enc_u32,
    epic_ids_in, esc_char, hex_char, hex_val, is_digit, is_scalar, is_ws, key_description,
    key_epics, key_last_item_id, key_name, key_status, key_stories, matches_at, p_epic_at,
    p_epic_map_at, p_epic_map_rest, p_fixed_key, p_hex4, p_ids_at, p_ids_rest, p_key_u32, p_lit,
    p_state_at, p_status_at, p_str_body, p_string_at, p_story_at, p_story_map_at,
    p_story_map_rest, p_u32_at, scan_digits, skip_ws, story_ids_in, tag_chars,
};
use crate::db::ids_bounded;
use crate::models::{EpicView, StateView, Status, StoryView};

verus! {

/// Powers of ten.
spec fn pow10(k: nat) -> int
    decreases k,
{
    if k == 0 {
        1
    } else {
        10 * pow10((k - 1) as nat)
    }
}

/// The number a digit string stands for.
spec fn seqval(d: Seq<char>) -> int
    decreases d.len(),
{
    if d.len() == 0 {
        0
    } else {
        seqval(d.drop_last()) * 10 + digit_val(d.last())
    }
}

/// A slice that holds a concatenation splits into slices of its parts.
proof fn lemma_slice_concat(t: Seq<char>, i: int, a: Seq<char>, b: Seq<char>)
    requires
        0 <= i,
        i + a.len() + b.len() <= t.len(),
        t.subrange(i, i + a.len() + b.len()) == a + b,
    ensures
        t.subrange(i, i + a.len()) == a,
        t.subrange(i + a.len(), i + a.len() + b.len()) == b,
{
    let whole = t.subrange(i, i + a.len() + b.len());
    assert forall|k: int| 0 <= k < a.len() implies t.subrange(i, i + a.len())[k] == a[k] by {
        assert(whole[k] == (a + b)[k]);
    }
    assert(t.subrange(i, i + a.len()) =~= a);
    assert forall|k: int| 0 <= k < b.len() implies t.subrange(
        i + a.len(),
        i + a.len() + b.len(),
    )[k] == b[k] by {
        assert(whole[a.len() + k] == (a + b)[a.len() + k]);
    }
    assert(t.subrange(i + a.len(), i + a.len() + b.len()) =~= b);
}

/// A digit's character is a digit and carries its value; no digit is
/// whitespace, a quote, a bracket or a comma.
proof fn lemma_digit_char(d: int)
    requires
        0 <= d <= 9,
    ensures
        is_digit(digit_char(d)),
        digit_val(digit_char(d)) == d,
        !is_ws(digit_char(d)),
        digit_char(d) != '"',
        digit_char(d) != ',',
        digit_char(d) != ']',
        digit_char(d) != '}',
{
}

/// Every character of a canonical number is a digit.
proof fn lemma_dec_digits_are_digits(n: int)
    requires
        n >= 0,
    ensures
        dec_digits(n).len() >= 1,
        forall|k: int| 0 <= k < dec_digits(n).len() ==> is_digit(#[trigger] dec_digits(n)[k]),
    decreases n,
{
    if n < 10 {
        lemma_digit_char(n);
    } else {
        lemma_dec_digits_are_digits(n / 10);
        lemma_digit_char(n % 10);
        assert forall|k: int| 0 <= k < dec_digits(n).len() implies is_digit(
            #[trigger] dec_digits(n)[k],
        ) by {
            if k < dec_digits(n / 10).len() {
                assert(dec_digits(n)[k] == dec_digits(n / 10)[k]);
            } else {
                assert(dec_digits(n)[k] == digit_char(n % 10));
            }
        }
    }
}

/// The canonical digits of `n` stand for `n`.
proof fn lemma_dec_digits_val(n: int)
    requires
        n >= 0,
    ensures
        seqval(dec_digits(n)) == n,
    decreases n,
{
    if n < 10 {
        let d = dec_digits(n);
        assert(d == seq![digit_char(n)]);
        assert(d.len() == 1);
        assert(d.drop_last() =~= Seq::<char>::empty());
        assert(d.last() == digit_char(n));
        lemma_digit_char(n);
        assert(seqval(d) == seqval(Seq::<char>::empty()) * 10 + digit_val(digit_char(n)));
        assert(seqval(Seq::<char>::empty()) == 0);
    } else {
        lemma_dec_digits_val(n / 10);
        lemma_digit_char(n % 10);
        let d = dec_digits(n);
        assert(d == dec_digits(n / 10).push(digit_char(n % 10)));
        assert(d.len() == dec_digits(n / 10).len() + 1);
        assert(d.drop_last() =~= dec_digits(n / 10));
        assert(d.last() == digit_char(n % 10));
        assert(seqval(d) == seqval(dec_digits(n / 10)) * 10 + digit_val(digit_char(n % 10)));
        assert(seqval(d) == (n / 10) * 10 + (n % 10));
    }
}

/// The number a digit string stands for, read from the front.
proof fn lemma_seqval_head(d: Seq<char>)
    requires
        d.len() > 0,
    ensures
        seqval(d) == digit_val(d[0]) * pow10((d.len() - 1) as nat) + seqval(d.drop_first()),
    decreases d.len(),
{
    if d.len() == 1 {
        assert(d.drop_last() =~= Seq::<char>::empty());
        assert(d.drop_first() =~= Seq::<char>::empty());
    } else {
        lemma_seqval_head(d.drop_last());
        assert(d.drop_last()[0] == d[0]);
        assert(d.drop_last().drop_first() =~= d.drop_first().drop_last());
        assert(d.drop_first().last() == d.last());
        let k = (d.len() - 2) as nat;
        assert(seqval(d) == seqval(d.drop_last()) * 10 + digit_val(d.last()));
        assert(seqval(d.drop_last()) == digit_val(d[0]) * pow10(k) + seqval(
            d.drop_last().drop_first(),
        ));
        assert((digit_val(d[0]) * pow10(k) + seqval(d.drop_first().drop_last())) * 10 == digit_val(
            d[0],
        ) * (10 * pow10(k)) + seqval(d.drop_first().drop_last()) * 10) by (nonlinear_arith);
        assert(pow10((d.len() - 1) as nat) == 10 * pow10(k));
    }
}

/// Scanning a block of digits yields the number it stands for, weighted
/// onto the accumulator, and stops right after the block.
proof fn lemma_scan_digit_block(t: Seq<char>, i: int, j: int, a: int)
    requires
        0 <= i <= j <= t.len(),
        forall|k: int| i <= k < j ==> is_digit(#[trigger] t[k]),
        j == t.len() || !is_digit(t[j]),
        a >= 0,
    ensures
        scan_digits(t, i, a) == (a * pow10((j - i) as nat) + seqval(t.subrange(i, j)), j),
    decreases j - i,
{
    if i == j {
        assert(t.subrange(i, j) =~= Seq::<char>::empty());
        assert(scan_digits(t, i, a) == (a, i));
    } else {
        assert(is_digit(t[i]));
        lemma_scan_digit_block(t, i + 1, j, a * 10 + digit_val(t[i]));
        let block = t.subrange(i, j);
        let rest = t.subrange(i + 1, j);
        assert(block.drop_first() =~= rest);
        assert(block[0] == t[i]);
        lemma_seqval_head(block);
        let w = (j - i - 1) as nat;
        assert((a * 10 + digit_val(t[i])) * pow10(w) == a * (10 * pow10(w)) + digit_val(t[i])
            * pow10(w)) by (nonlinear_arith);
        assert(pow10((j - i) as nat) == 10 * pow10(w));
    }
}

/// A canonical number embedded in the text parses to its value, provided
/// no digit follows it.
proof fn lemma_parse_enc_u32(t: Seq<char>, i: int, n: u32)
    requires
        0 <= i,
        i + enc_u32(n).len() <= t.len(),
        t.subrange(i, i + enc_u32(n).len()) == enc_u32(n),
        i + enc_u32(n).len() == t.len() || !is_digit(t[i + enc_u32(n).len()]),
    ensures
        p_u32_at(t, i) == Some((n, i + enc_u32(n).len())),
{
    let d = enc_u32(n);
    let j = i + d.len();
    lemma_dec_digits_are_digits(n as int);
    lemma_dec_digits_val(n as int);
    assert forall|k: int| i <= k < j implies is_digit(#[trigger] t[k]) by {
        assert(t[k] == t.subrange(i, j)[k - i]);
    }
    assert(t[i] == t.subrange(i, j)[0]);
    assert(is_digit(t[i]));
    assert(!is_ws(t[i]));
    assert(skip_ws(t, i) == i);
    lemma_scan_digit_block(t, i, j, 0);
    assert(t.subrange(i, j) == d);
    assert(seqval(d) == n);
    assert(scan_digits(t, i, 0) == (0 * pow10((j - i) as nat) + n, j));
}

/// A hexadecimal digit's character carries its value.
proof fn lemma_hex_char(d: int)
    requires
        0 <= d < 16,
    ensures
        hex_val(hex_char(d)) == d,
{
    if d <= 9 {
        lemma_digit_char(d);
    }
}

/// A canonical string body embedded in the text, followed by its closing
/// quote, parses to the characters it encodes.
proof fn lemma_parse_str_body(t: Seq<char>, i: int, s: Seq<char>, acc: Seq<char>)
    requires
        0 <= i,
        i + enc_str_body(s).len() + 1 <= t.len(),
        t.subrange(i, i + enc_str_body(s).len() + 1) == enc_str_body(s) + seq!['"'],
    ensures
        p_str_body(t, i, acc) == Some((acc + s, i + enc_str_body(s).len() + 1)),
    decreases s.len(),
{
    if s.len() == 0 {
        assert(enc_str_body(s) =~= Seq::<char>::empty());
        assert(t[i] == t.subrange(i, i + 1)[0]);
        assert((enc_str_body(s) + seq!['"'])[0] == '"');
        assert(t[i] == '"');
        assert(acc + s =~= acc);
    } else {
        let c = s[0];
        let e = esc_char(c);
        let rest = enc_str_body(s.drop_first());
        assert(enc_str_body(s) == e + rest);
        let whole = enc_str_body(s) + seq!['"'];
        assert(whole =~= e + (rest + seq!['"']));
        assert(e.len() + (rest.len() + 1) == enc_str_body(s).len() + 1);
        lemma_slice_concat(t, i, e, rest + seq!['"']);
        let i2 = i + e.len();
        lemma_parse_str_body(t, i2, s.drop_first(), acc.push(c));
        assert(acc.push(c) + s.drop_first() =~= acc + s);
        // the characters the escape occupies
        assert forall|k: int| 0 <= k < e.len() implies t[i + k] == e[k] by {
            assert(t.subrange(i, i + e.len())[k] == t[i + k]);
        }
        if c == '"' {
            assert(e == seq!['\\', '"']);
            assert(t[i] == '\\' && t[i + 1] == '"');
        } else if c == '\\' {
            assert(e == seq!['\\', '\\']);
            assert(t[i] == '\\' && t[i + 1] == '\\');
        } else if c == '\n' {
            assert(e == seq!['\\', 'n']);
            assert(t[i] == '\\' && t[i + 1] == 'n');
        } else if c == '\t' {
            assert(e == seq!['\\', 't']);
            assert(t[i] == '\\' && t[i + 1] == 't');
        } else if c == '\r' {
            assert(e == seq!['\\', 'r']);
            assert(t[i] == '\\' && t[i + 1] == 'r');
        } else if (c as u32) < 0x20 {
            let v = (c as u32) as int;
            assert(e == seq!['\\', 'u', '0', '0', hex_char(v / 16), hex_char(v % 16)]);
            assert(t[i] == '\\' && t[i + 1] == 'u');
            assert(t[i + 2] == '0' && t[i + 3] == '0');
            assert(t[i + 4] == hex_char(v / 16) && t[i + 5] == hex_char(v % 16));
            lemma_hex_char(v / 16);
            lemma_hex_char(v % 16);
            assert(hex_val('0') == 0);
            assert(p_hex4(t, i + 2) == Some((v / 16) * 16 + (v % 16)));
            assert((v / 16) * 16 + (v % 16) == v);
            assert(is_scalar(v));
            assert(char_val(c) == v);
            lemma_char_of_cast(c);
            assert(char_of(v) == c);
        } else {
            assert(e == seq![c]);
            assert(t.subrange(i, i + e.len())[0] == t[i]);
            assert(e[0] == c);
            assert(t[i] == c);
        }
    }
}

/// A canonical string embedded in the text parses to its value.
proof fn lemma_parse_enc_string(t: Seq<char>, i: int, s: Seq<char>)
    requires
        0 <= i,
        i + enc_string(s).len() <= t.len(),
        t.subrange(i, i + enc_string(s).len()) == enc_string(s),
    ensures
        p_string_at(t, i) == Some((s, i + enc_string(s).len())),
{
    let body = enc_str_body(s);
    assert(enc_string(s) =~= seq!['"'] + (body + seq!['"']));
    lemma_slice_concat(t, i, seq!['"'], body + seq!['"']);
    assert(t[i] == t.subrange(i, i + 1)[0]);
    assert(t[i] == '"');
    assert(!is_ws('"'));
    assert(skip_ws(t, i) == i);
    lemma_parse_str_body(t, i + 1, s, Seq::<char>::empty());
    assert(Seq::<char>::empty() + s =~= s);
}

/// A single expected character embedded in the text parses as the literal.
proof fn lemma_parse_lit(t: Seq<char>, i: int, c: char)
    requires
        0 <= i,
        i + 1 <= t.len(),
        t.subrange(i, i + 1) == seq![c],
        !is_ws(c),
    ensures
        p_lit(t, i, c) == Some(i + 1),
{
    assert(t[i] == t.subrange(i, i + 1)[0]);
    assert(skip_ws(t, i) == i);
}

/// A canonical status tag embedded in the text parses to its status.
proof fn lemma_parse_enc_status(t: Seq<char>, i: int, st: Status)
    requires
        0 <= i,
        i + enc_status(st).len() <= t.len(),
        t.subrange(i, i + enc_status(st).len()) == enc_status(st),
    ensures
        p_status_at(t, i) == Some((st, i + enc_status(st).len())),
{
    let tagq = tag_chars(st) + seq!['"'];
    assert(enc_status(st) =~= seq!['"'] + tagq);
    lemma_slice_concat(t, i, seq!['"'], tagq);
    assert(t[i] == t.subrange(i, i + 1)[0]);
    assert(t[i] == '"');
    assert(!is_ws('"'));
    assert(skip_ws(t, i) == i);
    assert(matches_at(t, i + 1, tagq));
    let open_pat = tag_chars(Status::Open) + seq!['"'];
    let inprogress_pat = tag_chars(Status::InProgress) + seq!['"'];
    let resolved_pat = tag_chars(Status::Resolved) + seq!['"'];
    if matches_at(t, i + 1, open_pat) {
        crate::codec::lemma_pin_open(t, i + 1);
    }
    if matches_at(t, i + 1, inprogress_pat) {
        crate::codec::lemma_pin_inprogress(t, i + 1);
    }
    if matches_at(t, i + 1, resolved_pat) {
        crate::codec::lemma_pin_resolved(t, i + 1);
    }
    if matches_at(t, i + 1, tagq) {
        match st {
            Status::Open => {
                crate::codec::lemma_pin_open(t, i + 1);
            },
            Status::InProgress => {
                crate::codec::lemma_pin_inprogress(t, i + 1);
            },
            Status::Resolved => {
                crate::codec::lemma_pin_resolved(t, i + 1);
            },
            Status::Closed => {
                crate::codec::lemma_pin_closed(t, i + 1);
            },
        }
    }
}

/// A fixed quoted key with its colon, embedded in the text, parses to the
/// position after the colon.
proof fn lemma_parse_fixed_key(t: Seq<char>, i: int, pat: Seq<char>)
    requires
        0 <= i,
        pat.len() >= 1,
        pat[0] == '"',
        i + pat.len() + 1 <= t.len(),
        t.subrange(i, i + pat.len() + 1) == pat + seq![':'],
    ensures
        p_fixed_key(t, i, pat) == Some(i + pat.len() + 1),
{
    lemma_slice_concat(t, i, pat, seq![':']);
    assert(t[i] == t.subrange(i, i + pat.len())[0]);
    assert(t[i] == '"');
    assert(!is_ws('"'));
    assert(skip_ws(t, i) == i);
    assert(matches_at(t, i, pat));
    lemma_parse_lit(t, i + pat.len(), ':');
}

/// The elements of a canonical non-empty id array, followed by the closing
/// bracket, parse to the ids they encode.
proof fn lemma_parse_ids_rest(t: Seq<char>, i: int, ids: Seq<u32>, acc: Seq<u32>)
    requires
        0 <= i,
        ids.len() >= 1,
        i + enc_ids_body(ids).len() + 1 <= t.len(),
        t.subrange(i, i + enc_ids_body(ids).len() + 1) == enc_ids_body(ids) + seq![']'],
    ensures
        p_ids_rest(t, i, acc) == Some((acc + ids, i + enc_ids_body(ids).len() + 1)),
    decreases ids.len(),
{
    let num = enc_u32(ids[0]);
    lemma_dec_digits_are_digits(ids[0] as int);
    if ids.len() == 1 {
        assert(enc_ids_body(ids) == num);
        lemma_slice_concat(t, i, num, seq![']']);
        let j = i + num.len();
        assert(t[j] == t.subrange(j, j + 1)[0]);
        assert(t[j] == ']');
        assert(!is_digit(']'));
        lemma_parse_enc_u32(t, i, ids[0]);
        assert(!is_ws(']'));
        assert(skip_ws(t, j) == j);
        assert(acc.push(ids[0]) =~= acc + ids);
    } else {
        let rest = enc_ids_body(ids.drop_first());
        assert(enc_ids_body(ids) == num + seq![','] + rest);
        assert(enc_ids_body(ids) + seq![']'] =~= num + (seq![','] + (rest + seq![']'])));
        lemma_slice_concat(t, i, num, seq![','] + (rest + seq![']']));
        let j = i + num.len();
        lemma_slice_concat(t, j, seq![','], rest + seq![']']);
        assert(t[j] == t.subrange(j, j + 1)[0]);
        assert(t[j] == ',');
        assert(!is_digit(','));
        lemma_parse_enc_u32(t, i, ids[0]);
        assert(!is_ws(','));
        assert(skip_ws(t, j) == j);
        lemma_parse_ids_rest(t, j + 1, ids.drop_first(), acc.push(ids[0]));
        assert(acc.push(ids[0]) + ids.drop_first() =~= acc + ids);
    }
}

/// A canonical id array embedded in the text parses to its ids.
proof fn lemma_parse_enc_ids(t: Seq<char>, i: int, ids: Seq<u32>)
    requires
        0 <= i,
        i + enc_ids(ids).len() <= t.len(),
        t.subrange(i, i + enc_ids(ids).len()) == enc_ids(ids),
    ensures
        p_ids_at(t, i) == Some((ids, i + enc_ids(ids).len())),
{
    let body = enc_ids_body(ids);
    assert(enc_ids(ids) =~= seq!['['] + (body + seq![']']));
    lemma_slice_concat(t, i, seq!['['], body + seq![']']);
    assert(t[i] == t.subrange(i, i + 1)[0]);
    assert(t[i] == '[');
    assert(!is_ws('['));
    assert(skip_ws(t, i) == i);
    if ids.len() == 0 {
        assert(body =~= Seq::<char>::empty());
        assert(t[i + 1] == t.subrange(i + 1, i + 2)[0]);
        assert(t[i + 1] == ']');
        assert(!is_ws(']'));
        assert(skip_ws(t, i + 1) == i + 1);
    } else {
        lemma_parse_ids_rest(t, i + 1, ids, Seq::<u32>::empty());
        lemma_dec_digits_are_digits(ids[0] as int);
        let num = enc_u32(ids[0]);
        assert(num[0] == (body + seq![']'])[0]);
        assert(t[i + 1] == t.subrange(i + 1, i + 1 + body.len() + 1)[0]);
        assert(is_digit(t[i + 1]));
        assert(!is_ws(t[i + 1]));
        assert(skip_ws(t, i + 1) == i + 1);
        assert(t[i + 1] != ']');
        assert(Seq::<u32>::empty() + ids =~= ids);
    }
}

/// A canonical epic object embedded in the text parses to its epic.
#[verifier::rlimit(60)]
proof fn lemma_parse_enc_epic(t: Seq<char>, i: int, e: EpicView)
    requires
        0 <= i,
        i + enc_epic(e).len() <= t.len(),
        t.subrange(i, i + enc_epic(e).len()) == enc_epic(e),
    ensures
        p_epic_at(t, i) == Some((e, i + enc_epic(e).len())),
{
    let u0 = seq!['{'];
    let u1 = key_name() + seq![':'];
    let u2 = enc_string(e.name);
    let u3 = seq![','];
    let u4 = key_description() + seq![':'];
    let u5 = enc_string(e.description);
    let u6 = seq![','];
    let u7 = key_status() + seq![':'];
    let u8 = enc_status(e.status);
    let u9 = seq![','];
    let u10 = key_stories() + seq![':'];
    let u11 = enc_ids(e.stories);
    let u12 = seq!['}'];
    let r12 = u12;
    let r11 = u11 + r12;
    let r10 = u10 + r11;
    let r9 = u9 + r10;
    let r8 = u8 + r9;
    let r7 = u7 + r8;
    let r6 = u6 + r7;
    let r5 = u5 + r6;
    let r4 = u4 + r5;
    let r3 = u3 + r4;
    let r2 = u2 + r3;
    let r1 = u1 + r2;
    let r0 = u0 + r1;
    assert(enc_epic(e) =~= r0);
    let p0 = i;
    lemma_slice_concat(t, p0, u0, r1);
    let p1 = p0 + u0.len();
    lemma_slice_concat(t, p1, u1, r2);
    let p2 = p1 + u1.len();
    lemma_slice_concat(t, p2, u2, r3);
    let p3 = p2 + u2.len();
    lemma_slice_concat(t, p3, u3, r4);
    let p4 = p3 + u3.len();
    lemma_slice_concat(t, p4, u4, r5);
    let p5 = p4 + u4.len();
    lemma_slice_concat(t, p5, u5, r6);
    let p6 = p5 + u5.len();
    lemma_slice_concat(t, p6, u6, r7);
    let p7 = p6 + u6.len();
    lemma_slice_concat(t, p7, u7, r8);
    let p8 = p7 + u7.len();
    lemma_slice_concat(t, p8, u8, r9);
    let p9 = p8 + u8.len();
    lemma_slice_concat(t, p9, u9, r10);
    let p10 = p9 + u9.len();
    lemma_slice_concat(t, p10, u10, r11);
    let p11 = p10 + u10.len();
    lemma_slice_concat(t, p11, u11, r12);
    let p12 = p11 + u11.len();
    let p13 = p12 + u12.len();
    assert(t.subrange(p12, p13) == u12);
    assert(!is_ws('{'));
    lemma_parse_lit(t, p0, '{');
    assert(key_name()[0] == '"');
    lemma_parse_fixed_key(t, p1, key_name());
    lemma_parse_enc_string(t, p2, e.name);
    assert(!is_ws(','));
    lemma_parse_lit(t, p3, ',');
    assert(key_description()[0] == '"');
    lemma_parse_fixed_key(t, p4, key_description());
    lemma_parse_enc_string(t, p5, e.description);
    assert(!is_ws(','));
    lemma_parse_lit(t, p6, ',');
    assert(key_status()[0] == '"');
    lemma_parse_fixed_key(t, p7, key_status());
    lemma_parse_enc_status(t, p8, e.status);
    assert(!is_ws(','));
    lemma_parse_lit(t, p9, ',');
    assert(key_stories()[0] == '"');
    lemma_parse_fixed_key(t, p10, key_stories());
    lemma_parse_enc_ids(t, p11, e.stories);
    assert(!is_ws('}'));
    lemma_parse_lit(t, p12, '}');
    assert((EpicView { name: e.name, description: e.description, status: e.status, stories: e.stories }) =~= e);
    assert(p_epic_at(t, i) == Some((e, p13)));
}

/// A canonical story object embedded in the text parses to its story.
#[verifier::rlimit(60)]
proof fn lemma_parse_enc_story(t: Seq<char>, i: int, st: StoryView)
    requires
        0 <= i,
        i + enc_story(st).len() <= t.len(),
        t.subrange(i, i + enc_story(st).len()) == enc_story(st),
    ensures
        p_story_at(t, i) == Some((st, i + enc_story(st).len())),
{
    let u0 = seq!['{'];
    let u1 = key_name() + seq![':'];
    let u2 = enc_string(st.name);
    let u3 = seq![','];
    let u4 = key_description() + seq![':'];
    let u5 = enc_string(st.description);
    let u6 = seq![','];
    let u7 = key_status() + seq![':'];
    let u8 = enc_status(st.status);
    let u9 = seq!['}'];
    let r9 = u9;
    let r8 = u8 + r9;
    let r7 = u7 + r8;
    let r6 = u6 + r7;
    let r5 = u5 + r6;
    let r4 = u4 + r5;
    let r3 = u3 + r4;
    let r2 = u2 + r3;
    let r1 = u1 + r2;
    let r0 = u0 + r1;
    assert(enc_story(st) =~= r0);
    let p0 = i;
    lemma_slice_concat(t, p0, u0, r1);
    let p1 = p0 + u0.len();
    lemma_slice_concat(t, p1, u1, r2);
    let p2 = p1 + u1.len();
    lemma_slice_concat(t, p2, u2, r3);
    let p3 = p2 + u2.len();
    lemma_slice_concat(t, p3, u3, r4);
    let p4 = p3 + u3.len();
    lemma_slice_concat(t, p4, u4, r5);
    let p5 = p4 + u4.len();
    lemma_slice_concat(t, p5, u5, r6);
    let p6 = p5 + u5.len();
    lemma_slice_concat(t, p6, u6, r7);
    let p7 = p6 + u6.len();
    lemma_slice_concat(t, p7, u7, r8);
    let p8 = p7 + u7.len();
    lemma_slice_concat(t, p8, u8, r9);
    let p9 = p8 + u8.len();
    let p10 = p9 + u9.len();
    assert(t.subrange(p9, p10) == u9);
    assert(!is_ws('{'));
    lemma_parse_lit(t, p0, '{');
    assert(key_name()[0] == '"');
    lemma_parse_fixed_key(t, p1, key_name());
    lemma_parse_enc_string(t, p2, st.name);
    assert(!is_ws(','));
    lemma_parse_lit(t, p3, ',');
    assert(key_description()[0] == '"');
    lemma_parse_fixed_key(t, p4, key_description());
    lemma_parse_enc_string(t, p5, st.description);
    assert(!is_ws(','));
    lemma_parse_lit(t, p6, ',');
    assert(key_status()[0] == '"');
    lemma_parse_fixed_key(t, p7, key_status());
    lemma_parse_enc_status(t, p8, st.status);
    assert(!is_ws('}'));
    lemma_parse_lit(t, p9, '}');
    assert((StoryView { name: st.name, description: st.description, status: st.status }) =~= st);
    assert(p_story_at(t, i) == Some((st, p10)));
}

/// Inserting every listed entry of the map onto an accumulator.
spec fn insert_all_epics(acc: Map<u32, EpicView>, m: Map<u32, EpicView>, ids: Seq<u32>) -> Map<
    u32,
    EpicView,
>
    decreases ids.len(),
{
    if ids.len() == 0 {
        acc
    } else {
        insert_all_epics(acc.insert(ids[0], m[ids[0]]), m, ids.drop_first())
    }
}

/// Inserting every listed entry onto an accumulator yields the
/// accumulator overridden by the map restricted to the listed keys.
proof fn lemma_insert_all_epics(acc: Map<u32, EpicView>, m: Map<u32, EpicView>, ids: Seq<u32>)
    requires
        forall|k: int| 0 <= k < ids.len() ==> m.contains_key(#[trigger] ids[k]),
    ensures
        insert_all_epics(acc, m, ids) == acc.union_prefer_right(m.restrict(ids.to_set())),
    decreases ids.len(),
{
    if ids.len() == 0 {
        assert(insert_all_epics(acc, m, ids) =~= acc.union_prefer_right(
            m.restrict(ids.to_set()),
        ));
    } else {
        let id = ids[0];
        let acc2 = acc.insert(id, m[id]);
        let rest = ids.drop_first();
        assert(forall|k: int| 0 <= k < rest.len() ==> m.contains_key(#[trigger] rest[k]));
        lemma_insert_all_epics(acc2, m, rest);
        assert forall|x: u32| ids.contains(x) && x != id implies rest.contains(x) by {
            let k = choose|k: int| 0 <= k < ids.len() && ids[k] == x;
            assert(rest[k - 1] == x);
        }
        assert forall|x: u32| rest.contains(x) implies ids.contains(x) by {
            let k = choose|k: int| 0 <= k < rest.len() && rest[k] == x;
            assert(ids[k + 1] == x);
        }
        assert(ids.contains(id));
        assert(m.contains_key(id));
        assert(acc2.union_prefer_right(m.restrict(rest.to_set())) =~= acc.union_prefer_right(
            m.restrict(ids.to_set()),
        ));
    }
}

/// The ids the ascending scan collects: exactly the map's keys in range.
proof fn lemma_epic_ids_in_membership(m: Map<u32, EpicView>, lo: int, hi: int)
    requires
        0 <= lo <= hi <= 0x1_0000_0000,
    ensures
        forall|x: u32|
            epic_ids_in(m, lo, hi).contains(x) <==> (m.contains_key(x) && lo <= x < hi),
        forall|k: int|
            0 <= k < epic_ids_in(m, lo, hi).len() ==> m.contains_key(#[trigger] epic_ids_in(
                m,
                lo,
                hi,
            )[k]),
    decreases hi - lo,
{
    let ids = epic_ids_in(m, lo, hi);
    if lo < hi {
        lemma_epic_ids_in_membership(m, lo + 1, hi);
        let rest = epic_ids_in(m, lo + 1, hi);
        if m.contains_key(lo as u32) {
            assert(ids == seq![lo as u32] + rest);
            assert forall|x: u32| ids.contains(x) implies (m.contains_key(x) && lo <= x < hi) by {
                let k = choose|k: int| 0 <= k < ids.len() && ids[k] == x;
                if k == 0 {
                    assert(x == lo as u32);
                } else {
                    assert(rest[k - 1] == x);
                    assert(rest.contains(x));
                }
            }
            assert forall|x: u32| m.contains_key(x) && lo <= x < hi implies ids.contains(x) by {
                if x == lo as u32 {
                    assert(ids[0] == x);
                } else {
                    assert(rest.contains(x));
                    let k = choose|k: int| 0 <= k < rest.len() && rest[k] == x;
                    assert(ids[k + 1] == x);
                }
            }
        } else {
            assert(ids == rest);
        }
    }
    assert forall|k: int| 0 <= k < ids.len() implies m.contains_key(#[trigger] ids[k]) by {
        assert(ids.contains(ids[k]));
    }
}

/// A canonical map key embedded in the text parses to its id.
proof fn lemma_parse_epic_key(t: Seq<char>, i: int, id: u32)
    requires
        0 <= i,
        i + enc_u32(id).len() + 3 <= t.len(),
        t.subrange(i, i + enc_u32(id).len() + 3) == seq!['"'] + enc_u32(id) + seq!['"', ':'],
    ensures
        p_key_u32(t, i) == Some((id, i + enc_u32(id).len() + 3)),
{
    let num = enc_u32(id);
    assert(seq!['"'] + num + seq!['"', ':'] =~= seq!['"'] + (num + seq!['"', ':']));
    lemma_slice_concat(t, i, seq!['"'], num + seq!['"', ':']);
    assert(num + seq!['"', ':'] =~= num + (seq!['"'] + seq![':']));
    lemma_slice_concat(t, i + 1, num, seq!['"'] + seq![':']);
    let j = i + 1 + num.len();
    lemma_slice_concat(t, j, seq!['"'], seq![':']);
    assert(t[i] == t.subrange(i, i + 1)[0]);
    assert(t[i] == '"');
    assert(!is_ws('"'));
    assert(skip_ws(t, i) == i);
    lemma_dec_digits_are_digits(id as int);
    lemma_dec_digits_val(id as int);
    assert forall|k: int| i + 1 <= k < j implies is_digit(#[trigger] t[k]) by {
        assert(t[k] == t.subrange(i + 1, j)[k - (i + 1)]);
    }
    assert(t[i + 1] == t.subrange(i + 1, j)[0]);
    assert(is_digit(t[i + 1]));
    assert(t[j] == t.subrange(j, j + 1)[0]);
    assert(t[j] == '"');
    assert(!is_digit('"'));
    lemma_scan_digit_block(t, i + 1, j, 0);
    assert(scan_digits(t, i + 1, 0) == (id as int, j));
    lemma_parse_lit(t, j + 1, ':');
}

/// Canonical map entries followed by the closing brace parse to the
/// accumulated entries.
#[verifier::rlimit(60)]
proof fn lemma_parse_epic_map_rest(
    t: Seq<char>,
    i: int,
    m: Map<u32, EpicView>,
    ids: Seq<u32>,
    acc: Map<u32, EpicView>,
)
    requires
        0 <= i,
        ids.len() >= 1,
        forall|k: int| 0 <= k < ids.len() ==> m.contains_key(#[trigger] ids[k]),
        i + enc_epic_entries(m, ids).len() + 1 <= t.len(),
        t.subrange(i, i + enc_epic_entries(m, ids).len() + 1) == enc_epic_entries(m, ids) + seq!['}'],
    ensures
        p_epic_map_rest(t, i, acc) == Some(
            (insert_all_epics(acc, m, ids), i + enc_epic_entries(m, ids).len() + 1),
        ),
    decreases ids.len(),
{
    let id = ids[0];
    let e0 = enc_epic_entry(id, m[id]);
    let num = enc_u32(id);
    let keypart = seq!['"'] + num + seq!['"', ':'];
    let valpart = enc_epic(m[id]);
    assert(e0 =~= keypart + valpart);
    if ids.len() == 1 {
        assert(enc_epic_entries(m, ids) == e0);
        assert(e0 + seq!['}'] =~= keypart + (valpart + seq!['}']));
        lemma_slice_concat(t, i, keypart, valpart + seq!['}']);
        let j = i + keypart.len();
        lemma_slice_concat(t, j, valpart, seq!['}']);
        assert(t.subrange(i, i + keypart.len()) =~= keypart);
        lemma_parse_epic_key(t, i, id);
        lemma_parse_enc_epic(t, j, m[id]);
        let j2 = j + valpart.len();
        assert(t[j2] == t.subrange(j2, j2 + 1)[0]);
        assert(t[j2] == '}');
        assert(!is_ws('}'));
        assert(skip_ws(t, j2) == j2);
        assert(ids.drop_first().len() == 0);
        assert(insert_all_epics(acc.insert(id, m[id]), m, ids.drop_first()) == acc.insert(
            id,
            m[id],
        ));
        assert(insert_all_epics(acc, m, ids) == acc.insert(id, m[id]));
    } else {
        let rest = enc_epic_entries(m, ids.drop_first());
        assert(enc_epic_entries(m, ids) == e0 + seq![','] + rest);
        assert(enc_epic_entries(m, ids) + seq!['}'] =~= keypart + (valpart + (seq![','] + (rest
            + seq!['}']))));
        lemma_slice_concat(t, i, keypart, valpart + (seq![','] + (rest + seq!['}'])));
        let j = i + keypart.len();
        lemma_slice_concat(t, j, valpart, seq![','] + (rest + seq!['}']));
        let j2 = j + valpart.len();
        lemma_slice_concat(t, j2, seq![','], rest + seq!['}']);
        lemma_parse_epic_key(t, i, id);
        lemma_parse_enc_epic(t, j, m[id]);
        assert(t[j2] == t.subrange(j2, j2 + 1)[0]);
        assert(t[j2] == ',');
        assert(!is_ws(','));
        assert(skip_ws(t, j2) == j2);
        assert(forall|k: int|
            0 <= k < ids.drop_first().len() ==> m.contains_key(
                #[trigger] ids.drop_first()[k],
            ));
        lemma_parse_epic_map_rest(t, j2 + 1, m, ids.drop_first(), acc.insert(id, m[id]));
    }
}
/// Inserting every listed entry of the map onto an accumulator.
spec fn insert_all_storys(acc: Map<u32, StoryView>, m: Map<u32, StoryView>, ids: Seq<u32>) -> Map<
    u32,
    StoryView,
>
    decreases ids.len(),
{
    if ids.len() == 0 {
        acc
    } else {
        insert_all_storys(acc.insert(ids[0], m[ids[0]]), m, ids.drop_first())
    }
}

/// Inserting every listed entry onto an accumulator yields the
/// accumulator overridden by the map restricted to the listed keys.
proof fn lemma_insert_all_storys(acc: Map<u32, StoryView>, m: Map<u32, StoryView>, ids: Seq<u32>)
    requires
        forall|k: int| 0 <= k < ids.len() ==> m.contains_key(#[trigger] ids[k]),
    ensures
        insert_all_storys(acc, m, ids) == acc.union_prefer_right(m.restrict(ids.to_set())),
    decreases ids.len(),
{
    if ids.len() == 0 {
        assert(insert_all_storys(acc, m, ids) =~= acc.union_prefer_right(
            m.restrict(ids.to_set()),
        ));
    } else {
        let id = ids[0];
        let acc2 = acc.insert(id, m[id]);
        let rest = ids.drop_first();
        assert(forall|k: int| 0 <= k < rest.len() ==> m.contains_key(#[trigger] rest[k]));
        lemma_insert_all_storys(acc2, m, rest);
        assert forall|x: u32| ids.contains(x) && x != id implies rest.contains(x) by {
            let k = choose|k: int| 0 <= k < ids.len() && ids[k] == x;
            assert(rest[k - 1] == x);
        }
        assert forall|x: u32| rest.contains(x) implies ids.contains(x) by {
            let k = choose|k: int| 0 <= k < rest.len() && rest[k] == x;
            assert(ids[k + 1] == x);
        }
        assert(ids.contains(id));
        assert(m.contains_key(id));
        assert(acc2.union_prefer_right(m.restrict(rest.to_set())) =~= acc.union_prefer_right(
            m.restrict(ids.to_set()),
        ));
    }
}

/// The ids the ascending scan collects: exactly the map's keys in range.
proof fn lemma_story_ids_in_membership(m: Map<u32, StoryView>, lo: int, hi: int)
    requires
        0 <= lo <= hi <= 0x1_0000_0000,
    ensures
        forall|x: u32|
            story_ids_in(m, lo, hi).contains(x) <==> (m.contains_key(x) && lo <= x < hi),
        forall|k: int|
            0 <= k < story_ids_in(m, lo, hi).len() ==> m.contains_key(#[trigger] story_ids_in(
                m,
                lo,
                hi,
            )[k]),
    decreases hi - lo,
{
    let ids = story_ids_in(m, lo, hi);
    if lo < hi {
        lemma_story_ids_in_membership(m, lo + 1, hi);
        let rest = story_ids_in(m, lo + 1, hi);
        if m.contains_key(lo as u32) {
            assert(ids == seq![lo as u32] + rest);
            assert forall|x: u32| ids.contains(x) implies (m.contains_key(x) && lo <= x < hi) by {
                let k = choose|k: int| 0 <= k < ids.len() && ids[k] == x;
                if k == 0 {
                    assert(x == lo as u32);
                } else {
                    assert(rest[k - 1] == x);
                    assert(rest.contains(x));
                }
            }
            assert forall|x: u32| m.contains_key(x) && lo <= x < hi implies ids.contains(x) by {
                if x == lo as u32 {
                    assert(ids[0] == x);
                } else {
                    assert(rest.contains(x));
                    let k = choose|k: int| 0 <= k < rest.len() && rest[k] == x;
                    assert(ids[k + 1] == x);
                }
            }
        } else {
            assert(ids == rest);
        }
    }
    assert forall|k: int| 0 <= k < ids.len() implies m.contains_key(#[trigger] ids[k]) by {
        assert(ids.contains(ids[k]));
    }
}

/// A canonical map key embedded in the text parses to its id.
proof fn lemma_parse_story_key(t: Seq<char>, i: int, id: u32)
    requires
        0 <= i,
        i + enc_u32(id).len() + 3 <= t.len(),
        t.subrange(i, i + enc_u32(id).len() + 3) == seq!['"'] + enc_u32(id) + seq!['"', ':'],
    ensures
        p_key_u32(t, i) == Some((id, i + enc_u32(id).len() + 3)),
{
    let num = enc_u32(id);
    assert(seq!['"'] + num + seq!['"', ':'] =~= seq!['"'] + (num + seq!['"', ':']));
    lemma_slice_concat(t, i, seq!['"'], num + seq!['"', ':']);
    assert(num + seq!['"', ':'] =~= num + (seq!['"'] + seq![':']));
    lemma_slice_concat(t, i + 1, num, seq!['"'] + seq![':']);
    let j = i + 1 + num.len();
    lemma_slice_concat(t, j, seq!['"'], seq![':']);
    assert(t[i] == t.subrange(i, i + 1)[0]);
    assert(t[i] == '"');
    assert(!is_ws('"'));
    assert(skip_ws(t, i) == i);
    lemma_dec_digits_are_digits(id as int);
    lemma_dec_digits_val(id as int);
    assert forall|k: int| i + 1 <= k < j implies is_digit(#[trigger] t[k]) by {
        assert(t[k] == t.subrange(i + 1, j)[k - (i + 1)]);
    }
    assert(t[i + 1] == t.subrange(i + 1, j)[0]);
    assert(is_digit(t[i + 1]));
    assert(t[j] == t.subrange(j, j + 1)[0]);
    assert(t[j] == '"');
    assert(!is_digit('"'));
    lemma_scan_digit_block(t, i + 1, j, 0);
    assert(scan_digits(t, i + 1, 0) == (id as int, j));
    lemma_parse_lit(t, j + 1, ':');
}

/// Canonical map entries followed by the closing brace parse to the
/// accumulated entries.
#[verifier::rlimit(60)]
proof fn lemma_parse_story_map_rest(
    t: Seq<char>,
    i: int,
    m: Map<u32, StoryView>,
    ids: Seq<u32>,
    acc: Map<u32, StoryView>,
)
    requires
        0 <= i,
        ids.len() >= 1,
        forall|k: int| 0 <= k < ids.len() ==> m.contains_key(#[trigger] ids[k]),
        i + enc_story_entries(m, ids).len() + 1 <= t.len(),
        t.subrange(i, i + enc_story_entries(m, ids).len() + 1) == enc_story_entries(m, ids) + seq!['}'],
    ensures
        p_story_map_rest(t, i, acc) == Some(
            (insert_all_storys(acc, m, ids), i + enc_story_entries(m, ids).len() + 1),
        ),
    decreases ids.len(),
{
    let id = ids[0];
    let e0 = enc_story_entry(id, m[id]);
    let num = enc_u32(id);
    let keypart = seq!['"'] + num + seq!['"', ':'];
    let valpart = enc_story(m[id]);
    assert(e0 =~= keypart + valpart);
    if ids.len() == 1 {
        assert(enc_story_entries(m, ids) == e0);
        assert(e0 + seq!['}'] =~= keypart + (valpart + seq!['}']));
        lemma_slice_concat(t, i, keypart, valpart + seq!['}']);
        let j = i + keypart.len();
        lemma_slice_concat(t, j, valpart, seq!['}']);
        assert(t.subrange(i, i + keypart.len()) =~= keypart);
        lemma_parse_story_key(t, i, id);
        lemma_parse_enc_story(t, j, m[id]);
        let j2 = j + valpart.len();
        assert(t[j2] == t.subrange(j2, j2 + 1)[0]);
        assert(t[j2] == '}');
        assert(!is_ws('}'));
        assert(skip_ws(t, j2) == j2);
        assert(ids.drop_first().len() == 0);
        assert(insert_all_storys(acc.insert(id, m[id]), m, ids.drop_first()) == acc.insert(
            id,
            m[id],
        ));
        assert(insert_all_storys(acc, m, ids) == acc.insert(id, m[id]));
    } else {
        let rest = enc_story_entries(m, ids.drop_first());
        assert(enc_story_entries(m, ids) == e0 + seq![','] + rest);
        assert(enc_story_entries(m, ids) + seq!['}'] =~= keypart + (valpart + (seq![','] + (rest
            + seq!['}']))));
        lemma_slice_concat(t, i, keypart, valpart + (seq![','] + (rest + seq!['}'])));
        let j = i + keypart.len();
        lemma_slice_concat(t, j, valpart, seq![','] + (rest + seq!['}']));
        let j2 = j + valpart.len();
        lemma_slice_concat(t, j2, seq![','], rest + seq!['}']);
        lemma_parse_story_key(t, i, id);
        lemma_parse_enc_story(t, j, m[id]);
        assert(t[j2] == t.subrange(j2, j2 + 1)[0]);
        assert(t[j2] == ',');
        assert(!is_ws(','));
        assert(skip_ws(t, j2) == j2);
        assert(forall|k: int|
            0 <= k < ids.drop_first().len() ==> m.contains_key(
                #[trigger] ids.drop_first()[k],
            ));
        lemma_parse_story_map_rest(t, j2 + 1, m, ids.drop_first(), acc.insert(id, m[id]));
    }
}

/// A canonical epic map object embedded in the text parses to the map,
/// provided every key is within the scanned range.
#[verifier::rlimit(60)]
proof fn lemma_parse_enc_epics_obj(t: Seq<char>, i: int, m: Map<u32, EpicView>, last: u32)
    requires
        0 <= i,
        forall|id: u32| m.contains_key(id) ==> id <= last,
        i + enc_epics_obj(m, last).len() <= t.len(),
        t.subrange(i, i + enc_epics_obj(m, last).len()) == enc_epics_obj(m, last),
    ensures
        p_epic_map_at(t, i) == Some((m, i + enc_epics_obj(m, last).len())),
{
    let ids = epic_ids_in(m, 0, last as int + 1);
    let body = enc_epic_entries(m, ids);
    lemma_epic_ids_in_membership(m, 0, last as int + 1);
    assert(enc_epics_obj(m, last) =~= seq!['{'] + (body + seq!['}']));
    lemma_slice_concat(t, i, seq!['{'], body + seq!['}']);
    assert(t[i] == t.subrange(i, i + 1)[0]);
    assert(t[i] == '{');
    assert(!is_ws('{'));
    assert(skip_ws(t, i) == i);
    if ids.len() == 0 {
        assert forall|x: u32| !m.contains_key(x) by {
            if m.contains_key(x) {
                assert(ids.contains(x));
            }
        }
        assert(m =~= Map::<u32, EpicView>::empty());
        assert(body == Seq::<char>::empty());
        assert(t[i + 1] == t.subrange(i + 1, i + 2)[0]);
        assert(t[i + 1] == '}');
        assert(!is_ws('}'));
        assert(skip_ws(t, i + 1) == i + 1);
    } else {
        let id = ids[0];
        lemma_dec_digits_are_digits(id as int);
        assert(enc_epic_entry(id, m[id])[0] == '"');
        if ids.len() == 1 {
            assert(body == enc_epic_entry(id, m[id]));
        } else {
            assert(body == enc_epic_entry(id, m[id]) + seq![','] + enc_epic_entries(m, ids.drop_first()));
        }
        assert(body[0] == '"');
        assert(t[i + 1] == t.subrange(i + 1, i + 1 + body.len() + 1)[0]);
        assert(t[i + 1] == '"');
        assert(!is_ws('"'));
        assert(skip_ws(t, i + 1) == i + 1);
        assert(t[i + 1] != '}');
        lemma_parse_epic_map_rest(t, i + 1, m, ids, Map::<u32, EpicView>::empty());
        lemma_insert_all_epics(Map::<u32, EpicView>::empty(), m, ids);
        assert(insert_all_epics(Map::<u32, EpicView>::empty(), m, ids) =~= m);
    }
}

/// A canonical story map object embedded in the text parses to the map,
/// provided every key is within the scanned range.
#[verifier::rlimit(60)]
proof fn lemma_parse_enc_storys_obj(t: Seq<char>, i: int, m: Map<u32, StoryView>, last: u32)
    requires
        0 <= i,
        forall|id: u32| m.contains_key(id) ==> id <= last,
        i + enc_stories_obj(m, last).len() <= t.len(),
        t.subrange(i, i + enc_stories_obj(m, last).len()) == enc_stories_obj(m, last),
    ensures
        p_story_map_at(t, i) == Some((m, i + enc_stories_obj(m, last).len())),
{
    let ids = story_ids_in(m, 0, last as int + 1);
    let body = enc_story_entries(m, ids);
    lemma_story_ids_in_membership(m, 0, last as int + 1);
    assert(enc_stories_obj(m, last) =~= seq!['{'] + (body + seq!['}']));
    lemma_slice_concat(t, i, seq!['{'], body + seq!['}']);
    assert(t[i] == t.subrange(i, i + 1)[0]);
    assert(t[i] == '{');
    assert(!is_ws('{'));
    assert(skip_ws(t, i) == i);
    if ids.len() == 0 {
        assert forall|x: u32| !m.contains_key(x) by {
            if m.contains_key(x) {
                assert(ids.contains(x));
            }
        }
        assert(m =~= Map::<u32, StoryView>::empty());
        assert(body == Seq::<char>::empty());
        assert(t[i + 1] == t.subrange(i + 1, i + 2)[0]);
        assert(t[i + 1] == '}');
        assert(!is_ws('}'));
        assert(skip_ws(t, i + 1) == i + 1);
    } else {
        let id = ids[0];
        lemma_dec_digits_are_digits(id as int);
        assert(enc_story_entry(id, m[id])[0] == '"');
        if ids.len() == 1 {
            assert(body == enc_story_entry(id, m[id]));
        } else {
            assert(body == enc_story_entry(id, m[id]) + seq![','] + enc_story_entries(m, ids.drop_first()));
        }
        assert(body[0] == '"');
        assert(t[i + 1] == t.subrange(i + 1, i + 1 + body.len() + 1)[0]);
        assert(t[i + 1] == '"');
        assert(!is_ws('"'));
        assert(skip_ws(t, i + 1) == i + 1);
        assert(t[i + 1] != '}');
        lemma_parse_story_map_rest(t, i + 1, m, ids, Map::<u32, StoryView>::empty());
        lemma_insert_all_storys(Map::<u32, StoryView>::empty(), m, ids);
        assert(insert_all_storys(Map::<u32, StoryView>::empty(), m, ids) =~= m);
    }
}

/// How the canonical text of a state splits into its pieces.
#[verifier::rlimit(100)]
#[verifier::spinoff_prover]
proof fn lemma_state_slices(t: Seq<char>, i: int, s: StateView)
    requires
        0 <= i,
        i + enc_state(s).len() <= t.len(),
        t.subrange(i, i + enc_state(s).len()) == enc_state(s),
    ensures
        ({
        let u0 = seq!['{'];
        let u1 = key_last_item_id() + seq![':'];
        let u2 = enc_u32(s.last_item_id);
        let u3 = seq![','];
        let u4 = key_epics() + seq![':'];
        let u5 = enc_epics_obj(s.epics, s.last_item_id);
        let u6 = seq![','];
        let u7 = key_stories() + seq![':'];
        let u8 = enc_stories_obj(s.stories, s.last_item_id);
        let u9 = seq!['}'];
        let p0 = i;
        let p1 = p0 + u0.len();
        let p2 = p1 + u1.len();
        let p3 = p2 + u2.len();
        let p4 = p3 + u3.len();
        let p5 = p4 + u4.len();
        let p6 = p5 + u5.len();
        let p7 = p6 + u6.len();
        let p8 = p7 + u7.len();
        let p9 = p8 + u8.len();
        let p10 = p9 + u9.len();
            &&& t.subrange(p0, p1) == u0
            &&& t.subrange(p1, p2) == u1
            &&& t.subrange(p2, p3) == u2
            &&& t.subrange(p3, p4) == u3
            &&& t.subrange(p4, p5) == u4
            &&& t.subrange(p5, p6) == u5
            &&& t.subrange(p6, p7) == u6
            &&& t.subrange(p7, p8) == u7
            &&& t.subrange(p8, p9) == u8
            &&& t.subrange(p9, p10) == u9
        }),
{
    let u0 = seq!['{'];
    let u1 = key_last_item_id() + seq![':'];
    let u2 = enc_u32(s.last_item_id);
    let u3 = seq![','];
    let u4 = key_epics() + seq![':'];
    let u5 = enc_epics_obj(s.epics, s.last_item_id);
    let u6 = seq![','];
    let u7 = key_stories() + seq![':'];
    let u8 = enc_stories_obj(s.stories, s.last_item_id);
    let u9 = seq!['}'];
    let r9 = u9;
    let r8 = u8 + r9;
    let r7 = u7 + r8;
    let r6 = u6 + r7;
    let r5 = u5 + r6;
    let r4 = u4 + r5;
    let r3 = u3 + r4;
    let r2 = u2 + r3;
    let r1 = u1 + r2;
    let r0 = u0 + r1;
    assert(enc_state(s) =~= r0);
    let p0 = i;
    lemma_slice_concat(t, p0, u0, r1);
    let p1 = p0 + u0.len();
    lemma_slice_concat(t, p1, u1, r2);
    let p2 = p1 + u1.len();
    lemma_slice_concat(t, p2, u2, r3);
    let p3 = p2 + u2.len();
    lemma_slice_concat(t, p3, u3, r4);
    let p4 = p3 + u3.len();
    lemma_slice_concat(t, p4, u4, r5);
    let p5 = p4 + u4.len();
    lemma_slice_concat(t, p5, u5, r6);
    let p6 = p5 + u5.len();
    lemma_slice_concat(t, p6, u6, r7);
    let p7 = p6 + u6.len();
    lemma_slice_concat(t, p7, u7, r8);
    let p8 = p7 + u7.len();
    lemma_slice_concat(t, p8, u8, r9);
    let p9 = p8 + u8.len();
    assert(t.subrange(p9, p9 + u9.len()) == u9);
}

/// The canonical text of a state embedded in the text parses to it.
#[verifier::rlimit(100)]
#[verifier::spinoff_prover]
proof fn lemma_parse_enc_state(t: Seq<char>, i: int, s: StateView)
    requires
        0 <= i,
        ids_bounded(s),
        i + enc_state(s).len() <= t.len(),
        t.subrange(i, i + enc_state(s).len()) == enc_state(s),
    ensures
        p_state_at(t, i) == Some((s, i + enc_state(s).len())),
{
    lemma_state_slices(t, i, s);
    let u0 = seq!['{'];
    let u1 = key_last_item_id() + seq![':'];
    let u2 = enc_u32(s.last_item_id);
    let u3 = seq![','];
    let u4 = key_epics() + seq![':'];
    let u5 = enc_epics_obj(s.epics, s.last_item_id);
    let u6 = seq![','];
    let u7 = key_stories() + seq![':'];
    let u8 = enc_stories_obj(s.stories, s.last_item_id);
    let u9 = seq!['}'];
    let p0 = i;
    let p1 = p0 + u0.len();
    let p2 = p1 + u1.len();
    let p3 = p2 + u2.len();
    let p4 = p3 + u3.len();
    let p5 = p4 + u4.len();
    let p6 = p5 + u5.len();
    let p7 = p6 + u6.len();
    let p8 = p7 + u7.len();
    let p9 = p8 + u8.len();
    let p10 = p9 + u9.len();
    assert(!is_ws('{'));
    lemma_parse_lit(t, p0, '{');
    assert(key_last_item_id()[0] == '"');
    lemma_parse_fixed_key(t, p1, key_last_item_id());
    assert(t[p3] == t.subrange(p3, p3 + 1)[0]);
    assert(t[p3] == ',');
    assert(!is_digit(','));
    lemma_parse_enc_u32(t, p2, s.last_item_id);
    assert(!is_ws(','));
    lemma_parse_lit(t, p3, ',');
    assert(key_epics()[0] == '"');
    lemma_parse_fixed_key(t, p4, key_epics());
    lemma_parse_enc_epics_obj(t, p5, s.epics, s.last_item_id);
    assert(!is_ws(','));
    lemma_parse_lit(t, p6, ',');
    assert(key_stories()[0] == '"');
    lemma_parse_fixed_key(t, p7, key_stories());
    lemma_parse_enc_storys_obj(t, p8, s.stories, s.last_item_id);
    assert(!is_ws('}'));
    lemma_parse_lit(t, p9, '}');
    assert((StateView { last_item_id: s.last_item_id, epics: s.epics, stories: s.stories }) =~= s);
    assert(p_state_at(t, i) == Some((s, p10)));
}

/// Round trip: the canonical text of any state whose identifiers are
/// bounded by its counter decodes back to exactly that state.
pub proof fn lemma_encode_decode_roundtrip(s: StateView)
    requires
        ids_bounded(s),
    ensures
        decode_spec(enc_state(s)) == Some(s),
{
    let t = enc_state(s);
    assert(t.subrange(0, t.len() as int) =~= t);
    lemma_parse_enc_state(t, 0, s);
    assert(skip_ws(t, t.len() as int) == t.len());
}

} // verus!