//! The on-disk format of the task list: a pretty-printed JSON array of
//! records, each with an `id`, a `description` and a `completed` field.
//!
//! This module holds the mathematical side: the grammar the parser accepts,
//! written as recursive spec functions over character sequences; the rendering
//! the encoder produces; and the round-trip theorem that parsing a rendering
//! gives back the original tasks. The executable encoder and parser are in
//! `codec` and are verified against these functions.

use vstd::prelude::*;
use vstd::arithmetic::div_mod::{lemma_div_pos_is_pos, lemma_fundamental_div_mod, lemma_mod_bound};
use crate::task::{task_wf, tasks_wf, TaskView};

verus! {

// ---------------------------------------------------------------------------
// Character classes
// ---------------------------------------------------------------------------

/// JSON inter-token whitespace.
pub open spec fn is_ws(c: char) -> bool {
    c == ' ' || c == '\n' || c == '\r' || c == '\t'
}

pub open spec fn is_digit(c: char) -> bool {
    c == '0' || c == '1' || c == '2' || c == '3' || c == '4' || c == '5' || c == '6' || c == '7'
        || c == '8' || c == '9'
}

/// The numeric value of a decimal digit (10 for anything else).
pub open spec fn digit_val(c: char) -> nat {
    if c == '0' {
        0
    } else if c == '1' {
        1
    } else if c == '2' {
        2
    } else if c == '3' {
        3
    } else if c == '4' {
        4
    } else if c == '5' {
        5
    } else if c == '6' {
        6
    } else if c == '7' {
        7
    } else if c == '8' {
        8
    } else if c == '9' {
        9
    } else {
        10
    }
}

/// The decimal digit for a value below ten ('9' for anything else).
pub open spec fn digit_char(n: nat) -> char {
    if n == 0 {
        '0'
    } else if n == 1 {
        '1'
    } else if n == 2 {
        '2'
    } else if n == 3 {
        '3'
    } else if n == 4 {
        '4'
    } else if n == 5 {
        '5'
    } else if n == 6 {
        '6'
    } else if n == 7 {
        '7'
    } else if n == 8 {
        '8'
    } else {
        '9'
    }
}

pub open spec fn is_hex(c: char) -> bool {
    is_digit(c) || c == 'a' || c == 'b' || c == 'c' || c == 'd' || c == 'e' || c == 'f' || c == 'A'
        || c == 'B' || c == 'C' || c == 'D' || c == 'E' || c == 'F'
}

/// The numeric value of a hexadecimal digit (16 for anything else).
pub open spec fn hex_val(c: char) -> nat {
    if is_digit(c) {
        digit_val(c)
    } else if c == 'a' || c == 'A' {
        10
    } else if c == 'b' || c == 'B' {
        11
    } else if c == 'c' || c == 'C' {
        12
    } else if c == 'd' || c == 'D' {
        13
    } else if c == 'e' || c == 'E' {
        14
    } else if c == 'f' || c == 'F' {
        15
    } else {
        16
    }
}

/// The lower-case hexadecimal digit for a value below sixteen.
pub open spec fn hex_char(n: nat) -> char {
    if n < 10 {
        digit_char(n)
    } else if n == 10 {
        'a'
    } else if n == 11 {
        'b'
    } else if n == 12 {
        'c'
    } else if n == 13 {
        'd'
    } else if n == 14 {
        'e'
    } else {
        'f'
    }
}

// ---------------------------------------------------------------------------
// Whitespace skipping
// ---------------------------------------------------------------------------

/// The first position at or after `i` holding a non-whitespace character
/// (or the end of the sequence).
pub open spec fn skip_ws(s: Seq<char>, i: int) -> int
    decreases s.len() - i,
{
    if 0 <= i < s.len() && is_ws(s[i]) {
        skip_ws(s, i + 1)
    } else {
        i
    }
}

pub proof fn lemma_skip_ws_bounds(s: Seq<char>, i: int)
    requires
        0 <= i <= s.len(),
    ensures
        i <= skip_ws(s, i) <= s.len(),
        skip_ws(s, i) < s.len() ==> !is_ws(s[skip_ws(s, i)]),
    decreases s.len() - i,
{
    if i < s.len() && is_ws(s[i]) {
        lemma_skip_ws_bounds(s, i + 1);
    }
}

/// Skipping whitespace lands exactly at `j` when everything before `j` is
/// whitespace and `j` is the end or a non-whitespace character.
pub proof fn lemma_skip_ws_to(s: Seq<char>, i: int, j: int)
    requires
        0 <= i <= j <= s.len(),
        forall|k: int| i <= k < j ==> is_ws(#[trigger] s[k]),
        j < s.len() ==> !is_ws(s[j]),
    ensures
        skip_ws(s, i) == j,
    decreases j - i,
{
    if i < j {
        lemma_skip_ws_to(s, i + 1, j);
    }
}

// ---------------------------------------------------------------------------
// Decimal numbers
// ---------------------------------------------------------------------------

/// The first position at or after `i` holding a non-digit (or the end).
pub open spec fn digit_end(s: Seq<char>, i: int) -> int
    decreases s.len() - i,
{
    if 0 <= i < s.len() && is_digit(s[i]) {
        digit_end(s, i + 1)
    } else {
        i
    }
}

pub proof fn lemma_digit_end_bounds(s: Seq<char>, i: int)
    requires
        0 <= i <= s.len(),
    ensures
        i <= digit_end(s, i) <= s.len(),
        digit_end(s, i) < s.len() ==> !is_digit(s[digit_end(s, i)]),
        forall|k: int| i <= k < digit_end(s, i) ==> is_digit(#[trigger] s[k]),
    decreases s.len() - i,
{
    if i < s.len() && is_digit(s[i]) {
        lemma_digit_end_bounds(s, i + 1);
    }
}

pub proof fn lemma_digit_end_at(s: Seq<char>, i: int, j: int)
    requires
        0 <= i <= j <= s.len(),
        forall|k: int| i <= k < j ==> is_digit(#[trigger] s[k]),
        j < s.len() ==> !is_digit(s[j]),
    ensures
        digit_end(s, i) == j,
    decreases j - i,
{
    if i < j {
        lemma_digit_end_at(s, i + 1, j);
    }
}

/// The value of the digit run `s[i..j]`, read most significant first.
pub open spec fn digits_val(s: Seq<char>, i: int, j: int) -> nat
    decreases j - i,
{
    if i >= j {
        0
    } else {
        digits_val(s, i, j - 1) * 10 + digit_val(s[j - 1])
    }
}

/// Extending a digit run to the right never shrinks its value.
pub proof fn lemma_digits_val_monotone(s: Seq<char>, i: int, k: int, j: int)
    requires
        i <= k <= j,
    ensures
        digits_val(s, i, k) <= digits_val(s, i, j),
    decreases j - k,
{
    if k < j {
        lemma_digits_val_monotone(s, i, k, j - 1);
        assert(digits_val(s, i, j - 1) * 10 >= digits_val(s, i, j - 1) * 1);
    }
}

/// The decimal rendering of a number, most significant digit first.
pub open spec fn dec_digits(n: nat) -> Seq<char>
    decreases n,
{
    if n < 10 {
        seq![digit_char(n)]
    } else {
        dec_digits(n / 10).push(digit_char(n % 10))
    }
}

pub proof fn lemma_dec_digits_shape(n: nat)
    ensures
        dec_digits(n).len() >= 1,
        forall|k: int| 0 <= k < dec_digits(n).len() ==> is_digit(#[trigger] dec_digits(n)[k]),
        dec_digits(n)[0] == '0' ==> n == 0,
    decreases n,
{
    if n >= 10 {
        lemma_div_pos_is_pos(n as int, 10);
        lemma_mod_bound(n as int, 10);
        lemma_dec_digits_shape(n / 10);
    } else {
        lemma_mod_bound(n as int, 10);
    }
}

/// Reading back the decimal rendering gives the number.
pub proof fn lemma_digits_val_of_dec(s: Seq<char>, i: int, n: nat)
    requires
        0 <= i,
        i + dec_digits(n).len() <= s.len(),
        s.subrange(i, i + dec_digits(n).len() as int) == dec_digits(n),
    ensures
        digits_val(s, i, i + dec_digits(n).len() as int) == n,
    decreases n,
{
    let dd = dec_digits(n);
    let j = i + dd.len() as int;
    if n < 10 {
        assert(s[i] == dd[0]);
        assert(digits_val(s, i, i) == 0);
    } else {
        lemma_div_pos_is_pos(n as int, 10);
        lemma_mod_bound(n as int, 10);
        let dq = dec_digits(n / 10);
        assert(dd == dq.push(digit_char(n % 10)));
        assert(s.subrange(i, i + dq.len() as int) =~= dq) by {
            assert(forall|k: int|
                0 <= k < dq.len() ==> s.subrange(i, j)[k] == #[trigger] dq.push(
                    digit_char(n % 10),
                )[k]);
        }
        lemma_digits_val_of_dec(s, i, n / 10);
        assert(s[j - 1] == dd[dd.len() - 1]);
        assert(digit_val(s[j - 1]) == n % 10);
        lemma_fundamental_div_mod(n as int, 10);
    }
}

// ---------------------------------------------------------------------------
// String bodies and escapes
// ---------------------------------------------------------------------------

/// The character a named escape `\e` stands for.
pub open spec fn esc_named(e: char) -> char {
    if e == '"' {
        '"'
    } else if e == '\\' {
        '\\'
    } else if e == '/' {
        '/'
    } else if e == 'b' {
        '\u{8}'
    } else if e == 'f' {
        '\u{c}'
    } else if e == 'n' {
        '\n'
    } else if e == 'r' {
        '\r'
    } else if e == 't' {
        '\t'
    } else {
        e
    }
}

pub open spec fn is_named_esc(e: char) -> bool {
    e == '"' || e == '\\' || e == '/' || e == 'b' || e == 'f' || e == 'n' || e == 'r' || e == 't'
}

/// The code of a four-digit hexadecimal escape starting at `s[i]`.
pub open spec fn hex4_val(s: Seq<char>, i: int) -> nat {
    hex_val(s[i]) * 4096 + hex_val(s[i + 1]) * 256 + hex_val(s[i + 2]) * 16 + hex_val(s[i + 3])
}

pub open spec fn hex4_ok(s: Seq<char>, i: int) -> bool {
    is_hex(s[i]) && is_hex(s[i + 1]) && is_hex(s[i + 2]) && is_hex(s[i + 3])
}

/// Parses the body of a JSON string starting just after the opening quote,
/// up to and including the closing quote. Named escapes and `\uXXXX` escapes
/// with a code below 256 are accepted; any other character stands for itself.
pub open spec fn spec_parse_strbody(s: Seq<char>, i: int) -> Option<(Seq<char>, int)>
    decreases s.len() - i,
{
    if i < 0 || i >= s.len() {
        None
    } else if s[i] == '"' {
        Some((Seq::empty(), i + 1))
    } else if s[i] == '\\' {
        if i + 2 <= s.len() && is_named_esc(s[i + 1]) {
            match spec_parse_strbody(s, i + 2) {
                Some(p) => Some((seq![esc_named(s[i + 1])] + p.0, p.1)),
                None => None,
            }
        } else if i + 6 <= s.len() && s[i + 1] == 'u' && hex4_ok(s, i + 2) && hex4_val(s, i + 2)
            < 256 {
            match spec_parse_strbody(s, i + 6) {
                Some(p) => Some((seq![(hex4_val(s, i + 2) as u32) as char] + p.0, p.1)),
                None => None,
            }
        } else {
            None
        }
    } else {
        match spec_parse_strbody(s, i + 1) {
            Some(p) => Some((seq![s[i]] + p.0, p.1)),
            None => None,
        }
    }
}

pub proof fn lemma_strbody_bounds(s: Seq<char>, i: int)
    ensures
        spec_parse_strbody(s, i) is Some ==> i < (spec_parse_strbody(s, i)->0).1 <= s.len(),
    decreases s.len() - i,
{
    if 0 <= i < s.len() {
        if s[i] == '"' {
        } else if s[i] == '\\' {
            if i + 2 <= s.len() {
                lemma_strbody_bounds(s, i + 2);
            }
            if i + 6 <= s.len() {
                lemma_strbody_bounds(s, i + 6);
            }
        } else {
            lemma_strbody_bounds(s, i + 1);
        }
    }
}

/// One index of an identified subrange, read back in the base sequence.
proof fn lemma_subrange_index(s: Seq<char>, i: int, j: int, sub: Seq<char>, k: int)
    requires
        0 <= i,
        i + sub.len() == j,
        j <= s.len(),
        s.subrange(i, j) == sub,
        0 <= k < sub.len(),
    ensures
        s[i + k] == sub[k],
{
    assert(s.subrange(i, j)[k] == sub[k]);
}

/// The escape sequence the encoder writes for one character: quotes,
/// backslashes and the common control characters get named escapes, other
/// control characters a `\u00XX` escape, everything else stands for itself.
pub open spec fn esc_char(c: char) -> Seq<char> {
    if c == '"' {
        seq!['\\', '"']
    } else if c == '\\' {
        seq!['\\', '\\']
    } else if c == '\u{8}' {
        seq!['\\', 'b']
    } else if c == '\u{c}' {
        seq!['\\', 'f']
    } else if c == '\n' {
        seq!['\\', 'n']
    } else if c == '\r' {
        seq!['\\', 'r']
    } else if c == '\t' {
        seq!['\\', 't']
    } else if (c as u32) < 32 {
        seq!['\\', 'u', '0', '0', hex_char((c as u32 / 16) as nat), hex_char((c as u32 % 16) as nat)]
    } else {
        seq![c]
    }
}

/// The encoded body of a string: each character escaped, in order.
pub open spec fn ser_strbody(d: Seq<char>) -> Seq<char>
    decreases d.len(),
{
    if d.len() == 0 {
        Seq::empty()
    } else {
        ser_strbody(d.drop_last()) + esc_char(d.last())
    }
}

pub proof fn lemma_ser_strbody_cons(d: Seq<char>)
    requires
        d.len() > 0,
    ensures
        ser_strbody(d) == esc_char(d[0]) + ser_strbody(d.drop_first()),
    decreases d.len(),
{
    if d.len() == 1 {
        assert(d.drop_last() =~= Seq::<char>::empty());
        assert(d.drop_first() =~= Seq::<char>::empty());
        assert(ser_strbody(d) =~= esc_char(d[0]) + ser_strbody(d.drop_first()));
    } else {
        let dl = d.drop_last();
        lemma_ser_strbody_cons(dl);
        assert(dl.drop_first() =~= d.drop_first().drop_last());
        assert(d.drop_first().last() == d.last());
        assert(ser_strbody(d) == ser_strbody(dl) + esc_char(d.last()));
        assert(ser_strbody(d.drop_first()) == ser_strbody(d.drop_first().drop_last()) + esc_char(
            d.drop_first().last(),
        ));
        assert(ser_strbody(d) =~= esc_char(d[0]) + ser_strbody(d.drop_first()));
    }
}

/// Parsing the encoded body of a string, followed by its closing quote,
/// yields exactly the original characters.
pub proof fn lemma_parse_ser_strbody(s: Seq<char>, i: int, d: Seq<char>)
    requires
        0 <= i,
        i + ser_strbody(d).len() + 1 <= s.len(),
        s.subrange(i, i + ser_strbody(d).len() + 1) == ser_strbody(d) + seq!['"'],
    ensures
        spec_parse_strbody(s, i) == Some((d, i + ser_strbody(d).len() + 1)),
    decreases d.len(),
{
    let body = ser_strbody(d);
    let j = i + body.len() + 1;
    let full = body + seq!['"'];
    if d.len() == 0 {
        lemma_subrange_index(s, i, j, full, 0);
        assert(full[0] == '"');
        assert(s[i] == '"');
    } else {
        lemma_ser_strbody_cons(d);
        let e = esc_char(d[0]);
        let rest = ser_strbody(d.drop_first());
        assert(body == e + rest);
        let i2 = i + e.len() as int;
        assert forall|k: int| 0 <= k < rest.len() + 1 implies s.subrange(i2, j)[k] == (rest
            + seq!['"'])[k] by {
            lemma_subrange_index(s, i, j, full, e.len() + k);
            assert(full[e.len() + k] == (rest + seq!['"'])[k]);
        }
        assert(s.subrange(i2, j) =~= rest + seq!['"']);
        lemma_parse_ser_strbody(s, i2, d.drop_first());
        let c = d[0];
        assert(forall|k: int| 0 <= k < e.len() ==> full[k] == #[trigger] e[k]);
        if c == '"' || c == '\\' || c == '\u{8}' || c == '\u{c}' || c == '\n' || c == '\r' || c
            == '\t' {
            lemma_subrange_index(s, i, j, full, 0);
            lemma_subrange_index(s, i, j, full, 1);
            assert(s[i] == '\\');
            assert(is_named_esc(s[i + 1]));
            assert(esc_named(s[i + 1]) == c);
            assert(seq![c] + d.drop_first() =~= d);
        } else if (c as u32) < 32 {
            lemma_subrange_index(s, i, j, full, 0);
            lemma_subrange_index(s, i, j, full, 1);
            lemma_subrange_index(s, i, j, full, 2);
            lemma_subrange_index(s, i, j, full, 3);
            lemma_subrange_index(s, i, j, full, 4);
            lemma_subrange_index(s, i, j, full, 5);
            assert(s[i] == '\\');
            assert(s[i + 1] == 'u');
            assert(s[i + 2] == '0');
            assert(s[i + 3] == '0');
            assert(s[i + 4] == hex_char((c as u32 / 16) as nat));
            assert(s[i + 5] == hex_char((c as u32 % 16) as nat));
            assert(!is_named_esc('u'));
            assert(c as u32 / 16 < 2);
            assert(c as u32 % 16 < 16);
            assert(hex4_ok(s, i + 2));
            assert(hex_val(s[i + 2]) == 0);
            assert(hex_val(s[i + 3]) == 0);
            assert(hex_val(s[i + 4]) == c as u32 / 16);
            assert(hex_val(s[i + 5]) == c as u32 % 16);
            assert(hex4_val(s, i + 2) == (c as u32 / 16) * 16 + (c as u32 % 16));
            assert((c as u32 / 16) * 16 + (c as u32 % 16) == c as u32) by {
                lemma_fundamental_div_mod(c as u32 as int, 16);
            }
            assert(hex4_val(s, i + 2) < 256);
            assert((hex4_val(s, i + 2) as u32) as char == c) by {
                vstd::utf8::char_u32_cast(c, c as u32);
            }
            assert(seq![c] + d.drop_first() =~= d);
        } else {
            lemma_subrange_index(s, i, j, full, 0);
            assert(s[i] == c);
            assert(c != '"' && c != '\\');
            assert(seq![c] + d.drop_first() =~= d);
        }
    }
}

// ---------------------------------------------------------------------------
// Tokens and fields
// ---------------------------------------------------------------------------

/// Matches the literal `lit` at exactly position `i`.
pub open spec fn match_lit(s: Seq<char>, i: int, lit: Seq<char>) -> Option<int> {
    if 0 <= i && i + lit.len() <= s.len() && s.subrange(i, i + lit.len() as int) == lit {
        Some(i + lit.len() as int)
    } else {
        None
    }
}

/// Skips whitespace, then consumes exactly the character `c`.
pub open spec fn expect_ch(s: Seq<char>, i: int, c: char) -> Option<int> {
    let a = skip_ws(s, i);
    if a < s.len() && s[a] == c {
        Some(a + 1)
    } else {
        None
    }
}

pub open spec fn key_id() -> Seq<char> {
    seq!['"', 'i', 'd', '"']
}

pub open spec fn key_description() -> Seq<char> {
    seq!['"', 'd', 'e', 's', 'c', 'r', 'i', 'p', 't', 'i', 'o', 'n', '"']
}

pub open spec fn key_completed() -> Seq<char> {
    seq!['"', 'c', 'o', 'm', 'p', 'l', 'e', 't', 'e', 'd', '"']
}

pub open spec fn lit_true() -> Seq<char> {
    seq!['t', 'r', 'u', 'e']
}

pub open spec fn lit_false() -> Seq<char> {
    seq!['f', 'a', 'l', 's', 'e']
}

/// Skips whitespace, consumes the quoted key `name`, then whitespace and
/// the following colon.
pub open spec fn expect_key(s: Seq<char>, i: int, name: Seq<char>) -> Option<int> {
    match match_lit(s, skip_ws(s, i), name) {
        None => None,
        Some(a) => expect_ch(s, a, ':'),
    }
}

/// Skips whitespace, then reads an unsigned decimal number: at least one
/// digit, no superfluous leading zero, value within `u32`.
pub open spec fn spec_parse_u32(s: Seq<char>, i: int) -> Option<(u32, int)> {
    let a = skip_ws(s, i);
    let j = digit_end(s, a);
    if j == a {
        None
    } else if s[a] == '0' && j > a + 1 {
        None
    } else if digits_val(s, a, j) > u32::MAX {
        None
    } else {
        Some((digits_val(s, a, j) as u32, j))
    }
}

/// Skips whitespace, then reads a quoted string.
pub open spec fn spec_parse_string(s: Seq<char>, i: int) -> Option<(Seq<char>, int)> {
    let a = skip_ws(s, i);
    if a < s.len() && s[a] == '"' {
        spec_parse_strbody(s, a + 1)
    } else {
        None
    }
}

/// Skips whitespace, then reads `true` or `false`.
pub open spec fn spec_parse_bool(s: Seq<char>, i: int) -> Option<(bool, int)> {
    let a = skip_ws(s, i);
    if match_lit(s, a, lit_true()) is Some {
        Some((true, a + 4))
    } else if match_lit(s, a, lit_false()) is Some {
        Some((false, a + 5))
    } else {
        None
    }
}

/// Reads one task object: `{"id": N, "description": S, "completed": B}`,
/// fields in this order, whitespace free between tokens.
pub open spec fn spec_parse_task(s: Seq<char>, i: int) -> Option<(TaskView, int)> {
    match expect_ch(s, i, '{') {
        None => None,
        Some(a) => match expect_key(s, a, key_id()) {
            None => None,
            Some(b) => match spec_parse_u32(s, b) {
                None => None,
                Some(idp) => match expect_ch(s, idp.1, ',') {
                    None => None,
                    Some(c) => match expect_key(s, c, key_description()) {
                        None => None,
                        Some(dpos) => match spec_parse_string(s, dpos) {
                            None => None,
                            Some(dp) => match expect_ch(s, dp.1, ',') {
                                None => None,
                                Some(e) => match expect_key(s, e, key_completed()) {
                                    None => None,
                                    Some(f) => match spec_parse_bool(s, f) {
                                        None => None,
                                        Some(bp) => match expect_ch(s, bp.1, '}') {
                                            None => None,
                                            Some(g) => Some(
                                                (
                                                    TaskView {
                                                        id: idp.0 as nat,
                                                        description: dp.0,
                                                        completed: bp.0,
                                                    },
                                                    g,
                                                ),
                                            ),
                                        },
                                    },
                                },
                            },
                        },
                    },
                },
            },
        },
    }
}

/// After the first task of a non-empty array: either a comma and a further
/// task, repeatedly, or the closing bracket.
pub open spec fn spec_parse_rest(s: Seq<char>, i: int) -> Option<(Seq<TaskView>, int)>
    decreases s.len() - i,
{
    let a = skip_ws(s, i);
    if a < s.len() && s[a] == ']' {
        Some((Seq::empty(), a + 1))
    } else if a < s.len() && s[a] == ',' {
        match spec_parse_task(s, a + 1) {
            None => None,
            Some(p) => if i < p.1 && p.1 <= s.len() {
                match spec_parse_rest(s, p.1) {
                    None => None,
                    Some(q) => Some((seq![p.0] + q.0, q.1)),
                }
            } else {
                None
            },
        }
    } else {
        None
    }
}

/// The whole document: a JSON array of task objects, nothing but
/// whitespace after it.
pub open spec fn spec_parse_tasks(s: Seq<char>) -> Option<Seq<TaskView>> {
    match expect_ch(s, 0, '[') {
        None => None,
        Some(a) => {
            let b = skip_ws(s, a);
            if b < s.len() && s[b] == ']' {
                if skip_ws(s, b + 1) == s.len() {
                    Some(Seq::empty())
                } else {
                    None
                }
            } else {
                match spec_parse_task(s, a) {
                    None => None,
                    Some(p) => match spec_parse_rest(s, p.1) {
                        None => None,
                        Some(q) => if skip_ws(s, q.1) == s.len() {
                            Some(seq![p.0] + q.0)
                        } else {
                            None
                        },
                    },
                }
            }
        },
    }
}

// ---------------------------------------------------------------------------
// Rendering
// ---------------------------------------------------------------------------

pub open spec fn task_pre() -> Seq<char> {
    seq![' ', ' ', '{', '\n', ' ', ' ', ' ', ' ', '"', 'i', 'd', '"', ':', ' ']
}

pub open spec fn desc_pre() -> Seq<char> {
    seq![',', '\n', ' ', ' ', ' ', ' ', '"', 'd', 'e', 's', 'c', 'r', 'i', 'p', 't', 'i', 'o', 'n', '"', ':', ' ', '"']
}

pub open spec fn comp_pre() -> Seq<char> {
    seq!['"', ',', '\n', ' ', ' ', ' ', ' ', '"', 'c', 'o', 'm', 'p', 'l', 'e', 't', 'e', 'd', '"', ':', ' ']
}

pub open spec fn task_post() -> Seq<char> {
    seq!['\n', ' ', ' ', '}']
}

pub open spec fn bool_lit(b: bool) -> Seq<char> {
    if b {
        lit_true()
    } else {
        lit_false()
    }
}

/// One task as the encoder renders it, two-space indented at depth one.
pub open spec fn ser_task(t: TaskView) -> Seq<char> {
    task_pre() + (dec_digits(t.id) + (desc_pre() + (ser_strbody(t.description) + (comp_pre()
        + (bool_lit(t.completed) + task_post())))))
}

/// Every task after the first, each preceded by a comma and a newline.
pub open spec fn rest_items(ts: Seq<TaskView>) -> Seq<char>
    decreases ts.len(),
{
    if ts.len() == 0 {
        Seq::empty()
    } else {
        seq![',', '\n'] + (ser_task(ts[0]) + rest_items(ts.drop_first()))
    }
}

/// The whole document as the encoder renders it.
pub open spec fn ser_tasks(ts: Seq<TaskView>) -> Seq<char> {
    if ts.len() == 0 {
        seq!['[', ']']
    } else {
        seq!['[', '\n'] + (ser_task(ts[0]) + (rest_items(ts.drop_first()) + seq!['\n', ']']))
    }
}

// ---------------------------------------------------------------------------
// Bounds of the parsing functions
// ---------------------------------------------------------------------------

pub proof fn lemma_expect_ch_bounds(s: Seq<char>, i: int, c: char)
    requires
        0 <= i <= s.len(),
    ensures
        expect_ch(s, i, c) is Some ==> i < expect_ch(s, i, c)->0 <= s.len(),
{
    lemma_skip_ws_bounds(s, i);
}

pub proof fn lemma_expect_key_bounds(s: Seq<char>, i: int, name: Seq<char>)
    requires
        0 <= i <= s.len(),
    ensures
        expect_key(s, i, name) is Some ==> i < expect_key(s, i, name)->0 <= s.len(),
{
    lemma_skip_ws_bounds(s, i);
    let a = skip_ws(s, i);
    if match_lit(s, a, name) is Some {
        lemma_expect_ch_bounds(s, a + name.len() as int, ':');
    }
}

pub proof fn lemma_parse_u32_bounds(s: Seq<char>, i: int)
    requires
        0 <= i <= s.len(),
    ensures
        spec_parse_u32(s, i) is Some ==> i < (spec_parse_u32(s, i)->0).1 <= s.len(),
{
    lemma_skip_ws_bounds(s, i);
    lemma_digit_end_bounds(s, skip_ws(s, i));
}

pub proof fn lemma_parse_string_bounds(s: Seq<char>, i: int)
    requires
        0 <= i <= s.len(),
    ensures
        spec_parse_string(s, i) is Some ==> i < (spec_parse_string(s, i)->0).1 <= s.len(),
{
    lemma_skip_ws_bounds(s, i);
    lemma_strbody_bounds(s, skip_ws(s, i) + 1);
}

pub proof fn lemma_parse_bool_bounds(s: Seq<char>, i: int)
    requires
        0 <= i <= s.len(),
    ensures
        spec_parse_bool(s, i) is Some ==> i < (spec_parse_bool(s, i)->0).1 <= s.len(),
{
    lemma_skip_ws_bounds(s, i);
}

pub proof fn lemma_parse_task_bounds(s: Seq<char>, i: int)
    requires
        0 <= i <= s.len(),
    ensures
        spec_parse_task(s, i) is Some ==> i < (spec_parse_task(s, i)->0).1 <= s.len(),
{
    lemma_expect_ch_bounds(s, i, '{');
    if expect_ch(s, i, '{') is Some {
        let a = expect_ch(s, i, '{')->0;
        lemma_expect_key_bounds(s, a, key_id());
        if expect_key(s, a, key_id()) is Some {
            let b = expect_key(s, a, key_id())->0;
            lemma_parse_u32_bounds(s, b);
            if spec_parse_u32(s, b) is Some {
                let idp = spec_parse_u32(s, b)->0;
                lemma_expect_ch_bounds(s, idp.1, ',');
                if expect_ch(s, idp.1, ',') is Some {
                    let c = expect_ch(s, idp.1, ',')->0;
                    lemma_expect_key_bounds(s, c, key_description());
                    if expect_key(s, c, key_description()) is Some {
                        let dpos = expect_key(s, c, key_description())->0;
                        lemma_parse_string_bounds(s, dpos);
                        if spec_parse_string(s, dpos) is Some {
                            let dp = spec_parse_string(s, dpos)->0;
                            lemma_expect_ch_bounds(s, dp.1, ',');
                            if expect_ch(s, dp.1, ',') is Some {
                                let e = expect_ch(s, dp.1, ',')->0;
                                lemma_expect_key_bounds(s, e, key_completed());
                                if expect_key(s, e, key_completed()) is Some {
                                    let f = expect_key(s, e, key_completed())->0;
                                    lemma_parse_bool_bounds(s, f);
                                    if spec_parse_bool(s, f) is Some {
                                        let bp = spec_parse_bool(s, f)->0;
                                        lemma_expect_ch_bounds(s, bp.1, '}');
                                    }
                                }
                            }
                        }
                    }
                }
            }
        }
    }
}

// ---------------------------------------------------------------------------
// Round trip: parsing a rendering
// ---------------------------------------------------------------------------

/// Splitting an identified subrange at a concatenation boundary.
proof fn lemma_concat_split(s: Seq<char>, i: int, a: Seq<char>, b: Seq<char>)
    requires
        0 <= i,
        i + a.len() + b.len() <= s.len(),
        s.subrange(i, i + a.len() + b.len()) == a + b,
    ensures
        s.subrange(i, i + a.len() as int) == a,
        s.subrange(i + a.len() as int, i + a.len() + b.len()) == b,
{
    let ab = a + b;
    let j = i + ab.len() as int;
    assert forall|k: int| 0 <= k < a.len() implies s.subrange(i, i + a.len() as int)[k] == a[k] by {
        lemma_subrange_index(s, i, j, ab, k);
        assert(ab[k] == a[k]);
    }
    assert(s.subrange(i, i + a.len() as int) =~= a);
    assert forall|k: int| 0 <= k < b.len() implies s.subrange(i + a.len() as int, j)[k] == b[k] by {
        lemma_subrange_index(s, i, j, ab, a.len() + k);
        assert(ab[a.len() + k] == b[k]);
    }
    assert(s.subrange(i + a.len() as int, j) =~= b);
}

/// The rendering of one task, carved into its seven pieces.
proof fn lemma_ser_task_pieces(s: Seq<char>, m: int, t: TaskView)
    requires
        0 <= m,
        m + ser_task(t).len() <= s.len(),
        s.subrange(m, m + ser_task(t).len() as int) == ser_task(t),
    ensures
        ser_task(t).len() == 60 + dec_digits(t.id).len() + ser_strbody(t.description).len()
            + bool_lit(t.completed).len(),
        s.subrange(m, m + 14) == task_pre(),
        s.subrange(m + 14, m + 14 + dec_digits(t.id).len() as int) == dec_digits(t.id),
        s.subrange(
            m + 14 + dec_digits(t.id).len() as int,
            m + 36 + dec_digits(t.id).len() as int,
        ) == desc_pre(),
        s.subrange(
            m + 36 + dec_digits(t.id).len() as int,
            m + 36 + dec_digits(t.id).len() + ser_strbody(t.description).len() as int,
        ) == ser_strbody(t.description),
        s.subrange(
            m + 36 + dec_digits(t.id).len() + ser_strbody(t.description).len() as int,
            m + 56 + dec_digits(t.id).len() + ser_strbody(t.description).len() as int,
        ) == comp_pre(),
        s.subrange(
            m + 56 + dec_digits(t.id).len() + ser_strbody(t.description).len() as int,
            m + 56 + dec_digits(t.id).len() + ser_strbody(t.description).len() + bool_lit(
                t.completed,
            ).len() as int,
        ) == bool_lit(t.completed),
        s.subrange(
            m + 56 + dec_digits(t.id).len() + ser_strbody(t.description).len() + bool_lit(
                t.completed,
            ).len() as int,
            m + ser_task(t).len() as int,
        ) == task_post(),
{
    let dd = dec_digits(t.id);
    let dl = dd.len() as int;
    let sb = ser_strbody(t.description);
    let sl = sb.len() as int;
    let bw = bool_lit(t.completed);
    let p1 = m + 14;
    let p2 = p1 + dl;
    let p3 = p2 + 22;
    let p4 = p3 + sl;
    let p5 = p4 + 20;
    let rest1 = dd + (desc_pre() + (sb + (comp_pre() + (bw + task_post()))));
    let rest2 = desc_pre() + (sb + (comp_pre() + (bw + task_post())));
    let rest3 = sb + (comp_pre() + (bw + task_post()));
    let rest4 = comp_pre() + (bw + task_post());
    let rest5 = bw + task_post();
    lemma_concat_split(s, m, task_pre(), rest1);
    lemma_concat_split(s, p1, dd, rest2);
    lemma_concat_split(s, p2, desc_pre(), rest3);
    lemma_concat_split(s, p3, sb, rest4);
    lemma_concat_split(s, p4, comp_pre(), rest5);
    lemma_concat_split(s, p5, bw, task_post());
}

/// The opening brace, the id field and its following comma of a rendered
/// task, as the parser sees them.
#[verifier::rlimit(50)]
proof fn lemma_parse_task_head(s: Seq<char>, i: int, m: int, t: TaskView)
    requires
        0 <= i <= m,
        t.id <= u32::MAX,
        m + 14 + dec_digits(t.id).len() + 22 <= s.len(),
        s.subrange(m, m + 14) == task_pre(),
        s.subrange(m + 14, m + 14 + dec_digits(t.id).len() as int) == dec_digits(t.id),
        s.subrange(
            m + 14 + dec_digits(t.id).len() as int,
            m + 36 + dec_digits(t.id).len() as int,
        ) == desc_pre(),
        forall|k: int| i <= k < m ==> is_ws(#[trigger] s[k]),
    ensures
        expect_ch(s, i, '{') == Some(m + 3),
        expect_key(s, m + 3, key_id()) == Some(m + 13),
        spec_parse_u32(s, m + 13) == Some((t.id as u32, m + 14 + dec_digits(t.id).len() as int)),
        expect_ch(s, m + 14 + dec_digits(t.id).len() as int, ',') == Some(
            m + 15 + dec_digits(t.id).len() as int,
        ),
{
    let dd = dec_digits(t.id);
    let dl = dd.len() as int;
    let p1 = m + 14;
    let p2 = p1 + dl;
    let p3 = p2 + 22;
    lemma_dec_digits_shape(t.id);

    // '{'
    assert forall|k: int| i <= k < m + 2 implies is_ws(#[trigger] s[k]) by {
        if k >= m {
            lemma_subrange_index(s, m, p1, task_pre(), k - m);
        }
    }
    lemma_subrange_index(s, m, p1, task_pre(), 2);
    lemma_skip_ws_to(s, i, m + 2);
    assert(expect_ch(s, i, '{') == Some(m + 3));

    // "id":
    assert forall|k: int| m + 3 <= k < m + 8 implies is_ws(#[trigger] s[k]) by {
        lemma_subrange_index(s, m, p1, task_pre(), k - m);
    }
    lemma_subrange_index(s, m, p1, task_pre(), 8);
    lemma_skip_ws_to(s, m + 3, m + 8);
    assert forall|k: int| 0 <= k < 4 implies s.subrange(m + 8, m + 12)[k] == key_id()[k] by {
        lemma_subrange_index(s, m, p1, task_pre(), 8 + k);
    }
    assert(s.subrange(m + 8, m + 12) =~= key_id());
    assert(match_lit(s, m + 8, key_id()) == Some(m + 12));
    lemma_subrange_index(s, m, p1, task_pre(), 12);
    lemma_skip_ws_to(s, m + 12, m + 12);
    assert(expect_key(s, m + 3, key_id()) == Some(m + 13));

    // the number
    lemma_subrange_index(s, m, p1, task_pre(), 13);
    lemma_subrange_index(s, p1, p2, dd, 0);
    lemma_skip_ws_to(s, m + 13, p1);
    assert forall|k: int| p1 <= k < p2 implies is_digit(#[trigger] s[k]) by {
        lemma_subrange_index(s, p1, p2, dd, k - p1);
    }
    lemma_subrange_index(s, p2, p3, desc_pre(), 0);
    assert(s[p2] == ',');
    lemma_digit_end_at(s, p1, p2);
    lemma_digits_val_of_dec(s, p1, t.id);
    if s[p1] == '0' {
        assert(t.id == 0);
    }
    assert(spec_parse_u32(s, m + 13) == Some((t.id as u32, p2)));

    // ','
    lemma_skip_ws_to(s, p2, p2);
    assert(expect_ch(s, p2, ',') == Some(p2 + 1));
}

/// The description field and its following comma of a rendered task.
#[verifier::rlimit(50)]
proof fn lemma_parse_task_desc(s: Seq<char>, p2: int, t: TaskView)
    requires
        0 <= p2,
        p2 + 42 + ser_strbody(t.description).len() <= s.len(),
        s.subrange(p2, p2 + 22) == desc_pre(),
        s.subrange(p2 + 22, p2 + 22 + ser_strbody(t.description).len() as int) == ser_strbody(
            t.description,
        ),
        s.subrange(
            p2 + 22 + ser_strbody(t.description).len() as int,
            p2 + 42 + ser_strbody(t.description).len() as int,
        ) == comp_pre(),
    ensures
        expect_key(s, p2 + 1, key_description()) == Some(p2 + 20),
        spec_parse_string(s, p2 + 20) == Some(
            (t.description, p2 + 23 + ser_strbody(t.description).len() as int),
        ),
        expect_ch(s, p2 + 23 + ser_strbody(t.description).len() as int, ',') == Some(
            p2 + 24 + ser_strbody(t.description).len() as int,
        ),
{
    let sb = ser_strbody(t.description);
    let sl = sb.len() as int;
    let p3 = p2 + 22;
    let p4 = p3 + sl;
    let p5 = p4 + 20;

    // "description":
    assert forall|k: int| p2 + 1 <= k < p2 + 6 implies is_ws(#[trigger] s[k]) by {
        lemma_subrange_index(s, p2, p3, desc_pre(), k - p2);
    }
    lemma_subrange_index(s, p2, p3, desc_pre(), 6);
    lemma_skip_ws_to(s, p2 + 1, p2 + 6);
    assert forall|k: int| 0 <= k < 13 implies s.subrange(p2 + 6, p2 + 19)[k] == key_description()[k]
        by {
        lemma_subrange_index(s, p2, p3, desc_pre(), 6 + k);
    }
    assert(s.subrange(p2 + 6, p2 + 19) =~= key_description());
    assert(match_lit(s, p2 + 6, key_description()) == Some(p2 + 19));
    lemma_subrange_index(s, p2, p3, desc_pre(), 19);
    lemma_skip_ws_to(s, p2 + 19, p2 + 19);
    assert(expect_key(s, p2 + 1, key_description()) == Some(p2 + 20));

    // the string
    lemma_subrange_index(s, p2, p3, desc_pre(), 20);
    lemma_subrange_index(s, p2, p3, desc_pre(), 21);
    lemma_skip_ws_to(s, p2 + 20, p2 + 21);
    lemma_subrange_index(s, p4, p5, comp_pre(), 0);
    assert(s[p4] == '"');
    assert forall|k: int| 0 <= k < sl + 1 implies s.subrange(p3, p4 + 1)[k] == (sb
        + seq!['"'])[k] by {
        if k < sl {
            lemma_subrange_index(s, p3, p4, sb, k);
        }
    }
    assert(s.subrange(p3, p4 + 1) =~= sb + seq!['"']);
    lemma_parse_ser_strbody(s, p3, t.description);
    assert(spec_parse_string(s, p2 + 20) == Some((t.description, p4 + 1)));

    // ','
    lemma_subrange_index(s, p4, p5, comp_pre(), 1);
    lemma_skip_ws_to(s, p4 + 1, p4 + 1);
    assert(expect_ch(s, p4 + 1, ',') == Some(p4 + 2));
}

/// The completed field and the closing brace of a rendered task.
#[verifier::rlimit(50)]
proof fn lemma_parse_task_tail(s: Seq<char>, p4: int, t: TaskView)
    requires
        0 <= p4,
        p4 + 24 + bool_lit(t.completed).len() <= s.len(),
        s.subrange(p4, p4 + 20) == comp_pre(),
        s.subrange(p4 + 20, p4 + 20 + bool_lit(t.completed).len() as int) == bool_lit(t.completed),
        s.subrange(
            p4 + 20 + bool_lit(t.completed).len() as int,
            p4 + 24 + bool_lit(t.completed).len() as int,
        ) == task_post(),
    ensures
        expect_key(s, p4 + 2, key_completed()) == Some(p4 + 19),
        spec_parse_bool(s, p4 + 19) == Some(
            (t.completed, p4 + 20 + bool_lit(t.completed).len() as int),
        ),
        expect_ch(s, p4 + 20 + bool_lit(t.completed).len() as int, '}') == Some(
            p4 + 24 + bool_lit(t.completed).len() as int,
        ),
{
    let bw = bool_lit(t.completed);
    let bl = bw.len() as int;
    let p5 = p4 + 20;
    let p6 = p5 + bl;
    let j = p6 + 4;

    // "completed":
    assert forall|k: int| p4 + 2 <= k < p4 + 7 implies is_ws(#[trigger] s[k]) by {
        lemma_subrange_index(s, p4, p5, comp_pre(), k - p4);
    }
    lemma_subrange_index(s, p4, p5, comp_pre(), 7);
    lemma_skip_ws_to(s, p4 + 2, p4 + 7);
    assert forall|k: int| 0 <= k < 11 implies s.subrange(p4 + 7, p4 + 18)[k] == key_completed()[k]
        by {
        lemma_subrange_index(s, p4, p5, comp_pre(), 7 + k);
    }
    assert(s.subrange(p4 + 7, p4 + 18) =~= key_completed());
    assert(match_lit(s, p4 + 7, key_completed()) == Some(p4 + 18));
    lemma_subrange_index(s, p4, p5, comp_pre(), 18);
    lemma_skip_ws_to(s, p4 + 18, p4 + 18);
    assert(expect_key(s, p4 + 2, key_completed()) == Some(p4 + 19));

    // the flag
    lemma_subrange_index(s, p4, p5, comp_pre(), 19);
    lemma_subrange_index(s, p5, p6, bw, 0);
    lemma_skip_ws_to(s, p4 + 19, p5);
    if t.completed {
        assert(s.subrange(p5, p5 + 4) == lit_true());
        assert(match_lit(s, p5, lit_true()) == Some(p5 + 4));
    } else {
        assert(s[p5] == 'f');
        assert(s.subrange(p5, p5 + 4)[0] == 'f');
        assert(match_lit(s, p5, lit_true()) is None);
        assert(s.subrange(p5, p5 + 5) == lit_false());
        assert(match_lit(s, p5, lit_false()) == Some(p5 + 5));
    }
    assert(spec_parse_bool(s, p4 + 19) == Some((t.completed, p6)));

    // '}'
    assert forall|k: int| p6 <= k < p6 + 3 implies is_ws(#[trigger] s[k]) by {
        lemma_subrange_index(s, p6, j, task_post(), k - p6);
    }
    lemma_subrange_index(s, p6, j, task_post(), 3);
    lemma_skip_ws_to(s, p6, p6 + 3);
    assert(expect_ch(s, p6, '}') == Some(j));
}

/// Parsing one rendered task, possibly after leading whitespace, yields
/// exactly that task and stops right after its closing brace.
#[verifier::rlimit(50)]
pub proof fn lemma_parse_task_of_ser(s: Seq<char>, i: int, m: int, t: TaskView)
    requires
        0 <= i <= m,
        t.id <= u32::MAX,
        m + ser_task(t).len() <= s.len(),
        s.subrange(m, m + ser_task(t).len() as int) == ser_task(t),
        forall|k: int| i <= k < m ==> is_ws(#[trigger] s[k]),
    ensures
        spec_parse_task(s, i) == Some((t, m + ser_task(t).len() as int)),
{
    let dl = dec_digits(t.id).len() as int;
    let sl = ser_strbody(t.description).len() as int;
    let bl = bool_lit(t.completed).len() as int;
    let p2 = m + 14 + dl;
    let p4 = p2 + 22 + sl;
    let j = m + ser_task(t).len() as int;
    lemma_ser_task_pieces(s, m, t);
    lemma_parse_task_head(s, i, m, t);
    lemma_parse_task_desc(s, p2, t);
    lemma_parse_task_tail(s, p4, t);
    assert((t.id as u32) as nat == t.id);
    assert(spec_parse_task(s, i) == Some((t, j)));
}

/// Parsing the tail of a rendered array (separators, further tasks, the
/// closing bracket) yields exactly the remaining tasks.
#[verifier::rlimit(100)]
pub proof fn lemma_parse_rest_of_items(s: Seq<char>, i: int, ts: Seq<TaskView>)
    requires
        0 <= i,
        tasks_wf(ts),
        i + rest_items(ts).len() + 2 <= s.len(),
        s.subrange(i, i + rest_items(ts).len() + 2) == rest_items(ts) + seq!['\n', ']'],
    ensures
        spec_parse_rest(s, i) == Some((ts, i + rest_items(ts).len() + 2)),
    decreases ts.len(),
{
    let tail = seq!['\n', ']'];
    let full = rest_items(ts) + tail;
    let end = i + full.len() as int;
    if ts.len() == 0 {
        lemma_subrange_index(s, i, end, full, 0);
        lemma_subrange_index(s, i, end, full, 1);
        assert(s[i] == '\n');
        assert(s[i + 1] == ']');
        lemma_skip_ws_to(s, i, i + 1);
        assert(spec_parse_rest(s, i) == Some((Seq::<TaskView>::empty(), i + 2)));
        assert(Seq::<TaskView>::empty() =~= ts);
    } else {
        let dr = ts.drop_first();
        let t0 = ts[0];
        let ser0 = ser_task(t0);
        let m2 = i + 2 + ser0.len() as int;
        assert(full =~= seq![',', '\n'] + (ser0 + (rest_items(dr) + tail)));
        lemma_concat_split(s, i, seq![',', '\n'], ser0 + (rest_items(dr) + tail));
        lemma_concat_split(s, i + 2, ser0, rest_items(dr) + tail);
        lemma_subrange_index(s, i, i + 2, seq![',', '\n'], 0);
        lemma_subrange_index(s, i, i + 2, seq![',', '\n'], 1);
        assert(s[i] == ',');
        assert(s[i + 1] == '\n');
        lemma_skip_ws_to(s, i, i);
        assert(task_wf(t0));
        lemma_parse_task_of_ser(s, i + 1, i + 2, t0);
        assert(spec_parse_task(s, i + 1) == Some((t0, m2)));
        assert(forall|k: int| 0 <= k < dr.len() ==> task_wf(#[trigger] dr[k]) && dr[k] == ts[k
            + 1]);
        lemma_parse_rest_of_items(s, m2, dr);
        assert(seq![t0] + dr =~= ts);
        assert(spec_parse_rest(s, i) == Some((ts, end)));
    }
}

/// The round trip: parsing a rendered task list yields exactly that list.
pub proof fn lemma_parse_ser_tasks(ts: Seq<TaskView>)
    requires
        tasks_wf(ts),
    ensures
        spec_parse_tasks(ser_tasks(ts)) == Some(ts),
{
    if ts.len() == 0 {
        let s = ser_tasks(ts);
        assert(s[0] == '[');
        assert(s[1] == ']');
        lemma_skip_ws_to(s, 0, 0);
        assert(expect_ch(s, 0, '[') == Some(1int));
        lemma_skip_ws_to(s, 1, 1);
        assert(spec_parse_tasks(s) == Some(Seq::<TaskView>::empty()));
        assert(Seq::<TaskView>::empty() =~= ts);
    } else {
        lemma_parse_ser_tasks_nonempty(ts);
    }
}

/// The rendered document of a non-empty list, carved at its seams.
#[verifier::rlimit(100)]
proof fn lemma_ser_tasks_split(ts: Seq<TaskView>)
    requires
        ts.len() > 0,
    ensures
        ser_tasks(ts).len() == 2 + ser_task(ts[0]).len() + rest_items(ts.drop_first()).len() + 2,
        ser_tasks(ts)[0] == '[',
        ser_tasks(ts)[1] == '\n',
        ser_tasks(ts).subrange(2, 2 + ser_task(ts[0]).len() as int) == ser_task(ts[0]),
        ser_tasks(ts).subrange(
            2 + ser_task(ts[0]).len() as int,
            ser_tasks(ts).len() as int,
        ) == rest_items(ts.drop_first()) + seq!['\n', ']'],
{
    let s = ser_tasks(ts);
    let ser0 = ser_task(ts[0]);
    let ri = rest_items(ts.drop_first());
    let t2 = seq!['\n', ']'];
    let c2 = seq!['[', '\n'];
    let m2 = 2 + ser0.len() as int;
    assert(s.subrange(0, s.len() as int) =~= s);
    assert(s =~= (c2 + ser0) + (ri + t2));
    lemma_concat_split(s, 0, c2 + ser0, ri + t2);
    lemma_concat_split(s, 0, c2, ser0);
    assert(s.subrange(m2, s.len() as int) == ri + t2);
    assert(s[0] == s.subrange(0, 2)[0]);
    assert(s[1] == s.subrange(0, 2)[1]);
}

/// Folding the component parses into the parse of the whole document.
proof fn lemma_assemble_tasks(s: Seq<char>, t0: TaskView, dr: Seq<TaskView>, m2: int)
    requires
        expect_ch(s, 0, '[') == Some(1int),
        skip_ws(s, 1) < s.len(),
        s[skip_ws(s, 1)] != ']',
        spec_parse_task(s, 1) == Some((t0, m2)),
        spec_parse_rest(s, m2) == Some((dr, s.len() as int)),
    ensures
        spec_parse_tasks(s) == Some(seq![t0] + dr),
{
}

/// Parsing the two carved pieces of a rendered non-empty document.
#[verifier::rlimit(100)]
proof fn lemma_parse_pieces(s: Seq<char>, t0: TaskView, dr: Seq<TaskView>)
    requires
        task_wf(t0),
        tasks_wf(dr),
        s.len() == 2 + ser_task(t0).len() + rest_items(dr).len() + 2,
        s.subrange(2, 2 + ser_task(t0).len() as int) == ser_task(t0),
        s.subrange(2 + ser_task(t0).len() as int, s.len() as int) == rest_items(dr)
            + seq!['\n', ']'],
        s[1] == '\n',
    ensures
        spec_parse_task(s, 1) == Some((t0, 2 + ser_task(t0).len() as int)),
        spec_parse_rest(s, 2 + ser_task(t0).len() as int) == Some((dr, s.len() as int)),
        skip_ws(s, 1) == 4,
        s[4] == '{',
{
    let ser0 = ser_task(t0);
    let m2 = 2 + ser0.len() as int;
    assert(ser0.len() >= 14);
    assert(ser0[0] == ' ' && ser0[1] == ' ' && ser0[2] == '{');
    assert(s[2] == s.subrange(2, m2)[0]);
    assert(s[3] == s.subrange(2, m2)[1]);
    assert(s[4] == s.subrange(2, m2)[2]);
    lemma_skip_ws_to(s, 1, 4);
    lemma_parse_task_of_ser(s, 1, 2, t0);
    lemma_parse_rest_of_items(s, m2, dr);
}

/// The round trip for a non-empty list.
#[verifier::rlimit(100)]
proof fn lemma_parse_ser_tasks_nonempty(ts: Seq<TaskView>)
    requires
        tasks_wf(ts),
        ts.len() > 0,
    ensures
        spec_parse_tasks(ser_tasks(ts)) == Some(ts),
{
    let s = ser_tasks(ts);
    let dr = ts.drop_first();
    let t0 = ts[0];
    let m2 = 2 + ser_task(t0).len() as int;
    lemma_ser_tasks_split(ts);
    assert(forall|k: int| 0 <= k < dr.len() ==> task_wf(#[trigger] dr[k]) && dr[k] == ts[k + 1]);
    lemma_parse_pieces(s, t0, dr);
    lemma_skip_ws_to(s, 0, 0);
    assert(expect_ch(s, 0, '[') == Some(1int));
    lemma_assemble_tasks(s, t0, dr, m2);
    assert(seq![t0] + dr =~= ts);
}

/// Appending one task to the tail rendering appends one separator and one
/// rendered task.
#[verifier::rlimit(100)]
pub proof fn lemma_rest_items_snoc(ts: Seq<TaskView>, t: TaskView)
    ensures
        rest_items(ts.push(t)) == rest_items(ts) + (seq![',', '\n'] + ser_task(t)),
    decreases ts.len(),
{
    if ts.len() == 0 {
        assert(ts.push(t)[0] == t);
        assert(ts.push(t).drop_first() =~= Seq::<TaskView>::empty());
        assert(rest_items(Seq::<TaskView>::empty()) == Seq::<char>::empty());
        assert(rest_items(ts.push(t)) == seq![',', '\n'] + (ser_task(t) + Seq::<char>::empty()));
        assert(rest_items(ts) == Seq::<char>::empty());
        assert(rest_items(ts.push(t)) =~= rest_items(ts) + (seq![',', '\n'] + ser_task(t)));
    } else {
        let dr = ts.drop_first();
        assert(ts.push(t)[0] == ts[0]);
        assert(ts.push(t).drop_first() =~= dr.push(t));
        lemma_rest_items_snoc(dr, t);
        assert(rest_items(ts.push(t)) == seq![',', '\n'] + (ser_task(ts[0]) + rest_items(
            dr.push(t),
        )));
        assert(rest_items(ts.push(t)) == seq![',', '\n'] + (ser_task(ts[0]) + (rest_items(dr)
            + (seq![',', '\n'] + ser_task(t)))));
        assert(rest_items(ts) == seq![',', '\n'] + (ser_task(ts[0]) + rest_items(dr)));
        assert(rest_items(ts.push(t)) =~= rest_items(ts) + (seq![',', '\n'] + ser_task(t)));
    }
}

} // verus!
