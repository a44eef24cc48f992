//! The executable encoder and parser for the backing file, verified against
//! the grammar and rendering spec functions of `json`.

use vstd::prelude::*;
use vstd::string::{StrSliceExecFns, StringExecFns};
use crate::json::{
    comp_pre, dec_digits, desc_pre, digit_char, digit_end, digit_val, digits_val, esc_char,
    esc_named, expect_ch, expect_key, hex4_val, hex_char, hex_val, is_digit, is_hex, is_named_esc,
    is_ws, key_completed, key_description, key_id, lemma_digits_val_monotone,
    lemma_parse_task_bounds, lemma_rest_items_snoc, lemma_strbody_bounds, lit_false, lit_true,
    match_lit, rest_items, ser_strbody, ser_task, ser_tasks, skip_ws, spec_parse_bool,
    spec_parse_rest, spec_parse_strbody, spec_parse_string, spec_parse_task, spec_parse_tasks,
    spec_parse_u32, task_post, task_pre,
};
use crate::ops::views;
use crate::task::{Task, TaskView};

verus! {

/// Failure to read the backing file's content as a task list.
#[derive(PartialEq, Eq, Structural, Clone, Copy, Debug)]
pub enum ParseError {
    Malformed,
}

/// Relies on String::push: appends exactly the one character at the end.
#[verifier::external_body]
fn push_char(s: &mut String, c: char)
    ensures
        final(s)@ == old(s)@.push(c),
{
    s.push(c);
}

// ---------------------------------------------------------------------------
// Encoding
// ---------------------------------------------------------------------------

fn digit_char_x(n: u32) -> (c: char)
    requires
        n < 10,
    ensures
        c == digit_char(n as nat),
{
    if n == 0 {
        '0'
    } else if n == 1 {
        '1'
    } else if n == 2 {
        '2'
    } else if n == 3 {
        '3'
    } else if n == 4 {
        '4'
    } else if n == 5 {
        '5'
    } else if n == 6 {
        '6'
    } else if n == 7 {
        '7'
    } else if n == 8 {
        '8'
    } else {
        '9'
    }
}

fn hex_char_x(n: u32) -> (c: char)
    requires
        n < 16,
    ensures
        c == hex_char(n as nat),
{
    if n < 10 {
        digit_char_x(n)
    } else if n == 10 {
        'a'
    } else if n == 11 {
        'b'
    } else if n == 12 {
        'c'
    } else if n == 13 {
        'd'
    } else if n == 14 {
        'e'
    } else {
        'f'
    }
}

/// Appends the decimal rendering of `n`.
pub fn push_u32(n: u32, out: &mut String)
    ensures
        final(out)@ == old(out)@ + dec_digits(n as nat),
    decreases n,
{
    if n < 10 {
        let c = digit_char_x(n);
        push_char(out, c);
        proof {
            assert(old(out)@.push(c) =~= old(out)@ + dec_digits(n as nat));
        }
    } else {
        push_u32(n / 10, out);
        let c = digit_char_x(n % 10);
        push_char(out, c);
        proof {
            assert((old(out)@ + dec_digits((n / 10) as nat)).push(c) =~= old(out)@ + dec_digits(
                n as nat,
            ));
        }
    }
}

/// Appends the escaped body of the description.
fn push_strbody(d: &str, out: &mut String)
    ensures
        final(out)@ == old(out)@ + ser_strbody(d@),
{
    let len = d.unicode_len();
    let mut k: usize = 0;
    proof {
        assert(d@.take(0) =~= Seq::<char>::empty());
        assert(out@ + ser_strbody(d@.take(0)) =~= out@);
    }
    while k < len
        invariant
            k <= len,
            len == d@.len(),
            out@ == old(out)@ + ser_strbody(d@.take(k as int)),
        decreases len - k,
    {
        let c = d.get_char(k);
        let ghost prev = out@;
        if c == '"' {
            push_char(out, '\\');
            push_char(out, '"');
        } else if c == '\\' {
            push_char(out, '\\');
            push_char(out, '\\');
        } else if c == '\u{8}' {
            push_char(out, '\\');
            push_char(out, 'b');
        } else if c == '\u{c}' {
            push_char(out, '\\');
            push_char(out, 'f');
        } else if c == '\n' {
            push_char(out, '\\');
            push_char(out, 'n');
        } else if c == '\r' {
            push_char(out, '\\');
            push_char(out, 'r');
        } else if c == '\t' {
            push_char(out, '\\');
            push_char(out, 't');
        } else if (c as u32) < 32 {
            push_char(out, '\\');
            push_char(out, 'u');
            push_char(out, '0');
            push_char(out, '0');
            let h = hex_char_x((c as u32) / 16);
            push_char(out, h);
            let l = hex_char_x((c as u32) % 16);
            push_char(out, l);
        } else {
            push_char(out, c);
        }
        proof {
            assert(out@ =~= prev + esc_char(c));
            assert(d@.take(k + 1).drop_last() =~= d@.take(k as int));
            assert(d@.take(k + 1).last() == c);
            assert(ser_strbody(d@.take(k + 1)) == ser_strbody(d@.take(k as int)) + esc_char(c));
            assert(out@ =~= old(out)@ + ser_strbody(d@.take(k + 1)));
        }
        k += 1;
    }
    proof {
        assert(d@.take(len as int) =~= d@);
    }
}

/// Appends the rendering of one task.
fn push_task(t: &Task, out: &mut String)
    ensures
        final(out)@ == old(out)@ + ser_task(t@),
{
    proof {
        reveal_strlit("  {\n    \"id\": ");
        reveal_strlit(",\n    \"description\": \"");
        reveal_strlit("\",\n    \"completed\": ");
        reveal_strlit("true");
        reveal_strlit("false");
        reveal_strlit("\n  }");
        assert("  {\n    \"id\": "@ =~= task_pre());
        assert(",\n    \"description\": \""@ =~= desc_pre());
        assert("\",\n    \"completed\": "@ =~= comp_pre());
        assert("true"@ =~= lit_true());
        assert("false"@ =~= lit_false());
        assert("\n  }"@ =~= task_post());
    }
    out.append("  {\n    \"id\": ");
    push_u32(t.id, out);
    out.append(",\n    \"description\": \"");
    push_strbody(t.description.as_str(), out);
    out.append("\",\n    \"completed\": ");
    if t.completed {
        out.append("true");
    } else {
        out.append("false");
    }
    out.append("\n  }");
    proof {
        assert(out@ =~= old(out)@ + ser_task(t@));
    }
}

/// Renders the whole task list as the backing file holds it: a
/// pretty-printed JSON array in the order of the vector.
pub fn serialize_tasks(tasks: &Vec<Task>) -> (r: String)
    ensures
        r@ == ser_tasks(views(tasks@)),
{
    let ghost vs = views(tasks@);
    let n = tasks.len();
    if n == 0 {
        let out = String::from_str("[]");
        proof {
            reveal_strlit("[]");
            assert(out@ =~= ser_tasks(vs));
        }
        return out;
    }
    let mut out = String::new();
    out.append("[\n");
    push_task(&tasks[0], &mut out);
    proof {
        reveal_strlit("[\n");
        assert(vs.subrange(1, 1) =~= Seq::<TaskView>::empty());
        assert(out@ =~= "[\n"@ + ser_task(vs[0]) + rest_items(vs.subrange(1, 1)));
    }
    let mut k: usize = 1;
    while k < n
        invariant
            1 <= k <= n,
            n == tasks@.len(),
            vs == views(tasks@),
            out@ == "[\n"@ + ser_task(vs[0]) + rest_items(vs.subrange(1, k as int)),
        decreases n - k,
    {
        out.append(",\n");
        push_task(&tasks[k], &mut out);
        proof {
            reveal_strlit(",\n");
            assert(",\n"@ =~= seq![',', '\n']);
            lemma_rest_items_snoc(vs.subrange(1, k as int), vs[k as int]);
            assert(vs.subrange(1, k + 1) =~= vs.subrange(1, k as int).push(vs[k as int]));
            assert(out@ =~= "[\n"@ + ser_task(vs[0]) + rest_items(vs.subrange(1, k + 1)));
        }
        k += 1;
    }
    out.append("\n]");
    proof {
        reveal_strlit("[\n");
        reveal_strlit("\n]");
        assert(vs.subrange(1, n as int) =~= vs.drop_first());
        assert(out@ =~= ser_tasks(vs));
    }
    out
}

// ---------------------------------------------------------------------------
// Parsing
// ---------------------------------------------------------------------------

/// The characters of a string, in order.
fn str_chars(s: &str) -> (v: Vec<char>)
    ensures
        v@ == s@,
{
    let len = s.unicode_len();
    let mut v: Vec<char> = Vec::new();
    let mut k: usize = 0;
    while k < len
        invariant
            k <= len,
            len == s@.len(),
            v@ == s@.take(k as int),
        decreases len - k,
    {
        v.push(s.get_char(k));
        proof {
            assert(s@.take(k + 1) =~= s@.take(k as int).push(s@[k as int]));
        }
        k += 1;
    }
    proof {
        assert(s@.take(len as int) =~= s@);
    }
    v
}

fn is_ws_x(c: char) -> (r: bool)
    ensures
        r == is_ws(c),
{
    c == ' ' || c == '\n' || c == '\r' || c == '\t'
}

fn is_digit_x(c: char) -> (r: bool)
    ensures
        r == is_digit(c),
{
    c >= '0' && c <= '9'
}

fn skip_ws_x(v: &Vec<char>, i: usize) -> (j: usize)
    requires
        i <= v.len(),
    ensures
        j as int == skip_ws(v@, i as int),
        i <= j <= v.len(),
{
    let mut k = i;
    while k < v.len() && is_ws_x(v[k])
        invariant
            i <= k <= v.len(),
            skip_ws(v@, i as int) == skip_ws(v@, k as int),
        decreases v.len() - k,
    {
        k += 1;
    }
    k
}

fn digit_val_x(c: char) -> (r: u32)
    requires
        is_digit(c),
    ensures
        r as nat == digit_val(c),
        r < 10,
{
    (c as u32) - 48
}

fn hex_val_x(c: char) -> (r: u32)
    requires
        is_hex(c),
    ensures
        r as nat == hex_val(c),
        r < 16,
{
    if c >= '0' && c <= '9' {
        digit_val_x(c)
    } else if c >= 'a' && c <= 'f' {
        (c as u32) - 97 + 10
    } else {
        (c as u32) - 65 + 10
    }
}

fn is_hex_x(c: char) -> (r: bool)
    ensures
        r == is_hex(c),
{
    (c >= '0' && c <= '9') || (c >= 'a' && c <= 'f') || (c >= 'A' && c <= 'F')
}

/// Reads a decimal number after optional whitespace.
fn parse_u32_x(v: &Vec<char>, i: usize) -> (r: Option<(u32, usize)>)
    requires
        i <= v.len(),
    ensures
        match (spec_parse_u32(v@, i as int), r) {
            (Some(p), Some(e)) => p.0 == e.0 && p.1 == e.1 as int && e.1 <= v.len(),
            (None, None) => true,
            _ => false,
        },
{
    let a = skip_ws_x(v, i);
    let mut j = a;
    while j < v.len() && is_digit_x(v[j])
        invariant
            a <= j <= v.len(),
            digit_end(v@, a as int) == digit_end(v@, j as int),
            forall|q: int| a <= q < j ==> is_digit(#[trigger] v@[q]),
        decreases v.len() - j,
    {
        j += 1;
    }
    proof {
        assert(digit_end(v@, j as int) == j as int);
    }
    if j == a {
        return None;
    }
    if v[a] == '0' && j > a + 1 {
        return None;
    }
    let mut acc: u64 = 0;
    let mut k = a;
    while k < j
        invariant
            i <= a < j <= v.len(),
            a <= k <= j,
            a as int == skip_ws(v@, i as int),
            digit_end(v@, a as int) == j as int,
            !(v@[a as int] == '0' && j > a + 1),
            forall|q: int| a <= q < j ==> is_digit(#[trigger] v@[q]),
            acc == digits_val(v@, a as int, k as int),
            acc <= u32::MAX,
        decreases j - k,
    {
        let d = digit_val_x(v[k]);
        let next: u64 = acc * 10 + d as u64;
        proof {
            assert(next == digits_val(v@, a as int, k + 1));
        }
        if next > u32::MAX as u64 {
            proof {
                lemma_digits_val_monotone(v@, a as int, k + 1, j as int);
                assert(digits_val(v@, a as int, j as int) >= next);
                assert(digits_val(v@, a as int, j as int) > u32::MAX);
                assert(spec_parse_u32(v@, i as int) is None);
            }
            return None;
        }
        acc = next;
        k += 1;
    }
    Some((acc as u32, j))
}

/// Reads the body of a quoted string, the opening quote already consumed.
fn parse_strbody_x(v: &Vec<char>, i: usize) -> (r: Option<(String, usize)>)
    requires
        i <= v.len(),
    ensures
        match (spec_parse_strbody(v@, i as int), r) {
            (Some(p), Some(e)) => p.0 == e.0@ && p.1 == e.1 as int && e.1 <= v.len(),
            (None, None) => true,
            _ => false,
        },
{
    let mut out = String::new();
    let mut k = i;
    while k < v.len()
        invariant
            i <= k <= v.len(),
            spec_parse_strbody(v@, k as int) is Some ==> spec_parse_strbody(v@, i as int)
                == Some(
                (
                    out@ + (spec_parse_strbody(v@, k as int)->0).0,
                    (spec_parse_strbody(v@, k as int)->0).1,
                ),
            ),
            spec_parse_strbody(v@, k as int) is None ==> spec_parse_strbody(v@, i as int) is None,
        decreases v.len() - k,
    {
        let c = v[k];
        if c == '"' {
            proof {
                lemma_strbody_bounds(v@, k as int);
                assert(out@ + Seq::<char>::empty() =~= out@);
            }
            return Some((out, k + 1));
        }
        let ghost prev = out@;
        let ghost kk = k as int;
        if c == '\\' {
            if v.len() - k < 2 {
                proof {
                    assert(spec_parse_strbody(v@, k as int) is None);
                }
                return None;
            }
            let e = v[k + 1];
            if e == '"' || e == '\\' || e == '/' || e == 'b' || e == 'f' || e == 'n' || e == 'r'
                || e == 't' {
                let u = if e == 'b' {
                    '\u{8}'
                } else if e == 'f' {
                    '\u{c}'
                } else if e == 'n' {
                    '\n'
                } else if e == 'r' {
                    '\r'
                } else if e == 't' {
                    '\t'
                } else {
                    e
                };
                assert(u == esc_named(e));
                push_char(&mut out, u);
                k += 2;
                proof {
                    if spec_parse_strbody(v@, k as int) is Some {
                        let p = spec_parse_strbody(v@, k as int)->0;
                        assert(spec_parse_strbody(v@, kk) == Some((seq![u] + p.0, p.1)));
                        assert(prev + (seq![u] + p.0) =~= prev.push(u) + p.0);
                    }
                }
            } else if e == 'u' {
                if v.len() - k < 6 || !(is_hex_x(v[k + 2]) && is_hex_x(v[k + 3]) && is_hex_x(
                    v[k + 4],
                ) && is_hex_x(v[k + 5])) {
                    proof {
                        assert(!is_named_esc('u'));
                        assert(spec_parse_strbody(v@, kk) is None);
                    }
                    return None;
                }
                let code: u32 = hex_val_x(v[k + 2]) * 4096 + hex_val_x(v[k + 3]) * 256 + hex_val_x(
                    v[k + 4],
                ) * 16 + hex_val_x(v[k + 5]);
                proof {
                    assert(code as nat == hex4_val(v@, kk + 2));
                }
                if code >= 256 {
                    proof {
                        assert(!is_named_esc('u'));
                        assert(spec_parse_strbody(v@, kk) is None);
                    }
                    return None;
                }
                let u = (code as u8) as char;
                proof {
                    assert(u as u32 == code);
                    vstd::utf8::char_u32_cast(u, code);
                    assert((code as u32) as char == u);
                }
                push_char(&mut out, u);
                k += 6;
                proof {
                    assert(!is_named_esc('u'));
                    if spec_parse_strbody(v@, k as int) is Some {
                        let p = spec_parse_strbody(v@, k as int)->0;
                        assert(spec_parse_strbody(v@, kk) == Some((seq![u] + p.0, p.1)));
                        assert(prev + (seq![u] + p.0) =~= prev.push(u) + p.0);
                    }
                }
            } else {
                proof {
                    assert(spec_parse_strbody(v@, kk) is None);
                }
                return None;
            }
        } else {
            push_char(&mut out, c);
            k += 1;
            proof {
                if spec_parse_strbody(v@, k as int) is Some {
                    let p = spec_parse_strbody(v@, k as int)->0;
                    assert(spec_parse_strbody(v@, kk) == Some((seq![c] + p.0, p.1)));
                    assert(prev + (seq![c] + p.0) =~= prev.push(c) + p.0);
                }
            }
        }
    }
    None
}

/// Reads a quoted string after optional whitespace.
fn parse_string_x(v: &Vec<char>, i: usize) -> (r: Option<(String, usize)>)
    requires
        i <= v.len(),
    ensures
        match (spec_parse_string(v@, i as int), r) {
            (Some(p), Some(e)) => p.0 == e.0@ && p.1 == e.1 as int && e.1 <= v.len(),
            (None, None) => true,
            _ => false,
        },
{
    let a = skip_ws_x(v, i);
    if a < v.len() && v[a] == '"' {
        parse_strbody_x(v, a + 1)
    } else {
        None
    }
}

/// Consumes exactly the literal `lit` at position `i`.
fn match_lit_x(v: &Vec<char>, i: usize, lit: &Vec<char>) -> (r: Option<usize>)
    requires
        i <= v.len(),
    ensures
        match (match_lit(v@, i as int, lit@), r) {
            (Some(a), Some(e)) => a == e as int && e <= v.len(),
            (None, None) => true,
            _ => false,
        },
{
    if v.len() - i < lit.len() {
        return None;
    }
    let mut k: usize = 0;
    while k < lit.len()
        invariant
            k <= lit.len(),
            i + lit.len() <= v.len(),
            forall|q: int| 0 <= q < k ==> v@[i + q] == lit@[q],
        decreases lit.len() - k,
    {
        if v[i + k] != lit[k] {
            proof {
                if match_lit(v@, i as int, lit@) is Some {
                    assert(v@.subrange(i as int, i + lit@.len())[k as int] == lit@[k as int]);
                }
            }
            return None;
        }
        k += 1;
    }
    proof {
        assert(v@.subrange(i as int, i + lit@.len()) =~= lit@);
    }
    Some(i + lit.len())
}

/// Skips whitespace, then consumes exactly the character `c`.
fn expect_ch_x(v: &Vec<char>, i: usize, c: char) -> (r: Option<usize>)
    requires
        i <= v.len(),
    ensures
        match (expect_ch(v@, i as int, c), r) {
            (Some(a), Some(e)) => a == e as int && e <= v.len(),
            (None, None) => true,
            _ => false,
        },
{
    let a = skip_ws_x(v, i);
    if a < v.len() && v[a] == c {
        Some(a + 1)
    } else {
        None
    }
}

/// Skips whitespace, consumes the quoted key `lit`, whitespace, and a colon.
fn expect_key_x(v: &Vec<char>, i: usize, lit: &Vec<char>) -> (r: Option<usize>)
    requires
        i <= v.len(),
    ensures
        match (expect_key(v@, i as int, lit@), r) {
            (Some(a), Some(e)) => a == e as int && e <= v.len(),
            (None, None) => true,
            _ => false,
        },
{
    let a = skip_ws_x(v, i);
    match match_lit_x(v, a, lit) {
        None => None,
        Some(b) => expect_ch_x(v, b, ':'),
    }
}

/// Reads one task object.
fn parse_task_x(v: &Vec<char>, i: usize, kid: &Vec<char>, kdesc: &Vec<char>, kcomp: &Vec<char>) -> (r:
    Option<(Task, usize)>)
    requires
        i <= v.len(),
        kid@ == key_id(),
        kdesc@ == key_description(),
        kcomp@ == key_completed(),
    ensures
        match (spec_parse_task(v@, i as int), r) {
            (Some(p), Some(e)) => p.0 == e.0@ && p.1 == e.1 as int && e.1 <= v.len(),
            (None, None) => true,
            _ => false,
        },
{
    let a = match expect_ch_x(v, i, '{') {
        Some(x) => x,
        None => {
            return None;
        },
    };
    let b = match expect_key_x(v, a, kid) {
        Some(x) => x,
        None => {
            return None;
        },
    };
    let (idv, c0) = match parse_u32_x(v, b) {
        Some(x) => x,
        None => {
            return None;
        },
    };
    let c1 = match expect_ch_x(v, c0, ',') {
        Some(x) => x,
        None => {
            return None;
        },
    };
    let d0 = match expect_key_x(v, c1, kdesc) {
        Some(x) => x,
        None => {
            return None;
        },
    };
    let (desc, d1) = match parse_string_x(v, d0) {
        Some(x) => x,
        None => {
            return None;
        },
    };
    let e0 = match expect_ch_x(v, d1, ',') {
        Some(x) => x,
        None => {
            return None;
        },
    };
    let f0 = match expect_key_x(v, e0, kcomp) {
        Some(x) => x,
        None => {
            return None;
        },
    };
    let (bv, g0) = match parse_bool_x(v, f0) {
        Some(x) => x,
        None => {
            return None;
        },
    };
    let g1 = match expect_ch_x(v, g0, '}') {
        Some(x) => x,
        None => {
            return None;
        },
    };
    Some((Task { id: idv, description: desc, completed: bv }, g1))
}

/// Reads the whole document from text. Fails with `Malformed` exactly on
/// the texts the grammar rejects.
#[verifier::rlimit(100)]
pub fn parse_tasks(s: &str) -> (r: Result<Vec<Task>, ParseError>)
    ensures
        match spec_parse_tasks(s@) {
            Some(ts) => r is Ok && views(r->Ok_0@) == ts,
            None => r == Err::<Vec<Task>, ParseError>(ParseError::Malformed),
        },
{
    let v = str_chars(s);
    let kid = str_chars("\"id\"");
    let kdesc = str_chars("\"description\"");
    let kcomp = str_chars("\"completed\"");
    proof {
        reveal_strlit("\"id\"");
        reveal_strlit("\"description\"");
        reveal_strlit("\"completed\"");
        assert(kid@ =~= key_id());
        assert(kdesc@ =~= key_description());
        assert(kcomp@ =~= key_completed());
    }
    let a = match expect_ch_x(&v, 0, '[') {
        Some(x) => x,
        None => {
            return Err(ParseError::Malformed);
        },
    };
    let b = skip_ws_x(&v, a);
    if b < v.len() && v[b] == ']' {
        let e = skip_ws_x(&v, b + 1);
        if e == v.len() {
            let out: Vec<Task> = Vec::new();
            proof {
                assert(views(out@) =~= Seq::<TaskView>::empty());
            }
            return Ok(out);
        } else {
            return Err(ParseError::Malformed);
        }
    }
    let (t0, first_pos) = match parse_task_x(&v, a, &kid, &kdesc, &kcomp) {
        Some(x) => x,
        None => {
            return Err(ParseError::Malformed);
        },
    };
    let ghost p10 = first_pos as int;
    let mut out: Vec<Task> = Vec::new();
    let ghost t0v = t0@;
    out.push(t0);
    let mut pos = first_pos;
    loop
        invariant
            pos <= v.len(),
            v@ == s@,
            kid@ == key_id(),
            kdesc@ == key_description(),
            kcomp@ == key_completed(),
            expect_ch(v@, 0, '[') == Some(a as int),
            !(skip_ws(v@, a as int) < v@.len() && v@[skip_ws(v@, a as int)] == ']'),
            spec_parse_task(v@, a as int) == Some((t0v, p10)),
            out@.len() >= 1,
            views(out@)[0] == t0v,
            spec_parse_rest(v@, pos as int) is Some ==> spec_parse_rest(v@, p10) == Some(
                (
                    views(out@).drop_first() + (spec_parse_rest(v@, pos as int)->0).0,
                    (spec_parse_rest(v@, pos as int)->0).1,
                ),
            ),
            spec_parse_rest(v@, pos as int) is None ==> spec_parse_rest(v@, p10) is None,
        decreases v.len() - pos,
    {
        let ghost posk = pos as int;
        let a2 = skip_ws_x(&v, pos);
        if a2 < v.len() && v[a2] == ']' {
            proof {
                assert(spec_parse_rest(v@, posk) == Some(
                    (Seq::<TaskView>::empty(), (a2 + 1) as int),
                ));
                assert(views(out@).drop_first() + Seq::<TaskView>::empty() =~= views(
                    out@,
                ).drop_first());
            }
            let e = skip_ws_x(&v, a2 + 1);
            if e == v.len() {
                proof {
                    assert(seq![t0v] + views(out@).drop_first() =~= views(out@));
                }
                return Ok(out);
            } else {
                return Err(ParseError::Malformed);
            }
        } else if a2 < v.len() && v[a2] == ',' {
            let (t, np) = match parse_task_x(&v, a2 + 1, &kid, &kdesc, &kcomp) {
                Some(x) => x,
                None => {
                    proof {
                        assert(spec_parse_rest(v@, posk) is None);
                    }
                    return Err(ParseError::Malformed);
                },
            };
            proof {
                lemma_parse_task_bounds(v@, (a2 + 1) as int);
                assert(posk < np as int <= v@.len());
            }
            let ghost prev_out = out@;
            out.push(t);
            pos = np;
            proof {
                assert(views(out@) =~= views(prev_out).push(t@));
                assert(views(out@)[0] == t0v);
                assert(views(out@).drop_first() =~= views(prev_out).drop_first().push(t@));
                if spec_parse_rest(v@, pos as int) is Some {
                    let q = spec_parse_rest(v@, pos as int)->0;
                    assert(spec_parse_rest(v@, posk) == Some((seq![t@] + q.0, q.1)));
                    assert(views(prev_out).drop_first() + (seq![t@] + q.0) =~= views(
                        out@,
                    ).drop_first() + q.0);
                }
            }
        } else {
            proof {
                assert(spec_parse_rest(v@, posk) is None);
            }
            return Err(ParseError::Malformed);
        }
    }
}

/// The views of executable tasks are always representable: their
/// identifiers are machine integers.
pub proof fn lemma_views_wf(ts: Seq<Task>)
    ensures
        crate::task::tasks_wf(views(ts)),
{
    assert forall|i: int| 0 <= i < views(ts).len() implies crate::task::task_wf(
        #[trigger] views(ts)[i],
    ) by {
        assert(views(ts)[i] == ts[i]@);
    }
}

/// The round trip, stated for any task vector: the text `serialize_tasks`
/// renders for it is parsed by `parse_tasks` back to the same tasks, same
/// fields, same order.
pub proof fn lemma_save_load_round_trip(ts: Seq<Task>)
    ensures
        spec_parse_tasks(ser_tasks(views(ts))) == Some(views(ts)),
{
    lemma_views_wf(ts);
    crate::json::lemma_parse_ser_tasks(views(ts));
}

/// Turns the backing file's content into the task list: a missing file
/// (`None`) is an empty list, not an error; text the grammar rejects is a
/// `ParseError`.
pub fn load_contents(content: Option<&str>) -> (r: Result<Vec<Task>, ParseError>)
    ensures
        content is None ==> r is Ok && views(r->Ok_0@) == Seq::<TaskView>::empty(),
        content matches Some(text) ==> match spec_parse_tasks(text@) {
            Some(ts) => r is Ok && views(r->Ok_0@) == ts,
            None => r == Err::<Vec<Task>, ParseError>(ParseError::Malformed),
        },
{
    match content {
        None => {
            let out: Vec<Task> = Vec::new();
            proof {
                assert(views(out@) =~= Seq::<TaskView>::empty());
            }
            Ok(out)
        },
        Some(text) => parse_tasks(text),
    }
}

/// Reads `true` or `false` after optional whitespace.
fn parse_bool_x(v: &Vec<char>, i: usize) -> (r: Option<(bool, usize)>)
    requires
        i <= v.len(),
    ensures
        match (spec_parse_bool(v@, i as int), r) {
            (Some(p), Some(e)) => p.0 == e.0 && p.1 == e.1 as int && e.1 <= v.len(),
            (None, None) => true,
            _ => false,
        },
{
    let a = skip_ws_x(v, i);
    if v.len() - a >= 4 && v[a] == 't' && v[a + 1] == 'r' && v[a + 2] == 'u' && v[a + 3] == 'e' {
        proof {
            assert(v@.subrange(a as int, a + 4) =~= lit_true());
        }
        Some((true, a + 4))
    } else if v.len() - a >= 5 && v[a] == 'f' && v[a + 1] == 'a' && v[a + 2] == 'l' && v[a + 3]
        == 's' && v[a + 4] == 'e' {
        proof {
            assert(match_lit(v@, a as int, lit_true()) is None) by {
                if match_lit(v@, a as int, lit_true()) is Some {
                    assert(v@.subrange(a as int, a + 4)[0] == 't');
                }
            }
            assert(v@.subrange(a as int, a + 5) =~= lit_false());
        }
        Some((false, a + 5))
    } else {
        proof {
            assert(match_lit(v@, a as int, lit_true()) is None) by {
                if match_lit(v@, a as int, lit_true()) is Some {
                    assert(v@.subrange(a as int, a + 4)[0] == v@[a as int]);
                    assert(v@.subrange(a as int, a + 4)[1] == v@[a + 1]);
                    assert(v@.subrange(a as int, a + 4)[2] == v@[a + 2]);
                    assert(v@.subrange(a as int, a + 4)[3] == v@[a + 3]);
                }
            }
            assert(match_lit(v@, a as int, lit_false()) is None) by {
                if match_lit(v@, a as int, lit_false()) is Some {
                    assert(v@.subrange(a as int, a + 5)[0] == v@[a as int]);
                    assert(v@.subrange(a as int, a + 5)[1] == v@[a + 1]);
                    assert(v@.subrange(a as int, a + 5)[2] == v@[a + 2]);
                    assert(v@.subrange(a as int, a + 5)[3] == v@[a + 3]);
                    assert(v@.subrange(a as int, a + 5)[4] == v@[a + 4]);
                }
            }
        }
        None
    }
}

} // verus!
