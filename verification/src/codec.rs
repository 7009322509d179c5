//! The persisted text format: a JSON array of task objects, written and
//! parsed by this module. The writer always produces one canonical form —
//! fixed key order, no inter-token whitespace, `"` , `\` and control
//! characters escaped — and the parser reads exactly that form back, so a
//! saved list always loads to the same tasks.

use vstd::prelude::*;
use crate::errors::TodoError;
use crate::store::{check_tasks, seq_view, tasks_wf};
use crate::task::{Task, TaskV};

verus! {

// ---------------------------------------------------------------------------
// Trusted bridges between `String` / `&str` and `Vec<char>`.
// ---------------------------------------------------------------------------
/// Relies on `str::chars`: the characters of `s`, in order, as a vector.
#[verifier::external_body]
pub(crate) fn str_to_chars(s: &str) -> (r: Vec<char>)
    ensures
        r@ == s@,
{
    s.chars().collect()
}

/// Relies on `FromIterator<char> for String`: the string holding exactly
/// the characters of `v`, in order.
#[verifier::external_body]
pub(crate) fn chars_to_string(v: &Vec<char>) -> (r: String)
    ensures
        r@ == v@,
{
    v.iter().collect()
}

// ---------------------------------------------------------------------------
// The serialized form, as spec functions.
// ---------------------------------------------------------------------------
/// `{"id":` — the opening of a task object.
pub open spec fn key_id() -> Seq<char> {
    seq!['{', '"', 'i', 'd', '"', ':']
}

/// `,"text":`
pub open spec fn key_text() -> Seq<char> {
    seq![',', '"', 't', 'e', 'x', 't', '"', ':']
}

/// `,"done":`
pub open spec fn key_done() -> Seq<char> {
    seq![',', '"', 'd', 'o', 'n', 'e', '"', ':']
}

/// `,"created_at":`
pub open spec fn key_created() -> Seq<char> {
    seq![',', '"', 'c', 'r', 'e', 'a', 't', 'e', 'd', '_', 'a', 't', '"', ':']
}

/// `,"completed_at":`
pub open spec fn key_completed() -> Seq<char> {
    seq![',', '"', 'c', 'o', 'm', 'p', 'l', 'e', 't', 'e', 'd', '_', 'a', 't', '"', ':']
}

/// `,"due_date":`
pub open spec fn key_due() -> Seq<char> {
    seq![',', '"', 'd', 'u', 'e', '_', 'd', 'a', 't', 'e', '"', ':']
}

/// `null`
pub open spec fn lit_null() -> Seq<char> {
    seq!['n', 'u', 'l', 'l']
}

/// `true`
pub open spec fn lit_true() -> Seq<char> {
    seq!['t', 'r', 'u', 'e']
}

/// `false`
pub open spec fn lit_false() -> Seq<char> {
    seq!['f', 'a', 'l', 's', 'e']
}

/// The decimal digit character for `d` (0 to 9).
pub open spec fn spec_digit_char(d: int) -> char {
    if d == 0 {
        '0'
    } else if d == 1 {
        '1'
    } else if d == 2 {
        '2'
    } else if d == 3 {
        '3'
    } else if d == 4 {
        '4'
    } else if d == 5 {
        '5'
    } else if d == 6 {
        '6'
    } else if d == 7 {
        '7'
    } else if d == 8 {
        '8'
    } else {
        '9'
    }
}

/// The lower-case hexadecimal digit character for `d` (0 to 15).
pub open spec fn spec_hex_char(d: int) -> char {
    if d < 10 {
        spec_digit_char(d)
    } else if d == 10 {
        'a'
    } else if d == 11 {
        'b'
    } else if d == 12 {
        'c'
    } else if d == 13 {
        'd'
    } else if d == 14 {
        'e'
    } else {
        'f'
    }
}

/// `n` in decimal, most significant digit first, no leading zeros.
pub open spec fn spec_ser_nat(n: nat) -> Seq<char>
    decreases n,
{
    if n < 10 {
        seq![spec_digit_char(n as int)]
    } else {
        spec_ser_nat(n / 10).push(spec_digit_char((n % 10) as int))
    }
}

/// How one character is written inside a JSON string: `"` and `\` and the
/// common control characters get two-character escapes, the remaining
/// control characters a `\u00xx` escape, everything else stands as itself.
pub open spec fn spec_esc_char(c: char) -> Seq<char> {
    if c == '"' {
        seq!['\\', '"']
    } else if c == '\\' {
        seq!['\\', '\\']
    } else if c == '\n' {
        seq!['\\', 'n']
    } else if c == '\r' {
        seq!['\\', 'r']
    } else if c == '\t' {
        seq!['\\', 't']
    } else if (c as u32) < 32 {
        seq!['\\', 'u', '0', '0', spec_hex_char(c as u32 as int / 16), spec_hex_char(c as u32 as int % 16)]
    } else {
        seq![c]
    }
}

/// A whole character sequence escaped as JSON string content.
pub open spec fn spec_esc(s: Seq<char>) -> Seq<char>
    decreases s.len(),
{
    if s.len() == 0 {
        Seq::empty()
    } else {
        spec_esc_char(s[0]) + spec_esc(s.skip(1))
    }
}

/// A JSON string: escaped content between double quotes.
pub open spec fn spec_ser_string(s: Seq<char>) -> Seq<char> {
    seq!['"'] + spec_esc(s) + seq!['"']
}

/// An optional string: `null` when absent.
pub open spec fn spec_ser_opt(o: Option<Seq<char>>) -> Seq<char> {
    match o {
        Some(s) => spec_ser_string(s),
        None => lit_null(),
    }
}

/// `true` or `false`.
pub open spec fn spec_ser_bool(b: bool) -> Seq<char> {
    if b {
        lit_true()
    } else {
        lit_false()
    }
}

/// One task as a JSON object with the fields in fixed order.
pub open spec fn spec_ser_task(t: TaskV) -> Seq<char> {
    key_id() + spec_ser_nat(t.id as nat) + key_text() + spec_ser_string(t.text) + key_done()
        + spec_ser_bool(t.done) + key_created() + spec_ser_string(t.created_at) + key_completed()
        + spec_ser_opt(t.completed_at) + key_due() + spec_ser_opt(t.due_date) + seq!['}']
}

/// The task objects joined by commas (at least one task).
pub open spec fn spec_ser_tasks_inner(ts: Seq<TaskV>) -> Seq<char>
    decreases ts.len(),
{
    if ts.len() <= 1 {
        if ts.len() == 0 {
            Seq::empty()
        } else {
            spec_ser_task(ts[0])
        }
    } else {
        spec_ser_task(ts[0]) + seq![','] + spec_ser_tasks_inner(ts.skip(1))
    }
}

/// The whole persisted file: a JSON array of task objects.
pub open spec fn spec_ser_tasks(ts: Seq<TaskV>) -> Seq<char> {
    seq!['['] + spec_ser_tasks_inner(ts) + seq![']']
}

// ---------------------------------------------------------------------------
// The parser, as spec functions. Each takes the text still to be read and
// returns the parsed value with the unread remainder, or nothing.
// ---------------------------------------------------------------------------
/// `p` is a prefix of `s`.
pub open spec fn spec_starts_with(s: Seq<char>, p: Seq<char>) -> bool {
    s.len() >= p.len() && s.take(p.len() as int) == p
}

/// Consume the exact literal `p`.
pub open spec fn spec_parse_lit(s: Seq<char>, p: Seq<char>) -> Option<Seq<char>> {
    if spec_starts_with(s, p) {
        Some(s.skip(p.len() as int))
    } else {
        None
    }
}

/// `c` is a decimal digit.
pub open spec fn spec_is_digit(c: char) -> bool {
    crate::date::spec_is_digit(c)
}

/// The longest run of leading digits of `s`, and what follows it.
pub open spec fn spec_take_digits(s: Seq<char>) -> (Seq<char>, Seq<char>)
    decreases s.len(),
{
    if s.len() > 0 && spec_is_digit(s[0]) {
        let (d, r) = spec_take_digits(s.skip(1));
        (seq![s[0]] + d, r)
    } else {
        (Seq::empty(), s)
    }
}

/// The number named by a digit run, most significant digit first.
pub open spec fn spec_digits_val(ds: Seq<char>) -> nat
    decreases ds.len(),
{
    if ds.len() == 0 {
        0
    } else {
        spec_digits_val(ds.drop_last()) * 10 + (ds.last() as u32 - 48) as nat
    }
}

/// Consume a decimal number that fits in `u64`.
pub open spec fn spec_parse_u64(s: Seq<char>) -> Option<(u64, Seq<char>)> {
    let (ds, r) = spec_take_digits(s);
    if ds.len() == 0 || spec_digits_val(ds) > u64::MAX {
        None
    } else {
        Some((spec_digits_val(ds) as u64, r))
    }
}

/// `c` is a two-character escape code.
pub open spec fn spec_is_short_esc(c: char) -> bool {
    c == '"' || c == '\\' || c == 'n' || c == 'r' || c == 't'
}

/// The character a two-character escape stands for.
pub open spec fn spec_unesc_short(c: char) -> char {
    if c == '"' {
        '"'
    } else if c == '\\' {
        '\\'
    } else if c == 'n' {
        '\n'
    } else if c == 'r' {
        '\r'
    } else {
        '\t'
    }
}

/// `c` is a lower-case hexadecimal digit.
pub open spec fn spec_is_hex(c: char) -> bool {
    (48 <= c as u32 && c as u32 <= 57) || (97 <= c as u32 && c as u32 <= 102)
}

/// Numeric value of a lower-case hexadecimal digit.
pub open spec fn spec_hex_val(c: char) -> int {
    if c as u32 <= 57 {
        c as u32 - 48
    } else {
        c as u32 - 87
    }
}

/// The character a `\u00xx` escape stands for.
pub open spec fn spec_hex_pair_char(h1: char, h2: char) -> char {
    ((spec_hex_val(h1) * 16 + spec_hex_val(h2)) as u8) as char
}

/// Consume JSON string content up to and including the closing quote,
/// undoing the escapes of [`spec_esc_char`]. Raw control characters and
/// unknown escapes are refused, as is a `\u` escape outside the control
/// range, which the writer never produces.
pub open spec fn spec_parse_str_body(s: Seq<char>) -> Option<(Seq<char>, Seq<char>)>
    decreases s.len(),
{
    if s.len() == 0 {
        None
    } else if s[0] == '"' {
        Some((Seq::empty(), s.skip(1)))
    } else if s[0] == '\\' {
        if s.len() >= 2 && spec_is_short_esc(s[1]) {
            match spec_parse_str_body(s.skip(2)) {
                Some(p) => Some((seq![spec_unesc_short(s[1])] + p.0, p.1)),
                None => None,
            }
        } else if s.len() >= 6 && s[1] == 'u' && s[2] == '0' && s[3] == '0' && spec_is_hex(s[4])
            && spec_is_hex(s[5]) && spec_hex_val(s[4]) * 16 + spec_hex_val(s[5]) < 32 {
            match spec_parse_str_body(s.skip(6)) {
                Some(p) => Some((seq![spec_hex_pair_char(s[4], s[5])] + p.0, p.1)),
                None => None,
            }
        } else {
            None
        }
    } else if (s[0] as u32) < 32 {
        None
    } else {
        match spec_parse_str_body(s.skip(1)) {
            Some(p) => Some((seq![s[0]] + p.0, p.1)),
            None => None,
        }
    }
}

/// Consume a quoted JSON string.
pub open spec fn spec_parse_string(s: Seq<char>) -> Option<(Seq<char>, Seq<char>)> {
    if s.len() >= 1 && s[0] == '"' {
        spec_parse_str_body(s.skip(1))
    } else {
        None
    }
}

/// Consume `true` or `false`.
pub open spec fn spec_parse_bool(s: Seq<char>) -> Option<(bool, Seq<char>)> {
    if spec_starts_with(s, lit_true()) {
        Some((true, s.skip(4)))
    } else if spec_starts_with(s, lit_false()) {
        Some((false, s.skip(5)))
    } else {
        None
    }
}

/// Consume `null` or a quoted string.
pub open spec fn spec_parse_opt_string(s: Seq<char>) -> Option<(Option<Seq<char>>, Seq<char>)> {
    if spec_starts_with(s, lit_null()) {
        Some((None, s.skip(4)))
    } else {
        match spec_parse_string(s) {
            Some(p) => Some((Some(p.0), p.1)),
            None => None,
        }
    }
}

/// Consume one task object.
pub open spec fn spec_parse_task(s: Seq<char>) -> Option<(TaskV, Seq<char>)> {
    match spec_parse_lit(s, key_id()) {
        None => None,
        Some(s1) => match spec_parse_u64(s1) {
            None => None,
            Some((id, s2)) => match spec_parse_lit(s2, key_text()) {
                None => None,
                Some(s3) => match spec_parse_string(s3) {
                    None => None,
                    Some((text, s4)) => match spec_parse_lit(s4, key_done()) {
                        None => None,
                        Some(s5) => match spec_parse_bool(s5) {
                            None => None,
                            Some((done, s6)) => match spec_parse_lit(s6, key_created()) {
                                None => None,
                                Some(s7) => match spec_parse_string(s7) {
                                    None => None,
                                    Some((created_at, s8)) => match spec_parse_lit(
                                        s8,
                                        key_completed(),
                                    ) {
                                        None => None,
                                        Some(s9) => match spec_parse_opt_string(s9) {
                                            None => None,
                                            Some((completed_at, s10)) => match spec_parse_lit(
                                                s10,
                                                key_due(),
                                            ) {
                                                None => None,
                                                Some(s11) => match spec_parse_opt_string(s11) {
                                                    None => None,
                                                    Some((due_date, s12)) => match spec_parse_lit(
                                                        s12,
                                                        seq!['}'],
                                                    ) {
                                                        None => None,
                                                        Some(s13) => Some(
                                                            (
                                                                TaskV {
                                                                    id,
                                                                    text,
                                                                    done,
                                                                    created_at,
                                                                    completed_at,
                                                                    due_date,
                                                                },
                                                                s13,
                                                            ),
                                                        ),
                                                    },
                                                },
                                            },
                                        },
                                    },
                                },
                            },
                        },
                    },
                },
            },
        },
    }
}

/// Consume one or more comma-separated task objects.
pub open spec fn spec_parse_tasks_inner(s: Seq<char>) -> Option<(Seq<TaskV>, Seq<char>)>
    decreases s.len(),
{
    match spec_parse_task(s) {
        None => None,
        Some((t, r)) => if r.len() >= 1 && r[0] == ',' {
            if r.len() < s.len() {
                match spec_parse_tasks_inner(r.skip(1)) {
                    Some(p) => Some((seq![t] + p.0, p.1)),
                    None => None,
                }
            } else {
                None
            }
        } else {
            Some((seq![t], r))
        },
    }
}

/// The whole persisted file: `[]`, or `[` tasks `]`, with nothing after it.
pub open spec fn spec_parse_tasks(s: Seq<char>) -> Option<Seq<TaskV>> {
    if s == seq!['[', ']'] {
        Some(Seq::<TaskV>::empty())
    } else {
        match spec_parse_lit(s, seq!['[']) {
            None => None,
            Some(s1) => match spec_parse_tasks_inner(s1) {
                None => None,
                Some((ts, r)) => if r == seq![']'] {
                    Some(ts)
                } else {
                    None
                },
            },
        }
    }
}


// ---------------------------------------------------------------------------
// The writer.
// ---------------------------------------------------------------------------
/// Escaping distributes over concatenation.
proof fn lemma_esc_append(a: Seq<char>, b: Seq<char>)
    ensures
        spec_esc(a + b) == spec_esc(a) + spec_esc(b),
    decreases a.len(),
{
    if a.len() == 0 {
        assert(a + b =~= b);
        assert(spec_esc(a) + spec_esc(b) =~= spec_esc(b));
    } else {
        assert((a + b).skip(1) =~= a.skip(1) + b);
        lemma_esc_append(a.skip(1), b);
        assert((a + b)[0] == a[0]);
        assert(spec_esc(a + b) =~= spec_esc(a) + spec_esc(b));
    }
}

/// The decimal digit character for `d`.
fn digit_char(d: u64) -> (c: char)
    requires
        d < 10,
    ensures
        c == spec_digit_char(d as int),
{
    if d == 0 {
        '0'
    } else if d == 1 {
        '1'
    } else if d == 2 {
        '2'
    } else if d == 3 {
        '3'
    } else if d == 4 {
        '4'
    } else if d == 5 {
        '5'
    } else if d == 6 {
        '6'
    } else if d == 7 {
        '7'
    } else if d == 8 {
        '8'
    } else {
        '9'
    }
}

/// The lower-case hexadecimal digit character for `d`.
fn hex_char(d: u32) -> (c: char)
    requires
        d < 16,
    ensures
        c == spec_hex_char(d as int),
{
    if d < 10 {
        digit_char(d as u64)
    } else if d == 10 {
        'a'
    } else if d == 11 {
        'b'
    } else if d == 12 {
        'c'
    } else if d == 13 {
        'd'
    } else if d == 14 {
        'e'
    } else {
        'f'
    }
}

/// Appends the characters of `s` to `out`.
#[verifier::loop_isolation(false)]
fn push_str_chars(out: &mut Vec<char>, s: &str)
    ensures
        final(out)@ == old(out)@ + s@,
{
    let n = s.unicode_len();
    let mut i: usize = 0;
    proof {
        assert(out@ =~= old(out)@ + s@.take(0));
    }
    while i < n
        invariant
            i <= n,
            n == s@.len(),
            out@ == old(out)@ + s@.take(i as int),
        decreases n - i,
    {
        let c = s.get_char(i);
        out.push(c);
        proof {
            assert(s@.take(i as int + 1) =~= s@.take(i as int).push(s@[i as int]));
            assert(out@ =~= old(out)@ + s@.take(i as int + 1));
        }
        i = i + 1;
    }
    proof {
        assert(s@.take(n as int) =~= s@);
    }
}

/// Appends the escaped form of one character to `out`.
fn push_esc_char(out: &mut Vec<char>, c: char)
    ensures
        final(out)@ == old(out)@ + spec_esc_char(c),
{
    if c == '"' {
        out.push('\\');
        out.push('"');
    } else if c == '\\' {
        out.push('\\');
        out.push('\\');
    } else if c == '\n' {
        out.push('\\');
        out.push('n');
    } else if c == '\r' {
        out.push('\\');
        out.push('r');
    } else if c == '\t' {
        out.push('\\');
        out.push('t');
    } else {
        let v = c as u32;
        if v < 32 {
            out.push('\\');
            out.push('u');
            out.push('0');
            out.push('0');
            out.push(hex_char(v / 16));
            out.push(hex_char(v % 16));
        } else {
            out.push(c);
        }
    }
    proof {
        assert(out@ =~= old(out)@ + spec_esc_char(c));
    }
}

/// Appends the escaped content of `s` to `out`.
#[verifier::loop_isolation(false)]
fn push_escaped(out: &mut Vec<char>, s: &str)
    ensures
        final(out)@ == old(out)@ + spec_esc(s@),
{
    let n = s.unicode_len();
    let mut i: usize = 0;
    proof {
        assert(s@.take(0) =~= Seq::<char>::empty());
        assert(out@ =~= old(out)@ + spec_esc(s@.take(0)));
    }
    while i < n
        invariant
            i <= n,
            n == s@.len(),
            out@ == old(out)@ + spec_esc(s@.take(i as int)),
        decreases n - i,
    {
        let c = s.get_char(i);
        push_esc_char(out, c);
        proof {
            assert(s@.take(i as int + 1) =~= s@.take(i as int) + seq![s@[i as int]]);
            lemma_esc_append(s@.take(i as int), seq![s@[i as int]]);
            assert(seq![s@[i as int]].skip(1) =~= Seq::<char>::empty());
            assert(spec_esc(seq![s@[i as int]]) =~= spec_esc_char(s@[i as int]));
            assert(out@ =~= old(out)@ + spec_esc(s@.take(i as int + 1)));
        }
        i = i + 1;
    }
    proof {
        assert(s@.take(n as int) =~= s@);
    }
}

/// Appends `n` in decimal to `out`.
fn push_u64(out: &mut Vec<char>, n: u64)
    ensures
        final(out)@ == old(out)@ + spec_ser_nat(n as nat),
    decreases n,
{
    if n < 10 {
        out.push(digit_char(n));
        proof {
            assert(out@ =~= old(out)@ + spec_ser_nat(n as nat));
        }
    } else {
        push_u64(out, n / 10);
        out.push(digit_char(n % 10));
        proof {
            assert(out@ =~= old(out)@ + spec_ser_nat(n as nat));
        }
    }
}

/// Appends `s` as a quoted, escaped JSON string to `out`.
fn push_json_string(out: &mut Vec<char>, s: &str)
    ensures
        final(out)@ == old(out)@ + spec_ser_string(s@),
{
    out.push('"');
    push_escaped(out, s);
    out.push('"');
    proof {
        assert(out@ =~= old(out)@ + spec_ser_string(s@));
    }
}

/// Appends an optional string, `null` when absent, to `out`.
fn push_opt_string(out: &mut Vec<char>, o: &Option<String>)
    ensures
        final(out)@ == old(out)@ + spec_ser_opt(
            match o {
                Some(s) => Some(s@),
                None => None,
            },
        ),
{
    match o {
        Some(s) => push_json_string(out, s.as_str()),
        None => {
            push_str_chars(out, "null");
            proof {
                reveal_strlit("null");
                assert(("null")@ =~= lit_null());
            }
        },
    }
}

/// Appends one task object to `out`.
#[verifier::rlimit(100)]
fn push_task(out: &mut Vec<char>, t: &Task)
    ensures
        final(out)@ == old(out)@ + spec_ser_task(t@),
{
    push_str_chars(out, "{\"id\":");
    push_u64(out, t.id);
    push_str_chars(out, ",\"text\":");
    push_json_string(out, t.text.as_str());
    push_str_chars(out, ",\"done\":");
    if t.done {
        push_str_chars(out, "true");
    } else {
        push_str_chars(out, "false");
    }
    push_str_chars(out, ",\"created_at\":");
    push_json_string(out, t.created_at.as_str());
    push_str_chars(out, ",\"completed_at\":");
    push_opt_string(out, &t.completed_at);
    push_str_chars(out, ",\"due_date\":");
    push_opt_string(out, &t.due_date);
    out.push('}');
    proof {
        reveal_strlit("{\"id\":");
        reveal_strlit(",\"text\":");
        reveal_strlit(",\"done\":");
        reveal_strlit("true");
        reveal_strlit("false");
        reveal_strlit(",\"created_at\":");
        reveal_strlit(",\"completed_at\":");
        reveal_strlit(",\"due_date\":");
        assert(("{\"id\":")@ =~= key_id());
        assert((",\"text\":")@ =~= key_text());
        assert((",\"done\":")@ =~= key_done());
        assert(("true")@ =~= lit_true());
        assert(("false")@ =~= lit_false());
        assert((",\"created_at\":")@ =~= key_created());
        assert((",\"completed_at\":")@ =~= key_completed());
        assert((",\"due_date\":")@ =~= key_due());
        assert(out@ =~= old(out)@ + spec_ser_task(t@));
    }
}

/// Joining one more task object onto a non-empty list.
proof fn lemma_inner_snoc(ts: Seq<TaskV>, t: TaskV)
    requires
        ts.len() >= 1,
    ensures
        spec_ser_tasks_inner(ts.push(t)) == spec_ser_tasks_inner(ts) + seq![','] + spec_ser_task(t),
    decreases ts.len(),
{
    if ts.len() == 1 {
        assert(ts.push(t).skip(1) =~= seq![t]);
        assert(spec_ser_tasks_inner(seq![t]) == spec_ser_task(t));
        assert(ts.push(t)[0] == ts[0]);
        assert(spec_ser_tasks_inner(ts.push(t)) =~= spec_ser_tasks_inner(ts) + seq![',']
            + spec_ser_task(t));
    } else {
        assert(ts.push(t).skip(1) =~= ts.skip(1).push(t));
        lemma_inner_snoc(ts.skip(1), t);
        assert(ts.push(t)[0] == ts[0]);
        assert(spec_ser_tasks_inner(ts.push(t)) =~= spec_ser_tasks_inner(ts) + seq![',']
            + spec_ser_task(t));
    }
}

/// Writes the whole task list in the canonical persisted form.
#[verifier::loop_isolation(false)]
pub fn save_to_string(tasks: &Vec<Task>) -> (r: String)
    ensures
        r@ == spec_ser_tasks(seq_view(tasks@)),
{
    let ghost v = seq_view(tasks@);
    let mut out: Vec<char> = Vec::new();
    out.push('[');
    let n = tasks.len();
    if n > 0 {
        push_task(&mut out, &tasks[0]);
        proof {
            assert(v.take(1) =~= seq![v[0]]);
            assert(spec_ser_tasks_inner(v.take(1)) == spec_ser_task(v[0]));
            assert(out@ =~= seq!['['] + spec_ser_tasks_inner(v.take(1)));
        }
        let mut i: usize = 1;
        while i < n
            invariant
                1 <= i <= n,
                n == tasks@.len(),
                out@ == seq!['['] + spec_ser_tasks_inner(v.take(i as int)),
            decreases n - i,
        {
            out.push(',');
            push_task(&mut out, &tasks[i]);
            proof {
                lemma_inner_snoc(v.take(i as int), v[i as int]);
                assert(v.take(i as int).push(v[i as int]) =~= v.take(i as int + 1));
                assert(out@ =~= seq!['['] + spec_ser_tasks_inner(v.take(i as int + 1)));
            }
            i = i + 1;
        }
    }
    out.push(']');
    proof {
        assert(v.take(n as int) =~= v);
        assert(out@ =~= spec_ser_tasks(v));
    }
    chars_to_string(&out)
}



// ---------------------------------------------------------------------------
// The reader.
// ---------------------------------------------------------------------------
/// Prefixing the content of a partly parsed string.
pub open spec fn psb_prepend(a: Seq<char>, o: Option<(Seq<char>, Seq<char>)>) -> Option<
    (Seq<char>, Seq<char>),
> {
    match o {
        Some(p) => Some((a + p.0, p.1)),
        None => None,
    }
}

/// Prefixing a partly parsed task list.
pub open spec fn pti_prepend(a: Seq<TaskV>, o: Option<(Seq<TaskV>, Seq<char>)>) -> Option<
    (Seq<TaskV>, Seq<char>),
> {
    match o {
        Some(p) => Some((a + p.0, p.1)),
        None => None,
    }
}

/// Folding one more leading character into a string prefix.
proof fn lemma_psb_prepend_push(a: Seq<char>, c: char, o: Option<(Seq<char>, Seq<char>)>)
    ensures
        psb_prepend(a, psb_prepend(seq![c], o)) == psb_prepend(a.push(c), o),
{
    match o {
        Some(p) => {
            assert(a + (seq![c] + p.0) =~= a.push(c) + p.0);
        },
        None => {},
    }
}

/// Folding one more leading task into a list prefix.
proof fn lemma_pti_prepend_push(a: Seq<TaskV>, t: TaskV, o: Option<(Seq<TaskV>, Seq<char>)>)
    ensures
        pti_prepend(a, pti_prepend(seq![t], o)) == pti_prepend(a.push(t), o),
{
    match o {
        Some(p) => {
            assert(a + (seq![t] + p.0) =~= a.push(t) + p.0);
        },
        None => {},
    }
}

/// Consumes the literal `lit` at `pos`.
#[verifier::loop_isolation(false)]
fn parse_lit(cs: &Vec<char>, pos: usize, lit: &str) -> (r: Option<usize>)
    requires
        pos <= cs@.len(),
    ensures
        match r {
            Some(p2) => p2 == pos + lit@.len() && p2 <= cs@.len() && spec_parse_lit(
                cs@.skip(pos as int),
                lit@,
            ) == Some(cs@.skip(p2 as int)),
            None => spec_parse_lit(cs@.skip(pos as int), lit@) is None,
        },
{
    let lc = str_to_chars(lit);
    let k = lc.len();
    if cs.len() - pos < k {
        proof {
            assert(cs@.skip(pos as int).len() < lit@.len());
        }
        return None;
    }
    let mut j: usize = 0;
    while j < k
        invariant
            j <= k,
            forall|m: int| 0 <= m < j ==> cs@[pos + m] == lit@[m],
        decreases k - j,
    {
        if cs[pos + j] != lc[j] {
            proof {
                assert(cs@.skip(pos as int).take(lit@.len() as int)[j as int] != lit@[j as int]);
            }
            return None;
        }
        j = j + 1;
    }
    proof {
        assert(cs@.skip(pos as int).take(lit@.len() as int) =~= lit@);
        assert(cs@.skip(pos as int).skip(lit@.len() as int) =~= cs@.skip((pos + k) as int));
    }
    Some(pos + k)
}

/// A digit run read left to right never names a smaller number than its
/// prefix.
proof fn lemma_digits_val_prefix(a: Seq<char>, b: Seq<char>)
    ensures
        spec_digits_val(a) <= spec_digits_val(a + b),
    decreases b.len(),
{
    if b.len() == 0 {
        assert(a + b =~= a);
    } else {
        assert((a + b).drop_last() =~= a + b.drop_last());
        lemma_digits_val_prefix(a, b.drop_last());
    }
}

/// A run of digits followed by a non-digit splits exactly.
proof fn lemma_take_digits_split(s: Seq<char>, k: int)
    requires
        0 <= k <= s.len(),
        forall|m: int| 0 <= m < k ==> spec_is_digit(#[trigger] s[m]),
        k == s.len() || !spec_is_digit(s[k]),
    ensures
        spec_take_digits(s).0 == s.take(k),
        spec_take_digits(s).1 == s.skip(k),
    decreases k,
{
    if k == 0 {
        assert(s.take(0) =~= Seq::<char>::empty());
        assert(s.skip(0) =~= s);
    } else {
        assert(spec_is_digit(s[0]));
        assert forall|m: int| 0 <= m < k - 1 implies spec_is_digit(#[trigger] s.skip(1)[m]) by {
            assert(s.skip(1)[m] == s[m + 1]);
        }
        if k - 1 < s.skip(1).len() {
            assert(s.skip(1)[k - 1] == s[k]);
        }
        lemma_take_digits_split(s.skip(1), k - 1);
        assert(seq![s[0]] + s.skip(1).take(k - 1) =~= s.take(k));
        assert(s.skip(1).skip(k - 1) =~= s.skip(k));
    }
}

/// Consumes a run of decimal digits at `pos` as a `u64`.
#[verifier::loop_isolation(false)]
fn parse_u64(cs: &Vec<char>, pos: usize) -> (r: Option<(u64, usize)>)
    requires
        pos <= cs@.len(),
    ensures
        match r {
            Some(p) => pos <= p.1 <= cs@.len() && spec_parse_u64(cs@.skip(pos as int)) == Some(
                (p.0, cs@.skip(p.1 as int)),
            ),
            None => spec_parse_u64(cs@.skip(pos as int)) is None,
        },
{
    let n = cs.len();
    let mut end: usize = pos;
    while end < n && 48 <= cs[end] as u32 && cs[end] as u32 <= 57
        invariant
            pos <= end <= n,
            forall|m: int| pos <= m < end ==> spec_is_digit(#[trigger] cs@[m]),
        decreases n - end,
    {
        end = end + 1;
    }
    proof {
        let suf = cs@.skip(pos as int);
        assert forall|m: int| 0 <= m < end - pos implies spec_is_digit(#[trigger] suf[m]) by {
            assert(suf[m] == cs@[pos + m]);
        }
        if end - pos < suf.len() {
            assert(suf[end - pos] == cs@[end as int]);
        }
        lemma_take_digits_split(suf, end - pos);
        assert(spec_take_digits(suf).0 == suf.take(end - pos));
        assert(suf.take(end - pos) =~= cs@.subrange(pos as int, end as int));
        assert(suf.skip(end - pos) =~= cs@.skip(end as int));
    }
    if end == pos {
        proof {
            assert(spec_take_digits(cs@.skip(pos as int)).0.len() == 0);
        }
        return None;
    }
    let ghost ds = cs@.subrange(pos as int, end as int);
    let mut val: u128 = 0;
    let mut i: usize = pos;
    proof {
        assert(cs@.subrange(pos as int, pos as int) =~= Seq::<char>::empty());
    }
    while i < end
        invariant
            pos <= i <= end,
            end <= n == cs@.len(),
            val == spec_digits_val(cs@.subrange(pos as int, i as int)),
            val <= u64::MAX,
        decreases end - i,
    {
        let d: u128 = (cs[i] as u32 - 48) as u128;
        proof {
            assert(spec_is_digit(cs@[i as int]));
            assert(cs@.subrange(pos as int, i as int + 1).drop_last() =~= cs@.subrange(
                pos as int,
                i as int,
            ));
            assert(cs@.subrange(pos as int, i as int + 1).last() == cs@[i as int]);
        }
        val = val * 10 + d;
        i = i + 1;
        if val > u64::MAX as u128 {
            proof {
                let pre = cs@.subrange(pos as int, i as int);
                let post = cs@.subrange(i as int, end as int);
                assert(pre + post =~= ds);
                lemma_digits_val_prefix(pre, post);
                assert(spec_digits_val(ds) > u64::MAX);
            }
            return None;
        }
    }
    proof {
        assert(cs@.subrange(pos as int, end as int) == ds);
    }
    Some((val as u64, end))
}

/// Numeric value of a lower-case hexadecimal digit character.
fn hex_val(c: char) -> (r: Option<u32>)
    ensures
        r is Some <==> spec_is_hex(c),
        r is Some ==> r.unwrap() == spec_hex_val(c) && r.unwrap() < 16,
{
    let v = c as u32;
    if 48 <= v && v <= 57 {
        Some(v - 48)
    } else if 97 <= v && v <= 102 {
        Some(v - 87)
    } else {
        None
    }
}

/// Consumes a quoted JSON string at `pos`, undoing the escapes.
#[verifier::loop_isolation(false)]
fn parse_string(cs: &Vec<char>, pos: usize) -> (r: Option<(String, usize)>)
    requires
        pos <= cs@.len(),
    ensures
        match r {
            Some(p) => pos < p.1 <= cs@.len() && spec_parse_string(cs@.skip(pos as int)) == Some(
                (p.0@, cs@.skip(p.1 as int)),
            ),
            None => spec_parse_string(cs@.skip(pos as int)) is None,
        },
{
    let n = cs.len();
    if pos >= n || cs[pos] != '"' {
        return None;
    }
    let mut acc: Vec<char> = Vec::new();
    let mut p: usize = pos + 1;
    proof {
        assert(cs@.skip(pos as int).skip(1) =~= cs@.skip(pos as int + 1));
        assert(acc@ =~= Seq::<char>::empty());
    }
    loop
        invariant
            pos + 1 <= p <= n,
            n == cs@.len(),
            spec_parse_str_body(cs@.skip(pos as int).skip(1)) == psb_prepend(
                acc@,
                spec_parse_str_body(cs@.skip(p as int)),
            ),
        decreases n - p,
    {
        if p >= n {
            proof {
                assert(cs@.skip(p as int).len() == 0);
            }
            return None;
        }
        let c = cs[p];
        proof {
            assert(cs@.skip(p as int)[0] == c);
        }
        if c == '"' {
            proof {
                assert(cs@.skip(p as int).skip(1) =~= cs@.skip(p as int + 1));
                assert(acc@ + Seq::<char>::empty() =~= acc@);
            }
            let out = chars_to_string(&acc);
            return Some((out, p + 1));
        } else if c == '\\' {
            if p + 1 >= n {
                proof {
                    assert(cs@.skip(p as int).len() < 2);
                }
                return None;
            }
            let c2 = cs[p + 1];
            proof {
                assert(cs@.skip(p as int)[1] == c2);
            }
            if c2 == '"' || c2 == '\\' || c2 == 'n' || c2 == 'r' || c2 == 't' {
                let u = if c2 == '"' {
                    '"'
                } else if c2 == '\\' {
                    '\\'
                } else if c2 == 'n' {
                    '\n'
                } else if c2 == 'r' {
                    '\r'
                } else {
                    '\t'
                };
                proof {
                    assert(u == spec_unesc_short(c2));
                    assert(cs@.skip(p as int).skip(2) =~= cs@.skip(p as int + 2));
                    assert(spec_parse_str_body(cs@.skip(p as int)) == psb_prepend(
                        seq![u],
                        spec_parse_str_body(cs@.skip(p as int + 2)),
                    ));
                    lemma_psb_prepend_push(acc@, u, spec_parse_str_body(cs@.skip(p as int + 2)));
                }
                acc.push(u);
                p = p + 2;
            } else if c2 == 'u' {
                if n - p < 6 {
                    proof {
                        assert(cs@.skip(p as int).len() < 6);
                        assert(!spec_is_short_esc(c2));
                    }
                    return None;
                }
                let c3 = cs[p + 2];
                let c4 = cs[p + 3];
                let h1 = hex_val(cs[p + 4]);
                let h2 = hex_val(cs[p + 5]);
                proof {
                    assert(cs@.skip(p as int)[2] == c3);
                    assert(cs@.skip(p as int)[3] == c4);
                    assert(cs@.skip(p as int)[4] == cs@[p as int + 4]);
                    assert(cs@.skip(p as int)[5] == cs@[p as int + 5]);
                    assert(!spec_is_short_esc(c2));
                }
                match (c3 == '0', c4 == '0', h1, h2) {
                    (true, true, Some(v1), Some(v2)) => {
                        let v: u32 = v1 * 16 + v2;
                        if v < 32 {
                            let u = (v as u8) as char;
                            proof {
                                assert(u == spec_hex_pair_char(cs@[p as int + 4], cs@[p as int + 5]));
                                assert(cs@.skip(p as int).skip(6) =~= cs@.skip(p as int + 6));
                                assert(spec_parse_str_body(cs@.skip(p as int)) == psb_prepend(
                                    seq![u],
                                    spec_parse_str_body(cs@.skip(p as int + 6)),
                                ));
                                lemma_psb_prepend_push(
                                    acc@,
                                    u,
                                    spec_parse_str_body(cs@.skip(p as int + 6)),
                                );
                            }
                            acc.push(u);
                            p = p + 6;
                        } else {
                            return None;
                        }
                    },
                    _ => {
                        return None;
                    },
                }
            } else {
                proof {
                    assert(!spec_is_short_esc(c2));
                }
                return None;
            }
        } else {
            let v = c as u32;
            if v < 32 {
                return None;
            }
            proof {
                assert(cs@.skip(p as int).skip(1) =~= cs@.skip(p as int + 1));
                assert(spec_parse_str_body(cs@.skip(p as int)) == psb_prepend(
                    seq![c],
                    spec_parse_str_body(cs@.skip(p as int + 1)),
                ));
                lemma_psb_prepend_push(acc@, c, spec_parse_str_body(cs@.skip(p as int + 1)));
            }
            acc.push(c);
            p = p + 1;
        }
    }
}

/// Consumes `true` or `false` at `pos`.
fn parse_bool(cs: &Vec<char>, pos: usize) -> (r: Option<(bool, usize)>)
    requires
        pos <= cs@.len(),
    ensures
        match r {
            Some(p) => pos <= p.1 <= cs@.len() && spec_parse_bool(cs@.skip(pos as int)) == Some(
                (p.0, cs@.skip(p.1 as int)),
            ),
            None => spec_parse_bool(cs@.skip(pos as int)) is None,
        },
{
    proof {
        reveal_strlit("true");
        reveal_strlit("false");
        assert(("true")@ =~= lit_true());
        assert(("false")@ =~= lit_false());
    }
    match parse_lit(cs, pos, "true") {
        Some(p2) => Some((true, p2)),
        None => match parse_lit(cs, pos, "false") {
            Some(p2) => Some((false, p2)),
            None => None,
        },
    }
}

/// Consumes `null` or a quoted string at `pos`.
fn parse_opt_string(cs: &Vec<char>, pos: usize) -> (r: Option<(Option<String>, usize)>)
    requires
        pos <= cs@.len(),
    ensures
        match r {
            Some(p) => pos <= p.1 <= cs@.len() && spec_parse_opt_string(cs@.skip(pos as int))
                == Some(
                (
                    match p.0 {
                        Some(v) => Some(v@),
                        None => None,
                    },
                    cs@.skip(p.1 as int),
                ),
            ),
            None => spec_parse_opt_string(cs@.skip(pos as int)) is None,
        },
{
    proof {
        reveal_strlit("null");
        assert(("null")@ =~= lit_null());
    }
    match parse_lit(cs, pos, "null") {
        Some(p2) => Some((None, p2)),
        None => match parse_string(cs, pos) {
            Some((v, p2)) => Some((Some(v), p2)),
            None => None,
        },
    }
}

/// Consumes one task object at `pos`.
#[verifier::rlimit(100)]
fn parse_task(cs: &Vec<char>, pos: usize) -> (r: Option<(Task, usize)>)
    requires
        pos <= cs@.len(),
    ensures
        match r {
            Some(p) => pos < p.1 <= cs@.len() && spec_parse_task(cs@.skip(pos as int)) == Some(
                (p.0@, cs@.skip(p.1 as int)),
            ),
            None => spec_parse_task(cs@.skip(pos as int)) is None,
        },
{
    proof {
        reveal_strlit("{\"id\":");
        reveal_strlit(",\"text\":");
        reveal_strlit(",\"done\":");
        reveal_strlit(",\"created_at\":");
        reveal_strlit(",\"completed_at\":");
        reveal_strlit(",\"due_date\":");
        reveal_strlit("}");
        assert(("{\"id\":")@ =~= key_id());
        assert((",\"text\":")@ =~= key_text());
        assert((",\"done\":")@ =~= key_done());
        assert((",\"created_at\":")@ =~= key_created());
        assert((",\"completed_at\":")@ =~= key_completed());
        assert((",\"due_date\":")@ =~= key_due());
        assert(("}")@ =~= seq!['}']);
    }
    let p1 = match parse_lit(cs, pos, "{\"id\":") {
        Some(p) => p,
        None => {
            return None;
        },
    };
    let (id, p2) = match parse_u64(cs, p1) {
        Some(p) => p,
        None => {
            return None;
        },
    };
    let p3 = match parse_lit(cs, p2, ",\"text\":") {
        Some(p) => p,
        None => {
            return None;
        },
    };
    let (text, p4) = match parse_string(cs, p3) {
        Some(p) => p,
        None => {
            return None;
        },
    };
    let p5 = match parse_lit(cs, p4, ",\"done\":") {
        Some(p) => p,
        None => {
            return None;
        },
    };
    let (done, p6) = match parse_bool(cs, p5) {
        Some(p) => p,
        None => {
            return None;
        },
    };
    let p7 = match parse_lit(cs, p6, ",\"created_at\":") {
        Some(p) => p,
        None => {
            return None;
        },
    };
    let (created_at, p8) = match parse_string(cs, p7) {
        Some(p) => p,
        None => {
            return None;
        },
    };
    let p9 = match parse_lit(cs, p8, ",\"completed_at\":") {
        Some(p) => p,
        None => {
            return None;
        },
    };
    let (completed_at, p10) = match parse_opt_string(cs, p9) {
        Some(p) => p,
        None => {
            return None;
        },
    };
    let p11 = match parse_lit(cs, p10, ",\"due_date\":") {
        Some(p) => p,
        None => {
            return None;
        },
    };
    let (due_date, p12) = match parse_opt_string(cs, p11) {
        Some(p) => p,
        None => {
            return None;
        },
    };
    let p13 = match parse_lit(cs, p12, "}") {
        Some(p) => p,
        None => {
            return None;
        },
    };
    let t = Task { id, text, done, created_at, completed_at, due_date };
    Some((t, p13))
}



/// Parses persisted text back into the task list it names: the canonical
/// form written by [`save_to_string`], with the parsed list checked to be
/// well formed (ids positive and strictly increasing, completion timestamp
/// present exactly on done tasks, due dates valid). Anything else is a
/// `ParseError`.
#[verifier::loop_isolation(false)]
pub fn load_from_string(s: &str) -> (r: Result<Vec<Task>, TodoError>)
    ensures
        match r {
            Ok(ts) => spec_parse_tasks(s@) == Some(seq_view(ts@)) && tasks_wf(seq_view(ts@)),
            Err(e) => e == TodoError::ParseError && (spec_parse_tasks(s@) is None || !tasks_wf(
                spec_parse_tasks(s@)->0,
            )),
        },
{
    let cs = str_to_chars(s);
    let n = cs.len();
    if n == 2 {
        if cs[0] == '[' && cs[1] == ']' {
            let empty: Vec<Task> = Vec::new();
            proof {
                assert(s@ =~= seq!['[', ']']);
                assert(seq_view(empty@) =~= Seq::<TaskV>::empty());
            }
            return Ok(empty);
        }
    }
    proof {
        if s@ == seq!['[', ']'] {
            assert(cs@.len() == 2);
            assert(cs@[0] == '[');
            assert(cs@[1] == ']');
            assert(false);
        }
        reveal_strlit("[");
        assert(("[")@ =~= seq!['[']);
        assert(cs@.skip(0) =~= cs@);
    }
    let p1 = match parse_lit(&cs, 0, "[") {
        Some(p) => p,
        None => {
            return Err(TodoError::ParseError);
        },
    };
    let mut out: Vec<Task> = Vec::new();
    let mut p: usize = p1;
    proof {
        assert(seq_view(out@) =~= Seq::<TaskV>::empty());
        match spec_parse_tasks_inner(cs@.skip(p1 as int)) {
            Some(q) => {
                assert(Seq::<TaskV>::empty() + q.0 =~= q.0);
            },
            None => {},
        }
    }
    loop
        invariant
            p1 <= p <= n,
            n == cs@.len(),
            spec_parse_tasks_inner(cs@.skip(p1 as int)) == pti_prepend(
                seq_view(out@),
                spec_parse_tasks_inner(cs@.skip(p as int)),
            ),
        decreases n - p,
    {
        match parse_task(&cs, p) {
            None => {
                return Err(TodoError::ParseError);
            },
            Some((t, p2)) => {
                let ghost tv = t@;
                let ghost sv_old = seq_view(out@);
                if p2 < n && cs[p2] == ',' {
                    proof {
                        assert(cs@.skip(p2 as int)[0] == ',');
                        assert(cs@.skip(p2 as int).len() < cs@.skip(p as int).len());
                        assert(cs@.skip(p2 as int).skip(1) =~= cs@.skip(p2 as int + 1));
                        assert(spec_parse_tasks_inner(cs@.skip(p as int)) == pti_prepend(
                            seq![tv],
                            spec_parse_tasks_inner(cs@.skip(p2 as int + 1)),
                        ));
                        lemma_pti_prepend_push(
                            sv_old,
                            tv,
                            spec_parse_tasks_inner(cs@.skip(p2 as int + 1)),
                        );
                    }
                    out.push(t);
                    proof {
                        assert(seq_view(out@) =~= sv_old.push(tv));
                    }
                    p = p2 + 1;
                } else {
                    proof {
                        if cs@.skip(p2 as int).len() >= 1 && cs@.skip(p2 as int)[0] == ',' {
                            assert(cs@[p2 as int] == ',');
                            assert(false);
                        }
                        assert(spec_parse_tasks_inner(cs@.skip(p as int)) == Some(
                            (seq![tv], cs@.skip(p2 as int)),
                        ));
                    }
                    out.push(t);
                    proof {
                        assert(seq_view(out@) =~= sv_old + seq![tv]);
                        assert(spec_parse_tasks_inner(cs@.skip(p1 as int)) == Some(
                            (seq_view(out@), cs@.skip(p2 as int)),
                        ));
                    }
                    if p2 < n && n - p2 == 1 && cs[p2] == ']' {
                        proof {
                            assert(cs@.skip(p2 as int) =~= seq![']']);
                        }
                        if check_tasks(&out) {
                            return Ok(out);
                        } else {
                            return Err(TodoError::ParseError);
                        }
                    } else {
                        proof {
                            if cs@.skip(p2 as int) == seq![']'] {
                                assert(cs@.skip(p2 as int).len() == 1);
                                assert(cs@[p2 as int] == cs@.skip(p2 as int)[0]);
                                assert(false);
                            }
                        }
                        return Err(TodoError::ParseError);
                    }
                }
            },
        }
    }
}

/// The first-run rule folded in: the text of a missing persisted file is
/// `None` and yields the empty list without error; present text is parsed
/// as by [`load_from_string`].
pub fn load(content: Option<&str>) -> (r: Result<Vec<Task>, TodoError>)
    ensures
        match content {
            None => r is Ok && r->Ok_0@.len() == 0,
            Some(s) => match r {
                Ok(ts) => spec_parse_tasks(s@) == Some(seq_view(ts@)) && tasks_wf(seq_view(ts@)),
                Err(e) => e == TodoError::ParseError && (spec_parse_tasks(s@) is None || !tasks_wf(
                    spec_parse_tasks(s@)->0,
                )),
            },
        },
{
    match content {
        None => Ok(Vec::new()),
        Some(s) => load_from_string(s),
    }
}



// ---------------------------------------------------------------------------
// Round trip: what the writer produces, the reader parses back unchanged.
// ---------------------------------------------------------------------------
/// A literal parses off the front of exactly itself.
proof fn lemma_parse_lit_of_concat(p: Seq<char>, rest: Seq<char>)
    ensures
        spec_parse_lit(p + rest, p) == Some(rest),
{
    assert((p + rest).take(p.len() as int) =~= p);
    assert((p + rest).skip(p.len() as int) =~= rest);
}


/// The code of a written digit character.
proof fn lemma_digit_char_code(d: int)
    requires
        0 <= d <= 9,
    ensures
        spec_digit_char(d) as u32 == 48 + d,
        spec_is_digit(spec_digit_char(d)),
{
    if d == 0 {
        assert('0' as u32 == 48);
    } else if d == 1 {
        assert('1' as u32 == 49);
    } else if d == 2 {
        assert('2' as u32 == 50);
    } else if d == 3 {
        assert('3' as u32 == 51);
    } else if d == 4 {
        assert('4' as u32 == 52);
    } else if d == 5 {
        assert('5' as u32 == 53);
    } else if d == 6 {
        assert('6' as u32 == 54);
    } else if d == 7 {
        assert('7' as u32 == 55);
    } else if d == 8 {
        assert('8' as u32 == 56);
    } else {
        assert('9' as u32 == 57);
    }
}

/// The code and value of a written hexadecimal digit character.
proof fn lemma_hex_char_code(d: int)
    requires
        0 <= d <= 15,
    ensures
        spec_is_hex(spec_hex_char(d)),
        spec_hex_val(spec_hex_char(d)) == d,
{
    if d <= 9 {
        lemma_digit_char_code(d);
    } else if d == 10 {
        assert('a' as u32 == 97);
    } else if d == 11 {
        assert('b' as u32 == 98);
    } else if d == 12 {
        assert('c' as u32 == 99);
    } else if d == 13 {
        assert('d' as u32 == 100);
    } else if d == 14 {
        assert('e' as u32 == 101);
    } else {
        assert('f' as u32 == 102);
    }
}

/// A written number is all digits and names the number it was written from.
proof fn lemma_ser_nat_digits(n: nat)
    ensures
        spec_ser_nat(n).len() >= 1,
        forall|m: int|
            0 <= m < spec_ser_nat(n).len() ==> spec_is_digit(#[trigger] spec_ser_nat(n)[m]),
        spec_digits_val(spec_ser_nat(n)) == n,
    decreases n,
{
    if n < 10 {
        lemma_digit_char_code(n as int);
        let ds = spec_ser_nat(n);
        assert(ds == seq![spec_digit_char(n as int)]);
        assert(ds.len() == 1);
        assert(ds.drop_last() =~= Seq::<char>::empty());
        assert(spec_digits_val(ds.drop_last()) == 0);
        assert(ds.last() == ds[0]);
        assert(ds[0] == spec_digit_char(n as int));
        assert(ds.last() as u32 == 48 + n);
        assert(spec_digits_val(ds) == spec_digits_val(ds.drop_last()) * 10 + (ds.last() as u32
            - 48) as nat);
    } else {
        lemma_ser_nat_digits(n / 10);
        lemma_digit_char_code((n % 10) as int);
        assert(spec_ser_nat(n).drop_last() =~= spec_ser_nat(n / 10));
        assert(spec_ser_nat(n).last() == spec_digit_char((n % 10) as int));
        vstd::arithmetic::div_mod::lemma_fundamental_div_mod(n as int, 10);
    }
}

/// A written number followed by a non-digit parses back to itself.
proof fn lemma_parse_u64_of_ser(n: u64, rest: Seq<char>)
    requires
        rest.len() == 0 || !spec_is_digit(rest[0]),
    ensures
        spec_parse_u64(spec_ser_nat(n as nat) + rest) == Some((n, rest)),
{
    lemma_ser_nat_digits(n as nat);
    let ds = spec_ser_nat(n as nat);
    let w = ds + rest;
    assert forall|m: int| 0 <= m < ds.len() implies spec_is_digit(#[trigger] w[m]) by {
        assert(w[m] == ds[m]);
    }
    if ds.len() < w.len() {
        assert(w[ds.len() as int] == rest[0]);
    }
    lemma_take_digits_split(w, ds.len() as int);
    assert(w.take(ds.len() as int) =~= ds);
    assert(w.skip(ds.len() as int) =~= rest);
}


/// A control character survives the cast chain through `u8` and back.
proof fn lemma_ctrl_char_cast(c: char)
    requires
        (c as u32) < 32,
    ensures
        ((c as u32) as u8) as char == c,
{
}

/// Escaped string content followed by the closing quote parses back to the
/// original content.
#[verifier::rlimit(100)]
proof fn lemma_parse_str_body_of_esc(s: Seq<char>, rest: Seq<char>)
    ensures
        spec_parse_str_body(spec_esc(s) + (seq!['"'] + rest)) == Some((s, rest)),
    decreases s.len(),
{
    let w = spec_esc(s) + (seq!['"'] + rest);
    if s.len() == 0 {
        assert(spec_esc(s) =~= Seq::<char>::empty());
        assert(w =~= seq!['"'] + rest);
        assert(w[0] == '"');
        assert(w.skip(1) =~= rest);
        assert(s =~= Seq::<char>::empty());
    } else {
        let c = s[0];
        lemma_parse_str_body_of_esc(s.skip(1), rest);
        let w2 = spec_esc(s.skip(1)) + (seq!['"'] + rest);
        assert(w =~= spec_esc_char(c) + w2);
        assert(seq![c] + s.skip(1) =~= s);
        if c == '"' || c == '\\' || c == '\n' || c == '\r' || c == '\t' {
            assert(w[0] == '\\');
            assert(spec_is_short_esc(w[1]));
            assert(spec_unesc_short(w[1]) == c);
            assert(w.skip(2) =~= w2);
        } else if (c as u32) < 32 {
            let hi = c as u32 as int / 16;
            let lo = c as u32 as int % 16;
            vstd::arithmetic::div_mod::lemma_fundamental_div_mod(c as u32 as int, 16);
            assert(w[0] == '\\');
            assert(w[1] == 'u');
            assert(!spec_is_short_esc('u'));
            assert(w[2] == '0');
            assert(w[3] == '0');
            assert(w[4] == spec_hex_char(hi));
            assert(w[5] == spec_hex_char(lo));
            lemma_hex_char_code(hi);
            lemma_hex_char_code(lo);
            lemma_ctrl_char_cast(c);
            assert(hi * 16 + lo == c as u32);
            assert((hi * 16 + lo) as u8 == (c as u32) as u8);
            assert(spec_hex_pair_char(w[4], w[5]) == c);
            assert(w.len() >= 6);
            assert(w.skip(6) =~= w2);
        } else {
            assert(w[0] == c);
            assert(w.skip(1) =~= w2);
        }
    }
}

/// A written string parses back to its content.
proof fn lemma_parse_string_of_ser(s: Seq<char>, rest: Seq<char>)
    ensures
        spec_parse_string(spec_ser_string(s) + rest) == Some((s, rest)),
{
    let w = spec_ser_string(s) + rest;
    assert(w[0] == '"');
    assert(w.skip(1) =~= spec_esc(s) + (seq!['"'] + rest));
    lemma_parse_str_body_of_esc(s, rest);
}

/// A written boolean parses back to itself.
proof fn lemma_parse_bool_of_ser(b: bool, rest: Seq<char>)
    ensures
        spec_parse_bool(spec_ser_bool(b) + rest) == Some((b, rest)),
{
    let w = spec_ser_bool(b) + rest;
    if b {
        assert(w.take(4) =~= lit_true());
        assert(w.skip(4) =~= rest);
    } else {
        assert(w.take(5) =~= lit_false());
        assert(w.skip(5) =~= rest);
        assert(w[0] == 'f');
        if spec_starts_with(w, lit_true()) {
            assert(w.take(4)[0] == 't');
            assert(false);
        }
    }
}

/// A written optional string parses back to itself.
proof fn lemma_parse_opt_of_ser(o: Option<Seq<char>>, rest: Seq<char>)
    ensures
        spec_parse_opt_string(spec_ser_opt(o) + rest) == Some((o, rest)),
{
    let w = spec_ser_opt(o) + rest;
    match o {
        None => {
            assert(w.take(4) =~= lit_null());
            assert(w.skip(4) =~= rest);
        },
        Some(v) => {
            assert(w[0] == '"');
            if spec_starts_with(w, lit_null()) {
                assert(w.take(4)[0] == 'n');
                assert(false);
            }
            lemma_parse_string_of_ser(v, rest);
        },
    }
}

/// The written task object regrouped for reading: the same characters with
/// the concatenation nested to the right, one field at a time.
#[verifier::rlimit(100)]
proof fn lemma_ser_task_shape(t: TaskV, rest: Seq<char>)
    ensures
        spec_ser_task(t) + rest =~= key_id() + (spec_ser_nat(t.id as nat) + (key_text() + (
        spec_ser_string(t.text) + (key_done() + (spec_ser_bool(t.done) + (key_created() + (
        spec_ser_string(t.created_at) + (key_completed() + (spec_ser_opt(t.completed_at) + (
        key_due() + (spec_ser_opt(t.due_date) + (seq!['}'] + rest)))))))))))),
{
}

/// A written task object parses back to the task it was written from.
#[verifier::rlimit(100)]
proof fn lemma_parse_task_of_ser(t: TaskV, rest: Seq<char>)
    ensures
        spec_parse_task(spec_ser_task(t) + rest) == Some((t, rest)),
        spec_ser_task(t).len() >= 1,
{
    let r12 = seq!['}'] + rest;
    let r11 = spec_ser_opt(t.due_date) + r12;
    let r10 = key_due() + r11;
    let r9 = spec_ser_opt(t.completed_at) + r10;
    let r8 = key_completed() + r9;
    let r7 = spec_ser_string(t.created_at) + r8;
    let r6 = key_created() + r7;
    let r5 = spec_ser_bool(t.done) + r6;
    let r4 = key_done() + r5;
    let r3 = spec_ser_string(t.text) + r4;
    let r2 = key_text() + r3;
    let r1 = spec_ser_nat(t.id as nat) + r2;
    let w = spec_ser_task(t) + rest;
    lemma_ser_task_shape(t, rest);
    assert(w == key_id() + r1);
    lemma_parse_lit_of_concat(key_id(), r1);
    assert(r2[0] == ',');
    lemma_parse_u64_of_ser(t.id, r2);
    lemma_parse_lit_of_concat(key_text(), r3);
    lemma_parse_string_of_ser(t.text, r4);
    lemma_parse_lit_of_concat(key_done(), r5);
    lemma_parse_bool_of_ser(t.done, r6);
    lemma_parse_lit_of_concat(key_created(), r7);
    lemma_parse_string_of_ser(t.created_at, r8);
    lemma_parse_lit_of_concat(key_completed(), r9);
    lemma_parse_opt_of_ser(t.completed_at, r10);
    lemma_parse_lit_of_concat(key_due(), r11);
    lemma_parse_opt_of_ser(t.due_date, r12);
    lemma_parse_lit_of_concat(seq!['}'], rest);
    assert(TaskV {
        id: t.id,
        text: t.text,
        done: t.done,
        created_at: t.created_at,
        completed_at: t.completed_at,
        due_date: t.due_date,
    } =~= t);
}

/// A written non-empty task list followed by anything that is not a comma
/// parses back to the same tasks.
#[verifier::rlimit(100)]
proof fn lemma_parse_inner_of_ser(ts: Seq<TaskV>, rest: Seq<char>)
    requires
        ts.len() >= 1,
        rest.len() == 0 || rest[0] != ',',
    ensures
        spec_parse_tasks_inner(spec_ser_tasks_inner(ts) + rest) == Some((ts, rest)),
    decreases ts.len(),
{
    let w = spec_ser_tasks_inner(ts) + rest;
    if ts.len() == 1 {
        assert(w =~= spec_ser_task(ts[0]) + rest);
        lemma_parse_task_of_ser(ts[0], rest);
        assert(seq![ts[0]] =~= ts);
    } else {
        let tail = seq![','] + (spec_ser_tasks_inner(ts.skip(1)) + rest);
        assert(w =~= spec_ser_task(ts[0]) + tail);
        lemma_parse_task_of_ser(ts[0], tail);
        assert(tail[0] == ',');
        assert(tail.len() < w.len());
        assert(tail.skip(1) =~= spec_ser_tasks_inner(ts.skip(1)) + rest);
        lemma_parse_inner_of_ser(ts.skip(1), rest);
        assert(seq![ts[0]] + ts.skip(1) =~= ts);
    }
}

/// Round trip: the persisted text written for any task list parses back to
/// exactly that list, element for element and field for field.
pub proof fn lemma_save_load_roundtrip(ts: Seq<TaskV>)
    ensures
        spec_parse_tasks(spec_ser_tasks(ts)) == Some(ts),
{
    let w = spec_ser_tasks(ts);
    if ts.len() == 0 {
        assert(spec_ser_tasks_inner(ts) =~= Seq::<char>::empty());
        assert(w =~= seq!['[', ']']);
        assert(ts =~= Seq::<TaskV>::empty());
    } else {
        lemma_parse_task_of_ser(ts[0], Seq::<char>::empty());
        assert(spec_ser_tasks_inner(ts).len() >= 1) by {
            if ts.len() == 1 {
                assert(spec_ser_tasks_inner(ts) == spec_ser_task(ts[0]));
            }
        }
        if w == seq!['[', ']'] {
            assert(w.len() == 2);
            assert(false);
        }
        let r0 = spec_ser_tasks_inner(ts) + seq![']'];
        assert(w =~= seq!['['] + r0);
        lemma_parse_lit_of_concat(seq!['['], r0);
        lemma_parse_inner_of_ser(ts, seq![']']);
    }
}


} // verus!
