//! The persistence format: a pretty-printed JSON array of task objects,
//! written and read by this module alone. The writer and reader are both
//! specified exactly, and reading back what was written is proved to
//! reproduce the same task list.

use vstd::prelude::*;
use crate::digits::{
    dec_digits, dec_fold, digit_val, is_digit_char, lemma_dec_digits_are_digits,
    lemma_dec_digits_round_trip, lemma_dec_fold_singleton, push_dec_digits, digit_val_exec,
};
use crate::strings::{chars_to_string, str_to_chars};
use crate::task::{TaskV, TodoItem};

verus! {

/// The character for one hexadecimal digit value, lower case.
pub open spec fn hex_char(d: int) -> char {
    if d < 10 {
        crate::digits::digit_char(d)
    } else if d == 10 {
        'a'
    } else if d == 11 {
        'b'
    } else if d == 12 {
        'c'
    } else if d == 13 {
        'd'
    } else if d == 14 {
        'e'
    } else {
        'f'
    }
}

/// Whether a character is a hexadecimal digit, either case.
pub open spec fn is_hex_char(c: char) -> bool {
    is_digit_char(c) || 97 <= c as int <= 102 || 65 <= c as int <= 70
}

/// The numeric value of a hexadecimal digit character.
pub open spec fn hex_val(c: char) -> int {
    if is_digit_char(c) {
        digit_val(c)
    } else if 97 <= c as int <= 102 {
        c as int - 87
    } else {
        c as int - 55
    }
}

/// The marks of the short control escapes `\b \t \n \f \r`.
pub open spec fn short_escape(c: char) -> bool {
    c == 'b' || c == 't' || c == 'n' || c == 'f' || c == 'r'
}

/// The control character a short escape mark stands for.
pub open spec fn short_escape_char(c: char) -> char {
    if c == 'b' {
        '\x08'
    } else if c == 't' {
        '\t'
    } else if c == 'n' {
        '\n'
    } else if c == 'f' {
        '\x0c'
    } else {
        '\r'
    }
}

/// How one character of a task text appears inside a JSON string:
/// quotes and backslashes carry a backslash escape, and control
/// characters the short or `\u00..` escapes JSON asks for.
pub open spec fn esc_char(c: char) -> Seq<char> {
    if c == '"' {
        seq!['\\', '"']
    } else if c == '\\' {
        seq!['\\', '\\']
    } else if c == '\x08' {
        seq!['\\', 'b']
    } else if c == '\t' {
        seq!['\\', 't']
    } else if c == '\n' {
        seq!['\\', 'n']
    } else if c == '\x0c' {
        seq!['\\', 'f']
    } else if c == '\r' {
        seq!['\\', 'r']
    } else if (c as int) < 32 {
        seq!['\\', 'u', '0', '0', hex_char((c as int) / 16), hex_char((c as int) % 16)]
    } else {
        seq![c]
    }
}

/// The value of four hexadecimal digit characters at position `i`.
pub open spec fn hex4_val(s: Seq<char>, i: int) -> int {
    hex_val(s[i]) * 4096 + hex_val(s[i + 1]) * 256 + hex_val(s[i + 2]) * 16 + hex_val(s[i + 3])
}

/// The escaped form of a whole text.
pub open spec fn esc(s: Seq<char>) -> Seq<char>
    decreases s.len(),
{
    if s.len() == 0 {
        Seq::empty()
    } else {
        esc_char(s.first()) + esc(s.drop_first())
    }
}

/// The decimal form of a signed number.
pub open spec fn ser_i64(n: int) -> Seq<char> {
    if n < 0 {
        seq!['-'] + dec_digits((-n) as nat)
    } else {
        dec_digits(n as nat)
    }
}

/// The JSON form of an optional due date.
pub open spec fn ser_due(d: Option<i64>) -> Seq<char> {
    match d {
        Option::None => "null"@,
        Option::Some(n) => ser_i64(n as int),
    }
}

/// The JSON form of a boolean.
pub open spec fn ser_bool(b: bool) -> Seq<char> {
    if b { "true"@ } else { "false"@ }
}

/// The fixed text from the start of a task object to its text value.
pub open spec fn lit_task_open() -> Seq<char> {
    "  {\n    \"text\": \""@
}

/// The fixed text between the text value and the completed value.
pub open spec fn lit_completed() -> Seq<char> {
    ",\n    \"completed\": "@
}

/// The fixed text between the completed value and the due date value.
pub open spec fn lit_due() -> Seq<char> {
    ",\n    \"due_date\": "@
}

/// The fixed text closing a task object.
pub open spec fn lit_task_close() -> Seq<char> {
    "\n  }"@
}

/// The serialized form of one task object.
pub open spec fn ser_task(t: TaskV) -> Seq<char> {
    lit_task_open() + esc(t.text) + seq!['"'] + lit_completed() + ser_bool(t.completed)
        + lit_due() + ser_due(t.due_date) + lit_task_close()
}

/// The serialized forms of one or more tasks, separated by commas.
pub open spec fn ser_tasks_rest(ts: Seq<TaskV>) -> Seq<char>
    decreases ts.len(),
{
    if ts.len() == 0 {
        Seq::empty()
    } else if ts.len() == 1 {
        ser_task(ts.first())
    } else {
        ser_task(ts.first()) + ",\n"@ + ser_tasks_rest(ts.drop_first())
    }
}

/// The serialized form of a whole task list.
pub open spec fn ser_doc(ts: Seq<TaskV>) -> Seq<char> {
    if ts.len() == 0 {
        "[]"@
    } else {
        "[\n"@ + ser_tasks_rest(ts) + "\n]"@
    }
}

/// The views of the tasks of a list.
pub open spec fn task_views(items: Seq<TodoItem>) -> Seq<TaskV> {
    items.map_values(|t: TodoItem| t@)
}

/// Appends the characters of a fixed string.
fn push_lit(out: &mut Vec<char>, lit: &str)
    ensures
        final(out)@ == old(out)@ + lit@,
{
    let n = lit.unicode_len();
    let mut i: usize = 0;
    while i < n
        invariant
            0 <= i <= n,
            n == lit@.len(),
            out@ == old(out)@ + lit@.take(i as int),
        decreases n - i,
    {
        out.push(lit.get_char(i));
        assert(out@ =~= old(out)@ + lit@.take(i as int + 1));
        i = i + 1;
    }
    assert(old(out)@ + lit@.take(n as int) =~= old(out)@ + lit@);
}

/// Escaping one more character extends the escaped text.
proof fn lemma_esc_push(s: Seq<char>, c: char)
    ensures
        esc(s.push(c)) == esc(s) + esc_char(c),
    decreases s.len(),
{
    if s.len() == 0 {
        reveal_with_fuel(esc, 2);
        assert(s.push(c).drop_first() =~= Seq::<char>::empty());
        assert(esc(s.push(c)) =~= esc_char(c));
        assert(esc(s) + esc_char(c) =~= esc_char(c));
    } else {
        assert(s.push(c).drop_first() =~= s.drop_first().push(c));
        lemma_esc_push(s.drop_first(), c);
        assert(esc(s.push(c)) =~= esc(s) + esc_char(c));
    }
}

/// The hexadecimal digit character for a value below sixteen.
fn hex_char_exec(d: u8) -> (c: char)
    requires
        d < 16,
    ensures
        c == hex_char(d as int),
{
    if d < 10 {
        crate::digits::digit_char_exec(d)
    } else if d == 10 {
        'a'
    } else if d == 11 {
        'b'
    } else if d == 12 {
        'c'
    } else if d == 13 {
        'd'
    } else if d == 14 {
        'e'
    } else {
        'f'
    }
}

/// The value of a hexadecimal digit character, or `None` for any other
/// character.
fn hex_val_exec(c: char) -> (r: Option<u8>)
    ensures
        r is Some <==> is_hex_char(c),
        r is Some ==> r->0 == hex_val(c) && r->0 < 16,
{
    let v = c as u32;
    if 48 <= v && v <= 57 {
        Some((v - 48) as u8)
    } else if 97 <= v && v <= 102 {
        Some((v - 87) as u8)
    } else if 65 <= v && v <= 70 {
        Some((v - 55) as u8)
    } else {
        None
    }
}

/// Relies on `char::from_u32`: the character of a scalar value that is
/// no surrogate and at most `0x10FFFF`, for which it returns `Some`.
#[verifier::external_body]
fn char_from_code(code: u32) -> (c: char)
    requires
        code < 0xd800 || (0xe000 <= code <= 0x10ffff),
    ensures
        c == (code as char),
{
    char::from_u32(code).unwrap()
}

/// Appends the escaped form of a text.
fn push_escaped(out: &mut Vec<char>, s: &str)
    ensures
        final(out)@ == old(out)@ + esc(s@),
{
    let n = s.unicode_len();
    let mut i: usize = 0;
    proof {
        assert(esc(s@.take(0)) =~= Seq::<char>::empty());
    }
    while i < n
        invariant
            0 <= i <= n,
            n == s@.len(),
            out@ == old(out)@ + esc(s@.take(i as int)),
        decreases n - i,
    {
        let c = s.get_char(i);
        let code = c as u32;
        if c == '"' {
            out.push('\\');
            out.push('"');
        } else if c == '\\' {
            out.push('\\');
            out.push('\\');
        } else if code == 8 {
            out.push('\\');
            out.push('b');
        } else if code == 9 {
            out.push('\\');
            out.push('t');
        } else if code == 10 {
            out.push('\\');
            out.push('n');
        } else if code == 12 {
            out.push('\\');
            out.push('f');
        } else if code == 13 {
            out.push('\\');
            out.push('r');
        } else if code < 32 {
            out.push('\\');
            out.push('u');
            out.push('0');
            out.push('0');
            out.push(hex_char_exec((code / 16) as u8));
            out.push(hex_char_exec((code % 16) as u8));
        } else {
            out.push(c);
        }
        proof {
            lemma_esc_push(s@.take(i as int), c);
            assert(s@.take(i as int).push(c) =~= s@.take(i as int + 1));
            assert(out@ =~= old(out)@ + esc(s@.take(i as int + 1)));
        }
        i = i + 1;
    }
    assert(s@.take(n as int) =~= s@);
}

/// Appends the decimal form of a signed number.
fn push_i64(out: &mut Vec<char>, n: i64)
    ensures
        final(out)@ == old(out)@ + ser_i64(n as int),
{
    if n < 0 {
        out.push('-');
        let mag: u64 = if n == i64::MIN {
            9223372036854775808u64
        } else {
            (-n) as u64
        };
        assert(mag == -(n as int));
        push_dec_digits(out, mag);
        assert(final(out)@ =~= old(out)@ + ser_i64(n as int));
    } else {
        push_dec_digits(out, n as u64);
    }
}

/// Appends the serialized form of one task.
fn push_task(out: &mut Vec<char>, t: &TodoItem)
    ensures
        final(out)@ == old(out)@ + ser_task(t@),
{
    push_lit(out, "  {\n    \"text\": \"");
    push_escaped(out, t.text.as_str());
    out.push('"');
    push_lit(out, ",\n    \"completed\": ");
    if t.completed {
        push_lit(out, "true");
    } else {
        push_lit(out, "false");
    }
    push_lit(out, ",\n    \"due_date\": ");
    match t.due_date {
        Option::None => push_lit(out, "null"),
        Option::Some(n) => push_i64(out, n),
    }
    push_lit(out, "\n  }");
    assert(final(out)@ =~= old(out)@ + ser_task(t@));
}

/// One more serialized task extends the comma-separated run.
proof fn lemma_ser_rest_snoc(ts: Seq<TaskV>, k: int)
    requires
        1 <= k < ts.len(),
    ensures
        ser_tasks_rest(ts.take(k + 1)) == ser_tasks_rest(ts.take(k)) + ",\n"@ + ser_task(ts[k]),
    decreases k,
{
    if k == 1 {
        reveal_with_fuel(ser_tasks_rest, 3);
        let a = ts.take(2);
        assert(a.drop_first() =~= seq![ts[1]]);
        assert(seq![ts[1]].first() == ts[1]);
        assert(ts.take(1) =~= seq![ts[0]]);
        assert(ser_tasks_rest(ts.take(2)) =~= ser_task(ts[0]) + ",\n"@ + ser_task(ts[1]));
        assert(ser_tasks_rest(ts.take(1)) == ser_task(ts[0]));
    } else {
        lemma_ser_rest_snoc(ts.drop_first(), k - 1);
        assert(ts.take(k + 1).drop_first() =~= ts.drop_first().take(k));
        assert(ts.take(k).drop_first() =~= ts.drop_first().take(k - 1));
        assert(ts.drop_first()[k - 1] == ts[k]);
        assert(ser_tasks_rest(ts.take(k + 1)) == ser_task(ts[0]) + ",\n"@ + ser_tasks_rest(
            ts.drop_first().take(k),
        ));
        assert(ser_tasks_rest(ts.take(k)) == ser_task(ts[0]) + ",\n"@ + ser_tasks_rest(
            ts.drop_first().take(k - 1),
        ));
        assert(ser_tasks_rest(ts.take(k + 1)) =~= ser_tasks_rest(ts.take(k)) + ",\n"@
            + ser_task(ts[k]));
    }
}

/// Serializes a task list as the persistence file's text.
pub fn tasks_to_json(items: &Vec<TodoItem>) -> (r: String)
    ensures
        r@ == ser_doc(task_views(items@)),
{
    let ghost views = task_views(items@);
    let mut out: Vec<char> = Vec::new();
    if items.len() == 0 {
        push_lit(&mut out, "[]");
        assert(out@ =~= ser_doc(views));
        return chars_to_string(&out);
    }
    push_lit(&mut out, "[\n");
    let mut i: usize = 0;
    while i < items.len()
        invariant
            0 < items@.len() == views.len(),
            views == task_views(items@),
            0 <= i <= items@.len(),
            i > 0 ==> out@ == "[\n"@ + ser_tasks_rest(views.take(i as int)),
            i == 0 ==> out@ == "[\n"@,
        decreases items@.len() - i,
    {
        if i > 0 {
            push_lit(&mut out, ",\n");
        }
        push_task(&mut out, &items[i]);
        proof {
            assert(views[i as int] == items@[i as int]@);
            if i == 0 {
                assert(views.take(1) =~= seq![views[0]]);
                assert(ser_tasks_rest(views.take(1)) == ser_task(views[0]));
                assert(out@ =~= "[\n"@ + ser_tasks_rest(views.take(1)));
            } else {
                lemma_ser_rest_snoc(views, i as int);
                assert(out@ =~= "[\n"@ + ser_tasks_rest(views.take(i as int + 1)));
            }
        }
        i = i + 1;
    }
    push_lit(&mut out, "\n]");
    proof {
        assert(views.take(views.len() as int) =~= views);
        assert(out@ =~= ser_doc(views));
    }
    chars_to_string(&out)
}

/// Whether the fixed text `lit` stands at position `i` of `s`; on success
/// the position just past it.
pub open spec fn expect_at(s: Seq<char>, i: int, lit: Seq<char>) -> Option<int> {
    if 0 <= i && i + lit.len() <= s.len() && s.subrange(i, i + lit.len()) == lit {
        Some(i + lit.len())
    } else {
        None
    }
}

/// Reads a JSON string value from position `i` up to and including its
/// closing quote, undoing the backslash escapes.
pub open spec fn parse_string_body(s: Seq<char>, i: int) -> Option<(Seq<char>, int)>
    decreases s.len() - i,
{
    if i < 0 || i >= s.len() {
        None
    } else if s[i] == '"' {
        Some((Seq::empty(), i + 1))
    } else if s[i] == '\\' {
        if i + 1 < s.len() {
            let c2 = s[i + 1];
            if c2 == '"' || c2 == '\\' || c2 == '/' {
                match parse_string_body(s, i + 2) {
                    Option::None => None,
                    Option::Some(p) => Some((seq![c2] + p.0, p.1)),
                }
            } else if short_escape(c2) {
                match parse_string_body(s, i + 2) {
                    Option::None => None,
                    Option::Some(p) => Some((seq![short_escape_char(c2)] + p.0, p.1)),
                }
            } else if c2 == 'u' {
                if i + 6 <= s.len() && is_hex_char(s[i + 2]) && is_hex_char(s[i + 3])
                    && is_hex_char(s[i + 4]) && is_hex_char(s[i + 5]) {
                    let code = hex4_val(s, i + 2);
                    if 0xd800 <= code < 0xe000 {
                        None
                    } else {
                        match parse_string_body(s, i + 6) {
                            Option::None => None,
                            Option::Some(p) => Some((seq![(code as u32) as char] + p.0, p.1)),
                        }
                    }
                } else {
                    None
                }
            } else {
                None
            }
        } else {
            None
        }
    } else {
        match parse_string_body(s, i + 1) {
            Option::None => None,
            Option::Some(p) => Some((seq![s[i]] + p.0, p.1)),
        }
    }
}

/// Reads a run of decimal digits into an accumulated value, refusing a
/// value above `bound`; on success the value and the position after the
/// last digit.
pub open spec fn parse_digits_val(s: Seq<char>, i: int, acc: int, bound: int) -> Option<(int, int)>
    decreases s.len() - i,
{
    if !(0 <= i && i < s.len() && is_digit_char(s[i])) {
        None
    } else {
        let acc2 = acc * 10 + digit_val(s[i]);
        if acc2 > bound {
            None
        } else if i + 1 < s.len() && is_digit_char(s[i + 1]) {
            parse_digits_val(s, i + 1, acc2, bound)
        } else {
            Some((acc2, i + 1))
        }
    }
}

/// Reads a due date value: `null`, or a decimal number in `i64` range.
pub open spec fn parse_due(s: Seq<char>, i: int) -> Option<(Option<i64>, int)> {
    match expect_at(s, i, "null"@) {
        Option::Some(j) => Some((None, j)),
        Option::None => if 0 <= i && i < s.len() && s[i] == '-' {
            match parse_digits_val(s, i + 1, 0, 0x8000000000000000) {
                Option::None => None,
                Option::Some(p) => Some((Some((-p.0) as i64), p.1)),
            }
        } else {
            match parse_digits_val(s, i, 0, 0x7fffffffffffffff) {
                Option::None => None,
                Option::Some(p) => Some((Some(p.0 as i64), p.1)),
            }
        },
    }
}

/// Reads a boolean value.
pub open spec fn parse_bool_at(s: Seq<char>, i: int) -> Option<(bool, int)> {
    match expect_at(s, i, "true"@) {
        Option::Some(j) => Some((true, j)),
        Option::None => match expect_at(s, i, "false"@) {
            Option::Some(j) => Some((false, j)),
            Option::None => None,
        },
    }
}

/// Reads one task object at position `i`.
pub open spec fn parse_task_at(s: Seq<char>, i: int) -> Option<(TaskV, int)> {
    match expect_at(s, i, lit_task_open()) {
        Option::None => None,
        Option::Some(j1) => match parse_string_body(s, j1) {
            Option::None => None,
            Option::Some(pt) => match expect_at(s, pt.1, lit_completed()) {
                Option::None => None,
                Option::Some(j3) => match parse_bool_at(s, j3) {
                    Option::None => None,
                    Option::Some(pb) => match expect_at(s, pb.1, lit_due()) {
                        Option::None => None,
                        Option::Some(j5) => match parse_due(s, j5) {
                            Option::None => None,
                            Option::Some(pd) => match expect_at(s, pd.1, lit_task_close()) {
                                Option::None => None,
                                Option::Some(j7) => Some(
                                    (
                                        TaskV {
                                            text: pt.0,
                                            completed: pb.0,
                                            due_date: pd.0,
                                        },
                                        j7,
                                    ),
                                ),
                            },
                        },
                    },
                },
            },
        },
    }
}

/// Reads one or more comma-separated task objects, ending at the closing
/// newline-bracket of the array.
pub open spec fn parse_tasks_rest(s: Seq<char>, i: int) -> Option<(Seq<TaskV>, int)>
    decreases s.len() - i,
{
    match parse_task_at(s, i) {
        Option::None => None,
        Option::Some(pt) => if !(i < pt.1 <= s.len()) {
            None
        } else {
            match expect_at(s, pt.1, ",\n"@) {
                Option::Some(j2) => match parse_tasks_rest(s, j2) {
                    Option::None => None,
                    Option::Some(pr) => Some((seq![pt.0] + pr.0, pr.1)),
                },
                Option::None => match expect_at(s, pt.1, "\n]"@) {
                    Option::None => None,
                    Option::Some(k) => Some((seq![pt.0], k)),
                },
            }
        },
    }
}

/// Reads a whole persistence file: the empty array, or a bracketed run
/// of task objects, with nothing after it.
pub open spec fn parse_doc(s: Seq<char>) -> Option<Seq<TaskV>> {
    match expect_at(s, 0, "[]"@) {
        Option::Some(k) => if k == s.len() {
            Some(Seq::empty())
        } else {
            None
        },
        Option::None => match expect_at(s, 0, "[\n"@) {
            Option::None => None,
            Option::Some(j) => match parse_tasks_rest(s, j) {
                Option::None => None,
                Option::Some(pr) => if pr.1 == s.len() {
                    Some(pr.0)
                } else {
                    None
                },
            },
        },
    }
}

/// A character value is always a code point below 0x110000.
proof fn lemma_char_bounds(c: char)
    ensures
        0 <= c as int <= 0x10ffff,
{
}

/// A hexadecimal digit character carries its value.
proof fn lemma_hex_char_props(d: int)
    requires
        0 <= d < 16,
    ensures
        is_hex_char(hex_char(d)),
        hex_val(hex_char(d)) == d,
{
}

/// A piece of text standing at `i` splits into its two halves.
proof fn lemma_split2(s: Seq<char>, i: int, a: Seq<char>, b: Seq<char>)
    requires
        0 <= i,
        i + a.len() + b.len() <= s.len(),
        s.subrange(i, i + a.len() + b.len()) == a + b,
    ensures
        s.subrange(i, i + a.len()) == a,
        s.subrange(i + a.len(), i + a.len() + b.len()) == b,
{
    let n = a.len() as int;
    let nb = b.len() as int;
    assert forall|m: int| 0 <= m < n implies s.subrange(i, i + n)[m] == a[m] by {
        assert(s.subrange(i, i + n)[m] == s[i + m]);
        assert(s.subrange(i, i + n + nb)[m] == s[i + m]);
        assert((a + b)[m] == a[m]);
    }
    assert(s.subrange(i, i + n) =~= a);
    assert forall|m: int| 0 <= m < nb implies s.subrange(i + n, i + n + nb)[m] == b[m] by {
        assert(s.subrange(i + n, i + n + nb)[m] == s[i + n + m]);
        assert(s.subrange(i, i + n + nb)[n + m] == s[i + (n + m)]);
        assert((a + b)[n + m] == b[m]);
    }
    assert(s.subrange(i + n, i + n + nb) =~= b);
}

/// A fixed text standing at `i` is found there.
proof fn lemma_expect_here(s: Seq<char>, i: int, lit: Seq<char>)
    requires
        0 <= i,
        i + lit.len() <= s.len(),
        s.subrange(i, i + lit.len()) == lit,
    ensures
        expect_at(s, i, lit) == Some(i + lit.len()),
{
}

/// Reading an escaped text followed by its closing quote undoes the
/// escaping exactly.
proof fn lemma_psb_round_trip(s: Seq<char>, i: int, t: Seq<char>)
    requires
        0 <= i,
        i + esc(t).len() + 1 <= s.len(),
        s.subrange(i, i + esc(t).len() + 1) == esc(t) + seq!['"'],
    ensures
        parse_string_body(s, i) == Some((t, i + esc(t).len() + 1)),
    decreases t.len(),
{
    let whole = esc(t) + seq!['"'];
    if t.len() == 0 {
        assert(s[i] == whole[0]);
        assert(s[i] == '"');
    } else {
        let c = t.first();
        let t2 = t.drop_first();
        assert(esc(t) == esc_char(c) + esc(t2));
        let e2 = esc(t2) + seq!['"'];
        assert(s.subrange(i, i + esc_char(c).len() + e2.len()) == esc_char(c) + e2) by {
            assert(whole =~= esc_char(c) + e2);
        }
        lemma_split2(s, i, esc_char(c), e2);
        let j = i + esc_char(c).len();
        lemma_psb_round_trip(s, j, t2);
        assert(s.subrange(i, i + esc_char(c).len())[0] == s[i]);
        if esc_char(c).len() >= 2 {
            assert(s.subrange(i, i + esc_char(c).len())[1] == s[i + 1]);
        }
        if c == '"' {
            assert(s[i] == '\\' && s[i + 1] == '"');
            assert(seq![s[i + 1]] + t2 =~= t);
        } else if c == '\\' {
            assert(s[i] == '\\' && s[i + 1] == '\\');
            assert(seq![s[i + 1]] + t2 =~= t);
        } else if c == '\x08' || c == '\t' || c == '\n' || c == '\x0c' || c == '\r' {
            assert(s[i] == '\\' && short_escape(s[i + 1]));
            assert(short_escape_char(s[i + 1]) == c);
            assert(seq![short_escape_char(s[i + 1])] + t2 =~= t);
        } else if (c as int) < 32 {
            let cc = c as int;
            assert(s.subrange(i, i + 6)[2] == s[i + 2]);
            assert(s.subrange(i, i + 6)[3] == s[i + 3]);
            assert(s.subrange(i, i + 6)[4] == s[i + 4]);
            assert(s.subrange(i, i + 6)[5] == s[i + 5]);
            assert(s[i] == '\\' && s[i + 1] == 'u');
            assert(s[i + 2] == '0' && s[i + 3] == '0');
            assert(s[i + 4] == hex_char(cc / 16) && s[i + 5] == hex_char(cc % 16));
            lemma_char_bounds(c);
            assert(0 <= cc < 32);
            lemma_hex_char_props(cc / 16);
            lemma_hex_char_props(cc % 16);
            assert(is_hex_char(s[i + 2]) && is_hex_char(s[i + 3]));
            assert(is_hex_char(s[i + 4]) && hex_val(s[i + 4]) == cc / 16);
            assert(is_hex_char(s[i + 5]) && hex_val(s[i + 5]) == cc % 16);
            assert(hex4_val(s, i + 2) == cc);
            assert(((cc as u32) as char) == c) by {
                assert(cc as u32 == c as u32);
                assert(((c as u32) as char) == c);
            }
            assert(seq![(hex4_val(s, i + 2) as u32) as char] + t2 =~= t);
        } else {
            assert(s[i] == c);
            assert(seq![s[i]] + t2 =~= t);
        }
    }
}

/// Every accumulator value met while folding a digit string stays at or
/// below `bound`.
pub open spec fn fold_ok(ds: Seq<char>, acc: int, bound: int) -> bool
    decreases ds.len(),
{
    if ds.len() == 0 {
        true
    } else {
        let acc2 = acc * 10 + digit_val(ds.first());
        acc2 <= bound && fold_ok(ds.drop_first(), acc2, bound)
    }
}

/// Folding one more digit is fine exactly when the digits so far were
/// fine and the extended value stays in bound.
proof fn lemma_fold_ok_push(a: Seq<char>, c: char, acc: int, bound: int)
    ensures
        fold_ok(a.push(c), acc, bound) == (fold_ok(a, acc, bound) && dec_fold(a.push(c), acc)
            <= bound),
    decreases a.len(),
{
    if a.len() == 0 {
        reveal_with_fuel(fold_ok, 2);
        reveal_with_fuel(dec_fold, 2);
        assert(a.push(c).drop_first() =~= Seq::<char>::empty());
        assert(a.push(c).first() == c);
    } else {
        assert(a.push(c).drop_first() =~= a.drop_first().push(c));
        lemma_fold_ok_push(a.drop_first(), c, acc * 10 + digit_val(a.first()), bound);
    }
}

/// The canonical digits of `n` fold back to `n` without ever leaving the
/// bound, provided `n` itself is within it.
proof fn lemma_fold_ok_canonical(n: nat, bound: int)
    requires
        n <= bound,
    ensures
        fold_ok(dec_digits(n), 0, bound),
        dec_fold(dec_digits(n), 0) == n,
    decreases n,
{
    lemma_dec_digits_round_trip(n);
    if n < 10 {
        reveal_with_fuel(fold_ok, 2);
        assert(dec_digits(n).drop_first() =~= Seq::<char>::empty());
    } else {
        lemma_fold_ok_canonical(n / 10, bound);
        let a = dec_digits(n / 10);
        let c = crate::digits::digit_char((n % 10) as int);
        assert(dec_digits(n) =~= a.push(c));
        lemma_fold_ok_push(a, c, 0, bound);
        lemma_dec_digits_round_trip(n);
    }
}

/// A digit string standing at `i` with no digit after it parses to its
/// folded value.
proof fn lemma_digits_round_trip(s: Seq<char>, i: int, ds: Seq<char>, acc: int, bound: int)
    requires
        ds.len() >= 1,
        crate::digits::all_digits(ds),
        0 <= i,
        i + ds.len() <= s.len(),
        s.subrange(i, i + ds.len()) == ds,
        i + ds.len() == s.len() || !is_digit_char(s[i + ds.len()]),
        fold_ok(ds, acc, bound),
    ensures
        parse_digits_val(s, i, acc, bound) == Some((dec_fold(ds, acc), i + ds.len())),
    decreases ds.len(),
{
    assert(s.subrange(i, i + ds.len())[0] == s[i]);
    assert(s[i] == ds[0]);
    assert(is_digit_char(ds[0]));
    let acc2 = acc * 10 + digit_val(ds[0]);
    if ds.len() == 1 {
        assert(dec_fold(ds, acc) == acc2) by {
            assert(ds =~= seq![ds[0]]);
            lemma_dec_fold_singleton(ds[0], acc);
        }
    } else {
        let ds2 = ds.drop_first();
        assert(s.subrange(i, i + ds.len())[1] == s[i + 1]);
        assert(s[i + 1] == ds[1]);
        assert(is_digit_char(ds[1]));
        assert(s.subrange(i + 1, i + 1 + ds2.len()) =~= ds2) by {
            assert forall|m: int| 0 <= m < ds2.len() implies s.subrange(
                i + 1,
                i + 1 + ds2.len(),
            )[m] == ds2[m] by {
                assert(s.subrange(i + 1, i + 1 + ds2.len())[m] == s[i + 1 + m]);
                assert(ds2[m] == ds[m + 1]);
            }
        }
        assert(crate::digits::all_digits(ds2)) by {
            assert forall|m: int| 0 <= m < ds2.len() implies is_digit_char(
                #[trigger] ds2[m],
            ) by {
                assert(ds2[m] == ds[m + 1]);
            }
        }
        lemma_digits_round_trip(s, i + 1, ds2, acc2, bound);
    }
}

/// A serialized due date standing at `i`, with no digit following it,
/// parses back to the same value.
proof fn lemma_due_round_trip(s: Seq<char>, i: int, due: Option<i64>)
    requires
        0 <= i,
        i + ser_due(due).len() <= s.len(),
        s.subrange(i, i + ser_due(due).len()) == ser_due(due),
        i + ser_due(due).len() == s.len() || !is_digit_char(s[i + ser_due(due).len()]),
    ensures
        parse_due(s, i) == Some((due, i + ser_due(due).len())),
{
    reveal_strlit("null");
    if ser_due(due).len() > 0 {
        assert(s.subrange(i, i + ser_due(due).len())[0] == s[i]);
    }
    match due {
        Option::None => {
            lemma_expect_here(s, i, "null"@);
        },
        Option::Some(n) => {
            if n >= 0 {
                let ds = dec_digits(n as nat);
                lemma_dec_digits_are_digits(n as nat);
                assert(s[i] == ds[0]);
                assert(is_digit_char(ds[0]));
                // `null` cannot stand here: its first character is no digit.
                assert(expect_at(s, i, "null"@) is None) by {
                    if i + 4 <= s.len() && s.subrange(i, i + 4) == "null"@ {
                        assert(s.subrange(i, i + 4)[0] == s[i]);
                        assert(s[i] == 'n');
                    }
                }
                lemma_fold_ok_canonical(n as nat, 0x7fffffffffffffff);
                lemma_digits_round_trip(s, i, ds, 0, 0x7fffffffffffffff);
            } else {
                let mag = (-(n as int)) as nat;
                let ds = dec_digits(mag);
                lemma_dec_digits_are_digits(mag);
                assert(ser_due(due) =~= seq!['-'] + ds);
                assert(s[i] == '-');
                assert(expect_at(s, i, "null"@) is None) by {
                    if i + 4 <= s.len() && s.subrange(i, i + 4) == "null"@ {
                        assert(s.subrange(i, i + 4)[0] == s[i]);
                        assert(s[i] == 'n');
                    }
                }
                assert(s.subrange(i + 1, i + 1 + ds.len()) =~= ds) by {
                    assert forall|m: int| 0 <= m < ds.len() implies s.subrange(
                        i + 1,
                        i + 1 + ds.len(),
                    )[m] == ds[m] by {
                        assert(s.subrange(i + 1, i + 1 + ds.len())[m] == s[i + 1 + m]);
                        assert((seq!['-'] + ds)[m + 1] == ds[m]);
                    }
                }
                lemma_fold_ok_canonical(mag, 0x8000000000000000);
                lemma_digits_round_trip(s, i + 1, ds, 0, 0x8000000000000000);
                assert((-(mag as int)) as i64 == n);
            }
        },
    }
}

/// A serialized boolean standing at `i` parses back to the same value.
proof fn lemma_bool_round_trip(s: Seq<char>, i: int, b: bool)
    requires
        0 <= i,
        i + ser_bool(b).len() <= s.len(),
        s.subrange(i, i + ser_bool(b).len()) == ser_bool(b),
    ensures
        parse_bool_at(s, i) == Some((b, i + ser_bool(b).len())),
{
    reveal_strlit("true");
    reveal_strlit("false");
    if b {
        lemma_expect_here(s, i, "true"@);
    } else {
        lemma_expect_here(s, i, "false"@);
        assert(expect_at(s, i, "true"@) is None) by {
            if i + 4 <= s.len() && s.subrange(i, i + 4) == "true"@ {
                assert(s.subrange(i, i + 4)[0] == s[i]);
                assert(s.subrange(i, i + 5)[0] == s[i]);
            }
        }
    }
}

/// A serialized task standing at `i` parses back to the same task.
proof fn lemma_task_round_trip(s: Seq<char>, i: int, t: TaskV)
    requires
        0 <= i,
        i + ser_task(t).len() <= s.len(),
        s.subrange(i, i + ser_task(t).len()) == ser_task(t),
    ensures
        parse_task_at(s, i) == Some((t, i + ser_task(t).len())),
{
    let a1 = lit_task_open();
    let e = esc(t.text) + seq!['"'];
    let a3 = lit_completed();
    let b = ser_bool(t.completed);
    let a5 = lit_due();
    let d = ser_due(t.due_date);
    let a7 = lit_task_close();
    let r1 = e + (a3 + (b + (a5 + (d + a7))));
    let r2 = a3 + (b + (a5 + (d + a7)));
    let r3 = b + (a5 + (d + a7));
    let r4 = a5 + (d + a7);
    let r5 = d + a7;
    assert(ser_task(t) =~= a1 + r1);
    assert(s.subrange(i, i + a1.len() + r1.len()) == a1 + r1);
    lemma_split2(s, i, a1, r1);
    let p1 = i + a1.len();
    lemma_expect_here(s, i, a1);
    assert(r1 =~= e + r2);
    lemma_split2(s, p1, e, r2);
    let p2 = p1 + e.len();
    lemma_psb_round_trip(s, p1, t.text);
    assert(r2 =~= a3 + r3);
    lemma_split2(s, p2, a3, r3);
    let p3 = p2 + a3.len();
    lemma_expect_here(s, p2, a3);
    assert(r3 =~= b + r4);
    lemma_split2(s, p3, b, r4);
    let p4 = p3 + b.len();
    lemma_bool_round_trip(s, p3, t.completed);
    assert(r4 =~= a5 + r5);
    lemma_split2(s, p4, a5, r5);
    let p5 = p4 + a5.len();
    lemma_expect_here(s, p4, a5);
    assert(r5 =~= d + a7);
    lemma_split2(s, p5, d, a7);
    let p6 = p5 + d.len();
    lemma_expect_here(s, p6, a7);
    // The character after the due date is the newline of the closing
    // text, which is no digit.
    reveal_strlit("\n  }");
    assert(s.subrange(p6, p6 + a7.len())[0] == s[p6]);
    assert(s[p6] == '\n');
    assert(!is_digit_char('\n'));
    lemma_due_round_trip(s, p5, t.due_date);
}

/// A serialized task run followed by the closing bracket parses back to
/// the same task sequence.
proof fn lemma_tasks_rest_round_trip(s: Seq<char>, i: int, ts: Seq<TaskV>)
    requires
        ts.len() >= 1,
        0 <= i,
        i + ser_tasks_rest(ts).len() + 2 <= s.len(),
        s.subrange(i, i + ser_tasks_rest(ts).len() + 2) == ser_tasks_rest(ts) + "\n]"@,
    ensures
        parse_tasks_rest(s, i) == Some((ts, i + ser_tasks_rest(ts).len() + 2)),
    decreases ts.len(),
{
    reveal_strlit("\n]");
    reveal_strlit(",\n");
    reveal_strlit("  {\n    \"text\": \"");
    let t0 = ts.first();
    if ts.len() == 1 {
        assert(ser_tasks_rest(ts) == ser_task(t0));
        assert(ser_tasks_rest(ts) + "\n]"@ =~= ser_task(t0) + "\n]"@);
        lemma_split2(s, i, ser_task(t0), "\n]"@);
        let j = i + ser_task(t0).len();
        lemma_task_round_trip(s, i, t0);
        assert(ser_task(t0).len() >= lit_task_open().len());
        lemma_expect_here(s, j, "\n]"@);
        assert(s.subrange(j, j + 2)[0] == s[j]);
        assert(s[j] == '\n');
        assert(expect_at(s, j, ",\n"@) is None) by {
            if j + 2 <= s.len() && s.subrange(j, j + 2) == ",\n"@ {
                assert(s.subrange(j, j + 2)[0] == s[j]);
            }
        }
        assert(seq![t0] =~= ts);
    } else {
        let ts2 = ts.drop_first();
        assert(ser_tasks_rest(ts) == ser_task(t0) + ",\n"@ + ser_tasks_rest(ts2));
        let tail = ",\n"@ + (ser_tasks_rest(ts2) + "\n]"@);
        assert(ser_tasks_rest(ts) + "\n]"@ =~= ser_task(t0) + tail);
        lemma_split2(s, i, ser_task(t0), tail);
        let j = i + ser_task(t0).len();
        lemma_task_round_trip(s, i, t0);
        assert(ser_task(t0).len() >= lit_task_open().len());
        assert(tail =~= ",\n"@ + (ser_tasks_rest(ts2) + "\n]"@));
        lemma_split2(s, j, ",\n"@, ser_tasks_rest(ts2) + "\n]"@);
        lemma_expect_here(s, j, ",\n"@);
        let j2 = j + 2;
        assert(s.subrange(j2, j2 + ser_tasks_rest(ts2).len() + 2) == ser_tasks_rest(ts2)
            + "\n]"@);
        lemma_tasks_rest_round_trip(s, j2, ts2);
        assert(seq![t0] + ts2 =~= ts);
    }
}

/// Reading back the serialized form of any task list yields that list:
/// the save/load round trip, stated over the file text.
pub proof fn lemma_save_load_round_trip(ts: Seq<TaskV>)
    ensures
        parse_doc(ser_doc(ts)) == Some(ts),
{
    let s = ser_doc(ts);
    reveal_strlit("[]");
    reveal_strlit("[\n");
    reveal_strlit("\n]");
    if ts.len() == 0 {
        assert(s == "[]"@);
        assert(s.subrange(0, 2) =~= s);
        lemma_expect_here(s, 0, "[]"@);
        assert(parse_doc(s) == Some(Seq::<TaskV>::empty()));
        assert(Seq::<TaskV>::empty() =~= ts);
    } else {
        let rest = ser_tasks_rest(ts);
        assert(s == "[\n"@ + rest + "\n]"@);
        assert(s =~= "[\n"@ + (rest + "\n]"@));
        assert(s.subrange(0, ("[\n"@).len() as int + (rest + "\n]"@).len() as int) =~= s);
        lemma_split2(s, 0, "[\n"@, rest + "\n]"@);
        lemma_expect_here(s, 0, "[\n"@);
        assert(expect_at(s, 0, "[]"@) is None) by {
            if 2 <= s.len() && s.subrange(0, 2) == "[]"@ {
                assert(s.subrange(0, 2)[1] == s[1]);
                assert(("[\n"@ + (rest + "\n]"@))[1] == '\n');
            }
        }
        assert(s.subrange(2, 2 + rest.len() as int + 2) == rest + "\n]"@);
        lemma_tasks_rest_round_trip(s, 2, ts);
        assert(2 + rest.len() as int + 2 == s.len());
    }
}

/// Compares the characters at position `i` with a fixed string.
fn expect_lit_exec(v: &Vec<char>, i: usize, lit: &str) -> (r: Option<usize>)
    ensures
        expect_at(v@, i as int, lit@) is None ==> r is None,
        expect_at(v@, i as int, lit@) matches Some(j) ==> r matches Some(q) && q == j,
{
    let n = lit.unicode_len();
    if n > v.len() || i > v.len() - n {
        return None;
    }
    let mut k: usize = 0;
    while k < n
        invariant
            0 <= k <= n,
            n == lit@.len(),
            i + n <= v@.len(),
            i + n <= usize::MAX,
            forall|m: int| 0 <= m < k ==> v@[i + m] == lit@[m],
        decreases n - k,
    {
        if v[i + k] != lit.get_char(k) {
            proof {
                assert(v@.subrange(i as int, i as int + n) != lit@) by {
                    assert(v@.subrange(i as int, i as int + n)[k as int] != lit@[k as int]);
                }
            }
            return None;
        }
        k = k + 1;
    }
    assert(v@.subrange(i as int, i as int + n) =~= lit@);
    Some(i + n)
}

/// Reads a JSON string value, collecting the characters onto `acc`.
fn parse_string_body_exec(v: &Vec<char>, i: usize, acc: Vec<char>) -> (r: Option<(Vec<char>, usize)>)
    ensures
        parse_string_body(v@, i as int) is None ==> r is None,
        parse_string_body(v@, i as int) matches Some(p) ==> r matches Some(q) && q.0@ == acc@
            + p.0 && q.1 == p.1,
    decreases v@.len() - i,
{
    if i >= v.len() {
        return None;
    }
    let c = v[i];
    if c == '"' {
        assert(acc@ + Seq::<char>::empty() =~= acc@);
        Some((acc, i + 1))
    } else if c == '\\' {
        if i + 1 < v.len() {
            let c2 = v[i + 1];
            if c2 == '"' || c2 == '\\' || c2 == '/' {
                let mut acc2 = acc;
                acc2.push(c2);
                let ghost accv = acc2@;
                let r = parse_string_body_exec(v, i + 2, acc2);
                proof {
                    if let Some(p) = parse_string_body(v@, i as int + 2) {
                        assert(accv + p.0 =~= acc@ + (seq![v@[i as int + 1]] + p.0));
                    }
                }
                r
            } else if c2 == 'b' || c2 == 't' || c2 == 'n' || c2 == 'f' || c2 == 'r' {
                let mapped: char = if c2 == 'b' {
                    '\x08'
                } else if c2 == 't' {
                    '\t'
                } else if c2 == 'n' {
                    '\n'
                } else if c2 == 'f' {
                    '\x0c'
                } else {
                    '\r'
                };
                let mut acc2 = acc;
                acc2.push(mapped);
                let ghost accv = acc2@;
                let r = parse_string_body_exec(v, i + 2, acc2);
                proof {
                    if let Some(p) = parse_string_body(v@, i as int + 2) {
                        assert(accv + p.0 =~= acc@ + (seq![short_escape_char(c2)] + p.0));
                    }
                }
                r
            } else if c2 == 'u' {
                if v.len() >= 6 && i <= v.len() - 6 {
                    let h3 = hex_val_exec(v[i + 2]);
                    let h2 = hex_val_exec(v[i + 3]);
                    let h1 = hex_val_exec(v[i + 4]);
                    let h0 = hex_val_exec(v[i + 5]);
                    match (h3, h2, h1, h0) {
                        (Some(a3), Some(a2), Some(a1), Some(a0)) => {
                            let code: u32 = a3 as u32 * 4096 + a2 as u32 * 256 + a1 as u32 * 16
                                + a0 as u32;
                            assert(code == hex4_val(v@, i as int + 2));
                            if 0xd800 <= code && code < 0xe000 {
                                None
                            } else {
                                let ch = char_from_code(code);
                                let mut acc2 = acc;
                                acc2.push(ch);
                                let ghost accv = acc2@;
                                let r = parse_string_body_exec(v, i + 6, acc2);
                                proof {
                                    if let Some(p) = parse_string_body(v@, i as int + 6) {
                                        assert(accv + p.0 =~= acc@ + (seq![(
                                        hex4_val(v@, i as int + 2) as u32) as char] + p.0));
                                    }
                                }
                                r
                            }
                        },
                        _ => None,
                    }
                } else {
                    None
                }
            } else {
                None
            }
        } else {
            None
        }
    } else {
        let mut acc2 = acc;
        acc2.push(c);
        let ghost accv = acc2@;
        let r = parse_string_body_exec(v, i + 1, acc2);
        proof {
            if let Some(p) = parse_string_body(v@, i as int + 1) {
                assert(accv + p.0 =~= acc@ + (seq![v@[i as int]] + p.0));
            }
        }
        r
    }
}

/// The overflow test on an accumulator step, phrased without overflow.
proof fn lemma_digit_bound_check(acc: int, d: int, bound: int)
    requires
        0 <= acc,
        0 <= d <= 9,
        d <= bound,
    ensures
        (acc * 10 + d > bound) <==> (acc > (bound - d) / 10),
{
    vstd::arithmetic::div_mod::lemma_fundamental_div_mod(bound - d, 10);
    let q = (bound - d) / 10;
    assert(bound - d == 10 * q + (bound - d) % 10);
    vstd::arithmetic::div_mod::lemma_mod_bound(bound - d, 10);
}

/// Reads a run of decimal digits, refusing values above `bound`.
fn parse_digits_exec(v: &Vec<char>, i: usize, acc: u64, bound: u64) -> (r: Option<(u64, usize)>)
    requires
        acc <= bound,
        bound >= 9,
    ensures
        parse_digits_val(v@, i as int, acc as int, bound as int) is None ==> r is None,
        parse_digits_val(v@, i as int, acc as int, bound as int) matches Some(p) ==> r matches Some(
            q,
        ) && q.0 == p.0 && q.1 == p.1,
    decreases v@.len() - i,
{
    if i >= v.len() {
        return None;
    }
    let d = match digit_val_exec(v[i]) {
        Some(d) => d,
        None => {
            return None;
        },
    };
    proof {
        lemma_digit_bound_check(acc as int, d as int, bound as int);
    }
    if acc > (bound - d as u64) / 10 {
        return None;
    }
    let acc2: u64 = acc * 10 + d as u64;
    if i + 1 < v.len() {
        let next_digit = digit_val_exec(v[i + 1]);
        if next_digit.is_some() {
            parse_digits_exec(v, i + 1, acc2, bound)
        } else {
            Some((acc2, i + 1))
        }
    } else {
        Some((acc2, i + 1))
    }
}

/// A successful digit run stays between the accumulator and the bound.
proof fn lemma_parse_digits_range(s: Seq<char>, i: int, acc: int, bound: int)
    requires
        0 <= acc,
    ensures
        parse_digits_val(s, i, acc, bound) matches Some(p) ==> acc <= p.0 <= bound && i < p.1
            <= s.len(),
    decreases s.len() - i,
{
    if 0 <= i && i < s.len() && is_digit_char(s[i]) {
        let acc2 = acc * 10 + digit_val(s[i]);
        if acc2 <= bound && i + 1 < s.len() && is_digit_char(s[i + 1]) {
            lemma_parse_digits_range(s, i + 1, acc2, bound);
        }
    }
}

/// Reads a due date value: `null` or a number in `i64` range.
fn parse_due_exec(v: &Vec<char>, i: usize) -> (r: Option<(Option<i64>, usize)>)
    ensures
        parse_due(v@, i as int) is None ==> r is None,
        parse_due(v@, i as int) matches Some(p) ==> r matches Some(q) && q.0 == p.0 && q.1 == p.1,
{
    match expect_lit_exec(v, i, "null") {
        Some(j) => Some((None, j)),
        None => {
            if i < v.len() && v[i] == '-' {
                proof {
                    lemma_parse_digits_range(v@, i as int + 1, 0, 0x8000000000000000);
                }
                match parse_digits_exec(v, i + 1, 0, 9223372036854775808u64) {
                    None => None,
                    Some((mag, j)) => {
                        let val: i64 = if mag == 9223372036854775808u64 {
                            i64::MIN
                        } else {
                            -(mag as i64)
                        };
                        Some((Some(val), j))
                    },
                }
            } else {
                proof {
                    lemma_parse_digits_range(v@, i as int, 0, 0x7fffffffffffffff);
                }
                match parse_digits_exec(v, i, 0, 9223372036854775807u64) {
                    None => None,
                    Some((mag, j)) => Some((Some(mag as i64), j)),
                }
            }
        },
    }
}

/// Reads a boolean value.
fn parse_bool_exec(v: &Vec<char>, i: usize) -> (r: Option<(bool, usize)>)
    ensures
        parse_bool_at(v@, i as int) is None ==> r is None,
        parse_bool_at(v@, i as int) matches Some(p) ==> r matches Some(q) && q.0 == p.0 && q.1
            == p.1,
{
    match expect_lit_exec(v, i, "true") {
        Some(j) => Some((true, j)),
        None => match expect_lit_exec(v, i, "false") {
            Some(j) => Some((false, j)),
            None => None,
        },
    }
}

/// Reads one task object.
fn parse_task_exec(v: &Vec<char>, i: usize) -> (r: Option<(TodoItem, usize)>)
    ensures
        parse_task_at(v@, i as int) is None ==> r is None,
        parse_task_at(v@, i as int) matches Some(p) ==> r matches Some(q) && q.0@ == p.0 && q.1
            == p.1,
{
    let j1 = match expect_lit_exec(v, i, "  {\n    \"text\": \"") {
        Some(j) => j,
        None => {
            return None;
        },
    };
    let (text_chars, j2) = match parse_string_body_exec(v, j1, Vec::new()) {
        Some(p) => p,
        None => {
            return None;
        },
    };
    let j3 = match expect_lit_exec(v, j2, ",\n    \"completed\": ") {
        Some(j) => j,
        None => {
            return None;
        },
    };
    let (completed, j4) = match parse_bool_exec(v, j3) {
        Some(p) => p,
        None => {
            return None;
        },
    };
    let j5 = match expect_lit_exec(v, j4, ",\n    \"due_date\": ") {
        Some(j) => j,
        None => {
            return None;
        },
    };
    let (due_date, j6) = match parse_due_exec(v, j5) {
        Some(p) => p,
        None => {
            return None;
        },
    };
    let j7 = match expect_lit_exec(v, j6, "\n  }") {
        Some(j) => j,
        None => {
            return None;
        },
    };
    let text = chars_to_string(&text_chars);
    Some((TodoItem { text, completed, due_date }, j7))
}

/// Reads the comma-separated run of task objects.
fn parse_tasks_rest_exec(v: &Vec<char>, i: usize) -> (r: Option<(Vec<TodoItem>, usize)>)
    ensures
        parse_tasks_rest(v@, i as int) is None ==> r is None,
        parse_tasks_rest(v@, i as int) matches Some(p) ==> r matches Some(q) && task_views(q.0@)
            == p.0 && q.1 == p.1,
    decreases v@.len() - i,
{
    let (item, j) = match parse_task_exec(v, i) {
        Some(p) => p,
        None => {
            return None;
        },
    };
    if !(i < j && j <= v.len()) {
        return None;
    }
    match expect_lit_exec(v, j, ",\n") {
        Some(j2) => {
            match parse_tasks_rest_exec(v, j2) {
                None => None,
                Some((mut out, k)) => {
                    out.insert(0, item);
                    proof {
                        if let Some(pt) = parse_task_at(v@, i as int) {
                            if let Some(pr) = parse_tasks_rest(v@, j2 as int) {
                                assert(task_views(out@) =~= seq![pt.0] + pr.0);
                            }
                        }
                    }
                    Some((out, k))
                },
            }
        },
        None => match expect_lit_exec(v, j, "\n]") {
            None => None,
            Some(k) => {
                let mut out: Vec<TodoItem> = Vec::new();
                out.push(item);
                proof {
                    if let Some(pt) = parse_task_at(v@, i as int) {
                        assert(task_views(out@) =~= seq![pt.0]);
                    }
                }
                Some((out, k))
            },
        },
    }
}

/// Reads a whole persistence file back into a task list; `None` on any
/// text the writer could not have produced.
pub fn tasks_from_json(s: &str) -> (r: Option<Vec<TodoItem>>)
    ensures
        parse_doc(s@) is None ==> r is None,
        parse_doc(s@) matches Some(ts) ==> r matches Some(items) && task_views(items@) == ts,
{
    let v = str_to_chars(s);
    match expect_lit_exec(&v, 0, "[]") {
        Some(k) => {
            if k == v.len() {
                let out: Vec<TodoItem> = Vec::new();
                assert(task_views(out@) =~= Seq::<TaskV>::empty());
                Some(out)
            } else {
                None
            }
        },
        None => {
            let j = match expect_lit_exec(&v, 0, "[\n") {
                Some(j) => j,
                None => {
                    return None;
                },
            };
            match parse_tasks_rest_exec(&v, j) {
                None => None,
                Some((items, k)) => {
                    if k == v.len() {
                        Some(items)
                    } else {
                        None
                    }
                },
            }
        },
    }
}

} // verus!
