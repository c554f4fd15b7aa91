//! The storage form of the task list: one JSON array, each task an
//! object with its title, details, packed color, date text, time text
//! and completion flag.  The writer produces exactly this form; the
//! reader accepts exactly this form and nothing else.

use vstd::prelude::*;
use crate::color::packed_of;
use crate::datetime::date_valid;
use crate::datetime::time_valid;
use crate::task::Task;
use crate::task_list::TaskList;
use crate::text::date_text;
use crate::text::digit_char;
use crate::text::digit_char_exec;
use crate::text::digit_val;
use crate::text::digit_val_exec;
use crate::text::lemma_digit_char_val;
use crate::text::lemma_digit_val_char;
use crate::text::format_date;
use crate::text::format_time;
use crate::text::parse_date;
use crate::text::parse_time;
use crate::text::string_to_chars;
use crate::text::chars_to_string;
use crate::text::time_text;

verus! {

/// A task the storage file can carry: a valid date with a four-digit
/// year, and a valid time.
pub open spec fn task_storable(t: Task) -> bool {
    &&& date_valid(t.date)
    &&& 0 <= t.date.year <= 9999
    &&& time_valid(t.time)
}

pub open spec fn tasks_storable(s: Seq<Task>) -> bool {
    forall|k: int| 0 <= k < s.len() ==> #[trigger] task_storable(s[k])
}

/// The lower-case hexadecimal digit character for a value from 0 to 15.
pub open spec fn hex_char(v: int) -> char {
    if v < 10 {
        digit_char(v)
    } else if v == 10 {
        'a'
    } else if v == 11 {
        'b'
    } else if v == 12 {
        'c'
    } else if v == 13 {
        'd'
    } else if v == 14 {
        'e'
    } else {
        'f'
    }
}

/// How one character stands inside a JSON string literal: quote and
/// backslash escaped, the named control escapes, other control
/// characters as `\u00XX` with lower-case hex, everything else as
/// itself.
pub open spec fn esc_char(c: char) -> Seq<char> {
    if c == '"' {
        seq!['\\', '"']
    } else if c == '\\' {
        seq!['\\', '\\']
    } else if c == '\u{8}' {
        seq!['\\', 'b']
    } else if c == '\t' {
        seq!['\\', 't']
    } else if c == '\n' {
        seq!['\\', 'n']
    } else if c == '\u{c}' {
        seq!['\\', 'f']
    } else if c == '\r' {
        seq!['\\', 'r']
    } else if (c as u32) < 0x20 {
        seq!['\\', 'u', '0', '0', hex_char(c as u32 as int / 16), hex_char(c as u32 as int % 16)]
    } else {
        seq![c]
    }
}

/// A text with every character in its string-literal form.
pub open spec fn esc_string(s: Seq<char>) -> Seq<char>
    decreases s.len(),
{
    if s.len() == 0 {
        Seq::<char>::empty()
    } else {
        esc_string(s.drop_last()) + esc_char(s.last())
    }
}

/// A JSON string literal: quotes around the escaped text.
pub open spec fn quoted(s: Seq<char>) -> Seq<char> {
    seq!['"'] + esc_string(s) + seq!['"']
}

/// Quotes around a text that needs no escaping (dates and times).
pub open spec fn plain_quoted(s: Seq<char>) -> Seq<char> {
    seq!['"'] + s + seq!['"']
}

/// A nonnegative value in minimal decimal digits.
pub open spec fn dec_text(v: int) -> Seq<char>
    decreases v,
{
    if v < 10 {
        seq![digit_char(v)]
    } else {
        dec_text(v / 10).push(digit_char(v % 10))
    }
}

pub open spec fn bool_text(b: bool) -> Seq<char> {
    if b {
        seq!['t', 'r', 'u', 'e']
    } else {
        seq!['f', 'a', 'l', 's', 'e']
    }
}

pub open spec fn key_title() -> Seq<char> {
    seq!['{', '"', 't', 'i', 't', 'l', 'e', '"', ':']
}

pub open spec fn key_details() -> Seq<char> {
    seq![',', '"', 'd', 'e', 't', 'a', 'i', 'l', 's', '"', ':']
}

pub open spec fn key_color() -> Seq<char> {
    seq![',', '"', 'c', 'o', 'l', 'o', 'r', '"', ':']
}

pub open spec fn key_date() -> Seq<char> {
    seq![',', '"', 'd', 'a', 't', 'e', '"', ':']
}

pub open spec fn key_time() -> Seq<char> {
    seq![',', '"', 't', 'i', 'm', 'e', '"', ':']
}

pub open spec fn key_completed() -> Seq<char> {
    seq![',', '"', 'c', 'o', 'm', 'p', 'l', 'e', 't', 'e', 'd', '"', ':']
}

/// One task in the storage form.
pub open spec fn task_json(t: Task) -> Seq<char> {
    key_title() + quoted(t.title@) + key_details() + quoted(t.details@) + key_color() + dec_text(
        packed_of(t.color),
    ) + key_date() + plain_quoted(date_text(t.date)) + key_time() + plain_quoted(
        time_text(t.time),
    ) + key_completed() + bool_text(t.completed) + seq!['}']
}

/// The tasks of the array, joined with commas.
pub open spec fn tasks_json_items(s: Seq<Task>) -> Seq<char>
    decreases s.len(),
{
    if s.len() == 0 {
        Seq::<char>::empty()
    } else if s.len() == 1 {
        task_json(s[0])
    } else {
        tasks_json_items(s.drop_last()) + seq![','] + task_json(s.last())
    }
}

/// The whole task list in the storage form.
pub open spec fn tasks_json(s: Seq<Task>) -> Seq<char> {
    seq!['['] + tasks_json_items(s) + seq![']']
}

/// The quoted form of `a` stands in `u` beginning at `i`.
pub open spec fn quoted_at(u: Seq<char>, i: int, a: Seq<char>) -> bool {
    &&& 0 <= i
    &&& i + quoted(a).len() <= u.len()
    &&& u.subrange(i, i + quoted(a).len()) == quoted(a)
}

/// A quote-free text in quotes stands in `u` beginning at `i`.
pub open spec fn plain_at(u: Seq<char>, i: int, a: Seq<char>) -> bool {
    &&& 0 <= i
    &&& i + a.len() + 2 <= u.len()
    &&& u.subrange(i, i + a.len() + 2) == plain_quoted(a)
    &&& forall|k: int| 0 <= k < a.len() ==> a[k] != '"'
}

/// The decimal text of `v` stands in `u` beginning at `i`, with no
/// digit directly after it.
pub open spec fn dec_at(u: Seq<char>, i: int, v: int) -> bool {
    &&& 0 <= i
    &&& i + dec_text(v).len() <= u.len()
    &&& u.subrange(i, i + dec_text(v).len()) == dec_text(v)
    &&& (i + dec_text(v).len() == u.len() || digit_val(u[i + dec_text(v).len()]) == -1)
}

/// Escaping distributes over concatenation.
pub proof fn lemma_esc_string_app(x: Seq<char>, y: Seq<char>)
    ensures
        esc_string(x + y) == esc_string(x) + esc_string(y),
    decreases y.len(),
{
    if y.len() == 0 {
        assert(x + y =~= x);
        assert(esc_string(x) + esc_string(y) =~= esc_string(x));
    } else {
        lemma_esc_string_app(x, y.drop_last());
        assert((x + y).drop_last() =~= x + y.drop_last());
        assert((x + y).last() == y.last());
        assert(esc_string(x + y) =~= esc_string(x) + esc_string(y));
    }
}

/// The escaped text of a one-character extension: one more block.
pub proof fn lemma_esc_string_step(a: Seq<char>, k: int)
    requires
        0 <= k < a.len(),
    ensures
        esc_string(a) == esc_string(a.take(k)) + esc_char(a[k]) + esc_string(a.skip(k + 1)),
{
    lemma_esc_string_app(a.take(k) + seq![a[k]], a.skip(k + 1));
    lemma_esc_string_app(a.take(k), seq![a[k]]);
    assert(a =~= (a.take(k) + seq![a[k]]) + a.skip(k + 1));
    assert(seq![a[k]].drop_last() =~= Seq::<char>::empty());
    assert(esc_string(seq![a[k]]) =~= esc_char(a[k])) by {
        reveal_with_fuel(esc_string, 2);
        assert(esc_string(seq![a[k]].drop_last()) =~= Seq::<char>::empty());
    }
}

/// Every character of a decimal text is a digit.
pub proof fn lemma_dec_text_digits(v: int, k: int)
    requires
        0 <= v,
        0 <= k < dec_text(v).len(),
    ensures
        digit_val(dec_text(v)[k]) >= 0,
    decreases v,
{
    if v < 10 {
        lemma_digit_char_val(v);
    } else {
        vstd::arithmetic::div_mod::lemma_mod_division_less_than_divisor(v, 10);
        lemma_digit_char_val(v % 10);
        if k < dec_text(v).len() - 1 {
            vstd::arithmetic::div_mod::lemma_fundamental_div_mod(v, 10);
            lemma_dec_text_digits(v / 10, k);
        }
    }
}

/// Every decimal text holds at least one character.
pub proof fn lemma_dec_text_len(v: int)
    ensures
        dec_text(v).len() >= 1,
{
}

/// Decimal texts name their value: equal texts, equal values.
pub proof fn lemma_dec_text_injective(a: int, b: int)
    requires
        0 <= a,
        0 <= b,
        dec_text(a) == dec_text(b),
    ensures
        a == b,
    decreases a,
{
    lemma_dec_text_len(a / 10);
    lemma_dec_text_len(b / 10);
    if a < 10 && b < 10 {
        assert(dec_text(a) =~= seq![digit_char(a)]);
        assert(dec_text(b) =~= seq![digit_char(b)]);
        assert(dec_text(a)[0] == digit_char(a) && dec_text(b)[0] == digit_char(b));
        assert(digit_char(a) == digit_char(b));
        lemma_digit_char_val(a);
        lemma_digit_char_val(b);
    } else if a >= 10 && b >= 10 {
        assert(dec_text(a).drop_last() =~= dec_text(a / 10));
        assert(dec_text(b).drop_last() =~= dec_text(b / 10));
        assert(dec_text(a).last() == digit_char(a % 10));
        assert(dec_text(b).last() == digit_char(b % 10));
        vstd::arithmetic::div_mod::lemma_mod_division_less_than_divisor(a, 10);
        vstd::arithmetic::div_mod::lemma_mod_division_less_than_divisor(b, 10);
        lemma_digit_char_val(a % 10);
        lemma_digit_char_val(b % 10);
        lemma_dec_text_injective(a / 10, b / 10);
        vstd::arithmetic::div_mod::lemma_fundamental_div_mod(a, 10);
        vstd::arithmetic::div_mod::lemma_fundamental_div_mod(b, 10);
    } else if a < 10 {
        assert(dec_text(a) =~= seq![digit_char(a)]);
        assert(dec_text(b).len() == dec_text(b / 10).len() + 1);
        assert(false);
    } else {
        assert(dec_text(b) =~= seq![digit_char(b)]);
        assert(dec_text(a).len() == dec_text(a / 10).len() + 1);
        assert(false);
    }
}

/// A decimal text of ten or more never starts with a zero digit.
pub proof fn lemma_dec_text_no_leading_zero(v: int)
    requires
        10 <= v,
    ensures
        dec_text(v)[0] != '0',
    decreases v,
{
    assert(dec_text(v)[0] == dec_text(v / 10)[0]);
    if v / 10 < 10 {
        assert(1 <= v / 10 < 10);
    } else {
        lemma_dec_text_no_leading_zero(v / 10);
    }
}

/// A shorter decimal text that is a prefix of a longer one names at
/// most a tenth of the longer value.
pub proof fn lemma_dec_text_prefix(a: int, v: int)
    requires
        0 <= a,
        0 <= v,
        dec_text(a).len() < dec_text(v).len(),
        dec_text(a) == dec_text(v).take(dec_text(a).len() as int),
    ensures
        a <= v / 10,
    decreases v,
{
    assert(v >= 10);
    assert(dec_text(v).drop_last() =~= dec_text(v / 10));
    assert(dec_text(a) =~= dec_text(v / 10).take(dec_text(a).len() as int));
    if dec_text(a).len() == dec_text(v / 10).len() {
        assert(dec_text(a) =~= dec_text(v / 10));
        lemma_dec_text_injective(a, v / 10);
    } else {
        lemma_dec_text_prefix(a, v / 10);
        vstd::arithmetic::div_mod::lemma_div_is_ordered(v / 10, v, 10);
        vstd::arithmetic::div_mod::lemma_div_denominator(v, 10, 10);
        vstd::arithmetic::div_mod::lemma_div_is_ordered(a * 10, v, 10);
        vstd::arithmetic::div_mod::lemma_fundamental_div_mod(v / 10, 10);
        vstd::arithmetic::div_mod::lemma_fundamental_div_mod(v, 10);
        assert(a <= (v / 10) / 10);
        assert((v / 10) / 10 <= v / 10);
    }
}

/// A position holds the decimal text of at most one value.
pub proof fn lemma_dec_at_unique(u: Seq<char>, i: int, v1: int, v2: int)
    requires
        0 <= v1,
        0 <= v2,
        dec_at(u, i, v1),
        dec_at(u, i, v2),
    ensures
        v1 == v2,
{
    let l1 = dec_text(v1).len() as int;
    let l2 = dec_text(v2).len() as int;
    if l1 < l2 {
        assert(u[i + l1] == dec_text(v2)[l1]);
        lemma_dec_text_digits(v2, l1);
        assert(false);
    } else if l2 < l1 {
        assert(u[i + l2] == dec_text(v1)[l2]);
        lemma_dec_text_digits(v1, l2);
        assert(false);
    } else {
        assert(dec_text(v1) =~= dec_text(v2));
        lemma_dec_text_injective(v1, v2);
    }
}

pub fn hex_char_exec(v: u32) -> (c: char)
    requires
        v < 16,
    ensures
        c == hex_char(v as int),
{
    match v {
        0 => '0',
        1 => '1',
        2 => '2',
        3 => '3',
        4 => '4',
        5 => '5',
        6 => '6',
        7 => '7',
        8 => '8',
        9 => '9',
        10 => 'a',
        11 => 'b',
        12 => 'c',
        13 => 'd',
        14 => 'e',
        _ => 'f',
    }
}

/// Append a text in its string-literal form.
fn append_escaped(out: &mut Vec<char>, s: &str)
    ensures
        final(out)@ == old(out)@ + esc_string(s@),
{
    let cs = string_to_chars(s);
    let ghost base = out@;
    let mut i: usize = 0;
    while i < cs.len()
        invariant
            i <= cs@.len(),
            cs@ == s@,
            out@ == base + esc_string(cs@.take(i as int)),
        decreases cs@.len() - i,
    {
        let c = cs[i];
        if c == '"' {
            out.push('\\');
            out.push('"');
        } else if c == '\\' {
            out.push('\\');
            out.push('\\');
        } else if c == '\u{8}' {
            out.push('\\');
            out.push('b');
        } else if c == '\t' {
            out.push('\\');
            out.push('t');
        } else if c == '\n' {
            out.push('\\');
            out.push('n');
        } else if c == '\u{c}' {
            out.push('\\');
            out.push('f');
        } else if c == '\r' {
            out.push('\\');
            out.push('r');
        } else if (c as u32) < 0x20 {
            out.push('\\');
            out.push('u');
            out.push('0');
            out.push('0');
            out.push(hex_char_exec((c as u32) / 16));
            out.push(hex_char_exec((c as u32) % 16));
        } else {
            out.push(c);
        }
        proof {
            assert(cs@.take(i + 1).drop_last() =~= cs@.take(i as int));
            assert(cs@.take(i + 1).last() == cs@[i as int]);
            assert(out@ =~= base + esc_string(cs@.take(i + 1)));
        }
        i += 1;
    }
    proof {
        assert(cs@.take(cs@.len() as int) =~= cs@);
    }
}

/// Append a string literal: quotes around the escaped text.
fn append_quoted(out: &mut Vec<char>, s: &str)
    ensures
        final(out)@ == old(out)@ + quoted(s@),
{
    out.push('"');
    append_escaped(out, s);
    out.push('"');
    proof {
        assert(out@ =~= old(out)@ + quoted(s@));
    }
}

/// Append a value in minimal decimal digits.
fn append_dec_u32(out: &mut Vec<char>, v: u32)
    ensures
        final(out)@ == old(out)@ + dec_text(v as int),
    decreases v,
{
    if v < 10 {
        out.push(digit_char_exec(v));
        proof {
            assert(out@ =~= old(out)@ + dec_text(v as int));
        }
    } else {
        append_dec_u32(out, v / 10);
        out.push(digit_char_exec(v % 10));
        proof {
            assert(out@ =~= old(out)@ + dec_text(v as int));
        }
    }
}

/// Append the characters of a string that is already in its final form.
fn append_raw(out: &mut Vec<char>, s: &str)
    ensures
        final(out)@ == old(out)@ + s@,
{
    let cs = string_to_chars(s);
    let ghost base = out@;
    let mut i: usize = 0;
    while i < cs.len()
        invariant
            i <= cs@.len(),
            cs@ == s@,
            out@ == base + cs@.take(i as int),
        decreases cs@.len() - i,
    {
        out.push(cs[i]);
        proof {
            assert(out@ =~= base + cs@.take(i + 1));
        }
        i += 1;
    }
    proof {
        assert(cs@.take(cs@.len() as int) =~= cs@);
    }
}

/// Append one fixed text piece, character by character.
fn push_key_title(out: &mut Vec<char>)
    ensures
        final(out)@ == old(out)@ + key_title(),
{
    out.push('{');
    out.push('"');
    out.push('t');
    out.push('i');
    out.push('t');
    out.push('l');
    out.push('e');
    out.push('"');
    out.push(':');
    proof {
        assert(out@ =~= old(out)@ + key_title());
    }
}

fn push_key_details(out: &mut Vec<char>)
    ensures
        final(out)@ == old(out)@ + key_details(),
{
    out.push(',');
    out.push('"');
    out.push('d');
    out.push('e');
    out.push('t');
    out.push('a');
    out.push('i');
    out.push('l');
    out.push('s');
    out.push('"');
    out.push(':');
    proof {
        assert(out@ =~= old(out)@ + key_details());
    }
}

fn push_key_color(out: &mut Vec<char>)
    ensures
        final(out)@ == old(out)@ + key_color(),
{
    out.push(',');
    out.push('"');
    out.push('c');
    out.push('o');
    out.push('l');
    out.push('o');
    out.push('r');
    out.push('"');
    out.push(':');
    proof {
        assert(out@ =~= old(out)@ + key_color());
    }
}

fn push_key_date(out: &mut Vec<char>)
    ensures
        final(out)@ == old(out)@ + key_date(),
{
    out.push(',');
    out.push('"');
    out.push('d');
    out.push('a');
    out.push('t');
    out.push('e');
    out.push('"');
    out.push(':');
    proof {
        assert(out@ =~= old(out)@ + key_date());
    }
}

fn push_key_time(out: &mut Vec<char>)
    ensures
        final(out)@ == old(out)@ + key_time(),
{
    out.push(',');
    out.push('"');
    out.push('t');
    out.push('i');
    out.push('m');
    out.push('e');
    out.push('"');
    out.push(':');
    proof {
        assert(out@ =~= old(out)@ + key_time());
    }
}

fn push_key_completed(out: &mut Vec<char>)
    ensures
        final(out)@ == old(out)@ + key_completed(),
{
    out.push(',');
    out.push('"');
    out.push('c');
    out.push('o');
    out.push('m');
    out.push('p');
    out.push('l');
    out.push('e');
    out.push('t');
    out.push('e');
    out.push('d');
    out.push('"');
    out.push(':');
    proof {
        assert(out@ =~= old(out)@ + key_completed());
    }
}

/// Append `true` or `false`.
fn push_bool(out: &mut Vec<char>, b: bool)
    ensures
        final(out)@ == old(out)@ + bool_text(b),
{
    if b {
        out.push('t');
        out.push('r');
        out.push('u');
        out.push('e');
    } else {
        out.push('f');
        out.push('a');
        out.push('l');
        out.push('s');
        out.push('e');
    }
    proof {
        assert(out@ =~= old(out)@ + bool_text(b));
    }
}

/// Append quotes around a text that needs no escaping.
fn append_plain_quoted(out: &mut Vec<char>, s: &str)
    ensures
        final(out)@ == old(out)@ + plain_quoted(s@),
{
    out.push('"');
    append_raw(out, s);
    out.push('"');
    proof {
        assert(out@ =~= old(out)@ + plain_quoted(s@));
    }
}

/// Append one task in the storage form.
#[verifier::rlimit(100)]
fn append_task_json(out: &mut Vec<char>, t: &Task)
    requires
        task_storable(*t),
    ensures
        final(out)@ == old(out)@ + task_json(*t),
{
    let ghost g0 = out@;
    push_key_title(out);
    append_quoted(out, t.title.as_str());
    let ghost g1 = out@;
    proof {
        assert(g1 =~= g0 + (key_title() + quoted(t.title@)));
    }
    push_key_details(out);
    append_quoted(out, t.details.as_str());
    let ghost g2 = out@;
    proof {
        assert(g2 =~= g1 + (key_details() + quoted(t.details@)));
    }
    push_key_color(out);
    append_dec_u32(out, crate::color::pack_color(&t.color));
    let ghost g3 = out@;
    proof {
        assert(g3 =~= g2 + (key_color() + dec_text(packed_of(t.color))));
    }
    push_key_date(out);
    let date_str = format_date(&t.date);
    append_plain_quoted(out, date_str.as_str());
    let ghost g4 = out@;
    proof {
        assert(g4 =~= g3 + (key_date() + plain_quoted(date_text(t.date))));
    }
    push_key_time(out);
    let time_str = format_time(&t.time);
    append_plain_quoted(out, time_str.as_str());
    let ghost g5 = out@;
    proof {
        assert(g5 =~= g4 + (key_time() + plain_quoted(time_text(t.time))));
    }
    push_key_completed(out);
    push_bool(out, t.completed);
    out.push('}');
    proof {
        assert(out@ =~= g5 + (key_completed() + bool_text(t.completed) + seq!['}']));
        assert(out@ =~= g0 + task_json(*t));
    }
}

/// Write the whole task list in the storage form.
pub fn tasks_to_json(list: &TaskList) -> (r: String)
    requires
        tasks_storable(list.list@),
    ensures
        r@ == tasks_json(list.list@),
{
    let mut out: Vec<char> = Vec::new();
    out.push('[');
    let mut i: usize = 0;
    while i < list.list.len()
        invariant
            i <= list.list@.len(),
            tasks_storable(list.list@),
            out@ == seq!['['] + tasks_json_items(list.list@.take(i as int)),
        decreases list.list@.len() - i,
    {
        if i > 0 {
            out.push(',');
        }
        append_task_json(&mut out, &list.list[i]);
        proof {
            let s = list.list@;
            assert(s.take(i + 1).drop_last() =~= s.take(i as int));
            assert(s.take(i + 1).last() == s[i as int]);
            if i == 0 {
                assert(tasks_json_items(s.take(1)) == task_json(s[0]));
                assert(out@ =~= seq!['['] + tasks_json_items(s.take(i + 1)));
            } else {
                assert(tasks_json_items(s.take(i + 1)) == tasks_json_items(s.take(i as int))
                    + seq![','] + task_json(s[i as int]));
                assert(out@ =~= seq!['['] + tasks_json_items(s.take(i + 1)));
            }
        }
        i += 1;
    }
    out.push(']');
    proof {
        assert(list.list@.take(list.list@.len() as int) =~= list.list@);
        assert(out@ =~= tasks_json(list.list@));
    }
    chars_to_string(out)
}


/// The value of a lower-case hexadecimal digit character, or -1.
pub open spec fn hex_val(c: char) -> int {
    if digit_val(c) >= 0 {
        digit_val(c)
    } else if c == 'a' {
        10
    } else if c == 'b' {
        11
    } else if c == 'c' {
        12
    } else if c == 'd' {
        13
    } else if c == 'e' {
        14
    } else if c == 'f' {
        15
    } else {
        -1
    }
}

pub proof fn lemma_hex_char_val(v: int)
    requires
        0 <= v < 16,
    ensures
        hex_val(hex_char(v)) == v,
{
    if v < 10 {
        lemma_digit_char_val(v);
    }
}

pub proof fn lemma_hex_val_char(c: char)
    requires
        hex_val(c) >= 0,
    ensures
        hex_char(hex_val(c)) == c,
{
    if digit_val(c) >= 0 {
        lemma_digit_val_char(c);
    }
}

fn hex_val_exec(c: char) -> (r: Option<u32>)
    ensures
        match r {
            Some(v) => v < 16 && hex_val(c) == v as int,
            None => hex_val(c) == -1,
        },
{
    match digit_val_exec(c) {
        Some(v) => Some(v),
        None => match c {
            'a' => Some(10),
            'b' => Some(11),
            'c' => Some(12),
            'd' => Some(13),
            'e' => Some(14),
            'f' => Some(15),
            _ => None,
        },
    }
}

/// The control character with a given code, except those that have a
/// named escape.
fn control_char_exec(v: u32) -> (c: char)
    requires
        v < 0x20,
        v != 8 && v != 9 && v != 10 && v != 12 && v != 13,
    ensures
        c as u32 == v,
{
    match v {
        0 => '\u{0}',
        1 => '\u{1}',
        2 => '\u{2}',
        3 => '\u{3}',
        4 => '\u{4}',
        5 => '\u{5}',
        6 => '\u{6}',
        7 => '\u{7}',
        11 => '\u{b}',
        14 => '\u{e}',
        15 => '\u{f}',
        16 => '\u{10}',
        17 => '\u{11}',
        18 => '\u{12}',
        19 => '\u{13}',
        20 => '\u{14}',
        21 => '\u{15}',
        22 => '\u{16}',
        23 => '\u{17}',
        24 => '\u{18}',
        25 => '\u{19}',
        26 => '\u{1a}',
        27 => '\u{1b}',
        28 => '\u{1c}',
        29 => '\u{1d}',
        30 => '\u{1e}',
        _ => '\u{1f}',
    }
}

/// The characters a quoted span pins down: the two quotes and the
/// escaped text between them.
pub proof fn lemma_quoted_chars(u: Seq<char>, i: int, a: Seq<char>)
    requires
        quoted_at(u, i, a),
    ensures
        u[i] == '"',
        i + 1 + esc_string(a).len() < u.len(),
        u[i + 1 + esc_string(a).len() as int] == '"',
        forall|m: int| 0 <= m < esc_string(a).len() ==> u[i + 1 + m] == esc_string(a)[m],
{
    let q = quoted(a);
    assert(q.len() == esc_string(a).len() + 2);
    assert(u.subrange(i, i + q.len()) =~= q);
    assert(u.subrange(i, i + q.len())[0] == u[i]);
    assert(q[0] == '"');
    assert(u.subrange(i, i + q.len())[1 + esc_string(a).len() as int] == u[i + 1 + esc_string(
        a,
    ).len() as int]);
    assert(q[1 + esc_string(a).len() as int] == '"');
    assert forall|m: int| 0 <= m < esc_string(a).len() implies u[i + 1 + m] == esc_string(
        a,
    )[m] by {
        assert(u.subrange(i, i + q.len())[1 + m] == u[i + 1 + m]);
        assert(q[1 + m] == esc_string(a)[m]);
    }
}

/// Inside a quoted span, after the blocks of a prefix of `a`, the
/// block of the next character of `a` stands.
pub proof fn lemma_quoted_block(u: Seq<char>, i: int, a: Seq<char>, l: int)
    requires
        quoted_at(u, i, a),
        0 <= l < a.len(),
    ensures
        ({
            let off = i + 1 + esc_string(a.take(l)).len();
            &&& esc_string(a.take(l)).len() + esc_char(a[l]).len() <= esc_string(a).len()
            &&& forall|m: int|
                0 <= m < esc_char(a[l]).len() ==> u[off + m] == esc_char(a[l])[m]
        }),
{
    lemma_esc_string_step(a, l);
    lemma_quoted_chars(u, i, a);
    let la = esc_string(a.take(l)).len() as int;
    assert forall|m: int| 0 <= m < esc_char(a[l]).len() implies u[i + 1 + la + m] == esc_char(
        a[l],
    )[m] by {
        assert(esc_string(a)[la + m] == (esc_string(a.take(l)) + esc_char(a[l]) + esc_string(
            a.skip(l + 1),
        ))[la + m]);
        assert(u[i + 1 + (la + m)] == esc_string(a)[la + m]);
    }
}

/// Characters with one code point are one character.
proof fn lemma_char_code(c1: char, c2: char)
    requires
        c1 as u32 == c2 as u32,
    ensures
        c1 == c2,
{
}

/// The shape of an escape block: never opening with a quote, a
/// backslash exactly for the escaped forms, two characters for the
/// named forms and six for the numbered one.
pub proof fn lemma_esc_char_head(c: char)
    ensures
        esc_char(c)[0] != '"',
        esc_char(c).len() >= 1,
        esc_char(c)[0] == '\\' || (esc_char(c) == seq![c] && c as u32 >= 0x20 && c != '"' && c
            != '\\'),
        esc_char(c)[0] == '\\' ==> esc_char(c).len() == 2 || esc_char(c).len() == 6,
        esc_char(c).len() == 6 ==> esc_char(c)[1] == 'u',
        esc_char(c).len() == 2 ==> esc_char(c)[1] != 'u',
{
}

/// When the scan stands after the blocks of `acc`, a prefix of a
/// quoted text `a`, and does not see the closing quote, the block of
/// the next character of `a` stands at the cursor.
pub proof fn lemma_escape_block(u: Seq<char>, i: int, a: Seq<char>, acc: Seq<char>, j: int)
    requires
        quoted_at(u, i, a),
        acc.len() <= a.len(),
        acc == a.take(acc.len() as int),
        j == i + 1 + esc_string(acc).len(),
        j < u.len(),
        u[j] != '"',
    ensures
        acc.len() < a.len(),
        ({
            let blk = esc_char(a[acc.len() as int]);
            &&& blk.len() >= 1
            &&& j + blk.len() < u.len()
            &&& forall|m: int| 0 <= m < blk.len() ==> u[j + m] == blk[m]
        }),
{
    lemma_quoted_chars(u, i, a);
    if acc.len() == a.len() {
        assert(a.take(acc.len() as int) =~= a);
        assert(false);
    }
    lemma_quoted_block(u, i, a, acc.len() as int);
    assert(esc_string(a.take(acc.len() as int)) == esc_string(acc));
    lemma_esc_char_head(a[acc.len() as int]);
}

/// When the scan has consumed the blocks of all of `a`, the closing
/// quote stands at the cursor.
pub proof fn lemma_scan_bound(u: Seq<char>, i: int, a: Seq<char>, acc: Seq<char>, j: int)
    requires
        quoted_at(u, i, a),
        acc.len() <= a.len(),
        acc == a.take(acc.len() as int),
        j == i + 1 + esc_string(acc).len(),
    ensures
        j <= i + 1 + esc_string(a).len(),
        j < u.len(),
        acc.len() == a.len() ==> acc == a && u[j] == '"',
{
    lemma_quoted_chars(u, i, a);
    lemma_esc_string_app(a.take(acc.len() as int), a.skip(acc.len() as int));
    assert(a =~= a.take(acc.len() as int) + a.skip(acc.len() as int));
    if acc.len() == a.len() {
        assert(a.take(acc.len() as int) =~= a);
    }
}

/// Read a string literal that begins at `i`.  `Some((v, j))` means the
/// characters from `i` to `j` read exactly as the literal for `v`, and
/// the literal of any text standing at `i` is read in full, as that
/// text.
#[verifier::rlimit(100)]
fn parse_string(cs: &Vec<char>, i: usize) -> (r: Option<(String, usize)>)
    requires
        i <= cs@.len(),
    ensures
        match r {
            Some(p) => i + 2 <= p.1 <= cs@.len() && cs@.subrange(i as int, p.1 as int) == quoted(
                p.0@,
            ) && (forall|a: Seq<char>|
                quoted_at(cs@, i as int, a) ==> p.0@ == a && p.1 == i + quoted(a).len()),
            None => forall|a: Seq<char>| !quoted_at(cs@, i as int, a),
        },
{
    if i >= cs.len() || cs[i] != '"' {
        proof {
            assert forall|a: Seq<char>| !quoted_at(cs@, i as int, a) by {
                if quoted_at(cs@, i as int, a) {
                    lemma_quoted_chars(cs@, i as int, a);
                }
            }
        }
        return None;
    }
    let mut acc: Vec<char> = Vec::new();
    let mut j: usize = i + 1;
    while j <= cs.len()
        invariant
            i + 1 <= j <= cs@.len(),
            i < cs@.len(),
            cs@[i as int] == '"',
            cs@.subrange(i as int + 1, j as int) == esc_string(acc@),
            forall|a: Seq<char>|
                quoted_at(cs@, i as int, a) ==> acc@.len() <= a.len() && acc@ == a.take(
                    acc@.len() as int,
                ),
        decreases cs@.len() + 1 - j,
    {
        proof {
            assert(j - i - 1 == esc_string(acc@).len());
        }
        if j == cs.len() {
            proof {
                assert forall|a: Seq<char>| !quoted_at(cs@, i as int, a) by {
                    if quoted_at(cs@, i as int, a) {
                        lemma_scan_bound(cs@, i as int, a, acc@, j as int);
                    }
                }
            }
            return None;
        }
        let c = cs[j];
        let ghost old_acc = acc@;
        if c == '"' {
            proof {
                assert(cs@.subrange(i as int, j + 1) =~= seq!['"'] + esc_string(acc@)
                    + seq!['"']);
                assert forall|a: Seq<char>| quoted_at(cs@, i as int, a) implies acc@ == a && j + 1
                    == i + quoted(a).len() by {
                    lemma_quoted_chars(cs@, i as int, a);
                    if acc@.len() < a.len() {
                        lemma_quoted_block(cs@, i as int, a, acc@.len() as int);
                        assert(esc_string(a.take(acc@.len() as int)) == esc_string(acc@));
                        lemma_esc_char_head(a[acc@.len() as int]);
                        assert(cs@[j as int] == esc_char(a[acc@.len() as int])[0]);
                        assert(false);
                    }
                    assert(a.take(acc@.len() as int) =~= a);
                    assert(quoted(a).len() == esc_string(a).len() + 2);
                }
            }
            let v = chars_to_string(acc);
            return Some((v, j + 1));
        } else if c == '\\' {
            if j + 1 >= cs.len() {
                proof {
                    assert forall|a: Seq<char>| !quoted_at(cs@, i as int, a) by {
                        if quoted_at(cs@, i as int, a) {
                            lemma_escape_block(cs@, i as int, a, acc@, j as int);
                            let cn = a[acc@.len() as int];
                            assert(cs@[j as int] == esc_char(cn)[0]);
                            lemma_esc_char_head(cn);
                        }
                    }
                }
                return None;
            }
            let e = cs[j + 1];
            if e == '"' {
                acc.push('"');
            } else if e == '\\' {
                acc.push('\\');
            } else if e == 'b' {
                acc.push('\u{8}');
            } else if e == 't' {
                acc.push('\t');
            } else if e == 'n' {
                acc.push('\n');
            } else if e == 'f' {
                acc.push('\u{c}');
            } else if e == 'r' {
                acc.push('\r');
            } else if e == 'u' {
                if cs.len() - j < 6 {
                    proof {
                        assert forall|a: Seq<char>| !quoted_at(cs@, i as int, a) by {
                            if quoted_at(cs@, i as int, a) {
                                lemma_escape_block(cs@, i as int, a, old_acc, j as int);
                                let cn = a[old_acc.len() as int];
                                lemma_esc_char_head(cn);
                                assert(cs@[j as int] == esc_char(cn)[0]);
                                assert(cs@[j + 1] == esc_char(cn)[1]);
                                assert(esc_char(cn).len() == 6);
                            }
                        }
                    }
                    return None;
                }
                let h1 = hex_val_exec(cs[j + 4]);
                let h2 = hex_val_exec(cs[j + 5]);
                let shape_ok = cs[j + 2] == '0' && cs[j + 3] == '0' && h1.is_some()
                    && h2.is_some();
                if !shape_ok {
                    proof {
                        assert forall|a: Seq<char>| !quoted_at(cs@, i as int, a) by {
                            if quoted_at(cs@, i as int, a) {
                                lemma_escape_block(cs@, i as int, a, old_acc, j as int);
                                let cn = a[old_acc.len() as int];
                                lemma_esc_char_head(cn);
                                assert(cs@[j as int] == esc_char(cn)[0]);
                                assert(cs@[j + 1] == esc_char(cn)[1]);
                                assert(esc_char(cn).len() == 6);
                                let vn = cn as u32 as int;
                                assert(cs@[j + 2] == esc_char(cn)[2]);
                                assert(cs@[j + 3] == esc_char(cn)[3]);
                                assert(cs@[j + 4] == esc_char(cn)[4]);
                                assert(cs@[j + 5] == esc_char(cn)[5]);
                                vstd::arithmetic::div_mod::lemma_fundamental_div_mod(vn, 16);
                                vstd::arithmetic::div_mod::lemma_mod_division_less_than_divisor(
                                    vn,
                                    16,
                                );
                                lemma_hex_char_val(vn / 16);
                                lemma_hex_char_val(vn % 16);
                            }
                        }
                    }
                    return None;
                }
                let h1 = h1.unwrap();
                let h2 = h2.unwrap();
                let v = 16 * h1 + h2;
                if v >= 0x20 || v == 8 || v == 9 || v == 10 || v == 12 || v == 13 {
                    proof {
                        assert forall|a: Seq<char>| !quoted_at(cs@, i as int, a) by {
                            if quoted_at(cs@, i as int, a) {
                                lemma_escape_block(cs@, i as int, a, old_acc, j as int);
                                let cn = a[old_acc.len() as int];
                                lemma_esc_char_head(cn);
                                assert(cs@[j as int] == esc_char(cn)[0]);
                                assert(cs@[j + 1] == esc_char(cn)[1]);
                                assert(esc_char(cn).len() == 6);
                                let vn = cn as u32 as int;
                                assert(cs@[j + 4] == esc_char(cn)[4]);
                                assert(cs@[j + 5] == esc_char(cn)[5]);
                                vstd::arithmetic::div_mod::lemma_fundamental_div_mod(vn, 16);
                                vstd::arithmetic::div_mod::lemma_mod_division_less_than_divisor(
                                    vn,
                                    16,
                                );
                                lemma_hex_char_val(vn / 16);
                                lemma_hex_char_val(vn % 16);
                                assert(hex_val(cs@[j + 4]) == vn / 16);
                                assert(hex_val(cs@[j + 5]) == vn % 16);
                                assert(vn == v);
                                assert((cn as u32) < 0x20);
                                if v == 8 {
                                    lemma_char_code(cn, '\u{8}');
                                } else if v == 9 {
                                    lemma_char_code(cn, '\t');
                                } else if v == 10 {
                                    lemma_char_code(cn, '\n');
                                } else if v == 12 {
                                    lemma_char_code(cn, '\u{c}');
                                } else if v == 13 {
                                    lemma_char_code(cn, '\r');
                                }
                            }
                        }
                    }
                    return None;
                }
                let c2 = control_char_exec(v);
                acc.push(c2);
                proof {
                    vstd::arithmetic::div_mod::lemma_fundamental_div_mod_converse(
                        v as int,
                        16,
                        h1 as int,
                        h2 as int,
                    );
                    lemma_hex_val_char(cs@[j + 4]);
                    lemma_hex_val_char(cs@[j + 5]);
                    assert(esc_char(c2) =~= seq!['\\', 'u', '0', '0', cs@[j + 4], cs@[j + 5]]);
                    assert(acc@.drop_last() =~= old_acc);
                    assert(cs@.subrange(i as int + 1, j + 6) =~= esc_string(old_acc) + esc_char(
                        c2,
                    ));
                    assert forall|a: Seq<char>| quoted_at(cs@, i as int, a) implies acc@.len()
                        <= a.len() && acc@ == a.take(acc@.len() as int) by {
                        lemma_escape_block(cs@, i as int, a, old_acc, j as int);
                        let cn = a[old_acc.len() as int];
                        lemma_esc_char_head(cn);
                        assert(cs@[j as int] == esc_char(cn)[0]);
                        assert(cs@[j + 1] == esc_char(cn)[1]);
                        assert(esc_char(cn).len() == 6);
                        let vn = cn as u32 as int;
                        assert(cs@[j + 4] == esc_char(cn)[4]);
                        assert(cs@[j + 5] == esc_char(cn)[5]);
                        vstd::arithmetic::div_mod::lemma_fundamental_div_mod(vn, 16);
                        vstd::arithmetic::div_mod::lemma_mod_division_less_than_divisor(vn, 16);
                        lemma_hex_char_val(vn / 16);
                        lemma_hex_char_val(vn % 16);
                        assert(hex_val(cs@[j + 4]) == vn / 16);
                        assert(hex_val(cs@[j + 5]) == vn % 16);
                        assert(vn == v);
                        assert(cn as u32 == c2 as u32);
                        lemma_char_code(cn, c2);
                        assert(acc@ =~= a.take(old_acc.len() as int + 1));
                    }
                }
                j = j + 6;
                continue ;
            } else {
                proof {
                    assert forall|a: Seq<char>| !quoted_at(cs@, i as int, a) by {
                        if quoted_at(cs@, i as int, a) {
                            lemma_escape_block(cs@, i as int, a, acc@, j as int);
                            let cn = a[acc@.len() as int];
                            lemma_esc_char_head(cn);
                            assert(cs@[j as int] == esc_char(cn)[0]);
                            assert(cs@[j + 1] == esc_char(cn)[1]);
                        }
                    }
                }
                return None;
            }
            proof {
                assert(acc@.drop_last() =~= old_acc);
                assert(esc_char(acc@.last()) =~= seq!['\\', cs@[j + 1]]);
                assert(cs@.subrange(i as int + 1, j + 2) =~= esc_string(old_acc) + esc_char(
                    acc@.last(),
                ));
                assert forall|a: Seq<char>| quoted_at(cs@, i as int, a) implies acc@.len()
                    <= a.len() && acc@ == a.take(acc@.len() as int) by {
                    lemma_escape_block(cs@, i as int, a, old_acc, j as int);
                    let cn = a[old_acc.len() as int];
                    lemma_esc_char_head(cn);
                    assert(cs@[j as int] == esc_char(cn)[0]);
                    assert(cs@[j + 1] == esc_char(cn)[1]);
                    assert(cn == acc@.last());
                    assert(acc@ =~= a.take(old_acc.len() as int + 1));
                }
            }
            j = j + 2;
        } else if (c as u32) < 0x20 {
            proof {
                assert forall|a: Seq<char>| !quoted_at(cs@, i as int, a) by {
                    if quoted_at(cs@, i as int, a) {
                        lemma_escape_block(cs@, i as int, a, acc@, j as int);
                        let cn = a[acc@.len() as int];
                        lemma_esc_char_head(cn);
                        assert(cs@[j as int] == esc_char(cn)[0]);
                    }
                }
            }
            return None;
        } else {
            acc.push(c);
            proof {
                assert(acc@.drop_last() =~= old_acc);
                assert(cs@.subrange(i as int + 1, j + 1) =~= esc_string(old_acc) + esc_char(c));
                assert forall|a: Seq<char>| quoted_at(cs@, i as int, a) implies acc@.len()
                    <= a.len() && acc@ == a.take(acc@.len() as int) by {
                    lemma_escape_block(cs@, i as int, a, old_acc, j as int);
                    let cn = a[old_acc.len() as int];
                    lemma_esc_char_head(cn);
                    assert(cs@[j as int] == esc_char(cn)[0]);
                    assert(cn == c);
                    assert(acc@ =~= a.take(old_acc.len() as int + 1));
                }
            }
            j = j + 1;
        }
    }
    None
}

/// Read a decimal number that begins at `i`: minimal digits, fitting a
/// `u32`.  `Some((v, j))` means the characters from `i` to `j` read
/// exactly as the decimal text of `v`.
fn parse_u32(cs: &Vec<char>, i: usize) -> (r: Option<(u32, usize)>)
    requires
        i <= cs@.len(),
    ensures
        match r {
            Some(p) => i < p.1 <= cs@.len() && cs@.subrange(i as int, p.1 as int) == dec_text(
                p.0 as int,
            ) && (forall|v: u32|
                dec_at(cs@, i as int, v as int) ==> p.0 == v && p.1 == i + dec_text(
                    v as int,
                ).len()),
            None => forall|v: u32| !dec_at(cs@, i as int, v as int),
        },
{
    if i >= cs.len() {
        proof {
            assert forall|v: u32| !dec_at(cs@, i as int, v as int) by {
                lemma_dec_text_len(v as int);
            }
        }
        return None;
    }
    let d0 = match digit_val_exec(cs[i]) {
        Some(d) => d,
        None => {
            proof {
                assert forall|v: u32| !dec_at(cs@, i as int, v as int) by {
                    if dec_at(cs@, i as int, v as int) {
                        lemma_dec_text_len(v as int);
                        lemma_dec_text_digits(v as int, 0);
                        assert(cs@.subrange(i as int, i + dec_text(v as int).len())[0] == cs@[
                            i as int
                        ]);
                    }
                }
            }
            return None;
        },
    };
    proof {
        lemma_digit_val_char(cs@[i as int]);
    }
    if d0 == 0 {
        proof {
            assert(cs@.subrange(i as int, i as int + 1) =~= dec_text(0));
            assert forall|v: u32| dec_at(cs@, i as int, v as int) implies v == 0 && i + 1 == i
                + dec_text(v as int).len() by {
                lemma_dec_text_len(v as int);
                assert(cs@.subrange(i as int, i + dec_text(v as int).len())[0] == cs@[i as int]);
                if v >= 10 {
                    lemma_dec_text_no_leading_zero(v as int);
                } else {
                    assert(dec_text(v as int) =~= seq![digit_char(v as int)]);
                    lemma_digit_char_val(v as int);
                }
            }
        }
        return Some((0, i + 1));
    }
    let mut acc: u32 = d0;
    let mut j: usize = i + 1;
    proof {
        assert(cs@.subrange(i as int, j as int) =~= dec_text(acc as int));
    }
    while j < cs.len() && digit_val_exec(cs[j]).is_some()
        invariant
            i < j <= cs@.len(),
            1 <= acc,
            cs@.subrange(i as int, j as int) == dec_text(acc as int),
        decreases cs@.len() - j,
    {
        let d = digit_val_exec(cs[j]).unwrap();
        proof {
            lemma_digit_val_char(cs@[j as int]);
        }
        if acc > (0xFFFF_FFFFu32 - d) / 10 {
            proof {
                let m = 0xFFFF_FFFF as int;
                vstd::arithmetic::div_mod::lemma_fundamental_div_mod(m - d, 10);
                vstd::arithmetic::div_mod::lemma_mod_division_less_than_divisor(m - d, 10);
                let w = 10 * (acc as int) + d;
                assert(w > m);
                vstd::arithmetic::div_mod::lemma_fundamental_div_mod_converse(
                    w,
                    10,
                    acc as int,
                    d as int,
                );
                assert(dec_text(w) == dec_text(acc as int).push(digit_char(d as int)));
                assert forall|v: u32| !dec_at(cs@, i as int, v as int) by {
                    if dec_at(cs@, i as int, v as int) {
                        let lv = dec_text(v as int).len() as int;
                        let la = dec_text(acc as int).len() as int;
                        lemma_dec_text_len(v as int);
                        if i + lv <= j {
                            if i + lv < j {
                                assert(cs@.subrange(i as int, j as int)[lv] == cs@[i + lv]);
                                lemma_dec_text_digits(acc as int, lv);
                            } else {
                                assert(cs@[i + lv] == cs@[j as int]);
                            }
                            assert(false);
                        } else {
                            assert forall|k: int| 0 <= k < la + 1 implies dec_text(w)[k]
                                == dec_text(v as int)[k] by {
                                if k < la {
                                    assert(cs@.subrange(i as int, j as int)[k] == cs@[i + k]);
                                    assert(cs@.subrange(i as int, i + lv)[k] == cs@[i + k]);
                                } else {
                                    assert(dec_text(w)[k] == digit_char(d as int));
                                    assert(cs@.subrange(i as int, i + lv)[k] == cs@[j as int]);
                                }
                            }
                            if lv == la + 1 {
                                assert(dec_text(w) =~= dec_text(v as int));
                                lemma_dec_text_injective(w, v as int);
                            } else {
                                assert(dec_text(w) =~= dec_text(v as int).take(la + 1));
                                lemma_dec_text_prefix(w, v as int);
                                vstd::arithmetic::div_mod::lemma_fundamental_div_mod(
                                    v as int,
                                    10,
                                );
                                vstd::arithmetic::div_mod::lemma_mod_division_less_than_divisor(
                                    v as int,
                                    10,
                                );
                            }
                            assert(false);
                        }
                    }
                }
            }
            return None;
        }
        proof {
            vstd::arithmetic::div_mod::lemma_fundamental_div_mod(
                (0xFFFF_FFFFu32 - d) as int,
                10,
            );
            vstd::arithmetic::div_mod::lemma_mod_division_less_than_divisor(
                (0xFFFF_FFFFu32 - d) as int,
                10,
            );
        }
        let ghost old_acc = acc as int;
        acc = acc * 10 + d;
        proof {
            vstd::arithmetic::div_mod::lemma_fundamental_div_mod_converse(
                acc as int,
                10,
                old_acc,
                d as int,
            );
            assert(dec_text(acc as int) == dec_text(old_acc).push(digit_char(d as int)));
            assert(cs@.subrange(i as int, j + 1) =~= dec_text(acc as int));
        }
        j = j + 1;
    }
    proof {
        assert(dec_at(cs@, i as int, acc as int));
        assert forall|v: u32| dec_at(cs@, i as int, v as int) implies acc == v && j == i
            + dec_text(v as int).len() by {
            lemma_dec_at_unique(cs@, i as int, v as int, acc as int);
        }
    }
    Some((acc, j))
}

/// Whether the characters from `i` on begin with the given pattern:
/// `Some` exactly when they do.
fn expect_pat(cs: &Vec<char>, i: usize, pat: &Vec<char>) -> (r: Option<usize>)
    requires
        i <= cs@.len(),
    ensures
        match r {
            Some(j) => j == i + pat@.len() && j <= cs@.len() && cs@.subrange(i as int, j as int)
                == pat@,
            None => i + pat@.len() > cs@.len() || cs@.subrange(i as int, i + pat@.len()) != pat@,
        },
{
    let n = cs.len();
    if pat.len() > n - i {
        return None;
    }
    let mut k: usize = 0;
    while k < pat.len()
        invariant
            n == cs@.len(),
            i + pat@.len() <= n,
            k <= pat@.len(),
            forall|m: int| 0 <= m < k ==> cs@[i + m] == pat@[m],
        decreases pat@.len() - k,
    {
        if cs[i + k] != pat[k] {
            proof {
                assert(cs@.subrange(i as int, i + pat@.len())[k as int] == cs@[i + k]);
            }
            return None;
        }
        k += 1;
    }
    proof {
        assert(cs@.subrange(i as int, i + pat@.len()) =~= pat@);
    }
    Some(i + pat.len())
}

fn key_title_vec() -> (v: Vec<char>)
    ensures
        v@ == key_title(),
{
    let mut v: Vec<char> = Vec::new();
    v.push('{');
    v.push('"');
    v.push('t');
    v.push('i');
    v.push('t');
    v.push('l');
    v.push('e');
    v.push('"');
    v.push(':');
    proof {
        assert(v@ =~= key_title());
    }
    v
}

fn key_details_vec() -> (v: Vec<char>)
    ensures
        v@ == key_details(),
{
    let mut v: Vec<char> = Vec::new();
    v.push(',');
    v.push('"');
    v.push('d');
    v.push('e');
    v.push('t');
    v.push('a');
    v.push('i');
    v.push('l');
    v.push('s');
    v.push('"');
    v.push(':');
    proof {
        assert(v@ =~= key_details());
    }
    v
}

fn key_color_vec() -> (v: Vec<char>)
    ensures
        v@ == key_color(),
{
    let mut v: Vec<char> = Vec::new();
    v.push(',');
    v.push('"');
    v.push('c');
    v.push('o');
    v.push('l');
    v.push('o');
    v.push('r');
    v.push('"');
    v.push(':');
    proof {
        assert(v@ =~= key_color());
    }
    v
}

fn key_date_vec() -> (v: Vec<char>)
    ensures
        v@ == key_date(),
{
    let mut v: Vec<char> = Vec::new();
    v.push(',');
    v.push('"');
    v.push('d');
    v.push('a');
    v.push('t');
    v.push('e');
    v.push('"');
    v.push(':');
    proof {
        assert(v@ =~= key_date());
    }
    v
}

fn key_time_vec() -> (v: Vec<char>)
    ensures
        v@ == key_time(),
{
    let mut v: Vec<char> = Vec::new();
    v.push(',');
    v.push('"');
    v.push('t');
    v.push('i');
    v.push('m');
    v.push('e');
    v.push('"');
    v.push(':');
    proof {
        assert(v@ =~= key_time());
    }
    v
}

fn key_completed_vec() -> (v: Vec<char>)
    ensures
        v@ == key_completed(),
{
    let mut v: Vec<char> = Vec::new();
    v.push(',');
    v.push('"');
    v.push('c');
    v.push('o');
    v.push('m');
    v.push('p');
    v.push('l');
    v.push('e');
    v.push('t');
    v.push('e');
    v.push('d');
    v.push('"');
    v.push(':');
    proof {
        assert(v@ =~= key_completed());
    }
    v
}

fn bool_true_vec() -> (v: Vec<char>)
    ensures
        v@ == bool_text(true),
{
    let mut v: Vec<char> = Vec::new();
    v.push('t');
    v.push('r');
    v.push('u');
    v.push('e');
    proof {
        assert(v@ =~= bool_text(true));
    }
    v
}

fn bool_false_vec() -> (v: Vec<char>)
    ensures
        v@ == bool_text(false),
{
    let mut v: Vec<char> = Vec::new();
    v.push('f');
    v.push('a');
    v.push('l');
    v.push('s');
    v.push('e');
    proof {
        assert(v@ =~= bool_text(false));
    }
    v
}

/// Read quotes around a run of characters up to the next quote.
/// `Some` comes back exactly when a quote stands at `i` with a closing
/// quote after it, and then names the quote-free run between them.
fn scan_plain_quoted(cs: &Vec<char>, i: usize) -> (r: Option<(String, usize)>)
    requires
        i <= cs@.len(),
    ensures
        match r {
            Some(p) => i + 2 <= p.1 <= cs@.len() && cs@.subrange(i as int, p.1 as int)
                == plain_quoted(p.0@) && (forall|a: Seq<char>|
                plain_at(cs@, i as int, a) ==> p.0@ == a && p.1 == i + a.len() + 2),
            None => forall|a: Seq<char>| !plain_at(cs@, i as int, a),
        },
{
    if i >= cs.len() || cs[i] != '"' {
        proof {
            assert forall|a: Seq<char>| !plain_at(cs@, i as int, a) by {
                if plain_at(cs@, i as int, a) {
                    assert(cs@.subrange(i as int, i + a.len() + 2)[0] == cs@[i as int]);
                    assert(plain_quoted(a)[0] == '"');
                }
            }
        }
        return None;
    }
    let mut sub: Vec<char> = Vec::new();
    let mut j: usize = i + 1;
    while j < cs.len() && cs[j] != '"'
        invariant
            i + 1 <= j <= cs@.len(),
            i < cs@.len(),
            cs@[i as int] == '"',
            cs@.subrange(i as int + 1, j as int) == sub@,
            forall|k: int| i < k < j ==> cs@[k] != '"',
            forall|a: Seq<char>| plain_at(cs@, i as int, a) ==> j <= i + 1 + a.len(),
        decreases cs@.len() - j,
    {
        proof {
            assert forall|a: Seq<char>| plain_at(cs@, i as int, a) implies j + 1 <= i + 1
                + a.len() by {
                if j == i + 1 + a.len() {
                    assert(cs@.subrange(i as int, i + a.len() + 2)[a.len() as int + 1] == cs@[j as int]);
                    assert(plain_quoted(a)[a.len() as int + 1] == '"');
                }
            }
        }
        sub.push(cs[j]);
        proof {
            assert(cs@.subrange(i as int + 1, j + 1) =~= sub@);
        }
        j += 1;
    }
    if j >= cs.len() {
        proof {
            assert forall|a: Seq<char>| !plain_at(cs@, i as int, a) by {
                if plain_at(cs@, i as int, a) {
                    assert(j <= i + 1 + a.len());
                    assert(i + a.len() + 2 <= cs@.len());
                }
            }
        }
        return None;
    }
    proof {
        assert(cs@.subrange(i as int, j + 1) =~= plain_quoted(sub@));
        assert forall|a: Seq<char>| plain_at(cs@, i as int, a) implies sub@ == a && j + 1 == i
            + a.len() + 2 by {
            assert(j <= i + 1 + a.len());
            if j < i + 1 + a.len() {
                assert(cs@.subrange(i as int, i + a.len() + 2)[j - i] == cs@[j as int]);
                assert(plain_quoted(a)[j - i] == a[j - i - 1]);
            }
            assert(j == i + 1 + a.len());
            assert forall|k: int| 0 <= k < a.len() implies sub@[k] == a[k] by {
                assert(sub@[k] == cs@[i + 1 + k]);
                assert(cs@.subrange(i as int, i + a.len() + 2)[k + 1] == cs@[i + 1 + k]);
                assert(plain_quoted(a)[k + 1] == a[k]);
            }
            assert(sub@ =~= a);
        }
    }
    Some((chars_to_string(sub), j + 1))
}

/// Read one task object that begins at `i`.  `Some((t, j))` means the
/// characters from `i` to `j` read exactly as the storage form of `t`.
#[verifier::rlimit(100)]
fn parse_task(cs: &Vec<char>, i: usize) -> (r: Option<(Task, usize)>)
    requires
        i <= cs@.len(),
    ensures
        match r {
            Some(p) => i < p.1 <= cs@.len() && task_storable(p.0) && cs@.subrange(
                i as int,
                p.1 as int,
            ) == task_json(p.0),
            None => true,
        },
{
    let j0 = match expect_pat(cs, i, &key_title_vec()) {
        Some(j) => j,
        None => {
            return None;
        },
    };
    let (title, j1) = match parse_string(cs, j0) {
        Some(p) => p,
        None => {
            return None;
        },
    };
    let j2 = match expect_pat(cs, j1, &key_details_vec()) {
        Some(j) => j,
        None => {
            return None;
        },
    };
    let (details, j3) = match parse_string(cs, j2) {
        Some(p) => p,
        None => {
            return None;
        },
    };
    let j4 = match expect_pat(cs, j3, &key_color_vec()) {
        Some(j) => j,
        None => {
            return None;
        },
    };
    let (color_packed, j5) = match parse_u32(cs, j4) {
        Some(p) => p,
        None => {
            return None;
        },
    };
    let color = crate::color::unpack_color(color_packed);
    proof {
        crate::color::lemma_pack_unpack(color_packed as int);
    }
    let j6 = match expect_pat(cs, j5, &key_date_vec()) {
        Some(j) => j,
        None => {
            return None;
        },
    };
    let (date_str, j7) = match scan_plain_quoted(cs, j6) {
        Some(p) => p,
        None => {
            return None;
        },
    };
    let date = match parse_date(date_str.as_str()) {
        Some(d) => d,
        None => {
            return None;
        },
    };
    let j8 = match expect_pat(cs, j7, &key_time_vec()) {
        Some(j) => j,
        None => {
            return None;
        },
    };
    let (time_str, j9) = match scan_plain_quoted(cs, j8) {
        Some(p) => p,
        None => {
            return None;
        },
    };
    let time = match parse_time(time_str.as_str()) {
        Some(t) => t,
        None => {
            return None;
        },
    };
    let j10 = match expect_pat(cs, j9, &key_completed_vec()) {
        Some(j) => j,
        None => {
            return None;
        },
    };
    let (completed, j11) = match expect_pat(cs, j10, &bool_true_vec()) {
        Some(j) => (true, j),
        None => match expect_pat(cs, j10, &bool_false_vec()) {
            Some(j) => (false, j),
            None => {
                return None;
            },
        },
    };
    if j11 >= cs.len() || cs[j11] != '}' {
        return None;
    }
    let task = Task { title, details, color, date, time, completed };
    proof {
        assert(cs@.subrange(i as int, j11 + 1) =~= cs@.subrange(i as int, j0 as int)
            + cs@.subrange(j0 as int, j1 as int) + cs@.subrange(j1 as int, j2 as int)
            + cs@.subrange(j2 as int, j3 as int) + cs@.subrange(j3 as int, j4 as int)
            + cs@.subrange(j4 as int, j5 as int) + cs@.subrange(j5 as int, j6 as int)
            + cs@.subrange(j6 as int, j7 as int) + cs@.subrange(j7 as int, j8 as int)
            + cs@.subrange(j8 as int, j9 as int) + cs@.subrange(j9 as int, j10 as int)
            + cs@.subrange(j10 as int, j11 as int) + cs@.subrange(j11 as int, j11 + 1));
        assert(cs@.subrange(j11 as int, j11 + 1) =~= seq!['}']);
        assert(cs@.subrange(i as int, j11 + 1) =~= task_json(task));
    }
    Some((task, j11 + 1))
}

/// Read a whole storage text.  `Some` comes back only when the text is
/// exactly the storage form of the tasks handed back; anything else
/// comes back `None`.
#[verifier::rlimit(100)]
pub fn tasks_from_json(s: &str) -> (r: Option<TaskList>)
    ensures
        match r {
            Some(tl) => tasks_storable(tl.list@) && s@ == tasks_json(tl.list@),
            None => true,
        },
{
    let cs = string_to_chars(s);
    if cs.len() == 0 || cs[0] != '[' {
        return None;
    }
    if cs.len() == 2 && cs[1] == ']' {
        let tasks: Vec<Task> = Vec::new();
        proof {
            assert(s@ =~= tasks_json(Seq::<Task>::empty()));
        }
        return Some(TaskList::new(tasks));
    }
    let mut tasks: Vec<Task> = Vec::new();
    let mut j: usize = 1;
    while j <= cs.len()
        invariant
            1 <= j <= cs@.len() + 1,
            cs@ == s@,
            cs@.len() > 0 && cs@[0] == '[',
            tasks_storable(tasks@),
            tasks@.len() == 0 ==> j == 1,
            tasks@.len() > 0 ==> j <= cs@.len() && cs@.subrange(0, j as int) == seq!['[']
                + tasks_json_items(tasks@) + seq![','],
        decreases cs@.len() + 1 - j,
    {
        let (t, j2) = match parse_task(&cs, j) {
            Some(p) => p,
            None => {
                return None;
            },
        };
        let ghost old_tasks = tasks@;
        tasks.push(t);
        proof {
            assert forall|k: int| 0 <= k < tasks@.len() implies #[trigger] task_storable(
                tasks@[k],
            ) by {
                if k < old_tasks.len() {
                    assert(tasks@[k] == old_tasks[k]);
                } else {
                    assert(tasks@[k] == t);
                }
            }
            if old_tasks.len() == 0 {
                assert(tasks@ =~= seq![t]);
                assert(tasks_json_items(tasks@) == task_json(t));
                assert(cs@.subrange(0, j2 as int) =~= seq!['['] + tasks_json_items(tasks@));
            } else {
                assert(tasks@.drop_last() =~= old_tasks);
                assert(tasks@.last() == t);
                assert(tasks_json_items(tasks@) == tasks_json_items(old_tasks) + seq![',']
                    + task_json(t));
                assert(cs@.subrange(0, j2 as int) =~= seq!['['] + tasks_json_items(tasks@));
            }
        }
        if j2 < cs.len() && cs[j2] == ']' {
            if j2 + 1 == cs.len() {
                proof {
                    assert(cs@ =~= cs@.subrange(0, j2 as int) + seq![']']);
                    assert(cs@ =~= tasks_json(tasks@));
                }
                return Some(TaskList::new(tasks));
            } else {
                return None;
            }
        } else if j2 < cs.len() && cs[j2] == ',' {
            proof {
                assert(cs@.subrange(0, j2 + 1) =~= seq!['['] + tasks_json_items(tasks@)
                    + seq![',']);
            }
            j = j2 + 1;
        } else {
            return None;
        }
    }
    None
}

/// What loading the storage file yields: an empty text is an empty
/// list; any other text must be a whole storage text.
pub fn load_tasks_text(s: &str) -> (r: Option<TaskList>)
    ensures
        match r {
            Some(tl) => (s@.len() == 0 && tl.list@ == Seq::<Task>::empty()) || (tasks_storable(
                tl.list@,
            ) && s@ == tasks_json(tl.list@)),
            None => s@.len() != 0,
        },
{
    if s.is_empty() {
        let tasks: Vec<Task> = Vec::new();
        return Some(TaskList::new(tasks));
    }
    tasks_from_json(s)
}

} // verus!
