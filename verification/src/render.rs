//! Canonical text form of a value, used inside diff records: `null`, `true`,
//! `false`, decimal numbers, quoted strings with JSON escaping, and `[...]` /
//! `{...}` for composites. The display form used for diff values renders a
//! string as its raw content and every other kind through the canonical form.

use vstd::prelude::*;
use vstd::string::StrSliceExecFns;
use vstd::string::StringExecFns;

use crate::value::Value;

verus! {

/// Relies on String::push: appends one character at the end of the string.
#[verifier::external_body]
pub(crate) fn push_char(s: &mut String, c: char)
    ensures
        final(s)@ == old(s)@.push(c),
{
    s.push(c);
}

pub open spec fn dec_digit(d: nat) -> char {
    if d == 0 {
        '0'
    } else if d == 1 {
        '1'
    } else if d == 2 {
        '2'
    } else if d == 3 {
        '3'
    } else if d == 4 {
        '4'
    } else if d == 5 {
        '5'
    } else if d == 6 {
        '6'
    } else if d == 7 {
        '7'
    } else if d == 8 {
        '8'
    } else {
        '9'
    }
}

/// Decimal digits of a natural number, most significant first.
pub open spec fn dec_nat(n: nat) -> Seq<char>
    decreases n,
{
    if n < 10 {
        seq![dec_digit(n)]
    } else {
        dec_nat(n / 10).push(dec_digit(n % 10))
    }
}

/// Decimal form of an integer, with a leading minus sign when negative.
pub open spec fn dec_int(n: int) -> Seq<char> {
    if n < 0 {
        seq!['-'] + dec_nat((-n) as nat)
    } else {
        dec_nat(n as nat)
    }
}

fn digit_char(d: u64) -> (c: char)
    requires
        d < 10,
    ensures
        c == dec_digit(d as nat),
{
    match d {
        0 => '0',
        1 => '1',
        2 => '2',
        3 => '3',
        4 => '4',
        5 => '5',
        6 => '6',
        7 => '7',
        8 => '8',
        _ => '9',
    }
}

pub fn render_u64(n: u64) -> (r: String)
    ensures
        r@ == dec_nat(n as nat),
    decreases n,
{
    if n < 10 {
        let mut s = String::new();
        push_char(&mut s, digit_char(n));
        proof {
            assert(Seq::<char>::empty().push(dec_digit(n as nat)) =~= seq![dec_digit(n as nat)]);
        }
        s
    } else {
        let mut s = render_u64(n / 10);
        push_char(&mut s, digit_char(n % 10));
        s
    }
}

pub fn render_i64(n: i64) -> (r: String)
    ensures
        r@ == dec_int(n as int),
{
    if n >= 0 {
        render_u64(n as u64)
    } else {
        let m: u64 = if n == i64::MIN {
            9223372036854775808u64
        } else {
            (-n) as u64
        };
        proof {
            assert(m as int == -(n as int));
        }
        let mut s = String::new();
        push_char(&mut s, '-');
        let tail = render_u64(m);
        s.append(tail.as_str());
        proof {
            assert(s@ =~= seq!['-'] + dec_nat((-(n as int)) as nat));
        }
        s
    }
}

pub open spec fn hex_digit(d: nat) -> char {
    if d < 10 {
        dec_digit(d)
    } else if d == 10 {
        'a'
    } else if d == 11 {
        'b'
    } else if d == 12 {
        'c'
    } else if d == 13 {
        'd'
    } else if d == 14 {
        'e'
    } else {
        'f'
    }
}

fn hex_char(d: u32) -> (c: char)
    requires
        d < 16,
    ensures
        c == hex_digit(d as nat),
{
    if d < 10 {
        digit_char(d as u64)
    } else {
        match d {
            10 => 'a',
            11 => 'b',
            12 => 'c',
            13 => 'd',
            14 => 'e',
            _ => 'f',
        }
    }
}

/// How one character appears inside a quoted string: quotes and backslashes
/// get a backslash, the named control characters get their short escapes, the
/// remaining control characters a `\u00..` escape, and everything else stands
/// for itself.
pub open spec fn escape_char(c: char) -> Seq<char> {
    if c == '"' {
        seq!['\\', '"']
    } else if c == '\\' {
        seq!['\\', '\\']
    } else if c == '\u{8}' {
        seq!['\\', 'b']
    } else if c == '\t' {
        seq!['\\', 't']
    } else if c == '\n' {
        seq!['\\', 'n']
    } else if c == '\u{c}' {
        seq!['\\', 'f']
    } else if c == '\r' {
        seq!['\\', 'r']
    } else if (c as u32) < 32 {
        seq!['\\', 'u', '0', '0', hex_digit((c as u32 / 16) as nat), hex_digit(
            (c as u32 % 16) as nat,
        )]
    } else {
        seq![c]
    }
}

pub open spec fn escape_str(s: Seq<char>) -> Seq<char>
    decreases s.len(),
{
    if s.len() == 0 {
        Seq::<char>::empty()
    } else {
        escape_char(s[0]) + escape_str(s.drop_first())
    }
}

/// A string as it appears in the canonical form: quoted and escaped.
pub open spec fn quoted(s: Seq<char>) -> Seq<char> {
    seq!['"'] + escape_str(s) + seq!['"']
}

proof fn lemma_escape_str_push(s: Seq<char>, c: char)
    ensures
        escape_str(s.push(c)) == escape_str(s) + escape_char(c),
    decreases s.len(),
{
    if s.len() == 0 {
        assert(s.push(c)[0] == c);
        assert(s.push(c).drop_first() =~= Seq::<char>::empty());
        assert(escape_str(s.push(c)) == escape_char(c) + escape_str(Seq::<char>::empty()));
        assert(escape_char(c) + Seq::<char>::empty() =~= escape_char(c));
        assert(escape_str(s) + escape_char(c) =~= escape_char(c));
    } else {
        lemma_escape_str_push(s.drop_first(), c);
        assert(s.push(c).drop_first() =~= s.drop_first().push(c));
        assert(s.push(c)[0] == s[0]);
        assert(escape_char(s[0]) + (escape_str(s.drop_first()) + escape_char(c)) =~= (escape_char(
            s[0],
        ) + escape_str(s.drop_first())) + escape_char(c));
    }
}

fn push_escaped(out: &mut String, c: char)
    ensures
        final(out)@ == old(out)@ + escape_char(c),
{
    if c == '"' {
        push_char(out, '\\');
        push_char(out, '"');
    } else if c == '\\' {
        push_char(out, '\\');
        push_char(out, '\\');
    } else if c == '\u{8}' {
        push_char(out, '\\');
        push_char(out, 'b');
    } else if c == '\t' {
        push_char(out, '\\');
        push_char(out, 't');
    } else if c == '\n' {
        push_char(out, '\\');
        push_char(out, 'n');
    } else if c == '\u{c}' {
        push_char(out, '\\');
        push_char(out, 'f');
    } else if c == '\r' {
        push_char(out, '\\');
        push_char(out, 'r');
    } else if (c as u32) < 32 {
        push_char(out, '\\');
        push_char(out, 'u');
        push_char(out, '0');
        push_char(out, '0');
        push_char(out, hex_char(c as u32 / 16));
        push_char(out, hex_char(c as u32 % 16));
    } else {
        push_char(out, c);
    }
    proof {
        assert(out@ =~= old(out)@ + escape_char(c));
    }
}

fn escape_into(out: &mut String, s: &str)
    ensures
        final(out)@ == old(out)@ + escape_str(s@),
{
    let ghost base = out@;
    let n = s.unicode_len();
    let mut i: usize = 0;
    while i < n
        invariant
            n == s@.len(),
            0 <= i <= n,
            out@ == base + escape_str(s@.take(i as int)),
        decreases n - i,
    {
        let c = s.get_char(i);
        proof {
            assert(s@.take(i as int).push(s@[i as int]) =~= s@.take(i as int + 1));
            lemma_escape_str_push(s@.take(i as int), s@[i as int]);
            assert(base + (escape_str(s@.take(i as int)) + escape_char(s@[i as int])) =~= (base
                + escape_str(s@.take(i as int))) + escape_char(s@[i as int]));
        }
        push_escaped(out, c);
        i += 1;
    }
    proof {
        assert(s@.take(n as int) =~= s@);
    }
}

fn push_quoted(out: &mut String, s: &str)
    ensures
        final(out)@ == old(out)@ + quoted(s@),
{
    let ghost base = out@;
    push_char(out, '"');
    proof {
        assert(out@ =~= base + seq!['"']);
    }
    escape_into(out, s);
    push_char(out, '"');
    proof {
        assert(out@ =~= base + quoted(s@));
    }
}

/// The canonical text form of a value.
pub open spec fn render_spec(v: Value) -> Seq<char>
    decreases v, 2int,
{
    match v {
        Value::Null => "null"@,
        Value::Bool(b) => if b {
            "true"@
        } else {
            "false"@
        },
        Value::Number(n) => dec_int(n as int),
        Value::Text(s) => quoted(s@),
        Value::Array(items) => seq!['['] + render_items(items@) + seq![']'],
        Value::Object(fields) => seq!['{'] + render_fields(fields@) + seq!['}'],
    }
}

/// Array elements joined by commas.
pub open spec fn render_items(items: Seq<Value>) -> Seq<char>
    decreases items, 1int,
{
    if items.len() == 0 {
        Seq::<char>::empty()
    } else if items.len() == 1 {
        render_spec(items[0])
    } else {
        render_spec(items[0]) + seq![','] + render_items(items.drop_first())
    }
}

/// Object entries, `"key":value`, joined by commas.
pub open spec fn render_fields(fields: Seq<(String, Value)>) -> Seq<char>
    decreases fields, 1int,
{
    if fields.len() == 0 {
        Seq::<char>::empty()
    } else if fields.len() == 1 {
        quoted(fields[0].0@) + seq![':'] + render_spec(fields[0].1)
    } else {
        quoted(fields[0].0@) + seq![':'] + render_spec(fields[0].1) + seq![','] + render_fields(
            fields.drop_first(),
        )
    }
}

proof fn lemma_render_items_push(items: Seq<Value>, x: Value)
    ensures
        render_items(items.push(x)) == if items.len() == 0 {
            render_spec(x)
        } else {
            render_items(items) + seq![','] + render_spec(x)
        },
    decreases items.len(),
{
    let t = items.push(x);
    if items.len() == 0 {
        assert(t.len() == 1);
        assert(t[0] == x);
    } else if items.len() == 1 {
        assert(t.drop_first() =~= seq![x]);
        assert(render_items(t.drop_first()) == render_spec(x));
        assert(render_spec(items[0]) + seq![','] + render_spec(x) == render_items(items) + seq![
            ','
        ] + render_spec(x));
    } else {
        lemma_render_items_push(items.drop_first(), x);
        assert(t.drop_first() =~= items.drop_first().push(x));
        assert(render_spec(items[0]) + seq![','] + (render_items(items.drop_first()) + seq![',']
            + render_spec(x)) =~= (render_spec(items[0]) + seq![','] + render_items(
            items.drop_first(),
        )) + seq![','] + render_spec(x));
    }
}

proof fn lemma_render_fields_push(fields: Seq<(String, Value)>, f: (String, Value))
    ensures
        render_fields(fields.push(f)) == if fields.len() == 0 {
            quoted(f.0@) + seq![':'] + render_spec(f.1)
        } else {
            render_fields(fields) + seq![','] + (quoted(f.0@) + seq![':'] + render_spec(f.1))
        },
    decreases fields.len(),
{
    let t = fields.push(f);
    let entry = quoted(f.0@) + seq![':'] + render_spec(f.1);
    if fields.len() == 0 {
        assert(t.len() == 1);
        assert(t[0] == f);
    } else if fields.len() == 1 {
        assert(t.drop_first() =~= seq![f]);
        assert(render_fields(t.drop_first()) == entry);
        assert(quoted(t[0].0@) + seq![':'] + render_spec(t[0].1) + seq![','] + entry =~= (quoted(
            fields[0].0@,
        ) + seq![':'] + render_spec(fields[0].1)) + seq![','] + entry);
    } else {
        lemma_render_fields_push(fields.drop_first(), f);
        assert(t.drop_first() =~= fields.drop_first().push(f));
        assert(quoted(t[0].0@) + seq![':'] + render_spec(t[0].1) + seq![','] + (render_fields(
            fields.drop_first(),
        ) + seq![','] + entry) =~= (quoted(fields[0].0@) + seq![':'] + render_spec(fields[0].1)
            + seq![','] + render_fields(fields.drop_first())) + seq![','] + entry);
    }
}

/// Builds the canonical text form of a value.
#[verifier::loop_isolation(false)]
pub fn render(v: &Value) -> (r: String)
    ensures
        r@ == render_spec(*v),
    decreases *v,
{
    match v {
        Value::Null => "null".to_owned(),
        Value::Bool(b) => if *b {
            "true".to_owned()
        } else {
            "false".to_owned()
        },
        Value::Number(n) => render_i64(*n),
        Value::Text(s) => {
            let mut out = String::new();
            push_quoted(&mut out, s.as_str());
            proof {
                assert(out@ =~= quoted(s@));
            }
            out
        },
        Value::Array(items) => {
            let mut out = String::new();
            push_char(&mut out, '[');
            proof {
                assert(out@ =~= seq!['['] + render_items(items@.take(0)));
            }
            let mut i: usize = 0;
            while i < items.len()
                invariant
                    0 <= i <= items@.len(),
                    out@ == seq!['['] + render_items(items@.take(i as int)),
                decreases items@.len() - i,
            {
                let ghost pre = items@.take(i as int);
                if i > 0 {
                    push_char(&mut out, ',');
                }
                proof {
                    assert(v->Array_0 == *items);
                    assert(decreases_to!(*v => v->Array_0));
                    assert(decreases_to!(v->Array_0 => v->Array_0@));
                    assert(decreases_to!(v->Array_0@ => v->Array_0@[i as int]));
                    assert(decreases_to!(*v => items@[i as int]));
                }
                let piece = render(&items[i]);
                out.append(piece.as_str());
                proof {
                    lemma_render_items_push(pre, items@[i as int]);
                    assert(pre.push(items@[i as int]) =~= items@.take(i as int + 1));
                    assert(out@ =~= seq!['['] + render_items(items@.take(i as int + 1)));
                }
                i += 1;
            }
            proof {
                assert(items@.take(items@.len() as int) =~= items@);
            }
            push_char(&mut out, ']');
            proof {
                assert(out@ =~= seq!['['] + render_items(items@) + seq![']']);
            }
            out
        },
        Value::Object(fields) => {
            let mut out = String::new();
            push_char(&mut out, '{');
            proof {
                assert(out@ =~= seq!['{'] + render_fields(fields@.take(0)));
            }
            let mut i: usize = 0;
            while i < fields.len()
                invariant
                    0 <= i <= fields@.len(),
                    out@ == seq!['{'] + render_fields(fields@.take(i as int)),
                decreases fields@.len() - i,
            {
                let ghost pre = fields@.take(i as int);
                if i > 0 {
                    push_char(&mut out, ',');
                }
                push_quoted(&mut out, fields[i].0.as_str());
                push_char(&mut out, ':');
                proof {
                    assert(v->Object_0 == *fields);
                    assert(decreases_to!(*v => v->Object_0));
                    assert(decreases_to!(v->Object_0 => v->Object_0@));
                    assert(decreases_to!(v->Object_0@ => v->Object_0@[i as int]));
                    assert(decreases_to!(v->Object_0@[i as int] => v->Object_0@[i as int].1));
                    assert(decreases_to!(*v => fields@[i as int].1));
                }
                let piece = render(&fields[i].1);
                out.append(piece.as_str());
                proof {
                    lemma_render_fields_push(pre, fields@[i as int]);
                    assert(pre.push(fields@[i as int]) =~= fields@.take(i as int + 1));
                    assert(out@ =~= seq!['{'] + render_fields(fields@.take(i as int + 1)));
                }
                i += 1;
            }
            proof {
                assert(fields@.take(fields@.len() as int) =~= fields@);
            }
            push_char(&mut out, '}');
            proof {
                assert(out@ =~= seq!['{'] + render_fields(fields@) + seq!['}']);
            }
            out
        },
    }
}

/// The form a value takes inside a diff record: a string stands as its raw
/// content, every other kind through the canonical text form.
pub open spec fn display_spec(v: Value) -> Seq<char> {
    match v {
        Value::Text(s) => s@,
        _ => render_spec(v),
    }
}

/// Builds the display form of a value.
pub fn render_display(v: &Value) -> (r: String)
    ensures
        r@ == display_spec(*v),
{
    match v {
        Value::Text(s) => s.clone(),
        _ => render(v),
    }
}

} // verus!
