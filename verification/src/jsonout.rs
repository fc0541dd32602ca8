//! Rendering of `SELECT` results as a JSON document
//! `{"fields":[…],"rows":[[…],…]}`, with string escaping as JSON
//! requires it.

use vstd::prelude::*;
use crate::strutil::chars_to_string;
use crate::table::SelectData;

verus! {

pub open spec fn hex_char(d: int) -> char {
    if d == 0 { '0' } else if d == 1 { '1' } else if d == 2 { '2' } else if d == 3 { '3' }
    else if d == 4 { '4' } else if d == 5 { '5' } else if d == 6 { '6' } else if d == 7 { '7' }
    else if d == 8 { '8' } else if d == 9 { '9' } else if d == 10 { 'a' } else if d == 11 { 'b' }
    else if d == 12 { 'c' } else if d == 13 { 'd' } else if d == 14 { 'e' } else { 'f' }
}

/// How one character is written inside a JSON string literal.
pub open spec fn json_escape_char(c: char) -> Seq<char> {
    if c == '"' {
        seq!['\\', '"']
    } else if c == '\\' {
        seq!['\\', '\\']
    } else if c == '\u{8}' {
        seq!['\\', 'b']
    } else if c == '\t' {
        seq!['\\', 't']
    } else if c == '\n' {
        seq!['\\', 'n']
    } else if c == '\u{c}' {
        seq!['\\', 'f']
    } else if c == '\r' {
        seq!['\\', 'r']
    } else if (c as u32) < 0x20 {
        seq!['\\', 'u', '0', '0', hex_char(((c as u32) / 16) as int), hex_char(
            ((c as u32) % 16) as int,
        )]
    } else {
        seq![c]
    }
}

pub open spec fn json_escape(s: Seq<char>) -> Seq<char>
    decreases s.len(),
{
    if s.len() == 0 {
        Seq::empty()
    } else {
        json_escape_char(s[0]) + json_escape(s.skip(1))
    }
}

pub open spec fn json_string(s: Seq<char>) -> Seq<char> {
    seq!['"'] + json_escape(s) + seq!['"']
}

/// Comma-joined items, each rendered by `json_string`.
pub open spec fn json_string_items(items: Seq<Seq<char>>) -> Seq<char>
    decreases items.len(),
{
    if items.len() == 0 {
        Seq::empty()
    } else if items.len() == 1 {
        json_string(items[0])
    } else {
        json_string(items[0]) + seq![','] + json_string_items(items.skip(1))
    }
}

pub open spec fn json_string_array(items: Seq<Seq<char>>) -> Seq<char> {
    seq!['['] + json_string_items(items) + seq![']']
}

pub open spec fn json_row_items(rows: Seq<Seq<Seq<char>>>) -> Seq<char>
    decreases rows.len(),
{
    if rows.len() == 0 {
        Seq::empty()
    } else if rows.len() == 1 {
        json_string_array(rows[0])
    } else {
        json_string_array(rows[0]) + seq![','] + json_row_items(rows.skip(1))
    }
}

/// The whole result document.
pub open spec fn spec_select_json(fields: Seq<Seq<char>>, rows: Seq<Seq<Seq<char>>>) -> Seq<char> {
    "{\"fields\":"@ + json_string_array(fields) + ",\"rows\":["@ + json_row_items(rows) + "]}"@
}

fn exec_hex_char(d: u32) -> (c: char)
    requires
        d < 16,
    ensures
        c == hex_char(d as int),
{
    match d {
        0 => '0', 1 => '1', 2 => '2', 3 => '3', 4 => '4', 5 => '5', 6 => '6', 7 => '7',
        8 => '8', 9 => '9', 10 => 'a', 11 => 'b', 12 => 'c', 13 => 'd', 14 => 'e', _ => 'f',
    }
}

fn push_escaped(out: &mut Vec<char>, s: &String)
    ensures
        final(out)@ == old(out)@ + json_escape(s@),
{
    let cs = crate::strutil::str_chars(s.as_str());
    let n = cs.len();
    let mut i: usize = 0;
    proof {
        assert(s@.skip(0) =~= s@);
        assert(old(out)@ + Seq::<char>::empty() =~= old(out)@);
    }
    while i < n
        invariant
            n == s@.len(),
            cs@ == s@,
            i <= n,
            out@ + json_escape(s@.skip(i as int)) == old(out)@ + json_escape(s@),
        decreases n - i,
    {
        let c = cs[i];
        let ghost rest = s@.skip(i as int);
        proof {
            assert(rest[0] == c);
            assert(rest.skip(1) =~= s@.skip(i + 1));
        }
        let ghost before = out@;
        if c == '"' {
            out.push('\\');
            out.push('"');
        } else if c == '\\' {
            out.push('\\');
            out.push('\\');
        } else if c == '\u{8}' {
            out.push('\\');
            out.push('b');
        } else if c == '\t' {
            out.push('\\');
            out.push('t');
        } else if c == '\n' {
            out.push('\\');
            out.push('n');
        } else if c == '\u{c}' {
            out.push('\\');
            out.push('f');
        } else if c == '\r' {
            out.push('\\');
            out.push('r');
        } else if (c as u32) < 0x20 {
            out.push('\\');
            out.push('u');
            out.push('0');
            out.push('0');
            out.push(exec_hex_char((c as u32) / 16));
            out.push(exec_hex_char((c as u32) % 16));
        } else {
            out.push(c);
        }
        proof {
            assert(out@ =~= before + json_escape_char(c));
            assert(before + (json_escape_char(c) + json_escape(s@.skip(i + 1))) =~= (before
                + json_escape_char(c)) + json_escape(s@.skip(i + 1)));
        }
        i += 1;
    }
    proof {
        assert(json_escape(s@.skip(n as int)).len() == 0);
        assert(out@ + json_escape(s@.skip(n as int)) =~= out@);
    }
}

fn push_str_chars(out: &mut Vec<char>, s: &str)
    ensures
        final(out)@ == old(out)@ + s@,
{
    let cs = crate::strutil::str_chars(s);
    let n = cs.len();
    let mut i: usize = 0;
    while i < n
        invariant
            n == s@.len(),
            cs@ == s@,
            i <= n,
            out@ == old(out)@ + s@.take(i as int),
        decreases n - i,
    {
        out.push(cs[i]);
        proof {
            assert(old(out)@ + s@.take(i + 1) =~= (old(out)@ + s@.take(i as int)).push(
                s@[i as int],
            ));
        }
        i += 1;
    }
    proof {
        assert(s@.take(n as int) =~= s@);
    }
}

fn push_json_string(out: &mut Vec<char>, s: &String)
    ensures
        final(out)@ == old(out)@ + json_string(s@),
{
    let ghost b0 = out@;
    out.push('"');
    push_escaped(out, s);
    out.push('"');
    proof {
        assert(out@ =~= b0 + json_string(s@));
    }
}

fn push_string_array(out: &mut Vec<char>, items: &Vec<String>)
    ensures
        final(out)@ == old(out)@ + json_string_array(items.deep_view()),
{
    let ghost iv = items.deep_view();
    proof {
        assert(iv.len() == items@.len());
        assert(forall|k: int| 0 <= k < items@.len() ==> iv[k] == items@[k]@);
    }
    let ghost b0 = out@;
    out.push('[');
    let n = items.len();
    let mut i: usize = 0;
    proof {
        assert(out@ =~= b0 + seq!['[']);
        if iv.len() == 0 {
            assert(json_string_items(iv).len() == 0);
            assert(out@ =~= b0 + seq!['['] + json_string_items(iv));
        }
    }
    while i < n
        invariant
            n == items@.len(),
            iv == items.deep_view(),
            iv.len() == n,
            forall|k: int| 0 <= k < n ==> iv[k] == items@[k]@,
            i <= n,
            i == 0 ==> out@ == b0 + seq!['['],
            i > 0 ==> out@ == b0 + seq!['['] + json_string_items(iv.take(i as int)),
        decreases n - i,
    {
        let ghost before = out@;
        if i > 0 {
            out.push(',');
        }
        push_json_string(out, &items[i]);
        proof {
            lemma_json_items_snoc(iv, i as int);
            if i == 0 {
                assert(json_string_items(iv.take(1)) =~= json_string(iv[0]));
                assert(out@ =~= b0 + seq!['['] + json_string_items(iv.take(1)));
            } else {
                assert(out@ =~= b0 + seq!['['] + (json_string_items(iv.take(i as int)) + seq![',']
                    + json_string(iv[i as int])));
                assert(out@ =~= b0 + seq!['['] + json_string_items(iv.take(i + 1)));
            }
        }
        i += 1;
    }
    out.push(']');
    proof {
        if n == 0 {
            assert(json_string_items(iv) =~= Seq::<char>::empty());
            assert(out@ =~= b0 + json_string_array(iv));
        } else {
            assert(iv.take(n as int) =~= iv);
            assert(out@ =~= b0 + json_string_array(iv));
        }
    }
}

/// Splitting the items after `i` splits their rendering at a comma.
proof fn lemma_json_items_snoc(items: Seq<Seq<char>>, i: int)
    requires
        0 <= i < items.len(),
    ensures
        i == 0 ==> json_string_items(items.take(1)) == json_string(items[0]),
        i > 0 ==> json_string_items(items.take(i + 1)) == json_string_items(items.take(i))
            + seq![','] + json_string(items[i]),
    decreases i,
{
    if i == 0 {
        assert(items.take(1).len() == 1);
        assert(items.take(1)[0] == items[0]);
    } else {
        lemma_json_items_snoc(items.skip(1), i - 1);
        let t1 = items.take(i + 1);
        assert(t1.len() >= 2);
        assert(t1[0] == items[0]);
        assert(t1.skip(1) =~= items.skip(1).take(i));
        assert(items.take(i)[0] == items[0]);
        assert(items.take(i).skip(1) =~= items.skip(1).take(i - 1));
        assert(items.skip(1)[i - 1] == items[i]);
        if i == 1 {
            assert(items.skip(1).take(1) =~= items.skip(1).take(1));
            assert(json_string_items(t1) == json_string(items[0]) + seq![','] + json_string_items(
                items.skip(1).take(1),
            ));
            assert(json_string_items(items.take(1)) == json_string(items[0]));
            assert(json_string_items(items.skip(1).take(1)) == json_string(items[1]));
            assert(json_string_items(t1) =~= json_string_items(items.take(1)) + seq![',']
                + json_string(items[1]));
        } else {
            assert(json_string_items(t1) == json_string(items[0]) + seq![','] + json_string_items(
                items.skip(1).take(i),
            ));
            assert(json_string_items(items.take(i)) == json_string(items[0]) + seq![',']
                + json_string_items(items.skip(1).take(i - 1)));
            assert(json_string_items(items.skip(1).take(i)) == json_string_items(items.skip(
                1,
            ).take(i - 1)) + seq![','] + json_string(items.skip(1)[i - 1]));
            assert(json_string_items(t1) =~= json_string_items(items.take(i)) + seq![',']
                + json_string(items[i]));
        }
    }
}

proof fn lemma_json_rows_snoc(rows: Seq<Seq<Seq<char>>>, i: int)
    requires
        0 <= i < rows.len(),
    ensures
        i == 0 ==> json_row_items(rows.take(1)) == json_string_array(rows[0]),
        i > 0 ==> json_row_items(rows.take(i + 1)) == json_row_items(rows.take(i)) + seq![',']
            + json_string_array(rows[i]),
    decreases i,
{
    if i == 0 {
        assert(rows.take(1).len() == 1);
        assert(rows.take(1)[0] == rows[0]);
    } else {
        lemma_json_rows_snoc(rows.skip(1), i - 1);
        let t1 = rows.take(i + 1);
        assert(t1.len() >= 2);
        assert(t1[0] == rows[0]);
        assert(t1.skip(1) =~= rows.skip(1).take(i));
        assert(rows.take(i)[0] == rows[0]);
        assert(rows.take(i).skip(1) =~= rows.skip(1).take(i - 1));
        assert(rows.skip(1)[i - 1] == rows[i]);
        if i == 1 {
            assert(json_row_items(t1) == json_string_array(rows[0]) + seq![','] + json_row_items(
                rows.skip(1).take(1),
            ));
            assert(json_row_items(rows.take(1)) == json_string_array(rows[0]));
            assert(json_row_items(rows.skip(1).take(1)) == json_string_array(rows[1]));
            assert(json_row_items(t1) =~= json_row_items(rows.take(1)) + seq![',']
                + json_string_array(rows[1]));
        } else {
            assert(json_row_items(t1) == json_string_array(rows[0]) + seq![','] + json_row_items(
                rows.skip(1).take(i),
            ));
            assert(json_row_items(rows.take(i)) == json_string_array(rows[0]) + seq![',']
                + json_row_items(rows.skip(1).take(i - 1)));
            assert(json_row_items(rows.skip(1).take(i)) == json_row_items(rows.skip(1).take(
                i - 1,
            )) + seq![','] + json_string_array(rows.skip(1)[i - 1]));
            assert(json_row_items(t1) =~= json_row_items(rows.take(i)) + seq![',']
                + json_string_array(rows[i]));
        }
    }
}

/// Renders a `SELECT` result as its JSON document.
pub fn select_data_to_json(data: &SelectData) -> (r: String)
    ensures
        r@ == spec_select_json(data.fields.deep_view(), data.rows.deep_view()),
{
    let ghost fv = data.fields.deep_view();
    let ghost rv = data.rows.deep_view();
    proof {
        assert(rv.len() == data.rows@.len());
        assert(forall|k: int| 0 <= k < data.rows@.len() ==> rv[k] == data.rows@[k].deep_view());
    }
    let mut out: Vec<char> = Vec::new();
    push_str_chars(&mut out, "{\"fields\":");
    proof {
        assert(out@ =~= Seq::<char>::empty() + "{\"fields\":"@);
    }
    push_string_array(&mut out, &data.fields);
    push_str_chars(&mut out, ",\"rows\":[");
    let ghost b0 = out@;
    proof {
        assert(b0 =~= "{\"fields\":"@ + json_string_array(fv) + ",\"rows\":["@);
    }
    let n = data.rows.len();
    let mut i: usize = 0;
    while i < n
        invariant
            n == data.rows@.len(),
            rv == data.rows.deep_view(),
            rv.len() == n,
            forall|k: int| 0 <= k < n ==> rv[k] == data.rows@[k].deep_view(),
            i <= n,
            i == 0 ==> out@ == b0,
            i > 0 ==> out@ == b0 + json_row_items(rv.take(i as int)),
        decreases n - i,
    {
        if i > 0 {
            out.push(',');
        }
        push_string_array(&mut out, &data.rows[i]);
        proof {
            lemma_json_rows_snoc(rv, i as int);
            if i == 0 {
                assert(out@ =~= b0 + json_row_items(rv.take(1)));
            } else {
                assert(out@ =~= b0 + (json_row_items(rv.take(i as int)) + seq![',']
                    + json_string_array(rv[i as int])));
                assert(out@ =~= b0 + json_row_items(rv.take(i + 1)));
            }
        }
        i += 1;
    }
    push_str_chars(&mut out, "]}");
    proof {
        if n == 0 {
            assert(json_row_items(rv) =~= Seq::<char>::empty());
            assert(out@ =~= spec_select_json(fv, rv));
        } else {
            assert(rv.take(n as int) =~= rv);
            assert(out@ =~= spec_select_json(fv, rv));
        }
    }
    chars_to_string(&out)
}

} // verus!
