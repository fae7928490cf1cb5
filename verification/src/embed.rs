//! The example embedder: renders a parsed value tree as canonical JSON text
//! and names the lazily initialized constant that will hold its decoded form.

use vstd::prelude::*;

verus! {

use crate::parser::chars_of;
use crate::parser::string_from_chars;
use crate::parser::model;
use crate::parser::model_entries;
use crate::parser::model_seq;
use crate::parser::JsonValue;
use crate::parser::ValueModel;

/// How one character of a string is written inside a JSON string literal.
pub open spec fn esc_char(c: char) -> Seq<char> {
    if c == '"' {
        seq!['\\', '"']
    } else if c == '\\' {
        seq!['\\', '\\']
    } else if c == '\n' {
        seq!['\\', 'n']
    } else if c == '\t' {
        seq!['\\', 't']
    } else if c == '\r' {
        seq!['\\', 'r']
    } else {
        seq![c]
    }
}

/// The escaped body of a JSON string literal.
pub open spec fn esc(t: Seq<char>) -> Seq<char>
    decreases t.len(),
{
    if t.len() == 0 {
        Seq::empty()
    } else {
        esc_char(t[0]) + esc(t.drop_first())
    }
}

/// The canonical text of a value: strings quoted and escaped, numbers as
/// their canonical decimal text, containers in entry order with single commas
/// and no whitespace.
pub open spec fn spec_ser(m: ValueModel) -> Seq<char>
    decreases m, 1int,
{
    match m {
        ValueModel::Str(t) => seq!['"'] + esc(t) + seq!['"'],
        ValueModel::Num(t) => t,
        ValueModel::Bool(b) => if b {
            "true"@
        } else {
            "false"@
        },
        ValueModel::Null => "null"@,
        ValueModel::Arr(ms) => seq!['['] + spec_ser_elems(ms) + seq![']'],
        ValueModel::Obj(es) => seq!['{'] + spec_ser_entries(es) + seq!['}'],
    }
}

/// The canonical text of array elements, comma-separated.
pub open spec fn spec_ser_elems(ms: Seq<ValueModel>) -> Seq<char>
    decreases ms, 0int,
{
    if ms.len() == 0 {
        Seq::empty()
    } else if ms.len() == 1 {
        spec_ser(ms[0])
    } else {
        spec_ser(ms[0]) + seq![','] + spec_ser_elems(ms.drop_first())
    }
}

/// The canonical text of object entries, comma-separated.
pub open spec fn spec_ser_entries(es: Seq<(Seq<char>, ValueModel)>) -> Seq<char>
    decreases es, 0int,
    via spec_ser_entries_decreases
{
    if es.len() == 0 {
        Seq::empty()
    } else if es.len() == 1 {
        seq!['"'] + esc(es[0].0) + seq!['"', ':'] + spec_ser(es[0].1)
    } else {
        seq!['"'] + esc(es[0].0) + seq!['"', ':'] + spec_ser(es[0].1) + seq![',']
            + spec_ser_entries(es.drop_first())
    }
}

/// Establishes that an entry list outweighs its first entry's value.
#[via_fn]
proof fn spec_ser_entries_decreases(es: Seq<(Seq<char>, ValueModel)>) {
    if es.len() > 0 {
        assert(decreases_to!(es => es[0]));
        assert(decreases_to!(es[0] => es[0].1));
    }
}

/// Escaping one more character appends its escape.
proof fn lemma_esc_snoc(t: Seq<char>, c: char)
    ensures
        esc(t.push(c)) == esc(t) + esc_char(c),
    decreases t.len(),
{
    if t.len() == 0 {
        assert(t.push(c)[0] == c);
        assert(t.push(c).drop_first() =~= Seq::<char>::empty());
        assert(esc(Seq::<char>::empty()) == Seq::<char>::empty());
        assert(t =~= Seq::<char>::empty());
        assert(esc(t.push(c)) == esc_char(c) + esc(t.push(c).drop_first()));
        assert(esc(t.push(c)) =~= esc(t) + esc_char(c));
    } else {
        lemma_esc_snoc(t.drop_first(), c);
        assert(t.push(c)[0] == t[0]);
        assert(t.push(c).drop_first() =~= t.drop_first().push(c));
        assert(esc(t.push(c)) =~= esc(t) + esc_char(c));
    }
}

/// Writes the quoted, escaped form of a string.
fn write_string(t: &String, out: &mut Vec<char>)
    ensures
        final(out)@ == old(out)@ + seq!['"'] + esc(t@) + seq!['"'],
{
    let ghost start = out@;
    out.push('"');
    let cs = chars_of(t.as_str());
    let mut i: usize = 0;
    assert(t@.subrange(0, 0) =~= Seq::<char>::empty());
    assert(out@ =~= start + seq!['"'] + esc(t@.subrange(0, 0)));
    while i < cs.len()
        invariant
            i <= cs@.len(),
            cs@ == t@,
            out@ == start + seq!['"'] + esc(t@.subrange(0, i as int)),
        decreases cs@.len() - i,
    {
        let c = cs[i];
        if c == '"' {
            out.push('\\');
            out.push('"');
        } else if c == '\\' {
            out.push('\\');
            out.push('\\');
        } else if c == '\n' {
            out.push('\\');
            out.push('n');
        } else if c == '\t' {
            out.push('\\');
            out.push('t');
        } else if c == '\r' {
            out.push('\\');
            out.push('r');
        } else {
            out.push(c);
        }
        proof {
            lemma_esc_snoc(t@.subrange(0, i as int), t@[i as int]);
            assert(t@.subrange(0, i + 1 as int) =~= t@.subrange(0, i as int).push(t@[i as int]));
            assert(out@ =~= start + seq!['"'] + esc(t@.subrange(0, i + 1 as int)));
        }
        i = i + 1;
    }
    assert(t@.subrange(0, t@.len() as int) =~= t@);
    out.push('"');
    assert(out@ =~= start + seq!['"'] + esc(t@) + seq!['"']);
}

/// Writes the canonical text of one value.
fn write_value(v: &JsonValue, out: &mut Vec<char>)
    ensures
        final(out)@ == old(out)@ + spec_ser(model(*v)),
    decreases *v, 1int, 0int,
{
    let ghost start = out@;
    match v {
        JsonValue::Str(t) => {
            write_string(t, out);
            assert(out@ =~= start + spec_ser(model(*v)));
        },
        JsonValue::Number(t) => {
            let cs = chars_of(t.as_str());
            let mut i: usize = 0;
            while i < cs.len()
                invariant
                    i <= cs@.len(),
                    cs@ == t@,
                    out@ == start + t@.subrange(0, i as int),
                decreases cs@.len() - i,
            {
                out.push(cs[i]);
                assert(out@ =~= start + t@.subrange(0, i + 1 as int));
                i = i + 1;
            }
            assert(t@.subrange(0, t@.len() as int) =~= t@);
        },
        JsonValue::Boolean(b) => {
            if *b {
                out.push('t');
                out.push('r');
                out.push('u');
                out.push('e');
                proof {
                    reveal_strlit("true");
                    assert(out@ =~= start + "true"@);
                }
            } else {
                out.push('f');
                out.push('a');
                out.push('l');
                out.push('s');
                out.push('e');
                proof {
                    reveal_strlit("false");
                    assert(out@ =~= start + "false"@);
                }
            }
        },
        JsonValue::Null => {
            out.push('n');
            out.push('u');
            out.push('l');
            out.push('l');
            proof {
                reveal_strlit("null");
                assert(out@ =~= start + "null"@);
            }
        },
        JsonValue::Array(elems) => {
            out.push('[');
            proof {
                assert(decreases_to!(*v => *elems));
                assert(decreases_to!(*elems => elems@));
            }
            write_elems(elems, 0, out);
            out.push(']');
            proof {
                assert(model_seq(elems@).subrange(0, model_seq(elems@).len() as int)
                    =~= model_seq(elems@));
                assert(out@ =~= start + spec_ser(model(*v)));
            }
        },
        JsonValue::Object(entries) => {
            out.push('{');
            proof {
                assert(decreases_to!(*v => *entries));
                assert(decreases_to!(*entries => entries@));
            }
            write_entries(entries, 0, out);
            out.push('}');
            proof {
                assert(model_entries(entries@).subrange(0, model_entries(entries@).len() as int)
                    =~= model_entries(entries@));
                assert(out@ =~= start + spec_ser(model(*v)));
            }
        },
    }
}

/// Writes the canonical text of the elements from `i` on, comma-separated.
fn write_elems(elems: &Vec<JsonValue>, i: usize, out: &mut Vec<char>)
    requires
        i <= elems@.len(),
    ensures
        final(out)@ == old(out)@ + spec_ser_elems(
            model_seq(elems@).subrange(i as int, model_seq(elems@).len() as int),
        ),
    decreases elems@, 0int, elems@.len() - i,
{
    let ghost ms = model_seq(elems@);
    let ghost suffix = ms.subrange(i as int, ms.len() as int);
    proof {
        crate::generator::lemma_model_seq_props(elems@);
    }
    if i >= elems.len() {
        assert(suffix.len() == 0);
        return ;
    }
    proof {
        assert(decreases_to!(elems@ => elems@[i as int]));
        assert(suffix[0] == model(elems@[i as int]));
    }
    write_value(&elems[i], out);
    if i + 1 < elems.len() {
        out.push(',');
    }
    write_elems(elems, i + 1, out);
    proof {
        assert(suffix.drop_first() =~= ms.subrange(i + 1 as int, ms.len() as int));
        if i + 1 < elems@.len() {
            assert(suffix.len() > 1);
        } else {
            assert(suffix.len() == 1);
            assert(spec_ser_elems(suffix.drop_first()) =~= Seq::<char>::empty());
        }
        assert(final(out)@ =~= old(out)@ + spec_ser_elems(suffix));
    }
}

/// Writes the canonical text of the entries from `i` on, comma-separated.
fn write_entries(entries: &Vec<(String, JsonValue)>, i: usize, out: &mut Vec<char>)
    requires
        i <= entries@.len(),
    ensures
        final(out)@ == old(out)@ + spec_ser_entries(
            model_entries(entries@).subrange(i as int, model_entries(entries@).len() as int),
        ),
    decreases entries@, 0int, entries@.len() - i,
{
    let ghost es = model_entries(entries@);
    let ghost suffix = es.subrange(i as int, es.len() as int);
    proof {
        crate::generator::lemma_model_entries_props(entries@);
    }
    if i >= entries.len() {
        assert(suffix.len() == 0);
        return ;
    }
    proof {
        assert(decreases_to!(entries@ => entries@[i as int]));
        assert(decreases_to!(entries@[i as int] => entries@[i as int].1));
        assert(suffix[0] == (entries@[i as int].0@, model(entries@[i as int].1)));
    }
    write_string(&entries[i].0, out);
    out.push(':');
    write_value(&entries[i].1, out);
    if i + 1 < entries.len() {
        out.push(',');
    }
    write_entries(entries, i + 1, out);
    proof {
        assert(suffix.drop_first() =~= es.subrange(i + 1 as int, es.len() as int));
        if i + 1 < entries@.len() {
            assert(suffix.len() > 1);
        } else {
            assert(suffix.len() == 1);
            assert(spec_ser_entries(suffix.drop_first()) =~= Seq::<char>::empty());
        }
        assert(final(out)@ =~= old(out)@ + spec_ser_entries(suffix));
    }
}

/// The canonical text of one value.
pub fn canonical_text(v: &JsonValue) -> (r: String)
    ensures
        r@ == spec_ser(model(*v)),
{
    let mut out: Vec<char> = Vec::new();
    write_value(v, &mut out);
    string_from_chars(&out)
}

/// The canonical text of a root object with these entries.
pub fn object_text(entries: &Vec<(String, JsonValue)>) -> (r: String)
    ensures
        r@ == spec_ser(ValueModel::Obj(model_entries(entries@))),
{
    let mut out: Vec<char> = Vec::new();
    out.push('{');
    write_entries(entries, 0, &mut out);
    out.push('}');
    proof {
        assert(model_entries(entries@).subrange(0, model_entries(entries@).len() as int)
            =~= model_entries(entries@));
    }
    string_from_chars(&out)
}

/// serde_json's decoded JSON value, the runtime form the embedded constant
/// materializes as.
#[verifier::external_type_specification]
#[verifier::external_body]
pub struct ExSerdeValue(serde_json::Value);

/// Whether serde_json's decoder accepts this text. Relies on
/// serde_json::from_str: whether it returns a value depends on the text
/// alone.
pub uninterp spec fn decodes_ok(s: Seq<char>) -> bool;

/// Relies on serde_json::from_str: decodes JSON text into a value, and
/// refuses text that is not valid JSON; it returns an error rather than
/// panicking, also at its recursion limit.
#[verifier::external_body]
fn decode_json_text(s: &str) -> (r: Option<serde_json::Value>)
    ensures
        r is Some <==> decodes_ok(s@),
{
    serde_json::from_str(s).ok()
}

impl JsonValue {
    /// The runtime form of this value, obtained by decoding its canonical
    /// text; `None` exactly where the decoder refuses that text.
    pub fn to_serde_value(&self) -> (r: Option<serde_json::Value>)
        ensures
            r is Some <==> decodes_ok(spec_ser(model(*self))),
    {
        let text = canonical_text(self);
        decode_json_text(text.as_str())
    }
}

/// The uppercased form of one character of an identifier.
pub open spec fn upper_char(c: char) -> char {
    if 'a' <= c && c <= 'z' {
        ((c as u32) - 32) as char
    } else {
        c
    }
}

/// The uppercased form of an identifier.
pub open spec fn spec_upper(s: Seq<char>) -> Seq<char> {
    s.map_values(|c: char| upper_char(c))
}

/// Uppercases the ASCII letters of an identifier.
pub fn upper_ident(name: &str) -> (r: String)
    ensures
        r@ == spec_upper(name@),
{
    let cs = chars_of(name);
    let mut out: Vec<char> = Vec::new();
    let mut i: usize = 0;
    while i < cs.len()
        invariant
            i <= cs.len(),
            cs@ == name@,
            out@ == spec_upper(name@.subrange(0, i as int)),
        decreases cs.len() - i,
    {
        let c = cs[i];
        let u: char = if 'a' <= c && c <= 'z' {
            ((((c as u32) as u8) - 32) as char)
        } else {
            c
        };
        assert(u == upper_char(name@[i as int]));
        out.push(u);
        assert(out@ =~= spec_upper(name@.subrange(0, i + 1 as int)));
        i = i + 1;
    }
    assert(name@.subrange(0, name@.len() as int) =~= name@);
    string_from_chars(&out)
}

} // verus!
