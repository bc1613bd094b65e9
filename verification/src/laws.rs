//! Global properties of the pipeline, stated and proved over the same
//! specification functions that the executable functions' contracts use.

use vstd::prelude::*;
use crate::abi::{ItemModel, ParamModel, OutModel, spec_format_item};
use crate::converter::{sp_escape, esc_char, hex4_of, sp_compact, sp_pretty, join_quoted,
    sp_render, keep_item, keep_formatted};
use crate::json_parser::{sp_string, sp_string_body, sp_hex_u32, sp_unicode_escape_char,
    hex_val, all_hex, JsonVal, sp_get, sp_item_of, sp_input_of, sp_output_of, sp_inputs_of,
    sp_outputs_of, sp_inputs_list, sp_outputs_list, sp_items_of, sp_value, sp_array,
    sp_array_items, sp_object, sp_object_items, sp_ws, word_at, sp_parse_abi};
use crate::chars::{hex_digit_char, hex_digit_val, is_control_char, is_ws_char};

verus! {

/// Formatting is a pure function: equal entry values always format
/// identically, independent of call order or any prior calls.
pub proof fn lemma_format_deterministic(a: ItemModel, b: ItemModel)
    requires
        a == b,
    ensures
        spec_format_item(a) == spec_format_item(b),
{
}

/// Serialization of an empty list yields exactly `[]` in both the compact
/// and the pretty mode.
pub proof fn lemma_empty_serialization()
    ensures
        sp_compact(Seq::<Seq<char>>::empty()) == "[]"@,
        sp_pretty(Seq::<Seq<char>>::empty()) == "[]"@,
{
    reveal_strlit("[");
    reveal_strlit("]");
    reveal_strlit("[]");
    assert(join_quoted(Seq::<Seq<char>>::empty()) =~= Seq::<char>::empty());
    assert("["@ + join_quoted(Seq::<Seq<char>>::empty()) + "]"@ =~= "[]"@);
}

/// Escaping distributes over concatenation.
pub proof fn lemma_escape_append(a: Seq<char>, b: Seq<char>)
    ensures
        sp_escape(a + b) == sp_escape(a) + sp_escape(b),
    decreases b.len(),
{
    if b.len() == 0 {
        assert(a + b =~= a);
        assert(sp_escape(a) + sp_escape(b) =~= sp_escape(a));
    } else {
        assert((a + b).drop_last() =~= a + b.drop_last());
        lemma_escape_append(a, b.drop_last());
        assert((a + b).last() == b.last());
        assert(sp_escape(a) + sp_escape(b.drop_last()) + esc_char(b.last()) =~= sp_escape(a)
            + sp_escape(b));
    }
}

/// Reading four lowercase hexadecimal digits back recovers the value they
/// were printed from.
proof fn lemma_hex4_roundtrip(u: u32)
    requires
        u < 256,
    ensures
        sp_hex_u32(hex4_of(u)) == Some(u as int),
{
    let h = hex4_of(u);
    assert(u / 4096 == 0);
    assert(u / 256 == 0);
    let v2 = (u / 16) % 16;
    let v3 = u % 16;
    assert(h[0] == hex_digit_char(0));
    assert(h[1] == hex_digit_char(0));
    assert(h[2] == hex_digit_char(v2));
    assert(h[3] == hex_digit_char(v3));
    assert(forall|v: u32| v < 16 ==> hex_digit_val(#[trigger] hex_digit_char(v)) == Some(v))
        by {
        assert forall|v: u32| v < 16 implies hex_digit_val(#[trigger] hex_digit_char(v))
            == Some(v) by {
            if v < 10 {
                assert(hex_digit_char(v) == (0x30 + v) as char);
                assert(((0x30 + v) as char) as u32 == 0x30 + v);
            } else {
                assert(hex_digit_char(v) == (0x61 + (v - 10)) as char);
                assert(((0x61 + (v - 10)) as char) as u32 == 0x61 + (v - 10));
            }
        }
    }
    assert(all_hex(h));
    assert(h[0] as u32 == 0x30);
    assert(hex_val(Seq::<char>::empty()) == 0);
    assert(h.drop_last() =~= seq![h[0], h[1], h[2]]);
    assert(h.drop_last().drop_last() =~= seq![h[0], h[1]]);
    assert(h.drop_last().drop_last().drop_last() =~= seq![h[0]]);
    assert(seq![h[0]].drop_last() =~= Seq::<char>::empty());
    assert(hex_val(seq![h[0]]) == 0);
    assert(hex_val(seq![h[0], h[1]]) == 0);
    assert(hex_val(seq![h[0], h[1], h[2]]) == v2 as int);
    assert(hex_val(h) == 16 * (v2 as int) + v3 as int);
    assert(16 * ((u / 16) as int) + (u % 16) as int == u as int);
}

/// The core escape round trip: when the text from `i` starts with the
/// escaped form of `s` followed by a closing quote, the string-literal
/// reader recovers exactly `s` and stops just past that quote.
pub proof fn lemma_escape_parse(t: Seq<char>, i: int, s: Seq<char>)
    requires
        0 <= i,
        i + sp_escape(s).len() + 1 <= t.len(),
        t.subrange(i, i + sp_escape(s).len() + 1) == sp_escape(s) + seq!['"'],
    ensures
        sp_string_body(t, i) == Some((s, i + sp_escape(s).len() + 1)),
    decreases s.len(),
{
    reveal_strlit("\\\"");
    reveal_strlit("\\\\");
    reveal_strlit("\\n");
    reveal_strlit("\\r");
    reveal_strlit("\\t");
    reveal_strlit("\\u");
    let w = sp_escape(s) + seq!['"'];
    assert(forall|k: int| 0 <= k < w.len() ==> t[i + k] == #[trigger] w[k]) by {
        assert forall|k: int| 0 <= k < w.len() implies t[i + k] == #[trigger] w[k] by {
            assert(t.subrange(i, i + sp_escape(s).len() + 1)[k] == t[i + k]);
        }
    }
    if s.len() == 0 {
        assert(sp_escape(s).len() == 0);
        assert(w =~= seq!['"']);
        assert(w[0] == '"');
        assert(t[i + 0] == w[0]);
    } else {
        let c = s[0];
        let s2 = s.drop_first();
        assert(s =~= seq![c] + s2);
        lemma_escape_append(seq![c], s2);
        assert(seq![c].drop_last() =~= Seq::<char>::empty());
        assert(sp_escape(Seq::<char>::empty()) =~= Seq::<char>::empty());
        assert(seq![c].last() == c);
        assert(sp_escape(seq![c]) =~= esc_char(c));
        assert(sp_escape(s) == esc_char(c) + sp_escape(s2));
        let el = esc_char(c).len();
        let rs = i + el;
        assert(t.subrange(rs, rs + sp_escape(s2).len() + 1) =~= sp_escape(s2) + seq!['"'])
            by {
            assert(forall|k: int| 0 <= k < sp_escape(s2).len() + 1 ==> t[rs + k]
                == #[trigger] (sp_escape(s2) + seq!['"'])[k]) by {
                assert forall|k: int| 0 <= k < sp_escape(s2).len() + 1 implies t[rs + k]
                    == #[trigger] (sp_escape(s2) + seq!['"'])[k] by {
                    assert(t[i + (el + k)] == w[el + k]);
                }
            }
        }
        lemma_escape_parse(t, rs, s2);
        let fin = i + sp_escape(s).len() + 1;
        assert(rs + sp_escape(s2).len() + 1 == fin);
        if c == '"' {
            assert(esc_char(c) == "\\\""@);
            assert(w[0] == esc_char(c)[0]);
            assert(w[1] == esc_char(c)[1]);
            assert(t[i + 0] == w[0]);
            assert(t[i + 1] == w[1]);
            assert(t[i] == '\\' && t[i + 1] == '"');
            assert(sp_string_body(t, i) == Some((seq![c] + s2, fin)));
        } else if c == '\\' {
            assert(esc_char(c) == "\\\\"@);
            assert(w[0] == esc_char(c)[0]);
            assert(w[1] == esc_char(c)[1]);
            assert(t[i + 0] == w[0]);
            assert(t[i + 1] == w[1]);
            assert(t[i] == '\\' && t[i + 1] == '\\');
            assert(sp_string_body(t, i) == Some((seq![c] + s2, fin)));
        } else if c == '\n' {
            assert(esc_char(c) == "\\n"@);
            assert(w[0] == esc_char(c)[0]);
            assert(w[1] == esc_char(c)[1]);
            assert(t[i + 0] == w[0]);
            assert(t[i + 1] == w[1]);
            assert(t[i] == '\\' && t[i + 1] == 'n');
            assert(sp_string_body(t, i) == Some((seq![c] + s2, fin)));
        } else if c == '\r' {
            assert(esc_char(c) == "\\r"@);
            assert(w[0] == esc_char(c)[0]);
            assert(w[1] == esc_char(c)[1]);
            assert(t[i + 0] == w[0]);
            assert(t[i + 1] == w[1]);
            assert(t[i] == '\\' && t[i + 1] == 'r');
            assert(sp_string_body(t, i) == Some((seq![c] + s2, fin)));
        } else if c == '\t' {
            assert(esc_char(c) == "\\t"@);
            assert(w[0] == esc_char(c)[0]);
            assert(w[1] == esc_char(c)[1]);
            assert(t[i + 0] == w[0]);
            assert(t[i + 1] == w[1]);
            assert(t[i] == '\\' && t[i + 1] == 't');
            assert(sp_string_body(t, i) == Some((seq![c] + s2, fin)));
        } else if is_control_char(c) {
            let u = c as u32;
            assert(u < 256);
            assert(esc_char(c) == "\\u"@ + hex4_of(u));
            assert(el == 6);
            assert(w[0] == esc_char(c)[0]);
            assert(w[1] == esc_char(c)[1]);
            assert(t[i + 0] == w[0]);
            assert(t[i + 1] == w[1]);
            assert(esc_char(c)[0] == "\\u"@[0]);
            assert(esc_char(c)[1] == "\\u"@[1]);
            assert(t[i] == '\\' && t[i + 1] == 'u');
            assert(i + 6 <= t.len());
            let hex = t.subrange(i + 2, i + 6);
            assert(hex =~= hex4_of(u)) by {
                assert(forall|k: int| 0 <= k < 4 ==> t[i + 2 + k] == #[trigger] hex4_of(u)[k])
                    by {
                    assert forall|k: int| 0 <= k < 4 implies t[i + 2 + k]
                        == #[trigger] hex4_of(u)[k] by {
                        assert(t[i + (2 + k)] == w[2 + k]);
                        assert(w[2 + k] == esc_char(c)[2 + k]);
                    }
                }
            }
            lemma_hex4_roundtrip(u);
            assert(vstd::utf8::is_scalar(u));
            assert((u as int) as u32 == u);
            vstd::utf8::char_u32_cast(c, u);
            assert(sp_unicode_escape_char(hex) == Some(c));
            assert(sp_string_body(t, i) == Some((seq![c] + s2, fin)));
        } else {
            assert(esc_char(c) == seq![c]);
            assert(esc_char(c)[0] == c);
            assert(w[0] == c);
            assert(t[i + 0] == w[0]);
            assert(t[i] == c);
            assert(c != '"' && c != '\\');
            assert(sp_string_body(t, i) == Some((seq![c] + s2, fin)));
        }
        assert(seq![c] + s2 == s);
    }
}

/// Escaping round-trips: any string, escaped for the JSON-array envelope
/// and read back by the JSON string-literal reader, is recovered exactly.
pub proof fn lemma_escape_round_trip(s: Seq<char>)
    ensures
        sp_string(seq!['"'] + sp_escape(s) + seq!['"'], 0) == Some(
            (s, sp_escape(s).len() as int + 2),
        ),
{
    let t = seq!['"'] + sp_escape(s) + seq!['"'];
    assert(t[0] == '"');
    assert(t.subrange(1, 1 + sp_escape(s).len() as int + 1) =~= sp_escape(s) + seq!['"']);
    lemma_escape_parse(t, 1, s);
}

/// A member present only when the value is.
pub open spec fn opt_field(key: Seq<char>, v: Option<JsonVal>) -> Seq<(Seq<char>, JsonVal)> {
    match v {
        Some(x) => seq![(key, x)],
        None => Seq::empty(),
    }
}

pub open spec fn opt_str_val(s: Option<Seq<char>>) -> Option<JsonVal> {
    match s {
        Some(t) => Some(JsonVal::Str(t)),
        None => None,
    }
}

pub open spec fn opt_bool_val(b: Option<bool>) -> Option<JsonVal> {
    match b {
        Some(x) => Some(JsonVal::Bool(x)),
        None => None,
    }
}

/// The object members an input parameter is written with: each present
/// field under its input-format key, absent fields omitted.
pub open spec fn input_object(p: ParamModel) -> Seq<(Seq<char>, JsonVal)>
    decreases p, 1int,
    when true
    via input_object_via
{
    seq![("type"@, JsonVal::Str(p.type_str))] + opt_field("name"@, opt_str_val(p.name))
        + opt_field("indexed"@, opt_bool_val(p.indexed)) + opt_field(
        "internalType"@,
        opt_str_val(p.internal_type),
    ) + opt_field(
        "components"@,
        match p.components {
            Some(cs) => Some(JsonVal::Arr(input_values(cs))),
            None => None,
        },
    )
}

#[via_fn]
proof fn input_object_via(p: ParamModel) {
    match p.components {
        Some(cs) => {
            assert(decreases_to!(p => p.components));
            assert(decreases_to!(p.components => cs));
        },
        None => {},
    }
}

/// The value-model forms of a list of input parameters, in order.
pub open spec fn input_values(ps: Seq<ParamModel>) -> Seq<JsonVal>
    decreases ps, 0int,
{
    if ps.len() == 0 {
        Seq::empty()
    } else {
        input_values(ps.drop_last()).push(JsonVal::Obj(input_object(ps.last())))
    }
}

/// The object members an output parameter is written with.
pub open spec fn output_object(p: OutModel) -> Seq<(Seq<char>, JsonVal)>
    decreases p, 1int,
    when true
    via output_object_via
{
    seq![("type"@, JsonVal::Str(p.type_str))] + opt_field("name"@, opt_str_val(p.name))
        + opt_field("internalType"@, opt_str_val(p.internal_type)) + opt_field(
        "components"@,
        match p.components {
            Some(cs) => Some(JsonVal::Arr(output_values(cs))),
            None => None,
        },
    )
}

#[via_fn]
proof fn output_object_via(p: OutModel) {
    match p.components {
        Some(cs) => {
            assert(decreases_to!(p => p.components));
            assert(decreases_to!(p.components => cs));
        },
        None => {},
    }
}

/// The value-model forms of a list of output parameters, in order.
pub open spec fn output_values(ps: Seq<OutModel>) -> Seq<JsonVal>
    decreases ps, 0int,
{
    if ps.len() == 0 {
        Seq::empty()
    } else {
        output_values(ps.drop_last()).push(JsonVal::Obj(output_object(ps.last())))
    }
}

/// The object members a whole entry is written with: its kind under the
/// `type` key, every other field only when present.
pub open spec fn entry_object(it: ItemModel) -> Seq<(Seq<char>, JsonVal)> {
    seq![("type"@, JsonVal::Str(it.kind))] + opt_field("name"@, opt_str_val(it.name))
        + opt_field(
        "inputs"@,
        match it.inputs {
            Some(ps) => Some(JsonVal::Arr(input_values(ps))),
            None => None,
        },
    ) + opt_field(
        "outputs"@,
        match it.outputs {
            Some(ps) => Some(JsonVal::Arr(output_values(ps))),
            None => None,
        },
    ) + opt_field("stateMutability"@, opt_str_val(it.state_mutability)) + opt_field(
        "anonymous"@,
        opt_bool_val(it.anonymous),
    ) + opt_field("payable"@, opt_bool_val(it.payable)) + opt_field(
        "constant"@,
        opt_bool_val(it.constant),
    )
}

/// Lookup in a concatenation takes the later bindings first.
pub proof fn lemma_sp_get_append(
    a: Seq<(Seq<char>, JsonVal)>,
    b: Seq<(Seq<char>, JsonVal)>,
    key: Seq<char>,
)
    ensures
        sp_get(a + b, key) == (if sp_get(b, key) is Some {
            sp_get(b, key)
        } else {
            sp_get(a, key)
        }),
    decreases b.len(),
{
    if b.len() == 0 {
        assert(a + b =~= a);
    } else {
        assert((a + b).drop_last() =~= a + b.drop_last());
        assert((a + b).last() == b.last());
        lemma_sp_get_append(a, b.drop_last(), key);
    }
}

/// Lookup in an optional single member.
pub proof fn lemma_sp_get_opt(key: Seq<char>, v: Option<JsonVal>, query: Seq<char>)
    ensures
        sp_get(opt_field(key, v), query) == (if query == key {
            v
        } else {
            None
        }),
{
    assert(sp_get(Seq::<(Seq<char>, JsonVal)>::empty(), query) is None);
    match v {
        Some(x) => {
            assert(opt_field(key, v).drop_last() =~= Seq::<(Seq<char>, JsonVal)>::empty());
            assert(opt_field(key, v).last() == (key, x));
        },
        None => {},
    }
}

/// The input-format keys are pairwise distinct.
proof fn lemma_keys_distinct()
    ensures
        "type"@ != "name"@,
        "type"@ != "indexed"@,
        "type"@ != "internalType"@,
        "type"@ != "components"@,
        "type"@ != "inputs"@,
        "type"@ != "outputs"@,
        "type"@ != "stateMutability"@,
        "type"@ != "anonymous"@,
        "type"@ != "payable"@,
        "type"@ != "constant"@,
        "name"@ != "indexed"@,
        "name"@ != "internalType"@,
        "name"@ != "components"@,
        "name"@ != "inputs"@,
        "name"@ != "outputs"@,
        "name"@ != "stateMutability"@,
        "name"@ != "anonymous"@,
        "name"@ != "payable"@,
        "name"@ != "constant"@,
        "indexed"@ != "internalType"@,
        "indexed"@ != "components"@,
        "internalType"@ != "components"@,
        "inputs"@ != "outputs"@,
        "inputs"@ != "stateMutability"@,
        "inputs"@ != "anonymous"@,
        "inputs"@ != "payable"@,
        "inputs"@ != "constant"@,
        "outputs"@ != "stateMutability"@,
        "outputs"@ != "anonymous"@,
        "outputs"@ != "payable"@,
        "outputs"@ != "constant"@,
        "stateMutability"@ != "anonymous"@,
        "stateMutability"@ != "payable"@,
        "stateMutability"@ != "constant"@,
        "anonymous"@ != "payable"@,
        "anonymous"@ != "constant"@,
        "payable"@ != "constant"@,
{
    reveal_strlit("type");
    reveal_strlit("name");
    reveal_strlit("indexed");
    reveal_strlit("internalType");
    reveal_strlit("components");
    reveal_strlit("inputs");
    reveal_strlit("outputs");
    reveal_strlit("stateMutability");
    reveal_strlit("anonymous");
    reveal_strlit("payable");
    reveal_strlit("constant");
    assert("type"@[0] != "name"@[0]);
    assert("type"@[0] != "indexed"@[0]);
    assert("type"@[0] != "internalType"@[0]);
    assert("type"@[0] != "components"@[0]);
    assert("type"@[0] != "inputs"@[0]);
    assert("type"@[0] != "outputs"@[0]);
    assert("type"@[0] != "stateMutability"@[0]);
    assert("type"@[0] != "anonymous"@[0]);
    assert("type"@[0] != "payable"@[0]);
    assert("type"@[0] != "constant"@[0]);
    assert("name"@[0] != "indexed"@[0]);
    assert("name"@[0] != "internalType"@[0]);
    assert("name"@[0] != "components"@[0]);
    assert("name"@[0] != "inputs"@[0]);
    assert("name"@[0] != "outputs"@[0]);
    assert("name"@[0] != "stateMutability"@[0]);
    assert("name"@[0] != "anonymous"@[0]);
    assert("name"@[0] != "payable"@[0]);
    assert("name"@[0] != "constant"@[0]);
    assert("indexed"@[0] != "components"@[0]);
    assert("internalType"@[0] != "components"@[0]);
    assert("inputs"@[0] != "outputs"@[0]);
    assert("inputs"@[0] != "stateMutability"@[0]);
    assert("inputs"@[0] != "anonymous"@[0]);
    assert("inputs"@[0] != "payable"@[0]);
    assert("inputs"@[0] != "constant"@[0]);
    assert("outputs"@[0] != "stateMutability"@[0]);
    assert("outputs"@[0] != "anonymous"@[0]);
    assert("outputs"@[0] != "payable"@[0]);
    assert("outputs"@[0] != "constant"@[0]);
    assert("stateMutability"@[0] != "anonymous"@[0]);
    assert("stateMutability"@[0] != "payable"@[0]);
    assert("stateMutability"@[0] != "constant"@[0]);
    assert("anonymous"@[0] != "payable"@[0]);
    assert("anonymous"@[0] != "constant"@[0]);
    assert("payable"@[0] != "constant"@[0]);
    assert("indexed"@[2] != "internalType"@[2]);
}

/// An input parameter, written to its object members and extracted back,
/// is recovered exactly.
pub proof fn lemma_input_round_trip(p: ParamModel)
    ensures
        sp_input_of(input_object(p)) == Some(p),
    decreases p, 1int,
{
    lemma_keys_distinct();
    let c1 = seq![("type"@, JsonVal::Str(p.type_str))];
    let c2 = opt_field("name"@, opt_str_val(p.name));
    let c3 = opt_field("indexed"@, opt_bool_val(p.indexed));
    let c4 = opt_field("internalType"@, opt_str_val(p.internal_type));
    let cv = match p.components {
        Some(cs) => Some(JsonVal::Arr(input_values(cs))),
        None => None,
    };
    let c5 = opt_field("components"@, cv);
    let obj = input_object(p);
    assert(obj == c1 + c2 + c3 + c4 + c5);
    assert(c1.drop_last() =~= Seq::<(Seq<char>, JsonVal)>::empty());
    assert forall|q: Seq<char>| true implies #[trigger] sp_get(obj, q) == (if q
        == "components"@ && cv is Some {
        cv
    } else if q == "internalType"@ && opt_str_val(p.internal_type) is Some {
        opt_str_val(p.internal_type)
    } else if q == "indexed"@ && opt_bool_val(p.indexed) is Some {
        opt_bool_val(p.indexed)
    } else if q == "name"@ && opt_str_val(p.name) is Some {
        opt_str_val(p.name)
    } else if q == "type"@ {
        Some(JsonVal::Str(p.type_str))
    } else {
        None
    }) by {
        lemma_sp_get_append(c1 + c2 + c3 + c4, c5, q);
        lemma_sp_get_append(c1 + c2 + c3, c4, q);
        lemma_sp_get_append(c1 + c2, c3, q);
        lemma_sp_get_append(c1, c2, q);
        lemma_sp_get_opt("components"@, cv, q);
        lemma_sp_get_opt("internalType"@, opt_str_val(p.internal_type), q);
        lemma_sp_get_opt("indexed"@, opt_bool_val(p.indexed), q);
        lemma_sp_get_opt("name"@, opt_str_val(p.name), q);
        assert(c1.last() == ("type"@, JsonVal::Str(p.type_str)));
    }
    match p.components {
        Some(cs) => {
            assert(decreases_to!(p => p.components));
            assert(decreases_to!(p.components => cs));
            lemma_inputs_list_round_trip(cs);
            assert(sp_inputs_of(JsonVal::Arr(input_values(cs))) == Some(cs));
        },
        None => {},
    }
    assert(sp_input_of(obj) == Some(p));
}

/// A list of input parameters, written out and extracted back, is
/// recovered exactly.
pub proof fn lemma_inputs_list_round_trip(ps: Seq<ParamModel>)
    ensures
        sp_inputs_list(input_values(ps)) == ps,
    decreases ps, 0int,
{
    if ps.len() == 0 {
        assert(sp_inputs_list(input_values(ps)) =~= ps);
    } else {
        assert(decreases_to!(ps => ps.drop_last()));
        lemma_inputs_list_round_trip(ps.drop_last());
        assert(decreases_to!(ps => ps[ps.len() - 1]));
        lemma_input_round_trip(ps.last());
        let vs = input_values(ps);
        assert(vs.drop_last() =~= input_values(ps.drop_last()));
        assert(vs.last() == JsonVal::Obj(input_object(ps.last())));
        assert(sp_inputs_list(vs) =~= ps);
    }
}

/// An output parameter, written out and extracted back, is recovered
/// exactly.
pub proof fn lemma_output_round_trip(p: OutModel)
    ensures
        sp_output_of(output_object(p)) == Some(p),
    decreases p, 1int,
{
    lemma_keys_distinct();
    let c1 = seq![("type"@, JsonVal::Str(p.type_str))];
    let c2 = opt_field("name"@, opt_str_val(p.name));
    let c4 = opt_field("internalType"@, opt_str_val(p.internal_type));
    let cv = match p.components {
        Some(cs) => Some(JsonVal::Arr(output_values(cs))),
        None => None,
    };
    let c5 = opt_field("components"@, cv);
    let obj = output_object(p);
    assert(obj == c1 + c2 + c4 + c5);
    assert(c1.drop_last() =~= Seq::<(Seq<char>, JsonVal)>::empty());
    assert forall|q: Seq<char>| true implies #[trigger] sp_get(obj, q) == (if q
        == "components"@ && cv is Some {
        cv
    } else if q == "internalType"@ && opt_str_val(p.internal_type) is Some {
        opt_str_val(p.internal_type)
    } else if q == "name"@ && opt_str_val(p.name) is Some {
        opt_str_val(p.name)
    } else if q == "type"@ {
        Some(JsonVal::Str(p.type_str))
    } else {
        None
    }) by {
        lemma_sp_get_append(c1 + c2 + c4, c5, q);
        lemma_sp_get_append(c1 + c2, c4, q);
        lemma_sp_get_append(c1, c2, q);
        lemma_sp_get_opt("components"@, cv, q);
        lemma_sp_get_opt("internalType"@, opt_str_val(p.internal_type), q);
        lemma_sp_get_opt("name"@, opt_str_val(p.name), q);
        assert(c1.last() == ("type"@, JsonVal::Str(p.type_str)));
    }
    match p.components {
        Some(cs) => {
            assert(decreases_to!(p => p.components));
            assert(decreases_to!(p.components => cs));
            lemma_outputs_list_round_trip(cs);
            assert(sp_outputs_of(JsonVal::Arr(output_values(cs))) == Some(cs));
        },
        None => {},
    }
    assert(sp_output_of(obj) == Some(p));
}

/// A list of output parameters, written out and extracted back, is
/// recovered exactly.
pub proof fn lemma_outputs_list_round_trip(ps: Seq<OutModel>)
    ensures
        sp_outputs_list(output_values(ps)) == ps,
    decreases ps, 0int,
{
    if ps.len() == 0 {
        assert(sp_outputs_list(output_values(ps)) =~= ps);
    } else {
        assert(decreases_to!(ps => ps.drop_last()));
        lemma_outputs_list_round_trip(ps.drop_last());
        assert(decreases_to!(ps => ps[ps.len() - 1]));
        lemma_output_round_trip(ps.last());
        let vs = output_values(ps);
        assert(vs.drop_last() =~= output_values(ps.drop_last()));
        assert(vs.last() == JsonVal::Obj(output_object(ps.last())));
        assert(sp_outputs_list(vs) =~= ps);
    }
}

/// Round trip: a well-formed entry, written into the value model that its
/// input text denotes and extracted back, is recovered exactly; its
/// rendering is therefore the same string. The textual layer around this
/// model (string escaping in and out) round-trips by
/// `lemma_escape_round_trip`.
pub proof fn lemma_entry_round_trip(it: ItemModel)
    ensures
        sp_item_of(entry_object(it)) == Some(it),
        sp_items_of(seq![JsonVal::Obj(entry_object(it))]) == seq![it],
        match sp_item_of(entry_object(it)) {
            Some(back) => spec_format_item(back) == spec_format_item(it),
            None => false,
        },
{
    lemma_keys_distinct();
    let c1 = seq![("type"@, JsonVal::Str(it.kind))];
    let c2 = opt_field("name"@, opt_str_val(it.name));
    let iv = match it.inputs {
        Some(ps) => Some(JsonVal::Arr(input_values(ps))),
        None => None,
    };
    let c3 = opt_field("inputs"@, iv);
    let ov = match it.outputs {
        Some(ps) => Some(JsonVal::Arr(output_values(ps))),
        None => None,
    };
    let c4 = opt_field("outputs"@, ov);
    let c5 = opt_field("stateMutability"@, opt_str_val(it.state_mutability));
    let c6 = opt_field("anonymous"@, opt_bool_val(it.anonymous));
    let c7 = opt_field("payable"@, opt_bool_val(it.payable));
    let c8 = opt_field("constant"@, opt_bool_val(it.constant));
    let obj = entry_object(it);
    assert(obj == c1 + c2 + c3 + c4 + c5 + c6 + c7 + c8);
    assert(c1.drop_last() =~= Seq::<(Seq<char>, JsonVal)>::empty());
    assert forall|q: Seq<char>| true implies #[trigger] sp_get(obj, q) == (if q == "constant"@
        && opt_bool_val(it.constant) is Some {
        opt_bool_val(it.constant)
    } else if q == "payable"@ && opt_bool_val(it.payable) is Some {
        opt_bool_val(it.payable)
    } else if q == "anonymous"@ && opt_bool_val(it.anonymous) is Some {
        opt_bool_val(it.anonymous)
    } else if q == "stateMutability"@ && opt_str_val(it.state_mutability) is Some {
        opt_str_val(it.state_mutability)
    } else if q == "outputs"@ && ov is Some {
        ov
    } else if q == "inputs"@ && iv is Some {
        iv
    } else if q == "name"@ && opt_str_val(it.name) is Some {
        opt_str_val(it.name)
    } else if q == "type"@ {
        Some(JsonVal::Str(it.kind))
    } else {
        None
    }) by {
        lemma_sp_get_append(c1 + c2 + c3 + c4 + c5 + c6 + c7, c8, q);
        lemma_sp_get_append(c1 + c2 + c3 + c4 + c5 + c6, c7, q);
        lemma_sp_get_append(c1 + c2 + c3 + c4 + c5, c6, q);
        lemma_sp_get_append(c1 + c2 + c3 + c4, c5, q);
        lemma_sp_get_append(c1 + c2 + c3, c4, q);
        lemma_sp_get_append(c1 + c2, c3, q);
        lemma_sp_get_append(c1, c2, q);
        lemma_sp_get_opt("constant"@, opt_bool_val(it.constant), q);
        lemma_sp_get_opt("payable"@, opt_bool_val(it.payable), q);
        lemma_sp_get_opt("anonymous"@, opt_bool_val(it.anonymous), q);
        lemma_sp_get_opt("stateMutability"@, opt_str_val(it.state_mutability), q);
        lemma_sp_get_opt("outputs"@, ov, q);
        lemma_sp_get_opt("inputs"@, iv, q);
        lemma_sp_get_opt("name"@, opt_str_val(it.name), q);
        assert(c1.last() == ("type"@, JsonVal::Str(it.kind)));
    }
    match it.inputs {
        Some(ps) => {
            lemma_inputs_list_round_trip(ps);
        },
        None => {},
    }
    match it.outputs {
        Some(ps) => {
            lemma_outputs_list_round_trip(ps);
        },
        None => {},
    }
    assert(sp_item_of(obj) == Some(it));
    let root = seq![JsonVal::Obj(obj)];
    assert(root.drop_last() =~= Seq::<JsonVal>::empty());
    assert(sp_items_of(Seq::<JsonVal>::empty()) =~= Seq::<ItemModel>::empty());
    assert(sp_items_of(root) =~= seq![it]);
}

/// Values that the input serializer can write: strings, booleans, and
/// lists and objects of such values.
pub open spec fn textable(v: JsonVal) -> bool
    decreases v, 1int,
{
    match v {
        JsonVal::Str(_) => true,
        JsonVal::Bool(_) => true,
        JsonVal::Arr(a) => textable_list(a),
        JsonVal::Obj(ps) => textable_pairs(ps),
        _ => false,
    }
}

pub open spec fn textable_list(a: Seq<JsonVal>) -> bool
    decreases a, 0int,
{
    if a.len() == 0 {
        true
    } else {
        textable_list(a.drop_last()) && textable(a.last())
    }
}

pub open spec fn textable_pairs(ps: Seq<(Seq<char>, JsonVal)>) -> bool
    decreases ps, 0int,
    when true
    via textable_pairs_via
{
    if ps.len() == 0 {
        true
    } else {
        textable_pairs(ps.drop_last()) && textable(ps.last().1)
    }
}

#[via_fn]
proof fn textable_pairs_via(ps: Seq<(Seq<char>, JsonVal)>) {
    if ps.len() > 0 {
        assert(decreases_to!(ps => ps[ps.len() - 1]));
        assert(decreases_to!(ps[ps.len() - 1] => ps[ps.len() - 1].1));
    }
}

/// A string as a double-quoted, escaped JSON string literal.
pub open spec fn quoted_text(s: Seq<char>) -> Seq<char> {
    seq!['"'] + sp_escape(s) + seq!['"']
}

/// The textual input form of a value: no whitespace, strings escaped.
pub open spec fn val_text(v: JsonVal) -> Seq<char>
    decreases v, 1int,
{
    match v {
        JsonVal::Str(s) => quoted_text(s),
        JsonVal::Bool(b) => if b {
            "true"@
        } else {
            "false"@
        },
        JsonVal::Arr(a) => seq!['['] + arr_text(a) + seq![']'],
        JsonVal::Obj(ps) => seq!['{'] + obj_text(ps) + seq!['}'],
        _ => Seq::empty(),
    }
}

/// Comma-separated element texts.
pub open spec fn arr_text(a: Seq<JsonVal>) -> Seq<char>
    decreases a, 0int,
{
    if a.len() == 0 {
        Seq::empty()
    } else if a.len() == 1 {
        val_text(a[0])
    } else {
        val_text(a[0]) + seq![','] + arr_text(a.drop_first())
    }
}

/// Comma-separated `"key":value` member texts.
pub open spec fn obj_text(ps: Seq<(Seq<char>, JsonVal)>) -> Seq<char>
    decreases ps, 0int,
    when true
    via obj_text_via
{
    if ps.len() == 0 {
        Seq::empty()
    } else if ps.len() == 1 {
        quoted_text(ps[0].0) + seq![':'] + val_text(ps[0].1)
    } else {
        quoted_text(ps[0].0) + seq![':'] + val_text(ps[0].1) + seq![','] + obj_text(
            ps.drop_first(),
        )
    }
}

#[via_fn]
proof fn obj_text_via(ps: Seq<(Seq<char>, JsonVal)>) {
    if ps.len() > 0 {
        assert(decreases_to!(ps => ps[0]));
        assert(decreases_to!(ps[0] => ps[0].1));
    }
}

/// A window of known text transfers to its sub-windows.
proof fn lemma_window(t: Seq<char>, i: int, w: Seq<char>, a: int, b: int)
    requires
        0 <= i,
        i + w.len() <= t.len(),
        t.subrange(i, i + w.len() as int) == w,
        0 <= a <= b <= w.len(),
    ensures
        t.subrange(i + a, i + b) == w.subrange(a, b),
{
    assert forall|k: int| 0 <= k < b - a implies t.subrange(i + a, i + b)[k] == w.subrange(
        a,
        b,
    )[k] by {
        assert(t.subrange(i, i + w.len() as int)[a + k] == t[i + (a + k)]);
    }
    assert(t.subrange(i + a, i + b) =~= w.subrange(a, b));
}

proof fn lemma_window_char(t: Seq<char>, i: int, w: Seq<char>, a: int)
    requires
        0 <= i,
        i + w.len() <= t.len(),
        t.subrange(i, i + w.len() as int) == w,
        0 <= a < w.len(),
    ensures
        t[i + a] == w[a],
{
    assert(t.subrange(i, i + w.len() as int)[a] == t[i + a]);
}

/// The first character of a serialized value: an opening quote, bracket or
/// brace, or the first letter of a boolean literal; never whitespace.
proof fn lemma_val_text_head(v: JsonVal)
    requires
        textable(v),
    ensures
        val_text(v).len() > 0,
        !is_ws_char(val_text(v)[0]),
        val_text(v)[0] == '"' || val_text(v)[0] == 't' || val_text(v)[0] == 'f' || val_text(
            v,
        )[0] == '[' || val_text(v)[0] == '{',
{
    reveal_strlit("true");
    reveal_strlit("false");
    match v {
        JsonVal::Str(s) => {
            assert(val_text(v)[0] == '"');
        },
        JsonVal::Bool(b) => {
            if b {
                assert(val_text(v)[0] == 't');
            } else {
                assert(val_text(v)[0] == 'f');
            }
        },
        JsonVal::Arr(a) => {
            assert(val_text(v)[0] == '[');
        },
        JsonVal::Obj(ps) => {
            assert(val_text(v)[0] == '{');
        },
        _ => {},
    }
}

/// Parsing a serialized value from its position in a larger text yields
/// exactly that value and stops just past its text.
#[verifier::rlimit(100)]
proof fn lemma_val_parse(t: Seq<char>, i: int, v: JsonVal)
    requires
        textable(v),
        0 <= i,
        i + val_text(v).len() <= t.len(),
        t.subrange(i, i + val_text(v).len() as int) == val_text(v),
    ensures
        sp_value(t, i) == Some((v, i + val_text(v).len() as int)),
    decreases v, 1int,
{
    reveal_strlit("true");
    reveal_strlit("false");
    let w = val_text(v);
    lemma_val_text_head(v);
    lemma_window_char(t, i, w, 0);
    assert(sp_ws(t, i) == i);
    match v {
        JsonVal::Str(s) => {
            assert(w == quoted_text(s));
            assert(t[i] == '"');
            lemma_window(t, i, w, 1, w.len() as int);
            assert(w.subrange(1, w.len() as int) =~= sp_escape(s) + seq!['"']);
            lemma_escape_parse(t, i + 1, s);
            assert(0 <= i < t.len());
            assert(sp_string(t, i) == Some((s, i + w.len() as int)));
            assert(sp_value(t, i) == Some((JsonVal::Str(s), i + w.len() as int)));
        },
        JsonVal::Bool(b) => {
            if b {
                assert(w == "true"@);
                assert(word_at(t, i, "true"@));
                assert(t[i] == 't');
            } else {
                assert(w == "false"@);
                assert(word_at(t, i, "false"@));
                assert(t[i] == 'f');
            }
            assert(sp_value(t, i) == Some((v, i + w.len() as int)));
        },
        JsonVal::Arr(a) => {
            assert(t[i] == '[');
            lemma_window_char(t, i, w, w.len() as int - 1);
            assert(w[w.len() - 1] == ']');
            if a.len() == 0 {
                assert(w =~= seq!['[', ']']);
                assert(t[i + 1] == ']');
                assert(!is_ws_char(']'));
                assert(sp_ws(t, i + 1) == i + 1);
                assert(sp_array(t, i) == Some((Seq::<JsonVal>::empty(), i + 2)));
            } else {
                assert(textable(a[0])) by {
                    lemma_textable_list_index(a, 0);
                }
                lemma_val_text_head(a[0]);
                lemma_window_char(t, i, w, 1);
                assert(w[1] == arr_text(a)[0]);
                assert(arr_text(a)[0] == val_text(a[0])[0]);
                assert(sp_ws(t, i + 1) == i + 1);
                assert(t[i + 1] != ']');
                lemma_window(t, i, w, 1, 1 + arr_text(a).len() as int + 1);
                assert(w.subrange(1, 1 + arr_text(a).len() as int + 1) =~= arr_text(a)
                    + seq![']']);
                lemma_arr_items_parse(t, i + 1, a);
                assert(sp_array(t, i) == Some((a, i + w.len() as int)));
            }
            assert(0 <= i < t.len());
            assert(t[i] != '"');
            assert(sp_ws(t, i) == i);
            assert(sp_array(t, i) == Some((a, i + w.len() as int)));
            assert(sp_value(t, i) == Some((v, i + w.len() as int)));
        },
        JsonVal::Obj(ps) => {
            assert(t[i] == '{');
            if ps.len() == 0 {
                assert(w =~= seq!['{', '}']);
                assert(t[i + 1] == '}');
                assert(!is_ws_char('}'));
                assert(sp_ws(t, i + 1) == i + 1);
                assert(sp_object(t, i) == Some((Seq::<(Seq<char>, JsonVal)>::empty(), i + 2)));
            } else {
                lemma_window_char(t, i, w, 1);
                assert(w[1] == obj_text(ps)[0]);
                assert(obj_text(ps)[0] == quoted_text(ps[0].0)[0]);
                assert(quoted_text(ps[0].0)[0] == '"');
                assert(!is_ws_char('"'));
                assert(sp_ws(t, i + 1) == i + 1);
                assert(t[i + 1] != '}');
                lemma_window(t, i, w, 1, 1 + obj_text(ps).len() as int + 1);
                assert(w.subrange(1, 1 + obj_text(ps).len() as int + 1) =~= obj_text(ps)
                    + seq!['}']);
                lemma_obj_items_parse(t, i + 1, ps);
                assert(sp_object(t, i) == Some((ps, i + w.len() as int)));
            }
            assert(0 <= i < t.len());
            assert(t[i] != '"');
            assert(t[i] != '[');
            assert(sp_ws(t, i) == i);
            assert(sp_object(t, i) == Some((ps, i + w.len() as int)));
            assert(sp_value(t, i) == Some((v, i + w.len() as int)));
        },
        _ => {
            assert(!textable(v));
            assert(false);
        },
    }
}

proof fn lemma_textable_list_index(a: Seq<JsonVal>, k: int)
    requires
        textable_list(a),
        0 <= k < a.len(),
    ensures
        textable(a[k]),
    decreases a.len(),
{
    if k == a.len() - 1 {
    } else {
        assert(a.drop_last()[k] == a[k]);
        lemma_textable_list_index(a.drop_last(), k);
    }
}

proof fn lemma_textable_list_drop_first(a: Seq<JsonVal>)
    requires
        textable_list(a),
        a.len() > 0,
    ensures
        textable_list(a.drop_first()),
    decreases a.len(),
{
    if a.len() > 1 {
        assert(a.drop_first().drop_last() =~= a.drop_last().drop_first());
        lemma_textable_list_drop_first(a.drop_last());
        assert(a.drop_first().last() == a.last());
    }
}

proof fn lemma_textable_pairs_index(ps: Seq<(Seq<char>, JsonVal)>, k: int)
    requires
        textable_pairs(ps),
        0 <= k < ps.len(),
    ensures
        textable(ps[k].1),
    decreases ps.len(),
{
    if k == ps.len() - 1 {
    } else {
        assert(ps.drop_last()[k] == ps[k]);
        lemma_textable_pairs_index(ps.drop_last(), k);
    }
}

proof fn lemma_textable_pairs_drop_first(ps: Seq<(Seq<char>, JsonVal)>)
    requires
        textable_pairs(ps),
        ps.len() > 0,
    ensures
        textable_pairs(ps.drop_first()),
    decreases ps.len(),
{
    if ps.len() > 1 {
        assert(ps.drop_first().drop_last() =~= ps.drop_last().drop_first());
        lemma_textable_pairs_drop_first(ps.drop_last());
        assert(ps.drop_first().last() == ps.last());
    }
}

/// Parsing the serialized elements of a non-empty list, followed by the
/// closing bracket, yields exactly those elements.
proof fn lemma_arr_items_parse(t: Seq<char>, i: int, a: Seq<JsonVal>)
    requires
        textable_list(a),
        a.len() > 0,
        0 <= i,
        i + arr_text(a).len() + 1 <= t.len(),
        t.subrange(i, i + arr_text(a).len() as int + 1) == arr_text(a) + seq![']'],
    ensures
        sp_array_items(t, i) == Some((a, i + arr_text(a).len() as int + 1)),
    decreases a, 0int,
{
    let w = arr_text(a) + seq![']'];
    let v0 = a[0];
    assert(textable(v0)) by {
        lemma_textable_list_index(a, 0);
    }
    lemma_val_text_head(v0);
    let vl = val_text(v0).len() as int;
    if a.len() == 1 {
        assert(arr_text(a) == val_text(v0));
        lemma_window(t, i, w, 0, vl);
        assert(w.subrange(0, vl) =~= val_text(v0));
        assert(decreases_to!(a => a[0]));
        lemma_val_parse(t, i, v0);
        lemma_window_char(t, i, w, vl);
        assert(w[vl] == ']');
        assert(!is_ws_char(']'));
        assert(sp_ws(t, i + vl) == i + vl);
        assert(seq![v0] =~= a);
    } else {
        let rest = a.drop_first();
        assert(arr_text(a) == val_text(v0) + seq![','] + arr_text(rest));
        lemma_window(t, i, w, 0, vl);
        assert(w.subrange(0, vl) =~= val_text(v0));
        assert(decreases_to!(a => a[0]));
        lemma_val_parse(t, i, v0);
        lemma_window_char(t, i, w, vl);
        assert(w[vl] == ',');
        assert(!is_ws_char(','));
        assert(sp_ws(t, i + vl) == i + vl);
        assert(t[i + vl] != ']');
        lemma_window(t, i, w, vl + 1, w.len() as int);
        assert(w.subrange(vl + 1, w.len() as int) =~= arr_text(rest) + seq![']']);
        lemma_textable_list_drop_first(a);
        assert(decreases_to!(a => rest));
        lemma_arr_items_parse(t, i + vl + 1, rest);
        assert(seq![v0] + rest =~= a);
    }
}

/// Parsing the serialized members of a non-empty object, followed by the
/// closing brace, yields exactly those members in order.
#[verifier::rlimit(100)]
proof fn lemma_obj_items_parse(t: Seq<char>, i: int, ps: Seq<(Seq<char>, JsonVal)>)
    requires
        textable_pairs(ps),
        ps.len() > 0,
        0 <= i,
        i + obj_text(ps).len() + 1 <= t.len(),
        t.subrange(i, i + obj_text(ps).len() as int + 1) == obj_text(ps) + seq!['}'],
    ensures
        sp_object_items(t, i) == Some((ps, i + obj_text(ps).len() as int + 1)),
    decreases ps, 0int,
{
    let w = obj_text(ps) + seq!['}'];
    let key = ps[0].0;
    let v0 = ps[0].1;
    assert(textable(v0)) by {
        lemma_textable_pairs_index(ps, 0);
    }
    lemma_val_text_head(v0);
    let kl = quoted_text(key).len() as int;
    let vl = val_text(v0).len() as int;
    lemma_window_char(t, i, w, 0);
    assert(w[0] == quoted_text(key)[0]);
    assert(quoted_text(key)[0] == '"');
    assert(!is_ws_char('"'));
    assert(sp_ws(t, i) == i);
    lemma_window(t, i, w, 1, kl);
    assert(w.subrange(1, kl) =~= sp_escape(key) + seq!['"']);
    lemma_escape_parse(t, i + 1, key);
    assert(sp_string(t, i) == Some((key, i + kl)));
    lemma_window_char(t, i, w, kl);
    assert(w[kl] == ':');
    assert(!is_ws_char(':'));
    assert(sp_ws(t, i + kl) == i + kl);
    lemma_window(t, i, w, kl + 1, kl + 1 + vl);
    assert(w.subrange(kl + 1, kl + 1 + vl) =~= val_text(v0));
    assert(decreases_to!(ps => ps[0]));
    assert(decreases_to!(ps[0] => ps[0].1));
    lemma_val_parse(t, i + kl + 1, v0);
    let p = i + kl + 1 + vl;
    lemma_window_char(t, i, w, kl + 1 + vl);
    if ps.len() == 1 {
        assert(w[kl + 1 + vl] == '}');
        assert(!is_ws_char('}'));
        assert(sp_ws(t, p) == p);
        assert(seq![(key, v0)] =~= ps);
    } else {
        let rest = ps.drop_first();
        assert(obj_text(ps) == quoted_text(key) + seq![':'] + val_text(v0) + seq![',']
            + obj_text(rest));
        assert(w[kl + 1 + vl] == ',');
        assert(!is_ws_char(','));
        assert(sp_ws(t, p) == p);
        assert(t[p] != '}');
        lemma_window(t, i, w, kl + 1 + vl + 1, w.len() as int);
        assert(w.subrange(kl + 1 + vl + 1, w.len() as int) =~= obj_text(rest) + seq!['}']);
        lemma_textable_pairs_drop_first(ps);
        assert(decreases_to!(ps => rest));
        lemma_obj_items_parse(t, p + 1, rest);
        assert(seq![(key, v0)] + rest =~= ps);
    }
}

/// Every value the entry serializer writes is serializable.
proof fn lemma_entry_textable(it: ItemModel)
    ensures
        textable_pairs(entry_object(it)),
{
    match it.inputs {
        Some(ps) => {
            lemma_input_values_textable(ps);
        },
        None => {},
    }
    match it.outputs {
        Some(ps) => {
            lemma_output_values_textable(ps);
        },
        None => {},
    }
    lemma_textable_pairs_all(entry_object(it));
}

proof fn lemma_input_object_textable(p: ParamModel)
    ensures
        textable_pairs(input_object(p)),
    decreases p, 1int,
{
    match p.components {
        Some(cs) => {
            assert(decreases_to!(p => p.components));
            assert(decreases_to!(p.components => cs));
            lemma_input_values_textable(cs);
        },
        None => {},
    }
    lemma_textable_pairs_all(input_object(p));
}

proof fn lemma_input_values_textable(ps: Seq<ParamModel>)
    ensures
        textable_list(input_values(ps)),
    decreases ps, 0int,
{
    if ps.len() > 0 {
        assert(decreases_to!(ps => ps.drop_last()));
        lemma_input_values_textable(ps.drop_last());
        assert(decreases_to!(ps => ps[ps.len() - 1]));
        lemma_input_object_textable(ps.last());
        assert(input_values(ps).drop_last() =~= input_values(ps.drop_last()));
        assert(input_values(ps).last() == JsonVal::Obj(input_object(ps.last())));
        assert(textable(input_values(ps).last()));
    }
}

proof fn lemma_output_object_textable(p: OutModel)
    ensures
        textable_pairs(output_object(p)),
    decreases p, 1int,
{
    match p.components {
        Some(cs) => {
            assert(decreases_to!(p => p.components));
            assert(decreases_to!(p.components => cs));
            lemma_output_values_textable(cs);
        },
        None => {},
    }
    lemma_textable_pairs_all(output_object(p));
}

proof fn lemma_output_values_textable(ps: Seq<OutModel>)
    ensures
        textable_list(output_values(ps)),
    decreases ps, 0int,
{
    if ps.len() > 0 {
        assert(decreases_to!(ps => ps.drop_last()));
        lemma_output_values_textable(ps.drop_last());
        assert(decreases_to!(ps => ps[ps.len() - 1]));
        lemma_output_object_textable(ps.last());
        assert(output_values(ps).drop_last() =~= output_values(ps.drop_last()));
        assert(output_values(ps).last() == JsonVal::Obj(output_object(ps.last())));
        assert(textable(output_values(ps).last()));
    }
}

/// A pair sequence whose values are all strings, booleans or known-textable
/// lists is textable.
proof fn lemma_textable_pairs_all(ps: Seq<(Seq<char>, JsonVal)>)
    requires
        forall|k: int| 0 <= k < ps.len() ==> textable(#[trigger] ps[k].1),
    ensures
        textable_pairs(ps),
    decreases ps.len(),
{
    if ps.len() > 0 {
        assert(forall|k: int| 0 <= k < ps.drop_last().len() ==> ps.drop_last()[k] == ps[k]);
        lemma_textable_pairs_all(ps.drop_last());
    }
}

/// Round trip through the textual input form: the serialized text of a
/// well-formed entry parses back to exactly that entry, so rendering the
/// parse result yields the same string as formatting the entry directly.
pub proof fn lemma_textual_round_trip(it: ItemModel)
    ensures
        ({
            let text = seq!['['] + val_text(JsonVal::Obj(entry_object(it))) + seq![']'];
            &&& sp_parse_abi(text, 0) == Some(seq![it])
            &&& match sp_parse_abi(text, 0) {
                Some(items) => items.len() == 1 && spec_format_item(items[0])
                    == spec_format_item(it),
                None => false,
            }
        }),
{
    let vo = JsonVal::Obj(entry_object(it));
    lemma_entry_textable(it);
    assert(textable(vo));
    let text = seq!['['] + val_text(vo) + seq![']'];
    assert(text[0] == '[');
    assert(!is_ws_char('['));
    assert(sp_ws(text, 0) == 0);
    lemma_val_text_head(vo);
    assert(text[1] == val_text(vo)[0]);
    assert(sp_ws(text, 1) == 1);
    assert(text[1] != ']');
    let a = seq![vo];
    assert(a.drop_last() =~= Seq::<JsonVal>::empty());
    assert(textable_list(Seq::<JsonVal>::empty()));
    assert(a.last() == vo);
    assert(textable_list(a));
    assert(arr_text(a) == val_text(vo));
    assert(text.subrange(1, 1 + arr_text(a).len() as int + 1) =~= arr_text(a) + seq![']']);
    lemma_arr_items_parse(text, 1, a);
    assert(sp_array(text, 0) == Some((a, 1 + arr_text(a).len() as int + 1)));
    lemma_entry_round_trip(it);
    assert(sp_items_of(a) == seq![it]);
    assert(sp_parse_abi(text, 0) == Some(sp_items_of(a)));
}

/// A root object holding the serialized entry under its `abi` key parses
/// to exactly the same entries as the bare serialized list.
#[verifier::rlimit(100)]
pub proof fn lemma_wrapper_agrees(it: ItemModel)
    ensures
        ({
            let bare = seq!['['] + val_text(JsonVal::Obj(entry_object(it))) + seq![']'];
            let inner = JsonVal::Arr(seq![JsonVal::Obj(entry_object(it))]);
            let wrapped = val_text(JsonVal::Obj(seq![("abi"@, inner)]));
            &&& sp_parse_abi(wrapped, 0) == Some(seq![it])
            &&& sp_parse_abi(wrapped, 0) == sp_parse_abi(bare, 0)
        }),
{
    lemma_textual_round_trip(it);
    let vo = JsonVal::Obj(entry_object(it));
    let a = seq![vo];
    let inner = JsonVal::Arr(a);
    let root_pairs = seq![("abi"@, inner)];
    let wv = JsonVal::Obj(root_pairs);
    let wrapped = val_text(wv);
    lemma_entry_textable(it);
    assert(a.drop_last() =~= Seq::<JsonVal>::empty());
    assert(textable_list(Seq::<JsonVal>::empty()));
    assert(a.last() == vo);
    assert(textable(vo));
    assert(textable_list(a));
    assert(textable(inner));
    assert(root_pairs.drop_last() =~= Seq::<(Seq<char>, JsonVal)>::empty());
    assert(textable_pairs(Seq::<(Seq<char>, JsonVal)>::empty()));
    assert(root_pairs.last() == ("abi"@, inner));
    assert(textable_pairs(root_pairs));
    assert(textable(wv));
    assert(wrapped.subrange(0, wrapped.len() as int) =~= wrapped);
    lemma_val_parse(wrapped, 0, wv);
    assert(sp_value(wrapped, 0) == Some((wv, wrapped.len() as int)));
    lemma_val_text_head(wv);
    assert(wrapped[0] == '{');
    assert(sp_ws(wrapped, 0) == 0);
    match sp_object(wrapped, 0) {
        Some((o, e)) => {
            assert(sp_value(wrapped, 0) == Some((JsonVal::Obj(o), e)));
            assert(o == root_pairs);
            lemma_sp_get_opt("abi"@, Some(inner), "abi"@);
            assert(opt_field("abi"@, Some(inner)) =~= root_pairs);
            assert(sp_get(root_pairs, "abi"@) == Some(inner));
            lemma_entry_round_trip(it);
            assert(sp_parse_abi(wrapped, 0) == Some(sp_items_of(a)));
        },
        None => {
            assert(false);
        },
    }
}

/// The whole pipeline round trip: a well-formed entry (one that the kind
/// and output filters keep), serialized as input text, parsed back and
/// rendered, reproduces exactly the string that formatting the entry
/// directly yields.
pub proof fn lemma_pipeline_round_trip(it: ItemModel)
    requires
        keep_item(it),
        keep_formatted(spec_format_item(it)),
    ensures
        ({
            let text = seq!['['] + val_text(JsonVal::Obj(entry_object(it))) + seq![']'];
            match sp_parse_abi(text, 0) {
                Some(items) => sp_render(items) == seq![spec_format_item(it)],
                None => false,
            }
        }),
{
    lemma_textual_round_trip(it);
    let items = seq![it];
    assert(items.drop_last() =~= Seq::<ItemModel>::empty());
    assert(sp_render(Seq::<ItemModel>::empty()) =~= Seq::<Seq<char>>::empty());
    assert(items.last() == it);
    assert(sp_render(items) =~= seq![spec_format_item(it)]);
}

} // verus!
