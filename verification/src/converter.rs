//! The conversion pipeline: parse raw text to entries, filter and render
//! them, and serialize the formatted strings as a JSON array, in a byte-exact
//! compact or pretty form.

use vstd::prelude::*;
use crate::chars::{is_control_char, control_char, hex_digit_char, to_hex_digit, push_char,
    str_eq};
use crate::abi::{AbiItem, ItemModel, item_model, item_models, spec_format_item};
use crate::json_parser::{JsonParser, sp_parse_abi};

verus! {

/// The four lowercase hexadecimal digits of a value below `0x10000`.
pub open spec fn hex4_of(u: u32) -> Seq<char> {
    seq![
        hex_digit_char(((u / 4096) % 16) as u32),
        hex_digit_char(((u / 256) % 16) as u32),
        hex_digit_char(((u / 16) % 16) as u32),
        hex_digit_char((u % 16) as u32),
    ]
}

/// The escape of one character inside a double-quoted JSON string: the named
/// two-character escapes for quote, backslash, newline, carriage return and
/// tab; `\u` and four lowercase hex digits for any other control character;
/// every other character passes through unescaped.
pub open spec fn esc_char(c: char) -> Seq<char> {
    if c == '"' {
        "\\\""@
    } else if c == '\\' {
        "\\\\"@
    } else if c == '\n' {
        "\\n"@
    } else if c == '\r' {
        "\\r"@
    } else if c == '\t' {
        "\\t"@
    } else if is_control_char(c) {
        "\\u"@ + hex4_of(c as u32)
    } else {
        seq![c]
    }
}

/// The escaped form of a whole string.
pub open spec fn sp_escape(s: Seq<char>) -> Seq<char>
    decreases s.len(),
{
    if s.len() == 0 {
        Seq::empty()
    } else {
        sp_escape(s.drop_last()) + esc_char(s.last())
    }
}

/// A string as a double-quoted JSON string literal.
pub open spec fn quoted(s: Seq<char>) -> Seq<char> {
    "\""@ + sp_escape(s) + "\""@
}

/// Quoted strings joined by a bare comma.
pub open spec fn join_quoted(strs: Seq<Seq<char>>) -> Seq<char>
    decreases strs.len(),
{
    if strs.len() == 0 {
        Seq::empty()
    } else if strs.len() == 1 {
        quoted(strs[0])
    } else {
        join_quoted(strs.drop_last()) + ","@ + quoted(strs.last())
    }
}

/// The compact serialization: `[`, the quoted strings joined by commas, `]`;
/// no whitespace, no trailing newline. An empty list yields exactly `[]`.
pub open spec fn sp_compact(strs: Seq<Seq<char>>) -> Seq<char> {
    "["@ + join_quoted(strs) + "]"@
}

/// One line of the pretty serialization: two spaces, the quoted string, a
/// comma when more lines follow, then a newline.
pub open spec fn pline(s: Seq<char>, comma: bool) -> Seq<char> {
    "  \""@ + sp_escape(s) + "\""@ + (if comma {
        ","@
    } else {
        Seq::empty()
    }) + "\n"@
}

/// Lines that are all followed by further lines, so all carry a comma.
pub open spec fn sp_pretty_comma_lines(strs: Seq<Seq<char>>) -> Seq<char>
    decreases strs.len(),
{
    if strs.len() == 0 {
        Seq::empty()
    } else {
        sp_pretty_comma_lines(strs.drop_last()) + pline(strs.last(), true)
    }
}

/// The pretty serialization: `[`, a newline, one indented line per string
/// with a comma on all but the last, then `]` with no trailing newline. An
/// empty list yields exactly `[]`, not `[` and `]` around an empty line.
pub open spec fn sp_pretty(strs: Seq<Seq<char>>) -> Seq<char> {
    if strs.len() == 0 {
        "[]"@
    } else {
        "[\n"@ + sp_pretty_comma_lines(strs.drop_last()) + pline(strs.last(), false) + "]"@
    }
}

/// Entries that survive the kind filter: a kind that is neither empty nor
/// the word `unknown`.
pub open spec fn keep_item(it: ItemModel) -> bool {
    it.kind.len() > 0 && it.kind != "unknown"@
}

/// Formatted strings that survive the defensive output filter: non-empty
/// and not beginning with the two characters `{}`.
pub open spec fn keep_formatted(f: Seq<char>) -> bool {
    f.len() > 0 && !(f.len() >= 2 && f[0] == '{' && f[1] == '}')
}

/// The formatted strings of the entries that survive both filters, in
/// order.
pub open spec fn sp_render(items: Seq<ItemModel>) -> Seq<Seq<char>>
    decreases items.len(),
{
    if items.len() == 0 {
        Seq::empty()
    } else {
        let rest = sp_render(items.drop_last());
        let it = items.last();
        if keep_item(it) {
            let f = spec_format_item(it);
            if keep_formatted(f) {
                rest.push(f)
            } else {
                rest
            }
        } else {
            rest
        }
    }
}

pub open spec fn string_views(s: Seq<String>) -> Seq<Seq<char>> {
    s.map_values(|x: String| x@)
}

/// Escapes a string for inclusion in a double-quoted JSON literal, exactly
/// as `sp_escape` describes.
fn escape_json_string(s: &str) -> (r: String)
    ensures
        r@ == sp_escape(s@),
{
    let n = s.unicode_len();
    let mut out = String::new();
    let mut i: usize = 0;
    while i < n
        invariant
            n == s@.len(),
            i <= n,
            out@ == sp_escape(s@.subrange(0, i as int)),
        decreases n - i,
    {
        let c = s.get_char(i);
        proof {
            assert(s@.subrange(0, i + 1 as int).drop_last() =~= s@.subrange(0, i as int));
            assert(s@.subrange(0, i + 1 as int).last() == s@[i as int]);
        }
        if c == '"' {
            out.append("\\\"");
        } else if c == '\\' {
            out.append("\\\\");
        } else if c == '\n' {
            out.append("\\n");
        } else if c == '\r' {
            out.append("\\r");
        } else if c == '\t' {
            out.append("\\t");
        } else if control_char(c) {
            out.append("\\u");
            let u = c as u32;
            let d0 = to_hex_digit((u / 4096) % 16);
            let d1 = to_hex_digit((u / 256) % 16);
            let d2 = to_hex_digit((u / 16) % 16);
            let d3 = to_hex_digit(u % 16);
            push_char(&mut out, d0);
            push_char(&mut out, d1);
            push_char(&mut out, d2);
            push_char(&mut out, d3);
            proof {
                assert(esc_char(c) =~= "\\u"@ + hex4_of(c as u32));
            }
        } else {
            push_char(&mut out, c);
        }
        proof {
            assert(out@ =~= sp_escape(s@.subrange(0, i + 1 as int)));
        }
        i += 1;
    }
    proof {
        assert(s@.subrange(0, n as int) =~= s@);
    }
    out
}

/// Serializes in the compact form, exactly as `sp_compact` describes.
fn format_json_compact(strings: &Vec<String>) -> (r: String)
    ensures
        r@ == sp_compact(string_views(strings@)),
{
    let ghost views = string_views(strings@);
    let mut out = String::from_str("[");
    let mut i: usize = 0;
    while i < strings.len()
        invariant
            i <= strings.len(),
            views == string_views(strings@),
            views.len() == strings@.len(),
            out@ == "["@ + join_quoted(views.subrange(0, i as int)),
        decreases strings.len() - i,
    {
        if i > 0 {
            out.append(",");
        }
        out.append("\"");
        let e = escape_json_string(strings[i].as_str());
        out.append(e.as_str());
        out.append("\"");
        proof {
            assert(views.subrange(0, i + 1 as int).drop_last() =~= views.subrange(0, i as int));
            assert(views.subrange(0, i + 1 as int).last() == views[i as int]);
            assert(views[i as int] == strings@[i as int]@);
            assert(out@ =~= "["@ + join_quoted(views.subrange(0, i + 1 as int)));
        }
        i += 1;
    }
    out.append("]");
    proof {
        assert(views.subrange(0, strings@.len() as int) =~= views);
    }
    out
}

/// Serializes in the pretty form, exactly as `sp_pretty` describes.
fn format_json_pretty(strings: &Vec<String>) -> (r: String)
    ensures
        r@ == sp_pretty(string_views(strings@)),
{
    let ghost views = string_views(strings@);
    let n = strings.len();
    if n == 0 {
        return String::from_str("[]");
    }
    let mut out = String::from_str("[\n");
    let mut i: usize = 0;
    while i < n - 1
        invariant
            n == strings.len(),
            n >= 1,
            i <= n - 1,
            views == string_views(strings@),
            views.len() == n,
            out@ == "[\n"@ + sp_pretty_comma_lines(views.subrange(0, i as int)),
        decreases n - 1 - i,
    {
        out.append("  \"");
        let e = escape_json_string(strings[i].as_str());
        out.append(e.as_str());
        out.append("\"");
        out.append(",");
        out.append("\n");
        proof {
            assert(views.subrange(0, i + 1 as int).drop_last() =~= views.subrange(0, i as int));
            assert(views.subrange(0, i + 1 as int).last() == views[i as int]);
            assert(views[i as int] == strings@[i as int]@);
            assert(out@ =~= "[\n"@ + sp_pretty_comma_lines(views.subrange(0, i + 1 as int)));
        }
        i += 1;
    }
    out.append("  \"");
    let e = escape_json_string(strings[n - 1].as_str());
    out.append(e.as_str());
    out.append("\"");
    out.append("\n");
    out.append("]");
    proof {
        assert(views.subrange(0, n - 1 as int) =~= views.drop_last());
        assert(views.last() == strings@[n - 1]@);
        assert(out@ =~= sp_pretty(views));
    }
    out
}

/// The conversion pipeline's public face.
pub struct Converter;

impl Converter {
    /// Parses raw interface-description text to entries: succeeds exactly
    /// when the specification parser accepts the text from its start.
    pub fn parse_abi_content(content: &str) -> (r: Result<Vec<AbiItem>, String>)
        ensures
            match r {
                Ok(items) => sp_parse_abi(content@, 0) == Some(item_models(items@)),
                Err(_) => sp_parse_abi(content@, 0) is None,
            },
    {
        let mut parser = JsonParser::new(content);
        parser.parse_abi()
    }

    /// Renders the entries that survive filtering, in order: entries with
    /// an empty or `unknown` kind are dropped, and so is any formatted
    /// string that is empty or begins with `{}`.
    pub fn convert_to_human_readable(abi: &Vec<AbiItem>) -> (r: Vec<String>)
        ensures
            string_views(r@) == sp_render(item_models(abi@)),
    {
        let mut out: Vec<String> = Vec::new();
        let mut i: usize = 0;
        while i < abi.len()
            invariant
                i <= abi.len(),
                string_views(out@) == sp_render(item_models(abi@).subrange(0, i as int)),
            decreases abi.len() - i,
        {
            let ghost ims = item_models(abi@);
            proof {
                assert(ims.subrange(0, i + 1 as int).drop_last() =~= ims.subrange(0, i as int));
                assert(ims.subrange(0, i + 1 as int).last() == ims[i as int]);
                assert(ims[i as int] == item_model(abi@[i as int]));
            }
            let item = &abi[i];
            let keep = item.kind.as_str().unicode_len() > 0 && !str_eq(
                item.kind.as_str(),
                "unknown",
            );
            if keep {
                let formatted = item.format_signature();
                let fl = formatted.as_str().unicode_len();
                let mut keep2 = fl > 0;
                if keep2 && fl >= 2 {
                    if formatted.as_str().get_char(0) == '{' && formatted.as_str().get_char(1)
                        == '}' {
                        keep2 = false;
                    }
                }
                if keep2 {
                    let ghost before = out@;
                    out.push(formatted);
                    proof {
                        assert(out@.drop_last() =~= before);
                        assert(string_views(out@) =~= string_views(before).push(formatted@));
                    }
                }
            }
            i += 1;
        }
        proof {
            assert(item_models(abi@).subrange(0, abi@.len() as int) =~= item_models(abi@));
        }
        out
    }

    /// Serializes the formatted strings as a JSON array, byte-exactly in
    /// one of the two modes.
    pub fn format_as_json_array(human_readable: &Vec<String>, pretty: bool) -> (r: String)
        ensures
            r@ == (if pretty {
                sp_pretty(string_views(human_readable@))
            } else {
                sp_compact(string_views(human_readable@))
            }),
    {
        if pretty {
            format_json_pretty(human_readable)
        } else {
            format_json_compact(human_readable)
        }
    }
}

} // verus!
