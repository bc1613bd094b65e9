//! Typed interface entries extracted from the parsed value tree, and the
//! deterministic formatter that renders one entry into its canonical
//! human-readable signature string.

use vstd::prelude::*;
use crate::chars::str_eq;

verus! {

/// One input slot of an entry: named or unnamed, possibly indexed (events
/// only), possibly a tuple with nested components.
#[derive(Debug)]
pub struct AbiInput {
    pub name: Option<String>,
    pub type_str: String,
    pub indexed: Option<bool>,
    pub internal_type: Option<String>,
    pub components: Option<Vec<AbiInput>>,
}

/// One output slot of an entry: the same shape as an input minus `indexed`.
#[derive(Debug)]
pub struct AbiOutput {
    pub name: Option<String>,
    pub type_str: String,
    pub internal_type: Option<String>,
    pub components: Option<Vec<AbiOutput>>,
}

/// One entry of a contract interface. Only `kind` is always present; the
/// absence of every other field is meaningful and is preserved, except that
/// a missing mutability defaults to `nonpayable` at render time.
#[derive(Debug)]
pub struct AbiItem {
    pub kind: String,
    pub name: Option<String>,
    pub inputs: Option<Vec<AbiInput>>,
    pub outputs: Option<Vec<AbiOutput>>,
    pub state_mutability: Option<String>,
    pub anonymous: Option<bool>,
    pub payable: Option<bool>,
    pub constant: Option<bool>,
}

/// The mathematical model of an input parameter.
pub struct ParamModel {
    pub name: Option<Seq<char>>,
    pub type_str: Seq<char>,
    pub indexed: Option<bool>,
    pub internal_type: Option<Seq<char>>,
    pub components: Option<Seq<ParamModel>>,
}

/// The mathematical model of an output parameter.
pub struct OutModel {
    pub name: Option<Seq<char>>,
    pub type_str: Seq<char>,
    pub internal_type: Option<Seq<char>>,
    pub components: Option<Seq<OutModel>>,
}

/// The mathematical model of an interface entry.
pub struct ItemModel {
    pub kind: Seq<char>,
    pub name: Option<Seq<char>>,
    pub inputs: Option<Seq<ParamModel>>,
    pub outputs: Option<Seq<OutModel>>,
    pub state_mutability: Option<Seq<char>>,
    pub anonymous: Option<bool>,
    pub payable: Option<bool>,
    pub constant: Option<bool>,
}

pub open spec fn opt_str_model(s: Option<String>) -> Option<Seq<char>> {
    match s {
        Some(t) => Some(t@),
        None => None,
    }
}

pub open spec fn input_model(p: AbiInput) -> ParamModel
    decreases p, 1int,
    when true
    via input_model_via
{
    ParamModel {
        name: opt_str_model(p.name),
        type_str: p.type_str@,
        indexed: p.indexed,
        internal_type: opt_str_model(p.internal_type),
        components: match p.components {
            Some(v) => Some(input_models(v@)),
            None => None,
        },
    }
}

#[via_fn]
proof fn input_model_via(p: AbiInput) {
    match p.components {
        Some(v) => {
            assert(decreases_to!(p => v));
            assert(decreases_to!(v => v@));
        },
        None => {},
    }
}

/// The models of a sequence of input parameters, in order.
pub open spec fn input_models(s: Seq<AbiInput>) -> Seq<ParamModel>
    decreases s, 0int,
{
    if s.len() == 0 {
        Seq::empty()
    } else {
        input_models(s.drop_last()).push(input_model(s.last()))
    }
}

pub open spec fn output_model(p: AbiOutput) -> OutModel
    decreases p, 1int,
    when true
    via output_model_via
{
    OutModel {
        name: opt_str_model(p.name),
        type_str: p.type_str@,
        internal_type: opt_str_model(p.internal_type),
        components: match p.components {
            Some(v) => Some(output_models(v@)),
            None => None,
        },
    }
}

#[via_fn]
proof fn output_model_via(p: AbiOutput) {
    match p.components {
        Some(v) => {
            assert(decreases_to!(p => v));
            assert(decreases_to!(v => v@));
        },
        None => {},
    }
}

/// The models of a sequence of output parameters, in order.
pub open spec fn output_models(s: Seq<AbiOutput>) -> Seq<OutModel>
    decreases s, 0int,
{
    if s.len() == 0 {
        Seq::empty()
    } else {
        output_models(s.drop_last()).push(output_model(s.last()))
    }
}

pub proof fn lemma_input_models(s: Seq<AbiInput>)
    ensures
        input_models(s).len() == s.len(),
        forall|i: int| 0 <= i < s.len() ==> input_models(s)[i] == input_model(s[i]),
    decreases s.len(),
{
    if s.len() > 0 {
        lemma_input_models(s.drop_last());
    }
}

pub proof fn lemma_output_models(s: Seq<AbiOutput>)
    ensures
        output_models(s).len() == s.len(),
        forall|i: int| 0 <= i < s.len() ==> output_models(s)[i] == output_model(s[i]),
    decreases s.len(),
{
    if s.len() > 0 {
        lemma_output_models(s.drop_last());
    }
}

/// The models of a sequence of entries, in order.
pub open spec fn item_models(s: Seq<AbiItem>) -> Seq<ItemModel> {
    s.map_values(|it: AbiItem| item_model(it))
}

pub open spec fn item_model(it: AbiItem) -> ItemModel {
    ItemModel {
        kind: it.kind@,
        name: opt_str_model(it.name),
        inputs: match it.inputs {
            Some(v) => Some(input_models(v@)),
            None => None,
        },
        outputs: match it.outputs {
            Some(v) => Some(output_models(v@)),
            None => None,
        },
        state_mutability: opt_str_model(it.state_mutability),
        anonymous: it.anonymous,
        payable: it.payable,
        constant: it.constant,
    }
}

/// `<type> <name>` when a name is present, else just `<type>`.
pub open spec fn plain_param_str(p: ParamModel) -> Seq<char> {
    match p.name {
        Some(n) => p.type_str + " "@ + n,
        None => p.type_str,
    }
}

/// As `plain_param_str`, with the word `indexed` spliced in after the type
/// when the parameter carries a true `indexed` flag.
pub open spec fn event_param_str(p: ParamModel) -> Seq<char> {
    let t = if p.indexed == Some(true) {
        p.type_str + " indexed"@
    } else {
        p.type_str
    };
    match p.name {
        Some(n) => t + " "@ + n,
        None => t,
    }
}

/// `<type> <name>` when the name is present and non-empty, else `<type>`.
pub open spec fn out_param_str(p: OutModel) -> Seq<char> {
    match p.name {
        Some(n) => if n.len() > 0 {
            p.type_str + " "@ + n
        } else {
            p.type_str
        },
        None => p.type_str,
    }
}

/// Parts joined by `", "`, with no trailing separator.
pub open spec fn join_comma(parts: Seq<Seq<char>>) -> Seq<char>
    decreases parts.len(),
{
    if parts.len() == 0 {
        Seq::empty()
    } else if parts.len() == 1 {
        parts[0]
    } else {
        join_comma(parts.drop_last()) + ", "@ + parts.last()
    }
}

pub open spec fn opt_name_str(name: Option<Seq<char>>) -> Seq<char> {
    match name {
        Some(n) => n,
        None => Seq::empty(),
    }
}

pub open spec fn item_mutability(it: ItemModel) -> Seq<char> {
    match it.state_mutability {
        Some(m) => m,
        None => "nonpayable"@,
    }
}

/// The canonical human-readable signature of one entry, keyed on its kind.
pub open spec fn spec_format_item(it: ItemModel) -> Seq<char> {
    let vis = item_mutability(it);
    if it.kind == "constructor"@ {
        let params = match it.inputs {
            Some(ins) => join_comma(ins.map_values(|p: ParamModel| plain_param_str(p))),
            None => Seq::empty(),
        };
        "constructor("@ + params + ")"@
    } else if it.kind == "event"@ {
        let params = match it.inputs {
            Some(ins) => join_comma(ins.map_values(|p: ParamModel| event_param_str(p))),
            None => Seq::empty(),
        };
        "event "@ + opt_name_str(it.name) + "("@ + params + ")"@
    } else if it.kind == "function"@ {
        let params = match it.inputs {
            Some(ins) => join_comma(ins.map_values(|p: ParamModel| plain_param_str(p))),
            None => Seq::empty(),
        };
        let rets = match it.outputs {
            Some(outs) => if outs.len() > 0 {
                " returns ("@ + join_comma(outs.map_values(|p: OutModel| out_param_str(p))) + ")"@
            } else {
                Seq::empty()
            },
            None => Seq::empty(),
        };
        let vis_part = if vis != "nonpayable"@ {
            " "@ + vis
        } else {
            Seq::empty()
        };
        "function "@ + opt_name_str(it.name) + "("@ + params + ")"@ + vis_part + rets
    } else if it.kind == "fallback"@ {
        if vis == "payable"@ {
            "fallback() external payable"@
        } else {
            "fallback() external"@
        }
    } else if it.kind == "receive"@ {
        "receive() external payable"@
    } else {
        "unknown"@
    }
}

fn join_plain_inputs(inputs: &Vec<AbiInput>) -> (r: String)
    ensures
        r@ == join_comma(input_models(inputs@).map_values(|p: ParamModel| plain_param_str(p))),
{
    let ghost parts = input_models(inputs@).map_values(|p: ParamModel| plain_param_str(p));
    proof {
        lemma_input_models(inputs@);
    }
    let mut out = String::new();
    let mut i: usize = 0;
    while i < inputs.len()
        invariant
            i <= inputs.len(),
            parts == input_models(inputs@).map_values(|p: ParamModel| plain_param_str(p)),
            parts.len() == inputs.len(),
            out@ == join_comma(parts.subrange(0, i as int)),
        decreases inputs.len() - i,
    {
        if i > 0 {
            out.append(", ");
        }
        out.append(inputs[i].type_str.as_str());
        match &inputs[i].name {
            Some(n) => {
                out.append(" ");
                out.append(n.as_str());
            },
            None => {},
        }
        proof {
            lemma_input_models(inputs@);
            assert(parts.subrange(0, i + 1 as int).drop_last() =~= parts.subrange(0, i as int));
            assert(parts.subrange(0, i + 1 as int).last() == parts[i as int]);
            assert(parts[i as int] == plain_param_str(input_model(inputs@[i as int])));
        }
        i += 1;
    }
    proof {
        assert(parts.subrange(0, inputs@.len() as int) =~= parts);
    }
    out
}

fn join_event_inputs(inputs: &Vec<AbiInput>) -> (r: String)
    ensures
        r@ == join_comma(input_models(inputs@).map_values(|p: ParamModel| event_param_str(p))),
{
    let ghost parts = input_models(inputs@).map_values(|p: ParamModel| event_param_str(p));
    proof {
        lemma_input_models(inputs@);
    }
    let mut out = String::new();
    let mut i: usize = 0;
    while i < inputs.len()
        invariant
            i <= inputs.len(),
            parts == input_models(inputs@).map_values(|p: ParamModel| event_param_str(p)),
            parts.len() == inputs.len(),
            out@ == join_comma(parts.subrange(0, i as int)),
        decreases inputs.len() - i,
    {
        if i > 0 {
            out.append(", ");
        }
        out.append(inputs[i].type_str.as_str());
        let indexed = match &inputs[i].indexed {
            Some(b) => *b,
            None => false,
        };
        if indexed {
            out.append(" indexed");
        }
        match &inputs[i].name {
            Some(n) => {
                out.append(" ");
                out.append(n.as_str());
            },
            None => {},
        }
        proof {
            lemma_input_models(inputs@);
            assert(parts.subrange(0, i + 1 as int).drop_last() =~= parts.subrange(0, i as int));
            assert(parts.subrange(0, i + 1 as int).last() == parts[i as int]);
            assert(parts[i as int] == event_param_str(input_model(inputs@[i as int])));
        }
        i += 1;
    }
    proof {
        assert(parts.subrange(0, inputs@.len() as int) =~= parts);
    }
    out
}

fn join_outputs(outputs: &Vec<AbiOutput>) -> (r: String)
    ensures
        r@ == join_comma(output_models(outputs@).map_values(|p: OutModel| out_param_str(p))),
{
    let ghost parts = output_models(outputs@).map_values(|p: OutModel| out_param_str(p));
    proof {
        lemma_output_models(outputs@);
    }
    let mut out = String::new();
    let mut i: usize = 0;
    while i < outputs.len()
        invariant
            i <= outputs.len(),
            parts == output_models(outputs@).map_values(|p: OutModel| out_param_str(p)),
            parts.len() == outputs.len(),
            out@ == join_comma(parts.subrange(0, i as int)),
        decreases outputs.len() - i,
    {
        if i > 0 {
            out.append(", ");
        }
        out.append(outputs[i].type_str.as_str());
        let named = match &outputs[i].name {
            Some(n) => n.as_str().unicode_len() > 0,
            None => false,
        };
        if named {
            out.append(" ");
            match &outputs[i].name {
                Some(n) => out.append(n.as_str()),
                None => {},
            }
        }
        proof {
            lemma_output_models(outputs@);
            assert(parts.subrange(0, i + 1 as int).drop_last() =~= parts.subrange(0, i as int));
            assert(parts.subrange(0, i + 1 as int).last() == parts[i as int]);
            assert(parts[i as int] == out_param_str(output_model(outputs@[i as int])));
        }
        i += 1;
    }
    proof {
        assert(parts.subrange(0, outputs@.len() as int) =~= parts);
    }
    out
}

impl AbiItem {
    /// Renders this entry to its canonical signature string. Formatting is a
    /// pure function of the entry value: the result is fully determined by
    /// `spec_format_item` of the entry's model.
    pub fn format_signature(&self) -> (r: String)
        ensures
            r@ == spec_format_item(item_model(*self)),
    {
        let vis: &str = match &self.state_mutability {
            Some(m) => m.as_str(),
            None => "nonpayable",
        };
        proof {
            reveal_strlit("");
        }
        if str_eq(self.kind.as_str(), "constructor") {
            let mut out = String::from_str("constructor(");
            match &self.inputs {
                Some(ins) => {
                    let params = join_plain_inputs(ins);
                    out.append(params.as_str());
                },
                None => {},
            }
            out.append(")");
            out
        } else if str_eq(self.kind.as_str(), "event") {
            let mut out = String::from_str("event ");
            match &self.name {
                Some(n) => out.append(n.as_str()),
                None => {},
            }
            out.append("(");
            match &self.inputs {
                Some(ins) => {
                    let params = join_event_inputs(ins);
                    out.append(params.as_str());
                },
                None => {},
            }
            out.append(")");
            out
        } else if str_eq(self.kind.as_str(), "function") {
            let mut out = String::from_str("function ");
            match &self.name {
                Some(n) => out.append(n.as_str()),
                None => {},
            }
            out.append("(");
            match &self.inputs {
                Some(ins) => {
                    let params = join_plain_inputs(ins);
                    out.append(params.as_str());
                },
                None => {},
            }
            out.append(")");
            if !str_eq(vis, "nonpayable") {
                out.append(" ");
                out.append(vis);
            }
            match &self.outputs {
                Some(outs) => {
                    if outs.len() > 0 {
                        out.append(" returns (");
                        let rets = join_outputs(outs);
                        out.append(rets.as_str());
                        out.append(")");
                    }
                },
                None => {},
            }
            out
        } else if str_eq(self.kind.as_str(), "fallback") {
            if str_eq(vis, "payable") {
                String::from_str("fallback() external payable")
            } else {
                String::from_str("fallback() external")
            }
        } else if str_eq(self.kind.as_str(), "receive") {
            String::from_str("receive() external payable")
        } else {
            String::from_str("unknown")
        }
    }
}

} // verus!
