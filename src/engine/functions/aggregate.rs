//! COUNT and SUM over the contexts of all matches.
use vstd::prelude::*;

use crate::engine::functions::{EvalContext, FunctionError, FunctionResult};
use crate::graph::Graph;
use crate::parser::ast::{AggregateExpression, AggregateFunction};
use crate::value::{JsonNumber, JsonValue};

verus! {

/// `a + b` with two's-complement wrap-around.
pub open spec fn wrap_add(a: i64, b: i64) -> i64 {
    let s = a as int + b as int;
    if s > i64::MAX {
        (s - 0x1_0000_0000_0000_0000) as i64
    } else if s < i64::MIN {
        (s + 0x1_0000_0000_0000_0000) as i64
    } else {
        s as i64
    }
}

/// What one context adds to a SUM: the integer property of the bound node,
/// or 0 where the variable is unbound or the property is missing or not an
/// integer.
pub open spec fn sum_term(agg: AggregateExpression, ctx: Map<Seq<char>, usize>, g: Graph) -> i64 {
    if ctx.contains_key(agg.variable@) {
        match agg.property {
            Some(p) => match g.nodes@[ctx[agg.variable@] as int].spec_property_i64(p@) {
                Some(v) => v,
                None => 0,
            },
            None => 0,
        }
    } else {
        0
    }
}

/// The SUM over a sequence of contexts, accumulated in order.
pub open spec fn sum_over(agg: AggregateExpression, ctxs: Seq<Map<Seq<char>, usize>>, g: Graph) -> i64
    decreases ctxs.len(),
{
    if ctxs.len() == 0 {
        0
    } else {
        wrap_add(sum_over(agg, ctxs.drop_last(), g), sum_term(agg, ctxs.last(), g))
    }
}

/// The value of an aggregate over a sequence of contexts.
pub open spec fn aggregate_value(agg: AggregateExpression, ctxs: Seq<Map<Seq<char>, usize>>, g: Graph) -> i64 {
    match agg.func {
        AggregateFunction::Count => ctxs.len() as i64,
        AggregateFunction::Sum => sum_over(agg, ctxs, g),
    }
}

/// The views of a sequence of contexts.
pub open spec fn context_views(ctxs: Seq<EvalContext>) -> Seq<Map<Seq<char>, usize>> {
    ctxs.map_values(|c: EvalContext| c@)
}

/// Every context binds `var`, if at all, to a node of `g`.
pub open spec fn contexts_in_graph(ctxs: Seq<Map<Seq<char>, usize>>, var: Seq<char>, g: Graph) -> bool {
    forall|i: int|
        0 <= i < ctxs.len() && #[trigger] ctxs[i].contains_key(var) ==> ctxs[i][var]
            < g.nodes@.len()
}

/// The name of an aggregate function, in capitals.
pub open spec fn function_name(f: AggregateFunction) -> Seq<char> {
    match f {
        AggregateFunction::Count => seq!['C', 'O', 'U', 'N', 'T'],
        AggregateFunction::Sum => seq!['S', 'U', 'M'],
    }
}

/// `FUNC(var)` or `FUNC(var.prop)`.
pub open spec fn aggregate_column(agg: AggregateExpression) -> Seq<char> {
    function_name(agg.func) + seq!['('] + agg.variable@ + match agg.property {
        Some(p) => seq!['.'] + p@,
        None => Seq::empty(),
    } + seq![')']
}

fn add_wrapping(a: i64, b: i64) -> (r: i64)
    ensures
        r == wrap_add(a, b),
{
    let s: i128 = a as i128 + b as i128;
    if s > 9223372036854775807i128 {
        (s - 0x1_0000_0000_0000_0000i128) as i64
    } else if s < -9223372036854775808i128 {
        (s + 0x1_0000_0000_0000_0000i128) as i64
    } else {
        s as i64
    }
}

/// Evaluates aggregate functions.
#[derive(Debug)]
pub struct AggregateEvaluator;

impl AggregateEvaluator {
    /// The value of `agg` over all contexts: COUNT is their number, SUM adds
    /// up the integer property of the bound node with wrap-around.
    pub fn evaluate(agg: &AggregateExpression, contexts: &[EvalContext], graph: &Graph) -> (r:
        FunctionResult<JsonValue>)
        requires
            contexts_in_graph(context_views(contexts@), agg.variable@, *graph),
        ensures
            r == Ok::<JsonValue, FunctionError>(
                JsonValue::Number(
                    JsonNumber::Int(aggregate_value(*agg, context_views(contexts@), *graph)),
                ),
            ),
    {
        match agg.func {
            AggregateFunction::Count => Self::count(contexts),
            AggregateFunction::Sum => Self::sum(agg, contexts, graph),
        }
    }

    fn count(contexts: &[EvalContext]) -> (r: FunctionResult<JsonValue>)
        ensures
            r == Ok::<JsonValue, FunctionError>(
                JsonValue::Number(JsonNumber::Int(contexts@.len() as i64)),
            ),
    {
        Ok(JsonValue::Number(JsonNumber::Int(contexts.len() as i64)))
    }

    fn sum(agg: &AggregateExpression, contexts: &[EvalContext], graph: &Graph) -> (r:
        FunctionResult<JsonValue>)
        requires
            contexts_in_graph(context_views(contexts@), agg.variable@, *graph),
        ensures
            r == Ok::<JsonValue, FunctionError>(
                JsonValue::Number(JsonNumber::Int(sum_over(*agg, context_views(contexts@), *graph))),
            ),
    {
        let mut sum: i64 = 0;
        let mut i: usize = 0;
        while i < contexts.len()
            invariant
                i <= contexts@.len(),
                contexts_in_graph(context_views(contexts@), agg.variable@, *graph),
                sum == sum_over(*agg, context_views(contexts@).subrange(0, i as int), *graph),
            decreases contexts.len() - i,
        {
            let ghost views = context_views(contexts@);
            proof {
                assert(views.subrange(0, i + 1).drop_last() == views.subrange(0, i as int));
                assert(views[i as int] == contexts@[i as int]@);
            }
            let mut term: i64 = 0;
            if let Some(node_idx) = contexts[i].get_binding(agg.variable.as_str()) {
                let node = &graph.nodes[node_idx];
                if let Some(prop) = &agg.property {
                    if let Some(v) = node.get_property_as_i64(prop.as_str()) {
                        term = v;
                    }
                }
            }
            sum = add_wrapping(sum, term);
            i = i + 1;
        }
        proof {
            assert(context_views(contexts@).subrange(0, i as int) == context_views(contexts@));
        }
        Ok(JsonValue::Number(JsonNumber::Int(sum)))
    }

    /// The default column name of an aggregate: `FUNC(var)` or `FUNC(var.prop)`.
    pub fn column_name(agg: &AggregateExpression) -> (r: String)
        ensures
            r@ == aggregate_column(*agg),
    {
        let name = match agg.func {
            AggregateFunction::Count => {
                proof {
                    reveal_strlit("COUNT(");
                }
                String::from_str("COUNT(")
            },
            AggregateFunction::Sum => {
                proof {
                    reveal_strlit("SUM(");
                }
                String::from_str("SUM(")
            },
        };
        let mut r = name.concat(agg.variable.as_str());
        if let Some(p) = &agg.property {
            proof {
                reveal_strlit(".");
            }
            r = r.concat(".").concat(p.as_str());
        }
        proof {
            reveal_strlit(")");
        }
        r = r.concat(")");
        proof {
            let ghost tail = match &agg.property {
                Some(p) => seq!['.'] + p@,
                None => Seq::<char>::empty(),
            };
            assert(r@ =~= function_name(agg.func) + seq!['('] + agg.variable@ + tail + seq![')']);
        }
        r
    }

    /// AVG is not provided yet.
    pub fn avg(agg: &AggregateExpression, contexts: &[EvalContext], graph: &Graph) -> (r:
        FunctionResult<JsonValue>)
        ensures
            r matches Err(FunctionError::NotImplemented(name)) && name@ == seq!['A', 'V', 'G'],
    {
        proof {
            reveal_strlit("AVG");
        }
        Err(FunctionError::NotImplemented(String::from_str("AVG")))
    }

    /// MIN is not provided yet.
    pub fn min(agg: &AggregateExpression, contexts: &[EvalContext], graph: &Graph) -> (r:
        FunctionResult<JsonValue>)
        ensures
            r matches Err(FunctionError::NotImplemented(name)) && name@ == seq!['M', 'I', 'N'],
    {
        proof {
            reveal_strlit("MIN");
        }
        Err(FunctionError::NotImplemented(String::from_str("MIN")))
    }

    /// MAX is not provided yet.
    pub fn max(agg: &AggregateExpression, contexts: &[EvalContext], graph: &Graph) -> (r:
        FunctionResult<JsonValue>)
        ensures
            r matches Err(FunctionError::NotImplemented(name)) && name@ == seq!['M', 'A', 'X'],
    {
        proof {
            reveal_strlit("MAX");
        }
        Err(FunctionError::NotImplemented(String::from_str("MAX")))
    }
}

} // verus!
