//! Aggregates of stream windows: counting, first and last values, and the list of values;
//! the float reductions are computed by the caller.
use vstd::prelude::*;
use crate::flow::{event_views, EventView, StreamEvent};
use crate::text::{lowercase, string_of, to_lowercase};
use crate::value::{models, Value, ValueView};

verus! {

/// Whether an aggregate is one of the float reductions: `sum`, `mean`, `avg`, `min`, `max`.
pub open spec fn float_aggregate(op: Seq<char>) -> bool {
    op == "sum"@ || op == "mean"@ || op == "avg"@ || op == "min"@ || op == "max"@
}

/// The aggregate of one window under the lower-cased operation `op`: nothing for an empty
/// window; the number of events for `count`; for a float reduction, `float_agg`, which the caller
/// computes; the first or last value for `first` and `last`; otherwise the list of values.
pub open spec fn aggregate_spec(win: Seq<EventView>, op: Seq<char>, float_agg: ValueView) -> ValueView {
    if win.len() == 0 {
        ValueView::Nil
    } else if op == "count"@ {
        ValueView::Int(win.len() as i64)
    } else if float_aggregate(op) {
        float_agg
    } else if op == "first"@ {
        win[0].value
    } else if op == "last"@ {
        win.last().value
    } else {
        ValueView::Array(Seq::new(win.len(), |i: int| win[i].value))
    }
}

/// The aggregate of a window under the operation `agg_op`, compared after lower-casing (see
/// `aggregate_spec`); `float_agg` is the float reduction of the window where one is asked for.
pub fn aggregate_window(win: &Vec<StreamEvent>, agg_op: &str, float_agg: Value) -> (r: Value)
    ensures
        r@ == aggregate_spec(event_views(win@), lowercase(agg_op@), float_agg@),
{
    let ghost e = event_views(win@);
    let op = to_lowercase(agg_op);
    let n = win.len();
    if n == 0 {
        return Value::Nil;
    }
    if op == string_of("count") {
        #[verifier::truncate]
        let c = n as i64;
        return Value::Int(c);
    }
    if op == string_of("sum") || op == string_of("mean") || op == string_of("avg") || op == string_of(
        "min",
    ) || op == string_of("max") {
        return float_agg;
    }
    if op == string_of("first") {
        return win[0].value.copy();
    }
    if op == string_of("last") {
        return win[n - 1].value.copy();
    }
    let mut out: Vec<Value> = Vec::new();
    let mut i: usize = 0;
    while i < n
        invariant
            i <= n == win@.len(),
            e == event_views(win@),
            models(out@) == Seq::new(i as nat, |k: int| e[k].value),
        decreases n - i,
    {
        let v = win[i].value.copy();
        proof {
            crate::value::lemma_models_push(out@, v);
            assert(e[i as int] == win@[i as int]@);
        }
        out.push(v);
        i = i + 1;
        assert(models(out@) =~= Seq::new(i as nat, |k: int| e[k].value));
    }
    Value::Array(out)
}

} // verus!
