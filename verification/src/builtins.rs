//! Built-in functions of the language that compute on plain values.
use vstd::prelude::*;
use crate::strsort::{sort_strings, sorted_strict, string_views};
use crate::text::{chars_equal, chars_of, push_str, string_of};
use crate::value::{lemma_entry_models, lemma_models, lemma_models_push, models, Value, ValueView};

verus! {

/// Whether `v` lies before `end` in the direction of `step`.
pub open spec fn before_end(v: int, end: int, step: int) -> bool {
    if step > 0 { v < end } else { v > end }
}

/// The list that `range(start, end, step)` gives: `start`, `start + step`, ... for as long as
/// the values lie before `end`; empty for a step of 0.
pub open spec fn is_range(r: Seq<ValueView>, start: i64, end: i64, step: i64) -> bool {
    &&& forall|k: int|
        0 <= k < r.len() ==> #[trigger] r[k] == ValueView::Int((start + k * step) as i64) && i64::MIN
            <= start + k * step <= i64::MAX && before_end(start + k * step, end as int, step as int)
    &&& step == 0 ==> r.len() == 0
    &&& step != 0 ==> !before_end(start + r.len() * step, end as int, step as int)
}

/// The integer argument at `i`, if it is one.
pub open spec fn int_arg(args: Seq<ValueView>, i: int) -> Option<i64> {
    match args[i] {
        ValueView::Int(x) => Some(x),
        _ => None,
    }
}

/// The bounds that `range` reads from its arguments, or the message for a bad argument.
pub open spec fn range_bounds(args: Seq<ValueView>) -> Result<(i64, i64, i64), Seq<char>> {
    if args.len() == 0 {
        Err("range(end) or range(start, end, step?) expects arguments"@)
    } else if args.len() == 1 {
        match int_arg(args, 0) {
            Some(e) => Ok((0i64, e, 1i64)),
            None => Err("range() arguments must be integers"@),
        }
    } else {
        match int_arg(args, 0) {
            None => Err("range() start must be int"@),
            Some(s) => match int_arg(args, 1) {
                None => Err("range() end must be int"@),
                Some(e) => if args.len() == 2 {
                    Ok((s, e, 1i64))
                } else {
                    match int_arg(args, 2) {
                        None => Err("range() step must be int"@),
                        Some(st) => Ok((s, e, st)),
                    }
                },
            },
        }
    }
}

fn int_at(args: &Vec<Value>, i: usize) -> (r: Option<i64>)
    requires
        i < args@.len(),
    ensures
        r == int_arg(models(args@), i as int),
{
    proof {
        lemma_models(args@);
    }
    match &args[i] {
        Value::Int(x) => Some(*x),
        _ => None,
    }
}

/// The values of `range` for these bounds.
pub fn range_values(start: i64, end: i64, step: i64) -> (r: Vec<Value>)
    ensures
        is_range(models(r@), start, end, step),
{
    let mut out: Vec<Value> = Vec::new();
    proof {
        lemma_models(out@);
    }
    if step == 0 {
        return out;
    }
    let mut curr = start;
    let ghost mut k: int = 0;
    loop
        invariant_except_break
            curr == start + k * step,
        invariant
            step != 0,
            k == out@.len(),
            forall|j: int|
                0 <= j < k ==> #[trigger] models(out@)[j] == ValueView::Int((start + j * step) as i64)
                    && i64::MIN <= start + j * step <= i64::MAX && before_end(
                    start + j * step,
                    end as int,
                    step as int,
                ),
        ensures
            !before_end(start + k * step, end as int, step as int),
        decreases (if step > 0 {
            if curr < end { end - curr } else { 0 }
        } else {
            if curr > end { curr - end } else { 0 }
        }),
    {
        let go = if step > 0 { curr < end } else { curr > end };
        if !go {
            break;
        }
        let ghost before = out@;
        let ghost old_curr = curr;
        out.push(Value::Int(curr));
        proof {
            lemma_models_push(before, Value::Int(curr));
            lemma_models(before);
            lemma_models(out@);
            let k0 = k;
            assert forall|j: int| 0 <= j < k0 + 1 implies #[trigger] models(out@)[j] == ValueView::Int(
                (start + j * step) as i64,
            ) && i64::MIN <= start + j * step <= i64::MAX && before_end(
                start + j * step,
                end as int,
                step as int,
            ) by {
                if j < k0 {
                    assert(models(out@)[j] == models(before)[j]);
                } else {
                    assert(models(out@)[j] == ValueView::Int(curr));
                }
            }
            assert((k + 1) * step == k * step + step) by (nonlinear_arith);
            k = k + 1;
        }
        match curr.checked_add(step) {
            Some(n) => {
                curr = n;
                assert(curr == old_curr + step);
            },
            None => {
                break;
            },
        }
    }
    proof {
        lemma_models(out@);
    }
    out
}

/// `range(end)`, `range(start, end)` or `range(start, end, step)`: the list of integers from
/// `start` (0 by default) towards `end`, excluded, in steps of `step` (1 by default).
pub fn range_builtin(args: &Vec<Value>) -> (r: Result<Value, String>)
    ensures
        match range_bounds(models(args@)) {
            Ok((s, e, st)) => r matches Ok(Value::Array(items)) && is_range(models(items@), s, e, st),
            Err(m) => r matches Err(msg) && msg@ == m,
        },
{
    proof {
        lemma_models(args@);
    }
    let n = args.len();
    if n == 0 {
        return Err(string_of("range(end) or range(start, end, step?) expects arguments"));
    }
    if n == 1 {
        return match int_at(args, 0) {
            Some(e) => Ok(Value::Array(range_values(0, e, 1))),
            None => Err(string_of("range() arguments must be integers")),
        };
    }
    let s = match int_at(args, 0) {
        Some(s) => s,
        None => return Err(string_of("range() start must be int")),
    };
    let e = match int_at(args, 1) {
        Some(e) => e,
        None => return Err(string_of("range() end must be int")),
    };
    if n == 2 {
        return Ok(Value::Array(range_values(s, e, 1)));
    }
    match int_at(args, 2) {
        Some(st) => Ok(Value::Array(range_values(s, e, st))),
        None => Err(string_of("range() step must be int")),
    }
}


/// The name of a value's type, as error messages print it.
pub open spec fn type_label(v: ValueView) -> Seq<char> {
    match v {
        ValueView::Nil => "nil"@,
        ValueView::Bool(_) => "bool"@,
        ValueView::Int(_) => "int"@,
        ValueView::Float(_) => "float"@,
        ValueView::String(_) => "string"@,
        ValueView::Array(_) => "array"@,
        ValueView::Tuple(_) => "tuple"@,
        ValueView::SetItems(_) => "set"@,
        ValueView::MapEntries(_) => "map"@,
        ValueView::Function(_) => "function"@,
    }
}

fn type_label_of(v: &Value) -> (r: &'static str)
    ensures
        r@ == type_label(v@),
{
    proof {
        reveal_strlit("nil");
        reveal_strlit("bool");
        reveal_strlit("int");
        reveal_strlit("float");
        reveal_strlit("string");
        reveal_strlit("array");
        reveal_strlit("tuple");
        reveal_strlit("set");
        reveal_strlit("map");
        reveal_strlit("function");
    }
    match v {
        Value::Nil => "nil",
        Value::Bool(_) => "bool",
        Value::Int(_) => "int",
        Value::Float(_) => "float",
        Value::String(_) => "string",
        Value::Array(_) => "array",
        Value::Tuple(_) => "tuple",
        Value::SetItems(_) => "set",
        Value::MapEntries(_) => "map",
        Value::Function(_) => "function",
    }
}

/// What `len(x, ...)` gives: the number of characters of a string, of items of a list, tuple
/// or set, or of entries of a map; an error for another value or no argument.
pub open spec fn len_spec(args: Seq<ValueView>) -> Result<ValueView, Seq<char>> {
    if args.len() == 0 {
        Err("len() expects at least 1 argument"@)
    } else {
        match args[0] {
            ValueView::String(s) => Ok(ValueView::Int(s.len() as i64)),
            ValueView::Array(items) => Ok(ValueView::Int(items.len() as i64)),
            ValueView::Tuple(items) => Ok(ValueView::Int(items.len() as i64)),
            ValueView::SetItems(items) => Ok(ValueView::Int(items.len() as i64)),
            ValueView::MapEntries(entries) => Ok(ValueView::Int(entries.len() as i64)),
            other => Err("len() not supported on type '"@ + type_label(other) + "'"@),
        }
    }
}

/// `len(x)`.
pub fn len_builtin(args: &Vec<Value>) -> (r: Result<Value, String>)
    ensures
        match len_spec(models(args@)) {
            Ok(v) => r matches Ok(x) && x@ == v,
            Err(m) => r matches Err(e) && e@ == m,
        },
{
    proof {
        lemma_models(args@);
    }
    if args.len() == 0 {
        return Err(string_of("len() expects at least 1 argument"));
    }
    match &args[0] {
        Value::String(s) => Ok(Value::Int(s.unicode_len() as i64)),
        Value::Array(items) => {
            proof {
                lemma_models(items@);
            }
            Ok(Value::Int(items.len() as i64))
        },
        Value::Tuple(items) => {
            proof {
                lemma_models(items@);
            }
            Ok(Value::Int(items.len() as i64))
        },
        Value::SetItems(items) => {
            proof {
                lemma_models(items@);
            }
            Ok(Value::Int(items.len() as i64))
        },
        Value::MapEntries(entries) => {
            proof {
                lemma_entry_models(entries@);
            }
            Ok(Value::Int(entries.len() as i64))
        },
        other => {
            let mut m = string_of("len() not supported on type '");
            push_str(&mut m, type_label_of(other));
            push_str(&mut m, "'");
            proof {
                reveal_strlit("len() not supported on type '");
                reveal_strlit("'");
            }
            Err(m)
        },
    }
}

/// The keys that a list of map entries holds.
pub open spec fn entry_keys(entries: Seq<(Seq<char>, ValueView)>) -> Set<Seq<char>> {
    Set::new(|k: Seq<char>| exists|i: int| 0 <= i < entries.len() && #[trigger] entries[i].0 == k)
}

/// What `keys(x, ...)` gives for a map: its keys, each once, as texts in increasing order; an
/// error for another value or no argument.
pub open spec fn keys_ok(args: Seq<ValueView>, r: Result<ValueView, Seq<char>>) -> bool {
    if args.len() == 0 {
        r == Err::<ValueView, Seq<char>>("keys(dict) expects 1 argument"@)
    } else {
        match args[0] {
            ValueView::MapEntries(entries) => match r {
                Ok(ValueView::Array(items)) => exists|ks: Seq<Seq<char>>| {
                    &&& items == ks.map_values(|k: Seq<char>| ValueView::String(k))
                    &&& sorted_strict(ks)
                    &&& forall|k: Seq<char>| ks.contains(k) <==> entry_keys(entries).contains(k)
                },
                _ => false,
            },
            other => r == Err::<ValueView, Seq<char>>(
                "keys() expects dictionary, got '"@ + type_label(other) + "'"@,
            ),
        }
    }
}

/// `keys(dict)`.
pub fn keys_builtin(args: &Vec<Value>) -> (r: Result<Value, String>)
    ensures
        keys_ok(models(args@), match r {
            Ok(v) => Ok(v@),
            Err(e) => Err(e@),
        }),
{
    proof {
        lemma_models(args@);
    }
    if args.len() == 0 {
        return Err(string_of("keys(dict) expects 1 argument"));
    }
    match &args[0] {
        Value::MapEntries(entries) => {
            proof {
                lemma_entry_models(entries@);
            }
            let ghost em = crate::value::entry_models(entries@);
            let mut distinct: Vec<String> = Vec::new();
            let mut i: usize = 0;
            while i < entries.len()
                invariant
                    i <= entries@.len(),
                    em == crate::value::entry_models(entries@),
                    em.len() == entries@.len(),
                    forall|j: int| 0 <= j < entries@.len() ==> #[trigger] em[j].0 == entries@[j].0@,
                    forall|a: int, b: int| 0 <= a < b < distinct@.len() ==> #[trigger] distinct@[a]@ != #[trigger] distinct@[b]@,
                    forall|k: Seq<char>| string_views(distinct@).contains(k) <==> exists|j: int| 0 <= j < i && #[trigger] em[j].0 == k,
                decreases entries@.len() - i,
            {
                let key = &entries[i].0;
                let kc = chars_of(key.as_str());
                let mut seen = false;
                let mut j: usize = 0;
                while j < distinct.len()
                    invariant
                        j <= distinct@.len(),
                        kc@ == key@,
                        seen <==> exists|t: int| 0 <= t < j && #[trigger] distinct@[t]@ == key@,
                    decreases distinct@.len() - j,
                {
                    let dc = chars_of(distinct[j].as_str());
                    if chars_equal(&dc, &kc) {
                        seen = true;
                    }
                    j = j + 1;
                }
                let ghost before = distinct@;
                assert(forall|kk: Seq<char>| string_views(before).contains(kk) <==> exists|jj: int| 0 <= jj < i && #[trigger] em[jj].0 == kk);
                if !seen {
                    distinct.push(key.clone());
                }
                proof {
                    assert(em[i as int].0 == key@);
                    assert forall|k: Seq<char>| string_views(distinct@).contains(k) <==> exists|t: int| 0 <= t < i + 1 && #[trigger] em[t].0 == k by {
                        if string_views(distinct@).contains(k) {
                            let t = choose|t: int| 0 <= t < string_views(distinct@).len() && string_views(distinct@)[t] == k;
                            if t < before.len() {
                                assert(string_views(before)[t] == k);
                                assert(string_views(before).contains(k));
                            } else {
                                assert(em[i as int].0 == k);
                            }
                        }
                        if exists|t: int| 0 <= t < i + 1 && #[trigger] em[t].0 == k {
                            let t = choose|t: int| 0 <= t < i + 1 && #[trigger] em[t].0 == k;
                            if t < i {
                                assert(exists|j: int| 0 <= j < i && #[trigger] em[j].0 == k);
                                assert(string_views(before).contains(k));
                                let u = choose|u: int| 0 <= u < string_views(before).len() && string_views(before)[u] == k;
                                assert(string_views(distinct@)[u] == k);
                            } else if seen {
                                let u = choose|u: int| 0 <= u < j && #[trigger] before[u]@ == key@;
                                assert(string_views(distinct@)[u] == k);
                            } else {
                                assert(string_views(distinct@)[before.len() as int] == k);
                            }
                        }
                    }
                }
                i = i + 1;
            }
            let sorted = sort_strings(distinct);
            let mut items: Vec<Value> = Vec::new();
            let mut k: usize = 0;
            while k < sorted.len()
                invariant
                    k <= sorted@.len(),
                    models(items@) == string_views(sorted@).take(k as int).map_values(|t: Seq<char>| ValueView::String(t)),
                decreases sorted@.len() - k,
            {
                let ghost before = items@;
                items.push(Value::String(sorted[k].clone()));
                proof {
                    lemma_models_push(before, Value::String(sorted@[k as int]));
                    assert(string_views(sorted@).take(k + 1).map_values(|t: Seq<char>| ValueView::String(t))
                        =~= string_views(sorted@).take(k as int).map_values(|t: Seq<char>| ValueView::String(t)).push(
                        ValueView::String(sorted@[k as int]@),
                    ));
                }
                k = k + 1;
            }
            proof {
                let ks = string_views(sorted@);
                assert(ks.take(ks.len() as int) =~= ks);
                assert forall|key: Seq<char>| ks.contains(key) <==> entry_keys(em).contains(key) by {
                    if string_views(distinct@).contains(key) {
                        let t = choose|t: int| 0 <= t < i && #[trigger] em[t].0 == key;
                        assert(entry_keys(em).contains(key));
                    }
                }
            }
            Ok(Value::Array(items))
        },
        other => {
            let mut m = string_of("keys() expects dictionary, got '");
            push_str(&mut m, type_label_of(other));
            push_str(&mut m, "'");
            proof {
                reveal_strlit("keys() expects dictionary, got '");
                reveal_strlit("'");
            }
            Err(m)
        },
    }
}

} // verus!
