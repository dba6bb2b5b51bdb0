//! The runtime values that the virtual machine stores, serializes and journals.
use vstd::prelude::*;
use crate::bytecode::Chunk;
use crate::compiler::CompiledFunction;
use crate::text::{push_str, string_of};

verus! {

/// A runtime value.
///
/// A float is held by its IEEE-754 bit pattern (`f64::to_bits`), so that values can be stored,
/// compared, copied and serialized exactly; arithmetic on floats lives outside this crate.
/// A map keeps its entries in insertion order; a well-formed map has distinct keys.
pub enum Value {
    Nil,
    Bool(bool),
    Int(i64),
    Float(u64),
    String(String),
    Array(Vec<Value>),
    Tuple(Vec<Value>),
    SetItems(Vec<Value>),
    MapEntries(Vec<(String, Value)>),
    Function(Box<CompiledFunction>),
}

/// What the machine reads of a function value: its name, how many arguments it takes, its
/// code and its constants.
pub struct FunctionView {
    pub name: Seq<char>,
    pub arity: usize,
    pub max_arity: usize,
    pub has_varargs: bool,
    pub has_kwargs: bool,
    pub code: Seq<u8>,
    pub constants: Seq<ValueView>,
}

/// The mathematical content of a value: strings as character sequences, lists as sequences.
pub enum ValueView {
    Nil,
    Bool(bool),
    Int(i64),
    Float(u64),
    String(Seq<char>),
    Array(Seq<ValueView>),
    Tuple(Seq<ValueView>),
    SetItems(Seq<ValueView>),
    MapEntries(Seq<(Seq<char>, ValueView)>),
    Function(FunctionView),
}

impl Value {
    pub open spec fn model(self) -> ValueView
        decreases self,
    {
        match self {
            Value::Nil => ValueView::Nil,
            Value::Bool(b) => ValueView::Bool(b),
            Value::Int(i) => ValueView::Int(i),
            Value::Float(f) => ValueView::Float(f),
            Value::String(s) => ValueView::String(s@),
            Value::Array(items) => ValueView::Array(models(items@)),
            Value::Tuple(items) => ValueView::Tuple(models(items@)),
            Value::SetItems(items) => ValueView::SetItems(models(items@)),
            Value::MapEntries(entries) => ValueView::MapEntries(entry_models(entries@)),
            Value::Function(f) => ValueView::Function(FunctionView {
                name: f.name@,
                arity: f.arity,
                max_arity: f.max_arity,
                has_varargs: f.has_varargs,
                has_kwargs: f.has_kwargs,
                code: f.chunk.code@,
                constants: models(f.chunk.constants@),
            }),
        }
    }
}

/// The models of a list of values.
pub open spec fn models(s: Seq<Value>) -> Seq<ValueView>
    decreases s,
{
    if s.len() == 0 {
        Seq::empty()
    } else {
        models(s.drop_last()).push(s.last().model())
    }
}

/// The models of a list of map entries.
pub open spec fn entry_models(s: Seq<(String, Value)>) -> Seq<(Seq<char>, ValueView)>
    decreases s,
{
    if s.len() == 0 {
        Seq::empty()
    } else {
        entry_models(s.drop_last()).push((s.last().0@, s.last().1.model()))
    }
}

impl View for Value {
    type V = ValueView;

    open spec fn view(&self) -> ValueView {
        self.model()
    }
}

pub proof fn lemma_models(s: Seq<Value>)
    ensures
        models(s).len() == s.len(),
        forall|i: int| 0 <= i < s.len() ==> #[trigger] models(s)[i] == s[i].model(),
    decreases s.len(),
{
    if s.len() > 0 {
        lemma_models(s.drop_last());
    }
}

pub proof fn lemma_entry_models(s: Seq<(String, Value)>)
    ensures
        entry_models(s).len() == s.len(),
        forall|i: int|
            0 <= i < s.len() ==> #[trigger] entry_models(s)[i] == (s[i].0@, s[i].1.model()),
    decreases s.len(),
{
    if s.len() > 0 {
        lemma_entry_models(s.drop_last());
    }
}

pub proof fn lemma_models_push(s: Seq<Value>, v: Value)
    ensures
        models(s.push(v)) == models(s).push(v.model()),
{
    assert(s.push(v).drop_last() =~= s);
}

pub proof fn lemma_entry_models_push(s: Seq<(String, Value)>, e: (String, Value))
    ensures
        entry_models(s.push(e)) == entry_models(s).push((e.0@, e.1.model())),
{
    assert(s.push(e).drop_last() =~= s);
}

impl Value {
    /// A copy of the value.
    pub fn copy(&self) -> (r: Value)
        ensures
            r@ == self@,
        decreases self,
    {
        match self {
            Value::Nil => Value::Nil,
            Value::Bool(b) => Value::Bool(*b),
            Value::Int(i) => Value::Int(*i),
            Value::Float(f) => Value::Float(*f),
            Value::String(s) => Value::String(s.clone()),
            Value::Array(items) => Value::Array(copy_values(items)),
            Value::Tuple(items) => Value::Tuple(copy_values(items)),
            Value::SetItems(items) => Value::SetItems(copy_values(items)),
            Value::MapEntries(entries) => Value::MapEntries(copy_entries(entries)),
            Value::Function(f) => Value::Function(Box::new(copy_function(f))),
        }
    }

    /// Structural equality: same variant and equal contents, floats compared by bit pattern.
    pub fn equals(&self, other: &Value) -> (r: bool)
        ensures
            r == (self@ == other@),
        decreases self,
    {
        match (self, other) {
            (Value::Nil, Value::Nil) => true,
            (Value::Bool(a), Value::Bool(b)) => *a == *b,
            (Value::Int(a), Value::Int(b)) => *a == *b,
            (Value::Float(a), Value::Float(b)) => *a == *b,
            (Value::String(a), Value::String(b)) => *a == *b,
            (Value::Array(a), Value::Array(b)) => values_equal(a, b),
            (Value::Tuple(a), Value::Tuple(b)) => values_equal(a, b),
            (Value::SetItems(a), Value::SetItems(b)) => values_equal(a, b),
            (Value::MapEntries(a), Value::MapEntries(b)) => entries_equal(a, b),
            (Value::Function(a), Value::Function(b)) => functions_equal(a, b),
            _ => false,
        }
    }
}

/// How a function value prints.
pub open spec fn fn_text(name: Seq<char>) -> Seq<char> {
    "<fn "@ + name + ">"@
}

/// The printed form of the function named `name`.
pub fn function_text(name: &String) -> (r: String)
    ensures
        r@ == fn_text(name@),
{
    let mut s = string_of("<fn ");
    push_str(&mut s, name.as_str());
    push_str(&mut s, ">");
    s
}

/// A copy of a compiled function, with what the machine reads of it unchanged.
pub fn copy_function(f: &CompiledFunction) -> (r: CompiledFunction)
    ensures
        r.name@ == f.name@,
        r.arity == f.arity,
        r.max_arity == f.max_arity,
        r.has_varargs == f.has_varargs,
        r.has_kwargs == f.has_kwargs,
        r.chunk.code@ == f.chunk.code@,
        models(r.chunk.constants@) == models(f.chunk.constants@),
        r.chunk.spans@ == f.chunk.spans@,
    decreases f,
{
    assert(decreases_to!(f => f.chunk.constants));
    let constants = copy_values(&f.chunk.constants);
    let code = copy_bytes(&f.chunk.code);
    let mut spans = Vec::new();
    let mut i: usize = 0;
    while i < f.chunk.spans.len()
        invariant
            i <= f.chunk.spans@.len(),
            spans@ == f.chunk.spans@.take(i as int),
        decreases f.chunk.spans@.len() - i,
    {
        spans.push(f.chunk.spans[i]);
        assert(f.chunk.spans@.take(i + 1) =~= f.chunk.spans@.take(i as int).push(f.chunk.spans@[i as int]));
        i = i + 1;
    }
    assert(f.chunk.spans@.take(f.chunk.spans@.len() as int) =~= f.chunk.spans@);
    CompiledFunction {
        name: f.name.clone(),
        arity: f.arity,
        max_arity: f.max_arity,
        param_names: Vec::new(),
        has_varargs: f.has_varargs,
        varargs_param: None,
        has_kwargs: f.has_kwargs,
        kwargs_param: None,
        chunk: Chunk { code, constants, spans },
    }
}

fn copy_bytes(b: &Vec<u8>) -> (r: Vec<u8>)
    ensures
        r@ == b@,
{
    let mut out: Vec<u8> = Vec::new();
    let mut i: usize = 0;
    while i < b.len()
        invariant
            i <= b@.len(),
            out@ == b@.take(i as int),
        decreases b@.len() - i,
    {
        out.push(b[i]);
        assert(b@.take(i + 1) =~= b@.take(i as int).push(b@[i as int]));
        i = i + 1;
    }
    assert(b@.take(b@.len() as int) =~= b@);
    out
}

fn bytes_equal(a: &Vec<u8>, b: &Vec<u8>) -> (r: bool)
    ensures
        r == (a@ == b@),
{
    if a.len() != b.len() {
        return false;
    }
    let mut i: usize = 0;
    while i < a.len()
        invariant
            i <= a@.len() == b@.len(),
            forall|j: int| 0 <= j < i ==> a@[j] == b@[j],
        decreases a@.len() - i,
    {
        if a[i] != b[i] {
            return false;
        }
        i = i + 1;
    }
    assert(a@ =~= b@);
    true
}

/// Whether two functions agree in all that the machine reads of them.
pub fn functions_equal(a: &CompiledFunction, b: &CompiledFunction) -> (r: bool)
    ensures
        r == (a.name@ == b.name@ && a.arity == b.arity && a.max_arity == b.max_arity && a.has_varargs
            == b.has_varargs && a.has_kwargs == b.has_kwargs && a.chunk.code@ == b.chunk.code@ && models(
            a.chunk.constants@,
        ) == models(b.chunk.constants@)),
    decreases a,
{
    assert(decreases_to!(a => a.chunk.constants));
    a.name == b.name && a.arity == b.arity && a.max_arity == b.max_arity && a.has_varargs == b.has_varargs
        && a.has_kwargs == b.has_kwargs && bytes_equal(&a.chunk.code, &b.chunk.code) && values_equal(
        &a.chunk.constants,
        &b.chunk.constants,
    )
}

/// A copy of a list of values.
pub fn copy_values(items: &Vec<Value>) -> (r: Vec<Value>)
    ensures
        models(r@) == models(items@),
    decreases items,
{
    let mut out: Vec<Value> = Vec::new();
    let mut i: usize = 0;
    while i < items.len()
        invariant
            i <= items.len(),
            models(out@) == models(items@.take(i as int)),
        decreases items.len() - i,
    {
        assert(decreases_to!(items => items@[i as int]));
        let v = items[i].copy();
        proof {
            lemma_models_push(out@, v);
            lemma_models_push(items@.take(i as int), items@[i as int]);
            assert(items@.take(i + 1) =~= items@.take(i as int).push(items@[i as int]));
        }
        out.push(v);
        i = i + 1;
    }
    assert(items@.take(items.len() as int) =~= items@);
    out
}

/// A copy of a list of map entries.
pub fn copy_entries(entries: &Vec<(String, Value)>) -> (r: Vec<(String, Value)>)
    ensures
        entry_models(r@) == entry_models(entries@),
    decreases entries,
{
    let mut out: Vec<(String, Value)> = Vec::new();
    let mut i: usize = 0;
    while i < entries.len()
        invariant
            i <= entries.len(),
            entry_models(out@) == entry_models(entries@.take(i as int)),
        decreases entries.len() - i,
    {
        assert(decreases_to!(entries => entries@[i as int].1));
        let v = entries[i].1.copy();
        let e = (entries[i].0.clone(), v);
        proof {
            lemma_entry_models_push(out@, e);
            lemma_entry_models_push(entries@.take(i as int), entries@[i as int]);
            assert(entries@.take(i + 1) =~= entries@.take(i as int).push(entries@[i as int]));
        }
        out.push(e);
        i = i + 1;
    }
    assert(entries@.take(entries.len() as int) =~= entries@);
    out
}

/// Element-wise equality of two lists of values.
pub fn values_equal(a: &Vec<Value>, b: &Vec<Value>) -> (r: bool)
    ensures
        r == (models(a@) == models(b@)),
    decreases a,
{
    proof {
        lemma_models(a@);
        lemma_models(b@);
    }
    if a.len() != b.len() {
        return false;
    }
    let mut i: usize = 0;
    while i < a.len()
        invariant
            i <= a.len() == b.len(),
            models(a@).len() == a.len(),
            models(b@).len() == b.len(),
            forall|j: int| 0 <= j < a.len() ==> #[trigger] models(a@)[j] == a@[j].model(),
            forall|j: int| 0 <= j < b.len() ==> #[trigger] models(b@)[j] == b@[j].model(),
            forall|j: int| 0 <= j < i ==> models(a@)[j] == #[trigger] models(b@)[j],
        decreases a.len() - i,
    {
        assert(decreases_to!(a => a@[i as int]));
        if !a[i].equals(&b[i]) {
            assert(models(a@)[i as int] != models(b@)[i as int]);
            return false;
        }
        i = i + 1;
    }
    assert(models(a@) =~= models(b@));
    true
}

/// Entry-wise equality of two lists of map entries.
pub fn entries_equal(a: &Vec<(String, Value)>, b: &Vec<(String, Value)>) -> (r: bool)
    ensures
        r == (entry_models(a@) == entry_models(b@)),
    decreases a,
{
    proof {
        lemma_entry_models(a@);
        lemma_entry_models(b@);
    }
    if a.len() != b.len() {
        return false;
    }
    let mut i: usize = 0;
    while i < a.len()
        invariant
            i <= a.len() == b.len(),
            entry_models(a@).len() == a.len(),
            entry_models(b@).len() == b.len(),
            forall|j: int|
                0 <= j < a.len() ==> #[trigger] entry_models(a@)[j] == (a@[j].0@, a@[j].1.model()),
            forall|j: int|
                0 <= j < b.len() ==> #[trigger] entry_models(b@)[j] == (b@[j].0@, b@[j].1.model()),
            forall|j: int| 0 <= j < i ==> entry_models(a@)[j] == #[trigger] entry_models(b@)[j],
        decreases a.len() - i,
    {
        assert(decreases_to!(a => a@[i as int].1));
        if a[i].0 != b[i].0 {
            assert(entry_models(a@)[i as int] != entry_models(b@)[i as int]);
            return false;
        }
        if !a[i].1.equals(&b[i].1) {
            assert(entry_models(a@)[i as int] != entry_models(b@)[i as int]);
            return false;
        }
        i = i + 1;
    }
    assert(entry_models(a@) =~= entry_models(b@));
    true
}

} // verus!
