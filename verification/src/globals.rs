//! The globals of a running program as the runtime's bookkeeping sees them, and the lookup of
//! methods and class variables along a class's bases.
use vstd::prelude::*;
use crate::strmap::{Duplicate, StrMap};
use crate::text::string_of;
use crate::value::{Value, ValueView};

verus! {

/// A class: its identity, its name, the names of its base classes in order, its methods (each a
/// function identity) and its class variables.
pub struct ClassDef {
    pub id: u64,
    pub name: String,
    pub bases: Vec<String>,
    pub methods: StrMap<u64>,
    pub class_vars: StrMap<Value>,
}

pub struct ClassView {
    pub id: u64,
    pub name: Seq<char>,
    pub bases: Seq<Seq<char>>,
    pub methods: Map<Seq<char>, u64>,
    pub class_vars: Map<Seq<char>, ValueView>,
}

impl View for ClassDef {
    type V = ClassView;

    open spec fn view(&self) -> ClassView {
        ClassView {
            id: self.id,
            name: self.name@,
            bases: self.bases@.map_values(|b: String| b@),
            methods: self.methods@,
            class_vars: self.class_vars@,
        }
    }
}

/// A global of a running program: compiled code (a function or closure, known by its identity),
/// a class, a native binding, or live data.
pub enum Global {
    Code(u64),
    Class(ClassDef),
    Native(u64),
    Data(Value),
}

pub enum GlobalView {
    Code(u64),
    Class(ClassView),
    Native(u64),
    Data(ValueView),
}

impl View for Global {
    type V = GlobalView;

    open spec fn view(&self) -> GlobalView {
        match self {
            Global::Code(f) => GlobalView::Code(*f),
            Global::Class(c) => GlobalView::Class(c@),
            Global::Native(n) => GlobalView::Native(*n),
            Global::Data(v) => GlobalView::Data(v@),
        }
    }
}

fn copy_names(v: &Vec<String>) -> (r: Vec<String>)
    ensures
        r@ == v@,
{
    let mut r: Vec<String> = Vec::new();
    let mut i: usize = 0;
    while i < v.len()
        invariant
            i <= v@.len(),
            r@ == v@.take(i as int),
        decreases v@.len() - i,
    {
        r.push(v[i].clone());
        assert(r@ =~= v@.take(i + 1));
        i = i + 1;
    }
    assert(v@.take(v@.len() as int) =~= v@);
    r
}

impl ClassDef {
    /// A copy of the class, field by field.
    pub fn duplicate_class(&self) -> (r: ClassDef)
        ensures
            r@ == self@,
            r.methods.wf() == self.methods.wf(),
    {
        let bases = copy_names(&self.bases);
        ClassDef {
            id: self.id,
            name: self.name.clone(),
            bases,
            methods: self.methods.duplicate_map(),
            class_vars: self.class_vars.duplicate_map(),
        }
    }
}

impl Duplicate for Global {
    fn duplicate(&self) -> (r: Global) {
        match self {
            Global::Code(f) => Global::Code(*f),
            Global::Class(c) => Global::Class(c.duplicate_class()),
            Global::Native(n) => Global::Native(*n),
            Global::Data(v) => Global::Data(v.copy()),
        }
    }
}

/// The method `name` as class `c` resolves it: its own method, else the first that its bases,
/// in order and each searched the same way, provide. At most `fuel` base links are followed.
pub open spec fn method_lookup(
    g: Map<Seq<char>, GlobalView>,
    c: ClassView,
    name: Seq<char>,
    fuel: nat,
) -> Option<u64>
    decreases fuel, 1nat, 0nat,
{
    if c.methods.contains_key(name) {
        Some(c.methods[name])
    } else {
        method_in_bases(g, c.bases, name, fuel)
    }
}

/// The method `name` as the classes named `bases` resolve it, the first that has one winning;
/// a name that is not a class is passed over.
pub open spec fn method_in_bases(
    g: Map<Seq<char>, GlobalView>,
    bases: Seq<Seq<char>>,
    name: Seq<char>,
    fuel: nat,
) -> Option<u64>
    decreases fuel, 0nat, bases.len(),
{
    if bases.len() == 0 {
        None
    } else {
        let earlier = method_in_bases(g, bases.drop_last(), name, fuel);
        if earlier is Some {
            earlier
        } else {
            let b = bases.last();
            if fuel > 0 && g.contains_key(b) && g[b] is Class {
                method_lookup(g, g[b]->Class_0, name, (fuel - 1) as nat)
            } else {
                None
            }
        }
    }
}

/// The class variable `name` as class `c` resolves it, in the same order as methods.
pub open spec fn class_var_lookup(
    g: Map<Seq<char>, GlobalView>,
    c: ClassView,
    name: Seq<char>,
    fuel: nat,
) -> Option<ValueView>
    decreases fuel, 1nat, 0nat,
{
    if c.class_vars.contains_key(name) {
        Some(c.class_vars[name])
    } else {
        class_var_in_bases(g, c.bases, name, fuel)
    }
}

pub open spec fn class_var_in_bases(
    g: Map<Seq<char>, GlobalView>,
    bases: Seq<Seq<char>>,
    name: Seq<char>,
    fuel: nat,
) -> Option<ValueView>
    decreases fuel, 0nat, bases.len(),
{
    if bases.len() == 0 {
        None
    } else {
        let earlier = class_var_in_bases(g, bases.drop_last(), name, fuel);
        if earlier is Some {
            earlier
        } else {
            let b = bases.last();
            if fuel > 0 && g.contains_key(b) && g[b] is Class {
                class_var_lookup(g, g[b]->Class_0, name, (fuel - 1) as nat)
            } else {
                None
            }
        }
    }
}

fn method_with_fuel(class: &ClassDef, name: &String, globals: &StrMap<Global>, fuel: usize) -> (r:
    Option<u64>)
    ensures
        r == method_lookup(globals@, class@, name@, fuel as nat),
    decreases fuel, 1nat,
{
    match class.methods.lookup(name) {
        Some(f) => Some(*f),
        None => bases_method_with_fuel(class, name, globals, fuel),
    }
}

fn bases_method_with_fuel(class: &ClassDef, name: &String, globals: &StrMap<Global>, fuel: usize) -> (r:
    Option<u64>)
    ensures
        r == method_in_bases(globals@, class@.bases, name@, fuel as nat),
    decreases fuel, 0nat,
{
    let ghost bases = class@.bases;
    let mut i: usize = 0;
    while i < class.bases.len()
        invariant
            i <= class.bases@.len(),
            bases == class@.bases,
            bases.len() == class.bases@.len(),
            method_in_bases(globals@, bases.take(i as int), name@, fuel as nat) is None,
        decreases class.bases@.len() - i,
    {
        assert(bases.take(i + 1).drop_last() =~= bases.take(i as int));
        assert(bases.take(i + 1).last() == class.bases@[i as int]@);
        if fuel > 0 {
            if let Some(Global::Class(base)) = globals.lookup(&class.bases[i]) {
                let found = method_with_fuel(base, name, globals, fuel - 1);
                if found.is_some() {
                    proof {
                        assert(bases.take(bases.len() as int) =~= bases);
                        lemma_method_in_bases_found(globals@, bases, i as int, name@, fuel as nat);
                    }
                    return found;
                }
            }
        }
        i = i + 1;
    }
    assert(bases.take(bases.len() as int) =~= bases);
    None
}

/// Once a prefix of the bases resolves the method, the whole list resolves it the same way.
proof fn lemma_method_in_bases_found(
    g: Map<Seq<char>, GlobalView>,
    bases: Seq<Seq<char>>,
    i: int,
    name: Seq<char>,
    fuel: nat,
)
    requires
        0 <= i < bases.len(),
        method_in_bases(g, bases.take(i + 1), name, fuel) is Some,
    ensures
        method_in_bases(g, bases, name, fuel) == method_in_bases(g, bases.take(i + 1), name, fuel),
    decreases bases.len(),
{
    if i + 1 < bases.len() {
        assert(bases.drop_last().take(i + 1) =~= bases.take(i + 1));
        lemma_method_in_bases_found(g, bases.drop_last(), i, name, fuel);
    } else {
        assert(bases.take(i + 1) =~= bases);
    }
}

proof fn lemma_class_var_in_bases_found(
    g: Map<Seq<char>, GlobalView>,
    bases: Seq<Seq<char>>,
    i: int,
    name: Seq<char>,
    fuel: nat,
)
    requires
        0 <= i < bases.len(),
        class_var_in_bases(g, bases.take(i + 1), name, fuel) is Some,
    ensures
        class_var_in_bases(g, bases, name, fuel) == class_var_in_bases(g, bases.take(i + 1), name, fuel),
    decreases bases.len(),
{
    if i + 1 < bases.len() {
        assert(bases.drop_last().take(i + 1) =~= bases.take(i + 1));
        lemma_class_var_in_bases_found(g, bases.drop_last(), i, name, fuel);
    } else {
        assert(bases.take(i + 1) =~= bases);
    }
}

fn class_var_with_fuel(class: &ClassDef, name: &String, globals: &StrMap<Global>, fuel: usize) -> (r:
    Option<Value>)
    ensures
        r matches Some(v) ==> class_var_lookup(globals@, class@, name@, fuel as nat) == Some(v@),
        r is None ==> class_var_lookup(globals@, class@, name@, fuel as nat) is None,
    decreases fuel, 1nat,
{
    match class.class_vars.lookup(name) {
        Some(v) => Some(v.copy()),
        None => {
            let ghost bases = class@.bases;
            let mut i: usize = 0;
            while i < class.bases.len()
                invariant
                    i <= class.bases@.len(),
                    bases == class@.bases,
                    bases.len() == class.bases@.len(),
                    !class@.class_vars.contains_key(name@),
                    class_var_in_bases(globals@, bases.take(i as int), name@, fuel as nat) is None,
                decreases class.bases@.len() - i,
            {
                assert(bases.take(i + 1).drop_last() =~= bases.take(i as int));
                assert(bases.take(i + 1).last() == class.bases@[i as int]@);
                if fuel > 0 {
                    if let Some(Global::Class(base)) = globals.lookup(&class.bases[i]) {
                        let found = class_var_with_fuel(base, name, globals, fuel - 1);
                        if found.is_some() {
                            proof {
                                assert(bases.take(bases.len() as int) =~= bases);
                                lemma_class_var_in_bases_found(globals@, bases, i as int, name@, fuel as nat);
                            }
                            return found;
                        }
                    }
                }
                i = i + 1;
            }
            assert(bases.take(bases.len() as int) =~= bases);
            None
        },
    }
}

/// The method `name` of `class`: its own, else the first that its bases provide, each base
/// (named in `globals`) searched the same way, depth first in the order the bases are listed.
///
/// The search follows at most as many base links as `globals` has entries. Every search that
/// does not run into a cycle of bases follows fewer, since it never meets a class twice on its
/// way down; one that does run into a cycle before finding the method gives `None`.
pub fn find_method(class: &ClassDef, name: &str, globals: &StrMap<Global>) -> (r: Option<u64>)
    ensures
        r == method_lookup(globals@, class@, name@, globals.entries@.len() as nat),
        class@.methods.contains_key(name@) ==> r == Some(class@.methods[name@]),
{
    let n = string_of(name);
    method_with_fuel(class, &n, globals, globals.len())
}

/// The method `name` as the bases of `class` provide it, searched as `find_method` does.
pub fn find_method_in_bases(class: &ClassDef, name: &str, globals: &StrMap<Global>) -> (r: Option<u64>)
    ensures
        r == method_in_bases(globals@, class@.bases, name@, globals.entries@.len() as nat),
{
    let n = string_of(name);
    bases_method_with_fuel(class, &n, globals, globals.len())
}

/// The class variable `name` of `class`, or of its bases, searched as `find_method` does.
pub fn find_class_var(class: &ClassDef, name: &str, globals: &StrMap<Global>) -> (r: Option<Value>)
    ensures
        r matches Some(v) ==> class_var_lookup(globals@, class@, name@, globals.entries@.len() as nat)
            == Some(v@),
        r is None ==> class_var_lookup(globals@, class@, name@, globals.entries@.len() as nat) is None,
        class@.class_vars.contains_key(name@) ==> (r matches Some(v) && v@ == class@.class_vars[name@]),
{
    let n = string_of(name);
    class_var_with_fuel(class, &n, globals, globals.len())
}

} // verus!
