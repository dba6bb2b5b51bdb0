//! Hot reloading: its settings, the report of one reload, and how the globals of a running
//! program are merged with those of newly compiled code.
use vstd::prelude::*;
use crate::globals::{ClassDef, ClassView, Global, GlobalView};
use crate::strmap::{keys_distinct, lemma_map_of_contains, lemma_map_of_value, map_of, Duplicate, StrMap};
use crate::strsort::{sort_strings, sorted_strict, string_views};
use crate::text::string_of;
use crate::value::{entry_models, lemma_entry_models, lemma_models, models, Value, ValueView};

verus! {

/// What a reload keeps: live data globals, class identities (methods replaced in place), and
/// whether an `on_reload` hook runs afterwards.
pub struct ReloadConfig {
    pub preserve_globals: bool,
    pub update_classes_in_place: bool,
    pub call_on_reload: bool,
}

impl Default for ReloadConfig {
    fn default() -> (c: Self)
        ensures
            c.preserve_globals && c.update_classes_in_place && c.call_on_reload,
    {
        ReloadConfig { preserve_globals: true, update_classes_in_place: true, call_on_reload: true }
    }
}

/// The outcome of one reload.
pub struct ReloadReport {
    pub version: u64,
    pub functions_updated: Vec<String>,
    pub functions_added: Vec<String>,
    pub classes_updated: Vec<String>,
    pub globals_preserved: Vec<String>,
    pub duration_us: u128,
    pub success: bool,
    pub error: Option<String>,
}

pub open spec fn string_values(s: Seq<String>) -> Seq<ValueView> {
    s.map_values(|x: String| ValueView::String(x@))
}

/// The report as a map value, with its fields in declaration order.
pub open spec fn report_value(r: &ReloadReport) -> ValueView {
    ValueView::MapEntries(
        seq![
            ("version"@, ValueView::Int(r.version as i64)),
            ("functions_updated"@, ValueView::Array(string_values(r.functions_updated@))),
            ("functions_added"@, ValueView::Array(string_values(r.functions_added@))),
            ("classes_updated"@, ValueView::Array(string_values(r.classes_updated@))),
            ("globals_preserved"@, ValueView::Array(string_values(r.globals_preserved@))),
            ("duration_us"@, ValueView::Int(r.duration_us as i64)),
            ("success"@, ValueView::Bool(r.success)),
            (
                "error"@,
                match r.error {
                    Some(e) => ValueView::String(e@),
                    None => ValueView::Nil,
                },
            ),
        ],
    )
}

fn string_array(names: &Vec<String>) -> (v: Value)
    ensures
        v@ == ValueView::Array(string_values(names@)),
{
    let mut items: Vec<Value> = Vec::new();
    let mut i: usize = 0;
    while i < names.len()
        invariant
            i <= names@.len(),
            items@.len() == i,
            forall|j: int| 0 <= j < i ==> (#[trigger] items@[j])@ == ValueView::String(names@[j]@),
        decreases names@.len() - i,
    {
        items.push(Value::String(names[i].clone()));
        i = i + 1;
    }
    proof {
        lemma_models(items@);
    }
    assert(models(items@) =~= string_values(names@));
    Value::Array(items)
}

impl ReloadReport {
    /// The report as a map value: `version`, the four name lists, `duration_us`, `success` and
    /// `error` (nil when there is none).
    pub fn to_value(&self) -> (v: Value)
        ensures
            v@ == report_value(self),
    {
        let mut entries: Vec<(String, Value)> = Vec::new();
        entries.push((string_of("version"), Value::Int(self.version as i64)));
        entries.push((string_of("functions_updated"), string_array(&self.functions_updated)));
        entries.push((string_of("functions_added"), string_array(&self.functions_added)));
        entries.push((string_of("classes_updated"), string_array(&self.classes_updated)));
        entries.push((string_of("globals_preserved"), string_array(&self.globals_preserved)));
        entries.push((string_of("duration_us"), Value::Int(#[verifier::truncate] (self.duration_us as i64))));
        entries.push((string_of("success"), Value::Bool(self.success)));
        let err = match &self.error {
            Some(e) => Value::String(e.clone()),
            None => Value::Nil,
        };
        entries.push((string_of("error"), err));
        proof {
            lemma_entry_models(entries@);
        }
        let v = Value::MapEntries(entries);
        assert(entry_models(v->MapEntries_0@) =~= match report_value(self) {
            ValueView::MapEntries(es) => es,
            _ => Seq::empty(),
        });
        v
    }
}

/// A data global that a reload keeps as it is.
pub open spec fn is_saved(old: Map<Seq<char>, GlobalView>, k: Seq<char>, preserve: bool) -> bool {
    preserve && old.dom().contains(k) && old[k] is Data
}

/// What the new definition `nv` of `k` becomes: a class defined before is patched in place
/// (it keeps its identity, the new methods replace or join the old ones); anything else is
/// taken as it is.
pub open spec fn merged_value(
    old: Map<Seq<char>, GlobalView>,
    k: Seq<char>,
    nv: GlobalView,
    in_place: bool,
) -> GlobalView {
    match nv {
        GlobalView::Class(c) => if in_place && old.dom().contains(k) && old[k] is Class {
            GlobalView::Class(ClassView {
                methods: old[k]->Class_0.methods.union_prefer_right(c.methods),
                ..old[k]->Class_0
            })
        } else {
            nv
        },
        _ => nv,
    }
}

/// Whether the new globals define `k` in a way that the reload installs.
pub open spec fn installs(
    old: Map<Seq<char>, GlobalView>,
    new: Map<Seq<char>, GlobalView>,
    k: Seq<char>,
    preserve: bool,
) -> bool {
    new.dom().contains(k) && !(new[k] is Native) && !is_saved(old, k, preserve)
}

/// The globals after a reload: saved data stays, natives are never replaced, every other new
/// definition is installed, and globals that the new code does not define stay as they were.
pub open spec fn merge_spec(
    old: Map<Seq<char>, GlobalView>,
    new: Map<Seq<char>, GlobalView>,
    preserve: bool,
    in_place: bool,
) -> Map<Seq<char>, GlobalView> {
    Map::new(
        |k: Seq<char>| old.dom().contains(k) || installs(old, new, k, preserve),
        |k: Seq<char>|
            if installs(old, new, k, preserve) {
                merged_value(old, k, new[k], in_place)
            } else {
                old[k]
            },
    )
}

/// Functions that existed before and are defined again.
pub open spec fn updated_names(
    old: Map<Seq<char>, GlobalView>,
    new: Map<Seq<char>, GlobalView>,
) -> Set<Seq<char>> {
    Set::new(
        |k: Seq<char>|
            new.dom().contains(k) && new[k] is Code && old.dom().contains(k) && old[k] is Code,
    )
}

/// Functions that the new code defines and that were not functions before.
pub open spec fn added_names(
    old: Map<Seq<char>, GlobalView>,
    new: Map<Seq<char>, GlobalView>,
) -> Set<Seq<char>> {
    Set::new(
        |k: Seq<char>|
            new.dom().contains(k) && new[k] is Code && !(old.dom().contains(k) && old[k] is Code),
    )
}

/// Classes patched in place.
pub open spec fn patched_names(
    old: Map<Seq<char>, GlobalView>,
    new: Map<Seq<char>, GlobalView>,
    in_place: bool,
) -> Set<Seq<char>> {
    Set::new(
        |k: Seq<char>|
            in_place && new.dom().contains(k) && new[k] is Class && old.dom().contains(k)
                && old[k] is Class,
    )
}

/// Data globals kept across the reload.
pub open spec fn preserved_names(old: Map<Seq<char>, GlobalView>, preserve: bool) -> Set<Seq<char>> {
    Set::new(|k: Seq<char>| is_saved(old, k, preserve))
}

/// `v` lists exactly the names of `s`, in increasing order.
pub open spec fn lists_sorted(v: Seq<String>, s: Set<Seq<char>>) -> bool {
    &&& sorted_strict(string_views(v))
    &&& forall|k: Seq<char>| string_views(v).contains(k) <==> s.contains(k)
}

/// The names that a merge reports, each list sorted.
pub struct MergeOutcome {
    pub functions_updated: Vec<String>,
    pub functions_added: Vec<String>,
    pub classes_updated: Vec<String>,
    pub globals_preserved: Vec<String>,
}

/// No two entries of `v` have the same text.
pub open spec fn distinct_names(v: Seq<String>) -> bool {
    forall|i: int, j: int| 0 <= i < j < v.len() ==> #[trigger] v[i]@ != #[trigger] v[j]@
}

proof fn lemma_views_contains(v: Seq<String>, k: Seq<char>)
    ensures
        string_views(v).contains(k) <==> exists|i: int| 0 <= i < v.len() && #[trigger] v[i]@ == k,
{
    if string_views(v).contains(k) {
        let i = choose|i: int| 0 <= i < string_views(v).len() && string_views(v)[i] == k;
        assert(v[i]@ == k);
    }
    if exists|i: int| 0 <= i < v.len() && #[trigger] v[i]@ == k {
        let i = choose|i: int| 0 <= i < v.len() && #[trigger] v[i]@ == k;
        assert(string_views(v)[i] == k);
    }
}

proof fn lemma_push_name(v: Seq<String>, x: String)
    requires
        distinct_names(v),
        !string_views(v).to_set().contains(x@),
    ensures
        distinct_names(v.push(x)),
        string_views(v.push(x)).to_set() == string_views(v).to_set().insert(x@),
{
    lemma_views_contains(v, x@);
    assert forall|k: Seq<char>| string_views(v.push(x)).contains(k) <==> (string_views(v).contains(k) || k == x@) by {
        lemma_views_contains(v, k);
        lemma_views_contains(v.push(x), k);
        if exists|i: int| 0 <= i < v.push(x).len() && #[trigger] v.push(x)[i]@ == k {
            let i = choose|i: int| 0 <= i < v.push(x).len() && #[trigger] v.push(x)[i]@ == k;
            if i < v.len() {
                assert(v[i]@ == k);
            }
        }
        if exists|i: int| 0 <= i < v.len() && #[trigger] v[i]@ == k {
            let i = choose|i: int| 0 <= i < v.len() && #[trigger] v[i]@ == k;
            assert(v.push(x)[i]@ == k);
        }
        if k == x@ {
            assert(v.push(x)[v.len() as int]@ == k);
        }
    }
    assert(string_views(v.push(x)).to_set() =~= string_views(v).to_set().insert(x@));
    assert forall|i: int, j: int| 0 <= i < j < v.push(x).len() implies #[trigger] v.push(x)[i]@ != #[trigger] v.push(x)[j]@ by {
        if j == v.len() {
            assert(v[i]@ != x@);
        } else {
            assert(v[i]@ != v[j]@);
        }
    }
}

/// How the reported name sets grow with the definition of one more name.
proof fn lemma_names_step(
    old: Map<Seq<char>, GlobalView>,
    m: Map<Seq<char>, GlobalView>,
    k: Seq<char>,
    nv: GlobalView,
    in_place: bool,
)
    requires
        !m.dom().contains(k),
    ensures
        updated_names(old, m.insert(k, nv)) == (if nv is Code && old.dom().contains(k)
            && old[k] is Code {
            updated_names(old, m).insert(k)
        } else {
            updated_names(old, m)
        }),
        added_names(old, m.insert(k, nv)) == (if nv is Code && !(old.dom().contains(k)
            && old[k] is Code) {
            added_names(old, m).insert(k)
        } else {
            added_names(old, m)
        }),
        patched_names(old, m.insert(k, nv), in_place) == (if in_place && nv is Class
            && old.dom().contains(k) && old[k] is Class {
            patched_names(old, m, in_place).insert(k)
        } else {
            patched_names(old, m, in_place)
        }),
        !updated_names(old, m).contains(k),
        !added_names(old, m).contains(k),
        !patched_names(old, m, in_place).contains(k),
{
    let m2 = m.insert(k, nv);
    if nv is Code && old.dom().contains(k) && old[k] is Code {
        assert(updated_names(old, m2) =~= updated_names(old, m).insert(k));
    } else {
        assert(updated_names(old, m2) =~= updated_names(old, m));
    }
    if nv is Code && !(old.dom().contains(k) && old[k] is Code) {
        assert(added_names(old, m2) =~= added_names(old, m).insert(k));
    } else {
        assert(added_names(old, m2) =~= added_names(old, m));
    }
    if in_place && nv is Class && old.dom().contains(k) && old[k] is Class {
        assert(patched_names(old, m2, in_place) =~= patched_names(old, m, in_place).insert(k));
    } else {
        assert(patched_names(old, m2, in_place) =~= patched_names(old, m, in_place));
    }
}

/// Merging the definition of one more name into the globals.
proof fn lemma_merge_step(
    old: Map<Seq<char>, GlobalView>,
    m: Map<Seq<char>, GlobalView>,
    k: Seq<char>,
    nv: GlobalView,
    preserve: bool,
    in_place: bool,
)
    requires
        !m.dom().contains(k),
    ensures
        merge_spec(old, m.insert(k, nv), preserve, in_place) == (if installs(old, m.insert(k, nv), k, preserve) {
            merge_spec(old, m, preserve, in_place).insert(k, merged_value(old, k, nv, in_place))
        } else {
            merge_spec(old, m, preserve, in_place)
        }),
{
    let a = merge_spec(old, m.insert(k, nv), preserve, in_place);
    let b = merge_spec(old, m, preserve, in_place);
    if installs(old, m.insert(k, nv), k, preserve) {
        assert(a =~= b.insert(k, merged_value(old, k, nv, in_place)));
    } else {
        assert(a =~= b);
    }
}

/// The data globals of `g` when `preserve` is set: the names that a reload keeps.
fn preserved_list(g: &StrMap<Global>, preserve: bool) -> (r: Vec<String>)
    requires
        g.wf(),
    ensures
        distinct_names(r@),
        forall|k: Seq<char>| string_views(r@).contains(k) <==> is_saved(g@, k, preserve),
{
    let mut r: Vec<String> = Vec::new();
    if !preserve {
        return r;
    }
    let mut i: usize = 0;
    while i < g.entries.len()
        invariant
            preserve,
            g.wf(),
            i <= g.entries@.len(),
            distinct_names(r@),
            forall|k: Seq<char>|
                string_views(r@).contains(k) <==> exists|j: int|
                    0 <= j < i && #[trigger] g.entries@[j].0@ == k && g.entries@[j].1 is Data,
        decreases g.entries@.len() - i,
    {
        if let Global::Data(_) = &g.entries[i].1 {
            let name = g.entries[i].0.clone();
            proof {
                if string_views(r@).contains(name@) {
                    let j = choose|j: int|
                        0 <= j < i && #[trigger] g.entries@[j].0@ == name@ && g.entries@[j].1 is Data;
                    assert(keys_distinct(g.entries@));
                }
                lemma_push_name(r@, name);
            }
            let ghost before = r@;
            r.push(name);
            assert forall|k: Seq<char>|
                string_views(r@).contains(k) <==> exists|j: int|
                    0 <= j < i + 1 && #[trigger] g.entries@[j].0@ == k && g.entries@[j].1 is Data by {
                assert(string_views(r@).to_set().contains(k) <==> string_views(r@).contains(k));
                assert(string_views(before).to_set().contains(k) <==> string_views(before).contains(k));
                assert(string_views(r@).contains(k) <==> (string_views(before).contains(k) || k == name@));
                if k == g.entries@[i as int].0@ {
                    assert(g.entries@[i as int].0@ == k && g.entries@[i as int].1 is Data);
                }
                if exists|j: int| 0 <= j < i + 1 && #[trigger] g.entries@[j].0@ == k && g.entries@[j].1 is Data {
                    let j = choose|j: int| 0 <= j < i + 1 && #[trigger] g.entries@[j].0@ == k && g.entries@[j].1 is Data;
                    if j < i {
                        assert(string_views(before).contains(k));
                    }
                }
            }
        } else {
            assert forall|k: Seq<char>|
                string_views(r@).contains(k) <==> exists|j: int|
                    0 <= j < i + 1 && #[trigger] g.entries@[j].0@ == k && g.entries@[j].1 is Data by {
                if exists|j: int| 0 <= j < i + 1 && #[trigger] g.entries@[j].0@ == k && g.entries@[j].1 is Data {
                    let j = choose|j: int| 0 <= j < i + 1 && #[trigger] g.entries@[j].0@ == k && g.entries@[j].1 is Data;
                    assert(j != i);
                }
            }
        }
        i = i + 1;
    }
    assert forall|k: Seq<char>| string_views(r@).contains(k) <==> is_saved(g@, k, preserve) by {
        lemma_map_of_contains(g.entries@, k);
        if exists|j: int| 0 <= j < g.entries@.len() && #[trigger] g.entries@[j].0@ == k {
            let j = choose|j: int| 0 <= j < g.entries@.len() && #[trigger] g.entries@[j].0@ == k;
            lemma_map_of_value(g.entries@, j);
            if string_views(r@).contains(k) {
                let j2 = choose|j2: int|
                    0 <= j2 < g.entries@.len() && #[trigger] g.entries@[j2].0@ == k && g.entries@[j2].1 is Data;
                assert(keys_distinct(g.entries@));
                assert(j2 == j);
            }
        }
    }
    r
}

/// Merges into the running program's `globals` the globals left by running newly compiled code
/// (`fresh`), and names what changed.
///
/// A data global of the running program stays as it is when `preserve_globals` is set, whatever
/// the new code assigned to it. A class that existed keeps its identity when
/// `update_classes_in_place` is set: the new methods replace or join the old ones. Natives are
/// never replaced. Every other definition of the new code is installed, and globals that the new
/// code does not define are left alone. The four reported lists are sorted.
pub fn merge_globals(
    globals: &mut StrMap<Global>,
    fresh: &StrMap<Global>,
    config: &ReloadConfig,
) -> (out: MergeOutcome)
    requires
        old(globals).wf(),
        fresh.wf(),
    ensures
        final(globals).wf(),
        final(globals)@ == merge_spec(
            old(globals)@,
            fresh@,
            config.preserve_globals,
            config.update_classes_in_place,
        ),
        lists_sorted(out.functions_updated@, updated_names(old(globals)@, fresh@)),
        lists_sorted(out.functions_added@, added_names(old(globals)@, fresh@)),
        lists_sorted(
            out.classes_updated@,
            patched_names(old(globals)@, fresh@, config.update_classes_in_place),
        ),
        lists_sorted(out.globals_preserved@, preserved_names(old(globals)@, config.preserve_globals)),
{
    let preserve = config.preserve_globals;
    let in_place = config.update_classes_in_place;
    let ghost old_g = globals@;
    let preserved = preserved_list(globals, preserve);
    let mut updated: Vec<String> = Vec::new();
    let mut added: Vec<String> = Vec::new();
    let mut patched: Vec<String> = Vec::new();
    let mut i: usize = 0;
    assert(map_of(fresh.entries@.take(0)) =~= Map::<Seq<char>, GlobalView>::empty());
    assert(merge_spec(old_g, Map::<Seq<char>, GlobalView>::empty(), preserve, in_place) =~= old_g);
    assert(string_views(updated@).to_set() =~= updated_names(old_g, Map::empty()));
    assert(string_views(added@).to_set() =~= added_names(old_g, Map::empty()));
    assert(string_views(patched@).to_set() =~= patched_names(old_g, Map::empty(), in_place));
    while i < fresh.entries.len()
        invariant
            i <= fresh.entries@.len(),
            fresh.wf(),
            globals.wf(),
            globals@ == merge_spec(old_g, map_of(fresh.entries@.take(i as int)), preserve, in_place),
            distinct_names(updated@),
            distinct_names(added@),
            distinct_names(patched@),
            string_views(updated@).to_set() == updated_names(
                old_g,
                map_of(fresh.entries@.take(i as int)),
            ),
            string_views(added@).to_set() == added_names(
                old_g,
                map_of(fresh.entries@.take(i as int)),
            ),
            string_views(patched@).to_set() == patched_names(
                old_g,
                map_of(fresh.entries@.take(i as int)),
                in_place,
            ),
        decreases fresh.entries@.len() - i,
    {
        let name = &fresh.entries[i].0;
        let ghost m = map_of(fresh.entries@.take(i as int));
        let ghost k = name@;
        let ghost nv = fresh.entries@[i as int].1@;
        let ghost m2 = m.insert(k, nv);
        proof {
            lemma_map_of_contains(fresh.entries@.take(i as int), k);
            if m.dom().contains(k) {
                let j = choose|j: int|
                    0 <= j < fresh.entries@.take(i as int).len() && #[trigger] fresh.entries@.take(
                        i as int,
                    )[j].0@ == k;
                assert(fresh.entries@[j].0@ == fresh.entries@[i as int].0@);
                assert(keys_distinct(fresh.entries@));
            }
            assert(fresh.entries@.take(i + 1).drop_last() =~= fresh.entries@.take(i as int));
            assert(map_of(fresh.entries@.take(i + 1)) == m2);
            lemma_merge_step(old_g, m, k, nv, preserve, in_place);
            lemma_names_step(old_g, m, k, nv, in_place);
        }
        let (old_code, old_data) = match globals.get(name) {
            Some(Global::Code(_)) => (true, false),
            Some(Global::Data(_)) => (false, true),
            _ => (false, false),
        };
        assert(old_code == (old_g.dom().contains(k) && old_g[k] is Code));
        assert(old_data == (old_g.dom().contains(k) && old_g[k] is Data));
        let saved = preserve && old_data;
        match &fresh.entries[i].1 {
            Global::Code(_) => {
                let n = name.clone();
                if old_code {
                    proof {
                        lemma_push_name(updated@, n);
                    }
                    updated.push(n);
                } else {
                    proof {
                        lemma_push_name(added@, n);
                    }
                    added.push(n);
                }
                if !saved {
                    globals.insert(name.clone(), fresh.entries[i].1.duplicate());
                }
            },
            Global::Class(fresh_class) => {
                let mut merged: Option<ClassDef> = None;
                if in_place {
                    if let Some(Global::Class(old_class)) = globals.get(name) {
                        let mut ms: StrMap<u64> = StrMap::new();
                        ms.extend_from(&old_class.methods);
                        ms.extend_from(&fresh_class.methods);
                        assert(ms@ =~= old_class@.methods.union_prefer_right(fresh_class@.methods));
                        let mut patched_class = old_class.duplicate_class();
                        patched_class.methods = ms;
                        assert(patched_class@ == ClassView {
                            methods: old_class@.methods.union_prefer_right(fresh_class@.methods),
                            ..old_class@
                        });
                        merged = Some(patched_class);
                    }
                }
                match merged {
                    Some(c) => {
                        globals.insert(name.clone(), Global::Class(c));
                        let n = name.clone();
                        proof {
                            lemma_push_name(patched@, n);
                        }
                        patched.push(n);
                    },
                    None => {
                        if !saved {
                            globals.insert(name.clone(), fresh.entries[i].1.duplicate());
                        }
                    },
                }
            },
            Global::Native(_) => {},
            Global::Data(_) => {
                if !saved {
                    globals.insert(name.clone(), fresh.entries[i].1.duplicate());
                }
            },
        }
        assert(globals@ =~= merge_spec(old_g, m2, preserve, in_place));
        i = i + 1;
    }
    assert(fresh.entries@.take(fresh.entries@.len() as int) =~= fresh.entries@);
    let functions_updated = sort_strings(updated);
    let functions_added = sort_strings(added);
    let classes_updated = sort_strings(patched);
    let globals_preserved = sort_strings(preserved);
    assert forall|x: Seq<char>|
        string_views(functions_updated@).contains(x) <==> updated_names(old_g, fresh@).contains(x) by {
        assert(string_views(updated@).to_set().contains(x) == string_views(updated@).contains(x));
    }
    assert forall|x: Seq<char>|
        string_views(functions_added@).contains(x) <==> added_names(old_g, fresh@).contains(x) by {
        assert(string_views(added@).to_set().contains(x) == string_views(added@).contains(x));
    }
    assert forall|x: Seq<char>|
        string_views(classes_updated@).contains(x) <==> patched_names(old_g, fresh@, in_place).contains(x) by {
        assert(string_views(patched@).to_set().contains(x) == string_views(patched@).contains(x));
    }
    MergeOutcome { functions_updated, functions_added, classes_updated, globals_preserved }
}

/// With `preserve_globals`, a reload leaves every data global of the running program as it was,
/// whatever the new code assigns to that name.
pub proof fn lemma_reload_keeps_data(
    old: Map<Seq<char>, GlobalView>,
    new: Map<Seq<char>, GlobalView>,
    in_place: bool,
    k: Seq<char>,
)
    requires
        old.dom().contains(k),
        old[k] is Data,
    ensures
        merge_spec(old, new, true, in_place).dom().contains(k),
        merge_spec(old, new, true, in_place)[k] == old[k],
{
}

/// A function of the new code takes effect under its name, unless that name holds data that the
/// reload keeps.
pub proof fn lemma_reload_installs_code(
    old: Map<Seq<char>, GlobalView>,
    new: Map<Seq<char>, GlobalView>,
    preserve: bool,
    in_place: bool,
    k: Seq<char>,
)
    requires
        new.dom().contains(k),
        new[k] is Code,
        !is_saved(old, k, preserve),
    ensures
        merge_spec(old, new, preserve, in_place).dom().contains(k),
        merge_spec(old, new, preserve, in_place)[k] == new[k],
{
}

/// A name that the new code does not define, or defines as a native, is left as it was.
pub proof fn lemma_reload_leaves_others(
    old: Map<Seq<char>, GlobalView>,
    new: Map<Seq<char>, GlobalView>,
    preserve: bool,
    in_place: bool,
    k: Seq<char>,
)
    requires
        !new.dom().contains(k) || new[k] is Native,
    ensures
        merge_spec(old, new, preserve, in_place).dom().contains(k) == old.dom().contains(k),
        old.dom().contains(k) ==> merge_spec(old, new, preserve, in_place)[k] == old[k],
{
}

/// Patched in place, a class keeps its identity, name, bases, class variables and methods; the new
/// methods replace or join the old ones.
pub proof fn lemma_reload_patches_class(
    old: Map<Seq<char>, GlobalView>,
    new: Map<Seq<char>, GlobalView>,
    preserve: bool,
    k: Seq<char>,
)
    requires
        old.dom().contains(k),
        old[k] is Class,
        new.dom().contains(k),
        new[k] is Class,
    ensures
        merge_spec(old, new, preserve, true)[k] == GlobalView::Class(ClassView {
            methods: old[k]->Class_0.methods.union_prefer_right(new[k]->Class_0.methods),
            ..old[k]->Class_0
        }),
{
}

/// Every function of the new code is reported once: as updated when a function of that name
/// existed, as added otherwise.
pub proof fn lemma_reload_reports_each_function(
    old: Map<Seq<char>, GlobalView>,
    new: Map<Seq<char>, GlobalView>,
    k: Seq<char>,
)
    requires
        new.dom().contains(k),
        new[k] is Code,
    ensures
        updated_names(old, new).contains(k) != added_names(old, new).contains(k),
{
}

/// Reloading the same code a second time changes nothing more.
pub proof fn lemma_reload_idempotent(
    old: Map<Seq<char>, GlobalView>,
    new: Map<Seq<char>, GlobalView>,
    preserve: bool,
    in_place: bool,
)
    ensures
        merge_spec(merge_spec(old, new, preserve, in_place), new, preserve, in_place)
            == merge_spec(old, new, preserve, in_place),
{
    let once = merge_spec(old, new, preserve, in_place);
    let twice = merge_spec(once, new, preserve, in_place);
    assert forall|k: Seq<char>| #[trigger] twice.dom().contains(k) implies twice[k] == once[k] by {
        if installs(once, new, k, preserve) {
            if in_place && new[k] is Class && once.dom().contains(k) && once[k] is Class {
                let ms = once[k]->Class_0.methods;
                let nm = new[k]->Class_0.methods;
                if installs(old, new, k, preserve) && old.dom().contains(k) && old[k] is Class {
                    assert(ms == old[k]->Class_0.methods.union_prefer_right(nm));
                } else {
                    assert(ms == nm);
                }
                assert(ms.union_prefer_right(nm) =~= ms);
            }
        }
    }
    assert(twice =~= once);
}

} // verus!
