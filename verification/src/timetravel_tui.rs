//! State reconstruction, step diffs and the navigation decisions of the time-travel viewer.
use vstd::prelude::*;
use crate::strmap::{StrMap, lemma_map_of_value, lemma_map_of_contains};
use crate::timetravel::{
    DeltaView, SessionView, StateDelta, TimeTravelSession, delta_step, delta_views, fresh_session,
    key_in_prefix, spec_create_checkpoint, spec_record_log, spec_record_mutation, spec_record_step,
    spec_restore_checkpoint,
};
use crate::value::{Value, ValueView};
use crate::timetravel::{branch_created_message, rewound_message, spec_branch};
use crate::text::{
    chars_are, chars_equal, chars_of, decimal, lowercase, push_str, parse_u64, parse_u64_spec, push_decimal, string_from_range,
    string_of, to_lowercase, trim_bounds, trim_spec,
};

verus! {

/// The snapshot of the latest checkpoint event in `d` whose restore log line is `msg`.
pub open spec fn restored_snapshot(d: Seq<DeltaView>, msg: Seq<char>) -> Option<Map<Seq<char>, ValueView>>
    decreases d.len(),
{
    if d.len() == 0 {
        None
    } else {
        match d.last() {
            DeltaView::Checkpoint { step, name, snapshot } => if rewound_message(name, step) == msg {
                Some(snapshot)
            } else {
                restored_snapshot(d.drop_last(), msg)
            },
            _ => restored_snapshot(d.drop_last(), msg),
        }
    }
}

/// The variables as the journal says they stood at step `t`: replaying the events up to step
/// `t` in order, a mutation sets its variable, and the log line of a restore sets all
/// variables to the snapshot of the checkpoint event it names (the latest earlier checkpoint
/// event whose restore line reads the same). A log line recorded by hand with the text of a
/// restore line counts as that restore.
pub open spec fn state_at(d: Seq<DeltaView>, t: u64) -> Map<Seq<char>, ValueView>
    decreases d.len(),
{
    if d.len() == 0 {
        Map::empty()
    } else {
        let m = state_at(d.drop_last(), t);
        match d.last() {
            DeltaView::VarMutation { step, var_name, new_val, .. } => if step <= t {
                m.insert(var_name, new_val)
            } else {
                m
            },
            DeltaView::LogOutput { step, message } => if step <= t {
                match restored_snapshot(d.drop_last(), message) {
                    Some(snapshot) => snapshot,
                    None => m,
                }
            } else {
                m
            },
            _ => m,
        }
    }
}

/// The snapshot of the latest checkpoint event among the first `end` journal events whose
/// restore log line is `msg`.
fn find_restored<'a>(deltas: &'a Vec<StateDelta>, end: usize, msg: &String) -> (r: Option<&'a StrMap<Value>>)
    requires
        end <= deltas@.len(),
    ensures
        match restored_snapshot(delta_views(deltas@).take(end as int), msg@) {
            Some(snap) => r matches Some(m) && m@ == snap,
            None => r is None,
        },
{
    let ghost d = delta_views(deltas@);
    let target = chars_of(msg.as_str());
    let mut j: usize = end;
    while j > 0
        invariant
            j <= end <= deltas@.len(),
            d == delta_views(deltas@),
            target@ == msg@,
            restored_snapshot(d.take(end as int), msg@) == restored_snapshot(d.take(j as int), msg@),
        decreases j,
    {
        j = j - 1;
        assert(d.take(j + 1).drop_last() =~= d.take(j as int));
        assert(d.take(j + 1).last() == deltas@[j as int]@);
        match &deltas[j] {
            StateDelta::Checkpoint { step, name, snapshot } => {
                let mut line = string_of("TimeTravel: Rewound to checkpoint '");
                push_str(&mut line, name.as_str());
                push_str(&mut line, "' at step ");
                push_decimal(&mut line, *step);
                proof {
                    reveal_strlit("TimeTravel: Rewound to checkpoint '");
                    reveal_strlit("' at step ");
                }
                let built = chars_of(line.as_str());
                if chars_equal(&built, &target) {
                    return Some(snapshot);
                }
            },
            _ => {},
        }
    }
    assert(d.take(0) =~= Seq::<DeltaView>::empty());
    None
}

/// Reconstructs the variables at step `target_step` by replaying the journal.
pub fn compute_state_at_step(session: &TimeTravelSession, target_step: u64) -> (r: StrMap<Value>)
    ensures
        r.wf(),
        r@ == state_at(session@.deltas, target_step),
{
    let mut state: StrMap<Value> = StrMap::new();
    let mut i: usize = 0;
    let ghost d = session@.deltas;
    assert(d.take(0) =~= Seq::<DeltaView>::empty());
    while i < session.deltas.len()
        invariant
            i <= session.deltas.len(),
            d == delta_views(session.deltas@),
            state.wf(),
            state@ == state_at(d.take(i as int), target_step),
        decreases session.deltas.len() - i,
    {
        assert(d.take(i + 1).drop_last() =~= d.take(i as int));
        assert(d.take(i + 1).last() == session.deltas@[i as int]@);
        match &session.deltas[i] {
            StateDelta::VarMutation { step, var_name, new_val, .. } => {
                if *step <= target_step {
                    state.insert(var_name.clone(), new_val.copy());
                }
            },
            StateDelta::LogOutput { step, message } => {
                if *step <= target_step {
                    match find_restored(&session.deltas, i, message) {
                        Some(snapshot) => {
                            let mut fresh: StrMap<Value> = StrMap::new();
                            fresh.extend_from(snapshot);
                            assert(fresh@ =~= snapshot@);
                            state = fresh;
                        },
                        None => {},
                    }
                }
            },
            _ => {},
        }
        i = i + 1;
    }
    assert(d.take(d.len() as int) =~= d);
    state
}

/// The differences between the variables at two steps: each changed, removed or added
/// variable with its value at either step, if it had one.
pub open spec fn step_diff_spec(
    a: Map<Seq<char>, ValueView>,
    b: Map<Seq<char>, ValueView>,
) -> Map<Seq<char>, (Option<ValueView>, Option<ValueView>)> {
    Map::new(
        |k: Seq<char>|
            (a.dom().contains(k) && (!b.dom().contains(k) || a[k] != b[k])) || (b.dom().contains(k)
                && !a.dom().contains(k)),
        |k: Seq<char>|
            (
                if a.dom().contains(k) {
                    Some(a[k])
                } else {
                    None
                },
                if b.dom().contains(k) {
                    Some(b[k])
                } else {
                    None
                },
            ),
    )
}

/// The view of an optional value.
pub open spec fn opt_view(o: Option<Value>) -> Option<ValueView> {
    match o {
        Some(v) => Some(v@),
        None => None,
    }
}

/// The values of one variable at the two compared steps.
pub struct DiffPair {
    pub before: Option<Value>,
    pub after: Option<Value>,
}

impl View for DiffPair {
    type V = (Option<ValueView>, Option<ValueView>);

    open spec fn view(&self) -> (Option<ValueView>, Option<ValueView>) {
        (opt_view(self.before), opt_view(self.after))
    }
}

/// Adds or replaces a diff entry, keeping keys distinct.
fn diff_insert(d: &mut StrMap<DiffPair>, key: &String, a: Option<Value>, b: Option<Value>)
    requires
        old(d).wf(),
    ensures
        final(d).wf(),
        final(d)@ == old(d)@.insert(key@, (opt_view(a), opt_view(b))),
{
    d.insert(key.clone(), DiffPair { before: a, after: b });
}

/// Computes the variable changes between steps `step_a` and `step_b`.
pub fn compute_step_diff(session: &TimeTravelSession, step_a: u64, step_b: u64) -> (r: StrMap<
    DiffPair,
>)
    ensures
        r.wf(),
        r@ == step_diff_spec(
            state_at(session@.deltas, step_a),
            state_at(session@.deltas, step_b),
        ),
{
    let sa = compute_state_at_step(session, step_a);
    let sb = compute_state_at_step(session, step_b);
    let ghost am = sa@;
    let ghost bm = sb@;
    let mut r: StrMap<DiffPair> = StrMap::new();
    let mut i: usize = 0;
    while i < sa.entries.len()
        invariant
            sa.wf(),
            sb.wf(),
            am == sa@,
            bm == sb@,
            i <= sa.entries.len(),
            r.wf(),
            r@ == Map::new(
                |k: Seq<char>|
                    key_in_prefix(sa.entries@, i as int, k) && (!bm.dom().contains(k) || am[k]
                        != bm[k]),
                |k: Seq<char>|
                    (
                        Some(am[k]),
                        if bm.dom().contains(k) {
                            Some(bm[k])
                        } else {
                            None
                        },
                    ),
            ),
        decreases sa.entries.len() - i,
    {
        let ghost k = sa.entries@[i as int].0@;
        proof {
            lemma_map_of_value(sa.entries@, i as int);
        }
        match sb.get(&sa.entries[i].0) {
            Some(vb) => {
                if !sa.entries[i].1.equals(vb) {
                    let pa = Some(sa.entries[i].1.copy());
                    let pb = Some(vb.copy());
                    diff_insert(&mut r, &sa.entries[i].0, pa, pb);
                }
            },
            None => {
                let pa = Some(sa.entries[i].1.copy());
                diff_insert(&mut r, &sa.entries[i].0, pa, None);
            },
        }
        i = i + 1;
        proof {
            assert forall|k2: Seq<char>| #[trigger] key_in_prefix(sa.entries@, i as int, k2) <==> (
            key_in_prefix(sa.entries@, i - 1, k2) || k2 == k) by {
                if key_in_prefix(sa.entries@, i as int, k2) && k2 != k {
                    let j = choose|j: int| 0 <= j < i && #[trigger] sa.entries@[j].0@ == k2;
                    assert(j < i - 1);
                }
                if key_in_prefix(sa.entries@, i - 1, k2) {
                    let j = choose|j: int| 0 <= j < i - 1 && #[trigger] sa.entries@[j].0@ == k2;
                    assert(sa.entries@[j].0@ == k2);
                }
                if k2 == k {
                    assert(sa.entries@[i - 1].0@ == k2);
                }
            }
            assert(r@ =~= Map::new(
                |k2: Seq<char>|
                    key_in_prefix(sa.entries@, i as int, k2) && (!bm.dom().contains(k2) || am[k2]
                        != bm[k2]),
                |k2: Seq<char>|
                    (
                        Some(am[k2]),
                        if bm.dom().contains(k2) {
                            Some(bm[k2])
                        } else {
                            None
                        },
                    ),
            ));
        }
    }
    proof {
        assert forall|k2: Seq<char>| key_in_prefix(sa.entries@, sa.entries@.len() as int, k2) implies am.dom().contains(k2) by {
            lemma_map_of_contains(sa.entries@, k2);
        }
        assert(r@ =~= Map::new(
            |k: Seq<char>|
                (key_in_prefix(sa.entries@, sa.entries@.len() as int, k) && (!bm.dom().contains(k)
                    || am[k] != bm[k])) || (key_in_prefix(sb.entries@, 0, k) && !am.dom().contains(
                    k,
                )),
            |k: Seq<char>|
                (
                    if am.dom().contains(k) {
                        Some(am[k])
                    } else {
                        None
                    },
                    if bm.dom().contains(k) {
                        Some(bm[k])
                    } else {
                        None
                    },
                ),
        ));
    }
    let mut t: usize = 0;
    while t < sb.entries.len()
        invariant
            sa.wf(),
            sb.wf(),
            am == sa@,
            bm == sb@,
            t <= sb.entries.len(),
            r.wf(),
            r@ == Map::new(
                |k: Seq<char>|
                    (key_in_prefix(sa.entries@, sa.entries@.len() as int, k) && (!bm.dom().contains(
                        k,
                    ) || am[k] != bm[k])) || (key_in_prefix(sb.entries@, t as int, k)
                        && !am.dom().contains(k)),
                |k: Seq<char>|
                    (
                        if am.dom().contains(k) {
                            Some(am[k])
                        } else {
                            None
                        },
                        if bm.dom().contains(k) {
                            Some(bm[k])
                        } else {
                            None
                        },
                    ),
            ),
        decreases sb.entries.len() - t,
    {
        let ghost k = sb.entries@[t as int].0@;
        proof {
            lemma_map_of_value(sb.entries@, t as int);
        }
        if !sa.contains_key(&sb.entries[t].0) {
            let pb = Some(sb.entries[t].1.copy());
            diff_insert(&mut r, &sb.entries[t].0, None, pb);
        }
        t = t + 1;
        proof {
            assert forall|k2: Seq<char>| #[trigger] key_in_prefix(sb.entries@, t as int, k2) <==> (
            key_in_prefix(sb.entries@, t - 1, k2) || k2 == k) by {
                if key_in_prefix(sb.entries@, t as int, k2) && k2 != k {
                    let j = choose|j: int| 0 <= j < t && #[trigger] sb.entries@[j].0@ == k2;
                    assert(j < t - 1);
                }
                if key_in_prefix(sb.entries@, t - 1, k2) {
                    let j = choose|j: int| 0 <= j < t - 1 && #[trigger] sb.entries@[j].0@ == k2;
                    assert(sb.entries@[j].0@ == k2);
                }
                if k2 == k {
                    assert(sb.entries@[t - 1].0@ == k2);
                }
            }
            assert(r@ =~= Map::new(
                |k2: Seq<char>|
                    (key_in_prefix(sa.entries@, sa.entries@.len() as int, k2) && (
                    !bm.dom().contains(k2) || am[k2] != bm[k2])) || (key_in_prefix(
                        sb.entries@,
                        t as int,
                        k2,
                    ) && !am.dom().contains(k2)),
                |k2: Seq<char>|
                    (
                        if am.dom().contains(k2) {
                            Some(am[k2])
                        } else {
                            None
                        },
                        if bm.dom().contains(k2) {
                            Some(bm[k2])
                        } else {
                            None
                        },
                    ),
            ));
        }
    }
    proof {
        assert forall|k: Seq<char>| #[trigger] key_in_prefix(sa.entries@, sa.entries@.len() as int, k) == am.dom().contains(k) by {
            lemma_map_of_contains(sa.entries@, k);
        }
        assert forall|k: Seq<char>| #[trigger] key_in_prefix(sb.entries@, sb.entries@.len() as int, k) == bm.dom().contains(k) by {
            lemma_map_of_contains(sb.entries@, k);
        }
        assert(r@ =~= step_diff_spec(am, bm));
    }
    r
}

// ------------------------------------------------------------------------------------------
// Replay law
// ------------------------------------------------------------------------------------------

/// Every journaled event happened at or before step `t`.
pub open spec fn all_steps_at_most(d: Seq<DeltaView>, t: u64) -> bool {
    forall|i: int| 0 <= i < d.len() ==> delta_step(#[trigger] d[i]) <= t
}

/// Every checkpoint was taken at or before the current step, and its restore log line names,
/// in the journal, the checkpoint event that holds its variables.
pub open spec fn checkpoints_journaled(s: SessionView) -> bool {
    forall|n: Seq<char>|
        #[trigger] s.checkpoints.dom().contains(n) ==> s.checkpoints[n].0 <= s.current_step
            && restored_snapshot(s.deltas, rewound_message(n, s.checkpoints[n].0)) == Some(
            s.checkpoints[n].1,
        )
}

/// The journal replayed up to the current step gives the current variables, and each
/// checkpoint can be found again in it.
pub open spec fn replay_consistent(s: SessionView) -> bool {
    &&& all_steps_at_most(s.deltas, s.current_step)
    &&& state_at(s.deltas, s.current_step) == s.state
    &&& checkpoints_journaled(s)
}

/// The characters of a number's decimal text are digits, and there is at least one.
proof fn lemma_decimal_digits(n: nat)
    ensures
        decimal(n).len() >= 1,
        forall|i: int| 0 <= i < decimal(n).len() ==> '0' <= #[trigger] decimal(n)[i] <= '9',
    decreases n,
{
    if n >= 10 {
        lemma_decimal_digits(n / 10);
        let d = decimal(n);
        let p = decimal(n / 10);
        assert forall|i: int| 0 <= i < d.len() implies '0' <= #[trigger] d[i] <= '9' by {
            if i < p.len() {
                assert(d[i] == p[i]);
            }
        }
    }
}

proof fn lemma_digit_char_injective(x: nat, y: nat)
    requires
        x < 10,
        y < 10,
        (('0' as u8) + (x as u8)) as char == (('0' as u8) + (y as u8)) as char,
    ensures
        x == y,
{
    let cx = (('0' as u8) + (x as u8)) as char;
    let cy = (('0' as u8) + (y as u8)) as char;
    assert(cx as u32 == 48 + x);
    assert(cy as u32 == 48 + y);
}

/// Different numbers have different decimal texts.
proof fn lemma_decimal_injective(a: nat, b: nat)
    requires
        decimal(a) == decimal(b),
    ensures
        a == b,
    decreases a,
{
    lemma_decimal_digits(a / 10);
    lemma_decimal_digits(b / 10);
    if a < 10 && b < 10 {
        let ca = (('0' as u8) + (a as u8)) as char;
        let cb = (('0' as u8) + (b as u8)) as char;
        assert(decimal(a) == seq![ca]);
        assert(decimal(b) == seq![cb]);
        assert(seq![ca][0] == seq![cb][0]);
        lemma_digit_char_injective(a, b);
    } else if a >= 10 && b >= 10 {
        let da = decimal(a);
        let db = decimal(b);
        assert(da[da.len() - 1] == db[db.len() - 1]);
        lemma_digit_char_injective(a % 10, b % 10);
        assert(a % 10 == b % 10);
        assert(da.drop_last() =~= decimal(a / 10));
        assert(db.drop_last() =~= decimal(b / 10));
        lemma_decimal_injective(a / 10, b / 10);
    } else {
        assert(decimal(a).len() != decimal(b).len());
    }
}

/// A restore log line names one checkpoint and one step.
proof fn lemma_rewound_injective(n1: Seq<char>, k1: u64, n2: Seq<char>, k2: u64)
    requires
        rewound_message(n1, k1) == rewound_message(n2, k2),
    ensures
        n1 == n2,
        k1 == k2,
{
    reveal_strlit("TimeTravel: Rewound to checkpoint '");
    reveal_strlit("' at step ");
    let pre = "TimeTravel: Rewound to checkpoint '"@;
    let mid = "' at step "@;
    let d1 = decimal(k1 as nat);
    let d2 = decimal(k2 as nat);
    let m = rewound_message(n1, k1);
    lemma_decimal_digits(k1 as nat);
    lemma_decimal_digits(k2 as nat);
    assert(m == pre + n1 + mid + d1);
    assert(m == pre + n2 + mid + d2);
    let len = m.len() as int;
    if d1.len() > d2.len() {
        let i = len - d2.len() - 1;
        assert((pre + n2 + mid + d2)[i] == mid[mid.len() - 1]);
        assert((pre + n1 + mid + d1)[i] == d1[i - (len - d1.len())]);
        assert(false);
    } else if d2.len() > d1.len() {
        let i = len - d1.len() - 1;
        assert((pre + n1 + mid + d1)[i] == mid[mid.len() - 1]);
        assert((pre + n2 + mid + d2)[i] == d2[i - (len - d2.len())]);
        assert(false);
    } else {
        assert(n1.len() == n2.len());
        assert forall|i: int| 0 <= i < n1.len() implies n1[i] == n2[i] by {
            assert((pre + n1 + mid + d1)[pre.len() + i] == n1[i]);
            assert((pre + n2 + mid + d2)[pre.len() + i] == n2[i]);
        }
        assert(n1 =~= n2);
        assert forall|i: int| 0 <= i < d1.len() implies d1[i] == d2[i] by {
            assert((pre + n1 + mid + d1)[len - d1.len() + i] == d1[i]);
            assert((pre + n2 + mid + d2)[len - d2.len() + i] == d2[i]);
        }
        assert(d1 =~= d2);
        lemma_decimal_injective(k1 as nat, k2 as nat);
    }
}

/// No restore log line reads like the log line of a new branch.
proof fn lemma_branch_line_not_restore(name: Seq<char>, n: Seq<char>, k: u64)
    ensures
        rewound_message(n, k) != branch_created_message(name),
{
    reveal_strlit("TimeTravel: Rewound to checkpoint '");
    reveal_strlit("TimeTravel: Created and switched to branch '");
    reveal_strlit("' at step ");
    reveal_strlit("'");
    let a = rewound_message(n, k);
    let b = branch_created_message(name);
    assert(a[12] == 'R');
    assert(b[12] == 'C');
}

/// A message that is no restore log line names no snapshot.
proof fn lemma_restored_none(d: Seq<DeltaView>, msg: Seq<char>)
    requires
        forall|n: Seq<char>, k: u64| #[trigger] rewound_message(n, k) != msg,
    ensures
        restored_snapshot(d, msg) is None,
    decreases d.len(),
{
    if d.len() > 0 {
        lemma_restored_none(d.drop_last(), msg);
        match d.last() {
            DeltaView::Checkpoint { step, name, .. } => {
                assert(rewound_message(name, step) != msg);
            },
            _ => {},
        }
    }
}

proof fn lemma_state_at_later(d: Seq<DeltaView>, t1: u64, t2: u64)
    requires
        all_steps_at_most(d, t1),
        t1 <= t2,
    ensures
        state_at(d, t1) == state_at(d, t2),
    decreases d.len(),
{
    if d.len() > 0 {
        assert(all_steps_at_most(d.drop_last(), t1)) by {
            assert forall|i: int| 0 <= i < d.drop_last().len() implies delta_step(#[trigger] d.drop_last()[i]) <= t1 by {
                assert(d.drop_last()[i] == d[i]);
            }
        }
        lemma_state_at_later(d.drop_last(), t1, t2);
        assert(delta_step(d[d.len() - 1]) <= t1);
    }
}

proof fn lemma_state_at_push(d: Seq<DeltaView>, x: DeltaView, t: u64)
    ensures
        state_at(d.push(x), t) == match x {
            DeltaView::VarMutation { step, var_name, new_val, .. } => if step <= t {
                state_at(d, t).insert(var_name, new_val)
            } else {
                state_at(d, t)
            },
            DeltaView::LogOutput { step, message } => if step <= t {
                match restored_snapshot(d, message) {
                    Some(snapshot) => snapshot,
                    None => state_at(d, t),
                }
            } else {
                state_at(d, t)
            },
            _ => state_at(d, t),
        },
{
    assert(d.push(x).drop_last() =~= d);
}

/// Only checkpoint events name snapshots.
proof fn lemma_restored_push(d: Seq<DeltaView>, x: DeltaView, msg: Seq<char>)
    ensures
        restored_snapshot(d.push(x), msg) == match x {
            DeltaView::Checkpoint { step, name, snapshot } => if rewound_message(name, step) == msg {
                Some(snapshot)
            } else {
                restored_snapshot(d, msg)
            },
            _ => restored_snapshot(d, msg),
        },
{
    assert(d.push(x).drop_last() =~= d);
}

proof fn lemma_steps_push(d: Seq<DeltaView>, x: DeltaView, t1: u64, t2: u64)
    requires
        all_steps_at_most(d, t1),
        t1 <= t2,
        delta_step(x) <= t2,
    ensures
        all_steps_at_most(d.push(x), t2),
{
    assert forall|i: int| 0 <= i < d.push(x).len() implies delta_step(#[trigger] d.push(x)[i]) <= t2 by {
        if i < d.len() {
            assert(d.push(x)[i] == d[i]);
        }
    }
}

/// Pushing an event that is no checkpoint, at a step not below the current one, keeps every
/// checkpoint findable.
proof fn lemma_journaled_push(s: SessionView, t: SessionView, x: DeltaView)
    requires
        checkpoints_journaled(s),
        !(x is Checkpoint),
        t.deltas == s.deltas.push(x),
        t.checkpoints == s.checkpoints,
        t.current_step >= s.current_step,
    ensures
        checkpoints_journaled(t),
{
    assert forall|n: Seq<char>| #[trigger] t.checkpoints.dom().contains(n) implies t.checkpoints[n].0
        <= t.current_step && restored_snapshot(t.deltas, rewound_message(n, t.checkpoints[n].0))
        == Some(t.checkpoints[n].1) by {
        lemma_restored_push(s.deltas, x, rewound_message(n, s.checkpoints[n].0));
    }
}

/// A new session replays to its (empty) variables.
pub proof fn lemma_replay_fresh(id: u64)
    ensures
        replay_consistent(fresh_session(id)),
{
}

/// Recording a mutation keeps the journal's replay equal to the current variables.
pub proof fn lemma_replay_record_mutation(s: SessionView, var: Seq<char>, v: ValueView)
    requires
        replay_consistent(s),
        s.current_step < u64::MAX,
    ensures
        replay_consistent(spec_record_mutation(s, var, v)),
{
    let t = spec_record_mutation(s, var, v);
    let x = t.deltas.last();
    assert(t.deltas == s.deltas.push(x));
    lemma_steps_push(s.deltas, x, s.current_step, t.current_step);
    lemma_state_at_later(s.deltas, s.current_step, t.current_step);
    lemma_state_at_push(s.deltas, x, t.current_step);
    lemma_journaled_push(s, t, x);
}

/// Recording an operation keeps the journal's replay equal to the current variables.
pub proof fn lemma_replay_record_step(s: SessionView, op: Seq<char>, details: Seq<char>)
    requires
        replay_consistent(s),
        s.current_step < u64::MAX,
    ensures
        replay_consistent(spec_record_step(s, op, details)),
{
    let t = spec_record_step(s, op, details);
    let x = t.deltas.last();
    assert(t.deltas == s.deltas.push(x));
    lemma_steps_push(s.deltas, x, s.current_step, t.current_step);
    lemma_state_at_later(s.deltas, s.current_step, t.current_step);
    lemma_state_at_push(s.deltas, x, t.current_step);
    lemma_journaled_push(s, t, x);
}

/// Recording a log line keeps the journal's replay equal to the current variables, unless
/// the line reads like the restore line of a checkpoint event in the journal.
pub proof fn lemma_replay_record_log(s: SessionView, message: Seq<char>)
    requires
        replay_consistent(s),
        restored_snapshot(s.deltas, message) is None,
    ensures
        replay_consistent(spec_record_log(s, message)),
{
    let t = spec_record_log(s, message);
    let x = t.deltas.last();
    assert(t.deltas == s.deltas.push(x));
    lemma_steps_push(s.deltas, x, s.current_step, t.current_step);
    lemma_state_at_push(s.deltas, x, t.current_step);
    lemma_journaled_push(s, t, x);
}

/// Taking a checkpoint keeps the journal's replay equal to the current variables.
pub proof fn lemma_replay_create_checkpoint(s: SessionView, name: Seq<char>)
    requires
        replay_consistent(s),
        s.current_step < u64::MAX,
    ensures
        replay_consistent(spec_create_checkpoint(s, name)),
{
    let t = spec_create_checkpoint(s, name);
    let x = t.deltas.last();
    assert(t.deltas == s.deltas.push(x));
    lemma_steps_push(s.deltas, x, s.current_step, t.current_step);
    lemma_state_at_later(s.deltas, s.current_step, t.current_step);
    lemma_state_at_push(s.deltas, x, t.current_step);
    assert forall|n: Seq<char>| #[trigger] t.checkpoints.dom().contains(n) implies t.checkpoints[n].0
        <= t.current_step && restored_snapshot(t.deltas, rewound_message(n, t.checkpoints[n].0))
        == Some(t.checkpoints[n].1) by {
        lemma_restored_push(s.deltas, x, rewound_message(n, t.checkpoints[n].0));
        if n != name {
            if rewound_message(name, t.current_step) == rewound_message(n, s.checkpoints[n].0) {
                lemma_rewound_injective(name, t.current_step, n, s.checkpoints[n].0);
            }
        }
    }
}

/// Restoring a checkpoint keeps the journal's replay equal to the current variables: replaying
/// up to the new step gives the restored variables.
pub proof fn lemma_replay_restore_checkpoint(s: SessionView, name: Seq<char>)
    requires
        replay_consistent(s),
        s.current_step < u64::MAX,
        s.checkpoints.dom().contains(name),
    ensures
        replay_consistent(spec_restore_checkpoint(s, name)),
{
    let t = spec_restore_checkpoint(s, name);
    let x = t.deltas.last();
    assert(t.deltas == s.deltas.push(x));
    assert(s.checkpoints.dom().contains(name));
    lemma_steps_push(s.deltas, x, s.current_step, t.current_step);
    lemma_state_at_push(s.deltas, x, t.current_step);
    lemma_journaled_push(s, t, x);
}

/// Creating a branch keeps the journal's replay equal to the current variables.
pub proof fn lemma_replay_branch(s: SessionView, name: Seq<char>)
    requires
        replay_consistent(s),
    ensures
        replay_consistent(spec_branch(s, name)),
{
    let t = spec_branch(s, name);
    let x = t.deltas.last();
    assert(t.deltas == s.deltas.push(x));
    assert forall|n: Seq<char>, k: u64| #[trigger] rewound_message(n, k) != branch_created_message(name) by {
        lemma_branch_line_not_restore(name, n, k);
    }
    lemma_restored_none(s.deltas, branch_created_message(name));
    lemma_steps_push(s.deltas, x, s.current_step, t.current_step);
    lemma_state_at_push(s.deltas, x, t.current_step);
    lemma_journaled_push(s, t, x);
}

// ------------------------------------------------------------------------------------------
// Navigation decisions of the interactive viewer
// ------------------------------------------------------------------------------------------

/// What the viewer loop does after a command.
pub enum TuiControl {
    Continue,
    Quit,
}

pub open spec fn is_back_cmd(c: Seq<char>) -> bool {
    c == "h"@ || c == "p"@ || c == "prev"@ || c == "back"@ || c == "rewind"@ || c == "left"@
}

pub open spec fn is_forward_cmd(c: Seq<char>) -> bool {
    c == "l"@ || c == "n"@ || c == "next"@ || c == "forward"@ || c == "redo"@ || c == "right"@
}

pub open spec fn is_diff_cmd(c: Seq<char>) -> bool {
    c == "d"@ || c == "diff"@
}

pub open spec fn is_checkpoint_cmd(c: Seq<char>) -> bool {
    c == "c"@ || c == "checkpoint"@
}

pub open spec fn is_branch_cmd(c: Seq<char>) -> bool {
    c == "b"@ || c == "branch"@
}

pub open spec fn is_quit_cmd(c: Seq<char>) -> bool {
    c == "q"@ || c == "exit"@ || c == "quit"@
}

pub open spec fn checkpoint_name(cursor: u64) -> Seq<char> {
    "cp_step_"@ + decimal(cursor as nat)
}

pub open spec fn branch_name(cursor: u64) -> Seq<char> {
    "branch_"@ + decimal(cursor as nat)
}

/// The session, cursor, diff switch and whether to quit, after command `c`.
pub open spec fn spec_tui_command(s: SessionView, cursor: u64, show: bool, c: Seq<char>) -> (
    SessionView,
    u64,
    bool,
    bool,
) {
    if is_back_cmd(c) {
        (s, if cursor > 0 { (cursor - 1) as u64 } else { cursor }, show, false)
    } else if is_forward_cmd(c) {
        (s, if cursor < s.current_step { (cursor + 1) as u64 } else { cursor }, show, false)
    } else if is_diff_cmd(c) {
        (s, cursor, !show, false)
    } else if is_checkpoint_cmd(c) {
        let t = spec_create_checkpoint(s, checkpoint_name(cursor));
        (t, t.current_step, show, false)
    } else if is_branch_cmd(c) {
        let t = if s.branches.dom().contains(branch_name(cursor)) {
            s
        } else {
            spec_branch(s, branch_name(cursor))
        };
        (t, cursor, show, false)
    } else if is_quit_cmd(c) {
        (s, cursor, show, true)
    } else {
        match parse_u64_spec(c) {
            Some(n) => (s, if n < s.current_step { n } else { s.current_step }, show, false),
            None => (s, cursor, show, false),
        }
    }
}

/// Applies one (trimmed, lower-cased) viewer command.
pub fn tui_command(session: &mut TimeTravelSession, cursor: u64, show_diff: bool, cmd: &str) -> (r: (
    u64,
    bool,
    TuiControl,
))
    requires
        old(session).wf(),
        is_checkpoint_cmd(cmd@) ==> old(session).current_step < u64::MAX,
    ensures
        final(session).wf(),
        ({
            let (t, c2, d2, q) = spec_tui_command(old(session)@, cursor, show_diff, cmd@);
            &&& final(session)@ == t
            &&& r.0 == c2
            &&& r.1 == d2
            &&& (r.2 is Quit) == q
        }),
{
    let c = chars_of(cmd);
    if chars_are(&c, "h") || chars_are(&c, "p") || chars_are(&c, "prev") || chars_are(&c, "back")
        || chars_are(&c, "rewind") || chars_are(&c, "left") {
        let next = if cursor > 0 { cursor - 1 } else { cursor };
        (next, show_diff, TuiControl::Continue)
    } else if chars_are(&c, "l") || chars_are(&c, "n") || chars_are(&c, "next") || chars_are(
        &c,
        "forward",
    ) || chars_are(&c, "redo") || chars_are(&c, "right") {
        let next = if cursor < session.current_step { cursor + 1 } else { cursor };
        (next, show_diff, TuiControl::Continue)
    } else if chars_are(&c, "d") || chars_are(&c, "diff") {
        (cursor, !show_diff, TuiControl::Continue)
    } else if chars_are(&c, "c") || chars_are(&c, "checkpoint") {
        let mut name = string_of("cp_step_");
        push_decimal(&mut name, cursor);
        session.create_checkpoint(name.as_str());
        (session.current_step, show_diff, TuiControl::Continue)
    } else if chars_are(&c, "b") || chars_are(&c, "branch") {
        let mut name = string_of("branch_");
        push_decimal(&mut name, cursor);
        let _ = session.branch_timeline(name.as_str());
        (cursor, show_diff, TuiControl::Continue)
    } else if chars_are(&c, "q") || chars_are(&c, "exit") || chars_are(&c, "quit") {
        (cursor, show_diff, TuiControl::Quit)
    } else {
        match parse_u64(&c) {
            Some(n) => {
                let next = if n < session.current_step { n } else { session.current_step };
                (next, show_diff, TuiControl::Continue)
            },
            None => (cursor, show_diff, TuiControl::Continue),
        }
    }
}

/// The command that an input line stands for: the line trimmed and lower-cased.
pub open spec fn command_of_line(line: Seq<char>) -> Seq<char> {
    lowercase(trim_spec(line))
}

/// Applies one line of viewer input.
pub fn tui_handle_line(session: &mut TimeTravelSession, cursor: u64, show_diff: bool, line: &str) -> (r: (
    u64,
    bool,
    TuiControl,
))
    requires
        old(session).wf(),
        is_checkpoint_cmd(command_of_line(line@)) ==> old(session).current_step < u64::MAX,
    ensures
        final(session).wf(),
        ({
            let (t, c2, d2, q) = spec_tui_command(
                old(session)@,
                cursor,
                show_diff,
                command_of_line(line@),
            );
            &&& final(session)@ == t
            &&& r.0 == c2
            &&& r.1 == d2
            &&& (r.2 is Quit) == q
        }),
{
    let cs = chars_of(line);
    let (lo, hi) = trim_bounds(&cs);
    let trimmed = string_from_range(&cs, lo, hi);
    let cmd = to_lowercase(trimmed.as_str());
    tui_command(session, cursor, show_diff, cmd.as_str())
}

/// ANSI terminal escape sequences used by the debugger's screen.
pub struct Ansi;

impl Ansi {
    pub const RESET: &'static str = "\x1B[0m";
    pub const BOLD: &'static str = "\x1B[1m";
    pub const DIM: &'static str = "\x1B[2m";
    pub const UNDERLINE: &'static str = "\x1B[4m";
    pub const RED: &'static str = "\x1B[31m";
    pub const GREEN: &'static str = "\x1B[32m";
    pub const YELLOW: &'static str = "\x1B[33m";
    pub const BLUE: &'static str = "\x1B[34m";
    pub const MAGENTA: &'static str = "\x1B[35m";
    pub const CYAN: &'static str = "\x1B[36m";
    pub const WHITE: &'static str = "\x1B[37m";
    pub const BG_CYAN: &'static str = "\x1B[46m";
    pub const BG_BLUE: &'static str = "\x1B[44m";
    pub const BG_MAGENTA: &'static str = "\x1B[45m";
    pub const BG_GREEN: &'static str = "\x1B[42m";
    pub const BLACK_TEXT: &'static str = "\x1B[30m";
    pub const CLEAR_SCREEN: &'static str = "\x1B[2J\x1B[1;1H";
}

} // verus!
