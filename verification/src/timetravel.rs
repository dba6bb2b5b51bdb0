//! Time-reversible execution history: journaled mutations, checkpoints, rewinding, branching.
use vstd::prelude::*;
use crate::strmap::{StrMap, lemma_map_of_value, lemma_map_of_contains};
use crate::text::{decimal, push_decimal, push_str, string_of};
use crate::value::{Value, ValueView, entry_models, lemma_entry_models};

verus! {

/// One journaled event of a session.
pub enum StateDelta {
    VarMutation { step: u64, var_name: String, old_val: Option<Value>, new_val: Value },
    StepOp { step: u64, op_name: String, details: String },
    Checkpoint { step: u64, name: String, snapshot: StrMap<Value> },
    LogOutput { step: u64, message: String },
}

/// The content of a journaled event.
pub enum DeltaView {
    VarMutation {
        step: u64,
        var_name: Seq<char>,
        old_val: Option<ValueView>,
        new_val: ValueView,
    },
    StepOp { step: u64, op_name: Seq<char>, details: Seq<char> },
    Checkpoint { step: u64, name: Seq<char>, snapshot: Map<Seq<char>, ValueView> },
    LogOutput { step: u64, message: Seq<char> },
}

pub open spec fn option_view(o: Option<Value>) -> Option<ValueView> {
    match o {
        Some(v) => Some(v@),
        None => None,
    }
}

impl View for StateDelta {
    type V = DeltaView;

    open spec fn view(&self) -> DeltaView {
        match self {
            StateDelta::VarMutation { step, var_name, old_val, new_val } => DeltaView::VarMutation {
                step: *step,
                var_name: var_name@,
                old_val: option_view(*old_val),
                new_val: new_val@,
            },
            StateDelta::StepOp { step, op_name, details } => DeltaView::StepOp {
                step: *step,
                op_name: op_name@,
                details: details@,
            },
            StateDelta::Checkpoint { step, name, snapshot } => DeltaView::Checkpoint {
                step: *step,
                name: name@,
                snapshot: snapshot@,
            },
            StateDelta::LogOutput { step, message } => DeltaView::LogOutput {
                step: *step,
                message: message@,
            },
        }
    }
}

/// The step at which an event was journaled.
pub open spec fn delta_step(d: DeltaView) -> u64 {
    match d {
        DeltaView::VarMutation { step, .. } => step,
        DeltaView::StepOp { step, .. } => step,
        DeltaView::Checkpoint { step, .. } => step,
        DeltaView::LogOutput { step, .. } => step,
    }
}

/// A debugging session over one program run.
pub struct TimeTravelSession {
    pub id: u64,
    pub current_step: u64,
    pub active_timeline: String,
    pub deltas: Vec<StateDelta>,
    pub current_state: StrMap<Value>,
    pub checkpoints: StrMap<(u64, StrMap<Value>)>,
    pub branches: StrMap<StrMap<Value>>,
}

/// The content of a session.
pub struct SessionView {
    pub id: u64,
    pub current_step: u64,
    pub active_timeline: Seq<char>,
    pub deltas: Seq<DeltaView>,
    pub state: Map<Seq<char>, ValueView>,
    pub checkpoints: Map<Seq<char>, (u64, Map<Seq<char>, ValueView>)>,
    pub branches: Map<Seq<char>, Map<Seq<char>, ValueView>>,
}

pub open spec fn delta_views(d: Seq<StateDelta>) -> Seq<DeltaView> {
    d.map_values(|x: StateDelta| x@)
}

impl View for TimeTravelSession {
    type V = SessionView;

    open spec fn view(&self) -> SessionView {
        SessionView {
            id: self.id,
            current_step: self.current_step,
            active_timeline: self.active_timeline@,
            deltas: delta_views(self.deltas@),
            state: self.current_state@,
            checkpoints: self.checkpoints@,
            branches: self.branches@,
        }
    }
}

// ------------------------------------------------------------------------------------------
// The transitions, stated over the content of a session
// ------------------------------------------------------------------------------------------

pub open spec fn with_delta(s: SessionView, d: DeltaView) -> SessionView {
    SessionView { deltas: s.deltas.push(d), ..s }
}

pub open spec fn spec_record_step(s: SessionView, op: Seq<char>, details: Seq<char>) -> SessionView {
    let step = (s.current_step + 1) as u64;
    SessionView {
        current_step: step,
        deltas: s.deltas.push(DeltaView::StepOp { step, op_name: op, details }),
        ..s
    }
}

pub open spec fn spec_record_mutation(s: SessionView, var: Seq<char>, v: ValueView) -> SessionView {
    let step = (s.current_step + 1) as u64;
    let old_val = if s.state.dom().contains(var) { Some(s.state[var]) } else { None };
    SessionView {
        current_step: step,
        state: s.state.insert(var, v),
        deltas: s.deltas.push(DeltaView::VarMutation { step, var_name: var, old_val, new_val: v }),
        ..s
    }
}

pub open spec fn spec_record_log(s: SessionView, message: Seq<char>) -> SessionView {
    with_delta(s, DeltaView::LogOutput { step: s.current_step, message })
}

pub open spec fn spec_create_checkpoint(s: SessionView, name: Seq<char>) -> SessionView {
    let step = (s.current_step + 1) as u64;
    SessionView {
        current_step: step,
        checkpoints: s.checkpoints.insert(name, (step, s.state)),
        deltas: s.deltas.push(DeltaView::Checkpoint { step, name, snapshot: s.state }),
        ..s
    }
}

pub open spec fn not_found_message(name: Seq<char>) -> Seq<char> {
    "Checkpoint '"@ + name + "' not found"@
}

pub open spec fn rewound_message(name: Seq<char>, step: u64) -> Seq<char> {
    "TimeTravel: Rewound to checkpoint '"@ + name + "' at step "@ + decimal(step as nat)
}

/// The session after restoring checkpoint `name`, which must exist: its variables become the
/// checkpoint's, the step advances, and the journal records one log line naming the checkpoint
/// and the step at which it was taken.
pub open spec fn spec_restore_checkpoint(s: SessionView, name: Seq<char>) -> SessionView {
    let (step, snapshot) = s.checkpoints[name];
    let moved = SessionView { state: snapshot, current_step: (s.current_step + 1) as u64, ..s };
    spec_record_log(moved, rewound_message(name, step))
}

/// The state with the change of one journaled mutation undone.
pub open spec fn undo_mutation(
    state: Map<Seq<char>, ValueView>,
    var: Seq<char>,
    old_val: Option<ValueView>,
) -> Map<Seq<char>, ValueView> {
    match old_val {
        Some(v) => state.insert(var, v),
        None => state.remove(var),
    }
}

/// Walking back from position `idx`, undoes mutations until `steps` of them are undone.
/// Returns the state, the position reached and the number undone.
pub open spec fn rewind_walk(
    deltas: Seq<DeltaView>,
    state: Map<Seq<char>, ValueView>,
    idx: nat,
    steps: nat,
    rolled: nat,
) -> (Map<Seq<char>, ValueView>, nat, nat)
    decreases idx,
{
    if idx == 0 || rolled >= steps {
        (state, idx, rolled)
    } else {
        match deltas[idx - 1] {
            DeltaView::VarMutation { var_name, old_val, .. } => rewind_walk(
                deltas,
                undo_mutation(state, var_name, old_val),
                (idx - 1) as nat,
                steps,
                rolled + 1,
            ),
            _ => rewind_walk(deltas, state, (idx - 1) as nat, steps, rolled),
        }
    }
}

/// The step of the last journaled event, or 0.
pub open spec fn last_step(deltas: Seq<DeltaView>) -> u64 {
    if deltas.len() == 0 {
        0
    } else {
        delta_step(deltas.last())
    }
}

/// The session after rewinding `steps` mutations (for `steps > 0`), and the number undone.
pub open spec fn spec_rewind(s: SessionView, steps: nat) -> (SessionView, nat) {
    let (state, idx, rolled) = rewind_walk(s.deltas, s.state, s.deltas.len(), steps, 0);
    let kept = s.deltas.take(idx as int);
    (SessionView { state, deltas: kept, current_step: last_step(kept), ..s }, rolled)
}

pub open spec fn branch_exists_message(name: Seq<char>) -> Seq<char> {
    "Branch '"@ + name + "' already exists"@
}

pub open spec fn branch_created_message(name: Seq<char>) -> Seq<char> {
    "TimeTravel: Created and switched to branch '"@ + name + "'"@
}

/// The session after creating branch `name`, which must not exist yet.
pub open spec fn spec_branch(s: SessionView, name: Seq<char>) -> SessionView {
    let forked = SessionView {
        branches: s.branches.insert(name, s.state),
        active_timeline: name,
        ..s
    };
    spec_record_log(forked, branch_created_message(name))
}

/// A new session: step 0 on the main timeline, with nothing recorded.
pub open spec fn fresh_session(id: u64) -> SessionView {
    SessionView {
        id,
        current_step: 0,
        active_timeline: "main"@,
        deltas: Seq::empty(),
        state: Map::empty(),
        checkpoints: Map::empty(),
        branches: Map::empty(),
    }
}

// ------------------------------------------------------------------------------------------
// The session
// ------------------------------------------------------------------------------------------

impl TimeTravelSession {
    /// The maps of the session are well formed.
    pub open spec fn wf(&self) -> bool {
        &&& self.current_state.wf()
        &&& self.checkpoints.wf()
        &&& self.branches.wf()
        &&& forall|i: int|
            0 <= i < self.checkpoints.entries@.len() ==> (#[trigger] self.checkpoints.entries@[i]).1.1.wf()
    }

    pub fn new(id: u64) -> (s: Self)
        ensures
            s.wf(),
            s@ == fresh_session(id),
    {
        let s = TimeTravelSession {
            id,
            current_step: 0,
            active_timeline: string_of("main"),
            deltas: Vec::new(),
            current_state: StrMap::new(),
            checkpoints: StrMap::new(),
            branches: StrMap::new(),
        };
        assert(delta_views(s.deltas@) =~= Seq::<DeltaView>::empty());
        s
    }

    fn push_delta(&mut self, d: StateDelta)
        ensures
            final(self)@ == with_delta(old(self)@, d@),
            final(self).current_state == old(self).current_state,
            final(self).checkpoints == old(self).checkpoints,
            final(self).branches == old(self).branches,
    {
        self.deltas.push(d);
        assert(delta_views(self.deltas@) =~= delta_views(old(self).deltas@).push(d@));
    }

    /// Records an executed operation; returns the new step number.
    pub fn record_step(&mut self, op_name: &str, details: &str) -> (step: u64)
        requires
            old(self).current_step < u64::MAX,
        ensures
            final(self)@ == spec_record_step(old(self)@, op_name@, details@),
            step == final(self).current_step,
            final(self).wf() == old(self).wf(),
    {
        self.current_step = self.current_step + 1;
        let step = self.current_step;
        self.push_delta(StateDelta::StepOp {
            step,
            op_name: string_of(op_name),
            details: string_of(details),
        });
        step
    }

    /// Records a variable mutation, keeping the previous value for rewinding; returns the new
    /// step number.
    pub fn record_mutation(&mut self, var_name: &str, new_val: Value) -> (step: u64)
        requires
            old(self).wf(),
            old(self).current_step < u64::MAX,
        ensures
            final(self).wf(),
            final(self)@ == spec_record_mutation(old(self)@, var_name@, new_val@),
            step == final(self).current_step,
    {
        self.current_step = self.current_step + 1;
        let key = string_of(var_name);
        let old_val = match self.current_state.get(&key) {
            Some(v) => Some(v.copy()),
            None => None,
        };
        let kept = new_val.copy();
        self.current_state.insert(string_of(var_name), kept);
        let step = self.current_step;
        self.push_delta(StateDelta::VarMutation { step, var_name: key, old_val, new_val });
        step
    }

    /// Records a log or print event at the current step.
    pub fn record_log(&mut self, message: &str)
        ensures
            final(self)@ == spec_record_log(old(self)@, message@),
            final(self).current_state == old(self).current_state,
            final(self).checkpoints == old(self).checkpoints,
            final(self).branches == old(self).branches,
    {
        let step = self.current_step;
        self.push_delta(StateDelta::LogOutput { step, message: string_of(message) });
    }

    /// Takes a named snapshot of the current variables; returns the new step number.
    pub fn create_checkpoint(&mut self, name: &str) -> (step: u64)
        requires
            old(self).wf(),
            old(self).current_step < u64::MAX,
        ensures
            final(self).wf(),
            final(self)@ == spec_create_checkpoint(old(self)@, name@),
            step == final(self).current_step,
    {
        self.current_step = self.current_step + 1;
        let step = self.current_step;
        let snapshot = self.current_state.duplicate_map();
        let kept = self.current_state.duplicate_map();
        let ghost before = self.checkpoints.entries@;
        let key = string_of(name);
        let entry = (step, kept);
        let ghost g = (key, entry);
        self.checkpoints.insert(key, entry);
        proof {
            assert forall|i: int| 0 <= i < self.checkpoints.entries@.len() implies (
            #[trigger] self.checkpoints.entries@[i]).1.1.wf() by {
                if self.checkpoints.entries@[i] == g {
                    assert(g.1.1.wf());
                } else {
                    assert(self.checkpoints.entries@[i] == before[i]);
                }
            }
        }
        self.push_delta(StateDelta::Checkpoint { step, name: string_of(name), snapshot });
        step
    }

    /// Restores the variables of checkpoint `name`; returns the step at which it was taken.
    pub fn restore_checkpoint(&mut self, name: &str) -> (r: Result<u64, String>)
        requires
            old(self).wf(),
            old(self).current_step < u64::MAX,
        ensures
            final(self).wf(),
            old(self)@.checkpoints.dom().contains(name@) ==> r == Ok::<u64, String>(
                old(self)@.checkpoints[name@].0,
            ) && final(self)@ == spec_restore_checkpoint(old(self)@, name@),
            !old(self)@.checkpoints.dom().contains(name@) ==> (r matches Err(e) && e@
                == not_found_message(name@)) && final(self)@ == old(self)@,
    {
        let key = string_of(name);
        match self.checkpoints.position(&key) {
            None => {
                let mut e = string_of("Checkpoint '");
                push_str(&mut e, name);
                push_str(&mut e, "' not found");
                Err(e)
            },
            Some(i) => {
                proof {
                    lemma_map_of_value(self.checkpoints.entries@, i as int);
                }
                let step = self.checkpoints.entries[i].1.0;
                let snapshot = self.checkpoints.entries[i].1.1.duplicate_map();
                self.current_state = snapshot;
                self.current_step = self.current_step + 1;
                let mut msg = string_of("TimeTravel: Rewound to checkpoint '");
                push_str(&mut msg, name);
                push_str(&mut msg, "' at step ");
                push_decimal(&mut msg, step);
                self.record_log(msg.as_str());
                Ok(step)
            },
        }
    }

    /// Rewinds `steps` variable mutations, undoing them in reverse order and dropping the
    /// journal from the first undone one on; returns how many were undone.
    pub fn rewind_steps(&mut self, steps: usize) -> (r: Result<usize, String>)
        requires
            old(self).wf(),
        ensures
            final(self).wf(),
            steps == 0 ==> r == Ok::<usize, String>(0) && final(self)@ == old(self)@,
            steps > 0 ==> r == Ok::<usize, String>(spec_rewind(old(self)@, steps as nat).1 as usize)
                && final(self)@ == spec_rewind(old(self)@, steps as nat).0,
    {
        if steps == 0 {
            return Ok(0);
        }
        let ghost s0 = self@;
        let mut rolled: usize = 0;
        let mut idx: usize = self.deltas.len();
        while idx > 0 && rolled < steps
            invariant
                idx <= self.deltas.len(),
                rolled <= steps,
                self.wf(),
                self.id == s0.id,
                self.active_timeline@ == s0.active_timeline,
                self.checkpoints@ == s0.checkpoints,
                self.branches@ == s0.branches,
                self.deltas@.len() == s0.deltas.len(),
                delta_views(self.deltas@) == s0.deltas,
                rewind_walk(s0.deltas, s0.state, s0.deltas.len(), steps as nat, 0) == rewind_walk(
                    s0.deltas,
                    self.current_state@,
                    idx as nat,
                    steps as nat,
                    rolled as nat,
                ),
            decreases idx,
        {
            idx = idx - 1;
            assert(s0.deltas[idx as int] == self.deltas@[idx as int]@);
            match &self.deltas[idx] {
                StateDelta::VarMutation { var_name, old_val, .. } => {
                    match old_val {
                        Some(val) => {
                            self.current_state.insert(var_name.clone(), val.copy());
                        },
                        None => {
                            self.current_state.remove(var_name);
                        },
                    }
                    rolled = rolled + 1;
                },
                _ => {},
            }
        }
        let ghost walked = self.current_state@;
        self.deltas.truncate(idx);
        assert(delta_views(self.deltas@) =~= s0.deltas.take(idx as int));
        self.current_step = if self.deltas.len() == 0 {
            0
        } else {
            let last = self.deltas.len() - 1;
            match &self.deltas[last] {
                StateDelta::VarMutation { step, .. } => *step,
                StateDelta::StepOp { step, .. } => *step,
                StateDelta::Checkpoint { step, .. } => *step,
                StateDelta::LogOutput { step, .. } => *step,
            }
        };
        Ok(rolled)
    }

    /// Forks the current variables into a new branch and switches to it.
    pub fn branch_timeline(&mut self, branch_name: &str) -> (r: Result<String, String>)
        requires
            old(self).wf(),
        ensures
            final(self).wf(),
            old(self)@.branches.dom().contains(branch_name@) ==> (r matches Err(e) && e@
                == branch_exists_message(branch_name@)) && final(self)@ == old(self)@,
            !old(self)@.branches.dom().contains(branch_name@) ==> (r matches Ok(n) && n@
                == branch_name@) && final(self)@ == spec_branch(old(self)@, branch_name@),
    {
        let key = string_of(branch_name);
        if self.branches.contains_key(&key) {
            let mut e = string_of("Branch '");
            push_str(&mut e, branch_name);
            push_str(&mut e, "' already exists");
            return Err(e);
        }
        let branch_state = self.current_state.duplicate_map();
        self.branches.insert(key, branch_state);
        self.active_timeline = string_of(branch_name);
        let mut msg = string_of("TimeTravel: Created and switched to branch '");
        push_str(&mut msg, branch_name);
        push_str(&mut msg, "'");
        self.record_log(msg.as_str());
        Ok(string_of(branch_name))
    }
}


/// The differences between two variable maps: changed or removed variables carry both values
/// (`Nil` for a missing one), added variables carry `Nil` and the new value.
pub open spec fn diff_spec(
    a: Map<Seq<char>, ValueView>,
    b: Map<Seq<char>, ValueView>,
) -> Map<Seq<char>, (ValueView, ValueView)> {
    Map::new(
        |k: Seq<char>|
            (a.dom().contains(k) && (!b.dom().contains(k) || a[k] != b[k])) || (b.dom().contains(k)
                && !a.dom().contains(k)),
        |k: Seq<char>|
            if a.dom().contains(k) {
                if b.dom().contains(k) {
                    (a[k], b[k])
                } else {
                    (a[k], ValueView::Nil)
                }
            } else {
                (ValueView::Nil, b[k])
            },
    )
}

/// Some entry among the first `n` has key `k`.
pub open spec fn key_in_prefix<V>(e: Seq<(String, V)>, n: int, k: Seq<char>) -> bool {
    exists|j: int| 0 <= j < n && #[trigger] e[j].0@ == k
}

/// Computes the differences between two variable maps.
pub fn diff_maps(a: &StrMap<Value>, b: &StrMap<Value>) -> (r: StrMap<(Value, Value)>)
    requires
        a.wf(),
        b.wf(),
    ensures
        r.wf(),
        r@ == diff_spec(a@, b@),
{
    let mut r: StrMap<(Value, Value)> = StrMap::new();
    let mut i: usize = 0;
    let ghost am = a@;
    let ghost bm = b@;
    while i < a.entries.len()
        invariant
            a.wf(),
            b.wf(),
            am == a@,
            bm == b@,
            i <= a.entries.len(),
            r.wf(),
            r@ == Map::new(
                |k: Seq<char>|
                    key_in_prefix(a.entries@, i as int, k) && (!bm.dom().contains(k) || am[k]
                        != bm[k]),
                |k: Seq<char>|
                    if bm.dom().contains(k) {
                        (am[k], bm[k])
                    } else {
                        (am[k], ValueView::Nil)
                    },
            ),
        decreases a.entries.len() - i,
    {
        let ghost k = a.entries@[i as int].0@;
        proof {
            lemma_map_of_value(a.entries@, i as int);
        }
        let ghost old_r = r@;
        match b.get(&a.entries[i].0) {
            Some(vb) => {
                if !a.entries[i].1.equals(vb) {
                    r.insert(a.entries[i].0.clone(), (a.entries[i].1.copy(), vb.copy()));
                }
            },
            None => {
                r.insert(a.entries[i].0.clone(), (a.entries[i].1.copy(), Value::Nil));
            },
        }
        i = i + 1;
        proof {
            let target = Map::new(
                |k2: Seq<char>|
                    key_in_prefix(a.entries@, i as int, k2) && (!bm.dom().contains(k2) || am[k2]
                        != bm[k2]),
                |k2: Seq<char>|
                    if bm.dom().contains(k2) {
                        (am[k2], bm[k2])
                    } else {
                        (am[k2], ValueView::Nil)
                    },
            );
            assert forall|k2: Seq<char>| #[trigger] key_in_prefix(a.entries@, i as int, k2) <==> (
            key_in_prefix(a.entries@, i - 1, k2) || k2 == k) by {
                if key_in_prefix(a.entries@, i as int, k2) && k2 != k {
                    let j = choose|j: int| 0 <= j < i && #[trigger] a.entries@[j].0@ == k2;
                    assert(j < i - 1);
                }
                if key_in_prefix(a.entries@, i - 1, k2) {
                    let j = choose|j: int| 0 <= j < i - 1 && #[trigger] a.entries@[j].0@ == k2;
                    assert(a.entries@[j].0@ == k2);
                }
                if k2 == k {
                    assert(a.entries@[i - 1].0@ == k2);
                }
            }
            assert(r@ =~= target);
        }
    }
    let mut t: usize = 0;
    proof {
        assert forall|k2: Seq<char>| key_in_prefix(a.entries@, a.entries@.len() as int, k2) implies am.dom().contains(k2) by {
            lemma_map_of_contains(a.entries@, k2);
        }
        assert forall|k2: Seq<char>| !(#[trigger] key_in_prefix(b.entries@, 0, k2)) by {}
        assert(r@ =~= Map::new(
            |k: Seq<char>|
                (key_in_prefix(a.entries@, a.entries@.len() as int, k) && (!bm.dom().contains(k)
                    || am[k] != bm[k])) || (key_in_prefix(b.entries@, t as int, k)
                    && !am.dom().contains(k)),
            |k: Seq<char>|
                if am.dom().contains(k) {
                    if bm.dom().contains(k) {
                        (am[k], bm[k])
                    } else {
                        (am[k], ValueView::Nil)
                    }
                } else {
                    (ValueView::Nil, bm[k])
                },
        ));
    }
    while t < b.entries.len()
        invariant
            a.wf(),
            b.wf(),
            am == a@,
            bm == b@,
            t <= b.entries.len(),
            r.wf(),
            r@ == Map::new(
                |k: Seq<char>|
                    (key_in_prefix(a.entries@, a.entries@.len() as int, k) && (!bm.dom().contains(k)
                        || am[k] != bm[k])) || (key_in_prefix(b.entries@, t as int, k)
                        && !am.dom().contains(k)),
                |k: Seq<char>|
                    if am.dom().contains(k) {
                        if bm.dom().contains(k) {
                            (am[k], bm[k])
                        } else {
                            (am[k], ValueView::Nil)
                        }
                    } else {
                        (ValueView::Nil, bm[k])
                    },
            ),
        decreases b.entries.len() - t,
    {
        let ghost k = b.entries@[t as int].0@;
        proof {
            lemma_map_of_value(b.entries@, t as int);
        }
        if !a.contains_key(&b.entries[t].0) {
            r.insert(b.entries[t].0.clone(), (Value::Nil, b.entries[t].1.copy()));
        }
        t = t + 1;
        proof {
            assert forall|k2: Seq<char>| #[trigger] key_in_prefix(b.entries@, t as int, k2) <==> (
            key_in_prefix(b.entries@, t - 1, k2) || k2 == k) by {
                if key_in_prefix(b.entries@, t as int, k2) && k2 != k {
                    let j = choose|j: int| 0 <= j < t && #[trigger] b.entries@[j].0@ == k2;
                    assert(j < t - 1);
                }
                if key_in_prefix(b.entries@, t - 1, k2) {
                    let j = choose|j: int| 0 <= j < t - 1 && #[trigger] b.entries@[j].0@ == k2;
                    assert(b.entries@[j].0@ == k2);
                }
                if k2 == k {
                    assert(b.entries@[t - 1].0@ == k2);
                }
            }
            assert forall|k2: Seq<char>| key_in_prefix(a.entries@, a.entries@.len() as int, k2) implies am.dom().contains(k2) by {
                lemma_map_of_contains(a.entries@, k2);
            }
            assert(r@ =~= Map::new(
                |k: Seq<char>|
                    (key_in_prefix(a.entries@, a.entries@.len() as int, k) && (!bm.dom().contains(k)
                        || am[k] != bm[k])) || (key_in_prefix(b.entries@, t as int, k)
                        && !am.dom().contains(k)),
                |k: Seq<char>|
                    if am.dom().contains(k) {
                        if bm.dom().contains(k) {
                            (am[k], bm[k])
                        } else {
                            (am[k], ValueView::Nil)
                        }
                    } else {
                        (ValueView::Nil, bm[k])
                    },
            ));
        }
    }
    proof {
        assert forall|k: Seq<char>| #[trigger] key_in_prefix(a.entries@, a.entries@.len() as int, k) == am.dom().contains(k) by {
            lemma_map_of_contains(a.entries@, k);
        }
        assert forall|k: Seq<char>| #[trigger] key_in_prefix(b.entries@, b.entries@.len() as int, k) == bm.dom().contains(k) by {
            lemma_map_of_contains(b.entries@, k);
        }
        assert(r@ =~= diff_spec(am, bm));
    }
    r
}

impl TimeTravelSession {
    /// Compares the snapshots of two checkpoints.
    pub fn diff_checkpoints(&self, cp_a: &str, cp_b: &str) -> (r: Result<StrMap<(Value, Value)>, String>)
        requires
            self.wf(),
        ensures
            !self@.checkpoints.dom().contains(cp_a@) ==> (r matches Err(e) && e@ == not_found_message(
                cp_a@,
            )),
            self@.checkpoints.dom().contains(cp_a@) && !self@.checkpoints.dom().contains(cp_b@) ==> (
            r matches Err(e) && e@ == not_found_message(cp_b@)),
            self@.checkpoints.dom().contains(cp_a@) && self@.checkpoints.dom().contains(cp_b@) ==> (
            r matches Ok(d) && d.wf() && d@ == diff_spec(
                self@.checkpoints[cp_a@].1,
                self@.checkpoints[cp_b@].1,
            )),
    {
        let ka = string_of(cp_a);
        let ia = match self.checkpoints.position(&ka) {
            Some(i) => i,
            None => {
                let mut e = string_of("Checkpoint '");
                push_str(&mut e, cp_a);
                push_str(&mut e, "' not found");
                return Err(e);
            },
        };
        let kb = string_of(cp_b);
        let ib = match self.checkpoints.position(&kb) {
            Some(i) => i,
            None => {
                let mut e = string_of("Checkpoint '");
                push_str(&mut e, cp_b);
                push_str(&mut e, "' not found");
                return Err(e);
            },
        };
        proof {
            lemma_map_of_value(self.checkpoints.entries@, ia as int);
            lemma_map_of_value(self.checkpoints.entries@, ib as int);
        }
        Ok(diff_maps(&self.checkpoints.entries[ia].1.1, &self.checkpoints.entries[ib].1.1))
    }
}


/// The key–value record of one journaled event, as `history_entries` lists it.
pub open spec fn history_entry(d: DeltaView) -> Seq<(Seq<char>, ValueView)> {
    match d {
        DeltaView::VarMutation { step, var_name, old_val, new_val } => seq![
            ("type"@, ValueView::String("mutation"@)),
            ("step"@, ValueView::Int(step as i64)),
            ("variable"@, ValueView::String(var_name)),
            ("old_value"@, match old_val { Some(v) => v, None => ValueView::Nil }),
            ("new_value"@, new_val),
        ],
        DeltaView::StepOp { step, op_name, details } => seq![
            ("type"@, ValueView::String("step"@)),
            ("step"@, ValueView::Int(step as i64)),
            ("op"@, ValueView::String(op_name)),
            ("details"@, ValueView::String(details)),
        ],
        DeltaView::Checkpoint { step, name, .. } => seq![
            ("type"@, ValueView::String("checkpoint"@)),
            ("step"@, ValueView::Int(step as i64)),
            ("name"@, ValueView::String(name)),
        ],
        DeltaView::LogOutput { step, message } => seq![
            ("type"@, ValueView::String("log"@)),
            ("step"@, ValueView::Int(step as i64)),
            ("message"@, ValueView::String(message)),
        ],
    }
}

fn text_value(t: &str) -> (v: Value)
    ensures
        v@ == ValueView::String(t@),
{
    Value::String(string_of(t))
}

fn entry(key: &str, v: Value) -> (e: (String, Value))
    ensures
        e.0@ == key@,
        e.1@ == v@,
{
    (string_of(key), v)
}

fn record_value(d: &StateDelta) -> (v: Value)
    ensures
        v@ == ValueView::MapEntries(history_entry(d@)),
{
    let entries: Vec<(String, Value)> = match d {
        StateDelta::VarMutation { step, var_name, old_val, new_val } => {
            let old_v = match old_val {
                Some(v) => v.copy(),
                None => Value::Nil,
            };
            vec![
                entry("type", text_value("mutation")),
                entry("step", Value::Int(*step as i64)),
                entry("variable", Value::String(var_name.clone())),
                entry("old_value", old_v),
                entry("new_value", new_val.copy()),
            ]
        },
        StateDelta::StepOp { step, op_name, details } => vec![
            entry("type", text_value("step")),
            entry("step", Value::Int(*step as i64)),
            entry("op", Value::String(op_name.clone())),
            entry("details", Value::String(details.clone())),
        ],
        StateDelta::Checkpoint { step, name, .. } => vec![
            entry("type", text_value("checkpoint")),
            entry("step", Value::Int(*step as i64)),
            entry("name", Value::String(name.clone())),
        ],
        StateDelta::LogOutput { step, message } => vec![
            entry("type", text_value("log")),
            entry("step", Value::Int(*step as i64)),
            entry("message", Value::String(message.clone())),
        ],
    };
    proof {
        lemma_entry_models(entries@);
        assert(entry_models(entries@) =~= history_entry(d@));
    }
    Value::MapEntries(entries)
}

impl TimeTravelSession {
    /// The journal as a list of records, one per event, oldest first.
    pub fn history_entries(&self) -> (r: Vec<Value>)
        ensures
            r@.len() == self@.deltas.len(),
            forall|i: int|
                0 <= i < r@.len() ==> (#[trigger] r@[i])@ == ValueView::MapEntries(
                    history_entry(self@.deltas[i]),
                ),
    {
        let mut out: Vec<Value> = Vec::new();
        let mut i: usize = 0;
        while i < self.deltas.len()
            invariant
                i <= self.deltas.len(),
                out@.len() == i,
                forall|j: int|
                    0 <= j < i ==> (#[trigger] out@[j])@ == ValueView::MapEntries(
                        history_entry(self.deltas@[j]@),
                    ),
            decreases self.deltas.len() - i,
        {
            out.push(record_value(&self.deltas[i]));
            i = i + 1;
        }
        out
    }
}


// ------------------------------------------------------------------------------------------
// Laws
// ------------------------------------------------------------------------------------------

/// Rewinding one step right after a recorded mutation gives back the variables, the journal
/// and the checkpoints as they were before the mutation, and reports one undone mutation.
pub proof fn lemma_rewind_undoes_mutation(s: SessionView, var: Seq<char>, v: ValueView)
    ensures
        ({
            let (t, n) = spec_rewind(spec_record_mutation(s, var, v), 1);
            &&& t.state == s.state
            &&& t.deltas == s.deltas
            &&& t.checkpoints == s.checkpoints
            &&& t.current_step == last_step(s.deltas)
            &&& n == 1
        }),
{
    let m = spec_record_mutation(s, var, v);
    let len = s.deltas.len();
    let old_val = if s.state.dom().contains(var) { Some(s.state[var]) } else { None };
    assert(m.deltas[len as int] == DeltaView::VarMutation {
        step: m.current_step,
        var_name: var,
        old_val,
        new_val: v,
    });
    let undone = undo_mutation(m.state, var, old_val);
    assert(rewind_walk(m.deltas, undone, len, 1, 1) == (undone, len, 1nat));
    assert(undone =~= s.state);
    assert(m.deltas.take(len as int) =~= s.deltas);
}

/// Restoring a checkpoint right after creating it gives back the variables it captured.
pub proof fn lemma_restore_after_checkpoint(s: SessionView, name: Seq<char>)
    ensures
        spec_restore_checkpoint(spec_create_checkpoint(s, name), name).state == s.state,
{
}

/// Mutations recorded after a checkpoint are discarded when it is restored.
pub proof fn lemma_restore_discards_later_mutation(
    s: SessionView,
    name: Seq<char>,
    var: Seq<char>,
    v: ValueView,
)
    ensures
        spec_restore_checkpoint(spec_record_mutation(spec_create_checkpoint(s, name), var, v), name).state
            == s.state,
{
}

/// The journal's steps never decrease, and the current step is the step of the last event
/// (0 with an empty journal).
pub open spec fn steps_in_order(s: SessionView) -> bool {
    &&& forall|i: int, j: int|
        0 <= i < j < s.deltas.len() ==> delta_step(#[trigger] s.deltas[i]) <= delta_step(
            #[trigger] s.deltas[j],
        )
    &&& s.current_step == last_step(s.deltas)
}

proof fn lemma_push_in_order(s: SessionView, x: DeltaView)
    requires
        steps_in_order(s),
        delta_step(x) >= s.current_step,
    ensures
        forall|i: int, j: int|
            0 <= i < j < s.deltas.push(x).len() ==> delta_step(#[trigger] s.deltas.push(x)[i])
                <= delta_step(#[trigger] s.deltas.push(x)[j]),
        last_step(s.deltas.push(x)) == delta_step(x),
{
    let d = s.deltas.push(x);
    assert forall|i: int, j: int| 0 <= i < j < d.len() implies delta_step(#[trigger] d[i])
        <= delta_step(#[trigger] d[j]) by {
        if j < s.deltas.len() {
            assert(d[i] == s.deltas[i] && d[j] == s.deltas[j]);
        } else {
            assert(d[i] == s.deltas[i]);
            assert(delta_step(s.deltas[i]) <= delta_step(s.deltas[s.deltas.len() - 1]));
        }
    }
}

proof fn lemma_rewind_walk_idx(
    deltas: Seq<DeltaView>,
    state: Map<Seq<char>, ValueView>,
    idx: nat,
    steps: nat,
    rolled: nat,
)
    ensures
        rewind_walk(deltas, state, idx, steps, rolled).1 <= idx,
    decreases idx,
{
    if !(idx == 0 || rolled >= steps) {
        match deltas[idx - 1] {
            DeltaView::VarMutation { var_name, old_val, .. } => lemma_rewind_walk_idx(
                deltas,
                undo_mutation(state, var_name, old_val),
                (idx - 1) as nat,
                steps,
                rolled + 1,
            ),
            _ => lemma_rewind_walk_idx(deltas, state, (idx - 1) as nat, steps, rolled),
        }
    }
}

/// A new session's journal is in step order.
pub proof fn lemma_order_fresh(id: u64)
    ensures
        steps_in_order(fresh_session(id)),
{
}

/// Every operation of a session keeps its journal in step order, with the current step the
/// step of the last event: recording a step, a mutation or a log line, taking or restoring a
/// checkpoint, creating a branch, and rewinding.
pub proof fn lemma_operations_keep_order(
    s: SessionView,
    op: Seq<char>,
    details: Seq<char>,
    var: Seq<char>,
    v: ValueView,
    name: Seq<char>,
    steps: nat,
)
    requires
        steps_in_order(s),
        s.current_step < u64::MAX,
    ensures
        steps_in_order(spec_record_step(s, op, details)),
        steps_in_order(spec_record_mutation(s, var, v)),
        steps_in_order(spec_record_log(s, details)),
        steps_in_order(spec_create_checkpoint(s, name)),
        s.checkpoints.dom().contains(name) ==> steps_in_order(spec_restore_checkpoint(s, name)),
        steps_in_order(spec_branch(s, name)),
        steps_in_order(spec_rewind(s, steps).0),
{
    let a = spec_record_step(s, op, details);
    lemma_push_in_order(s, a.deltas.last());
    assert(a.deltas == s.deltas.push(a.deltas.last()));
    let b = spec_record_mutation(s, var, v);
    lemma_push_in_order(s, b.deltas.last());
    assert(b.deltas == s.deltas.push(b.deltas.last()));
    let c = spec_record_log(s, details);
    lemma_push_in_order(s, c.deltas.last());
    assert(c.deltas == s.deltas.push(c.deltas.last()));
    let e = spec_create_checkpoint(s, name);
    lemma_push_in_order(s, e.deltas.last());
    assert(e.deltas == s.deltas.push(e.deltas.last()));
    if s.checkpoints.dom().contains(name) {
        let f = spec_restore_checkpoint(s, name);
        lemma_push_in_order(s, f.deltas.last());
        assert(f.deltas == s.deltas.push(f.deltas.last()));
    }
    let g = spec_branch(s, name);
    lemma_push_in_order(s, g.deltas.last());
    assert(g.deltas == s.deltas.push(g.deltas.last()));
    let (r, _) = spec_rewind(s, steps);
    let idx = rewind_walk(s.deltas, s.state, s.deltas.len(), steps, 0).1;
    lemma_rewind_walk_idx(s.deltas, s.state, s.deltas.len(), steps, 0);
    assert forall|i: int, j: int| 0 <= i < j < r.deltas.len() implies delta_step(
        #[trigger] r.deltas[i],
    ) <= delta_step(#[trigger] r.deltas[j]) by {
        assert(r.deltas[i] == s.deltas[i] && r.deltas[j] == s.deltas[j]);
    }
}

/// A recorded mutation followed by a rewind of one step is fully undone: the variables, the
/// journal, the checkpoints and the current step are as before.
pub proof fn lemma_rewind_restores_step(s: SessionView, var: Seq<char>, v: ValueView)
    requires
        steps_in_order(s),
    ensures
        spec_rewind(spec_record_mutation(s, var, v), 1).0.current_step == s.current_step,
{
    lemma_rewind_undoes_mutation(s, var, v);
}

/// The events that can be journaled between taking and restoring a checkpoint without touching
/// the checkpoints: operations, mutations and log lines.
pub enum JournalEvent {
    Step { op: Seq<char>, details: Seq<char> },
    Mutation { var: Seq<char>, value: ValueView },
    Log { message: Seq<char> },
}

/// The session after journaling `events` in order.
pub open spec fn apply_events(s: SessionView, events: Seq<JournalEvent>) -> SessionView
    decreases events.len(),
{
    if events.len() == 0 {
        s
    } else {
        let t = apply_events(s, events.drop_last());
        match events.last() {
            JournalEvent::Step { op, details } => spec_record_step(t, op, details),
            JournalEvent::Mutation { var, value } => spec_record_mutation(t, var, value),
            JournalEvent::Log { message } => spec_record_log(t, message),
        }
    }
}

proof fn lemma_events_keep_checkpoints(s: SessionView, events: Seq<JournalEvent>)
    ensures
        apply_events(s, events).checkpoints == s.checkpoints,
    decreases events.len(),
{
    if events.len() > 0 {
        lemma_events_keep_checkpoints(s, events.drop_last());
    }
}

/// Restoring a checkpoint after any later operations, mutations and log lines gives back the
/// variables it captured, reports the step at which it was taken, advances the step by one and
/// journals exactly one log line.
pub proof fn lemma_restore_after_events(s: SessionView, name: Seq<char>, events: Seq<JournalEvent>)
    ensures
        ({
            let c = spec_create_checkpoint(s, name);
            let t = apply_events(c, events);
            let r = spec_restore_checkpoint(t, name);
            &&& t.checkpoints.dom().contains(name)
            &&& t.checkpoints[name].0 == c.current_step
            &&& r.state == s.state
            &&& r.current_step == (t.current_step + 1) as u64
            &&& r.deltas == t.deltas.push(
                DeltaView::LogOutput { step: r.current_step, message: rewound_message(name, c.current_step) },
            )
        }),
{
    let c = spec_create_checkpoint(s, name);
    let t = apply_events(c, events);
    lemma_events_keep_checkpoints(c, events);
    let r = spec_restore_checkpoint(t, name);
}

// ------------------------------------------------------------------------------------------
// Session registry
// ------------------------------------------------------------------------------------------

/// The open sessions, each under the id it was created with.
pub struct SessionRegistry {
    pub next_id: u64,
    pub sessions: Vec<TimeTravelSession>,
}

impl SessionRegistry {
    /// Ids are handed out from 1 upwards; every open session has a distinct id below `next_id`.
    pub open spec fn wf(&self) -> bool {
        &&& self.next_id >= 1
        &&& forall|i: int| 0 <= i < self.sessions@.len() ==> (#[trigger] self.sessions@[i]).id < self.next_id
        &&& forall|i: int, j: int|
            0 <= i < j < self.sessions@.len() ==> #[trigger] self.sessions@[i].id
                != #[trigger] self.sessions@[j].id
        &&& forall|i: int| 0 <= i < self.sessions@.len() ==> (#[trigger] self.sessions@[i]).wf()
    }

    pub fn new() -> (r: Self)
        ensures
            r.wf(),
            r.next_id == 1,
            r.sessions@.len() == 0,
    {
        SessionRegistry { next_id: 1, sessions: Vec::new() }
    }
}

/// In a well-formed registry the open session with a given id is unique, and no open session
/// has an id that was never handed out: so a session just created is the one found under its
/// id, and an id at or above the next id is not found.
pub proof fn lemma_session_ids(reg: SessionRegistry, id: u64, i: int, j: int)
    requires
        reg.wf(),
        0 <= i < reg.sessions@.len(),
        0 <= j < reg.sessions@.len(),
        reg.sessions@[i].id == id,
        reg.sessions@[j].id == id,
    ensures
        i == j,
        id < reg.next_id,
{
    if i < j {
        assert(reg.sessions@[i].id != reg.sessions@[j].id);
    } else if j < i {
        assert(reg.sessions@[j].id != reg.sessions@[i].id);
    }
}

pub open spec fn session_not_found_message(id: u64) -> Seq<char> {
    "TimeTravel session "@ + decimal(id as nat) + " not found"@
}

/// Opens a new session and returns its id.
pub fn create_session(reg: &mut SessionRegistry) -> (id: u64)
    requires
        old(reg).wf(),
        old(reg).next_id < u64::MAX,
    ensures
        final(reg).wf(),
        id == old(reg).next_id,
        final(reg).next_id == id + 1,
        final(reg).sessions@.len() == old(reg).sessions@.len() + 1,
        final(reg).sessions@.last()@ == fresh_session(id),
        forall|i: int| 0 <= i < old(reg).sessions@.len() ==> #[trigger] final(reg).sessions@[i] == old(reg).sessions@[i],
        forall|i: int|
            0 <= i < final(reg).sessions@.len() - 1 ==> #[trigger] final(reg).sessions@[i].id != id,
{
    let id = reg.next_id;
    reg.next_id = reg.next_id + 1;
    let s = TimeTravelSession::new(id);
    reg.sessions.push(s);
    id
}

/// The index of the session with id `id`, if it is open.
pub fn session_index(reg: &SessionRegistry, id: u64) -> (r: Option<usize>)
    ensures
        r matches Some(i) ==> i < reg.sessions@.len() && reg.sessions@[i as int].id == id,
        r is None ==> forall|i: int| 0 <= i < reg.sessions@.len() ==> #[trigger] reg.sessions@[i].id != id,
{
    let mut i: usize = 0;
    while i < reg.sessions.len()
        invariant
            i <= reg.sessions.len(),
            forall|j: int| 0 <= j < i ==> #[trigger] reg.sessions@[j].id != id,
        decreases reg.sessions.len() - i,
    {
        if reg.sessions[i].id == id {
            return Some(i);
        }
        i = i + 1;
    }
    None
}

/// The session with id `id`.
pub fn get_session(reg: &SessionRegistry, id: u64) -> (r: Result<&TimeTravelSession, String>)
    ensures
        r matches Ok(s) ==> s.id == id && exists|i: int| 0 <= i < reg.sessions@.len() && reg.sessions@[i] == *s,
        r is Err ==> forall|i: int| 0 <= i < reg.sessions@.len() ==> #[trigger] reg.sessions@[i].id != id,
        r matches Err(e) ==> e@ == session_not_found_message(id),
{
    match session_index(reg, id) {
        Some(i) => Ok(&reg.sessions[i]),
        None => {
            let mut e = string_of("TimeTravel session ");
            push_decimal(&mut e, id);
            push_str(&mut e, " not found");
            Err(e)
        },
    }
}

} // verus!
