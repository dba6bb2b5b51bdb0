//! Actors: named mailboxes with a run state and a restart count, and the registry that
//! spawns, addresses and supervises them.
use vstd::prelude::*;
use crate::strmap::StrMap;
use crate::text::{decimal, push_decimal, push_str, string_of};
use crate::value::{lemma_models, models, Value, ValueView};

verus! {

/// A message in a mailbox; `reply_to` names the channel on which an `ask` waits for the answer.
pub struct ActorMessage {
    pub payload: Value,
    pub reply_to: Option<u64>,
}

/// The content of a message.
pub struct MessageView {
    pub payload: ValueView,
    pub reply_to: Option<u64>,
}

impl View for ActorMessage {
    type V = MessageView;

    open spec fn view(&self) -> MessageView {
        MessageView { payload: self.payload@, reply_to: self.reply_to }
    }
}

/// Whether an actor takes messages.
#[derive(Clone, Copy, Debug, PartialEq, Eq, Structural)]
pub enum ActorStatus {
    Running,
    Stopped,
    Failed,
}

/// One actor: its identity, supervision settings, run state, and pending messages, oldest
/// first.
pub struct ActorState {
    pub id: u64,
    pub name: String,
    pub status: ActorStatus,
    pub restart_count: usize,
    pub max_retries: usize,
    pub strategy: String,
    pub mailbox: Vec<ActorMessage>,
    pub initial_state: Value,
}

pub open spec fn message_views(m: Seq<ActorMessage>) -> Seq<MessageView> {
    m.map_values(|x: ActorMessage| x@)
}

impl ActorState {
    pub open spec fn inbox(&self) -> Seq<MessageView> {
        message_views(self.mailbox@)
    }
}

/// The actors, the name under which each was last spawned, and the next id to hand out
/// (shared by actors and reply channels).
pub struct ActorSystem {
    pub next_id: u64,
    pub actors: Vec<ActorState>,
    pub names: StrMap<u64>,
}

pub open spec fn status_name(s: ActorStatus) -> Seq<char> {
    match s {
        ActorStatus::Running => "running"@,
        ActorStatus::Stopped => "stopped"@,
        ActorStatus::Failed => "failed"@,
    }
}

pub open spec fn not_found_message(id: u64) -> Seq<char> {
    "Actor "@ + decimal(id as nat) + " not found"@
}

pub open spec fn not_running_message(id: u64) -> Seq<char> {
    "Actor "@ + decimal(id as nat) + " is not in Running state"@
}

impl ActorSystem {
    /// Ids are handed out from 1 upwards; actors have distinct ids below `next_id`.
    pub open spec fn wf(&self) -> bool {
        &&& self.next_id >= 1
        &&& self.names.wf()
        &&& forall|i: int| 0 <= i < self.actors@.len() ==> (#[trigger] self.actors@[i]).id < self.next_id
        &&& forall|i: int, j: int|
            0 <= i < j < self.actors@.len() ==> #[trigger] self.actors@[i].id != #[trigger] self.actors@[j].id
    }

    /// The position of the actor with id `id`.
    pub open spec fn index_of(&self, id: u64) -> Option<int> {
        if exists|i: int| 0 <= i < self.actors@.len() && #[trigger] self.actors@[i].id == id {
            Some(choose|i: int| 0 <= i < self.actors@.len() && #[trigger] self.actors@[i].id == id)
        } else {
            None
        }
    }

    /// Everything but actor `i` is as in `other`.
    pub open spec fn same_except(&self, other: &ActorSystem, i: int) -> bool {
        &&& self.next_id == other.next_id
        &&& self.names@ == other.names@
        &&& self.actors@.len() == other.actors@.len()
        &&& forall|j: int| 0 <= j < self.actors@.len() && j != i ==> #[trigger] self.actors@[j] == other.actors@[j]
    }

    pub fn new() -> (s: Self)
        ensures
            s.wf(),
            s.next_id == 1,
            s.actors@.len() == 0,
            s.names@ == Map::<Seq<char>, u64>::empty(),
    {
        ActorSystem { next_id: 1, actors: Vec::new(), names: StrMap::new() }
    }

    /// The position of the actor with id `id`, if any.
    pub fn find(&self, id: u64) -> (r: Option<usize>)
        requires
            self.wf(),
        ensures
            r matches Some(i) ==> i < self.actors@.len() && self.actors@[i as int].id == id && self.index_of(id)
                == Some(i as int),
            r is None ==> self.index_of(id) is None,
    {
        let mut i: usize = 0;
        while i < self.actors.len()
            invariant
                self.wf(),
                i <= self.actors@.len(),
                forall|j: int| 0 <= j < i ==> #[trigger] self.actors@[j].id != id,
            decreases self.actors@.len() - i,
        {
            if self.actors[i].id == id {
                proof {
                    let k = choose|k: int| 0 <= k < self.actors@.len() && #[trigger] self.actors@[k].id == id;
                    if k != i {
                        if k < i {
                            assert(self.actors@[k].id != id);
                        } else {
                            assert(self.actors@[i as int].id != self.actors@[k].id);
                        }
                    }
                }
                return Some(i);
            }
            i = i + 1;
        }
        None
    }

    /// Starts a running actor with an empty mailbox, no restarts, three retries and the
    /// `one_for_one` strategy; the name (by default `actor-<id>`) then addresses it.
    pub fn spawn(&mut self, name: Option<String>, initial_state: Value) -> (id: u64)
        requires
            old(self).wf(),
            old(self).next_id < u64::MAX,
        ensures
            final(self).wf(),
            id == old(self).next_id,
            final(self).next_id == id + 1,
            final(self).actors@.len() == old(self).actors@.len() + 1,
            forall|j: int| 0 <= j < old(self).actors@.len() ==> #[trigger] final(self).actors@[j] == old(self).actors@[j],
            ({
                let a = final(self).actors@.last();
                &&& a.id == id
                &&& a.status == ActorStatus::Running
                &&& a.restart_count == 0
                &&& a.max_retries == 3
                &&& a.strategy@ == "one_for_one"@
                &&& a.mailbox@.len() == 0
                &&& a.initial_state@ == initial_state@
                &&& final(self).names@ == old(self).names@.insert(a.name@, id)
                &&& (name matches Some(n) ==> a.name@ == n@)
                &&& (name is None ==> a.name@ == "actor-"@ + decimal(id as nat))
            }),
    {
        let id = self.next_id;
        self.next_id = self.next_id + 1;
        let actor_name = match name {
            Some(n) => n,
            None => {
                let mut n = string_of("actor-");
                push_decimal(&mut n, id);
                n
            },
        };
        let key = actor_name.clone();
        let state = ActorState {
            id,
            name: actor_name,
            status: ActorStatus::Running,
            restart_count: 0,
            max_retries: 3,
            strategy: string_of("one_for_one"),
            mailbox: Vec::new(),
            initial_state,
        };
        self.actors.push(state);
        self.names.insert(key, id);
        id
    }

    /// The id last spawned under `name`.
    pub fn lookup(&self, name: &String) -> (r: Option<u64>)
        requires
            self.wf(),
        ensures
            r is Some <==> self.names@.dom().contains(name@),
            r matches Some(id) ==> id == self.names@[name@],
    {
        match self.names.get(name) {
            Some(id) => Some(*id),
            None => None,
        }
    }

    /// Appends a message to a running actor's mailbox; `false` (and nothing changes) when the
    /// actor is unknown or not running.
    pub fn send(&mut self, id: u64, payload: Value) -> (ok: bool)
        requires
            old(self).wf(),
        ensures
            final(self).wf(),
            ok == (old(self).index_of(id) matches Some(i) && old(self).actors@[i].status == ActorStatus::Running),
            !ok ==> *final(self) == *old(self),
            ok ==> ({
                let i = old(self).index_of(id)->0;
                &&& final(self).same_except(old(self), i)
                &&& final(self).actors@[i].inbox() == old(self).actors@[i].inbox().push(
                    MessageView { payload: payload@, reply_to: None },
                )
                &&& final(self).actors@[i].id == old(self).actors@[i].id
                &&& final(self).actors@[i].status == old(self).actors@[i].status
                &&& final(self).actors@[i].restart_count == old(self).actors@[i].restart_count
            }),
    {
        match self.find(id) {
            Some(i) => {
                if self.actors[i].status == ActorStatus::Running {
                    self.push_message(i, ActorMessage { payload, reply_to: None });
                    true
                } else {
                    false
                }
            },
            None => false,
        }
    }

    /// The `Actor.send(actor_id, message)` native: checks its arguments, then sends.
    pub fn send_native(&mut self, args: &Vec<Value>) -> (r: Result<Value, String>)
        requires
            old(self).wf(),
        ensures
            final(self).wf(),
            match send_outcome(*old(self), models(args@)) {
                Ok(v) => r matches Ok(x) && x@ == v,
                Err(m) => r matches Err(e) && e@ == m && *final(self) == *old(self),
            },
            r matches Ok(Value::Bool(false)) ==> *final(self) == *old(self),
            r matches Ok(Value::Bool(true)) ==> ({
                let i = old(self).index_of(sent_id(models(args@)))->0;
                &&& final(self).same_except(old(self), i)
                &&& final(self).actors@[i].inbox() == old(self).actors@[i].inbox().push(
                    MessageView { payload: models(args@)[1], reply_to: None },
                )
                &&& final(self).actors@[i].status == old(self).actors@[i].status
            }),
    {
        proof {
            lemma_models(args@);
        }
        if args.len() < 2 {
            return Err(string_of("Actor.send(actor_id, message) expects 2 arguments"));
        }
        let id = match &args[0] {
            Value::Int(i) => *i as u64,
            _ => {
                return Err(string_of("actor_id must be an integer"));
            },
        };
        let ok = self.send(id, args[1].copy());
        Ok(Value::Bool(ok))
    }

    fn push_message(&mut self, i: usize, msg: ActorMessage)
        requires
            old(self).wf(),
            i < old(self).actors@.len(),
        ensures
            final(self).wf(),
            final(self).same_except(old(self), i as int),
            final(self).actors@[i as int].inbox() == old(self).actors@[i as int].inbox().push(msg@),
            final(self).actors@[i as int].id == old(self).actors@[i as int].id,
            final(self).actors@[i as int].status == old(self).actors@[i as int].status,
            final(self).actors@[i as int].restart_count == old(self).actors@[i as int].restart_count,
    {
        let ghost before = self.actors@[i as int].inbox();
        let mut a = self.actors.remove(i);
        a.mailbox.push(msg);
        assert(message_views(a.mailbox@) =~= before.push(msg@));
        self.actors.insert(i, a);
        proof {
            assert forall|j: int| 0 <= j < self.actors@.len() && j != i implies #[trigger] self.actors@[j] == old(self).actors@[j] by {}
            assert forall|p: int, q: int| 0 <= p < q < self.actors@.len() implies #[trigger] self.actors@[p].id != #[trigger] self.actors@[q].id by {
                assert(self.actors@[p].id == old(self).actors@[p].id);
                assert(self.actors@[q].id == old(self).actors@[q].id);
            }
            assert forall|p: int| 0 <= p < self.actors@.len() implies (#[trigger] self.actors@[p]).id < self.next_id by {
                assert(self.actors@[p].id == old(self).actors@[p].id);
            }
        }
    }

    /// Posts a message that expects an answer on a fresh reply channel and returns the
    /// channel's id; an error when the actor is unknown or not running.
    pub fn ask(&mut self, id: u64, payload: Value) -> (r: Result<u64, String>)
        requires
            old(self).wf(),
            old(self).next_id < u64::MAX,
        ensures
            final(self).wf(),
            old(self).index_of(id) is None ==> (r matches Err(e) && e@ == not_found_message(id) && *final(self) == *old(self)),
            (old(self).index_of(id) matches Some(i) && old(self).actors@[i].status != ActorStatus::Running)
                ==> (r matches Err(e) && e@ == not_running_message(id) && *final(self) == *old(self)),
            (old(self).index_of(id) matches Some(i) && old(self).actors@[i].status == ActorStatus::Running)
                ==> ({
                let i = old(self).index_of(id)->0;
                &&& r == Ok::<u64, String>(old(self).next_id)
                &&& final(self).next_id == old(self).next_id + 1
                &&& final(self).names@ == old(self).names@
                &&& final(self).actors@.len() == old(self).actors@.len()
                &&& forall|j: int| 0 <= j < final(self).actors@.len() && j != i ==> #[trigger] final(self).actors@[j] == old(self).actors@[j]
                &&& final(self).actors@[i].inbox() == old(self).actors@[i].inbox().push(
                    MessageView { payload: payload@, reply_to: Some(old(self).next_id) },
                )
            }),
    {
        match self.find(id) {
            Some(i) => {
                if self.actors[i].status != ActorStatus::Running {
                    let mut e = string_of("Actor ");
                    push_decimal(&mut e, id);
                    push_str(&mut e, " is not in Running state");
                    return Err(e);
                }
                let reply = self.next_id;
                self.push_message(i, ActorMessage { payload, reply_to: Some(reply) });
                self.next_id = self.next_id + 1;
                Ok(reply)
            },
            None => {
                let mut e = string_of("Actor ");
                push_decimal(&mut e, id);
                push_str(&mut e, " not found");
                Err(e)
            },
        }
    }

    /// Takes the oldest message from an actor's mailbox; `Ok(None)` when it is empty, an
    /// error when the actor is unknown.
    pub fn try_recv(&mut self, id: u64) -> (r: Result<Option<ActorMessage>, String>)
        requires
            old(self).wf(),
        ensures
            final(self).wf(),
            old(self).index_of(id) is None ==> (r matches Err(e) && e@ == not_found_message(id) && *final(self) == *old(self)),
            old(self).index_of(id) matches Some(i) ==> ({
                &&& old(self).actors@[i].mailbox@.len() == 0 ==> (r matches Ok(None) && *final(self) == *old(self))
                &&& old(self).actors@[i].mailbox@.len() > 0 ==> (r matches Ok(Some(m)) && m@ == old(self).actors@[i].inbox()[0]
                    && final(self).same_except(old(self), i) && final(self).actors@[i].inbox()
                    == old(self).actors@[i].inbox().drop_first() && final(self).actors@[i].status == old(self).actors@[i].status)
            }),
    {
        match self.find(id) {
            Some(i) => {
                if self.actors[i].mailbox.len() == 0 {
                    return Ok(None);
                }
                let ghost before = self.actors@[i as int].inbox();
                let mut a = self.actors.remove(i);
                let m = a.mailbox.remove(0);
                assert(message_views(a.mailbox@) =~= before.drop_first());
                self.actors.insert(i, a);
                proof {
                    assert forall|j: int| 0 <= j < self.actors@.len() && j != i implies #[trigger] self.actors@[j] == old(self).actors@[j] by {}
                    assert forall|p: int, q: int| 0 <= p < q < self.actors@.len() implies #[trigger] self.actors@[p].id != #[trigger] self.actors@[q].id by {
                        assert(self.actors@[p].id == old(self).actors@[p].id);
                        assert(self.actors@[q].id == old(self).actors@[q].id);
                    }
                    assert forall|p: int| 0 <= p < self.actors@.len() implies (#[trigger] self.actors@[p]).id < self.next_id by {
                        assert(self.actors@[p].id == old(self).actors@[p].id);
                    }
                }
                Ok(Some(m))
            },
            None => {
                let mut e = string_of("Actor ");
                push_decimal(&mut e, id);
                push_str(&mut e, " not found");
                Err(e)
            },
        }
    }

    /// The run state of an actor as text: `running`, `stopped`, `failed`, or `not_found`.
    pub fn status_text(&self, id: u64) -> (r: String)
        requires
            self.wf(),
        ensures
            r@ == match self.index_of(id) {
                Some(i) => status_name(self.actors@[i].status),
                None => "not_found"@,
            },
    {
        match self.find(id) {
            Some(i) => match self.actors[i].status {
                ActorStatus::Running => string_of("running"),
                ActorStatus::Stopped => string_of("stopped"),
                ActorStatus::Failed => string_of("failed"),
            },
            None => string_of("not_found"),
        }
    }

    fn set_status(&mut self, i: usize, status: ActorStatus, restart: bool)
        requires
            old(self).wf(),
            i < old(self).actors@.len(),
            restart ==> old(self).actors@[i as int].restart_count < usize::MAX,
        ensures
            final(self).wf(),
            final(self).same_except(old(self), i as int),
            final(self).actors@[i as int].id == old(self).actors@[i as int].id,
            final(self).actors@[i as int].name == old(self).actors@[i as int].name,
            final(self).actors@[i as int].status == status,
            final(self).actors@[i as int].restart_count == old(self).actors@[i as int].restart_count + if restart {
                1int
            } else {
                0int
            },
            restart ==> final(self).actors@[i as int].mailbox@.len() == 0,
            !restart ==> final(self).actors@[i as int].mailbox@ == old(self).actors@[i as int].mailbox@,
    {
        let mut a = self.actors.remove(i);
        a.status = status;
        if restart {
            a.restart_count = a.restart_count + 1;
            a.mailbox = Vec::new();
        }
        self.actors.insert(i, a);
        proof {
            assert forall|j: int| 0 <= j < self.actors@.len() && j != i implies #[trigger] self.actors@[j] == old(self).actors@[j] by {}
            assert forall|p: int, q: int| 0 <= p < q < self.actors@.len() implies #[trigger] self.actors@[p].id != #[trigger] self.actors@[q].id by {
                assert(self.actors@[p].id == old(self).actors@[p].id);
                assert(self.actors@[q].id == old(self).actors@[q].id);
            }
            assert forall|p: int| 0 <= p < self.actors@.len() implies (#[trigger] self.actors@[p]).id < self.next_id by {
                assert(self.actors@[p].id == old(self).actors@[p].id);
            }
        }
    }

    /// Marks an actor failed; `false` when it is unknown.
    pub fn fail(&mut self, id: u64) -> (ok: bool)
        requires
            old(self).wf(),
        ensures
            final(self).wf(),
            ok == old(self).index_of(id) is Some,
            !ok ==> *final(self) == *old(self),
            ok ==> ({
                let i = old(self).index_of(id)->0;
                &&& final(self).same_except(old(self), i)
                &&& final(self).actors@[i].status == ActorStatus::Failed
                &&& final(self).actors@[i].mailbox@ == old(self).actors@[i].mailbox@
                &&& final(self).actors@[i].restart_count == old(self).actors@[i].restart_count
            }),
    {
        match self.find(id) {
            Some(i) => {
                self.set_status(i, ActorStatus::Failed, false);
                true
            },
            None => false,
        }
    }

    /// Stops an actor; `false` when it is unknown.
    pub fn stop(&mut self, id: u64) -> (ok: bool)
        requires
            old(self).wf(),
        ensures
            final(self).wf(),
            ok == old(self).index_of(id) is Some,
            !ok ==> *final(self) == *old(self),
            ok ==> ({
                let i = old(self).index_of(id)->0;
                &&& final(self).same_except(old(self), i)
                &&& final(self).actors@[i].status == ActorStatus::Stopped
                &&& final(self).actors@[i].mailbox@ == old(self).actors@[i].mailbox@
                &&& final(self).actors@[i].restart_count == old(self).actors@[i].restart_count
            }),
    {
        match self.find(id) {
            Some(i) => {
                self.set_status(i, ActorStatus::Stopped, false);
                true
            },
            None => false,
        }
    }

    /// Restarts an actor: running again, one more restart counted, mailbox emptied; `false`
    /// when it is unknown.
    pub fn restart(&mut self, id: u64) -> (ok: bool)
        requires
            old(self).wf(),
            old(self).index_of(id) matches Some(i) ==> old(self).actors@[i].restart_count < usize::MAX,
        ensures
            final(self).wf(),
            ok == old(self).index_of(id) is Some,
            !ok ==> *final(self) == *old(self),
            ok ==> ({
                let i = old(self).index_of(id)->0;
                &&& final(self).same_except(old(self), i)
                &&& final(self).actors@[i].status == ActorStatus::Running
                &&& final(self).actors@[i].mailbox@.len() == 0
                &&& final(self).actors@[i].restart_count == old(self).actors@[i].restart_count + 1
            }),
    {
        match self.find(id) {
            Some(i) => {
                self.set_status(i, ActorStatus::Running, true);
                true
            },
            None => false,
        }
    }

    /// How often an actor was restarted (0 when it is unknown).
    pub fn restarts(&self, id: u64) -> (n: usize)
        requires
            self.wf(),
        ensures
            n == match self.index_of(id) {
                Some(i) => self.actors@[i].restart_count,
                None => 0,
            },
    {
        match self.find(id) {
            Some(i) => self.actors[i].restart_count,
            None => 0,
        }
    }

    /// How many actors there are.
    pub fn count(&self) -> (n: usize)
        ensures
            n == self.actors@.len(),
    {
        self.actors.len()
    }
}


/// The actor id that `Actor.send` reads from its first argument.
pub open spec fn sent_id(args: Seq<ValueView>) -> u64 {
    args[0]->Int_0 as u64
}

/// What the `Actor.send` native answers: an error without two arguments or without an integer
/// id; else whether the actor with that id exists and runs, which is when the message is
/// posted.
pub open spec fn send_outcome(sys: ActorSystem, args: Seq<ValueView>) -> Result<ValueView, Seq<char>> {
    if args.len() < 2 {
        Err("Actor.send(actor_id, message) expects 2 arguments"@)
    } else if !(args[0] is Int) {
        Err("actor_id must be an integer"@)
    } else {
        Ok(
            ValueView::Bool(
                sys.index_of(sent_id(args)) matches Some(i) && sys.actors@[i].status == ActorStatus::Running,
            ),
        )
    }
}

/// The actor that `spawn` adds last is the one found under its id; being running, it accepts a
/// message sent to it (see `send`).
pub proof fn lemma_spawned_actor_found(sys: ActorSystem, id: u64)
    requires
        sys.wf(),
        sys.actors@.len() > 0,
        sys.actors@.last().id == id,
    ensures
        sys.index_of(id) == Some(sys.actors@.len() - 1),
{
    let n = sys.actors@.len() - 1;
    assert(sys.actors@[n].id == id);
    let k = choose|k: int| 0 <= k < sys.actors@.len() && #[trigger] sys.actors@[k].id == id;
    if k != n {
        assert(sys.actors@[k].id != sys.actors@[n].id);
    }
}


/// Spawning, looking up and sending fit together. In a well-formed system the id of the actor
/// spawned last finds that actor (so `send` to it appends at the back of its mailbox while it
/// runs), and an id at or beyond the next one to be handed out, which no `spawn` has returned,
/// finds no actor (so `send` to it answers `false` and changes nothing).
pub proof fn lemma_spawn_lookup_send(sys: ActorSystem, k: u64)
    requires
        sys.wf(),
    ensures
        sys.actors@.len() > 0 ==> sys.index_of(sys.actors@.last().id) == Some(sys.actors@.len() - 1),
        k >= sys.next_id ==> sys.index_of(k) is None,
{
    if sys.actors@.len() > 0 {
        lemma_spawned_actor_found(sys, sys.actors@.last().id);
    }
    if k >= sys.next_id {
        assert forall|i: int| 0 <= i < sys.actors@.len() implies #[trigger] sys.actors@[i].id != k by {
            assert(sys.actors@[i].id < sys.next_id);
        }
    }
}

/// The `Actor.send` native fits `spawn`: given the id of the actor spawned last, while it runs,
/// it answers `true` (and posts the message, see `send_native`); given an id that no `spawn` has
/// handed out yet, it answers `false`; with fewer than two arguments it fails.
pub proof fn lemma_send_native(sys: ActorSystem, m: ValueView, k: u64, args: Seq<ValueView>)
    requires
        sys.wf(),
    ensures
        sys.actors@.len() > 0 && sys.actors@.last().status == ActorStatus::Running && sys.actors@.last().id
            <= i64::MAX ==> send_outcome(sys, seq![ValueView::Int(sys.actors@.last().id as i64), m]) == Ok::<
            ValueView,
            Seq<char>,
        >(ValueView::Bool(true)),
        k >= sys.next_id && k <= i64::MAX ==> send_outcome(sys, seq![ValueView::Int(k as i64), m]) == Ok::<
            ValueView,
            Seq<char>,
        >(ValueView::Bool(false)),
        args.len() < 2 ==> send_outcome(sys, args) is Err,
{
    lemma_spawn_lookup_send(sys, k);
    if sys.actors@.len() > 0 && sys.actors@.last().id <= i64::MAX {
        let id = sys.actors@.last().id;
        assert((id as i64) as u64 == id);
        assert(sent_id(seq![ValueView::Int(id as i64), m]) == id);
    }
    if k <= i64::MAX {
        assert((k as i64) as u64 == k);
        assert(sent_id(seq![ValueView::Int(k as i64), m]) == k);
    }
}

} // verus!
