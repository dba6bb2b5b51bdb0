//! Event streams with bounded buffers and count, sliding and session windows.
use vstd::prelude::*;
use crate::text::{decimal, push_decimal, push_str, string_of};
use crate::value::{lemma_models, models, Value, ValueView};

verus! {

/// One event of a stream.
pub struct StreamEvent {
    pub id: u64,
    pub timestamp_ms: u64,
    pub value: Value,
}

/// The content of an event.
pub struct EventView {
    pub id: u64,
    pub timestamp_ms: u64,
    pub value: ValueView,
}

impl View for StreamEvent {
    type V = EventView;

    open spec fn view(&self) -> EventView {
        EventView { id: self.id, timestamp_ms: self.timestamp_ms, value: self.value@ }
    }
}

impl StreamEvent {
    pub fn copy(&self) -> (r: StreamEvent)
        ensures
            r@ == self@,
    {
        StreamEvent { id: self.id, timestamp_ms: self.timestamp_ms, value: self.value.copy() }
    }
}

/// How a stream is cut into windows.
pub enum WindowType {
    TumblingCount(usize),
    SlidingCount { size: usize, slide: usize },
    SessionTimeout(u64),
}

/// A named stream holding its most recent events, at most `capacity` of them.
pub struct FlowStream {
    pub id: u64,
    pub name: String,
    pub capacity: usize,
    pub events: Vec<StreamEvent>,
    pub next_event_id: u64,
}

pub open spec fn event_views(e: Seq<StreamEvent>) -> Seq<EventView> {
    e.map_values(|x: StreamEvent| x@)
}

pub open spec fn window_views(w: Seq<Vec<StreamEvent>>) -> Seq<Seq<EventView>> {
    w.map_values(|x: Vec<StreamEvent>| event_views(x@))
}

/// All windows laid end to end.
pub open spec fn flatten(w: Seq<Seq<EventView>>) -> Seq<EventView>
    decreases w.len(),
{
    if w.len() == 0 {
        Seq::empty()
    } else {
        w[0] + flatten(w.drop_first())
    }
}

/// Consecutive chunks of `size` events; the last may be shorter.
pub open spec fn tumbling(e: Seq<EventView>, size: nat) -> Seq<Seq<EventView>>
    decreases e.len(),
{
    if size == 0 || e.len() == 0 {
        Seq::empty()
    } else if e.len() <= size {
        seq![e]
    } else {
        seq![e.take(size as int)] + tumbling(e.skip(size as int), size)
    }
}

/// The windows of `size` events starting at `start`, `start + slide`, ... while they fit.
pub open spec fn sliding_from(e: Seq<EventView>, size: nat, slide: nat, start: nat) -> Seq<Seq<EventView>>
    decreases e.len() + slide - start,
{
    if slide == 0 || start + size > e.len() {
        Seq::empty()
    } else {
        seq![e.subrange(start as int, (start + size) as int)] + sliding_from(e, size, slide, start + slide)
    }
}

/// Sliding windows: the whole buffer when it is no longer than one window.
pub open spec fn sliding(e: Seq<EventView>, size: nat, slide: nat) -> Seq<Seq<EventView>> {
    if size == 0 || slide == 0 || e.len() == 0 {
        Seq::empty()
    } else if e.len() <= size {
        seq![e]
    } else {
        sliding_from(e, size, slide, 0)
    }
}

/// Timestamps never decrease along the buffer.
pub open spec fn in_time_order(e: Seq<EventView>) -> bool {
    forall|i: int| 0 < i < e.len() ==> e[i - 1].timestamp_ms <= #[trigger] e[i].timestamp_ms
}

/// Sessions: a new one starts wherever the gap to the previous event exceeds `timeout`.
pub open spec fn sessions(e: Seq<EventView>, timeout: u64) -> Seq<Seq<EventView>>
    decreases e.len(),
{
    if e.len() == 0 {
        Seq::empty()
    } else if e.len() == 1 {
        seq![e]
    } else {
        let s = sessions(e.drop_last(), timeout);
        let x = e.last();
        if x.timestamp_ms - e[e.len() - 2].timestamp_ms > timeout {
            s.push(seq![x])
        } else {
            s.update(s.len() - 1, s.last().push(x))
        }
    }
}

/// Flattening after appending a window appends that window's events.
pub proof fn lemma_flatten_push(w: Seq<Seq<EventView>>, x: Seq<EventView>)
    ensures
        flatten(w.push(x)) == flatten(w) + x,
    decreases w.len(),
{
    if w.len() == 0 {
        assert(w.push(x).drop_first() =~= Seq::<Seq<EventView>>::empty());
        assert(flatten(Seq::<Seq<EventView>>::empty()) == Seq::<EventView>::empty());
        assert(x + Seq::<EventView>::empty() =~= x);
        assert(Seq::<EventView>::empty() + x =~= x);
    } else {
        assert(w.push(x).drop_first() =~= w.drop_first().push(x));
        lemma_flatten_push(w.drop_first(), x);
        assert(w[0] + (flatten(w.drop_first()) + x) =~= (w[0] + flatten(w.drop_first())) + x);
    }
}

/// Tumbling windows are non-empty, hold at most `size` events, and together hold every event
/// once, in order.
pub proof fn lemma_tumbling(e: Seq<EventView>, size: nat)
    requires
        size > 0,
    ensures
        flatten(tumbling(e, size)) == e,
        forall|k: int|
            0 <= k < tumbling(e, size).len() ==> 0 < (#[trigger] tumbling(e, size)[k]).len() <= size,
    decreases e.len(),
{
    if e.len() == 0 {
    } else if e.len() <= size {
        assert(seq![e].drop_first() =~= Seq::<Seq<EventView>>::empty());
        assert(flatten(Seq::<Seq<EventView>>::empty()) == Seq::<EventView>::empty());
        assert(e + Seq::<EventView>::empty() =~= e);
    } else {
        let rest = tumbling(e.skip(size as int), size);
        lemma_tumbling(e.skip(size as int), size);
        let w = seq![e.take(size as int)] + rest;
        assert(w.drop_first() =~= rest);
        assert(e.take(size as int) + e.skip(size as int) =~= e);
        assert forall|k: int| 0 <= k < w.len() implies 0 < (#[trigger] w[k]).len() <= size by {
            if k > 0 {
                assert(w[k] == rest[k - 1]);
            }
        }
    }
}

/// Every sliding window holds exactly `size` consecutive events.
pub proof fn lemma_sliding_from(e: Seq<EventView>, size: nat, slide: nat, start: nat)
    ensures
        forall|k: int|
            0 <= k < sliding_from(e, size, slide, start).len() ==> (#[trigger] sliding_from(
                e,
                size,
                slide,
                start,
            )[k]).len() == size,
    decreases e.len() + slide - start,
{
    if slide == 0 || start + size > e.len() {
    } else {
        lemma_sliding_from(e, size, slide, start + slide);
        let rest = sliding_from(e, size, slide, start + slide);
        let w = seq![e.subrange(start as int, (start + size) as int)] + rest;
        assert forall|k: int| 0 <= k < w.len() implies (#[trigger] w[k]).len() == size by {
            if k > 0 {
                assert(w[k] == rest[k - 1]);
            }
        }
    }
}

/// Sessions are non-empty and together hold every event once, in order.
pub proof fn lemma_sessions(e: Seq<EventView>, timeout: u64)
    ensures
        e.len() > 0 ==> sessions(e, timeout).len() > 0,
        forall|k: int|
            0 <= k < sessions(e, timeout).len() ==> (#[trigger] sessions(e, timeout)[k]).len() > 0,
        flatten(sessions(e, timeout)) == e,
    decreases e.len(),
{
    if e.len() == 0 {
    } else if e.len() == 1 {
        assert(seq![e].drop_first() =~= Seq::<Seq<EventView>>::empty());
        assert(flatten(Seq::<Seq<EventView>>::empty()) == Seq::<EventView>::empty());
        assert(e + Seq::<EventView>::empty() =~= e);
    } else {
        let p = e.drop_last();
        lemma_sessions(p, timeout);
        let s = sessions(p, timeout);
        let x = e.last();
        assert(p.push(x) =~= e);
        if x.timestamp_ms - e[e.len() - 2].timestamp_ms > timeout {
            lemma_flatten_push(s, seq![x]);
            assert(p + seq![x] =~= p.push(x));
        } else {
            let init = s.drop_last();
            assert(init.push(s.last()) =~= s);
            lemma_flatten_push(init, s.last());
            assert(s.update(s.len() - 1, s.last().push(x)) =~= init.push(s.last().push(x)));
            lemma_flatten_push(init, s.last().push(x));
            assert(flatten(init) + s.last().push(x) =~= (flatten(init) + s.last()).push(x));
            let r = s.update(s.len() - 1, s.last().push(x));
            assert forall|k: int| 0 <= k < r.len() implies (#[trigger] r[k]).len() > 0 by {
                if k < r.len() - 1 {
                    assert(r[k] == s[k]);
                }
            }
        }
    }
}

/// Copies of the events in `lo..hi`.
fn copy_range(events: &Vec<StreamEvent>, lo: usize, hi: usize) -> (r: Vec<StreamEvent>)
    requires
        lo <= hi <= events.len(),
    ensures
        event_views(r@) == event_views(events@).subrange(lo as int, hi as int),
{
    let mut out: Vec<StreamEvent> = Vec::new();
    let mut i = lo;
    while i < hi
        invariant
            lo <= i <= hi <= events.len(),
            out@.len() == i - lo,
            forall|k: int| 0 <= k < out@.len() ==> (#[trigger] out@[k])@ == events@[lo + k]@,
        decreases hi - i,
    {
        out.push(events[i].copy());
        i = i + 1;
    }
    assert(event_views(out@) =~= event_views(events@).subrange(lo as int, hi as int));
    out
}

impl FlowStream {
    /// The buffer respects its capacity, and event ids increase and stay below the next id.
    pub open spec fn wf(&self) -> bool {
        &&& self.capacity >= 1
        &&& self.events@.len() <= self.capacity
        &&& forall|i: int, j: int|
            0 <= i < j < self.events@.len() ==> #[trigger] self.events@[i].id < #[trigger] self.events@[j].id
        &&& forall|i: int| 0 <= i < self.events@.len() ==> (#[trigger] self.events@[i]).id < self.next_event_id
    }

    pub open spec fn event_seq(&self) -> Seq<EventView> {
        event_views(self.events@)
    }

    /// A new empty stream; a capacity of 0 stands for 1024.
    pub fn new(id: u64, name: String, capacity: usize) -> (s: Self)
        ensures
            s.wf(),
            s.id == id,
            s.name == name,
            s.capacity == if capacity == 0 { 1024 } else { capacity },
            s.events@.len() == 0,
            s.next_event_id == 1,
    {
        FlowStream {
            id,
            name,
            capacity: if capacity == 0 { 1024 } else { capacity },
            events: Vec::new(),
            next_event_id: 1,
        }
    }

    /// Appends an event with the given timestamp; when the buffer is full the oldest event is
    /// evicted first. Returns the new event's id.
    pub fn emit_at(&mut self, value: Value, timestamp_ms: u64) -> (event_id: u64)
        requires
            old(self).capacity >= 1 || old(self).events@.len() > 0,
            old(self).next_event_id < u64::MAX,
    ensures
            old(self).wf() ==> final(self).wf(),
            final(self).events@.len() > 0,
            event_id == old(self).next_event_id,
            final(self).next_event_id == event_id + 1,
            final(self).id == old(self).id,
            final(self).name == old(self).name,
            final(self).capacity == old(self).capacity,
            final(self).event_seq() == emitted(
                old(self).event_seq(),
                old(self).capacity as nat,
                EventView { id: event_id, timestamp_ms, value: value@ },
            ),
    {
        let ghost was_wf = self.wf();
        let event_id = self.next_event_id;
        self.next_event_id = self.next_event_id + 1;
        let ghost before = self.events@;
        if self.events.len() >= self.capacity {
            self.events.remove(0);
            assert(event_views(self.events@) =~= event_views(before).drop_first());
        }
        let ghost mid = self.events@;
        self.events.push(StreamEvent { id: event_id, timestamp_ms, value });
        assert(event_views(self.events@) =~= event_views(mid).push(self.events@.last()@));
        proof {
          if was_wf {
            assert forall|i: int, j: int|
                0 <= i < j < self.events@.len() implies #[trigger] self.events@[i].id
                < #[trigger] self.events@[j].id by {
                if j < self.events@.len() - 1 {
                    assert(self.events@[i] == mid[i]);
                    assert(self.events@[j] == mid[j]);
                    if before.len() >= self.capacity {
                        assert(mid[i] == before[i + 1]);
                        assert(mid[j] == before[j + 1]);
                    }
                } else {
                    assert(self.events@[i] == mid[i]);
                    if before.len() >= self.capacity {
                        assert(mid[i] == before[i + 1]);
                    }
                }
            }
            assert forall|i: int| 0 <= i < self.events@.len() implies (#[trigger] self.events@[i]).id
                < self.next_event_id by {
                if i < self.events@.len() - 1 {
                    assert(self.events@[i] == mid[i]);
                    if before.len() >= self.capacity {
                        assert(mid[i] == before[i + 1]);
                    }
                }
            }
          }
        }
        event_id
    }

    /// Appends an event stamped with `timestamp_ms`, or with the current time when none is
    /// given; see `emit_at`.
    pub fn emit(&mut self, value: Value, timestamp_ms: Option<u64>) -> (event_id: u64)
        requires
            old(self).capacity >= 1 || old(self).events@.len() > 0,
            old(self).next_event_id < u64::MAX,
        ensures
            old(self).wf() ==> final(self).wf(),
            event_id == old(self).next_event_id,
            final(self).next_event_id == event_id + 1,
            final(self).capacity == old(self).capacity,
            timestamp_ms matches Some(t) ==> final(self).event_seq() == emitted(
                old(self).event_seq(),
                old(self).capacity as nat,
                EventView { id: event_id, timestamp_ms: t, value: value@ },
            ),
            exists|ts: u64|
                final(self).event_seq() == #[trigger] stamped(
                    old(self).event_seq(),
                    old(self).capacity as nat,
                    event_id,
                    ts,
                    value@,
                ),
    {
        let ts = match timestamp_ms {
            Some(t) => t,
            None => now_millis(),
        };
        let ghost before = self.event_seq();
        let ghost cap = self.capacity as nat;
        let ghost v = value@;
        let event_id = self.emit_at(value, ts);
        assert(self.event_seq() == stamped(before, cap, event_id, ts, v));
        event_id
    }

    /// Appends values stamped `base_ts`, `base_ts + 10`, `base_ts + 20`, ... (wrapping at
    /// 2^64); returns how many were appended.
    pub fn emit_batch_at(&mut self, values: Vec<Value>, base_ts: u64) -> (count: usize)
        requires
            values@.len() == 0 || old(self).capacity >= 1 || old(self).events@.len() > 0,
            old(self).next_event_id + values@.len() <= u64::MAX,
        ensures
            old(self).wf() ==> final(self).wf(),
            count == values@.len(),
            final(self).next_event_id == old(self).next_event_id + count,
            final(self).capacity == old(self).capacity,
            final(self).event_seq() == emitted_all(
                old(self).event_seq(),
                old(self).capacity as nat,
                old(self).next_event_id,
                base_ts,
                models(values@),
            ),
    {
        let count = values.len();
        let ghost vals = models(values@);
        proof {
            lemma_models(values@);
        }
        let ghost start = self.event_seq();
        let ghost first_id = self.next_event_id;
        let mut i: usize = 0;
        let mut rest = values;
        assert(emitted_all(start, self.capacity as nat, first_id, base_ts, vals.take(0)) == start);
        while i < count
            invariant
                old(self).wf() ==> self.wf(),
                count == 0 || self.capacity >= 1 || self.events@.len() > 0,
                i <= count,
                count == vals.len(),
                rest@.len() == count - i,
                forall|j: int| 0 <= j < rest@.len() ==> (#[trigger] rest@[j])@ == vals[i + j],
                self.next_event_id == first_id + i,
                first_id + count <= u64::MAX,
                self.capacity == old(self).capacity,
                self.event_seq() == emitted_all(
                    start,
                    self.capacity as nat,
                    first_id,
                    base_ts,
                    vals.take(i as int),
                ),
            decreases count - i,
        {
            let v = rest.remove(0);
            let ts = base_ts.wrapping_add((i as u64).wrapping_mul(10));
            self.emit_at(v, ts);
            proof {
                assert(vals.take(i + 1).drop_last() =~= vals.take(i as int));
            }
            i = i + 1;
        }
        assert(vals.take(count as int) =~= vals);
        count
    }

    /// Appends a batch of values, stamped from `start_time_ms` (or the current time) in steps
    /// of 10 ms; returns how many were appended.
    pub fn emit_batch(&mut self, values: Vec<Value>, start_time_ms: Option<u64>) -> (count: usize)
        requires
            values@.len() == 0 || old(self).capacity >= 1 || old(self).events@.len() > 0,
            old(self).next_event_id + values@.len() <= u64::MAX,
        ensures
            old(self).wf() ==> final(self).wf(),
            count == values@.len(),
            final(self).next_event_id == old(self).next_event_id + count,
            start_time_ms matches Some(t) ==> final(self).event_seq() == emitted_all(
                old(self).event_seq(),
                old(self).capacity as nat,
                old(self).next_event_id,
                t,
                models(values@),
            ),
            exists|base: u64|
                final(self).event_seq() == #[trigger] emitted_all(
                    old(self).event_seq(),
                    old(self).capacity as nat,
                    old(self).next_event_id,
                    base,
                    models(values@),
                ),
    {
        let base = match start_time_ms {
            Some(t) => t,
            None => now_millis(),
        };
        let ghost before = self.event_seq();
        let ghost cap = self.capacity as nat;
        let ghost first = self.next_event_id;
        let ghost vals = models(values@);
        let count = self.emit_batch_at(values, base);
        assert(self.event_seq() == emitted_all(before, cap, first, base, vals));
        count
    }

    /// The buffer cut into consecutive windows of `size` events (the last may be shorter);
    /// empty when `size` is 0.
    pub fn window_tumbling_count(&self, size: usize) -> (r: Vec<Vec<StreamEvent>>)
        ensures
            window_views(r@) == tumbling(self.event_seq(), size as nat),
    {
        let ghost e = self.event_seq();
        let n = self.events.len();
        let mut out: Vec<Vec<StreamEvent>> = Vec::new();
        if size == 0 || n == 0 {
            assert(window_views(out@) =~= tumbling(e, size as nat));
            return out;
        }
        let mut start: usize = 0;
        assert(e.subrange(0, n as int) =~= e);
        assert(window_views(out@) + tumbling(e.subrange(0, n as int), size as nat) =~= tumbling(e, size as nat));
        while start < n
            invariant
                size > 0,
                n == self.events@.len(),
                e == self.event_seq(),
                start <= n,
                window_views(out@) + tumbling(e.subrange(start as int, n as int), size as nat)
                    == tumbling(e, size as nat),
            decreases n - start,
        {
            let end = if n - start > size { start + size } else { n };
            let w = copy_range(&self.events, start, end);
            let ghost rest = e.subrange(start as int, n as int);
            let ghost prev = window_views(out@);
            proof {
                if n - start > size {
                    assert(rest.take(size as int) =~= e.subrange(start as int, end as int));
                    assert(rest.skip(size as int) =~= e.subrange(end as int, n as int));
                } else {
                    assert(rest =~= e.subrange(start as int, end as int));
                    assert(tumbling(e.subrange(end as int, n as int), size as nat) =~= Seq::<Seq<EventView>>::empty());
                }
            }
            out.push(w);
            assert(window_views(out@) =~= prev.push(e.subrange(start as int, end as int)));
            assert(window_views(out@) + tumbling(e.subrange(end as int, n as int), size as nat)
                =~= prev + tumbling(rest, size as nat));
            start = end;
        }
        assert(e.subrange(n as int, n as int) =~= Seq::<EventView>::empty());
        assert(window_views(out@) + Seq::<Seq<EventView>>::empty() =~= window_views(out@));
        out
    }

    /// Windows of `size` events starting every `slide` events while they fit; the whole buffer
    /// when it is no longer than one window; empty when `size` or `slide` is 0.
    pub fn window_sliding_count(&self, size: usize, slide: usize) -> (r: Vec<Vec<StreamEvent>>)
        ensures
            window_views(r@) == sliding(self.event_seq(), size as nat, slide as nat),
    {
        let ghost e = self.event_seq();
        let n = self.events.len();
        let mut out: Vec<Vec<StreamEvent>> = Vec::new();
        if size == 0 || slide == 0 || n == 0 {
            assert(window_views(out@) =~= sliding(e, size as nat, slide as nat));
            return out;
        }
        if n <= size {
            out.push(copy_range(&self.events, 0, n));
            assert(e.subrange(0, n as int) =~= e);
            assert(window_views(out@) =~= sliding(e, size as nat, slide as nat));
            return out;
        }
        let mut start: usize = 0;
        assert(window_views(out@) + sliding_from(e, size as nat, slide as nat, 0) =~= sliding_from(
            e,
            size as nat,
            slide as nat,
            0,
        ));
        loop
            invariant_except_break
                window_views(out@) + sliding_from(e, size as nat, slide as nat, start as nat)
                    == sliding_from(e, size as nat, slide as nat, 0),
            invariant
                size > 0,
                slide > 0,
                n == self.events@.len(),
                e == self.event_seq(),
                start + size <= n,
            ensures
                window_views(out@) == sliding_from(e, size as nat, slide as nat, 0),
            decreases n - start,
        {
            let w = copy_range(&self.events, start, start + size);
            let ghost prev = window_views(out@);
            out.push(w);
            assert(window_views(out@) =~= prev.push(e.subrange(start as int, start + size)));
            let ghost next = sliding_from(e, size as nat, slide as nat, (start + slide) as nat);
            assert(window_views(out@) + next =~= prev + sliding_from(
                e,
                size as nat,
                slide as nat,
                start as nat,
            ));
            if slide > n - size - start {
                assert(next =~= Seq::<Seq<EventView>>::empty());
                assert(window_views(out@) + next =~= window_views(out@));
                break;
            }
            start = start + slide;
        }
        out
    }

    /// The buffer cut into sessions: a new session starts wherever the gap to the previous
    /// event is more than `timeout_ms`. Timestamps must not decrease along the buffer.
    pub fn window_session(&self, timeout_ms: u64) -> (r: Vec<Vec<StreamEvent>>)
        requires
            in_time_order(self.event_seq()),
        ensures
            window_views(r@) == sessions(self.event_seq(), timeout_ms),
    {
        let ghost e = self.event_seq();
        let n = self.events.len();
        let mut result: Vec<Vec<StreamEvent>> = Vec::new();
        if n == 0 {
            assert(window_views(result@) =~= sessions(e, timeout_ms));
            return result;
        }
        let mut current: Vec<StreamEvent> = Vec::new();
        let mut last_ts = self.events[0].timestamp_ms;
        let mut i: usize = 0;
        while i < n
            invariant
                n == self.events@.len(),
                e == self.event_seq(),
                in_time_order(e),
                i <= n,
                n > 0,
                i == 0 ==> result@.len() == 0 && current@.len() == 0 && last_ts == e[0].timestamp_ms,
                i > 0 ==> current@.len() > 0 && last_ts == e[i - 1].timestamp_ms
                    && window_views(result@).push(event_views(current@)) == sessions(
                    e.take(i as int),
                    timeout_ms,
                ),
            decreases n - i,
        {
            let ev = &self.events[i];
            let ghost x = e[i as int];
            let ghost before = window_views(result@).push(event_views(current@));
            assert(ev@ == x);
            if i > 0 {
                assert(e[i - 1].timestamp_ms <= e[i as int].timestamp_ms);
            }
            let gap = ev.timestamp_ms - last_ts;
            if gap > timeout_ms && current.len() > 0 {
                result.push(current);
                current = Vec::new();
            }
            let ghost cur_before = event_views(current@);
            current.push(ev.copy());
            assert(event_views(current@) =~= cur_before.push(x));
            last_ts = ev.timestamp_ms;
            proof {
                let t = e.take(i + 1);
                if i == 0 {
                    assert(t =~= seq![x]);
                    assert(result@.len() == 0);
                    assert(window_views(result@) =~= Seq::<Seq<EventView>>::empty());
                    assert(cur_before =~= Seq::<EventView>::empty());
                    assert(event_views(current@) =~= seq![x]);
                    assert(window_views(result@).push(event_views(current@)) =~= seq![t]);
                } else {
                    assert(t.drop_last() =~= e.take(i as int));
                    assert(t.last() == x);
                    assert(t[t.len() - 2] == e[i - 1]);
                    if gap > timeout_ms {
                        assert(window_views(result@) =~= before);
                        assert(event_views(current@) =~= seq![x]);
                    } else {
                        assert(window_views(result@).push(event_views(current@)) =~= before.update(
                            before.len() - 1,
                            before.last().push(x),
                        ));
                    }
                }
            }
            i = i + 1;
        }
        let ghost prev = window_views(result@);
        result.push(current);
        assert(window_views(result@) =~= prev.push(event_views(current@)));
        assert(e.take(n as int) =~= e);
        result
    }
}

/// The buffer after emitting one event.
pub open spec fn emitted(buf: Seq<EventView>, capacity: nat, e: EventView) -> Seq<EventView> {
    (if buf.len() >= capacity {
        buf.drop_first()
    } else {
        buf
    }).push(e)
}

/// The buffer after emitting one event with the given id, timestamp and value.
pub open spec fn stamped(buf: Seq<EventView>, capacity: nat, id: u64, ts: u64, v: ValueView) -> Seq<EventView> {
    emitted(buf, capacity, EventView { id, timestamp_ms: ts, value: v })
}

/// The buffer after emitting `vals` in order with consecutive ids from `first_id` and
/// timestamps 10 ms apart from `base_ts` (wrapping).
pub open spec fn emitted_all(
    buf: Seq<EventView>,
    capacity: nat,
    first_id: u64,
    base_ts: u64,
    vals: Seq<ValueView>,
) -> Seq<EventView>
    decreases vals.len(),
{
    if vals.len() == 0 {
        buf
    } else {
        let n = (vals.len() - 1) as nat;
        emitted(
            emitted_all(buf, capacity, first_id, base_ts, vals.drop_last()),
            capacity,
            EventView {
                id: (first_id + n) as u64,
                timestamp_ms: base_ts.wrapping_add((n as u64).wrapping_mul(10)),
                value: vals.last(),
            },
        )
    }
}

/// The open streams, with the id that the next one gets.
pub struct StreamRegistry {
    pub next_id: u64,
    pub streams: Vec<FlowStream>,
}

impl StreamRegistry {
    /// Ids are handed out from 1 upwards; every open stream has a distinct id below `next_id`.
    pub open spec fn wf(&self) -> bool {
        &&& self.next_id >= 1
        &&& forall|i: int| 0 <= i < self.streams@.len() ==> (#[trigger] self.streams@[i]).id < self.next_id
        &&& forall|i: int, j: int|
            0 <= i < j < self.streams@.len() ==> #[trigger] self.streams@[i].id
                != #[trigger] self.streams@[j].id
        &&& forall|i: int| 0 <= i < self.streams@.len() ==> (#[trigger] self.streams@[i]).wf()
    }

    pub fn new() -> (r: Self)
        ensures
            r.wf(),
            r.next_id == 1,
            r.streams@.len() == 0,
    {
        StreamRegistry { next_id: 1, streams: Vec::new() }
    }
}

/// In a well-formed registry an id names at most one stream, and every open stream's id is
/// below the next id to be handed out; so `get_stream` of an id that `create_stream` returned
/// finds the stream that call opened, and no later `create_stream` returns that id again.
pub proof fn lemma_stream_ids(reg: StreamRegistry, id: u64, i: int, j: int)
    requires
        reg.wf(),
        0 <= i < reg.streams@.len(),
        0 <= j < reg.streams@.len(),
        reg.streams@[i].id == id,
        reg.streams@[j].id == id,
    ensures
        i == j,
        id < reg.next_id,
{
    if i < j {
        assert(reg.streams@[i].id != reg.streams@[j].id);
    } else if j < i {
        assert(reg.streams@[j].id != reg.streams@[i].id);
    }
}

pub open spec fn stream_not_found_message(id: u64) -> Seq<char> {
    "AetherFlow: Stream "@ + decimal(id as nat) + " not found"@
}

/// Opens a new empty stream and returns its id.
pub fn create_stream(reg: &mut StreamRegistry, name: &str, capacity: usize) -> (id: u64)
    requires
        old(reg).wf(),
        old(reg).next_id < u64::MAX,
    ensures
        final(reg).wf(),
        id == old(reg).next_id,
        final(reg).next_id == id + 1,
        final(reg).streams@.len() == old(reg).streams@.len() + 1,
        final(reg).streams@.last().id == id,
        final(reg).streams@.last().name@ == name@,
        final(reg).streams@.last().capacity == if capacity == 0 { 1024 } else { capacity },
        final(reg).streams@.last().events@.len() == 0,
        forall|i: int| 0 <= i < old(reg).streams@.len() ==> #[trigger] final(reg).streams@[i] == old(reg).streams@[i],
        forall|i: int|
            0 <= i < final(reg).streams@.len() - 1 ==> #[trigger] final(reg).streams@[i].id != id,
{
    let id = reg.next_id;
    reg.next_id = reg.next_id + 1;
    let s = FlowStream::new(id, string_of(name), capacity);
    reg.streams.push(s);
    id
}

/// The index of the stream with id `id`, if it is open.
pub fn stream_index(reg: &StreamRegistry, id: u64) -> (r: Option<usize>)
    ensures
        r matches Some(i) ==> i < reg.streams@.len() && reg.streams@[i as int].id == id,
        r is None ==> forall|i: int| 0 <= i < reg.streams@.len() ==> #[trigger] reg.streams@[i].id != id,
{
    let mut i: usize = 0;
    while i < reg.streams.len()
        invariant
            i <= reg.streams.len(),
            forall|j: int| 0 <= j < i ==> #[trigger] reg.streams@[j].id != id,
        decreases reg.streams.len() - i,
    {
        if reg.streams[i].id == id {
            return Some(i);
        }
        i = i + 1;
    }
    None
}

/// The stream with id `id`.
pub fn get_stream(reg: &StreamRegistry, id: u64) -> (r: Result<&FlowStream, String>)
    ensures
        r matches Ok(s) ==> s.id == id && exists|i: int| 0 <= i < reg.streams@.len() && reg.streams@[i] == *s,
        r is Err ==> forall|i: int| 0 <= i < reg.streams@.len() ==> #[trigger] reg.streams@[i].id != id,
        r matches Err(e) ==> e@ == stream_not_found_message(id),
{
    match stream_index(reg, id) {
        Some(i) => Ok(&reg.streams[i]),
        None => {
            let mut e = string_of("AetherFlow: Stream ");
            push_decimal(&mut e, id);
            push_str(&mut e, " not found");
            Err(e)
        },
    }
}

/// Milliseconds since the Unix epoch, or 0 when the clock is before it.
/// Trusted: reads `SystemTime::now()`; nothing is claimed of the value.
#[verifier::external_body]
fn now_millis() -> (t: u64) {
    match std::time::SystemTime::now().duration_since(std::time::UNIX_EPOCH) {
        Ok(d) => d.as_millis() as u64,
        Err(_) => 0,
    }
}


} // verus!
