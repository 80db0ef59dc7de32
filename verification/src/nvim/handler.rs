use vstd::prelude::*;

verus! {

/// Redraw batches that arrived and wait for the idle callback, and whether
/// that callback is already scheduled.
pub struct PendingRedraws<T> {
    pub scheduled: bool,
    pub batches: Vec<T>,
}

impl<T> View for PendingRedraws<T> {
    type V = (bool, Seq<T>);

    /// Whether an idle callback is scheduled, and the queued batches.
    open spec fn view(&self) -> (bool, Seq<T>) {
        (self.scheduled, self.batches@)
    }
}

/// Queueing the batch `params`: the new state, and whether the caller must
/// schedule the idle callback.
pub open spec fn enqueued<T>(state: (bool, Seq<T>), params: T) -> ((bool, Seq<T>), bool) {
    ((true, state.1.push(params)), !state.0)
}

/// Taking the queued batches: the new state, and what the idle callback gets.
pub open spec fn taken<T>(state: (bool, Seq<T>)) -> ((bool, Seq<T>), Option<Seq<T>>) {
    ((false, Seq::empty()), if state.1.len() == 0 { None } else { Some(state.1) })
}

/// Once the idle callback has taken the queued batches, the next batch
/// schedules a new callback, whatever happened before.
pub proof fn law_reschedule_after_take<T>(state: (bool, Seq<T>), params: T)
    ensures
        enqueued(taken(state).0, params).1,
{
}

/// While a callback is scheduled, further batches schedule nothing more, and
/// the callback gets every batch queued since the last take, in arrival order.
pub proof fn law_batches_coalesce<T>(state: (bool, Seq<T>), a: T, b: T)
    ensures
        !enqueued(enqueued(state, a).0, b).1,
        taken(enqueued(enqueued(state, a).0, b).0).1 == Some(state.1.push(a).push(b)),
{
}

/// Queueing the batches `ps` one after another: the final state, and what
/// each call returned.
pub open spec fn enqueued_all<T>(state: (bool, Seq<T>), ps: Seq<T>) -> ((bool, Seq<T>), Seq<bool>)
    decreases ps.len(),
{
    if ps.len() == 0 {
        (state, Seq::empty())
    } else {
        let (s1, r1) = enqueued_all(state, ps.drop_last());
        let (s2, b) = enqueued(s1, ps.last());
        (s2, r1.push(b))
    }
}

/// With no callback scheduled (as after `default` or a take), the first of a
/// run of batches schedules the callback and the later ones do not; the
/// queue then holds the run after what it held, in arrival order.
pub proof fn law_first_enqueue_schedules<T>(state: (bool, Seq<T>), ps: Seq<T>)
    requires
        !state.0,
    ensures
        enqueued_all(state, ps).1 == Seq::new(ps.len(), |i: int| i == 0),
        enqueued_all(state, ps).0 == (ps.len() > 0, state.1 + ps),
    decreases ps.len(),
{
    if ps.len() > 0 {
        law_first_enqueue_schedules(state, ps.drop_last());
        assert(state.1 + ps.drop_last() + seq![ps.last()] =~= state.1 + ps);
        assert(Seq::new((ps.len() - 1) as nat, |i: int| i == 0).push(ps.len() == 1) =~= Seq::new(
            ps.len(),
            |i: int| i == 0,
        ));
    } else {
        assert(state.1 + ps =~= state.1);
        assert(Seq::new(ps.len(), |i: int| i == 0) =~= Seq::<bool>::empty());
    }
}

impl<T> Default for PendingRedraws<T> {
    fn default() -> (p: PendingRedraws<T>)
        ensures
            p@ == (false, Seq::<T>::empty()),
    {
        PendingRedraws { scheduled: false, batches: Vec::new() }
    }
}

impl<T> PendingRedraws<T> {
    /// Queues a batch. Returns true when the caller must schedule the idle
    /// callback, i.e. when none is scheduled yet.
    pub fn enqueue(&mut self, params: T) -> (schedule: bool)
        ensures
            (final(self)@, schedule) == enqueued(old(self)@, params),
            schedule == !old(self).scheduled,
            final(self).scheduled,
            final(self).batches@ == old(self).batches@.push(params),
    {
        self.batches.push(params);
        if self.scheduled {
            false
        } else {
            self.scheduled = true;
            true
        }
    }

    /// Hands all queued batches, in arrival order, to the idle callback, and
    /// lets the next batch schedule a new callback. Nothing when none is
    /// queued.
    pub fn take_pending(&mut self) -> (r: Option<Vec<T>>)
        ensures
            final(self)@ == taken(old(self)@).0,
            r is None <==> taken(old(self)@).1 is None,
            r matches Some(b) ==> taken(old(self)@).1 == Some(b@),
    {
        self.scheduled = false;
        if self.batches.len() == 0 {
            None
        } else {
            let mut taken = Vec::new();
            std::mem::swap(&mut taken, &mut self.batches);
            Some(taken)
        }
    }
}

/// What to do with a notification from Neovim.
#[derive(PartialEq, Eq, Structural)]
pub enum NotifyRoute {
    /// Queue the parameters as a redraw batch.
    Redraw,
    /// Run the GUI event named by the first parameter with the rest.
    GuiEvent,
    /// A GUI event without parameters, or whose name is not a string.
    UnsupportedGuiEvent,
    /// Hand the parameters to the subscribers.
    Subscription,
    /// A resize finished.
    Resized,
    /// A notification nobody handles.
    Unknown,
}

/// What to do with a request from Neovim.
#[derive(PartialEq, Eq, Structural)]
pub enum RequestRoute {
    /// Answer with the GUI request named by the first parameter.
    GuiRequest,
    /// Answer with an error.
    Unsupported,
}

/// Whether two strings hold the same characters.
fn str_eq(a: &str, b: &str) -> (r: bool)
    ensures
        r == (a@ == b@),
{
    let n = a.unicode_len();
    if n != b.unicode_len() {
        return false;
    }
    let mut i: usize = 0;
    while i < n
        invariant
            i <= n,
            n == a@.len(),
            n == b@.len(),
            forall|j: int| 0 <= j < i ==> a@[j] == b@[j],
        decreases n - i,
    {
        if a.get_char(i) != b.get_char(i) {
            return false;
        }
        i = i + 1;
    }
    assert(a@ =~= b@);
    true
}

/// How the first parameter of a notification looks: absent, a string, or
/// something else.
#[derive(PartialEq, Eq, Structural)]
pub enum FirstParam {
    Missing,
    Str,
    Other,
}

/// Routes a notification by its method name and the shape of its first
/// parameter.
pub fn route_notification(method: &str, first: FirstParam) -> (r: NotifyRoute)
    ensures
        method@ == "redraw"@ ==> r == NotifyRoute::Redraw,
        method@ == "Gui"@ ==> r == if first == FirstParam::Str {
            NotifyRoute::GuiEvent
        } else {
            NotifyRoute::UnsupportedGuiEvent
        },
        method@ == "subscription"@ ==> r == NotifyRoute::Subscription,
        method@ == "resized"@ ==> r == NotifyRoute::Resized,
        method@ != "redraw"@ && method@ != "Gui"@ && method@ != "subscription"@ && method@ != "resized"@
            ==> r == NotifyRoute::Unknown,
{
    proof {
        reveal_strlit("redraw");
        reveal_strlit("Gui");
        reveal_strlit("subscription");
        reveal_strlit("resized");
        assert("redraw"@.len() == 6);
        assert("Gui"@.len() == 3);
        assert("subscription"@.len() == 12);
        assert("resized"@.len() == 7);
        assert("redraw"@[0] == 'r');
        assert("resized"@[2] == 's');
    }
    if str_eq(method, "redraw") {
        NotifyRoute::Redraw
    } else if str_eq(method, "Gui") {
        match first {
            FirstParam::Str => NotifyRoute::GuiEvent,
            _ => NotifyRoute::UnsupportedGuiEvent,
        }
    } else if str_eq(method, "subscription") {
        NotifyRoute::Subscription
    } else if str_eq(method, "resized") {
        NotifyRoute::Resized
    } else {
        NotifyRoute::Unknown
    }
}

/// Routes a request: only a "Gui" request whose first parameter is a string
/// is answered; every other request gets an error.
pub fn route_request(method: &str, first: FirstParam) -> (r: RequestRoute)
    ensures
        r == RequestRoute::GuiRequest <==> (method@ == "Gui"@ && first == FirstParam::Str),
{
    if str_eq(method, "Gui") && first == FirstParam::Str {
        RequestRoute::GuiRequest
    } else {
        RequestRoute::Unsupported
    }
}

/// A value inside a redraw event, as far as a batch is decoded: a string, an
/// array of payload values, or anything else.
pub enum RedrawValue<V> {
    Str(String),
    Array(Vec<V>),
    Other,
}

/// One event of a redraw batch: an array (the event's name, then one argument
/// list per call), or anything else.
pub enum RedrawEvent<V> {
    Array(Vec<RedrawValue<V>>),
    Other,
}

/// The calls that one redraw event asks for: the event's name, and the
/// argument list of each call, in order.
pub struct EventCalls<V> {
    pub name: String,
    pub calls: Vec<Vec<V>>,
}

/// The arguments a value gives a call: its elements when it is an array,
/// none otherwise.
pub open spec fn call_args<V>(x: RedrawValue<V>) -> Seq<V> {
    match x {
        RedrawValue::Array(a) => a@,
        _ => Seq::empty(),
    }
}

/// What one event asks for. An event that is not an array, that is empty, or
/// whose first value is not a string is skipped.
pub open spec fn event_calls<V>(ev: RedrawEvent<V>) -> Option<(Seq<char>, Seq<Seq<V>>)> {
    match ev {
        RedrawEvent::Array(items) => if items@.len() == 0 {
            None
        } else {
            match items@[0] {
                RedrawValue::Str(name) => Some(
                    (name@, items@.skip(1).map_values(|x: RedrawValue<V>| call_args(x))),
                ),
                _ => None,
            }
        },
        RedrawEvent::Other => None,
    }
}

/// What a batch asks for: the calls of its events, in order, skipped events
/// left out.
pub open spec fn batch_calls<V>(evs: Seq<RedrawEvent<V>>) -> Seq<(Seq<char>, Seq<Seq<V>>)>
    decreases evs.len(),
{
    if evs.len() == 0 {
        Seq::empty()
    } else {
        batch_calls(evs.drop_last()) + match event_calls(evs.last()) {
            Some(c) => seq![c],
            None => Seq::empty(),
        }
    }
}

/// Decoding two batches one after the other asks for the same calls as
/// decoding them as one batch: coalescing batches changes no call.
pub proof fn law_batch_calls_concat<V>(a: Seq<RedrawEvent<V>>, b: Seq<RedrawEvent<V>>)
    ensures
        batch_calls(a + b) == batch_calls(a) + batch_calls(b),
    decreases b.len(),
{
    if b.len() == 0 {
        assert(a + b == a);
        assert(batch_calls(b) == Seq::<(Seq<char>, Seq<Seq<V>>)>::empty());
        assert(batch_calls(a) + batch_calls(b) == batch_calls(a));
    } else {
        let b1 = b.drop_last();
        law_batch_calls_concat(a, b1);
        assert((a + b).drop_last() == a + b1);
        assert((a + b).last() == b.last());
        let tail = match event_calls(b.last()) {
            Some(c) => seq![c],
            None => Seq::<(Seq<char>, Seq<Seq<V>>)>::empty(),
        };
        assert(batch_calls(a + b) == batch_calls(a + b1) + tail);
        assert(batch_calls(b) == batch_calls(b1) + tail);
        assert(batch_calls(a) + batch_calls(b1) + tail == batch_calls(a) + (batch_calls(b1) + tail));
    }
}

impl<V> EventCalls<V> {
    /// The event's name and the argument lists of its calls.
    pub open spec fn decoded(&self) -> (Seq<char>, Seq<Seq<V>>) {
        (self.name@, self.calls@.map_values(|c: Vec<V>| c@))
    }
}

/// Decodes a redraw batch into the handler calls it asks for, skipping
/// events that are not arrays, are empty, or are not named by a string.
pub fn redraw_batch_calls<V>(batch: Vec<RedrawEvent<V>>) -> (r: Vec<EventCalls<V>>)
    ensures
        r@.map_values(|e: EventCalls<V>| e.decoded()) == batch_calls(batch@),
{
    let ghost evs = batch@;
    let mut out: Vec<EventCalls<V>> = Vec::new();
    for ev in it: batch.into_iter()
        invariant
            it.seq() == evs,
            0 <= it.index() <= evs.len(),
            out@.map_values(|e: EventCalls<V>| e.decoded()) == batch_calls(evs.take(it.index())),
    {
        let ghost i = it.index();
        let ghost before = out@.map_values(|e: EventCalls<V>| e.decoded());
        assert(evs.take(i + 1).drop_last() == evs.take(i));
        assert(evs.take(i + 1).last() == ev);
        assert(batch_calls(evs.take(i + 1)) == batch_calls(evs.take(i)) + match event_calls(ev) {
            Some(c) => seq![c],
            None => Seq::<(Seq<char>, Seq<Seq<V>>)>::empty(),
        });
        match ev {
            RedrawEvent::Array(mut items) => {
                if items.len() > 0 {
                    let ghost all = items@;
                    let first = items.remove(0);
                    assert(items@ == all.skip(1));
                    match first {
                        RedrawValue::Str(name) => {
                            let ghost rest = items@;
                            let mut calls: Vec<Vec<V>> = Vec::new();
                            for x in it2: items.into_iter()
                                invariant
                                    it2.seq() == rest,
                                    0 <= it2.index() <= rest.len(),
                                    calls@.map_values(|c: Vec<V>| c@) == rest.take(it2.index()).map_values(
                                        |y: RedrawValue<V>| call_args(y),
                                    ),
                            {
                                let ghost j = it2.index();
                                let args = match x {
                                    RedrawValue::Array(a) => a,
                                    _ => Vec::new(),
                                };
                                assert(args@ == call_args(rest[j]));
                                let ghost prev = calls@;
                                calls.push(args);
                                assert(rest.take(j + 1) == rest.take(j).push(rest[j]));
                                assert(calls@.map_values(|c: Vec<V>| c@) =~= prev.map_values(|c: Vec<V>| c@).push(
                                    call_args(rest[j]),
                                ));
                                assert(rest.take(j + 1).map_values(|y: RedrawValue<V>| call_args(y)) =~= rest.take(
                                    j,
                                ).map_values(|y: RedrawValue<V>| call_args(y)).push(call_args(rest[j])));
                            }
                            assert(rest.take(rest.len() as int) == rest);
                            let e = EventCalls { name, calls };
                            assert(e.decoded() == event_calls(ev).unwrap());
                            out.push(e);
                            assert(out@.map_values(|e: EventCalls<V>| e.decoded()) == before.push(
                                e.decoded(),
                            ));
                        },
                        _ => {},
                    }
                }
            },
            RedrawEvent::Other => {},
        }
    }
    assert(evs.take(evs.len() as int) == evs);
    out
}

} // verus!
