//! The stream relay: turns the fragments of a streamed response into chunk
//! events, closed by exactly one `Done` or `Error`.
use vstd::prelude::*;

verus! {

/// One unit of a streamed response.
#[derive(Clone, Debug, PartialEq, Eq)]
pub struct Fragment {
    pub text: String,
    pub is_final: bool,
}

/// What one pull from the source gives: a fragment, or the source's error.
#[derive(Clone, Debug, PartialEq, Eq)]
pub enum Pulled {
    Fragment(Fragment),
    Failed(String),
}

/// A pulled item as the contracts see it.
pub type PulledView = Result<(Seq<char>, bool), Seq<char>>;

impl View for Pulled {
    type V = PulledView;

    open spec fn view(&self) -> PulledView {
        match self {
            Pulled::Fragment(f) => Ok((f.text@, f.is_final)),
            Pulled::Failed(m) => Err(m@),
        }
    }
}

/// The views of a sequence of pulled items, in order.
pub open spec fn pulled_view(v: Seq<Pulled>) -> Seq<PulledView> {
    v.map_values(|p: Pulled| p@)
}

/// An event handed to the sink.
#[derive(Clone, Debug, PartialEq, Eq)]
pub enum StreamEvent {
    Chunk { text: String, is_final: bool },
    Done,
    Error { message: String },
}

/// An event as the contracts see it.
pub enum EventView {
    Chunk(Seq<char>, bool),
    Done,
    Error(Seq<char>),
}

impl View for StreamEvent {
    type V = EventView;

    open spec fn view(&self) -> EventView {
        match self {
            StreamEvent::Chunk { text, is_final } => EventView::Chunk(text@, *is_final),
            StreamEvent::Done => EventView::Done,
            StreamEvent::Error { message } => EventView::Error(message@),
        }
    }
}

/// The views of a sequence of events, in order.
pub open spec fn events_view(v: Seq<StreamEvent>) -> Seq<EventView> {
    v.map_values(|e: StreamEvent| e@)
}

/// Whether an event closes the stream.
pub open spec fn is_terminal(e: EventView) -> bool {
    !(e is Chunk)
}

/// Whether the relay stops after this pull; `None` is an exhausted source.
pub open spec fn ends_relay(item: Option<PulledView>) -> bool {
    match item {
        None => true,
        Some(Ok(f)) => f.1,
        Some(Err(_)) => true,
    }
}

/// The events for one pull: a chunk per fragment, `Done` after the final one
/// or when the source runs out, `Error` when it fails.
pub open spec fn step_events(item: Option<PulledView>) -> Seq<EventView> {
    match item {
        None => seq![EventView::Done],
        Some(Ok(f)) => if f.1 {
            seq![EventView::Chunk(f.0, f.1), EventView::Done]
        } else {
            seq![EventView::Chunk(f.0, f.1)]
        },
        Some(Err(m)) => seq![EventView::Error(m)],
    }
}

/// The events for a whole source, which runs out after its last item.
pub open spec fn relay_events(items: Seq<PulledView>) -> Seq<EventView>
    decreases items.len(),
{
    if items.len() == 0 {
        step_events(None)
    } else if ends_relay(Some(items[0])) {
        step_events(Some(items[0]))
    } else {
        step_events(Some(items[0])) + relay_events(items.drop_first())
    }
}

/// The relay of one stream: whether it has ended is all it remembers.
pub struct Relay {
    finished: bool,
}

impl Relay {
    /// A relay that has emitted nothing yet.
    pub fn new() -> (r: Relay)
        ensures
            !r.is_finished_spec(),
    {
        Relay { finished: false }
    }

    pub closed spec fn is_finished_spec(&self) -> bool {
        self.finished
    }

    /// Whether a terminal event was emitted; the source is not to be pulled
    /// again after that.
    #[verifier::when_used_as_spec(is_finished_spec)]
    pub fn is_finished(&self) -> (r: bool)
        ensures
            r == self.is_finished_spec(),
    {
        self.finished
    }

    /// The events for one item pulled from the source.
    pub fn on_item(&mut self, item: &Pulled) -> (r: Vec<StreamEvent>)
        requires
            !old(self).is_finished(),
        ensures
            events_view(r@) == step_events(Some(item@)),
            final(self).is_finished() == ends_relay(Some(item@)),
    {
        let mut r: Vec<StreamEvent> = Vec::new();
        match item {
            Pulled::Fragment(f) => {
                r.push(StreamEvent::Chunk { text: f.text.clone(), is_final: f.is_final });
                if f.is_final {
                    r.push(StreamEvent::Done);
                }
                self.finished = f.is_final;
            },
            Pulled::Failed(m) => {
                r.push(StreamEvent::Error { message: m.clone() });
                self.finished = true;
            },
        }
        assert(events_view(r@) =~= step_events(Some(item@)));
        r
    }

    /// Stops the relay when nobody observes the stream any more: nothing is
    /// emitted, and the source is not pulled again.
    pub fn cancel(&mut self)
        ensures
            final(self).is_finished(),
    {
        self.finished = true;
    }

    /// The events when the source runs out with no final fragment.
    pub fn on_exhausted(&mut self) -> (r: Vec<StreamEvent>)
        requires
            !old(self).is_finished(),
        ensures
            events_view(r@) == step_events(None),
            final(self).is_finished(),
    {
        self.finished = true;
        let r = vec![StreamEvent::Done];
        assert(events_view(r@) =~= step_events(None));
        r
    }
}

/// Relays a whole source, given as the items it yields before it runs out.
pub fn relay(items: &Vec<Pulled>) -> (r: Vec<StreamEvent>)
    ensures
        events_view(r@) == relay_events(pulled_view(items@)),
{
    let ghost all = pulled_view(items@);
    let mut relay = Relay::new();
    let mut out: Vec<StreamEvent> = Vec::new();
    let mut i: usize = 0;
    assert(all.subrange(0, all.len() as int) =~= all);
    assert(events_view(out@) + relay_events(all) =~= relay_events(all));
    while i < items.len() && !relay.is_finished()
        invariant
            i <= items@.len(),
            all == pulled_view(items@),
            relay_events(all) == events_view(out@) + (if relay.is_finished() {
                Seq::<EventView>::empty()
            } else {
                relay_events(all.subrange(i as int, all.len() as int))
            }),
        decreases items.len() - i,
    {
        let ghost rest = all.subrange(i as int, all.len() as int);
        let mut ev = relay.on_item(&items[i]);
        let ghost before = out@;
        let ghost added = ev@;
        out.append(&mut ev);
        proof {
            assert(rest[0] == items@[i as int]@);
            assert(rest.drop_first() =~= all.subrange(i + 1, all.len() as int));
            assert(events_view(out@) =~= events_view(before) + events_view(added));
            if relay.is_finished() {
                assert(relay_events(rest) == step_events(Some(rest[0])));
            } else {
                assert(relay_events(rest) == step_events(Some(rest[0])) + relay_events(
                    rest.drop_first(),
                ));
            }
            assert(relay_events(all) =~= events_view(out@) + (if relay.is_finished() {
                Seq::<EventView>::empty()
            } else {
                relay_events(all.subrange(i + 1, all.len() as int))
            }));
        }
        i = i + 1;
    }
    if !relay.is_finished() {
        let ghost before = out@;
        let mut ev = relay.on_exhausted();
        let ghost added = ev@;
        out.append(&mut ev);
        proof {
            assert(all.subrange(i as int, all.len() as int).len() == 0);
            assert(events_view(out@) =~= events_view(before) + events_view(added));
        }
    }
    assert(events_view(out@) =~= relay_events(all));
    out
}

/// How a relayed stream ended, for the caller that started it.
#[derive(Clone, Debug, PartialEq, Eq)]
pub enum StreamOutcome {
    Completed,
    Failed(String),
    Cancelled,
}

/// The outcome of a stream whose events were `evs`: by its terminal event,
/// and cancelled where none was emitted.
pub open spec fn outcome_of(evs: Seq<EventView>) -> Option<Seq<char>> {
    if evs.len() > 0 && evs.last() is Error {
        Some(evs.last()->Error_0)
    } else {
        None
    }
}

/// Tells how a relayed stream ended from the events it emitted.
pub fn stream_outcome(events: &Vec<StreamEvent>) -> (r: StreamOutcome)
    ensures
        r is Completed <==> (events@.len() > 0 && events@.last()@ is Done),
        r matches StreamOutcome::Failed(m) ==> outcome_of(events_view(events@)) == Some(m@),
        r is Failed <==> (events@.len() > 0 && events@.last()@ is Error),
        r is Cancelled <==> (events@.len() == 0 || events@.last()@ is Chunk),
{
    let n = events.len();
    if n == 0 {
        return StreamOutcome::Cancelled;
    }
    proof {
        assert(events_view(events@).last() == events@.last()@);
    }
    match &events[n - 1] {
        StreamEvent::Done => StreamOutcome::Completed,
        StreamEvent::Error { message } => StreamOutcome::Failed(message.clone()),
        StreamEvent::Chunk { .. } => StreamOutcome::Cancelled,
    }
}

/// The texts of the chunks among `evs`, joined in order.
pub open spec fn chunk_text(evs: Seq<EventView>) -> Seq<char>
    decreases evs.len(),
{
    if evs.len() == 0 {
        Seq::empty()
    } else {
        chunk_text(evs.drop_last()) + match evs.last() {
            EventView::Chunk(t, _) => t,
            _ => Seq::empty(),
        }
    }
}

/// The whole reply carried by a relayed stream: the joined chunk texts when
/// the stream ended with `Done`, nothing when it failed or has not ended.
pub open spec fn reply_of(evs: Seq<EventView>) -> Option<Seq<char>> {
    if evs.len() > 0 && evs.last() is Done {
        Some(chunk_text(evs))
    } else {
        None
    }
}

/// Reassembles the reply from the events of one stream.
pub fn completed_reply(events: &Vec<StreamEvent>) -> (r: Option<String>)
    ensures
        r matches Some(t) ==> reply_of(events_view(events@)) == Some(t@),
        r is None ==> reply_of(events_view(events@)) is None,
{
    let ghost evs = events_view(events@);
    let n = events.len();
    if n == 0 {
        return None;
    }
    match &events[n - 1] {
        StreamEvent::Done => {},
        _ => {
            return None;
        },
    }
    let mut text = String::new();
    let mut i: usize = 0;
    while i < n
        invariant
            n == events@.len(),
            evs == events_view(events@),
            i <= n,
            text@ == chunk_text(evs.subrange(0, i as int)),
        decreases n - i,
    {
        proof {
            let part = evs.subrange(0, i + 1);
            assert(part.drop_last() =~= evs.subrange(0, i as int));
            assert(part.last() == events@[i as int]@);
        }
        match &events[i] {
            StreamEvent::Chunk { text: t, .. } => {
                text.append(t.as_str());
            },
            _ => {},
        }
        proof {
            let part = evs.subrange(0, i + 1);
            assert(text@ =~= chunk_text(part));
        }
        i = i + 1;
    }
    assert(evs.subrange(0, n as int) =~= evs);
    Some(text)
}

/// For every source, the events are one chunk for each fragment of a prefix
/// of the source, in the source's order, followed by exactly one terminal
/// event and nothing after it; an `Error` carries the failure that ended the
/// source at that point.
pub proof fn lemma_relay_order(items: Seq<PulledView>)
    ensures
        relay_events(items).len() >= 1,
        relay_events(items).len() - 1 <= items.len(),
        is_terminal(relay_events(items).last()),
        forall|i: int|
            0 <= i < relay_events(items).len() - 1 ==> (#[trigger] items[i] is Ok
                && relay_events(items)[i] == EventView::Chunk(items[i]->Ok_0.0, items[i]->Ok_0.1)),
        relay_events(items).last() is Error ==> relay_events(items).len() - 1 < items.len()
            && items[relay_events(items).len() - 1] == Err::<
            (Seq<char>, bool),
            Seq<char>,
        >(relay_events(items).last()->Error_0),
    decreases items.len(),
{
    let ev = relay_events(items);
    if items.len() > 0 && !ends_relay(Some(items[0])) {
        let rest = items.drop_first();
        lemma_relay_order(rest);
        let tail = relay_events(rest);
        assert(ev == seq![EventView::Chunk(items[0]->Ok_0.0, items[0]->Ok_0.1)] + tail);
        assert forall|i: int| 0 <= i < ev.len() - 1 implies (#[trigger] items[i] is Ok && ev[i]
            == EventView::Chunk(items[i]->Ok_0.0, items[i]->Ok_0.1)) by {
            if i > 0 {
                assert(items[i] == rest[i - 1]);
                assert(ev[i] == tail[i - 1]);
            }
        }
        assert(ev.last() == tail.last());
        if ev.last() is Error {
            assert(items[ev.len() - 1] == rest[tail.len() - 1]);
        }
    }
}

} // verus!
