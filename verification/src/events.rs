//! The event vocabulary: the flat, serializable instruction stream that the
//! parser emits and the tree reconstructor consumes.

use vstd::prelude::*;

verus! {

/// Tree events, or "instructions", produced by parsing and consumed when
/// rendering.
#[derive(Debug, Clone, PartialEq, Eq)]
pub enum Event {
    /// Create a new tag.
    Start(String),
    /// End of new tag.
    End,
    /// Add an attribute to the current tag.
    Attr(String, String),
    /// Text node.
    Text(String),
}

/// The mathematical model of one [`Event`].
pub enum SpecEvent {
    Start { name: Seq<char> },
    End,
    Attr { name: Seq<char>, value: Seq<char> },
    Text { text: Seq<char> },
}

impl View for Event {
    type V = SpecEvent;

    open spec fn view(&self) -> SpecEvent {
        match self {
            Event::Start(name) => SpecEvent::Start { name: name@ },
            Event::End => SpecEvent::End,
            Event::Attr(name, value) => SpecEvent::Attr { name: name@, value: value@ },
            Event::Text(text) => SpecEvent::Text { text: text@ },
        }
    }
}

/// The model of an event sequence: each event replaced by its model.
pub open spec fn events_view(evs: Seq<Event>) -> Seq<SpecEvent> {
    evs.map_values(|e: Event| e@)
}

/// The model of an attribute list: each pair of strings replaced by its model.
pub open spec fn attrs_view(attrs: Seq<(String, String)>) -> Seq<(Seq<char>, Seq<char>)> {
    attrs.map_values(|p: (String, String)| (p.0@, p.1@))
}

/// How one event changes the open-tag depth.
pub open spec fn event_delta(e: SpecEvent) -> int {
    match e {
        SpecEvent::Start { .. } => 1,
        SpecEvent::End => -1,
        _ => 0,
    }
}

/// Number of `Start` events minus number of `End` events.
pub open spec fn excess(evs: Seq<SpecEvent>) -> int
    decreases evs.len(),
{
    if evs.len() == 0 {
        0
    } else {
        event_delta(evs[0]) + excess(evs.drop_first())
    }
}

/// Every prefix closes no more tags than it has opened.
pub open spec fn prefixes_nonneg(evs: Seq<SpecEvent>) -> bool {
    forall|i: int| 0 <= i <= evs.len() ==> excess(#[trigger] evs.take(i)) >= 0
}

/// A well-formed bracket sequence: every `End` matches an earlier unclosed
/// `Start`, and every `Start` is eventually closed.
pub open spec fn is_balanced(evs: Seq<SpecEvent>) -> bool {
    excess(evs) == 0 && prefixes_nonneg(evs)
}

/// `excess` distributes over concatenation.
pub proof fn lemma_excess_add(a: Seq<SpecEvent>, b: Seq<SpecEvent>)
    ensures
        excess(a + b) == excess(a) + excess(b),
    decreases a.len(),
{
    if a.len() == 0 {
        assert(a + b =~= b);
    } else {
        assert((a + b).drop_first() =~= a.drop_first() + b);
        lemma_excess_add(a.drop_first(), b);
    }
}

/// `excess` of a one-event extension.
pub proof fn lemma_excess_push(a: Seq<SpecEvent>, e: SpecEvent)
    ensures
        excess(a.push(e)) == excess(a) + event_delta(e),
{
    let s1 = seq![e];
    assert(a.push(e) =~= a + s1);
    lemma_excess_add(a, s1);
    assert(s1.drop_first() =~= Seq::<SpecEvent>::empty());
    assert(excess(s1.drop_first()) == 0);
    assert(s1[0] == e);
    assert(excess(s1) == event_delta(e) + excess(s1.drop_first()));
}

/// The excess can move at most one step per event.
pub proof fn lemma_excess_bound(s: Seq<SpecEvent>)
    ensures
        -(s.len() as int) <= excess(s) <= s.len() as int,
    decreases s.len(),
{
    if s.len() > 0 {
        lemma_excess_bound(s.drop_first());
    }
}

/// A one-event sequence: its excess is the event's depth change.
pub proof fn lemma_single_event(e: SpecEvent)
    ensures
        excess(seq![e]) == event_delta(e),
        event_delta(e) >= 0 ==> prefixes_nonneg(seq![e]),
{
    let s = seq![e];
    assert(s.drop_first() =~= Seq::<SpecEvent>::empty());
    assert(excess(s.drop_first()) == 0);
    assert(excess(s) == event_delta(e));
    if event_delta(e) >= 0 {
        assert forall|i: int| 0 <= i <= s.len() implies excess(#[trigger] s.take(i)) >= 0 by {
            if i <= 0 {
                assert(s.take(i) =~= Seq::<SpecEvent>::empty());
            } else {
                assert(s.take(i) =~= s);
            }
        };
    }
}

/// The empty sequence has sound prefixes.
pub proof fn lemma_prefixes_nonneg_empty()
    ensures
        prefixes_nonneg(Seq::<SpecEvent>::empty()),
        excess(Seq::<SpecEvent>::empty()) == 0,
{
    assert forall|j: int| 0 <= j <= 0 implies excess(
        #[trigger] Seq::<SpecEvent>::empty().take(j),
    ) >= 0 by {
        assert(Seq::<SpecEvent>::empty().take(j) =~= Seq::<SpecEvent>::empty());
    };
}

/// Extending a sequence whose prefixes are all non-negative keeps that
/// property, provided the new running excess stays non-negative.
pub proof fn lemma_prefixes_nonneg_push(a: Seq<SpecEvent>, e: SpecEvent)
    requires
        prefixes_nonneg(a),
        excess(a) + event_delta(e) >= 0,
    ensures
        prefixes_nonneg(a.push(e)),
{
    let b = a.push(e);
    assert forall|i: int| 0 <= i <= b.len() implies excess(#[trigger] b.take(i)) >= 0 by {
        if i <= a.len() {
            assert(b.take(i) =~= a.take(i));
        } else {
            assert(b.take(i) =~= a.push(e));
            lemma_excess_push(a, e);
        }
    };
}

/// Appending a balanced sequence to another preserves the prefix property.
pub proof fn lemma_prefixes_nonneg_add(a: Seq<SpecEvent>, b: Seq<SpecEvent>)
    requires
        prefixes_nonneg(a),
        prefixes_nonneg(b),
        excess(a) >= 0,
    ensures
        prefixes_nonneg(a + b),
{
    let c = a + b;
    assert forall|i: int| 0 <= i <= c.len() implies excess(#[trigger] c.take(i)) >= 0 by {
        if i <= a.len() {
            assert(c.take(i) =~= a.take(i));
        } else {
            assert(c.take(i) =~= a + b.take(i - a.len()));
            lemma_excess_add(a, b.take(i - a.len()));
        }
    };
}

} // verus!
