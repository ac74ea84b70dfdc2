//! Building the event stream from the raw token stream.
//!
//! A fold over the tokens tracks the open-tag depth, accumulates heading
//! text for the slugger, and repairs imbalance: a close with nothing open is
//! dropped, and tags still open at the end are force-closed, so the output
//! is always a well-formed bracket sequence.

use vstd::prelude::*;
use vstd::string::StrSliceExecFns;
use vstd::string::StringExecFns;

use crate::events::Event;
use crate::events::SpecEvent;
use crate::events::attrs_view;
use crate::events::events_view;
use crate::events::excess;
use crate::events::is_balanced;
use crate::events::lemma_excess_add;
use crate::events::lemma_excess_push;
use crate::events::lemma_prefixes_nonneg_add;
use crate::events::lemma_prefixes_nonneg_push;
use crate::events::prefixes_nonneg;
use crate::scan::RawTok;
use crate::scan::SpecTok;
use crate::scan::toks_view;
use crate::slug::SlugState;
use crate::slug::spec_slugify;

verus! {

/// A heading in the document.
#[derive(Debug, Clone, PartialEq, Eq)]
pub struct OutlineHeading {
    /// The anchor associated with the heading.
    pub id: String,
    /// The text of the heading.
    pub text: String,
    /// The level of the heading.
    pub level: u32,
}

/// The mathematical model of one heading record.
pub struct SpecHeading {
    pub id: Seq<char>,
    pub text: Seq<char>,
    pub level: u32,
}

impl View for OutlineHeading {
    type V = SpecHeading;

    open spec fn view(&self) -> SpecHeading {
        SpecHeading { id: self.id@, text: self.text@, level: self.level }
    }
}

/// The model of a heading sequence.
pub open spec fn headings_view(hs: Seq<OutlineHeading>) -> Seq<SpecHeading> {
    hs.map_values(|h: OutlineHeading| h@)
}

/// A markup imbalance that was repaired rather than reported as an error.
#[derive(Debug, Clone, Copy, PartialEq, Eq)]
pub enum MarkupWarning {
    /// A close tag arrived with no tag open; it was dropped.
    StrayClose,
    /// Tags were still open at the end of input; they were force-closed.
    Unclosed,
}

/// The state of the building fold.
#[verifier::ext_equal]
pub struct BuildState {
    /// Events emitted so far.
    pub events: Seq<SpecEvent>,
    /// Outline records emitted so far.
    pub headings: Seq<SpecHeading>,
    /// The slug table.
    pub slugs: Map<Seq<char>, nat>,
    /// Tags opened and not yet closed.
    pub depth: int,
    /// The text of the heading currently open, if one is.
    pub title: Option<Seq<char>>,
    /// Imbalance repairs, in order.
    pub warnings: Seq<MarkupWarning>,
}

/// A tag name that opens a heading: `h` followed by one of the six
/// heading levels' digits.
pub open spec fn is_heading_name(name: Seq<char>) -> bool {
    name.len() == 2 && name[0] == 'h' && ('1' as u32) <= (name[1] as u32) && (name[1] as u32)
        <= ('6' as u32)
}

/// The level a heading tag name encodes.
pub open spec fn heading_level(name: Seq<char>) -> u32 {
    ((name[1] as u32) - 48) as u32
}

/// Attribute pairs as `Attr` events, in order.
pub open spec fn attr_events(attrs: Seq<(Seq<char>, Seq<char>)>) -> Seq<SpecEvent> {
    attrs.map_values(|a: (Seq<char>, Seq<char>)| SpecEvent::Attr { name: a.0, value: a.1 })
}

/// The state before any token.
pub open spec fn init_build() -> BuildState {
    BuildState {
        events: Seq::empty(),
        headings: Seq::empty(),
        slugs: Map::empty(),
        depth: 0,
        title: None,
        warnings: Seq::empty(),
    }
}

/// How one token advances the build.
///
/// An open tag emits `Start` and its attributes, and opens a heading title
/// when the name is a heading; a self-closing tag closes itself at once and
/// leaves the depth alone.  Text is emitted and accumulated into an open
/// heading title.  A close tag first finishes an open heading — the slugged
/// `id` attribute and the outline record are emitted just before its `End` —
/// and then closes the innermost tag, or is dropped with a warning when
/// nothing is open.
pub open spec fn build_step(st: BuildState, t: SpecTok) -> BuildState {
    match t {
        SpecTok::Open { name, attrs, self_closing } => {
            if self_closing {
                BuildState {
                    events: st.events + seq![SpecEvent::Start { name }] + attr_events(attrs)
                        + seq![SpecEvent::End],
                    ..st
                }
            } else {
                BuildState {
                    events: st.events + seq![SpecEvent::Start { name }] + attr_events(attrs),
                    depth: st.depth + 1,
                    title: if is_heading_name(name) {
                        Some(Seq::empty())
                    } else {
                        st.title
                    },
                    ..st
                }
            }
        },
        SpecTok::Close { name } => {
            let st1 = if is_heading_name(name) && st.title is Some {
                let text = st.title->0;
                let id = spec_slugify(st.slugs, text).0;
                BuildState {
                    events: st.events.push(SpecEvent::Attr { name: seq!['i', 'd'], value: id }),
                    headings: st.headings.push(
                        SpecHeading { id, text, level: heading_level(name) },
                    ),
                    slugs: spec_slugify(st.slugs, text).1,
                    title: None,
                    ..st
                }
            } else {
                st
            };
            if st.depth > 0 {
                BuildState { events: st1.events.push(SpecEvent::End), depth: st.depth - 1, ..st1 }
            } else {
                BuildState { warnings: st1.warnings.push(MarkupWarning::StrayClose), ..st1 }
            }
        },
        SpecTok::Text { text } => BuildState {
            events: st.events.push(SpecEvent::Text { text }),
            title: match st.title {
                Some(t0) => Some(t0 + text),
                None => None,
            },
            ..st
        },
    }
}

/// The state after the first `i` tokens.
pub open spec fn build_fold(toks: Seq<SpecTok>, i: int) -> BuildState
    decreases i,
{
    if i <= 0 {
        init_build()
    } else {
        build_step(build_fold(toks, i - 1), toks[i - 1])
    }
}

/// `k` closing events.
pub open spec fn end_events(k: int) -> Seq<SpecEvent>
    decreases k,
{
    if k <= 0 {
        Seq::empty()
    } else {
        end_events(k - 1).push(SpecEvent::End)
    }
}

/// Force-closes whatever is still open.
pub open spec fn finish_build(st: BuildState) -> BuildState {
    if st.depth > 0 {
        BuildState {
            events: st.events + end_events(st.depth),
            depth: 0,
            warnings: st.warnings.push(MarkupWarning::Unclosed),
            ..st
        }
    } else {
        st
    }
}

/// The whole build: fold over every token, then force-close.
pub open spec fn spec_build(toks: Seq<SpecTok>) -> BuildState {
    finish_build(build_fold(toks, toks.len() as int))
}

/// What every reachable build state satisfies: the running excess of the
/// events equals the tracked depth, no prefix ever closes more than it
/// opened, slug counts never exceed the number of headings issued, and
/// every outline record carries one of the six heading levels.
pub open spec fn build_wf(st: BuildState) -> bool {
    &&& st.depth >= 0
    &&& excess(st.events) == st.depth
    &&& prefixes_nonneg(st.events)
    &&& forall|b: Seq<char>|
        st.slugs.dom().contains(b) ==> 1 <= st.slugs[b] <= st.headings.len()
    &&& forall|k: int| 0 <= k < st.headings.len() ==> 1 <= (#[trigger] st.headings[k]).level <= 6
}

/// Attribute events neither open nor close tags.
proof fn lemma_attr_events_excess(attrs: Seq<(Seq<char>, Seq<char>)>)
    ensures
        excess(attr_events(attrs)) == 0,
        prefixes_nonneg(attr_events(attrs)),
    decreases attrs.len(),
{
    if attrs.len() == 0 {
        assert(attr_events(attrs) =~= Seq::<SpecEvent>::empty());
    } else {
        lemma_attr_events_excess(attrs.drop_last());
        let evs = attr_events(attrs);
        assert(evs =~= attr_events(attrs.drop_last()).push(
            SpecEvent::Attr { name: attrs.last().0, value: attrs.last().1 },
        ));
        lemma_excess_push(
            attr_events(attrs.drop_last()),
            SpecEvent::Attr { name: attrs.last().0, value: attrs.last().1 },
        );
        crate::events::lemma_prefixes_nonneg_push(
            attr_events(attrs.drop_last()),
            SpecEvent::Attr { name: attrs.last().0, value: attrs.last().1 },
        );
    }
}

/// One build step preserves well-formedness.
proof fn lemma_step_wf(st: BuildState, t: SpecTok)
    requires
        build_wf(st),
    ensures
        build_wf(build_step(st, t)),
{
    let st2 = build_step(st, t);
    match t {
        SpecTok::Open { name, attrs, self_closing } => {
            let start = seq![SpecEvent::Start { name }];
            crate::events::lemma_single_event(SpecEvent::Start { name });
            lemma_attr_events_excess(attrs);
            lemma_excess_add(st.events, start);
            lemma_prefixes_nonneg_add(st.events, start);
            lemma_excess_add(st.events + start, attr_events(attrs));
            lemma_prefixes_nonneg_add(st.events + start, attr_events(attrs));
            if self_closing {
                lemma_excess_push(st.events + start + attr_events(attrs), SpecEvent::End);
                lemma_prefixes_nonneg_push(st.events + start + attr_events(attrs), SpecEvent::End);
                assert(st2.events =~= (st.events + start + attr_events(attrs)).push(
                    SpecEvent::End,
                ));
            }
        },
        SpecTok::Close { name } => {
            let st1 = if is_heading_name(name) && st.title is Some {
                let text = st.title->0;
                let id = spec_slugify(st.slugs, text).0;
                BuildState {
                    events: st.events.push(SpecEvent::Attr { name: seq!['i', 'd'], value: id }),
                    headings: st.headings.push(
                        SpecHeading { id, text, level: heading_level(name) },
                    ),
                    slugs: spec_slugify(st.slugs, text).1,
                    title: None,
                    ..st
                }
            } else {
                st
            };
            if is_heading_name(name) && st.title is Some {
                let text = st.title->0;
                lemma_excess_push(
                    st.events,
                    SpecEvent::Attr { name: seq!['i', 'd'], value: spec_slugify(st.slugs, text).0 },
                );
                lemma_prefixes_nonneg_push(
                    st.events,
                    SpecEvent::Attr { name: seq!['i', 'd'], value: spec_slugify(st.slugs, text).0 },
                );
            }
            if st.depth > 0 {
                lemma_excess_push(st1.events, SpecEvent::End);
                lemma_prefixes_nonneg_push(st1.events, SpecEvent::End);
            }
        },
        SpecTok::Text { text } => {
            lemma_excess_push(st.events, SpecEvent::Text { text });
            lemma_prefixes_nonneg_push(st.events, SpecEvent::Text { text });
        },
    }
}

/// Every folded state is well-formed.
pub proof fn lemma_fold_wf(toks: Seq<SpecTok>, i: int)
    ensures
        build_wf(build_fold(toks, i)),
    decreases i,
{
    if i <= 0 {
        crate::events::lemma_prefixes_nonneg_empty();
    } else {
        lemma_fold_wf(toks, i - 1);
        lemma_step_wf(build_fold(toks, i - 1), toks[i - 1]);
    }
}

/// The fold issues at most one heading per token.
pub proof fn lemma_fold_headings_bound(toks: Seq<SpecTok>, i: int)
    requires
        i >= 0,
    ensures
        build_fold(toks, i).headings.len() <= i,
    decreases i,
{
    if i > 0 {
        lemma_fold_headings_bound(toks, i - 1);
    }
}

/// Appending `j` of the owed `k` closing events keeps prefixes sound.
proof fn lemma_append_ends(a: Seq<SpecEvent>, j: int, k: int)
    requires
        prefixes_nonneg(a),
        excess(a) == k,
        0 <= j <= k,
    ensures
        prefixes_nonneg(a + end_events(j)),
        excess(a + end_events(j)) == k - j,
    decreases j,
{
    if j == 0 {
        assert(a + end_events(0) =~= a);
    } else {
        lemma_append_ends(a, j - 1, k);
        assert(a + end_events(j) =~= (a + end_events(j - 1)).push(SpecEvent::End));
        lemma_excess_push(a + end_events(j - 1), SpecEvent::End);
        lemma_prefixes_nonneg_push(a + end_events(j - 1), SpecEvent::End);
    }
}

/// The finished build is balanced, whatever the input markup was: stray
/// closes were dropped and unclosed tags force-closed.
pub proof fn lemma_build_balanced(toks: Seq<SpecTok>)
    ensures
        is_balanced(spec_build(toks).events),
{
    let st = build_fold(toks, toks.len() as int);
    lemma_fold_wf(toks, toks.len() as int);
    if st.depth > 0 {
        lemma_append_ends(st.events, st.depth, st.depth);
    }
}

/// Every outline record of a build carries one of the six heading levels.
pub proof fn lemma_outline_levels(toks: Seq<SpecTok>)
    ensures
        forall|k: int|
            0 <= k < spec_build(toks).headings.len() ==> 1 <= (#[trigger] spec_build(
                toks,
            ).headings[k]).level <= 6,
{
    lemma_fold_wf(toks, toks.len() as int);
}

/// A self-closing or void element always yields a `Start` immediately
/// followed by its matching `End`, with only its own `Attr` events between
/// the two and no intervening children; the open depth does not move.
pub proof fn lemma_self_closing_adjacent(
    st: BuildState,
    name: Seq<char>,
    attrs: Seq<(Seq<char>, Seq<char>)>,
)
    ensures
        ({
            let st2 = build_step(st, SpecTok::Open { name, attrs, self_closing: true });
            let added = st2.events.subrange(st.events.len() as int, st2.events.len() as int);
            &&& st2.events.len() == st.events.len() + attrs.len() + 2
            &&& st2.events.subrange(0, st.events.len() as int) == st.events
            &&& added[0] == (SpecEvent::Start { name })
            &&& added.last() == SpecEvent::End
            &&& forall|k: int|
                1 <= k < added.len() - 1 ==> added[k] == (SpecEvent::Attr {
                    name: attrs[k - 1].0,
                    value: attrs[k - 1].1,
                })
            &&& st2.depth == st.depth
            &&& st2.headings == st.headings
        }),
{
    let st2 = build_step(st, SpecTok::Open { name, attrs, self_closing: true });
    let added = st2.events.subrange(st.events.len() as int, st2.events.len() as int);
    assert(added =~= seq![SpecEvent::Start { name }] + attr_events(attrs) + seq![SpecEvent::End]);
    assert(st2.events.subrange(0, st.events.len() as int) =~= st.events);
}

/// Whether a tag name opens a heading.
pub fn is_heading_name_exec(name: &String) -> (r: bool)
    ensures
        r == is_heading_name(name@),
{
    let n = name.as_str().unicode_len();
    if n != 2 {
        return false;
    }
    let c0 = name.as_str().get_char(0);
    let c1 = name.as_str().get_char(1);
    let u1 = c1 as u32;
    c0 == 'h' && 49 <= u1 && u1 <= 54
}

/// Runs the building fold over a token stream: the outline, the event
/// stream, and the imbalance repairs that were needed.
#[verifier::loop_isolation(false)]
pub fn build_events_exec(toks: &Vec<RawTok>) -> (r: (Vec<OutlineHeading>, Vec<Event>, Vec<
    MarkupWarning,
>))
    ensures
        headings_view(r.0@) == spec_build(toks_view(toks@)).headings,
        events_view(r.1@) == spec_build(toks_view(toks@)).events,
        r.2@ == spec_build(toks_view(toks@)).warnings,
        is_balanced(events_view(r.1@)),
        forall|k: int| 0 <= k < r.0@.len() ==> 1 <= (#[trigger] r.0@[k]).level <= 6,
{
    let ghost tv = toks_view(toks@);
    let n = toks.len();
    let mut events: Vec<Event> = Vec::new();
    let mut headings: Vec<OutlineHeading> = Vec::new();
    let mut warnings: Vec<MarkupWarning> = Vec::new();
    let mut slugger = SlugState::new();
    let mut depth: usize = 0;
    let mut has_title: bool = false;
    let mut title_buf: String = String::new();
    let mut i: usize = 0;
    proof {
        assert(events_view(events@) =~= Seq::<SpecEvent>::empty());
        assert(headings_view(headings@) =~= Seq::<SpecHeading>::empty());
    }
    while i < n
        invariant
            i <= n,
            slugger.wf(),
            depth <= i,
            headings@.len() <= i,
            ({
                let st = build_fold(tv, i as int);
                &&& events_view(events@) == st.events
                &&& headings_view(headings@) == st.headings
                &&& slugger@ == st.slugs
                &&& depth as int == st.depth
                &&& (has_title <==> st.title is Some)
                &&& (has_title ==> title_buf@ == st.title->0)
                &&& warnings@ == st.warnings
            }),
        decreases n - i,
    {
        let ghost st0 = build_fold(tv, i as int);
        let ghost st1 = build_step(st0, tv[i as int]);
        proof {
            assert(st1 == build_fold(tv, i as int + 1));
            lemma_fold_wf(tv, i as int);
        }
        let tok = &toks[i];
        proof {
            assert(tok@ == tv[i as int]);
        }
        match tok {
            RawTok::Open { name, attrs, self_closing } => {
                let is_h = is_heading_name_exec(name);
                events.push(Event::Start(name.clone()));
                let ghost pre = st0.events + seq![SpecEvent::Start { name: name@ }];
                proof {
                    assert(events_view(events@) =~= pre);
                }
                let m = attrs.len();
                let mut k: usize = 0;
                while k < m
                    invariant
                        k <= m,
                        events_view(events@) == pre + attr_events(
                            attrs_view(attrs@).take(k as int),
                        ),
                    decreases m - k,
                {
                    let a0 = attrs[k].0.clone();
                    let a1 = attrs[k].1.clone();
                    let ghost ev0 = events@;
                    events.push(Event::Attr(a0, a1));
                    proof {
                        assert(events_view(events@) =~= events_view(ev0).push(events@.last()@));
                        assert(attr_events(attrs_view(attrs@).take(k as int + 1)) =~= attr_events(
                            attrs_view(attrs@).take(k as int),
                        ).push(
                            SpecEvent::Attr {
                                name: attrs@[k as int].0@,
                                value: attrs@[k as int].1@,
                            },
                        ));
                        assert(events_view(events@) =~= pre + attr_events(
                            attrs_view(attrs@).take(k as int + 1),
                        ));
                    }
                    k = k + 1;
                }
                proof {
                    assert(attrs_view(attrs@).take(m as int) =~= attrs_view(attrs@));
                }
                if *self_closing {
                    events.push(Event::End);
                    proof {
                        assert(events_view(events@) =~= st1.events);
                    }
                } else {
                    depth = depth + 1;
                    if is_h {
                        has_title = true;
                        title_buf = String::new();
                    }
                }
            },
            RawTok::Close { name } => {
                let is_h = is_heading_name_exec(name);
                if is_h && has_title {
                    proof {
                        lemma_fold_headings_bound(tv, i as int);
                    }
                    let id = slugger.slugify(title_buf.as_str());
                    let id2 = id.clone();
                    let idname = String::from_str("id");
                    proof {
                        reveal_strlit("id");
                        assert(idname@ =~= seq!['i', 'd']);
                    }
                    events.push(Event::Attr(idname, id));
                    let c1 = name.as_str().get_char(1);
                    let level: u32 = (c1 as u32) - 48;
                    headings.push(
                        OutlineHeading { id: id2, text: title_buf.clone(), level },
                    );
                    has_title = false;
                }
                if depth > 0 {
                    events.push(Event::End);
                    depth = depth - 1;
                } else {
                    warnings.push(MarkupWarning::StrayClose);
                }
            },
            RawTok::Text { text } => {
                events.push(Event::Text(text.clone()));
                if has_title {
                    title_buf.append(text.as_str());
                }
            },
        }
        proof {
            assert(events_view(events@) =~= st1.events);
            assert(headings_view(headings@) =~= st1.headings);
        }
        i = i + 1;
    }
    let ghost stf = build_fold(tv, n as int);
    proof {
        lemma_fold_wf(tv, n as int);
    }
    if depth > 0 {
        let d = depth;
        let mut j: usize = 0;
        while j < d
            invariant
                j <= d,
                events_view(events@) == stf.events + end_events(j as int),
            decreases d - j,
        {
            let ghost ev0 = events@;
            events.push(Event::End);
            proof {
                assert(events_view(events@) =~= events_view(ev0).push(SpecEvent::End));
                assert(end_events(j as int + 1) =~= end_events(j as int).push(SpecEvent::End));
                assert(events_view(events@) =~= stf.events + end_events(j as int + 1));
            }
            j = j + 1;
        }
        warnings.push(MarkupWarning::Unclosed);
    } else {
        proof {
            assert(events_view(events@) =~= stf.events + end_events(0));
        }
    }
    proof {
        lemma_build_balanced(tv);
        if stf.depth > 0 {
        } else {
            assert(events_view(events@) =~= spec_build(tv).events);
        }
        lemma_outline_levels(tv);
        assert forall|k: int| 0 <= k < headings@.len() implies 1 <= (#[trigger] headings@[k]).level
            <= 6 by {
            assert(headings_view(headings@)[k] == headings@[k]@);
        };
    }
    (headings, events, warnings)
}

} // verus!
