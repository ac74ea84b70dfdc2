//! Reconstructing the event stream into a nested tree, honoring the
//! component registry.
//!
//! A stack machine consumes the flat events.  A `Start` whose name is
//! registered opens a component capture: the machine collects the
//! component's own attributes (those at capture depth one) and buffers every
//! other event until the matching `End`, then emits a deferred component
//! invocation holding the captured sub-stream.  Rendering a component's
//! children re-runs reconstruction over that buffer, so nested components
//! are resolved when their turn comes.

use vstd::prelude::*;
use vstd::string::StringExecFns;

use crate::builder::attr_events;
use crate::events::Event;
use crate::events::SpecEvent;
use crate::events::attrs_view;
use crate::events::event_delta;
use crate::events::events_view;
use crate::events::excess;
use crate::events::is_balanced;
use crate::events::lemma_excess_add;
use crate::events::lemma_excess_push;
use crate::events::prefixes_nonneg;

verus! {

/// The mathematical model of one node of the reconstructed tree.
pub enum SpecNode {
    Element { name: Seq<char>, attrs: Seq<(Seq<char>, Seq<char>)>, children: Seq<SpecNode> },
    Text { text: Seq<char> },
    Component {
        name: Seq<char>,
        attrs: Seq<(Seq<char>, Seq<char>)>,
        children_events: Seq<SpecEvent>,
    },
}

/// One node of the reconstructed tree.
///
/// A `Component` node is a deferred render request: the host looks up the
/// renderer registered under `name` and invokes it with the attributes and
/// a thunk that reconstructs `children_events` on demand.
#[derive(Debug)]
pub enum MdNode {
    /// A plain element with its attributes and subtree.
    Element { name: String, attrs: Vec<(String, String)>, children: Vec<MdNode> },
    /// A text leaf.
    Text { text: String },
    /// A component invocation: its own attributes and its captured
    /// child-event sub-stream, not yet rendered.
    Component { name: String, attrs: Vec<(String, String)>, children_events: Vec<Event> },
}

/// The model of one tree node.
pub open spec fn node_view(n: MdNode) -> SpecNode
    decreases n,
    via node_view_dec
{
    if n is Element {
        SpecNode::Element {
            name: n->Element_name@,
            attrs: attrs_view(n->Element_attrs@),
            children: nodes_view(n->Element_children@),
        }
    } else if n is Text {
        SpecNode::Text { text: n->Text_text@ }
    } else {
        SpecNode::Component {
            name: n->Component_name@,
            attrs: attrs_view(n->Component_attrs@),
            children_events: events_view(n->Component_children_events@),
        }
    }
}

#[via_fn]
proof fn node_view_dec(n: MdNode) {
    if n is Element {
        assert(decreases_to!(n => n->Element_children));
        assert(decreases_to!(n => n->Element_children@));
    }
}

/// The model of a node sequence.
pub open spec fn nodes_view(s: Seq<MdNode>) -> Seq<SpecNode>
    decreases s,
{
    if s.len() == 0 {
        Seq::empty()
    } else {
        seq![node_view(s[0])] + nodes_view(s.drop_first())
    }
}

impl View for MdNode {
    type V = SpecNode;

    open spec fn view(&self) -> SpecNode {
        node_view(*self)
    }
}

/// A map from component names to component renderers, seen from the
/// verified core: the set of registered names.  The renderers themselves
/// are host capabilities; the reconstructor only needs to know which tags
/// they intercept, and emits a deferred invocation for each.
#[derive(Debug, Clone, PartialEq, Eq)]
pub struct ComponentMap {
    names: Vec<String>,
}

/// The set of names an entry list registers.
pub open spec fn names_set(s: Seq<String>) -> Set<Seq<char>>
    decreases s.len(),
{
    if s.len() == 0 {
        Set::empty()
    } else {
        names_set(s.drop_last()).insert(s.last()@)
    }
}

impl View for ComponentMap {
    type V = Set<Seq<char>>;

    closed spec fn view(&self) -> Set<Seq<char>> {
        names_set(self.names@)
    }
}

impl Default for ComponentMap {
    /// The empty registry.
    fn default() -> (r: ComponentMap)
        ensures
            r@ == Set::<Seq<char>>::empty(),
    {
        ComponentMap { names: Vec::new() }
    }
}

impl ComponentMap {
    /// Create a new empty [`ComponentMap`].
    pub fn new() -> (r: ComponentMap)
        ensures
            r@ == Set::<Seq<char>>::empty(),
    {
        ComponentMap { names: Vec::new() }
    }

    /// Adds a mapping for a component name; the renderer registered last
    /// under a name is the one the host invokes, so registering a name
    /// again changes nothing here.
    pub fn with(self, name: &str) -> (r: ComponentMap)
        ensures
            r@ == self@.insert(name@),
    {
        let mut r = self;
        r.names.push(String::from_str(name));
        proof {
            assert(r.names@.drop_last() =~= self.names@);
        }
        r
    }

    /// Whether a component is registered under this name.
    pub fn is_registered(&self, name: &String) -> (r: bool)
        ensures
            r == self@.contains(name@),
    {
        let n = self.names.len();
        let mut k: usize = 0;
        while k < n
            invariant
                n == self.names@.len(),
                k <= n,
                forall|j: int| 0 <= j < k ==> self.names@[j]@ != name@,
            decreases n - k,
        {
            if self.names[k] == *name {
                proof {
                    lemma_names_present(self.names@, k as int, name@);
                }
                return true;
            }
            k = k + 1;
        }
        proof {
            lemma_names_absent(self.names@, name@);
        }
        false
    }
}

/// A name held by some entry is in the set.
proof fn lemma_names_present(s: Seq<String>, k: int, b: Seq<char>)
    requires
        0 <= k < s.len(),
        s[k]@ == b,
    ensures
        names_set(s).contains(b),
    decreases s.len(),
{
    if k < s.len() - 1 {
        lemma_names_present(s.drop_last(), k, b);
    }
}

/// A name held by no entry is not in the set.
proof fn lemma_names_absent(s: Seq<String>, b: Seq<char>)
    requires
        forall|j: int| 0 <= j < s.len() ==> (#[trigger] s[j])@ != b,
    ensures
        !names_set(s).contains(b),
    decreases s.len(),
{
    if s.len() > 0 {
        lemma_names_absent(s.drop_last(), b);
    }
}

/// One open element frame: the tag name, the attributes seen so far, and
/// the children built so far.
#[verifier::ext_equal]
pub struct SpecFrame {
    pub name: Seq<char>,
    pub attrs: Seq<(Seq<char>, Seq<char>)>,
    pub children: Seq<SpecNode>,
}

/// A running component capture: the component's name, its own attributes,
/// the buffered child events, and the nesting depth inside it.
#[verifier::ext_equal]
pub struct SpecCapture {
    pub name: Seq<char>,
    pub attrs: Seq<(Seq<char>, Seq<char>)>,
    pub buf: Seq<SpecEvent>,
    pub depth: int,
}

/// The state of the reconstruction machine.
#[verifier::ext_equal]
pub struct RecState {
    /// Finished nodes at the root.
    pub root: Seq<SpecNode>,
    /// Attributes that arrived with no tag open; dropped from the tree
    /// and surfaced to the caller.
    pub root_attrs: Seq<(Seq<char>, Seq<char>)>,
    /// Open element frames, innermost last.
    pub frames: Seq<SpecFrame>,
    /// The running component capture, if one is.
    pub capture: Option<SpecCapture>,
}

/// The machine before any event.
pub open spec fn rec_init() -> RecState {
    RecState { root: Seq::empty(), root_attrs: Seq::empty(), frames: Seq::empty(), capture: None }
}

/// Appends a finished node to the innermost open frame, or to the root.
pub open spec fn add_child(st: RecState, node: SpecNode) -> RecState {
    if st.frames.len() > 0 {
        let f = st.frames.last();
        RecState {
            frames: st.frames.update(
                st.frames.len() - 1,
                SpecFrame { children: f.children.push(node), ..f },
            ),
            ..st
        }
    } else {
        RecState { root: st.root.push(node), ..st }
    }
}

/// How one event advances the machine.
///
/// While capturing, every event deepens, shallows or fills the capture;
/// an attribute at capture depth one belongs to the component itself and
/// every other event is buffered; the `End` that returns the depth to zero
/// closes the capture and emits the deferred component invocation.
/// Otherwise a `Start` opens a frame — or a capture, when the name is
/// registered — `Attr` joins the innermost frame, `Text` becomes a leaf,
/// and `End` closes the innermost frame into an element node.  An `End`
/// with nothing open is ignored: the parser never produces one.
pub open spec fn rec_step(st: RecState, e: SpecEvent, regs: Set<Seq<char>>) -> RecState {
    match st.capture {
        Some(cap) => match e {
            SpecEvent::Start { name } => RecState {
                capture: Some(
                    SpecCapture { buf: cap.buf.push(e), depth: cap.depth + 1, ..cap },
                ),
                ..st
            },
            SpecEvent::End => {
                if cap.depth == 1 {
                    add_child(
                        RecState { capture: None, ..st },
                        SpecNode::Component {
                            name: cap.name,
                            attrs: cap.attrs,
                            children_events: cap.buf,
                        },
                    )
                } else {
                    RecState {
                        capture: Some(
                            SpecCapture { buf: cap.buf.push(e), depth: cap.depth - 1, ..cap },
                        ),
                        ..st
                    }
                }
            },
            SpecEvent::Attr { name, value } => {
                if cap.depth == 1 {
                    RecState {
                        capture: Some(SpecCapture { attrs: cap.attrs.push((name, value)), ..cap }),
                        ..st
                    }
                } else {
                    RecState { capture: Some(SpecCapture { buf: cap.buf.push(e), ..cap }), ..st }
                }
            },
            SpecEvent::Text { .. } => RecState {
                capture: Some(SpecCapture { buf: cap.buf.push(e), ..cap }),
                ..st
            },
        },
        None => match e {
            SpecEvent::Start { name } => {
                if regs.contains(name) {
                    RecState {
                        capture: Some(
                            SpecCapture {
                                name,
                                attrs: Seq::empty(),
                                buf: Seq::empty(),
                                depth: 1,
                            },
                        ),
                        ..st
                    }
                } else {
                    RecState {
                        frames: st.frames.push(
                            SpecFrame { name, attrs: Seq::empty(), children: Seq::empty() },
                        ),
                        ..st
                    }
                }
            },
            SpecEvent::Attr { name, value } => {
                if st.frames.len() > 0 {
                    let f = st.frames.last();
                    RecState {
                        frames: st.frames.update(
                            st.frames.len() - 1,
                            SpecFrame { attrs: f.attrs.push((name, value)), ..f },
                        ),
                        ..st
                    }
                } else {
                    RecState { root_attrs: st.root_attrs.push((name, value)), ..st }
                }
            },
            SpecEvent::Text { text } => add_child(st, SpecNode::Text { text }),
            SpecEvent::End => {
                if st.frames.len() > 0 {
                    let f = st.frames.last();
                    add_child(
                        RecState { frames: st.frames.drop_last(), ..st },
                        SpecNode::Element { name: f.name, attrs: f.attrs, children: f.children },
                    )
                } else {
                    st
                }
            },
        },
    }
}

/// The machine run from `st` over a whole event sequence.
pub open spec fn rec_run(st: RecState, evs: Seq<SpecEvent>, regs: Set<Seq<char>>) -> RecState
    decreases evs.len(),
{
    if evs.len() == 0 {
        st
    } else {
        rec_run(rec_step(st, evs[0], regs), evs.drop_first(), regs)
    }
}

/// The whole reconstruction of an event sequence.
pub open spec fn spec_reconstruct(evs: Seq<SpecEvent>, regs: Set<Seq<char>>) -> RecState {
    rec_run(rec_init(), evs, regs)
}

/// Running over a concatenation is running over each part in turn.
pub proof fn lemma_rec_run_add(
    st: RecState,
    a: Seq<SpecEvent>,
    b: Seq<SpecEvent>,
    regs: Set<Seq<char>>,
)
    ensures
        rec_run(st, a + b, regs) == rec_run(rec_run(st, a, regs), b, regs),
    decreases a.len(),
{
    if a.len() == 0 {
        assert(a + b =~= b);
    } else {
        assert((a + b).drop_first() =~= a.drop_first() + b);
        lemma_rec_run_add(rec_step(st, a[0], regs), a.drop_first(), b, regs);
    }
}

/// Running over one more event is one more step.
pub proof fn lemma_rec_run_snoc(
    st: RecState,
    evs: Seq<SpecEvent>,
    e: SpecEvent,
    regs: Set<Seq<char>>,
)
    ensures
        rec_run(st, evs.push(e), regs) == rec_step(rec_run(st, evs, regs), e, regs),
{
    assert(evs.push(e) =~= evs + seq![e]);
    lemma_rec_run_add(st, evs, seq![e], regs);
    assert(seq![e].drop_first() =~= Seq::<SpecEvent>::empty());
    let w = rec_step(rec_run(st, evs, regs), e, regs);
    assert(rec_run(w, seq![e].drop_first(), regs) == w);
    assert(rec_run(rec_run(st, evs, regs), seq![e], regs) == w);
}

/// The open depth a state carries: open frames, plus the capture depth.
pub open spec fn depth_sum(st: RecState) -> int {
    st.frames.len() + match st.capture {
        Some(cap) => cap.depth,
        None => 0,
    }
}

/// A reachable state never holds a closed capture.
pub open spec fn rec_state_wf(st: RecState) -> bool {
    match st.capture {
        Some(cap) => cap.depth >= 1,
        None => true,
    }
}

/// Running events whose running excess never dips below the open depth
/// keeps the machine sound, and moves the open depth by the excess.
pub proof fn lemma_rec_run_depth(st: RecState, evs: Seq<SpecEvent>, regs: Set<Seq<char>>)
    requires
        rec_state_wf(st),
        forall|i: int| 0 <= i <= evs.len() ==> depth_sum(st) + excess(#[trigger] evs.take(i)) >= 0,
    ensures
        rec_state_wf(rec_run(st, evs, regs)),
        depth_sum(rec_run(st, evs, regs)) == depth_sum(st) + excess(evs),
    decreases evs.len(),
{
    if evs.len() == 0 {
    } else {
        let e = evs[0];
        let st1 = rec_step(st, e, regs);
        assert(evs.take(1) =~= seq![e]);
        crate::events::lemma_single_event(e);
        assert(depth_sum(st) + event_delta(e) >= 0);
        assert(rec_state_wf(st1) && depth_sum(st1) == depth_sum(st) + event_delta(e)) by {
            if st.capture is None && e is End && st.frames.len() == 0 {
                assert(depth_sum(st) == 0);
                assert(false);
            }
        };
        assert forall|i: int| 0 <= i <= evs.drop_first().len() implies depth_sum(st1) + excess(
            #[trigger] evs.drop_first().take(i),
        ) >= 0 by {
            assert(evs.take(i + 1) =~= seq![e] + evs.drop_first().take(i));
            lemma_excess_add(seq![e], evs.drop_first().take(i));
        };
        lemma_rec_run_depth(st1, evs.drop_first(), regs);
    }
}

/// An error from [`FromMd::set_prop`].
#[derive(Debug, Clone, Copy, PartialEq, Eq)]
pub enum SetPropError {
    /// A prop with this name does not exist.  In markdown, props are
    /// stringly typed, so the name must match exactly.
    UnknownProp,
    /// Could not parse the string into the prop type.
    Parse,
}

impl SetPropError {
    /// A human-readable description of the error.
    pub fn message(&self) -> (r: String)
        ensures
            self is UnknownProp ==> r@ == "a prop with this name does not exist"@,
            self is Parse ==> r@ == "could not parse value into prop type"@,
    {
        match self {
            SetPropError::UnknownProp => String::from_str("a prop with this name does not exist"),
            SetPropError::Parse => String::from_str("could not parse value into prop type"),
        }
    }
}

/// The capability a component's prop type offers the host: construct the
/// defaults, set a named prop from its markup string, and accept the
/// rendered children value.  The host implements it per component type and
/// invokes the renderer with the filled props.
pub trait FromMd<V>: Sized {
    /// Create a new instance of the props.
    fn new_prop_default() -> Self;

    /// Set a prop by name.  If a prop with the given name does not exist,
    /// or the value could not be parsed, this returns an error.
    fn set_prop(&mut self, name: &str, value: &str) -> Result<(), SetPropError>;

    /// Set the `children` prop.
    fn set_children(&mut self, children: V);
}

/// The failure list picks out some of the given attributes: `ix` names,
/// strictly in order, the position of the attribute each failure reports,
/// and each failure carries that attribute's name.
pub open spec fn failures_from(
    failed: Seq<(String, SetPropError)>,
    attrs: Seq<(String, String)>,
    ix: Seq<int>,
) -> bool {
    &&& ix.len() == failed.len()
    &&& forall|k: int| 0 <= k < ix.len() ==> 0 <= #[trigger] ix[k] < attrs.len()
    &&& forall|k: int| 0 <= k < ix.len() - 1 ==> #[trigger] ix[k] < ix[k + 1]
    &&& forall|k: int| 0 <= k < ix.len() ==> (#[trigger] failed[k]).0 == attrs[ix[k]].0
}

/// Applies a component invocation's attributes to its props, one by one: a
/// prop the type does not know, or whose value does not parse, is skipped
/// and reported back; the rest still take effect.  Every reported failure
/// names one of the given attributes, in the attributes' order.
pub fn apply_props<V, P: FromMd<V>>(props: &mut P, attrs: &Vec<(String, String)>) -> (failed: Vec<
    (String, SetPropError),
>)
    ensures
        failed@.len() <= attrs@.len(),
        exists|ix: Seq<int>| failures_from(failed@, attrs@, ix),
{
    let mut failed: Vec<(String, SetPropError)> = Vec::new();
    let ghost mut ix: Seq<int> = Seq::empty();
    let n = attrs.len();
    let mut k: usize = 0;
    while k < n
        invariant
            n == attrs@.len(),
            k <= n,
            failed@.len() <= k,
            ix.len() == failed@.len(),
            forall|m: int| 0 <= m < ix.len() ==> 0 <= #[trigger] ix[m] < k,
            forall|m: int| 0 <= m < ix.len() - 1 ==> #[trigger] ix[m] < ix[m + 1],
            forall|m: int| 0 <= m < ix.len() ==> (#[trigger] failed@[m]).0 == attrs@[ix[m]].0,
        decreases n - k,
    {
        match props.set_prop(attrs[k].0.as_str(), attrs[k].1.as_str()) {
            Ok(_) => (),
            Err(e) => {
                failed.push((attrs[k].0.clone(), e));
                proof {
                    ix = ix.push(k as int);
                }
            },
        }
        k = k + 1;
    }
    proof {
        assert(failures_from(failed@, attrs@, ix));
    }
    failed
}

/// One open element frame while reconstruction runs.
struct RecFrame {
    name: String,
    attrs: Vec<(String, String)>,
    children: Vec<MdNode>,
}

/// The model of one running frame.
spec fn frame_view(f: RecFrame) -> SpecFrame {
    SpecFrame { name: f.name@, attrs: attrs_view(f.attrs@), children: nodes_view(f.children@) }
}

/// The model of the frame stack.
spec fn frames_view(s: Seq<RecFrame>) -> Seq<SpecFrame> {
    s.map_values(|f: RecFrame| frame_view(f))
}

/// Taking node models commutes with appending a node.
proof fn lemma_nodes_view_push(s: Seq<MdNode>, n: MdNode)
    ensures
        nodes_view(s.push(n)) =~= nodes_view(s).push(node_view(n)),
    decreases s.len(),
{
    if s.len() == 0 {
        assert(s.push(n).drop_first() =~= Seq::<MdNode>::empty());
        assert(nodes_view(Seq::<MdNode>::empty()) =~= Seq::<SpecNode>::empty());
        assert(s.push(n)[0] == n);
        assert(nodes_view(s.push(n)) =~= seq![node_view(n)] + Seq::<SpecNode>::empty());
    } else {
        assert(s.push(n).drop_first() =~= s.drop_first().push(n));
        lemma_nodes_view_push(s.drop_first(), n);
        assert(s.push(n)[0] == s[0]);
        assert(nodes_view(s.push(n)) =~= seq![node_view(s[0])] + nodes_view(s.drop_first()).push(
            node_view(n),
        ));
    }
}

/// Appends a finished node to the innermost open frame, or to the root.
fn add_child_exec(frames: &mut Vec<RecFrame>, root: &mut Vec<MdNode>, node: MdNode)
    ensures
        ({
            let fo = frames_view(old(frames)@);
            &&& (fo.len() > 0 ==> final(root)@ == old(root)@ && frames_view(final(frames)@)
                =~= fo.update(
                fo.len() - 1,
                SpecFrame { children: fo.last().children.push(node@), ..fo.last() },
            ))
            &&& (fo.len() == 0 ==> final(frames)@ == old(frames)@ && nodes_view(final(root)@)
                =~= nodes_view(old(root)@).push(node@))
        }),
{
    match frames.pop() {
        Some(mut f) => {
            let ghost f0 = f;
            f.children.push(node);
            proof {
                lemma_nodes_view_push(f0.children@, node);
            }
            frames.push(f);
            proof {
                assert(frames@ =~= old(frames)@.update(old(frames)@.len() - 1, frames@.last()));
                assert(frames_view(frames@) =~= frames_view(old(frames)@).update(
                    frames_view(old(frames)@).len() - 1,
                    SpecFrame {
                        children: frames_view(old(frames)@).last().children.push(node@),
                        ..frames_view(old(frames)@).last()
                    },
                ));
            }
        },
        None => {
            let ghost r0 = root@;
            root.push(node);
            proof {
                lemma_nodes_view_push(r0, node);
            }
        },
    }
}

/// Reconstructs the event stream into a tree, substituting a deferred
/// renderer invocation for each registered component tag.
///
/// The input must be a well-formed bracket sequence, as everything the
/// parser emits is; the first result is the ordered list of root nodes —
/// the one root frame the balance law promises.  An attribute that arrives
/// while no tag is open decorates nothing; such a fault is recovered by
/// dropping the attribute from the tree, and every dropped pair is handed
/// back in the second result so the caller can report it.  Reconstruction
/// is a pure function of the events and the registry, so re-running it
/// over a captured child buffer — as a component may, any number of times
/// — yields the same tree every time.
#[verifier::loop_isolation(false)]
pub fn events_to_view(events: &Vec<Event>, components: &ComponentMap) -> (r: (Vec<MdNode>, Vec<
    (String, String),
>))
    requires
        is_balanced(events_view(events@)),
    ensures
        nodes_view(r.0@) == spec_reconstruct(events_view(events@), components@).root,
        attrs_view(r.1@) == spec_reconstruct(events_view(events@), components@).root_attrs,
        spec_reconstruct(events_view(events@), components@).frames.len() == 0,
        spec_reconstruct(events_view(events@), components@).capture is None,
        nodes_ok(nodes_view(r.0@)),
{
    let ghost ev = events_view(events@);
    let ghost regs = components@;
    let n = events.len();
    let mut root: Vec<MdNode> = Vec::new();
    let mut root_attrs: Vec<(String, String)> = Vec::new();
    let mut frames: Vec<RecFrame> = Vec::new();
    let mut cap_active: bool = false;
    let mut cap_name: String = String::new();
    let mut cap_attrs: Vec<(String, String)> = Vec::new();
    let mut cap_buf: Vec<Event> = Vec::new();
    let mut cap_depth: usize = 0;
    let mut i: usize = 0;
    proof {
        assert(ev.take(0) =~= Seq::<SpecEvent>::empty());
        assert(nodes_view(root@) =~= Seq::<SpecNode>::empty());
        assert(attrs_view(root_attrs@) =~= Seq::<(Seq<char>, Seq<char>)>::empty());
        assert(frames_view(frames@) =~= Seq::<SpecFrame>::empty());
    }
    while i < n
        invariant
            i <= n,
            ({
                let st = rec_run(rec_init(), ev.take(i as int), regs);
                &&& nodes_view(root@) == st.root
                &&& attrs_view(root_attrs@) == st.root_attrs
                &&& frames_view(frames@) == st.frames
                &&& (cap_active <==> st.capture is Some)
                &&& (cap_active ==> {
                    let cap = st.capture->0;
                    &&& cap_name@ == cap.name
                    &&& attrs_view(cap_attrs@) == cap.attrs
                    &&& events_view(cap_buf@) == cap.buf
                    &&& cap_depth as int == cap.depth
                })
            }),
        decreases n - i,
    {
        let ghost st0 = rec_run(rec_init(), ev.take(i as int), regs);
        let ghost st1 = rec_step(st0, ev[i as int], regs);
        proof {
            assert(ev.take(i as int + 1) =~= ev.take(i as int).push(ev[i as int]));
            lemma_rec_run_snoc(rec_init(), ev.take(i as int), ev[i as int], regs);
            assert(rec_run(rec_init(), ev.take(i as int + 1), regs) == st1);
            // The open depth so far is bounded by the events consumed.
            assert forall|j: int| 0 <= j <= ev.take(i as int).len() implies depth_sum(rec_init())
                + excess(#[trigger] ev.take(i as int).take(j)) >= 0 by {
                assert(ev.take(i as int).take(j) =~= ev.take(j));
            };
            lemma_rec_run_depth(rec_init(), ev.take(i as int), regs);
            crate::events::lemma_excess_bound(ev.take(i as int));
        }
        let e = &events[i];
        proof {
            assert(e@ == ev[i as int]);
        }
        if cap_active {
            match e {
                Event::Start(name) => {
                    cap_buf.push(Event::Start(name.clone()));
                    cap_depth = cap_depth + 1;
                    proof {
                        assert(events_view(cap_buf@) =~= st1.capture->0.buf);
                    }
                },
                Event::End => {
                    if cap_depth == 1 {
                        let node = MdNode::Component {
                            name: cap_name,
                            attrs: cap_attrs,
                            children_events: cap_buf,
                        };
                        cap_active = false;
                        cap_name = String::new();
                        cap_attrs = Vec::new();
                        cap_buf = Vec::new();
                        cap_depth = 0;
                        add_child_exec(&mut frames, &mut root, node);
                    } else {
                        cap_buf.push(Event::End);
                        cap_depth = cap_depth - 1;
                        proof {
                            assert(events_view(cap_buf@) =~= st1.capture->0.buf);
                        }
                    }
                },
                Event::Attr(name, value) => {
                    if cap_depth == 1 {
                        cap_attrs.push((name.clone(), value.clone()));
                        proof {
                            assert(attrs_view(cap_attrs@) =~= st1.capture->0.attrs);
                        }
                    } else {
                        cap_buf.push(Event::Attr(name.clone(), value.clone()));
                        proof {
                            assert(events_view(cap_buf@) =~= st1.capture->0.buf);
                        }
                    }
                },
                Event::Text(text) => {
                    cap_buf.push(Event::Text(text.clone()));
                    proof {
                        assert(events_view(cap_buf@) =~= st1.capture->0.buf);
                    }
                },
            }
        } else {
            match e {
                Event::Start(name) => {
                    if components.is_registered(name) {
                        cap_active = true;
                        cap_name = name.clone();
                        cap_attrs = Vec::new();
                        cap_buf = Vec::new();
                        cap_depth = 1;
                        proof {
                            assert(attrs_view(cap_attrs@) =~= Seq::<(Seq<char>, Seq<char>)>::empty());
                            assert(events_view(cap_buf@) =~= Seq::<SpecEvent>::empty());
                        }
                    } else {
                        frames.push(
                            RecFrame { name: name.clone(), attrs: Vec::new(), children: Vec::new() },
                        );
                        proof {
                            assert(attrs_view(Seq::<(String, String)>::empty()) =~= Seq::<
                                (Seq<char>, Seq<char>),
                            >::empty());
                            assert(nodes_view(Seq::<MdNode>::empty()) =~= Seq::<SpecNode>::empty());
                            assert(frames_view(frames@) =~= st1.frames);
                        }
                    }
                },
                Event::Attr(name, value) => {
                    if frames.len() > 0 {
                        match frames.pop() {
                            Some(mut f) => {
                                let ghost f0 = f;
                                f.attrs.push((name.clone(), value.clone()));
                                frames.push(f);
                                proof {
                                    assert(attrs_view(f.attrs@) =~= attrs_view(f0.attrs@).push(
                                        (name@, value@),
                                    ));
                                    assert(frames_view(frames@) =~= st1.frames);
                                }
                            },
                            None => {},
                        }
                    } else {
                        root_attrs.push((name.clone(), value.clone()));
                        proof {
                            assert(attrs_view(root_attrs@) =~= st1.root_attrs);
                        }
                    }
                },
                Event::Text(text) => {
                    add_child_exec(&mut frames, &mut root, MdNode::Text { text: text.clone() });
                },
                Event::End => {
                    match frames.pop() {
                        Some(f) => {
                            let node = MdNode::Element {
                                name: f.name,
                                attrs: f.attrs,
                                children: f.children,
                            };
                            add_child_exec(&mut frames, &mut root, node);
                        },
                        None => {},
                    }
                },
            }
        }
        proof {
            assert(nodes_view(root@) =~= st1.root);
            assert(attrs_view(root_attrs@) =~= st1.root_attrs);
            assert(frames_view(frames@) =~= st1.frames);
        }
        i = i + 1;
    }
    proof {
        assert(ev.take(n as int) =~= ev);
        lemma_reconstruction_balance(ev, regs);
        lemma_captured_children_balanced(ev, regs);
    }
    (root, root_attrs)
}

/// Running one event is one step.
proof fn lemma_rec_run_one(st: RecState, e: SpecEvent, regs: Set<Seq<char>>)
    ensures
        rec_run(st, seq![e], regs) == rec_step(st, e, regs),
{
    assert(Seq::<SpecEvent>::empty().push(e) =~= seq![e]);
    lemma_rec_run_snoc(st, Seq::<SpecEvent>::empty(), e, regs);
    assert(rec_run(st, Seq::<SpecEvent>::empty(), regs) == st);
}

/// Attribute events at capture depth one all join the component's own
/// attribute list, and nothing else moves.
proof fn lemma_run_capture_attrs(
    st: RecState,
    attrs: Seq<(Seq<char>, Seq<char>)>,
    regs: Set<Seq<char>>,
)
    requires
        st.capture is Some,
        st.capture->0.depth == 1,
    ensures
        rec_run(st, crate::builder::attr_events(attrs), regs) == (RecState {
            capture: Some(SpecCapture { attrs: st.capture->0.attrs + attrs, ..st.capture->0 }),
            ..st
        }),
    decreases attrs.len(),
{
    let evs = crate::builder::attr_events(attrs);
    if attrs.len() == 0 {
        assert(evs =~= Seq::<SpecEvent>::empty());
        assert(st.capture->0.attrs + attrs =~= st.capture->0.attrs);
        assert(RecState {
            capture: Some(SpecCapture { attrs: st.capture->0.attrs, ..st.capture->0 }),
            ..st
        } =~= st);
    } else {
        let a0 = attrs[0];
        assert(evs[0] == (SpecEvent::Attr { name: a0.0, value: a0.1 }));
        let st1 = rec_step(st, evs[0], regs);
        assert(st1.capture->0.attrs == st.capture->0.attrs.push((a0.0, a0.1)));
        assert(evs.drop_first() =~= crate::builder::attr_events(attrs.drop_first()));
        lemma_run_capture_attrs(st1, attrs.drop_first(), regs);
        assert(st.capture->0.attrs.push((a0.0, a0.1)) + attrs.drop_first() =~= st.capture->0.attrs
            + attrs);
        assert(rec_run(st, evs, regs) =~= (RecState {
            capture: Some(SpecCapture { attrs: st.capture->0.attrs + attrs, ..st.capture->0 }),
            ..st
        }));
    }
}

/// Attribute events at capture depth two or more are all buffered as a
/// descendant's events, and the component's own attribute list does not
/// move.
proof fn lemma_run_capture_deep_attrs(
    st: RecState,
    attrs: Seq<(Seq<char>, Seq<char>)>,
    regs: Set<Seq<char>>,
)
    requires
        st.capture is Some,
        st.capture->0.depth >= 2,
    ensures
        rec_run(st, crate::builder::attr_events(attrs), regs) == (RecState {
            capture: Some(
                SpecCapture {
                    buf: st.capture->0.buf + crate::builder::attr_events(attrs),
                    ..st.capture->0
                },
            ),
            ..st
        }),
    decreases attrs.len(),
{
    let evs = crate::builder::attr_events(attrs);
    if attrs.len() == 0 {
        assert(evs =~= Seq::<SpecEvent>::empty());
        assert(st.capture->0.buf + evs =~= st.capture->0.buf);
        assert(RecState {
            capture: Some(SpecCapture { buf: st.capture->0.buf, ..st.capture->0 }),
            ..st
        } =~= st);
    } else {
        let a0 = attrs[0];
        assert(evs[0] == (SpecEvent::Attr { name: a0.0, value: a0.1 }));
        let st1 = rec_step(st, evs[0], regs);
        assert(st1.capture->0.buf == st.capture->0.buf.push(evs[0]));
        assert(evs.drop_first() =~= crate::builder::attr_events(attrs.drop_first()));
        lemma_run_capture_deep_attrs(st1, attrs.drop_first(), regs);
        assert(st.capture->0.buf.push(evs[0]) + crate::builder::attr_events(attrs.drop_first())
            =~= st.capture->0.buf + evs);
        assert(rec_run(st, evs, regs) =~= (RecState {
            capture: Some(SpecCapture { buf: st.capture->0.buf + evs, ..st.capture->0 }),
            ..st
        }));
    }
}

/// The attribute pairs of a captured sub-stream that belong to the
/// component itself: those of the `Attr` events occurring while the
/// capture depth is one, in order.  `d` is the depth at the front of the
/// stream.
pub open spec fn own_attrs_from(evs: Seq<SpecEvent>, d: int) -> Seq<(Seq<char>, Seq<char>)>
    decreases evs.len(),
{
    if evs.len() == 0 {
        Seq::empty()
    } else {
        match evs[0] {
            SpecEvent::Attr { name, value } => if d == 1 {
                seq![(name, value)] + own_attrs_from(evs.drop_first(), d)
            } else {
                own_attrs_from(evs.drop_first(), d)
            },
            e => own_attrs_from(evs.drop_first(), d + event_delta(e)),
        }
    }
}

/// The events of a captured sub-stream that belong to the component's
/// children: everything but the `Attr` events at capture depth one, in
/// order.  `d` is the depth at the front of the stream.
pub open spec fn child_events_from(evs: Seq<SpecEvent>, d: int) -> Seq<SpecEvent>
    decreases evs.len(),
{
    if evs.len() == 0 {
        Seq::empty()
    } else {
        match evs[0] {
            SpecEvent::Attr { .. } => if d == 1 {
                child_events_from(evs.drop_first(), d)
            } else {
                seq![evs[0]] + child_events_from(evs.drop_first(), d)
            },
            e => seq![evs[0]] + child_events_from(evs.drop_first(), d + event_delta(e)),
        }
    }
}

/// Running a capture over a sub-stream that never closes it collects
/// exactly the depth-one attribute pairs into the component's own list and
/// everything else into the child-event buffer.
proof fn lemma_run_capture(st: RecState, evs: Seq<SpecEvent>, regs: Set<Seq<char>>)
    requires
        st.capture is Some,
        st.capture->0.depth >= 1,
        forall|i: int|
            0 <= i <= evs.len() ==> st.capture->0.depth + excess(#[trigger] evs.take(i)) >= 1,
    ensures
        rec_run(st, evs, regs) == (RecState {
            capture: Some(
                SpecCapture {
                    attrs: st.capture->0.attrs + own_attrs_from(evs, st.capture->0.depth),
                    buf: st.capture->0.buf + child_events_from(evs, st.capture->0.depth),
                    depth: st.capture->0.depth + excess(evs),
                    ..st.capture->0
                },
            ),
            ..st
        }),
    decreases evs.len(),
{
    let cap = st.capture->0;
    let d = cap.depth;
    if evs.len() == 0 {
        assert(cap.attrs + own_attrs_from(evs, d) =~= cap.attrs);
        assert(cap.buf + child_events_from(evs, d) =~= cap.buf);
        assert(RecState {
            capture: Some(SpecCapture { attrs: cap.attrs, buf: cap.buf, depth: d, ..cap }),
            ..st
        } =~= st);
    } else {
        let e = evs[0];
        assert(evs.take(1) =~= seq![e]);
        crate::events::lemma_single_event(e);
        assert(d + event_delta(e) >= 1);
        let st1 = rec_step(st, e, regs);
        assert(st1.capture is Some && st1.capture->0.depth == d + event_delta(e));
        assert forall|i: int|
            0 <= i <= evs.drop_first().len() implies st1.capture->0.depth + excess(
            #[trigger] evs.drop_first().take(i),
        ) >= 1 by {
            assert(evs.take(i + 1) =~= seq![e] + evs.drop_first().take(i));
            lemma_excess_add(seq![e], evs.drop_first().take(i));
        };
        lemma_run_capture(st1, evs.drop_first(), regs);
        let d1 = st1.capture->0.depth;
        match e {
            SpecEvent::Attr { name, value } => {
                if d == 1 {
                    assert(cap.attrs.push((name, value)) + own_attrs_from(evs.drop_first(), d)
                        =~= cap.attrs + own_attrs_from(evs, d));
                    assert(cap.buf + child_events_from(evs, d) =~= cap.buf + child_events_from(
                        evs.drop_first(),
                        d,
                    ));
                } else {
                    assert(cap.attrs + own_attrs_from(evs, d) =~= cap.attrs + own_attrs_from(
                        evs.drop_first(),
                        d,
                    ));
                    assert(cap.buf.push(e) + child_events_from(evs.drop_first(), d) =~= cap.buf
                        + child_events_from(evs, d));
                }
            },
            _ => {
                assert(cap.attrs + own_attrs_from(evs, d) =~= cap.attrs + own_attrs_from(
                    evs.drop_first(),
                    d1,
                ));
                assert(cap.buf.push(e) + child_events_from(evs.drop_first(), d1) =~= cap.buf
                    + child_events_from(evs, d));
            },
        }
        assert(rec_run(st, evs, regs) =~= (RecState {
            capture: Some(
                SpecCapture {
                    attrs: cap.attrs + own_attrs_from(evs, d),
                    buf: cap.buf + child_events_from(evs, d),
                    depth: d + excess(evs),
                    ..cap
                },
            ),
            ..st
        }));
    }
}

/// Component capture in full generality: a registered component tag
/// followed by any well-formed sub-stream and its matching `End` becomes
/// one deferred invocation whose attributes are exactly the sub-stream's
/// depth-one `Attr` events — a descendant's attributes, at depth two or
/// more, never leak onto the component — and whose captured child events
/// are exactly everything else, in order.
pub proof fn lemma_component_capture(regs: Set<Seq<char>>, comp: Seq<char>, body: Seq<SpecEvent>)
    requires
        regs.contains(comp),
        is_balanced(body),
    ensures
        ({
            let evs = seq![SpecEvent::Start { name: comp }] + body + seq![SpecEvent::End];
            spec_reconstruct(evs, regs) == (RecState {
                root: seq![
                    SpecNode::Component {
                        name: comp,
                        attrs: own_attrs_from(body, 1),
                        children_events: child_events_from(body, 1),
                    },
                ],
                root_attrs: Seq::empty(),
                frames: Seq::empty(),
                capture: None,
            })
        }),
{
    let evs = seq![SpecEvent::Start { name: comp }] + body + seq![SpecEvent::End];
    let s_open = seq![SpecEvent::Start { name: comp }];
    let s_end = seq![SpecEvent::End];
    let st1 = rec_run(rec_init(), s_open, regs);
    lemma_rec_run_one(rec_init(), SpecEvent::Start { name: comp }, regs);
    assert(st1.capture == Some(
        SpecCapture { name: comp, attrs: Seq::empty(), buf: Seq::empty(), depth: 1 },
    ));
    assert forall|i: int| 0 <= i <= body.len() implies st1.capture->0.depth + excess(
        #[trigger] body.take(i),
    ) >= 1 by {};
    lemma_run_capture(st1, body, regs);
    let st2 = rec_run(st1, body, regs);
    assert(st2.capture->0.attrs =~= own_attrs_from(body, 1));
    assert(st2.capture->0.buf =~= child_events_from(body, 1));
    assert(st2.capture->0.depth == 1);
    let st3 = rec_run(st2, s_end, regs);
    lemma_rec_run_one(st2, SpecEvent::End, regs);
    assert(st3.capture is None);
    assert(st3.root =~= seq![
        SpecNode::Component {
            name: comp,
            attrs: own_attrs_from(body, 1),
            children_events: child_events_from(body, 1),
        },
    ]);
    lemma_rec_run_add(rec_init(), s_open, body + s_end, regs);
    lemma_rec_run_add(st1, body, s_end, regs);
    assert(evs =~= s_open + (body + s_end));
    assert(spec_reconstruct(evs, regs) == st3);
    assert(st3 =~= (RecState {
        root: seq![
            SpecNode::Component {
                name: comp,
                attrs: own_attrs_from(body, 1),
                children_events: child_events_from(body, 1),
            },
        ],
        root_attrs: Seq::empty(),
        frames: Seq::empty(),
        capture: None,
    }));
}

/// Component attribute isolation, in the shape the design describes: a
/// registered component tag holding its own attributes and a descendant
/// element with attributes of its own.  The invocation receives exactly
/// its own attributes; the descendant's stay inside the captured child
/// events.  This holds whether or not the descendant's tag is itself
/// registered; [`lemma_component_capture`] states the same isolation for
/// an arbitrary well-formed sub-stream.
pub proof fn lemma_component_attr_isolation(
    regs: Set<Seq<char>>,
    comp: Seq<char>,
    own_attrs: Seq<(Seq<char>, Seq<char>)>,
    desc: Seq<char>,
    desc_attrs: Seq<(Seq<char>, Seq<char>)>,
)
    requires
        regs.contains(comp),
    ensures
        ({
            let inner = seq![SpecEvent::Start { name: desc }] + crate::builder::attr_events(
                desc_attrs,
            ) + seq![SpecEvent::End];
            let evs = seq![SpecEvent::Start { name: comp }] + crate::builder::attr_events(
                own_attrs,
            ) + inner + seq![SpecEvent::End];
            let st = spec_reconstruct(evs, regs);
            &&& st.frames.len() == 0
            &&& st.capture is None
            &&& st.root =~= seq![
                SpecNode::Component { name: comp, attrs: own_attrs, children_events: inner },
            ]
        }),
{
    let inner = seq![SpecEvent::Start { name: desc }] + crate::builder::attr_events(desc_attrs)
        + seq![SpecEvent::End];
    let evs = seq![SpecEvent::Start { name: comp }] + crate::builder::attr_events(own_attrs)
        + inner + seq![SpecEvent::End];
    let s_open = seq![SpecEvent::Start { name: comp }];
    let s_own = crate::builder::attr_events(own_attrs);
    let s_dopen = seq![SpecEvent::Start { name: desc }];
    let s_dattrs = crate::builder::attr_events(desc_attrs);
    let s_end = seq![SpecEvent::End];
    // Run the machine part by part.
    let st1 = rec_run(rec_init(), s_open, regs);
    lemma_rec_run_one(rec_init(), SpecEvent::Start { name: comp }, regs);
    assert(st1.capture == Some(
        SpecCapture { name: comp, attrs: Seq::empty(), buf: Seq::empty(), depth: 1 },
    ));
    let st2 = rec_run(st1, s_own, regs);
    lemma_run_capture_attrs(st1, own_attrs, regs);
    assert(st2.capture->0.attrs =~= own_attrs);
    let st3 = rec_run(st2, s_dopen, regs);
    lemma_rec_run_one(st2, SpecEvent::Start { name: desc }, regs);
    assert(st3.capture->0.depth == 2);
    assert(st3.capture->0.buf =~= s_dopen);
    let st4 = rec_run(st3, s_dattrs, regs);
    lemma_run_capture_deep_attrs(st3, desc_attrs, regs);
    assert(st4.capture->0.attrs =~= own_attrs);
    assert(st4.capture->0.buf =~= s_dopen + s_dattrs);
    let st5 = rec_run(st4, s_end, regs);
    lemma_rec_run_one(st4, SpecEvent::End, regs);
    assert(st5.capture->0.depth == 1);
    assert(st5.capture->0.buf =~= inner);
    let st6 = rec_run(st5, s_end, regs);
    lemma_rec_run_one(st5, SpecEvent::End, regs);
    assert(st6.capture is None);
    assert(st6.root =~= seq![
        SpecNode::Component { name: comp, attrs: st5.capture->0.attrs, children_events: inner },
    ]);
    // Stitch the parts together.
    lemma_rec_run_add(rec_init(), s_open, s_own + s_dopen + s_dattrs + s_end + s_end, regs);
    lemma_rec_run_add(st1, s_own, s_dopen + s_dattrs + s_end + s_end, regs);
    lemma_rec_run_add(st2, s_dopen, s_dattrs + s_end + s_end, regs);
    lemma_rec_run_add(st3, s_dattrs, s_end + s_end, regs);
    lemma_rec_run_add(st4, s_end, s_end, regs);
    assert(evs =~= s_open + (s_own + s_dopen + s_dattrs + s_end + s_end));
    assert(s_own + s_dopen + s_dattrs + s_end + s_end =~= s_own + (s_dopen + s_dattrs + s_end
        + s_end));
    assert(s_dopen + s_dattrs + s_end + s_end =~= s_dopen + (s_dattrs + s_end + s_end));
    assert(s_dattrs + s_end + s_end =~= s_dattrs + (s_end + s_end));
    assert(spec_reconstruct(evs, regs) == st6);
    assert(st5.capture->0.attrs =~= own_attrs);
}

/// A tree node fit for rendering: every component invocation in it, at
/// any depth, captured a well-formed bracket sequence, so its children can
/// be reconstructed in turn.
pub open spec fn node_ok(n: SpecNode) -> bool
    decreases n,
{
    if n is Element {
        nodes_ok(n->Element_children)
    } else if n is Text {
        true
    } else {
        is_balanced(n->Component_children_events)
    }
}

/// Every node of the sequence is fit for rendering.
pub open spec fn nodes_ok(s: Seq<SpecNode>) -> bool
    decreases s,
{
    if s.len() == 0 {
        true
    } else {
        node_ok(s[0]) && nodes_ok(s.drop_first())
    }
}

/// Fitness of a pushed node sequence splits into its parts.
proof fn lemma_nodes_ok_push(s: Seq<SpecNode>, n: SpecNode)
    ensures
        nodes_ok(s.push(n)) <==> nodes_ok(s) && node_ok(n),
    decreases s.len(),
{
    if s.len() == 0 {
        assert(s.push(n).drop_first() =~= Seq::<SpecNode>::empty());
        assert(nodes_ok(Seq::<SpecNode>::empty()));
        assert(s.push(n)[0] == n);
    } else {
        assert(s.push(n).drop_first() =~= s.drop_first().push(n));
        lemma_nodes_ok_push(s.drop_first(), n);
        assert(s.push(n)[0] == s[0]);
    }
}

/// What the machine maintains so that every emitted component invocation
/// captures a well-formed sub-stream: all finished nodes are fit, every
/// open frame's children are fit, and a running capture's buffer is one
/// `End` short of balanced at each nesting level.
pub open spec fn rec_state_ok(st: RecState) -> bool {
    &&& nodes_ok(st.root)
    &&& forall|k: int| 0 <= k < st.frames.len() ==> nodes_ok((#[trigger] st.frames[k]).children)
    &&& match st.capture {
        Some(cap) => {
            &&& cap.depth >= 1
            &&& excess(cap.buf) == cap.depth - 1
            &&& prefixes_nonneg(cap.buf)
        },
        None => true,
    }
}

/// Adding a fit node keeps the state fit.
proof fn lemma_add_child_ok(st: RecState, node: SpecNode)
    requires
        rec_state_ok(st),
        node_ok(node),
    ensures
        rec_state_ok(add_child(st, node)),
{
    if st.frames.len() > 0 {
        lemma_nodes_ok_push(st.frames.last().children, node);
    } else {
        lemma_nodes_ok_push(st.root, node);
    }
}

/// One step of the machine keeps the state fit, whatever the event.
proof fn lemma_step_ok(st: RecState, e: SpecEvent, regs: Set<Seq<char>>)
    requires
        rec_state_ok(st),
    ensures
        rec_state_ok(rec_step(st, e, regs)),
{
    match st.capture {
        Some(cap) => match e {
            SpecEvent::End => {
                if cap.depth == 1 {
                    assert(is_balanced(cap.buf));
                    lemma_add_child_ok(
                        RecState { capture: None, ..st },
                        SpecNode::Component {
                            name: cap.name,
                            attrs: cap.attrs,
                            children_events: cap.buf,
                        },
                    );
                } else {
                    lemma_excess_push(cap.buf, e);
                    crate::events::lemma_prefixes_nonneg_push(cap.buf, e);
                }
            },
            SpecEvent::Attr { .. } => {
                if cap.depth != 1 {
                    lemma_excess_push(cap.buf, e);
                    crate::events::lemma_prefixes_nonneg_push(cap.buf, e);
                }
            },
            _ => {
                lemma_excess_push(cap.buf, e);
                crate::events::lemma_prefixes_nonneg_push(cap.buf, e);
            },
        },
        None => match e {
            SpecEvent::Text { text } => {
                lemma_add_child_ok(st, SpecNode::Text { text });
            },
            SpecEvent::End => {
                if st.frames.len() > 0 {
                    let f = st.frames.last();
                    let popped = RecState { frames: st.frames.drop_last(), ..st };
                    assert(forall|k: int|
                        0 <= k < popped.frames.len() ==> nodes_ok(
                            (#[trigger] popped.frames[k]).children,
                        ));
                    lemma_add_child_ok(
                        popped,
                        SpecNode::Element { name: f.name, attrs: f.attrs, children: f.children },
                    );
                }
            },
            SpecEvent::Start { name } => {
                if regs.contains(name) {
                    crate::events::lemma_prefixes_nonneg_empty();
                }
            },
            _ => (),
        },
    }
}

/// A whole run keeps the state fit.
proof fn lemma_run_ok(st: RecState, evs: Seq<SpecEvent>, regs: Set<Seq<char>>)
    requires
        rec_state_ok(st),
    ensures
        rec_state_ok(rec_run(st, evs, regs)),
    decreases evs.len(),
{
    if evs.len() > 0 {
        lemma_step_ok(st, evs[0], regs);
        lemma_run_ok(rec_step(st, evs[0], regs), evs.drop_first(), regs);
    }
}

/// Every component invocation a reconstruction emits, at any depth of the
/// tree, captured a well-formed bracket sequence — so rendering a
/// component's children may always hand the captured events back to the
/// reconstructor, whose balance requirement they meet.
pub proof fn lemma_captured_children_balanced(evs: Seq<SpecEvent>, regs: Set<Seq<char>>)
    ensures
        nodes_ok(spec_reconstruct(evs, regs).root),
{
    assert(rec_state_ok(rec_init()));
    lemma_run_ok(rec_init(), evs, regs);
}

/// The round-trip balance law: reconstructing a well-formed bracket
/// sequence — such as any event stream the parser produces — ends with
/// exactly one root frame: no element frame is left open and no component
/// capture is left running.
pub proof fn lemma_reconstruction_balance(evs: Seq<SpecEvent>, regs: Set<Seq<char>>)
    requires
        is_balanced(evs),
    ensures
        spec_reconstruct(evs, regs).frames.len() == 0,
        spec_reconstruct(evs, regs).capture is None,
{
    lemma_rec_run_depth(rec_init(), evs, regs);
    let st = spec_reconstruct(evs, regs);
    assert(depth_sum(st) == 0);
    match st.capture {
        Some(cap) => {
            assert(cap.depth >= 1);
            assert(false);
        },
        None => (),
    }
}

/// The balance law, end to end: whatever body text is parsed and whatever
/// components are registered, reconstructing the parsed event stream ends
/// with exactly one root frame.
pub proof fn lemma_parse_then_reconstruct(body: Seq<char>, regs: Set<Seq<char>>)
    ensures
        spec_reconstruct(crate::parser::spec_parse_md(body).events, regs).frames.len() == 0,
        spec_reconstruct(crate::parser::spec_parse_md(body).events, regs).capture is None,
{
    crate::builder::lemma_build_balanced(
        crate::scan::spec_scan(crate::parser::md_html_of(body), 0),
    );
    lemma_reconstruction_balance(crate::parser::spec_parse_md(body).events, regs);
}

} // verus!
