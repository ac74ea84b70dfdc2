use mdsycx::ComponentMap;
use mdsycx::Event;
use mdsycx::FromMd;
use mdsycx::MdNode;
use mdsycx::SetPropError;
use mdsycx::apply_props;
use mdsycx::events_to_view;
use mdsycx::parse_md;

#[test]
fn reconstruct_plain_elements() {
    let (_h, body, _w) = parse_md("<div><p>Test</p></div>");
    let (nodes, dropped) = events_to_view(&body.events, &ComponentMap::new());
    assert!(dropped.is_empty());
    assert_eq!(nodes.len(), 1);
    match &nodes[0] {
        MdNode::Element { name, attrs, children } => {
            assert_eq!(name, "div");
            assert!(attrs.is_empty());
            assert_eq!(children.len(), 1);
            match &children[0] {
                MdNode::Element { name, children, .. } => {
                    assert_eq!(name, "p");
                    assert_eq!(children.len(), 1);
                    match &children[0] {
                        MdNode::Text { text } => assert_eq!(text, "Test"),
                        other => panic!("expected text, got {:?}", other),
                    }
                },
                other => panic!("expected p element, got {:?}", other),
            }
        },
        other => panic!("expected div element, got {:?}", other),
    }
}

#[test]
fn reconstruct_attributes_attach_to_element() {
    let (_h, body, _w) = parse_md(r#"<div id="test">A div!</div>"#);
    let (nodes, _dropped) = events_to_view(&body.events, &ComponentMap::new());
    match &nodes[0] {
        MdNode::Element { name, attrs, .. } => {
            assert_eq!(name, "div");
            assert_eq!(attrs, &vec![("id".to_string(), "test".to_string())]);
        },
        other => panic!("expected element, got {:?}", other),
    }
}

#[test]
fn component_attr_isolation() {
    // A registered component holding a descendant with attributes of its
    // own: the invocation sees only its own attributes.
    let events = vec![
        Event::Start("Counter".to_string()),
        Event::Attr("initial".to_string(), "5".to_string()),
        Event::Start("div".to_string()),
        Event::Attr("class".to_string(), "x".to_string()),
        Event::End,
        Event::End,
    ];
    let components = ComponentMap::new().with("Counter");
    let (nodes, _dropped) = events_to_view(&events, &components);
    assert_eq!(nodes.len(), 1);
    match &nodes[0] {
        MdNode::Component { name, attrs, children_events } => {
            assert_eq!(name, "Counter");
            assert_eq!(attrs, &vec![("initial".to_string(), "5".to_string())]);
            assert_eq!(
                children_events,
                &vec![
                    Event::Start("div".to_string()),
                    Event::Attr("class".to_string(), "x".to_string()),
                    Event::End,
                ]
            );
        },
        other => panic!("expected component, got {:?}", other),
    }
}

#[test]
fn component_children_rerun_is_idempotent() {
    let events = vec![
        Event::Start("Box".to_string()),
        Event::Start("p".to_string()),
        Event::Text("hi".to_string()),
        Event::End,
        Event::End,
    ];
    let components = ComponentMap::new().with("Box");
    let (nodes, _dropped) = events_to_view(&events, &components);
    match &nodes[0] {
        MdNode::Component { children_events, .. } => {
            let (once, _d1) = events_to_view(children_events, &components);
            let (twice, _d2) = events_to_view(children_events, &components);
            assert_eq!(format!("{:?}", once), format!("{:?}", twice));
            assert_eq!(once.len(), 1);
        },
        other => panic!("expected component, got {:?}", other),
    }
}

#[test]
fn unregistered_names_stay_elements() {
    let components = ComponentMap::new().with("Counter");
    assert!(components.is_registered(&"Counter".to_string()));
    assert!(!components.is_registered(&"counter".to_string()));
    let events = vec![Event::Start("span".to_string()), Event::End];
    let (nodes, _dropped) = events_to_view(&events, &components);
    assert!(matches!(&nodes[0], MdNode::Element { .. }));
}

#[test]
fn reconstruct_parsed_document() {
    let (_h, body, _w) = parse_md("# Title\n\nSome *emphasis* here.");
    let (nodes, _dropped) = events_to_view(&body.events, &ComponentMap::new());
    // One h1, one paragraph, and the whitespace text between them.
    assert!(nodes.len() >= 2);
    assert!(matches!(&nodes[0], MdNode::Element { .. }));
}

#[test]
fn root_attribute_is_surfaced() {
    // An attribute with no tag open decorates nothing: it is dropped from
    // the tree and handed back to the caller.
    let events = vec![
        Event::Start("p".to_string()),
        Event::End,
        Event::Attr("late".to_string(), "1".to_string()),
    ];
    let (nodes, dropped) = events_to_view(&events, &ComponentMap::new());
    assert_eq!(nodes.len(), 1);
    assert_eq!(dropped, vec![("late".to_string(), "1".to_string())]);
}

struct CounterProps {
    initial: i32,
    children: Option<String>,
}

impl FromMd<String> for CounterProps {
    fn new_prop_default() -> Self {
        CounterProps { initial: 0, children: None }
    }

    fn set_prop(&mut self, name: &str, value: &str) -> Result<(), SetPropError> {
        match name {
            "initial" => {
                self.initial = value.parse().map_err(|_| SetPropError::Parse)?;
                Ok(())
            },
            _ => Err(SetPropError::UnknownProp),
        }
    }

    fn set_children(&mut self, children: String) {
        self.children = Some(children);
    }
}

#[test]
fn apply_props_sets_known_props() {
    let mut props = CounterProps::new_prop_default();
    let attrs = vec![("initial".to_string(), "41".to_string())];
    let failed = apply_props(&mut props, &attrs);
    assert_eq!(props.initial, 41);
    assert!(failed.is_empty());
}

#[test]
fn apply_props_skips_bad_props() {
    let mut props = CounterProps::new_prop_default();
    let attrs = vec![
        ("bogus".to_string(), "1".to_string()),
        ("initial".to_string(), "7".to_string()),
        ("initial".to_string(), "x".to_string()),
    ];
    let failed = apply_props(&mut props, &attrs);
    // The recognized, parseable prop took effect; the others are reported.
    assert_eq!(props.initial, 7);
    assert_eq!(
        failed,
        vec![
            ("bogus".to_string(), SetPropError::UnknownProp),
            ("initial".to_string(), SetPropError::Parse),
        ]
    );
    assert_eq!(
        SetPropError::UnknownProp.message(),
        "a prop with this name does not exist"
    );
    assert_eq!(
        SetPropError::Parse.message(),
        "could not parse value into prop type"
    );
}
