use pyrs_yaml_core::ast::{CustomNode, Tag};
use pyrs_yaml_core::handlers::TagRegistry;
use pyrs_yaml_core::tag_resolve::{chain_step, resolve_tags, ChainStep, HandlerOutcome, TagError, TagHandler};

#[derive(Clone)]
enum H {
    Prefix(&'static str),
    Upper,
    Skip,
    NotText,
    Fail(&'static str),
}

impl TagHandler for H {
    fn handle(&self, value: &str) -> HandlerOutcome {
        match self {
            H::Prefix(p) => HandlerOutcome::Text(format!("{p}{value}")),
            H::Upper => HandlerOutcome::Text(value.to_uppercase()),
            H::Skip => HandlerOutcome::Skip,
            H::NotText => HandlerOutcome::NotText,
            H::Fail(d) => HandlerOutcome::Failed(d.to_string()),
        }
    }
}

fn tagged(value: &str, tag: Tag) -> CustomNode {
    let mut n = CustomNode::plain_scalar(value);
    n.set_tag(tag);
    n
}

fn doc() -> CustomNode {
    CustomNode::plain_mapping(vec![
        (CustomNode::plain_scalar("name"), tagged("value", Tag::local("custom"))),
        (tagged("key", Tag::local("custom")), CustomNode::plain_scalar("plain")),
        (
            CustomNode::plain_scalar("list"),
            CustomNode::plain_sequence(vec![tagged("x", Tag::local("custom")), tagged("y", Tag::local("other"))]),
        ),
    ])
}

fn value_at(n: &CustomNode, path: &[usize]) -> String {
    let mut cur = n;
    for &i in path {
        cur = match cur {
            CustomNode::Mapping { pairs, .. } => &pairs[i].1,
            CustomNode::Sequence { items, .. } => &items[i],
            _ => panic!("not a container"),
        };
    }
    match cur {
        CustomNode::Scalar { value, .. } => value.clone(),
        _ => panic!("not a scalar"),
    }
}

fn key_at(n: &CustomNode, i: usize) -> String {
    match n {
        CustomNode::Mapping { pairs, .. } => match &pairs[i].0 {
            CustomNode::Scalar { value, .. } => value.clone(),
            _ => panic!(),
        },
        _ => panic!(),
    }
}

#[test]
fn handlers_run_in_priority_order_and_skip_passes_on() {
    let mut reg = TagRegistry::new();
    reg.register("!custom", H::Prefix("custom:"), 10);
    reg.register("!custom", H::Skip, 1);
    let mut n = doc();
    assert!(resolve_tags(&mut n, &reg).is_ok());
    assert_eq!(value_at(&n, &[0]), "custom:value");
    assert_eq!(value_at(&n, &[2, 0]), "custom:x");
    assert_eq!(value_at(&n, &[2, 1]), "y");
    // Keys are left alone.
    assert_eq!(key_at(&n, 1), "key");
}

#[test]
fn first_text_wins() {
    let mut reg = TagRegistry::new();
    reg.register("!custom", H::Upper, 5);
    reg.register("!custom", H::Prefix("late:"), 7);
    let mut n = doc();
    assert!(resolve_tags(&mut n, &reg).is_ok());
    assert_eq!(value_at(&n, &[0]), "VALUE");
}

#[test]
fn non_text_result_is_an_error() {
    let mut reg = TagRegistry::new();
    reg.register("!custom", H::NotText, 0);
    let mut n = doc();
    assert_eq!(resolve_tags(&mut n, &reg), Err(TagError::NotText { tag: "!custom".to_string() }));
}

#[test]
fn failure_stops_resolution() {
    let mut reg = TagRegistry::new();
    reg.register("!other", H::Fail("boom"), 0);
    reg.register("!custom", H::Upper, 0);
    let mut n = doc();
    assert_eq!(
        resolve_tags(&mut n, &reg),
        Err(TagError::Failed { tag: "!other".to_string(), detail: "boom".to_string() })
    );
    // Values resolved before the failure stay resolved.
    assert_eq!(value_at(&n, &[0]), "VALUE");
    assert_eq!(value_at(&n, &[2, 0]), "X");
}

#[test]
fn no_handlers_changes_nothing() {
    let reg: TagRegistry<H> = TagRegistry::new();
    let mut n = doc();
    assert!(resolve_tags(&mut n, &reg).is_ok());
    assert_eq!(value_at(&n, &[0]), "value");
    let mut reg2 = TagRegistry::new();
    reg2.register("!unused", H::Upper, 0);
    assert!(resolve_tags(&mut n, &reg2).is_ok());
    assert_eq!(value_at(&n, &[0]), "value");
}

#[test]
fn chain_steps() {
    assert!(matches!(chain_step("!t", HandlerOutcome::Text("v".to_string())), ChainStep::Replace(s) if s == "v"));
    assert!(matches!(chain_step("!t", HandlerOutcome::Skip), ChainStep::Next));
    assert!(matches!(
        chain_step("!t", HandlerOutcome::NotText),
        ChainStep::Fail(TagError::NotText { tag }) if tag == "!t"
    ));
    assert!(matches!(
        chain_step("!t", HandlerOutcome::Failed("d".to_string())),
        ChainStep::Fail(TagError::Failed { tag, detail }) if tag == "!t" && detail == "d"
    ));
}
