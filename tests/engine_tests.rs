use doenet_core::catalog::{
    determine_state_var_from_dependencies, ComponentType, DependencyInstruction, DependencyValue, ObjectTraitName,
    StateVarName, StateVarUpdateInstruction, UpdateRequest,
};
use doenet_core::engine::{
    children_matching, create_dependency_from_instruction, create_new_component_of_type, Attribute, ChildInstruction,
    ComponentChild, ComponentNode, DoenetCore, ObjectName,
};
use doenet_core::state::{State, StateVarValue};

fn node(name: &str, ty: ComponentType, parent: Option<&str>, children: Vec<ComponentChild>) -> ComponentNode {
    ComponentNode {
        name: name.to_string(),
        component_type: ty,
        parent: parent.map(|p| p.to_string()),
        children,
        attributes: vec![],
        copy_target: None,
    }
}

fn text_child(s: &str) -> ComponentChild {
    ComponentChild::String(s.to_string())
}

fn comp_child(s: &str) -> ComponentChild {
    ComponentChild::Component(s.to_string())
}

fn hello_document() -> DoenetCore {
    let doc = node("/_document1", ComponentType::Document, None, vec![comp_child("/_text1")]);
    let text = node("/_text1", ComponentType::Text, Some("/_document1"), vec![text_child("hello")]);
    DoenetCore::create_doenet_core(vec![doc, text], &"/_document1".to_string()).unwrap()
}

fn var(core: &DoenetCore, comp: &str, name: StateVarName) -> (usize, usize) {
    let c = core.component_index(&comp.to_string()).unwrap();
    let v = core.state_var_of(c, name).unwrap();
    (c, v)
}

fn resolved(core: &mut DoenetCore, comp: &str, name: StateVarName) -> StateVarValue {
    let (c, v) = var(core, comp, name);
    core.resolve_state_variable(c, v);
    match core.get_state(c, v) {
        State::Resolved(x) => x,
        State::Stale => panic!("still stale"),
    }
}

fn value_of<'a>(values: &'a [(String, StateVarValue)], name: &str) -> Option<&'a StateVarValue> {
    values.iter().find(|(n, _)| n == name).map(|(_, v)| v)
}

#[test]
fn render_document_with_text() {
    let mut core = hello_document();
    let nodes = core.generate_render_tree();
    assert_eq!(nodes.len(), 2);
    assert_eq!(nodes[0].component_name, "/_document1");
    assert_eq!(value_of(&nodes[0].state_values, "title"), Some(&StateVarValue::String(String::new())));
    assert_eq!(value_of(&nodes[0].state_values, "submitLabel"), Some(&StateVarValue::String("Check Work".to_string())));
    assert_eq!(nodes[1].component_name, "/_text1");
    assert_eq!(value_of(&nodes[1].state_values, "value"), Some(&StateVarValue::String("hello".to_string())));
    match &nodes[0].children_instructions[0] {
        ChildInstruction::Component { component_name, component_type, renderer_type, actions, .. } => {
            assert_eq!(component_name, "/_text1");
            assert_eq!(component_type, "text");
            assert_eq!(renderer_type, "text");
            assert!(actions.is_empty());
        },
        ChildInstruction::String(_) => panic!("expected a component child"),
    }
    assert!(nodes[1].children_instructions.is_empty());
}

#[test]
fn render_leaves_hidden_flags_unresolved() {
    let mut core = hello_document();
    core.generate_render_tree();
    let (c, v) = var(&core, "/_document1", StateVarName::Hidden);
    assert_eq!(core.get_state(c, v), State::Stale);
    let (c, v) = var(&core, "/_document1", StateVarName::Title);
    assert_eq!(core.get_state(c, v), State::Resolved(StateVarValue::String(String::new())));
}

#[test]
fn cells_start_stale() {
    let core = hello_document();
    let (c, v) = var(&core, "/_text1", StateVarName::Value);
    assert_eq!(core.get_state(c, v), State::Stale);
}

#[test]
fn children_union_over_tags() {
    let comps = vec![
        node("p", ComponentType::Text, None, vec![text_child("A"), comp_child("b"), comp_child("c")]),
        node("b", ComponentType::Number, Some("p"), vec![]),
        node("c", ComponentType::Text, Some("p"), vec![]),
    ];
    let found = children_matching(&comps, &comps[0].children, &vec![ObjectTraitName::TextLike]);
    assert_eq!(found.len(), 2);
    assert!(matches!(&found[0], ObjectName::String(s) if s == "A"));
    assert!(matches!(&found[1], ObjectName::Component(2)));
    assert!(!found.iter().any(|o| matches!(o, ObjectName::Component(1))));
}

#[test]
fn children_counted_once_for_several_tags() {
    let comps = vec![
        node("p", ComponentType::Text, None, vec![text_child("A"), comp_child("b"), comp_child("c"), comp_child("c")]),
        node("b", ComponentType::Number, Some("p"), vec![]),
        node("c", ComponentType::Text, Some("p"), vec![]),
    ];
    let found = children_matching(&comps, &comps[0].children, &vec![ObjectTraitName::TextLike, ObjectTraitName::NumberLike]);
    assert_eq!(found.len(), 3);
    assert!(matches!(&found[1], ObjectName::Component(1)));
    assert!(matches!(&found[2], ObjectName::Component(2)));
}

#[test]
fn missing_attribute_gives_no_sources() {
    let comps = vec![node("t", ComponentType::Text, None, vec![])];
    let instr = DependencyInstruction::Attribute { attribute_name: "hide".to_string() };
    let d = create_dependency_from_instruction(&comps, 0, 1, &instr, "hide".to_string()).unwrap();
    assert!(d.depends_on_objects.is_empty());
    assert!(d.depends_on_state_vars.is_empty());
    let r = determine_state_var_from_dependencies(ComponentType::Text, StateVarName::Hidden, &vec![vec![]]);
    assert!(matches!(r, StateVarUpdateInstruction::UseEssentialOrDefault));
}

#[test]
fn hidden_falls_back_to_default() {
    let mut core = hello_document();
    assert_eq!(resolved(&mut core, "/_text1", StateVarName::Hidden), StateVarValue::Boolean(false));
}

#[test]
fn hidden_follows_boolean_attribute() {
    let mut text = node("t", ComponentType::Text, None, vec![text_child("x")]);
    text.attributes.push(("hide".to_string(), Attribute::Component("b".to_string())));
    let b = node("b", ComponentType::Boolean, None, vec![text_child("true")]);
    let mut core = DoenetCore::create_doenet_core(vec![text, b], &"t".to_string()).unwrap();
    assert_eq!(resolved(&mut core, "t", StateVarName::Hidden), StateVarValue::Boolean(true));
    assert_eq!(resolved(&mut core, "b", StateVarName::Value), StateVarValue::Boolean(true));
}

#[test]
fn attribute_naming_missing_component_is_ignored() {
    let mut text = node("t", ComponentType::Text, None, vec![]);
    text.attributes.push(("hide".to_string(), Attribute::Component("nowhere".to_string())));
    let mut core = DoenetCore::create_doenet_core(vec![text], &"t".to_string()).unwrap();
    assert_eq!(resolved(&mut core, "t", StateVarName::Hidden), StateVarValue::Boolean(false));
}

#[test]
fn primitive_attribute_source() {
    let mut text = node("t", ComponentType::Text, None, vec![]);
    text.attributes.push(("hide".to_string(), Attribute::Primitive(StateVarValue::Boolean(true))));
    let comps = vec![text];
    let instr = DependencyInstruction::Attribute { attribute_name: "hide".to_string() };
    let d = create_dependency_from_instruction(&comps, 0, 1, &instr, "hide".to_string()).unwrap();
    assert_eq!(d.depends_on_objects.len(), 1);
    assert!(matches!(&d.depends_on_objects[0], ObjectName::Primitive(StateVarValue::Boolean(true))));
    assert_eq!(d.depends_on_state_vars, vec![StateVarName::Value]);
}

#[test]
fn hidden_follows_primitive_attribute() {
    let mut text = node("t", ComponentType::Text, None, vec![]);
    text.attributes.push(("hide".to_string(), Attribute::Primitive(StateVarValue::Boolean(true))));
    let mut core = DoenetCore::create_doenet_core(vec![text], &"t".to_string()).unwrap();
    assert_eq!(resolved(&mut core, "t", StateVarName::Hidden), StateVarValue::Boolean(true));
}

#[test]
fn duplicate_names_are_refused() {
    let a = node("a", ComponentType::Text, None, vec![]);
    let b = node("a", ComponentType::Text, None, vec![]);
    assert!(DoenetCore::create_doenet_core(vec![a, b], &"a".to_string()).is_err());
    let mut c = node("c", ComponentType::Text, None, vec![]);
    c.attributes.push(("hide".to_string(), Attribute::Primitive(StateVarValue::Boolean(true))));
    c.attributes.push(("hide".to_string(), Attribute::Primitive(StateVarValue::Boolean(false))));
    assert!(DoenetCore::create_doenet_core(vec![c], &"c".to_string()).is_err());
}

#[test]
fn dependencies_listed_per_variable() {
    let core = hello_document();
    let (c, v) = var(&core, "/_text1", StateVarName::Value);
    let deps = core.dependencies_for_component(c, v);
    assert_eq!(deps.len(), 1);
    assert_eq!(deps[0].name, "children");
    assert!(matches!(&deps[0].depends_on_objects[0], ObjectName::String(s) if s == "hello"));
}

fn text_input_document() -> DoenetCore {
    let doc = node("/_document1", ComponentType::Document, None, vec![comp_child("/_textInput1")]);
    let input = node("/_textInput1", ComponentType::TextInput, Some("/_document1"), vec![]);
    DoenetCore::create_doenet_core(vec![doc, input], &"/_document1".to_string()).unwrap()
}

#[test]
fn action_round_trip() {
    let mut core = text_input_document();
    let (c, v) = var(&core, "/_textInput1", StateVarName::Value);
    core.process_update_request(c, v, StateVarName::Value,
        UpdateRequest::SetEssentialValue(StateVarName::Value, StateVarValue::String("abc".to_string()))).unwrap();
    assert_eq!(resolved(&mut core, "/_textInput1", StateVarName::Value), StateVarValue::String("abc".to_string()));
    let args = vec![("value".to_string(), StateVarValue::String("xyz".to_string()))];
    core.handle_action(&"/_textInput1".to_string(), &"updateValue".to_string(), &args).unwrap();
    assert_eq!(core.get_state(c, v), State::Stale);
    assert_eq!(resolved(&mut core, "/_textInput1", StateVarName::Value), StateVarValue::String("xyz".to_string()));
    assert_eq!(resolved(&mut core, "/_textInput1", StateVarName::ImmediateValue), StateVarValue::String("xyz".to_string()));
}

#[test]
fn retarget_request_writes_value() {
    let mut core = text_input_document();
    let (c, w) = var(&core, "/_textInput1", StateVarName::ImmediateValue);
    core.process_update_request(c, w, StateVarName::ImmediateValue,
        UpdateRequest::SetStateVarDependingOnMe(StateVarName::Value, StateVarValue::String("q".to_string()))).unwrap();
    assert_eq!(resolved(&mut core, "/_textInput1", StateVarName::Value), StateVarValue::String("q".to_string()));
}

#[test]
fn essential_write_of_wrong_kind_fails() {
    let mut core = text_input_document();
    let (c, v) = var(&core, "/_textInput1", StateVarName::Value);
    let r = core.process_update_request(c, v, StateVarName::Value,
        UpdateRequest::SetEssentialValue(StateVarName::Value, StateVarValue::Integer(3)));
    assert!(r.is_err());
    assert_eq!(resolved(&mut core, "/_textInput1", StateVarName::Value), StateVarValue::String(String::new()));
}

#[test]
fn action_on_unknown_component_fails() {
    let mut core = text_input_document();
    let args = vec![("value".to_string(), StateVarValue::String("xyz".to_string()))];
    assert!(core.handle_action(&"/_nothing".to_string(), &"updateValue".to_string(), &args).is_err());
}

#[test]
fn unknown_action_fails_and_keeps_state() {
    let mut core = text_input_document();
    let before = resolved(&mut core, "/_textInput1", StateVarName::Value);
    let args = vec![("value".to_string(), StateVarValue::String("xyz".to_string()))];
    assert!(core.handle_action(&"/_textInput1".to_string(), &"jump".to_string(), &args).is_err());
    let (c, v) = var(&core, "/_textInput1", StateVarName::Value);
    assert_eq!(core.get_state(c, v), State::Resolved(before));
    assert!(core.handle_action(&"/_document1".to_string(), &"updateValue".to_string(), &args).is_err());
}

#[test]
fn resolve_is_idempotent() {
    let mut core = hello_document();
    let first = resolved(&mut core, "/_text1", StateVarName::Value);
    let second = resolved(&mut core, "/_text1", StateVarName::Value);
    assert_eq!(first, second);
    assert_eq!(first, StateVarValue::String("hello".to_string()));
}

#[test]
fn invalidate_then_resolve_recovers() {
    let mut core = hello_document();
    let (c, v) = var(&core, "/_document1", StateVarName::SubmitLabel);
    core.resolve_state_variable(c, v);
    core.mark_stale_state_var_and_dependencies(c, v);
    assert_eq!(core.get_state(c, v), State::Stale);
    core.resolve_state_variable(c, v);
    assert_eq!(core.get_state(c, v), State::Resolved(StateVarValue::String("Check Work".to_string())));
}

#[test]
fn invalidation_follows_read_edges() {
    let outer = node("o", ComponentType::Text, None, vec![comp_child("i")]);
    let inner = node("i", ComponentType::Text, Some("o"), vec![text_child("z")]);
    let mut core = DoenetCore::create_doenet_core(vec![outer, inner], &"o".to_string()).unwrap();
    assert_eq!(resolved(&mut core, "o", StateVarName::Value), StateVarValue::String("z".to_string()));
    let (ic, iv) = var(&core, "i", StateVarName::Value);
    assert!(matches!(core.get_state(ic, iv), State::Resolved(_)));
    let (oc, ov) = var(&core, "o", StateVarName::Value);
    core.mark_stale_state_var_and_dependencies(oc, ov);
    assert_eq!(core.get_state(ic, iv), State::Stale);
    core.resolve_state_variable(ic, iv);
    core.mark_stale_state_var_and_dependencies(ic, iv);
    core.resolve_state_variable(oc, ov);
    core.mark_stale_state_var_and_dependencies(ic, iv);
    assert!(matches!(core.get_state(oc, ov), State::Resolved(_)));
}

#[test]
fn kind_is_stable_across_transitions() {
    let mut core = hello_document();
    let (c, v) = var(&core, "/_document1", StateVarName::CreditAchieved);
    core.resolve_state_variable(c, v);
    assert_eq!(core.get_state(c, v), State::Resolved(StateVarValue::Number(1.0f64.to_bits())));
    core.mark_stale_state_var_and_dependencies(c, v);
    core.resolve_state_variable(c, v);
    match core.get_state(c, v) {
        State::Resolved(StateVarValue::Number(bits)) => assert_eq!(f64::from_bits(bits), 1.0),
        other => panic!("unexpected {:?}", other),
    }
}

#[test]
fn text_joins_its_text_children() {
    let outer = node("o", ComponentType::Text, None, vec![text_child("ab"), comp_child("i"), comp_child("n"), text_child("d")]);
    let inner = node("i", ComponentType::Text, Some("o"), vec![text_child("c")]);
    let num = node("n", ComponentType::Number, Some("o"), vec![]);
    let mut core = DoenetCore::create_doenet_core(vec![outer, inner, num], &"o".to_string()).unwrap();
    assert_eq!(resolved(&mut core, "o", StateVarName::Value), StateVarValue::String("abcd".to_string()));
}

#[test]
fn number_takes_number_child() {
    let outer = node("o", ComponentType::Number, None, vec![comp_child("n")]);
    let inner = node("n", ComponentType::Number, Some("o"), vec![]);
    let mut core = DoenetCore::create_doenet_core(vec![outer, inner], &"o".to_string()).unwrap();
    assert_eq!(resolved(&mut core, "o", StateVarName::Value), StateVarValue::Number(0));
}

#[test]
fn boolean_reads_text() {
    let b = node("b", ComponentType::Boolean, None, vec![text_child("false")]);
    let mut core = DoenetCore::create_doenet_core(vec![b], &"b".to_string()).unwrap();
    assert_eq!(resolved(&mut core, "b", StateVarName::Value), StateVarValue::Boolean(false));
}

#[test]
fn cycle_is_a_construction_error() {
    let a = node("a", ComponentType::Text, None, vec![comp_child("a")]);
    assert!(DoenetCore::create_doenet_core(vec![a], &"a".to_string()).is_err());
}

#[test]
fn missing_root_is_a_construction_error() {
    let a = node("a", ComponentType::Text, None, vec![]);
    assert!(DoenetCore::create_doenet_core(vec![a], &"b".to_string()).is_err());
}

#[test]
fn unknown_component_type_is_refused() {
    let r = create_new_component_of_type(&"graph".to_string(), "g".to_string(), None, vec![], vec![], None);
    assert!(r.is_err());
    let r = create_new_component_of_type(&"textInput".to_string(), "g".to_string(), None, vec![], vec![], None).unwrap();
    assert_eq!(r.component_type, ComponentType::TextInput);
}

#[test]
fn dependency_value_bundle_for_hidden() {
    let bundle = vec![vec![
        DependencyValue { source_type: None, state_var_name: StateVarName::Value, value: StateVarValue::Integer(1) },
        DependencyValue { source_type: Some(ComponentType::Boolean), state_var_name: StateVarName::Value, value: StateVarValue::Boolean(true) },
    ]];
    let r = determine_state_var_from_dependencies(ComponentType::Number, StateVarName::Hidden, &bundle);
    assert!(matches!(r, StateVarUpdateInstruction::SetValue(StateVarValue::Boolean(true))));
}

#[test]
fn invalidation_reaches_everything_read() {
    let outer = node("o", ComponentType::Text, None, vec![comp_child("m")]);
    let middle = node("m", ComponentType::Text, Some("o"), vec![comp_child("i")]);
    let inner = node("i", ComponentType::Text, Some("m"), vec![text_child("deep")]);
    let mut core = DoenetCore::create_doenet_core(vec![outer, middle, inner], &"o".to_string()).unwrap();
    assert_eq!(resolved(&mut core, "o", StateVarName::Value), StateVarValue::String("deep".to_string()));
    let (ic, iv) = var(&core, "i", StateVarName::Value);
    let (mc, mv) = var(&core, "m", StateVarName::Value);
    assert!(matches!(core.get_state(ic, iv), State::Resolved(_)));
    let (oc, ov) = var(&core, "o", StateVarName::Value);
    core.mark_stale_state_var_and_dependencies(oc, ov);
    assert_eq!(core.get_state(mc, mv), State::Stale);
    assert_eq!(core.get_state(ic, iv), State::Stale);
    let (hc, hv) = var(&core, "o", StateVarName::Hidden);
    core.resolve_state_variable(hc, hv);
    core.mark_stale_state_var_and_dependencies(oc, ov);
    assert!(matches!(core.get_state(hc, hv), State::Resolved(_)));
}
