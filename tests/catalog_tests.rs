use doenet_core::catalog::{action_names, on_action, request_dependencies_to_update_value, ComponentType, StateVarName, UpdateRequest};
use doenet_core::component::{ComponentSpecificBehavior, MyComponentDefinition};
use doenet_core::state::StateVarValue;

#[test]
fn type_names_round_trip() {
    for ty in [ComponentType::Text, ComponentType::Number, ComponentType::TextInput, ComponentType::Document, ComponentType::Boolean] {
        assert_eq!(ComponentType::from_name(&ty.name()), Some(ty));
    }
    assert_eq!(ComponentType::from_name(&"textinput".to_string()), None);
    assert_eq!(ComponentType::TextInput.name(), "textInput");
}

#[test]
fn state_var_names_round_trip() {
    assert_eq!(StateVarName::from_name(&"submitLabel".to_string()), Some(StateVarName::SubmitLabel));
    assert_eq!(StateVarName::Value.name(), "value");
    assert_eq!(StateVarName::from_name(&"nothing".to_string()), None);
}

#[test]
fn document_definition() {
    let def = MyComponentDefinition;
    assert!(def.should_render_children());
    assert!(def.get_trait_names().is_empty());
    let attrs = def.attribute_definitions();
    assert_eq!(attrs.len(), 1);
    assert_eq!(attrs[0].0, "hide");
    assert_eq!(def.state_var_definitions().len(), 12);
    assert!(ComponentType::Document.should_render_children());
    assert!(!ComponentType::Text.should_render_children());
}

#[test]
fn text_input_actions() {
    assert_eq!(action_names(ComponentType::TextInput), vec!["updateValue".to_string()]);
    assert!(action_names(ComponentType::Text).is_empty());
    let args = vec![("value".to_string(), StateVarValue::String("z".to_string()))];
    let r = on_action(ComponentType::TextInput, &"updateValue".to_string(), &args).unwrap();
    assert_eq!(r, vec![(StateVarName::Value, StateVarValue::String("z".to_string()))]);
    let bad = vec![("value".to_string(), StateVarValue::Integer(1))];
    assert!(on_action(ComponentType::TextInput, &"updateValue".to_string(), &bad).is_err());
}

#[test]
fn update_requests_per_variable() {
    let r = request_dependencies_to_update_value(ComponentType::TextInput, StateVarName::ImmediateValue, StateVarValue::String("a".to_string()));
    assert!(matches!(&r[0], UpdateRequest::SetStateVarDependingOnMe(StateVarName::Value, StateVarValue::String(s)) if s == "a"));
    let r = request_dependencies_to_update_value(ComponentType::TextInput, StateVarName::Value, StateVarValue::String("a".to_string()));
    assert!(matches!(&r[0], UpdateRequest::SetEssentialValue(StateVarName::Value, _)));
    assert!(request_dependencies_to_update_value(ComponentType::Document, StateVarName::Title, StateVarValue::String("a".to_string())).is_empty());
}
