use doenet_core::essential_state::{create_essential_data_for, contains_origin, EssentialDataOrigin, InitialEssentialData};
use doenet_core::state::{EssentialStateVar, State, StateForStateVar, StateIndex, StateVar, StateVarValue, StateVarVariant, ValueKind};

#[test]
fn state_var_keeps_its_kind() {
    let mut sv = StateVar::new(ValueKind::String);
    assert_eq!(sv.get_state(), State::Stale);
    assert!(sv.set_value(StateVarValue::Integer(4)).is_err());
    assert_eq!(sv.get_state(), State::Stale);
    assert!(sv.set_value(StateVarValue::String("a".to_string())).is_ok());
    assert_eq!(sv.copy_value_if_resolved(), Some(StateVarValue::String("a".to_string())));
    sv.mark_stale();
    assert_eq!(sv.copy_value_if_resolved(), None);
    assert!(sv.set_value(StateVarValue::Boolean(true)).is_err());
}

#[test]
fn array_state_resizes_with_its_size() {
    let mut st = StateForStateVar::new(&StateVarVariant::NumberArray);
    assert_eq!(st.elements_len(), 0);
    assert!(st.set_single_state(&StateIndex::SizeOf, StateVarValue::Integer(3)).is_ok());
    assert_eq!(st.elements_len(), 3);
    assert_eq!(st.get_single_state(StateIndex::SizeOf), State::Resolved(StateVarValue::Integer(3)));
    assert_eq!(st.get_single_state(StateIndex::Element(2)), State::Stale);
    assert!(st.set_single_state(&StateIndex::Element(1), StateVarValue::Number(7)).is_ok());
    assert_eq!(st.get_single_state(StateIndex::Element(1)), State::Resolved(StateVarValue::Number(7)));
    assert!(st.set_single_state(&StateIndex::Element(1), StateVarValue::String("x".to_string())).is_err());
    st.mark_single_stale(&StateIndex::Element(1));
    assert_eq!(st.get_single_state(StateIndex::Element(1)), State::Stale);
    assert!(st.set_single_state(&StateIndex::SizeOf, StateVarValue::Integer(1)).is_ok());
    assert_eq!(st.elements_len(), 1);
}

#[test]
fn single_state_ignores_index_shape() {
    let mut st = StateForStateVar::new(&StateVarVariant::Boolean);
    assert!(st.set_single_state(&StateIndex::Basic, StateVarValue::Boolean(true)).is_ok());
    assert_eq!(st.get_single_state(StateIndex::Basic), State::Resolved(StateVarValue::Boolean(true)));
    st.mark_single_stale(&StateIndex::Basic);
    assert_eq!(st.get_single_state(StateIndex::Basic), State::Stale);
}

#[test]
fn essential_single_value() {
    let mut e = EssentialStateVar::new(&StateVarVariant::String, vec![StateVarValue::String("a".to_string())]);
    assert_eq!(e.get_value(StateIndex::Basic), Some(StateVarValue::String("a".to_string())));
    assert!(e.set_value(StateIndex::Basic, StateVarValue::Integer(1)).is_err());
    assert!(e.set_value(StateIndex::Basic, StateVarValue::String("b".to_string())).is_ok());
    assert_eq!(e.get_value(StateIndex::Basic), Some(StateVarValue::String("b".to_string())));
}

#[test]
fn essential_array_grows_and_never_shrinks() {
    let mut e = EssentialStateVar::new(&StateVarVariant::NumberArray, vec![StateVarValue::Number(5)]);
    assert_eq!(e.get_value(StateIndex::SizeOf), Some(StateVarValue::Integer(1)));
    assert!(e.set_value(StateIndex::SizeOf, StateVarValue::Integer(3)).is_ok());
    assert_eq!(e.get_value(StateIndex::SizeOf), Some(StateVarValue::Integer(3)));
    assert_eq!(e.get_value(StateIndex::Element(2)), Some(StateVarValue::Number(0)));
    assert!(e.set_value(StateIndex::SizeOf, StateVarValue::Integer(2)).is_ok());
    assert_eq!(e.get_value(StateIndex::SizeOf), Some(StateVarValue::Integer(3)));
    assert!(e.set_value(StateIndex::SizeOf, StateVarValue::Integer(-1)).is_err());
    assert!(e.set_value(StateIndex::Element(5), StateVarValue::Number(9)).is_ok());
    assert_eq!(e.get_value(StateIndex::Element(5)), Some(StateVarValue::Number(9)));
    assert_eq!(e.get_value(StateIndex::Element(4)), Some(StateVarValue::Number(0)));
    assert_eq!(e.get_value(StateIndex::Element(6)), None);
    assert_eq!(e.get_value(StateIndex::Element(0)), Some(StateVarValue::Number(5)));
}

#[test]
fn protect_type_keeps_kind() {
    let mut v = StateVarValue::Integer(1);
    assert!(v.set_protect_type(StateVarValue::Integer(2)).is_ok());
    assert_eq!(v, StateVarValue::Integer(2));
    assert!(v.set_protect_type(StateVarValue::Boolean(false)).is_err());
    assert_eq!(v, StateVarValue::Integer(2));
}

#[test]
fn essential_data_is_created_once_per_origin() {
    let mut data = vec![vec![], vec![]];
    let origin = EssentialDataOrigin::AttributeChild("hide".to_string(), 0);
    {
        let created = create_essential_data_for(
            1,
            origin.clone(),
            InitialEssentialData::Single { value: StateVarValue::Boolean(true), came_from_default: false },
            &mut data,
        );
        assert_eq!(created.get_value(StateIndex::Basic), Some(StateVarValue::Boolean(true)));
    }
    assert!(data[0].is_empty());
    assert_eq!(data[1].len(), 1);
    assert!(contains_origin(&data[1], &origin));
    assert!(!contains_origin(&data[1], &EssentialDataOrigin::AttributeChild("hide".to_string(), 1)));
    assert!(!contains_origin(&data[1], &EssentialDataOrigin::StringChild(0)));
    create_essential_data_for(1, EssentialDataOrigin::StateVar(0),
        InitialEssentialData::Single { value: StateVarValue::Integer(2), came_from_default: true }, &mut data);
    assert_eq!(data[1].len(), 2);
    assert!(!data[1][0].2);
    assert!(data[1][1].2);
}
