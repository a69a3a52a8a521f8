use vstd::prelude::*;
use crate::catalog::{
    action_names, get_trait_names, should_render_children, state_var_names, trait_names, var_names,
    ComponentType, ObjectTraitName, StateVarName,
};
use crate::engine::{ComponentChild, ComponentNode};
use crate::state::ValueKind;

verus! {

/// What differs between component types: their variables, capabilities,
/// actions and whether their children are shown.
pub trait ComponentSpecificBehavior {
    /// The type whose behavior this is.
    spec fn behavior_type(&self) -> ComponentType;

    fn state_variable_names(&self) -> (r: Vec<StateVarName>)
        ensures
            r@ == var_names(self.behavior_type()),
    ;

    fn action_names(&self) -> (r: Vec<String>)
        ensures
            self.behavior_type() is TextInput ==> r@.len() == 1 && r@[0]@ == "updateValue"@,
            !(self.behavior_type() is TextInput) ==> r@.len() == 0,
    ;

    fn should_render_children(&self) -> (r: bool)
        ensures
            r == (self.behavior_type() is Document),
    ;

    fn get_trait_names(&self) -> (r: Vec<ObjectTraitName>)
        ensures
            r@ == trait_names(self.behavior_type()),
    ;
}

/// What every component has: a name, children, a parent and a type.
pub trait ComponentLike: ComponentSpecificBehavior {
    fn name(&self) -> &String;

    fn children(&self) -> &Vec<ComponentChild>;

    fn parent(&self) -> &Option<String>;

    fn get_component_type(&self) -> (r: ComponentType)
        ensures
            r == self.behavior_type(),
    ;
}

impl ComponentSpecificBehavior for ComponentType {
    open spec fn behavior_type(&self) -> ComponentType {
        *self
    }

    fn state_variable_names(&self) -> (r: Vec<StateVarName>) {
        state_var_names(*self)
    }

    fn action_names(&self) -> (r: Vec<String>) {
        action_names(*self)
    }

    fn should_render_children(&self) -> (r: bool) {
        should_render_children(*self)
    }

    fn get_trait_names(&self) -> (r: Vec<ObjectTraitName>) {
        get_trait_names(*self)
    }
}

impl ComponentSpecificBehavior for ComponentNode {
    open spec fn behavior_type(&self) -> ComponentType {
        self.component_type
    }

    fn state_variable_names(&self) -> (r: Vec<StateVarName>) {
        state_var_names(self.component_type)
    }

    fn action_names(&self) -> (r: Vec<String>) {
        action_names(self.component_type)
    }

    fn should_render_children(&self) -> (r: bool) {
        should_render_children(self.component_type)
    }

    fn get_trait_names(&self) -> (r: Vec<ObjectTraitName>) {
        get_trait_names(self.component_type)
    }
}

impl ComponentLike for ComponentNode {
    fn name(&self) -> &String {
        &self.name
    }

    fn children(&self) -> &Vec<ComponentChild> {
        &self.children
    }

    fn parent(&self) -> &Option<String> {
        &self.parent
    }

    fn get_component_type(&self) -> (r: ComponentType) {
        self.component_type
    }
}

/// What an attribute of a type holds: a component of a type, or a
/// primitive of a kind.
#[derive(Clone, Debug)]
pub enum AttributeDefinition {
    Component(ComponentType),
    Primitive(ValueKind),
}

/// The definition of the document type.
#[derive(Clone, Debug)]
pub struct MyComponentDefinition;

impl MyComponentDefinition {
    /// The attributes of a document: `hide`, a boolean component.
    pub fn attribute_definitions(&self) -> (r: Vec<(String, AttributeDefinition)>)
        ensures
            r@.len() == 1,
            r@[0].0@ == "hide"@,
            r@[0].1 matches AttributeDefinition::Component(ComponentType::Boolean),
    {
        let mut r: Vec<(String, AttributeDefinition)> = Vec::new();
        r.push((String::from_str("hide"), AttributeDefinition::Component(ComponentType::Boolean)));
        r
    }

    /// The state variables of a document.
    pub fn state_var_definitions(&self) -> (r: Vec<StateVarName>)
        ensures
            r@ == var_names(ComponentType::Document),
    {
        state_var_names(ComponentType::Document)
    }

    /// A document carries no capability.
    pub fn get_trait_names(&self) -> (r: Vec<ObjectTraitName>)
        ensures
            r@ == trait_names(ComponentType::Document),
            r@.len() == 0,
    {
        get_trait_names(ComponentType::Document)
    }

    /// A document shows its children.
    pub fn should_render_children(&self) -> (r: bool)
        ensures
            r,
    {
        should_render_children(ComponentType::Document)
    }
}

} // verus!
