use vstd::prelude::*;
use vstd::string::*;
use crate::state::{StateVarValue, ValueKind, ValueView};

verus! {

/// The closed set of component types that a document may hold.
#[derive(Clone, Copy, Debug, PartialEq, Eq, Structural)]
pub enum ComponentType {
    Text,
    Number,
    TextInput,
    Document,
    Boolean,
}

/// A capability that a component type exposes, used to match children.
#[derive(Clone, Copy, Debug, PartialEq, Eq, Structural)]
pub enum ObjectTraitName {
    TextLike,
    NumberLike,
    ComponentLike,
}

/// The name of a state variable, shared by all component types.
#[derive(Clone, Copy, Debug, PartialEq, Eq, Structural)]
pub enum StateVarName {
    Value,
    ImmediateValue,
    Hidden,
    Disabled,
    Fixed,
    Title,
    Level,
    SubmitLabel,
    SubmitLabelNoCorrectness,
    JustSubmitted,
    ShowCorrectness,
    CreditAchieved,
    CreateSubmitAllButton,
    SuppressAnswerSubmitButtons,
}

/// The bits of the double 1.0.
pub const NUMBER_ONE: u64 = 0x3FF0_0000_0000_0000;

/// The state variables of each type, in the order of their cells.
pub open spec fn var_names(ty: ComponentType) -> Seq<StateVarName> {
    match ty {
        ComponentType::Text => seq![StateVarName::Value, StateVarName::Hidden],
        ComponentType::Number => seq![StateVarName::Value, StateVarName::Hidden],
        ComponentType::TextInput => seq![StateVarName::Value, StateVarName::ImmediateValue, StateVarName::Hidden],
        ComponentType::Boolean => seq![StateVarName::Value, StateVarName::Hidden],
        ComponentType::Document => seq![
            StateVarName::SubmitLabel,
            StateVarName::SubmitLabelNoCorrectness,
            StateVarName::Hidden,
            StateVarName::Disabled,
            StateVarName::Fixed,
            StateVarName::Title,
            StateVarName::Level,
            StateVarName::JustSubmitted,
            StateVarName::ShowCorrectness,
            StateVarName::CreditAchieved,
            StateVarName::CreateSubmitAllButton,
            StateVarName::SuppressAnswerSubmitButtons,
        ],
    }
}

/// The kind of each state variable.
pub open spec fn var_kind(name: StateVarName, ty: ComponentType) -> ValueKind {
    match name {
        StateVarName::Value => match ty {
            ComponentType::Number => ValueKind::Number,
            ComponentType::Boolean => ValueKind::Boolean,
            _ => ValueKind::String,
        },
        StateVarName::ImmediateValue | StateVarName::Title | StateVarName::SubmitLabel
            | StateVarName::SubmitLabelNoCorrectness => ValueKind::String,
        StateVarName::Level | StateVarName::CreditAchieved => ValueKind::Number,
        _ => ValueKind::Boolean,
    }
}

/// Whether a state variable has an essential slot behind it.
pub open spec fn spec_has_essential(ty: ComponentType, name: StateVarName) -> bool {
    name is Value
}

/// Whether a state variable is shown to the renderer.
pub open spec fn spec_for_renderer(ty: ComponentType, name: StateVarName) -> bool {
    !(name is Hidden || name is Disabled || name is Fixed)
}

/// Whether the value is the static default of a variable of the given kind:
/// the empty string, zero or false.
pub open spec fn is_default_value(kind: ValueKind, v: StateVarValue) -> bool {
    match v {
        StateVarValue::String(s) => kind == ValueKind::String && s@.len() == 0,
        StateVarValue::Integer(i) => kind == ValueKind::Integer && i == 0,
        StateVarValue::Number(n) => kind == ValueKind::Number && n == 0,
        StateVarValue::Boolean(b) => kind == ValueKind::Boolean && !b,
    }
}

/// A capability set for each type.
pub open spec fn trait_names(ty: ComponentType) -> Seq<ObjectTraitName> {
    match ty {
        ComponentType::Text => seq![ObjectTraitName::TextLike],
        ComponentType::Number => seq![ObjectTraitName::NumberLike],
        _ => seq![],
    }
}

/// The name of each type, as documents write it.
pub open spec fn type_name_of(ty: ComponentType) -> Seq<char> {
    match ty {
        ComponentType::Text => "text"@,
        ComponentType::Number => "number"@,
        ComponentType::TextInput => "textInput"@,
        ComponentType::Document => "document"@,
        ComponentType::Boolean => "boolean"@,
    }
}

impl ComponentType {
    /// The type named by `name`, if it is one of the closed set.
    pub fn from_name(name: &String) -> (r: Option<ComponentType>)
        ensures
            r is Some ==> name@ == type_name_of(r->Some_0),
            r is None ==> forall|ty: ComponentType| name@ != #[trigger] type_name_of(ty),
    {
        if ComponentType::Text.name().eq(name) {
            Some(ComponentType::Text)
        } else if ComponentType::Number.name().eq(name) {
            Some(ComponentType::Number)
        } else if ComponentType::TextInput.name().eq(name) {
            Some(ComponentType::TextInput)
        } else if ComponentType::Document.name().eq(name) {
            Some(ComponentType::Document)
        } else if ComponentType::Boolean.name().eq(name) {
            Some(ComponentType::Boolean)
        } else {
            assert forall|ty: ComponentType| name@ != #[trigger] type_name_of(ty) by {
                match ty {
                    ComponentType::Text => {},
                    ComponentType::Number => {},
                    ComponentType::TextInput => {},
                    ComponentType::Document => {},
                    ComponentType::Boolean => {},
                }
            }
            None
        }
    }

    /// The name of the type, as documents write it.
    pub fn name(&self) -> (r: String)
        ensures
            r@ == type_name_of(*self),
    {
        match self {
            ComponentType::Text => String::from_str("text"),
            ComponentType::Number => String::from_str("number"),
            ComponentType::TextInput => String::from_str("textInput"),
            ComponentType::Document => String::from_str("document"),
            ComponentType::Boolean => String::from_str("boolean"),
        }
    }
}

/// The name of each state variable, as renderers and actions write it.
pub open spec fn var_name_of(name: StateVarName) -> Seq<char> {
    match name {
        StateVarName::Value => "value"@,
        StateVarName::ImmediateValue => "immediateValue"@,
        StateVarName::Hidden => "hidden"@,
        StateVarName::Disabled => "disabled"@,
        StateVarName::Fixed => "fixed"@,
        StateVarName::Title => "title"@,
        StateVarName::Level => "level"@,
        StateVarName::SubmitLabel => "submitLabel"@,
        StateVarName::SubmitLabelNoCorrectness => "submitLabelNoCorrectness"@,
        StateVarName::JustSubmitted => "justSubmitted"@,
        StateVarName::ShowCorrectness => "showCorrectness"@,
        StateVarName::CreditAchieved => "creditAchieved"@,
        StateVarName::CreateSubmitAllButton => "createSubmitAllButton"@,
        StateVarName::SuppressAnswerSubmitButtons => "suppressAnswerSubmitButtons"@,
    }
}

impl StateVarName {
    /// The name as renderers and actions write it.
    pub fn name(&self) -> (r: String)
        ensures
            r@ == var_name_of(*self),
    {
        match self {
            StateVarName::Value => String::from_str("value"),
            StateVarName::ImmediateValue => String::from_str("immediateValue"),
            StateVarName::Hidden => String::from_str("hidden"),
            StateVarName::Disabled => String::from_str("disabled"),
            StateVarName::Fixed => String::from_str("fixed"),
            StateVarName::Title => String::from_str("title"),
            StateVarName::Level => String::from_str("level"),
            StateVarName::SubmitLabel => String::from_str("submitLabel"),
            StateVarName::SubmitLabelNoCorrectness => String::from_str("submitLabelNoCorrectness"),
            StateVarName::JustSubmitted => String::from_str("justSubmitted"),
            StateVarName::ShowCorrectness => String::from_str("showCorrectness"),
            StateVarName::CreditAchieved => String::from_str("creditAchieved"),
            StateVarName::CreateSubmitAllButton => String::from_str("createSubmitAllButton"),
            StateVarName::SuppressAnswerSubmitButtons => String::from_str("suppressAnswerSubmitButtons"),
        }
    }

    /// The state variable named by `name`, if there is one.
    pub fn from_name(name: &String) -> (r: Option<StateVarName>)
        ensures
            r is Some ==> name@ == var_name_of(r->Some_0),
            r is None ==> forall|n: StateVarName| name@ != #[trigger] var_name_of(n),
    {
        if StateVarName::Value.name().eq(name) {
            return Some(StateVarName::Value);
        }
        if StateVarName::ImmediateValue.name().eq(name) {
            return Some(StateVarName::ImmediateValue);
        }
        if StateVarName::Hidden.name().eq(name) {
            return Some(StateVarName::Hidden);
        }
        if StateVarName::Disabled.name().eq(name) {
            return Some(StateVarName::Disabled);
        }
        if StateVarName::Fixed.name().eq(name) {
            return Some(StateVarName::Fixed);
        }
        if StateVarName::Title.name().eq(name) {
            return Some(StateVarName::Title);
        }
        if StateVarName::Level.name().eq(name) {
            return Some(StateVarName::Level);
        }
        if StateVarName::SubmitLabel.name().eq(name) {
            return Some(StateVarName::SubmitLabel);
        }
        if StateVarName::SubmitLabelNoCorrectness.name().eq(name) {
            return Some(StateVarName::SubmitLabelNoCorrectness);
        }
        if StateVarName::JustSubmitted.name().eq(name) {
            return Some(StateVarName::JustSubmitted);
        }
        if StateVarName::ShowCorrectness.name().eq(name) {
            return Some(StateVarName::ShowCorrectness);
        }
        if StateVarName::CreditAchieved.name().eq(name) {
            return Some(StateVarName::CreditAchieved);
        }
        if StateVarName::CreateSubmitAllButton.name().eq(name) {
            return Some(StateVarName::CreateSubmitAllButton);
        }
        if StateVarName::SuppressAnswerSubmitButtons.name().eq(name) {
            return Some(StateVarName::SuppressAnswerSubmitButtons);
        }
        assert forall|n: StateVarName| name@ != #[trigger] var_name_of(n) by {
            match n {
                    StateVarName::Value => {},
                    StateVarName::ImmediateValue => {},
                    StateVarName::Hidden => {},
                    StateVarName::Disabled => {},
                    StateVarName::Fixed => {},
                    StateVarName::Title => {},
                    StateVarName::Level => {},
                    StateVarName::SubmitLabel => {},
                    StateVarName::SubmitLabelNoCorrectness => {},
                    StateVarName::JustSubmitted => {},
                    StateVarName::ShowCorrectness => {},
                    StateVarName::CreditAchieved => {},
                    StateVarName::CreateSubmitAllButton => {},
                    StateVarName::SuppressAnswerSubmitButtons => {},
            }
        }
        None
    }
}

/// What a state variable needs to know, declared per type and variable.
#[derive(Debug)]
pub enum DependencyInstruction {
    /// A named variable of the named component, or of the component itself.
    StateVar { component_name: Option<String>, state_var: StateVarName },
    /// The children that carry any one of the capabilities, and the
    /// variables to read from each.
    Child { desired_children: Vec<ObjectTraitName>, desired_state_vars: Vec<StateVarName> },
    /// A named variable of the parent.
    Parent { state_var: StateVarName },
    /// The source that the named attribute holds.
    Attribute { attribute_name: String },
}

/// One value collected for a dependency: where it came from and what it is.
/// A literal string or attribute value has no source type.
#[derive(Debug)]
pub struct DependencyValue {
    pub source_type: Option<ComponentType>,
    pub state_var_name: StateVarName,
    pub value: StateVarValue,
}

/// What determination decided for a state variable.
#[derive(Debug)]
pub enum StateVarUpdateInstruction {
    NoChange,
    UseEssentialOrDefault,
    SetValue(StateVarValue),
}

/// A write that a desired value turns into.
#[derive(Debug)]
pub enum UpdateRequest {
    /// Write the essential slot of the named variable.
    SetEssentialValue(StateVarName, StateVarValue),
    /// Ask the named variable to take the value, through its own requests.
    SetStateVarDependingOnMe(StateVarName, StateVarValue),
}

/// The state variables of a type, in the order of their cells.
pub fn state_var_names(ty: ComponentType) -> (r: Vec<StateVarName>)
    ensures
        r@ == var_names(ty),
{
    let r = match ty {
        ComponentType::Text => vec![StateVarName::Value, StateVarName::Hidden],
        ComponentType::Number => vec![StateVarName::Value, StateVarName::Hidden],
        ComponentType::TextInput => vec![StateVarName::Value, StateVarName::ImmediateValue, StateVarName::Hidden],
        ComponentType::Boolean => vec![StateVarName::Value, StateVarName::Hidden],
        ComponentType::Document => vec![
            StateVarName::SubmitLabel,
            StateVarName::SubmitLabelNoCorrectness,
            StateVarName::Hidden,
            StateVarName::Disabled,
            StateVarName::Fixed,
            StateVarName::Title,
            StateVarName::Level,
            StateVarName::JustSubmitted,
            StateVarName::ShowCorrectness,
            StateVarName::CreditAchieved,
            StateVarName::CreateSubmitAllButton,
            StateVarName::SuppressAnswerSubmitButtons,
        ],
    };
    assert(r@ =~= var_names(ty));
    r
}

/// `w` is the first place of `name` among the variables of `ty`.
pub open spec fn first_var(ty: ComponentType, name: StateVarName, w: int) -> bool {
    &&& 0 <= w < var_names(ty).len()
    &&& var_names(ty)[w] == name
    &&& forall|j: int| 0 <= j < w ==> var_names(ty)[j] != name
}

/// The place of `name` among the variables of `ty`, if it is one of them.
pub fn state_var_index(ty: ComponentType, name: StateVarName) -> (r: Option<usize>)
    ensures
        r is Some ==> first_var(ty, name, r->Some_0 as int),
        r is None ==> !var_names(ty).contains(name),
{
    let names = state_var_names(ty);
    let mut i: usize = 0;
    while i < names.len()
        invariant
            names@ == var_names(ty),
            i <= names@.len(),
            forall|j: int| 0 <= j < i ==> names@[j] != name,
        decreases names@.len() - i,
    {
        if names[i] == name {
            return Some(i);
        }
        i = i + 1;
    }
    None
}

/// The kind of a state variable of a type.
pub fn state_var_kind(name: StateVarName, ty: ComponentType) -> (r: ValueKind)
    ensures
        r == var_kind(name, ty),
{
    match name {
        StateVarName::Value => match ty {
            ComponentType::Number => ValueKind::Number,
            ComponentType::Boolean => ValueKind::Boolean,
            _ => ValueKind::String,
        },
        StateVarName::ImmediateValue | StateVarName::Title | StateVarName::SubmitLabel
            | StateVarName::SubmitLabelNoCorrectness => ValueKind::String,
        StateVarName::Level | StateVarName::CreditAchieved => ValueKind::Number,
        _ => ValueKind::Boolean,
    }
}

pub fn has_essential(ty: ComponentType, name: StateVarName) -> (r: bool)
    ensures
        r == spec_has_essential(ty, name),
{
    name == StateVarName::Value
}

pub fn for_renderer(ty: ComponentType, name: StateVarName) -> (r: bool)
    ensures
        r == spec_for_renderer(ty, name),
{
    !(name == StateVarName::Hidden || name == StateVarName::Disabled || name == StateVarName::Fixed)
}

/// The static default of a kind: the empty string, zero or false.
pub fn default_value(kind: ValueKind) -> (r: StateVarValue)
    ensures
        is_default_value(kind, r),
        r.kind_of() == kind,
{
    match kind {
        ValueKind::String => StateVarValue::String(String::new()),
        ValueKind::Integer => StateVarValue::Integer(0),
        ValueKind::Number => StateVarValue::Number(0),
        ValueKind::Boolean => StateVarValue::Boolean(false),
    }
}

pub fn get_trait_names(ty: ComponentType) -> (r: Vec<ObjectTraitName>)
    ensures
        r@ == trait_names(ty),
{
    let r = match ty {
        ComponentType::Text => vec![ObjectTraitName::TextLike],
        ComponentType::Number => vec![ObjectTraitName::NumberLike],
        _ => Vec::new(),
    };
    assert(r@ =~= trait_names(ty));
    r
}

/// Whether the children of a type are shown by the renderer.
pub fn should_render_children(ty: ComponentType) -> (r: bool)
    ensures
        r == (ty is Document),
{
    ty == ComponentType::Document
}

/// The actions that a type answers.
pub fn action_names(ty: ComponentType) -> (r: Vec<String>)
    ensures
        ty is TextInput ==> r@.len() == 1 && r@[0]@ == "updateValue"@,
        !(ty is TextInput) ==> r@.len() == 0,
{
    let mut r: Vec<String> = Vec::new();
    if ty == ComponentType::TextInput {
        r.push(String::from_str("updateValue"));
    }
    r
}

/// How many dependency instructions a variable declares.
pub open spec fn instruction_count(ty: ComponentType, name: StateVarName) -> nat {
    match name {
        StateVarName::Hidden | StateVarName::ImmediateValue => 1,
        StateVarName::Value => if ty is Text || ty is Boolean || ty is Number { 1 } else { 0 },
        _ => 0,
    }
}

/// Whether `ins` is the instruction that a variable declares: a hidden flag
/// reads the `hide` attribute, an immediate value reads the component's own
/// `value`, and a `value` reads the `value` of its text-like children (of
/// its number-like children, for a number).
pub open spec fn declared_instruction(ty: ComponentType, name: StateVarName, ins: DependencyInstruction) -> bool {
    match name {
        StateVarName::Hidden => ins is Attribute && ins->attribute_name@ == "hide"@,
        StateVarName::ImmediateValue => match ins {
            DependencyInstruction::StateVar { component_name, state_var } => component_name is None
                && state_var == StateVarName::Value,
            _ => false,
        },
        StateVarName::Value => ins is Child && ins->desired_state_vars@ == seq![StateVarName::Value]
            && ins->desired_children@ == (if ty is Number { seq![ObjectTraitName::NumberLike] } else { seq![ObjectTraitName::TextLike] }),
        _ => false,
    }
}

/// The label of the instruction that a variable declares.
pub open spec fn instruction_label(name: StateVarName) -> Seq<char> {
    match name {
        StateVarName::Hidden => "hide"@,
        StateVarName::ImmediateValue => "value"@,
        _ => "children"@,
    }
}

/// The dependency instructions of a variable, each under its label.
pub fn dependency_instructions(ty: ComponentType, name: StateVarName) -> (r: Vec<(String, DependencyInstruction)>)
    ensures
        r@.len() == instruction_count(ty, name),
        forall|k: int| 0 <= k < r@.len() ==> declared_instruction(ty, name, #[trigger] r@[k].1)
            && r@[k].0@ == instruction_label(name),
{
    let mut r: Vec<(String, DependencyInstruction)> = Vec::new();
    match name {
        StateVarName::Hidden => {
            r.push((String::from_str("hide"), DependencyInstruction::Attribute { attribute_name: String::from_str("hide") }));
        },
        StateVarName::Value => match ty {
            ComponentType::Text | ComponentType::Boolean => {
                let desired_children = vec![ObjectTraitName::TextLike];
                let desired_state_vars = vec![StateVarName::Value];
                assert(desired_children@ =~= seq![ObjectTraitName::TextLike]);
                assert(desired_state_vars@ =~= seq![StateVarName::Value]);
                r.push((String::from_str("children"), DependencyInstruction::Child { desired_children, desired_state_vars }));
            },
            ComponentType::Number => {
                let desired_children = vec![ObjectTraitName::NumberLike];
                let desired_state_vars = vec![StateVarName::Value];
                assert(desired_children@ =~= seq![ObjectTraitName::NumberLike]);
                assert(desired_state_vars@ =~= seq![StateVarName::Value]);
                r.push((String::from_str("children"), DependencyInstruction::Child { desired_children, desired_state_vars }));
            },
            _ => {},
        },
        StateVarName::ImmediateValue => {
            r.push((String::from_str("value"), DependencyInstruction::StateVar {
                component_name: None,
                state_var: StateVarName::Value,
            }));
        },
        _ => {},
    }
    r
}

/// What determination decides, as mathematics sees it.
pub enum Determination {
    UseEssentialOrDefault,
    SetValue(ValueView),
}

/// The decision that an update instruction stands for; `NoChange` stands
/// for none.
pub open spec fn instruction_view(r: StateVarUpdateInstruction) -> Option<Determination> {
    match r {
        StateVarUpdateInstruction::NoChange => None,
        StateVarUpdateInstruction::UseEssentialOrDefault => Some(Determination::UseEssentialOrDefault),
        StateVarUpdateInstruction::SetValue(v) => Some(Determination::SetValue(v.view())),
    }
}

pub open spec fn view_kind(v: ValueView) -> ValueKind {
    match v {
        ValueView::String(_) => ValueKind::String,
        ValueView::Integer(_) => ValueKind::Integer,
        ValueView::Number(_) => ValueKind::Number,
        ValueView::Boolean(_) => ValueKind::Boolean,
    }
}

/// The values collected for one instruction.
pub open spec fn values_of(vals: Seq<DependencyValue>) -> Seq<ValueView> {
    vals.map_values(|d: DependencyValue| d.value.view())
}

/// The values collected for each instruction.
pub open spec fn bundle_view(b: Seq<Vec<DependencyValue>>) -> Seq<Seq<ValueView>> {
    b.map_values(|v: Vec<DependencyValue>| values_of(v@))
}

/// The first value of kind `k` in `s`.
pub open spec fn first_kind(s: Seq<ValueView>, k: ValueKind) -> Option<ValueView>
    decreases s.len(),
{
    if s.len() == 0 {
        None
    } else if view_kind(s[0]) == k {
        Some(s[0])
    } else {
        first_kind(s.drop_first(), k)
    }
}

/// The strings of `s`, joined in order.
pub open spec fn joined(s: Seq<ValueView>) -> Seq<char>
    decreases s.len(),
{
    if s.len() == 0 {
        Seq::empty()
    } else {
        joined(s.drop_last()) + match s.last() {
            ValueView::String(t) => t,
            _ => Seq::empty(),
        }
    }
}

/// Whether `s` holds a string.
pub open spec fn has_string(s: Seq<ValueView>) -> bool {
    exists|j: int| 0 <= j < s.len() && #[trigger] view_kind(s[j]) == ValueKind::String
}

/// What a variable of a type becomes from the values of its instructions.
pub open spec fn determine_spec(ty: ComponentType, name: StateVarName, b: Seq<Seq<ValueView>>) -> Determination {
    match name {
        StateVarName::Hidden => if b.len() > 0 && first_kind(b[0], ValueKind::Boolean) is Some {
            Determination::SetValue(first_kind(b[0], ValueKind::Boolean)->Some_0)
        } else {
            Determination::UseEssentialOrDefault
        },
        StateVarName::ImmediateValue => if b.len() > 0 && first_kind(b[0], ValueKind::String) is Some {
            Determination::SetValue(first_kind(b[0], ValueKind::String)->Some_0)
        } else {
            Determination::UseEssentialOrDefault
        },
        StateVarName::Value => if b.len() == 0 {
            Determination::UseEssentialOrDefault
        } else {
            match ty {
                ComponentType::Number => if first_kind(b[0], ValueKind::Number) is Some {
                    Determination::SetValue(first_kind(b[0], ValueKind::Number)->Some_0)
                } else {
                    Determination::UseEssentialOrDefault
                },
                ComponentType::Text => if has_string(b[0]) {
                    Determination::SetValue(ValueView::String(joined(b[0])))
                } else {
                    Determination::UseEssentialOrDefault
                },
                ComponentType::Boolean => if has_string(b[0]) {
                    Determination::SetValue(ValueView::Boolean(joined(b[0]) == "true"@))
                } else {
                    Determination::UseEssentialOrDefault
                },
                _ => Determination::UseEssentialOrDefault,
            }
        },
        StateVarName::Title => Determination::SetValue(ValueView::String(Seq::empty())),
        StateVarName::SubmitLabel => Determination::SetValue(ValueView::String("Check Work"@)),
        StateVarName::SubmitLabelNoCorrectness => Determination::SetValue(ValueView::String("Submit Response"@)),
        StateVarName::Level => Determination::SetValue(ValueView::Number(0)),
        StateVarName::CreditAchieved => Determination::SetValue(ValueView::Number(NUMBER_ONE)),
        StateVarName::JustSubmitted | StateVarName::ShowCorrectness => Determination::SetValue(ValueView::Boolean(true)),
        StateVarName::CreateSubmitAllButton | StateVarName::SuppressAnswerSubmitButtons => Determination::SetValue(
            ValueView::Boolean(false),
        ),
        StateVarName::Disabled | StateVarName::Fixed => Determination::UseEssentialOrDefault,
    }
}

proof fn lemma_first_kind(s: Seq<ValueView>, k: ValueKind, i: int)
    requires
        0 <= i < s.len(),
        view_kind(s[i]) == k,
        forall|j: int| 0 <= j < i ==> view_kind(s[j]) != k,
    ensures
        first_kind(s, k) == Some(s[i]),
    decreases i,
{
    if i > 0 {
        lemma_first_kind(s.drop_first(), k, i - 1);
    }
}

proof fn lemma_no_kind(s: Seq<ValueView>, k: ValueKind)
    requires
        forall|j: int| 0 <= j < s.len() ==> view_kind(s[j]) != k,
    ensures
        first_kind(s, k) is None,
    decreases s.len(),
{
    if s.len() > 0 {
        lemma_no_kind(s.drop_first(), k);
    }
}

/// The first value of the given kind among `values`, if any.
fn first_of_kind(values: &Vec<DependencyValue>, kind: ValueKind) -> (r: Option<usize>)
    ensures
        r is Some ==> r->Some_0 < values@.len() && values@[r->Some_0 as int].value.kind_of() == kind
            && forall|k: int| 0 <= k < r->Some_0 ==> values@[k].value.kind_of() != kind,
        r is None ==> forall|k: int| 0 <= k < values@.len() ==> values@[k].value.kind_of() != kind,
{
    let mut i: usize = 0;
    while i < values.len()
        invariant
            i <= values@.len(),
            forall|k: int| 0 <= k < i ==> values@[k].value.kind_of() != kind,
        decreases values@.len() - i,
    {
        if values[i].value.kind() == kind {
            return Some(i);
        }
        i = i + 1;
    }
    None
}

/// The first value of the given kind among `values`, if any.
fn first_value_of_kind(values: &Vec<DependencyValue>, kind: ValueKind) -> (r: Option<StateVarValue>)
    ensures
        r is Some ==> first_kind(values_of(values@), kind) == Some(r->Some_0.view()) && r->Some_0.kind_of() == kind,
        r is None ==> first_kind(values_of(values@), kind) is None,
{
    let ghost s = values_of(values@);
    match first_of_kind(values, kind) {
        Some(j) => {
            proof {
                assert forall|x: int| 0 <= x < j implies view_kind(s[x]) != kind by {
                    assert(s[x] == values@[x].value.view());
                }
                assert(s[j as int] == values@[j as int].value.view());
                lemma_first_kind(s, kind, j as int);
            }
            Some(values[j].value.duplicate())
        },
        None => {
            proof {
                assert forall|x: int| 0 <= x < s.len() implies view_kind(s[x]) != kind by {
                    assert(s[x] == values@[x].value.view());
                }
                lemma_no_kind(s, kind);
            }
            None
        },
    }
}

/// The strings among `values` joined in order, and whether there was one.
fn join_strings(values: &Vec<DependencyValue>) -> (r: (String, bool))
    ensures
        r.0@ == joined(values_of(values@)),
        r.1 == has_string(values_of(values@)),
{
    let ghost s = values_of(values@);
    let mut text = String::new();
    let mut found = false;
    let mut i: usize = 0;
    while i < values.len()
        invariant
            i <= values@.len(),
            s == values_of(values@),
            text@ == joined(s.subrange(0, i as int)),
            found == has_string(s.subrange(0, i as int)),
        decreases values@.len() - i,
    {
        let ghost before = s.subrange(0, i as int);
        let ghost after = s.subrange(0, i as int + 1);
        proof {
            assert(after.drop_last() =~= before);
            assert(after.last() == values@[i as int].value.view());
        }
        match &values[i].value {
            StateVarValue::String(t) => {
                text.append(t.as_str());
                found = true;
                proof {
                    assert(view_kind(after[i as int]) == ValueKind::String);
                }
            },
            _ => {
                proof {
                    assert(joined(after) =~= joined(before));
                    if has_string(after) {
                        let j = choose|j: int| 0 <= j < after.len() && #[trigger] view_kind(after[j]) == ValueKind::String;
                        assert(j < i);
                        assert(after[j] == before[j]);
                    }
                }
            },
        }
        proof {
            if has_string(before) {
                let j = choose|j: int| 0 <= j < before.len() && #[trigger] view_kind(before[j]) == ValueKind::String;
                assert(after[j] == before[j]);
            }
        }
        i = i + 1;
    }
    proof {
        assert(s.subrange(0, values@.len() as int) =~= s);
    }
    (text, found)
}

/// What a variable of a type becomes, from the values collected for its
/// instructions, in the order of the instructions.
///
/// The result is never `NoChange`, and a set value has the variable's kind.
pub fn determine_state_var_from_dependencies(
    ty: ComponentType,
    name: StateVarName,
    bundle: &Vec<Vec<DependencyValue>>,
) -> (r: StateVarUpdateInstruction)
    ensures
        instruction_view(r) == Some(determine_spec(ty, name, bundle_view(bundle@))),
        r is SetValue ==> r->SetValue_0.kind_of() == var_kind(name, ty),
{
    let ghost b = bundle_view(bundle@);
    proof {
        if bundle@.len() > 0 {
            assert(b[0] == values_of(bundle@[0]@));
        }
    }
    match name {
        StateVarName::Hidden => {
            if bundle.len() == 0 {
                return StateVarUpdateInstruction::UseEssentialOrDefault;
            }
            match first_value_of_kind(&bundle[0], ValueKind::Boolean) {
                Some(x) => StateVarUpdateInstruction::SetValue(x),
                None => StateVarUpdateInstruction::UseEssentialOrDefault,
            }
        },
        StateVarName::ImmediateValue => {
            if bundle.len() == 0 {
                return StateVarUpdateInstruction::UseEssentialOrDefault;
            }
            match first_value_of_kind(&bundle[0], ValueKind::String) {
                Some(x) => StateVarUpdateInstruction::SetValue(x),
                None => StateVarUpdateInstruction::UseEssentialOrDefault,
            }
        },
        StateVarName::Value => determine_value(ty, bundle),
        StateVarName::Title => StateVarUpdateInstruction::SetValue(StateVarValue::String(String::new())),
        StateVarName::SubmitLabel => StateVarUpdateInstruction::SetValue(
            StateVarValue::String(String::from_str("Check Work")),
        ),
        StateVarName::SubmitLabelNoCorrectness => StateVarUpdateInstruction::SetValue(
            StateVarValue::String(String::from_str("Submit Response")),
        ),
        StateVarName::Level => StateVarUpdateInstruction::SetValue(StateVarValue::Number(0)),
        StateVarName::CreditAchieved => StateVarUpdateInstruction::SetValue(StateVarValue::Number(NUMBER_ONE)),
        StateVarName::JustSubmitted | StateVarName::ShowCorrectness => StateVarUpdateInstruction::SetValue(
            StateVarValue::Boolean(true),
        ),
        StateVarName::CreateSubmitAllButton | StateVarName::SuppressAnswerSubmitButtons => StateVarUpdateInstruction::SetValue(
            StateVarValue::Boolean(false),
        ),
        StateVarName::Disabled | StateVarName::Fixed => StateVarUpdateInstruction::UseEssentialOrDefault,
    }
}

/// The `value` variable: text joins the strings of its text-like children,
/// a number takes its first number-like child's number, a boolean is true
/// when its text is exactly `true`. With no such children it falls back to
/// its essential value or default.
fn determine_value(ty: ComponentType, bundle: &Vec<Vec<DependencyValue>>) -> (r: StateVarUpdateInstruction)
    ensures
        instruction_view(r) == Some(determine_spec(ty, StateVarName::Value, bundle_view(bundle@))),
        r is SetValue ==> r->SetValue_0.kind_of() == var_kind(StateVarName::Value, ty),
{
    if bundle.len() == 0 {
        return StateVarUpdateInstruction::UseEssentialOrDefault;
    }
    proof {
        assert(bundle_view(bundle@)[0] == values_of(bundle@[0]@));
    }
    let values = &bundle[0];
    match ty {
        ComponentType::Number => match first_value_of_kind(values, ValueKind::Number) {
            Some(x) => StateVarUpdateInstruction::SetValue(x),
            None => StateVarUpdateInstruction::UseEssentialOrDefault,
        },
        ComponentType::Text | ComponentType::Boolean => {
            let (text, found) = join_strings(values);
            if !found {
                StateVarUpdateInstruction::UseEssentialOrDefault
            } else if ty == ComponentType::Text {
                StateVarUpdateInstruction::SetValue(StateVarValue::String(text))
            } else {
                let t = String::from_str("true");
                proof {
                    reveal_strlit("true");
                }
                StateVarUpdateInstruction::SetValue(StateVarValue::Boolean(text.eq(&t)))
            }
        },
        _ => StateVarUpdateInstruction::UseEssentialOrDefault,
    }
}

/// How far a desired value may be passed on between the variables of one
/// component before it is written.
pub open spec fn retarget_depth(name: StateVarName) -> nat {
    if name is ImmediateValue { 1 } else { 0 }
}

/// The writes that make a variable of a type hold `value`: a `value` is
/// written to its essential slot, an `immediateValue` is passed on to
/// `value`, and the other variables cannot be set.
pub fn request_dependencies_to_update_value(ty: ComponentType, name: StateVarName, value: StateVarValue) -> (r: Vec<UpdateRequest>)
    ensures
        name is Value ==> r@.len() == 1 && r@[0] == UpdateRequest::SetEssentialValue(StateVarName::Value, value),
        name is ImmediateValue ==> r@.len() == 1 && r@[0] == UpdateRequest::SetStateVarDependingOnMe(StateVarName::Value, value),
        !(name is Value || name is ImmediateValue) ==> r@.len() == 0,
{
    let mut r: Vec<UpdateRequest> = Vec::new();
    match name {
        StateVarName::Value => r.push(UpdateRequest::SetEssentialValue(StateVarName::Value, value)),
        StateVarName::ImmediateValue => r.push(UpdateRequest::SetStateVarDependingOnMe(StateVarName::Value, value)),
        _ => {},
    }
    r
}

/// What an action asks of a component of a type: the variables to update
/// and the values wanted. A text input answers `updateValue` with a string
/// argument `value`; every other action is refused.
pub fn on_action(ty: ComponentType, action_name: &String, args: &Vec<(String, StateVarValue)>) -> (r: Result<Vec<(StateVarName, StateVarValue)>, String>)
    ensures
        r is Ok <==> ty is TextInput && action_name@ == "updateValue"@
            && exists|i: int| 0 <= i < args@.len() && #[trigger] args@[i].0@ == "value"@ && args@[i].1 is String,
        r is Ok ==> r->Ok_0@.len() == 1 && r->Ok_0@[0].0 == StateVarName::Value && r->Ok_0@[0].1 is String
            && exists|i: int| 0 <= i < args@.len() && #[trigger] args@[i].0@ == "value"@ && args@[i].1 == r->Ok_0@[0].1,
{
    if !(ty == ComponentType::TextInput && action_name.eq(&String::from_str("updateValue"))) {
        return Err(String::from_str("unknown action"));
    }
    let key = String::from_str("value");
    let mut i: usize = 0;
    while i < args.len()
        invariant
            i <= args@.len(),
            key@ == "value"@,
            ty is TextInput && action_name@ == "updateValue"@,
            forall|k: int| 0 <= k < i ==> !(args@[k].0@ == "value"@ && args@[k].1 is String),
        decreases args@.len() - i,
    {
        if args[i].0.eq(&key) && args[i].1.kind() == ValueKind::String {
            let mut r: Vec<(StateVarName, StateVarValue)> = Vec::new();
            r.push((StateVarName::Value, args[i].1.duplicate()));
            assert(args@[i as int].0@ == "value"@ && args@[i as int].1 is String);
            return Ok(r);
        }
        i = i + 1;
    }
    Err(String::from_str("the action needs a string argument named value"))
}

} // verus!
