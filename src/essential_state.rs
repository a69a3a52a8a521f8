use vstd::prelude::*;
use crate::state::{EssentialStateVar, StateVarValue};

verus! {

/// What aspect of a component generated a piece of essential data.
#[derive(Debug, Clone, PartialEq, Eq, Hash)]
pub enum EssentialDataOrigin {
    /// A state variable, by its index in the component's catalog, asked for it.
    StateVar(usize),
    /// A string child, by its index among the children, was turned into it.
    StringChild(usize),
    /// A string in the named attribute, by its index there, was turned into it.
    AttributeChild(String, usize),
}

/// Which component generated a piece of essential data, and how.
#[derive(Debug, Clone)]
pub struct EssentialStateDescription {
    pub component_idx: usize,
    pub origin: EssentialDataOrigin,
}

/// The value that a new piece of essential data starts with.
pub enum InitialEssentialData {
    Single { value: StateVarValue, came_from_default: bool },
}

/// The essential data of each component, in order of creation, keyed by
/// origin, each with whether its initial value came from a default.
pub type EssentialData = Vec<Vec<(EssentialDataOrigin, EssentialStateVar, bool)>>;

/// Whether two origins are the same: same variant, same index, same name.
pub open spec fn origin_eq(a: EssentialDataOrigin, b: EssentialDataOrigin) -> bool {
    match (a, b) {
        (EssentialDataOrigin::StateVar(x), EssentialDataOrigin::StateVar(y)) => x == y,
        (EssentialDataOrigin::StringChild(x), EssentialDataOrigin::StringChild(y)) => x == y,
        (EssentialDataOrigin::AttributeChild(n, x), EssentialDataOrigin::AttributeChild(m, y)) => n@ == m@ && x == y,
        _ => false,
    }
}

/// Whether two origins are the same.
pub fn same_origin(a: &EssentialDataOrigin, b: &EssentialDataOrigin) -> (r: bool)
    ensures
        r == origin_eq(*a, *b),
{
    match (a, b) {
        (EssentialDataOrigin::StateVar(x), EssentialDataOrigin::StateVar(y)) => *x == *y,
        (EssentialDataOrigin::StringChild(x), EssentialDataOrigin::StringChild(y)) => *x == *y,
        (EssentialDataOrigin::AttributeChild(n, x), EssentialDataOrigin::AttributeChild(m, y)) => {
            *n == *m && *x == *y
        },
        _ => false,
    }
}

/// Whether `entries` holds data of the given origin.
pub open spec fn has_origin(entries: Seq<(EssentialDataOrigin, EssentialStateVar, bool)>, origin: EssentialDataOrigin) -> bool {
    exists|i: int| 0 <= i < entries.len() && origin_eq(#[trigger] entries[i].0, origin)
}

/// Whether `entries` holds data of the given origin: a scan of all of them.
pub fn contains_origin(entries: &Vec<(EssentialDataOrigin, EssentialStateVar, bool)>, origin: &EssentialDataOrigin) -> (r: bool)
    ensures
        r == has_origin(entries@, *origin),
{
    let mut i: usize = 0;
    while i < entries.len()
        invariant
            i <= entries@.len(),
            forall|j: int| 0 <= j < i ==> !origin_eq(entries@[j].0, *origin),
        decreases entries@.len() - i,
    {
        if same_origin(&entries[i].0, origin) {
            return true;
        }
        i = i + 1;
    }
    false
}

/// Creates the essential data of `component_idx` that comes from `origin`,
/// holding the initial value, and returns it. There must be none from that
/// origin yet.
pub fn create_essential_data_for(
    component_idx: usize,
    origin: EssentialDataOrigin,
    initial_values: InitialEssentialData,
    essential_data: &mut EssentialData,
) -> (r: &EssentialStateVar)
    requires
        component_idx < old(essential_data)@.len(),
        !has_origin(old(essential_data)@[component_idx as int]@, origin),
    ensures
        final(essential_data)@.len() == old(essential_data)@.len(),
        forall|c: int| 0 <= c < old(essential_data)@.len() && c != component_idx
            ==> #[trigger] final(essential_data)@[c] == old(essential_data)@[c],
        ({
            let (value, from_default) = match initial_values {
                InitialEssentialData::Single { value, came_from_default } => (value, came_from_default),
            };
            final(essential_data)@[component_idx as int]@ == old(essential_data)@[component_idx as int]@.push(
                (origin, EssentialStateVar::Single(value), from_default))
            && *r == EssentialStateVar::Single(value)
        }),
{
    let (essential_state, from_default) = match initial_values {
        InitialEssentialData::Single { value, came_from_default } => (EssentialStateVar::Single(value), came_from_default),
    };
    let mut entries: Vec<(EssentialDataOrigin, EssentialStateVar, bool)> = Vec::new();
    essential_data.set_and_swap(component_idx, &mut entries);
    entries.push((origin, essential_state, from_default));
    essential_data.set(component_idx, entries);
    let last = essential_data[component_idx].len() - 1;
    &essential_data[component_idx][last].1
}

} // verus!
