use vstd::prelude::*;

verus! {

/// The kind of a value: fixed for each state variable once it is created.
#[derive(Clone, Copy, Debug, PartialEq, Eq, Structural)]
pub enum ValueKind {
    String,
    Integer,
    Number,
    Boolean,
}

/// A primitive value held by a state variable or an essential slot.
///
/// A number is carried as the bit pattern of an IEEE-754 double, so that the
/// core never computes with floating point; presentation code converts.
#[derive(Clone, Debug, PartialEq, Eq)]
pub enum StateVarValue {
    String(String),
    Integer(i64),
    Number(u64),
    Boolean(bool),
}

/// A value as mathematics sees it: text as a sequence of characters.
pub enum ValueView {
    String(Seq<char>),
    Integer(i64),
    Number(u64),
    Boolean(bool),
}

impl StateVarValue {
    pub open spec fn view(self) -> ValueView {
        match self {
            StateVarValue::String(s) => ValueView::String(s@),
            StateVarValue::Integer(i) => ValueView::Integer(i),
            StateVarValue::Number(n) => ValueView::Number(n),
            StateVarValue::Boolean(b) => ValueView::Boolean(b),
        }
    }

    pub open spec fn kind_of(self) -> ValueKind {
        match self {
            StateVarValue::String(_) => ValueKind::String,
            StateVarValue::Integer(_) => ValueKind::Integer,
            StateVarValue::Number(_) => ValueKind::Number,
            StateVarValue::Boolean(_) => ValueKind::Boolean,
        }
    }

    pub fn kind(&self) -> (r: ValueKind)
        ensures
            r == self.kind_of(),
    {
        match self {
            StateVarValue::String(_) => ValueKind::String,
            StateVarValue::Integer(_) => ValueKind::Integer,
            StateVarValue::Number(_) => ValueKind::Number,
            StateVarValue::Boolean(_) => ValueKind::Boolean,
        }
    }

    /// A copy of the value, equal to it.
    pub fn duplicate(&self) -> (r: StateVarValue)
        ensures
            r == *self,
    {
        match self {
            StateVarValue::String(s) => StateVarValue::String(s.clone()),
            StateVarValue::Integer(i) => StateVarValue::Integer(*i),
            StateVarValue::Number(n) => StateVarValue::Number(*n),
            StateVarValue::Boolean(b) => StateVarValue::Boolean(*b),
        }
    }

    /// Replaces the held value by `new_value`, keeping the kind: a value of
    /// another kind is refused and leaves `self` unchanged.
    pub fn set_protect_type(&mut self, new_value: StateVarValue) -> (r: Result<(), String>)
        ensures
            r is Ok <==> new_value.kind_of() == old(self).kind_of(),
            r is Ok ==> *final(self) == new_value,
            r is Err ==> *final(self) == *old(self),
    {
        if new_value.kind() == self.kind() {
            *self = new_value;
            Ok(())
        } else {
            Err(String::from_str("value of the wrong type"))
        }
    }
}

/// Whether a derived value is known.
#[derive(Clone, Debug, PartialEq, Eq)]
pub enum State<T> {
    Stale,
    Resolved(T),
}


/// Keeps the kind of a state variable fixed: the variant is chosen when the
/// variable is created and only the state inside it changes.
#[derive(Clone, Debug)]
enum ValueTypeProtector {
    String(State<String>),
    Boolean(State<bool>),
    Integer(State<i64>),
    Number(State<u64>),
}

/// A derived value of one fixed kind that is either stale or resolved.
#[derive(Clone, Debug)]
pub struct StateVar {
    value_type_protector: ValueTypeProtector,
}

impl StateVar {
    /// The kind fixed at creation.
    pub closed spec fn kind_of(self) -> ValueKind {
        match self.value_type_protector {
            ValueTypeProtector::String(_) => ValueKind::String,
            ValueTypeProtector::Boolean(_) => ValueKind::Boolean,
            ValueTypeProtector::Integer(_) => ValueKind::Integer,
            ValueTypeProtector::Number(_) => ValueKind::Number,
        }
    }

    /// The current state, with the value wrapped in its kind.
    pub closed spec fn state_of(self) -> State<StateVarValue> {
        match self.value_type_protector {
            ValueTypeProtector::String(State::Resolved(v)) => State::Resolved(StateVarValue::String(v)),
            ValueTypeProtector::Boolean(State::Resolved(v)) => State::Resolved(StateVarValue::Boolean(v)),
            ValueTypeProtector::Integer(State::Resolved(v)) => State::Resolved(StateVarValue::Integer(v)),
            ValueTypeProtector::Number(State::Resolved(v)) => State::Resolved(StateVarValue::Number(v)),
            _ => State::Stale,
        }
    }

    /// A resolved value always has the variable's kind.
    pub proof fn lemma_resolved_kind(self)
        ensures
            self.state_of() is Resolved ==> self.state_of()->Resolved_0.kind_of() == self.kind_of(),
    {
    }

    /// A stale variable of the given kind.
    pub fn new(kind: ValueKind) -> (r: StateVar)
        ensures
            r.kind_of() == kind,
            r.state_of() is Stale,
    {
        let value_type_protector = match kind {
            ValueKind::String => ValueTypeProtector::String(State::Stale),
            ValueKind::Boolean => ValueTypeProtector::Boolean(State::Stale),
            ValueKind::Integer => ValueTypeProtector::Integer(State::Stale),
            ValueKind::Number => ValueTypeProtector::Number(State::Stale),
        };
        StateVar { value_type_protector }
    }

    /// Resolves the variable to `new_value`; a value of another kind is
    /// refused and leaves the variable as it was.
    pub fn set_value(&mut self, new_value: StateVarValue) -> (r: Result<(), String>)
        ensures
            final(self).kind_of() == old(self).kind_of(),
            r is Ok <==> new_value.kind_of() == old(self).kind_of(),
            r is Ok ==> final(self).state_of() == State::Resolved(new_value),
            r is Err ==> *final(self) == *old(self),
    {
        match (&mut self.value_type_protector, new_value) {
            (ValueTypeProtector::String(state), StateVarValue::String(v)) => {
                *state = State::Resolved(v);
                Ok(())
            },
            (ValueTypeProtector::Boolean(state), StateVarValue::Boolean(v)) => {
                *state = State::Resolved(v);
                Ok(())
            },
            (ValueTypeProtector::Integer(state), StateVarValue::Integer(v)) => {
                *state = State::Resolved(v);
                Ok(())
            },
            (ValueTypeProtector::Number(state), StateVarValue::Number(v)) => {
                *state = State::Resolved(v);
                Ok(())
            },
            _ => Err(String::from_str("value of the wrong type for this state variable")),
        }
    }

    /// Marks the variable stale, keeping its kind.
    pub fn mark_stale(&mut self)
        ensures
            final(self).kind_of() == old(self).kind_of(),
            final(self).state_of() is Stale,
            old(self).state_of() is Stale ==> *final(self) == *old(self),
    {
        let value_type_protector = match &self.value_type_protector {
            ValueTypeProtector::String(_) => ValueTypeProtector::String(State::Stale),
            ValueTypeProtector::Boolean(_) => ValueTypeProtector::Boolean(State::Stale),
            ValueTypeProtector::Integer(_) => ValueTypeProtector::Integer(State::Stale),
            ValueTypeProtector::Number(_) => ValueTypeProtector::Number(State::Stale),
        };
        self.value_type_protector = value_type_protector;
    }

    /// A copy of the variable, equal to it.
    pub fn duplicate(&self) -> (r: StateVar)
        ensures
            r == *self,
    {
        let value_type_protector = match &self.value_type_protector {
            ValueTypeProtector::String(State::Resolved(v)) => ValueTypeProtector::String(State::Resolved(v.clone())),
            ValueTypeProtector::String(State::Stale) => ValueTypeProtector::String(State::Stale),
            ValueTypeProtector::Boolean(st) => ValueTypeProtector::Boolean(match st {
                State::Resolved(v) => State::Resolved(*v),
                State::Stale => State::Stale,
            }),
            ValueTypeProtector::Integer(st) => ValueTypeProtector::Integer(match st {
                State::Resolved(v) => State::Resolved(*v),
                State::Stale => State::Stale,
            }),
            ValueTypeProtector::Number(st) => ValueTypeProtector::Number(match st {
                State::Resolved(v) => State::Resolved(*v),
                State::Stale => State::Stale,
            }),
        };
        StateVar { value_type_protector }
    }

    pub fn get_state(&self) -> (r: State<StateVarValue>)
        ensures
            r == self.state_of(),
    {
        match &self.value_type_protector {
            ValueTypeProtector::String(State::Resolved(v)) => State::Resolved(StateVarValue::String(v.clone())),
            ValueTypeProtector::Boolean(State::Resolved(v)) => State::Resolved(StateVarValue::Boolean(*v)),
            ValueTypeProtector::Integer(State::Resolved(v)) => State::Resolved(StateVarValue::Integer(*v)),
            ValueTypeProtector::Number(State::Resolved(v)) => State::Resolved(StateVarValue::Number(*v)),
            _ => State::Stale,
        }
    }

    pub fn copy_value_if_resolved(&self) -> (r: Option<StateVarValue>)
        ensures
            r is Some <==> self.state_of() is Resolved,
            r is Some ==> self.state_of() == State::Resolved(r->Some_0),
    {
        match self.get_state() {
            State::Resolved(value) => Some(value),
            State::Stale => None,
        }
    }
}


/// Which part of a state variable is meant: the whole of a single one, or
/// the size or one element of an array.
#[derive(Clone, Copy, Debug, PartialEq, Eq, Structural)]
pub enum StateIndex {
    Basic,
    SizeOf,
    Element(usize),
}

/// The shape and kind of a state variable's definition.
#[derive(Clone, Copy, Debug, PartialEq, Eq, Structural)]
pub enum StateVarVariant {
    String,
    Integer,
    Number,
    Boolean,
    NumberArray,
}

impl StateVarVariant {
    /// The kind of a single variable, or of each element of an array.
    pub open spec fn kind_of(self) -> ValueKind {
        match self {
            StateVarVariant::String => ValueKind::String,
            StateVarVariant::Integer => ValueKind::Integer,
            StateVarVariant::Boolean => ValueKind::Boolean,
            _ => ValueKind::Number,
        }
    }

    pub fn kind(&self) -> (r: ValueKind)
        ensures
            r == self.kind_of(),
    {
        match self {
            StateVarVariant::String => ValueKind::String,
            StateVarVariant::Integer => ValueKind::Integer,
            StateVarVariant::Boolean => ValueKind::Boolean,
            _ => ValueKind::Number,
        }
    }
}

/// The state of a variable: one value, or an array with a size of its own.
#[derive(Debug)]
pub enum StateForStateVar {
    Single(StateVar),
    Array { size: StateVar, elements: Vec<StateVar> },
}

impl StateForStateVar {
    /// An array's size is an integer and its elements are numbers.
    pub open spec fn wf(self) -> bool {
        match self {
            StateForStateVar::Single(_) => true,
            StateForStateVar::Array { size, elements } => size.kind_of() == ValueKind::Integer
                && forall|i: int| 0 <= i < elements@.len() ==> (#[trigger] elements@[i]).kind_of() == ValueKind::Number,
        }
    }

    /// Whether `index` names a part of this state.
    pub open spec fn index_fits(self, index: StateIndex) -> bool {
        match self {
            StateForStateVar::Single(_) => index is Basic,
            StateForStateVar::Array { elements, .. } => match index {
                StateIndex::SizeOf => true,
                StateIndex::Element(i) => i < elements.len(),
                StateIndex::Basic => false,
            },
        }
    }

    /// The state variable that `index` names.
    pub open spec fn part(self, index: StateIndex) -> StateVar {
        match self {
            StateForStateVar::Single(sv) => sv,
            StateForStateVar::Array { size, elements } => match index {
                StateIndex::Element(i) => elements@[i as int],
                _ => size,
            },
        }
    }

    /// Stale state of the given variant; an array starts with no elements.
    pub fn new(value_type: &StateVarVariant) -> (r: StateForStateVar)
        ensures
            r.wf(),
            *value_type is NumberArray ==> (r matches StateForStateVar::Array { size, elements }
                && size.kind_of() == ValueKind::Integer && size.state_of() is Stale
                && elements@.len() == 0),
            !(*value_type is NumberArray) ==> (r matches StateForStateVar::Single(sv)
                && sv.kind_of() == value_type.kind_of() && sv.state_of() is Stale),
    {
        match value_type {
            StateVarVariant::NumberArray => StateForStateVar::Array {
                size: StateVar::new(ValueKind::Integer),
                elements: Vec::new(),
            },
            _ => StateForStateVar::Single(StateVar::new(value_type.kind())),
        }
    }

    pub fn get_single_state(&self, sv_ref: StateIndex) -> (r: State<StateVarValue>)
        requires
            self.index_fits(sv_ref),
        ensures
            r == self.part(sv_ref).state_of(),
    {
        match self {
            StateForStateVar::Single(sv) => sv.get_state(),
            StateForStateVar::Array { size, elements } => match sv_ref {
                StateIndex::Element(id) => elements[id].get_state(),
                _ => size.get_state(),
            },
        }
    }

    /// Sets the named part. Setting the size of an array also resizes its
    /// elements: new ones are stale numbers, and surplus ones are dropped.
    pub fn set_single_state(&mut self, state_var_ref: &StateIndex, val: StateVarValue) -> (r: Result<(), String>)
        requires
            old(self).wf(),
            *old(self) is Single || old(self).index_fits(*state_var_ref),
            *old(self) is Array && *state_var_ref is SizeOf && val is Integer ==> 0 <= val->Integer_0 <= usize::MAX,
        ensures
            final(self).wf(),
            r is Ok <==> val.kind_of() == old(self).part(*state_var_ref).kind_of(),
            r is Ok && *old(self) is Array && *state_var_ref is SizeOf ==> final(self)->elements@.len()
                == val->Integer_0 as int,
            r is Err ==> *final(self) == *old(self),
            r is Ok ==> final(self).part(*state_var_ref).state_of() == State::Resolved(val),
            *final(self) is Single <==> *old(self) is Single,
            final(self).part(*state_var_ref).kind_of() == old(self).part(*state_var_ref).kind_of(),
            r is Ok && *old(self) is Array && *state_var_ref is SizeOf && val is Integer ==> final(self)->elements@.len()
                == val->Integer_0 as int,
            *old(self) is Array && *state_var_ref is Element ==> final(self)->elements@.len()
                == old(self)->elements@.len(),
            r is Ok && *old(self) is Array && *state_var_ref is SizeOf ==> forall|i: int|
                0 <= i < final(self)->elements@.len() ==> if i < old(self)->elements@.len() {
                    final(self)->elements@[i] == old(self)->elements@[i]
                } else {
                    final(self)->elements@[i].kind_of() == ValueKind::Number && final(self)->elements@[i].state_of() is Stale
                },
            *old(self) is Array && *state_var_ref is Element ==> forall|i: int|
                0 <= i < old(self)->elements@.len() && i != state_var_ref->Element_0
                ==> final(self)->elements@[i] == old(self)->elements@[i],
    {
        match self {
            StateForStateVar::Single(sv) => sv.set_value(val),
            StateForStateVar::Array { size, elements } => match state_var_ref {
                StateIndex::Element(id) => {
                    let mut cell = elements[*id].duplicate();
                    let r = cell.set_value(val);
                    if r.is_ok() {
                        elements.set(*id, cell);
                    }
                    r
                },
                _ => {
                    let new_len: i64 = match &val {
                        StateVarValue::Integer(n) => *n,
                        _ => 0,
                    };
                    let r = size.set_value(val);
                    if r.is_ok() {
                        resize_cells(elements, new_len as usize);
                    }
                    r
                },
            },
        }
    }

    /// Marks the named part stale.
    pub fn mark_single_stale(&mut self, state_var_ref: &StateIndex)
        requires
            old(self).wf(),
            *old(self) is Single || old(self).index_fits(*state_var_ref),
        ensures
            final(self).wf(),
            final(self).part(*state_var_ref).state_of() is Stale,
            final(self).part(*state_var_ref).kind_of() == old(self).part(*state_var_ref).kind_of(),
            *final(self) is Single <==> *old(self) is Single,
            *old(self) is Array ==> final(self)->elements@.len() == old(self)->elements@.len(),
    {
        match self {
            StateForStateVar::Single(sv) => sv.mark_stale(),
            StateForStateVar::Array { size, elements } => match state_var_ref {
                StateIndex::Element(id) => {
                    let mut cell = elements[*id].duplicate();
                    cell.mark_stale();
                    elements.set(*id, cell);
                },
                _ => size.mark_stale(),
            },
        }
    }

    pub fn elements_len(&self) -> (r: usize)
        requires
            self is Array,
        ensures
            r == self->elements@.len(),
    {
        match self {
            StateForStateVar::Single(_) => 0,
            StateForStateVar::Array { elements, .. } => elements.len(),
        }
    }
}

/// Brings `elements` to `len` cells: surplus cells are dropped, missing ones
/// are stale numbers.
fn resize_cells(elements: &mut Vec<StateVar>, len: usize)
    ensures
        final(elements)@.len() == len,
        forall|i: int| 0 <= i < len && i < old(elements)@.len() ==> final(elements)@[i] == old(elements)@[i],
        forall|i: int| old(elements)@.len() <= i < len ==> final(elements)@[i].kind_of() == ValueKind::Number
            && final(elements)@[i].state_of() is Stale,
{
    if len <= elements.len() {
        elements.truncate(len);
        return;
    }
    while elements.len() < len
        invariant
            old(elements)@.len() <= elements@.len() <= len,
            forall|i: int| 0 <= i < old(elements)@.len() ==> elements@[i] == old(elements)@[i],
            forall|i: int| old(elements)@.len() <= i < elements@.len() ==> elements@[i].kind_of() == ValueKind::Number
                && elements@[i].state_of() is Stale,
        decreases len - elements@.len(),
    {
        elements.push(StateVar::new(ValueKind::Number));
    }
}


/// `s` brought to length `n`: cut, or padded with copies of `fill`.
pub open spec fn resized<T>(s: Seq<T>, n: nat, fill: T) -> Seq<T> {
    if n <= s.len() {
        s.subrange(0, n as int)
    } else {
        s + Seq::new((n - s.len()) as nat, |_i: int| fill)
    }
}

fn resize_values(values: &mut Vec<StateVarValue>, len: usize, fill: &StateVarValue)
    ensures
        final(values)@ == resized(old(values)@, len as nat, *fill),
{
    if len <= values.len() {
        values.truncate(len);
        return;
    }
    let ghost start = values@;
    while values.len() < len
        invariant
            start.len() <= values@.len() <= len,
            values@ == start + Seq::new((values@.len() - start.len()) as nat, |_i: int| *fill),
        decreases len - values@.len(),
    {
        values.push(fill.duplicate());
        assert(values@ =~= start + Seq::new((values@.len() - start.len()) as nat, |_i: int| *fill));
    }
}

/// A persisted value behind a state variable: never stale.
#[derive(Debug)]
pub enum EssentialStateVar {
    Single(StateVarValue),
    Array { size: usize, elements: Vec<StateVarValue>, extension: StateVarValue },
}

impl EssentialStateVar {
    /// Whether `index` is a part of this slot's shape.
    pub open spec fn index_fits(self, index: StateIndex) -> bool {
        match self {
            EssentialStateVar::Single(_) => index is Basic,
            EssentialStateVar::Array { .. } => !(index is Basic),
        }
    }

    /// A slot holding `value`: its first entry for a single variable, all of
    /// it for an array, whose missing elements will read as zero.
    pub fn new(value_type: &StateVarVariant, value: Vec<StateVarValue>) -> (r: EssentialStateVar)
        requires
            !(*value_type is NumberArray) ==> value@.len() > 0,
        ensures
            !(*value_type is NumberArray) ==> r == EssentialStateVar::Single(value@[0]),
            *value_type is NumberArray ==> (r matches EssentialStateVar::Array { size, elements, extension }
                && size == value@.len() && elements@ == value@ && extension == StateVarValue::Number(0)),
    {
        match value_type {
            StateVarVariant::NumberArray => EssentialStateVar::Array {
                size: value.len(),
                elements: value,
                extension: StateVarValue::Number(0),
            },
            _ => EssentialStateVar::Single(value[0].duplicate()),
        }
    }

    /// Writes the named part. A single value keeps its kind. Growing an
    /// array's size, or writing past its end, pads it with the extension
    /// value; the size never shrinks.
    pub fn set_value(&mut self, state_ref: StateIndex, new_value: StateVarValue) -> (r: Result<(), String>)
        requires
            old(self).index_fits(state_ref),
            state_ref matches StateIndex::Element(i) ==> i < usize::MAX,
        ensures
            match (*old(self), state_ref) {
                (EssentialStateVar::Single(v), _) => {
                    &&& (r is Ok <==> new_value.kind_of() == v.kind_of())
                    &&& r is Ok ==> *final(self) == EssentialStateVar::Single(new_value)
                    &&& r is Err ==> *final(self) == *old(self)
                },
                (EssentialStateVar::Array { size, elements, extension }, StateIndex::SizeOf) => {
                    &&& (r is Ok <==> new_value is Integer && new_value->Integer_0 >= 0
                        && new_value->Integer_0 <= usize::MAX)
                    &&& r is Err ==> *final(self) == *old(self)
                    &&& r is Ok ==> {
                        let n = if size >= new_value->Integer_0 { size as int } else { new_value->Integer_0 as int };
                        *final(self) matches EssentialStateVar::Array { size: s2, elements: e2, extension: x2 }
                            && s2 as int == n && e2@ == resized(elements@, n as nat, extension) && x2 == extension
                    }
                },
                (EssentialStateVar::Array { size, elements, extension }, StateIndex::Element(i)) => {
                    let n = if elements.len() > i { elements.len() as int } else { i + 1 };
                    let padded = resized(elements@, n as nat, extension);
                    &&& (r is Ok <==> new_value.kind_of() == padded[i as int].kind_of())
                    &&& *final(self) matches EssentialStateVar::Array { size: s2, elements: e2, extension: x2 }
                        && s2 == size && x2 == extension
                        && e2@ == (if r is Ok { padded.update(i as int, new_value) } else { padded })
                },
                _ => true,
            },
    {
        match self {
            EssentialStateVar::Single(v) => v.set_protect_type(new_value),
            EssentialStateVar::Array { size, elements, extension } => match state_ref {
                StateIndex::Element(i) => {
                    let new_len = if elements.len() > i { elements.len() } else { i + 1 };
                    resize_values(elements, new_len, extension);
                    let mut item = elements[i].duplicate();
                    let r = item.set_protect_type(new_value);
                    if r.is_ok() {
                        elements.set(i, item);
                    }
                    r
                },
                _ => {
                    let requested: usize = match new_value {
                        StateVarValue::Integer(n) => {
                            if n < 0 || n as u64 > usize::MAX as u64 {
                                return Err(String::from_str("the size of an array must be a non-negative integer"));
                            }
                            n as usize
                        },
                        _ => {
                            return Err(String::from_str("the size of an array must be a non-negative integer"));
                        },
                    };
                    let new_len = if *size >= requested { *size } else { requested };
                    resize_values(elements, new_len, extension);
                    *size = new_len;
                    Ok(())
                },
            },
        }
    }

    /// Reads the named part: the value, the array's size, or the element
    /// if the array has one at that place.
    pub fn get_value(&self, state_ref: StateIndex) -> (r: Option<StateVarValue>)
        requires
            self.index_fits(state_ref),
            self matches EssentialStateVar::Array { size, .. } ==> size <= i64::MAX,
        ensures
            match (*self, state_ref) {
                (EssentialStateVar::Single(v), _) => r == Some(v),
                (EssentialStateVar::Array { size, .. }, StateIndex::SizeOf) =>
                    r == Some(StateVarValue::Integer(size as i64)),
                (EssentialStateVar::Array { elements, .. }, StateIndex::Element(i)) =>
                    r == (if i < elements.len() { Some(elements@[i as int]) } else { None::<StateVarValue> }),
                _ => true,
            },
    {
        match self {
            EssentialStateVar::Single(v) => Some(v.duplicate()),
            EssentialStateVar::Array { size, elements, .. } => match state_ref {
                StateIndex::Element(i) => {
                    if i < elements.len() {
                        Some(elements[i].duplicate())
                    } else {
                        None
                    }
                },
                _ => Some(StateVarValue::Integer(*size as i64)),
            },
        }
    }
}

} // verus!
