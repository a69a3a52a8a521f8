use vstd::prelude::*;
use crate::catalog::{
    declared_instruction, instruction_count, first_kind, bundle_view, determine_spec, values_of, Determination,
    first_var, action_names, for_renderer, should_render_children, spec_for_renderer,
    on_action, request_dependencies_to_update_value, retarget_depth, UpdateRequest,
    determine_state_var_from_dependencies, is_default_value, DependencyValue, StateVarUpdateInstruction,
    default_value, dependency_instructions, get_trait_names, has_essential, spec_has_essential,
    state_var_index, state_var_kind, state_var_names, trait_names, var_kind, var_names, ComponentType,
    DependencyInstruction, ObjectTraitName, StateVarName,
};
use crate::state::{EssentialStateVar, State, StateIndex, StateVar, StateVarValue, ValueKind, ValueView};

verus! {

/// A child of a component: literal text, or a component by name.
#[derive(Debug)]
pub enum ComponentChild {
    String(String),
    Component(String),
}

/// An attribute of a component: a component by name, or a primitive value.
#[derive(Debug)]
pub enum Attribute {
    Component(String),
    Primitive(StateVarValue),
}

/// A component as the tree builder hands it over.
#[derive(Debug)]
pub struct ComponentNode {
    pub name: String,
    pub component_type: ComponentType,
    pub parent: Option<String>,
    pub children: Vec<ComponentChild>,
    pub attributes: Vec<(String, Attribute)>,
    pub copy_target: Option<String>,
}

/// A source that a dependency reads: a component by index, literal text,
/// or a primitive attribute value.
#[derive(Debug)]
pub enum ObjectName {
    Component(usize),
    String(String),
    Primitive(StateVarValue),
}

/// A concrete edge: the variable that owns it, the label of the instruction
/// it came from, its sources in order, and the variables read from each
/// component source.
#[derive(Debug)]
pub struct Dependency {
    pub name: String,
    pub component: usize,
    pub state_var: usize,
    pub depends_on_objects: Vec<ObjectName>,
    pub depends_on_state_vars: Vec<StateVarName>,
}

/// A document: its components, the dependency graph between their state
/// variables, and an arena of cells and essential slots. The cell of
/// variable `v` of component `c` is at `offsets[c] + v`.
pub struct DoenetCore {
    components: Vec<ComponentNode>,
    dependencies: Vec<Dependency>,
    root_component: usize,
    offsets: Vec<usize>,
    cells: Vec<StateVar>,
    essentials: Vec<Option<EssentialStateVar>>,
    ranks: Vec<usize>,
}

impl DoenetCore {
    pub closed spec fn num_components(self) -> nat {
        self.components@.len()
    }

    /// The components of the document.
    pub closed spec fn nodes(self) -> Seq<ComponentNode> {
        self.components@
    }

    pub open spec fn type_of(self, c: int) -> ComponentType {
        self.nodes()[c].component_type
    }

    /// The number of state variables of component `c`.
    pub open spec fn num_vars(self, c: int) -> nat {
        var_names(self.type_of(c)).len()
    }

    /// The name of variable `v` of component `c`.
    pub open spec fn var_name(self, c: int, v: int) -> StateVarName {
        var_names(self.type_of(c))[v]
    }

    pub open spec fn valid_var(self, c: int, v: int) -> bool {
        0 <= c < self.nodes().len() && 0 <= v < self.num_vars(c)
    }

    pub closed spec fn slot(self, c: int, v: int) -> int {
        self.offsets@[c] + v
    }

    /// The cell of variable `v` of component `c`.
    pub closed spec fn cell(self, c: int, v: int) -> StateVar {
        self.cells@[self.slot(c, v)]
    }

    /// The essential slot of variable `v` of component `c`, if it has one.
    pub closed spec fn essential(self, c: int, v: int) -> Option<EssentialStateVar> {
        self.essentials@[self.slot(c, v)]
    }

    pub closed spec fn rank(self, c: int, v: int) -> int {
        self.ranks@[self.slot(c, v)] as int
    }

    pub closed spec fn root(self) -> int {
        self.root_component as int
    }

    pub closed spec fn deps(self) -> Seq<Dependency> {
        self.dependencies@
    }

    /// The layout of the arena: every variable has a cell, a rank and a
    /// place for its essential slot.
    pub closed spec fn layout_wf(self) -> bool {
        &&& self.offsets@.len() == self.components@.len()
        &&& self.essentials@.len() == self.cells@.len()
        &&& self.ranks@.len() == self.cells@.len()
        &&& self.root_component < self.components@.len()
        &&& forall|c: int| 0 <= c < self.components@.len()
            ==> (#[trigger] self.offsets@[c]) + var_names(self.components@[c].component_type).len() <= self.cells@.len()
        &&& forall|c: int, d: int| 0 <= c < d < self.components@.len()
            ==> (#[trigger] self.offsets@[c]) + var_names(self.components@[c].component_type).len() <= #[trigger] self.offsets@[d]
    }

    /// Distinct variables have distinct cells.
    proof fn lemma_slots_distinct(self, c: int, v: int, c2: int, v2: int)
        requires
            self.layout_wf(),
            self.valid_var(c, v),
            self.valid_var(c2, v2),
            c != c2 || v != v2,
        ensures
            self.slot(c, v) != self.slot(c2, v2),
    {
        if c < c2 {
            assert(self.offsets@[c] + self.num_vars(c) <= self.offsets@[c2]);
        } else if c2 < c {
            assert(self.offsets@[c2] + self.num_vars(c2) <= self.offsets@[c]);
        }
    }

    /// Each cell has the kind of its variable.
    pub closed spec fn cells_wf(self) -> bool {
        forall|c: int, v: int| self.valid_var(c, v) ==> (#[trigger] self.cell(c, v)).kind_of()
            == var_kind(self.var_name(c, v), self.type_of(c))
    }

    /// A variable has an essential slot exactly when its definition asks for
    /// one, and the slot holds a single value of the variable's kind.
    pub closed spec fn essentials_wf(self) -> bool {
        forall|c: int, v: int| self.valid_var(c, v) ==> match #[trigger] self.essential(c, v) {
            Some(EssentialStateVar::Single(x)) => spec_has_essential(self.type_of(c), self.var_name(c, v))
                && x.kind_of() == var_kind(self.var_name(c, v), self.type_of(c)),
            Some(_) => false,
            None => !spec_has_essential(self.type_of(c), self.var_name(c, v)),
        }
    }

    /// Component `s` has the variable `name`, and every variable of that
    /// name ranks below `bound`.
    pub closed spec fn reads_ok(self, s: int, name: StateVarName, bound: int) -> bool {
        &&& var_names(self.type_of(s)).contains(name)
        &&& forall|w: int| 0 <= w < self.num_vars(s) && #[trigger] var_names(self.type_of(s))[w] == name
            ==> self.rank(s, w) < bound
    }

    /// Every component source of a dependency exists, has each variable that
    /// the dependency reads, and those variables rank below the owner.
    pub closed spec fn dep_wf(self, d: Dependency) -> bool {
        &&& self.valid_var(d.component as int, d.state_var as int)
        &&& forall|j: int| 0 <= j < d.depends_on_objects@.len() ==> match #[trigger] d.depends_on_objects@[j] {
            ObjectName::Component(s) => {
                &&& s < self.components@.len()
                &&& forall|k: int| 0 <= k < d.depends_on_state_vars@.len() ==> self.reads_ok(
                    s as int,
                    #[trigger] d.depends_on_state_vars@[k],
                    self.rank(d.component as int, d.state_var as int),
                )
            },
            _ => true,
        }
    }

    pub closed spec fn deps_wf(self) -> bool {
        forall|i: int| 0 <= i < self.dependencies@.len() ==> self.dep_wf(#[trigger] self.dependencies@[i])
    }

    /// The invariant of a document.
    pub closed spec fn wf(self) -> bool {
        &&& self.layout_wf()
        &&& self.cells_wf()
        &&& self.essentials_wf()
        &&& self.deps_wf()
        &&& unique_names(self.components@)
    }

    /// Two states of one document: the same components, graph and ranks,
    /// and cells of the same kinds.
    pub closed spec fn same_graph(self, other: DoenetCore) -> bool {
        &&& self.components == other.components
        &&& self.dependencies == other.dependencies
        &&& self.root_component == other.root_component
        &&& self.offsets == other.offsets
        &&& self.ranks == other.ranks
        &&& self.cells@.len() == other.cells@.len()
        &&& self.essentials@.len() == other.essentials@.len()
        &&& forall|k: int| 0 <= k < self.cells@.len() ==> (#[trigger] self.cells@[k]).kind_of() == other.cells@[k].kind_of()
    }

    /// What the invariant says of each variable: its cell has the variable's
    /// kind, and it has an essential slot, holding a value of that kind,
    /// exactly when its definition asks for one. Component names are unique.
    pub proof fn lemma_wf_facts(self)
        requires
            self.wf(),
        ensures
            unique_names(self.nodes()),
            self.root() < self.nodes().len(),
            forall|c: int, v: int| self.valid_var(c, v) ==> (#[trigger] self.cell(c, v)).kind_of()
                == var_kind(self.var_name(c, v), self.type_of(c)),
            forall|c: int, v: int| self.valid_var(c, v) ==> match #[trigger] self.essential(c, v) {
                Some(EssentialStateVar::Single(x)) => spec_has_essential(self.type_of(c), self.var_name(c, v))
                    && x.kind_of() == var_kind(self.var_name(c, v), self.type_of(c)),
                Some(_) => false,
                None => !spec_has_essential(self.type_of(c), self.var_name(c, v)),
            },
    {
    }

    /// Kinds are stable: two states of one document give each cell the same
    /// kind.
    pub proof fn lemma_kind_stability(self, other: DoenetCore, c: int, v: int)
        requires
            self.wf(),
            self.same_graph(other),
            self.valid_var(c, v),
        ensures
            other.valid_var(c, v),
            other.cell(c, v).kind_of() == self.cell(c, v).kind_of(),
    {
        assert(self.cells@[self.slot(c, v)].kind_of() == other.cells@[self.slot(c, v)].kind_of());
    }
}

/// The first component named `name`, if any.
pub fn find_component(components: &Vec<ComponentNode>, name: &String) -> (r: Option<usize>)
    ensures
        r is Some ==> r->Some_0 < components@.len() && components@[r->Some_0 as int].name@ == name@
            && forall|k: int| 0 <= k < r->Some_0 ==> components@[k].name@ != name@,
        r is None ==> forall|i: int| 0 <= i < components@.len() ==> components@[i].name@ != name@,
{
    let mut i: usize = 0;
    while i < components.len()
        invariant
            i <= components@.len(),
            forall|k: int| 0 <= k < i ==> components@[k].name@ != name@,
        decreases components@.len() - i,
    {
        if components[i].name.eq(name) {
            return Some(i);
        }
        i = i + 1;
    }
    None
}

/// A component of the type named `component_type`; an unknown type is an error.
pub fn create_new_component_of_type(
    component_type: &String,
    name: String,
    parent_name: Option<String>,
    children: Vec<ComponentChild>,
    attributes: Vec<(String, Attribute)>,
    copy_target: Option<String>,
) -> (r: Result<ComponentNode, String>)
    ensures
        r is Err <==> forall|ty: ComponentType| component_type@ != #[trigger] crate::catalog::type_name_of(ty),
        r is Ok ==> component_type@ == crate::catalog::type_name_of(r->Ok_0.component_type)
            && r->Ok_0.name == name && r->Ok_0.parent == parent_name && r->Ok_0.children == children
            && r->Ok_0.attributes == attributes && r->Ok_0.copy_target == copy_target,
{
    match ComponentType::from_name(component_type) {
        Some(ty) => Ok(ComponentNode { name, component_type: ty, parent: parent_name, children, attributes, copy_target }),
        None => Err(String::from_str("unrecognized component type")),
    }
}

/// Whether a child carries one of the desired capabilities: a component by
/// its type, literal text when text or numbers are asked for.
pub open spec fn child_matches(components: Seq<ComponentNode>, child: ComponentChild, desired: Seq<ObjectTraitName>) -> bool {
    match child {
        ComponentChild::String(_) => desired.contains(ObjectTraitName::TextLike) || desired.contains(ObjectTraitName::NumberLike),
        ComponentChild::Component(n) => exists|i: int| #[trigger] first_named(components, n@, i)
            && any_trait(components[i].component_type, desired),
    }
}

/// `i` is the first component named `n`.
pub open spec fn first_named(components: Seq<ComponentNode>, n: Seq<char>, i: int) -> bool {
    0 <= i < components.len() && components[i].name@ == n && forall|k: int| 0 <= k < i ==> components[k].name@ != n
}

/// No two components share a name, and no component has two attributes of
/// one name.
pub open spec fn unique_names(components: Seq<ComponentNode>) -> bool {
    &&& forall|i: int, j: int| 0 <= i < j < components.len() ==> #[trigger] components[i].name@ != #[trigger] components[j].name@
    &&& forall|c: int, i: int, j: int| 0 <= c < components.len() && 0 <= i < j < components[c].attributes@.len()
        ==> #[trigger] components[c].attributes@[i].0@ != #[trigger] components[c].attributes@[j].0@
}

/// Whether no two components share a name and no component repeats an
/// attribute name.
pub fn check_unique_names(components: &Vec<ComponentNode>) -> (r: bool)
    ensures
        r == unique_names(components@),
{
    let mut i: usize = 0;
    while i < components.len()
        invariant
            i <= components@.len(),
            forall|x: int, y: int| 0 <= x < y < components@.len() && x < i ==> #[trigger] components@[x].name@ != #[trigger] components@[y].name@,
            forall|c: int, x: int, y: int| 0 <= c < i && 0 <= x < y < components@[c].attributes@.len()
                ==> #[trigger] components@[c].attributes@[x].0@ != #[trigger] components@[c].attributes@[y].0@,
        decreases components@.len() - i,
    {
        let mut j: usize = i + 1;
        while j < components.len()
            invariant
                i < components@.len(),
                i < j <= components@.len(),
                forall|x: int, y: int| 0 <= x < y < components@.len() && x < i ==> #[trigger] components@[x].name@ != #[trigger] components@[y].name@,
                forall|y: int| i < y < j ==> components@[i as int].name@ != #[trigger] components@[y].name@,
            decreases components@.len() - j,
        {
            if components[i].name.eq(&components[j].name) {
                proof {
                    assert(components@[i as int].name@ == components@[j as int].name@);
                }
                return false;
            }
            j = j + 1;
        }
        let attrs = &components[i].attributes;
        let mut x: usize = 0;
        while x < attrs.len()
            invariant
                i < components@.len(),
                attrs@ == components@[i as int].attributes@,
                x <= attrs@.len(),
                forall|p: int, q: int| 0 <= p < q < attrs@.len() && p < x ==> #[trigger] attrs@[p].0@ != #[trigger] attrs@[q].0@,
            decreases attrs@.len() - x,
        {
            let mut y: usize = x + 1;
            while y < attrs.len()
                invariant
                    i < components@.len(),
                    attrs@ == components@[i as int].attributes@,
                    x < attrs@.len(),
                    x < y <= attrs@.len(),
                    forall|p: int, q: int| 0 <= p < q < attrs@.len() && p < x ==> #[trigger] attrs@[p].0@ != #[trigger] attrs@[q].0@,
                    forall|q: int| x < q < y ==> attrs@[x as int].0@ != #[trigger] attrs@[q].0@,
                decreases attrs@.len() - y,
            {
                if attrs[x].0.eq(&attrs[y].0) {
                    proof {
                        assert(components@[i as int].attributes@[x as int].0@ == components@[i as int].attributes@[y as int].0@);
                    }
                    return false;
                }
                y = y + 1;
            }
            x = x + 1;
        }
        i = i + 1;
    }
    true
}

/// The dependencies among the first `i` of `deps` that variable `v` of
/// component `c` owns, in order.
pub open spec fn owned_upto(deps: Seq<Dependency>, c: usize, v: usize, i: int) -> Seq<Dependency>
    decreases i,
{
    if i <= 0 || i > deps.len() {
        Seq::empty()
    } else if deps[i - 1].component == c && deps[i - 1].state_var == v {
        owned_upto(deps, c, v, i - 1).push(deps[i - 1])
    } else {
        owned_upto(deps, c, v, i - 1)
    }
}

/// The first component named `n`, if any.
pub open spec fn lookup(components: Seq<ComponentNode>, n: Seq<char>) -> Option<int> {
    if exists|i: int| #[trigger] first_named(components, n, i) {
        Some(choose|i: int| #[trigger] first_named(components, n, i))
    } else {
        None
    }
}

/// The first attribute named `n`, if any.
pub open spec fn lookup_attribute(attributes: Seq<(String, Attribute)>, n: Seq<char>) -> Option<int> {
    if exists|i: int| #[trigger] first_attribute(attributes, n, i) {
        Some(choose|i: int| #[trigger] first_attribute(attributes, n, i))
    } else {
        None
    }
}

/// `i` is the first attribute named `n`.
pub open spec fn first_attribute(attributes: Seq<(String, Attribute)>, n: Seq<char>, i: int) -> bool {
    0 <= i < attributes.len() && attributes[i].0@ == n && forall|k: int| 0 <= k < i ==> attributes[k].0@ != n
}

/// The sources that the first `i` children give a children instruction:
/// literal text when text or numbers are asked for, and each component
/// that carries a desired capability, once, in document order.
pub open spec fn matching_upto(components: Seq<ComponentNode>, children: Seq<ComponentChild>, desired: Seq<ObjectTraitName>, i: int) -> Seq<ObjectName>
    decreases i,
{
    if i <= 0 || i > children.len() {
        Seq::empty()
    } else {
        let prev = matching_upto(components, children, desired, i - 1);
        match children[i - 1] {
            ComponentChild::String(t) => if desired.contains(ObjectTraitName::TextLike) || desired.contains(ObjectTraitName::NumberLike) {
                prev.push(ObjectName::String(t))
            } else {
                prev
            },
            ComponentChild::Component(n) => match lookup(components, n@) {
                Some(k) => if any_trait(components[k].component_type, desired) && !prev.contains(ObjectName::Component(k as usize)) {
                    prev.push(ObjectName::Component(k as usize))
                } else {
                    prev
                },
                None => prev,
            },
        }
    }
}

/// What a renderer is told of component `s`: its name, its children
/// instructions, and each variable shown to the renderer with the value that
/// resolving it gives in `core`.
pub open spec fn describes(core: DoenetCore, node: RenderNode, s: int) -> bool {
    &&& node.component_name@ == core.nodes()[s].name@
    &&& instructions_of(core.nodes(), s, node.children_instructions@)
    &&& forall|v: int| core.valid_var(s, v) && spec_for_renderer(core.type_of(s), #[trigger] core.var_name(s, v))
        ==> exists|e: int| 0 <= e < node.state_values@.len()
            && (#[trigger] node.state_values@[e]).0@ == crate::catalog::var_name_of(core.var_name(s, v))
            && node.state_values@[e].1.view() == core.resolved_value(s, v)
}

/// The components that the first `i` children name, in order: each
/// component child that names an existing component.
pub open spec fn shown_upto(components: Seq<ComponentNode>, children: Seq<ComponentChild>, i: int) -> Seq<int>
    decreases i,
{
    if i <= 0 || i > children.len() {
        Seq::empty()
    } else {
        let prev = shown_upto(components, children, i - 1);
        match children[i - 1] {
            ComponentChild::Component(n) => match lookup(components, n@) {
                Some(k) => prev.push(k),
                None => prev,
            },
            ComponentChild::String(_) => prev,
        }
    }
}

/// The children that component `c` shows the renderer: its component
/// children when its type shows children, else none.
pub open spec fn shown_children(components: Seq<ComponentNode>, c: int) -> Seq<int> {
    if components[c].component_type is Document {
        shown_upto(components, components[c].children@, components[c].children@.len() as int)
    } else {
        Seq::empty()
    }
}

/// The components that rendering from `c` visits, going at most `budget`
/// levels down: `c`, then what each shown child visits, in document
/// pre-order.
pub open spec fn visit(components: Seq<ComponentNode>, c: int, budget: nat) -> Seq<int>
    decreases budget, 1int, 0int,
{
    seq![c] + if budget > 0 {
        visit_list(components, shown_children(components, c), (budget - 1) as nat, shown_children(components, c).len() as int)
    } else {
        Seq::empty()
    }
}

/// What rendering the first `i` of `list` visits, one after another.
pub open spec fn visit_list(components: Seq<ComponentNode>, list: Seq<int>, budget: nat, i: int) -> Seq<int>
    decreases budget, 2int, i,
{
    if i <= 0 || i > list.len() {
        Seq::empty()
    } else {
        visit_list(components, list, budget, i - 1) + visit(components, list[i - 1], budget)
    }
}

/// Whether a displayed variable of one of `comps` reads variable `w` of
/// component `s`, transitively.
pub open spec fn touched_by(g: Inputs, comps: Seq<int>, s: int, w: int) -> bool {
    exists|k: int, v: int| 0 <= k < comps.len() && 0 <= v < var_names(g.0[comps[k]].component_type).len()
        && spec_for_renderer(g.0[comps[k]].component_type, var_names(g.0[comps[k]].component_type)[v])
        && #[trigger] reaches(g, comps[k], v, s, w)
}

/// A cell that rendering from `c` may change: one that a displayed
/// variable of a visited component reads, transitively.
pub open spec fn render_touches(g: Inputs, c: int, budget: nat, s: int, w: int) -> bool {
    touched_by(g, visit(g.0, c, budget), s, w)
}

proof fn lemma_visit_list_prefix(components: Seq<ComponentNode>, list: Seq<int>, budget: nat, i: int, j: int)
    requires
        0 <= i <= j <= list.len(),
    ensures
        visit_list(components, list, budget, i).len() <= visit_list(components, list, budget, j).len(),
        forall|p: int| 0 <= p < visit_list(components, list, budget, i).len()
            ==> visit_list(components, list, budget, j)[p] == visit_list(components, list, budget, i)[p],
    decreases j - i,
{
    if i < j {
        lemma_visit_list_prefix(components, list, budget, i, j - 1);
    }
}

/// What a renderer is told of one child of a component.
pub open spec fn instruction_for(components: Seq<ComponentNode>, child: ComponentChild, instr: ChildInstruction) -> bool {
    match child {
        ComponentChild::String(t) => instr matches ChildInstruction::String(u) && u@ == t@,
        ComponentChild::Component(n) => match lookup(components, n@) {
            Some(k) => instr matches ChildInstruction::Component { actions, component_name, component_type, effective_name, renderer_type }
                && component_name@ == components[k].name@ && effective_name@ == components[k].name@
                && component_type@ == crate::catalog::type_name_of(components[k].component_type)
                && renderer_type@ == crate::catalog::type_name_of(components[k].component_type)
                && actions@.len() == (if components[k].component_type is TextInput { 1int } else { 0int })
                && forall|x: int| 0 <= x < actions@.len() ==> (#[trigger] actions@[x]).0@ == "updateValue"@
                    && actions@[x].1.action_name@ == "updateValue"@ && actions@[x].1.component_name@ == components[k].name@,
            None => false,
        },
    }
}

/// The children that the first `i` children give instructions for: text,
/// and component children that name an existing component.
pub open spec fn instructed_upto(components: Seq<ComponentNode>, children: Seq<ComponentChild>, i: int) -> Seq<int>
    decreases i,
{
    if i <= 0 || i > children.len() {
        Seq::empty()
    } else {
        let prev = instructed_upto(components, children, i - 1);
        match children[i - 1] {
            ComponentChild::Component(n) => if lookup(components, n@) is Some { prev.push(i - 1) } else { prev },
            ComponentChild::String(_) => prev.push(i - 1),
        }
    }
}

/// The children instructions of component `c`: one per instructed child,
/// in order, when its type shows children, and none otherwise.
pub open spec fn instructions_of(components: Seq<ComponentNode>, c: int, instrs: Seq<ChildInstruction>) -> bool {
    if components[c].component_type is Document {
        let kept = instructed_upto(components, components[c].children@, components[c].children@.len() as int);
        &&& instrs.len() == kept.len()
        &&& forall|x: int| 0 <= x < instrs.len() ==> instruction_for(components, components[c].children@[kept[x]], #[trigger] instrs[x])
    } else {
        instrs.len() == 0
    }
}

/// The sources that a reference by name gives: the first component of that
/// name, or none.
pub open spec fn named_source(components: Seq<ComponentNode>, n: Seq<char>) -> Seq<ObjectName> {
    match lookup(components, n) {
        Some(k) => seq![ObjectName::Component(k as usize)],
        None => Seq::empty(),
    }
}

/// The sources that an instruction of component `c` binds to.
pub open spec fn expected_objects(components: Seq<ComponentNode>, c: int, instruction: DependencyInstruction) -> Seq<ObjectName> {
    let me = components[c];
    match instruction {
        DependencyInstruction::StateVar { component_name, .. } => match component_name {
            Some(n) => named_source(components, n@),
            None => seq![ObjectName::Component(c as usize)],
        },
        DependencyInstruction::Child { desired_children, .. } =>
            matching_upto(components, me.children@, desired_children@, me.children@.len() as int),
        DependencyInstruction::Parent { .. } => match me.parent {
            Some(p) => named_source(components, p@),
            None => Seq::empty(),
        },
        DependencyInstruction::Attribute { attribute_name } => match lookup_attribute(me.attributes@, attribute_name@) {
            Some(a) => match me.attributes@[a].1 {
                Attribute::Component(n) => named_source(components, n@),
                Attribute::Primitive(x) => seq![ObjectName::Primitive(x)],
            },
            None => Seq::empty(),
        },
    }
}

/// The variables that an instruction of component `c` reads from each
/// component source.
pub open spec fn expected_vars(components: Seq<ComponentNode>, c: int, instruction: DependencyInstruction) -> Seq<StateVarName> {
    match instruction {
        DependencyInstruction::StateVar { state_var, .. } => seq![state_var],
        DependencyInstruction::Child { desired_state_vars, .. } => desired_state_vars@,
        DependencyInstruction::Parent { state_var } => seq![state_var],
        DependencyInstruction::Attribute { attribute_name } => match lookup_attribute(components[c].attributes@, attribute_name@) {
            Some(_) => seq![StateVarName::Value],
            None => Seq::empty(),
        },
    }
}

proof fn lemma_lookup(components: Seq<ComponentNode>, n: Seq<char>, i: int)
    requires
        first_named(components, n, i),
    ensures
        lookup(components, n) == Some(i),
{
    let j = choose|j: int| #[trigger] first_named(components, n, j);
    assert(first_named(components, n, j));
    if j < i {
        assert(components[j].name@ != n);
    }
    if i < j {
        assert(components[i].name@ != n);
    }
}

proof fn lemma_lookup_none(components: Seq<ComponentNode>, n: Seq<char>)
    requires
        forall|i: int| 0 <= i < components.len() ==> components[i].name@ != n,
    ensures
        lookup(components, n) is None,
{
    assert forall|i: int| !#[trigger] first_named(components, n, i) by {
        if 0 <= i < components.len() {
            assert(components[i].name@ != n);
        }
    }
}

proof fn lemma_lookup_attribute(attributes: Seq<(String, Attribute)>, n: Seq<char>, i: int)
    requires
        first_attribute(attributes, n, i),
    ensures
        lookup_attribute(attributes, n) == Some(i),
{
    let j = choose|j: int| #[trigger] first_attribute(attributes, n, j);
    assert(first_attribute(attributes, n, j));
    if j < i {
        assert(attributes[j].0@ != n);
    }
    if i < j {
        assert(attributes[i].0@ != n);
    }
}

/// A type carries one of the desired capabilities.
pub open spec fn any_trait(ty: ComponentType, desired: Seq<ObjectTraitName>) -> bool {
    exists|t: int| 0 <= t < desired.len() && trait_names(ty).contains(#[trigger] desired[t])
}

/// A source that a children instruction may include: literal text when
/// text or numbers are asked for, a component that carries a desired
/// capability.
pub open spec fn object_matches(components: Seq<ComponentNode>, obj: ObjectName, desired: Seq<ObjectTraitName>) -> bool {
    match obj {
        ObjectName::String(_) => desired.contains(ObjectTraitName::TextLike) || desired.contains(ObjectTraitName::NumberLike),
        ObjectName::Component(c) => c < components.len() && any_trait(components[c as int].component_type, desired),
        ObjectName::Primitive(_) => false,
    }
}

/// The source that a child stands for.
pub open spec fn child_object(components: Seq<ComponentNode>, child: ComponentChild, obj: ObjectName) -> bool {
    match child {
        ComponentChild::String(t) => obj matches ObjectName::String(u) && u@ == t@,
        ComponentChild::Component(n) => obj matches ObjectName::Component(i) && i < components.len()
            && components[i as int].name@ == n@,
    }
}

fn contains_trait(traits: &Vec<ObjectTraitName>, t: ObjectTraitName) -> (r: bool)
    ensures
        r == traits@.contains(t),
{
    let mut i: usize = 0;
    while i < traits.len()
        invariant
            i <= traits@.len(),
            forall|k: int| 0 <= k < i ==> traits@[k] != t,
        decreases traits@.len() - i,
    {
        if traits[i] == t {
            assert(traits@[i as int] == t);
            return true;
        }
        i = i + 1;
    }
    false
}

/// Whether a component of type `ty` carries any of the desired capabilities.
fn has_any_trait(ty: ComponentType, desired: &Vec<ObjectTraitName>) -> (r: bool)
    ensures
        r == any_trait(ty, desired@),
{
    let traits = get_trait_names(ty);
    let mut i: usize = 0;
    while i < desired.len()
        invariant
            i <= desired@.len(),
            traits@ == trait_names(ty),
            forall|k: int| 0 <= k < i ==> !trait_names(ty).contains(#[trigger] desired@[k]),
        decreases desired@.len() - i,
    {
        if contains_trait(&traits, desired[i]) {
            return true;
        }
        i = i + 1;
    }
    false
}

#[verifier::rlimit(50)]
/// The children that carry any one of the desired capabilities, in
/// document order: the union over the capabilities, each component once.
/// A component child that names no component is left out.
pub fn children_matching(
    components: &Vec<ComponentNode>,
    children: &Vec<ComponentChild>,
    desired: &Vec<ObjectTraitName>,
) -> (r: Vec<ObjectName>)
    ensures
        forall|i: int| 0 <= i < children@.len() && child_matches(components@, #[trigger] children@[i], desired@)
            ==> exists|j: int| 0 <= j < r@.len() && child_object(components@, children@[i], #[trigger] r@[j]),
        forall|j: int| 0 <= j < r@.len() ==> object_matches(components@, #[trigger] r@[j], desired@),
        r@ == matching_upto(components@, children@, desired@, children@.len() as int),
{
    let text_wanted = contains_trait(desired, ObjectTraitName::TextLike) || contains_trait(desired, ObjectTraitName::NumberLike);
    let mut r: Vec<ObjectName> = Vec::new();
    let mut i: usize = 0;
    while i < children.len()
        invariant
            i <= children@.len(),
            text_wanted == (desired@.contains(ObjectTraitName::TextLike) || desired@.contains(ObjectTraitName::NumberLike)),
            forall|k: int| 0 <= k < i && child_matches(components@, #[trigger] children@[k], desired@)
                ==> exists|j: int| 0 <= j < r@.len() && child_object(components@, children@[k], #[trigger] r@[j]),
            forall|j: int| 0 <= j < r@.len() ==> object_matches(components@, #[trigger] r@[j], desired@),
            r@ == matching_upto(components@, children@, desired@, i as int),
        decreases children@.len() - i,
    {
        let ghost old_r = r@;
        let ghost child = children@[i as int];
        let mut pushed = false;
        match &children[i] {
            ComponentChild::String(t) => {
                if text_wanted {
                    r.push(ObjectName::String(t.clone()));
                    pushed = true;
                }
                assert(child_matches(components@, child, desired@) == text_wanted);
            },
            ComponentChild::Component(n) => {
                match find_component(components, n) {
                    Some(c) => {
                        let wanted = has_any_trait(components[c].component_type, desired);
                        proof {
                            lemma_lookup(components@, n@, c as int);
                            assert(first_named(components@, n@, c as int));
                            if child_matches(components@, child, desired@) {
                                let w = choose|w: int| #[trigger] first_named(components@, n@, w)
                                    && any_trait(components@[w].component_type, desired@);
                                assert(w == c as int);
                            }
                        }
                        if wanted {
                            if !contains_component(&r, c) {
                                r.push(ObjectName::Component(c));
                                pushed = true;
                            } else {
                                let ghost j = choose|j: int| 0 <= j < r@.len() && #[trigger] r@[j] == ObjectName::Component(c);
                                assert(child_object(components@, child, r@[j]));
                            }
                        }
                    },
                    None => {
                        proof {
                            lemma_lookup_none(components@, n@);
                        }
                        assert forall|w: int| !#[trigger] first_named(components@, n@, w) by {
                            if 0 <= w < components@.len() {
                                assert(components@[w].name@ != n@);
                            }
                        }
                    },
                }
            },
        }
        proof {
            assert(r@ == matching_upto(components@, children@, desired@, i + 1));
            if pushed {
                assert(r@ == old_r.push(r@[r@.len() - 1]));
                assert(child_object(components@, child, r@[r@.len() - 1]));
                assert(child_matches(components@, child, desired@));
            } else {
                assert(r@ == old_r);
            }
            assert forall|j: int| 0 <= j < r@.len() implies object_matches(components@, #[trigger] r@[j], desired@) by {
                if j < old_r.len() {
                    assert(r@[j] == old_r[j]);
                }
            }
            assert forall|k: int| 0 <= k < i + 1 && child_matches(components@, #[trigger] children@[k], desired@)
                implies exists|j: int| 0 <= j < r@.len() && child_object(components@, children@[k], #[trigger] r@[j]) by {
                if k < i {
                    let j = choose|j: int| 0 <= j < old_r.len() && child_object(components@, children@[k], #[trigger] old_r[j]);
                    assert(r@[j] == old_r[j]);
                } else if pushed {
                    assert(child_object(components@, children@[k], r@[r@.len() - 1]));
                }
            }
        }
        i = i + 1;
    }
    r
}

fn contains_component(objects: &Vec<ObjectName>, c: usize) -> (r: bool)
    ensures
        r == exists|j: int| 0 <= j < objects@.len() && #[trigger] objects@[j] == ObjectName::Component(c),
{
    let mut j: usize = 0;
    while j < objects.len()
        invariant
            j <= objects@.len(),
            forall|k: int| 0 <= k < j ==> objects@[k] != ObjectName::Component(c),
        decreases objects@.len() - j,
    {
        match &objects[j] {
            ObjectName::Component(d) => {
                if *d == c {
                    return true;
                }
            },
            _ => {},
        }
        j = j + 1;
    }
    false
}

/// The first attribute named `name`, if any.
pub fn find_attribute(attributes: &Vec<(String, Attribute)>, name: &String) -> (r: Option<usize>)
    ensures
        r is Some ==> first_attribute(attributes@, name@, r->Some_0 as int),
        r is None ==> forall|i: int| 0 <= i < attributes@.len() ==> attributes@[i].0@ != name@,
{
    let mut i: usize = 0;
    while i < attributes.len()
        invariant
            i <= attributes@.len(),
            forall|k: int| 0 <= k < i ==> attributes@[k].0@ != name@,
        decreases attributes@.len() - i,
    {
        if attributes[i].0.eq(name) {
            return Some(i);
        }
        i = i + 1;
    }
    None
}

/// Every component source names an existing component.
pub open spec fn sources_exist(n: nat, objects: Seq<ObjectName>) -> bool {
    forall|j: int| 0 <= j < objects.len() ==> (#[trigger] objects[j] matches ObjectName::Component(s) ==> s < n)
}

fn copy_names(names: &Vec<StateVarName>) -> (r: Vec<StateVarName>)
    ensures
        r@ == names@,
{
    let mut r: Vec<StateVarName> = Vec::new();
    let mut i: usize = 0;
    while i < names.len()
        invariant
            i <= names@.len(),
            r@ == names@.subrange(0, i as int),
        decreases names@.len() - i,
    {
        r.push(names[i]);
        i = i + 1;
        assert(r@ =~= names@.subrange(0, i as int));
    }
    assert(r@ =~= names@);
    r
}

/// Binds one instruction of variable `state_var` of `components[component]`
/// to concrete sources. A name that resolves to no component gives no
/// source; asking for the parent of a component without one is an error.
pub fn create_dependency_from_instruction(
    components: &Vec<ComponentNode>,
    component: usize,
    state_var: usize,
    instruction: &DependencyInstruction,
    instruction_name: String,
) -> (r: Result<Dependency, String>)
    requires
        component < components@.len(),
    ensures
        r is Err <==> (*instruction is Parent && components@[component as int].parent is None),
        r is Ok ==> ({
            let d = r->Ok_0;
            &&& d.component == component && d.state_var == state_var && d.name == instruction_name
            &&& d.depends_on_objects@ == expected_objects(components@, component as int, *instruction)
            &&& d.depends_on_state_vars@ == expected_vars(components@, component as int, *instruction)
            &&& sources_exist(components@.len(), d.depends_on_objects@)
            &&& (*instruction is Attribute
                && forall|i: int| 0 <= i < components@[component as int].attributes@.len()
                    ==> #[trigger] components@[component as int].attributes@[i].0@ != instruction->attribute_name@)
                ==> d.depends_on_objects@.len() == 0
            &&& *instruction is Child ==> forall|j: int| 0 <= j < d.depends_on_objects@.len()
                    ==> object_matches(components@, #[trigger] d.depends_on_objects@[j], instruction->desired_children@)
        }),
{
    let me = &components[component];
    let mut depends_on_objects: Vec<ObjectName> = Vec::new();
    let depends_on_state_vars: Vec<StateVarName>;
    match instruction {
        DependencyInstruction::StateVar { component_name, state_var: wanted } => {
            match component_name {
                Some(n) => match find_component(components, n) {
                    Some(i) => {
                        proof {
                            lemma_lookup(components@, n@, i as int);
                        }
                        depends_on_objects.push(ObjectName::Component(i));
                    },
                    None => {
                        proof {
                            lemma_lookup_none(components@, n@);
                        }
                    },
                },
                None => depends_on_objects.push(ObjectName::Component(component)),
            }
            depends_on_state_vars = vec![*wanted];
            proof {
                assert(depends_on_objects@ =~= expected_objects(components@, component as int, *instruction));
                assert(depends_on_state_vars@ =~= expected_vars(components@, component as int, *instruction));
            }
        },
        DependencyInstruction::Child { desired_children, desired_state_vars } => {
            depends_on_objects = children_matching(components, &me.children, desired_children);
            depends_on_state_vars = copy_names(desired_state_vars);
            proof {
                assert forall|j: int| 0 <= j < depends_on_objects@.len()
                    implies (#[trigger] depends_on_objects@[j] matches ObjectName::Component(s) ==> s < components@.len()) by {
                    assert(object_matches(components@, depends_on_objects@[j], desired_children@));
                }
            }
        },
        DependencyInstruction::Parent { state_var: wanted } => {
            match &me.parent {
                Some(parent_name) => match find_component(components, parent_name) {
                    Some(i) => {
                        proof {
                            lemma_lookup(components@, parent_name@, i as int);
                        }
                        depends_on_objects.push(ObjectName::Component(i));
                    },
                    None => {
                        proof {
                            lemma_lookup_none(components@, parent_name@);
                        }
                    },
                },
                None => {
                    return Err(String::from_str("a dependency instruction asks for the parent of a component without one"));
                },
            }
            depends_on_state_vars = vec![*wanted];
            proof {
                assert(depends_on_objects@ =~= expected_objects(components@, component as int, *instruction));
                assert(depends_on_state_vars@ =~= expected_vars(components@, component as int, *instruction));
            }
        },
        DependencyInstruction::Attribute { attribute_name } => {
            match find_attribute(&me.attributes, attribute_name) {
                Some(a) => match &me.attributes[a].1 {
                    Attribute::Component(n) => {
                        proof {
                            lemma_lookup_attribute(me.attributes@, attribute_name@, a as int);
                        }
                        match find_component(components, n) {
                            Some(i) => {
                                proof {
                                    lemma_lookup(components@, n@, i as int);
                                }
                                depends_on_objects.push(ObjectName::Component(i));
                            },
                            None => {
                                proof {
                                    lemma_lookup_none(components@, n@);
                                }
                            },
                        }
                        depends_on_state_vars = vec![StateVarName::Value];
                    },
                    Attribute::Primitive(value) => {
                        proof {
                            lemma_lookup_attribute(me.attributes@, attribute_name@, a as int);
                        }
                        depends_on_objects.push(ObjectName::Primitive(value.duplicate()));
                        depends_on_state_vars = vec![StateVarName::Value];
                    },
                },
                None => {
                    proof {
                        assert forall|k: int| !#[trigger] first_attribute(me.attributes@, attribute_name@, k) by {
                            if 0 <= k < me.attributes@.len() {
                                assert(me.attributes@[k].0@ != attribute_name@);
                            }
                        }
                    }
                    depends_on_state_vars = Vec::new();
                },
            }
        },
    }
    proof {
        assert(depends_on_objects@ =~= expected_objects(components@, component as int, *instruction));
        assert(depends_on_state_vars@ =~= expected_vars(components@, component as int, *instruction));
    }
    Ok(Dependency {
        name: instruction_name,
        component,
        state_var,
        depends_on_objects,
        depends_on_state_vars,
    })
}

/// How many dependencies the first `c` components declare.
pub open spec fn total_count(components: Seq<ComponentNode>, c: int) -> nat
    decreases c,
{
    if c <= 0 || c > components.len() {
        0
    } else {
        total_count(components, c - 1) + count_upto(components[c - 1].component_type,
            var_names(components[c - 1].component_type).len() as int)
    }
}

/// The dependencies of a document built from `components`: for each
/// component in order, the binding of each instruction its variables
/// declare, in the order of the variables.
pub open spec fn built_dependencies(components: Seq<ComponentNode>, deps: Seq<Dependency>) -> bool {
    &&& deps.len() == total_count(components, components.len() as int)
    &&& forall|i: int| 0 <= i < deps.len() ==> {
        let d = #[trigger] deps[i];
        &&& d.component < components.len()
        &&& total_count(components, d.component as int) <= i
        &&& bound_at(components, d.component as int, i - total_count(components, d.component as int), d)
    }
}

/// How many instructions the first `v` variables of type `ty` declare.
pub open spec fn count_upto(ty: ComponentType, v: int) -> nat
    decreases v,
{
    if v <= 0 || v > var_names(ty).len() {
        0
    } else {
        count_upto(ty, v - 1) + instruction_count(ty, var_names(ty)[v - 1])
    }
}

/// Dependency `d`, at place `k` of the list for component `c`, is the
/// binding of the instruction that its variable declares, and that variable
/// is the one whose instructions come `k`-th in variable order.
pub open spec fn bound_at(components: Seq<ComponentNode>, c: int, k: int, d: Dependency) -> bool {
    let ty = components[c].component_type;
    &&& d.component == c
    &&& d.state_var < var_names(ty).len()
    &&& d.name@ == crate::catalog::instruction_label(var_names(ty)[d.state_var as int])
    &&& count_upto(ty, d.state_var as int) == k
    &&& instruction_count(ty, var_names(ty)[d.state_var as int]) == 1
    &&& exists|ins: DependencyInstruction| #[trigger] declared_instruction(ty, var_names(ty)[d.state_var as int], ins)
        && d.depends_on_objects@ == expected_objects(components, c, ins)
        && d.depends_on_state_vars@ == expected_vars(components, c, ins)
}

/// The dependencies of every state variable of `components[component]`:
/// one for each instruction that a variable declares, bound to concrete
/// sources, in the order of the variables.
pub fn create_all_dependencies_for_component(
    components: &Vec<ComponentNode>,
    component: usize,
) -> (r: Result<Vec<Dependency>, String>)
    requires
        component < components@.len(),
    ensures
        r is Ok,
        r->Ok_0@.len() == count_upto(components@[component as int].component_type,
            var_names(components@[component as int].component_type).len() as int),
        forall|k: int| 0 <= k < r->Ok_0@.len() ==> bound_at(components@, component as int, k, #[trigger] r->Ok_0@[k]),
        forall|i: int| 0 <= i < r->Ok_0@.len() ==> {
            let d = #[trigger] r->Ok_0@[i];
            &&& d.component == component
            &&& d.state_var < var_names(components@[component as int].component_type).len()
            &&& sources_exist(components@.len(), d.depends_on_objects@)
        },
{
    let ty = components[component].component_type;
    let names = state_var_names(ty);
    let mut dependencies: Vec<Dependency> = Vec::new();
    let mut v: usize = 0;
    while v < names.len()
        invariant
            component < components@.len(),
            ty == components@[component as int].component_type,
            names@ == var_names(ty),
            v <= names@.len(),
            dependencies@.len() == count_upto(ty, v as int),
            forall|k: int| 0 <= k < dependencies@.len() ==> bound_at(components@, component as int, k, #[trigger] dependencies@[k]),
            forall|i: int| 0 <= i < dependencies@.len() ==> {
                let d = #[trigger] dependencies@[i];
                &&& d.component == component
                &&& d.state_var < var_names(ty).len()
                &&& sources_exist(components@.len(), d.depends_on_objects@)
            },
        decreases names@.len() - v,
    {
        let instructions = dependency_instructions(ty, names[v]);
        proof {
            assert forall|x: int| 0 <= x < instructions@.len() implies declared_instruction(ty, names@[v as int], #[trigger] instructions@[x].1)
                && instructions@[x].0@ == crate::catalog::instruction_label(names@[v as int]) by {
                assert(declared_instruction(ty, names@[v as int], instructions@[x].1));
                assert(instructions@[x].0@ == crate::catalog::instruction_label(names@[v as int]));
            }
        }
        let mut k: usize = 0;
        while k < instructions.len()
            invariant
                component < components@.len(),
                ty == components@[component as int].component_type,
                names@ == var_names(ty),
                v < names@.len(),
                k <= instructions@.len(),
                instructions@.len() == instruction_count(ty, names@[v as int]),
                forall|x: int| 0 <= x < instructions@.len() ==> declared_instruction(ty, names@[v as int], #[trigger] instructions@[x].1)
                    && instructions@[x].0@ == crate::catalog::instruction_label(names@[v as int]),
                dependencies@.len() == count_upto(ty, v as int) + k,
                forall|x: int| 0 <= x < dependencies@.len() ==> bound_at(components@, component as int, x, #[trigger] dependencies@[x]),
                forall|i: int| 0 <= i < dependencies@.len() ==> {
                    let d = #[trigger] dependencies@[i];
                    &&& d.component == component
                    &&& d.state_var < var_names(ty).len()
                    &&& sources_exist(components@.len(), d.depends_on_objects@)
                },
            decreases instructions@.len() - k,
        {
            let label = instructions[k].0.clone();
            let ghost ins = instructions@[k as int].1;
            proof {
                assert(declared_instruction(ty, names@[v as int], ins));
            }
            let result = create_dependency_from_instruction(components, component, v, &instructions[k].1, label);
            let d = match result {
                Ok(d) => d,
                Err(e) => {
                    return Err(e);
                },
            };
            let ghost before = dependencies@;
            dependencies.push(d);
            proof {
                assert(k == 0);
                assert(bound_at(components@, component as int, before.len() as int, dependencies@[before.len() as int]));
                assert forall|x: int| 0 <= x < dependencies@.len() implies bound_at(components@, component as int, x, #[trigger] dependencies@[x]) by {
                    if x < before.len() {
                        assert(dependencies@[x] == before[x]);
                    }
                }
            }
            k = k + 1;
        }
        v = v + 1;
    }
    Ok(dependencies)
}

impl DoenetCore {
    /// The number of variables of component `c`.
    fn vars_of(&self, c: usize) -> (r: usize)
        requires
            c < self.components@.len(),
        ensures
            r == self.num_vars(c as int),
    {
        state_var_names(self.components[c].component_type).len()
    }

    /// The place in the arena of variable `v` of component `c`.
    fn slot_of(&self, c: usize, v: usize) -> (r: usize)
        requires
            self.layout_wf(),
            self.valid_var(c as int, v as int),
        ensures
            r as int == self.slot(c as int, v as int),
            r < self.cells@.len(),
    {
        let total = self.cells.len();
        assert(self.offsets@[c as int] + self.num_vars(c as int) <= total);
        self.offsets[c] + v
    }

    /// Raises ranks along the dependencies until each owner ranks above
    /// what it reads, or a bound on the ranks is reached.
    fn compute_ranks(&mut self)
        requires
            old(self).layout_wf(),
        ensures
            final(self).layout_wf(),
            final(self).components == old(self).components,
            final(self).dependencies == old(self).dependencies,
            final(self).offsets == old(self).offsets,
            final(self).cells == old(self).cells,
            final(self).essentials == old(self).essentials,
            final(self).root_component == old(self).root_component,
    {
        let bound = self.cells.len();
        let mut round: usize = 0;
        while round < bound
            invariant
                self.layout_wf(),
                bound == self.cells@.len(),
                self.components == old(self).components,
                self.dependencies == old(self).dependencies,
                self.offsets == old(self).offsets,
                self.cells == old(self).cells,
                self.essentials == old(self).essentials,
                self.root_component == old(self).root_component,
            decreases bound - round,
        {
            let mut changed = false;
            let mut i: usize = 0;
            while i < self.dependencies.len()
                invariant
                    self.layout_wf(),
                    bound == self.cells@.len(),
                    self.components == old(self).components,
                    self.dependencies == old(self).dependencies,
                    self.offsets == old(self).offsets,
                    self.cells == old(self).cells,
                    self.essentials == old(self).essentials,
                    self.root_component == old(self).root_component,
                decreases self.dependencies@.len() - i,
            {
                let c = self.dependencies[i].component;
                let v = self.dependencies[i].state_var;
                if c < self.components.len() && v < self.vars_of(c) {
                    let own = self.slot_of(c, v);
                    let mut j: usize = 0;
                    while j < self.dependencies[i].depends_on_objects.len()
                        invariant
                            self.layout_wf(),
                            bound == self.cells@.len(),
                            own < bound,
                            i < self.dependencies@.len(),
                            self.components == old(self).components,
                            self.dependencies == old(self).dependencies,
                            self.offsets == old(self).offsets,
                            self.cells == old(self).cells,
                            self.essentials == old(self).essentials,
                            self.root_component == old(self).root_component,
                        decreases self.dependencies@[i as int].depends_on_objects@.len() - j,
                    {
                        let source: Option<usize> = match &self.dependencies[i].depends_on_objects[j] {
                            ObjectName::Component(src) => Some(*src),
                            _ => None,
                        };
                        match source {
                            Some(src) => {
                                if src < self.components.len() {
                                    let names = state_var_names(self.components[src].component_type);
                                    let mut k: usize = 0;
                                    while k < self.dependencies[i].depends_on_state_vars.len()
                                        invariant
                                            self.layout_wf(),
                                            bound == self.cells@.len(),
                                            own < bound,
                                            i < self.dependencies@.len(),
                                            src < self.components@.len(),
                                            names@ == var_names(self.components@[src as int].component_type),
                                            self.components == old(self).components,
                                            self.dependencies == old(self).dependencies,
                                            self.offsets == old(self).offsets,
                                            self.cells == old(self).cells,
                                            self.essentials == old(self).essentials,
                                            self.root_component == old(self).root_component,
                                        decreases self.dependencies@[i as int].depends_on_state_vars@.len() - k,
                                    {
                                        let wanted = self.dependencies[i].depends_on_state_vars[k];
                                        let mut w: usize = 0;
                                        while w < names.len()
                                            invariant
                                                self.layout_wf(),
                                                bound == self.cells@.len(),
                                                own < bound,
                                                src < self.components@.len(),
                                                names@ == var_names(self.components@[src as int].component_type),
                                                self.components == old(self).components,
                                                self.dependencies == old(self).dependencies,
                                                self.offsets == old(self).offsets,
                                                self.cells == old(self).cells,
                                                self.essentials == old(self).essentials,
                                                self.root_component == old(self).root_component,
                                            decreases names@.len() - w,
                                        {
                                            if names[w] == wanted {
                                                let from = self.slot_of(src, w);
                                                let r_from = self.ranks[from];
                                                if r_from >= self.ranks[own] && r_from < bound {
                                                    self.ranks.set(own, r_from + 1);
                                                    changed = true;
                                                }
                                            }
                                            w = w + 1;
                                        }
                                        k = k + 1;
                                    }
                                }
                            },
                            None => {},
                        }
                        j = j + 1;
                    }
                }
                i = i + 1;
            }
            if !changed {
                break;
            }
            round = round + 1;
        }
    }
}

impl DoenetCore {
    /// Whether component `s` has the variable `name` and every variable of
    /// that name ranks below `bound`.
    fn check_reads(&self, s: usize, name: StateVarName, bound: usize) -> (r: bool)
        requires
            self.layout_wf(),
            s < self.components@.len(),
        ensures
            r ==> self.reads_ok(s as int, name, bound as int),
    {
        let names = state_var_names(self.components[s].component_type);
        let mut found = false;
        let mut w: usize = 0;
        while w < names.len()
            invariant
                self.layout_wf(),
                s < self.components@.len(),
                names@ == var_names(self.type_of(s as int)),
                w <= names@.len(),
                found ==> var_names(self.type_of(s as int)).contains(name),
                forall|x: int| 0 <= x < w && #[trigger] var_names(self.type_of(s as int))[x] == name
                    ==> self.rank(s as int, x) < bound,
            decreases names@.len() - w,
        {
            if names[w] == name {
                let at = self.slot_of(s, w);
                if self.ranks[at] >= bound {
                    return false;
                }
                found = true;
            }
            w = w + 1;
        }
        found
    }

    /// Whether a dependency meets the invariant of the graph.
    fn check_dependency(&self, d: &Dependency) -> (r: bool)
        requires
            self.layout_wf(),
        ensures
            r ==> self.dep_wf(*d),
    {
        let c = d.component;
        let v = d.state_var;
        if !(c < self.components.len() && v < self.vars_of(c)) {
            return false;
        }
        let own = self.slot_of(c, v);
        let bound = self.ranks[own];
        let mut j: usize = 0;
        while j < d.depends_on_objects.len()
            invariant
                self.layout_wf(),
                self.valid_var(c as int, v as int),
                c == d.component && v == d.state_var,
                bound as int == self.rank(c as int, v as int),
                j <= d.depends_on_objects@.len(),
                forall|x: int| 0 <= x < j ==> match #[trigger] d.depends_on_objects@[x] {
                    ObjectName::Component(s) => {
                        &&& s < self.components@.len()
                        &&& forall|k: int| 0 <= k < d.depends_on_state_vars@.len() ==> self.reads_ok(
                            s as int,
                            #[trigger] d.depends_on_state_vars@[k],
                            bound as int,
                        )
                    },
                    _ => true,
                },
            decreases d.depends_on_objects@.len() - j,
        {
            match &d.depends_on_objects[j] {
                ObjectName::Component(s) => {
                    let s = *s;
                    if s >= self.components.len() {
                        return false;
                    }
                    let mut k: usize = 0;
                    while k < d.depends_on_state_vars.len()
                        invariant
                            self.layout_wf(),
                            s < self.components@.len(),
                            k <= d.depends_on_state_vars@.len(),
                            forall|y: int| 0 <= y < k ==> self.reads_ok(s as int, #[trigger] d.depends_on_state_vars@[y], bound as int),
                        decreases d.depends_on_state_vars@.len() - k,
                    {
                        if !self.check_reads(s, d.depends_on_state_vars[k], bound) {
                            return false;
                        }
                        k = k + 1;
                    }
                },
                _ => {},
            }
            j = j + 1;
        }
        true
    }

    /// Whether every dependency meets the invariant of the graph.
    fn check_dependencies(&self) -> (r: bool)
        requires
            self.layout_wf(),
        ensures
            r ==> self.deps_wf(),
    {
        let mut i: usize = 0;
        while i < self.dependencies.len()
            invariant
                self.layout_wf(),
                i <= self.dependencies@.len(),
                forall|x: int| 0 <= x < i ==> self.dep_wf(#[trigger] self.dependencies@[x]),
            decreases self.dependencies@.len() - i,
        {
            if !self.check_dependency(&self.dependencies[i]) {
                return false;
            }
            i = i + 1;
        }
        true
    }
}

impl DoenetCore {
    /// Builds a document from the components that the tree builder made and
    /// the name of its root. Every cell starts stale; each essential slot
    /// starts at its variable's default. The build fails, with no document,
    /// when the root is missing, when an instruction asks for a missing
    /// parent, when a source lacks a variable that is read from it, or when
    /// the dependencies form a cycle.
    pub fn create_doenet_core(components: Vec<ComponentNode>, root_name: &String) -> (r: Result<DoenetCore, String>)
        ensures
            r is Ok ==> ({
                let core = r->Ok_0;
                &&& core.wf()
                &&& core.nodes() == components@
                &&& core.nodes()[core.root()].name@ == root_name@
                &&& forall|c: int, v: int| core.valid_var(c, v) ==> (#[trigger] core.cell(c, v)).state_of() is Stale
                &&& unique_names(core.nodes())
                &&& built_dependencies(core.nodes(), core.deps())
                &&& forall|c: int, v: int| core.valid_var(c, v) ==> match #[trigger] core.essential(c, v) {
                    Some(EssentialStateVar::Single(e)) => is_default_value(var_kind(core.var_name(c, v), core.type_of(c)), e),
                    _ => true,
                }
            }),
            !unique_names(components@) ==> r is Err,
            (forall|i: int| 0 <= i < components@.len() ==> components@[i].name@ != root_name@) ==> r is Err,
    {
        if !check_unique_names(&components) {
            return Err(String::from_str("two components share a name, or a component repeats an attribute"));
        }
        let root_component = match find_component(&components, root_name) {
            Some(i) => i,
            None => {
                return Err(String::from_str("the root component does not exist"));
            },
        };
        let mut offsets: Vec<usize> = Vec::new();
        let mut cells: Vec<StateVar> = Vec::new();
        let mut essentials: Vec<Option<EssentialStateVar>> = Vec::new();
        let mut ranks: Vec<usize> = Vec::new();
        let mut c: usize = 0;
        while c < components.len()
            invariant
                c <= components@.len(),
                offsets@.len() == c,
                essentials@.len() == cells@.len(),
                ranks@.len() == cells@.len(),
                forall|x: int| 0 <= x < c ==> (#[trigger] offsets@[x]) + var_names(components@[x].component_type).len() <= cells@.len(),
                forall|x: int, y: int| 0 <= x < y < c ==> (#[trigger] offsets@[x]) + var_names(components@[x].component_type).len() <= #[trigger] offsets@[y],
                forall|x: int, v: int| 0 <= x < c && 0 <= v < var_names(components@[x].component_type).len() ==> {
                    let cell = #[trigger] cells@[offsets@[x] + v];
                    let ty = components@[x].component_type;
                    &&& cell.kind_of() == var_kind(var_names(ty)[v], ty)
                    &&& cell.state_of() is Stale
                },
                forall|x: int, v: int| 0 <= x < c && 0 <= v < var_names(components@[x].component_type).len() ==>
                    match #[trigger] essentials@[offsets@[x] + v] {
                        Some(EssentialStateVar::Single(e)) => spec_has_essential(components@[x].component_type, var_names(components@[x].component_type)[v])
                            && e.kind_of() == var_kind(var_names(components@[x].component_type)[v], components@[x].component_type)
                            && is_default_value(var_kind(var_names(components@[x].component_type)[v], components@[x].component_type), e),
                        Some(_) => false,
                        None => !spec_has_essential(components@[x].component_type, var_names(components@[x].component_type)[v]),
                    },
            decreases components@.len() - c,
        {
            let ty = components[c].component_type;
            let names = state_var_names(ty);
            let start = cells.len();
            offsets.push(start);
            let ghost prev_cells = cells@;
            let ghost prev_essentials = essentials@;
            let mut v: usize = 0;
            while v < names.len()
                invariant
                    names@ == var_names(ty),
                    ty == components@[c as int].component_type,
                    c < components@.len(),
                    v <= names@.len(),
                    start == prev_cells.len(),
                    cells@.len() == start + v,
                    essentials@.len() == cells@.len(),
                    ranks@.len() == cells@.len(),
                    prev_essentials.len() == prev_cells.len(),
                    forall|k: int| 0 <= k < start ==> cells@[k] == prev_cells[k] && essentials@[k] == prev_essentials[k],
                    forall|w: int| 0 <= w < v ==> {
                        let cell = #[trigger] cells@[start + w];
                        &&& cell.kind_of() == var_kind(var_names(ty)[w], ty)
                        &&& cell.state_of() is Stale
                    },
                    forall|w: int| 0 <= w < v ==> match #[trigger] essentials@[start + w] {
                        Some(EssentialStateVar::Single(e)) => spec_has_essential(ty, var_names(ty)[w]) && e.kind_of() == var_kind(var_names(ty)[w], ty)
                            && is_default_value(var_kind(var_names(ty)[w], ty), e),
                        Some(_) => false,
                        None => !spec_has_essential(ty, var_names(ty)[w]),
                    },
                decreases names@.len() - v,
            {
                let kind = state_var_kind(names[v], ty);
                cells.push(StateVar::new(kind));
                if has_essential(ty, names[v]) {
                    essentials.push(Some(EssentialStateVar::Single(default_value(kind))));
                } else {
                    essentials.push(None);
                }
                ranks.push(0);
                v = v + 1;
            }
            proof {
                assert forall|x: int, w: int| 0 <= x < c + 1 && 0 <= w < var_names(components@[x].component_type).len() implies {
                    let cell = #[trigger] cells@[offsets@[x] + w];
                    let ty = components@[x].component_type;
                    &&& cell.kind_of() == var_kind(var_names(ty)[w], ty)
                    &&& cell.state_of() is Stale
                } by {
                    if x < c {
                        assert(offsets@[x] + w < start);
                        assert(cells@[offsets@[x] + w] == prev_cells[offsets@[x] + w]);
                    } else {
                        assert(offsets@[x] == start);
                        assert(cells@[start + w] == cells@[offsets@[x] + w]);
                    }
                }
                assert forall|x: int, w: int| 0 <= x < c + 1 && 0 <= w < var_names(components@[x].component_type).len() implies
                    match #[trigger] essentials@[offsets@[x] + w] {
                        Some(EssentialStateVar::Single(e)) => spec_has_essential(components@[x].component_type, var_names(components@[x].component_type)[w])
                            && e.kind_of() == var_kind(var_names(components@[x].component_type)[w], components@[x].component_type)
                            && is_default_value(var_kind(var_names(components@[x].component_type)[w], components@[x].component_type), e),
                        Some(_) => false,
                        None => !spec_has_essential(components@[x].component_type, var_names(components@[x].component_type)[w]),
                    } by {
                    if x < c {
                        assert(offsets@[x] + w < start);
                        assert(essentials@[offsets@[x] + w] == prev_essentials[offsets@[x] + w]);
                    } else {
                        assert(offsets@[x] == start);
                        assert(essentials@[start + w] == essentials@[offsets@[x] + w]);
                    }
                }
            }
            c = c + 1;
        }
        let mut dependencies: Vec<Dependency> = Vec::new();
        let mut c: usize = 0;
        while c < components.len()
            invariant
                c <= components@.len(),
                dependencies@.len() == total_count(components@, c as int),
                forall|i: int| 0 <= i < dependencies@.len() ==> {
                    let d = #[trigger] dependencies@[i];
                    &&& d.component < c
                    &&& total_count(components@, d.component as int) <= i
                    &&& bound_at(components@, d.component as int, i - total_count(components@, d.component as int), d)
                },
            decreases components@.len() - c,
        {
            let mut more = match create_all_dependencies_for_component(&components, c) {
                Ok(more) => more,
                Err(e) => {
                    return Err(e);
                },
            };
            let ghost before = dependencies@;
            let ghost added = more@;
            dependencies.append(&mut more);
            proof {
                assert(dependencies@ == before + added);
                assert forall|i: int| 0 <= i < dependencies@.len() implies {
                    let d = #[trigger] dependencies@[i];
                    &&& d.component < c + 1
                    &&& total_count(components@, d.component as int) <= i
                    &&& bound_at(components@, d.component as int, i - total_count(components@, d.component as int), d)
                } by {
                    if i < before.len() {
                        assert(dependencies@[i] == before[i]);
                    } else {
                        assert(dependencies@[i] == added[i - before.len()]);
                        assert(bound_at(components@, c as int, i - before.len(), added[i - before.len()]));
                    }
                }
            }
            c = c + 1;
        }
        let mut core = DoenetCore { components, dependencies, root_component, offsets, cells, essentials, ranks };
        assert(core.layout_wf());
        core.compute_ranks();
        if !core.check_dependencies() {
            return Err(String::from_str("a dependency reads a missing state variable, or the dependencies form a cycle"));
        }
        proof {
            assert forall|x: int, v: int| core.valid_var(x, v) implies (#[trigger] core.cell(x, v)).kind_of()
                == var_kind(core.var_name(x, v), core.type_of(x)) && core.cell(x, v).state_of() is Stale by {
                assert(core.cells@[core.offsets@[x] + v] == core.cell(x, v));
            }
            assert forall|x: int, v: int| core.valid_var(x, v) implies match #[trigger] core.essential(x, v) {
                Some(EssentialStateVar::Single(e)) => spec_has_essential(core.type_of(x), core.var_name(x, v))
                    && e.kind_of() == var_kind(core.var_name(x, v), core.type_of(x)),
                Some(_) => false,
                None => !spec_has_essential(core.type_of(x), core.var_name(x, v)),
            } by {
                assert(core.essentials@[core.offsets@[x] + v] == core.essential(x, v));
            }
        }
        proof {
            assert forall|x: int, v: int| core.valid_var(x, v) implies match #[trigger] core.essential(x, v) {
                Some(EssentialStateVar::Single(e)) => is_default_value(var_kind(core.var_name(x, v), core.type_of(x)), e),
                _ => true,
            } by {
                assert(core.essentials@[core.offsets@[x] + v] == core.essential(x, v));
            }
        }
        Ok(core)
    }
}

impl DoenetCore {
    /// The essential slots of two states are alike: the same slots, each
    /// holding a value of the same kind.
    pub closed spec fn essentials_alike(self, other: DoenetCore) -> bool {
        &&& self.essentials@.len() == other.essentials@.len()
        &&& forall|k: int| 0 <= k < self.essentials@.len() ==> #[trigger] self.essentials@[k] == other.essentials@[k]
            || match (self.essentials@[k], other.essentials@[k]) {
                (Some(EssentialStateVar::Single(a)), Some(EssentialStateVar::Single(b))) => a.kind_of() == b.kind_of(),
                _ => false,
            }
    }

    /// The essential slots of two states are equal.
    pub closed spec fn same_essentials(self, other: DoenetCore) -> bool {
        self.essentials == other.essentials
    }

    proof fn lemma_wf_kept(self, other: DoenetCore)
        requires
            self.wf(),
            self.same_graph(other),
            self.essentials_alike(other),
        ensures
            other.wf(),
    {
        assert forall|c: int, v: int| other.valid_var(c, v) implies (#[trigger] other.cell(c, v)).kind_of()
            == var_kind(other.var_name(c, v), other.type_of(c)) by {
            assert(self.cell(c, v).kind_of() == var_kind(self.var_name(c, v), self.type_of(c)));
            assert(self.cells@[self.slot(c, v)].kind_of() == other.cells@[self.slot(c, v)].kind_of());
        }
        assert forall|c: int, v: int| other.valid_var(c, v) implies match #[trigger] other.essential(c, v) {
            Some(EssentialStateVar::Single(x)) => spec_has_essential(other.type_of(c), other.var_name(c, v))
                && x.kind_of() == var_kind(other.var_name(c, v), other.type_of(c)),
            Some(_) => false,
            None => !spec_has_essential(other.type_of(c), other.var_name(c, v)),
        } by {
            assert(match self.essential(c, v) {
                Some(EssentialStateVar::Single(x)) => spec_has_essential(self.type_of(c), self.var_name(c, v))
                    && x.kind_of() == var_kind(self.var_name(c, v), self.type_of(c)),
                Some(_) => false,
                None => !spec_has_essential(self.type_of(c), self.var_name(c, v)),
            });
            let k = self.slot(c, v);
            assert(self.essentials@[k] == other.essentials@[k] || match (self.essentials@[k], other.essentials@[k]) {
                (Some(EssentialStateVar::Single(a)), Some(EssentialStateVar::Single(b))) => a.kind_of() == b.kind_of(),
                _ => false,
            });
        }
        assert forall|i: int| 0 <= i < other.dependencies@.len() implies other.dep_wf(#[trigger] other.dependencies@[i]) by {
            assert(self.dep_wf(self.dependencies@[i]));
            let d = self.dependencies@[i];
            assert forall|j: int| 0 <= j < d.depends_on_objects@.len() implies match #[trigger] d.depends_on_objects@[j] {
                ObjectName::Component(s) => {
                    &&& s < other.components@.len()
                    &&& forall|k: int| 0 <= k < d.depends_on_state_vars@.len() ==> other.reads_ok(
                        s as int,
                        #[trigger] d.depends_on_state_vars@[k],
                        other.rank(d.component as int, d.state_var as int),
                    )
                },
                _ => true,
            } by {
                match d.depends_on_objects@[j] {
                    ObjectName::Component(s) => {
                        assert forall|k: int| 0 <= k < d.depends_on_state_vars@.len() implies other.reads_ok(
                            s as int,
                            #[trigger] d.depends_on_state_vars@[k],
                            other.rank(d.component as int, d.state_var as int),
                        ) by {
                            assert(self.reads_ok(s as int, d.depends_on_state_vars@[k], self.rank(d.component as int, d.state_var as int)));
                        }
                    },
                    _ => {},
                }
            }
        }
    }

    /// The state of variable `v` of component `c`.
    pub fn get_state(&self, c: usize, v: usize) -> (r: State<StateVarValue>)
        requires
            self.wf(),
            self.valid_var(c as int, v as int),
        ensures
            r == self.cell(c as int, v as int).state_of(),
    {
        let k = self.slot_of(c, v);
        self.cells[k].get_state()
    }

    /// Applies a determination result to variable `v` of component `c`:
    /// keep the value, copy the essential slot (or the default where there
    /// is none), or set the value.
    pub fn handle_update_instruction(&mut self, c: usize, v: usize, instruction: StateVarUpdateInstruction)
        requires
            old(self).wf(),
            old(self).valid_var(c as int, v as int),
            instruction is NoChange ==> old(self).cell(c as int, v as int).state_of() is Resolved,
            instruction is SetValue ==> instruction->SetValue_0.kind_of()
                == var_kind(old(self).var_name(c as int, v as int), old(self).type_of(c as int)),
        ensures
            final(self).wf(),
            old(self).same_graph(*final(self)),
            old(self).same_essentials(*final(self)),
            old(self).resolved_kept(*final(self)),
            old(self).resolve_frame(*final(self)),
            instruction is NoChange ==> *final(self) == *old(self),
            forall|c2: int, v2: int| #[trigger] old(self).valid_var(c2, v2) && (c2 != c || v2 != v)
                ==> final(self).cell(c2, v2) == old(self).cell(c2, v2),
            final(self).cell(c as int, v as int).state_of() is Resolved,
            match instruction {
                StateVarUpdateInstruction::NoChange => final(self).cell(c as int, v as int) == old(self).cell(c as int, v as int),
                StateVarUpdateInstruction::SetValue(x) => final(self).cell(c as int, v as int).state_of() == State::Resolved(x),
                StateVarUpdateInstruction::UseEssentialOrDefault => match old(self).essential(c as int, v as int) {
                    Some(EssentialStateVar::Single(e)) => final(self).cell(c as int, v as int).state_of() == State::Resolved(e),
                    _ => final(self).cell(c as int, v as int).state_of() matches State::Resolved(d)
                        && is_default_value(var_kind(old(self).var_name(c as int, v as int), old(self).type_of(c as int)), d),
                },
            },
    {
        let k = self.slot_of(c, v);
        let ghost before = *self;
        proof {
            assert(self.cells@[k as int] == self.cell(c as int, v as int));
        }
        let new_value = match instruction {
            StateVarUpdateInstruction::NoChange => {
                return;
            },
            StateVarUpdateInstruction::SetValue(x) => x,
            StateVarUpdateInstruction::UseEssentialOrDefault => {
                proof {
                    assert(self.essentials@[k as int] == self.essential(c as int, v as int));
                }
                match &self.essentials[k] {
                    Some(EssentialStateVar::Single(e)) => e.duplicate(),
                    _ => {
                        let names = state_var_names(self.components[c].component_type);
                        default_value(state_var_kind(names[v], self.components[c].component_type))
                    },
                }
            },
        };
        let mut cell = self.cells[k].duplicate();
        let set = cell.set_value(new_value);
        self.cells.set(k, cell);
        proof {
            assert forall|c2: int, v2: int| #[trigger] before.valid_var(c2, v2) && (c2 != c || v2 != v)
                implies self.cell(c2, v2) == before.cell(c2, v2) by {
                before.lemma_slots_distinct(c as int, v as int, c2, v2);
            }
            assert(before.same_graph(*self)) by {
                assert forall|x: int| 0 <= x < before.cells@.len() implies (#[trigger] before.cells@[x]).kind_of()
                    == self.cells@[x].kind_of() by {
                    if x != k as int {
                        assert(self.cells@[x] == before.cells@[x]);
                    }
                }
            }
            assert(before.essentials_alike(*self));
            before.lemma_wf_kept(*self);
            assert(self.cells@[k as int] == self.cell(c as int, v as int));
        }
    }
}

/// Whether `names` holds `name`.
pub fn contains_name(names: &Vec<StateVarName>, name: StateVarName) -> (r: bool)
    ensures
        r == names@.contains(name),
{
    let mut i: usize = 0;
    while i < names.len()
        invariant
            i <= names@.len(),
            forall|k: int| 0 <= k < i ==> names@[k] != name,
        decreases names@.len() - i,
    {
        if names[i] == name {
            assert(names@[i as int] == name);
            return true;
        }
        i = i + 1;
    }
    false
}

impl DoenetCore {
    /// What resolution keeps: the graph, the kinds and the essential slots.
    pub open spec fn resolution_frame(self, other: DoenetCore) -> bool {
        &&& other.wf()
        &&& self.same_graph(other)
        &&& self.same_essentials(other)
        &&& self.nodes() == other.nodes()
        &&& self.deps() == other.deps()
    }

    /// Resolving and invalidating change no resolved value: two states with
    /// the same graph and essential values resolve every variable alike.
    pub proof fn lemma_resolution_keeps_values(self, other: DoenetCore)
        requires
            self.resolution_frame(other),
        ensures
            forall|c: int, v: int| #[trigger] self.resolved_value(c, v) == other.resolved_value(c, v),
            forall|c: int, v: int| #[trigger] self.essential(c, v) == other.essential(c, v),
    {
        assert(self.inputs() == other.inputs());
    }

    fn resolve_rec(&mut self, c: usize, v: usize, Ghost(bound): Ghost<int>)
        requires
            old(self).wf(),
            old(self).valid_var(c as int, v as int),
            old(self).rank(c as int, v as int) < bound,
        ensures
            old(self).resolution_frame(*final(self)),
            final(self).cell(c as int, v as int).state_of() matches State::Resolved(x)
                && x.view() == eval(old(self).inputs(), c as int, v as int, bound as nat),
            old(self).resolved_kept(*final(self)),
            old(self).resolve_frame(*final(self)),
            final(self).reads_all_resolved(c as int, v as int),
            forall|s: int, w: int| #[trigger] old(self).valid_var(s, w) && !reaches(old(self).inputs(), c as int, v as int, s, w)
                ==> final(self).cell(s, w) == old(self).cell(s, w),
        decreases bound,
    {
        let ghost start = *self;
        let ghost g = self.inputs();
        let ghost my_rank = self.rank(c as int, v as int);
        let ghost f = my_rank as nat;
        let ty = self.components[c].component_type;
        let names = state_var_names(ty);
        let name = names[v];
        let mut bundle: Vec<Vec<DependencyValue>> = Vec::new();
        let mut i: usize = 0;
        while i < self.dependencies.len()
            invariant
                start.resolution_frame(*self),
                g == self.inputs(),
                self.valid_var(c as int, v as int),
                my_rank == self.rank(c as int, v as int),
                my_rank < bound,
                f == my_rank as nat,
                i <= self.dependencies@.len(),
                bundle_view(bundle@) == bundle_upto(g, c as int, v as int, f, i as int),
                forall|x: int| 0 <= x < i && (#[trigger] self.deps()[x]).component == c && self.deps()[x].state_var == v
                    ==> self.reads_resolved(self.deps()[x]),
                start.resolved_kept(*self),
                start.resolve_frame(*self),
                forall|s: int, w: int| #[trigger] start.valid_var(s, w) && !reaches(start.inputs(), c as int, v as int, s, w)
                    ==> self.cell(s, w) == start.cell(s, w),
            decreases self.dependencies@.len() - i,
        {
            let ghost d = self.dependencies@[i as int];
            if self.dependencies[i].component == c && self.dependencies[i].state_var == v {
                proof {
                    assert(self.dep_wf(self.dependencies@[i as int]));
                }
                let mut values: Vec<DependencyValue> = Vec::new();
                let mut j: usize = 0;
                while j < self.dependencies[i].depends_on_objects.len()
                    invariant
                        start.resolution_frame(*self),
                        g == self.inputs(),
                        self.valid_var(c as int, v as int),
                        my_rank == self.rank(c as int, v as int),
                        my_rank < bound,
                        f == my_rank as nat,
                        i < self.dependencies@.len(),
                        d == self.dependencies@[i as int],
                        d.component == c,
                        d.state_var == v,
                        self.dep_wf(d),
                        j <= d.depends_on_objects@.len(),
                        values_of(values@) == dep_values(g, d, f, j as int),
                forall|x: int| 0 <= x < i && (#[trigger] self.deps()[x]).component == c && self.deps()[x].state_var == v
                    ==> self.reads_resolved(self.deps()[x]),
                start.resolved_kept(*self),
                start.resolve_frame(*self),
                forall|s: int, w: int| #[trigger] start.valid_var(s, w) && !reaches(start.inputs(), c as int, v as int, s, w)
                    ==> self.cell(s, w) == start.cell(s, w),
                        self.reads_resolved_upto(d, j as int),
                    decreases self.dependencies@[i as int].depends_on_objects@.len() - j,
                {
                    let ghost before = values@;
                    let wants_value = contains_name(&self.dependencies[i].depends_on_state_vars, StateVarName::Value);
                    let source: Option<usize> = match &self.dependencies[i].depends_on_objects[j] {
                        ObjectName::Component(src) => Some(*src),
                        ObjectName::String(text) => {
                            if wants_value {
                                values.push(DependencyValue {
                                    source_type: None,
                                    state_var_name: StateVarName::Value,
                                    value: StateVarValue::String(text.clone()),
                                });
                            }
                            None
                        },
                        ObjectName::Primitive(p) => {
                            if wants_value {
                                values.push(DependencyValue {
                                    source_type: None,
                                    state_var_name: StateVarName::Value,
                                    value: p.duplicate(),
                                });
                            }
                            None
                        },
                    };
                    match source {
                        Some(src) => {
                            proof {
                                assert(match d.depends_on_objects@[j as int] {
                                    ObjectName::Component(s) => {
                                        &&& s < self.components@.len()
                                        &&& forall|k: int| 0 <= k < d.depends_on_state_vars@.len()
                                            ==> self.reads_ok(s as int, #[trigger] d.depends_on_state_vars@[k], my_rank)
                                    },
                                    _ => true,
                                });
                                assert(object_values(g, src as int, d.depends_on_state_vars@, f, 0) == Seq::<ValueView>::empty());
                                assert(values_of(values@) =~= dep_values(g, d, f, j as int) + object_values(g, src as int, d.depends_on_state_vars@, f, 0));
                            }
                            let src_ty = self.components[src].component_type;
                            let mut k: usize = 0;
                            while k < self.dependencies[i].depends_on_state_vars.len()
                                invariant
                                    start.resolution_frame(*self),
                                    g == self.inputs(),
                                    self.valid_var(c as int, v as int),
                                    my_rank == self.rank(c as int, v as int),
                                    my_rank < bound,
                                    f == my_rank as nat,
                                    i < self.dependencies@.len(),
                                    d == self.dependencies@[i as int],
                                    d.component == c,
                                    d.state_var == v,
                                    self.dep_wf(d),
                                    j < d.depends_on_objects@.len(),
                                    d.depends_on_objects@[j as int] == ObjectName::Component(src),
                                    src < self.components@.len(),
                                    src_ty == self.type_of(src as int),
                                    forall|y: int| 0 <= y < d.depends_on_state_vars@.len()
                                        ==> self.reads_ok(src as int, #[trigger] d.depends_on_state_vars@[y], my_rank),
                                    k <= d.depends_on_state_vars@.len(),
                                    values_of(values@) == dep_values(g, d, f, j as int) + object_values(g, src as int, d.depends_on_state_vars@, f, k as int),
                forall|x: int| 0 <= x < i && (#[trigger] self.deps()[x]).component == c && self.deps()[x].state_var == v
                    ==> self.reads_resolved(self.deps()[x]),
                start.resolved_kept(*self),
                start.resolve_frame(*self),
                forall|s: int, w: int| #[trigger] start.valid_var(s, w) && !reaches(start.inputs(), c as int, v as int, s, w)
                    ==> self.cell(s, w) == start.cell(s, w),
                                    self.reads_resolved_upto(d, j as int),
                                    forall|y: int, w: int| 0 <= y < k && #[trigger] first_var(src_ty, d.depends_on_state_vars@[y], w)
                                        ==> self.reads_all_resolved(src as int, w),
                                decreases self.dependencies@[i as int].depends_on_state_vars@.len() - k,
                            {
                                let wanted = self.dependencies[i].depends_on_state_vars[k];
                                let ghost vals_before = values@;
                                proof {
                                    assert(self.reads_ok(src as int, d.depends_on_state_vars@[k as int], my_rank));
                                }
                                match state_var_index(src_ty, wanted) {
                                    Some(w) => {
                                        proof {
                                            let cw = choose|x: int| #[trigger] first_var(src_ty, wanted, x);
                                            assert(first_var(src_ty, wanted, cw));
                                            if cw < w {
                                                assert(var_names(src_ty)[cw] != wanted);
                                            }
                                            if w < cw {
                                                assert(var_names(src_ty)[w as int] != wanted);
                                            }
                                            assert(cw == w);
                                        }
                                        let ghost mid2 = *self;
                                        self.resolve_rec(src, w, Ghost(my_rank));
                                        proof {
                                            assert(mid2.wf());
                                            start.lemma_resolved_kept_trans(mid2, *self);
                                            start.lemma_frames_trans(mid2, *self);
                                            assert forall|s2: int, w3: int| #[trigger] start.valid_var(s2, w3)
                                                && !reaches(start.inputs(), c as int, v as int, s2, w3)
                                                implies self.cell(s2, w3) == start.cell(s2, w3) by {
                                                assert(mid2.valid_var(s2, w3));
                                                assert(mid2.cell(s2, w3) == start.cell(s2, w3));
                                                assert(mid2.inputs() == start.inputs());
                                                if reaches(start.inputs(), src as int, w as int, s2, w3) {
                                                    let gg = start.inputs();
                                                    assert(gg.1[i as int] == d);
                                                    assert(first_var(gg.0[src as int].component_type, d.depends_on_state_vars@[k as int], w as int));
                                                    assert(in_rank(gg, src as int, w as int) == start.rank(src as int, w as int));
                                                    assert(in_rank(gg, c as int, v as int) == start.rank(c as int, v as int));
                                                    assert(self.rank(src as int, w as int) < my_rank);
                                                    assert(reaches(gg, c as int, v as int, s2, w3));
                                                }
                                            }
                                            assert forall|x: int| 0 <= x < i && (#[trigger] self.deps()[x]).component == c
                                                && self.deps()[x].state_var == v implies self.reads_resolved(self.deps()[x]) by {
                                                mid2.lemma_reads_resolved_kept(*self, mid2.deps()[x], mid2.deps()[x].depends_on_objects@.len() as int);
                                            }
                                            mid2.lemma_reads_resolved_kept(*self, d, j as int);
                                            assert forall|y: int, w2: int| 0 <= y < k + 1 && #[trigger] first_var(src_ty, d.depends_on_state_vars@[y], w2)
                                                implies self.reads_all_resolved(src as int, w2) by {
                                                if y < k {
                                                    mid2.lemma_cell_resolved_kept(*self, src as int, w2);
                                                } else {
                                                    if w2 < w {
                                                        assert(var_names(src_ty)[w2] != wanted);
                                                    }
                                                    if w < w2 {
                                                        assert(var_names(src_ty)[w as int] != wanted);
                                                    }
                                                }
                                            }
                                        }
                                        let state = self.get_state(src, w);
                                        match state {
                                            State::Resolved(value) => {
                                                values.push(DependencyValue {
                                                    source_type: Some(src_ty),
                                                    state_var_name: wanted,
                                                    value,
                                                });
                                            },
                                            State::Stale => {},
                                        }
                                        proof {
                                            assert(values_of(values@) =~= values_of(vals_before).push(eval(g, src as int, w as int, f)));
                                            assert(values_of(values@) =~= dep_values(g, d, f, j as int) + object_values(g, src as int, d.depends_on_state_vars@, f, k + 1));
                                        }
                                    },
                                    None => {
                                        proof {
                                            assert(values_of(values@) =~= dep_values(g, d, f, j as int) + object_values(g, src as int, d.depends_on_state_vars@, f, k + 1));
                                            assert forall|y: int, w2: int| 0 <= y < k + 1 && #[trigger] first_var(src_ty, d.depends_on_state_vars@[y], w2)
                                                implies self.reads_all_resolved(src as int, w2) by {
                                                if y == k {
                                                    assert(var_names(src_ty)[w2] == wanted);
                                                }
                                            }
                                        }
                                    },
                                }
                                k = k + 1;
                            }
                            proof {
                                assert(values_of(values@) =~= dep_values(g, d, f, j + 1));
                                assert forall|jj: int, kk: int, w: int| 0 <= jj < j + 1 && 0 <= kk < d.depends_on_state_vars@.len()
                                    && (#[trigger] d.depends_on_objects@[jj]) is Component
                                    && d.depends_on_objects@[jj]->Component_0 < self.nodes().len()
                                    && #[trigger] first_var(self.type_of(d.depends_on_objects@[jj]->Component_0 as int), d.depends_on_state_vars@[kk], w)
                                    implies self.reads_all_resolved(d.depends_on_objects@[jj]->Component_0 as int, w) by {
                                    if jj == j {
                                        assert(first_var(src_ty, d.depends_on_state_vars@[kk], w));
                                    }
                                }
                            }
                        },
                        None => {
                            proof {
                                assert(values_of(values@) =~= dep_values(g, d, f, j + 1));
                                assert forall|jj: int, kk: int, w: int| 0 <= jj < j + 1 && 0 <= kk < d.depends_on_state_vars@.len()
                                    && (#[trigger] d.depends_on_objects@[jj]) is Component
                                    && d.depends_on_objects@[jj]->Component_0 < self.nodes().len()
                                    && #[trigger] first_var(self.type_of(d.depends_on_objects@[jj]->Component_0 as int), d.depends_on_state_vars@[kk], w)
                                    implies self.reads_all_resolved(d.depends_on_objects@[jj]->Component_0 as int, w) by {
                                }
                            }
                        },
                    }
                    j = j + 1;
                }
                let ghost bundle_before = bundle@;
                bundle.push(values);
                proof {
                    assert(bundle_view(bundle@) =~= bundle_view(bundle_before).push(values_of(bundle@[i as int - i as int + bundle_before.len() as int]@)));
                    assert(bundle_view(bundle@) =~= bundle_upto(g, c as int, v as int, f, i + 1));
                }
            } else {
                proof {
                    assert(bundle_view(bundle@) =~= bundle_upto(g, c as int, v as int, f, i + 1));
                }
            }
            i = i + 1;
        }
        let instruction = determine_state_var_from_dependencies(ty, name, &bundle);
        let ghost before_update = *self;
        self.handle_update_instruction(c, v, instruction);
        proof {
            start.lemma_resolved_kept_trans(before_update, *self);
            start.lemma_frames_trans(before_update, *self);
            assert forall|s2: int, w3: int| #[trigger] start.valid_var(s2, w3)
                && !reaches(start.inputs(), c as int, v as int, s2, w3)
                implies self.cell(s2, w3) == start.cell(s2, w3) by {
                assert(before_update.valid_var(s2, w3));
                assert(before_update.cell(s2, w3) == start.cell(s2, w3));
                assert(reaches(start.inputs(), c as int, v as int, c as int, v as int));
            }
            assert forall|x: int| 0 <= x < self.deps().len() && (#[trigger] self.deps()[x]).component == c
                && self.deps()[x].state_var == v implies self.reads_resolved(self.deps()[x]) by {
                before_update.lemma_reads_resolved_kept(*self, before_update.deps()[x], before_update.deps()[x].depends_on_objects@.len() as int);
            }
            assert forall|i: int, j: int, k: int, w: int| 0 <= i < self.deps().len()
                && (#[trigger] self.deps()[i]).component == c && self.deps()[i].state_var == v
                && 0 <= j < self.deps()[i].depends_on_objects@.len()
                && (#[trigger] self.deps()[i].depends_on_objects@[j]) is Component
                && self.deps()[i].depends_on_objects@[j]->Component_0 < self.nodes().len()
                && 0 <= k < self.deps()[i].depends_on_state_vars@.len()
                && #[trigger] first_var(self.type_of(self.deps()[i].depends_on_objects@[j]->Component_0 as int),
                    self.deps()[i].depends_on_state_vars@[k], w)
                && 0 <= self.rank(self.deps()[i].depends_on_objects@[j]->Component_0 as int, w) < self.rank(c as int, v as int)
                implies self.reads_all_resolved(self.deps()[i].depends_on_objects@[j]->Component_0 as int, w) by {
                assert(self.reads_resolved(self.deps()[i]));
            }
            assert(bundle_view(bundle@) == bundle_upto(g, c as int, v as int, f, g.1.len() as int));
            assert(self.cells@[self.slot(c as int, v as int)] == self.cell(c as int, v as int));
            assert(before_update.essential(c as int, v as int) == g.4[g.2[c as int] + v]);
            match self.cell(c as int, v as int).state_of() {
                State::Resolved(x) => {
                    match x {
                        StateVarValue::String(t) => {
                            if t@.len() == 0 {
                                assert(t@ =~= Seq::<char>::empty());
                            }
                        },
                        _ => {},
                    }
                },
                _ => {},
            }
        }
    }

    /// Resolves variable `v` of component `c`: every variable it depends on
    /// is resolved first, then its determination is applied. Afterwards the
    /// variable is resolved; the graph, the kinds of all cells and the
    /// essential slots are as they were.
    pub fn resolve_state_variable(&mut self, c: usize, v: usize)
        requires
            old(self).wf(),
            old(self).valid_var(c as int, v as int),
        ensures
            old(self).resolution_frame(*final(self)),
            final(self).cell(c as int, v as int).state_of() matches State::Resolved(x)
                && x.view() == old(self).resolved_value(c as int, v as int),
            old(self).resolved_kept(*final(self)),
            old(self).resolve_frame(*final(self)),
            final(self).reads_all_resolved(c as int, v as int),
            forall|s: int, w: int| #[trigger] old(self).valid_var(s, w) && !reaches(old(self).inputs(), c as int, v as int, s, w)
                ==> final(self).cell(s, w) == old(self).cell(s, w),
    {
        let ghost r = self.rank(c as int, v as int);
        self.resolve_rec(c, v, Ghost(r + 1));
    }
}

impl DoenetCore {
    /// Every cell that is stale in `self` is stale in `other`.
    pub closed spec fn stale_kept(self, other: DoenetCore) -> bool {
        forall|k: int| 0 <= k < self.cells@.len() && (#[trigger] self.cells@[k]).state_of() is Stale
            ==> other.cells@[k].state_of() is Stale
    }

    /// Variable `v` of component `c` is stale, and so is everything it reads
    /// through its dependencies, transitively along the read edges.
    pub open spec fn reads_all_stale(self, c: int, v: int) -> bool
        decreases self.rank(c, v),
    {
        &&& self.cell(c, v).state_of() is Stale
        &&& forall|i: int, j: int, k: int, w: int| 0 <= i < self.deps().len()
            && (#[trigger] self.deps()[i]).component == c && self.deps()[i].state_var == v
            && 0 <= j < self.deps()[i].depends_on_objects@.len()
            && (#[trigger] self.deps()[i].depends_on_objects@[j]) is Component
            && self.deps()[i].depends_on_objects@[j]->Component_0 < self.nodes().len()
            && 0 <= k < self.deps()[i].depends_on_state_vars@.len()
            && #[trigger] first_var(self.type_of(self.deps()[i].depends_on_objects@[j]->Component_0 as int),
                self.deps()[i].depends_on_state_vars@[k], w)
            && 0 <= self.rank(self.deps()[i].depends_on_objects@[j]->Component_0 as int, w) < self.rank(c, v)
            ==> self.reads_all_stale(self.deps()[i].depends_on_objects@[j]->Component_0 as int, w)
    }

    /// In a well-formed document every variable that a dependency reads ranks
    /// below the variable that owns it, so the rank condition in
    /// `reads_all_stale` always holds.
    pub proof fn lemma_reads_rank_below(self, i: int, j: int, k: int, w: int)
        requires
            self.wf(),
            0 <= i < self.deps().len(),
            0 <= j < self.deps()[i].depends_on_objects@.len(),
            self.deps()[i].depends_on_objects@[j] is Component,
            0 <= k < self.deps()[i].depends_on_state_vars@.len(),
            first_var(self.type_of(self.deps()[i].depends_on_objects@[j]->Component_0 as int), self.deps()[i].depends_on_state_vars@[k], w),
        ensures
            self.deps()[i].depends_on_objects@[j]->Component_0 < self.nodes().len(),
            0 <= self.rank(self.deps()[i].depends_on_objects@[j]->Component_0 as int, w)
                < self.rank(self.deps()[i].component as int, self.deps()[i].state_var as int),
    {
        let d = self.deps()[i];
        assert(self.dep_wf(self.dependencies@[i]));
        assert(match d.depends_on_objects@[j] {
            ObjectName::Component(s) => {
                &&& s < self.components@.len()
                &&& forall|kk: int| 0 <= kk < d.depends_on_state_vars@.len() ==> self.reads_ok(
                    s as int,
                    #[trigger] d.depends_on_state_vars@[kk],
                    self.rank(d.component as int, d.state_var as int),
                )
            },
            _ => true,
        });
        assert(self.reads_ok(d.depends_on_objects@[j]->Component_0 as int, d.depends_on_state_vars@[k],
            self.rank(d.component as int, d.state_var as int)));
    }

    /// Every variable that dependency `d` reads from a component is stale.
    pub open spec fn reads_stale(self, d: Dependency) -> bool {
        self.reads_stale_upto(d, d.depends_on_objects@.len() as int)
    }

    /// Every variable that the first `n` sources of `d` give is stale.
    pub open spec fn reads_stale_upto(self, d: Dependency, n: int) -> bool {
        forall|j: int, k: int, w: int| 0 <= j < n && 0 <= k < d.depends_on_state_vars@.len()
            && (#[trigger] d.depends_on_objects@[j]) is Component
            && d.depends_on_objects@[j]->Component_0 < self.nodes().len()
            && #[trigger] first_var(self.type_of(d.depends_on_objects@[j]->Component_0 as int), d.depends_on_state_vars@[k], w)
            ==> self.reads_all_stale(d.depends_on_objects@[j]->Component_0 as int, w)
    }

    proof fn lemma_cell_stale_kept(self, b: DoenetCore, s: int, w: int)
        requires
            self.wf(),
            self.same_graph(b),
            self.stale_kept(b),
            self.valid_var(s, w),
            self.reads_all_stale(s, w),
        ensures
            b.reads_all_stale(s, w),
        decreases self.rank(s, w),
    {
        assert(self.cells@[self.slot(s, w)] == self.cell(s, w));
        assert(b.deps() == self.deps());
        assert(b.nodes() == self.nodes());
        assert forall|i: int, j: int, k: int, x: int| 0 <= i < b.deps().len()
            && (#[trigger] b.deps()[i]).component == s && b.deps()[i].state_var == w
            && 0 <= j < b.deps()[i].depends_on_objects@.len()
            && (#[trigger] b.deps()[i].depends_on_objects@[j]) is Component
            && b.deps()[i].depends_on_objects@[j]->Component_0 < b.nodes().len()
            && 0 <= k < b.deps()[i].depends_on_state_vars@.len()
            && #[trigger] first_var(b.type_of(b.deps()[i].depends_on_objects@[j]->Component_0 as int),
                b.deps()[i].depends_on_state_vars@[k], x)
            && 0 <= b.rank(b.deps()[i].depends_on_objects@[j]->Component_0 as int, x) < b.rank(s, w)
            implies b.reads_all_stale(b.deps()[i].depends_on_objects@[j]->Component_0 as int, x) by {
            let t = b.deps()[i].depends_on_objects@[j]->Component_0 as int;
            assert(self.rank(t, x) == b.rank(t, x));
            self.lemma_cell_stale_kept(b, t, x);
        }
    }

    proof fn lemma_reads_stale_kept(self, b: DoenetCore, d: Dependency, n: int)
        requires
            self.wf(),
            self.same_graph(b),
            self.stale_kept(b),
            self.reads_stale_upto(d, n),
        ensures
            b.reads_stale_upto(d, n),
    {
        assert forall|j: int, k: int, w: int| 0 <= j < n && 0 <= k < d.depends_on_state_vars@.len()
            && (#[trigger] d.depends_on_objects@[j]) is Component
            && d.depends_on_objects@[j]->Component_0 < b.nodes().len()
            && #[trigger] first_var(b.type_of(d.depends_on_objects@[j]->Component_0 as int), d.depends_on_state_vars@[k], w)
            implies b.reads_all_stale(d.depends_on_objects@[j]->Component_0 as int, w) by {
            assert(b.nodes() == self.nodes());
            self.lemma_cell_stale_kept(b, d.depends_on_objects@[j]->Component_0 as int, w);
        }
    }

    /// Variable `v` of component `c` is resolved, and so is everything it reads
    /// through its dependencies, transitively along the read edges.
    pub open spec fn reads_all_resolved(self, c: int, v: int) -> bool
        decreases self.rank(c, v),
    {
        &&& self.cell(c, v).state_of() is Resolved
        &&& forall|i: int, j: int, k: int, w: int| 0 <= i < self.deps().len()
            && (#[trigger] self.deps()[i]).component == c && self.deps()[i].state_var == v
            && 0 <= j < self.deps()[i].depends_on_objects@.len()
            && (#[trigger] self.deps()[i].depends_on_objects@[j]) is Component
            && self.deps()[i].depends_on_objects@[j]->Component_0 < self.nodes().len()
            && 0 <= k < self.deps()[i].depends_on_state_vars@.len()
            && #[trigger] first_var(self.type_of(self.deps()[i].depends_on_objects@[j]->Component_0 as int),
                self.deps()[i].depends_on_state_vars@[k], w)
            && 0 <= self.rank(self.deps()[i].depends_on_objects@[j]->Component_0 as int, w) < self.rank(c, v)
            ==> self.reads_all_resolved(self.deps()[i].depends_on_objects@[j]->Component_0 as int, w)
    }

    /// Every variable that dependency `d` reads from a component is resolved.
    pub open spec fn reads_resolved(self, d: Dependency) -> bool {
        self.reads_resolved_upto(d, d.depends_on_objects@.len() as int)
    }

    /// Every variable that the first `n` sources of `d` give is resolved.
    pub open spec fn reads_resolved_upto(self, d: Dependency, n: int) -> bool {
        forall|j: int, k: int, w: int| 0 <= j < n && 0 <= k < d.depends_on_state_vars@.len()
            && (#[trigger] d.depends_on_objects@[j]) is Component
            && d.depends_on_objects@[j]->Component_0 < self.nodes().len()
            && #[trigger] first_var(self.type_of(d.depends_on_objects@[j]->Component_0 as int), d.depends_on_state_vars@[k], w)
            ==> self.reads_all_resolved(d.depends_on_objects@[j]->Component_0 as int, w)
    }

    proof fn lemma_cell_resolved_kept(self, b: DoenetCore, s: int, w: int)
        requires
            self.wf(),
            self.same_graph(b),
            self.resolved_kept(b),
            self.valid_var(s, w),
            self.reads_all_resolved(s, w),
        ensures
            b.reads_all_resolved(s, w),
        decreases self.rank(s, w),
    {
        assert(self.cells@[self.slot(s, w)] == self.cell(s, w));
        assert(b.deps() == self.deps());
        assert(b.nodes() == self.nodes());
        assert forall|i: int, j: int, k: int, x: int| 0 <= i < b.deps().len()
            && (#[trigger] b.deps()[i]).component == s && b.deps()[i].state_var == w
            && 0 <= j < b.deps()[i].depends_on_objects@.len()
            && (#[trigger] b.deps()[i].depends_on_objects@[j]) is Component
            && b.deps()[i].depends_on_objects@[j]->Component_0 < b.nodes().len()
            && 0 <= k < b.deps()[i].depends_on_state_vars@.len()
            && #[trigger] first_var(b.type_of(b.deps()[i].depends_on_objects@[j]->Component_0 as int),
                b.deps()[i].depends_on_state_vars@[k], x)
            && 0 <= b.rank(b.deps()[i].depends_on_objects@[j]->Component_0 as int, x) < b.rank(s, w)
            implies b.reads_all_resolved(b.deps()[i].depends_on_objects@[j]->Component_0 as int, x) by {
            let t = b.deps()[i].depends_on_objects@[j]->Component_0 as int;
            assert(self.rank(t, x) == b.rank(t, x));
            self.lemma_cell_resolved_kept(b, t, x);
        }
    }

    proof fn lemma_reads_resolved_kept(self, b: DoenetCore, d: Dependency, n: int)
        requires
            self.wf(),
            self.same_graph(b),
            self.resolved_kept(b),
            self.reads_resolved_upto(d, n),
        ensures
            b.reads_resolved_upto(d, n),
    {
        assert forall|j: int, k: int, w: int| 0 <= j < n && 0 <= k < d.depends_on_state_vars@.len()
            && (#[trigger] d.depends_on_objects@[j]) is Component
            && d.depends_on_objects@[j]->Component_0 < b.nodes().len()
            && #[trigger] first_var(b.type_of(d.depends_on_objects@[j]->Component_0 as int), d.depends_on_state_vars@[k], w)
            implies b.reads_all_resolved(d.depends_on_objects@[j]->Component_0 as int, w) by {
            assert(b.nodes() == self.nodes());
            self.lemma_cell_resolved_kept(b, d.depends_on_objects@[j]->Component_0 as int, w);
        }
    }

    proof fn lemma_resolved_kept_trans(self, b: DoenetCore, c: DoenetCore)
        requires
            self.resolved_kept(b),
            b.resolved_kept(c),
            self.cells@.len() == b.cells@.len(),
        ensures
            self.resolved_kept(c),
    {
        assert forall|k: int| 0 <= k < self.cells@.len() && (#[trigger] self.cells@[k]).state_of() is Resolved
            implies c.cells@[k].state_of() is Resolved by {
            assert(b.cells@[k].state_of() is Resolved);
        }
    }

    /// Invalidation's frame: a stale cell is left exactly as it was, and any
    /// other cell is either left as it was or made stale.
    pub closed spec fn stale_frame(self, other: DoenetCore) -> bool {
        forall|k: int| 0 <= k < self.cells@.len() ==> {
            &&& ((#[trigger] self.cells@[k]).state_of() is Stale ==> other.cells@[k] == self.cells@[k])
            &&& (other.cells@[k] == self.cells@[k] || other.cells@[k].state_of() is Stale)
        }
    }

    /// Resolution's frame: every cell is either left as it was or holds a
    /// resolved value.
    pub closed spec fn resolve_frame(self, other: DoenetCore) -> bool {
        forall|k: int| 0 <= k < self.cells@.len() ==>
            other.cells@[k] == (#[trigger] self.cells@[k]) || other.cells@[k].state_of() is Resolved
    }

    /// What the frames of the operations say, cell by cell: the graph, the
    /// components and the kinds are kept; essential slots are equal or keep
    /// their kind; resolution only writes resolved values and keeps resolved
    /// cells resolved; invalidation leaves stale cells as they were, only
    /// writes stale ones, and keeps stale cells stale.
    pub proof fn lemma_frames_in_cells(self, b: DoenetCore)
        requires
            self.wf(),
            self.same_graph(b),
        ensures
            self.nodes() == b.nodes(),
            self.deps() == b.deps(),
            forall|c: int, v: int| self.valid_var(c, v) ==> b.valid_var(c, v) && self.rank(c, v) == b.rank(c, v)
                && (#[trigger] b.cell(c, v)).kind_of() == self.cell(c, v).kind_of(),
            self.same_essentials(b) ==> forall|c: int, v: int| #[trigger] b.essential(c, v) == self.essential(c, v),
            self.essentials_alike(b) ==> forall|c: int, v: int| self.valid_var(c, v) ==> (#[trigger] b.essential(c, v)
                == self.essential(c, v) || (b.essential(c, v) matches Some(EssentialStateVar::Single(y))
                    && self.essential(c, v) matches Some(EssentialStateVar::Single(x)) && x.kind_of() == y.kind_of())),
            self.resolve_frame(b) ==> forall|c: int, v: int| self.valid_var(c, v) ==> (#[trigger] b.cell(c, v)
                == self.cell(c, v) || b.cell(c, v).state_of() is Resolved),
            self.resolved_kept(b) ==> forall|c: int, v: int| self.valid_var(c, v) && self.cell(c, v).state_of() is Resolved
                ==> (#[trigger] b.cell(c, v)).state_of() is Resolved,
            self.stale_frame(b) ==> forall|c: int, v: int| self.valid_var(c, v) ==> {
                &&& (self.cell(c, v).state_of() is Stale ==> #[trigger] b.cell(c, v) == self.cell(c, v))
                &&& (b.cell(c, v) == self.cell(c, v) || b.cell(c, v).state_of() is Stale)
            },
            self.stale_kept(b) ==> forall|c: int, v: int| self.valid_var(c, v) && self.cell(c, v).state_of() is Stale
                ==> (#[trigger] b.cell(c, v)).state_of() is Stale,
    {
        assert forall|c: int, v: int| self.valid_var(c, v) implies b.valid_var(c, v) && self.rank(c, v) == b.rank(c, v)
            && (#[trigger] b.cell(c, v)).kind_of() == self.cell(c, v).kind_of() by {
            assert(self.cells@[self.slot(c, v)].kind_of() == b.cells@[self.slot(c, v)].kind_of());
        }
        if self.essentials_alike(b) {
            assert forall|c: int, v: int| self.valid_var(c, v) implies (#[trigger] b.essential(c, v)
                == self.essential(c, v) || (b.essential(c, v) matches Some(EssentialStateVar::Single(y))
                    && self.essential(c, v) matches Some(EssentialStateVar::Single(x)) && x.kind_of() == y.kind_of())) by {
                let k = self.slot(c, v);
                assert(self.essentials@[k] == b.essentials@[k] || match (self.essentials@[k], b.essentials@[k]) {
                    (Some(EssentialStateVar::Single(x)), Some(EssentialStateVar::Single(y))) => x.kind_of() == y.kind_of(),
                    _ => false,
                });
            }
        }
        if self.resolve_frame(b) {
            assert forall|c: int, v: int| self.valid_var(c, v) implies (#[trigger] b.cell(c, v)
                == self.cell(c, v) || b.cell(c, v).state_of() is Resolved) by {
                assert(b.cells@[self.slot(c, v)] == self.cells@[self.slot(c, v)] || b.cells@[self.slot(c, v)].state_of() is Resolved);
            }
        }
        if self.resolved_kept(b) {
            assert forall|c: int, v: int| self.valid_var(c, v) && self.cell(c, v).state_of() is Resolved
                implies (#[trigger] b.cell(c, v)).state_of() is Resolved by {
                assert(self.cells@[self.slot(c, v)].state_of() is Resolved);
            }
        }
        if self.stale_frame(b) {
            assert forall|c: int, v: int| self.valid_var(c, v) implies {
                &&& (self.cell(c, v).state_of() is Stale ==> #[trigger] b.cell(c, v) == self.cell(c, v))
                &&& (b.cell(c, v) == self.cell(c, v) || b.cell(c, v).state_of() is Stale)
            } by {
                let k = self.slot(c, v);
                assert(self.cells@[k] == self.cell(c, v));
                assert((self.cells@[k].state_of() is Stale ==> b.cells@[k] == self.cells@[k])
                    && (b.cells@[k] == self.cells@[k] || b.cells@[k].state_of() is Stale));
            }
        }
        if self.stale_kept(b) {
            assert forall|c: int, v: int| self.valid_var(c, v) && self.cell(c, v).state_of() is Stale
                implies (#[trigger] b.cell(c, v)).state_of() is Stale by {
                assert(self.cells@[self.slot(c, v)].state_of() is Stale);
            }
        }
    }

    proof fn lemma_frames_trans(self, b: DoenetCore, c: DoenetCore)
        requires
            self.cells@.len() == b.cells@.len(),
        ensures
            self.stale_frame(b) && b.stale_frame(c) ==> self.stale_frame(c),
            self.resolve_frame(b) && b.resolve_frame(c) ==> self.resolve_frame(c),
    {
        if self.stale_frame(b) && b.stale_frame(c) {
            assert forall|k: int| 0 <= k < self.cells@.len() implies {
                &&& ((#[trigger] self.cells@[k]).state_of() is Stale ==> c.cells@[k] == self.cells@[k])
                &&& (c.cells@[k] == self.cells@[k] || c.cells@[k].state_of() is Stale)
            } by {
                assert(b.cells@[k] == self.cells@[k] || b.cells@[k].state_of() is Stale);
                assert(b.cells@[k].state_of() is Stale ==> c.cells@[k] == b.cells@[k]);
            }
        }
        if self.resolve_frame(b) && b.resolve_frame(c) {
            assert forall|k: int| 0 <= k < self.cells@.len() implies
                c.cells@[k] == (#[trigger] self.cells@[k]) || c.cells@[k].state_of() is Resolved by {
                assert(b.cells@[k] == self.cells@[k] || b.cells@[k].state_of() is Resolved);
                assert(c.cells@[k] == b.cells@[k] || c.cells@[k].state_of() is Resolved);
            }
        }
    }

    /// Every cell that is resolved in `self` is resolved in `other`.
    pub closed spec fn resolved_kept(self, other: DoenetCore) -> bool {
        forall|k: int| 0 <= k < self.cells@.len() && (#[trigger] self.cells@[k]).state_of() is Resolved
            ==> other.cells@[k].state_of() is Resolved
    }

    /// Marks one cell stale.
    fn mark_cell_stale(&mut self, c: usize, v: usize)
        requires
            old(self).wf(),
            old(self).valid_var(c as int, v as int),
        ensures
            old(self).resolution_frame(*final(self)),
            old(self).stale_kept(*final(self)),
            old(self).stale_frame(*final(self)),
            final(self).cell(c as int, v as int).state_of() is Stale,
            forall|c2: int, v2: int| #[trigger] old(self).valid_var(c2, v2) && (c2 != c || v2 != v)
                ==> final(self).cell(c2, v2) == old(self).cell(c2, v2),
    {
        let ghost before = *self;
        let k = self.slot_of(c, v);
        let mut cell = self.cells[k].duplicate();
        cell.mark_stale();
        self.cells.set(k, cell);
        proof {
            assert forall|c2: int, v2: int| #[trigger] before.valid_var(c2, v2) && (c2 != c || v2 != v)
                implies self.cell(c2, v2) == before.cell(c2, v2) by {
                before.lemma_slots_distinct(c as int, v as int, c2, v2);
            }
            assert forall|x: int| 0 <= x < before.cells@.len() implies (#[trigger] before.cells@[x]).kind_of()
                == self.cells@[x].kind_of() by {
                if x != k as int {
                    assert(self.cells@[x] == before.cells@[x]);
                }
            }
            assert(before.essentials_alike(*self));
            before.lemma_wf_kept(*self);
        }
    }

    fn mark_stale_rec(&mut self, c: usize, v: usize, Ghost(bound): Ghost<int>)
        requires
            old(self).wf(),
            old(self).valid_var(c as int, v as int),
            old(self).rank(c as int, v as int) < bound,
        ensures
            old(self).resolution_frame(*final(self)),
            old(self).stale_kept(*final(self)),
            old(self).stale_frame(*final(self)),
            final(self).cell(c as int, v as int).state_of() is Stale,
            forall|i: int| 0 <= i < old(self).deps().len() && (#[trigger] old(self).deps()[i]).component == c
                && old(self).deps()[i].state_var == v ==> final(self).reads_stale(old(self).deps()[i]),
            final(self).reads_all_stale(c as int, v as int),
            forall|s: int, w: int| #[trigger] old(self).valid_var(s, w) && !reaches(old(self).inputs(), c as int, v as int, s, w)
                ==> final(self).cell(s, w) == old(self).cell(s, w),
        decreases bound,
    {
        let ghost start = *self;
        let ghost my_rank = self.rank(c as int, v as int);
        self.mark_cell_stale(c, v);
        let ghost marked = *self;
        let mut i: usize = 0;
        while i < self.dependencies.len()
            invariant
                start.resolution_frame(*self),
                marked.stale_kept(*self),
                marked.stale_frame(*self),
                start.stale_frame(marked),
                start.inputs() == self.inputs(),
                forall|s: int, w: int| #[trigger] start.valid_var(s, w) && !reaches(start.inputs(), c as int, v as int, s, w)
                    ==> self.cell(s, w) == start.cell(s, w),
                marked.cell(c as int, v as int).state_of() is Stale,
                start.same_graph(marked),
                start.stale_kept(marked),
                marked.wf(),
                marked.same_graph(*self),
                self.valid_var(c as int, v as int),
                my_rank == self.rank(c as int, v as int),
                my_rank < bound,
                i <= self.dependencies@.len(),
                forall|x: int| 0 <= x < i && (#[trigger] self.deps()[x]).component == c && self.deps()[x].state_var == v
                    ==> self.reads_stale(self.deps()[x]),
            decreases self.dependencies@.len() - i,
        {
            let ghost d = self.dependencies@[i as int];
            if self.dependencies[i].component == c && self.dependencies[i].state_var == v {
                proof {
                    assert(self.dep_wf(self.dependencies@[i as int]));
                }
                let mut j: usize = 0;
                while j < self.dependencies[i].depends_on_objects.len()
                    invariant
                        start.resolution_frame(*self),
                        marked.stale_kept(*self),
                        marked.stale_frame(*self),
                        start.stale_frame(marked),
                start.inputs() == self.inputs(),
                forall|s: int, w: int| #[trigger] start.valid_var(s, w) && !reaches(start.inputs(), c as int, v as int, s, w)
                    ==> self.cell(s, w) == start.cell(s, w),
                marked.stale_frame(*self),
                start.stale_frame(marked),
                start.inputs() == self.inputs(),
                forall|s: int, w: int| #[trigger] start.valid_var(s, w) && !reaches(start.inputs(), c as int, v as int, s, w)
                    ==> self.cell(s, w) == start.cell(s, w),
                        marked.cell(c as int, v as int).state_of() is Stale,
                        start.same_graph(marked),
                        start.stale_kept(marked),
                        marked.wf(),
                        marked.same_graph(*self),
                        self.valid_var(c as int, v as int),
                        my_rank == self.rank(c as int, v as int),
                        my_rank < bound,
                        i < self.dependencies@.len(),
                        d == self.dependencies@[i as int],
                        d.component == c,
                        d.state_var == v,
                        self.dep_wf(d),
                        j <= d.depends_on_objects@.len(),
                        forall|x: int| 0 <= x < i && (#[trigger] self.deps()[x]).component == c && self.deps()[x].state_var == v
                            ==> self.reads_stale(self.deps()[x]),
                        self.reads_stale_upto(d, j as int),
                    decreases self.dependencies@[i as int].depends_on_objects@.len() - j,
                {
                    let source: Option<usize> = match &self.dependencies[i].depends_on_objects[j] {
                        ObjectName::Component(src) => Some(*src),
                        _ => None,
                    };
                    match source {
                        Some(src) => {
                            proof {
                                assert(match d.depends_on_objects@[j as int] {
                                    ObjectName::Component(s) => {
                                        &&& s < self.components@.len()
                                        &&& forall|k: int| 0 <= k < d.depends_on_state_vars@.len()
                                            ==> self.reads_ok(s as int, #[trigger] d.depends_on_state_vars@[k], my_rank)
                                    },
                                    _ => true,
                                });
                            }
                            let src_ty = self.components[src].component_type;
                            let mut k: usize = 0;
                            while k < self.dependencies[i].depends_on_state_vars.len()
                                invariant
                                    start.resolution_frame(*self),
                                    marked.stale_kept(*self),
                                    marked.stale_frame(*self),
                                    start.stale_frame(marked),
                start.inputs() == self.inputs(),
                forall|s: int, w: int| #[trigger] start.valid_var(s, w) && !reaches(start.inputs(), c as int, v as int, s, w)
                    ==> self.cell(s, w) == start.cell(s, w),
                        marked.stale_frame(*self),
                        start.stale_frame(marked),
                start.inputs() == self.inputs(),
                forall|s: int, w: int| #[trigger] start.valid_var(s, w) && !reaches(start.inputs(), c as int, v as int, s, w)
                    ==> self.cell(s, w) == start.cell(s, w),
                marked.stale_frame(*self),
                start.stale_frame(marked),
                start.inputs() == self.inputs(),
                forall|s: int, w: int| #[trigger] start.valid_var(s, w) && !reaches(start.inputs(), c as int, v as int, s, w)
                    ==> self.cell(s, w) == start.cell(s, w),
                                    marked.cell(c as int, v as int).state_of() is Stale,
                                    start.same_graph(marked),
                                    start.stale_kept(marked),
                                    marked.wf(),
                                    marked.same_graph(*self),
                                    self.valid_var(c as int, v as int),
                                    my_rank == self.rank(c as int, v as int),
                                    my_rank < bound,
                                    i < self.dependencies@.len(),
                                    d == self.dependencies@[i as int],
                                    d.component == c,
                                    d.state_var == v,
                                    self.dep_wf(d),
                                    j < d.depends_on_objects@.len(),
                                    d.depends_on_objects@[j as int] == ObjectName::Component(src),
                                    src < self.components@.len(),
                                    src_ty == self.type_of(src as int),
                                    forall|y: int| 0 <= y < d.depends_on_state_vars@.len()
                                        ==> self.reads_ok(src as int, #[trigger] d.depends_on_state_vars@[y], my_rank),
                                    k <= d.depends_on_state_vars@.len(),
                                    forall|x: int| 0 <= x < i && (#[trigger] self.deps()[x]).component == c && self.deps()[x].state_var == v
                                        ==> self.reads_stale(self.deps()[x]),
                                    self.reads_stale_upto(d, j as int),
                                    forall|y: int, w: int| 0 <= y < k && #[trigger] first_var(src_ty, d.depends_on_state_vars@[y], w)
                                        ==> self.reads_all_stale(src as int, w),
                                decreases self.dependencies@[i as int].depends_on_state_vars@.len() - k,
                            {
                                let wanted = self.dependencies[i].depends_on_state_vars[k];
                                proof {
                                    assert(self.reads_ok(src as int, d.depends_on_state_vars@[k as int], my_rank));
                                }
                                match state_var_index(src_ty, wanted) {
                                    Some(w) => {
                                        let ghost mid = *self;
                                        self.mark_stale_rec(src, w, Ghost(my_rank));
                                        proof {
                                            marked.lemma_frames_trans(mid, *self);
                                            assert(mid.inputs() == self.inputs());
                                            assert forall|s2: int, w3: int| #[trigger] start.valid_var(s2, w3)
                                                && !reaches(start.inputs(), c as int, v as int, s2, w3)
                                                implies self.cell(s2, w3) == start.cell(s2, w3) by {
                                                assert(mid.valid_var(s2, w3));
                                                assert(mid.cell(s2, w3) == start.cell(s2, w3));
                                                assert(mid.inputs() == start.inputs());
                                                if reaches(start.inputs(), src as int, w as int, s2, w3) {
                                                    let gg = start.inputs();
                                                    assert(gg.1[i as int] == d);
                                                    assert(first_var(gg.0[src as int].component_type, d.depends_on_state_vars@[k as int], w as int));
                                                    assert(in_rank(gg, src as int, w as int) == start.rank(src as int, w as int));
                                                    assert(in_rank(gg, c as int, v as int) == start.rank(c as int, v as int));
                                                    assert(self.rank(src as int, w as int) < my_rank);
                                                    assert(reaches(gg, c as int, v as int, s2, w3));
                                                }
                                            }
                                            assert(mid.wf());
                                            assert forall|x: int| 0 <= x < i && (#[trigger] self.deps()[x]).component == c
                                                && self.deps()[x].state_var == v implies self.reads_stale(self.deps()[x]) by {
                                                mid.lemma_reads_stale_kept(*self, mid.deps()[x], mid.deps()[x].depends_on_objects@.len() as int);
                                            }
                                            mid.lemma_reads_stale_kept(*self, d, j as int);
                                            assert forall|y: int, w2: int| 0 <= y < k + 1 && #[trigger] first_var(src_ty, d.depends_on_state_vars@[y], w2)
                                                implies self.reads_all_stale(src as int, w2) by {
                                                if y < k {
                                                    mid.lemma_cell_stale_kept(*self, src as int, w2);
                                                } else {
                                                    if w2 < w {
                                                        assert(var_names(src_ty)[w2] != wanted);
                                                    }
                                                    if w < w2 {
                                                        assert(var_names(src_ty)[w as int] != wanted);
                                                    }
                                                }
                                            }
                                        }
                                    },
                                    None => {
                                        proof {
                                            assert forall|y: int, w2: int| 0 <= y < k + 1 && #[trigger] first_var(src_ty, d.depends_on_state_vars@[y], w2)
                                                implies self.reads_all_stale(src as int, w2) by {
                                                if y == k {
                                                    assert(var_names(src_ty)[w2] == wanted);
                                                }
                                            }
                                        }
                                    },
                                }
                                k = k + 1;
                            }
                            proof {
                                assert forall|jj: int, kk: int, w: int| 0 <= jj < j + 1 && 0 <= kk < d.depends_on_state_vars@.len()
                                    && (#[trigger] d.depends_on_objects@[jj]) is Component
                                    && d.depends_on_objects@[jj]->Component_0 < self.nodes().len()
                                    && #[trigger] first_var(self.type_of(d.depends_on_objects@[jj]->Component_0 as int), d.depends_on_state_vars@[kk], w)
                                    implies self.cell(d.depends_on_objects@[jj]->Component_0 as int, w).state_of() is Stale by {
                                    if jj == j {
                                        assert(first_var(src_ty, d.depends_on_state_vars@[kk], w));
                                    }
                                }
                            }
                        },
                        None => {
                            proof {
                                assert forall|jj: int, kk: int, w: int| 0 <= jj < j + 1 && 0 <= kk < d.depends_on_state_vars@.len()
                                    && (#[trigger] d.depends_on_objects@[jj]) is Component
                                    && d.depends_on_objects@[jj]->Component_0 < self.nodes().len()
                                    && #[trigger] first_var(self.type_of(d.depends_on_objects@[jj]->Component_0 as int), d.depends_on_state_vars@[kk], w)
                                    implies self.cell(d.depends_on_objects@[jj]->Component_0 as int, w).state_of() is Stale by {
                                }
                            }
                        },
                    }
                    j = j + 1;
                }
            }
            i = i + 1;
        }
        proof {
            assert(marked.cells@[marked.slot(c as int, v as int)] == marked.cell(c as int, v as int));
            assert forall|x: int| 0 <= x < start.cells@.len() && (#[trigger] start.cells@[x]).state_of() is Stale
                implies self.cells@[x].state_of() is Stale by {
                assert(marked.cells@[x].state_of() is Stale);
            }
            assert(start.deps() == self.deps());
            assert(start.nodes() == self.nodes());
            start.lemma_frames_trans(marked, *self);
            assert(self.cell(c as int, v as int).state_of() is Stale) by {
                assert(marked.cells@[marked.slot(c as int, v as int)].state_of() is Stale);
                assert(self.cells@[self.slot(c as int, v as int)] == self.cell(c as int, v as int));
            }
            assert forall|i: int, j: int, k: int, w: int| 0 <= i < self.deps().len()
                && (#[trigger] self.deps()[i]).component == c && self.deps()[i].state_var == v
                && 0 <= j < self.deps()[i].depends_on_objects@.len()
                && (#[trigger] self.deps()[i].depends_on_objects@[j]) is Component
                && self.deps()[i].depends_on_objects@[j]->Component_0 < self.nodes().len()
                && 0 <= k < self.deps()[i].depends_on_state_vars@.len()
                && #[trigger] first_var(self.type_of(self.deps()[i].depends_on_objects@[j]->Component_0 as int),
                    self.deps()[i].depends_on_state_vars@[k], w)
                && 0 <= self.rank(self.deps()[i].depends_on_objects@[j]->Component_0 as int, w) < self.rank(c as int, v as int)
                implies self.reads_all_stale(self.deps()[i].depends_on_objects@[j]->Component_0 as int, w) by {
                assert(self.reads_stale(self.deps()[i]));
            }
        }
    }

    /// Marks variable `v` of component `c` stale, and then, along the edges
    /// that its own dependencies read, every variable it reads from. Cells
    /// that were stale stay stale; the graph, the kinds and the essential
    /// slots are kept.
    pub fn mark_stale_state_var_and_dependencies(&mut self, c: usize, v: usize)
        requires
            old(self).wf(),
            old(self).valid_var(c as int, v as int),
        ensures
            old(self).resolution_frame(*final(self)),
            old(self).stale_kept(*final(self)),
            old(self).stale_frame(*final(self)),
            final(self).cell(c as int, v as int).state_of() is Stale,
            forall|i: int| 0 <= i < old(self).deps().len() && (#[trigger] old(self).deps()[i]).component == c
                && old(self).deps()[i].state_var == v ==> final(self).reads_stale(old(self).deps()[i]),
            final(self).reads_all_stale(c as int, v as int),
            forall|s: int, w: int| #[trigger] old(self).valid_var(s, w) && !reaches(old(self).inputs(), c as int, v as int, s, w)
                ==> final(self).cell(s, w) == old(self).cell(s, w),
    {
        let ghost r = self.rank(c as int, v as int);
        self.mark_stale_rec(c, v, Ghost(r + 1));
    }
}

impl DoenetCore {
    /// What an update keeps: the graph and the kinds of cells and slots.
    pub open spec fn update_frame(self, other: DoenetCore) -> bool {
        &&& other.wf()
        &&& self.same_graph(other)
        &&& self.essentials_alike(other)
        &&& self.nodes() == other.nodes()
        &&& self.deps() == other.deps()
    }

    /// Writes a value to the essential slot of variable `w` of component `c`.
    /// The slot must exist and keep its kind, else nothing changes.
    fn set_essential(&mut self, c: usize, w: usize, value: StateVarValue) -> (r: Result<(), String>)
        requires
            old(self).wf(),
            old(self).valid_var(c as int, w as int),
        ensures
            old(self).update_frame(*final(self)),
            r is Ok <==> (old(self).essential(c as int, w as int) matches Some(EssentialStateVar::Single(e))
                && e.kind_of() == value.kind_of()),
            r is Ok ==> final(self).essential(c as int, w as int) == Some(EssentialStateVar::Single(value)),
            r is Ok ==> final(self).cells == old(self).cells,
            r is Err ==> *final(self) == *old(self),
            forall|c2: int, w2: int| #[trigger] old(self).valid_var(c2, w2) && (c2 != c || w2 != w)
                ==> final(self).essential(c2, w2) == old(self).essential(c2, w2),
    {
        let ghost before = *self;
        let k = self.slot_of(c, w);
        proof {
            assert(self.essentials@[k as int] == self.essential(c as int, w as int));
            assert(self.same_graph(*self));
        }
        let fits = match &self.essentials[k] {
            Some(EssentialStateVar::Single(e)) => e.kind() == value.kind(),
            _ => false,
        };
        if !fits {
            proof {
                assert(before.essentials_alike(*self));
            }
            return Err(String::from_str("the essential value cannot take this value"));
        }
        self.essentials.set(k, Some(EssentialStateVar::Single(value)));
        proof {
            assert forall|c2: int, w2: int| #[trigger] before.valid_var(c2, w2) && (c2 != c || w2 != w)
                implies self.essential(c2, w2) == before.essential(c2, w2) by {
                before.lemma_slots_distinct(c as int, w as int, c2, w2);
            }
            assert(before.same_graph(*self));
            assert forall|x: int| 0 <= x < before.essentials@.len() implies #[trigger] before.essentials@[x] == self.essentials@[x]
                || match (before.essentials@[x], self.essentials@[x]) {
                    (Some(EssentialStateVar::Single(a)), Some(EssentialStateVar::Single(b))) => a.kind_of() == b.kind_of(),
                    _ => false,
                } by {
                if x != k as int {
                    assert(self.essentials@[x] == before.essentials@[x]);
                }
            }
            before.lemma_wf_kept(*self);
            assert(self.essentials@[k as int] == self.essential(c as int, w as int));
        }
        Ok(())
    }

    proof fn lemma_frame_trans(self, b: DoenetCore, c: DoenetCore)
        requires
            self.update_frame(b),
            b.update_frame(c),
        ensures
            self.update_frame(c),
    {
        assert forall|k: int| 0 <= k < self.cells@.len() implies (#[trigger] self.cells@[k]).kind_of() == c.cells@[k].kind_of() by {
            assert(b.cells@[k].kind_of() == c.cells@[k].kind_of());
        }
        assert forall|k: int| 0 <= k < self.essentials@.len() implies #[trigger] self.essentials@[k] == c.essentials@[k]
            || match (self.essentials@[k], c.essentials@[k]) {
                (Some(EssentialStateVar::Single(x)), Some(EssentialStateVar::Single(y))) => x.kind_of() == y.kind_of(),
                _ => false,
            } by {
            assert(b.essentials@[k] == c.essentials@[k] || match (b.essentials@[k], c.essentials@[k]) {
                (Some(EssentialStateVar::Single(x)), Some(EssentialStateVar::Single(y))) => x.kind_of() == y.kind_of(),
                _ => false,
            });
        }
    }

    proof fn lemma_resolution_is_update(self, b: DoenetCore)
        requires
            self.resolution_frame(b),
        ensures
            self.update_frame(b),
    {
    }

    proof fn lemma_frame_refl(self)
        requires
            self.wf(),
        ensures
            self.update_frame(self),
    {
    }

    /// Carries out one update request made for variable `v` (named `name`)
    /// of component `c`: a write to an essential slot, or a value passed
    /// on to another variable, which turns it into requests of its own. Then
    /// `v` is invalidated.
    pub fn process_update_request(&mut self, c: usize, v: usize, name: StateVarName, update_request: UpdateRequest) -> (r: Result<(), String>)
        requires
            old(self).wf(),
            old(self).valid_var(c as int, v as int),
            name == old(self).var_name(c as int, v as int),
            update_request matches UpdateRequest::SetStateVarDependingOnMe(t, _) ==> retarget_depth(t) < retarget_depth(name),
        ensures
            old(self).update_frame(*final(self)),
            update_request is SetEssentialValue && r is Err ==> *final(self) == *old(self),
            update_request is SetEssentialValue ==> forall|c2: int, w2: int| #[trigger] old(self).valid_var(c2, w2)
                && (c2 != c || old(self).var_name(c2, w2) != update_request->SetEssentialValue_0)
                ==> final(self).essential(c2, w2) == old(self).essential(c2, w2),
            update_request matches UpdateRequest::SetEssentialValue(t, x) ==> (r is Ok <==> exists|w: int|
                #[trigger] first_var(old(self).type_of(c as int), t, w)
                && (old(self).essential(c as int, w) matches Some(EssentialStateVar::Single(e)) && e.kind_of() == x.kind_of())),
            update_request matches UpdateRequest::SetStateVarDependingOnMe(t, _)
                && !var_names(old(self).type_of(c as int)).contains(t) ==> r is Err,
            update_request is SetStateVarDependingOnMe && update_request->SetStateVarDependingOnMe_0 == StateVarName::Value
                && var_names(old(self).type_of(c as int)).contains(StateVarName::Value) ==> {
                let t = StateVarName::Value;
                let x = update_request->SetStateVarDependingOnMe_1;
                &&& (r is Ok <==> exists|w: int| #[trigger] first_var(old(self).type_of(c as int), t, w)
                    && (old(self).essential(c as int, w) matches Some(EssentialStateVar::Single(e)) && e.kind_of() == x.kind_of()))
                &&& r is Ok ==> exists|w: int| #[trigger] old(self).valid_var(c as int, w)
                    && old(self).var_name(c as int, w) == t && final(self).essential(c as int, w) == Some(EssentialStateVar::Single(x))
            },
            r is Ok ==> final(self).cell(c as int, v as int).state_of() is Stale,
            r is Ok ==> final(self).reads_all_stale(c as int, v as int),
            update_request is SetStateVarDependingOnMe && update_request->SetStateVarDependingOnMe_0 == StateVarName::Value
                ==> forall|c2: int, w2: int| #[trigger] old(self).valid_var(c2, w2)
                    && (c2 != c || old(self).var_name(c2, w2) != StateVarName::Value)
                    ==> final(self).essential(c2, w2) == old(self).essential(c2, w2),
            r is Ok ==> match update_request {
                UpdateRequest::SetEssentialValue(t, x) => exists|w: int| #[trigger] old(self).valid_var(c as int, w)
                    && old(self).var_name(c as int, w) == t && final(self).essential(c as int, w) == Some(EssentialStateVar::Single(x)),
                _ => true,
            },
        decreases retarget_depth(name),
    {
        let ghost start = *self;
        proof {
            start.lemma_frame_refl();
        }
        let ty = self.components[c].component_type;
        match update_request {
            UpdateRequest::SetEssentialValue(their_name, requested_value) => {
                let w = match state_var_index(ty, their_name) {
                    Some(w) => w,
                    None => {
                        proof {
                            assert forall|w: int| !#[trigger] first_var(ty, their_name, w) by {
                                if first_var(ty, their_name, w) {
                                    assert(var_names(ty)[w] == their_name);
                                }
                            }
                        }
                        return Err(String::from_str("no such state variable"));
                    },
                };
                proof {
                    assert forall|x: int| #[trigger] first_var(ty, their_name, x) implies x == w as int by {
                        if x < w {
                            assert(var_names(ty)[x] != their_name);
                        }
                        if w < x {
                            assert(var_names(ty)[w as int] != their_name);
                        }
                    }
                }
                let ghost x = requested_value;
                let set = self.set_essential(c, w, requested_value);
                if set.is_err() {
                    return Err(String::from_str("the essential value cannot take this value"));
                }
                let ghost written = *self;
                self.mark_stale_state_var_and_dependencies(c, v);
                proof {
                    written.lemma_resolution_keeps_values(*self);
                    written.lemma_resolution_is_update(*self);
                    start.lemma_frame_trans(written, *self);
                    assert(start.valid_var(c as int, w as int));
                    assert(written.essentials == self.essentials);
                }
                Ok(())
            },
            UpdateRequest::SetStateVarDependingOnMe(their_name, requested_value) => {
                let w = match state_var_index(ty, their_name) {
                    Some(w) => w,
                    None => {
                        return Err(String::from_str("no such state variable"));
                    },
                };
                let ghost x = requested_value;
                let requests = request_dependencies_to_update_value(ty, their_name, requested_value);
                let mut k: usize = 0;
                while k < requests.len()
                    invariant
                        start == *old(self),
                        update_request == UpdateRequest::SetStateVarDependingOnMe(their_name, x),
                        ty == start.type_of(c as int),
                        first_var(ty, their_name, w as int),
                        their_name == StateVarName::Value ==> requests@.len() == 1
                            && requests@[0] == UpdateRequest::SetEssentialValue(StateVarName::Value, x),
                        their_name == StateVarName::Value && k == 0 ==> *self == start,
                        their_name == StateVarName::Value ==> forall|c2: int, w2: int| #[trigger] start.valid_var(c2, w2)
                            && (c2 != c || start.var_name(c2, w2) != StateVarName::Value)
                            ==> self.essential(c2, w2) == start.essential(c2, w2),
                        their_name == StateVarName::Value && k == 1 ==> exists|w2: int| #[trigger] start.valid_var(c as int, w2)
                            && start.var_name(c as int, w2) == StateVarName::Value
                            && self.essential(c as int, w2) == Some(EssentialStateVar::Single(x)),
                        k <= requests@.len(),
                        start.update_frame(*self),
                        start.valid_var(c as int, v as int),
                        start.valid_var(c as int, w as int),
                        their_name == start.var_name(c as int, w as int),
                        retarget_depth(their_name) < retarget_depth(name),
                        forall|x: int| 0 <= x < requests@.len() ==> (#[trigger] requests@[x] matches
                            UpdateRequest::SetStateVarDependingOnMe(t, _) ==> retarget_depth(t) < retarget_depth(their_name)),
                    decreases requests@.len() - k,
                {
                    let request = match &requests[k] {
                        UpdateRequest::SetEssentialValue(t, x) => UpdateRequest::SetEssentialValue(*t, x.duplicate()),
                        UpdateRequest::SetStateVarDependingOnMe(t, x) => UpdateRequest::SetStateVarDependingOnMe(*t, x.duplicate()),
                    };
                    let ghost mid = *self;
                    let result = self.process_update_request(c, w, their_name, request);
                    proof {
                        start.lemma_frame_trans(mid, *self);
                        if their_name == StateVarName::Value {
                            assert forall|c2: int, w2: int| #[trigger] start.valid_var(c2, w2)
                                && (c2 != c || start.var_name(c2, w2) != StateVarName::Value)
                                implies self.essential(c2, w2) == start.essential(c2, w2) by {
                                assert(mid.valid_var(c2, w2));
                                assert(mid.var_name(c2, w2) == start.var_name(c2, w2));
                            }
                        }
                    }
                    result?;
                    k = k + 1;
                }
                let ghost mid = *self;
                self.mark_stale_state_var_and_dependencies(c, v);
                proof {
                    mid.lemma_resolution_is_update(*self);
                    start.lemma_frame_trans(mid, *self);
                    mid.lemma_resolution_keeps_values(*self);
                    if their_name == StateVarName::Value {
                        let w2 = choose|w2: int| #[trigger] start.valid_var(c as int, w2)
                            && start.var_name(c as int, w2) == StateVarName::Value
                            && mid.essential(c as int, w2) == Some(EssentialStateVar::Single(x));
                        assert(self.essential(c as int, w2) == mid.essential(c as int, w2));
                        assert(w2 == w as int) by {
                            if w2 < w { assert(var_names(ty)[w2] != their_name); }
                        }
                    }
                }
                Ok(())
            },
        }
    }
}

impl DoenetCore {
    /// The index of the first component named `name`, if any.
    pub fn component_index(&self, name: &String) -> (r: Option<usize>)
        ensures
            r is Some ==> first_named(self.nodes(), name@, r->Some_0 as int),
            r is None ==> forall|i: int| 0 <= i < self.nodes().len() ==> self.nodes()[i].name@ != name@,
    {
        find_component(&self.components, name)
    }

    /// The index of the state variable `name` of component `c`, if its type
    /// has one.
    pub fn state_var_of(&self, c: usize, name: StateVarName) -> (r: Option<usize>)
        requires
            c < self.nodes().len(),
        ensures
            r is Some ==> self.valid_var(c as int, r->Some_0 as int) && self.var_name(c as int, r->Some_0 as int) == name,
            r is None ==> !var_names(self.type_of(c as int)).contains(name),
    {
        state_var_index(self.components[c].component_type, name)
    }

    /// The component at `c`.
    pub fn component(&self, c: usize) -> (r: &ComponentNode)
        requires
            c < self.nodes().len(),
        ensures
            *r == self.nodes()[c as int],
    {
        &self.components[c]
    }

    /// The number of components.
    pub fn len(&self) -> (r: usize)
        ensures
            r == self.nodes().len(),
    {
        self.components.len()
    }

    /// The value in the essential slot of variable `v` of component `c`,
    /// if it has one.
    pub fn essential_value(&self, c: usize, v: usize) -> (r: Option<StateVarValue>)
        requires
            self.wf(),
            self.valid_var(c as int, v as int),
        ensures
            r == match self.essential(c as int, v as int) {
                Some(EssentialStateVar::Single(x)) => Some(x),
                _ => None::<StateVarValue>,
            },
    {
        let k = self.slot_of(c, v);
        match &self.essentials[k] {
            Some(EssentialStateVar::Single(x)) => Some(x.duplicate()),
            _ => None,
        }
    }

    /// The index of the root component.
    pub fn root_index(&self) -> (r: usize)
        ensures
            r == self.root(),
    {
        self.root_component
    }

    /// The dependencies owned by variable `v` of component `c`, in order.
    pub fn dependencies_for_component(&self, c: usize, v: usize) -> (r: Vec<&Dependency>)
        ensures
            r@.len() == owned_upto(self.deps(), c, v, self.deps().len() as int).len(),
            forall|j: int| 0 <= j < r@.len() ==> *(#[trigger] r@[j]) == owned_upto(self.deps(), c, v, self.deps().len() as int)[j],
    {
        let mut r: Vec<&Dependency> = Vec::new();
        let mut i: usize = 0;
        while i < self.dependencies.len()
            invariant
                i <= self.dependencies@.len(),
                r@.len() == owned_upto(self.deps(), c, v, i as int).len(),
                forall|j: int| 0 <= j < r@.len() ==> *(#[trigger] r@[j]) == owned_upto(self.deps(), c, v, i as int)[j],
            decreases self.dependencies@.len() - i,
        {
            let d = &self.dependencies[i];
            let ghost before = owned_upto(self.deps(), c, v, i as int);
            if d.component == c && d.state_var == v {
                r.push(d);
            }
            proof {
                assert(self.deps()[i as int] == *d);
                let after = owned_upto(self.deps(), c, v, i + 1);
                assert forall|j: int| 0 <= j < r@.len() implies *(#[trigger] r@[j]) == after[j] by {
                    if j < before.len() {
                        assert(after[j] == before[j]);
                    }
                }
            }
            i = i + 1;
        }
        r
    }

    /// Handles an action on the component named `component_name`: the type's
    /// action behavior names the variables to update and the values wanted;
    /// each is turned into update requests, which are carried out.
    /// An unknown component or an action that the type refuses fails and
    /// leaves the document as it was.
    pub fn handle_action(&mut self, component_name: &String, action_name: &String, args: &Vec<(String, StateVarValue)>) -> (r: Result<(), String>)
        requires
            old(self).wf(),
        ensures
            old(self).update_frame(*final(self)),
            (forall|i: int| 0 <= i < old(self).nodes().len() ==> old(self).nodes()[i].name@ != component_name@)
                ==> r is Err && *final(self) == *old(self),
            forall|c: int| #[trigger] first_named(old(self).nodes(), component_name@, c)
                && !(old(self).type_of(c) is TextInput && action_name@ == "updateValue"@
                    && exists|i: int| 0 <= i < args@.len() && #[trigger] args@[i].0@ == "value"@ && args@[i].1 is String)
                ==> r is Err && *final(self) == *old(self),
            forall|c: int| #[trigger] first_named(old(self).nodes(), component_name@, c)
                && old(self).type_of(c) is TextInput && action_name@ == "updateValue"@
                && (exists|i: int| 0 <= i < args@.len() && #[trigger] args@[i].0@ == "value"@ && args@[i].1 is String)
                ==> r is Ok && final(self).cell(c, 0).state_of() is Stale && exists|i: int| 0 <= i < args@.len()
                    && #[trigger] args@[i].0@ == "value"@ && final(self).essential(c, 0) == Some(EssentialStateVar::Single(args@[i].1)),
    {
        let ghost start = *self;
        proof {
            start.lemma_frame_refl();
        }
        let c = match self.component_index(component_name) {
            Some(c) => c,
            None => {
                return Err(String::from_str("the action names a component that does not exist"));
            },
        };
        proof {
            assert forall|x: int| #[trigger] first_named(start.nodes(), component_name@, x) implies x == c by {
                if x < c {
                    assert(start.nodes()[x].name@ != component_name@);
                }
                if c < x {
                    assert(start.nodes()[c as int].name@ != component_name@);
                }
            }
        }
        let ty = self.components[c].component_type;
        let updates = match on_action(ty, action_name, args) {
            Ok(updates) => updates,
            Err(e) => {
                return Err(e);
            },
        };
        let mut i: usize = 0;
        while i < updates.len()
            invariant
                start == *old(self),
                start.update_frame(*self),
                c < start.nodes().len(),
                start.nodes()[c as int].name@ == component_name@,
                forall|x: int| #[trigger] first_named(start.nodes(), component_name@, x) ==> x == c,
                start.type_of(c as int) is TextInput && action_name@ == "updateValue"@
                    && exists|i: int| 0 <= i < args@.len() && #[trigger] args@[i].0@ == "value"@ && args@[i].1 is String,
                ty == start.type_of(c as int),
                updates@.len() == 1 && updates@[0].0 == StateVarName::Value && updates@[0].1 is String,
                exists|a: int| 0 <= a < args@.len() && #[trigger] args@[a].0@ == "value"@ && args@[a].1 == updates@[0].1,
                i <= 1,
                i == 1 ==> self.cell(c as int, 0).state_of() is Stale
                    && self.essential(c as int, 0) == Some(EssentialStateVar::Single(updates@[0].1)),
            decreases updates@.len() - i,
        {
            let name = updates[i].0;
            let w = match self.state_var_of(c, name) {
                Some(w) => w,
                None => {
                    return Err(String::from_str("the action asks to update a missing state variable"));
                },
            };
            let requests = request_dependencies_to_update_value(ty, name, updates[i].1.duplicate());
            let mut k: usize = 0;
            while k < requests.len()
                invariant
                    start == *old(self),
                    start.update_frame(*self),
                    c < start.nodes().len(),
                    start.nodes()[c as int].name@ == component_name@,
                    forall|x: int| #[trigger] first_named(start.nodes(), component_name@, x) ==> x == c,
                    start.type_of(c as int) is TextInput && action_name@ == "updateValue"@
                        && exists|i: int| 0 <= i < args@.len() && #[trigger] args@[i].0@ == "value"@ && args@[i].1 is String,
                    start.valid_var(c as int, w as int),
                    name == start.var_name(c as int, w as int),
                    forall|x: int| 0 <= x < requests@.len() ==> (#[trigger] requests@[x] matches
                        UpdateRequest::SetStateVarDependingOnMe(t, _) ==> retarget_depth(t) < retarget_depth(name)),
                    ty == start.type_of(c as int),
                    i == 0,
                    updates@.len() == 1 && updates@[0].0 == StateVarName::Value && updates@[0].1 is String,
                    exists|a: int| 0 <= a < args@.len() && #[trigger] args@[a].0@ == "value"@ && args@[a].1 == updates@[0].1,
                    w == 0,
                    name == StateVarName::Value,
                    requests@.len() == 1 && requests@[0] == UpdateRequest::SetEssentialValue(StateVarName::Value, updates@[0].1),
                    k <= 1,
                    k == 1 ==> self.cell(c as int, 0).state_of() is Stale
                        && self.essential(c as int, 0) == Some(EssentialStateVar::Single(updates@[0].1)),
                decreases requests@.len() - k,
            {
                let request = match &requests[k] {
                    UpdateRequest::SetEssentialValue(t, x) => UpdateRequest::SetEssentialValue(*t, x.duplicate()),
                    UpdateRequest::SetStateVarDependingOnMe(t, x) => UpdateRequest::SetStateVarDependingOnMe(*t, x.duplicate()),
                };
                let ghost mid = *self;
                proof {
                    assert(first_var(ComponentType::TextInput, StateVarName::Value, 0));
                    assert(mid.essential(c as int, 0) matches Some(EssentialStateVar::Single(e))
                        && e.kind_of() == ValueKind::String);
                }
                let result = self.process_update_request(c, w, name, request);
                proof {
                    start.lemma_frame_trans(mid, *self);
                    if result is Ok {
                        let x = choose|x: int| #[trigger] mid.valid_var(c as int, x) && mid.var_name(c as int, x) == StateVarName::Value
                            && self.essential(c as int, x) == Some(EssentialStateVar::Single(updates@[0].1));
                        assert(x == 0);
                    }
                }
                result?;
                k = k + 1;
            }
            i = i + 1;
        }
        Ok(())
    }
}

/// The component and action that a renderer sends back.
#[derive(Debug)]
pub struct ActionTarget {
    pub action_name: String,
    pub component_name: String,
}

/// What a renderer is told of one child: literal text, or a component with
/// its actions and how to render it.
#[derive(Debug)]
pub enum ChildInstruction {
    String(String),
    Component {
        actions: Vec<(String, ActionTarget)>,
        component_name: String,
        component_type: String,
        effective_name: String,
        renderer_type: String,
    },
}

/// What a renderer is told of one component.
#[derive(Debug)]
pub struct RenderNode {
    pub component_name: String,
    pub state_values: Vec<(String, StateVarValue)>,
    pub children_instructions: Vec<ChildInstruction>,
}

impl DoenetCore {
    /// The instruction for a component child `s`.
    fn child_instruction(&self, s: usize) -> (r: ChildInstruction)
        requires
            s < self.nodes().len(),
        ensures
            r matches ChildInstruction::Component { actions, component_name, component_type, effective_name, renderer_type }
                && component_name@ == self.nodes()[s as int].name@ && effective_name@ == self.nodes()[s as int].name@
                && component_type@ == crate::catalog::type_name_of(self.nodes()[s as int].component_type)
                && renderer_type@ == crate::catalog::type_name_of(self.nodes()[s as int].component_type)
                && actions@.len() == (if self.nodes()[s as int].component_type is TextInput { 1int } else { 0int })
                && forall|x: int| 0 <= x < actions@.len() ==> (#[trigger] actions@[x]).0@ == "updateValue"@
                    && actions@[x].1.action_name@ == "updateValue"@ && actions@[x].1.component_name@ == self.nodes()[s as int].name@,
    {
        let node = &self.components[s];
        let names = action_names(node.component_type);
        let mut actions: Vec<(String, ActionTarget)> = Vec::new();
        let mut a: usize = 0;
        while a < names.len()
            invariant
                a <= names@.len(),
                node.component_type is TextInput ==> names@.len() == 1 && names@[0]@ == "updateValue"@,
                !(node.component_type is TextInput) ==> names@.len() == 0,
                actions@.len() == a,
                forall|x: int| 0 <= x < actions@.len() ==> (#[trigger] actions@[x]).0@ == "updateValue"@
                    && actions@[x].1.action_name@ == "updateValue"@ && actions@[x].1.component_name@ == node.name@,
            decreases names@.len() - a,
        {
            actions.push((names[a].clone(), ActionTarget { action_name: names[a].clone(), component_name: node.name.clone() }));
            a = a + 1;
        }
        ChildInstruction::Component {
            actions,
            component_name: node.name.clone(),
            component_type: node.component_type.name(),
            effective_name: node.name.clone(),
            renderer_type: node.component_type.name(),
        }
    }

    proof fn lemma_describes_kept(self, b: DoenetCore, node: RenderNode, s: int)
        requires
            self.resolution_frame(b),
            describes(b, node, s),
        ensures
            describes(self, node, s),
    {
        self.lemma_resolution_keeps_values(b);
        assert forall|v: int| self.valid_var(s, v) && spec_for_renderer(self.type_of(s), #[trigger] self.var_name(s, v))
            implies exists|e: int| 0 <= e < node.state_values@.len()
                && (#[trigger] node.state_values@[e]).0@ == crate::catalog::var_name_of(self.var_name(s, v))
                && node.state_values@[e].1.view() == self.resolved_value(s, v) by {
            assert(b.valid_var(s, v) && b.var_name(s, v) == self.var_name(s, v));
            assert(spec_for_renderer(b.type_of(s), b.var_name(s, v)));
            assert(b.resolved_value(s, v) == self.resolved_value(s, v));
        }
    }

    /// Appends the nodes of what rendering from `c` visits, going at most
    /// `budget` levels down, in document pre-order: the node of `c`, then,
    /// if its type shows children, those of each shown child. Only variables
    /// shown to the renderer, and what they read, are resolved.
    fn generate_render_tree_internal(&mut self, c: usize, out: &mut Vec<RenderNode>, budget: usize)
        requires
            old(self).wf(),
            c < old(self).nodes().len(),
        ensures
            old(self).resolution_frame(*final(self)),
            old(self).resolve_frame(*final(self)),
            final(out)@.len() == old(out)@.len() + visit(old(self).nodes(), c as int, budget as nat).len(),
            final(out)@.subrange(0, old(out)@.len() as int) == old(out)@,
            forall|k: int| 0 <= k < visit(old(self).nodes(), c as int, budget as nat).len() ==> describes(*old(self),
                #[trigger] final(out)@[old(out)@.len() + k], visit(old(self).nodes(), c as int, budget as nat)[k]),
            forall|s: int, w: int| #[trigger] old(self).valid_var(s, w)
                && !render_touches(old(self).inputs(), c as int, budget as nat, s, w)
                ==> final(self).cell(s, w) == old(self).cell(s, w),
        decreases budget,
    {
        let ghost start = *self;
        let ghost out_start = out@;
        let ghost g = self.inputs();
        let ghost nodes = self.nodes();
        proof {
            assert(start.resolution_frame(*self));
            assert(g.0 == nodes);
        }
        let ty = self.components[c].component_type;
        let names = state_var_names(ty);
        let mut state_values: Vec<(String, StateVarValue)> = Vec::new();
        let mut v: usize = 0;
        while v < names.len()
            invariant
                start.resolution_frame(*self),
                start.resolve_frame(*self),
                g == start.inputs(),
                g.0 == start.nodes(),
                c < start.nodes().len(),
                ty == start.type_of(c as int),
                names@ == var_names(ty),
                v <= names@.len(),
                forall|x: int| 0 <= x < v && spec_for_renderer(ty, #[trigger] names@[x]) ==> exists|e: int| 0 <= e < state_values@.len()
                    && (#[trigger] state_values@[e]).0@ == crate::catalog::var_name_of(names@[x])
                    && state_values@[e].1.view() == start.resolved_value(c as int, x),
                forall|s2: int, w2: int| #[trigger] start.valid_var(s2, w2) && !render_touches(g, c as int, budget as nat, s2, w2)
                    ==> self.cell(s2, w2) == start.cell(s2, w2),
            decreases names@.len() - v,
        {
            let ghost sv_before = state_values@;
            if for_renderer(ty, names[v]) {
                let ghost mid = *self;
                self.resolve_state_variable(c, v);
                proof {
                    start.lemma_frames_trans(mid, *self);
                    assert(mid.inputs() == start.inputs());
                    assert(start.same_graph(*self)) by {
                        assert forall|k: int| 0 <= k < start.cells@.len() implies (#[trigger] start.cells@[k]).kind_of() == self.cells@[k].kind_of() by {
                            assert(mid.cells@[k].kind_of() == self.cells@[k].kind_of());
                        }
                    }
                    assert forall|s2: int, w2: int| #[trigger] start.valid_var(s2, w2) && !render_touches(g, c as int, budget as nat, s2, w2)
                        implies self.cell(s2, w2) == start.cell(s2, w2) by {
                        assert(mid.valid_var(s2, w2));
                        if reaches(g, c as int, v as int, s2, w2) {
                            let vc = visit(g.0, c as int, budget as nat);
                            assert(vc[0] == c as int);
                            assert(reaches(g, vc[0], v as int, s2, w2));
                        }
                    }
                }
                match self.get_state(c, v) {
                    State::Resolved(value) => {
                        state_values.push((names[v].name(), value));
                        assert(state_values@[state_values@.len() - 1].0@ == crate::catalog::var_name_of(names@[v as int]));
                    },
                    State::Stale => {},
                }
            }
            proof {
                assert forall|x: int| 0 <= x < v + 1 && spec_for_renderer(ty, #[trigger] names@[x]) implies exists|e: int| 0 <= e < state_values@.len()
                    && (#[trigger] state_values@[e]).0@ == crate::catalog::var_name_of(names@[x])
                    && state_values@[e].1.view() == start.resolved_value(c as int, x) by {
                    if x < v {
                        let e = choose|e: int| 0 <= e < sv_before.len() && (#[trigger] sv_before[e]).0@ == crate::catalog::var_name_of(names@[x])
                            && sv_before[e].1.view() == start.resolved_value(c as int, x);
                        assert(state_values@[e] == sv_before[e]);
                    } else {
                        assert(state_values@[state_values@.len() - 1].0@ == crate::catalog::var_name_of(names@[x]));
                    }
                }
            }
            v = v + 1;
        }
        let show_children = should_render_children(ty);
        let mut children_instructions: Vec<ChildInstruction> = Vec::new();
        let mut to_visit: Vec<usize> = Vec::new();
        let ghost children = nodes[c as int].children@;
        if show_children {
            let mut i: usize = 0;
            while i < self.components[c].children.len()
                invariant
                    c < self.components@.len(),
                    nodes == self.components@,
                    children == self.components@[c as int].children@,
                    i <= children.len(),
                    to_visit@.len() == shown_upto(nodes, children, i as int).len(),
                    forall|x: int| 0 <= x < to_visit@.len() ==> #[trigger] to_visit@[x] as int == shown_upto(nodes, children, i as int)[x],
                    forall|x: int| 0 <= x < to_visit@.len() ==> #[trigger] to_visit@[x] < self.components@.len(),
                    children_instructions@.len() == instructed_upto(nodes, children, i as int).len(),
                    forall|x: int| 0 <= x < children_instructions@.len()
                        ==> instruction_for(nodes, children[instructed_upto(nodes, children, i as int)[x]], #[trigger] children_instructions@[x]),
                decreases self.components@[c as int].children@.len() - i,
            {
                let ghost ti = to_visit@;
                let ghost ci = children_instructions@;
                match &self.components[c].children[i] {
                    ComponentChild::String(text) => {
                        children_instructions.push(ChildInstruction::String(text.clone()));
                    },
                    ComponentChild::Component(n) => {
                        match find_component(&self.components, n) {
                            Some(s) => {
                                proof {
                                    lemma_lookup(self.components@, n@, s as int);
                                }
                                children_instructions.push(self.child_instruction(s));
                                to_visit.push(s);
                            },
                            None => {
                                proof {
                                    lemma_lookup_none(self.components@, n@);
                                }
                            },
                        }
                    },
                }
                proof {
                    let su = shown_upto(nodes, children, i + 1);
                    let iu = instructed_upto(nodes, children, i + 1);
                    if children_instructions@.len() > ci.len() {
                        assert(iu == instructed_upto(nodes, children, i as int).push(i as int));
                        assert(instruction_for(nodes, children[i as int], children_instructions@[ci.len() as int]));
                    } else {
                        assert(iu == instructed_upto(nodes, children, i as int));
                    }
                    assert forall|x: int| 0 <= x < to_visit@.len() implies #[trigger] to_visit@[x] as int == su[x] by {
                        if x < ti.len() {
                            assert(to_visit@[x] == ti[x]);
                        }
                    }
                    assert(children_instructions@.len() == iu.len());
                    assert forall|x: int| 0 <= x < children_instructions@.len()
                        implies instruction_for(nodes, children[iu[x]], #[trigger] children_instructions@[x]) by {
                        if x < ci.len() {
                            assert(children_instructions@[x] == ci[x]);
                            assert(iu[x] == instructed_upto(nodes, children, i as int)[x]);
                        } else {
                            assert(iu[x] == i as int);
                        }
                    }
                }
                i = i + 1;
            }
        }
        proof {
            if !show_children {
                assert(shown_children(nodes, c as int) =~= Seq::<int>::empty());
            }
            assert(to_visit@.len() == shown_children(nodes, c as int).len());
            assert(instructions_of(nodes, c as int, children_instructions@));
        }
        let ghost sv_final = state_values@;
        let ghost ci_final = children_instructions@;
        out.push(RenderNode { component_name: self.components[c].name.clone(), state_values, children_instructions });
        let ghost out_mid = out@;
        proof {
            assert(out@[out_start.len() as int].state_values@ == sv_final);
            assert(out@[out_start.len() as int].children_instructions@ == ci_final);
            assert forall|w: int| start.valid_var(c as int, w) && spec_for_renderer(start.type_of(c as int), #[trigger] start.var_name(c as int, w))
                implies exists|e: int| 0 <= e < out@[out_start.len() as int].state_values@.len()
                    && (#[trigger] out@[out_start.len() as int].state_values@[e]).0@ == crate::catalog::var_name_of(start.var_name(c as int, w))
                    && out@[out_start.len() as int].state_values@[e].1.view() == start.resolved_value(c as int, w) by {
                assert(names@[w] == start.var_name(c as int, w));
                let e = choose|e: int| 0 <= e < sv_final.len() && (#[trigger] sv_final[e]).0@ == crate::catalog::var_name_of(names@[w])
                    && sv_final[e].1.view() == start.resolved_value(c as int, w);
                assert(out@[out_start.len() as int].state_values@[e] == sv_final[e]);
            }
            assert(describes(start, out@[out_start.len() as int], c as int));
        }
        if budget > 0 {
            let ghost shown = shown_children(nodes, c as int);
            let ghost b1 = (budget - 1) as nat;
            let mut i: usize = 0;
            while i < to_visit.len()
                invariant
                    start.resolution_frame(*self),
                    start.resolve_frame(*self),
                    g == start.inputs(),
                    nodes == start.nodes(),
                    g.0 == nodes,
                    c < nodes.len(),
                    budget > 0,
                    b1 == budget - 1,
                    i <= to_visit@.len(),
                    to_visit@.len() == shown.len(),
                    forall|x: int| 0 <= x < to_visit@.len() ==> #[trigger] to_visit@[x] as int == shown[x],
                    forall|x: int| 0 <= x < to_visit@.len() ==> #[trigger] to_visit@[x] < nodes.len(),
                    shown == shown_children(nodes, c as int),
                    out@.len() == out_mid.len() + visit_list(nodes, shown, b1, i as int).len(),
                    out@.subrange(0, out_mid.len() as int) == out_mid,
                    forall|k: int| 0 <= k < visit_list(nodes, shown, b1, i as int).len() ==> describes(start,
                        #[trigger] out@[out_mid.len() + k], visit_list(nodes, shown, b1, i as int)[k]),
                    forall|s2: int, w2: int| #[trigger] start.valid_var(s2, w2) && !render_touches(g, c as int, budget as nat, s2, w2)
                        ==> self.cell(s2, w2) == start.cell(s2, w2),
                decreases to_visit@.len() - i,
            {
                let ghost mid = *self;
                let ghost before = out@;
                let t = to_visit[i];
                self.generate_render_tree_internal(t, out, budget - 1);
                proof {
                    start.lemma_frames_trans(mid, *self);
                    assert(mid.inputs() == start.inputs());
                    assert(start.same_graph(*self)) by {
                        assert forall|k: int| 0 <= k < start.cells@.len() implies (#[trigger] start.cells@[k]).kind_of() == self.cells@[k].kind_of() by {
                            assert(mid.cells@[k].kind_of() == self.cells@[k].kind_of());
                        }
                    }
                    let vl = visit_list(nodes, shown, b1, i as int);
                    let vt = visit(nodes, t as int, b1);
                    assert(visit_list(nodes, shown, b1, i + 1) == vl + vt);
                    assert(out@.subrange(0, out_mid.len() as int) =~= out_mid) by {
                        assert forall|x: int| 0 <= x < out_mid.len() implies out@[x] == out_mid[x] by {
                            assert(out@.subrange(0, before.len() as int)[x] == before[x]);
                            assert(before.subrange(0, out_mid.len() as int)[x] == out_mid[x]);
                        }
                    }
                    assert forall|k: int| 0 <= k < (vl + vt).len() implies describes(start,
                        #[trigger] out@[out_mid.len() + k], (vl + vt)[k]) by {
                        if k < vl.len() {
                            assert(out@.subrange(0, before.len() as int)[out_mid.len() + k] == before[out_mid.len() + k]);
                        } else {
                            let kk = k - vl.len();
                            assert(out@[before.len() + kk] == out@[out_mid.len() + k]);
                            assert(describes(mid, out@[before.len() + kk], vt[kk]));
                            start.lemma_describes_kept(mid, out@[before.len() + kk], vt[kk]);
                        }
                    }
                    assert forall|s2: int, w2: int| #[trigger] start.valid_var(s2, w2) && !render_touches(g, c as int, budget as nat, s2, w2)
                        implies self.cell(s2, w2) == start.cell(s2, w2) by {
                        assert(mid.valid_var(s2, w2));
                        if render_touches(g, t as int, b1, s2, w2) {
                            let vt2 = visit(g.0, t as int, b1);
                            let (k2, v2) = choose|k2: int, v2: int| 0 <= k2 < vt2.len() && 0 <= v2 < var_names(g.0[vt2[k2]].component_type).len()
                                && spec_for_renderer(g.0[vt2[k2]].component_type, var_names(g.0[vt2[k2]].component_type)[v2])
                                && #[trigger] reaches(g, vt2[k2], v2, s2, w2);
                            lemma_visit_list_prefix(nodes, shown, b1, i + 1, shown.len() as int);
                            let vc = visit(nodes, c as int, budget as nat);
                            let p = vl.len() + k2;
                            assert(visit_list(nodes, shown, b1, i + 1)[p] == vt2[k2]);
                            assert(vc == seq![c as int] + visit_list(nodes, shown, b1, shown.len() as int));
                            assert(vc[1 + p] == vt2[k2]);
                            assert(reaches(g, vc[1 + p], v2, s2, w2));
                        }
                    }
                }
                i = i + 1;
            }
            proof {
                assert(visit(nodes, c as int, budget as nat) == seq![c as int] + visit_list(nodes, shown, b1, shown.len() as int));
            }
        }
        proof {
            let vc = visit(nodes, c as int, budget as nat);
            if budget == 0 {
                assert(vc =~= seq![c as int]);
            }
            assert(out@[out_start.len() as int] == out_mid[out_start.len() as int]) by {
                assert(out@.subrange(0, out_mid.len() as int)[out_start.len() as int] == out_mid[out_start.len() as int]);
            }
            assert(out@.subrange(0, out_start.len() as int) =~= out_start) by {
                assert forall|x: int| 0 <= x < out_start.len() implies out@[x] == out_start[x] by {
                    assert(out@.subrange(0, out_mid.len() as int)[x] == out_mid[x]);
                }
            }
            assert forall|k: int| 0 <= k < vc.len() implies describes(start, #[trigger] out@[out_start.len() + k], vc[k]) by {
                if k > 0 {
                    assert(out@[out_start.len() + k] == out@[out_mid.len() + (k - 1)]);
                }
            }
        }
    }

    /// The render projection: starting at the root, one node per component
    /// that it visits, in document pre-order, going down through the
    /// children of types that show them. Each node describes its component:
    /// name, children instructions and the resolved values of the variables
    /// shown to the renderer. Only those variables, and what they read, of
    /// visited components are resolved; every other cell is left as it was.
    pub fn generate_render_tree(&mut self) -> (r: Vec<RenderNode>)
        requires
            old(self).wf(),
        ensures
            old(self).resolution_frame(*final(self)),
            old(self).resolve_frame(*final(self)),
            r@.len() == visit(old(self).nodes(), old(self).root(), old(self).nodes().len()).len(),
            forall|k: int| 0 <= k < r@.len() ==> describes(*old(self), #[trigger] r@[k],
                visit(old(self).nodes(), old(self).root(), old(self).nodes().len())[k]),
            forall|s: int, w: int| #[trigger] old(self).valid_var(s, w)
                && !render_touches(old(self).inputs(), old(self).root(), old(self).nodes().len(), s, w)
                ==> final(self).cell(s, w) == old(self).cell(s, w),
    {
        let mut out: Vec<RenderNode> = Vec::new();
        let budget = self.components.len();
        let root = self.root_component;
        self.generate_render_tree_internal(root, &mut out, budget);
        proof {
            assert forall|k: int| 0 <= k < out@.len() implies describes(*old(self), #[trigger] out@[k],
                visit(old(self).nodes(), old(self).root(), old(self).nodes().len())[k]) by {
                assert(out@[0 + k] == out@[k]);
            }
        }
        out
    }
}

/// A cell keeps its kind across every resolution: when two states of one
/// document (any operation keeps the graph) both hold a resolved value in a
/// cell, the two values have the same kind, the kind the cell was made with.
pub proof fn law_kind_stability(a: DoenetCore, b: DoenetCore, c: int, v: int)
    requires
        a.wf(),
        a.same_graph(b),
        a.valid_var(c, v),
        a.cell(c, v).state_of() is Resolved,
        b.cell(c, v).state_of() is Resolved,
    ensures
        a.cell(c, v).state_of()->Resolved_0.kind_of() == b.cell(c, v).state_of()->Resolved_0.kind_of(),
        b.cell(c, v).state_of()->Resolved_0.kind_of() == var_kind(a.var_name(c, v), a.type_of(c)),
{
    a.lemma_kind_stability(b, c, v);
    a.cell(c, v).lemma_resolved_kind();
    b.cell(c, v).lemma_resolved_kind();
}

/// Resolving is idempotent: resolving a variable in `a` gives state `b`,
/// and resolving it again in `b` (or in any state reached from `b` by
/// resolving or invalidating, which keep the graph and the essential values)
/// gives the same value.
pub proof fn law_resolve_idempotent(a: DoenetCore, b: DoenetCore, d: DoenetCore, c: int, v: int)
    requires
        a.resolution_frame(b),
        b.cell(c, v).state_of() matches State::Resolved(x) && x.view() == a.resolved_value(c, v),
        b.resolution_frame(d),
        d.cell(c, v).state_of() matches State::Resolved(y) && y.view() == b.resolved_value(c, v),
    ensures
        d.cell(c, v).state_of()->Resolved_0.view() == b.cell(c, v).state_of()->Resolved_0.view(),
{
    a.lemma_resolution_keeps_values(b);
}

proof fn lemma_reached_stale(a: DoenetCore, c: int, v: int, s: int, w: int)
    requires
        a.wf(),
        a.valid_var(c, v),
        a.reads_all_stale(c, v),
        reaches(a.inputs(), c, v, s, w),
    ensures
        a.cell(s, w).state_of() is Stale,
    decreases a.rank(c, v),
{
    let g = a.inputs();
    if !(s == c && w == v) {
        let (i, j, k, x) = choose|i: int, j: int, k: int, x: int| 0 <= i < g.1.len()
            && (#[trigger] g.1[i]).component == c && g.1[i].state_var == v
            && 0 <= j < g.1[i].depends_on_objects@.len()
            && (#[trigger] g.1[i].depends_on_objects@[j]) is Component
            && g.1[i].depends_on_objects@[j]->Component_0 < g.0.len()
            && 0 <= k < g.1[i].depends_on_state_vars@.len()
            && #[trigger] first_var(g.0[g.1[i].depends_on_objects@[j]->Component_0 as int].component_type,
                g.1[i].depends_on_state_vars@[k], x)
            && 0 <= in_rank(g, g.1[i].depends_on_objects@[j]->Component_0 as int, x) < in_rank(g, c, v)
            && reaches(g, g.1[i].depends_on_objects@[j]->Component_0 as int, x, s, w);
        let t = g.1[i].depends_on_objects@[j]->Component_0 as int;
        assert(g.1 == a.deps() && g.0 == a.nodes());
        assert(in_rank(g, t, x) == a.rank(t, x) && in_rank(g, c, v) == a.rank(c, v));
        assert(a.reads_all_stale(t, x));
        lemma_reached_stale(a, t, x, s, w);
    }
}

/// Invalidating twice is the same as invalidating once: after a first
/// invalidation leads from `a` to `b`, a second one from `b` to `d` leaves
/// every cell as `b` had it (what it reaches is already stale and stays as
/// it is; nothing else is touched).
pub proof fn law_invalidate_idempotent(a: DoenetCore, b: DoenetCore, d: DoenetCore, c: int, v: int)
    requires
        a.wf(),
        a.valid_var(c, v),
        a.resolution_frame(b),
        b.reads_all_stale(c, v),
        b.resolution_frame(d),
        b.stale_frame(d),
        forall|s: int, w: int| #[trigger] b.valid_var(s, w) && !reaches(b.inputs(), c, v, s, w)
            ==> d.cell(s, w) == b.cell(s, w),
    ensures
        forall|s: int, w: int| #[trigger] b.valid_var(s, w) ==> d.cell(s, w) == b.cell(s, w),
        forall|s: int, w: int| #[trigger] b.valid_var(s, w) ==> d.essential(s, w) == b.essential(s, w),
{
    b.lemma_resolution_keeps_values(d);
    assert forall|s: int, w: int| #[trigger] b.valid_var(s, w) implies d.cell(s, w) == b.cell(s, w) by {
        if reaches(b.inputs(), c, v, s, w) {
            lemma_reached_stale(b, c, v, s, w);
            assert(b.cells@[b.slot(s, w)] == b.cell(s, w));
            assert(d.cells@[b.slot(s, w)] == d.cell(s, w));
        }
    }
}

/// Invalidating a cell and then resolving it leaves it resolved, holding the
/// value that resolving gave before, in a well-formed document with the same
/// graph and essential values.
pub proof fn law_invalidate_then_resolve(a: DoenetCore, b: DoenetCore, d: DoenetCore, c: int, v: int)
    requires
        a.wf(),
        a.valid_var(c, v),
        a.resolution_frame(b) && a.stale_kept(b) && b.cell(c, v).state_of() is Stale,
        b.resolution_frame(d),
        d.cell(c, v).state_of() matches State::Resolved(x) && x.view() == b.resolved_value(c, v),
    ensures
        d.wf(),
        d.valid_var(c, v),
        a.resolution_frame(d),
        d.cell(c, v).state_of() is Resolved,
        d.cell(c, v).state_of()->Resolved_0.view() == a.resolved_value(c, v),
{
    a.lemma_resolution_is_update(b);
    b.lemma_resolution_is_update(d);
    a.lemma_frame_trans(b, d);
    assert(a.inputs() == b.inputs());
}

proof fn lemma_bundle_of_sourceless(g: Inputs, c: int, v: int, f: nat, i: int)
    requires
        forall|x: int| 0 <= x < g.1.len() && (#[trigger] g.1[x]).component == c && g.1[x].state_var == v
            ==> g.1[x].depends_on_objects@.len() == 0,
    ensures
        forall|y: int| 0 <= y < bundle_upto(g, c, v, f, i).len() ==> (#[trigger] bundle_upto(g, c, v, f, i)[y]).len() == 0,
    decreases i,
{
    if i > 0 && i <= g.1.len() {
        lemma_bundle_of_sourceless(g, c, v, f, i - 1);
        let d = g.1[i - 1];
        let prev = bundle_upto(g, c, v, f, i - 1);
        if d.component == c && d.state_var == v {
            assert(d.depends_on_objects@.len() == 0);
            assert(dep_values(g, d, f, d.depends_on_objects@.len() as int) == Seq::<ValueView>::empty());
            let cur = bundle_upto(g, c, v, f, i);
            assert(cur == prev.push(Seq::<ValueView>::empty()));
            assert forall|y: int| 0 <= y < cur.len() implies (#[trigger] cur[y]).len() == 0 by {
                if y < prev.len() {
                    assert(cur[y] == prev[y]);
                }
            }
        }
    }
}

/// A hidden flag whose dependencies have no sources (a component without a
/// `hide` attribute gets none) resolves to its default, false.
pub proof fn law_attribute_fallback(a: DoenetCore, c: int, v: int)
    requires
        a.wf(),
        a.valid_var(c, v),
        a.var_name(c, v) == StateVarName::Hidden,
        forall|i: int| 0 <= i < a.deps().len() && (#[trigger] a.deps()[i]).component == c && a.deps()[i].state_var == v
            ==> a.deps()[i].depends_on_objects@.len() == 0,
    ensures
        a.resolved_value(c, v) == ValueView::Boolean(false),
{
    let g = a.inputs();
    assert(g.1 == a.deps());
    let f = a.rank(c, v) as nat;
    lemma_bundle_of_sourceless(g, c, v, f, g.1.len() as int);
    let b = bundle_upto(g, c, v, f, g.1.len() as int);
    if b.len() > 0 {
        assert(b[0].len() == 0);
        assert(first_kind(b[0], ValueKind::Boolean) is None);
    }
    assert(a.essential(c, v) is None);
    assert(g.4[g.2[c] + v] == a.essential(c, v));
}

/// An `updateValue` action on a text input, followed by resolving its value,
/// gives the value the action carried.
pub proof fn law_action_round_trip(a: DoenetCore, b: DoenetCore, d: DoenetCore, c: int, x: StateVarValue)
    requires
        a.update_frame(b),
        0 <= c < a.nodes().len(),
        a.type_of(c) is TextInput,
        b.essential(c, 0) == Some(EssentialStateVar::Single(x)),
        b.resolution_frame(d),
        d.cell(c, 0).state_of() matches State::Resolved(y) && y.view() == b.resolved_value(c, 0),
    ensures
        d.cell(c, 0).state_of()->Resolved_0.view() == x.view(),
{
    law_text_input_value(b, c, x);
}

/// A text input's value resolves to what its essential slot holds, which is
/// where an `updateValue` action writes.
pub proof fn law_text_input_value(a: DoenetCore, c: int, x: StateVarValue)
    requires
        a.wf(),
        0 <= c < a.nodes().len(),
        a.type_of(c) is TextInput,
        a.essential(c, 0) == Some(EssentialStateVar::Single(x)),
    ensures
        a.valid_var(c, 0),
        a.var_name(c, 0) == StateVarName::Value,
        a.resolved_value(c, 0) == x.view(),
{
    assert(a.valid_var(c, 0));
}

/// What the value of a variable depends on: the components, the
/// dependencies, the layout of the arena, the ranks and the essential slots.
pub type Inputs = (Seq<ComponentNode>, Seq<Dependency>, Seq<usize>, Seq<usize>, Seq<Option<EssentialStateVar>>);

/// The static default of a kind, as a value view.
pub open spec fn default_view(kind: ValueKind) -> ValueView {
    match kind {
        ValueKind::String => ValueView::String(Seq::empty()),
        ValueKind::Integer => ValueView::Integer(0),
        ValueKind::Number => ValueView::Number(0),
        ValueKind::Boolean => ValueView::Boolean(false),
    }
}

pub open spec fn in_rank(g: Inputs, c: int, v: int) -> int {
    g.3[g.2[c] + v] as int
}

/// The value that resolution gives variable `v` of component `c`: its
/// determination on the values of what it reads, each of those resolved the
/// same way, ranks below. `fuel` bounds the ranks that are followed.
pub open spec fn eval(g: Inputs, c: int, v: int, fuel: nat) -> ValueView
    decreases fuel, 0int, 0int,
{
    if 0 <= c < g.0.len() && 0 <= v < var_names(g.0[c].component_type).len() && 0 <= in_rank(g, c, v) < fuel {
        let ty = g.0[c].component_type;
        let name = var_names(ty)[v];
        let f = in_rank(g, c, v) as nat;
        match determine_spec(ty, name, bundle_upto(g, c, v, f, g.1.len() as int)) {
            Determination::SetValue(x) => x,
            Determination::UseEssentialOrDefault => match g.4[g.2[c] + v] {
                Some(EssentialStateVar::Single(e)) => e.view(),
                _ => default_view(var_kind(name, ty)),
            },
        }
    } else {
        ValueView::Boolean(false)
    }
}

/// The values collected for the first `i` dependencies that variable `v`
/// of component `c` owns.
pub open spec fn bundle_upto(g: Inputs, c: int, v: int, f: nat, i: int) -> Seq<Seq<ValueView>>
    decreases f, 3int, i,
{
    if i <= 0 || i > g.1.len() {
        Seq::empty()
    } else {
        let prev = bundle_upto(g, c, v, f, i - 1);
        let d = g.1[i - 1];
        if d.component == c && d.state_var == v {
            prev.push(dep_values(g, d, f, d.depends_on_objects@.len() as int))
        } else {
            prev
        }
    }
}

/// The values that the first `j` sources of a dependency give.
pub open spec fn dep_values(g: Inputs, d: Dependency, f: nat, j: int) -> Seq<ValueView>
    decreases f, 2int, j,
{
    if j <= 0 || j > d.depends_on_objects@.len() {
        Seq::empty()
    } else {
        dep_values(g, d, f, j - 1) + match d.depends_on_objects@[j - 1] {
            ObjectName::Component(s) => object_values(g, s as int, d.depends_on_state_vars@, f, d.depends_on_state_vars@.len() as int),
            ObjectName::String(t) => if d.depends_on_state_vars@.contains(StateVarName::Value) {
                seq![ValueView::String(t@)]
            } else {
                Seq::empty()
            },
            ObjectName::Primitive(p) => if d.depends_on_state_vars@.contains(StateVarName::Value) {
                seq![p.view()]
            } else {
                Seq::empty()
            },
        }
    }
}

/// The values of the first `k` of `vars` on component `s`.
pub open spec fn object_values(g: Inputs, s: int, vars: Seq<StateVarName>, f: nat, k: int) -> Seq<ValueView>
    decreases f, 1int, k,
{
    if k <= 0 || k > vars.len() || !(0 <= s < g.0.len()) {
        Seq::empty()
    } else {
        let prev = object_values(g, s, vars, f, k - 1);
        let ty = g.0[s].component_type;
        if var_names(ty).contains(vars[k - 1]) {
            let w = choose|w: int| #[trigger] first_var(ty, vars[k - 1], w);
            prev.push(eval(g, s, w, f))
        } else {
            prev
        }
    }
}

/// Variable `w` of component `s` is variable `v` of component `c`, or is
/// read by it through its dependencies, transitively along the read edges.
pub open spec fn reaches(g: Inputs, c: int, v: int, s: int, w: int) -> bool
    decreases in_rank(g, c, v),
{
    ||| (s == c && w == v)
    ||| exists|i: int, j: int, k: int, x: int| 0 <= i < g.1.len()
        && (#[trigger] g.1[i]).component == c && g.1[i].state_var == v
        && 0 <= j < g.1[i].depends_on_objects@.len()
        && (#[trigger] g.1[i].depends_on_objects@[j]) is Component
        && g.1[i].depends_on_objects@[j]->Component_0 < g.0.len()
        && 0 <= k < g.1[i].depends_on_state_vars@.len()
        && #[trigger] first_var(g.0[g.1[i].depends_on_objects@[j]->Component_0 as int].component_type,
            g.1[i].depends_on_state_vars@[k], x)
        && 0 <= in_rank(g, g.1[i].depends_on_objects@[j]->Component_0 as int, x) < in_rank(g, c, v)
        && reaches(g, g.1[i].depends_on_objects@[j]->Component_0 as int, x, s, w)
}

impl DoenetCore {
    /// What the value of every variable depends on.
    pub closed spec fn inputs(self) -> Inputs {
        (self.components@, self.dependencies@, self.offsets@, self.ranks@, self.essentials@)
    }

    /// The value that resolving variable `v` of component `c` gives.
    pub open spec fn resolved_value(self, c: int, v: int) -> ValueView {
        eval(self.inputs(), c, v, (self.rank(c, v) + 1) as nat)
    }
}

} // verus!
