pub mod check;

use vstd::prelude::*;
use crate::globals::Component;
use crate::globals::ComponentInfo;
use crate::globals::GlobalCtx;
use crate::globals::Polarity;
use crate::globals::PortLabel;
use crate::globals::Type;
use crate::lifetimes::LifetimeCtx;
use crate::scope::DefinitionState;
use crate::vars::uses_ok;
use crate::vars::Var;
use crate::vars::VarCtx;

verus! {

/// What a source file declares: its types, agents, rules and nets, in the
/// order of the file, and the scopes of the names that they use.
pub struct Program {
    pub globals: GlobalCtx,
    pub types: Vec<TypeDef>,
    pub agents: Vec<AgentDef>,
    pub rules: Vec<RuleDef>,
    pub nets: Vec<NetDef>,
}

/// The declaration of a type: the type of the declared name, and its polarity.
pub struct TypeDef {
    pub id: Type,
    pub polarity: Polarity,
}

/// The declaration of an agent: its lifetime contract and the labels of its
/// ports.
pub struct AgentDef {
    pub id: Component,
    pub lt_ctx: LifetimeCtx,
    pub ports: Vec<PortLabel>,
}

/// The declaration of a rule: the two nodes that it matches and the net that
/// it puts in their place.
pub struct RuleDef {
    pub var_ctx: VarCtx,
    pub a: Node,
    pub b: Node,
    pub result: Vec<Node>,
}

/// The declaration of a net: its lifetime contract, its free ports and its
/// nodes.
pub struct NetDef {
    pub id: Component,
    pub var_ctx: VarCtx,
    pub lt_ctx: LifetimeCtx,
    pub free_ports: Vec<(Var, PortLabel)>,
    pub nodes: Vec<Node>,
}

/// An instance of a component, with one variable at each port.
pub struct Node {
    pub component: Component,
    pub ports: Vec<Var>,
}

/// Whether a label names a type among `types` types and a lifetime among
/// `lifetimes` lifetimes.
pub open spec fn label_ok(label: PortLabel, types: nat, lifetimes: nat) -> bool {
    label.0.0 < types && label.1.0 < lifetimes
}

/// Whether every label of a list is in range.
pub open spec fn labels_ok(labels: Seq<PortLabel>, types: nat, lifetimes: nat) -> bool {
    forall|i: int| 0 <= i < labels.len() ==> label_ok(#[trigger] labels[i], types, lifetimes)
}

/// Whether a node names a component among `components` components and
/// variables among `vars` variables.
pub open spec fn node_ok(node: Node, components: nat, vars: nat) -> bool {
    &&& node.component.0 < components
    &&& forall|p: int| 0 <= p < node.ports@.len() ==> (#[trigger] node.ports@[p]).0 < vars
}

/// The validity of the contract of a component: its lifetime context is
/// valid, and the labels of its ports are in range.
pub open spec fn info_wf(info: ComponentInfo, types: nat) -> bool {
    &&& info.lt_ctx.wf()
    &&& labels_ok(info.ports@, types, info.lt_ctx.lifetimes@.len())
}

impl GlobalCtx {
    /// The validity of the global scopes: the types come in pairs, the order of
    /// the types is an order over them whose forward relations are all strict,
    /// and the contract of every defined component is valid.
    pub open spec fn wf(&self) -> bool {
        &&& self.type_order.wf()
        &&& crate::order::find_cycles::all_strict(self.type_order@)
        &&& self.type_order@.len() <= self.types@.len()
        &&& self.types@.len() % 2 == 0
        &&& forall|c: int|
            0 <= c < self.components@.len() ==> ((
            #[trigger] self.components@[c]).state matches DefinitionState::Defined(info)
                ==> info_wf(info, self.types@.len()))
    }
}

impl TypeDef {
    /// The validity of the declaration: it names a type of the scope.
    pub open spec fn wf(&self, types: nat) -> bool {
        self.id.0 < types
    }
}

impl AgentDef {
    /// The validity of the declaration: it names a component of the scope, its
    /// lifetime context is valid, and the labels of its ports are in range.
    pub open spec fn wf(&self, types: nat, components: nat) -> bool {
        &&& self.id.0 < components
        &&& self.lt_ctx.wf()
        &&& labels_ok(self.ports@, types, self.lt_ctx.lifetimes@.len())
    }
}

impl RuleDef {
    /// The validity of the declaration: its nodes name components and
    /// variables of their scopes, and no use of a variable is recorded yet.
    pub open spec fn wf(&self, types: nat, components: nat) -> bool {
        &&& node_ok(self.a, components, self.var_ctx.vars@.len())
        &&& node_ok(self.b, components, self.var_ctx.vars@.len())
        &&& forall|k: int|
            0 <= k < self.result@.len() ==> node_ok(
                #[trigger] self.result@[k],
                components,
                self.var_ctx.vars@.len(),
            )
        &&& uses_ok(self.var_ctx.vars@, types, 0)
    }
}

impl NetDef {
    /// The validity of the declaration: it names a component of the scope, its
    /// lifetime context is valid, its free ports and nodes name variables and
    /// components of their scopes, and the uses of variables that are recorded
    /// are in range.
    pub open spec fn wf(&self, types: nat, components: nat) -> bool {
        &&& self.id.0 < components
        &&& self.lt_ctx.wf()
        &&& forall|k: int|
            0 <= k < self.free_ports@.len() ==> (#[trigger] self.free_ports@[k]).0.0
                < self.var_ctx.vars@.len() && label_ok(
                self.free_ports@[k].1,
                types,
                self.lt_ctx.lifetimes@.len(),
            )
        &&& forall|k: int|
            0 <= k < self.nodes@.len() ==> node_ok(
                #[trigger] self.nodes@[k],
                components,
                self.var_ctx.vars@.len(),
            )
        &&& uses_ok(self.var_ctx.vars@, types, self.lt_ctx.lifetimes@.len())
    }
}

impl Program {
    /// The validity of the declarations of a program with `types` types and
    /// `components` components.
    pub open spec fn items_wf(&self, types: nat, components: nat) -> bool {
        &&& forall|i: int| 0 <= i < self.types@.len() ==> (#[trigger] self.types@[i]).wf(types)
        &&& forall|i: int|
            0 <= i < self.agents@.len() ==> (#[trigger] self.agents@[i]).wf(types, components)
        &&& forall|i: int|
            0 <= i < self.rules@.len() ==> (#[trigger] self.rules@[i]).wf(types, components)
        &&& forall|i: int| 0 <= i < self.nets@.len() ==> (#[trigger] self.nets@[i]).wf(types, components)
    }

    /// Whether nothing of the program has been checked yet: no type and no
    /// component is defined, and the order of the types is empty.
    pub open spec fn unchecked(&self) -> bool {
        &&& self.globals.type_order@.len() == 0
        &&& forall|t: int|
            0 <= t < self.globals.types@.len() ==> (#[trigger] self.globals.types@[t]).state is Undefined
        &&& forall|c: int|
            0 <= c < self.globals.components@.len() ==> (
            #[trigger] self.globals.components@[c]).state is Undefined
    }

    /// The validity of a program: its scopes and all its declarations are
    /// valid.
    pub open spec fn wf(&self) -> bool {
        &&& self.globals.wf()
        &&& self.items_wf(self.globals.types@.len(), self.globals.components@.len())
    }
}

/// Declarations that are valid stay valid when types and components are added.
pub proof fn lemma_items_wf_grows(
    program: &Program,
    types: nat,
    components: nat,
    more_types: nat,
    more_components: nat,
)
    requires
        program.items_wf(types, components),
        types <= more_types,
        components <= more_components,
    ensures
        program.items_wf(more_types, more_components),
{
    assert forall|i: int| 0 <= i < program.agents@.len() implies (#[trigger] program.agents@[i]).wf(
        more_types,
        more_components,
    ) by {
        let def = program.agents@[i];
        assert(def.wf(types, components));
        assert forall|k: int| 0 <= k < def.ports@.len() implies label_ok(
            #[trigger] def.ports@[k],
            more_types,
            def.lt_ctx.lifetimes@.len(),
        ) by {
            assert(label_ok(def.ports@[k], types, def.lt_ctx.lifetimes@.len()));
        }
    }
    assert forall|i: int| 0 <= i < program.rules@.len() implies (#[trigger] program.rules@[i]).wf(
        more_types,
        more_components,
    ) by {
        let def = program.rules@[i];
        assert(def.wf(types, components));
        assert forall|k: int| 0 <= k < def.result@.len() implies node_ok(
            #[trigger] def.result@[k],
            more_components,
            def.var_ctx.vars@.len(),
        ) by {
            assert(node_ok(def.result@[k], components, def.var_ctx.vars@.len()));
        }
        crate::vars::lemma_uses_ok_more_types(def.var_ctx.vars@, types, more_types, 0);
    }
    assert forall|i: int| 0 <= i < program.nets@.len() implies (#[trigger] program.nets@[i]).wf(
        more_types,
        more_components,
    ) by {
        let def = program.nets@[i];
        assert(def.wf(types, components));
        assert forall|k: int| 0 <= k < def.nodes@.len() implies node_ok(
            #[trigger] def.nodes@[k],
            more_components,
            def.var_ctx.vars@.len(),
        ) by {
            assert(node_ok(def.nodes@[k], components, def.var_ctx.vars@.len()));
        }
        assert forall|k: int| 0 <= k < def.free_ports@.len() implies (
        #[trigger] def.free_ports@[k]).0.0 < def.var_ctx.vars@.len() && label_ok(
            def.free_ports@[k].1,
            more_types,
            def.lt_ctx.lifetimes@.len(),
        ) by {
            assert(label_ok(def.free_ports@[k].1, types, def.lt_ctx.lifetimes@.len()));
        }
        crate::vars::lemma_uses_ok_more_types(
            def.var_ctx.vars@,
            types,
            more_types,
            def.lt_ctx.lifetimes@.len(),
        );
    }
    assert forall|i: int| 0 <= i < program.types@.len() implies (#[trigger] program.types@[i]).wf(
        more_types,
    ) by {
        assert(program.types@[i].wf(types));
    }
}

impl Default for Program {
    fn default() -> (r: Self)
        ensures
            r.wf(),
            r.globals.types@.len() == 0,
            r.globals.components@.len() == 0,
            r.globals.type_order@.len() == 0,
            r.types@.len() == 0,
            r.agents@.len() == 0,
            r.rules@.len() == 0,
            r.nets@.len() == 0,
    {
        Program {
            globals: GlobalCtx::default(),
            types: Vec::new(),
            agents: Vec::new(),
            rules: Vec::new(),
            nets: Vec::new(),
        }
    }
}

} // verus!
