use vstd::prelude::*;
use crate::index_vec::Idx;
use vstd::string::StringExecFns;
use crate::error::Error;
use crate::error::ErrorGroup;
use crate::error::ErrorTree;
use crate::globals::ComponentInfo;
use crate::globals::GlobalCtx;
use crate::globals::PortLabel;
use crate::globals::TypeInfo;
use crate::lifetimes::Lifetime;
use crate::lifetimes::check_satisfiable::contract_outcome;
use crate::lifetimes::check_satisfiable::entry_names;
use crate::order::coherent_outcome;
use crate::lifetimes::check_satisfiable::incoherent_text;
use crate::lifetimes::check_satisfiable::missing_text;
use crate::order::imported_rows;
use crate::order::same_edges;
use crate::lifetimes::check_satisfiable::satisfiable_outcome;
use crate::lifetimes::LifetimeCtx;
use crate::lifetimes::Side;
use crate::order::relation::Relation;
use crate::order::Order;
use crate::program::info_wf;
use crate::program::label_ok;
use crate::program::labels_ok;
use crate::program::node_ok;
use crate::program::AgentDef;
use crate::program::NetDef;
use crate::program::Node;
use crate::program::Program;
use crate::program::RuleDef;
use crate::program::TypeDef;
use crate::scope::duplicate_text;
use crate::scope::leaf;
use crate::scope::DefinitionState;
use crate::scope::ScopeEntry;
use crate::text::quoted;
use crate::text::quoted_text;
use crate::globals::dual_of;
use crate::vars::inferred;
use crate::vars::lemma_uses_ok_grows;
use crate::vars::var_errors;
use crate::vars::var_relations;
use crate::vars::var_uses;
use crate::vars::with_use;
use crate::vars::Inferred;
use crate::vars::VarCtx;
use crate::vars::lemma_uses_ok_record;
use crate::vars::uses_ok;

verus! {

/// The label of the errors of an agent.
pub open spec fn agent_text(name: Seq<char>) -> Seq<char> {
    "in agent "@ + quoted_text(name) + ":"@
}

/// The label of the errors of a net.
pub open spec fn net_text(name: Seq<char>) -> Seq<char> {
    "in net "@ + quoted_text(name) + ":"@
}

/// The label of the errors of a rule.
pub open spec fn rule_text(first: Seq<char>, second: Seq<char>) -> Seq<char> {
    "in rule "@ + quoted_text(first + "-"@ + second) + ":"@
}

/// What looking up an entry of a scope gives where the entry is not defined:
/// the error that names it, or the one that refers to its earlier failure.
pub open spec fn lookup_error<T>(
    kind: Seq<char>,
    entries: Seq<ScopeEntry<T>>,
    index: usize,
) -> Option<ErrorTree> {
    match entries[index as int].state {
        DefinitionState::Defined(_) => None,
        DefinitionState::Undefined => Some(
            leaf(crate::scope::undefined_text(kind, entries[index as int].name)),
        ),
        DefinitionState::Poisoned => Some(
            leaf(crate::scope::poisoned_text(kind, entries[index as int].name)),
        ),
    }
}

/// A list of errors with one more, if there is one.
pub open spec fn with_error(errors: Seq<ErrorTree>, more: Option<ErrorTree>) -> Seq<ErrorTree> {
    match more {
        Some(e) => errors.push(e),
        None => errors,
    }
}

/// The errors of the labels of a declaration, in order: for each label the
/// error of its type and then that of its lifetime, where they are not
/// defined.
pub open spec fn label_errors(
    types: Seq<ScopeEntry<TypeInfo>>,
    lifetimes: Seq<ScopeEntry<crate::lifetimes::LifetimeInfo>>,
    labels: Seq<PortLabel>,
) -> Seq<ErrorTree>
    decreases labels.len(),
{
    if labels.len() == 0 {
        Seq::empty()
    } else {
        with_error(
            with_error(
                label_errors(types, lifetimes, labels.drop_last()),
                lookup_error("type"@, types, labels.last().0.0),
            ),
            lookup_error("lifetime"@, lifetimes, labels.last().1.0),
        )
    }
}

/// The labels of the free ports of a net.
pub open spec fn free_labels(ports: Seq<(crate::vars::Var, PortLabel)>) -> Seq<PortLabel> {
    Seq::new(ports.len(), |i: int| ports[i].1)
}

/// Whether `causes` starts with the errors `first`.
pub open spec fn starts_with_errors(causes: Seq<ErrorTree>, first: Seq<ErrorTree>) -> bool {
    first.len() <= causes.len() && causes.subrange(0, first.len() as int) == first
}

/// The errors `start` and then those of the nodes, in order: for each node
/// the error of its component, where that is not defined.
pub open spec fn node_errors(
    start: Seq<ErrorTree>,
    components: Seq<ScopeEntry<ComponentInfo>>,
    nodes: Seq<Node>,
) -> Seq<ErrorTree>
    decreases nodes.len(),
{
    if nodes.len() == 0 {
        start
    } else {
        with_error(
            node_errors(start, components, nodes.drop_last()),
            lookup_error("component"@, components, nodes.last().component.0),
        )
    }
}

/// The errors that end the check of a rule before its lifetimes are looked
/// at: that the matched nodes do not meet, and the errors of the components
/// of the matched nodes and of the nodes of the result.
pub open spec fn rule_errors(components: Seq<ScopeEntry<ComponentInfo>>, rule: RuleDef) -> Seq<
    ErrorTree,
> {
    node_errors(
        with_error(
            with_error(
                if connected(rule.a, rule.b) {
                    Seq::empty()
                } else {
                    seq![leaf(not_connected_text())]
                },
                lookup_error("component"@, components, rule.a.component.0),
            ),
            lookup_error("component"@, components, rule.b.component.0),
        ),
        components,
        rule.result@,
    )
}

/// Whether `r` is what defining a component gives, where its labels give
/// the errors `first` and the check of its contract gives `sat`: the errors
/// of the labels, then that of the contract, then that of a component that is
/// defined already, all under `label`; and success without any.
pub open spec fn defined_outcome(
    first: Seq<ErrorTree>,
    sat: Result<(), Error>,
    component: ScopeEntry<ComponentInfo>,
    label: Seq<char>,
    r: Result<(), Error>,
) -> bool {
    let checked = match sat {
        Ok(_) => first,
        Err(e) => first.push(e@),
    };
    let errors = if component.state is Undefined {
        checked
    } else {
        checked.push(leaf(duplicate_text("component"@, component.name)))
    };
    if errors.len() == 0 {
        r is Ok
    } else {
        r is Err && r->Err_0@ == (ErrorTree { message: label, causes: errors })
    }
}

/// What an agent requires of its lifetimes, by its first `n` ports: the
/// lifetime of every auxiliary port of the dual of the principal type is
/// strictly below that of the principal port, under the polarity of the
/// principal type.
pub open spec fn agent_required(
    types: Seq<ScopeEntry<TypeInfo>>,
    ports: Seq<PortLabel>,
    n: int,
) -> crate::order::Rows
    decreases n,
{
    if n <= 1 {
        Seq::empty()
    } else {
        let before = agent_required(types, ports, n - 1);
        let aux = ports[n - 1];
        if aux.0.dual() == ports[0].0 {
            crate::order::related(
                before,
                aux.1.0,
                ports[0].1.0,
                Relation::LT.twist(types[ports[0].0.0 as int].state->Defined_0.polarity),
            )
        } else {
            before
        }
    }
}

/// Whether `r` is what the check of an agent gives. An agent without a port
/// of the dual of the principal type passes. Else the principal type must be
/// defined: the error of its lookup is the only cause. Else what the agent
/// requires must follow from the two orders of its contract taken together,
/// with no lifetime left out: the error of that check is the only cause.
pub open spec fn agent_outcome(
    types: Seq<ScopeEntry<TypeInfo>>,
    lifetimes: Seq<ScopeEntry<crate::lifetimes::LifetimeInfo>>,
    ex_order: crate::order::Rows,
    in_order: crate::order::Rows,
    ports: Seq<PortLabel>,
    label: Seq<char>,
    r: Result<(), Error>,
) -> bool {
    if no_dual_port(ports, ports.len() as int) {
        r is Ok
    } else if !(types[ports[0].0.0 as int].state is Defined) {
        r is Err && r->Err_0@ == (ErrorTree {
            message: label,
            causes: seq![lookup_error("type"@, types, ports[0].0.0)->0],
        })
    } else {
        exists|full: crate::order::Rows, sat: Result<(), Error>|
            #![trigger satisfiable_outcome(lifetimes, None, full, agent_required(types, ports, ports.len() as int), incoherent_text(Side::Internal), missing_text(Side::Internal), sat)]
            same_edges(full, imported_rows(ex_order, in_order, 0)) && satisfiable_outcome(
                lifetimes,
                None,
                full,
                agent_required(types, ports, ports.len() as int),
                incoherent_text(Side::Internal),
                missing_text(Side::Internal),
                sat,
            ) && match sat {
                Ok(_) => r is Ok,
                Err(e) => r is Err && r->Err_0@ == (ErrorTree { message: label, causes: seq![e@] }),
            }
    }
}

/// The uses after the variables at the first `n` free ports of a net have
/// each taken the label of their port, with its type turned to its dual.
pub open spec fn free_uses(
    uses: Seq<ScopeEntry<Seq<PortLabel>>>,
    free_ports: Seq<(crate::vars::Var, PortLabel)>,
    n: int,
) -> Seq<ScopeEntry<Seq<PortLabel>>>
    decreases n,
{
    if n <= 0 {
        uses
    } else {
        with_use(
            free_uses(uses, free_ports, n - 1),
            free_ports[n - 1].0,
            PortLabel(free_ports[n - 1].1.0.dual(), free_ports[n - 1].1.1),
        )
    }
}

/// Whether the state and `r` are what the check of the nodes of a rule or net
/// gives, from the state `start` on. The nodes bring in the contracts of their
/// components and the uses of their variables; every variable is checked, and
/// those that pass put their relations on the obligations; then the
/// obligations must follow from the guarantees. The errors are those so far
/// and of the nodes, then those of the variables, then that of the
/// obligations, all under `label`; without any, the check succeeds.
pub open spec fn checked_outcome(
    types: Seq<ScopeEntry<TypeInfo>>,
    components: Seq<ScopeEntry<ComponentInfo>>,
    start: Inferred,
    nodes: Seq<Node>,
    vars: Seq<ScopeEntry<crate::vars::VarInfo>>,
    lifetimes: Seq<ScopeEntry<crate::lifetimes::LifetimeInfo>>,
    ex_order: crate::order::Rows,
    in_order: crate::order::Rows,
    label: Seq<char>,
    r: Result<(), Error>,
) -> bool {
    let end = inferred(start, components, nodes, nodes.len() as int);
    &&& var_uses(vars) == end.uses
    &&& lifetimes == end.lifetimes
    &&& same_edges(ex_order, end.ex_order)
    &&& exists|mid: crate::order::Rows|
        same_edges(mid, end.in_order) && in_order == #[trigger] crate::order::related_all(
            mid,
            var_relations(types, vars),
        )
    &&& exists|sat: Result<(), Error>|
        #![trigger satisfiable_outcome(lifetimes, Some(Side::Internal), ex_order, in_order, incoherent_text(Side::Internal), missing_text(Side::Internal), sat)]
        satisfiable_outcome(
            lifetimes,
            Some(Side::Internal),
            ex_order,
            in_order,
            incoherent_text(Side::Internal),
            missing_text(Side::Internal),
            sat,
        ) && {
            let errors = end.errors + var_errors(types, vars) + (match sat {
                Ok(_) => Seq::empty(),
                Err(e) => seq![e@],
            });
            if errors.len() == 0 {
                r is Ok
            } else {
                r is Err && r->Err_0@ == (ErrorTree { message: label, causes: errors })
            }
        }
}

/// The lifetimes of a context after those of `from` have been brought in
/// under a prefix.
pub open spec fn brought_lifetimes(
    lifetimes: Seq<ScopeEntry<crate::lifetimes::LifetimeInfo>>,
    from: Seq<ScopeEntry<crate::lifetimes::LifetimeInfo>>,
    invert: bool,
    prefix: Seq<char>,
) -> Seq<ScopeEntry<crate::lifetimes::LifetimeInfo>> {
    lifetimes + Seq::new(
        from.len(),
        |i: int| crate::lifetimes::imported_entry(from[i], invert, prefix, lifetimes.len() as usize),
    )
}

/// The use that a matched node records at its port `k`: the label of the
/// port, with the dual of its type at an auxiliary port, and with its
/// lifetime moved up by `base`.
pub open spec fn matched_label(labels: Seq<PortLabel>, k: int, base: usize) -> PortLabel {
    PortLabel(
        if k != 0 {
            labels[k].0.dual()
        } else {
            labels[k].0
        },
        Lifetime((base + labels[k].1.0) as usize),
    )
}

/// The uses after the variables at the first `count` ports of a matched node
/// have each taken their use.
pub open spec fn matched_uses(
    uses: Seq<ScopeEntry<Seq<PortLabel>>>,
    ports: Seq<crate::vars::Var>,
    labels: Seq<PortLabel>,
    base: usize,
    count: int,
) -> Seq<ScopeEntry<Seq<PortLabel>>>
    decreases count,
{
    if count <= 0 {
        uses
    } else {
        with_use(
            matched_uses(uses, ports, labels, base, count - 1),
            ports[count - 1],
            matched_label(labels, count - 1, base),
        )
    }
}

/// The uses and the errors after a matched node: its variables take their
/// uses, or, where the node has another number of ports than its component,
/// are poisoned, with the error of the arity.
pub open spec fn matched_node(
    uses: Seq<ScopeEntry<Seq<PortLabel>>>,
    errors: Seq<ErrorTree>,
    entry: ScopeEntry<ComponentInfo>,
    node: Node,
    base: usize,
) -> (Seq<ScopeEntry<Seq<PortLabel>>>, Seq<ErrorTree>) {
    let info = entry.state->Defined_0;
    if node.ports@.len() == info.ports@.len() {
        (matched_uses(uses, node.ports@, info.ports@, base, node.ports@.len() as int), errors)
    } else {
        (
            crate::vars::poisoned_upto(uses, node.ports@, node.ports@.len() as int),
            errors.push(
                leaf(crate::vars::arity_text(entry.name, info.ports@.len(), node.ports@.len())),
            ),
        )
    }
}

/// The relation that a rule puts between the principal lifetimes of its two
/// matched components: the first at most the second, under the polarity of
/// the principal type of the first. None where a component has no port or
/// the type is not defined.
pub open spec fn principal_relation(
    types: Seq<ScopeEntry<TypeInfo>>,
    a: ComponentInfo,
    b: ComponentInfo,
) -> Option<Relation> {
    if a.ports@.len() > 0 && b.ports@.len() > 0 && types[a.ports@[0].0.0 as int].state is Defined {
        Some(Relation::LE.twist(types[a.ports@[0].0.0 as int].state->Defined_0.polarity))
    } else {
        None
    }
}

/// The error of the principal type of the first matched component, where both
/// components have ports and the type is not defined.
pub open spec fn principal_errors(
    types: Seq<ScopeEntry<TypeInfo>>,
    a: ComponentInfo,
    b: ComponentInfo,
) -> Seq<ErrorTree> {
    if a.ports@.len() > 0 && b.ports@.len() > 0 {
        with_error(Seq::empty(), lookup_error("type"@, types, a.ports@[0].0.0))
    } else {
        Seq::empty()
    }
}

/// What the context of a rule guarantees for a pair of lifetimes: what the two
/// matched components guarantee, the second with its lifetimes behind those
/// of the first, and the relation between the two principal lifetimes.
pub open spec fn rule_guarantee(
    types: Seq<ScopeEntry<TypeInfo>>,
    a: ComponentInfo,
    b: ComponentInfo,
    x: usize,
    y: usize,
) -> Option<Relation> {
    let base = a.lt_ctx.lifetimes@.len() as usize;
    let brought = crate::order::imported_edge(
        imported_rows(Seq::empty(), a.lt_ctx.ex_order@, 0),
        b.lt_ctx.ex_order@,
        base,
        x,
        y,
    );
    match principal_relation(types, a, b) {
        Some(rel) => {
            let p = a.ports@[0].1.0;
            let q = (base + b.ports@[0].1.0) as usize;
            if x == p && y == q {
                Some(crate::order::conjoined(brought, rel))
            } else if x == q && y == p {
                Some(crate::order::conjoined(brought, rel.rev()))
            } else {
                brought
            }
        },
        None => brought,
    }
}

/// What the context of a rule owes for a pair of lifetimes before its
/// variables are checked: what the two matched components owe.
pub open spec fn rule_obligation(a: ComponentInfo, b: ComponentInfo, x: usize, y: usize) -> Option<
    Relation,
> {
    crate::order::imported_edge(
        imported_rows(Seq::empty(), a.lt_ctx.in_order@, 0),
        b.lt_ctx.in_order@,
        a.lt_ctx.lifetimes@.len() as usize,
        x,
        y,
    )
}

/// Whether `start` is the state of the check of a rule before the nodes of
/// its result are looked at: the lifetimes of the two matched components
/// under their names, their guarantees and obligations with the relation of
/// the principal lifetimes, the uses of the variables of the matched nodes,
/// and the errors of the principal type and of the arities.
pub open spec fn rule_start(
    types: Seq<ScopeEntry<TypeInfo>>,
    components: Seq<ScopeEntry<ComponentInfo>>,
    rule: RuleDef,
    start: Inferred,
) -> bool {
    let first = components[rule.a.component.0 as int];
    let second = components[rule.b.component.0 as int];
    let a = first.state->Defined_0;
    let b = second.state->Defined_0;
    let base = a.lt_ctx.lifetimes@.len() as usize;
    let after_a = matched_node(
        var_uses(rule.var_ctx.vars@),
        principal_errors(types, a, b),
        first,
        rule.a,
        0,
    );
    let after_b = matched_node(after_a.0, after_a.1, second, rule.b, base);
    &&& start.lifetimes == brought_lifetimes(
        brought_lifetimes(Seq::empty(), a.lt_ctx.lifetimes@, false, first.name + "."@),
        b.lt_ctx.lifetimes@,
        false,
        second.name + "."@,
    )
    &&& forall|x: usize, y: usize|
        #![trigger crate::order::edge(start.ex_order, x, y)]
        crate::order::edge(start.ex_order, x, y) == rule_guarantee(types, a, b, x, y)
    &&& forall|x: usize, y: usize|
        #![trigger crate::order::edge(start.in_order, x, y)]
        crate::order::edge(start.in_order, x, y) == rule_obligation(a, b, x, y)
    &&& start.uses == after_b.0
    &&& start.errors == after_b.1
}

/// Whether `vars` and `r` are what the check of a rule gives once its nodes
/// meet and all its components are defined. A context that cannot take the
/// lifetimes of both matched components is the only error. Else the check
/// goes on from the state of `rule_start` with the nodes of the result.
pub open spec fn rule_outcome(
    types: Seq<ScopeEntry<TypeInfo>>,
    components: Seq<ScopeEntry<ComponentInfo>>,
    rule: RuleDef,
    vars: Seq<ScopeEntry<crate::vars::VarInfo>>,
    r: Result<(), Error>,
) -> bool {
    let first = components[rule.a.component.0 as int];
    let second = components[rule.b.component.0 as int];
    let label = rule_text(first.name, second.name);
    if first.state->Defined_0.lt_ctx.lifetimes@.len() + second.state->Defined_0.lt_ctx.lifetimes@.len()
        > usize::MAX {
        r is Err && r->Err_0@ == (ErrorTree {
            message: label,
            causes: seq![leaf(crate::vars::too_many_lifetimes_text())],
        }) && vars == rule.var_ctx.vars@
    } else {
        exists|
            start: Inferred,
            lifetimes: Seq<ScopeEntry<crate::lifetimes::LifetimeInfo>>,
            ex_order: crate::order::Rows,
            in_order: crate::order::Rows,
        |
            #![trigger checked_outcome(types, components, start, rule.result@, vars, lifetimes, ex_order, in_order, label, r)]
            rule_start(types, components, rule, start) && checked_outcome(
                types,
                components,
                start,
                rule.result@,
                vars,
                lifetimes,
                ex_order,
                in_order,
                label,
                r,
            )
    }
}

/// Records the uses of the variables of a matched node whose component has
/// its lifetimes from `base` on.
fn record_matched(
    vars: &mut VarCtx,
    errors: &mut ErrorGroup,
    globals: &GlobalCtx,
    node: &Node,
    base: Lifetime,
    Ghost(total): Ghost<nat>,
)
    requires
        globals.wf(),
        globals.components.defined(node.component),
        node_ok(*node, globals.components@.len(), old(vars).vars@.len()),
        uses_ok(old(vars).vars@, globals.types@.len(), total),
        base.0 + globals.components.value(node.component).lt_ctx.lifetimes@.len() <= total,
        total <= usize::MAX,
    ensures
        final(vars).vars@.len() == old(vars).vars@.len(),
        uses_ok(final(vars).vars@, globals.types@.len(), total),
        (var_uses(final(vars).vars@), final(errors)@) == matched_node(
            var_uses(old(vars).vars@),
            old(errors)@,
            globals.components@[node.component.0 as int],
            *node,
            base.0,
        ),
{
    let ghost types = globals.types@.len();
    let ghost vars_before = vars.vars@;
    let info = globals.components.at(node.component);
    assert(globals.components@[node.component.0 as int].state is Defined);
    match vars.check_node_arity(node, globals) {
        Ok(pairs) => {
            let mut k: usize = 0;
            while k < pairs.len()
                invariant
                    k <= pairs@.len(),
                    types == globals.types@.len(),
                    types % 2 == 0,
                    total <= usize::MAX,
                    vars.vars@.len() == old(vars).vars@.len(),
                    uses_ok(vars.vars@, types, total),
                    pairs@.len() == info.ports@.len(),
                    pairs@.len() == node.ports@.len(),
                    forall|m: int|
                        0 <= m < pairs@.len() ==> (#[trigger] pairs@[m]).1 == info.ports@[m]
                            && pairs@[m].0 == node.ports@[m],
                    labels_ok(info.ports@, types, info.lt_ctx.lifetimes@.len()),
                    base.0 + info.lt_ctx.lifetimes@.len() <= total,
                    var_uses(vars.vars@) == matched_uses(
                        var_uses(vars_before),
                        node.ports@,
                        info.ports@,
                        base.0,
                        k as int,
                    ),
                decreases pairs@.len() - k,
            {
                let (var, label) = pairs[k];
                assert(label_ok(info.ports@[k as int], types, info.lt_ctx.lifetimes@.len()));
                let ty = if k != 0 {
                    dual_of(label.0)
                } else {
                    label.0
                };
                let moved = PortLabel(ty, label.1.offset(base));
                let ghost before = vars.vars@;
                vars.record_use(var, moved);
                proof {
                    lemma_uses_ok_record(before, vars.vars@, var, moved, types, total);
                    crate::vars::lemma_recorded_use(before, vars.vars@, var, moved);
                    assert(moved == matched_label(info.ports@, k as int, base.0));
                }
                k += 1;
            }
        },
        Err(e) => {
            proof {
                crate::vars::lemma_poisoned_upto(
                    vars_before,
                    node.ports@,
                    node.ports@.len() as int,
                );
                crate::vars::lemma_poisoned_uses(
                    vars_before,
                    node.ports@,
                    node.ports@.len() as int,
                );
                assert forall|v: int| 0 <= v < vars.vars@.len() implies ((
                #[trigger] vars.vars@[v]).state matches DefinitionState::Defined(info)
                    ==> labels_ok(info.uses@, types, total)) by {
                    assert(vars.vars@[v].state == vars_before[v].state
                        || vars.vars@[v].state is Poisoned);
                }
            }
            errors.push_error(e);
        },
    }
}

/// Whether the component of a declaration is what its definition leaves: on
/// success defined with the labels and the contract of the declaration, else
/// poisoned.
pub open spec fn component_after(
    entry: ScopeEntry<ComponentInfo>,
    ports: Seq<PortLabel>,
    lt_ctx: LifetimeCtx,
    r: Result<(), Error>,
) -> bool {
    if r is Ok {
        &&& entry.state is Defined
        &&& entry.state->Defined_0.ports@ == ports
        &&& entry.state->Defined_0.lt_ctx.lifetimes@ == lt_ctx.lifetimes@
        &&& entry.state->Defined_0.lt_ctx.ex_order@ == lt_ctx.ex_order@
        &&& entry.state->Defined_0.lt_ctx.in_order@ == lt_ctx.in_order@
    } else {
        entry.state is Poisoned
    }
}

/// Whether the scopes, the agent and `r` are what the definition of an agent
/// gives.
pub open spec fn agent_defined(
    before: GlobalCtx,
    agent: AgentDef,
    after: GlobalCtx,
    agent_after: AgentDef,
    r: Result<(), Error>,
) -> bool {
    let entry = before.components@[agent.id.0 as int];
    &&& only_component_changed(&before, &after, agent.id.0)
    &&& agent_after.id == agent.id
    &&& agent_after.ports@ == agent.ports@
    &&& agent_after.lt_ctx.ex_order@ == agent.lt_ctx.ex_order@
    &&& agent_after.lt_ctx.in_order@ == agent.lt_ctx.in_order@
    &&& component_after(
        after.components@[agent.id.0 as int],
        agent.ports@,
        agent_after.lt_ctx,
        r,
    )
    &&& exists|sat: Result<(), Error>|
        #![trigger defined_outcome(label_errors(before.types@, agent.lt_ctx.lifetimes@, agent.ports@), sat, entry, agent_text(entry.name), r)]
        contract_outcome(
            agent.lt_ctx.lifetimes@,
            agent.lt_ctx.ex_order@,
            agent.lt_ctx.in_order@,
            agent_after.lt_ctx.lifetimes@,
            sat,
        ) && defined_outcome(
            label_errors(before.types@, agent.lt_ctx.lifetimes@, agent.ports@),
            sat,
            entry,
            agent_text(entry.name),
            r,
        )
}

/// Whether the scopes, the net and `r` are what the definition of a net gives.
pub open spec fn net_defined(
    before: GlobalCtx,
    net: NetDef,
    after: GlobalCtx,
    net_after: NetDef,
    r: Result<(), Error>,
) -> bool {
    let entry = before.components@[net.id.0 as int];
    &&& only_component_changed(&before, &after, net.id.0)
    &&& net_after.id == net.id
    &&& net_after.free_ports@ == net.free_ports@
    &&& net_after.nodes@ == net.nodes@
    &&& net_after.var_ctx.vars@ == net.var_ctx.vars@
    &&& net_after.lt_ctx.ex_order@ == net.lt_ctx.ex_order@
    &&& net_after.lt_ctx.in_order@ == net.lt_ctx.in_order@
    &&& component_after(
        after.components@[net.id.0 as int],
        free_labels(net.free_ports@),
        net_after.lt_ctx,
        r,
    )
    &&& exists|sat: Result<(), Error>|
        #![trigger defined_outcome(label_errors(before.types@, net.lt_ctx.lifetimes@, free_labels(net.free_ports@)), sat, entry, net_text(entry.name), r)]
        contract_outcome(
            net.lt_ctx.lifetimes@,
            net.lt_ctx.ex_order@,
            net.lt_ctx.in_order@,
            net_after.lt_ctx.lifetimes@,
            sat,
        ) && defined_outcome(
            label_errors(before.types@, net.lt_ctx.lifetimes@, free_labels(net.free_ports@)),
            sat,
            entry,
            net_text(entry.name),
            r,
        )
}

/// Whether the scopes and `r` are what the check of an agent gives: the types
/// and the components stay, the order of the types takes the relations of the
/// ports that were looked at, and `r` is the outcome of the agent.
pub open spec fn agent_checked(
    before: GlobalCtx,
    agent: AgentDef,
    after: GlobalCtx,
    r: Result<(), Error>,
) -> bool {
    let ports = agent.ports@;
    &&& after.types@ == before.types@
    &&& after.components@ == before.components@
    &&& r is Ok || (ports.len() > 0 && before.types.defined(ports[0].0)) ==> after.type_order@
        == agent_type_order(before.type_order@, ports, ports.len() as int)
    &&& !no_dual_port(ports, ports.len() as int) && !before.types.defined(ports[0].0)
        ==> exists|k: int|
        1 <= k < ports.len() && no_dual_port(ports, k) && (#[trigger] ports[k]).0.dual()
            == ports[0].0 && after.type_order@ == agent_type_order(before.type_order@, ports, k)
    &&& agent_outcome(
        before.types@,
        agent.lt_ctx.lifetimes@,
        agent.lt_ctx.ex_order@,
        agent.lt_ctx.in_order@,
        ports,
        agent_text(before.components@[agent.id.0 as int].name),
        r,
    )
}

/// Whether the rule and `r` are what the check of a rule gives: the errors of
/// nodes that do not meet or name no defined component end it at once; else
/// `r` is the outcome of the rule.
pub open spec fn rule_checked(
    globals: GlobalCtx,
    rule: RuleDef,
    rule_after: RuleDef,
    r: Result<(), Error>,
) -> bool {
    let first = rule_errors(globals.components@, rule);
    if first.len() > 0 {
        r is Err && r->Err_0@ == (ErrorTree {
            message: rule_text(
                globals.components@[rule.a.component.0 as int].name,
                globals.components@[rule.b.component.0 as int].name,
            ),
            causes: first,
        }) && rule_after == rule
    } else {
        rule_outcome(globals.types@, globals.components@, rule, rule_after.var_ctx.vars@, r)
    }
}

/// Whether the net and `r` are what the check of a net gives: the errors of
/// nodes that name no defined component end it at once; else the free ports
/// give their uses, and the check goes on with the nodes.
pub open spec fn net_checked(
    globals: GlobalCtx,
    net: NetDef,
    net_after: NetDef,
    r: Result<(), Error>,
) -> bool {
    let first = node_errors(Seq::empty(), globals.components@, net.nodes@);
    let label = net_text(globals.components@[net.id.0 as int].name);
    if first.len() > 0 {
        r is Err && r->Err_0@ == (ErrorTree { message: label, causes: first }) && net_after == net
    } else {
        &&& net_after.id == net.id
        &&& checked_outcome(
            globals.types@,
            globals.components@,
            Inferred {
                uses: free_uses(
                    var_uses(net.var_ctx.vars@),
                    net.free_ports@,
                    net.free_ports@.len() as int,
                ),
                lifetimes: net.lt_ctx.lifetimes@,
                ex_order: net.lt_ctx.ex_order@,
                in_order: net.lt_ctx.in_order@,
                errors: Seq::empty(),
            },
            net.nodes@,
            net_after.var_ctx.vars@,
            net_after.lt_ctx.lifetimes@,
            net_after.lt_ctx.ex_order@,
            net_after.lt_ctx.in_order@,
            label,
            r,
        )
    }
}

/// The errors of the results that failed, in order.
pub open spec fn failures(results: Seq<Result<(), Error>>) -> Seq<ErrorTree>
    decreases results.len(),
{
    if results.len() == 0 {
        Seq::empty()
    } else {
        match results.last() {
            Ok(_) => failures(results.drop_last()),
            Err(e) => failures(results.drop_last()).push(e@),
        }
    }
}

/// One more result adds its error, if it failed.
pub proof fn lemma_failures_push(results: Seq<Result<(), Error>>, r: Result<(), Error>)
    ensures
        failures(results.push(r)) == (match r {
            Ok(_) => failures(results),
            Err(e) => failures(results).push(e@),
        }),
{
    assert(results.push(r).drop_last() =~= results);
}

/// The steps of the check of a program: the scopes before and after the
/// definition of each agent and of each net, and before and after the check of
/// each agent, with the results; the nets as their definition leaves them; the
/// errors of the cycles of the order of the types; and the results of the
/// checks of the rules and of the nets.
pub struct ProgramTrace {
    pub agent_states: Seq<GlobalCtx>,
    pub agent_results: Seq<Result<(), Error>>,
    pub net_states: Seq<GlobalCtx>,
    pub nets_defined: Seq<NetDef>,
    pub net_results: Seq<Result<(), Error>>,
    pub check_states: Seq<GlobalCtx>,
    pub check_results: Seq<Result<(), Error>>,
    pub cycles: Seq<ErrorTree>,
    pub rule_results: Seq<Result<(), Error>>,
    pub net_check_results: Seq<Result<(), Error>>,
}

/// The error of the cycles of the order of the types, if there are any.
pub open spec fn type_order_errors(cycles: Seq<ErrorTree>) -> Seq<ErrorTree> {
    if cycles.len() > 0 {
        seq![ErrorTree { message: type_order_text(), causes: cycles }]
    } else {
        Seq::empty()
    }
}

/// Whether `agents`, `states` and `results` are what the definitions of the
/// agents of a program give, one after the other, once its types are defined.
pub open spec fn agents_defined_by(
    before: Program,
    agents: Seq<AgentDef>,
    states: Seq<GlobalCtx>,
    results: Seq<Result<(), Error>>,
) -> bool {
    let n = before.agents@.len() as int;
    &&& states.len() == n + 1
    &&& results.len() == n
    &&& agents.len() == n
    &&& states[0].types@ == types_after_all(before.globals.types@, before.types@)
    &&& states[0].components@ == before.globals.components@
    &&& states[0].type_order@ == before.globals.type_order@
    &&& forall|k: int|
        0 <= k < n ==> #[trigger] agent_defined(
            states[k],
            before.agents@[k],
            states[k + 1],
            agents[k],
            results[k],
        )
}

/// Whether `nets`, `states` and `results` are what the definitions of the nets
/// of a program give, one after the other, from the scopes `start` on.
pub open spec fn nets_defined_by(
    before: Program,
    start: GlobalCtx,
    nets: Seq<NetDef>,
    states: Seq<GlobalCtx>,
    results: Seq<Result<(), Error>>,
) -> bool {
    let n = before.nets@.len() as int;
    &&& states.len() == n + 1
    &&& results.len() == n
    &&& nets.len() == n
    &&& states[0] == start
    &&& forall|k: int|
        0 <= k < n ==> #[trigger] net_defined(
            states[k],
            before.nets@[k],
            states[k + 1],
            nets[k],
            results[k],
        )
}

/// Whether `states` and `results` are what the checks of the agents give, one
/// after the other, from the scopes `start` on. An agent whose component is
/// poisoned is passed over.
pub open spec fn agents_checked_by(
    agents: Seq<AgentDef>,
    start: GlobalCtx,
    states: Seq<GlobalCtx>,
    results: Seq<Result<(), Error>>,
) -> bool {
    let n = agents.len() as int;
    &&& states.len() == n + 1
    &&& results.len() == n
    &&& states[0] == start
    &&& forall|k: int|
        0 <= k < n ==> (if states[k].components@[agents[k].id.0 as int].state is Poisoned {
            states[k + 1] == states[k] && (#[trigger] results[k]) is Ok
        } else {
            agent_checked(states[k], agents[k], states[k + 1], results[k])
        })
}

/// Whether `rules` and `results` are what the checks of the rules of a program
/// give.
pub open spec fn rules_checked_by(
    before: Program,
    globals: GlobalCtx,
    rules: Seq<RuleDef>,
    results: Seq<Result<(), Error>>,
) -> bool {
    let n = before.rules@.len() as int;
    &&& results.len() == n
    &&& rules.len() == n
    &&& forall|k: int|
        0 <= k < n ==> #[trigger] rule_checked(globals, before.rules@[k], rules[k], results[k])
}

/// Whether `nets` and `results` are what the checks of the nets give. A net
/// whose component is poisoned is passed over.
pub open spec fn nets_checked_by(
    globals: GlobalCtx,
    defined: Seq<NetDef>,
    nets: Seq<NetDef>,
    results: Seq<Result<(), Error>>,
) -> bool {
    let n = defined.len() as int;
    &&& results.len() == n
    &&& nets.len() == n
    &&& forall|k: int|
        0 <= k < n ==> (if globals.components@[defined[k].id.0 as int].state is Poisoned {
            nets[k] == defined[k] && (#[trigger] results[k]) is Ok
        } else {
            net_checked(globals, defined[k], nets[k], results[k])
        })
}

/// Whether the program afterwards and the errors are what the check of a
/// program gives where its steps come to `trace`. The types are defined; then
/// every agent and every net, in order; then every agent whose component is
/// not poisoned is checked; then the order of the types must have no cycle;
/// then every rule is checked, and every net whose component is not poisoned.
/// The errors are those of all these steps, in this order.
pub open spec fn program_trace(
    before: Program,
    after: Program,
    trace: ProgramTrace,
    errors: Seq<ErrorTree>,
) -> bool {
    let ordered = trace.check_states.last();
    &&& agents_defined_by(before, after.agents@, trace.agent_states, trace.agent_results)
    &&& nets_defined_by(
        before,
        trace.agent_states.last(),
        trace.nets_defined,
        trace.net_states,
        trace.net_results,
    )
    &&& agents_checked_by(
        after.agents@,
        trace.net_states.last(),
        trace.check_states,
        trace.check_results,
    )
    &&& coherent_outcome(ordered.type_order@, entry_names(ordered.types@), trace.cycles)
    &&& after.globals == ordered
    &&& rules_checked_by(before, ordered, after.rules@, trace.rule_results)
    &&& nets_checked_by(ordered, trace.nets_defined, after.nets@, trace.net_check_results)
    &&& errors == type_errors(before.globals.types@, before.types@) + failures(
        trace.agent_results,
    ) + failures(trace.net_results) + failures(trace.check_results) + type_order_errors(
        trace.cycles,
    ) + failures(trace.rule_results) + failures(trace.net_check_results)
}

/// Whether the program afterwards and the errors are what the check of a
/// program may give: the result of its steps, whatever they come to within
/// what is fixed of them.
pub open spec fn program_outcome(before: Program, after: Program, errors: Seq<ErrorTree>) -> bool {
    exists|trace: ProgramTrace| program_trace(before, after, trace, errors)
}

/// Whether none of the first `n` ports of an agent, the principal port left
/// out, has the dual of the principal type.
pub open spec fn no_dual_port(ports: Seq<PortLabel>, n: int) -> bool {
    forall|i: int| 1 <= i < n ==> (#[trigger] ports[i]).0.dual() != ports[0].0
}

/// The order of the types after the first `n` ports of an agent have been
/// looked at: every auxiliary port of a type other than the dual of the
/// principal type puts the dual of its type strictly below the principal type.
pub open spec fn agent_type_order(order: crate::order::Rows, ports: Seq<PortLabel>, n: int)
    -> crate::order::Rows
    decreases n,
{
    if n <= 1 {
        order
    } else {
        let before = agent_type_order(order, ports, n - 1);
        let aux = ports[n - 1];
        if aux.0.dual() == ports[0].0 {
            before
        } else {
            crate::order::related(before, aux.0.dual().0, ports[0].0.0, Relation::LT)
        }
    }
}

/// The label of the error for cycles in the order of the types.
pub open spec fn type_order_text() -> Seq<char> {
    "found cycles in type order:"@
}

/// The error for a rule whose matched nodes do not meet at their principal
/// ports.
pub open spec fn not_connected_text() -> Seq<char> {
    "matched nodes are not connected by their principal ports"@
}

/// What the scopes keep when a component is defined or poisoned: the types,
/// the order of the types, and every other component.
pub open spec fn only_component_changed(before: &GlobalCtx, after: &GlobalCtx, id: usize) -> bool {
    &&& after.types@ == before.types@
    &&& after.type_order@ == before.type_order@
    &&& after.components@.len() == before.components@.len()
    &&& forall|c: int|
        0 <= c < before.components@.len() && c != id ==> #[trigger] after.components@[c]
            == before.components@[c]
    &&& id < before.components@.len() ==> after.components@[id as int].name
        == before.components@[id as int].name
}

/// One entry of the scope of types with another state.
pub open spec fn with_state(
    types: Seq<ScopeEntry<TypeInfo>>,
    at: int,
    state: DefinitionState<TypeInfo>,
) -> Seq<ScopeEntry<TypeInfo>> {
    types.update(at, ScopeEntry { name: types[at].name, state })
}

/// The scope of types after a declaration has been defined: the type and its
/// dual are defined where both were undefined; otherwise the first of them
/// that was not is poisoned.
pub open spec fn types_after(types: Seq<ScopeEntry<TypeInfo>>, def: TypeDef) -> Seq<
    ScopeEntry<TypeInfo>,
> {
    let id = def.id.0 as int;
    let dual = def.id.dual().0 as int;
    if !(types[id].state is Undefined) {
        with_state(types, id, DefinitionState::Poisoned)
    } else {
        let first = with_state(
            types,
            id,
            DefinitionState::Defined(TypeInfo { polarity: def.polarity }),
        );
        if !(first[dual].state is Undefined) {
            with_state(first, dual, DefinitionState::Poisoned)
        } else {
            with_state(
                first,
                dual,
                DefinitionState::Defined(TypeInfo { polarity: def.polarity.negate() }),
            )
        }
    }
}

/// The error of a declaration of a type: none where the type and its dual were
/// undefined, otherwise that the first of them that was not is defined twice.
pub open spec fn type_error(types: Seq<ScopeEntry<TypeInfo>>, def: TypeDef) -> Option<ErrorTree> {
    let id = def.id.0 as int;
    let dual = def.id.dual().0 as int;
    if !(types[id].state is Undefined) {
        Some(leaf(duplicate_text("type"@, types[id].name)))
    } else if !(types[dual].state is Undefined) {
        Some(leaf(duplicate_text("type"@, types[dual].name)))
    } else {
        None
    }
}

/// The scope of types after all declarations of a list have been defined, in
/// order.
pub open spec fn types_after_all(types: Seq<ScopeEntry<TypeInfo>>, defs: Seq<TypeDef>) -> Seq<
    ScopeEntry<TypeInfo>,
>
    decreases defs.len(),
{
    if defs.len() == 0 {
        types
    } else {
        types_after(types_after_all(types, defs.drop_last()), defs.last())
    }
}

/// The errors of the declarations of a list of types, in order.
pub open spec fn type_errors(types: Seq<ScopeEntry<TypeInfo>>, defs: Seq<TypeDef>) -> Seq<ErrorTree>
    decreases defs.len(),
{
    if defs.len() == 0 {
        Seq::empty()
    } else {
        let before = type_errors(types, defs.drop_last());
        match type_error(types_after_all(types, defs.drop_last()), defs.last()) {
            Some(e) => before.push(e),
            None => before,
        }
    }
}

/// A list that starts with `prefix` still does after it has been extended.
proof fn lemma_prefix_stays(prefix: Seq<ErrorTree>, before: Seq<ErrorTree>, after: Seq<ErrorTree>)
    requires
        prefix.len() <= before.len(),
        before.subrange(0, prefix.len() as int) == prefix,
        before.len() <= after.len(),
        forall|k: int| 0 <= k < before.len() ==> after[k] == before[k],
    ensures
        prefix.len() <= after.len(),
        after.subrange(0, prefix.len() as int) == prefix,
{
    assert(after.subrange(0, prefix.len() as int) =~= prefix) by {
        assert forall|k: int| 0 <= k < prefix.len() implies after[k] == prefix[k] by {
            assert(before.subrange(0, prefix.len() as int)[k] == before[k]);
        }
    }
}

/// Whether two nodes have the same variable at their principal ports.
pub open spec fn connected(a: Node, b: Node) -> bool {
    a.ports@.len() >= 1 && b.ports@.len() >= 1 && a.ports@[0] == b.ports@[0]
}

fn principals_meet(a: &Node, b: &Node) -> (r: bool)
    ensures
        r == connected(*a, *b),
{
    a.ports.len() >= 1 && b.ports.len() >= 1 && a.ports[0] == b.ports[0]
}

fn copy_labels(labels: &Vec<PortLabel>) -> (r: Vec<PortLabel>)
    ensures
        r@ == labels@,
{
    let mut r: Vec<PortLabel> = Vec::new();
    let mut i: usize = 0;
    while i < labels.len()
        invariant
            i <= labels@.len(),
            r@.len() == i,
            forall|k: int| 0 <= k < i ==> r@[k] == labels@[k],
        decreases labels@.len() - i,
    {
        r.push(labels[i]);
        i += 1;
    }
    assert(r@ =~= labels@);
    r
}

fn framed(kind: &str, name: &str) -> (s: String)
    ensures
        s@ == kind@ + quoted_text(name@) + ":"@,
{
    let mut s = String::from_str(kind);
    s.append(quoted(name).as_str());
    s.append(":");
    s
}

/// Defines a component with its contract, after the checks of its declaration
/// have filled `errors`, and sums the errors up under `label`. With any error
/// the component ends poisoned.
fn define_component(
    globals: &mut GlobalCtx,
    id: crate::globals::Component,
    info: ComponentInfo,
    errors: ErrorGroup,
    label: String,
) -> (r: Result<(), Error>)
    requires
        old(globals).wf(),
        id.0 < old(globals).components@.len(),
        info_wf(info, old(globals).types@.len()),
    ensures
        final(globals).wf(),
        only_component_changed(old(globals), final(globals), id.0),
        r is Ok <==> errors@.len() == 0 && old(globals).components@[id.0 as int].state is Undefined,
        r is Ok ==> final(globals).components@[id.0 as int].state == DefinitionState::Defined(info),
        r is Err ==> final(globals).components@[id.0 as int].state is Poisoned
            && r->Err_0@.message == label@ && r->Err_0@.causes.len() > 0,
        r is Err && old(globals).components@[id.0 as int].state is Undefined ==> r->Err_0@.causes
            == errors@,
        r is Err && !(old(globals).components@[id.0 as int].state is Undefined) ==> r->Err_0@.causes
            == errors@.push(
            leaf(
                duplicate_text(
                    "component"@,
                    old(globals).components@[id.0 as int].name,
                ),
            ),
        ),
{
    let mut errors = errors;
    let defined = globals.components.try_define(id, info);
    errors.push_result(defined);
    match errors.report(label) {
        Ok(()) => Ok(()),
        Err(e) => {
            globals.components.poison(id);
            Err(e)
        },
    }
}

impl TypeDef {
    /// Defines the type of the declared name with the declared polarity, and
    /// its dual with the other polarity. A type that is defined already is
    /// poisoned, and the error says that the definition is a duplicate; the
    /// dual is then left as it is.
    pub fn define(&self, globals: &mut GlobalCtx) -> (r: Result<(), Error>)
        requires
            old(globals).wf(),
            self.wf(old(globals).types@.len()),
        ensures
            final(globals).wf(),
            final(globals).components@ == old(globals).components@,
            final(globals).type_order@ == old(globals).type_order@,
            final(globals).types@.len() == old(globals).types@.len(),
            final(globals).types@ == types_after(old(globals).types@, *self),
            match type_error(old(globals).types@, *self) {
                Some(e) => r is Err && r->Err_0@ == e,
                None => r is Ok,
            },
            ({
                let id = self.id.0 as int;
                let dual = self.id.dual().0 as int;
                let before = old(globals).types@;
                let after = final(globals).types@;
                &&& forall|t: int|
                    0 <= t < before.len() ==> (#[trigger] after[t]).name == before[t].name && (t
                        != id && t != dual ==> after[t] == before[t])
                &&& r is Ok <==> before[id].state is Undefined && before[dual].state is Undefined
                &&& r is Ok ==> after[id].state == DefinitionState::Defined(
                    TypeInfo { polarity: self.polarity },
                ) && after[dual].state == DefinitionState::Defined(
                    TypeInfo { polarity: self.polarity.negate() },
                )
                &&& !(before[id].state is Undefined) ==> r is Err && r->Err_0@ == leaf(
                    duplicate_text("type"@, before[id].name),
                ) && after[id].state is Poisoned && after[dual] == before[dual]
                &&& before[id].state is Undefined && !(before[dual].state is Undefined) ==> r is Err
                    && r->Err_0@ == leaf(duplicate_text("type"@, before[dual].name))
                    && after[dual].state is Poisoned
            }),
    {
        match globals.types.try_define(self.id, TypeInfo { polarity: self.polarity }) {
            Err(e) => {
                return Err(e);
            },
            Ok(()) => {},
        }
        let other = match self.polarity {
            crate::globals::Polarity::Pos => crate::globals::Polarity::Neg,
            crate::globals::Polarity::Neg => crate::globals::Polarity::Pos,
        };
        globals.types.try_define(dual_of(self.id), TypeInfo { polarity: other })
    }
}

impl AgentDef {
    /// Defines the component of the agent. The type and the lifetime of every
    /// port must be defined, the contract must be satisfiable, and the
    /// component must not be defined already; every failure is an error under
    /// the label of the agent, and with any error the component ends poisoned.
    pub fn define(&mut self, globals: &mut GlobalCtx) -> (r: Result<(), Error>)
        requires
            old(globals).wf(),
            old(self).wf(old(globals).types@.len(), old(globals).components@.len()),
        ensures
            final(globals).wf(),
            final(self).wf(final(globals).types@.len(), final(globals).components@.len()),
            final(self).id == old(self).id,
            final(self).ports@ == old(self).ports@,
            only_component_changed(old(globals), final(globals), old(self).id.0),
            r is Ok ==> {
                &&& old(globals).components@[old(self).id.0 as int].state is Undefined
                &&& forall|p: int|
                    0 <= p < old(self).ports@.len() ==> old(globals).types.defined(
                        (#[trigger] old(self).ports@[p]).0,
                    ) && old(self).lt_ctx.lifetimes.defined(old(self).ports@[p].1)
                &&& final(globals).components.defined(old(self).id)
                &&& final(globals).components.value(old(self).id).ports@ == old(self).ports@
            },
            r is Err ==> final(globals).components@[old(self).id.0 as int].state is Poisoned
                && r->Err_0@.message == agent_text(
                old(globals).components@[old(self).id.0 as int].name,
            ) && r->Err_0@.causes.len() > 0,
            !(old(globals).components@[old(self).id.0 as int].state is Undefined) ==> r is Err,
            agent_defined(*old(globals), *old(self), *final(globals), *final(self), r),
            final(self).lt_ctx.ex_order@ == old(self).lt_ctx.ex_order@,
            final(self).lt_ctx.in_order@ == old(self).lt_ctx.in_order@,
            r is Ok ==> {
                let info = final(globals).components.value(old(self).id);
                &&& info.lt_ctx.lifetimes@ == final(self).lt_ctx.lifetimes@
                &&& info.lt_ctx.ex_order@ == old(self).lt_ctx.ex_order@
                &&& info.lt_ctx.in_order@ == old(self).lt_ctx.in_order@
            },
            exists|sat: Result<(), Error>|
                #![trigger defined_outcome(label_errors(old(globals).types@, old(self).lt_ctx.lifetimes@, old(self).ports@), sat, old(globals).components@[old(self).id.0 as int], agent_text(old(globals).components@[old(self).id.0 as int].name), r)]
                contract_outcome(
                    old(self).lt_ctx.lifetimes@,
                    old(self).lt_ctx.ex_order@,
                    old(self).lt_ctx.in_order@,
                    final(self).lt_ctx.lifetimes@,
                    sat,
                ) && defined_outcome(
                    label_errors(old(globals).types@, old(self).lt_ctx.lifetimes@, old(self).ports@),
                    sat,
                    old(globals).components@[old(self).id.0 as int],
                    agent_text(old(globals).components@[old(self).id.0 as int].name),
                    r,
                ),
            ({
                let first = label_errors(
                    old(globals).types@,
                    old(self).lt_ctx.lifetimes@,
                    old(self).ports@,
                );
                &&& first.len() > 0 ==> r is Err
                &&& r is Err ==> starts_with_errors(r->Err_0@.causes, first)
                &&& first.len() == 0 && old(self).lt_ctx.ex_order@.len() == 0 && old(self).lt_ctx.in_order@.len() == 0 && old(globals).components@[old(self).id.0 as int].state is Undefined ==> r is Ok
            }),
    {
        let mut errors = ErrorGroup::new();
        let mut i: usize = 0;
        assert(self.ports@.subrange(0, 0) =~= Seq::empty());
        while i < self.ports.len()
            invariant
                globals.wf(),
                *globals == *old(globals),
                *self == *old(self),
                self.wf(globals.types@.len(), globals.components@.len()),
                i <= self.ports@.len(),
                errors@ == label_errors(
                    globals.types@,
                    self.lt_ctx.lifetimes@,
                    self.ports@.subrange(0, i as int),
                ),
                errors@.len() == 0 ==> forall|p: int|
                    0 <= p < i ==> globals.types.defined((#[trigger] self.ports@[p]).0)
                        && self.lt_ctx.lifetimes.defined(self.ports@[p].1),
            decreases self.ports@.len() - i,
        {
            let port = self.ports[i];
            assert(label_ok(self.ports@[i as int], globals.types@.len(), self.lt_ctx.lifetimes@.len()));
            proof {
                let upto = self.ports@.subrange(0, i + 1);
                assert(upto.drop_last() =~= self.ports@.subrange(0, i as int));
                assert(upto.last() == port);
            }
            errors.push_result(globals.types.get(port.0));
            errors.push_result(self.lt_ctx.lifetimes.get(port.1));
            i += 1;
        }
        assert(self.ports@.subrange(0, i as int) =~= self.ports@);
        let ghost first = errors@;
        let ghost lifetimes = self.lt_ctx.lifetimes@.len();
        let satisfiable = self.lt_ctx.check_contract_satisfiable();
        let ghost sat = satisfiable;
        errors.push_result(satisfiable);
        assert(starts_with_errors(errors@, first)) by {
            assert(errors@.subrange(0, first.len() as int) =~= first);
        }
        assert(starts_with_errors(
            errors@.push(
                leaf(duplicate_text("component"@, globals.components@[self.id.0 as int].name)),
            ),
            first,
        )) by {
            assert(errors@.push(
                leaf(duplicate_text("component"@, globals.components@[self.id.0 as int].name)),
            ).subrange(0, first.len() as int) =~= first);
        }
        let info = ComponentInfo { lt_ctx: self.lt_ctx.clone(), ports: copy_labels(&self.ports) };
        let label = framed("in agent ", globals.components.name(self.id));
        let r = define_component(globals, self.id, info, errors, label);
        assert(defined_outcome(
            first,
            sat,
            old(globals).components@[self.id.0 as int],
            agent_text(old(globals).components@[self.id.0 as int].name),
            r,
        ));
        r
    }

    /// Checks the agent against its principal port; an agent without ports has
    /// nothing to check. The lifetime of an auxiliary port of the dual type has
    /// to be strictly below that of the principal port, under the polarity of
    /// the principal type, and the contract of the agent must imply that. An
    /// auxiliary port of another type puts the dual of its type strictly below
    /// the principal type in the order of the types.
    pub fn check(&mut self, globals: &mut GlobalCtx) -> (r: Result<(), Error>)
        requires
            old(globals).wf(),
            old(self).wf(old(globals).types@.len(), old(globals).components@.len()),
        ensures
            final(globals).wf(),
            final(globals).types@ == old(globals).types@,
            final(globals).components@ == old(globals).components@,
            *final(self) == *old(self),
            r matches Err(e) ==> e@.message == agent_text(
                old(globals).components@[old(self).id.0 as int].name,
            ) && e@.causes.len() == 1,
            no_dual_port(old(self).ports@, old(self).ports@.len() as int) ==> r is Ok,
            r is Ok || (old(self).ports@.len() > 0 && old(globals).types.defined(
                old(self).ports@[0].0,
            )) ==> final(globals).type_order@ == agent_type_order(
                old(globals).type_order@,
                old(self).ports@,
                old(self).ports@.len() as int,
            ),
            !no_dual_port(old(self).ports@, old(self).ports@.len() as int) && !old(globals).types.defined(old(self).ports@[0].0) ==> exists|k: int|
                1 <= k < old(self).ports@.len() && no_dual_port(old(self).ports@, k) && (
                #[trigger] old(self).ports@[k]).0.dual() == old(self).ports@[0].0 && final(globals).type_order@ == agent_type_order(old(globals).type_order@, old(self).ports@, k),
            agent_outcome(
                old(globals).types@,
                old(self).lt_ctx.lifetimes@,
                old(self).lt_ctx.ex_order@,
                old(self).lt_ctx.in_order@,
                old(self).ports@,
                agent_text(old(globals).components@[old(self).id.0 as int].name),
                r,
            ),
            agent_checked(*old(globals), *old(self), *final(globals), r),
    {
        let mut required: Order<Lifetime> = Order::new();
        assert(required@ =~= Seq::empty());
        let ghost types = globals.types@.len();
        let lifetimes = self.lt_ctx.lifetimes.count();
        let label = framed("in agent ", globals.components.name(self.id));
        if self.ports.len() == 0 {
            return Ok(());
        }
        let pri = self.ports[0];
        assert(label_ok(self.ports@[0], types, lifetimes as nat));
        let mut i: usize = 1;
        while i < self.ports.len()
            invariant
                globals.wf(),
                globals.types@ == old(globals).types@,
                globals.components@ == old(globals).components@,
                types == globals.types@.len(),
                *self == *old(self),
                self.wf(types, globals.components@.len()),
                lifetimes == self.lt_ctx.lifetimes@.len(),
                pri == self.ports@[0],
                1 <= i <= self.ports@.len(),
                required.wf(),
                required@.len() <= lifetimes,
                label@ == agent_text(old(globals).components@[old(self).id.0 as int].name),
                no_dual_port(self.ports@, i as int) ==> required@.len() == 0,
                required@ == agent_required(globals.types@, self.ports@, i as int),
                !globals.types.defined(pri.0) ==> no_dual_port(self.ports@, i as int),
                globals.type_order@ == agent_type_order(
                    old(globals).type_order@,
                    self.ports@,
                    i as int,
                ),
            decreases self.ports@.len() - i,
        {
            let aux = self.ports[i];
            assert(label_ok(self.ports@[i as int], types, lifetimes as nat));
            let dual = dual_of(aux.0);
            if dual == pri.0 {
                match globals.types.get(pri.0) {
                    Ok(info) => {
                        proof {
                            crate::order::lemma_related_tightens_len(
                                required@,
                                aux.1.0,
                                pri.1.0,
                                Relation::LT.twist(info.polarity),
                            );
                        }
                        required.relate_polarity(aux.1, pri.1, Relation::LT, info.polarity);
                    },
                    Err(e) => {
                        return Err(Error::context(label, e));
                    },
                }
            } else {
                proof {
                    globals.types.lemma_count_fits();
                    crate::order::lemma_related_tightens_len(
                        globals.type_order@,
                        dual.0,
                        pri.0.0,
                        Relation::LT,
                    );
                    crate::order::lemma_related_strict(
                        globals.type_order@,
                        dual.0,
                        pri.0.0,
                        Relation::LT,
                    );
                }
                globals.type_order.relate(dual, pri.0, Relation::LT);
            }
            i += 1;
        }
        let mut full_order = self.lt_ctx.ex_order.clone();
        proof {
            self.lt_ctx.in_order.lemma_len_fits();
        }
        full_order.import(&self.lt_ctx.in_order, 0);
        proof {
            self.lt_ctx.ex_order.lemma_len_fits();
            crate::order::lemma_imported_rows(
                self.lt_ctx.ex_order@,
                self.lt_ctx.ex_order@,
                self.lt_ctx.in_order@,
                0,
            );
            assert(same_edges(
                full_order@,
                imported_rows(self.lt_ctx.ex_order@, self.lt_ctx.in_order@, 0),
            ));
        }
        let sat = self.lt_ctx.check_satisfiable(None, &full_order, &required);
        let ghost found = sat;
        let r = match sat {
            Ok(()) => Ok(()),
            Err(e) => Err(Error::context(label, e)),
        };
        proof {
            if !no_dual_port(self.ports@, self.ports@.len() as int) {
                assert(satisfiable_outcome(
                    self.lt_ctx.lifetimes@,
                    None,
                    full_order@,
                    agent_required(globals.types@, self.ports@, self.ports@.len() as int),
                    incoherent_text(Side::Internal),
                    missing_text(Side::Internal),
                    found,
                ));
            }
        }
        r
    }
}

impl NetDef {
    /// Defines the component of the net, with the labels of its free ports as
    /// the labels of its ports. The checks are those of an agent.
    pub fn define(&mut self, globals: &mut GlobalCtx) -> (r: Result<(), Error>)
        requires
            old(globals).wf(),
            old(self).wf(old(globals).types@.len(), old(globals).components@.len()),
        ensures
            final(globals).wf(),
            final(self).wf(final(globals).types@.len(), final(globals).components@.len()),
            final(self).id == old(self).id,
            final(self).free_ports@ == old(self).free_ports@,
            final(self).nodes@ == old(self).nodes@,
            final(self).var_ctx.vars@ == old(self).var_ctx.vars@,
            only_component_changed(old(globals), final(globals), old(self).id.0),
            r is Ok ==> {
                &&& old(globals).components@[old(self).id.0 as int].state is Undefined
                &&& forall|p: int|
                    0 <= p < old(self).free_ports@.len() ==> old(globals).types.defined(
                        (#[trigger] old(self).free_ports@[p]).1.0,
                    ) && old(self).lt_ctx.lifetimes.defined(old(self).free_ports@[p].1.1)
                &&& final(globals).components.defined(old(self).id)
            },
            r is Err ==> final(globals).components@[old(self).id.0 as int].state is Poisoned
                && r->Err_0@.message == net_text(
                old(globals).components@[old(self).id.0 as int].name,
            ) && r->Err_0@.causes.len() > 0,
            !(old(globals).components@[old(self).id.0 as int].state is Undefined) ==> r is Err,
            net_defined(*old(globals), *old(self), *final(globals), *final(self), r),
            final(self).lt_ctx.ex_order@ == old(self).lt_ctx.ex_order@,
            final(self).lt_ctx.in_order@ == old(self).lt_ctx.in_order@,
            r is Ok ==> {
                let info = final(globals).components.value(old(self).id);
                &&& info.lt_ctx.lifetimes@ == final(self).lt_ctx.lifetimes@
                &&& info.lt_ctx.ex_order@ == old(self).lt_ctx.ex_order@
                &&& info.lt_ctx.in_order@ == old(self).lt_ctx.in_order@
            },
            exists|sat: Result<(), Error>|
                #![trigger defined_outcome(label_errors(old(globals).types@, old(self).lt_ctx.lifetimes@, free_labels(old(self).free_ports@)), sat, old(globals).components@[old(self).id.0 as int], net_text(old(globals).components@[old(self).id.0 as int].name), r)]
                contract_outcome(
                    old(self).lt_ctx.lifetimes@,
                    old(self).lt_ctx.ex_order@,
                    old(self).lt_ctx.in_order@,
                    final(self).lt_ctx.lifetimes@,
                    sat,
                ) && defined_outcome(
                    label_errors(old(globals).types@, old(self).lt_ctx.lifetimes@, free_labels(old(self).free_ports@)),
                    sat,
                    old(globals).components@[old(self).id.0 as int],
                    net_text(old(globals).components@[old(self).id.0 as int].name),
                    r,
                ),
            r is Ok ==> final(globals).components.value(old(self).id).ports@ == free_labels(
                old(self).free_ports@,
            ),
            ({
                let first = label_errors(
                    old(globals).types@,
                    old(self).lt_ctx.lifetimes@,
                    free_labels(old(self).free_ports@),
                );
                &&& first.len() > 0 ==> r is Err
                &&& r is Err ==> starts_with_errors(r->Err_0@.causes, first)
                &&& first.len() == 0 && old(self).lt_ctx.ex_order@.len() == 0 && old(self).lt_ctx.in_order@.len() == 0 && old(globals).components@[old(self).id.0 as int].state is Undefined ==> r is Ok
            }),
    {
        let mut errors = ErrorGroup::new();
        let mut ports: Vec<PortLabel> = Vec::new();
        let mut i: usize = 0;
        assert(free_labels(self.free_ports@).subrange(0, 0) =~= Seq::empty());
        while i < self.free_ports.len()
            invariant
                globals.wf(),
                *globals == *old(globals),
                *self == *old(self),
                self.wf(globals.types@.len(), globals.components@.len()),
                i <= self.free_ports@.len(),
                errors@ == label_errors(
                    globals.types@,
                    self.lt_ctx.lifetimes@,
                    free_labels(self.free_ports@).subrange(0, i as int),
                ),
                ports@.len() == i,
                forall|p: int| 0 <= p < i ==> #[trigger] ports@[p] == self.free_ports@[p].1,
                errors@.len() == 0 ==> forall|p: int|
                    0 <= p < i ==> globals.types.defined((#[trigger] self.free_ports@[p]).1.0)
                        && self.lt_ctx.lifetimes.defined(self.free_ports@[p].1.1),
            decreases self.free_ports@.len() - i,
        {
            let port = self.free_ports[i].1;
            assert(label_ok(
                self.free_ports@[i as int].1,
                globals.types@.len(),
                self.lt_ctx.lifetimes@.len(),
            ));
            proof {
                let upto = free_labels(self.free_ports@).subrange(0, i + 1);
                assert(upto.drop_last() =~= free_labels(self.free_ports@).subrange(0, i as int));
                assert(upto.last() == port);
            }
            errors.push_result(globals.types.get(port.0));
            errors.push_result(self.lt_ctx.lifetimes.get(port.1));
            ports.push(port);
            i += 1;
        }
        assert(free_labels(self.free_ports@).subrange(0, i as int) =~= free_labels(
            self.free_ports@,
        ));
        assert(ports@ =~= free_labels(self.free_ports@));
        let ghost first = errors@;
        let ghost lifetimes = self.lt_ctx.lifetimes@.len();
        let satisfiable = self.lt_ctx.check_contract_satisfiable();
        let ghost sat = satisfiable;
        errors.push_result(satisfiable);
        assert(starts_with_errors(errors@, first)) by {
            assert(errors@.subrange(0, first.len() as int) =~= first);
        }
        assert(starts_with_errors(
            errors@.push(
                leaf(duplicate_text("component"@, globals.components@[self.id.0 as int].name)),
            ),
            first,
        )) by {
            assert(errors@.push(
                leaf(duplicate_text("component"@, globals.components@[self.id.0 as int].name)),
            ).subrange(0, first.len() as int) =~= first);
        }
        proof {
            assert forall|p: int| 0 <= p < ports@.len() implies label_ok(
                #[trigger] ports@[p],
                globals.types@.len(),
                self.lt_ctx.lifetimes@.len(),
            ) by {
                assert(ports@[p] == self.free_ports@[p].1);
            }
            lemma_uses_ok_grows(
                self.var_ctx.vars@,
                globals.types@.len(),
                lifetimes,
                self.lt_ctx.lifetimes@.len(),
            );
        }
        let info = ComponentInfo { lt_ctx: self.lt_ctx.clone(), ports };
        let label = framed("in net ", globals.components.name(self.id));
        let r = define_component(globals, self.id, info, errors, label);
        assert(defined_outcome(
            first,
            sat,
            old(globals).components@[self.id.0 as int],
            net_text(old(globals).components@[self.id.0 as int].name),
            r,
        ));
        r
    }

    /// Checks the net against its contract. Every node must name a defined
    /// component. The free ports and the nodes give the uses of the variables;
    /// every variable must join two ports of dual types, which puts an
    /// obligation on their lifetimes; and the obligations must follow from what
    /// the contract guarantees.
    pub fn check(&mut self, globals: &GlobalCtx) -> (r: Result<(), Error>)
        requires
            globals.wf(),
            old(self).wf(globals.types@.len(), globals.components@.len()),
        ensures
            final(self).id == old(self).id,
            final(self).lt_ctx.wf(),
            r matches Err(e) ==> e@.message == net_text(globals.components@[old(self).id.0 as int].name)
                && e@.causes.len() > 0,
            (exists|k: int|
                0 <= k < old(self).nodes@.len() && !globals.components.defined(
                    (#[trigger] old(self).nodes@[k]).component,
                )) ==> r is Err,
            ({
                let first = node_errors(Seq::empty(), globals.components@, old(self).nodes@);
                first.len() > 0 ==> r is Err && r->Err_0@.causes == first && *final(self) == *old(self)
            }),
            node_errors(Seq::empty(), globals.components@, old(self).nodes@).len() == 0
                ==> checked_outcome(
                globals.types@,
                globals.components@,
                Inferred {
                    uses: free_uses(
                        var_uses(old(self).var_ctx.vars@),
                        old(self).free_ports@,
                        old(self).free_ports@.len() as int,
                    ),
                    lifetimes: old(self).lt_ctx.lifetimes@,
                    ex_order: old(self).lt_ctx.ex_order@,
                    in_order: old(self).lt_ctx.in_order@,
                    errors: Seq::empty(),
                },
                old(self).nodes@,
                final(self).var_ctx.vars@,
                final(self).lt_ctx.lifetimes@,
                final(self).lt_ctx.ex_order@,
                final(self).lt_ctx.in_order@,
                net_text(globals.components@[old(self).id.0 as int].name),
                r,
            ),
            net_checked(*globals, *old(self), *final(self), r),
    {
        let mut errors = ErrorGroup::new();
        let label = framed("in net ", globals.components.name(self.id));
        let ghost types = globals.types@.len();
        let mut i: usize = 0;
        assert(self.nodes@.subrange(0, 0) =~= Seq::empty());
        while i < self.nodes.len()
            invariant
                globals.wf(),
                *self == *old(self),
                self.wf(types, globals.components@.len()),
                types == globals.types@.len(),
                i <= self.nodes@.len(),
                errors@ == node_errors(
                    Seq::empty(),
                    globals.components@,
                    self.nodes@.subrange(0, i as int),
                ),
                errors@.len() == 0 <==> forall|k: int|
                    0 <= k < i ==> globals.components.defined((#[trigger] self.nodes@[k]).component),
            decreases self.nodes@.len() - i,
        {
            assert(node_ok(self.nodes@[i as int], globals.components@.len(), self.var_ctx.vars@.len()));
            proof {
                let upto = self.nodes@.subrange(0, i + 1);
                assert(upto.drop_last() =~= self.nodes@.subrange(0, i as int));
                assert(upto.last() == self.nodes@[i as int]);
            }
            errors.push_result(globals.components.get(self.nodes[i].component));
            i += 1;
        }
        assert(self.nodes@.subrange(0, i as int) =~= self.nodes@);
        match errors.report(framed("in net ", globals.components.name(self.id))) {
            Err(e) => {
                return Err(e);
            },
            Ok(()) => {},
        }
        let mut i: usize = 0;
        while i < self.free_ports.len()
            invariant
                globals.wf(),
                types == globals.types@.len(),
                i <= self.free_ports@.len(),
                self.id == old(self).id,
                self.lt_ctx == old(self).lt_ctx,
                self.nodes == old(self).nodes,
                self.free_ports == old(self).free_ports,
                self.var_ctx.vars@.len() == old(self).var_ctx.vars@.len(),
                old(self).wf(types, globals.components@.len()),
                uses_ok(self.var_ctx.vars@, types, self.lt_ctx.lifetimes@.len()),
                var_uses(self.var_ctx.vars@) == free_uses(
                    var_uses(old(self).var_ctx.vars@),
                    self.free_ports@,
                    i as int,
                ),
            decreases self.free_ports@.len() - i,
        {
            let (var, label) = self.free_ports[i];
            assert(label_ok(old(self).free_ports@[i as int].1, types, self.lt_ctx.lifetimes@.len()));
            let facing = PortLabel(dual_of(label.0), label.1);
            let ghost before = self.var_ctx.vars@;
            self.var_ctx.record_use(var, facing);
            proof {
                lemma_uses_ok_record(
                    before,
                    self.var_ctx.vars@,
                    var,
                    facing,
                    types,
                    self.lt_ctx.lifetimes@.len(),
                );
                crate::vars::lemma_recorded_use(before, self.var_ctx.vars@, var, facing);
            }
            i += 1;
        }
        let ghost start = Inferred {
            uses: var_uses(self.var_ctx.vars@),
            lifetimes: self.lt_ctx.lifetimes@,
            ex_order: self.lt_ctx.ex_order@,
            in_order: self.lt_ctx.in_order@,
            errors: errors@,
        };
        self.var_ctx.infer_uses(&mut errors, globals, &mut self.lt_ctx, &self.nodes);
        let ghost mid = self.lt_ctx.in_order@;
        let ghost end = inferred(start, globals.components@, self.nodes@, self.nodes@.len() as int);
        let type_errors = self.var_ctx.check_types(globals, &mut self.lt_ctx);
        errors.push_group(type_errors);
        let satisfiable = self.lt_ctx.check_satisfiable(
            Some(Side::Internal),
            &self.lt_ctx.ex_order,
            &self.lt_ctx.in_order,
        );
        let ghost sat = satisfiable;
        let ghost collected = errors@;
        errors.push_result(satisfiable);
        let r = errors.report(label);
        proof {
            assert(collected == end.errors + var_errors(globals.types@, self.var_ctx.vars@));
            assert(self.lt_ctx.in_order@ == crate::order::related_all(
                mid,
                var_relations(globals.types@, self.var_ctx.vars@),
            ));
            assert(satisfiable_outcome(
                self.lt_ctx.lifetimes@,
                Some(Side::Internal),
                self.lt_ctx.ex_order@,
                self.lt_ctx.in_order@,
                incoherent_text(Side::Internal),
                missing_text(Side::Internal),
                sat,
            ));
            assert(collected + Seq::<ErrorTree>::empty() =~= collected);
        }
        r
    }
}

impl RuleDef {
    /// Checks the rule. The two matched nodes must meet at their principal
    /// ports, and every node must name a defined component. The contracts of
    /// the matched components, as they stand, and those of the components of
    /// the result, with the sides changed, make up the lifetime context of the
    /// rule, in which the two principal lifetimes are related. Every variable
    /// must join two ports of dual types, which puts an obligation on their
    /// lifetimes; and the obligations must follow from the guarantees.
    pub fn check(&mut self, globals: &GlobalCtx) -> (r: Result<(), Error>)
        requires
            globals.wf(),
            old(self).wf(globals.types@.len(), globals.components@.len()),
        ensures
            r matches Err(e) ==> e@.message == rule_text(
                globals.components@[old(self).a.component.0 as int].name,
                globals.components@[old(self).b.component.0 as int].name,
            ) && e@.causes.len() > 0,
            !connected(old(self).a, old(self).b) ==> r is Err && r->Err_0@.causes[0] == leaf(
                not_connected_text(),
            ),
            !globals.components.defined(old(self).a.component) || !globals.components.defined(
                old(self).b.component,
            ) ==> r is Err,
            ({
                let first = rule_errors(globals.components@, *old(self));
                first.len() > 0 ==> r is Err && r->Err_0@.causes == first && *final(self) == *old(self)
            }),
            rule_errors(globals.components@, *old(self)).len() == 0 ==> rule_outcome(
                globals.types@,
                globals.components@,
                *old(self),
                final(self).var_ctx.vars@,
                r,
            ),
            rule_checked(*globals, *old(self), *final(self), r),
    {
        let mut errors = ErrorGroup::new();
        let ghost types = globals.types@.len();
        let a_name = globals.components.name(self.a.component);
        let b_name = globals.components.name(self.b.component);
        let mut pair = String::from_str(a_name);
        pair.append("-");
        pair.append(b_name);
        let label = framed("in rule ", pair.as_str());
        let label_again = framed("in rule ", pair.as_str());
        if !principals_meet(&self.a, &self.b) {
            errors.push_error(Error::msg("matched nodes are not connected by their principal ports"));
        }
        let a = errors.push_result(globals.components.get(self.a.component));
        let b = errors.push_result(globals.components.get(self.b.component));
        let ghost matched = errors@;
        let mut i: usize = 0;
        assert(self.result@.subrange(0, 0) =~= Seq::empty());
        while i < self.result.len()
            invariant
                globals.wf(),
                *self == *old(self),
                errors@ == node_errors(
                    matched,
                    globals.components@,
                    self.result@.subrange(0, i as int),
                ),
                self.wf(types, globals.components@.len()),
                i <= self.result@.len(),
                matched.len() <= errors@.len(),
                matched.len() > 0 ==> errors@[0] == matched[0],
                errors@.len() == 0 ==> forall|k: int|
                    0 <= k < i ==> globals.components.defined((#[trigger] self.result@[k]).component),
            decreases self.result@.len() - i,
        {
            assert(node_ok(self.result@[i as int], globals.components@.len(), self.var_ctx.vars@.len()));
            proof {
                let upto = self.result@.subrange(0, i + 1);
                assert(upto.drop_last() =~= self.result@.subrange(0, i as int));
                assert(upto.last() == self.result@[i as int]);
            }
            errors.push_result(globals.components.get(self.result[i].component));
            i += 1;
        }
        assert(self.result@.subrange(0, i as int) =~= self.result@);
        match errors.report(label) {
            Err(e) => {
                return Err(e);
            },
            Ok(()) => {},
        }
        let a = match a {
            Some(a) => a,
            None => vstd::pervasive::unreached(),
        };
        let b = match b {
            Some(b) => b,
            None => vstd::pervasive::unreached(),
        };
        proof {
            assert(globals.components@[self.a.component.0 as int].state is Defined);
            assert(globals.components@[self.b.component.0 as int].state is Defined);
        }
        let mut lt_ctx = LifetimeCtx::default();
        proof {
            a.lt_ctx.lifetimes.lemma_count_fits();
            b.lt_ctx.lifetimes.lemma_count_fits();
            a.lt_ctx.ex_order.lemma_len_fits();
            a.lt_ctx.in_order.lemma_len_fits();
        }
        let ghost first = globals.components@[self.a.component.0 as int];
        let ghost second = globals.components@[self.b.component.0 as int];
        let ghost rule_label = rule_text(first.name, second.name);
        let ghost empty_ex = lt_ctx.ex_order@;
        let ghost empty_in = lt_ctx.in_order@;
        let mut a_prefix = String::from_str(a_name);
        a_prefix.append(".");
        let a_base = lt_ctx.import(&a.lt_ctx, false, a_prefix.as_str());
        let ghost ex_a = lt_ctx.ex_order@;
        let ghost in_a = lt_ctx.in_order@;
        let ghost lifetimes_a = lt_ctx.lifetimes@;
        proof {
            assert(same_edges(empty_ex, Seq::empty()));
            assert(same_edges(empty_in, Seq::empty()));
            crate::order::lemma_imported_rows(Seq::empty(), empty_ex, a.lt_ctx.ex_order@, 0);
            crate::order::lemma_imported_rows(Seq::empty(), empty_in, a.lt_ctx.in_order@, 0);
            assert(same_edges(ex_a, imported_rows(Seq::empty(), a.lt_ctx.ex_order@, 0)));
            assert(same_edges(in_a, imported_rows(Seq::empty(), a.lt_ctx.in_order@, 0)));
            assert(lifetimes_a =~= brought_lifetimes(
                Seq::empty(),
                a.lt_ctx.lifetimes@,
                false,
                first.name + "."@,
            )) by {
                assert forall|j: int| 0 <= j < lifetimes_a.len() implies lifetimes_a[j]
                    == brought_lifetimes(
                    Seq::empty(),
                    a.lt_ctx.lifetimes@,
                    false,
                    first.name + "."@,
                )[j] by {
                    assert(lifetimes_a[a_base.0 + j] == crate::lifetimes::imported_entry(
                        a.lt_ctx.lifetimes@[j],
                        false,
                        a_prefix@,
                        a_base.0,
                    ));
                }
            }
        }
        if b.lt_ctx.lifetimes.count() > usize::MAX - lt_ctx.lifetimes.count() {
            errors.push_error(Error::msg("too many lifetimes"));
            let r = errors.report(label_again);
            proof {
                reveal_strlit("too many lifetimes");
            }
            return r;
        }
        let mut b_prefix = String::from_str(b_name);
        b_prefix.append(".");
        let b_base = lt_ctx.import(&b.lt_ctx, false, b_prefix.as_str());
        let ghost ex_b = lt_ctx.ex_order@;
        proof {
            assert(lt_ctx.lifetimes@ =~= brought_lifetimes(
                lifetimes_a,
                b.lt_ctx.lifetimes@,
                false,
                second.name + "."@,
            )) by {
                let target = brought_lifetimes(
                    lifetimes_a,
                    b.lt_ctx.lifetimes@,
                    false,
                    second.name + "."@,
                );
                assert forall|j: int| 0 <= j < lt_ctx.lifetimes@.len() implies lt_ctx.lifetimes@[j]
                    == target[j] by {
                    if j >= lifetimes_a.len() {
                        let m = j - lifetimes_a.len();
                        assert(lt_ctx.lifetimes@[b_base.0 + m] == crate::lifetimes::imported_entry(
                            b.lt_ctx.lifetimes@[m],
                            false,
                            b_prefix@,
                            b_base.0,
                        ));
                    }
                }
            }
            assert forall|x: usize, y: usize| #![trigger crate::order::edge(lt_ctx.in_order@, x, y)]
                crate::order::edge(lt_ctx.in_order@, x, y) == rule_obligation(*a, *b, x, y) by {
                assert(crate::order::edge(in_a, x, y) == crate::order::edge(
                    imported_rows(Seq::empty(), a.lt_ctx.in_order@, 0),
                    x,
                    y,
                ));
            }
            assert forall|x: usize, y: usize| #![trigger crate::order::edge(ex_b, x, y)]
                crate::order::edge(ex_b, x, y) == crate::order::imported_edge(
                    imported_rows(Seq::empty(), a.lt_ctx.ex_order@, 0),
                    b.lt_ctx.ex_order@,
                    b_base.0,
                    x,
                    y,
                ) by {
                assert(crate::order::edge(ex_a, x, y) == crate::order::edge(
                    imported_rows(Seq::empty(), a.lt_ctx.ex_order@, 0),
                    x,
                    y,
                ));
            }
        }
        if a.ports.len() > 0 && b.ports.len() > 0 {
            let a_pri = a.ports[0];
            let b_pri = b.ports[0];
            assert(label_ok(a.ports@[0], types, a.lt_ctx.lifetimes@.len()));
            assert(label_ok(b.ports@[0], types, b.lt_ctx.lifetimes@.len()));
            match globals.types.get(a_pri.0) {
                Ok(info) => {
                    let x = a_pri.1.offset(a_base);
                    let y = b_pri.1.offset(b_base);
                    proof {
                        crate::order::lemma_related_tightens_len(
                            lt_ctx.ex_order@,
                            x.0,
                            y.0,
                            Relation::LE.twist(info.polarity),
                        );
                        crate::order::lemma_related_edges(
                            ex_b,
                            x.0,
                            y.0,
                            Relation::LE.twist(info.polarity),
                        );
                    }
                    lt_ctx.ex_order.relate_polarity(x, y, Relation::LE, info.polarity);
                },
                Err(e) => {
                    errors.push_error(e);
                },
            }
        }
        proof {
            lemma_uses_ok_grows(self.var_ctx.vars@, types, 0, lt_ctx.lifetimes@.len());
            lt_ctx.lifetimes.lemma_count_fits();
            assert(errors@ =~= principal_errors(globals.types@, *a, *b));
            assert forall|x: usize, y: usize| #![trigger crate::order::edge(lt_ctx.ex_order@, x, y)]
                crate::order::edge(lt_ctx.ex_order@, x, y) == rule_guarantee(
                    globals.types@,
                    *a,
                    *b,
                    x,
                    y,
                ) by {
                assert(crate::order::edge(ex_b, x, y) == crate::order::imported_edge(
                    imported_rows(Seq::empty(), a.lt_ctx.ex_order@, 0),
                    b.lt_ctx.ex_order@,
                    b_base.0,
                    x,
                    y,
                ));
            }
        }
        let ghost total = lt_ctx.lifetimes@.len();
        record_matched(&mut self.var_ctx, &mut errors, globals, &self.a, a_base, Ghost(total));
        record_matched(&mut self.var_ctx, &mut errors, globals, &self.b, b_base, Ghost(total));
        let ghost start = Inferred {
            uses: var_uses(self.var_ctx.vars@),
            lifetimes: lt_ctx.lifetimes@,
            ex_order: lt_ctx.ex_order@,
            in_order: lt_ctx.in_order@,
            errors: errors@,
        };
        assert(rule_start(globals.types@, globals.components@, *old(self), start));
        self.var_ctx.infer_uses(&mut errors, globals, &mut lt_ctx, &self.result);
        let ghost mid = lt_ctx.in_order@;
        let ghost end = inferred(start, globals.components@, self.result@, self.result@.len() as int);
        let type_errors = self.var_ctx.check_types(globals, &mut lt_ctx);
        errors.push_group(type_errors);
        let satisfiable = lt_ctx.check_satisfiable(
            Some(Side::Internal),
            &lt_ctx.ex_order,
            &lt_ctx.in_order,
        );
        let ghost sat = satisfiable;
        let ghost collected = errors@;
        errors.push_result(satisfiable);
        let r = errors.report(label_again);
        proof {
            assert(collected == end.errors + var_errors(globals.types@, self.var_ctx.vars@));
            assert(lt_ctx.in_order@ == crate::order::related_all(
                mid,
                var_relations(globals.types@, self.var_ctx.vars@),
            ));
            assert(satisfiable_outcome(
                lt_ctx.lifetimes@,
                Some(Side::Internal),
                lt_ctx.ex_order@,
                lt_ctx.in_order@,
                incoherent_text(Side::Internal),
                missing_text(Side::Internal),
                sat,
            ));
            assert(collected + Seq::<ErrorTree>::empty() =~= collected);
            assert(checked_outcome(
                globals.types@,
                globals.components@,
                start,
                self.result@,
                self.var_ctx.vars@,
                lt_ctx.lifetimes@,
                lt_ctx.ex_order@,
                lt_ctx.in_order@,
                rule_label,
                r,
            ));
        }
        r
    }
}

impl Program {
    /// Checks the program: defines its types, agents and nets, checks every
    /// agent that was defined, requires the order of the types to be without
    /// cycle, and checks every rule and every net that was defined. The errors
    /// of all declarations are collected, each declaration under its own label;
    /// a declaration that fails does not stop the others. The errors of the
    /// declarations of types come first; where a program declares nothing but
    /// types, and their order has no cycle, they are all the errors.
    pub fn check(&mut self) -> (errors: ErrorGroup)
        requires
            old(self).wf(),
        ensures
            errors@.len() <= old(self).types@.len() + 2 * old(self).agents@.len() + 2 * old(self).nets@.len() + old(self).rules@.len() + 1,
            final(self).globals.types@ == types_after_all(
                old(self).globals.types@,
                old(self).types@,
            ),
            type_errors(old(self).globals.types@, old(self).types@).len() <= errors@.len(),
            errors@.subrange(
                0,
                type_errors(old(self).globals.types@, old(self).types@).len() as int,
            ) == type_errors(old(self).globals.types@, old(self).types@),
            final(self).globals.wf(),
            final(self).globals.types@.len() == old(self).globals.types@.len(),
            final(self).globals.components@.len() == old(self).globals.components@.len(),
            crate::order::find_cycles::has_cycle(final(self).globals.type_order@) ==> exists|k: int|
                0 <= k < errors@.len() && (#[trigger] errors@[k]).message == type_order_text(),
            old(self).agents@.len() == 0 && old(self).rules@.len() == 0 && old(self).nets@.len()
                == 0 && !crate::order::find_cycles::has_cycle(old(self).globals.type_order@)
                ==> errors@ == type_errors(old(self).globals.types@, old(self).types@) && final(self).globals.type_order@ == old(self).globals.type_order@,
            program_outcome(*old(self), *final(self), errors@),
    {
        let mut errors = ErrorGroup::new();
        let ghost types = self.globals.types@.len();
        let ghost components = self.globals.components@.len();
        let ghost untyped = self.globals.types@;
        let ghost defs = self.types@;
        let ghost order0 = self.globals.type_order@;
        let ghost quiet = self.agents@.len() == 0 && self.nets@.len() == 0 && self.rules@.len()
            == 0 && !crate::order::find_cycles::has_cycle(order0);
        let mut i: usize = 0;
        assert(defs.subrange(0, 0) =~= Seq::<TypeDef>::empty());
        while i < self.types.len()
            invariant
                self.wf(),
                self.types@ == defs,
                defs == old(self).types@,
                untyped == old(self).globals.types@,
                self.agents@.len() == old(self).agents@.len(),
                self.nets@.len() == old(self).nets@.len(),
                self.rules@.len() == old(self).rules@.len(),
                types == self.globals.types@.len(),
                components == self.globals.components@.len(),
                i <= self.types@.len(),
                errors@.len() <= i,
                self.globals.types@ == types_after_all(untyped, defs.subrange(0, i as int)),
                errors@ == type_errors(untyped, defs.subrange(0, i as int)),
                self.globals.type_order@ == order0,
                self.globals.components@ == old(self).globals.components@,
                self.agents@ == old(self).agents@,
                self.nets@ == old(self).nets@,
                self.rules@ == old(self).rules@,
            decreases self.types@.len() - i,
        {
            assert(self.types@[i as int].wf(types));
            proof {
                let upto = defs.subrange(0, i + 1);
                assert(upto.drop_last() =~= defs.subrange(0, i as int));
                assert(upto.last() == defs[i as int]);
            }
            let defined = self.types[i].define(&mut self.globals);
            errors.push_result(defined);
            i += 1;
        }
        assert(defs.subrange(0, i as int) =~= defs);
        let ghost typed = self.globals.types@;
        let ghost type_phase = errors@;
        let ghost base = errors@.len();
        let ghost mut agent_states: Seq<GlobalCtx> = seq![self.globals];
        let ghost mut agent_results: Seq<Result<(), Error>> = Seq::empty();
        let mut i: usize = 0;
        while i < self.agents.len()
            invariant
                self.nets@ == old(self).nets@,
                self.rules@ == old(self).rules@,
                agent_states.len() == i + 1,
                agent_results.len() == i,
                agent_states[0].types@ == types_after_all(untyped, old(self).types@),
                agent_states[0].components@ == old(self).globals.components@,
                agent_states[0].type_order@ == old(self).globals.type_order@,
                agent_states[i as int] == self.globals,
                forall|k: int|
                    0 <= k < i ==> #[trigger] agent_defined(
                        agent_states[k],
                        old(self).agents@[k],
                        agent_states[k + 1],
                        self.agents@[k],
                        agent_results[k],
                    ),
                forall|k: int|
                    i <= k < self.agents@.len() ==> #[trigger] self.agents@[k] == old(self).agents@[k],
                errors@ == type_phase + failures(agent_results),
                self.wf(),
                self.types@.len() == old(self).types@.len(),
                self.agents@.len() == old(self).agents@.len(),
                self.nets@.len() == old(self).nets@.len(),
                self.rules@.len() == old(self).rules@.len(),
                types == self.globals.types@.len(),
                components == self.globals.components@.len(),
                i <= self.agents@.len(),
                errors@.len() <= base + i,
                self.globals.types@ == typed,
                type_phase.len() <= errors@.len(),
                errors@.subrange(0, type_phase.len() as int) == type_phase,
                quiet ==> self.globals.type_order@ == order0 && errors@ == type_phase && old(self).agents@.len() == 0 && old(self).nets@.len() == 0 && old(self).rules@.len() == 0
                    && !crate::order::find_cycles::has_cycle(order0),
            decreases self.agents@.len() - i,
        {
            assert(self.agents@[i as int].wf(types, components));
            let ghost others = self.agents@;
            let ghost states_before = agent_states;
            let defined = self.agents[i].define(&mut self.globals);
            proof {
                assert forall|k: int| 0 <= k < self.agents@.len() implies (
                #[trigger] self.agents@[k]).wf(types, components) by {
                    if k != i {
                        assert(self.agents@[k] == others[k]);
                    }
                }
                lemma_failures_push(agent_results, defined);
                agent_states = agent_states.push(self.globals);
                agent_results = agent_results.push(defined);
                assert forall|k: int| 0 <= k < i + 1 implies #[trigger] agent_defined(
                    agent_states[k],
                    old(self).agents@[k],
                    agent_states[k + 1],
                    self.agents@[k],
                    agent_results[k],
                ) by {
                    if k < i {
                        assert(self.agents@[k] == others[k]);
                        assert(agent_defined(
                            states_before[k],
                            old(self).agents@[k],
                            states_before[k + 1],
                            others[k],
                            agent_results[k],
                        ));
                    }
                }
                assert forall|k: int| i + 1 <= k < self.agents@.len() implies #[trigger] self.agents@[k]
                    == old(self).agents@[k] by {
                    assert(self.agents@[k] == others[k]);
                }
            }
            let ghost collected = errors@;
            errors.push_result(defined);
            proof {
                lemma_prefix_stays(type_phase, collected, errors@);
                assert(errors@ =~= type_phase + failures(agent_results));
            }
            i += 1;
        }
        let ghost agents_defined = self.agents@;
        let ghost agents_phase = errors@;
        assert(agents_defined_by(*old(self), agents_defined, agent_states, agent_results));
        let ghost agents_end = self.globals;
        let ghost mut net_states: Seq<GlobalCtx> = seq![self.globals];
        let ghost mut net_results: Seq<Result<(), Error>> = Seq::empty();
        let ghost base = errors@.len();
        let mut i: usize = 0;
        while i < self.nets.len()
            invariant
                agents_defined_by(*old(self), agents_defined, agent_states, agent_results),
                agent_states.last() == agents_end,
                net_states[0] == agents_end,
                agents_phase == type_phase + failures(agent_results),
                type_phase == type_errors(old(self).globals.types@, old(self).types@),
                self.agents@ == agents_defined,
                self.rules@ == old(self).rules@,
                net_states.len() == i + 1,
                net_results.len() == i,
                net_states[i as int] == self.globals,
                forall|k: int|
                    0 <= k < i ==> #[trigger] net_defined(
                        net_states[k],
                        old(self).nets@[k],
                        net_states[k + 1],
                        self.nets@[k],
                        net_results[k],
                    ),
                forall|k: int|
                    i <= k < self.nets@.len() ==> #[trigger] self.nets@[k] == old(self).nets@[k],
                errors@ == agents_phase + failures(net_results),
                self.wf(),
                self.types@.len() == old(self).types@.len(),
                self.agents@.len() == old(self).agents@.len(),
                self.nets@.len() == old(self).nets@.len(),
                self.rules@.len() == old(self).rules@.len(),
                types == self.globals.types@.len(),
                components == self.globals.components@.len(),
                i <= self.nets@.len(),
                errors@.len() <= base + i,
                self.globals.types@ == typed,
                type_phase.len() <= errors@.len(),
                errors@.subrange(0, type_phase.len() as int) == type_phase,
                quiet ==> self.globals.type_order@ == order0 && errors@ == type_phase && old(self).agents@.len() == 0 && old(self).nets@.len() == 0 && old(self).rules@.len() == 0
                    && !crate::order::find_cycles::has_cycle(order0),
            decreases self.nets@.len() - i,
        {
            assert(self.nets@[i as int].wf(types, components));
            let ghost others = self.nets@;
            let ghost states_before = net_states;
            let defined = self.nets[i].define(&mut self.globals);
            proof {
                assert forall|k: int| 0 <= k < self.nets@.len() implies (#[trigger] self.nets@[k]).wf(
                    types,
                    components,
                ) by {
                    if k != i {
                        assert(self.nets@[k] == others[k]);
                    }
                }
                lemma_failures_push(net_results, defined);
                net_states = net_states.push(self.globals);
                net_results = net_results.push(defined);
                assert forall|k: int| 0 <= k < i + 1 implies #[trigger] net_defined(
                    net_states[k],
                    old(self).nets@[k],
                    net_states[k + 1],
                    self.nets@[k],
                    net_results[k],
                ) by {
                    if k < i {
                        assert(self.nets@[k] == others[k]);
                        assert(net_defined(
                            states_before[k],
                            old(self).nets@[k],
                            states_before[k + 1],
                            others[k],
                            net_results[k],
                        ));
                    }
                }
                assert forall|k: int| i + 1 <= k < self.nets@.len() implies #[trigger] self.nets@[k]
                    == old(self).nets@[k] by {
                    assert(self.nets@[k] == others[k]);
                }
            }
            let ghost collected = errors@;
            errors.push_result(defined);
            proof {
                lemma_prefix_stays(type_phase, collected, errors@);
                assert(errors@ =~= agents_phase + failures(net_results));
            }
            i += 1;
        }
        let ghost nets_defined = self.nets@;
        let ghost nets_phase = errors@;
        assert(nets_defined_by(*old(self), agents_end, nets_defined, net_states, net_results));
        let ghost nets_end = self.globals;
        let ghost mut check_states: Seq<GlobalCtx> = seq![self.globals];
        let ghost mut check_results: Seq<Result<(), Error>> = Seq::empty();
        let ghost base = errors@.len();
        let mut i: usize = 0;
        while i < self.agents.len()
            invariant
                agents_defined_by(*old(self), agents_defined, agent_states, agent_results),
                agent_states.last() == agents_end,
                agents_phase == type_phase + failures(agent_results),
                type_phase == type_errors(old(self).globals.types@, old(self).types@),
                nets_defined_by(*old(self), agents_end, nets_defined, net_states, net_results),
                net_states.last() == nets_end,
                nets_phase == agents_phase + failures(net_results),
                check_states[0] == nets_end,
                self.agents@ == agents_defined,
                self.nets@ == nets_defined,
                self.rules@ == old(self).rules@,
                check_states.len() == i + 1,
                check_results.len() == i,
                check_states[i as int] == self.globals,
                forall|k: int|
                    0 <= k < i ==> (if check_states[k].components@[agents_defined[k].id.0 as int].state is Poisoned {
                        check_states[k + 1] == check_states[k] && (#[trigger] check_results[k]) is Ok
                    } else {
                        agent_checked(
                            check_states[k],
                            agents_defined[k],
                            check_states[k + 1],
                            check_results[k],
                        )
                    }),
                errors@ == nets_phase + failures(check_results),
                self.wf(),
                self.types@.len() == old(self).types@.len(),
                self.agents@.len() == old(self).agents@.len(),
                self.nets@.len() == old(self).nets@.len(),
                self.rules@.len() == old(self).rules@.len(),
                types == self.globals.types@.len(),
                components == self.globals.components@.len(),
                i <= self.agents@.len(),
                errors@.len() <= base + i,
                self.globals.types@ == typed,
                type_phase.len() <= errors@.len(),
                errors@.subrange(0, type_phase.len() as int) == type_phase,
                quiet ==> self.globals.type_order@ == order0 && errors@ == type_phase && old(self).agents@.len() == 0 && old(self).nets@.len() == 0 && old(self).rules@.len() == 0
                    && !crate::order::find_cycles::has_cycle(order0),
            decreases self.agents@.len() - i,
        {
            assert(self.agents@[i as int].wf(types, components));
            let id = self.agents[i].id;
            let ghost states_before = check_states;
            let ghost results_before = check_results;
            if !self.globals.components.poisoned(id) {
                let ghost others = self.agents@;
                let checked = self.agents[i].check(&mut self.globals);
                proof {
                    assert forall|k: int| 0 <= k < self.agents@.len() implies (
                    #[trigger] self.agents@[k]).wf(types, components) by {
                        if k != i {
                            assert(self.agents@[k] == others[k]);
                        }
                    }
                    assert(self.agents@ =~= others);
                    lemma_failures_push(check_results, checked);
                    check_states = check_states.push(self.globals);
                    check_results = check_results.push(checked);
                }
                let ghost collected = errors@;
                errors.push_result(checked);
                proof {
                    lemma_prefix_stays(type_phase, collected, errors@);
                    assert(errors@ =~= nets_phase + failures(check_results));
                }
            } else {
                proof {
                    lemma_failures_push(check_results, Ok(()));
                    check_states = check_states.push(self.globals);
                    check_results = check_results.push(Ok(()));
                }
            }
            proof {
                assert forall|k: int| 0 <= k < i + 1 implies (if check_states[k].components@[agents_defined[k].id.0 as int].state is Poisoned {
                    check_states[k + 1] == check_states[k] && (#[trigger] check_results[k]) is Ok
                } else {
                    agent_checked(
                        check_states[k],
                        agents_defined[k],
                        check_states[k + 1],
                        check_results[k],
                    )
                }) by {
                    if k < i {
                        assert(check_states[k] == states_before[k]);
                        assert(check_states[k + 1] == states_before[k + 1]);
                        assert(check_results[k] == results_before[k]);
                    }
                }
            }
            i += 1;
        }
        let ghost ordered_globals = self.globals;
        let ghost checks_phase = errors@;
        assert(agents_checked_by(agents_defined, nets_end, check_states, check_results));
        let mut cycles = self.globals.type_order.check_coherent(&self.globals.types);
        let ghost found_cycles = cycles@;
        let ghost collected = errors@;
        errors.push_result(cycles.report(String::from_str("found cycles in type order:")));
        proof {
            lemma_prefix_stays(type_phase, collected, errors@);
            reveal_strlit("found cycles in type order:");
            assert(self.globals.types.names() =~= entry_names(self.globals.types@));
            assert(errors@ =~= checks_phase + type_order_errors(found_cycles));
        }
        let ghost order_phase = errors@;
        let ghost mut rule_results: Seq<Result<(), Error>> = Seq::empty();
        let ghost ordered = errors@;
        let ghost type_order = self.globals.type_order@;
        proof {
            assert(ordered.subrange(0, ordered.len() as int) =~= ordered);
            if crate::order::find_cycles::has_cycle(type_order) {
                assert(ordered[ordered.len() - 1].message == type_order_text());
            }
        }
        let ghost base = errors@.len();
        let mut i: usize = 0;
        while i < self.rules.len()
            invariant
                agents_defined_by(*old(self), agents_defined, agent_states, agent_results),
                agent_states.last() == agents_end,
                agents_phase == type_phase + failures(agent_results),
                type_phase == type_errors(old(self).globals.types@, old(self).types@),
                nets_defined_by(*old(self), agents_end, nets_defined, net_states, net_results),
                net_states.last() == nets_end,
                nets_phase == agents_phase + failures(net_results),
                agents_checked_by(agents_defined, nets_end, check_states, check_results),
                check_states.last() == ordered_globals,
                checks_phase == nets_phase + failures(check_results),
                coherent_outcome(
                    ordered_globals.type_order@,
                    entry_names(ordered_globals.types@),
                    found_cycles,
                ),
                order_phase == checks_phase + type_order_errors(found_cycles),
                self.agents@ == agents_defined,
                self.nets@ == nets_defined,
                self.globals == ordered_globals,
                rule_results.len() == i,
                forall|k: int|
                    0 <= k < i ==> #[trigger] rule_checked(
                        ordered_globals,
                        old(self).rules@[k],
                        self.rules@[k],
                        rule_results[k],
                    ),
                forall|k: int|
                    i <= k < self.rules@.len() ==> #[trigger] self.rules@[k] == old(self).rules@[k],
                errors@ == order_phase + failures(rule_results),
                self.globals.wf(),
                self.types@.len() == old(self).types@.len(),
                self.agents@.len() == old(self).agents@.len(),
                self.nets@.len() == old(self).nets@.len(),
                self.rules@.len() == old(self).rules@.len(),
                types == self.globals.types@.len(),
                components == self.globals.components@.len(),
                forall|k: int|
                    i <= k < self.rules@.len() ==> (#[trigger] self.rules@[k]).wf(types, components),
                forall|k: int|
                    0 <= k < self.nets@.len() ==> (#[trigger] self.nets@[k]).wf(types, components),
                i <= self.rules@.len(),
                errors@.len() <= base + i,
                self.globals.types@ == typed,
                type_phase.len() <= errors@.len(),
                errors@.subrange(0, type_phase.len() as int) == type_phase,
                quiet ==> self.globals.type_order@ == order0 && errors@ == type_phase && old(self).agents@.len() == 0 && old(self).nets@.len() == 0 && old(self).rules@.len() == 0
                    && !crate::order::find_cycles::has_cycle(order0),
                self.globals.type_order@ == type_order,
                ordered.len() <= errors@.len(),
                errors@.subrange(0, ordered.len() as int) == ordered,
            decreases self.rules@.len() - i,
        {
            assert(self.rules@[i as int].wf(types, components));
            let ghost others = self.rules@;
            let ghost results_before = rule_results;
            let checked = self.rules[i].check(&self.globals);
            proof {
                assert forall|k: int| i + 1 <= k < self.rules@.len() implies (
                #[trigger] self.rules@[k]).wf(types, components) by {
                    assert(self.rules@[k] == others[k]);
                }
                lemma_failures_push(rule_results, checked);
                rule_results = rule_results.push(checked);
                assert forall|k: int| 0 <= k < i + 1 implies #[trigger] rule_checked(
                    ordered_globals,
                    old(self).rules@[k],
                    self.rules@[k],
                    rule_results[k],
                ) by {
                    if k < i {
                        assert(self.rules@[k] == others[k]);
                        assert(rule_checked(
                            ordered_globals,
                            old(self).rules@[k],
                            others[k],
                            results_before[k],
                        ));
                    }
                }
                assert forall|k: int| i + 1 <= k < self.rules@.len() implies #[trigger] self.rules@[k]
                    == old(self).rules@[k] by {
                    assert(self.rules@[k] == others[k]);
                }
            }
            let ghost collected = errors@;
            errors.push_result(checked);
            proof {
                lemma_prefix_stays(type_phase, collected, errors@);
                lemma_prefix_stays(ordered, collected, errors@);
                assert(errors@ =~= order_phase + failures(rule_results));
            }
            i += 1;
        }
        let ghost rules_phase = errors@;
        let ghost rules_checked = self.rules@;
        assert(rules_checked_by(*old(self), ordered_globals, rules_checked, rule_results));
        let ghost mut net_check_results: Seq<Result<(), Error>> = Seq::empty();
        let ghost base = errors@.len();
        let mut i: usize = 0;
        while i < self.nets.len()
            invariant
                agents_defined_by(*old(self), agents_defined, agent_states, agent_results),
                agent_states.last() == agents_end,
                agents_phase == type_phase + failures(agent_results),
                type_phase == type_errors(old(self).globals.types@, old(self).types@),
                nets_defined_by(*old(self), agents_end, nets_defined, net_states, net_results),
                net_states.last() == nets_end,
                nets_phase == agents_phase + failures(net_results),
                agents_checked_by(agents_defined, nets_end, check_states, check_results),
                check_states.last() == ordered_globals,
                checks_phase == nets_phase + failures(check_results),
                coherent_outcome(
                    ordered_globals.type_order@,
                    entry_names(ordered_globals.types@),
                    found_cycles,
                ),
                order_phase == checks_phase + type_order_errors(found_cycles),
                rules_checked_by(*old(self), ordered_globals, rules_checked, rule_results),
                self.rules@ == rules_checked,
                rules_phase == order_phase + failures(rule_results),
                nets_defined.len() == self.nets@.len(),
                self.agents@ == agents_defined,
                self.globals == ordered_globals,
                self.rules@.len() == old(self).rules@.len(),
                net_check_results.len() == i,
                forall|k: int|
                    0 <= k < i ==> (if ordered_globals.components@[nets_defined[k].id.0 as int].state is Poisoned {
                        self.nets@[k] == nets_defined[k] && (#[trigger] net_check_results[k]) is Ok
                    } else {
                        net_checked(
                            ordered_globals,
                            nets_defined[k],
                            self.nets@[k],
                            net_check_results[k],
                        )
                    }),
                forall|k: int|
                    i <= k < self.nets@.len() ==> #[trigger] self.nets@[k] == nets_defined[k],
                errors@ == rules_phase + failures(net_check_results),
                self.globals.wf(),
                self.types@.len() == old(self).types@.len(),
                self.agents@.len() == old(self).agents@.len(),
                self.nets@.len() == old(self).nets@.len(),
                self.rules@.len() == old(self).rules@.len(),
                types == self.globals.types@.len(),
                components == self.globals.components@.len(),
                forall|k: int|
                    i <= k < self.nets@.len() ==> (#[trigger] self.nets@[k]).wf(types, components),
                i <= self.nets@.len(),
                errors@.len() <= base + i,
                self.globals.types@ == typed,
                type_phase.len() <= errors@.len(),
                errors@.subrange(0, type_phase.len() as int) == type_phase,
                quiet ==> self.globals.type_order@ == order0 && errors@ == type_phase && old(self).agents@.len() == 0 && old(self).nets@.len() == 0 && old(self).rules@.len() == 0
                    && !crate::order::find_cycles::has_cycle(order0),
                self.globals.type_order@ == type_order,
                ordered.len() <= errors@.len(),
                errors@.subrange(0, ordered.len() as int) == ordered,
            decreases self.nets@.len() - i,
        {
            assert(self.nets@[i as int].wf(types, components));
            let id = self.nets[i].id;
            let ghost others = self.nets@;
            let ghost results_before = net_check_results;
            if !self.globals.components.poisoned(id) {
                let checked = self.nets[i].check(&self.globals);
                proof {
                    assert forall|k: int| i + 1 <= k < self.nets@.len() implies (
                    #[trigger] self.nets@[k]).wf(types, components) by {
                        assert(self.nets@[k] == others[k]);
                    }
                    lemma_failures_push(net_check_results, checked);
                    net_check_results = net_check_results.push(checked);
                }
                let ghost collected = errors@;
                errors.push_result(checked);
                proof {
                    lemma_prefix_stays(type_phase, collected, errors@);
                    lemma_prefix_stays(ordered, collected, errors@);
                    assert(errors@ =~= rules_phase + failures(net_check_results));
                }
            } else {
                proof {
                    lemma_failures_push(net_check_results, Ok(()));
                    net_check_results = net_check_results.push(Ok(()));
                }
            }
            proof {
                assert forall|k: int| 0 <= k < i + 1 implies (if ordered_globals.components@[nets_defined[k].id.0 as int].state is Poisoned {
                    self.nets@[k] == nets_defined[k] && (#[trigger] net_check_results[k]) is Ok
                } else {
                    net_checked(
                        ordered_globals,
                        nets_defined[k],
                        self.nets@[k],
                        net_check_results[k],
                    )
                }) by {
                    if k < i {
                        assert(self.nets@[k] == others[k]);
                        assert(net_check_results[k] == results_before[k]);
                    }
                }
                assert forall|k: int| i + 1 <= k < self.nets@.len() implies #[trigger] self.nets@[k]
                    == nets_defined[k] by {
                    assert(self.nets@[k] == others[k]);
                }
            }
            i += 1;
        }
        proof {
            let trace = ProgramTrace {
                agent_states,
                agent_results,
                net_states,
                nets_defined,
                net_results,
                check_states,
                check_results,
                cycles: found_cycles,
                rule_results,
                net_check_results,
            };
            assert(nets_checked_by(ordered_globals, nets_defined, self.nets@, net_check_results));
            assert(program_trace(*old(self), *self, trace, errors@));
        }
        proof {
            if crate::order::find_cycles::has_cycle(type_order) {
                let k = ordered.len() - 1;
                assert(errors@.subrange(0, ordered.len() as int)[k] == errors@[k]);
            }
        }
        errors
    }
}

} // verus!
