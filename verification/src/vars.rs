use vstd::prelude::*;
use vstd::string::StringExecFns;
use crate::error::Error;
use crate::error::ErrorGroup;
use crate::error::ErrorTree;
use crate::globals::ComponentInfo;
use crate::globals::GlobalCtx;
use crate::globals::PortLabel;
use crate::globals::dual_of;
use crate::index_vec::Idx;
use crate::lifetimes::Lifetime;
use crate::lifetimes::imported_entry;
use crate::lifetimes::LifetimeCtx;
use crate::lifetimes::LifetimeInfo;
use crate::order::imported_rows;
use crate::order::lemma_imported_rows;
use crate::order::same_edges;
use crate::order::Rows;
use crate::order::relation::Relation;
use crate::program::label_ok;
use crate::program::labels_ok;
use crate::program::node_ok;
use crate::program::Node;
use crate::scope::leaf;
use crate::scope::DefinitionState;
use crate::scope::Scope;
use crate::scope::ScopeEntry;
use crate::text::decimal;
use crate::text::decimal_text;
use crate::text::quoted;
use crate::text::quoted_text;

verus! {

/// A variable of a rule or net, by its index in the scope of variables.
#[derive(Clone, Copy, PartialEq, Eq, Structural, PartialOrd, Ord, Hash, Debug)]
pub struct Var(pub usize);

impl Idx for Var {
    open spec fn index(self) -> usize {
        self.0
    }

    open spec fn kind_name() -> Seq<char> {
        "variable"@
    }

    fn from_usize(n: usize) -> (r: Self) {
        Var(n)
    }

    fn to_usize(self) -> (n: usize) {
        self.0
    }

    fn kind() -> (s: &'static str) {
        "variable"
    }

    proof fn lemma_index_injective(a: Self, b: Self) {
    }
}

/// What is known of a variable: the labels of the ports at which it appears.
pub struct VarInfo {
    pub uses: Vec<PortLabel>,
}

impl Default for VarInfo {
    fn default() -> (r: Self)
        ensures
            r.uses@.len() == 0,
    {
        VarInfo { uses: Vec::new() }
    }
}

/// The variables of a rule or net.
pub struct VarCtx {
    pub vars: Scope<Var, VarInfo>,
}

impl Default for VarCtx {
    fn default() -> (r: Self)
        ensures
            r.vars@.len() == 0,
    {
        VarCtx { vars: Scope::new() }
    }
}

/// Whether every use of every variable names a type among `types` types and a
/// lifetime among `lifetimes` lifetimes.
pub open spec fn uses_ok(vars: Seq<ScopeEntry<VarInfo>>, types: nat, lifetimes: nat) -> bool {
    forall|v: int|
        0 <= v < vars.len() ==> ((#[trigger] vars[v]).state matches DefinitionState::Defined(info)
            ==> labels_ok(info.uses@, types, lifetimes))
}

/// The error for a node with the wrong number of ports.
pub open spec fn arity_text(name: Seq<char>, expected: nat, supplied: nat) -> Seq<char> {
    quoted_text(name) + " expects "@ + decimal_text(expected) + " ports but "@ + decimal_text(
        supplied,
    ) + " were supplied"@
}

/// The error for a variable with fewer than two uses.
pub open spec fn too_few_text(name: Seq<char>) -> Seq<char> {
    quoted_text(name) + ": used only once"@
}

/// The error for a variable with more than two uses.
pub open spec fn too_many_text(name: Seq<char>) -> Seq<char> {
    quoted_text(name) + ": used more than twice"@
}

/// The error for a variable whose two uses do not have dual types.
pub open spec fn mismatch_text(name: Seq<char>, first: Seq<char>, second: Seq<char>) -> Seq<char> {
    quoted_text(name) + ": mismatched types "@ + quoted_text(first) + " and "@ + quoted_text(second)
}

/// What the check of one variable comes to.
pub enum VarOutcome {
    /// The variable is not defined: nothing is checked.
    Skipped,
    /// The variable fails the check.
    Failed(ErrorTree),
    /// The variable passes: the lifetimes of its two uses are to be related.
    Related(Lifetime, Lifetime, Relation),
}

/// The check of one variable: it must have two uses, of dual types, and the
/// type of the first use must be defined; then the lifetime of the first use
/// is related to that of the second, at most equal under a positive type and
/// at least equal under a negative one.
pub open spec fn var_outcome(
    types: Seq<ScopeEntry<crate::globals::TypeInfo>>,
    var: ScopeEntry<VarInfo>,
) -> VarOutcome {
    match var.state {
        DefinitionState::Defined(info) => {
            let uses = info.uses@;
            if uses.len() < 2 {
                VarOutcome::Failed(leaf(too_few_text(var.name)))
            } else if uses.len() > 2 {
                VarOutcome::Failed(leaf(too_many_text(var.name)))
            } else if uses[0].0 != uses[1].0.dual() {
                VarOutcome::Failed(
                    leaf(
                        mismatch_text(
                            var.name,
                            types[uses[0].0.0 as int].name,
                            types[uses[1].0.0 as int].name,
                        ),
                    ),
                )
            } else {
                match types[uses[0].0.0 as int].state {
                    DefinitionState::Defined(ty) => VarOutcome::Related(
                        uses[0].1,
                        uses[1].1,
                        Relation::LE.twist(ty.polarity),
                    ),
                    DefinitionState::Undefined => VarOutcome::Failed(
                        leaf(
                            crate::scope::undefined_text("type"@, types[uses[0].0.0 as int].name),
                        ),
                    ),
                    DefinitionState::Poisoned => VarOutcome::Failed(
                        leaf(crate::scope::poisoned_text("type"@, types[uses[0].0.0 as int].name)),
                    ),
                }
            }
        },
        _ => VarOutcome::Skipped,
    }
}

/// The errors of the variables that fail their check, in order.
pub open spec fn var_errors(
    types: Seq<ScopeEntry<crate::globals::TypeInfo>>,
    vars: Seq<ScopeEntry<VarInfo>>,
) -> Seq<ErrorTree>
    decreases vars.len(),
{
    if vars.len() == 0 {
        Seq::empty()
    } else {
        let before = var_errors(types, vars.drop_last());
        match var_outcome(types, vars.last()) {
            VarOutcome::Failed(e) => before.push(e),
            _ => before,
        }
    }
}

/// The relations that the variables that pass their check put on lifetimes, in
/// order.
pub open spec fn var_relations(
    types: Seq<ScopeEntry<crate::globals::TypeInfo>>,
    vars: Seq<ScopeEntry<VarInfo>>,
) -> Seq<(Lifetime, Lifetime, Relation)>
    decreases vars.len(),
{
    if vars.len() == 0 {
        Seq::empty()
    } else {
        let before = var_relations(types, vars.drop_last());
        match var_outcome(types, vars.last()) {
            VarOutcome::Related(a, b, rel) => before.push((a, b, rel)),
            _ => before,
        }
    }
}

/// What the scope of variables is after the variables at the first `count`
/// ports have been poisoned.
pub open spec fn poisoned_upto<T>(
    vars: Seq<ScopeEntry<T>>,
    ports: Seq<Var>,
    count: int,
) -> Seq<ScopeEntry<T>>
    decreases count,
{
    if count <= 0 {
        vars
    } else {
        let before = poisoned_upto(vars, ports, count - 1);
        before.update(
            ports[count - 1].0 as int,
            ScopeEntry {
                name: before[ports[count - 1].0 as int].name,
                state: DefinitionState::Poisoned,
            },
        )
    }
}

/// Poisoning keeps the number of variables, their names, and what is known of
/// the variables that stay defined.
pub proof fn lemma_poisoned_upto<T>(vars: Seq<ScopeEntry<T>>, ports: Seq<Var>, count: int)
    requires
        0 <= count <= ports.len(),
        forall|p: int| 0 <= p < ports.len() ==> (#[trigger] ports[p]).0 < vars.len(),
    ensures
        poisoned_upto(vars, ports, count).len() == vars.len(),
        forall|v: int|
            0 <= v < vars.len() ==> {
                let after = #[trigger] poisoned_upto(vars, ports, count)[v];
                &&& after.name == vars[v].name
                &&& after.state == vars[v].state || after.state is Poisoned
            },
    decreases count,
{
    if count > 0 {
        lemma_poisoned_upto(vars, ports, count - 1);
    }
}

/// What is known of the variables, with the uses of each as a sequence.
pub open spec fn var_uses(vars: Seq<ScopeEntry<VarInfo>>) -> Seq<ScopeEntry<Seq<PortLabel>>> {
    Seq::new(
        vars.len(),
        |v: int|
            ScopeEntry {
                name: vars[v].name,
                state: match vars[v].state {
                    DefinitionState::Defined(info) => DefinitionState::Defined(info.uses@),
                    DefinitionState::Undefined => DefinitionState::Undefined,
                    DefinitionState::Poisoned => DefinitionState::Poisoned,
                },
            },
    )
}

/// The uses after one more use of `var` has been recorded: a variable that is
/// not defined takes none.
pub open spec fn with_use(
    uses: Seq<ScopeEntry<Seq<PortLabel>>>,
    var: Var,
    label: PortLabel,
) -> Seq<ScopeEntry<Seq<PortLabel>>> {
    if var.0 < uses.len() && uses[var.0 as int].state is Defined {
        uses.update(
            var.0 as int,
            ScopeEntry {
                name: uses[var.0 as int].name,
                state: DefinitionState::Defined(uses[var.0 as int].state->Defined_0.push(label)),
            },
        )
    } else {
        uses
    }
}

/// The label of a port of a component whose lifetimes stand from `base` on.
pub open spec fn moved_label(label: PortLabel, base: usize) -> PortLabel {
    PortLabel(label.0, Lifetime((base + label.1.0) as usize))
}

/// The uses after the variables at the first `count` ports of a node have
/// each taken the label of their port, with its lifetime moved up by `base`.
pub open spec fn with_uses(
    uses: Seq<ScopeEntry<Seq<PortLabel>>>,
    ports: Seq<Var>,
    labels: Seq<PortLabel>,
    base: usize,
    count: int,
) -> Seq<ScopeEntry<Seq<PortLabel>>>
    decreases count,
{
    if count <= 0 {
        uses
    } else {
        with_use(
            with_uses(uses, ports, labels, base, count - 1),
            ports[count - 1],
            moved_label(labels[count - 1], base),
        )
    }
}

/// What the nodes of a net have come to: the uses of the variables, the
/// lifetimes and the two orders of the context that takes the contracts of
/// their components, and the errors.
pub struct Inferred {
    pub uses: Seq<ScopeEntry<Seq<PortLabel>>>,
    pub lifetimes: Seq<ScopeEntry<LifetimeInfo>>,
    pub ex_order: Rows,
    pub in_order: Rows,
    pub errors: Seq<ErrorTree>,
}

/// The error for a context that cannot take the lifetimes of one more
/// component.
pub open spec fn too_many_lifetimes_text() -> Seq<char> {
    "too many lifetimes"@
}

/// The lifetimes of a context after those of `from` have been brought in with
/// the sides changed, under the prefix of the node at `position`.
pub open spec fn inferred_lifetimes(
    lifetimes: Seq<ScopeEntry<LifetimeInfo>>,
    from: Seq<ScopeEntry<LifetimeInfo>>,
    position: nat,
) -> Seq<ScopeEntry<LifetimeInfo>> {
    lifetimes + Seq::new(
        from.len(),
        |i: int|
            imported_entry(from[i], true, decimal_text(position) + "."@, lifetimes.len() as usize),
    )
}

/// What one more node comes to, the node at `position` of its net. The
/// contract of its component is brought into the context with the sides
/// changed: its lifetimes under the prefix of the position, what it
/// guarantees as obligations and what it owes as guarantees. Then each
/// variable of the node takes the label of its port as a use. A node with
/// another number of ports than its component has its variables poisoned and
/// gives an error. Where the context cannot take the lifetimes, the error
/// says so and nothing else changes.
pub open spec fn inferred_node(
    before: Inferred,
    components: Seq<ScopeEntry<ComponentInfo>>,
    node: Node,
    position: nat,
) -> Inferred {
    let entry = components[node.component.0 as int];
    let info = entry.state->Defined_0;
    let from = info.lt_ctx;
    if before.lifetimes.len() + from.lifetimes@.len() > usize::MAX {
        Inferred { errors: before.errors.push(leaf(too_many_lifetimes_text())), ..before }
    } else {
        let base = before.lifetimes.len() as usize;
        let lifetimes = inferred_lifetimes(before.lifetimes, from.lifetimes@, position);
        let ex_order = imported_rows(before.ex_order, from.in_order@, base);
        let in_order = imported_rows(before.in_order, from.ex_order@, base);
        if node.ports@.len() == info.ports@.len() {
            Inferred {
                uses: with_uses(
                    before.uses,
                    node.ports@,
                    info.ports@,
                    base,
                    node.ports@.len() as int,
                ),
                lifetimes,
                ex_order,
                in_order,
                errors: before.errors,
            }
        } else {
            Inferred {
                uses: poisoned_upto(before.uses, node.ports@, node.ports@.len() as int),
                lifetimes,
                ex_order,
                in_order,
                errors: before.errors.push(
                    leaf(arity_text(entry.name, info.ports@.len(), node.ports@.len())),
                ),
            }
        }
    }
}

/// What the first `count` nodes of a net come to, one after the other.
pub open spec fn inferred(
    start: Inferred,
    components: Seq<ScopeEntry<ComponentInfo>>,
    nodes: Seq<Node>,
    count: int,
) -> Inferred
    decreases count,
{
    if count <= 0 {
        start
    } else {
        inferred_node(
            inferred(start, components, nodes, count - 1),
            components,
            nodes[count - 1],
            (count - 1) as nat,
        )
    }
}

/// Poisoning variables is the same on the uses as on the scope.
pub proof fn lemma_poisoned_uses(vars: Seq<ScopeEntry<VarInfo>>, ports: Seq<Var>, count: int)
    requires
        0 <= count <= ports.len(),
        forall|p: int| 0 <= p < ports.len() ==> (#[trigger] ports[p]).0 < vars.len(),
    ensures
        var_uses(poisoned_upto(vars, ports, count)) == poisoned_upto(var_uses(vars), ports, count),
    decreases count,
{
    if count > 0 {
        lemma_poisoned_uses(vars, ports, count - 1);
        lemma_poisoned_upto(vars, ports, count - 1);
        assert(var_uses(poisoned_upto(vars, ports, count)) =~= poisoned_upto(
            var_uses(vars),
            ports,
            count,
        ));
    }
}

/// Recording a use is `with_use` on the uses.
pub proof fn lemma_recorded_use(
    before: Seq<ScopeEntry<VarInfo>>,
    after: Seq<ScopeEntry<VarInfo>>,
    var: Var,
    label: PortLabel,
)
    requires
        after.len() == before.len(),
        forall|v: int| 0 <= v < before.len() && v != var.0 ==> #[trigger] after[v] == before[v],
        var.0 < before.len() && before[var.0 as int].state is Defined ==> after[var.0 as int].state is Defined
            && after[var.0 as int].state->Defined_0.uses@
            == before[var.0 as int].state->Defined_0.uses@.push(label) && after[var.0 as int].name
            == before[var.0 as int].name,
        !(var.0 < before.len() && before[var.0 as int].state is Defined) ==> after == before,
    ensures
        var_uses(after) == with_use(var_uses(before), var, label),
{
    assert(var_uses(after) =~= with_use(var_uses(before), var, label));
}

impl VarCtx {
    /// Pairs the variables at the ports of a node with the labels of the ports
    /// of its component. Where the node has another number of ports than the
    /// component, every variable of the node is poisoned, and the error names
    /// the component and the two numbers.
    pub fn check_node_arity(&mut self, node: &Node, globals: &GlobalCtx) -> (r: Result<
        Vec<(Var, PortLabel)>,
        Error,
    >)
        requires
            globals.components.defined(node.component),
            node_ok(*node, globals.components@.len(), old(self).vars@.len()),
        ensures
            ({
                let signature = globals.components.value(node.component).ports@;
                if node.ports@.len() == signature.len() {
                    &&& final(self).vars@ == old(self).vars@
                    &&& r is Ok
                    &&& r->Ok_0@.len() == signature.len()
                    &&& forall|i: int|
                        0 <= i < signature.len() ==> #[trigger] r->Ok_0@[i] == (
                            node.ports@[i],
                            signature[i],
                        )
                } else {
                    &&& final(self).vars@ == poisoned_upto(
                        old(self).vars@,
                        node.ports@,
                        node.ports@.len() as int,
                    )
                    &&& r is Err
                    &&& r->Err_0@ == leaf(
                        arity_text(
                            globals.components.spec_name(node.component),
                            signature.len(),
                            node.ports@.len(),
                        ),
                    )
                }
            }),
    {
        let signature = &globals.components.at(node.component).ports;
        if node.ports.len() == signature.len() {
            let mut pairs: Vec<(Var, PortLabel)> = Vec::new();
            let mut i: usize = 0;
            while i < signature.len()
                invariant
                    node.ports@.len() == signature@.len(),
                    i <= signature@.len(),
                    pairs@.len() == i,
                    forall|k: int|
                        0 <= k < i ==> #[trigger] pairs@[k] == (node.ports@[k], signature@[k]),
                decreases signature@.len() - i,
            {
                pairs.push((node.ports[i], signature[i]));
                i += 1;
            }
            Ok(pairs)
        } else {
            let mut i: usize = 0;
            while i < node.ports.len()
                invariant
                    i <= node.ports@.len(),
                    forall|p: int|
                        0 <= p < node.ports@.len() ==> (#[trigger] node.ports@[p]).0 < old(self).vars@.len(),
                    self.vars@ == poisoned_upto(old(self).vars@, node.ports@, i as int),
                decreases node.ports@.len() - i,
            {
                proof {
                    lemma_poisoned_upto(old(self).vars@, node.ports@, i as int);
                }
                self.vars.poison(node.ports[i]);
                i += 1;
            }
            let mut message = quoted(globals.components.name(node.component));
            message.append(" expects ");
            message.append(decimal(signature.len()).as_str());
            message.append(" ports but ");
            message.append(decimal(node.ports.len()).as_str());
            message.append(" were supplied");
            Err(Error::new(message))
        }
    }

    /// Records one use of a variable, unless the variable is poisoned.
    pub fn record_use(&mut self, var: Var, label: PortLabel)
        ensures
            final(self).vars@.len() == old(self).vars@.len(),
            forall|v: int|
                0 <= v < old(self).vars@.len() && v != var.0 ==> #[trigger] final(self).vars@[v]
                    == old(self).vars@[v],
            old(self).vars.defined(var) ==> final(self).vars.defined(var) && final(self).vars.value(
                var,
            ).uses@ == old(self).vars.value(var).uses@.push(label) && final(self).vars.spec_name(
                var,
            ) == old(self).vars.spec_name(var),
            !old(self).vars.defined(var) ==> final(self).vars@ == old(self).vars@,
    {
        match self.vars.peek_mut(var) {
            Some(info) => {
                info.uses.push(label);
            },
            None => {},
        }
    }

    /// Brings the contract of the component of each node into `lt_ctx`, with the
    /// sides changed, and records the uses of the variables at the ports of the
    /// node. A node with the wrong number of ports gives an error and has its
    /// variables poisoned.
    ///
    /// The uses, the lifetimes and the errors afterwards are those of
    /// `inferred` over all the nodes, and the two orders store what its orders
    /// store.
    pub fn infer_uses(
        &mut self,
        errors: &mut ErrorGroup,
        globals: &GlobalCtx,
        lt_ctx: &mut LifetimeCtx,
        nodes: &Vec<Node>,
    )
        requires
            globals.wf(),
            old(lt_ctx).wf(),
            uses_ok(old(self).vars@, globals.types@.len(), old(lt_ctx).lifetimes@.len()),
            forall|k: int|
                0 <= k < nodes@.len() ==> node_ok(
                    #[trigger] nodes@[k],
                    globals.components@.len(),
                    old(self).vars@.len(),
                ) && globals.components.defined(nodes@[k].component),
        ensures
            final(lt_ctx).wf(),
            final(self).vars@.len() == old(self).vars@.len(),
            old(lt_ctx).lifetimes@.len() <= final(lt_ctx).lifetimes@.len(),
            uses_ok(final(self).vars@, globals.types@.len(), final(lt_ctx).lifetimes@.len()),
            old(errors)@.len() <= final(errors)@.len(),
            final(errors)@.subrange(0, old(errors)@.len() as int) == old(errors)@,
            ({
                let end = inferred(
                    Inferred {
                        uses: var_uses(old(self).vars@),
                        lifetimes: old(lt_ctx).lifetimes@,
                        ex_order: old(lt_ctx).ex_order@,
                        in_order: old(lt_ctx).in_order@,
                        errors: old(errors)@,
                    },
                    globals.components@,
                    nodes@,
                    nodes@.len() as int,
                );
                &&& var_uses(final(self).vars@) == end.uses
                &&& final(lt_ctx).lifetimes@ == end.lifetimes
                &&& same_edges(final(lt_ctx).ex_order@, end.ex_order)
                &&& same_edges(final(lt_ctx).in_order@, end.in_order)
                &&& final(errors)@ == end.errors
            }),
    {
        let ghost types = globals.types@.len();
        let ghost start = Inferred {
            uses: var_uses(self.vars@),
            lifetimes: lt_ctx.lifetimes@,
            ex_order: lt_ctx.ex_order@,
            in_order: lt_ctx.in_order@,
            errors: errors@,
        };
        let mut i: usize = 0;
        assert(errors@.subrange(0, old(errors)@.len() as int) =~= old(errors)@);
        while i < nodes.len()
            invariant
                globals.wf(),
                types == globals.types@.len(),
                lt_ctx.wf(),
                i <= nodes@.len(),
                self.vars@.len() == old(self).vars@.len(),
                old(lt_ctx).lifetimes@.len() <= lt_ctx.lifetimes@.len(),
                uses_ok(self.vars@, types, lt_ctx.lifetimes@.len()),
                forall|k: int|
                    0 <= k < nodes@.len() ==> node_ok(
                        #[trigger] nodes@[k],
                        globals.components@.len(),
                        old(self).vars@.len(),
                    ) && globals.components.defined(nodes@[k].component),
                old(errors)@.len() <= errors@.len(),
                errors@.subrange(0, old(errors)@.len() as int) == old(errors)@,
                var_uses(self.vars@) == inferred(start, globals.components@, nodes@, i as int).uses,
                lt_ctx.lifetimes@ == inferred(
                    start,
                    globals.components@,
                    nodes@,
                    i as int,
                ).lifetimes,
                same_edges(
                    lt_ctx.ex_order@,
                    inferred(start, globals.components@, nodes@, i as int).ex_order,
                ),
                same_edges(
                    lt_ctx.in_order@,
                    inferred(start, globals.components@, nodes@, i as int).in_order,
                ),
                inferred(start, globals.components@, nodes@, i as int).ex_order.len()
                    <= lt_ctx.lifetimes@.len(),
                inferred(start, globals.components@, nodes@, i as int).in_order.len()
                    <= lt_ctx.lifetimes@.len(),
                errors@ == inferred(start, globals.components@, nodes@, i as int).errors,
            decreases nodes@.len() - i,
        {
            let node = &nodes[i];
            assert(node_ok(nodes@[i as int], globals.components@.len(), old(self).vars@.len()));
            let info = globals.components.at(node.component);
            proof {
                assert(globals.components@[node.component.0 as int].state is Defined);
                lt_ctx.lifetimes.lemma_count_fits();
            }
            let ghost errors_before = errors@;
            let ghost lifetimes_before = lt_ctx.lifetimes@.len();
            let ghost before = inferred(start, globals.components@, nodes@, i as int);
            let ghost after = inferred(start, globals.components@, nodes@, i + 1);
            assert(after == inferred_node(before, globals.components@, nodes@[i as int], i as nat));
            if info.lt_ctx.lifetimes.count() > usize::MAX - lt_ctx.lifetimes.count() {
                errors.push_error(Error::msg("too many lifetimes"));
            } else {
                let mut prefix = decimal(i);
                prefix.append(".");
                let ghost ex_before = lt_ctx.ex_order@;
                let ghost in_before = lt_ctx.in_order@;
                let lt_base = lt_ctx.import(&info.lt_ctx, true, prefix.as_str());
                proof {
                    lemma_uses_ok_grows(self.vars@, types, lifetimes_before, lt_ctx.lifetimes@.len());
                    assert(lt_ctx.lifetimes@ =~= after.lifetimes) by {
                        assert(prefix@ == decimal_text(i as nat) + "."@);
                        assert(lt_ctx.lifetimes@.len() == after.lifetimes.len());
                        assert forall|j: int| 0 <= j < lt_ctx.lifetimes@.len() implies lt_ctx.lifetimes@[j]
                            == after.lifetimes[j] by {
                            if j >= lifetimes_before {
                                let m = j - lifetimes_before;
                                assert(lt_ctx.lifetimes@[lt_base.0 + m] == imported_entry(
                                    info.lt_ctx.lifetimes@[m],
                                    true,
                                    prefix@,
                                    lt_base.0,
                                ));
                            }
                        }
                    }
                    lemma_imported_rows(
                        before.ex_order,
                        ex_before,
                        info.lt_ctx.in_order@,
                        lt_base.0,
                    );
                    lemma_imported_rows(
                        before.in_order,
                        in_before,
                        info.lt_ctx.ex_order@,
                        lt_base.0,
                    );
                }
                let ghost vars_before = self.vars@;
                match self.check_node_arity(node, globals) {
                    Ok(pairs) => {
                        let mut k: usize = 0;
                        while k < pairs.len()
                            invariant
                                k <= pairs@.len(),
                                types == globals.types@.len(),
                                self.vars@.len() == old(self).vars@.len(),
                                uses_ok(self.vars@, types, lt_ctx.lifetimes@.len()),
                                pairs@.len() == info.ports@.len(),
                                forall|m: int|
                                    0 <= m < pairs@.len() ==> (#[trigger] pairs@[m]).1
                                        == info.ports@[m] && pairs@[m].0 == node.ports@[m],
                                pairs@.len() == node.ports@.len(),
                                labels_ok(info.ports@, types, info.lt_ctx.lifetimes@.len()),
                                lt_base.0 + info.lt_ctx.lifetimes@.len() == lt_ctx.lifetimes@.len(),
                                lt_ctx.lifetimes@.len() <= usize::MAX,
                                var_uses(self.vars@) == with_uses(
                                    var_uses(vars_before),
                                    node.ports@,
                                    info.ports@,
                                    lt_base.0,
                                    k as int,
                                ),
                            decreases pairs@.len() - k,
                        {
                            let (var, label) = pairs[k];
                            assert(label_ok(info.ports@[k as int], types, info.lt_ctx.lifetimes@.len()));
                            let moved = PortLabel(label.0, label.1.offset(lt_base));
                            let ghost before = self.vars@;
                            self.record_use(var, moved);
                            proof {
                                lemma_uses_ok_record(
                                    before,
                                    self.vars@,
                                    var,
                                    moved,
                                    types,
                                    lt_ctx.lifetimes@.len(),
                                );
                                lemma_recorded_use(before, self.vars@, var, moved);
                                assert(moved == moved_label(info.ports@[k as int], lt_base.0));
                            }
                            k += 1;
                        }
                    },
                    Err(e) => {
                        proof {
                            lemma_poisoned_upto(vars_before, node.ports@, node.ports@.len() as int);
                            lemma_poisoned_uses(vars_before, node.ports@, node.ports@.len() as int);
                            assert forall|v: int| 0 <= v < self.vars@.len() implies ((
                            #[trigger] self.vars@[v]).state matches DefinitionState::Defined(info)
                                ==> labels_ok(info.uses@, types, lt_ctx.lifetimes@.len())) by {
                                assert(self.vars@[v].state == vars_before[v].state
                                    || self.vars@[v].state is Poisoned);
                            }
                        }
                        errors.push_error(e);
                    },
                }
            }
            proof {
                assert(errors@.subrange(0, old(errors)@.len() as int) =~= old(errors)@) by {
                    assert forall|k: int| 0 <= k < old(errors)@.len() implies errors@[k] == old(errors)@[k] by {
                        assert(errors_before.subrange(0, old(errors)@.len() as int)[k]
                            == errors_before[k]);
                    }
                }
            }
            i += 1;
        }
    }

    /// Checks every variable: it must have two uses, of dual types. For a
    /// variable that passes, the lifetimes of its two uses are related in the
    /// obligations of `lt_ctx`: the first at most the second, under the
    /// polarity of the type of the first use.
    pub fn check_types(&mut self, globals: &GlobalCtx, lt_ctx: &mut LifetimeCtx) -> (errors:
        ErrorGroup)
        requires
            globals.wf(),
            old(lt_ctx).wf(),
            uses_ok(old(self).vars@, globals.types@.len(), old(lt_ctx).lifetimes@.len()),
        ensures
            final(self).vars@ == old(self).vars@,
            final(lt_ctx).wf(),
            final(lt_ctx).lifetimes@ == old(lt_ctx).lifetimes@,
            final(lt_ctx).ex_order@ == old(lt_ctx).ex_order@,
            errors@.len() <= old(self).vars@.len(),
            errors@ == var_errors(globals.types@, old(self).vars@),
            final(lt_ctx).in_order@ == crate::order::related_all(
                old(lt_ctx).in_order@,
                var_relations(globals.types@, old(self).vars@),
            ),
    {
        let mut errors = ErrorGroup::new();
        let n = self.vars.count();
        let lifetimes = lt_ctx.lifetimes.count();
        let mut v: usize = 0;
        assert(self.vars@.subrange(0, 0) =~= Seq::<ScopeEntry<VarInfo>>::empty());
        while v < n
            invariant
                globals.wf(),
                lt_ctx.wf(),
                lt_ctx.lifetimes@ == old(lt_ctx).lifetimes@,
                lt_ctx.ex_order@ == old(lt_ctx).ex_order@,
                lt_ctx.lifetimes@.len() == lifetimes,
                errors@ == var_errors(globals.types@, self.vars@.subrange(0, v as int)),
                lt_ctx.in_order@ == crate::order::related_all(
                    old(lt_ctx).in_order@,
                    var_relations(globals.types@, self.vars@.subrange(0, v as int)),
                ),
                self.vars@ == old(self).vars@,
                n == self.vars@.len(),
                v <= n,
                errors@.len() <= v,
                uses_ok(self.vars@, globals.types@.len(), lt_ctx.lifetimes@.len()),
            decreases n - v,
        {
            let key = Var(v);
            proof {
                let upto = self.vars@.subrange(0, v + 1);
                assert(upto.drop_last() =~= self.vars@.subrange(0, v as int));
                assert(upto.last() == self.vars@[v as int]);
                if let VarOutcome::Related(a, b, rel) = var_outcome(globals.types@, self.vars@[v as int]) {
                    crate::order::lemma_related_all_push(
                        old(lt_ctx).in_order@,
                        var_relations(globals.types@, self.vars@.subrange(0, v as int)),
                        (a, b, rel),
                    );
                }
            }
            match self.vars.peek(key) {
                Some(info) => {
                    assert(self.vars@[v as int].state is Defined);
                    let name = self.vars.name(key);
                    let uses = &info.uses;
                    if uses.len() < 2 {
                        let mut message = quoted(name);
                        message.append(": used only once");
                        errors.push_error(Error::new(message));
                    } else if uses.len() > 2 {
                        let mut message = quoted(name);
                        message.append(": used more than twice");
                        errors.push_error(Error::new(message));
                    } else {
                        let a = uses[0];
                        let b = uses[1];
                        assert(label_ok(info.uses@[0], globals.types@.len(), lt_ctx.lifetimes@.len()));
                        assert(label_ok(info.uses@[1], globals.types@.len(), lt_ctx.lifetimes@.len()));
                        let dual_b = dual_of(b.0);
                        if a.0 != dual_b {
                            let mut message = quoted(name);
                            message.append(": mismatched types ");
                            message.append(quoted(globals.types.name(a.0)).as_str());
                            message.append(" and ");
                            message.append(quoted(globals.types.name(b.0)).as_str());
                            errors.push_error(Error::new(message));
                        } else {
                            match globals.types.get(a.0) {
                                Ok(ty) => {
                                    proof {
                                        crate::order::lemma_related_tightens_len(
                                            lt_ctx.in_order@,
                                            a.1.0,
                                            b.1.0,
                                            Relation::LE.twist(ty.polarity),
                                        );
                                    }
                                    lt_ctx.in_order.relate_polarity(
                                        a.1,
                                        b.1,
                                        Relation::LE,
                                        ty.polarity,
                                    );
                                },
                                Err(e) => {
                                    errors.push_error(e);
                                },
                            }
                        }
                    }
                },
                None => {},
            }
            v += 1;
        }
        assert(self.vars@.subrange(0, v as int) =~= self.vars@);
        errors
    }
}

/// Uses that are in range stay in range when lifetimes are added.
pub proof fn lemma_uses_ok_grows(
    vars: Seq<ScopeEntry<VarInfo>>,
    types: nat,
    before: nat,
    after: nat,
)
    requires
        uses_ok(vars, types, before),
        before <= after,
    ensures
        uses_ok(vars, types, after),
{
    assert forall|v: int| 0 <= v < vars.len() implies ((#[trigger] vars[v]).state matches DefinitionState::Defined(
        info,
    ) ==> labels_ok(info.uses@, types, after)) by {
        if let DefinitionState::Defined(info) = vars[v].state {
            assert(labels_ok(info.uses@, types, before));
            assert forall|i: int| 0 <= i < info.uses@.len() implies label_ok(
                #[trigger] info.uses@[i],
                types,
                after,
            ) by {
                assert(label_ok(info.uses@[i], types, before));
            }
        }
    }
}

/// Uses that are in range stay in range when types are added.
pub proof fn lemma_uses_ok_more_types(
    vars: Seq<ScopeEntry<VarInfo>>,
    types: nat,
    more_types: nat,
    lifetimes: nat,
)
    requires
        uses_ok(vars, types, lifetimes),
        types <= more_types,
    ensures
        uses_ok(vars, more_types, lifetimes),
{
    assert forall|v: int| 0 <= v < vars.len() implies ((#[trigger] vars[v]).state matches DefinitionState::Defined(
        info,
    ) ==> labels_ok(info.uses@, more_types, lifetimes)) by {
        if let DefinitionState::Defined(info) = vars[v].state {
            assert(labels_ok(info.uses@, types, lifetimes));
            assert forall|i: int| 0 <= i < info.uses@.len() implies label_ok(
                #[trigger] info.uses@[i],
                more_types,
                lifetimes,
            ) by {
                assert(label_ok(info.uses@[i], types, lifetimes));
            }
        }
    }
}

/// Uses stay in range when a use that is in range is recorded.
pub proof fn lemma_uses_ok_record(
    before: Seq<ScopeEntry<VarInfo>>,
    after: Seq<ScopeEntry<VarInfo>>,
    var: Var,
    label: PortLabel,
    types: nat,
    lifetimes: nat,
)
    requires
        uses_ok(before, types, lifetimes),
        label_ok(label, types, lifetimes),
        after.len() == before.len(),
        forall|v: int| 0 <= v < before.len() && v != var.0 ==> #[trigger] after[v] == before[v],
        var.0 < before.len() && before[var.0 as int].state is Defined ==> after[var.0 as int].state is Defined
            && after[var.0 as int].state->Defined_0.uses@
            == before[var.0 as int].state->Defined_0.uses@.push(label),
        !(var.0 < before.len() && before[var.0 as int].state is Defined) ==> after == before,
    ensures
        uses_ok(after, types, lifetimes),
{
    assert forall|v: int| 0 <= v < after.len() implies ((#[trigger] after[v]).state matches DefinitionState::Defined(
        info,
    ) ==> labels_ok(info.uses@, types, lifetimes)) by {
        if let DefinitionState::Defined(info) = after[v].state {
            if v == var.0 && before[v].state is Defined {
                let old_uses = before[v].state->Defined_0.uses@;
                assert(labels_ok(old_uses, types, lifetimes));
                assert forall|i: int| 0 <= i < info.uses@.len() implies label_ok(
                    #[trigger] info.uses@[i],
                    types,
                    lifetimes,
                ) by {
                    if i < old_uses.len() {
                        assert(label_ok(old_uses[i], types, lifetimes));
                    }
                }
            } else {
                assert(after[v] == before[v]);
            }
        }
    }
}

} // verus!
