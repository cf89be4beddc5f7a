use vstd::prelude::*;
use crate::globals::Component;
use crate::globals::Polarity;
use crate::globals::PortLabel;
use crate::globals::Type;
use crate::lifetimes::Lifetime;
use crate::lifetimes::LifetimeInfo;
use crate::lifetimes::Side;
use crate::order::related;
use crate::order::relation::Relation;
use crate::order::Rows;
use crate::program::AgentDef;
use crate::program::NetDef;
use crate::program::Node;
use crate::program::Program;
use crate::program::RuleDef;
use crate::program::TypeDef;
use crate::scope::lookup_find;
use crate::scope::DefinitionState;
use crate::scope::ScopeEntry;
use crate::vars::Var;

verus! {

/// Whether a character may stand in a name: a letter or digit of ASCII, or one
/// of `_`, `.`, `-`, `/` and `$`.
pub open spec fn name_char(c: char) -> bool {
    ('a' <= c && c <= 'z') || ('A' <= c && c <= 'Z') || ('0' <= c && c <= '9') || c == '_' || c
        == '.' || c == '-' || c == '/' || c == '$'
}

/// Whether a character is white space of ASCII.
pub open spec fn space_char(c: char) -> bool {
    c == ' ' || c == '\t' || c == '\n' || c == '\x0C' || c == '\r'
}

/// The names of a scope in the making, and the positions that the names of the
/// current declaration are held at.
pub struct NameTable {
    pub names: Seq<Seq<char>>,
    pub lookup: Seq<(Seq<char>, usize)>,
}

/// The lifetimes of a context in the making, and the positions that their names
/// are held at.
pub struct LifetimeTable {
    pub entries: Seq<ScopeEntry<LifetimeInfo>>,
    pub lookup: Seq<(Seq<char>, usize)>,
}

/// What a parser has come to: the place in the text, and the names that it has
/// met.
pub struct ParseState {
    pub index: int,
    pub types: NameTable,
    pub components: NameTable,
    pub lifetimes: LifetimeTable,
    pub vars: NameTable,
}

/// A node as the text gives it.
pub struct NodeModel {
    pub component: Component,
    pub ports: Seq<Var>,
}

/// The declaration of an agent as the text gives it.
pub struct AgentModel {
    pub id: Component,
    pub lifetimes: Seq<ScopeEntry<LifetimeInfo>>,
    pub ex_order: Rows,
    pub in_order: Rows,
    pub ports: Seq<PortLabel>,
}

/// The declaration of a rule as the text gives it.
pub struct RuleModel {
    pub vars: Seq<Seq<char>>,
    pub a: NodeModel,
    pub b: NodeModel,
    pub result: Seq<NodeModel>,
}

/// The declaration of a net as the text gives it.
pub struct NetModel {
    pub id: Component,
    pub vars: Seq<Seq<char>>,
    pub lifetimes: Seq<ScopeEntry<LifetimeInfo>>,
    pub ex_order: Rows,
    pub in_order: Rows,
    pub free_ports: Seq<(Var, PortLabel)>,
    pub nodes: Seq<NodeModel>,
}

/// The declarations of a source file as the text gives them, in their order.
pub struct Declarations {
    pub types: Seq<TypeDef>,
    pub agents: Seq<AgentModel>,
    pub rules: Seq<RuleModel>,
    pub nets: Seq<NetModel>,
}

/// A source file as the text gives it: its declarations, and the names of its
/// types and components.
pub struct ProgramModel {
    pub type_names: Seq<Seq<char>>,
    pub component_names: Seq<Seq<char>>,
    pub declarations: Declarations,
}

/// Why a text cannot be read: something else was expected at a place, or a
/// lifetime is declared on both sides in the part of the text from `start` to
/// `end`.
pub enum ParseFailure {
    Expected { word: Seq<char>, index: int },
    Inconsistent { name: Seq<char>, start: int, end: int },
}

/// The failure for a place where `word` was expected.
pub open spec fn expected(word: Seq<char>, index: int) -> ParseFailure {
    ParseFailure::Expected { word, index }
}

/// A table without names.
pub open spec fn no_names() -> NameTable {
    NameTable { names: Seq::empty(), lookup: Seq::empty() }
}

/// A table without lifetimes.
pub open spec fn no_lifetimes() -> LifetimeTable {
    LifetimeTable { entries: Seq::empty(), lookup: Seq::empty() }
}

/// The state of a parser at the start of a text.
pub open spec fn start_state() -> ParseState {
    ParseState {
        index: 0,
        types: no_names(),
        components: no_names(),
        lifetimes: no_lifetimes(),
        vars: no_names(),
    }
}

/// The state at another place of the text.
pub open spec fn at(st: ParseState, index: int) -> ParseState {
    ParseState { index, ..st }
}

/// The end of the line that holds the place `i`: the place of its line feed, or
/// the end of the text.
pub open spec fn line_end(chars: Seq<char>, i: int) -> int
    decreases chars.len() - i,
{
    if i < 0 || i >= chars.len() || chars[i] == '\n' {
        i
    } else {
        line_end(chars, i + 1)
    }
}

/// The place after the white space and the comments that start at `i`. A
/// comment runs from `//` to the end of its line.
pub open spec fn trivia_end(chars: Seq<char>, i: int) -> int
    decreases chars.len() - i,
{
    if i < 0 || i >= chars.len() {
        i
    } else if space_char(chars[i]) {
        trivia_end(chars, i + 1)
    } else if chars[i] == '/' && i + 1 < chars.len() && chars[i + 1] == '/' {
        let end = line_end(chars, i);
        if i <= end < chars.len() {
            trivia_end(chars, end + 1)
        } else {
            end
        }
    } else {
        i
    }
}

/// Whether the text goes on with `text` at the place `i`.
pub open spec fn starts(chars: Seq<char>, i: int, text: Seq<char>) -> bool {
    0 <= i && i + text.len() <= chars.len() && chars.subrange(i, i + text.len()) == text
}

/// The place after `text`, which must follow the white space and comments at
/// `i`.
pub open spec fn s_consume(chars: Seq<char>, i: int, text: Seq<char>) -> Result<int, ParseFailure> {
    let j = trivia_end(chars, i);
    if starts(chars, j, text) {
        Ok(j + text.len())
    } else {
        Err(expected(text, j))
    }
}

/// Whether `text` follows the white space and comments at `i`, and the place
/// after it, or after the white space and comments alone.
pub open spec fn s_try(chars: Seq<char>, i: int, text: Seq<char>) -> (bool, int) {
    let j = trivia_end(chars, i);
    if starts(chars, j, text) {
        (true, j + text.len())
    } else {
        (false, j)
    }
}

/// The end of the run of name characters that starts at `i`.
pub open spec fn name_end(chars: Seq<char>, i: int) -> int
    decreases chars.len() - i,
{
    if 0 <= i < chars.len() && name_char(chars[i]) {
        name_end(chars, i + 1)
    } else {
        i
    }
}

/// The name that follows the white space and comments at `i`, with the place
/// after it. A name has at least one character.
pub open spec fn s_name(chars: Seq<char>, i: int) -> Result<(int, Seq<char>), ParseFailure> {
    let j = trivia_end(chars, i);
    let end = name_end(chars, j);
    if j < end {
        Ok((end, chars.subrange(j, end)))
    } else {
        Err(expected("name"@, end))
    }
}

/// The position of a name in a table, with the table: the position that the
/// table holds for the name, or that of a new entry.
pub open spec fn named(table: NameTable, name: Seq<char>) -> (NameTable, usize) {
    match lookup_find(table.lookup, name) {
        Some(key) => (table, key),
        None => (
            NameTable {
                names: table.names.push(name),
                lookup: table.lookup.push((name, table.names.len() as usize)),
            },
            table.names.len() as usize,
        ),
    }
}

/// A type: `!` for the dual, and a name. A name that is new gets two types, the
/// dual first.
pub open spec fn s_type(chars: Seq<char>, st: ParseState) -> Result<(ParseState, Type), ParseFailure> {
    let (inverted, i1) = s_try(chars, st.index, "!"@);
    match s_name(chars, i1) {
        Ok((i2, name)) => {
            let (types, key) = match lookup_find(st.types.lookup, name) {
                Some(key) => (st.types, key),
                None => (
                    NameTable {
                        names: st.types.names.push("!"@ + name).push(name),
                        lookup: st.types.lookup.push((name, (st.types.names.len() + 1) as usize)),
                    },
                    (st.types.names.len() + 1) as usize,
                ),
            };
            Ok(
                (
                    ParseState { index: i2, types, ..st },
                    if inverted {
                        Type(key).dual()
                    } else {
                        Type(key)
                    },
                ),
            )
        },
        Err(f) => Err(f),
    }
}

/// A lifetime: a quote and a name of at least one character. A lifetime that
/// is new gets an entry without a definition.
pub open spec fn s_lt(chars: Seq<char>, st: ParseState) -> Result<(ParseState, Lifetime), ParseFailure> {
    let start = trivia_end(chars, st.index);
    match s_consume(chars, start, "'"@) {
        Ok(i1) => {
            let end = name_end(chars, i1);
            if i1 < end && 0 <= start <= end <= chars.len() {
                let name = chars.subrange(start, end);
                let (lifetimes, key) = match lookup_find(st.lifetimes.lookup, name) {
                    Some(key) => (st.lifetimes, key),
                    None => (
                        LifetimeTable {
                            entries: st.lifetimes.entries.push(
                                ScopeEntry { name, state: DefinitionState::Undefined },
                            ),
                            lookup: st.lifetimes.lookup.push(
                                (name, st.lifetimes.entries.len() as usize),
                            ),
                        },
                        st.lifetimes.entries.len() as usize,
                    ),
                };
                Ok((ParseState { index: end, lifetimes, ..st }, Lifetime(key)))
            } else {
                Err(expected("lifetime name"@, end))
            }
        },
        Err(f) => Err(f),
    }
}

/// The declaration of a lifetime on a side: the lifetime, and `?` to put it on
/// the other side. The lifetime is defined with that side; one that is
/// defined already must have it.
pub open spec fn s_lt_decl(chars: Seq<char>, st: ParseState, side: Side) -> Result<(ParseState, Lifetime), ParseFailure> {
    match s_lt(chars, st) {
        Ok((st1, lt)) => {
            let (flip, i2) = s_try(chars, st1.index, "?"@);
            let side = side.flipped(flip);
            let entry = st1.lifetimes.entries[lt.0 as int];
            match entry.state {
                DefinitionState::Defined(info) => if info.side == side {
                    Ok((at(st1, i2), lt))
                } else {
                    Err(ParseFailure::Inconsistent { name: entry.name, start: st.index, end: i2 })
                },
                _ => Ok(
                    (
                        ParseState {
                            index: i2,
                            lifetimes: LifetimeTable {
                                entries: st1.lifetimes.entries.update(
                                    lt.0 as int,
                                    ScopeEntry {
                                        name: entry.name,
                                        state: DefinitionState::Defined(
                                            LifetimeInfo { side, max: None, min: None },
                                        ),
                                    },
                                ),
                                lookup: st1.lifetimes.lookup,
                            },
                            ..st1
                        },
                        lt,
                    ),
                ),
            }
        },
        Err(f) => Err(f),
    }
}

/// The end of a lifetime context: `]`.
pub open spec fn s_close(chars: Seq<char>, st: ParseState, ex: Rows, inner: Rows) -> Result<(ParseState, Rows, Rows), ParseFailure> {
    match s_consume(chars, st.index, "]"@) {
        Ok(i) => Ok((at(st, i), ex, inner)),
        Err(f) => Err(f),
    }
}

/// What a separator between two declarations of lifetimes says: the side of
/// the declarations that follow, the relation between its neighbours, if any,
/// still non-strict, and the place after the separator. `,` relates nothing,
/// `<` and `>` relate the neighbours, and `|` starts the internal side.
pub open spec fn s_separator(chars: Seq<char>, j: int, side: Side) -> Result<(Side, Option<Relation>, int), ParseFailure> {
    let c = chars[j];
    if c == ',' {
        Ok((side, None, j + 1))
    } else if c == '<' {
        Ok((side, Some(Relation::LE), j + 1))
    } else if c == '>' {
        Ok((side, Some(Relation::GE), j + 1))
    } else if c == '|' && side == Side::External {
        Ok((Side::Internal, None, j + 1))
    } else if c == '|' {
        Err(expected("comma or comparison operator"@, j))
    } else {
        Err(expected("comma, comparison operator, or separator"@, j))
    }
}

/// The rest of a lifetime context after the declaration of `prev`: the end of
/// the context, or a separator and a declaration, and so on. A comparison
/// without `=` is strict; it is recorded in the order of the side.
pub open spec fn s_lt_rest(
    chars: Seq<char>,
    st: ParseState,
    side: Side,
    prev: Lifetime,
    ex: Rows,
    inner: Rows,
) -> Result<(ParseState, Rows, Rows), ParseFailure>
    decreases chars.len() - st.index,
{
    let j = trivia_end(chars, st.index);
    if !(0 <= j < chars.len()) {
        Err(expected("comma, comparison operator, or separator"@, j))
    } else if chars[j] == ']' {
        s_close(chars, at(st, j), ex, inner)
    } else {
        match s_separator(chars, j, side) {
            Ok((side2, base, after)) => {
                let (rel, i2) = match base {
                    Some(r) => {
                        let (equal, k) = s_try(chars, after, "="@);
                        (
                            Some(
                                if equal {
                                    r
                                } else {
                                    r.not_equal()
                                },
                            ),
                            k,
                        )
                    },
                    None => (None, after),
                };
                match s_lt_decl(chars, at(st, i2), side2) {
                    Ok((st2, next)) => {
                        let ex2 = match rel {
                            Some(r) => if side2 == Side::External {
                                related(ex, prev.0, next.0, r)
                            } else {
                                ex
                            },
                            None => ex,
                        };
                        let inner2 = match rel {
                            Some(r) => if side2 == Side::Internal {
                                related(inner, prev.0, next.0, r)
                            } else {
                                inner
                            },
                            None => inner,
                        };
                        if st.index < st2.index <= chars.len() {
                            s_lt_rest(chars, st2, side2, next, ex2, inner2)
                        } else {
                            Err(expected(Seq::empty(), st.index))
                        }
                    },
                    Err(f) => Err(f),
                }
            },
            Err(f) => Err(f),
        }
    }
}

/// A lifetime context: nothing, or declarations of lifetimes between `[` and
/// `]`, with separators between them; `|` in front of the first declaration
/// starts with the internal side. The result is the order of the guarantees
/// and that of the obligations.
pub open spec fn s_lt_ctx(chars: Seq<char>, st: ParseState) -> Result<(ParseState, Rows, Rows), ParseFailure> {
    let (open, i1) = s_try(chars, st.index, "["@);
    if !open {
        Ok((at(st, i1), Seq::empty(), Seq::empty()))
    } else {
        let (closed, i2) = s_try(chars, i1, "]"@);
        if closed {
            s_close(chars, at(st, i2), Seq::empty(), Seq::empty())
        } else {
            let (bar, i3) = s_try(chars, i2, "|"@);
            let side = Side::External.flipped(bar);
            match s_lt_decl(chars, at(st, i3), side) {
                Ok((st1, prev)) => s_lt_rest(chars, st1, side, prev, Seq::empty(), Seq::empty()),
                Err(f) => Err(f),
            }
        }
    }
}

/// The label of a port: a type and a lifetime.
pub open spec fn s_port_label(chars: Seq<char>, st: ParseState) -> Result<(ParseState, PortLabel), ParseFailure> {
    match s_type(chars, st) {
        Ok((st1, ty)) => match s_lt(chars, st1) {
            Ok((st2, lt)) => Ok((st2, PortLabel(ty, lt))),
            Err(f) => Err(f),
        },
        Err(f) => Err(f),
    }
}

/// A variable: a name.
pub open spec fn s_var(chars: Seq<char>, st: ParseState) -> Result<(ParseState, Var), ParseFailure> {
    match s_name(chars, st.index) {
        Ok((i1, name)) => {
            let (vars, key) = named(st.vars, name);
            Ok((ParseState { index: i1, vars, ..st }, Var(key)))
        },
        Err(f) => Err(f),
    }
}

/// The head of a node or declaration: the name of a component, and `(`.
pub open spec fn s_head(chars: Seq<char>, st: ParseState) -> Result<(ParseState, Component), ParseFailure> {
    match s_name(chars, st.index) {
        Ok((i1, name)) => {
            let (components, key) = named(st.components, name);
            match s_consume(chars, i1, "("@) {
                Ok(i2) => Ok((ParseState { index: i2, components, ..st }, Component(key))),
                Err(f) => Err(f),
            }
        },
        Err(f) => Err(f),
    }
}

/// What follows an element of a list of ports: `,` where the list goes on, or
/// `)`.
pub open spec fn s_more(chars: Seq<char>, i: int) -> Result<(bool, int), ParseFailure> {
    let (comma, i1) = s_try(chars, i, ","@);
    if comma {
        Ok((true, i1))
    } else {
        match s_consume(chars, i1, ")"@) {
            Ok(i2) => Ok((false, i2)),
            Err(f) => Err(f),
        }
    }
}

/// The variables at the ports of a node, up to `)`; `ports` are those that
/// have been read.
pub open spec fn s_vars(chars: Seq<char>, st: ParseState, ports: Seq<Var>) -> Result<(ParseState, Seq<Var>), ParseFailure>
    decreases chars.len() - st.index,
{
    let (closed, i1) = s_try(chars, st.index, ")"@);
    if closed {
        Ok((at(st, i1), ports))
    } else {
        match s_var(chars, at(st, i1)) {
            Ok((st2, var)) => match s_more(chars, st2.index) {
                Ok((more, i3)) => if !more {
                    Ok((at(st2, i3), ports.push(var)))
                } else if st.index < i3 <= chars.len() {
                    s_vars(chars, at(st2, i3), ports.push(var))
                } else {
                    Err(expected(Seq::empty(), st.index))
                },
                Err(f) => Err(f),
            },
            Err(f) => Err(f),
        }
    }
}

/// A node: the name of a component, and its variables between `(` and `)`.
pub open spec fn s_node(chars: Seq<char>, st: ParseState) -> Result<(ParseState, NodeModel), ParseFailure> {
    match s_head(chars, st) {
        Ok((st1, component)) => match s_vars(chars, st1, Seq::empty()) {
            Ok((st2, ports)) => Ok((st2, NodeModel { component, ports })),
            Err(f) => Err(f),
        },
        Err(f) => Err(f),
    }
}

/// The nodes of a net, up to `}`; `nodes` are those that have been read.
pub open spec fn s_nodes(chars: Seq<char>, st: ParseState, nodes: Seq<NodeModel>) -> Result<(ParseState, Seq<NodeModel>), ParseFailure>
    decreases chars.len() - st.index,
{
    let (closed, i1) = s_try(chars, st.index, "}"@);
    if closed {
        Ok((at(st, i1), nodes))
    } else {
        match s_node(chars, at(st, i1)) {
            Ok((st2, node)) => if st.index < st2.index <= chars.len() {
                s_nodes(chars, st2, nodes.push(node))
            } else {
                Err(expected(Seq::empty(), st.index))
            },
            Err(f) => Err(f),
        }
    }
}

/// A net: nodes between `{` and `}`.
pub open spec fn s_net(chars: Seq<char>, st: ParseState) -> Result<(ParseState, Seq<NodeModel>), ParseFailure> {
    match s_consume(chars, st.index, "{"@) {
        Ok(i1) => s_nodes(chars, at(st, i1), Seq::empty()),
        Err(f) => Err(f),
    }
}

/// The labels of the ports of an agent, up to `)`; `ports` are those that have
/// been read.
pub open spec fn s_labels(chars: Seq<char>, st: ParseState, ports: Seq<PortLabel>) -> Result<(ParseState, Seq<PortLabel>), ParseFailure>
    decreases chars.len() - st.index,
{
    let (closed, i1) = s_try(chars, st.index, ")"@);
    if closed {
        Ok((at(st, i1), ports))
    } else {
        match s_port_label(chars, at(st, i1)) {
            Ok((st2, label)) => match s_more(chars, st2.index) {
                Ok((more, i3)) => if !more {
                    Ok((at(st2, i3), ports.push(label)))
                } else if st.index < i3 <= chars.len() {
                    s_labels(chars, at(st2, i3), ports.push(label))
                } else {
                    Err(expected(Seq::empty(), st.index))
                },
                Err(f) => Err(f),
            },
            Err(f) => Err(f),
        }
    }
}

/// The free ports of a net, up to `)`: each a variable, `:`, and a label;
/// `ports` are those that have been read.
pub open spec fn s_free_ports(
    chars: Seq<char>,
    st: ParseState,
    ports: Seq<(Var, PortLabel)>,
) -> Result<(ParseState, Seq<(Var, PortLabel)>), ParseFailure>
    decreases chars.len() - st.index,
{
    let (closed, i1) = s_try(chars, st.index, ")"@);
    if closed {
        Ok((at(st, i1), ports))
    } else {
        match s_var(chars, at(st, i1)) {
            Ok((st2, var)) => match s_consume(chars, st2.index, ":"@) {
                Ok(i3) => match s_port_label(chars, at(st2, i3)) {
                    Ok((st4, label)) => match s_more(chars, st4.index) {
                        Ok((more, i5)) => if !more {
                            Ok((at(st4, i5), ports.push((var, label))))
                        } else if st.index < i5 <= chars.len() {
                            s_free_ports(chars, at(st4, i5), ports.push((var, label)))
                        } else {
                            Err(expected(Seq::empty(), st.index))
                        },
                        Err(f) => Err(f),
                    },
                    Err(f) => Err(f),
                },
                Err(f) => Err(f),
            },
            Err(f) => Err(f),
        }
    }
}

/// The declaration of a type: `type`, a type, `:`, and `+` or `-`.
pub open spec fn s_type_def(chars: Seq<char>, st: ParseState) -> Result<(ParseState, TypeDef), ParseFailure> {
    match s_consume(chars, st.index, "type"@) {
        Ok(i1) => match s_type(chars, at(st, i1)) {
            Ok((st2, id)) => match s_consume(chars, st2.index, ":"@) {
                Ok(i3) => {
                    let j = trivia_end(chars, i3);
                    if 0 <= j < chars.len() && chars[j] == '+' {
                        Ok((at(st2, j + 1), TypeDef { id, polarity: Polarity::Pos }))
                    } else if 0 <= j < chars.len() && chars[j] == '-' {
                        Ok((at(st2, j + 1), TypeDef { id, polarity: Polarity::Neg }))
                    } else {
                        Err(expected("polarity"@, j))
                    }
                },
                Err(f) => Err(f),
            },
            Err(f) => Err(f),
        },
        Err(f) => Err(f),
    }
}

/// The declaration of an agent: `agent`, a lifetime context, the name of the
/// agent, and the labels of its ports between `(` and `)`. The lifetimes of the
/// declaration are those of its context and of its labels.
pub open spec fn s_agent_def(chars: Seq<char>, st: ParseState) -> Result<(ParseState, AgentModel), ParseFailure> {
    match s_consume(chars, st.index, "agent"@) {
        Ok(i1) => match s_lt_ctx(chars, at(st, i1)) {
            Ok((st2, ex_order, in_order)) => match s_head(chars, st2) {
                Ok((st3, id)) => match s_labels(chars, st3, Seq::empty()) {
                    Ok((st4, ports)) => Ok(
                        (
                            ParseState { lifetimes: no_lifetimes(), ..st4 },
                            AgentModel {
                                id,
                                lifetimes: st4.lifetimes.entries,
                                ex_order,
                                in_order,
                                ports,
                            },
                        ),
                    ),
                    Err(f) => Err(f),
                },
                Err(f) => Err(f),
            },
            Err(f) => Err(f),
        },
        Err(f) => Err(f),
    }
}

/// The declaration of a rule: `rule`, the two nodes that it matches, and the
/// net that it puts in their place. The variables of the declaration are
/// those of all its nodes.
pub open spec fn s_rule_def(chars: Seq<char>, st: ParseState) -> Result<(ParseState, RuleModel), ParseFailure> {
    match s_consume(chars, st.index, "rule"@) {
        Ok(i1) => match s_node(chars, at(st, i1)) {
            Ok((st2, a)) => match s_node(chars, st2) {
                Ok((st3, b)) => match s_net(chars, st3) {
                    Ok((st4, result)) => Ok(
                        (
                            ParseState { vars: no_names(), ..st4 },
                            RuleModel { vars: st4.vars.names, a, b, result },
                        ),
                    ),
                    Err(f) => Err(f),
                },
                Err(f) => Err(f),
            },
            Err(f) => Err(f),
        },
        Err(f) => Err(f),
    }
}

/// The declaration of a net: `net`, a lifetime context, the name of the net,
/// its free ports between `(` and `)`, and its nodes.
pub open spec fn s_net_def(chars: Seq<char>, st: ParseState) -> Result<(ParseState, NetModel), ParseFailure> {
    match s_consume(chars, st.index, "net"@) {
        Ok(i1) => match s_lt_ctx(chars, at(st, i1)) {
            Ok((st2, ex_order, in_order)) => match s_head(chars, st2) {
                Ok((st3, id)) => match s_free_ports(chars, st3, Seq::empty()) {
                    Ok((st4, free_ports)) => match s_net(chars, st4) {
                        Ok((st5, nodes)) => Ok(
                            (
                                ParseState { lifetimes: no_lifetimes(), vars: no_names(), ..st5 },
                                NetModel {
                                    id,
                                    vars: st5.vars.names,
                                    lifetimes: st5.lifetimes.entries,
                                    ex_order,
                                    in_order,
                                    free_ports,
                                    nodes,
                                },
                            ),
                        ),
                        Err(f) => Err(f),
                    },
                    Err(f) => Err(f),
                },
                Err(f) => Err(f),
            },
            Err(f) => Err(f),
        },
        Err(f) => Err(f),
    }
}

/// One declaration: of a type, an agent, a rule or a net, as its first word
/// says. It is added to the declarations of its kind.
pub open spec fn s_item(chars: Seq<char>, st: ParseState, found: Declarations) -> Result<(ParseState, Declarations), ParseFailure> {
    let j = trivia_end(chars, st.index);
    if starts(chars, j, "type"@) {
        match s_type_def(chars, at(st, j)) {
            Ok((st1, def)) => Ok((st1, Declarations { types: found.types.push(def), ..found })),
            Err(f) => Err(f),
        }
    } else if starts(chars, j, "agent"@) {
        match s_agent_def(chars, at(st, j)) {
            Ok((st1, def)) => Ok(
                (st1, Declarations { agents: found.agents.push(def), ..found }),
            ),
            Err(f) => Err(f),
        }
    } else if starts(chars, j, "rule"@) {
        match s_rule_def(chars, at(st, j)) {
            Ok((st1, def)) => Ok((st1, Declarations { rules: found.rules.push(def), ..found })),
            Err(f) => Err(f),
        }
    } else if starts(chars, j, "net"@) {
        match s_net_def(chars, at(st, j)) {
            Ok((st1, def)) => Ok((st1, Declarations { nets: found.nets.push(def), ..found })),
            Err(f) => Err(f),
        }
    } else {
        Err(expected("type, agent, or rule declaration"@, j))
    }
}

/// The declarations from the place of `st` to the end of the text, after those
/// that have been found.
pub open spec fn s_items(chars: Seq<char>, st: ParseState, found: Declarations) -> Result<(ParseState, Declarations), ParseFailure>
    decreases chars.len() - st.index,
{
    if st.index >= chars.len() {
        Ok((st, found))
    } else {
        match s_item(chars, st, found) {
            Ok((st1, more)) => {
                let i2 = trivia_end(chars, st1.index);
                if st.index < i2 <= chars.len() {
                    s_items(chars, at(st1, i2), more)
                } else {
                    Err(expected(Seq::empty(), st.index))
                }
            },
            Err(f) => Err(f),
        }
    }
}

/// What a source file declares, if its text can be read: declarations, with
/// white space and comments between them, to the end of the text.
pub open spec fn s_file(chars: Seq<char>) -> Result<ProgramModel, ParseFailure> {
    let first = trivia_end(chars, 0);
    match s_items(chars, at(start_state(), first), no_declarations()) {
        Ok((st, declarations)) => Ok(
            ProgramModel {
                type_names: st.types.names,
                component_names: st.components.names,
                declarations,
            },
        ),
        Err(f) => Err(f),
    }
}

/// A node as a value of the model.
pub open spec fn node_model(node: Node) -> NodeModel {
    NodeModel { component: node.component, ports: node.ports@ }
}

/// Nodes as values of the model.
pub open spec fn node_models(nodes: Seq<Node>) -> Seq<NodeModel> {
    Seq::new(nodes.len(), |i: int| node_model(nodes[i]))
}

/// The declaration of an agent as a value of the model.
pub open spec fn agent_model(def: AgentDef) -> AgentModel {
    AgentModel {
        id: def.id,
        lifetimes: def.lt_ctx.lifetimes@,
        ex_order: def.lt_ctx.ex_order@,
        in_order: def.lt_ctx.in_order@,
        ports: def.ports@,
    }
}

/// The declaration of a rule as a value of the model.
pub open spec fn rule_model(def: RuleDef) -> RuleModel {
    RuleModel {
        vars: def.var_ctx.vars.names(),
        a: node_model(def.a),
        b: node_model(def.b),
        result: node_models(def.result@),
    }
}

/// The declaration of a net as a value of the model.
pub open spec fn net_model(def: NetDef) -> NetModel {
    NetModel {
        id: def.id,
        vars: def.var_ctx.vars.names(),
        lifetimes: def.lt_ctx.lifetimes@,
        ex_order: def.lt_ctx.ex_order@,
        in_order: def.lt_ctx.in_order@,
        free_ports: def.free_ports@,
        nodes: node_models(def.nodes@),
    }
}

/// The declarations of a program as values of the model.
pub open spec fn declarations_of(program: Program) -> Declarations {
    Declarations {
        types: program.types@,
        agents: Seq::new(program.agents@.len(), |i: int| agent_model(program.agents@[i])),
        rules: Seq::new(program.rules@.len(), |i: int| rule_model(program.rules@[i])),
        nets: Seq::new(program.nets@.len(), |i: int| net_model(program.nets@[i])),
    }
}

/// A program as a value of the model.
pub open spec fn program_model(program: Program) -> ProgramModel {
    ProgramModel {
        type_names: program.globals.types.names(),
        component_names: program.globals.components.names(),
        declarations: declarations_of(program),
    }
}

/// No declarations.
pub open spec fn no_declarations() -> Declarations {
    Declarations {
        types: Seq::empty(),
        agents: Seq::empty(),
        rules: Seq::empty(),
        nets: Seq::empty(),
    }
}

} // verus!
