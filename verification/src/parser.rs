use vstd::prelude::*;
use crate::index_vec::Idx;
use vstd::string::StrSliceExecFns;
use vstd::string::StringExecFns;
use crate::globals::Component;
use crate::grammar::at;
use crate::grammar::line_end;
use crate::grammar::name_char;
use crate::grammar::name_end;
use crate::grammar::s_consume;
use crate::grammar::s_head;
use crate::grammar::s_lt;
use crate::grammar::s_close;
use crate::grammar::s_lt_ctx;
use crate::grammar::s_lt_decl;
use crate::grammar::s_lt_rest;
use crate::grammar::node_model;
use crate::grammar::node_models;
use crate::grammar::s_free_ports;
use crate::grammar::s_labels;
use crate::grammar::agent_model;
use crate::grammar::declarations_of;
use crate::grammar::net_model;
use crate::grammar::no_declarations;
use crate::grammar::program_model;
use crate::grammar::rule_model;
use crate::grammar::s_agent_def;
use crate::grammar::s_file;
use crate::grammar::s_item;
use crate::grammar::s_items;
use crate::grammar::s_more;
use crate::grammar::s_net_def;
use crate::grammar::s_rule_def;
use crate::grammar::s_type_def;
use crate::grammar::start_state;
use crate::grammar::s_net;
use crate::grammar::s_node;
use crate::grammar::s_nodes;
use crate::grammar::s_vars;
use crate::grammar::s_name;
use crate::grammar::s_port_label;
use crate::grammar::s_type;
use crate::grammar::s_var;
use crate::scope::lookup_find;
use crate::grammar::s_try;
use crate::grammar::space_char;
use crate::grammar::starts;
use crate::grammar::trivia_end;
use crate::grammar::LifetimeTable;
use crate::grammar::NameTable;
use crate::grammar::ParseFailure;
use crate::grammar::ParseState;
use crate::globals::ComponentInfo;
use crate::globals::Polarity;
use crate::globals::PortLabel;
use crate::globals::Type;
use crate::globals::TypeInfo;
use crate::lifetimes::Lifetime;
use crate::lifetimes::LifetimeCtx;
use crate::lifetimes::LifetimeInfo;
use crate::lifetimes::Side;
use crate::order::relation::Relation;
use crate::program::label_ok;
use crate::program::labels_ok;
use crate::program::lemma_items_wf_grows;
use crate::program::node_ok;
use crate::program::AgentDef;
use crate::program::NetDef;
use crate::program::Node;
use crate::program::Program;
use crate::program::RuleDef;
use crate::program::TypeDef;
use crate::scope::DefinitionState;
use crate::scope::ScopeBuilder;
use crate::scope::ScopeEntry;
use crate::globals::dual_of;
use crate::vars::uses_ok;
use crate::vars::Var;
use crate::vars::VarCtx;
use crate::vars::VarInfo;

verus! {

/// The text that shows a span of a source file with its lines, as
/// `highlight_error` lays it out.
pub uninterp spec fn highlighted(start: usize, end: usize, file: Seq<char>) -> Seq<char>;

/// `highlight_error::highlight_error`: the lines of `file` that hold the bytes
/// from `start` to `end`, with that span marked. The span must not end before
/// it starts.
#[verifier::external_body]
fn highlight(start: usize, end: usize, file: &str) -> (r: String)
    requires
        start <= end,
    ensures
        r@ == highlighted(start, end, file@),
{
    highlight_error::highlight_error(start, end, file)
}

/// The number of bytes that a character takes in UTF-8.
pub open spec fn utf8_len(c: char) -> nat {
    if (c as u32) < 0x80 {
        1
    } else if (c as u32) < 0x800 {
        2
    } else if (c as u32) < 0x10000 {
        3
    } else {
        4
    }
}

/// The number of bytes that the first `upto` characters take in UTF-8, as far
/// as it can be counted.
pub open spec fn byte_offset(chars: Seq<char>, upto: int) -> nat
    decreases upto,
{
    if upto <= 0 {
        0
    } else {
        let before = byte_offset(chars, upto - 1);
        if before + 4 > usize::MAX {
            before
        } else {
            before + utf8_len(chars[upto - 1])
        }
    }
}

/// The message of a parse error at the place `index` of a text, where
/// `expected` was looked for: the word for what was expected, and the line of
/// the text with the byte at that place marked.
pub open spec fn parse_error_text(expected: Seq<char>, input: Seq<char>, index: int) -> Seq<char> {
    let start = byte_offset(input, index) as usize;
    let end = if start < usize::MAX {
        (start + 1) as usize
    } else {
        start
    };
    "\x1b[1mPARSE_ERROR\n- expected: \x1b[0m"@ + expected + "\x1b[1m\n- detected:\n\x1b[0m"@
        + highlighted(start, end, input)
}

/// The message for a lifetime that is declared on both sides: the name of the
/// lifetime, and the lines of the text with the declaration marked, where its
/// place can be counted.
pub open spec fn inconsistent_text(name: Seq<char>, input: Seq<char>, start: int, end: int) -> Seq<
    char,
> {
    let from = byte_offset(input, start) as usize;
    let to = byte_offset(input, end) as usize;
    "inconsistent external/internal modifiers on lifetime "@ + crate::text::quoted_text(name)
        + ":\n"@ + (if from <= to {
        highlighted(from, to, input)
    } else {
        Seq::empty()
    })
}

/// The message of the parser for a failure.
pub open spec fn failure_text(f: ParseFailure, input: Seq<char>) -> Seq<char> {
    match f {
        ParseFailure::Expected { word, index } => parse_error_text(word, input, index),
        ParseFailure::Inconsistent { name, start, end } => inconsistent_text(
            name,
            input,
            start,
            end,
        ),
    }
}

/// Whether a character may stand in a name.
pub fn is_name_char(c: char) -> (b: bool)
    ensures
        b == name_char(c),
{
    ('a' <= c && c <= 'z') || ('A' <= c && c <= 'Z') || ('0' <= c && c <= '9') || c == '_' || c
        == '.' || c == '-' || c == '/' || c == '$'
}

fn is_space(c: char) -> (b: bool)
    ensures
        b == space_char(c),
{
    c == ' ' || c == '\t' || c == '\n' || c == '\x0C' || c == '\r'
}

fn len_utf8(c: char) -> (n: usize)
    ensures
        n == utf8_len(c),
{
    let v = c as u32;
    if v < 0x80 {
        1
    } else if v < 0x800 {
        2
    } else if v < 0x10000 {
        3
    } else {
        4
    }
}

/// A comment starts where the text goes on with two slashes.
proof fn lemma_comment_starts(chars: Seq<char>, i: int)
    requires
        0 <= i < chars.len(),
    ensures
        starts(chars, i, "//"@) == (chars[i] == '/' && i + 1 < chars.len() && chars[i + 1] == '/'),
{
    reveal_strlit("//");
    if starts(chars, i, "//"@) {
        assert(chars.subrange(i, i + 2)[0] == chars[i]);
        assert(chars.subrange(i, i + 2)[1] == chars[i + 1]);
    } else if chars[i] == '/' && i + 1 < chars.len() && chars[i + 1] == '/' {
        assert(chars.subrange(i, i + 2) =~= "//"@);
    }
}

fn chars_of(s: &str) -> (r: Vec<char>)
    ensures
        r@ == s@,
{
    let mut r: Vec<char> = Vec::new();
    for c in it: s.chars()
        invariant
            r@ == it.seq().take(it.index() as int),
            it.seq() == s@,
    {
        r.push(c);
    }
    r
}

/// A parser over one source file: the place that it has read up to, and the
/// scopes of the names that it has met.
pub struct Parser<'i> {
    input: &'i str,
    chars: Vec<char>,
    index: usize,
    types: ScopeBuilder<Type, TypeInfo>,
    components: ScopeBuilder<Component, ComponentInfo>,
    lifetimes: ScopeBuilder<Lifetime, LifetimeInfo>,
    vars: ScopeBuilder<Var, VarInfo>,
}

/// Whether a lifetime has a name of more than the quote, and no bounds.
pub open spec fn fresh_lifetime(entry: ScopeEntry<LifetimeInfo>) -> bool {
    &&& entry.name.len() >= 1
    &&& entry.state matches DefinitionState::Defined(info) ==> info.min is None && info.max is None
}

impl<'i> Parser<'i> {
    spec fn inv(&self) -> bool {
        &&& self.chars@ == self.input@
        &&& self.index <= self.chars@.len()
        &&& self.types.wf()
        &&& self.types.scope@.len() % 2 == 0
        &&& forall|t: int|
            0 <= t < self.types.scope@.len() ==> (#[trigger] self.types.scope@[t]).state is Undefined
        &&& self.components.wf()
        &&& forall|c: int|
            0 <= c < self.components.scope@.len() ==> (
            #[trigger] self.components.scope@[c]).state is Undefined
        &&& self.lifetimes.wf()
        &&& forall|l: int|
            0 <= l < self.lifetimes.scope@.len() ==> fresh_lifetime(
                #[trigger] self.lifetimes.scope@[l],
            )
        &&& self.vars.wf()
        &&& forall|v: int|
            0 <= v < self.vars.scope@.len() ==> ((
            #[trigger] self.vars.scope@[v]).state matches DefinitionState::Defined(info)
                ==> info.uses@.len() == 0)
    }

    spec fn rest(&self) -> bool {
        self.lifetimes.is_empty() && self.lifetimes.scope@.len() == 0 && self.vars.is_empty()
            && self.vars.scope@.len() == 0
    }

    spec fn moved(&self, before: &Parser<'i>) -> bool {
        &&& self.input == before.input
        &&& self.chars == before.chars
        &&& self.index >= before.index
        &&& self.types == before.types
        &&& self.components == before.components
        &&& self.lifetimes == before.lifetimes
        &&& self.vars == before.vars
    }

    spec fn grown(&self, before: &Parser<'i>) -> bool {
        &&& self.input == before.input
        &&& self.chars == before.chars
        &&& self.index >= before.index
        &&& self.types.scope@.len() >= before.types.scope@.len()
        &&& self.components.scope@.len() >= before.components.scope@.len()
    }

    spec fn state(&self) -> ParseState {
        ParseState {
            index: self.index as int,
            types: NameTable {
                names: self.types.scope.names(),
                lookup: self.types.lookup_model(),
            },
            components: NameTable {
                names: self.components.scope.names(),
                lookup: self.components.lookup_model(),
            },
            lifetimes: LifetimeTable {
                entries: self.lifetimes.scope@,
                lookup: self.lifetimes.lookup_model(),
            },
            vars: NameTable { names: self.vars.scope.names(), lookup: self.vars.lookup_model() },
        }
    }

    spec fn types_len(&self) -> nat {
        self.types.scope@.len()
    }

    spec fn components_len(&self) -> nat {
        self.components.scope@.len()
    }

    spec fn lifetimes_len(&self) -> nat {
        self.lifetimes.scope@.len()
    }

    spec fn vars_len(&self) -> nat {
        self.vars.scope@.len()
    }

    fn new(input: &'i str) -> (r: Self)
        ensures
            r.inv(),
            r.rest(),
            r.index == 0,
            r.types_len() == 0,
            r.components_len() == 0,
            r.chars@ == input@,
            r.state() == start_state(),
    {
        let r = Parser {
            input,
            chars: chars_of(input),
            index: 0,
            types: ScopeBuilder::default(),
            components: ScopeBuilder::default(),
            lifetimes: ScopeBuilder::default(),
            vars: ScopeBuilder::default(),
        };
        proof {
            assert(r.types.scope.names() =~= Seq::empty());
            assert(r.components.scope.names() =~= Seq::empty());
            assert(r.vars.scope.names() =~= Seq::empty());
            assert(r.lifetimes.scope@ =~= Seq::empty());
            assert(r.types.lookup_model() =~= Seq::empty());
            assert(r.components.lookup_model() =~= Seq::empty());
            assert(r.vars.lookup_model() =~= Seq::empty());
            assert(r.lifetimes.lookup_model() =~= Seq::empty());
        }
        r
    }

    fn peek_one(&self) -> (r: Option<char>)
        requires
            self.inv(),
        ensures
            r == (if self.index < self.chars@.len() {
                Some(self.chars@[self.index as int])
            } else {
                None
            }),
    {
        if self.index < self.chars.len() {
            Some(self.chars[self.index])
        } else {
            None
        }
    }

    fn advance_one(&mut self)
        requires
            old(self).inv(),
        ensures
            final(self).inv(),
            final(self).moved(old(self)),
            final(self).index == (if old(self).index < old(self).chars@.len() {
                old(self).index + 1
            } else {
                old(self).index as int
            }),
    {
        if self.index < self.chars.len() {
            self.index += 1;
        }
    }

    fn is_eof(&self) -> (r: bool)
        requires
            self.inv(),
        ensures
            r == (self.index >= self.chars@.len()),
    {
        self.index >= self.chars.len()
    }

    fn starts_with(&self, text: &str) -> (r: bool)
        requires
            self.inv(),
        ensures
            r == starts(self.chars@, self.index as int, text@),
    {
        let n = text.unicode_len();
        let total = self.chars.len();
        if n > total - self.index {
            return false;
        }
        let mut k: usize = 0;
        while k < n
            invariant
                self.inv(),
                n == text@.len(),
                total == self.chars@.len(),
                self.index + n <= self.chars@.len(),
                k <= n,
                forall|j: int| 0 <= j < k ==> self.chars@[self.index + j] == text@[j],
            decreases n - k,
        {
            if self.chars[self.index + k] != text.get_char(k) {
                assert(self.chars@.subrange(self.index as int, self.index + n)[k as int] != text@[k as int]);
                return false;
            }
            k += 1;
        }
        assert(self.chars@.subrange(self.index as int, self.index + n) =~= text@);
        true
    }

    fn byte_index(&self, upto: usize) -> (r: usize)
        requires
            self.inv(),
            upto <= self.chars@.len(),
        ensures
            r == byte_offset(self.chars@, upto as int),
    {
        let mut total: usize = 0;
        let mut k: usize = 0;
        while k < upto
            invariant
                k <= upto,
                upto <= self.chars@.len(),
                total == byte_offset(self.chars@, k as int),
            decreases upto - k,
        {
            if total <= usize::MAX - 4 {
                total += len_utf8(self.chars[k]);
            }
            k += 1;
        }
        total
    }

    /// The message of a parse error at the current place.
    fn expected(&self, exp: &str) -> (msg: String)
        requires
            self.inv(),
        ensures
            msg@ == parse_error_text(exp@, self.input@, self.index as int),
    {
        let start = self.byte_index(self.index);
        let end = if start < usize::MAX {
            start + 1
        } else {
            start
        };
        let mut msg = String::from_str("\x1b[1mPARSE_ERROR\n- expected: \x1b[0m");
        msg.append(exp);
        msg.append("\x1b[1m\n- detected:\n\x1b[0m");
        msg.append(highlight(start, end, self.input).as_str());
        msg
    }

    /// Skips white space and comments, which run from `//` to the end of the
    /// line.
    fn skip_trivia(&mut self)
        requires
            old(self).inv(),
        ensures
            final(self).inv(),
            final(self).moved(old(self)),
            final(self).index == trivia_end(old(self).chars@, old(self).index as int),
    {
        loop
            invariant
                self.inv(),
                self.moved(old(self)),
                trivia_end(self.chars@, self.index as int) == trivia_end(
                    old(self).chars@,
                    old(self).index as int,
                ),
            decreases self.chars@.len() - self.index,
        {
            let ghost at = self.index;
            match self.peek_one() {
                Some(c) => {
                    let comment = c == '/' && self.starts_with("//");
                    proof {
                        lemma_comment_starts(self.chars@, self.index as int);
                    }
                    if is_space(c) {
                        self.advance_one();
                    } else if comment {
                        while self.index < self.chars.len() && self.chars[self.index] != '\n'
                            invariant
                                self.inv(),
                                self.moved(old(self)),
                                self.index >= at,
                                line_end(self.chars@, self.index as int) == line_end(
                                    self.chars@,
                                    at as int,
                                ),
                            decreases self.chars@.len() - self.index,
                        {
                            self.index += 1;
                        }
                        if self.index < self.chars.len() {
                            self.index += 1;
                        } else {
                            return ;
                        }
                    } else {
                        return ;
                    }
                },
                None => {
                    return ;
                },
            }
        }
    }

    fn consume(&mut self, text: &str) -> (r: Result<(), String>)
        requires
            old(self).inv(),
        ensures
            final(self).inv(),
            final(self).moved(old(self)),
            r is Ok ==> final(self).index >= old(self).index + text@.len(),
            match s_consume(old(self).chars@, old(self).index as int, text@) {
                Ok(i) => r is Ok && final(self).index == i,
                Err(f) => r is Err && r->Err_0@ == failure_text(f, old(self).input@),
            },
    {
        self.skip_trivia();
        assert(self.chars.len() <= usize::MAX);
        if self.starts_with(text) {
            self.index += text.unicode_len();
            Ok(())
        } else {
            Err(self.expected(text))
        }
    }

    fn try_consume(&mut self, text: &str) -> (r: bool)
        requires
            old(self).inv(),
        ensures
            final(self).inv(),
            final(self).moved(old(self)),
            r ==> final(self).index >= old(self).index + text@.len(),
            (r, final(self).index as int) == s_try(
                old(self).chars@,
                old(self).index as int,
                text@,
            ),
    {
        self.skip_trivia();
        assert(self.chars.len() <= usize::MAX);
        if self.starts_with(text) {
            self.index += text.unicode_len();
            true
        } else {
            false
        }
    }

    fn take_name(&mut self) -> (name: &'i str)
        requires
            old(self).inv(),
        ensures
            final(self).inv(),
            final(self).moved(old(self)),
            name@ == old(self).chars@.subrange(old(self).index as int, final(self).index as int),
            final(self).index == name_end(old(self).chars@, old(self).index as int),
    {
        let start = self.index;
        while self.index < self.chars.len() && is_name_char(self.chars[self.index])
            invariant
                self.inv(),
                self.moved(old(self)),
                start == old(self).index,
                name_end(self.chars@, self.index as int) == name_end(
                    old(self).chars@,
                    old(self).index as int,
                ),
            decreases self.chars@.len() - self.index,
        {
            self.index += 1;
        }
        self.input.substring_char(start, self.index)
    }

    fn parse_name(&mut self) -> (r: Result<&'i str, String>)
        requires
            old(self).inv(),
        ensures
            final(self).inv(),
            final(self).moved(old(self)),
            r matches Ok(name) ==> name@.len() >= 1 && final(self).index > old(self).index,
            match s_name(old(self).chars@, old(self).index as int) {
                Ok((i, name)) => r is Ok && r->Ok_0@ == name && final(self).index == i,
                Err(f) => r is Err && r->Err_0@ == failure_text(f, old(self).input@),
            },
    {
        self.skip_trivia();
        let name = self.take_name();
        if name.unicode_len() == 0 {
            Err(self.expected("name"))
        } else {
            Ok(name)
        }
    }

    fn parse_type(&mut self) -> (r: Result<Type, String>)
        requires
            old(self).inv(),
        ensures
            final(self).inv(),
            final(self).grown(old(self)),
            final(self).components == old(self).components,
            final(self).lifetimes == old(self).lifetimes,
            final(self).vars == old(self).vars,
            r matches Ok(ty) ==> ty.0 < final(self).types_len() && final(self).index > old(self).index,
            match s_type(old(self).chars@, old(self).state()) {
                Ok((st, ty)) => r == Ok::<Type, String>(ty) && final(self).state() == st,
                Err(f) => r is Err && r->Err_0@ == failure_text(f, old(self).input@),
            },
    {
        let inverted = self.try_consume("!");
        let name = match self.parse_name() {
            Ok(name) => name,
            Err(e) => {
                return Err(e);
            },
        };
        let ty = match self.types.find(name) {
            Some(ty) => ty,
            None => {
                let mut dual_name = String::from_str("!");
                dual_name.append(name);
                self.types.scope.push(dual_name, None);
                let ty = self.types.scope.push(String::from_str(name), None);
                self.types.remember(name, ty);
                proof {
                    self.types.scope.lemma_count_fits();
                    assert(self.types.scope.names() =~= old(self).types.scope.names().push(
                        "!"@ + name@,
                    ).push(name@));
                }
                ty
            },
        };
        Ok(
            if inverted {
                dual_of(ty)
            } else {
                ty
            },
        )
    }

    fn parse_lt(&mut self) -> (r: Result<Lifetime, String>)
        requires
            old(self).inv(),
        ensures
            final(self).inv(),
            final(self).grown(old(self)),
            final(self).types == old(self).types,
            final(self).components == old(self).components,
            final(self).vars == old(self).vars,
            final(self).lifetimes_len() >= old(self).lifetimes_len(),
            r matches Ok(lt) ==> lt.0 < final(self).lifetimes_len() && final(self).index > old(self).index,
            match s_lt(old(self).chars@, old(self).state()) {
                Ok((st, lt)) => r == Ok::<Lifetime, String>(lt) && final(self).state() == st,
                Err(f) => r is Err && r->Err_0@ == failure_text(f, old(self).input@),
            },
    {
        self.skip_trivia();
        let start = self.index;
        match self.consume("'") {
            Ok(()) => {},
            Err(e) => {
                return Err(e);
            },
        }
        proof {
            reveal_strlit("'");
        }
        let rest = self.take_name();
        if rest.unicode_len() == 0 {
            Err(self.expected("lifetime name"))
        } else {
            let name = self.input.substring_char(start, self.index);
            proof {
                self.lifetimes.scope.lemma_count_fits();
            }
            Ok(self.lifetimes.get(name))
        }
    }

    fn parse_lt_decl(&mut self, side: Side) -> (r: Result<Lifetime, String>)
        requires
            old(self).inv(),
        ensures
            final(self).inv(),
            final(self).grown(old(self)),
            final(self).types == old(self).types,
            final(self).components == old(self).components,
            final(self).vars == old(self).vars,
            final(self).lifetimes_len() >= old(self).lifetimes_len(),
            r matches Ok(lt) ==> lt.0 < final(self).lifetimes_len() && final(self).index > old(self).index,
            match s_lt_decl(old(self).chars@, old(self).state(), side) {
                Ok((st, lt)) => r == Ok::<Lifetime, String>(lt) && final(self).state() == st,
                Err(f) => r is Err && r->Err_0@ == failure_text(f, old(self).input@),
            },
    {
        let start = self.index;
        let lt = match self.parse_lt() {
            Ok(lt) => lt,
            Err(e) => {
                return Err(e);
            },
        };
        let side = side.flip(self.try_consume("?"));
        let end = self.index;
        let ghost before = self.lifetimes.scope@;
        let info = self.lifetimes.scope.or_define(lt, LifetimeInfo { side, min: None, max: None });
        let consistent = info.side == side;
        proof {
            if before[lt.0 as int].state is Defined {
                assert(self.lifetimes.scope@ =~= before);
            }
            assert forall|l: int| 0 <= l < self.lifetimes.scope@.len() implies fresh_lifetime(
                #[trigger] self.lifetimes.scope@[l],
            ) by {
                assert(fresh_lifetime(before[l]));
            }
        }
        if !consistent {
            let from = self.byte_index(start);
            let to = self.byte_index(end);
            let mut msg = String::from_str("inconsistent external/internal modifiers on lifetime ");
            msg.append(crate::text::quoted(self.lifetimes.scope.name(lt)).as_str());
            msg.append(":\n");
            if from <= to {
                msg.append(highlight(from, to, self.input).as_str());
            }
            proof {
                let name = self.lifetimes.scope@[lt.0 as int].name;
                assert(msg@ =~= inconsistent_text(name, self.input@, start as int, end as int));
            }
            Err(msg)
        } else {
            Ok(lt)
        }
    }

    /// Reads the closing bracket of a lifetime context.
    fn close_ctx(&mut self, lt_ctx: LifetimeCtx) -> (r: Result<LifetimeCtx, String>)
        requires
            old(self).inv(),
        ensures
            final(self).inv(),
            final(self).moved(old(self)),
            match s_close(
                old(self).chars@,
                old(self).state(),
                lt_ctx.ex_order@,
                lt_ctx.in_order@,
            ) {
                Ok((st, ex, inner)) => r == Ok::<LifetimeCtx, String>(lt_ctx) && final(self).state() == st,
                Err(f) => r is Err && r->Err_0@ == failure_text(f, old(self).input@),
            },
    {
        match self.consume("]") {
            Ok(()) => Ok(lt_ctx),
            Err(e) => Err(e),
        }
    }

    fn parse_lt_ctx(&mut self) -> (r: Result<LifetimeCtx, String>)
        requires
            old(self).inv(),
            old(self).lifetimes.is_empty(),
        ensures
            final(self).inv(),
            final(self).grown(old(self)),
            final(self).types == old(self).types,
            final(self).components == old(self).components,
            final(self).vars == old(self).vars,
            final(self).lifetimes_len() >= old(self).lifetimes_len(),
            r matches Ok(lt_ctx) ==> {
                &&& lt_ctx.ex_order.wf()
                &&& lt_ctx.in_order.wf()
                &&& lt_ctx.ex_order@.len() <= final(self).lifetimes_len()
                &&& lt_ctx.in_order@.len() <= final(self).lifetimes_len()
                &&& lt_ctx.lifetimes@.len() == 0
            },
            match s_lt_ctx(old(self).chars@, old(self).state()) {
                Ok((st, ex, inner)) => r is Ok && r->Ok_0.ex_order@ == ex && r->Ok_0.in_order@
                    == inner && final(self).state() == st,
                Err(f) => r is Err && r->Err_0@ == failure_text(f, old(self).input@),
            },
    {
        self.lifetimes.ensure_empty();
        let mut lt_ctx = LifetimeCtx::default();
        assert(lt_ctx.ex_order@ =~= Seq::empty());
        assert(lt_ctx.in_order@ =~= Seq::empty());
        if !self.try_consume("[") {
            return Ok(lt_ctx);
        }
        if self.try_consume("]") {
            return self.close_ctx(lt_ctx);
        }
        let mut side = Side::External.flip(self.try_consume("|"));
        let mut prev = match self.parse_lt_decl(side) {
            Ok(lt) => lt,
            Err(e) => {
                return Err(e);
            },
        };
        loop
            invariant
                self.inv(),
                self.grown(old(self)),
                self.types == old(self).types,
                self.components == old(self).components,
                self.vars == old(self).vars,
                self.lifetimes_len() >= old(self).lifetimes_len(),
                prev.0 < self.lifetimes_len(),
                lt_ctx.ex_order.wf(),
                lt_ctx.in_order.wf(),
                lt_ctx.ex_order@.len() <= self.lifetimes_len(),
                lt_ctx.in_order@.len() <= self.lifetimes_len(),
                lt_ctx.lifetimes@.len() == 0,
                s_lt_ctx(self.chars@, old(self).state()) == s_lt_rest(
                    self.chars@,
                    self.state(),
                    side,
                    prev,
                    lt_ctx.ex_order@,
                    lt_ctx.in_order@,
                ),
            decreases self.chars@.len() - self.index,
        {
            let ghost st = self.state();
            let ghost side0 = side;
            let ghost ex0 = lt_ctx.ex_order@;
            let ghost inner0 = lt_ctx.in_order@;
            self.skip_trivia();
            let ghost j = self.index as int;
            let mut rel: Option<Relation> = None;
            match self.peek_one() {
                Some(',') => {},
                Some('<') => {
                    rel = Some(Relation::LE);
                },
                Some('>') => {
                    rel = Some(Relation::GE);
                },
                Some('|') => {
                    if side == Side::External {
                        side = Side::Internal;
                        if self.try_consume("]") {
                            proof {
                                reveal_strlit("]");
                                assert(self.chars@.subrange(j, j + 1)[0] == self.chars@[j]);
                            }
                            return self.close_ctx(lt_ctx);
                        }
                    } else {
                        return Err(self.expected("comma or comparison operator"));
                    }
                },
                Some(']') => {
                    return self.close_ctx(lt_ctx);
                },
                _ => {
                    return Err(self.expected("comma, comparison operator, or separator"));
                },
            }
            if self.is_eof() {
                return Err(self.expected("comma, comparison operator, or separator"));
            }
            self.advance_one();
            let rel = match rel {
                Some(rel) => {
                    if !self.try_consume("=") {
                        Some(rel.not_equal())
                    } else {
                        Some(rel)
                    }
                },
                None => None,
            };
            let next = match self.parse_lt_decl(side) {
                Ok(lt) => lt,
                Err(e) => {
                    return Err(e);
                },
            };
            proof {
                self.lifetimes.scope.lemma_count_fits();
            }
            if let Some(rel) = rel {
                match side {
                    Side::External => {
                        proof {
                            crate::order::lemma_related_tightens_len(
                                lt_ctx.ex_order@,
                                prev.0,
                                next.0,
                                rel,
                            );
                        }
                        lt_ctx.ex_order.relate(prev, next, rel);
                    },
                    Side::Internal => {
                        proof {
                            crate::order::lemma_related_tightens_len(
                                lt_ctx.in_order@,
                                prev.0,
                                next.0,
                                rel,
                            );
                        }
                        lt_ctx.in_order.relate(prev, next, rel);
                    },
                }
            }
            assert(s_lt_rest(self.chars@, st, side0, prev, ex0, inner0) == s_lt_rest(
                self.chars@,
                self.state(),
                side,
                next,
                lt_ctx.ex_order@,
                lt_ctx.in_order@,
            ));
            prev = next;
        }
    }

    fn parse_port_label(&mut self) -> (r: Result<PortLabel, String>)
        requires
            old(self).inv(),
        ensures
            final(self).inv(),
            final(self).grown(old(self)),
            final(self).components == old(self).components,
            final(self).vars == old(self).vars,
            final(self).lifetimes_len() >= old(self).lifetimes_len(),
            r matches Ok(label) ==> label_ok(
                label,
                final(self).types_len(),
                final(self).lifetimes_len(),
            ) && final(self).index > old(self).index,
            match s_port_label(old(self).chars@, old(self).state()) {
                Ok((st, label)) => r == Ok::<PortLabel, String>(label) && final(self).state()
                    == st,
                Err(f) => r is Err && r->Err_0@ == failure_text(f, old(self).input@),
            },
    {
        let ty = match self.parse_type() {
            Ok(ty) => ty,
            Err(e) => {
                return Err(e);
            },
        };
        let lt = match self.parse_lt() {
            Ok(lt) => lt,
            Err(e) => {
                return Err(e);
            },
        };
        Ok(PortLabel(ty, lt))
    }

    fn parse_var(&mut self) -> (r: Result<Var, String>)
        requires
            old(self).inv(),
        ensures
            final(self).inv(),
            final(self).grown(old(self)),
            final(self).types == old(self).types,
            final(self).components == old(self).components,
            final(self).lifetimes == old(self).lifetimes,
            final(self).vars_len() >= old(self).vars_len(),
            r matches Ok(var) ==> var.0 < final(self).vars_len() && final(self).index > old(self).index,
            match s_var(old(self).chars@, old(self).state()) {
                Ok((st, var)) => r == Ok::<Var, String>(var) && final(self).state() == st,
                Err(f) => r is Err && r->Err_0@ == failure_text(f, old(self).input@),
            },
    {
        let name = match self.parse_name() {
            Ok(name) => name,
            Err(e) => {
                return Err(e);
            },
        };
        match self.vars.find(name) {
            Some(var) => Ok(var),
            None => {
                let var = self.vars.scope.push(String::from_str(name), Some(VarInfo::default()));
                self.vars.remember(name, var);
                proof {
                    self.vars.scope.lemma_count_fits();
                    assert(self.vars.scope.names() =~= old(self).vars.scope.names().push(name@));
                }
                Ok(var)
            },
        }
    }

    /// Reads the name of a component and the opening bracket of its ports.
    fn parse_head(&mut self) -> (r: Result<Component, String>)
        requires
            old(self).inv(),
        ensures
            final(self).inv(),
            final(self).grown(old(self)),
            final(self).types == old(self).types,
            final(self).lifetimes == old(self).lifetimes,
            final(self).vars == old(self).vars,
            r matches Ok(component) ==> component.0 < final(self).components_len() && final(self).index > old(self).index,
            match s_head(old(self).chars@, old(self).state()) {
                Ok((st, component)) => r == Ok::<Component, String>(component) && final(self).state() == st,
                Err(f) => r is Err && r->Err_0@ == failure_text(f, old(self).input@),
            },
    {
        let name = match self.parse_name() {
            Ok(name) => name,
            Err(e) => {
                return Err(e);
            },
        };
        let component = self.components.get(name);
        proof {
            self.components.scope.lemma_count_fits();
            if lookup_find(old(self).components.lookup_model(), name@) is None {
                assert(self.components.scope.names() =~= old(self).components.scope.names().push(
                    name@,
                ));
            }
        }
        match self.consume("(") {
            Ok(()) => Ok(component),
            Err(e) => Err(e),
        }
    }

    /// Reads what follows an element of a list of ports: whether the list goes
    /// on.
    fn parse_more(&mut self) -> (r: Result<bool, String>)
        requires
            old(self).inv(),
        ensures
            final(self).inv(),
            final(self).moved(old(self)),
            match s_more(old(self).chars@, old(self).index as int) {
                Ok((more, i)) => r == Ok::<bool, String>(more) && final(self).index == i,
                Err(f) => r is Err && r->Err_0@ == failure_text(f, old(self).input@),
            },
    {
        if self.try_consume(",") {
            Ok(true)
        } else {
            match self.consume(")") {
                Ok(()) => Ok(false),
                Err(e) => Err(e),
            }
        }
    }

    /// Reads the variables at the ports of a node, up to the closing bracket.
    fn parse_vars(&mut self) -> (r: Result<Vec<Var>, String>)
        requires
            old(self).inv(),
        ensures
            final(self).inv(),
            final(self).grown(old(self)),
            final(self).types == old(self).types,
            final(self).components == old(self).components,
            final(self).lifetimes == old(self).lifetimes,
            final(self).vars_len() >= old(self).vars_len(),
            r matches Ok(ports) ==> forall|p: int|
                0 <= p < ports@.len() ==> (#[trigger] ports@[p]).0 < final(self).vars_len(),
            match s_vars(old(self).chars@, old(self).state(), Seq::empty()) {
                Ok((st, ports)) => r is Ok && r->Ok_0@ == ports && final(self).state() == st,
                Err(f) => r is Err && r->Err_0@ == failure_text(f, old(self).input@),
            },
    {
        let mut ports: Vec<Var> = Vec::new();
        loop
            invariant
                self.inv(),
                self.grown(old(self)),
                self.types == old(self).types,
                self.components == old(self).components,
                self.lifetimes == old(self).lifetimes,
                self.vars_len() >= old(self).vars_len(),
                forall|p: int| 0 <= p < ports@.len() ==> (#[trigger] ports@[p]).0 < self.vars_len(),
                s_vars(old(self).chars@, old(self).state(), Seq::empty()) == s_vars(
                    self.chars@,
                    self.state(),
                    ports@,
                ),
            decreases self.chars@.len() - self.index,
        {
            if self.try_consume(")") {
                return Ok(ports);
            }
            let var = match self.parse_var() {
                Ok(var) => var,
                Err(e) => {
                    return Err(e);
                },
            };
            ports.push(var);
            match self.parse_more() {
                Ok(true) => {},
                Ok(false) => {
                    return Ok(ports);
                },
                Err(e) => {
                    return Err(e);
                },
            }
        }
    }

    fn parse_node(&mut self) -> (r: Result<Node, String>)
        requires
            old(self).inv(),
        ensures
            final(self).inv(),
            final(self).grown(old(self)),
            final(self).types == old(self).types,
            final(self).lifetimes == old(self).lifetimes,
            final(self).vars_len() >= old(self).vars_len(),
            r matches Ok(node) ==> node_ok(
                node,
                final(self).components_len(),
                final(self).vars_len(),
            ) && final(self).index > old(self).index,
            match s_node(old(self).chars@, old(self).state()) {
                Ok((st, node)) => r is Ok && node_model(r->Ok_0) == node && final(self).state()
                    == st,
                Err(f) => r is Err && r->Err_0@ == failure_text(f, old(self).input@),
            },
    {
        let component = match self.parse_head() {
            Ok(component) => component,
            Err(e) => {
                return Err(e);
            },
        };
        match self.parse_vars() {
            Ok(ports) => Ok(Node { component, ports }),
            Err(e) => Err(e),
        }
    }

    fn parse_net(&mut self) -> (r: Result<Vec<Node>, String>)
        requires
            old(self).inv(),
        ensures
            final(self).inv(),
            final(self).grown(old(self)),
            final(self).types == old(self).types,
            final(self).lifetimes == old(self).lifetimes,
            final(self).vars_len() >= old(self).vars_len(),
            r matches Ok(nodes) ==> forall|k: int|
                0 <= k < nodes@.len() ==> node_ok(
                    #[trigger] nodes@[k],
                    final(self).components_len(),
                    final(self).vars_len(),
                ),
            match s_net(old(self).chars@, old(self).state()) {
                Ok((st, nodes)) => r is Ok && node_models(r->Ok_0@) == nodes && final(self).state() == st,
                Err(f) => r is Err && r->Err_0@ == failure_text(f, old(self).input@),
            },
    {
        match self.consume("{") {
            Ok(()) => {},
            Err(e) => {
                return Err(e);
            },
        }
        let mut nodes: Vec<Node> = Vec::new();
        assert(node_models(nodes@) =~= Seq::empty());
        loop
            invariant
                self.inv(),
                self.grown(old(self)),
                self.types == old(self).types,
                self.lifetimes == old(self).lifetimes,
                self.vars_len() >= old(self).vars_len(),
                forall|k: int|
                    0 <= k < nodes@.len() ==> node_ok(
                        #[trigger] nodes@[k],
                        self.components_len(),
                        self.vars_len(),
                    ),
                s_net(old(self).chars@, old(self).state()) == s_nodes(
                    self.chars@,
                    self.state(),
                    node_models(nodes@),
                ),
            decreases self.chars@.len() - self.index,
        {
            if self.try_consume("}") {
                return Ok(nodes);
            }
            let ghost components = self.components_len();
            let ghost vars = self.vars_len();
            let ghost listed = nodes@;
            let node = match self.parse_node() {
                Ok(node) => node,
                Err(e) => {
                    return Err(e);
                },
            };
            nodes.push(node);
            proof {
                assert(node_models(nodes@) =~= node_models(listed).push(node_model(node)));
                assert forall|k: int| 0 <= k < nodes@.len() implies node_ok(
                    #[trigger] nodes@[k],
                    self.components_len(),
                    self.vars_len(),
                ) by {
                    if k < listed.len() {
                        assert(nodes@[k] == listed[k]);
                        assert(node_ok(listed[k], components, vars));
                    }
                }
            }
        }
    }

    /// Reads the labels of the ports of an agent, up to the closing bracket.
    fn parse_labels(&mut self) -> (r: Result<Vec<PortLabel>, String>)
        requires
            old(self).inv(),
        ensures
            final(self).inv(),
            final(self).grown(old(self)),
            final(self).components == old(self).components,
            final(self).vars == old(self).vars,
            final(self).lifetimes_len() >= old(self).lifetimes_len(),
            r matches Ok(ports) ==> labels_ok(
                ports@,
                final(self).types_len(),
                final(self).lifetimes_len(),
            ),
            match s_labels(old(self).chars@, old(self).state(), Seq::empty()) {
                Ok((st, ports)) => r is Ok && r->Ok_0@ == ports && final(self).state() == st,
                Err(f) => r is Err && r->Err_0@ == failure_text(f, old(self).input@),
            },
    {
        let mut ports: Vec<PortLabel> = Vec::new();
        loop
            invariant
                self.inv(),
                self.grown(old(self)),
                self.components == old(self).components,
                self.vars == old(self).vars,
                self.lifetimes_len() >= old(self).lifetimes_len(),
                labels_ok(ports@, self.types_len(), self.lifetimes_len()),
                s_labels(old(self).chars@, old(self).state(), Seq::empty()) == s_labels(
                    self.chars@,
                    self.state(),
                    ports@,
                ),
            decreases self.chars@.len() - self.index,
        {
            if self.try_consume(")") {
                return Ok(ports);
            }
            let ghost types = self.types_len();
            let ghost lifetimes = self.lifetimes_len();
            let ghost listed = ports@;
            let label = match self.parse_port_label() {
                Ok(label) => label,
                Err(e) => {
                    return Err(e);
                },
            };
            ports.push(label);
            proof {
                assert forall|k: int| 0 <= k < ports@.len() implies label_ok(
                    #[trigger] ports@[k],
                    self.types_len(),
                    self.lifetimes_len(),
                ) by {
                    if k < listed.len() {
                        assert(ports@[k] == listed[k]);
                        assert(label_ok(listed[k], types, lifetimes));
                    }
                }
            }
            match self.parse_more() {
                Ok(true) => {},
                Ok(false) => {
                    return Ok(ports);
                },
                Err(e) => {
                    return Err(e);
                },
            }
        }
    }

    /// Reads the free ports of a net, up to the closing bracket.
    fn parse_free_ports(&mut self) -> (r: Result<Vec<(Var, PortLabel)>, String>)
        requires
            old(self).inv(),
        ensures
            final(self).inv(),
            final(self).grown(old(self)),
            final(self).components == old(self).components,
            final(self).vars_len() >= old(self).vars_len(),
            final(self).lifetimes_len() >= old(self).lifetimes_len(),
            r matches Ok(ports) ==> forall|k: int|
                0 <= k < ports@.len() ==> (#[trigger] ports@[k]).0.0 < final(self).vars_len()
                    && label_ok(ports@[k].1, final(self).types_len(), final(self).lifetimes_len()),
            match s_free_ports(old(self).chars@, old(self).state(), Seq::empty()) {
                Ok((st, ports)) => r is Ok && r->Ok_0@ == ports && final(self).state() == st,
                Err(f) => r is Err && r->Err_0@ == failure_text(f, old(self).input@),
            },
    {
        let mut free_ports: Vec<(Var, PortLabel)> = Vec::new();
        loop
            invariant
                self.inv(),
                self.grown(old(self)),
                self.components == old(self).components,
                self.vars_len() >= old(self).vars_len(),
                self.lifetimes_len() >= old(self).lifetimes_len(),
                forall|k: int|
                    0 <= k < free_ports@.len() ==> (#[trigger] free_ports@[k]).0.0 < self.vars_len()
                        && label_ok(free_ports@[k].1, self.types_len(), self.lifetimes_len()),
                s_free_ports(old(self).chars@, old(self).state(), Seq::empty()) == s_free_ports(
                    self.chars@,
                    self.state(),
                    free_ports@,
                ),
            decreases self.chars@.len() - self.index,
        {
            if self.try_consume(")") {
                return Ok(free_ports);
            }
            let ghost types = self.types_len();
            let ghost lifetimes = self.lifetimes_len();
            let ghost vars = self.vars_len();
            let ghost listed = free_ports@;
            let var = match self.parse_var() {
                Ok(var) => var,
                Err(e) => {
                    return Err(e);
                },
            };
            match self.consume(":") {
                Ok(()) => {},
                Err(e) => {
                    return Err(e);
                },
            }
            let label = match self.parse_port_label() {
                Ok(label) => label,
                Err(e) => {
                    return Err(e);
                },
            };
            free_ports.push((var, label));
            proof {
                assert forall|k: int| 0 <= k < free_ports@.len() implies (
                #[trigger] free_ports@[k]).0.0 < self.vars_len() && label_ok(
                    free_ports@[k].1,
                    self.types_len(),
                    self.lifetimes_len(),
                ) by {
                    if k < listed.len() {
                        assert(free_ports@[k] == listed[k]);
                        assert(label_ok(listed[k].1, types, lifetimes));
                    }
                }
            }
            match self.parse_more() {
                Ok(true) => {},
                Ok(false) => {
                    return Ok(free_ports);
                },
                Err(e) => {
                    return Err(e);
                },
            }
        }
    }

    fn parse_type_def(&mut self) -> (r: Result<TypeDef, String>)
        requires
            old(self).inv(),
        ensures
            final(self).inv(),
            final(self).grown(old(self)),
            final(self).lifetimes == old(self).lifetimes,
            final(self).vars == old(self).vars,
            r matches Ok(def) ==> def.wf(final(self).types_len()) && final(self).index > old(self).index,
            match s_type_def(old(self).chars@, old(self).state()) {
                Ok((st, def)) => r == Ok::<TypeDef, String>(def) && final(self).state() == st,
                Err(f) => r is Err && r->Err_0@ == failure_text(f, old(self).input@),
            },
    {
        match self.consume("type") {
            Ok(()) => {},
            Err(e) => {
                return Err(e);
            },
        }
        let id = match self.parse_type() {
            Ok(id) => id,
            Err(e) => {
                return Err(e);
            },
        };
        match self.consume(":") {
            Ok(()) => {},
            Err(e) => {
                return Err(e);
            },
        }
        self.skip_trivia();
        let polarity = match self.peek_one() {
            Some('+') => Polarity::Pos,
            Some('-') => Polarity::Neg,
            _ => {
                return Err(self.expected("polarity"));
            },
        };
        self.advance_one();
        Ok(TypeDef { id, polarity })
    }

    fn parse_agent_def(&mut self) -> (r: Result<AgentDef, String>)
        requires
            old(self).inv(),
            old(self).rest(),
        ensures
            final(self).inv(),
            final(self).grown(old(self)),
            r matches Ok(def) ==> def.wf(final(self).types_len(), final(self).components_len())
                && final(self).index > old(self).index && final(self).rest(),
            match s_agent_def(old(self).chars@, old(self).state()) {
                Ok((st, def)) => r is Ok && agent_model(r->Ok_0) == def && final(self).state()
                    == st,
                Err(f) => r is Err && r->Err_0@ == failure_text(f, old(self).input@),
            },
    {
        match self.consume("agent") {
            Ok(()) => {},
            Err(e) => {
                return Err(e);
            },
        }
        proof {
            reveal_strlit("agent");
        }
        let mut lt_ctx = match self.parse_lt_ctx() {
            Ok(lt_ctx) => lt_ctx,
            Err(e) => {
                return Err(e);
            },
        };
        let id = match self.parse_head() {
            Ok(id) => id,
            Err(e) => {
                return Err(e);
            },
        };
        let ports = match self.parse_labels() {
            Ok(ports) => ports,
            Err(e) => {
                return Err(e);
            },
        };
        lt_ctx.lifetimes = self.lifetimes.finish();
        proof {
            assert(self.lifetimes.scope@ =~= Seq::empty());
            assert forall|i: int| 0 <= i < lt_ctx.lifetimes@.len() implies crate::lifetimes::entry_wf(
                #[trigger] lt_ctx.lifetimes@[i],
                lt_ctx.lifetimes@.len(),
            ) by {
                assert(fresh_lifetime(lt_ctx.lifetimes@[i]));
            }
        }
        Ok(AgentDef { id, lt_ctx, ports })
    }

    fn parse_rule_def(&mut self) -> (r: Result<RuleDef, String>)
        requires
            old(self).inv(),
            old(self).rest(),
        ensures
            final(self).inv(),
            final(self).grown(old(self)),
            r matches Ok(def) ==> def.wf(final(self).types_len(), final(self).components_len())
                && final(self).index > old(self).index && final(self).rest(),
            match s_rule_def(old(self).chars@, old(self).state()) {
                Ok((st, def)) => r is Ok && rule_model(r->Ok_0) == def && final(self).state()
                    == st,
                Err(f) => r is Err && r->Err_0@ == failure_text(f, old(self).input@),
            },
    {
        match self.consume("rule") {
            Ok(()) => {},
            Err(e) => {
                return Err(e);
            },
        }
        proof {
            reveal_strlit("rule");
        }
        self.vars.ensure_empty();
        let a = match self.parse_node() {
            Ok(node) => node,
            Err(e) => {
                return Err(e);
            },
        };
        let ghost components_a = self.components_len();
        let ghost vars_a = self.vars_len();
        let b = match self.parse_node() {
            Ok(node) => node,
            Err(e) => {
                return Err(e);
            },
        };
        let ghost components_b = self.components_len();
        let ghost vars_b = self.vars_len();
        let result = match self.parse_net() {
            Ok(nodes) => nodes,
            Err(e) => {
                return Err(e);
            },
        };
        let var_ctx = VarCtx { vars: self.vars.finish() };
        proof {
            assert(self.vars.scope.names() =~= Seq::empty());
            assert(node_ok(a, components_a, vars_a));
            assert(node_ok(b, components_b, vars_b));
            assert(uses_ok(var_ctx.vars@, self.types_len(), 0)) by {
                assert forall|v: int| 0 <= v < var_ctx.vars@.len() implies ((
                #[trigger] var_ctx.vars@[v]).state matches DefinitionState::Defined(info)
                    ==> labels_ok(info.uses@, self.types_len(), 0)) by {}
            }
        }
        Ok(RuleDef { var_ctx, a, b, result })
    }

    fn parse_net_def(&mut self) -> (r: Result<NetDef, String>)
        requires
            old(self).inv(),
            old(self).rest(),
        ensures
            final(self).inv(),
            final(self).grown(old(self)),
            r matches Ok(def) ==> def.wf(final(self).types_len(), final(self).components_len())
                && final(self).index > old(self).index && final(self).rest(),
            match s_net_def(old(self).chars@, old(self).state()) {
                Ok((st, def)) => r is Ok && net_model(r->Ok_0) == def && final(self).state()
                    == st,
                Err(f) => r is Err && r->Err_0@ == failure_text(f, old(self).input@),
            },
    {
        match self.consume("net") {
            Ok(()) => {},
            Err(e) => {
                return Err(e);
            },
        }
        proof {
            reveal_strlit("net");
        }
        let mut lt_ctx = match self.parse_lt_ctx() {
            Ok(lt_ctx) => lt_ctx,
            Err(e) => {
                return Err(e);
            },
        };
        self.vars.ensure_empty();
        let id = match self.parse_head() {
            Ok(id) => id,
            Err(e) => {
                return Err(e);
            },
        };
        let free_ports = match self.parse_free_ports() {
            Ok(ports) => ports,
            Err(e) => {
                return Err(e);
            },
        };
        let ghost vars_mid = self.vars_len();
        let ghost lifetimes_mid = self.lifetimes_len();
        let ghost types_mid = self.types_len();
        let ghost ports = free_ports@;
        let nodes = match self.parse_net() {
            Ok(nodes) => nodes,
            Err(e) => {
                return Err(e);
            },
        };
        let var_ctx = VarCtx { vars: self.vars.finish() };
        lt_ctx.lifetimes = self.lifetimes.finish();
        proof {
            assert(self.vars.scope.names() =~= Seq::empty());
            assert(self.lifetimes.scope@ =~= Seq::empty());
            assert forall|i: int| 0 <= i < lt_ctx.lifetimes@.len() implies crate::lifetimes::entry_wf(
                #[trigger] lt_ctx.lifetimes@[i],
                lt_ctx.lifetimes@.len(),
            ) by {
                assert(fresh_lifetime(lt_ctx.lifetimes@[i]));
            }
            assert(uses_ok(var_ctx.vars@, self.types_len(), lt_ctx.lifetimes@.len())) by {
                assert forall|v: int| 0 <= v < var_ctx.vars@.len() implies ((
                #[trigger] var_ctx.vars@[v]).state matches DefinitionState::Defined(info)
                    ==> labels_ok(info.uses@, self.types_len(), lt_ctx.lifetimes@.len())) by {}
            }
            assert forall|k: int| 0 <= k < free_ports@.len() implies (#[trigger] free_ports@[k]).0.0
                < var_ctx.vars@.len() && label_ok(
                free_ports@[k].1,
                self.types_len(),
                lt_ctx.lifetimes@.len(),
            ) by {
                assert(ports[k].0.0 < vars_mid);
                assert(label_ok(ports[k].1, types_mid, lifetimes_mid));
            }
        }
        Ok(NetDef { id, var_ctx, lt_ctx, free_ports, nodes })
    }

    fn parse_item(&mut self, program: &mut Program) -> (r: Result<(), String>)
        requires
            old(self).inv(),
            old(self).rest(),
            old(program).items_wf(old(self).types_len(), old(self).components_len()),
            old(program).globals.wf(),
        ensures
            final(self).inv(),
            final(self).grown(old(self)),
            final(program).globals == old(program).globals,
            r is Ok ==> final(self).rest() && final(self).index > old(self).index && final(program).items_wf(final(self).types_len(), final(self).components_len()),
            match s_item(old(self).chars@, old(self).state(), declarations_of(*old(program))) {
                Ok((st, found)) => r is Ok && declarations_of(*final(program)) == found
                    && final(self).state() == st,
                Err(f) => r is Err && r->Err_0@ == failure_text(f, old(self).input@),
            },
    {
        self.skip_trivia();
        let ghost types = self.types_len();
        let ghost components = self.components_len();
        if self.starts_with("type") {
            let def = match self.parse_type_def() {
                Ok(def) => def,
                Err(e) => {
                    return Err(e);
                },
            };
            proof {
                lemma_items_wf_grows(
                    program,
                    types,
                    components,
                    self.types_len(),
                    self.components_len(),
                );
            }
            let ghost listed = program.types@;
            program.types.push(def);
            proof {
                assert(declarations_of(*program).agents =~= declarations_of(*old(program)).agents);
                assert(declarations_of(*program).rules =~= declarations_of(*old(program)).rules);
                assert(declarations_of(*program).nets =~= declarations_of(*old(program)).nets);
                assert forall|i: int| 0 <= i < program.types@.len() implies (
                #[trigger] program.types@[i]).wf(self.types_len()) by {
                    if i < listed.len() {
                        assert(program.types@[i] == listed[i]);
                    }
                }
            }
            Ok(())
        } else if self.starts_with("agent") {
            let def = match self.parse_agent_def() {
                Ok(def) => def,
                Err(e) => {
                    return Err(e);
                },
            };
            proof {
                lemma_items_wf_grows(
                    program,
                    types,
                    components,
                    self.types_len(),
                    self.components_len(),
                );
            }
            let ghost listed = program.agents@;
            program.agents.push(def);
            proof {
                assert(declarations_of(*program).agents =~= declarations_of(*old(program)).agents.push(
                    agent_model(def),
                ));
                assert(declarations_of(*program).rules =~= declarations_of(*old(program)).rules);
                assert(declarations_of(*program).nets =~= declarations_of(*old(program)).nets);
                assert forall|i: int| 0 <= i < program.agents@.len() implies (
                #[trigger] program.agents@[i]).wf(self.types_len(), self.components_len()) by {
                    if i < listed.len() {
                        assert(program.agents@[i] == listed[i]);
                    }
                }
            }
            Ok(())
        } else if self.starts_with("rule") {
            let def = match self.parse_rule_def() {
                Ok(def) => def,
                Err(e) => {
                    return Err(e);
                },
            };
            proof {
                lemma_items_wf_grows(
                    program,
                    types,
                    components,
                    self.types_len(),
                    self.components_len(),
                );
            }
            let ghost listed = program.rules@;
            program.rules.push(def);
            proof {
                assert(declarations_of(*program).rules =~= declarations_of(*old(program)).rules.push(
                    rule_model(def),
                ));
                assert(declarations_of(*program).agents =~= declarations_of(*old(program)).agents);
                assert(declarations_of(*program).nets =~= declarations_of(*old(program)).nets);
                assert forall|i: int| 0 <= i < program.rules@.len() implies (
                #[trigger] program.rules@[i]).wf(self.types_len(), self.components_len()) by {
                    if i < listed.len() {
                        assert(program.rules@[i] == listed[i]);
                    }
                }
            }
            Ok(())
        } else if self.starts_with("net") {
            let def = match self.parse_net_def() {
                Ok(def) => def,
                Err(e) => {
                    return Err(e);
                },
            };
            proof {
                lemma_items_wf_grows(
                    program,
                    types,
                    components,
                    self.types_len(),
                    self.components_len(),
                );
            }
            let ghost listed = program.nets@;
            program.nets.push(def);
            proof {
                assert(declarations_of(*program).nets =~= declarations_of(*old(program)).nets.push(
                    net_model(def),
                ));
                assert(declarations_of(*program).agents =~= declarations_of(*old(program)).agents);
                assert(declarations_of(*program).rules =~= declarations_of(*old(program)).rules);
                assert forall|i: int| 0 <= i < program.nets@.len() implies (
                #[trigger] program.nets@[i]).wf(self.types_len(), self.components_len()) by {
                    if i < listed.len() {
                        assert(program.nets@[i] == listed[i]);
                    }
                }
            }
            Ok(())
        } else {
            Err(self.expected("type, agent, or rule declaration"))
        }
    }

    fn parse_file(&mut self) -> (r: Result<Program, String>)
        requires
            old(self).inv(),
            old(self).rest(),
            old(self).state() == start_state(),
        ensures
            r matches Ok(program) ==> program.wf() && program.unchecked(),
            match s_file(old(self).chars@) {
                Ok(model) => r is Ok && program_model(r->Ok_0) == model,
                Err(f) => r is Err && r->Err_0@ == failure_text(f, old(self).input@),
            },
    {
        let mut program = Program::default();
        proof {
            assert(declarations_of(program).types =~= Seq::empty());
            assert(declarations_of(program).agents =~= Seq::empty());
            assert(declarations_of(program).rules =~= Seq::empty());
            assert(declarations_of(program).nets =~= Seq::empty());
        }
        self.skip_trivia();
        while !self.is_eof()
            invariant
                self.inv(),
                self.rest(),
                self.input == old(self).input,
                self.chars == old(self).chars,
                program.globals.wf(),
                program.globals.types@.len() == 0,
                program.globals.components@.len() == 0,
                program.globals.type_order@.len() == 0,
                program.items_wf(self.types_len(), self.components_len()),
                s_items(
                    self.chars@,
                    at(start_state(), trivia_end(self.chars@, 0)),
                    no_declarations(),
                ) == s_items(self.chars@, self.state(), declarations_of(program)),
            decreases self.chars@.len() - self.index,
        {
            match self.parse_item(&mut program) {
                Ok(()) => {},
                Err(e) => {
                    return Err(e);
                },
            }
            self.skip_trivia();
        }
        program.globals.types = self.types.finish();
        program.globals.components = self.components.finish();
        Ok(program)
    }
}

/// Reads a source file: its declarations of types, agents, rules and nets, in
/// their order, with the scopes of the names that they use. A text is read
/// exactly where the grammar gives it declarations, and the program holds
/// those; it is valid, and nothing of it is defined yet. Else the error is
/// the message of the failure that the grammar gives.
pub fn parse(input: &str) -> (r: Result<Program, String>)
    ensures
        r matches Ok(program) ==> program.wf() && program.unchecked(),
        match s_file(input@) {
            Ok(model) => r is Ok && program_model(r->Ok_0) == model,
            Err(f) => r is Err && r->Err_0@ == failure_text(f, input@),
        },
{
    let mut parser = Parser::new(input);
    parser.parse_file()
}

} // verus!
