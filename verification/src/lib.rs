pub mod error;
pub mod globals;
pub mod grammar;
pub mod index_vec;
pub mod lifetimes;
pub mod order;
pub mod parser;
pub mod program;
pub mod scope;
pub mod text;
pub mod vars;

use vstd::prelude::*;
use vstd::string::StringExecFns;
use crate::error::render;
use crate::error::ErrorTree;
use crate::globals::TypeInfo;
use crate::grammar::s_file;
use crate::order::find_cycles::has_cycle;
use crate::order::find_cycles::is_strict_cycle;
use crate::order::find_cycles::step;
use crate::parser::parse;
use crate::grammar::program_model;
use crate::program::check::program_outcome;
use crate::program::check::type_errors;
use crate::program::check::types_after_all;
use crate::scope::DefinitionState;
use crate::scope::ScopeEntry;
use crate::program::Program;

verus! {

/// The label under which the errors of a program are summed up.
pub open spec fn check_errors_text() -> Seq<char> {
    "check errors:"@
}

/// The text of an error as `Error::to_string` gives it.
pub open spec fn error_text(tree: ErrorTree) -> Seq<char> {
    render(tree, seq![' ', ' '])
}

/// Whether `msg` is the text of the errors of a program, summed up under their
/// label.
pub open spec fn reports_errors(msg: Seq<char>) -> bool {
    exists|tree: ErrorTree|
        tree.message == check_errors_text() && tree.causes.len() > 0 && msg
            == #[trigger] error_text(tree)
}

/// Whether `msg` is the text of the errors of a program, summed up under their
/// label, with the errors `first` before all others.
pub open spec fn reports_errors_from(msg: Seq<char>, first: Seq<ErrorTree>) -> bool {
    exists|tree: ErrorTree|
        tree.message == check_errors_text() && tree.causes.len() > 0 && first.len()
            <= tree.causes.len() && tree.causes.subrange(0, first.len() as int) == first && msg
            == #[trigger] error_text(tree)
}

/// A scope that holds the given names, none of them defined.
pub open spec fn undefined_types(names: Seq<Seq<char>>) -> Seq<ScopeEntry<TypeInfo>> {
    Seq::new(names.len(), |i: int| ScopeEntry { name: names[i], state: DefinitionState::Undefined })
}

/// Whether a program declares nothing but types.
pub open spec fn only_types(program: Program) -> bool {
    program.agents@.len() == 0 && program.rules@.len() == 0 && program.nets@.len() == 0
}

/// Whether `r` is what the check of a program gives whose errors are `errors`
/// and no others: no error where there is none, else their text under the
/// label.
pub open spec fn reports_exactly(r: Result<(), String>, errors: Seq<ErrorTree>) -> bool {
    if errors.len() == 0 {
        r is Ok
    } else {
        r is Err && r->Err_0@ == error_text(
            ErrorTree { message: check_errors_text(), causes: errors },
        )
    }
}

/// Checks a program and gives the text of its errors, if it has any: the label
/// `check errors:`, and under it the errors of the declarations, those of the
/// declarations of types first. A type that is declared twice, or a cycle in
/// the order of the types, is an error.
pub fn check_program(program: &mut Program) -> (r: Result<(), String>)
    requires
        old(program).wf(),
    ensures
        final(program).globals.types@ == types_after_all(
            old(program).globals.types@,
            old(program).types@,
        ),
        type_errors(old(program).globals.types@, old(program).types@).len() > 0 ==> r is Err,
        has_cycle(final(program).globals.type_order@) ==> r is Err,
        r matches Err(msg) ==> reports_errors(msg@) && reports_errors_from(
            msg@,
            type_errors(old(program).globals.types@, old(program).types@),
        ),
        exists|errors: Seq<ErrorTree>|
            #![trigger program_outcome(*old(program), *final(program), errors)]
            program_outcome(*old(program), *final(program), errors) && reports_exactly(r, errors),
        only_types(*old(program)) && !has_cycle(old(program).globals.type_order@)
            ==> reports_exactly(
            r,
            type_errors(old(program).globals.types@, old(program).types@),
        ),
{
    let mut errors = program.check();
    let ghost found = errors@;
    let r = match errors.report(String::from_str("check errors:")) {
        Ok(()) => Ok(()),
        Err(e) => {
            let msg = e.to_string();
            assert(msg@ == error_text(e@));
            Err(msg)
        },
    };
    assert(program_outcome(*old(program), *program, found) && reports_exactly(r, found));
    r
}

/// Reads the text of a source file and checks the program that it declares. The
/// error is the message of the parser where the grammar gives the text no
/// declarations, and otherwise the text of the errors that the check of the
/// program gives, those of the declarations of types first.
pub fn check(input: &str) -> (r: Result<(), String>)
    ensures
        match s_file(input@) {
            Ok(model) => {
                let first = type_errors(
                    undefined_types(model.type_names),
                    model.declarations.types,
                );
                &&& first.len() > 0 ==> r is Err
                &&& r matches Err(msg) ==> reports_errors_from(msg@, first)
                &&& model.declarations.agents.len() == 0 && model.declarations.rules.len() == 0
                    && model.declarations.nets.len() == 0 ==> reports_exactly(r, first)
                &&& exists|program: Program, checked: Program, errors: Seq<ErrorTree>|
                    #![trigger program_outcome(program, checked, errors)]
                    program_model(program) == model && program.wf() && program.unchecked()
                        && program_outcome(program, checked, errors) && reports_exactly(r, errors)
            },
            Err(f) => r is Err && r->Err_0@ == crate::parser::failure_text(f, input@),
        },
{
    let mut program = match parse(input) {
        Ok(program) => program,
        Err(e) => {
            return Err(e);
        },
    };
    let ghost parsed = program;
    assert(program.globals.types@ =~= undefined_types(program.globals.types.names()));
    proof {
        if has_cycle(program.globals.type_order@) {
            let c = choose|c: Seq<usize>| is_strict_cycle(program.globals.type_order@, c);
            assert(step(program.globals.type_order@, c, 0));
        }
    }
    let r = check_program(&mut program);
    proof {
        let errors = choose|errors: Seq<ErrorTree>|
            #![trigger program_outcome(parsed, program, errors)]
            program_outcome(parsed, program, errors) && reports_exactly(r, errors);
        assert(program_outcome(parsed, program, errors));
    }
    r
}

} // verus!
