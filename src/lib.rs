//! Clide turns annotated `Usage:` lines into a grammar, and matches
//! argument lists against it, yielding typed values or a precise error.
use vstd::prelude::*;

pub mod grammar;
pub mod text;
pub mod parser;
pub mod runtime;
pub mod help;

pub use grammar::{Atom, Command, Group, Item, Spec, SpecView, Type};
pub use parser::{ParseError, SpecFault, from_lines, spec_of_lines};
pub use help::{key_string_of_atom, render, render_with_docs};
pub use runtime::{
    ArgError, ArgFault, ParseResult, ParseResultView, choose_command, chosen, match_command,
    parse_with,
};
use text::texts;
use help::{doc_entries, docs_text, merged, synth_entries, usage_text};

verus! {

/// A parsed set of usage lines, ready to match argument lists.
pub struct Clide {
    spec: Spec,
}

impl View for Clide {
    type V = SpecView;

    closed spec fn view(&self) -> SpecView {
        self.spec@
    }
}

impl Clide {
    #[verifier::type_invariant]
    spec fn has_commands(self) -> bool {
        self.spec.commands@.len() > 0
    }

    /// Parses usage lines; the result matches argument lists against them.
    pub fn from_usage_lines(usage: &[String]) -> (r: Result<Clide, ParseError>)
        ensures
            match r {
                Ok(c) => spec_of_lines(texts(usage@)) == Ok::<SpecView, SpecFault>(c@)
                    && c@.commands.len() > 0,
                Err(e) => spec_of_lines(texts(usage@)) matches Err(f) && e.0@ == f.message(),
            },
    {
        match from_lines(usage) {
            Ok(spec) => {
                let c = Clide { spec };
                proof {
                    assert(c@ == spec@);
                }
                Ok(c)
            },
            Err(e) => Err(e),
        }
    }

    /// The grammar these usage lines declare.
    pub fn spec(&self) -> (r: &Spec)
        ensures
            r@ == self@,
            r.commands@.len() > 0,
    {
        proof {
            use_type_invariant(self);
        }
        &self.spec
    }

    /// Selects the command for `argv`, then matches `argv` against it.
    pub fn parse(&self, argv: &[String]) -> (r: Result<ParseResult, ArgError>)
        ensures
            chosen(self@.commands, texts(argv@)) < self@.commands.len(),
            match r {
                Ok(res) => match_command(
                    self@.commands[chosen(self@.commands, texts(argv@)) as int],
                    texts(argv@),
                ) == Ok::<ParseResultView, ArgFault>(res@),
                Err(e) => match_command(
                    self@.commands[chosen(self@.commands, texts(argv@)) as int],
                    texts(argv@),
                ) matches Err(f) && e.0@ == f.message(),
            },
    {
        let spec = self.spec();
        let cmd = choose_command(spec, argv);
        parse_with(cmd, argv)
    }

    /// The usage summary of the usage lines.
    pub fn help_of(usage: &[String]) -> (r: Result<String, ParseError>)
        ensures
            match r {
                Ok(h) => spec_of_lines(texts(usage@)) matches Ok(s) && h@ == usage_text(s),
                Err(e) => spec_of_lines(texts(usage@)) matches Err(f) && e.0@ == f.message(),
            },
    {
        match from_lines(usage) {
            Ok(spec) => Ok(render(&spec)),
            Err(e) => Err(e),
        }
    }

    /// The usage summary and the table of keys, with the descriptions of
    /// `docs` in place of the generated ones for the keys it names.
    pub fn help_with_docs(usage: &[String], docs: &[(String, String)]) -> (r: Result<String, ParseError>)
        ensures
            match r {
                Ok(h) => spec_of_lines(texts(usage@)) matches Ok(s) && h@ == usage_text(s) + "\n"@
                    + docs_text(merged(doc_entries(docs@), synth_entries(s.commands))),
                Err(e) => spec_of_lines(texts(usage@)) matches Err(f) && e.0@ == f.message(),
            },
    {
        match from_lines(usage) {
            Ok(spec) => Ok(render_with_docs(&spec, docs)),
            Err(e) => Err(e),
        }
    }
}

} // verus!
