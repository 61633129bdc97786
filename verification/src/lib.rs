//! A parser and trigger-sort engine for the RiveScript chatbot scripting
//! language.
//!
//! The library reads RiveScript source text line by line into a rule tree
//! (topics, triggers, definitions, arrays and object macros), merges trees
//! from several documents, and orders each topic's triggers so that a
//! greedy first-match scan finds the most specific rule first.

use vstd::prelude::*;

pub mod ast;
pub mod errors;
pub mod parser;
pub mod sorting;
pub mod strmap;
pub mod text;

use crate::ast::{ast_union, empty_ast, lemma_union_no_self, no_self_relations, AstV, Trigger, AST};
use crate::errors::ParseError;
use crate::parser::{fail_message, parse_doc, POutcome, Parser};
use crate::sorting::{no_topics_message, sort_triggers_spec};
use crate::strmap::StrMap;

verus! {

/// Library version string.
pub const VERSION: &'static str = "0.1.0";

/// RiveScript represents a single chatbot personality in memory: the
/// parser and the aggregate rule tree ("brain") that loaded documents
/// merge into.
pub struct RiveScript {
    pub debug: bool,
    pub utf8: bool,
    pub depth: i32,
    parser: Parser,
    brain: AST,
}

impl RiveScript {
    /// The aggregate rule tree, as a mathematical value.
    pub closed spec fn brain_view(&self) -> AstV {
        self.brain@
    }

    /// The brain's maps are well formed and its topic relations keep
    /// the data-model invariant: no topic includes or inherits itself.
    pub closed spec fn wf(&self) -> bool {
        self.brain.wf() && no_self_relations(self.brain@)
    }

    /// The configuration flags, readable in contracts.
    pub closed spec fn flags(&self) -> (bool, bool, i32) {
        (self.debug, self.utf8, self.depth)
    }

    /// Initialize a new RiveScript chatbot personality with an empty
    /// brain.
    pub fn new() -> (r: Self)
        ensures
            r.wf(),
            r.brain_view() == empty_ast(),
            r.flags() == (false, false, 50i32),
    {
        let r = RiveScript {
            debug: false,
            utf8: false,
            depth: 50,
            parser: Parser::new(),
            brain: AST::new(),
        };
        proof {
            assert(no_self_relations(r.brain@));
        }
        r
    }

    /// Streams a string of RiveScript source into the bot: the text is
    /// parsed as one document and merged into the brain; a fatal parse
    /// error leaves the brain unchanged.
    pub fn stream(&mut self, source: String) -> (r: Result<bool, ParseError>)
        requires
            old(self).wf(),
        ensures
            final(self).wf(),
            final(self).flags() == old(self).flags(),
            no_self_relations(final(self).brain_view()),
            match r {
                Ok(b) => b && (parse_doc(source@) matches POutcome::Success(ast)
                    && final(self).brain_view() == ast_union(old(self).brain_view(), ast)),
                Err(e) => parse_doc(source@) matches POutcome::Fail(k) && e@ == fail_message(k)
                    && final(self).brain_view() == old(self).brain_view(),
            },
    {
        match self.parser.parse("stream()", source) {
            Ok(ast) => {
                proof {
                    lemma_union_no_self(old(self).brain_view(), ast@);
                }
                self.brain.extend(ast);
                Ok(true)
            },
            Err(e) => Err(e),
        }
    }

    /// Sorts the brain's triggers per topic into optimal matching
    /// order and hands back the per-topic sorted sequences; fails when
    /// no topics exist because no code was loaded.
    pub fn sort_triggers(&self) -> (r: Result<StrMap<Vec<Trigger>>, ParseError>)
        requires
            self.wf(),
        ensures
            match r {
                Ok(m) => {
                    &&& m.wf()
                    &&& self.brain_view().topics.dom() != Set::<Seq<char>>::empty()
                    &&& m@.dom() == self.brain_view().topics.dom()
                    &&& forall|k: Seq<char>|
                        self.brain_view().topics.contains_key(k) ==> #[trigger] m@[k]
                            == sort_triggers_spec(self.brain_view().topics[k].triggers)
                },
                Err(e) => self.brain_view().topics.dom() == Set::<Seq<char>>::empty() && e@
                    == no_topics_message(),
            },
    {
        crate::sorting::sort_triggers(&self.brain)
    }
}

} // verus!
