//! From text to value: the three stages in a row, and a session that keeps
//! its environment from one text to the next.

use crate::semantics;
use crate::enviroment::{env_wf, fresh, EnviromentVariables, ScopeView};
use crate::evaluator::eval_program;
use crate::grammar::{program_of, ParseErrorView};
use crate::lexer::{tokenize, Lexer, LexError};
use crate::object::{Object, Value};
use crate::parser::{ParseError, Parser};
use crate::semantics::EvalError;
use vstd::prelude::*;

verus! {

/// Why a text has no value: the stage that failed, and its error.
#[derive(Debug)]
pub enum Failure {
    /// The text has no token sequence.
    Lexing(LexError),
    /// The tokens are no program.
    Parsing(ParseError),
    /// The program has no value.
    Evaluation(EvalError),
}

/// A failure as a mathematical value.
pub enum FailureModel {
    Lexing(LexError),
    Parsing(ParseErrorView),
    Evaluation(EvalError),
}

impl View for Failure {
    type V = FailureModel;

    open spec fn view(&self) -> FailureModel {
        match self {
            Failure::Lexing(error) => FailureModel::Lexing(*error),
            Failure::Parsing(error) => FailureModel::Parsing(error@),
            Failure::Evaluation(error) => FailureModel::Evaluation(*error),
        }
    }
}

/// What a text means in an environment: the value, or the failure, and
/// the environment that is left behind.
pub struct Meaning {
    pub result: Result<Value, FailureModel>,
    pub env: Seq<ScopeView>,
}

/// The meaning of a text: that of the program that its tokens are. A text
/// that has no tokens or whose tokens are no program leaves the environment
/// as it is.
pub open spec fn meaning(text: Seq<char>, env: Seq<ScopeView>) -> Meaning {
    match tokenize(text) {
        Err(error) => Meaning { result: Err(FailureModel::Lexing(error)), env },
        Ok(tokens) => match program_of(tokens) {
            Err(error) => Meaning { result: Err(FailureModel::Parsing(error)), env },
            Ok(program) => {
                let outcome = semantics::eval_program(program, env);
                Meaning {
                    result: match outcome.result {
                        Ok(value) => Ok(value),
                        Err(error) => Err(FailureModel::Evaluation(error)),
                    },
                    env: outcome.env,
                }
            },
        },
    }
}

/// The view of what an interpretation gave.
pub open spec fn answer_view(answer: Result<Object, Failure>) -> Result<Value, FailureModel> {
    match answer {
        Ok(value) => Ok(value@),
        Err(failure) => Err(failure@),
    }
}

/// Interprets a text in the root scope of an environment: cuts it into
/// tokens, parses them and evaluates the program.
///
/// Gives exactly what the text means, and leaves the environment as the
/// meaning says; the environment stays sound.
pub fn evaluate(input: &str, env: &mut EnviromentVariables) -> (answer: Result<Object, Failure>)
    requires
        env_wf(old(env)@),
    ensures
        answer_view(answer) == meaning(input@, old(env)@).result,
        final(env)@ == meaning(input@, old(env)@).env,
        env_wf(final(env)@),
        old(env)@.len() <= final(env)@.len(),
        answer matches Ok(value) ==> crate::object::value_wf(value@, final(env)@.len() as int),
{
    let lexer = match Lexer::new(input) {
        Ok(lexer) => lexer,
        Err(error) => {
            return Err(Failure::Lexing(error));
        },
    };
    let mut parser = Parser::new(lexer);
    let program = match parser.parse_program() {
        Ok(program) => program,
        Err(error) => {
            return Err(Failure::Parsing(error));
        },
    };
    match eval_program(&program, env) {
        Ok(value) => Ok(value),
        Err(error) => Err(Failure::Evaluation(error)),
    }
}

/// A session: an environment of its own, in whose root scope one text
/// after the other is interpreted. The environment of a session is sound at
/// all times.
pub struct Session {
    env: EnviromentVariables,
}

impl Session {
    #[verifier::type_invariant]
    spec fn sound(&self) -> bool {
        env_wf(self.env@)
    }

    /// The scopes of the session's environment.
    pub closed spec fn scopes(&self) -> Seq<ScopeView> {
        self.env@
    }

    /// A new session, with nothing bound.
    pub fn new() -> (session: Self)
        ensures
            session.scopes() == fresh(),
    {
        Session { env: EnviromentVariables::new() }
    }

    /// Interprets a text in the session: gives exactly what the text means
    /// in the session's environment, and leaves that environment as the
    /// meaning says.
    pub fn evaluate(&mut self, input: &str) -> (answer: Result<Object, Failure>)
        ensures
            answer_view(answer) == meaning(input@, old(self).scopes()).result,
            final(self).scopes() == meaning(input@, old(self).scopes()).env,
    {
        proof {
            use_type_invariant(&*self);
        }
        let mut env = EnviromentVariables::new();
        std::mem::swap(&mut env, &mut self.env);
        let answer = evaluate(input, &mut env);
        self.env = env;
        answer
    }
}

} // verus!
