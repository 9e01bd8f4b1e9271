//! A tree-walking interpreter for a small expression language: text is cut
//! into tokens, tokens are parsed into a syntax tree, and the tree is
//! evaluated against an environment that lasts for the session.
//!
//! The program itself is in `lexer`, `parser`, `evaluator`, `enviroment`,
//! `inbuilt`, `object`, `ast` and `text`, with `interpreter` running the
//! three stages in a row. What each stage has to deliver is said by
//! mathematical definitions: `lexer` holds those of the tokens of a text,
//! `grammar` those of the tree of a token sequence, `semantics` those of the
//! value of a tree. Every function of the program is proved to deliver
//! exactly that.
//!
//! `laws` states what follows for all programs. `soundness` shows that
//! evaluation keeps the environment sound, and `arithmetic` what the three
//! stages make of two numerals with an operator between them. The proof
//! that a tree is read back from its own text takes the modules `writing`,
//! `spelling`, `lexing_back`, `parsing_back` and `faithful`.

pub mod arithmetic;
pub mod ast;
pub mod enviroment;
pub mod evaluator;
pub mod faithful;
pub mod grammar;
pub mod inbuilt;
pub mod interpreter;
pub mod laws;
pub mod lexer;
pub mod lexing_back;
pub mod object;
pub mod parser;
pub mod parsing_back;
pub mod semantics;
pub mod soundness;
pub mod spelling;
pub mod text;
pub mod writing;
