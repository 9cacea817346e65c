//! Tools for ABC music notation: a lexer, tune representations, melodic
//! features, tune clustering and the storage formats of a tune database.

pub mod abc_lexer;
pub mod chars;
pub mod collation;
pub mod features;
pub mod music;
pub mod pitch;
pub mod relations;
pub mod representations;
pub mod search;
pub mod server;
pub mod storage;
pub mod svg;
pub mod text;
pub mod tune_ast;
pub mod tune_ast_three;
pub mod tune_ast_two;
pub mod typeset;
pub mod viz;

