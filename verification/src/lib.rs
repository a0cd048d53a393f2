pub mod assets;
pub mod ast;
pub mod capability;
pub mod cli;
pub mod diagnostic;
pub mod expr;
pub mod expr_text;
pub mod layout;
pub mod lexer;
pub mod menu;
pub mod number;
pub mod runtime;
pub mod script;
pub mod span;
pub mod stage;
pub mod statement;
pub mod syntax;
pub mod text;
pub mod textmap;
pub mod function;
pub mod history;
pub mod token;
pub mod validate;
pub mod value;
pub mod variable;
