//! A small text-template renderer: templates hold directives between
//! `[[ ` and ` ]]` delimiters; rendering substitutes variables, evaluates
//! conditionals, expands loops and inlines stored components.
pub mod errors;
pub mod laws;
pub mod machine;
pub mod render;
pub mod resolve;
pub mod scan;
pub mod text;
pub mod value;

pub use errors::ErrorKind;
pub use render::FileExtension;
pub use render::Renderer;
pub use scan::SyntaxMatch;
pub use value::VarValue;
pub use value::Vars;
