pub mod compiler;
pub mod machine;

pub use compiler::Command;
pub use compiler::ParsingError;
pub use compiler::compile;
pub use machine::EvalError;
pub use machine::eval;
pub use machine::eval_on_tape;
