//! A small Lisp interpreter: reader, value model, environments, builtins and a
//! tree-walking evaluator with tail-call elimination, all with machine-checked
//! contracts.
//!
//! Text becomes tokens and tokens become values in [`reader`]; values are
//! printed by [`printer`]; [`eval`] evaluates them against the frames of a
//! [`env::Runtime`], calling the host functions of [`builtins`]; [`repl`]
//! puts reading, evaluating and printing together. [`laws`] holds the
//! general properties that are proved of all of this.
//!
//! The library does no input or output. What a program prints is collected
//! in the runtime, to be taken and written by the caller. What a program
//! asks of the host (a file, an environment variable, a line of input, the
//! end of the process) stops the evaluation with a [`env::Halt`] that says
//! what is needed; the caller goes back to a copy of the runtime made
//! before, provides the answer, and evaluates again.
pub mod builtins;
pub mod env;
pub mod eval;
pub mod frac;
pub mod laws;
pub mod printer;
pub mod reader;
pub mod repl;
pub mod text;
pub mod types;
pub mod value;
