//! RE# regex engine with boolean operations.
use vstd::prelude::*;

pub mod builder;
pub mod builder_lang;
pub mod convert;
pub mod derivative;
pub mod derivative_lang;
pub mod error;
pub mod flags;
pub mod node;
pub mod parse_bounds;
pub mod parser;
pub mod printer;
pub mod regex;
pub mod semantics;
pub mod solver;
pub mod syntax;

pub use builder::RegexBuilder;
pub use convert::{cst_to_ir, CstToIr};
pub use derivative::{derivative, is_nullable, LocationKind};
pub use error::ParseError;
pub use parser::parse;
pub use flags::NodeFlags;
pub use node::{NodeId, NodeInfo, RegexNode, RegexNodeArena};
pub use printer::{CharSetDisplay, PrettyPrinter};
pub use regex::{Error, Match, Matches, Regex};
pub use solver::{minterms_log, BitSetSolver, CharSetSolver};
pub use syntax::{GreenNode, RegexOptions, SyntaxKind, SyntaxNode};

verus! {

} // verus!
