//! Formula parsing and evaluation core for a spreadsheet whose grid is an
//! unbounded, signed two-dimensional coordinate space.
//!
//! Formula text is parsed once against an anchor position into an immutable
//! expression tree; the tree can then be evaluated repeatedly at arbitrary
//! positions against a caller-supplied cell-reading capability.

pub mod ast;
pub mod codec;
pub mod error;
pub mod eval;
pub mod laws;
pub mod parser;
pub mod pos;
pub mod value;
pub mod text;

pub use ast::Formula;
pub use codec::decode_col_component;
pub use codec::decode_pos;
pub use codec::decode_row_component;
pub use codec::encode_pos;
pub use codec::CellRef;
pub use codec::CellRefCoord;
pub use error::FormulaError;
pub use error::FormulaErrorMsg;
pub use eval::GridProxy;
pub use parser::parse_formula;
pub use pos::Pos;
pub use value::Value;
