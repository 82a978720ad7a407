//! Canonical LR(1) parser generator: grammars, FIRST sets, item sets, ACTION/GOTO tables,
//! panic-mode recovery and a shift-reduce driver.
pub mod cfg;
pub mod driver;
pub mod error;
pub mod grammar;
pub mod item;
pub mod laws;
pub mod panic;
pub mod table;
pub mod text;
pub mod token;

pub use driver::{drive, tokenize, Derivation};
pub use error::{Error, ParseProductionError};
pub use grammar::{Grammar, Production};
pub use item::{build_cores, Cores, Family, Item, ItemSet};
pub use panic::PanicAction;
pub use table::{ActionCell, Table};
pub use token::{NonTerminal, Terminal, Token};
