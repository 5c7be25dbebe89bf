pub mod balanced;
pub mod bonus;
pub mod grammar;
mod rng;

pub use balanced::CFG;
pub use bonus::BonusCFG;
pub use grammar::Production;
pub use grammar::Symbol;
