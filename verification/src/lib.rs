//! A cycle-accurate simulator of Tomasulo's out-of-order issue algorithm
//! with a reorder buffer, for a small RISC-style load/store instruction
//! subset.  The engine models timing only: in-order issue, out-of-order
//! execution, a single common data bus, a single memory port, and
//! in-order commit.

pub mod addrset;
pub mod config;
pub mod laws;
pub mod op;
pub mod pipeline;
pub mod regmap;
pub mod table;
pub mod text;

pub use addrset::AddressSet;
pub use config::Config;
pub use config::ConfigError;
pub use op::FunctionalUnit;
pub use op::Operand;
pub use op::Register;
pub use op::RiscVOp;
pub use op::GLOBAL_NAME_SIZE;
pub use pipeline::ReorderBuffer;
pub use pipeline::ReservationStations;
pub use pipeline::RobEntry;
pub use pipeline::RobModel;
pub use pipeline::Stage;
pub use regmap::RegisterMap;
pub use table::Row;
pub use table::TomasuloTable;
