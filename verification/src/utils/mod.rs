pub mod error;
pub mod options;
pub mod state;
pub mod text;

pub use error::Error;
pub use options::Opts;
pub use state::GlobalState;
