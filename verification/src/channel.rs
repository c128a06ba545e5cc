pub mod state;
pub mod transitions;
