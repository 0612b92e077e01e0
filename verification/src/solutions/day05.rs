//! Console-driven diagnostics: the program text is loaded into the
//! machine, the chosen system id is queued as its one input, and the
//! machine's last output is the diagnostic code. The console plumbing
//! itself lives outside the library.

pub use crate::intcode::load_initial_memory;
