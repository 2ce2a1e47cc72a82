pub mod application;
pub mod preferences;
pub mod session;
pub mod solve_time;
pub mod stats;
pub mod timer;

pub use application::KTApplication;
pub use preferences::{Preferences, Theme};
pub use session::{average_of_n, mean_of_n, Session, SessionEntry, Solve};
pub use solve_time::{Penalty, SolveTime};
pub use timer::{Action, ButtonType, KubiaTimer, Message, State};
