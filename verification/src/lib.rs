pub mod clock;
pub mod codec;
pub mod model;
pub mod timer;

pub use codec::{parse, serialize, ParsedTiming};
pub use timer::{OpenScope, OpenTimer, OpenTimerModel, TimerError, TimerTree, Timing, TimingModel};
