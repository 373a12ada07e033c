//! Concrete rule sets plugged into the engine.

pub mod blind_rounds;
pub mod guess;
pub mod rock_paper_scissors;
pub mod twisted_rock_paper_scissors;

pub use blind_rounds::BlindRounds;
pub use guess::Guess;
pub use rock_paper_scissors::RockPaperScissors;
pub use twisted_rock_paper_scissors::TwistedRockPaperScissors;
