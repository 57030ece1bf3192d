//! Wait points: safe holding spots handed out to robots while they wait.

pub mod wait_points;
