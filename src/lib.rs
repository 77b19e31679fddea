//! Attendance log: punches in, work sessions and monthly totals out.
pub mod model;
pub mod builder;
pub mod aggregate;
pub mod logline;
pub mod text;
