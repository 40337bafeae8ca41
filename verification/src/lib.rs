//! Monthly service reports from calendar events: summary parsing, splitting
//! of events by day, grouping by client, report layout and rate tables.

pub mod text;
pub mod summary;
pub mod civil;
pub mod settings;
pub mod zone;
pub mod event;
pub mod segments;
pub mod layout;
pub mod rows;
pub mod order;
pub mod rates;
pub mod rate_page;
pub mod month;
pub mod report;
pub mod totals;
