//! Extraction of a weekly class timetable from the HTML page that a school
//! scheduling tool publishes.
pub mod html;
pub mod text;
pub mod schedule;
pub mod extract;
pub mod catalog;
