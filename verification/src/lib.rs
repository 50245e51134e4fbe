//! Exports the grades of a course to a CSV table: students as rows,
//! assignments as columns.

pub mod text;
pub mod fetcher;
pub mod sorting;
pub mod submissions;
pub mod csv_writer;
pub mod course_admin;
pub mod export;
