pub mod cursors;
