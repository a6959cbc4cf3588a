pub mod convertions;
pub mod random_access_file;
