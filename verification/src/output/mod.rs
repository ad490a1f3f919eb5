pub mod human;
pub mod icons;
pub mod json;
pub mod mode;
pub mod plain;
pub mod table;
