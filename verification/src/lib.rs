pub mod chars;
pub mod content;
pub mod fonts;
pub mod name_map;
pub mod numeral;
pub mod pages;
pub mod pdf;
pub mod src_loc;
pub mod tokenizer;
pub mod viewer;
pub mod names;
