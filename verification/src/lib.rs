//! Listing and repair of decompiled ARM programs.
//!
//! * `illegal_code` spots instruction sequences that no real program holds.
//! * `functions` writes the assembly listing of one function. `listing` says what
//!   a listing is. What holds of all of them is in `listing_laws` for their order,
//!   in `coverage_laws` for the bytes that they are for, in `item_laws` for each of
//!   their items, in `entry_laws` for jump tables, in `layout_laws` for how they are
//!   written, in `problem_laws` for why they end early, and in `module_laws` for the
//!   module around the function.
//! * `find_exceptix` names the exception table of a program. `exception_laws` and
//!   `run_laws` say what holds of that.
//!
//! `symbols` is what is known of addresses, `program` how symbols are divided
//! among modules, `decoder` what is asked of the instruction decoder, and `text`
//! how numbers are written. `symbol_laws` and `text_laws` say what holds of symbols
//! and of numbers.

pub mod coverage_laws;
pub mod decoder;
pub mod entry_laws;
pub mod exception_laws;
pub mod find_exceptix;
pub mod functions;
pub mod illegal_code;
pub mod item_laws;
pub mod layout_laws;
pub mod listing;
pub mod listing_laws;
pub mod module_laws;
pub mod problem_laws;
pub mod program;
pub mod run_laws;
pub mod symbol_laws;
pub mod symbols;
pub mod text;
pub mod text_laws;
