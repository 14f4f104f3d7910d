//! Helpers: binary search, and instrument names.
pub mod bisect;
pub mod misc_tools;

pub use bisect::{simple_bisect, simple_bisect_ord};
pub use misc_tools::{
    calc_precision, err_detail, fix_czce_inst, get_inst_month, get_tail_numbers, restore_czce_inst,
    set_cstr_from_str_truncate, trim_num_and_after,
};
