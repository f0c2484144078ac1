pub mod text;
pub mod process;
pub mod util;
pub mod test_params;
