pub mod semantic_string;
pub mod order_laws;
pub mod char_iter;
pub mod set_range;
pub mod interleave;
