pub mod text;
pub mod sorting;
pub mod scanner;
pub mod simple_scanner;
pub mod output;
pub mod outfile;
pub mod input_port_data;
