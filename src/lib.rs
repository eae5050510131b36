pub mod block;
pub mod emulator;
pub mod opcode;
pub mod parser;
pub mod util;
pub mod word;
