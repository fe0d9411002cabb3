pub mod chars;
pub mod context;
pub mod entities;
pub mod errors;
pub mod game;
pub mod hud;
pub mod input;
pub mod level;
pub mod maps;
pub mod player;
pub mod seqs;
pub mod shaders;
pub mod slab;
pub mod system;
pub mod text;
pub mod tick;
pub mod transforms;
pub mod type_list;
pub mod wad_system;
pub mod window;
pub mod world;
