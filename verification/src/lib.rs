//! Game-data randomization logic for Digimon World 3: packed archive
//! parsing and building, the byte layouts of the game's records, preset
//! types, the disc image project and layout log, the item boxes of maps,
//! and the randomizers for shops, auctions, the card game, parties,
//! encounters, enemy scaling, maps and the Mobius Desert.

pub mod rng;
pub mod scaling;
pub mod shops;
pub mod archipelago;
pub mod auctions;
pub mod card_game;
pub mod cli;
pub mod clock;
pub mod consts;
pub mod db;
pub mod encounters;
pub mod entities;
pub mod fixes;
pub mod item_boxes;
pub mod json;
pub mod lang;
pub mod lba;
pub mod maps;
pub mod mkpsxiso;
pub mod mobius;
pub mod pack;
pub mod records;
pub mod parties;
pub mod randomize;
pub mod structs;
pub mod text;
pub mod util;
