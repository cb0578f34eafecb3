pub mod trusted;
pub mod text;
pub mod action;
pub mod config;
pub mod page;
pub mod button;
pub mod deck;
pub mod deck_streamdeck;
pub mod deck_minifb;
pub mod terminal;
pub mod many_cord_pass;
