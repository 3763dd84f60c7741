//! Screen logic: the game screen, and the layout and hit-testing of the menus.
pub mod game;
pub mod settings;
pub mod menu;
