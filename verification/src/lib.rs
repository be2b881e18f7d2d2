pub mod text;
pub mod encoding;
pub mod country_display;
pub mod leagues;
pub mod world_edit;
pub mod league_save;
pub mod world_save;
pub mod league_dialogs;
pub mod teams;
pub mod world_load;
pub mod save_laws;
pub mod rosters;
