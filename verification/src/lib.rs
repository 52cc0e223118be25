//! Aurora launcher core: the rules, parsers and state machines behind the
//! mod manager, the updater, the add-on and script managers and the
//! GameBanana browser, each with its specification and proof.
pub mod text;
pub mod characters;
pub mod filenames;
pub mod updater;
pub mod lua;
pub mod oneclick;
pub mod translations;
pub mod logwindow;
pub mod settings_page;
pub mod bridge;
pub mod desktop_entry;
pub mod iconpack;
pub mod idset;
pub mod ordering;
pub mod modmanager;
pub mod screenshots;
pub mod duplicates;
pub mod gbbrowser;
pub mod addons;
pub mod theme;
pub mod imaging;
pub mod modules;
pub mod wallpaper;
pub mod handlers;
pub mod settings;
pub mod modicons;
