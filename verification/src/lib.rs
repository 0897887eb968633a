use vstd::prelude::*;

pub mod date;
pub mod text;
pub mod hotkey;
pub mod store;
pub mod tags;
pub mod people;
pub mod card;
pub mod calendar;
pub mod settings;
pub mod protocol;
pub mod resident;
pub mod form;
pub mod list;
pub mod backup;
pub mod icon;
