//! Where to shoot next in a game of battleships.
//!
//! [`brain`] scores every cell of a board by the number of placements of the ships
//! still afloat that cover it and agree with what has been observed; [`battlemap`]
//! holds the simpler overlap of the whole fleet with each cell of an untouched board;
//! [`inputs`] reads the settings of a game from text. The other modules hold what the
//! scores mean ([`placement`], [`components`], [`neighborhood`], [`matrix`]) and what
//! holds of them on every board ([`laws`]).

pub mod battlemap;
pub mod brain;
pub mod components;
pub mod inputs;
pub mod laws;
pub mod matrix;
pub mod neighborhood;
pub mod placement;
