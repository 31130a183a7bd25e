//! A television station's scheduling core.

pub mod airtime;
pub mod apart;
pub mod arrange;
pub mod asked;
pub mod blocks;
pub mod catalog;
pub mod channel;
pub mod config;
pub mod constrain;
pub mod continuity;
pub mod datastore;
pub mod draw;
pub mod drawing;
pub mod engine;
pub mod fault;
pub mod gathered;
pub mod generate;
pub mod handed;
pub mod history;
pub mod identity;
pub mod item;
pub mod kept;
pub mod lengths;
pub mod modelled;
pub mod names;
pub mod orders;
pub mod overlay_supervisor;
pub mod overlay_timeline;
pub mod paths;
pub mod pattern;
pub mod playout;
pub mod pool;
pub mod profile;
pub mod progress;
pub mod rank;
pub mod reconcile;
pub mod report;
pub mod resolutions;
pub mod resolve;
pub mod resume;
pub mod roll;
pub mod rows;
pub mod rule;
pub mod ruled;
pub mod scan;
pub mod score;
pub mod script;
pub mod sequence;
pub mod shown;
pub mod sources;
pub mod tastes;
pub mod tautulli;
pub mod text;
pub mod timed;
pub mod watched;
pub mod whole;
pub mod window;
