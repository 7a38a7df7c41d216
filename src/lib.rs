//! Keeps one running task per factory: the slot bookkeeping of a supervisor
//! that respawns each task from its own factory when it completes.

pub mod remap;

pub mod supervisor;
