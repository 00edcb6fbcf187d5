//! Game rules of the Rogue Swarm arcade server and client: who of the connected
//! clients steers the carrier, the spatial hash that finds a nanobot's neighbours,
//! what contacts between swarm, aliens, asteroids and carrier do to the score,
//! and the status texts that the spectating clients show.
pub mod contacts;
pub mod hud;
pub mod lobby;
pub mod spatial_hash;

