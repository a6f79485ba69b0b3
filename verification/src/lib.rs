//! Integer and enumeration logic of an emergent market-economy simulation:
//! commodity tiers, the season cycle, terrain passability and coast
//! detection, caravan bookkeeping, merchant price memory, navigation and
//! bankruptcy counters, crafting timers, gossip sampling, and the world tick
//! that orders them.
pub mod types;
pub mod caravan;
pub mod caravan_inputs;
pub mod merchant;
pub mod terrain;
pub mod world;
pub mod crafting;
pub mod hud;
pub mod config;
pub mod random;
pub mod gossip;
pub mod order_book;
pub mod economy;
pub mod resource_node;
pub mod bandit;
pub mod city;
pub mod tracker;
pub mod report;
pub mod attack;
pub mod cluster;
