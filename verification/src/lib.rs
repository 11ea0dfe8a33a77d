pub mod autonomy;
pub mod drone;
pub mod environment;
pub mod geometry;
pub mod gossip;
pub mod grid;
pub mod mesh;
pub mod network;
pub mod pathing;
pub mod quadtree;
pub mod quadtree_laws;
pub mod simulation;
pub mod single;
pub mod sorting;
pub mod study;
pub mod view;
pub mod wire;
