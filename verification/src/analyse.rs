pub mod shortest;
