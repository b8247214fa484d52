//! The actions a game offers, read from the game at each step.

use vstd::prelude::*;

verus! {

#[derive(Debug, Clone)]
pub struct ArcActionSpace {
    pub actions: Vec<ArcAction>,
}

#[derive(Debug, Clone)]
pub enum ArcAction {
    Simple { id: u8 },
    Spatial { id: u8, x_min: u8, x_max: u8, y_min: u8, y_max: u8 },
}

#[derive(Debug, Clone)]
pub struct SelectedAction {
    pub action_id: u8,
    pub x: Option<u8>,
    pub y: Option<u8>,
    pub hypothesis_id: String,
}

} // verus!
