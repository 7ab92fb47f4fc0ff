//! Kinds of projectiles.
use vstd::prelude::*;

verus! {

/// The kinds of projectile a player can throw.
#[derive(Debug, Clone, Copy, PartialEq, Eq)]
pub enum ProjectileType {
    Ball,
}

} // verus!
