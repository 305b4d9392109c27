//! Identifiers of the standard passes.
use vstd::prelude::*;
use crate::render_graph::PassId;

verus! {

#[allow(non_snake_case)]
pub fn SHADOW() -> (id: PassId)
    ensures
        id == PassId(0),
{
    PassId(0)
}

#[allow(non_snake_case)]
pub fn OPAQUE() -> (id: PassId)
    ensures
        id == PassId(1),
{
    PassId(1)
}

#[allow(non_snake_case)]
pub fn TRANSPARENT() -> (id: PassId)
    ensures
        id == PassId(2),
{
    PassId(2)
}

#[allow(non_snake_case)]
pub fn POST_PROCESS() -> (id: PassId)
    ensures
        id == PassId(3),
{
    PassId(3)
}

#[allow(non_snake_case)]
pub fn TONEMAP() -> (id: PassId)
    ensures
        id == PassId(4),
{
    PassId(4)
}

#[allow(non_snake_case)]
pub fn UI() -> (id: PassId)
    ensures
        id == PassId(5),
{
    PassId(5)
}

} // verus!
