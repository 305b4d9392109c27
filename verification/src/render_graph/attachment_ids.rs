//! Identifiers of the standard attachments.
use vstd::prelude::*;
use crate::render_graph::AttachmentId;

verus! {

#[allow(non_snake_case)]
pub fn HDR_COLOR() -> (id: AttachmentId)
    ensures
        id == AttachmentId(0),
{
    AttachmentId(0)
}

#[allow(non_snake_case)]
pub fn DEPTH() -> (id: AttachmentId)
    ensures
        id == AttachmentId(1),
{
    AttachmentId(1)
}

#[allow(non_snake_case)]
pub fn SHADOW_MAP() -> (id: AttachmentId)
    ensures
        id == AttachmentId(2),
{
    AttachmentId(2)
}

} // verus!
