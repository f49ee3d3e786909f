//! Capability traits tying host-side types to the registry's small
//! integer identifiers. The host implements them once per object or
//! field-variant type; the core only ever sees the identifiers.

use vstd::prelude::*;

verus! {

/// An entity (object) type with a registered object kind.
pub trait RpcObject {
    /// The object-kind identifier recorded by a Spawn command.
    fn rpc_object_type() -> u32;
}

/// A field/variant type with a registered variant kind.
pub trait RpcVariant {
    /// The variant-kind identifier carried by an Update command.
    fn rpc_variant_type() -> u32;
}

} // verus!
