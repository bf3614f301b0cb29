use vstd::prelude::*;

verus! {

/// One saved link of the routing matrix.
#[derive(Clone, Debug)]
pub struct ConnectionConfig {
    pub input: String,
    pub output: String,
    pub muted: bool,
}

impl Default for ConnectionConfig {
    fn default() -> (c: Self)
        ensures
            c.input@ == Seq::<char>::empty(),
            c.output@ == Seq::<char>::empty(),
            !c.muted,
    {
        ConnectionConfig { input: String::new(), output: String::new(), muted: false }
    }
}

/// Direction of a virtual endpoint.
#[derive(Clone, Copy, Debug, PartialEq, Eq, Structural)]
pub enum EndpointType {
    /// Output to the system (users hear this).
    Playback,
    /// Input from the system (users speak into this).
    Recording,
}

/// A user-defined virtual endpoint.
#[derive(Clone, Debug)]
pub struct VirtualEndpointConfig {
    pub name: String,
    pub channels: u16,
    pub kind: EndpointType,
}


/// The "Add Virtual Endpoint" action: a non-empty name in the edit field
/// becomes a new endpoint at the end of the list and the field is emptied;
/// an empty name changes nothing.  Returns whether an endpoint was added.
pub fn add_virtual_endpoint(
    endpoints: &mut Vec<VirtualEndpointConfig>,
    name: &mut String,
    channels: u16,
    kind: EndpointType,
) -> (added: bool)
    ensures
        added == (old(name)@.len() > 0),
        added ==> final(endpoints)@ == old(endpoints)@.push(
            VirtualEndpointConfig { name: *old(name), channels, kind },
        ),
        added ==> final(name)@ == Seq::<char>::empty(),
        !added ==> final(endpoints)@ == old(endpoints)@ && *final(name) == *old(name),
{
    if name.as_str().unicode_len() == 0 {
        return false;
    }
    endpoints.push(VirtualEndpointConfig { name: name.clone(), channels, kind });
    *name = String::new();
    true
}

/// The "Remove" action on the endpoint at `index`.
pub fn remove_virtual_endpoint(endpoints: &mut Vec<VirtualEndpointConfig>, index: usize)
    requires
        index < old(endpoints)@.len(),
    ensures
        final(endpoints)@ == old(endpoints)@.remove(index as int),
{
    endpoints.remove(index);
}

} // verus!
