use vstd::prelude::*;

verus! {

/// First port the playground preview server tries to bind.
pub const FIRST_PORT: u16 = 8000;

/// One past the last port the preview server tries.
pub const PORT_LIMIT: u16 = 12000;

/// Pick the port the preview server should bind: the first candidate in
/// `FIRST_PORT..PORT_LIMIT` whose probe reported it free. The caller
/// probes the candidates in order and hands over one flag per port, with
/// `available[i]` standing for port `FIRST_PORT + i`.
pub fn get_available_port(available: &Vec<bool>) -> (r: Option<u16>)
    requires
        available@.len() == PORT_LIMIT - FIRST_PORT,
    ensures
        match r {
            Some(p) => FIRST_PORT <= p < PORT_LIMIT && available@[p - FIRST_PORT] && (forall|
                q: int,
            | 0 <= q < p - FIRST_PORT ==> !(#[trigger] available@[q])),
            None => forall|q: int| 0 <= q < available@.len() ==> !(#[trigger] available@[q]),
        },
{
    let mut i: usize = 0;
    while i < available.len()
        invariant
            i <= available@.len(),
            available@.len() == PORT_LIMIT - FIRST_PORT,
            forall|q: int| 0 <= q < i ==> !(#[trigger] available@[q]),
        decreases available@.len() - i,
    {
        if available[i] {
            return Some(FIRST_PORT + (i as u16));
        }
        i = i + 1;
    }
    None
}

} // verus!
