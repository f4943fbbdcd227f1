//! The port registry's policy: of the ports the host lists, only USB ones
//! are offered to callers.
use vstd::prelude::*;
use crate::link::LinkError;

verus! {

/// The kind of a serial endpoint, as the host reports it.
#[derive(PartialEq, Eq, Structural, Clone, Copy, Debug)]
pub enum PortKind {
    Usb,
    Pci,
    Bluetooth,
    Unknown,
}

/// A port as the host lists it.
#[derive(Clone, Debug)]
pub struct PortEntry {
    pub name: String,
    pub kind: PortKind,
}

/// The names of the USB ports among `ports`, in order.
pub open spec fn usb_names(ports: Seq<PortEntry>) -> Seq<Seq<char>>
    decreases ports.len(),
{
    if ports.len() == 0 {
        Seq::empty()
    } else if ports.last().kind == PortKind::Usb {
        usb_names(ports.drop_last()).push(ports.last().name@)
    } else {
        usb_names(ports.drop_last())
    }
}

/// The names of the USB ports of a listing, or `Enumeration` with the
/// failure's text when the host could not list them. Never a partial list.
pub fn list_serial_ports(enumerated: Result<Vec<PortEntry>, String>) -> (r: Result<Vec<String>, LinkError>)
    ensures
        enumerated matches Err(c) ==> r == Err::<Vec<String>, LinkError>(LinkError::Enumeration(c)),
        enumerated matches Ok(ps) ==> (r matches Ok(names) && names@.map_values(|s: String| s@)
            == usb_names(ps@)),
{
    match enumerated {
        Err(cause) => Err(LinkError::Enumeration(cause)),
        Ok(ports) => {
            let mut names: Vec<String> = Vec::new();
            let mut i: usize = 0;
            while i < ports.len()
                invariant
                    i <= ports@.len(),
                    names@.map_values(|s: String| s@) == usb_names(ports@.take(i as int)),
                decreases ports@.len() - i,
            {
                assert(ports@.take(i + 1).drop_last() =~= ports@.take(i as int));
                assert(ports@.take(i + 1).last() == ports@[i as int]);
                if ports[i].kind == PortKind::Usb {
                    names.push(ports[i].name.clone());
                }
                i += 1;
                assert(names@.map_values(|s: String| s@) =~= usb_names(ports@.take(i as int)));
            }
            assert(ports@.take(i as int) =~= ports@);
            Ok(names)
        },
    }
}

} // verus!
