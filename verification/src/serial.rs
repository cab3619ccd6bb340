//! The serial ports offered for flashing.

use vstd::prelude::*;
use crate::text::{chars_of, contains_exec, contains_seq};

verus! {

/// The kind of a serial port.
#[derive(Debug, Clone, Copy, PartialEq, Eq, Structural)]
pub enum PortKind {
    Usb,
    Pci,
    Bluetooth,
    Unknown,
}

pub open spec fn kind_label(k: PortKind) -> Seq<char> {
    match k {
        PortKind::Usb => "USB"@,
        PortKind::Pci => "PCI"@,
        PortKind::Bluetooth => "Bluetooth"@,
        PortKind::Unknown => "Unknown"@,
    }
}

/// A serial port as the system lists it.
#[derive(Debug, Clone)]
pub struct ListedPort {
    pub name: String,
    pub kind: PortKind,
}

/// A serial port as shown to the user.
#[derive(Debug, Clone)]
pub struct SerialPortInfo {
    pub port_name: String,
    pub port_type: String,
}

/// macOS lists each USB serial device twice, as `/dev/tty.*` and
/// `/dev/cu.*`; only the `cu.*` one is kept there.
pub open spec fn port_shown(name: Seq<char>, macos: bool) -> bool {
    !(macos && contains_seq(name, "/tty."@))
}

/// The ports shown, in order, with their kinds as labels.
pub open spec fn shown_ports(ports: Seq<(Seq<char>, PortKind)>, macos: bool) -> Seq<
    (Seq<char>, Seq<char>),
>
    decreases ports.len(),
{
    if ports.len() == 0 {
        Seq::empty()
    } else {
        shown_ports(ports.drop_last(), macos) + if port_shown(ports.last().0, macos) {
            seq![(ports.last().0, kind_label(ports.last().1))]
        } else {
            Seq::empty()
        }
    }
}

pub open spec fn port_views(ports: Seq<ListedPort>) -> Seq<(Seq<char>, PortKind)> {
    ports.map_values(|p: ListedPort| (p.name@, p.kind))
}

pub open spec fn info_views(infos: Seq<SerialPortInfo>) -> Seq<(Seq<char>, Seq<char>)> {
    infos.map_values(|i: SerialPortInfo| (i.port_name@, i.port_type@))
}

pub fn port_label(k: PortKind) -> (r: String)
    ensures
        r@ == kind_label(k),
{
    match k {
        PortKind::Usb => String::from_str("USB"),
        PortKind::Pci => String::from_str("PCI"),
        PortKind::Bluetooth => String::from_str("Bluetooth"),
        PortKind::Unknown => String::from_str("Unknown"),
    }
}

/// The serial ports to offer: the listed ones, on macOS without the
/// `/dev/tty.*` duplicates, labelled by kind.
pub fn serial_ports(ports: &Vec<ListedPort>, macos: bool) -> (r: Vec<SerialPortInfo>)
    ensures
        info_views(r@) == shown_ports(port_views(ports@), macos),
{
    let ghost pv = port_views(ports@);
    let tty = chars_of("/tty.");
    let mut out: Vec<SerialPortInfo> = Vec::new();
    let mut i: usize = 0;
    while i < ports.len()
        invariant
            i <= ports.len(),
            pv == port_views(ports@),
            tty@ == "/tty."@,
            info_views(out@) == shown_ports(pv.subrange(0, i as int), macos),
        decreases ports.len() - i,
    {
        let name = ports[i].name.clone();
        let kind = ports[i].kind;
        let ghost prefix = pv.subrange(0, (i + 1) as int);
        assert(prefix.drop_last() =~= pv.subrange(0, i as int));
        assert(prefix.last() == (ports@[i as int].name@, ports@[i as int].kind));
        let shown = !(macos && contains_exec(&chars_of(name.as_str()), &tty));
        if shown {
            let ghost prev = info_views(out@);
            let label = port_label(kind);
            out.push(SerialPortInfo { port_name: name, port_type: label });
            assert(info_views(out@) =~= prev.push(
                (ports@[i as int].name@, kind_label(ports@[i as int].kind)),
            ));
        } else {
            assert(shown_ports(prefix, macos) =~= shown_ports(pv.subrange(0, i as int), macos));
        }
        i = i + 1;
    }
    assert(pv.subrange(0, i as int) =~= pv);
    out
}

} // verus!
