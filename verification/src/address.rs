//! Where a node can be reached.

use crate::text;
use crate::text::number;
use vstd::prelude::*;

verus! {

/// An IP address and a port, held as the numbers they are made of.
#[allow(inconsistent_fields)]
#[derive(Clone, Copy, Debug, PartialEq, Eq, Hash)]
pub enum Address {
    V4 { ip: [u8; 4], port: u16 },
    V6 { ip: [u8; 16], port: u16, flowinfo: u32, scope_id: u32 },
}

/// A version 4 address in its canonical text form, e.g. `127.0.0.1:8000`.
pub open spec fn v4_text(ip: [u8; 4], port: u16) -> Seq<char> {
    text::number_text(ip[0] as nat) + "."@ + text::number_text(ip[1] as nat) + "."@
        + text::number_text(ip[2] as nat) + "."@ + text::number_text(ip[3] as nat) + ":"@
        + text::number_text(port as nat)
}

/// An address in its canonical text form, which is `v6` if it is a version 6
/// one.
pub open spec fn address_text(address: Address, v6: Seq<char>) -> Seq<char> {
    match address {
        Address::V4 { ip, port } => v4_text(ip, port),
        Address::V6 { .. } => v6,
    }
}

impl Address {
    /// The canonical text form of IP and port. How a version 6 address is
    /// abbreviated is not known here: its text form is given as `v6`, which is
    /// not looked at for a version 4 one.
    pub fn text(&self, v6: &str) -> (text: String)
        ensures
            text@ == address_text(*self, v6@),
    {
        match *self {
            Address::V4 { ip, port } => {
                let mut text: String = number(ip[0] as usize);
                text.append(".");
                text.append(number(ip[1] as usize).as_str());
                text.append(".");
                text.append(number(ip[2] as usize).as_str());
                text.append(".");
                text.append(number(ip[3] as usize).as_str());
                text.append(":");
                text.append(number(port as usize).as_str());
                text
            },
            Address::V6 { .. } => v6.to_owned(),
        }
    }

    /// The port, which both versions have.
    pub fn port(&self) -> (port: u16)
        ensures
            port == match *self {
                Address::V4 { port, .. } => port,
                Address::V6 { port, .. } => port,
            },
    {
        match *self {
            Address::V4 { port, .. } => port,
            Address::V6 { port, .. } => port,
        }
    }
}

/// No two version 4 addresses have the same text form, which is what makes
/// the ids of their nodes different: every part of the IP is in it, and the
/// port.
pub proof fn lemma_addresses_read_differently(
    ip: [u8; 4],
    port: u16,
    other_ip: [u8; 4],
    other_port: u16,
    v6: Seq<char>,
)
    requires
        address_text((Address::V4 { ip, port }), v6) == address_text(
            (Address::V4 { ip: other_ip, port: other_port }),
            v6,
        ),
    ensures
        ip == other_ip,
        port == other_port,
{
    reveal_strlit(".");
    reveal_strlit(":");
    let a = text::number_text(ip[0] as nat);
    let b = text::number_text(ip[1] as nat);
    let c = text::number_text(ip[2] as nat);
    let d = text::number_text(ip[3] as nat);
    let e = text::number_text(port as nat);
    let p = text::number_text(other_ip[0] as nat);
    let q = text::number_text(other_ip[1] as nat);
    let r = text::number_text(other_ip[2] as nat);
    let s = text::number_text(other_ip[3] as nat);
    let t = text::number_text(other_port as nat);
    lemma_parts(ip, port);
    lemma_parts(other_ip, other_port);
    text::lemma_numbers_are_told_apart(ip[0] as nat, other_ip[0] as nat, '.');
    text::lemma_numbers_are_told_apart(other_ip[0] as nat, ip[0] as nat, '.');
    text::lemma_a_mark_parts_a_text(
        a,
        p,
        b.push('.') + (c.push('.') + (d.push(':') + e)),
        q.push('.') + (r.push('.') + (s.push(':') + t)),
        '.',
    );
    text::lemma_numbers_are_told_apart(ip[1] as nat, other_ip[1] as nat, '.');
    text::lemma_numbers_are_told_apart(other_ip[1] as nat, ip[1] as nat, '.');
    text::lemma_a_mark_parts_a_text(
        b,
        q,
        c.push('.') + (d.push(':') + e),
        r.push('.') + (s.push(':') + t),
        '.',
    );
    text::lemma_numbers_are_told_apart(ip[2] as nat, other_ip[2] as nat, '.');
    text::lemma_numbers_are_told_apart(other_ip[2] as nat, ip[2] as nat, '.');
    text::lemma_a_mark_parts_a_text(c, r, d.push(':') + e, s.push(':') + t, '.');
    text::lemma_numbers_are_told_apart(ip[3] as nat, other_ip[3] as nat, ':');
    text::lemma_numbers_are_told_apart(other_ip[3] as nat, ip[3] as nat, ':');
    text::lemma_a_mark_parts_a_text(d, s, e, t, ':');
    text::lemma_numbers_are_told_apart(port as nat, other_port as nat, ':');
    assert(ip =~= other_ip);
}

/// The text form of a version 4 address is its four parts in decimal, dots
/// between them, and the port behind a colon; that of a version 6 one is what
/// was given for it.
pub proof fn lemma_an_address_is_written_out(address: Address, v6: Seq<char>)
    ensures
        match address {
            Address::V4 { ip, port } => address_text(address, v6) == text::number_text(
                ip[0] as nat,
            ) + seq!['.'] + text::number_text(ip[1] as nat) + seq!['.'] + text::number_text(
                ip[2] as nat,
            ) + seq!['.'] + text::number_text(ip[3] as nat) + seq![':'] + text::number_text(
                port as nat,
            ),
            Address::V6 { .. } => address_text(address, v6) == v6,
        },
{
    reveal_strlit(".");
    reveal_strlit(":");
    assert("."@ =~= seq!['.']);
    assert(":"@ =~= seq![':']);
}

/// The parts that the text form of an address is made of.
proof fn lemma_parts(ip: [u8; 4], port: u16)
    ensures
        v4_text(ip, port) == text::number_text(ip[0] as nat).push('.') + (text::number_text(
            ip[1] as nat,
        ).push('.') + (text::number_text(ip[2] as nat).push('.') + (text::number_text(
            ip[3] as nat,
        ).push(':') + text::number_text(port as nat)))),
{
    reveal_strlit(".");
    reveal_strlit(":");
    assert(v4_text(ip, port) =~= text::number_text(ip[0] as nat).push('.') + (text::number_text(
        ip[1] as nat,
    ).push('.') + (text::number_text(ip[2] as nat).push('.') + (text::number_text(
        ip[3] as nat,
    ).push(':') + text::number_text(port as nat)))));
}

} // verus!
