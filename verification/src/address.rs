//! Addresses of the direct P2P path.
//!
//! `quic://host:port` stands for QUIC, anything else for TCP.
use vstd::prelude::*;
use vstd::string::{StrSliceExecFns, StringExecFns};

verus! {

/// Whether a text starts with a prefix.
pub open spec fn has_prefix(text: Seq<char>, prefix: Seq<char>) -> bool {
    prefix.len() <= text.len() && text.take(prefix.len() as int) == prefix
}

/// Whether a P2P address asks for QUIC.
pub open spec fn asks_for_quic(addr: Seq<char>) -> bool {
    has_prefix(addr, "quic://"@)
}

/// An address without the mark for QUIC.
pub open spec fn without_quic(addr: Seq<char>) -> Seq<char> {
    if asks_for_quic(addr) {
        addr.skip("quic://"@.len() as int)
    } else {
        addr
    }
}

/// Whether a P2P address asks for QUIC.
pub fn is_quic(addr: &str) -> (quic: bool)
    ensures
        quic == asks_for_quic(addr@),
{
    let prefix = "quic://";
    let n: usize = prefix.unicode_len();
    if addr.unicode_len() < n {
        return false;
    }
    let mut i: usize = 0;
    while i < n
        invariant
            i <= n == prefix@.len() <= addr@.len(),
            forall|j: int| 0 <= j < i ==> addr@[j] == prefix@[j],
            prefix@ == "quic://"@,
        decreases n - i,
    {
        if addr.get_char(i) != prefix.get_char(i) {
            proof {
                assert(addr@.take(n as int)[i as int] != prefix@[i as int]);
            }
            return false;
        }
        i = i + 1;
    }
    proof {
        assert(addr@.take(n as int) =~= prefix@);
    }
    true
}

/// The address to connect or bind to, without the mark for QUIC.
pub fn socket_part(addr: &str) -> (part: &str)
    ensures
        part@ == without_quic(addr@),
{
    if is_quic(addr) {
        let part = addr.substring_char("quic://".unicode_len(), addr.unicode_len());
        proof {
            assert(part@ =~= without_quic(addr@));
        }
        part
    } else {
        addr
    }
}

/// The address that a listener asked to listen on `asked` and bound to `local`
/// advertises.
pub open spec fn advertised_as(asked: Seq<char>, local: Seq<char>) -> Seq<char> {
    if asks_for_quic(asked) {
        "quic://"@ + local
    } else {
        local
    }
}

/// The address to advertise for a listener that was asked to listen on `asked`
/// and is bound to `local`: marked for QUIC if it was asked for QUIC.
pub fn advertised(asked: &str, local: &str) -> (addr: String)
    ensures
        addr@ == (if asks_for_quic(asked@) {
            "quic://"@ + local@
        } else {
            local@
        }),
        addr@ == advertised_as(asked@, local@),
{
    if is_quic(asked) {
        let mut addr = String::from_str("quic://");
        addr.append(local);
        addr
    } else {
        String::from_str(local)
    }
}

/// Where a receiver listens for a direct link: nowhere if P2P is off, otherwise
/// on the given address or, by default, on an ephemeral local port; over QUIC
/// if asked for.
pub open spec fn listens_on(no_p2p: bool, listen: Option<Seq<char>>, quic: bool) -> Option<
    Seq<char>,
> {
    if no_p2p {
        None
    } else {
        match (listen, quic) {
            (Some(addr), true) => Some("quic://"@ + addr),
            (Some(addr), false) => Some(addr),
            (None, true) => Some("quic://127.0.0.1:0"@),
            (None, false) => Some("127.0.0.1:0"@),
        }
    }
}

/// Where a receiver listens for a direct link.
pub fn listen_address(no_p2p: bool, listen: Option<String>, quic: bool) -> (addr: Option<String>)
    ensures
        match addr {
            Some(a) => listens_on(
                no_p2p,
                (match listen {
                    Some(l) => Some(l@),
                    None => None,
                }),
                quic,
            ) == Some(a@),
            None => no_p2p,
        },
{
    if no_p2p {
        return None;
    }
    match listen {
        Some(addr) => if quic {
            let mut marked = String::from_str("quic://");
            marked.append(addr.as_str());
            Some(marked)
        } else {
            Some(addr)
        },
        None => if quic {
            Some(String::from_str("quic://127.0.0.1:0"))
        } else {
            Some(String::from_str("127.0.0.1:0"))
        },
    }
}

/// The peer of an advertised address picks the transport that the listener was
/// asked for, and connects to where it is bound.
pub proof fn law_advertised_address_leads_back(asked: Seq<char>, local: Seq<char>)
    requires
        !asks_for_quic(local),
    ensures
        ({
            let addr = if asks_for_quic(asked) {
                "quic://"@ + local
            } else {
                local
            };
            asks_for_quic(addr) == asks_for_quic(asked) && without_quic(addr) == local
        }),
{
    let marked = "quic://"@ + local;
    assert(marked.take("quic://"@.len() as int) =~= "quic://"@);
    assert(marked.skip("quic://"@.len() as int) =~= local);
}

} // verus!
