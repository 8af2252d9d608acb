//! The editor's extension-typed handles: opaque 64-bit identifiers for a
//! buffer, a window, or a tabpage, told apart by the wire extension tag
//! (buffer is tag 0, window is 1, tabpage is 2). A handle id of 0 is the
//! editor's sentinel value, not a null.

use vstd::prelude::*;

use crate::neovim::value::SpecValue;
use crate::neovim::codec::spec_decode;
use crate::neovim::msgpack::{HostValue, SpecHost, spec_host_of};

verus! {

/// A handle to one editor window.
pub struct Window(pub i64);

/// A handle to one editor buffer.
pub struct Buffer(pub i64);

/// A handle to one editor tabpage.
pub struct Tabpage(pub i64);

/// An integer folded into the signed 64-bit range, as a handle id is: values
/// above the signed maximum came from the unsigned form and wrap.
pub open spec fn wrap_i64(i: int) -> int {
    if i <= 0x7fff_ffff_ffff_ffff {
        i
    } else {
        i - 0x1_0000_0000_0000_0000
    }
}

/// The host value a wire extension denotes: for the three protocol tags the
/// payload holds a nested encoded integer, the handle id; any other tag, and
/// any payload that does not decode to an integer, surfaces as nil (the
/// dispatcher logs it).
pub open spec fn spec_ext_to_host(t: int, payload: Seq<u8>) -> SpecHost {
    if t == 0 || t == 1 || t == 2 {
        match spec_decode(payload) {
            Some((SpecValue::Int(id), _)) => if t == 0 {
                SpecHost::Buffer(wrap_i64(id))
            } else if t == 1 {
                SpecHost::Window(wrap_i64(id))
            } else {
                SpecHost::Tabpage(wrap_i64(id))
            },
            _ => SpecHost::Nil,
        }
    } else {
        SpecHost::Nil
    }
}

/// Projects one wire extension value into the host: decodes the payload as
/// the handle id and wraps it in the handle object the tag names.
pub fn rmpv_ext_to_godot(t: i8, data: &Vec<u8>) -> (r: HostValue)
    ensures
        spec_host_of(r) == spec_ext_to_host(t as int, data@),
{
    if t == 0 || t == 1 || t == 2 {
        match crate::neovim::codec::decode(data.as_slice()) {
            Ok((v, _used)) => {
                let id: i64 = match v {
                    crate::neovim::value::TaggedValue::Int(i) => i,
                    crate::neovim::value::TaggedValue::UInt(u) => {
                        if u <= 0x7fff_ffff_ffff_ffffu64 {
                            u as i64
                        } else {
                            let mag = u - 0x8000_0000_0000_0000;
                            proof {
                                assert(wrap_i64(u as int) == mag - 0x8000_0000_0000_0000);
                            }
                            (-0x7fff_ffff_ffff_ffff - 1) + mag as i64
                        }
                    },
                    _ => {
                        return HostValue::Nil;
                    },
                };
                if t == 0 {
                    HostValue::BufferHandle(Buffer(id))
                } else if t == 1 {
                    HostValue::WindowHandle(Window(id))
                } else {
                    HostValue::TabpageHandle(Tabpage(id))
                }
            },
            Err(_) => HostValue::Nil,
        }
    } else {
        HostValue::Nil
    }
}

} // verus!
