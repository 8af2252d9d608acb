//! The wire codec: serialization of a `TaggedValue` tree to the binary
//! self-describing message format and back. Every value is type-tagged and
//! length-prefixed; the encoder emits the shortest form, the decoder accepts
//! every form. `lemma_decode_encode` proves the round trip.

use vstd::prelude::*;
use vstd::utf8::{encode_utf8, decode_utf8, valid_utf8};
use vstd::slice::{slice_subrange, slice_to_vec};

use crate::neovim::value::{
    SpecValue, TaggedValue, spec_value_of, spec_values_of, spec_pairs_of, lemma_spec_values_of,
    lemma_spec_pairs_of, lemma_wf_values, lemma_wf_pairs, lemma_values_of_push, lemma_pairs_of_push,
};

verus! {

broadcast use vstd::std_specs::vec::axiom_vec_index_decreases, vstd::std_specs::vec::axiom_vec_decreases_to_view;

/// 256 to the power `w`: the number of values a big-endian field of `w` bytes
/// can hold.
pub open spec fn pow256(w: nat) -> int
    decreases w,
{
    if w == 0 {
        1
    } else {
        256 * pow256((w - 1) as nat)
    }
}

/// The big-endian bytes of `n mod pow256(w)`, exactly `w` bytes wide.
pub open spec fn be_bytes(n: int, w: nat) -> Seq<u8>
    decreases w,
{
    if w == 0 {
        Seq::empty()
    } else {
        be_bytes(n / 256, (w - 1) as nat) + seq![(n % 256) as u8]
    }
}

/// The unsigned integer a big-endian byte sequence denotes.
pub open spec fn be_val(b: Seq<u8>) -> int
    decreases b.len(),
{
    if b.len() == 0 {
        0
    } else {
        be_val(b.drop_last()) * 256 + b.last()
    }
}

pub proof fn lemma_pow256_pos(w: nat)
    ensures
        pow256(w) >= 1,
    decreases w,
{
    if w > 0 {
        lemma_pow256_pos((w - 1) as nat);
    }
}

pub proof fn lemma_be_bytes_len(n: int, w: nat)
    ensures
        be_bytes(n, w).len() == w,
    decreases w,
{
    if w > 0 {
        lemma_be_bytes_len(n / 256, (w - 1) as nat);
    }
}

/// Writing `w` big-endian bytes of an integer in range and reading them back
/// yields the integer.
pub proof fn lemma_be_round_trip(n: int, w: nat)
    requires
        0 <= n < pow256(w),
    ensures
        be_val(be_bytes(n, w)) == n,
    decreases w,
{
    if w > 0 {
        let rest = be_bytes(n / 256, (w - 1) as nat);
        lemma_be_bytes_len(n / 256, (w - 1) as nat);
        assert((rest + seq![(n % 256) as u8]).drop_last() =~= rest);
        lemma_pow256_pos((w - 1) as nat);
        lemma_be_round_trip(n / 256, (w - 1) as nat);
    }
}

/// Reads `w` big-endian bytes starting at `at`; the result is below
/// `pow256(w)`.
fn read_be(b: &[u8], at: usize, w: usize) -> (r: u64)
    requires
        w <= 8,
        at + w <= b@.len(),
    ensures
        r == be_val(b@.subrange(at as int, at as int + w as int)),
        r < pow256(w as nat),
{
    let blen = b.len();
    let mut acc: u64 = 0;
    let mut i: usize = 0;
    proof {
        assert(b@.subrange(at as int, at as int) =~= Seq::<u8>::empty());
        lemma_pow256_bound(w as nat);
    }
    while i < w
        invariant
            i <= w <= 8,
            at + w <= blen == b@.len(),
            acc == be_val(b@.subrange(at as int, at as int + i as int)),
            acc < pow256(i as nat),
            pow256(w as nat) <= 0x1_0000_0000_0000_0000,
        decreases w - i,
    {
        let byte = *vstd::slice::slice_index_get(b, at + i);
        proof {
            let pre = b@.subrange(at as int, at as int + i as int);
            let post = b@.subrange(at as int, at as int + i as int + 1);
            assert(post.drop_last() =~= pre);
            assert(post.last() == b@[at as int + i as int]);
            lemma_pow256_mono((i + 1) as nat, w as nat);
            lemma_pow256_pos(i as nat);
            assert(pow256((i + 1) as nat) == 256 * pow256(i as nat));
        }
        acc = acc * 256 + byte as u64;
        i = i + 1;
    }
    acc
}

proof fn lemma_pow256_bound(w: nat)
    requires
        w <= 8,
    ensures
        pow256(w) <= 0x1_0000_0000_0000_0000,
{
    reveal_with_fuel(pow256, 9);
}

/// `pow256` is monotone.
proof fn lemma_pow256_mono(a: nat, b: nat)
    requires
        a <= b,
    ensures
        pow256(a) <= pow256(b),
    decreases b,
{
    if a < b {
        lemma_pow256_pos(a);
        lemma_pow256_mono(a, (b - 1) as nat);
    }
}

/// The shortest wire form of an integer: positive and negative fixint, then
/// the unsigned forms for nonnegative values and the signed forms below zero,
/// two's complement within each width.
pub open spec fn spec_encode_int(i: int) -> Seq<u8> {
    if 0 <= i < 0x80 {
        seq![i as u8]
    } else if -0x20 <= i < 0 {
        seq![(i + 0x100) as u8]
    } else if 0 <= i < 0x100 {
        seq![0xccu8] + be_bytes(i, 1)
    } else if 0 <= i < 0x10000 {
        seq![0xcdu8] + be_bytes(i, 2)
    } else if 0 <= i < 0x1_0000_0000 {
        seq![0xceu8] + be_bytes(i, 4)
    } else if 0 <= i {
        seq![0xcfu8] + be_bytes(i, 8)
    } else if -0x80 <= i {
        seq![0xd0u8] + be_bytes(i + 0x100, 1)
    } else if -0x8000 <= i {
        seq![0xd1u8] + be_bytes(i + 0x10000, 2)
    } else if -0x8000_0000 <= i {
        seq![0xd2u8] + be_bytes(i + 0x1_0000_0000, 4)
    } else {
        seq![0xd3u8] + be_bytes(i + 0x1_0000_0000_0000_0000, 8)
    }
}

/// The header before the UTF-8 bytes of a string of `n` bytes.
pub open spec fn spec_str_header(n: int) -> Seq<u8> {
    if n < 0x20 {
        seq![(0xa0 + n) as u8]
    } else if n < 0x100 {
        seq![0xd9u8] + be_bytes(n, 1)
    } else if n < 0x10000 {
        seq![0xdau8] + be_bytes(n, 2)
    } else {
        seq![0xdbu8] + be_bytes(n, 4)
    }
}

/// The header before the raw bytes of a binary blob of `n` bytes.
pub open spec fn spec_bin_header(n: int) -> Seq<u8> {
    if n < 0x100 {
        seq![0xc4u8] + be_bytes(n, 1)
    } else if n < 0x10000 {
        seq![0xc5u8] + be_bytes(n, 2)
    } else {
        seq![0xc6u8] + be_bytes(n, 4)
    }
}

/// The header before the `n` encoded elements of an array.
pub open spec fn spec_array_header(n: int) -> Seq<u8> {
    if n < 0x10 {
        seq![(0x90 + n) as u8]
    } else if n < 0x10000 {
        seq![0xdcu8] + be_bytes(n, 2)
    } else {
        seq![0xddu8] + be_bytes(n, 4)
    }
}

/// The header before the `n` encoded key-value pairs of a map.
pub open spec fn spec_map_header(n: int) -> Seq<u8> {
    if n < 0x10 {
        seq![(0x80 + n) as u8]
    } else if n < 0x10000 {
        seq![0xdeu8] + be_bytes(n, 2)
    } else {
        seq![0xdfu8] + be_bytes(n, 4)
    }
}

/// The header before the `n` payload bytes of an extension value of type
/// `t` (a signed byte, stored in two's complement): the fixed-width forms for
/// the five blessed sizes, the length-prefixed forms otherwise.
pub open spec fn spec_ext_header(t: int, n: int) -> Seq<u8> {
    let tb = ((t + 0x100) % 0x100) as u8;
    if n == 1 {
        seq![0xd4u8, tb]
    } else if n == 2 {
        seq![0xd5u8, tb]
    } else if n == 4 {
        seq![0xd6u8, tb]
    } else if n == 8 {
        seq![0xd7u8, tb]
    } else if n == 16 {
        seq![0xd8u8, tb]
    } else if n < 0x100 {
        seq![0xc7u8] + be_bytes(n, 1) + seq![tb]
    } else if n < 0x10000 {
        seq![0xc8u8] + be_bytes(n, 2) + seq![tb]
    } else {
        seq![0xc9u8] + be_bytes(n, 4) + seq![tb]
    }
}

/// The wire encoding of one well-formed value.
pub open spec fn spec_encode(v: SpecValue) -> Seq<u8>
    decreases v,
{
    match v {
        SpecValue::Nil => seq![0xc0u8],
        SpecValue::Bool(b) => if b {
            seq![0xc3u8]
        } else {
            seq![0xc2u8]
        },
        SpecValue::Int(i) => spec_encode_int(i),
        SpecValue::F32(bits) => seq![0xcau8] + be_bytes(bits as int, 4),
        SpecValue::F64(bits) => seq![0xcbu8] + be_bytes(bits as int, 8),
        SpecValue::Str(s) => spec_str_header(encode_utf8(s).len() as int) + encode_utf8(s),
        SpecValue::Bin(b) => spec_bin_header(b.len() as int) + b,
        SpecValue::Array(vs) => spec_array_header(vs.len() as int) + spec_encode_values(vs),
        SpecValue::Dict(ps) => spec_map_header(ps.len() as int) + spec_encode_pairs(ps),
        SpecValue::Ext(t, d) => spec_ext_header(t, d.len() as int) + d,
    }
}

/// The concatenated encodings of a sequence of values.
pub open spec fn spec_encode_values(vs: Seq<SpecValue>) -> Seq<u8>
    decreases vs,
{
    if vs.len() == 0 {
        Seq::empty()
    } else {
        spec_encode(vs[0]) + spec_encode_values(vs.drop_first())
    }
}

/// The concatenated encodings of a sequence of key-value pairs, each key
/// fully encoded before its value.
pub open spec fn spec_encode_pairs(ps: Seq<(SpecValue, SpecValue)>) -> Seq<u8>
    decreases ps,
{
    if ps.len() == 0 {
        Seq::empty()
    } else {
        spec_encode(ps[0].0) + spec_encode(ps[0].1) + spec_encode_pairs(ps.drop_first())
    }
}

/// Appending one value to a sequence appends its encoding to the bytes.
pub proof fn lemma_encode_values_push(vs: Seq<SpecValue>, v: SpecValue)
    ensures
        spec_encode_values(vs.push(v)) == spec_encode_values(vs) + spec_encode(v),
    decreases vs.len(),
{
    if vs.len() == 0 {
        reveal_with_fuel(spec_encode_values, 3);
        assert(vs.push(v).drop_first() =~= Seq::<SpecValue>::empty());
        assert(vs.push(v)[0] == v);
        assert(spec_encode_values(vs.push(v)) =~= spec_encode_values(vs) + spec_encode(v));
    } else {
        assert(vs.push(v).drop_first() =~= vs.drop_first().push(v));
        lemma_encode_values_push(vs.drop_first(), v);
        assert(spec_encode_values(vs.push(v)) =~= spec_encode_values(vs) + spec_encode(v));
    }
}

/// Appending one pair to a sequence appends both encodings to the bytes.
pub proof fn lemma_encode_pairs_push(ps: Seq<(SpecValue, SpecValue)>, p: (SpecValue, SpecValue))
    ensures
        spec_encode_pairs(ps.push(p)) == spec_encode_pairs(ps) + spec_encode(p.0) + spec_encode(
            p.1,
        ),
    decreases ps.len(),
{
    if ps.len() == 0 {
        reveal_with_fuel(spec_encode_pairs, 3);
        assert(ps.push(p).drop_first() =~= Seq::<(SpecValue, SpecValue)>::empty());
        assert(ps.push(p)[0] == p);
        assert(spec_encode_pairs(ps.push(p)) =~= spec_encode_pairs(ps) + spec_encode(p.0)
            + spec_encode(p.1));
    } else {
        assert(ps.push(p).drop_first() =~= ps.drop_first().push(p));
        lemma_encode_pairs_push(ps.drop_first(), p);
        assert(spec_encode_pairs(ps.push(p)) =~= spec_encode_pairs(ps) + spec_encode(p.0)
            + spec_encode(p.1));
    }
}

/// The signed reading of a byte: two's complement.
pub open spec fn sbyte(x: int) -> int {
    if x < 0x80 {
        x
    } else {
        x - 0x100
    }
}

/// Decodes a string payload of `n` bytes that starts at offset `hdr`: the
/// bytes must be present and valid UTF-8.
pub open spec fn spec_read_str(b: Seq<u8>, hdr: int, n: int) -> Option<(SpecValue, int)> {
    if hdr + n > b.len() {
        None
    } else {
        let p = b.subrange(hdr, hdr + n);
        if valid_utf8(p) {
            Some((SpecValue::Str(decode_utf8(p)), hdr + n))
        } else {
            None
        }
    }
}

/// Decodes a binary payload of `n` bytes that starts at offset `hdr`.
pub open spec fn spec_read_bin(b: Seq<u8>, hdr: int, n: int) -> Option<(SpecValue, int)> {
    if hdr + n > b.len() {
        None
    } else {
        Some((SpecValue::Bin(b.subrange(hdr, hdr + n)), hdr + n))
    }
}

/// Decodes an extension payload of `n` bytes of type `t` starting at `hdr`.
pub open spec fn spec_read_ext(b: Seq<u8>, hdr: int, t: int, n: int) -> Option<(SpecValue, int)> {
    if hdr + n > b.len() {
        None
    } else {
        Some((SpecValue::Ext(t, b.subrange(hdr, hdr + n)), hdr + n))
    }
}

/// Decodes exactly one value from the front of `b`: the tag byte selects the
/// form, and the result carries how many bytes the value occupied. `None`
/// when the bytes are truncated, hold the one reserved tag, or hold invalid
/// UTF-8 where a string is announced.
pub open spec fn spec_decode(b: Seq<u8>) -> Option<(SpecValue, int)>
    decreases b.len(), 0nat,
{
    if b.len() == 0 {
        None
    } else {
        let t = b[0] as int;
        if t < 0x80 {
            Some((SpecValue::Int(t), 1))
        } else if t < 0x90 {
            match spec_decode_pairs(b.skip(1), (t - 0x80) as nat) {
                None => None,
                Some((ps, u)) => Some((SpecValue::Dict(ps), 1 + u)),
            }
        } else if t < 0xa0 {
            match spec_decode_values(b.skip(1), (t - 0x90) as nat) {
                None => None,
                Some((vs, u)) => Some((SpecValue::Array(vs), 1 + u)),
            }
        } else if t < 0xc0 {
            spec_read_str(b, 1, t - 0xa0)
        } else if t == 0xc0 {
            Some((SpecValue::Nil, 1))
        } else if t == 0xc1 {
            None
        } else if t == 0xc2 {
            Some((SpecValue::Bool(false), 1))
        } else if t == 0xc3 {
            Some((SpecValue::Bool(true), 1))
        } else if t == 0xc4 {
            if b.len() < 2 {
                None
            } else {
                spec_read_bin(b, 2, b[1] as int)
            }
        } else if t == 0xc5 {
            if b.len() < 3 {
                None
            } else {
                spec_read_bin(b, 3, be_val(b.subrange(1, 3)))
            }
        } else if t == 0xc6 {
            if b.len() < 5 {
                None
            } else {
                spec_read_bin(b, 5, be_val(b.subrange(1, 5)))
            }
        } else if t == 0xc7 {
            if b.len() < 3 {
                None
            } else {
                spec_read_ext(b, 3, sbyte(b[2] as int), b[1] as int)
            }
        } else if t == 0xc8 {
            if b.len() < 4 {
                None
            } else {
                spec_read_ext(b, 4, sbyte(b[3] as int), be_val(b.subrange(1, 3)))
            }
        } else if t == 0xc9 {
            if b.len() < 6 {
                None
            } else {
                spec_read_ext(b, 6, sbyte(b[5] as int), be_val(b.subrange(1, 5)))
            }
        } else if t == 0xca {
            if b.len() < 5 {
                None
            } else {
                Some((SpecValue::F32(be_val(b.subrange(1, 5)) as u32), 5))
            }
        } else if t == 0xcb {
            if b.len() < 9 {
                None
            } else {
                Some((SpecValue::F64(be_val(b.subrange(1, 9)) as u64), 9))
            }
        } else if t == 0xcc {
            if b.len() < 2 {
                None
            } else {
                Some((SpecValue::Int(b[1] as int), 2))
            }
        } else if t == 0xcd {
            if b.len() < 3 {
                None
            } else {
                Some((SpecValue::Int(be_val(b.subrange(1, 3))), 3))
            }
        } else if t == 0xce {
            if b.len() < 5 {
                None
            } else {
                Some((SpecValue::Int(be_val(b.subrange(1, 5))), 5))
            }
        } else if t == 0xcf {
            if b.len() < 9 {
                None
            } else {
                Some((SpecValue::Int(be_val(b.subrange(1, 9))), 9))
            }
        } else if t == 0xd0 {
            if b.len() < 2 {
                None
            } else {
                Some((SpecValue::Int(sbyte(b[1] as int)), 2))
            }
        } else if t == 0xd1 {
            if b.len() < 3 {
                None
            } else {
                let u = be_val(b.subrange(1, 3));
                Some((SpecValue::Int(if u < 0x8000 { u } else { u - 0x10000 }), 3))
            }
        } else if t == 0xd2 {
            if b.len() < 5 {
                None
            } else {
                let u = be_val(b.subrange(1, 5));
                Some((SpecValue::Int(if u < 0x8000_0000 { u } else { u - 0x1_0000_0000 }), 5))
            }
        } else if t == 0xd3 {
            if b.len() < 9 {
                None
            } else {
                let u = be_val(b.subrange(1, 9));
                Some((
                    SpecValue::Int(
                        if u < 0x8000_0000_0000_0000 {
                            u
                        } else {
                            u - 0x1_0000_0000_0000_0000
                        },
                    ),
                    9,
                ))
            }
        } else if t == 0xd4 {
            if b.len() < 2 {
                None
            } else {
                spec_read_ext(b, 2, sbyte(b[1] as int), 1)
            }
        } else if t == 0xd5 {
            if b.len() < 2 {
                None
            } else {
                spec_read_ext(b, 2, sbyte(b[1] as int), 2)
            }
        } else if t == 0xd6 {
            if b.len() < 2 {
                None
            } else {
                spec_read_ext(b, 2, sbyte(b[1] as int), 4)
            }
        } else if t == 0xd7 {
            if b.len() < 2 {
                None
            } else {
                spec_read_ext(b, 2, sbyte(b[1] as int), 8)
            }
        } else if t == 0xd8 {
            if b.len() < 2 {
                None
            } else {
                spec_read_ext(b, 2, sbyte(b[1] as int), 16)
            }
        } else if t == 0xd9 {
            if b.len() < 2 {
                None
            } else {
                spec_read_str(b, 2, b[1] as int)
            }
        } else if t == 0xda {
            if b.len() < 3 {
                None
            } else {
                spec_read_str(b, 3, be_val(b.subrange(1, 3)))
            }
        } else if t == 0xdb {
            if b.len() < 5 {
                None
            } else {
                spec_read_str(b, 5, be_val(b.subrange(1, 5)))
            }
        } else if t == 0xdc {
            if b.len() < 3 {
                None
            } else {
                match spec_decode_values(b.skip(3), be_val(b.subrange(1, 3)) as nat) {
                    None => None,
                    Some((vs, u)) => Some((SpecValue::Array(vs), 3 + u)),
                }
            }
        } else if t == 0xdd {
            if b.len() < 5 {
                None
            } else {
                match spec_decode_values(b.skip(5), be_val(b.subrange(1, 5)) as nat) {
                    None => None,
                    Some((vs, u)) => Some((SpecValue::Array(vs), 5 + u)),
                }
            }
        } else if t == 0xde {
            if b.len() < 3 {
                None
            } else {
                match spec_decode_pairs(b.skip(3), be_val(b.subrange(1, 3)) as nat) {
                    None => None,
                    Some((ps, u)) => Some((SpecValue::Dict(ps), 3 + u)),
                }
            }
        } else if t == 0xdf {
            if b.len() < 5 {
                None
            } else {
                match spec_decode_pairs(b.skip(5), be_val(b.subrange(1, 5)) as nat) {
                    None => None,
                    Some((ps, u)) => Some((SpecValue::Dict(ps), 5 + u)),
                }
            }
        } else {
            Some((SpecValue::Int(t - 0x100), 1))
        }
    }
}

/// Decodes `n` consecutive values from the front of `b`.
pub open spec fn spec_decode_values(b: Seq<u8>, n: nat) -> Option<(Seq<SpecValue>, int)>
    decreases b.len(), n,
{
    if n == 0 {
        Some((Seq::empty(), 0))
    } else {
        match spec_decode(b) {
            None => None,
            Some((v, u)) => if u < 1 || u > b.len() {
                None
            } else {
                match spec_decode_values(b.skip(u), (n - 1) as nat) {
                    None => None,
                    Some((vs, u2)) => Some((seq![v] + vs, u + u2)),
                }
            },
        }
    }
}

/// Decodes `n` consecutive key-value pairs from the front of `b`, each key
/// fully decoded before its value.
pub open spec fn spec_decode_pairs(b: Seq<u8>, n: nat) -> Option<(Seq<(SpecValue, SpecValue)>, int)>
    decreases b.len(), n,
{
    if n == 0 {
        Some((Seq::empty(), 0))
    } else {
        match spec_decode(b) {
            None => None,
            Some((k, u1)) => if u1 < 1 || u1 > b.len() {
                None
            } else {
                match spec_decode(b.skip(u1)) {
                    None => None,
                    Some((v, u2)) => if u2 < 1 || u1 + u2 > b.len() {
                        None
                    } else {
                        match spec_decode_pairs(b.skip(u1 + u2), (n - 1) as nat) {
                            None => None,
                            Some((ps, u3)) => Some((seq![(k, v)] + ps, u1 + u2 + u3)),
                        }
                    },
                }
            },
        }
    }
}

/// Appends the `w` big-endian bytes of `n` to `out`.
fn push_be(out: &mut Vec<u8>, n: u64, w: usize)
    requires
        w <= 8,
    ensures
        final(out)@ == old(out)@ + be_bytes(n as int, w as nat),
    decreases w,
{
    if w == 0 {
        proof {
            assert(out@ =~= old(out)@ + be_bytes(n as int, 0));
        }
    } else {
        push_be(out, n / 256, w - 1);
        out.push((n % 256) as u8);
        proof {
            assert(out@ =~= old(out)@ + be_bytes(n as int, w as nat));
        }
    }
}

/// Appends the shortest unsigned wire form of `u`.
fn push_uint(out: &mut Vec<u8>, u: u64)
    ensures
        final(out)@ == old(out)@ + spec_encode_int(u as int),
{
    if u < 0x80 {
        out.push(u as u8);
        proof {
            assert(out@ =~= old(out)@ + spec_encode_int(u as int));
        }
    } else if u < 0x100 {
        out.push(0xcc);
        push_be(out, u, 1);
        proof {
            assert(out@ =~= old(out)@ + spec_encode_int(u as int));
        }
    } else if u < 0x10000 {
        out.push(0xcd);
        push_be(out, u, 2);
        proof {
            assert(out@ =~= old(out)@ + spec_encode_int(u as int));
        }
    } else if u < 0x1_0000_0000 {
        out.push(0xce);
        push_be(out, u, 4);
        proof {
            assert(out@ =~= old(out)@ + spec_encode_int(u as int));
        }
    } else {
        out.push(0xcf);
        push_be(out, u, 8);
        proof {
            assert(out@ =~= old(out)@ + spec_encode_int(u as int));
        }
    }
}

/// Appends the shortest signed wire form of `i`.
fn push_int(out: &mut Vec<u8>, i: i64)
    ensures
        final(out)@ == old(out)@ + spec_encode_int(i as int),
{
    if i >= 0 {
        push_uint(out, i as u64);
    } else if i >= -0x20 {
        out.push((i + 0x100) as u8);
        proof {
            assert(out@ =~= old(out)@ + spec_encode_int(i as int));
        }
    } else if i >= -0x80 {
        out.push(0xd0);
        push_be(out, (i + 0x100) as u64, 1);
        proof {
            assert(out@ =~= old(out)@ + spec_encode_int(i as int));
        }
    } else if i >= -0x8000 {
        out.push(0xd1);
        push_be(out, (i + 0x10000) as u64, 2);
        proof {
            assert(out@ =~= old(out)@ + spec_encode_int(i as int));
        }
    } else if i >= -0x8000_0000 {
        out.push(0xd2);
        push_be(out, (i + 0x1_0000_0000) as u64, 4);
        proof {
            assert(out@ =~= old(out)@ + spec_encode_int(i as int));
        }
    } else {
        out.push(0xd3);
        let off = i - (-0x7fff_ffff_ffff_ffff - 1);
        let u = (off as u64) + 0x8000_0000_0000_0000u64;
        proof {
            assert(u == i + 0x1_0000_0000_0000_0000);
        }
        push_be(out, u, 8);
        proof {
            assert(out@ =~= old(out)@ + spec_encode_int(i as int));
        }
    }
}

/// Appends the encoding of `v` to `out`.
#[verifier::loop_isolation(false)]
#[verifier::rlimit(50)]
fn encode_into(v: &TaggedValue, out: &mut Vec<u8>)
    requires
        spec_value_of(*v).wf(),
    ensures
        final(out)@ == old(out)@ + spec_encode(spec_value_of(*v)),
    decreases *v,
{
    match v {
        TaggedValue::Nil => {
            out.push(0xc0);
            proof {
                assert(out@ =~= old(out)@ + spec_encode(spec_value_of(*v)));
            }
        },
        TaggedValue::Bool(b) => {
            out.push(if *b { 0xc3 } else { 0xc2 });
            proof {
                assert(out@ =~= old(out)@ + spec_encode(spec_value_of(*v)));
            }
        },
        TaggedValue::Int(i) => {
            push_int(out, *i);
        },
        TaggedValue::UInt(u) => {
            push_uint(out, *u);
        },
        TaggedValue::F32(bits) => {
            out.push(0xca);
            push_be(out, *bits as u64, 4);
            proof {
                assert(out@ =~= old(out)@ + spec_encode(spec_value_of(*v)));
            }
        },
        TaggedValue::F64(bits) => {
            out.push(0xcb);
            push_be(out, *bits, 8);
            proof {
                assert(out@ =~= old(out)@ + spec_encode(spec_value_of(*v)));
            }
        },
        TaggedValue::Str(s) => {
            let bytes = s.as_str().as_bytes();
            push_str_header(out, bytes.len());
            out.extend_from_slice(bytes);
            proof {
                assert(out@ =~= old(out)@ + spec_encode(spec_value_of(*v)));
            }
        },
        TaggedValue::Bin(bs) => {
            push_bin_header(out, bs.len());
            out.extend_from_slice(bs.as_slice());
            proof {
                assert(out@ =~= old(out)@ + spec_encode(spec_value_of(*v)));
            }
        },
        TaggedValue::Ext(t, d) => {
            push_ext_header(out, *t, d.len());
            out.extend_from_slice(d.as_slice());
            proof {
                assert(out@ =~= old(out)@ + spec_encode(spec_value_of(*v)));
            }
        },
        TaggedValue::Array(vs) => {
            proof {
                lemma_spec_values_of(vs@);
                assert(spec_value_of(*v) == SpecValue::Array(spec_values_of(vs@)));
                lemma_wf_values(spec_values_of(vs@));
            }
            push_array_header(out, vs.len());
            let ghost svs = spec_values_of(vs@);
            let ghost base = out@;
            let mut i: usize = 0;
            while i < vs.len()
                invariant
                    i <= vs.len(),
                    svs == spec_values_of(vs@),
                    svs.len() == vs@.len(),
                    forall|j: int| 0 <= j < vs@.len() ==> #[trigger] svs[j] == spec_value_of(
                        vs@[j],
                    ),
                    forall|j: int| 0 <= j < svs.len() ==> #[trigger] svs[j].wf(),
                    out@ == base + spec_encode_values(svs.take(i as int)),
                decreases vs.len() - i,
            {
                proof {
                    assert(svs[i as int].wf());
                }
                encode_into(&vs[i], out);
                proof {
                    assert(svs.take(i as int).push(svs[i as int]) =~= svs.take(i as int + 1));
                    lemma_encode_values_push(svs.take(i as int), svs[i as int]);
                }
                i = i + 1;
            }
            proof {
                assert(svs.take(vs@.len() as int) =~= svs);
                assert(out@ =~= old(out)@ + spec_encode(spec_value_of(*v)));
            }
        },
        TaggedValue::Dict(ps) => {
            proof {
                lemma_spec_pairs_of(ps@);
                assert(spec_value_of(*v) == SpecValue::Dict(spec_pairs_of(ps@)));
                lemma_wf_pairs(spec_pairs_of(ps@));
            }
            push_map_header(out, ps.len());
            let ghost sps = spec_pairs_of(ps@);
            let ghost base = out@;
            let mut i: usize = 0;
            while i < ps.len()
                invariant
                    i <= ps.len(),
                    sps == spec_pairs_of(ps@),
                    sps.len() == ps@.len(),
                    forall|j: int| 0 <= j < ps@.len() ==> #[trigger] sps[j] == (spec_value_of(
                        ps@[j].0,
                    ), spec_value_of(ps@[j].1)),
                    forall|j: int| 0 <= j < sps.len() ==> (#[trigger] sps[j]).0.wf()
                        && sps[j].1.wf(),
                    out@ == base + spec_encode_pairs(sps.take(i as int)),
                decreases ps.len() - i,
            {
                proof {
                    assert(sps[i as int].0.wf() && sps[i as int].1.wf());
                }
                encode_into(&ps[i].0, out);
                encode_into(&ps[i].1, out);
                proof {
                    assert(sps.take(i as int).push(sps[i as int]) =~= sps.take(i as int + 1));
                    lemma_encode_pairs_push(sps.take(i as int), sps[i as int]);
                }
                i = i + 1;
            }
            proof {
                assert(sps.take(ps@.len() as int) =~= sps);
                assert(out@ =~= old(out)@ + spec_encode(spec_value_of(*v)));
            }
        },
    }
}

/// Why one decode attempt failed: the bytes end before the value does, or
/// the bytes can never form a value (the reserved tag, invalid UTF-8 in an
/// announced string).
#[derive(Debug)]
pub enum DecodeError {
    Truncated,
    Malformed,
}

/// Relies on `String::from_utf8`: it accepts exactly the valid UTF-8 byte
/// sequences, and the accepted string holds exactly the decoded characters.
#[verifier::external_body]
fn string_from_utf8(bytes: Vec<u8>) -> (r: Option<String>)
    ensures
        r is Some <==> valid_utf8(bytes@),
        r is Some ==> r.unwrap()@ == decode_utf8(bytes@),
{
    String::from_utf8(bytes).ok()
}

/// The values of `pow256` for the widths the wire format uses.
proof fn lemma_pow256_vals()
    ensures
        pow256(1) == 0x100,
        pow256(2) == 0x10000,
        pow256(4) == 0x1_0000_0000,
        pow256(8) == 0x1_0000_0000_0000_0000,
{
    reveal_with_fuel(pow256, 9);
}

/// Prepends finished elements and consumed bytes to a partial decode.
pub open spec fn vcont(done: Seq<SpecValue>, used: int, r: Option<(Seq<SpecValue>, int)>) -> Option<
    (Seq<SpecValue>, int),
> {
    match r {
        None => None,
        Some((vs, u)) => Some((done + vs, used + u)),
    }
}

/// Prepends finished pairs and consumed bytes to a partial decode.
pub open spec fn pcont(
    done: Seq<(SpecValue, SpecValue)>,
    used: int,
    r: Option<(Seq<(SpecValue, SpecValue)>, int)>,
) -> Option<(Seq<(SpecValue, SpecValue)>, int)> {
    match r {
        None => None,
        Some((ps, u)) => Some((done + ps, used + u)),
    }
}

/// Reads a string payload of `n` bytes at offset `hdr`.
fn read_str_payload(b: &[u8], hdr: usize, n: usize) -> (r: Result<
    (TaggedValue, usize),
    DecodeError,
>)
    requires
        n < 0x1_0000_0000,
    ensures
        match r {
            Ok((v, used)) => spec_read_str(b@, hdr as int, n as int) == Some(
                (spec_value_of(v), used as int),
            ) && spec_value_of(v).wf() && used == hdr + n <= b@.len(),
            Err(_) => spec_read_str(b@, hdr as int, n as int) is None,
        },
{
    broadcast use vstd::utf8::decode_utf8_encode_utf8;

    if hdr > b.len() || n > b.len() - hdr {
        return Err(DecodeError::Truncated);
    }
    let payload = slice_to_vec(slice_subrange(b, hdr, hdr + n));
    match string_from_utf8(payload) {
        Some(s) => Ok((TaggedValue::Str(s), hdr + n)),
        None => Err(DecodeError::Malformed),
    }
}

/// Reads a binary payload of `n` bytes at offset `hdr`.
fn read_bin_payload(b: &[u8], hdr: usize, n: usize) -> (r: Result<
    (TaggedValue, usize),
    DecodeError,
>)
    requires
        n < 0x1_0000_0000,
    ensures
        match r {
            Ok((v, used)) => spec_read_bin(b@, hdr as int, n as int) == Some(
                (spec_value_of(v), used as int),
            ) && spec_value_of(v).wf() && used == hdr + n <= b@.len(),
            Err(_) => spec_read_bin(b@, hdr as int, n as int) is None,
        },
{
    if hdr > b.len() || n > b.len() - hdr {
        return Err(DecodeError::Truncated);
    }
    let payload = slice_to_vec(slice_subrange(b, hdr, hdr + n));
    Ok((TaggedValue::Bin(payload), hdr + n))
}

/// Reads an extension payload of `n` bytes of type byte `t` at offset `hdr`.
fn read_ext_payload(b: &[u8], hdr: usize, t: u8, n: usize) -> (r: Result<
    (TaggedValue, usize),
    DecodeError,
>)
    requires
        n < 0x1_0000_0000,
    ensures
        match r {
            Ok((v, used)) => spec_read_ext(b@, hdr as int, sbyte(t as int), n as int) == Some(
                (spec_value_of(v), used as int),
            ) && spec_value_of(v).wf() && used == hdr + n <= b@.len(),
            Err(_) => spec_read_ext(b@, hdr as int, sbyte(t as int), n as int) is None,
        },
{
    if hdr > b.len() || n > b.len() - hdr {
        return Err(DecodeError::Truncated);
    }
    let payload = slice_to_vec(slice_subrange(b, hdr, hdr + n));
    let ti: i8 = if t < 0x80 {
        t as i8
    } else {
        (t as i32 - 0x100) as i8
    };
    Ok((TaggedValue::Ext(ti, payload), hdr + n))
}

/// Serializes one value tree into a fresh self-delimiting byte sequence.
pub fn encode(v: &TaggedValue) -> (r: Vec<u8>)
    requires
        spec_value_of(*v).wf(),
    ensures
        r@ == spec_encode(spec_value_of(*v)),
{
    let mut out: Vec<u8> = Vec::new();
    encode_into(v, &mut out);
    proof {
        assert(out@ =~= spec_encode(spec_value_of(*v)));
    }
    out
}

/// Appends the string header for `n` payload bytes.
fn push_str_header(out: &mut Vec<u8>, n: usize)
    requires
        n < 0x1_0000_0000,
    ensures
        final(out)@ == old(out)@ + spec_str_header(n as int),
{
    if n < 0x20 {
        out.push(0xa0 + n as u8);
        proof {
            assert(out@ =~= old(out)@ + spec_str_header(n as int));
        }
    } else if n < 0x100 {
        out.push(0xd9);
        push_be(out, n as u64, 1);
        proof {
            assert(out@ =~= old(out)@ + spec_str_header(n as int));
        }
    } else if n < 0x10000 {
        out.push(0xda);
        push_be(out, n as u64, 2);
        proof {
            assert(out@ =~= old(out)@ + spec_str_header(n as int));
        }
    } else {
        out.push(0xdb);
        push_be(out, n as u64, 4);
        proof {
            assert(out@ =~= old(out)@ + spec_str_header(n as int));
        }
    }
}

/// Appends the binary header for `n` payload bytes.
fn push_bin_header(out: &mut Vec<u8>, n: usize)
    requires
        n < 0x1_0000_0000,
    ensures
        final(out)@ == old(out)@ + spec_bin_header(n as int),
{
    if n < 0x100 {
        out.push(0xc4);
        push_be(out, n as u64, 1);
        proof {
            assert(out@ =~= old(out)@ + spec_bin_header(n as int));
        }
    } else if n < 0x10000 {
        out.push(0xc5);
        push_be(out, n as u64, 2);
        proof {
            assert(out@ =~= old(out)@ + spec_bin_header(n as int));
        }
    } else {
        out.push(0xc6);
        push_be(out, n as u64, 4);
        proof {
            assert(out@ =~= old(out)@ + spec_bin_header(n as int));
        }
    }
}

/// Appends the array header for `n` elements.
fn push_array_header(out: &mut Vec<u8>, n: usize)
    requires
        n < 0x1_0000_0000,
    ensures
        final(out)@ == old(out)@ + spec_array_header(n as int),
{
    if n < 0x10 {
        out.push(0x90 + n as u8);
        proof {
            assert(out@ =~= old(out)@ + spec_array_header(n as int));
        }
    } else if n < 0x10000 {
        out.push(0xdc);
        push_be(out, n as u64, 2);
        proof {
            assert(out@ =~= old(out)@ + spec_array_header(n as int));
        }
    } else {
        out.push(0xdd);
        push_be(out, n as u64, 4);
        proof {
            assert(out@ =~= old(out)@ + spec_array_header(n as int));
        }
    }
}

/// Appends the map header for `n` key-value pairs.
fn push_map_header(out: &mut Vec<u8>, n: usize)
    requires
        n < 0x1_0000_0000,
    ensures
        final(out)@ == old(out)@ + spec_map_header(n as int),
{
    if n < 0x10 {
        out.push(0x80 + n as u8);
        proof {
            assert(out@ =~= old(out)@ + spec_map_header(n as int));
        }
    } else if n < 0x10000 {
        out.push(0xde);
        push_be(out, n as u64, 2);
        proof {
            assert(out@ =~= old(out)@ + spec_map_header(n as int));
        }
    } else {
        out.push(0xdf);
        push_be(out, n as u64, 4);
        proof {
            assert(out@ =~= old(out)@ + spec_map_header(n as int));
        }
    }
}

/// Appends the extension header for type `t` with `n` payload bytes.
fn push_ext_header(out: &mut Vec<u8>, t: i8, n: usize)
    requires
        n < 0x1_0000_0000,
    ensures
        final(out)@ == old(out)@ + spec_ext_header(t as int, n as int),
{
    let ti = t as i32;
    let tb = (if ti < 0 { ti + 0x100 } else { ti }) as u8;
    proof {
        assert(tb == ((t as int + 0x100) % 0x100) as u8);
    }
    if n == 1 {
        out.push(0xd4);
        out.push(tb);
        proof {
            assert(out@ =~= old(out)@ + spec_ext_header(t as int, n as int));
        }
    } else if n == 2 {
        out.push(0xd5);
        out.push(tb);
        proof {
            assert(out@ =~= old(out)@ + spec_ext_header(t as int, n as int));
        }
    } else if n == 4 {
        out.push(0xd6);
        out.push(tb);
        proof {
            assert(out@ =~= old(out)@ + spec_ext_header(t as int, n as int));
        }
    } else if n == 8 {
        out.push(0xd7);
        out.push(tb);
        proof {
            assert(out@ =~= old(out)@ + spec_ext_header(t as int, n as int));
        }
    } else if n == 16 {
        out.push(0xd8);
        out.push(tb);
        proof {
            assert(out@ =~= old(out)@ + spec_ext_header(t as int, n as int));
        }
    } else if n < 0x100 {
        out.push(0xc7);
        push_be(out, n as u64, 1);
        out.push(tb);
        proof {
            assert(out@ =~= old(out)@ + spec_ext_header(t as int, n as int));
        }
    } else if n < 0x10000 {
        out.push(0xc8);
        push_be(out, n as u64, 2);
        out.push(tb);
        proof {
            assert(out@ =~= old(out)@ + spec_ext_header(t as int, n as int));
        }
    } else {
        out.push(0xc9);
        push_be(out, n as u64, 4);
        out.push(tb);
        proof {
            assert(out@ =~= old(out)@ + spec_ext_header(t as int, n as int));
        }
    }
}

/// Deserializes exactly one value from the front of `b`, returning it with
/// the number of bytes it occupied. `Truncated` when the bytes end before
/// the value does; `Malformed` when no extension of the bytes could hold one.
#[verifier::rlimit(100)]
pub fn decode(b: &[u8]) -> (r: Result<(TaggedValue, usize), DecodeError>)
    ensures
        match r {
            Ok((v, used)) => spec_decode(b@) == Some((spec_value_of(v), used as int))
                && spec_value_of(v).wf() && 1 <= used <= b@.len(),
            Err(_) => spec_decode(b@) is None,
        },
    decreases b@.len(), 0nat,
{
    proof {
        lemma_pow256_vals();
    }
    let blen = b.len();
    if blen == 0 {
        return Err(DecodeError::Truncated);
    }
    let t = *vstd::slice::slice_index_get(b, 0);
    if t < 0x80 {
        Ok((TaggedValue::Int(t as i64), 1))
    } else if t < 0x90 {
        let n = (t - 0x80) as usize;
        match decode_pairs(slice_subrange(b, 1, blen), n) {
            Ok((ps, used)) => {
                proof {
                    assert(b@.subrange(1, blen as int) =~= b@.skip(1));
                    lemma_spec_pairs_of(ps@);
                }
                Ok((TaggedValue::Dict(ps), 1 + used))
            },
            Err(e) => {
                proof {
                    assert(b@.subrange(1, blen as int) =~= b@.skip(1));
                }
                Err(e)
            },
        }
    } else if t < 0xa0 {
        let n = (t - 0x90) as usize;
        match decode_values(slice_subrange(b, 1, blen), n) {
            Ok((vs, used)) => {
                proof {
                    assert(b@.subrange(1, blen as int) =~= b@.skip(1));
                    lemma_spec_values_of(vs@);
                }
                Ok((TaggedValue::Array(vs), 1 + used))
            },
            Err(e) => {
                proof {
                    assert(b@.subrange(1, blen as int) =~= b@.skip(1));
                }
                Err(e)
            },
        }
    } else if t < 0xc0 {
        read_str_payload(b, 1, (t - 0xa0) as usize)
    } else if t == 0xc0 {
        Ok((TaggedValue::Nil, 1))
    } else if t == 0xc1 {
        Err(DecodeError::Malformed)
    } else if t == 0xc2 {
        Ok((TaggedValue::Bool(false), 1))
    } else if t == 0xc3 {
        Ok((TaggedValue::Bool(true), 1))
    } else if t == 0xc4 {
        if blen < 2 {
            return Err(DecodeError::Truncated);
        }
        let n = *vstd::slice::slice_index_get(b, 1);
        read_bin_payload(b, 2, n as usize)
    } else if t == 0xc5 {
        if blen < 3 {
            return Err(DecodeError::Truncated);
        }
        let n = read_be(b, 1, 2);
        read_bin_payload(b, 3, n as usize)
    } else if t == 0xc6 {
        if blen < 5 {
            return Err(DecodeError::Truncated);
        }
        let n = read_be(b, 1, 4);
        read_bin_payload(b, 5, n as usize)
    } else if t == 0xc7 {
        if blen < 3 {
            return Err(DecodeError::Truncated);
        }
        let n = *vstd::slice::slice_index_get(b, 1);
        let et = *vstd::slice::slice_index_get(b, 2);
        read_ext_payload(b, 3, et, n as usize)
    } else if t == 0xc8 {
        if blen < 4 {
            return Err(DecodeError::Truncated);
        }
        let n = read_be(b, 1, 2);
        let et = *vstd::slice::slice_index_get(b, 3);
        read_ext_payload(b, 4, et, n as usize)
    } else if t == 0xc9 {
        if blen < 6 {
            return Err(DecodeError::Truncated);
        }
        let n = read_be(b, 1, 4);
        let et = *vstd::slice::slice_index_get(b, 5);
        read_ext_payload(b, 6, et, n as usize)
    } else if t == 0xca {
        if blen < 5 {
            return Err(DecodeError::Truncated);
        }
        let bits = read_be(b, 1, 4);
        Ok((TaggedValue::F32(bits as u32), 5))
    } else if t == 0xcb {
        if blen < 9 {
            return Err(DecodeError::Truncated);
        }
        let bits = read_be(b, 1, 8);
        Ok((TaggedValue::F64(bits), 9))
    } else if t == 0xcc {
        if blen < 2 {
            return Err(DecodeError::Truncated);
        }
        let n = *vstd::slice::slice_index_get(b, 1);
        proof {
            assert(b@.subrange(1, 2) =~= seq![b@[1]]);
            assert(be_val(seq![b@[1]]) == b@[1] as int) by {
                reveal_with_fuel(be_val, 2);
                assert(seq![b@[1]].drop_last() =~= Seq::<u8>::empty());
            }
        }
        Ok((TaggedValue::Int(n as i64), 2))
    } else if t == 0xcd {
        if blen < 3 {
            return Err(DecodeError::Truncated);
        }
        let n = read_be(b, 1, 2);
        Ok((TaggedValue::Int(n as i64), 3))
    } else if t == 0xce {
        if blen < 5 {
            return Err(DecodeError::Truncated);
        }
        let n = read_be(b, 1, 4);
        Ok((TaggedValue::Int(n as i64), 5))
    } else if t == 0xcf {
        if blen < 9 {
            return Err(DecodeError::Truncated);
        }
        let n = read_be(b, 1, 8);
        if n <= 0x7fff_ffff_ffff_ffff {
            Ok((TaggedValue::Int(n as i64), 9))
        } else {
            Ok((TaggedValue::UInt(n), 9))
        }
    } else if t == 0xd0 {
        if blen < 2 {
            return Err(DecodeError::Truncated);
        }
        let n = *vstd::slice::slice_index_get(b, 1);
        proof {
            assert(b@.subrange(1, 2) =~= seq![b@[1]]);
            assert(be_val(seq![b@[1]]) == b@[1] as int) by {
                reveal_with_fuel(be_val, 2);
                assert(seq![b@[1]].drop_last() =~= Seq::<u8>::empty());
            }
        }
        let i: i64 = if n < 0x80 {
            n as i64
        } else {
            n as i64 - 0x100
        };
        Ok((TaggedValue::Int(i), 2))
    } else if t == 0xd1 {
        if blen < 3 {
            return Err(DecodeError::Truncated);
        }
        let n = read_be(b, 1, 2);
        let i: i64 = if n < 0x8000 {
            n as i64
        } else {
            n as i64 - 0x10000
        };
        Ok((TaggedValue::Int(i), 3))
    } else if t == 0xd2 {
        if blen < 5 {
            return Err(DecodeError::Truncated);
        }
        let n = read_be(b, 1, 4);
        let i: i64 = if n < 0x8000_0000 {
            n as i64
        } else {
            n as i64 - 0x1_0000_0000
        };
        Ok((TaggedValue::Int(i), 5))
    } else if t == 0xd3 {
        if blen < 9 {
            return Err(DecodeError::Truncated);
        }
        let n = read_be(b, 1, 8);
        let i: i64 = if n < 0x8000_0000_0000_0000 {
            n as i64
        } else {
            let mag = n - 0x8000_0000_0000_0000;
            (-0x7fff_ffff_ffff_ffff - 1) + mag as i64
        };
        Ok((TaggedValue::Int(i), 9))
    } else if t == 0xd4 {
        if blen < 2 {
            return Err(DecodeError::Truncated);
        }
        let et = *vstd::slice::slice_index_get(b, 1);
        read_ext_payload(b, 2, et, 1)
    } else if t == 0xd5 {
        if blen < 2 {
            return Err(DecodeError::Truncated);
        }
        let et = *vstd::slice::slice_index_get(b, 1);
        read_ext_payload(b, 2, et, 2)
    } else if t == 0xd6 {
        if blen < 2 {
            return Err(DecodeError::Truncated);
        }
        let et = *vstd::slice::slice_index_get(b, 1);
        read_ext_payload(b, 2, et, 4)
    } else if t == 0xd7 {
        if blen < 2 {
            return Err(DecodeError::Truncated);
        }
        let et = *vstd::slice::slice_index_get(b, 1);
        read_ext_payload(b, 2, et, 8)
    } else if t == 0xd8 {
        if blen < 2 {
            return Err(DecodeError::Truncated);
        }
        let et = *vstd::slice::slice_index_get(b, 1);
        read_ext_payload(b, 2, et, 16)
    } else if t == 0xd9 {
        if blen < 2 {
            return Err(DecodeError::Truncated);
        }
        let n = *vstd::slice::slice_index_get(b, 1);
        read_str_payload(b, 2, n as usize)
    } else if t == 0xda {
        if blen < 3 {
            return Err(DecodeError::Truncated);
        }
        let n = read_be(b, 1, 2);
        read_str_payload(b, 3, n as usize)
    } else if t == 0xdb {
        if blen < 5 {
            return Err(DecodeError::Truncated);
        }
        let n = read_be(b, 1, 4);
        read_str_payload(b, 5, n as usize)
    } else if t == 0xdc {
        if blen < 3 {
            return Err(DecodeError::Truncated);
        }
        let n = read_be(b, 1, 2);
        match decode_values(slice_subrange(b, 3, blen), n as usize) {
            Ok((vs, used)) => {
                proof {
                    assert(b@.subrange(3, blen as int) =~= b@.skip(3));
                    lemma_spec_values_of(vs@);
                }
                Ok((TaggedValue::Array(vs), 3 + used))
            },
            Err(e) => {
                proof {
                    assert(b@.subrange(3, blen as int) =~= b@.skip(3));
                }
                Err(e)
            },
        }
    } else if t == 0xdd {
        if blen < 5 {
            return Err(DecodeError::Truncated);
        }
        let n = read_be(b, 1, 4);
        match decode_values(slice_subrange(b, 5, blen), n as usize) {
            Ok((vs, used)) => {
                proof {
                    assert(b@.subrange(5, blen as int) =~= b@.skip(5));
                    lemma_spec_values_of(vs@);
                }
                Ok((TaggedValue::Array(vs), 5 + used))
            },
            Err(e) => {
                proof {
                    assert(b@.subrange(5, blen as int) =~= b@.skip(5));
                }
                Err(e)
            },
        }
    } else if t == 0xde {
        if blen < 3 {
            return Err(DecodeError::Truncated);
        }
        let n = read_be(b, 1, 2);
        match decode_pairs(slice_subrange(b, 3, blen), n as usize) {
            Ok((ps, used)) => {
                proof {
                    assert(b@.subrange(3, blen as int) =~= b@.skip(3));
                    lemma_spec_pairs_of(ps@);
                }
                Ok((TaggedValue::Dict(ps), 3 + used))
            },
            Err(e) => {
                proof {
                    assert(b@.subrange(3, blen as int) =~= b@.skip(3));
                }
                Err(e)
            },
        }
    } else if t == 0xdf {
        if blen < 5 {
            return Err(DecodeError::Truncated);
        }
        let n = read_be(b, 1, 4);
        match decode_pairs(slice_subrange(b, 5, blen), n as usize) {
            Ok((ps, used)) => {
                proof {
                    assert(b@.subrange(5, blen as int) =~= b@.skip(5));
                    lemma_spec_pairs_of(ps@);
                }
                Ok((TaggedValue::Dict(ps), 5 + used))
            },
            Err(e) => {
                proof {
                    assert(b@.subrange(5, blen as int) =~= b@.skip(5));
                }
                Err(e)
            },
        }
    } else {
        Ok((TaggedValue::Int(t as i64 - 0x100), 1))
    }
}

/// Deserializes `n` consecutive values from the front of `b`.
#[verifier::loop_isolation(false)]
#[verifier::rlimit(100)]
fn decode_values(b: &[u8], n: usize) -> (r: Result<(Vec<TaggedValue>, usize), DecodeError>)
    ensures
        match r {
            Ok((vs, used)) => spec_decode_values(b@, n as nat) == Some(
                (spec_values_of(vs@), used as int),
            ) && used <= b@.len() && vs@.len() == n && crate::neovim::value::wf_values(
                spec_values_of(vs@),
            ),
            Err(_) => spec_decode_values(b@, n as nat) is None,
        },
    decreases b@.len(), n as nat,
{
    let blen = b.len();
    let mut elems: Vec<TaggedValue> = Vec::new();
    let mut used: usize = 0;
    let mut cur: &[u8] = b;
    let mut i: usize = 0;
    proof {
        assert(spec_values_of(elems@) =~= Seq::<SpecValue>::empty());
    }
    while i < n
        invariant
            i <= n,
            blen == b@.len(),
            used <= blen,
            used >= i,
            cur@ == b@.skip(used as int),
            elems@.len() == i,
            crate::neovim::value::wf_values(spec_values_of(elems@)),
            spec_values_of(elems@).len() == i,
            spec_decode_values(b@, n as nat) == vcont(
                spec_values_of(elems@),
                used as int,
                spec_decode_values(cur@, (n - i) as nat),
            ),
        decreases n - i,
    {
        match decode(cur) {
            Err(e) => {
                return Err(e);
            },
            Ok((v, u)) => {
                proof {
                    assert(cur@.len() == b@.len() - used);
                    lemma_values_of_push(elems@, v);
                    crate::neovim::value::lemma_wf_values_push(
                        spec_values_of(elems@),
                        spec_value_of(v),
                    );
                    assert(spec_values_of(elems@) + seq![spec_value_of(v)] =~= spec_values_of(
                        elems@,
                    ).push(spec_value_of(v)));
                    let rest = cur@.skip(u as int);
                    assert(rest =~= b@.skip(used as int + u as int));
                    match spec_decode_values(rest, (n - i - 1) as nat) {
                        Some((vs2, u2)) => {
                            assert(spec_values_of(elems@) + (seq![spec_value_of(v)] + vs2) =~= (
                            spec_values_of(elems@) + seq![spec_value_of(v)]) + vs2);
                        },
                        None => {},
                    }
                }
                elems.push(v);
                used = used + u;
                let curlen = cur.len();
                cur = slice_subrange(cur, u, curlen);
                i = i + 1;
            },
        }
    }
    proof {
        assert(spec_values_of(elems@) + Seq::<SpecValue>::empty() =~= spec_values_of(elems@));
    }
    Ok((elems, used))
}

/// Deserializes `n` consecutive key-value pairs from the front of `b`.
#[verifier::loop_isolation(false)]
#[verifier::rlimit(100)]
fn decode_pairs(b: &[u8], n: usize) -> (r: Result<
    (Vec<(TaggedValue, TaggedValue)>, usize),
    DecodeError,
>)
    ensures
        match r {
            Ok((ps, used)) => spec_decode_pairs(b@, n as nat) == Some(
                (spec_pairs_of(ps@), used as int),
            ) && used <= b@.len() && ps@.len() == n && crate::neovim::value::wf_pairs(
                spec_pairs_of(ps@),
            ),
            Err(_) => spec_decode_pairs(b@, n as nat) is None,
        },
    decreases b@.len(), n as nat,
{
    let blen = b.len();
    let mut pairs: Vec<(TaggedValue, TaggedValue)> = Vec::new();
    let mut used: usize = 0;
    let mut cur: &[u8] = b;
    let mut i: usize = 0;
    proof {
        assert(spec_pairs_of(pairs@) =~= Seq::<(SpecValue, SpecValue)>::empty());
    }
    while i < n
        invariant
            i <= n,
            blen == b@.len(),
            used <= blen,
            used >= i,
            cur@ == b@.skip(used as int),
            pairs@.len() == i,
            crate::neovim::value::wf_pairs(spec_pairs_of(pairs@)),
            spec_pairs_of(pairs@).len() == i,
            spec_decode_pairs(b@, n as nat) == pcont(
                spec_pairs_of(pairs@),
                used as int,
                spec_decode_pairs(cur@, (n - i) as nat),
            ),
        decreases n - i,
    {
        let key = match decode(cur) {
            Err(e) => {
                return Err(e);
            },
            Ok(kv) => kv,
        };
        let (k, u1) = key;
        let curlen = cur.len();
        let cur2: &[u8] = slice_subrange(cur, u1, curlen);
        let value = match decode(cur2) {
            Err(e) => {
                return Err(e);
            },
            Ok(vv) => vv,
        };
        let (v, u2) = value;
        proof {
            assert(cur@.len() == b@.len() - used);
            assert(cur2@.len() == cur@.len() - u1);
            lemma_pairs_of_push(pairs@, (k, v));
            crate::neovim::value::lemma_wf_pairs_push(
                spec_pairs_of(pairs@),
                (spec_value_of(k), spec_value_of(v)),
            );
            assert(spec_pairs_of(pairs@) + seq![(spec_value_of(k), spec_value_of(v))]
                =~= spec_pairs_of(pairs@).push((spec_value_of(k), spec_value_of(v))));
            let rest = cur2@.skip(u2 as int);
            assert(cur2@ =~= cur@.skip(u1 as int));
            assert(rest =~= cur@.skip(u1 as int + u2 as int));
            assert(rest =~= b@.skip(used as int + u1 as int + u2 as int));
            match spec_decode_pairs(rest, (n - i - 1) as nat) {
                Some((ps2, u3)) => {
                    assert(spec_pairs_of(pairs@) + (seq![(spec_value_of(k), spec_value_of(v))]
                        + ps2) =~= (spec_pairs_of(pairs@) + seq![
                        (spec_value_of(k), spec_value_of(v)),
                    ]) + ps2);
                },
                None => {},
            }
        }
        pairs.push((k, v));
        used = used + u1 + u2;
        let cur2len = cur2.len();
        cur = slice_subrange(cur2, u2, cur2len);
        i = i + 1;
    }
    proof {
        assert(spec_pairs_of(pairs@) + Seq::<(SpecValue, SpecValue)>::empty() =~= spec_pairs_of(
            pairs@,
        ));
    }
    Ok((pairs, used))
}


/// `be_bytes` of width one is the single low byte.
proof fn lemma_be_bytes1(x: int)
    requires
        0 <= x < 0x100,
    ensures
        be_bytes(x, 1) =~= seq![x as u8],
        be_val(seq![x as u8]) == x,
{
    reveal_with_fuel(be_bytes, 2);
    reveal_with_fuel(be_val, 2);
    assert(seq![x as u8].drop_last() =~= Seq::<u8>::empty());
    assert(be_bytes(x, 1) =~= be_bytes(x / 256, 0) + seq![(x % 256) as u8]);
}

/// Every wire encoding occupies at least one byte.
pub proof fn lemma_encode_len_pos(v: SpecValue)
    ensures
        spec_encode(v).len() >= 1,
{
    match v {
        SpecValue::Int(i) => {
            lemma_be_bytes_len(i, 1);
            lemma_be_bytes_len(i, 2);
            lemma_be_bytes_len(i, 4);
            lemma_be_bytes_len(i, 8);
            lemma_be_bytes_len(i + 0x100, 1);
            lemma_be_bytes_len(i + 0x10000, 2);
            lemma_be_bytes_len(i + 0x1_0000_0000, 4);
            lemma_be_bytes_len(i + 0x1_0000_0000_0000_0000, 8);
        },
        _ => {},
    }
}

/// Decoding the encoding of an integer recovers it, whatever bytes follow.
proof fn lemma_rt_int(i: int, rest: Seq<u8>)
    requires
        -0x8000_0000_0000_0000 <= i < 0x1_0000_0000_0000_0000,
    ensures
        spec_decode(spec_encode_int(i) + rest) == Some(
            (SpecValue::Int(i), spec_encode_int(i).len() as int),
        ),
{
    lemma_pow256_vals();
    let b = spec_encode_int(i) + rest;
    if 0 <= i < 0x80 {
        assert(b[0] == i as u8);
    } else if -0x20 <= i < 0 {
        assert(b[0] == (i + 0x100) as u8);
        assert(b[0] as int >= 0xe0);
    } else if 0 <= i < 0x100 {
        lemma_be_bytes1(i);
        assert(b[0] == 0xccu8);
        assert(b[1] == i as u8);
    } else if 0 <= i < 0x10000 {
        lemma_be_bytes_len(i, 2);
        assert(b[0] == 0xcdu8);
        assert(b.subrange(1, 3) =~= be_bytes(i, 2));
        lemma_be_round_trip(i, 2);
    } else if 0 <= i < 0x1_0000_0000 {
        lemma_be_bytes_len(i, 4);
        assert(b[0] == 0xceu8);
        assert(b.subrange(1, 5) =~= be_bytes(i, 4));
        lemma_be_round_trip(i, 4);
    } else if 0 <= i {
        lemma_be_bytes_len(i, 8);
        assert(b[0] == 0xcfu8);
        assert(b.subrange(1, 9) =~= be_bytes(i, 8));
        lemma_be_round_trip(i, 8);
    } else if -0x80 <= i {
        lemma_be_bytes1(i + 0x100);
        assert(b[0] == 0xd0u8);
        assert(b[1] == (i + 0x100) as u8);
        assert(b[1] as int >= 0x80);
    } else if -0x8000 <= i {
        lemma_be_bytes_len(i + 0x10000, 2);
        assert(b[0] == 0xd1u8);
        assert(b.subrange(1, 3) =~= be_bytes(i + 0x10000, 2));
        lemma_be_round_trip(i + 0x10000, 2);
    } else if -0x8000_0000 <= i {
        lemma_be_bytes_len(i + 0x1_0000_0000, 4);
        assert(b[0] == 0xd2u8);
        assert(b.subrange(1, 5) =~= be_bytes(i + 0x1_0000_0000, 4));
        lemma_be_round_trip(i + 0x1_0000_0000, 4);
    } else {
        lemma_be_bytes_len(i + 0x1_0000_0000_0000_0000, 8);
        assert(b[0] == 0xd3u8);
        assert(b.subrange(1, 9) =~= be_bytes(i + 0x1_0000_0000_0000_0000, 8));
        lemma_be_round_trip(i + 0x1_0000_0000_0000_0000, 8);
    }
}


/// Decoding the encoding of a string recovers it, whatever bytes follow.
proof fn lemma_rt_str(t: Seq<char>, rest: Seq<u8>)
    requires
        encode_utf8(t).len() < 0x1_0000_0000,
    ensures
        spec_decode(spec_encode(SpecValue::Str(t)) + rest) == Some(
            (SpecValue::Str(t), spec_encode(SpecValue::Str(t)).len() as int),
        ),
{
    broadcast use vstd::utf8::encode_utf8_valid_utf8, vstd::utf8::encode_utf8_decode_utf8;

    lemma_pow256_vals();
    let bs = encode_utf8(t);
    let n = bs.len() as int;
    let b = spec_encode(SpecValue::Str(t)) + rest;
    assert(valid_utf8(bs));
    assert(decode_utf8(bs) =~= t);
    if n < 0x20 {
        assert(b[0] == (0xa0 + n) as u8);
        assert(b.subrange(1, 1 + n) =~= bs);
    } else if n < 0x100 {
        lemma_be_bytes1(n);
        assert(b[0] == 0xd9u8);
        assert(b[1] == n as u8);
        assert(b.subrange(2, 2 + n) =~= bs);
    } else if n < 0x10000 {
        lemma_be_bytes_len(n, 2);
        assert(b[0] == 0xdau8);
        assert(b.subrange(1, 3) =~= be_bytes(n, 2));
        lemma_be_round_trip(n, 2);
        assert(b.subrange(3, 3 + n) =~= bs);
    } else {
        lemma_be_bytes_len(n, 4);
        assert(b[0] == 0xdbu8);
        assert(b.subrange(1, 5) =~= be_bytes(n, 4));
        lemma_be_round_trip(n, 4);
        assert(b.subrange(5, 5 + n) =~= bs);
    }
}

/// Decoding the encoding of a binary blob recovers it, whatever bytes follow.
proof fn lemma_rt_bin(d: Seq<u8>, rest: Seq<u8>)
    requires
        d.len() < 0x1_0000_0000,
    ensures
        spec_decode(spec_encode(SpecValue::Bin(d)) + rest) == Some(
            (SpecValue::Bin(d), spec_encode(SpecValue::Bin(d)).len() as int),
        ),
{
    lemma_pow256_vals();
    let n = d.len() as int;
    let b = spec_encode(SpecValue::Bin(d)) + rest;
    if n < 0x100 {
        lemma_be_bytes1(n);
        assert(b[0] == 0xc4u8);
        assert(b[1] == n as u8);
        assert(b.subrange(2, 2 + n) =~= d);
    } else if n < 0x10000 {
        lemma_be_bytes_len(n, 2);
        assert(b[0] == 0xc5u8);
        assert(b.subrange(1, 3) =~= be_bytes(n, 2));
        lemma_be_round_trip(n, 2);
        assert(b.subrange(3, 3 + n) =~= d);
    } else {
        lemma_be_bytes_len(n, 4);
        assert(b[0] == 0xc6u8);
        assert(b.subrange(1, 5) =~= be_bytes(n, 4));
        lemma_be_round_trip(n, 4);
        assert(b.subrange(5, 5 + n) =~= d);
    }
}

/// Decoding the encoding of an extension value recovers its type and
/// payload, whatever bytes follow.
proof fn lemma_rt_ext(t: int, d: Seq<u8>, rest: Seq<u8>)
    requires
        -128 <= t < 128,
        d.len() < 0x1_0000_0000,
    ensures
        spec_decode(spec_encode(SpecValue::Ext(t, d)) + rest) == Some(
            (SpecValue::Ext(t, d), spec_encode(SpecValue::Ext(t, d)).len() as int),
        ),
{
    lemma_pow256_vals();
    let n = d.len() as int;
    let tb = ((t + 0x100) % 0x100) as u8;
    let b = spec_encode(SpecValue::Ext(t, d)) + rest;
    assert(sbyte(tb as int) == t);
    if n == 1 || n == 2 || n == 4 || n == 8 || n == 16 {
        assert(b[1] == tb);
        assert(b.subrange(2, 2 + n) =~= d);
    } else if n < 0x100 {
        lemma_be_bytes1(n);
        assert(b[0] == 0xc7u8);
        assert(b[1] == n as u8);
        assert(b[2] == tb);
        assert(b.subrange(3, 3 + n) =~= d);
    } else if n < 0x10000 {
        lemma_be_bytes_len(n, 2);
        assert(b[0] == 0xc8u8);
        assert(b.subrange(1, 3) =~= be_bytes(n, 2));
        lemma_be_round_trip(n, 2);
        assert(b[3] == tb);
        assert(b.subrange(4, 4 + n) =~= d);
    } else {
        lemma_be_bytes_len(n, 4);
        assert(b[0] == 0xc9u8);
        assert(b.subrange(1, 5) =~= be_bytes(n, 4));
        lemma_be_round_trip(n, 4);
        assert(b[5] == tb);
        assert(b.subrange(6, 6 + n) =~= d);
    }
}


/// Decoding the concatenated encodings of `n` well-formed values recovers
/// exactly those values.
proof fn lemma_rt_values(vs: Seq<SpecValue>, rest: Seq<u8>)
    requires
        crate::neovim::value::wf_values(vs),
    ensures
        spec_decode_values(spec_encode_values(vs) + rest, vs.len()) == Some(
            (vs, spec_encode_values(vs).len() as int),
        ),
    decreases vs,
{
    if vs.len() == 0 {
        assert(spec_encode_values(vs) + rest =~= rest);
        assert(vs =~= Seq::<SpecValue>::empty());
    } else {
        let v0 = vs[0];
        let e0 = spec_encode(v0);
        let tail = vs.drop_first();
        let etail = spec_encode_values(tail);
        let b = spec_encode_values(vs) + rest;
        assert(spec_encode_values(vs) == e0 + etail);
        assert(b =~= e0 + (etail + rest));
        lemma_decode_encode(v0, etail + rest);
        lemma_encode_len_pos(v0);
        assert(b.skip(e0.len() as int) =~= etail + rest);
        lemma_rt_values(tail, rest);
        assert(seq![v0] + tail =~= vs);
    }
}

/// Decoding the concatenated encodings of `n` well-formed key-value pairs
/// recovers exactly those pairs.
proof fn lemma_rt_pairs(ps: Seq<(SpecValue, SpecValue)>, rest: Seq<u8>)
    requires
        crate::neovim::value::wf_pairs(ps),
    ensures
        spec_decode_pairs(spec_encode_pairs(ps) + rest, ps.len()) == Some(
            (ps, spec_encode_pairs(ps).len() as int),
        ),
    decreases ps,
{
    if ps.len() == 0 {
        assert(spec_encode_pairs(ps) + rest =~= rest);
        assert(ps =~= Seq::<(SpecValue, SpecValue)>::empty());
    } else {
        let k0 = ps[0].0;
        let v0 = ps[0].1;
        let ek = spec_encode(k0);
        let ev = spec_encode(v0);
        let tail = ps.drop_first();
        let etail = spec_encode_pairs(tail);
        let b = spec_encode_pairs(ps) + rest;
        assert(spec_encode_pairs(ps) == ek + ev + etail);
        assert(b =~= ek + (ev + (etail + rest)));
        lemma_decode_encode(k0, ev + (etail + rest));
        lemma_encode_len_pos(k0);
        assert(b.skip(ek.len() as int) =~= ev + (etail + rest));
        lemma_decode_encode(v0, etail + rest);
        lemma_encode_len_pos(v0);
        assert(b.skip(ek.len() as int).skip(ev.len() as int) =~= etail + rest);
        assert(b.skip(ek.len() as int + ev.len() as int) =~= etail + rest);
        lemma_rt_pairs(tail, rest);
        assert(seq![(k0, v0)] + tail =~= ps);
    }
}

/// The wire codec round trip: decoding the encoding of any well-formed value
/// yields that value back and consumes exactly its encoding, whatever bytes
/// follow it in the stream.
pub proof fn lemma_decode_encode(v: SpecValue, rest: Seq<u8>)
    requires
        v.wf(),
    ensures
        spec_decode(spec_encode(v) + rest) == Some((v, spec_encode(v).len() as int)),
    decreases v,
{
    lemma_pow256_vals();
    let b = spec_encode(v) + rest;
    match v {
        SpecValue::Nil => {
            assert(b[0] == 0xc0u8);
        },
        SpecValue::Bool(x) => {
            if x {
                assert(b[0] == 0xc3u8);
            } else {
                assert(b[0] == 0xc2u8);
            }
        },
        SpecValue::Int(i) => {
            assert(spec_encode(v) == spec_encode_int(i));
            lemma_rt_int(i, rest);
        },
        SpecValue::F32(bits) => {
            lemma_be_bytes_len(bits as int, 4);
            assert(b[0] == 0xcau8);
            assert(b.subrange(1, 5) =~= be_bytes(bits as int, 4));
            lemma_be_round_trip(bits as int, 4);
        },
        SpecValue::F64(bits) => {
            lemma_be_bytes_len(bits as int, 8);
            assert(b[0] == 0xcbu8);
            assert(b.subrange(1, 9) =~= be_bytes(bits as int, 8));
            lemma_be_round_trip(bits as int, 8);
        },
        SpecValue::Str(t) => {
            lemma_rt_str(t, rest);
        },
        SpecValue::Bin(d) => {
            lemma_rt_bin(d, rest);
        },
        SpecValue::Ext(t, d) => {
            lemma_rt_ext(t, d, rest);
        },
        SpecValue::Array(vs) => {
            let evs = spec_encode_values(vs);
            let n = vs.len() as int;
            lemma_rt_values(vs, rest);
            if n < 0x10 {
                assert(b[0] == (0x90 + n) as u8);
                assert(b.skip(1) =~= evs + rest);
            } else if n < 0x10000 {
                lemma_be_bytes_len(n, 2);
                assert(b[0] == 0xdcu8);
                assert(b.subrange(1, 3) =~= be_bytes(n, 2));
                lemma_be_round_trip(n, 2);
                assert(b.skip(3) =~= evs + rest);
            } else {
                lemma_be_bytes_len(n, 4);
                assert(b[0] == 0xddu8);
                assert(b.subrange(1, 5) =~= be_bytes(n, 4));
                lemma_be_round_trip(n, 4);
                assert(b.skip(5) =~= evs + rest);
            }
        },
        SpecValue::Dict(ps) => {
            let eps = spec_encode_pairs(ps);
            let n = ps.len() as int;
            lemma_rt_pairs(ps, rest);
            if n < 0x10 {
                assert(b[0] == (0x80 + n) as u8);
                assert(b.skip(1) =~= eps + rest);
            } else if n < 0x10000 {
                lemma_be_bytes_len(n, 2);
                assert(b[0] == 0xdeu8);
                assert(b.subrange(1, 3) =~= be_bytes(n, 2));
                lemma_be_round_trip(n, 2);
                assert(b.skip(3) =~= eps + rest);
            } else {
                lemma_be_bytes_len(n, 4);
                assert(b[0] == 0xdfu8);
                assert(b.subrange(1, 5) =~= be_bytes(n, 4));
                lemma_be_round_trip(n, 4);
                assert(b.skip(5) =~= eps + rest);
            }
        },
    }
}

} // verus!
