//! The value bridge: lossless projection between the wire value tree and the
//! host's dynamic values. The host runtime offers nil, bool, a 64-bit
//! integer, two float widths, strings (and a string-name scalar), arrays,
//! dictionaries, and the three editor handle objects; everything else is
//! rejected at the point of submission, never silently coerced.

use vstd::prelude::*;

use crate::neovim::value::{
    SpecValue, TaggedValue, spec_value_of, spec_values_of, spec_pairs_of, lemma_spec_values_of,
    lemma_spec_pairs_of,
};
use crate::neovim::codec::{spec_encode, spec_decode, encode};
use crate::neovim::ext_types::{Buffer, Window, Tabpage};

verus! {

broadcast use vstd::std_specs::vec::axiom_vec_index_decreases, vstd::std_specs::vec::axiom_vec_decreases_to_view;

/// One host dynamic value, as the bridge models the host runtime: floats are
/// carried as bit patterns, a dictionary is a sequence of key-value slots in
/// insertion order, and the editor handles are the three tagged objects.
pub enum HostValue {
    Nil,
    Bool(bool),
    Int(i64),
    F32(u32),
    F64(u64),
    Str(String),
    StrName(String),
    Array(Vec<HostValue>),
    Dict(Vec<(HostValue, HostValue)>),
    BufferHandle(Buffer),
    WindowHandle(Window),
    TabpageHandle(Tabpage),
}

/// The mathematical form of one host value.
pub enum SpecHost {
    Nil,
    Bool(bool),
    Int(int),
    F32(u32),
    F64(u64),
    Str(Seq<char>),
    StrName(Seq<char>),
    Array(Seq<SpecHost>),
    Dict(Seq<(SpecHost, SpecHost)>),
    Buffer(int),
    Window(int),
    Tabpage(int),
}

/// The denotation of a host value.
pub open spec fn spec_host_of(h: HostValue) -> SpecHost
    decreases h,
{
    match h {
        HostValue::Nil => SpecHost::Nil,
        HostValue::Bool(b) => SpecHost::Bool(b),
        HostValue::Int(i) => SpecHost::Int(i as int),
        HostValue::F32(bits) => SpecHost::F32(bits),
        HostValue::F64(bits) => SpecHost::F64(bits),
        HostValue::Str(s) => SpecHost::Str(s@),
        HostValue::StrName(s) => SpecHost::StrName(s@),
        HostValue::Array(vs) => SpecHost::Array(spec_hosts_of(vs@)),
        HostValue::Dict(ps) => SpecHost::Dict(spec_host_pairs_of(ps@)),
        HostValue::BufferHandle(b) => SpecHost::Buffer(b.0 as int),
        HostValue::WindowHandle(w) => SpecHost::Window(w.0 as int),
        HostValue::TabpageHandle(t) => SpecHost::Tabpage(t.0 as int),
    }
}

/// The denotations of a sequence of host values, element by element.
pub open spec fn spec_hosts_of(vs: Seq<HostValue>) -> Seq<SpecHost>
    decreases vs,
{
    if vs.len() == 0 {
        Seq::empty()
    } else {
        seq![spec_host_of(vs[0])] + spec_hosts_of(vs.drop_first())
    }
}

/// The denotations of a sequence of host key-value slots.
pub open spec fn spec_host_pairs_of(ps: Seq<(HostValue, HostValue)>) -> Seq<(SpecHost, SpecHost)>
    decreases ps,
{
    if ps.len() == 0 {
        Seq::empty()
    } else {
        seq![(spec_host_of(ps[0].0), spec_host_of(ps[0].1))] + spec_host_pairs_of(ps.drop_first())
    }
}

impl View for HostValue {
    type V = SpecHost;

    open spec fn view(&self) -> SpecHost {
        spec_host_of(*self)
    }
}

/// `spec_hosts_of` maps the denotation over the sequence index by index.
pub proof fn lemma_spec_hosts_of(vs: Seq<HostValue>)
    ensures
        spec_hosts_of(vs).len() == vs.len(),
        forall|i: int| 0 <= i < vs.len() ==> #[trigger] spec_hosts_of(vs)[i] == spec_host_of(vs[i]),
    decreases vs.len(),
{
    if vs.len() > 0 {
        lemma_spec_hosts_of(vs.drop_first());
    }
}

/// `spec_host_pairs_of` maps the denotation over the sequence index by index.
pub proof fn lemma_spec_host_pairs_of(ps: Seq<(HostValue, HostValue)>)
    ensures
        spec_host_pairs_of(ps).len() == ps.len(),
        forall|i: int| 0 <= i < ps.len() ==> #[trigger] spec_host_pairs_of(ps)[i] == (
        spec_host_of(ps[i].0), spec_host_of(ps[i].1)),
    decreases ps.len(),
{
    if ps.len() > 0 {
        lemma_spec_host_pairs_of(ps.drop_first());
    }
}

/// Appending one host value appends its denotation.
pub proof fn lemma_hosts_of_push(vs: Seq<HostValue>, v: HostValue)
    ensures
        spec_hosts_of(vs.push(v)) == spec_hosts_of(vs) + seq![spec_host_of(v)],
    decreases vs.len(),
{
    if vs.len() == 0 {
        assert(vs.push(v).drop_first() =~= Seq::<HostValue>::empty());
        assert(vs.push(v)[0] == v);
        reveal_with_fuel(spec_hosts_of, 3);
        assert(spec_hosts_of(vs.push(v)) =~= spec_hosts_of(vs) + seq![spec_host_of(v)]);
    } else {
        assert(vs.push(v).drop_first() =~= vs.drop_first().push(v));
        lemma_hosts_of_push(vs.drop_first(), v);
        assert(spec_hosts_of(vs.push(v)) =~= spec_hosts_of(vs) + seq![spec_host_of(v)]);
    }
}

/// Deep equality of two host values: true exactly when their denotations are
/// equal.
#[verifier::loop_isolation(false)]
#[verifier::rlimit(100)]
pub fn host_eq(a: &HostValue, b: &HostValue) -> (r: bool)
    ensures
        r == (spec_host_of(*a) == spec_host_of(*b)),
    decreases *a,
{
    match a {
        HostValue::Nil => match b {
            HostValue::Nil => true,
            _ => false,
        },
        HostValue::Bool(x) => match b {
            HostValue::Bool(y) => x == y,
            _ => false,
        },
        HostValue::Int(x) => match b {
            HostValue::Int(y) => x == y,
            _ => false,
        },
        HostValue::F32(x) => match b {
            HostValue::F32(y) => x == y,
            _ => false,
        },
        HostValue::F64(x) => match b {
            HostValue::F64(y) => x == y,
            _ => false,
        },
        HostValue::Str(x) => match b {
            HostValue::Str(y) => *x == *y,
            _ => false,
        },
        HostValue::StrName(x) => match b {
            HostValue::StrName(y) => *x == *y,
            _ => false,
        },
        HostValue::BufferHandle(x) => match b {
            HostValue::BufferHandle(y) => x.0 == y.0,
            _ => false,
        },
        HostValue::WindowHandle(x) => match b {
            HostValue::WindowHandle(y) => x.0 == y.0,
            _ => false,
        },
        HostValue::TabpageHandle(x) => match b {
            HostValue::TabpageHandle(y) => x.0 == y.0,
            _ => false,
        },
        HostValue::Array(xs) => match b {
            HostValue::Array(ys) => {
                proof {
                    lemma_spec_hosts_of(xs@);
                    lemma_spec_hosts_of(ys@);
                }
                if xs.len() != ys.len() {
                    return false;
                }
                let mut i: usize = 0;
                while i < xs.len()
                    invariant
                        i <= xs@.len() == ys@.len(),
                        forall|j: int| 0 <= j < i ==> #[trigger] spec_hosts_of(xs@)[j]
                            == spec_hosts_of(ys@)[j],
                    decreases xs@.len() - i,
                {
                    if !host_eq(&xs[i], &ys[i]) {
                        proof {
                            assert(spec_hosts_of(xs@)[i as int] != spec_hosts_of(ys@)[i as int]);
                        }
                        return false;
                    }
                    i = i + 1;
                }
                proof {
                    assert(spec_hosts_of(xs@) =~= spec_hosts_of(ys@));
                }
                true
            },
            _ => false,
        },
        HostValue::Dict(xs) => match b {
            HostValue::Dict(ys) => {
                proof {
                    lemma_spec_host_pairs_of(xs@);
                    lemma_spec_host_pairs_of(ys@);
                }
                if xs.len() != ys.len() {
                    return false;
                }
                let mut i: usize = 0;
                while i < xs.len()
                    invariant
                        i <= xs@.len() == ys@.len(),
                        forall|j: int| 0 <= j < i ==> #[trigger] spec_host_pairs_of(xs@)[j]
                            == spec_host_pairs_of(ys@)[j],
                    decreases xs@.len() - i,
                {
                    let kq = host_eq(&xs[i].0, &ys[i].0);
                    let vq = host_eq(&xs[i].1, &ys[i].1);
                    if !kq || !vq {
                        proof {
                            assert(spec_host_pairs_of(xs@)[i as int] != spec_host_pairs_of(
                                ys@,
                            )[i as int]);
                        }
                        return false;
                    }
                    i = i + 1;
                }
                proof {
                    assert(spec_host_pairs_of(xs@) =~= spec_host_pairs_of(ys@));
                }
                true
            },
            _ => false,
        },
    }
}


/// Inserting into a dictionary: the first slot whose key equals `k` has its
/// value overwritten in place (last write wins); a new key goes to the back.
pub open spec fn spec_upsert(d: Seq<(SpecHost, SpecHost)>, k: SpecHost, v: SpecHost) -> Seq<
    (SpecHost, SpecHost),
>
    decreases d,
{
    if d.len() == 0 {
        seq![(k, v)]
    } else if d[0].0 == k {
        seq![(k, v)] + d.drop_first()
    } else {
        seq![d[0]] + spec_upsert(d.drop_first(), k, v)
    }
}

/// When `k` first occurs at slot `i`, upserting overwrites exactly that slot.
proof fn lemma_upsert_found(d: Seq<(SpecHost, SpecHost)>, k: SpecHost, v: SpecHost, i: int)
    requires
        0 <= i < d.len(),
        d[i].0 == k,
        forall|j: int| 0 <= j < i ==> (#[trigger] d[j]).0 != k,
    ensures
        spec_upsert(d, k, v) == d.update(i, (k, v)),
    decreases i,
{
    if i == 0 {
        assert(spec_upsert(d, k, v) =~= d.update(0, (k, v)));
    } else {
        assert(d.drop_first()[i - 1].0 == k);
        assert forall|j: int| 0 <= j < i - 1 implies (#[trigger] d.drop_first()[j]).0 != k by {
            assert(d.drop_first()[j] == d[j + 1]);
            assert(d[j + 1].0 != k);
        }
        lemma_upsert_found(d.drop_first(), k, v, i - 1);
        assert(spec_upsert(d, k, v) =~= d.update(i, (k, v)));
    }
}

/// When `k` occurs in no slot, upserting appends a new slot at the back.
proof fn lemma_upsert_missing(d: Seq<(SpecHost, SpecHost)>, k: SpecHost, v: SpecHost)
    requires
        forall|j: int| 0 <= j < d.len() ==> (#[trigger] d[j]).0 != k,
    ensures
        spec_upsert(d, k, v) == d.push((k, v)),
    decreases d.len(),
{
    if d.len() == 0 {
        assert(spec_upsert(d, k, v) =~= d.push((k, v)));
    } else {
        assert forall|j: int| 0 <= j < d.drop_first().len() implies (#[trigger] d.drop_first()[j]).0
            != k by {
            assert(d.drop_first()[j] == d[j + 1]);
            assert(d[j + 1].0 != k);
        }
        lemma_upsert_missing(d.drop_first(), k, v);
        assert(spec_upsert(d, k, v) =~= d.push((k, v)));
    }
}

/// Writes one key-value pair into the dictionary slots, last write winning.
#[verifier::loop_isolation(false)]
fn dict_upsert(d: &mut Vec<(HostValue, HostValue)>, k: HostValue, v: HostValue)
    ensures
        spec_host_pairs_of(final(d)@) == spec_upsert(
            spec_host_pairs_of(old(d)@),
            spec_host_of(k),
            spec_host_of(v),
        ),
{
    proof {
        lemma_spec_host_pairs_of(d@);
    }
    let mut i: usize = 0;
    while i < d.len()
        invariant
            i <= d@.len(),
            d@ == old(d)@,
            forall|j: int| 0 <= j < i ==> (#[trigger] spec_host_pairs_of(d@)[j]).0 != spec_host_of(
                k,
            ),
        decreases d@.len() - i,
    {
        if host_eq(&d[i].0, &k) {
            proof {
                lemma_upsert_found(
                    spec_host_pairs_of(d@),
                    spec_host_of(k),
                    spec_host_of(v),
                    i as int,
                );
            }
            let ghost pre = d@;
            d[i] = (k, v);
            proof {
                lemma_spec_host_pairs_of(d@);
                assert(spec_host_pairs_of(d@) =~= spec_host_pairs_of(pre).update(
                    i as int,
                    (spec_host_of(d@[i as int].0), spec_host_of(d@[i as int].1)),
                ));
            }
            return;
        }
        i = i + 1;
    }
    proof {
        lemma_upsert_missing(spec_host_pairs_of(d@), spec_host_of(k), spec_host_of(v));
        lemma_spec_host_pairs_of(d@.push((k, v)));
        assert(spec_host_pairs_of(d@.push((k, v))) =~= spec_host_pairs_of(d@).push(
            (spec_host_of(k), spec_host_of(v)),
        ));
    }
    d.push((k, v));
}

/// The host projection of one wire value: integers above the signed 64-bit
/// maximum surface as nil with a warning, binary blobs are rejected, maps
/// become dictionaries with last write winning for duplicate keys, and the
/// three extension tags become handle objects.
pub open spec fn spec_to_host(v: SpecValue) -> Option<SpecHost>
    decreases v,
{
    match v {
        SpecValue::Nil => Some(SpecHost::Nil),
        SpecValue::Bool(b) => Some(SpecHost::Bool(b)),
        SpecValue::Int(i) => if i <= 0x7fff_ffff_ffff_ffff {
            Some(SpecHost::Int(i))
        } else {
            Some(SpecHost::Nil)
        },
        SpecValue::F32(bits) => Some(SpecHost::F32(bits)),
        SpecValue::F64(bits) => Some(SpecHost::F64(bits)),
        SpecValue::Str(t) => Some(SpecHost::Str(t)),
        SpecValue::Bin(_) => None,
        SpecValue::Array(vs) => match spec_to_host_values(vs) {
            Some(hs) => Some(SpecHost::Array(hs)),
            None => None,
        },
        SpecValue::Dict(ps) => match spec_to_host_dict(ps) {
            Some(d) => Some(SpecHost::Dict(d)),
            None => None,
        },
        SpecValue::Ext(t, d) => Some(crate::neovim::ext_types::spec_ext_to_host(t, d)),
    }
}

/// The host projections of a sequence of wire values, all of which must be
/// projectable.
pub open spec fn spec_to_host_values(vs: Seq<SpecValue>) -> Option<Seq<SpecHost>>
    decreases vs,
{
    if vs.len() == 0 {
        Some(Seq::empty())
    } else {
        match spec_to_host_values(vs.drop_last()) {
            None => None,
            Some(hs) => match spec_to_host(vs.last()) {
                Some(h) => Some(hs.push(h)),
                None => None,
            },
        }
    }
}

/// The dictionary a sequence of wire key-value pairs builds, inserted in
/// source order with last write winning.
pub open spec fn spec_to_host_dict(ps: Seq<(SpecValue, SpecValue)>) -> Option<
    Seq<(SpecHost, SpecHost)>,
>
    decreases ps,
{
    if ps.len() == 0 {
        Some(Seq::empty())
    } else {
        match spec_to_host_dict(ps.drop_last()) {
            None => None,
            Some(d) => match (spec_to_host(ps.last().0), spec_to_host(ps.last().1)) {
                (Some(k), Some(v)) => Some(spec_upsert(d, k, v)),
                _ => None,
            },
        }
    }
}

/// Projects one wire value into a host value; `None` is the conversion error
/// (a binary blob, which the current protocol flow rejects).
#[verifier::loop_isolation(false)]
#[verifier::rlimit(50)]
pub fn rmpv_to_godot(v: &TaggedValue) -> (r: Option<HostValue>)
    ensures
        match r {
            Some(h) => spec_to_host(spec_value_of(*v)) == Some(spec_host_of(h)),
            None => spec_to_host(spec_value_of(*v)) is None,
        },
    decreases *v,
{
    match v {
        TaggedValue::Nil => Some(HostValue::Nil),
        TaggedValue::Bool(b) => Some(HostValue::Bool(*b)),
        TaggedValue::Int(i) => Some(HostValue::Int(*i)),
        TaggedValue::UInt(u) => {
            if *u <= 0x7fff_ffff_ffff_ffffu64 {
                Some(HostValue::Int(*u as i64))
            } else {
                Some(HostValue::Nil)
            }
        },
        TaggedValue::F32(bits) => Some(HostValue::F32(*bits)),
        TaggedValue::F64(bits) => Some(HostValue::F64(*bits)),
        TaggedValue::Str(t) => Some(HostValue::Str(t.clone())),
        TaggedValue::Bin(_) => None,
        TaggedValue::Ext(t, d) => Some(crate::neovim::ext_types::rmpv_ext_to_godot(*t, d)),
        TaggedValue::Array(vs) => {
            proof {
                lemma_spec_values_of(vs@);
            }
            let ghost svs = spec_values_of(vs@);
            let mut out: Vec<HostValue> = Vec::new();
            let mut i: usize = 0;
            proof {
                assert(svs.take(0) =~= Seq::<SpecValue>::empty());
                assert(spec_hosts_of(out@) =~= Seq::<SpecHost>::empty());
            }
            while i < vs.len()
                invariant
                    i <= vs@.len(),
                    spec_to_host_values(svs.take(i as int)) == Some(spec_hosts_of(out@)),
                decreases vs@.len() - i,
            {
                match rmpv_to_godot(&vs[i]) {
                    None => {
                        proof {
                            assert(svs.take(i as int + 1).drop_last() =~= svs.take(i as int));
                            assert(svs.take(i as int + 1).last() == svs[i as int]);
                            lemma_to_host_values_extend_none(svs, i as int + 1);
                        }
                        return None;
                    },
                    Some(h) => {
                        proof {
                            assert(svs.take(i as int + 1).drop_last() =~= svs.take(i as int));
                            assert(svs.take(i as int + 1).last() == svs[i as int]);
                            lemma_hosts_of_push(out@, h);
                        }
                        out.push(h);
                        i = i + 1;
                    },
                }
            }
            proof {
                assert(svs.take(vs@.len() as int) =~= svs);
            }
            Some(HostValue::Array(out))
        },
        TaggedValue::Dict(ps) => {
            proof {
                lemma_spec_pairs_of(ps@);
            }
            let ghost sps = spec_pairs_of(ps@);
            let mut out: Vec<(HostValue, HostValue)> = Vec::new();
            let mut i: usize = 0;
            proof {
                assert(sps.take(0) =~= Seq::<(SpecValue, SpecValue)>::empty());
                assert(spec_host_pairs_of(out@) =~= Seq::<(SpecHost, SpecHost)>::empty());
            }
            while i < ps.len()
                invariant
                    i <= ps@.len(),
                    spec_to_host_dict(sps.take(i as int)) == Some(spec_host_pairs_of(out@)),
                decreases ps@.len() - i,
            {
                proof {
                    assert(sps.take(i as int + 1).drop_last() =~= sps.take(i as int));
                    assert(sps.take(i as int + 1).last() == sps[i as int]);
                }
                let hk = match rmpv_to_godot(&ps[i].0) {
                    None => {
                        proof {
                            assert(spec_to_host_dict(sps.take(i as int + 1)) is None);
                            lemma_to_host_dict_extend_none(sps, i as int + 1);
                        }
                        return None;
                    },
                    Some(h) => h,
                };
                let hv = match rmpv_to_godot(&ps[i].1) {
                    None => {
                        proof {
                            assert(spec_to_host_dict(sps.take(i as int + 1)) is None);
                            lemma_to_host_dict_extend_none(sps, i as int + 1);
                        }
                        return None;
                    },
                    Some(h) => h,
                };
                dict_upsert(&mut out, hk, hv);
                i = i + 1;
            }
            proof {
                assert(sps.take(ps@.len() as int) =~= sps);
            }
            Some(HostValue::Dict(out))
        },
    }
}

/// Once one element fails to project, the whole prefix fails.
proof fn lemma_to_host_values_extend_none(vs: Seq<SpecValue>, i: int)
    requires
        0 < i <= vs.len(),
        spec_to_host_values(vs.take(i)) is None,
    ensures
        spec_to_host_values(vs) is None,
    decreases vs.len() - i,
{
    if i == vs.len() {
        assert(vs.take(i) =~= vs);
    } else {
        assert(vs.take(i + 1).drop_last() =~= vs.take(i));
        lemma_to_host_values_extend_none(vs, i + 1);
    }
}

/// Once one pair fails to project, the whole prefix fails.
proof fn lemma_to_host_dict_extend_none(ps: Seq<(SpecValue, SpecValue)>, i: int)
    requires
        0 < i <= ps.len(),
        spec_to_host_dict(ps.take(i)) is None,
    ensures
        spec_to_host_dict(ps) is None,
    decreases ps.len() - i,
{
    if i == ps.len() {
        assert(ps.take(i) =~= ps);
    } else {
        assert(ps.take(i + 1).drop_last() =~= ps.take(i));
        lemma_to_host_dict_extend_none(ps, i + 1);
    }
}


/// The wire form of one host value: host integers become signed wire
/// integers, host floats keep their width, both string forms become wire
/// strings, and a handle becomes the extension value of its tag whose
/// payload is its encoded id.
pub open spec fn spec_to_wire(h: SpecHost) -> SpecValue
    decreases h,
{
    match h {
        SpecHost::Nil => SpecValue::Nil,
        SpecHost::Bool(b) => SpecValue::Bool(b),
        SpecHost::Int(i) => SpecValue::Int(i),
        SpecHost::F32(bits) => SpecValue::F32(bits),
        SpecHost::F64(bits) => SpecValue::F64(bits),
        SpecHost::Str(t) => SpecValue::Str(t),
        SpecHost::StrName(t) => SpecValue::Str(t),
        SpecHost::Array(hs) => SpecValue::Array(spec_to_wire_values(hs)),
        SpecHost::Dict(ps) => SpecValue::Dict(spec_to_wire_pairs(ps)),
        SpecHost::Buffer(id) => SpecValue::Ext(0, spec_encode(SpecValue::Int(id))),
        SpecHost::Window(id) => SpecValue::Ext(1, spec_encode(SpecValue::Int(id))),
        SpecHost::Tabpage(id) => SpecValue::Ext(2, spec_encode(SpecValue::Int(id))),
    }
}

/// The wire forms of a sequence of host values.
pub open spec fn spec_to_wire_values(hs: Seq<SpecHost>) -> Seq<SpecValue>
    decreases hs,
{
    if hs.len() == 0 {
        Seq::empty()
    } else {
        spec_to_wire_values(hs.drop_last()).push(spec_to_wire(hs.last()))
    }
}

/// The wire forms of a sequence of host key-value slots.
pub open spec fn spec_to_wire_pairs(ps: Seq<(SpecHost, SpecHost)>) -> Seq<(SpecValue, SpecValue)>
    decreases ps,
{
    if ps.len() == 0 {
        Seq::empty()
    } else {
        spec_to_wire_pairs(ps.drop_last()).push(
            (spec_to_wire(ps.last().0), spec_to_wire(ps.last().1)),
        )
    }
}

/// Projects one host value into its wire form; within the modeled host
/// values the projection is total.
#[verifier::loop_isolation(false)]
#[verifier::rlimit(50)]
pub fn godot_to_rmpv(h: &HostValue) -> (r: TaggedValue)
    ensures
        spec_value_of(r) == spec_to_wire(spec_host_of(*h)),
    decreases *h,
{
    match h {
        HostValue::Nil => TaggedValue::Nil,
        HostValue::Bool(b) => TaggedValue::Bool(*b),
        HostValue::Int(i) => TaggedValue::Int(*i),
        HostValue::F32(bits) => TaggedValue::F32(*bits),
        HostValue::F64(bits) => TaggedValue::F64(*bits),
        HostValue::Str(t) => TaggedValue::Str(t.clone()),
        HostValue::StrName(t) => TaggedValue::Str(t.clone()),
        HostValue::BufferHandle(b) => TaggedValue::Ext(0, encode(&TaggedValue::Int(b.0))),
        HostValue::WindowHandle(w) => TaggedValue::Ext(1, encode(&TaggedValue::Int(w.0))),
        HostValue::TabpageHandle(t) => TaggedValue::Ext(2, encode(&TaggedValue::Int(t.0))),
        HostValue::Array(hs) => {
            proof {
                lemma_spec_hosts_of(hs@);
            }
            let ghost shs = spec_hosts_of(hs@);
            let mut out: Vec<TaggedValue> = Vec::new();
            let mut i: usize = 0;
            proof {
                assert(shs.take(0) =~= Seq::<SpecHost>::empty());
                assert(spec_values_of(out@) =~= Seq::<SpecValue>::empty());
            }
            while i < hs.len()
                invariant
                    i <= hs@.len(),
                    spec_values_of(out@) == spec_to_wire_values(shs.take(i as int)),
                decreases hs@.len() - i,
            {
                let w = godot_to_rmpv(&hs[i]);
                proof {
                    assert(shs.take(i as int + 1).drop_last() =~= shs.take(i as int));
                    assert(shs.take(i as int + 1).last() == shs[i as int]);
                    crate::neovim::value::lemma_values_of_push(out@, w);
                }
                out.push(w);
                i = i + 1;
            }
            proof {
                assert(shs.take(hs@.len() as int) =~= shs);
                assert(spec_values_of(out@) =~= spec_to_wire_values(shs));
            }
            TaggedValue::Array(out)
        },
        HostValue::Dict(ps) => {
            proof {
                lemma_spec_host_pairs_of(ps@);
            }
            let ghost sps = spec_host_pairs_of(ps@);
            let mut out: Vec<(TaggedValue, TaggedValue)> = Vec::new();
            let mut i: usize = 0;
            proof {
                assert(sps.take(0) =~= Seq::<(SpecHost, SpecHost)>::empty());
                assert(spec_pairs_of(out@) =~= Seq::<(SpecValue, SpecValue)>::empty());
            }
            while i < ps.len()
                invariant
                    i <= ps@.len(),
                    spec_pairs_of(out@) == spec_to_wire_pairs(sps.take(i as int)),
                decreases ps@.len() - i,
            {
                let wk = godot_to_rmpv(&ps[i].0);
                let wv = godot_to_rmpv(&ps[i].1);
                proof {
                    assert(sps.take(i as int + 1).drop_last() =~= sps.take(i as int));
                    assert(sps.take(i as int + 1).last() == sps[i as int]);
                    crate::neovim::value::lemma_pairs_of_push(out@, (wk, wv));
                }
                out.push((wk, wv));
                i = i + 1;
            }
            proof {
                assert(sps.take(ps@.len() as int) =~= sps);
                assert(spec_pairs_of(out@) =~= spec_to_wire_pairs(sps));
            }
            TaggedValue::Dict(out)
        },
    }
}

/// Projects every element of a received parameter array into host values;
/// `None` is the conversion error.
pub fn rpc_array_to_vararray(arr: &Vec<TaggedValue>) -> (r: Option<Vec<HostValue>>)
    ensures
        match r {
            Some(hs) => spec_to_host_values(spec_values_of(arr@)) == Some(spec_hosts_of(hs@)),
            None => spec_to_host_values(spec_values_of(arr@)) is None,
        },
{
    proof {
        lemma_spec_values_of(arr@);
    }
    let ghost svs = spec_values_of(arr@);
    let mut out: Vec<HostValue> = Vec::new();
    let mut i: usize = 0;
    proof {
        assert(svs.take(0) =~= Seq::<SpecValue>::empty());
        assert(spec_hosts_of(out@) =~= Seq::<SpecHost>::empty());
    }
    while i < arr.len()
        invariant
            i <= arr@.len(),
            svs == spec_values_of(arr@),
            svs.len() == arr@.len(),
            forall|j: int| 0 <= j < arr@.len() ==> #[trigger] svs[j] == spec_value_of(arr@[j]),
            spec_to_host_values(svs.take(i as int)) == Some(spec_hosts_of(out@)),
        decreases arr@.len() - i,
    {
        match rmpv_to_godot(&arr[i]) {
            None => {
                proof {
                    assert(svs.take(i as int + 1).drop_last() =~= svs.take(i as int));
                    assert(svs.take(i as int + 1).last() == svs[i as int]);
                    lemma_to_host_values_extend_none(svs, i as int + 1);
                }
                return None;
            },
            Some(h) => {
                proof {
                    assert(svs.take(i as int + 1).drop_last() =~= svs.take(i as int));
                    assert(svs.take(i as int + 1).last() == svs[i as int]);
                    lemma_hosts_of_push(out@, h);
                }
                out.push(h);
                i = i + 1;
            },
        }
    }
    proof {
        assert(svs.take(arr@.len() as int) =~= svs);
    }
    Some(out)
}


/// The host values whose wire round trip is the identity: integers and
/// handle ids within the signed 64-bit range, no string-name scalars (they
/// come back as plain strings), and dictionaries with pairwise distinct
/// keys (a duplicate key would be folded by last-write-wins on the way
/// back).
pub open spec fn host_mapped(h: SpecHost) -> bool
    decreases h,
{
    match h {
        SpecHost::Nil => true,
        SpecHost::Bool(_) => true,
        SpecHost::Int(i) => -0x8000_0000_0000_0000 <= i <= 0x7fff_ffff_ffff_ffff,
        SpecHost::F32(_) => true,
        SpecHost::F64(_) => true,
        SpecHost::Str(_) => true,
        SpecHost::StrName(_) => false,
        SpecHost::Array(hs) => host_mapped_values(hs),
        SpecHost::Dict(ps) => host_mapped_pairs(ps) && (forall|i: int, j: int|
            0 <= i < j < ps.len() ==> (#[trigger] ps[i]).0 != (#[trigger] ps[j]).0),
        SpecHost::Buffer(id) => -0x8000_0000_0000_0000 <= id <= 0x7fff_ffff_ffff_ffff,
        SpecHost::Window(id) => -0x8000_0000_0000_0000 <= id <= 0x7fff_ffff_ffff_ffff,
        SpecHost::Tabpage(id) => -0x8000_0000_0000_0000 <= id <= 0x7fff_ffff_ffff_ffff,
    }
}

/// Every element of the sequence is host-mapped.
pub open spec fn host_mapped_values(hs: Seq<SpecHost>) -> bool
    decreases hs,
{
    hs.len() == 0 || (host_mapped(hs[0]) && host_mapped_values(hs.drop_first()))
}

/// Every key and value of the sequence is host-mapped.
pub open spec fn host_mapped_pairs(ps: Seq<(SpecHost, SpecHost)>) -> bool
    decreases ps,
{
    ps.len() == 0 || (host_mapped(ps[0].0) && host_mapped(ps[0].1) && host_mapped_pairs(
        ps.drop_first(),
    ))
}

/// `host_mapped_values` holds exactly when every element is host-mapped.
pub proof fn lemma_host_mapped_values(hs: Seq<SpecHost>)
    ensures
        host_mapped_values(hs) <==> (forall|i: int|
            0 <= i < hs.len() ==> host_mapped(#[trigger] hs[i])),
    decreases hs.len(),
{
    if hs.len() > 0 {
        lemma_host_mapped_values(hs.drop_first());
        if host_mapped_values(hs) {
            assert forall|i: int| 0 <= i < hs.len() implies host_mapped(#[trigger] hs[i]) by {
                if i == 0 {
                    assert(host_mapped(hs[0]));
                } else {
                    assert(hs.drop_first()[i - 1] == hs[i]);
                    assert(host_mapped(hs.drop_first()[i - 1]));
                }
            }
        }
        if forall|i: int| 0 <= i < hs.len() ==> host_mapped(#[trigger] hs[i]) {
            assert forall|i: int| 0 <= i < hs.drop_first().len() implies host_mapped(
                #[trigger] hs.drop_first()[i],
            ) by {
                assert(hs.drop_first()[i] == hs[i + 1]);
                assert(host_mapped(hs[i + 1]));
            }
            assert(host_mapped(hs[0]));
            assert(host_mapped_values(hs));
        }
    }
}

/// Round trip of the value bridge, host side: a host-mapped value projected
/// onto the wire and back is itself, handle id and variant included.
pub proof fn lemma_host_round_trip(h: SpecHost)
    requires
        host_mapped(h),
    ensures
        spec_to_host(spec_to_wire(h)) == Some(h),
    decreases h,
{
    match h {
        SpecHost::Buffer(id) => {
            lemma_ext_round_trip(0, id);
        },
        SpecHost::Window(id) => {
            lemma_ext_round_trip(1, id);
        },
        SpecHost::Tabpage(id) => {
            lemma_ext_round_trip(2, id);
        },
        SpecHost::Array(hs) => {
            lemma_host_round_trip_values(hs);
        },
        SpecHost::Dict(ps) => {
            lemma_host_round_trip_pairs(ps);
        },
        _ => {},
    }
}

/// Extension-type dispatch: a wire extension of one of the three protocol
/// tags whose payload encodes an in-range id projects to the handle of that
/// tag carrying exactly that id.
pub proof fn lemma_ext_round_trip(t: int, id: int)
    requires
        t == 0 || t == 1 || t == 2,
        -0x8000_0000_0000_0000 <= id <= 0x7fff_ffff_ffff_ffff,
    ensures
        crate::neovim::ext_types::spec_ext_to_host(t, spec_encode(SpecValue::Int(id))) == (if t
            == 0 {
            SpecHost::Buffer(id)
        } else if t == 1 {
            SpecHost::Window(id)
        } else {
            SpecHost::Tabpage(id)
        }),
{
    let payload = spec_encode(SpecValue::Int(id));
    crate::neovim::codec::lemma_decode_encode(SpecValue::Int(id), Seq::empty());
    assert(payload + Seq::<u8>::empty() =~= payload);
    assert(spec_decode(payload) == Some((SpecValue::Int(id), payload.len() as int)));
    assert(crate::neovim::ext_types::wrap_i64(id) == id);
}

/// Round trip of a host value sequence, element by element.
proof fn lemma_host_round_trip_values(hs: Seq<SpecHost>)
    requires
        host_mapped_values(hs),
    ensures
        spec_to_host_values(spec_to_wire_values(hs)) == Some(hs),
    decreases hs,
{
    lemma_host_mapped_values(hs);
    if hs.len() == 0 {
        assert(spec_to_wire_values(hs) =~= Seq::<SpecValue>::empty());
        assert(spec_to_host_values(spec_to_wire_values(hs)) == Some(Seq::<SpecHost>::empty()));
        assert(Seq::<SpecHost>::empty() =~= hs);
    } else {
        let front = hs.drop_last();
        assert forall|i: int| 0 <= i < front.len() implies host_mapped(#[trigger] front[i]) by {
            assert(front[i] == hs[i]);
        }
        lemma_host_mapped_values(front);
        lemma_host_round_trip_values(front);
        lemma_host_round_trip(hs.last());
        let ws = spec_to_wire_values(hs);
        assert(ws == spec_to_wire_values(front).push(spec_to_wire(hs.last())));
        assert(ws.drop_last() =~= spec_to_wire_values(front));
        assert(ws.last() == spec_to_wire(hs.last()));
        assert(ws.len() > 0);
        assert(spec_to_host_values(ws) == Some(front.push(hs.last())));
        assert(front.push(hs.last()) =~= hs);
    }
}

/// Round trip of a host dictionary: with pairwise distinct keys, rebuilding
/// by last-write-wins insertion reproduces the slots in order.
proof fn lemma_host_round_trip_pairs(ps: Seq<(SpecHost, SpecHost)>)
    requires
        host_mapped_pairs(ps),
        forall|i: int, j: int| 0 <= i < j < ps.len() ==> (#[trigger] ps[i]).0 != (
        #[trigger] ps[j]).0,
    ensures
        spec_to_host_dict(spec_to_wire_pairs(ps)) == Some(ps),
    decreases ps,
{
    if ps.len() == 0 {
        assert(spec_to_wire_pairs(ps) =~= Seq::<(SpecValue, SpecValue)>::empty());
        assert(spec_to_host_dict(spec_to_wire_pairs(ps)) == Some(
            Seq::<(SpecHost, SpecHost)>::empty(),
        ));
        assert(Seq::<(SpecHost, SpecHost)>::empty() =~= ps);
    } else {
        let front = ps.drop_last();
        let lastp = ps.last();
        assert(host_mapped_pairs(front) && host_mapped(lastp.0) && host_mapped(lastp.1))
            by {
            lemma_host_mapped_pairs_split(ps);
        }
        assert forall|i: int, j: int| 0 <= i < j < front.len() implies (#[trigger] front[i]).0 != (
        #[trigger] front[j]).0 by {
            assert(front[i] == ps[i]);
            assert(front[j] == ps[j]);
        }
        lemma_host_round_trip_pairs(front);
        lemma_host_round_trip(lastp.0);
        lemma_host_round_trip(lastp.1);
        let ws = spec_to_wire_pairs(ps);
        assert(ws == spec_to_wire_pairs(front).push(
            (spec_to_wire(lastp.0), spec_to_wire(lastp.1)),
        ));
        assert(ws.drop_last() =~= spec_to_wire_pairs(front));
        assert(ws.last() == (spec_to_wire(lastp.0), spec_to_wire(lastp.1)));
        assert(ws.len() > 0);
        // The rebuilt front holds exactly the earlier keys, and the last key
        // differs from all of them, so the upsert appends.
        assert forall|j: int| 0 <= j < front.len() implies (#[trigger] front[j]).0 != lastp.0 by {
            assert(ps[j].0 != ps[ps.len() - 1].0);
        }
        lemma_upsert_missing(front, lastp.0, lastp.1);
        assert(spec_to_host_dict(ws) == Some(front.push(lastp)));
        assert(front.push(lastp) =~= ps);
    }
}

/// Splitting the mapped-pairs predicate at the back.
proof fn lemma_host_mapped_pairs_split(ps: Seq<(SpecHost, SpecHost)>)
    requires
        host_mapped_pairs(ps),
        ps.len() > 0,
    ensures
        host_mapped_pairs(ps.drop_last()),
        host_mapped(ps.last().0),
        host_mapped(ps.last().1),
    decreases ps.len(),
{
    if ps.len() == 1 {
        assert(ps.drop_last() =~= Seq::<(SpecHost, SpecHost)>::empty());
        assert(ps[0] == ps.last());
    } else {
        lemma_host_mapped_pairs_split(ps.drop_first());
        assert(ps.drop_first().last() == ps.last());
        assert(ps.drop_first().drop_last() =~= ps.drop_last().drop_first());
        assert(ps.drop_last()[0] == ps[0]);
        assert(host_mapped_pairs(ps.drop_last()));
    }
}


/// The wire values whose host round trip is the identity: no binary blobs,
/// integers within the signed 64-bit range, extensions only of the three
/// handle tags with a canonically encoded in-range id as payload, and maps
/// whose keys stay distinct after projection (measured by the projected
/// dictionary keeping every slot).
pub open spec fn wire_mapped(v: SpecValue) -> bool
    decreases v,
{
    match v {
        SpecValue::Nil => true,
        SpecValue::Bool(_) => true,
        SpecValue::Int(i) => SpecValue::fits_i64(i),
        SpecValue::F32(_) => true,
        SpecValue::F64(_) => true,
        SpecValue::Str(_) => true,
        SpecValue::Bin(_) => false,
        SpecValue::Array(vs) => wire_mapped_values(vs),
        SpecValue::Dict(ps) => wire_mapped_pairs(ps) && (match spec_to_host_dict(ps) {
            Some(d) => d.len() == ps.len(),
            None => false,
        }),
        SpecValue::Ext(t, d) => (t == 0 || t == 1 || t == 2) && (match spec_decode(d) {
            Some((w, _)) => match w {
                SpecValue::Int(id) => SpecValue::fits_i64(id) && d == spec_encode(
                    SpecValue::Int(id),
                ),
                _ => false,
            },
            None => false,
        }),
    }
}

/// Every element of the sequence is wire-mapped.
pub open spec fn wire_mapped_values(vs: Seq<SpecValue>) -> bool
    decreases vs,
{
    vs.len() == 0 || (wire_mapped(vs[0]) && wire_mapped_values(vs.drop_first()))
}

/// Every key and value of the sequence is wire-mapped.
pub open spec fn wire_mapped_pairs(ps: Seq<(SpecValue, SpecValue)>) -> bool
    decreases ps,
{
    ps.len() == 0 || (wire_mapped(ps[0].0) && wire_mapped(ps[0].1) && wire_mapped_pairs(
        ps.drop_first(),
    ))
}

/// Splitting the mapped-values predicate at the back.
proof fn lemma_wire_mapped_values_split(vs: Seq<SpecValue>)
    requires
        wire_mapped_values(vs),
        vs.len() > 0,
    ensures
        wire_mapped_values(vs.drop_last()),
        wire_mapped(vs.last()),
    decreases vs.len(),
{
    if vs.len() == 1 {
        assert(vs.drop_last() =~= Seq::<SpecValue>::empty());
        assert(vs[0] == vs.last());
    } else {
        lemma_wire_mapped_values_split(vs.drop_first());
        assert(vs.drop_first().last() == vs.last());
        assert(vs.drop_first().drop_last() =~= vs.drop_last().drop_first());
        assert(vs.drop_last()[0] == vs[0]);
        assert(wire_mapped_values(vs.drop_last()));
    }
}

/// Splitting the mapped-pairs predicate at the back.
proof fn lemma_wire_mapped_pairs_split(ps: Seq<(SpecValue, SpecValue)>)
    requires
        wire_mapped_pairs(ps),
        ps.len() > 0,
    ensures
        wire_mapped_pairs(ps.drop_last()),
        wire_mapped(ps.last().0),
        wire_mapped(ps.last().1),
    decreases ps.len(),
{
    if ps.len() == 1 {
        assert(ps.drop_last() =~= Seq::<(SpecValue, SpecValue)>::empty());
        assert(ps[0] == ps.last());
    } else {
        lemma_wire_mapped_pairs_split(ps.drop_first());
        assert(ps.drop_first().last() == ps.last());
        assert(ps.drop_first().drop_last() =~= ps.drop_last().drop_first());
        assert(ps.drop_last()[0] == ps[0]);
        assert(wire_mapped_pairs(ps.drop_last()));
    }
}

/// Upserting never shrinks the dictionary, grows it by exactly one slot when
/// the key is new, and keeps the length when the key is present.
proof fn lemma_upsert_len(d: Seq<(SpecHost, SpecHost)>, k: SpecHost, v: SpecHost)
    ensures
        spec_upsert(d, k, v).len() == if (exists|i: int| 0 <= i < d.len() && (#[trigger] d[i]).0
            == k) {
            d.len() as int
        } else {
            (d.len() + 1) as int
        },
    decreases d,
{
    if d.len() == 0 {
    } else if d[0].0 == k {
        assert(0 <= 0 < d.len() && d[0].0 == k);
    } else {
        lemma_upsert_len(d.drop_first(), k, v);
        if exists|i: int| 0 <= i < d.drop_first().len() && (#[trigger] d.drop_first()[i]).0 == k {
            let i = choose|i: int| 0 <= i < d.drop_first().len() && (#[trigger] d.drop_first()[i]).0
                == k;
            assert(d[i + 1] == d.drop_first()[i]);
            assert(0 <= i + 1 < d.len() && d[i + 1].0 == k);
        } else if exists|i: int| 0 <= i < d.len() && (#[trigger] d[i]).0 == k {
            let i = choose|i: int| 0 <= i < d.len() && (#[trigger] d[i]).0 == k;
            assert(i > 0);
            assert(d.drop_first()[i - 1] == d[i]);
            assert(false);
        }
    }
}

/// Projecting a map never yields more slots than the map has pairs.
proof fn lemma_to_host_dict_len_le(ps: Seq<(SpecValue, SpecValue)>)
    ensures
        match spec_to_host_dict(ps) {
            Some(d) => d.len() <= ps.len(),
            None => true,
        },
    decreases ps,
{
    if ps.len() > 0 {
        lemma_to_host_dict_len_le(ps.drop_last());
        match spec_to_host_dict(ps.drop_last()) {
            Some(d0) => {
                match (spec_to_host(ps.last().0), spec_to_host(ps.last().1)) {
                    (Some(k), Some(v)) => {
                        lemma_upsert_len(d0, k, v);
                    },
                    _ => {},
                }
            },
            None => {},
        }
    }
}

/// Round trip of the value bridge, wire side: a wire-mapped value projected
/// into the host and back onto the wire is itself.
pub proof fn lemma_wire_round_trip(v: SpecValue)
    requires
        wire_mapped(v),
    ensures
        spec_to_host(v) is Some,
        spec_to_wire(spec_to_host(v).unwrap()) == v,
    decreases v,
{
    match v {
        SpecValue::Ext(t, d) => {
            match spec_decode(d) {
                Some((w, u)) => match w {
                    SpecValue::Int(id) => {
                        assert(crate::neovim::ext_types::wrap_i64(id) == id);
                    },
                    _ => {},
                },
                None => {},
            }
        },
        SpecValue::Array(vs) => {
            lemma_wire_round_trip_values(vs);
        },
        SpecValue::Dict(ps) => {
            lemma_wire_round_trip_pairs(ps);
        },
        _ => {},
    }
}

/// Round trip of a wire value sequence, element by element.
proof fn lemma_wire_round_trip_values(vs: Seq<SpecValue>)
    requires
        wire_mapped_values(vs),
    ensures
        spec_to_host_values(vs) is Some,
        spec_to_wire_values(spec_to_host_values(vs).unwrap()) == vs,
    decreases vs,
{
    if vs.len() == 0 {
        assert(spec_to_wire_values(Seq::<SpecHost>::empty()) =~= vs);
    } else {
        lemma_wire_mapped_values_split(vs);
        lemma_wire_round_trip_values(vs.drop_last());
        lemma_wire_round_trip(vs.last());
        let hs = spec_to_host_values(vs).unwrap();
        assert(hs == spec_to_host_values(vs.drop_last()).unwrap().push(
            spec_to_host(vs.last()).unwrap(),
        ));
        assert(hs.drop_last() =~= spec_to_host_values(vs.drop_last()).unwrap());
        assert(hs.last() == spec_to_host(vs.last()).unwrap());
        assert(hs.len() > 0);
        assert(spec_to_wire_values(hs) =~= vs);
    }
}

/// Round trip of a wire map whose projection keeps every slot: the rebuilt
/// pairs are the original pairs in order.
proof fn lemma_wire_round_trip_pairs(ps: Seq<(SpecValue, SpecValue)>)
    requires
        wire_mapped_pairs(ps),
        spec_to_host_dict(ps) is Some,
        spec_to_host_dict(ps).unwrap().len() == ps.len(),
    ensures
        spec_to_wire_pairs(spec_to_host_dict(ps).unwrap()) == ps,
    decreases ps,
{
    if ps.len() == 0 {
        assert(spec_to_wire_pairs(spec_to_host_dict(ps).unwrap()) =~= ps);
    } else {
        lemma_wire_mapped_pairs_split(ps);
        let front = ps.drop_last();
        let d0 = spec_to_host_dict(front).unwrap();
        lemma_wire_round_trip(ps.last().0);
        lemma_wire_round_trip(ps.last().1);
        let hk = spec_to_host(ps.last().0).unwrap();
        let hv = spec_to_host(ps.last().1).unwrap();
        lemma_to_host_dict_len_le(front);
        lemma_upsert_len(d0, hk, hv);
        assert(spec_to_host_dict(ps).unwrap() == spec_upsert(d0, hk, hv));
        assert(d0.len() == front.len());
        assert(!(exists|i: int| 0 <= i < d0.len() && (#[trigger] d0[i]).0 == hk));
        lemma_wire_round_trip_pairs(front);
        assert forall|j: int| 0 <= j < d0.len() implies (#[trigger] d0[j]).0 != hk by {
            if d0[j].0 == hk {
                assert(0 <= j < d0.len() && d0[j].0 == hk);
            }
        }
        lemma_upsert_missing(d0, hk, hv);
        let d = d0.push((hk, hv));
        assert(d.drop_last() =~= d0);
        assert(d.last() == (hk, hv));
        assert(d.len() > 0);
        assert(spec_to_wire_pairs(d) =~= ps);
    }
}

/// Converts host parameters into their wire forms, in order.
pub fn hosts_to_wire(params: &Vec<HostValue>) -> (r: Vec<TaggedValue>)
    ensures
        spec_values_of(r@) == spec_to_wire_values(spec_hosts_of(params@)),
{
    proof {
        lemma_spec_hosts_of(params@);
    }
    let ghost shs = spec_hosts_of(params@);
    let mut out: Vec<TaggedValue> = Vec::new();
    let mut i: usize = 0;
    proof {
        assert(shs.take(0) =~= Seq::<SpecHost>::empty());
        assert(spec_values_of(out@) =~= Seq::<SpecValue>::empty());
    }
    while i < params.len()
        invariant
            i <= params@.len(),
            shs == spec_hosts_of(params@),
            shs.len() == params@.len(),
            forall|j: int| 0 <= j < params@.len() ==> #[trigger] shs[j] == spec_host_of(
                params@[j],
            ),
            spec_values_of(out@) == spec_to_wire_values(shs.take(i as int)),
        decreases params@.len() - i,
    {
        let w = godot_to_rmpv(&params[i]);
        proof {
            assert(shs.take(i as int + 1).drop_last() =~= shs.take(i as int));
            assert(shs.take(i as int + 1).last() == shs[i as int]);
            crate::neovim::value::lemma_values_of_push(out@, w);
        }
        out.push(w);
        i = i + 1;
    }
    proof {
        assert(shs.take(params@.len() as int) =~= shs);
    }
    out
}

} // verus!




