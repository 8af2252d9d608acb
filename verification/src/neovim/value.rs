use vstd::prelude::*;
use vstd::utf8::encode_utf8;

verus! {

broadcast use vstd::std_specs::vec::axiom_vec_index_decreases, vstd::std_specs::vec::axiom_vec_decreases_to_view;

/// The mathematical form of one wire value: what a `TaggedValue` denotes.
/// Signed and unsigned integers collapse into one unbounded `Int`, and the
/// two float widths are kept as their raw bit patterns, so that a value and
/// its wire encoding determine each other exactly.
pub enum SpecValue {
    Nil,
    Bool(bool),
    Int(int),
    F32(u32),
    F64(u64),
    Str(Seq<char>),
    Bin(Seq<u8>),
    Array(Seq<SpecValue>),
    Dict(Seq<(SpecValue, SpecValue)>),
    Ext(int, Seq<u8>),
}

/// One in-memory protocol message tree, as decoded from or encoded to the
/// wire. `Int` and `UInt` both denote mathematical integers; the decoder
/// canonicalizes: a value that fits in a signed 64-bit integer comes back as
/// `Int`, larger values as `UInt`. Floats are carried as their bit patterns,
/// which keeps the codec lossless and exact.
pub enum TaggedValue {
    Nil,
    Bool(bool),
    Int(i64),
    UInt(u64),
    F32(u32),
    F64(u64),
    Str(String),
    Bin(Vec<u8>),
    Array(Vec<TaggedValue>),
    Dict(Vec<(TaggedValue, TaggedValue)>),
    Ext(i8, Vec<u8>),
}

/// The denotation of a `TaggedValue`.
pub open spec fn spec_value_of(v: TaggedValue) -> SpecValue
    decreases v,
{
    match v {
        TaggedValue::Nil => SpecValue::Nil,
        TaggedValue::Bool(b) => SpecValue::Bool(b),
        TaggedValue::Int(i) => SpecValue::Int(i as int),
        TaggedValue::UInt(u) => SpecValue::Int(u as int),
        TaggedValue::F32(bits) => SpecValue::F32(bits),
        TaggedValue::F64(bits) => SpecValue::F64(bits),
        TaggedValue::Str(s) => SpecValue::Str(s@),
        TaggedValue::Bin(b) => SpecValue::Bin(b@),
        TaggedValue::Array(vs) => SpecValue::Array(spec_values_of(vs@)),
        TaggedValue::Dict(ps) => SpecValue::Dict(spec_pairs_of(ps@)),
        TaggedValue::Ext(t, d) => SpecValue::Ext(t as int, d@),
    }
}

/// The denotations of a sequence of values, element by element.
pub open spec fn spec_values_of(vs: Seq<TaggedValue>) -> Seq<SpecValue>
    decreases vs,
{
    if vs.len() == 0 {
        Seq::empty()
    } else {
        seq![spec_value_of(vs[0])] + spec_values_of(vs.drop_first())
    }
}

/// The denotations of a sequence of key-value pairs, element by element.
pub open spec fn spec_pairs_of(ps: Seq<(TaggedValue, TaggedValue)>) -> Seq<(SpecValue, SpecValue)>
    decreases ps,
{
    if ps.len() == 0 {
        Seq::empty()
    } else {
        seq![(spec_value_of(ps[0].0), spec_value_of(ps[0].1))] + spec_pairs_of(ps.drop_first())
    }
}

/// `spec_values_of` maps the denotation over the sequence index by index.
pub proof fn lemma_spec_values_of(vs: Seq<TaggedValue>)
    ensures
        spec_values_of(vs).len() == vs.len(),
        forall|i: int| 0 <= i < vs.len() ==> #[trigger] spec_values_of(vs)[i] == spec_value_of(vs[i]),
    decreases vs.len(),
{
    if vs.len() > 0 {
        lemma_spec_values_of(vs.drop_first());
    }
}

/// `spec_pairs_of` maps the denotation over the sequence index by index.
pub proof fn lemma_spec_pairs_of(ps: Seq<(TaggedValue, TaggedValue)>)
    ensures
        spec_pairs_of(ps).len() == ps.len(),
        forall|i: int| 0 <= i < ps.len() ==> #[trigger] spec_pairs_of(ps)[i]
            == (spec_value_of(ps[i].0), spec_value_of(ps[i].1)),
    decreases ps.len(),
{
    if ps.len() > 0 {
        lemma_spec_pairs_of(ps.drop_first());
    }
}

/// Appending one value appends its denotation.
pub proof fn lemma_values_of_push(vs: Seq<TaggedValue>, v: TaggedValue)
    ensures
        spec_values_of(vs.push(v)) == spec_values_of(vs) + seq![spec_value_of(v)],
    decreases vs.len(),
{
    if vs.len() == 0 {
        assert(vs.push(v).drop_first() =~= Seq::<TaggedValue>::empty());
        assert(vs.push(v)[0] == v);
        reveal_with_fuel(spec_values_of, 3);
        assert(spec_values_of(vs.push(v)) =~= spec_values_of(vs) + seq![spec_value_of(v)]);
    } else {
        assert(vs.push(v).drop_first() =~= vs.drop_first().push(v));
        lemma_values_of_push(vs.drop_first(), v);
        assert(spec_values_of(vs.push(v)) =~= spec_values_of(vs) + seq![spec_value_of(v)]);
    }
}

/// Appending one pair appends its denotation.
pub proof fn lemma_pairs_of_push(ps: Seq<(TaggedValue, TaggedValue)>, p: (TaggedValue, TaggedValue))
    ensures
        spec_pairs_of(ps.push(p)) == spec_pairs_of(ps) + seq![
            (spec_value_of(p.0), spec_value_of(p.1)),
        ],
    decreases ps.len(),
{
    if ps.len() == 0 {
        assert(ps.push(p).drop_first() =~= Seq::<(TaggedValue, TaggedValue)>::empty());
        assert(ps.push(p)[0] == p);
        reveal_with_fuel(spec_pairs_of, 3);
        assert(spec_pairs_of(ps.push(p)) =~= spec_pairs_of(ps) + seq![
            (spec_value_of(p.0), spec_value_of(p.1)),
        ]);
    } else {
        assert(ps.push(p).drop_first() =~= ps.drop_first().push(p));
        lemma_pairs_of_push(ps.drop_first(), p);
        assert(spec_pairs_of(ps.push(p)) =~= spec_pairs_of(ps) + seq![
            (spec_value_of(p.0), spec_value_of(p.1)),
        ]);
    }
}

impl View for TaggedValue {
    type V = SpecValue;

    open spec fn view(&self) -> SpecValue {
        spec_value_of(*self)
    }
}

impl SpecValue {
    /// A value the wire format can carry: every integer is a 64-bit one,
    /// every length fits the widest (32-bit) length prefix, and the extension
    /// tag is a signed byte.
    pub open spec fn wf(self) -> bool
        decreases self,
    {
        match self {
            SpecValue::Nil => true,
            SpecValue::Bool(_) => true,
            SpecValue::Int(i) => -0x8000_0000_0000_0000 <= i < 0x1_0000_0000_0000_0000,
            SpecValue::F32(_) => true,
            SpecValue::F64(_) => true,
            SpecValue::Str(s) => encode_utf8(s).len() < 0x1_0000_0000,
            SpecValue::Bin(b) => b.len() < 0x1_0000_0000,
            SpecValue::Array(vs) => vs.len() < 0x1_0000_0000 && wf_values(vs),
            SpecValue::Dict(ps) => ps.len() < 0x1_0000_0000 && wf_pairs(ps),
            SpecValue::Ext(t, d) => -128 <= t < 128 && d.len() < 0x1_0000_0000,
        }
    }

    /// The canonical integer form: a `TaggedValue` denoting this integer is
    /// `Int` when the value fits in a signed 64-bit integer, `UInt` above.
    pub open spec fn fits_i64(i: int) -> bool {
        -0x8000_0000_0000_0000 <= i <= 0x7fff_ffff_ffff_ffff
    }
}

/// Well-formedness of every element of a sequence of values.
pub open spec fn wf_values(vs: Seq<SpecValue>) -> bool
    decreases vs,
{
    vs.len() == 0 || (vs[0].wf() && wf_values(vs.drop_first()))
}

/// Well-formedness of every key and value of a sequence of pairs.
pub open spec fn wf_pairs(ps: Seq<(SpecValue, SpecValue)>) -> bool
    decreases ps,
{
    ps.len() == 0 || (ps[0].0.wf() && ps[0].1.wf() && wf_pairs(ps.drop_first()))
}

/// `wf_values` holds exactly when every element is well-formed.
pub proof fn lemma_wf_values(vs: Seq<SpecValue>)
    ensures
        wf_values(vs) <==> (forall|i: int| 0 <= i < vs.len() ==> #[trigger] vs[i].wf()),
    decreases vs.len(),
{
    if vs.len() > 0 {
        lemma_wf_values(vs.drop_first());
        if wf_values(vs) {
            assert forall|i: int| 0 <= i < vs.len() implies #[trigger] vs[i].wf() by {
                if i == 0 {
                    assert(vs[0].wf());
                } else {
                    assert(vs.drop_first()[i - 1] == vs[i]);
                    assert(vs.drop_first()[i - 1].wf());
                }
            }
        }
        if forall|i: int| 0 <= i < vs.len() ==> #[trigger] vs[i].wf() {
            assert forall|i: int| 0 <= i < vs.drop_first().len()
                implies #[trigger] vs.drop_first()[i].wf() by {
                assert(vs.drop_first()[i] == vs[i + 1]);
                assert(vs[i + 1].wf());
            }
            assert(vs[0].wf());
            assert(wf_values(vs));
        }
    }
}

/// A value may be appended to a well-formed sequence exactly when it is
/// itself well-formed.
pub proof fn lemma_wf_values_push(vs: Seq<SpecValue>, v: SpecValue)
    ensures
        wf_values(vs.push(v)) <==> (wf_values(vs) && v.wf()),
{
    lemma_wf_values(vs);
    lemma_wf_values(vs.push(v));
    if wf_values(vs) && v.wf() {
        assert forall|i: int| 0 <= i < vs.push(v).len() implies #[trigger] vs.push(v)[i].wf() by {
            if i < vs.len() {
                assert(vs[i].wf());
                assert(vs.push(v)[i] == vs[i]);
            } else {
                assert(vs.push(v)[i] == v);
            }
        }
    }
    if wf_values(vs.push(v)) {
        assert forall|i: int| 0 <= i < vs.len() implies #[trigger] vs[i].wf() by {
            assert(vs.push(v)[i].wf());
            assert(vs.push(v)[i] == vs[i]);
        }
        assert(vs.push(v)[vs.len() as int].wf());
        assert(vs.push(v)[vs.len() as int] == v);
    }
}

/// A pair may be appended to a well-formed sequence exactly when both of its
/// components are well-formed.
pub proof fn lemma_wf_pairs_push(ps: Seq<(SpecValue, SpecValue)>, p: (SpecValue, SpecValue))
    ensures
        wf_pairs(ps.push(p)) <==> (wf_pairs(ps) && p.0.wf() && p.1.wf()),
{
    lemma_wf_pairs(ps);
    lemma_wf_pairs(ps.push(p));
    if wf_pairs(ps) && p.0.wf() && p.1.wf() {
        assert forall|i: int| 0 <= i < ps.push(p).len() implies (#[trigger] ps.push(p)[i]).0.wf()
            && ps.push(p)[i].1.wf() by {
            if i < ps.len() {
                assert(ps[i].0.wf() && ps[i].1.wf());
                assert(ps.push(p)[i] == ps[i]);
            } else {
                assert(ps.push(p)[i] == p);
            }
        }
    }
    if wf_pairs(ps.push(p)) {
        assert forall|i: int| 0 <= i < ps.len() implies (#[trigger] ps[i]).0.wf()
            && ps[i].1.wf() by {
            assert(ps.push(p)[i].0.wf() && ps.push(p)[i].1.wf());
            assert(ps.push(p)[i] == ps[i]);
        }
        assert(ps.push(p)[ps.len() as int].0.wf() && ps.push(p)[ps.len() as int].1.wf());
        assert(ps.push(p)[ps.len() as int] == p);
    }
}

/// `wf_pairs` holds exactly when every key and every value is well-formed.
pub proof fn lemma_wf_pairs(ps: Seq<(SpecValue, SpecValue)>)
    ensures
        wf_pairs(ps) <==> (forall|i: int|
            0 <= i < ps.len() ==> (#[trigger] ps[i]).0.wf() && ps[i].1.wf()),
    decreases ps.len(),
{
    if ps.len() > 0 {
        lemma_wf_pairs(ps.drop_first());
        if wf_pairs(ps) {
            assert forall|i: int| 0 <= i < ps.len() implies (#[trigger] ps[i]).0.wf()
                && ps[i].1.wf() by {
                if i == 0 {
                    assert(ps[0].0.wf() && ps[0].1.wf());
                } else {
                    assert(ps.drop_first()[i - 1] == ps[i]);
                    assert(ps.drop_first()[i - 1].0.wf() && ps.drop_first()[i - 1].1.wf());
                }
            }
        }
        if forall|i: int| 0 <= i < ps.len() ==> (#[trigger] ps[i]).0.wf() && ps[i].1.wf() {
            assert forall|i: int| 0 <= i < ps.drop_first().len()
                implies (#[trigger] ps.drop_first()[i]).0.wf() && ps.drop_first()[i].1.wf() by {
                assert(ps.drop_first()[i] == ps[i + 1]);
                assert(ps[i + 1].0.wf() && ps[i + 1].1.wf());
            }
            assert(ps[0].0.wf() && ps[0].1.wf());
            assert(wf_pairs(ps));
        }
    }
}


/// Well-formedness of a one-element sequence, from its element.
pub proof fn lemma_wf_values_1(a: SpecValue)
    requires
        a.wf(),
    ensures
        wf_values(seq![a]),
{
    reveal_with_fuel(wf_values, 3);
    assert(seq![a].drop_first() =~= Seq::<SpecValue>::empty());
}

/// Well-formedness of a three-element sequence, from its elements.
pub proof fn lemma_wf_values_3(a: SpecValue, b: SpecValue, c: SpecValue)
    requires
        a.wf(),
        b.wf(),
        c.wf(),
    ensures
        wf_values(seq![a, b, c]),
{
    reveal_with_fuel(wf_values, 5);
    assert(seq![a, b, c].drop_first() =~= seq![b, c]);
    assert(seq![b, c].drop_first() =~= seq![c]);
    assert(seq![c].drop_first() =~= Seq::<SpecValue>::empty());
}

/// Well-formedness of a four-element sequence, from its elements.
pub proof fn lemma_wf_values_4(a: SpecValue, b: SpecValue, c: SpecValue, d: SpecValue)
    requires
        a.wf(),
        b.wf(),
        c.wf(),
        d.wf(),
    ensures
        wf_values(seq![a, b, c, d]),
{
    reveal_with_fuel(wf_values, 6);
    assert(seq![a, b, c, d].drop_first() =~= seq![b, c, d]);
    assert(seq![b, c, d].drop_first() =~= seq![c, d]);
    assert(seq![c, d].drop_first() =~= seq![d]);
    assert(seq![d].drop_first() =~= Seq::<SpecValue>::empty());
}

/// Well-formedness of a one-pair sequence, from its components.
pub proof fn lemma_wf_pairs_1(k: SpecValue, v: SpecValue)
    requires
        k.wf(),
        v.wf(),
    ensures
        wf_pairs(seq![(k, v)]),
{
    reveal_with_fuel(wf_pairs, 3);
    assert(seq![(k, v)].drop_first() =~= Seq::<(SpecValue, SpecValue)>::empty());
}

} // verus!
