use vstd::prelude::*;

verus! {

/// A named value: a field of a struct or a variant of an enum.
#[derive(Debug)]
pub struct Named<T> {
    pub name: String,
    pub value: T,
}

/// The format of an anonymous value type.
#[derive(Debug)]
pub enum Format {
    /// The name of a container.
    TypeName(String),
    Unit,
    Bool,
    I8,
    I16,
    I32,
    I64,
    I128,
    U8,
    U16,
    U32,
    U64,
    U128,
    Float32,
    Float64,
    Char,
    Str,
    Bytes,
    /// The format of a nullable value.
    Optional(Box<Format>),
    /// A homogeneous sequence of variable length.
    Sequence(Box<Format>),
    /// A map from keys to values.
    Mapping { key: Box<Format>, value: Box<Format> },
    /// A heterogeneous tuple.
    Tuple(Vec<Format>),
    /// A fixed-size array.
    TupleArray { content: Box<Format>, size: usize },
}

/// The payload of an enum variant.
#[derive(Debug)]
pub enum VariantFormat {
    Unit,
    NewType(Box<Format>),
    Tuple(Vec<Format>),
    Struct(Vec<Named<Format>>),
}

/// A named, top-level type definition.
#[derive(Debug)]
pub enum ContainerFormat {
    UnitStruct,
    NewTypeStruct(Box<Format>),
    TupleStruct(Vec<Format>),
    Struct(Vec<Named<Format>>),
    /// Variants with their discriminants.
    Enum(Vec<(u32, Named<VariantFormat>)>),
}

/// Whether the format tree `f` holds a reference to the container named `n`.
pub open spec fn mentions(f: Format, n: Seq<char>) -> bool
    decreases f,
{
    match f {
        Format::TypeName(t) => t@ == n,
        Format::Optional(b) => mentions(*b, n),
        Format::Sequence(b) => mentions(*b, n),
        Format::Mapping { key, value } => mentions(*key, n) || mentions(*value, n),
        Format::Tuple(v) => exists|i: int| 0 <= i < v.len() && mentions(#[trigger] v[i], n),
        Format::TupleArray { content, size: _ } => mentions(*content, n),
        _ => false,
    }
}

pub open spec fn list_mentions(v: Seq<Format>, n: Seq<char>) -> bool {
    exists|i: int| 0 <= i < v.len() && mentions(#[trigger] v[i], n)
}

pub open spec fn fields_mention(v: Seq<Named<Format>>, n: Seq<char>) -> bool {
    exists|i: int| 0 <= i < v.len() && mentions(#[trigger] v[i].value, n)
}

pub open spec fn variant_mentions(f: VariantFormat, n: Seq<char>) -> bool {
    match f {
        VariantFormat::Unit => false,
        VariantFormat::NewType(b) => mentions(*b, n),
        VariantFormat::Tuple(v) => list_mentions(v@, n),
        VariantFormat::Struct(v) => fields_mention(v@, n),
    }
}

/// Whether the container format `c` holds, at any depth, a reference to the
/// container named `n`.
pub open spec fn container_mentions(c: ContainerFormat, n: Seq<char>) -> bool {
    match c {
        ContainerFormat::UnitStruct => false,
        ContainerFormat::NewTypeStruct(b) => mentions(*b, n),
        ContainerFormat::TupleStruct(v) => list_mentions(v@, n),
        ContainerFormat::Struct(v) => fields_mention(v@, n),
        ContainerFormat::Enum(v) => exists|i: int|
            0 <= i < v.len() && variant_mentions(#[trigger] v@[i].1.value, n),
    }
}

/// Whether one of the strings of `v` has the characters `n`.
pub open spec fn has_name(v: Seq<String>, n: Seq<char>) -> bool {
    exists|k: int| 0 <= k < v.len() && (#[trigger] v[k])@ == n
}

/// Appends to `out` the names of the containers that `f` references.
pub fn collect_format_refs(f: &Format, out: &mut Vec<String>)
    ensures
        forall|n: Seq<char>| #![trigger has_name(final(out)@, n)] has_name(final(out)@, n) <==> (has_name(old(out)@, n) || mentions(*f, n)),
    decreases f,
{
    match f {
        Format::TypeName(t) => {
            let ghost prev = out@;
            out.push(t.clone());
            assert forall|n: Seq<char>| has_name(out@, n) <==> (has_name(prev, n) || mentions(*f, n)) by {
                if has_name(out@, n) {
                    let k = choose|k: int| 0 <= k < out@.len() && (#[trigger] out@[k])@ == n;
                    if k < prev.len() {
                        assert(prev[k] == out@[k]);
                    }
                }
                if has_name(prev, n) {
                    let k = choose|k: int| 0 <= k < prev.len() && (#[trigger] prev[k])@ == n;
                    assert(out@[k] == prev[k]);
                }
                if mentions(*f, n) {
                    assert(out@[prev.len() as int]@ == n);
                }
            }
        },
        Format::Optional(b) => collect_format_refs(b, out),
        Format::Sequence(b) => collect_format_refs(b, out),
        Format::Mapping { key, value } => {
            collect_format_refs(key, out);
            collect_format_refs(value, out);
        },
        Format::Tuple(v) => {
            collect_list_refs(v, out);
        },
        Format::TupleArray { content, size: _ } => collect_format_refs(content, out),
        _ => {},
    }
}

/// Appends to `out` the names of the containers that the formats of `v` reference.
pub fn collect_list_refs(v: &Vec<Format>, out: &mut Vec<String>)
    ensures
        forall|n: Seq<char>| #![trigger has_name(final(out)@, n)] has_name(final(out)@, n) <==> (has_name(old(out)@, n) || list_mentions(v@, n)),
    decreases v,
{
    let ghost start = out@;
    let mut i: usize = 0;
    while i < v.len()
        invariant
            i <= v.len(),
            forall|n: Seq<char>| #![trigger has_name(out@, n)] has_name(out@, n) <==> (has_name(start, n) || list_mentions(v@.subrange(0, i as int), n)),
        decreases v.len() - i,
    {
        let ghost prev = out@;
        collect_format_refs(&v[i], out);
        proof {
            assert forall|n: Seq<char>| list_mentions(v@.subrange(0, i + 1), n) <==> (list_mentions(v@.subrange(0, i as int), n) || mentions(v@[i as int], n)) by {
                let s1 = v@.subrange(0, i + 1);
                let s0 = v@.subrange(0, i as int);
                if list_mentions(s1, n) {
                    let j = choose|j: int| 0 <= j < s1.len() && mentions(#[trigger] s1[j], n);
                    if j < i {
                        assert(s0[j] == s1[j]);
                    }
                }
                if list_mentions(s0, n) {
                    let j = choose|j: int| 0 <= j < s0.len() && mentions(#[trigger] s0[j], n);
                    assert(s0[j] == s1[j]);
                }
                if mentions(v@[i as int], n) {
                    assert(s1[i as int] == v@[i as int]);
                }
            }
        }
        i = i + 1;
    }
    assert(v@.subrange(0, v.len() as int) =~= v@);
}

/// Appends to `out` the names of the containers that the fields of `v` reference.
fn collect_field_refs(v: &Vec<Named<Format>>, out: &mut Vec<String>)
    ensures
        forall|n: Seq<char>| #![trigger has_name(final(out)@, n)] has_name(final(out)@, n) <==> (has_name(old(out)@, n) || fields_mention(v@, n)),
{
    let ghost start = out@;
    let mut i: usize = 0;
    while i < v.len()
        invariant
            i <= v.len(),
            forall|n: Seq<char>| #![trigger has_name(out@, n)] has_name(out@, n) <==> (has_name(start, n) || fields_mention(v@.subrange(0, i as int), n)),
        decreases v.len() - i,
    {
        collect_format_refs(&v[i].value, out);
        proof {
            assert forall|n: Seq<char>| fields_mention(v@.subrange(0, i + 1), n) <==> (fields_mention(v@.subrange(0, i as int), n) || mentions(v@[i as int].value, n)) by {
                let s1 = v@.subrange(0, i + 1);
                let s0 = v@.subrange(0, i as int);
                if fields_mention(s1, n) {
                    let j = choose|j: int| 0 <= j < s1.len() && mentions(#[trigger] s1[j].value, n);
                    if j < i {
                        assert(s0[j] == s1[j]);
                    }
                }
                if fields_mention(s0, n) {
                    let j = choose|j: int| 0 <= j < s0.len() && mentions(#[trigger] s0[j].value, n);
                    assert(s0[j] == s1[j]);
                }
                if mentions(v@[i as int].value, n) {
                    assert(s1[i as int] == v@[i as int]);
                }
            }
        }
        i = i + 1;
    }
    assert(v@.subrange(0, v.len() as int) =~= v@);
}

fn collect_variant_refs(f: &VariantFormat, out: &mut Vec<String>)
    ensures
        forall|n: Seq<char>| #![trigger has_name(final(out)@, n)] has_name(final(out)@, n) <==> (has_name(old(out)@, n) || variant_mentions(*f, n)),
{
    match f {
        VariantFormat::Unit => {},
        VariantFormat::NewType(b) => collect_format_refs(b, out),
        VariantFormat::Tuple(v) => collect_list_refs(v, out),
        VariantFormat::Struct(v) => collect_field_refs(v, out),
    }
}

/// Appends to `out` the names of the containers that `c` references, at any depth.
pub fn collect_container_refs(c: &ContainerFormat, out: &mut Vec<String>)
    ensures
        forall|n: Seq<char>| #![trigger has_name(final(out)@, n)] has_name(final(out)@, n) <==> (has_name(old(out)@, n) || container_mentions(*c, n)),
{
    match c {
        ContainerFormat::UnitStruct => {},
        ContainerFormat::NewTypeStruct(b) => collect_format_refs(b, out),
        ContainerFormat::TupleStruct(v) => collect_list_refs(v, out),
        ContainerFormat::Struct(v) => collect_field_refs(v, out),
        ContainerFormat::Enum(v) => {
            let ghost start = out@;
            let mut i: usize = 0;
            while i < v.len()
                invariant
                    i <= v.len(),
                    forall|n: Seq<char>| #![trigger has_name(out@, n)] has_name(out@, n) <==> (has_name(start, n) || exists|j: int|
                        0 <= j < i && variant_mentions(#[trigger] v@[j].1.value, n)),
                decreases v.len() - i,
            {
                collect_variant_refs(&v[i].1.value, out);
                i = i + 1;
            }
        },
    }
}

} // verus!
