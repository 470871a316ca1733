//! What the event derive computes: the stable text that describes an event type, the
//! identifier hashed from it, and the order in which sorted events list their fields.
use vstd::prelude::*;
use std::collections::hash_map::DefaultHasher;
use std::hash::Hasher;
use vstd::std_specs::hash::DefaultHasherAdditionalSpecFns;
use crate::text::{join_strings, owned, push_str, seq_join, views_of};

verus! {

/// The hash of a string: `DefaultHasher` fed the string's bytes and then the `0xff`
/// terminator that `str`'s `Hash` adds.
pub open spec fn str_hash(bytes: Seq<u8>) -> u64 {
    DefaultHasher::spec_finish(seq![bytes, seq![0xffu8]])
}

/// Hashes `s` the way `Hash for str` does with a fresh `DefaultHasher`.
pub fn hash(s: &str) -> (h: u64)
    ensures
        h == str_hash(vstd::utf8::encode_utf8(s@)),
{
    let mut hasher = DefaultHasher::new();
    hasher.write(s.as_bytes());
    let end: [u8; 1] = [0xff];
    hasher.write(end.as_slice());
    proof {
        assert(end@ =~= seq![0xffu8]);
        assert(seq![vstd::utf8::encode_utf8(s@), seq![0xffu8]] =~= Seq::<Seq<u8>>::empty().push(vstd::utf8::encode_utf8(s@)).push(seq![0xffu8]));
    }
    hasher.finish()
}

/// The shape of a type that derives `Event`.
#[derive(Debug)]
pub enum EventShape {
    /// A struct with named fields: each field's name and the text of its type.
    Named(Vec<(String, String)>),
    /// A unit struct.
    Unit,
    /// A tuple struct: the text of each field's type.
    Unnamed(Vec<String>),
    /// An enum: its variants.
    Enum(Vec<VariantShape>),
}

/// One variant of an enum that derives `Event`.
#[derive(Debug)]
pub struct VariantShape {
    /// The variant's name.
    pub name: String,
    /// The text of the variant's fields (empty for a unit variant).
    pub fields: String,
    /// The text of its discriminant, if it has one.
    pub discriminant: Option<String>,
}

/// `name:type` for a named field.
pub open spec fn field_text(f: (String, String)) -> Seq<char> {
    f.0@ + ":"@ + f.1@
}

/// A variant's name, its fields, and `=discriminant` if it has one.
pub open spec fn variant_text(v: VariantShape) -> Seq<char> {
    v.name@ + v.fields@ + match v.discriminant {
        Some(d) => "="@ + d@,
        None => Seq::<char>::empty(),
    }
}

/// The text that identifies an event type of package `pkg` named `name`:
/// `pkg@struct~Name{a:A;b:B}`, `pkg@struct~Name`, `pkg@struct~Name(A,B)` or
/// `pkg@enum~Name{V1,V2(A)=3}`.
pub open spec fn event_type_text(pkg: Seq<char>, name: Seq<char>, shape: EventShape) -> Seq<char> {
    match shape {
        EventShape::Named(fs) => pkg + "@struct~"@ + name + "{"@ + seq_join(
            fs@.map_values(|f: (String, String)| field_text(f)),
            ";"@,
        ) + "}"@,
        EventShape::Unit => pkg + "@struct~"@ + name,
        EventShape::Unnamed(ts) => pkg + "@struct~"@ + name + "("@ + seq_join(views_of(ts@), ","@)
            + ")"@,
        EventShape::Enum(vs) => pkg + "@enum~"@ + name + "{"@ + seq_join(
            vs@.map_values(|v: VariantShape| variant_text(v)),
            ","@,
        ) + "}"@,
    }
}

/// A field's text is its name, a colon and its type: it starts with the name.
pub proof fn lemma_field_text(f: (String, String))
    ensures
        field_text(f) == f.0@ + ":"@ + f.1@,
        field_text(f).take(f.0@.len() as int) == f.0@,
{
    assert((f.0@ + ":"@ + f.1@).take(f.0@.len() as int) =~= f.0@);
}

/// A variant's text is its name, then the text of its fields, then `=` and its
/// discriminant if it has one: it starts with the name, whatever the variant holds.
pub proof fn lemma_variant_text(v: VariantShape)
    ensures
        variant_text(v) == v.name@ + v.fields@ + match v.discriminant {
            Some(d) => "="@ + d@,
            None => Seq::<char>::empty(),
        },
        variant_text(v).take(v.name@.len() as int) == v.name@,
{
    let tail = v.fields@ + match v.discriminant {
        Some(d) => "="@ + d@,
        None => Seq::<char>::empty(),
    };
    assert(v.name@ + v.fields@ + match v.discriminant {
        Some(d) => "="@ + d@,
        None => Seq::<char>::empty(),
    } =~= v.name@ + tail);
    assert((v.name@ + tail).take(v.name@.len() as int) =~= v.name@);
}

/// The identifying text of an event type: the package name and `@`, then `struct~` or
/// `enum~` and the type's name, then `{name:type;...}` for named fields, nothing for a
/// unit struct, `(type,...)` for a tuple struct, or `{variant,...}` for an enum. It
/// always starts with the package name followed by `@`.
pub proof fn lemma_event_type_text_parts(pkg: Seq<char>, name: Seq<char>, shape: EventShape)
    ensures
        event_type_text(pkg, name, shape).take(pkg.len() + 1int) == pkg + "@"@,
        match shape {
            EventShape::Named(fs) => event_type_text(pkg, name, shape) == pkg + "@struct~"@ + name + "{"@
                + seq_join(fs@.map_values(|f: (String, String)| f.0@ + ":"@ + f.1@), ";"@) + "}"@,
            EventShape::Unit => event_type_text(pkg, name, shape) == pkg + "@struct~"@ + name,
            EventShape::Unnamed(ts) => event_type_text(pkg, name, shape) == pkg + "@struct~"@ + name
                + "("@ + seq_join(views_of(ts@), ","@) + ")"@,
            EventShape::Enum(vs) => event_type_text(pkg, name, shape) == pkg + "@enum~"@ + name + "{"@
                + seq_join(
                vs@.map_values(
                    |v: VariantShape|
                        v.name@ + v.fields@ + match v.discriminant {
                            Some(d) => "="@ + d@,
                            None => Seq::<char>::empty(),
                        },
                ),
                ","@,
            ) + "}"@,
        },
{
    reveal_strlit("@");
    reveal_strlit("@struct~");
    reveal_strlit("@enum~");
    let t = event_type_text(pkg, name, shape);
    match shape {
        EventShape::Named(fs) => {
            assert(fs@.map_values(|f: (String, String)| field_text(f)) =~= fs@.map_values(
                |f: (String, String)| f.0@ + ":"@ + f.1@,
            ));
            let rest = name + "{"@ + seq_join(fs@.map_values(|f: (String, String)| field_text(f)), ";"@) + "}"@;
            assert(t =~= pkg + "@struct~"@ + rest);
            assert((pkg + "@struct~"@ + rest).take(pkg.len() + 1int) =~= pkg + "@"@);
        },
        EventShape::Unit => {
            assert((pkg + "@struct~"@ + name).take(pkg.len() + 1int) =~= pkg + "@"@);
        },
        EventShape::Unnamed(ts) => {
            let rest = name + "("@ + seq_join(views_of(ts@), ","@) + ")"@;
            assert(t =~= pkg + "@struct~"@ + rest);
            assert((pkg + "@struct~"@ + rest).take(pkg.len() + 1int) =~= pkg + "@"@);
        },
        EventShape::Enum(vs) => {
            assert(vs@.map_values(|v: VariantShape| variant_text(v)) =~= vs@.map_values(
                |v: VariantShape|
                    v.name@ + v.fields@ + match v.discriminant {
                        Some(d) => "="@ + d@,
                        None => Seq::<char>::empty(),
                    },
            ));
            let rest = name + "{"@ + seq_join(vs@.map_values(|v: VariantShape| variant_text(v)), ","@) + "}"@;
            assert(t =~= pkg + "@enum~"@ + rest);
            assert((pkg + "@enum~"@ + rest).take(pkg.len() + 1int) =~= pkg + "@"@);
        },
    }
}

/// Event types of two different packages never share their identifying text, whatever
/// their names and shapes, as long as neither package name holds an `@`.
pub proof fn lemma_packages_give_distinct_texts(
    pkg1: Seq<char>,
    name1: Seq<char>,
    shape1: EventShape,
    pkg2: Seq<char>,
    name2: Seq<char>,
    shape2: EventShape,
)
    requires
        pkg1 != pkg2,
        !pkg1.contains('@'),
        !pkg2.contains('@'),
    ensures
        event_type_text(pkg1, name1, shape1) != event_type_text(pkg2, name2, shape2),
{
    reveal_strlit("@");
    lemma_event_type_text_parts(pkg1, name1, shape1);
    lemma_event_type_text_parts(pkg2, name2, shape2);
    let t1 = event_type_text(pkg1, name1, shape1);
    let t2 = event_type_text(pkg2, name2, shape2);
    if t1 == t2 {
        let h1 = t1.take(pkg1.len() + 1int);
        let h2 = t2.take(pkg2.len() + 1int);
        if pkg1.len() == pkg2.len() {
            assert(h1 == h2);
            assert(pkg1 =~= h1.take(pkg1.len() as int));
            assert(pkg2 =~= h2.take(pkg2.len() as int));
        } else if pkg1.len() < pkg2.len() {
            assert(h1[pkg1.len() as int] == '@');
            assert(t1[pkg1.len() as int] == h1[pkg1.len() as int]);
            assert(t2[pkg1.len() as int] == h2[pkg1.len() as int]);
            assert(h2[pkg1.len() as int] == pkg2[pkg1.len() as int]);
            assert(pkg2.contains('@'));
        } else {
            assert(h2[pkg2.len() as int] == '@');
            assert(t2[pkg2.len() as int] == h2[pkg2.len() as int]);
            assert(t1[pkg2.len() as int] == h1[pkg2.len() as int]);
            assert(h1[pkg2.len() as int] == pkg1[pkg2.len() as int]);
            assert(pkg1.contains('@'));
        }
    }
}

fn field_texts(fs: &Vec<(String, String)>) -> (r: Vec<String>)
    ensures
        views_of(r@) == fs@.map_values(|f: (String, String)| field_text(f)),
{
    let mut r: Vec<String> = Vec::new();
    let mut i: usize = 0;
    while i < fs.len()
        invariant
            i <= fs@.len(),
            r@.len() == i,
            forall|j: int| 0 <= j < i ==> #[trigger] r@[j]@ == field_text(fs@[j]),
        decreases fs@.len() - i,
    {
        let mut t = owned(fs[i].0.as_str());
        push_str(&mut t, ":");
        push_str(&mut t, fs[i].1.as_str());
        r.push(t);
        i = i + 1;
    }
    assert(views_of(r@) =~= fs@.map_values(|f: (String, String)| field_text(f)));
    r
}

fn variant_texts(vs: &Vec<VariantShape>) -> (r: Vec<String>)
    ensures
        views_of(r@) == vs@.map_values(|v: VariantShape| variant_text(v)),
{
    let mut r: Vec<String> = Vec::new();
    let mut i: usize = 0;
    while i < vs.len()
        invariant
            i <= vs@.len(),
            r@.len() == i,
            forall|j: int| 0 <= j < i ==> #[trigger] r@[j]@ == variant_text(vs@[j]),
        decreases vs@.len() - i,
    {
        let v = &vs[i];
        let mut t = owned(v.name.as_str());
        push_str(&mut t, v.fields.as_str());
        match &v.discriminant {
            Some(d) => {
                push_str(&mut t, "=");
                push_str(&mut t, d.as_str());
            },
            None => {
                assert(t@ + Seq::<char>::empty() =~= t@);
            },
        }
        r.push(t);
        i = i + 1;
    }
    assert(views_of(r@) =~= vs@.map_values(|v: VariantShape| variant_text(v)));
    r
}

/// The text that identifies an event type (see [`event_type_text`]).
pub fn event_type_string(pkg_name: &str, name: &str, shape: &EventShape) -> (s: String)
    ensures
        s@ == event_type_text(pkg_name@, name@, *shape),
{
    let mut s = owned(pkg_name);
    match shape {
        EventShape::Named(fs) => {
            push_str(&mut s, "@struct~");
            push_str(&mut s, name);
            push_str(&mut s, "{");
            let items = field_texts(fs);
            let body = join_strings(&items, ";");
            push_str(&mut s, body.as_str());
            push_str(&mut s, "}");
        },
        EventShape::Unit => {
            push_str(&mut s, "@struct~");
            push_str(&mut s, name);
        },
        EventShape::Unnamed(ts) => {
            push_str(&mut s, "@struct~");
            push_str(&mut s, name);
            push_str(&mut s, "(");
            let body = join_strings(ts, ",");
            push_str(&mut s, body.as_str());
            push_str(&mut s, ")");
        },
        EventShape::Enum(vs) => {
            push_str(&mut s, "@enum~");
            push_str(&mut s, name);
            push_str(&mut s, "{");
            let items = variant_texts(vs);
            let body = join_strings(&items, ",");
            push_str(&mut s, body.as_str());
            push_str(&mut s, "}");
        },
    }
    s
}

/// The identifier of an event type: the hash of its identifying text.
pub fn event_type_id(pkg_name: &str, name: &str, shape: &EventShape) -> (id: u64)
    ensures
        id == str_hash(vstd::utf8::encode_utf8(event_type_text(pkg_name@, name@, *shape))),
{
    let t = event_type_string(pkg_name, name, shape);
    hash(t.as_str())
}

/// `(ka, ia)` comes strictly before `(kb, ib)`: by key, and by position among equal keys.
pub open spec fn key_index_lt(ka: u64, ia: int, kb: u64, ib: int) -> bool {
    ka < kb || (ka == kb && ia < ib)
}

/// `order` lists positions of `keys` in stable ascending order of their keys.
pub open spec fn is_stable_order(keys: Seq<u64>, order: Seq<usize>) -> bool {
    &&& forall|p: int| 0 <= p < order.len() ==> #[trigger] order[p] < keys.len()
    &&& forall|p: int, q: int|
        0 <= p < q < order.len() ==> key_index_lt(
            keys[order[p] as int],
            order[p] as int,
            keys[order[q] as int],
            order[q] as int,
        )
}

/// The positions `0..keys.len()` in the order of a stable sort by key: ascending keys,
/// and positions in ascending order among equal keys.
pub fn stable_order(keys: &Vec<u64>) -> (order: Vec<usize>)
    ensures
        order@.len() == keys@.len(),
        is_stable_order(keys@, order@),
        forall|x: int| 0 <= x < keys@.len() ==> #[trigger] order@.contains(x as usize),
{
    let n = keys.len();
    let mut order: Vec<usize> = Vec::new();
    let mut i: usize = 0;
    while i < n
        invariant
            n == keys@.len(),
            i <= n,
            order@.len() == i,
            forall|p: int| 0 <= p < order@.len() ==> #[trigger] order@[p] < i,
            is_stable_order(keys@, order@),
            forall|x: int| 0 <= x < i ==> #[trigger] order@.contains(x as usize),
        decreases n - i,
    {
        let k = keys[i];
        let mut j: usize = 0;
        while j < order.len() && keys[order[j]] <= k
            invariant
                n == keys@.len(),
                i < n,
                k == keys@[i as int],
                order@.len() == i,
                j <= order@.len(),
                forall|p: int| 0 <= p < order@.len() ==> #[trigger] order@[p] < i,
                is_stable_order(keys@, order@),
                forall|p: int| 0 <= p < j ==> keys@[#[trigger] order@[p] as int] <= k,
            decreases order@.len() - j,
        {
            j = j + 1;
        }
        let ghost old_order = order@;
        proof {
            assert forall|q: int| j <= q < old_order.len() implies keys@[#[trigger] old_order[q] as int] > k by {
                assert(keys@[old_order[j as int] as int] > k);
                if q > j {
                    assert(key_index_lt(
                        keys@[old_order[j as int] as int],
                        old_order[j as int] as int,
                        keys@[old_order[q] as int],
                        old_order[q] as int,
                    ));
                }
            }
        }
        order.insert(j, i);
        proof {
            assert(order@[j as int] == i);
            assert forall|x: int| 0 <= x < i + 1 implies #[trigger] order@.contains(x as usize) by {
                if x < i {
                    assert(old_order.contains(x as usize));
                    let p = choose|p: int| 0 <= p < old_order.len() && old_order[p] == x as usize;
                    if p < j {
                        assert(order@[p] == x as usize);
                    } else {
                        assert(order@[p + 1] == x as usize);
                    }
                }
            }
            assert forall|p: int| 0 <= p < order@.len() implies #[trigger] order@[p] < i + 1 by {
                if p < j {
                    assert(order@[p] == old_order[p]);
                } else if p > j {
                    assert(order@[p] == old_order[p - 1]);
                }
            }
            assert forall|p: int, q: int| 0 <= p < q < order@.len() implies key_index_lt(
                keys@[order@[p] as int],
                order@[p] as int,
                keys@[order@[q] as int],
                order@[q] as int,
            ) by {
                if q < j {
                    assert(order@[p] == old_order[p] && order@[q] == old_order[q]);
                } else if q == j {
                    assert(order@[p] == old_order[p]);
                    assert(keys@[old_order[p] as int] <= k);
                } else if p < j {
                    assert(order@[p] == old_order[p] && order@[q] == old_order[q - 1]);
                } else if p == j {
                    assert(order@[q] == old_order[q - 1]);
                    assert(keys@[old_order[q - 1] as int] > k);
                } else {
                    assert(order@[p] == old_order[p - 1] && order@[q] == old_order[q - 1]);
                }
            }
        }
        i = i + 1;
    }
    order
}

/// The hashes of `names`, by which sorted events order their fields.
pub open spec fn hash_keys(names: Seq<String>) -> Seq<u64> {
    names.map_values(|n: String| str_hash(vstd::utf8::encode_utf8(n@)))
}

/// The keys met along `order`.
pub open spec fn keys_along(keys: Seq<u64>, order: Seq<usize>) -> Seq<u64> {
    order.map_values(|p: usize| keys[p as int])
}

/// The names met along `order`.
pub open spec fn names_along(names: Seq<String>, order: Seq<usize>) -> Seq<Seq<char>> {
    order.map_values(|p: usize| names[p as int]@)
}

proof fn lemma_sorted_unique(a: Seq<u64>, b: Seq<u64>)
    requires
        a.len() == b.len(),
        forall|i: int, j: int| 0 <= i < j < a.len() ==> a[i] < a[j],
        forall|i: int, j: int| 0 <= i < j < b.len() ==> b[i] < b[j],
        forall|i: int| 0 <= i < a.len() ==> b.contains(#[trigger] a[i]),
        forall|i: int| 0 <= i < b.len() ==> a.contains(#[trigger] b[i]),
    ensures
        a == b,
    decreases a.len(),
{
    if a.len() > 0 {
        assert(b.contains(a[0]));
        assert(a.contains(b[0]));
        let j = choose|j: int| 0 <= j < b.len() && b[j] == a[0];
        let i = choose|i: int| 0 <= i < a.len() && a[i] == b[0];
        if j > 0 {
            assert(b[0] < b[j]);
        }
        if i > 0 {
            assert(a[0] < a[i]);
        }
        assert(a[0] == b[0]);
        let ta = a.drop_first();
        let tb = b.drop_first();
        assert forall|x: int| 0 <= x < ta.len() implies tb.contains(#[trigger] ta[x]) by {
            assert(ta[x] == a[x + 1]);
            assert(b.contains(a[x + 1]));
            let y = choose|y: int| 0 <= y < b.len() && b[y] == a[x + 1];
            assert(a[0] < a[x + 1]);
            assert(y != 0);
            assert(tb[y - 1] == ta[x]);
        }
        assert forall|x: int| 0 <= x < tb.len() implies ta.contains(#[trigger] tb[x]) by {
            assert(tb[x] == b[x + 1]);
            assert(a.contains(b[x + 1]));
            let y = choose|y: int| 0 <= y < a.len() && a[y] == b[x + 1];
            assert(b[0] < b[x + 1]);
            assert(y != 0);
            assert(ta[y - 1] == tb[x]);
        }
        lemma_sorted_unique(ta, tb);
        assert(a =~= seq![a[0]] + ta);
        assert(b =~= seq![b[0]] + tb);
    }
}

proof fn lemma_keys_along_increasing(keys: Seq<u64>, order: Seq<usize>)
    requires
        is_stable_order(keys, order),
        forall|i: int, j: int| 0 <= i < j < keys.len() ==> keys[i] != keys[j],
    ensures
        forall|p: int, q: int| 0 <= p < q < order.len() ==> keys_along(keys, order)[p] < keys_along(
            keys,
            order,
        )[q],
{
    assert forall|p: int, q: int| 0 <= p < q < order.len() implies keys_along(keys, order)[p]
        < keys_along(keys, order)[q] by {
        assert(key_index_lt(keys[order[p] as int], order[p] as int, keys[order[q] as int], order[q] as int));
        if keys[order[p] as int] == keys[order[q] as int] {
            assert(order[p] < order[q]);
        }
    }
}

proof fn lemma_keys_along_covers(a: Seq<String>, oa: Seq<usize>, b: Seq<String>, ob: Seq<usize>, i: int)
    requires
        0 <= i < oa.len(),
        b.len() <= usize::MAX,
        is_stable_order(hash_keys(a), oa),
        oa.len() == a.len(),
        ob.len() == b.len(),
        forall|x: int| 0 <= x < b.len() ==> #[trigger] ob.contains(x as usize),
        forall|x: int| 0 <= x < a.len() ==> views_of(b).contains(#[trigger] a[x]@),
    ensures
        keys_along(hash_keys(b), ob).contains(keys_along(hash_keys(a), oa)[i]),
{
    let x = oa[i] as int;
    assert(0 <= x < a.len());
    assert(views_of(b).contains(a[x]@));
    let y = choose|y: int| 0 <= y < views_of(b).len() && views_of(b)[y] == a[x]@;
    assert(b[y]@ == a[x]@);
    assert(ob.contains(y as usize));
    let q = choose|q: int| 0 <= q < ob.len() && ob[q] == y as usize;
    assert(0 <= y < b.len());
    assert(ob[q] as int == y);
    assert(hash_keys(b)[y] == hash_keys(a)[x]);
    assert(keys_along(hash_keys(b), ob)[q] == hash_keys(b)[ob[q] as int]);
    assert(keys_along(hash_keys(a), oa)[i] == hash_keys(a)[x]);
}

/// Sorting fields by the hash of their names does not depend on the order they were
/// written in: two lists of the same names, with pairwise distinct hashes, sort to the
/// same list of names, so they also describe the same event type.
pub proof fn lemma_sorted_names_independent_of_order(a: Seq<String>, b: Seq<String>, oa: Seq<usize>, ob: Seq<usize>)
    requires
        a.len() == b.len(),
        a.len() <= usize::MAX,
        forall|x: int| 0 <= x < a.len() ==> views_of(b).contains(#[trigger] a[x]@),
        forall|x: int| 0 <= x < b.len() ==> views_of(a).contains(#[trigger] b[x]@),
        forall|i: int, j: int| 0 <= i < j < a.len() ==> hash_keys(a)[i] != hash_keys(a)[j],
        forall|i: int, j: int| 0 <= i < j < b.len() ==> hash_keys(b)[i] != hash_keys(b)[j],
        oa.len() == a.len(),
        ob.len() == b.len(),
        is_stable_order(hash_keys(a), oa),
        is_stable_order(hash_keys(b), ob),
        forall|x: int| 0 <= x < a.len() ==> #[trigger] oa.contains(x as usize),
        forall|x: int| 0 <= x < b.len() ==> #[trigger] ob.contains(x as usize),
    ensures
        names_along(a, oa) == names_along(b, ob),
{
    let ka = hash_keys(a);
    let kb = hash_keys(b);
    let sa = keys_along(ka, oa);
    let sb = keys_along(kb, ob);
    lemma_keys_along_increasing(ka, oa);
    lemma_keys_along_increasing(kb, ob);
    assert forall|i: int| 0 <= i < sa.len() implies sb.contains(#[trigger] sa[i]) by {
        lemma_keys_along_covers(a, oa, b, ob, i);
    }
    assert forall|i: int| 0 <= i < sb.len() implies sa.contains(#[trigger] sb[i]) by {
        lemma_keys_along_covers(b, ob, a, oa, i);
    }
    lemma_sorted_unique(sa, sb);
    assert forall|i: int| 0 <= i < oa.len() implies names_along(a, oa)[i] == names_along(b, ob)[i] by {
        let x = oa[i] as int;
        assert(views_of(b).contains(a[x]@));
        let y = choose|y: int| 0 <= y < views_of(b).len() && views_of(b)[y] == a[x]@;
        assert(b[y]@ == a[x]@);
        assert(kb[y] == ka[x]);
        assert(sa[i] == sb[i]);
        assert(sb[i] == kb[ob[i] as int]);
        if (ob[i] as int) < y {
            assert(kb[ob[i] as int] != kb[y]);
        } else if y < (ob[i] as int) {
            assert(kb[y] != kb[ob[i] as int]);
        }
    }
    assert(names_along(a, oa) =~= names_along(b, ob));
}

/// The names of named fields.
pub open spec fn field_names(fs: Seq<(String, String)>) -> Seq<String> {
    fs.map_values(|f: (String, String)| f.0)
}

/// Named fields as pairs of name and type text.
pub open spec fn field_views(fs: Seq<(String, String)>) -> Seq<(Seq<char>, Seq<char>)> {
    fs.map_values(|f: (String, String)| (f.0@, f.1@))
}

/// The texts of the fields met along `order`.
pub open spec fn fields_along(fs: Seq<(String, String)>, order: Seq<usize>) -> Seq<Seq<char>> {
    order.map_values(|p: usize| field_text(fs[p as int]))
}

/// Declaring a sorted struct's fields in another order changes nothing: when two field
/// lists hold the same fields (name and type) and the names' hashes are pairwise
/// distinct, sorting each by the hash of the names gives the same fields in the same
/// order, so the two declarations have the same identifying text, and so the same id.
pub proof fn lemma_sorted_fields_independent_of_order(
    fa: Seq<(String, String)>,
    fb: Seq<(String, String)>,
    oa: Seq<usize>,
    ob: Seq<usize>,
    pkg: Seq<char>,
    name: Seq<char>,
    sorted_a: Vec<(String, String)>,
    sorted_b: Vec<(String, String)>,
)
    requires
        fa.len() == fb.len(),
        fa.len() <= usize::MAX,
        forall|x: int| 0 <= x < fa.len() ==> field_views(fb).contains(#[trigger] field_views(fa)[x]),
        forall|x: int| 0 <= x < fb.len() ==> field_views(fa).contains(#[trigger] field_views(fb)[x]),
        forall|i: int, j: int|
            0 <= i < j < fa.len() ==> hash_keys(field_names(fa))[i] != hash_keys(field_names(fa))[j],
        forall|i: int, j: int|
            0 <= i < j < fb.len() ==> hash_keys(field_names(fb))[i] != hash_keys(field_names(fb))[j],
        oa.len() == fa.len(),
        ob.len() == fb.len(),
        is_stable_order(hash_keys(field_names(fa)), oa),
        is_stable_order(hash_keys(field_names(fb)), ob),
        forall|x: int| 0 <= x < fa.len() ==> #[trigger] oa.contains(x as usize),
        forall|x: int| 0 <= x < fb.len() ==> #[trigger] ob.contains(x as usize),
        sorted_a@.map_values(|f: (String, String)| field_text(f)) == fields_along(fa, oa),
        sorted_b@.map_values(|f: (String, String)| field_text(f)) == fields_along(fb, ob),
    ensures
        fields_along(fa, oa) == fields_along(fb, ob),
        event_type_text(pkg, name, EventShape::Named(sorted_a)) == event_type_text(
            pkg,
            name,
            EventShape::Named(sorted_b),
        ),
{
    let na = field_names(fa);
    let nb = field_names(fb);
    assert forall|x: int| 0 <= x < na.len() implies views_of(nb).contains(#[trigger] na[x]@) by {
        assert(field_views(fb).contains(field_views(fa)[x]));
        let y = choose|y: int| 0 <= y < field_views(fb).len() && field_views(fb)[y] == field_views(fa)[x];
        assert(views_of(nb)[y] == na[x]@);
    }
    assert forall|x: int| 0 <= x < nb.len() implies views_of(na).contains(#[trigger] nb[x]@) by {
        assert(field_views(fa).contains(field_views(fb)[x]));
        let y = choose|y: int| 0 <= y < field_views(fa).len() && field_views(fa)[y] == field_views(fb)[x];
        assert(views_of(na)[y] == nb[x]@);
    }
    lemma_sorted_names_independent_of_order(na, nb, oa, ob);
    assert forall|i: int| 0 <= i < oa.len() implies fields_along(fa, oa)[i] == fields_along(fb, ob)[i] by {
        let x = oa[i] as int;
        let z = ob[i] as int;
        assert(names_along(na, oa)[i] == names_along(nb, ob)[i]);
        assert(na[x]@ == nb[z]@);
        assert(field_views(fb).contains(field_views(fa)[x]));
        let y = choose|y: int| 0 <= y < field_views(fb).len() && field_views(fb)[y] == field_views(fa)[x];
        assert(nb[y]@ == na[x]@);
        assert(hash_keys(nb)[y] == hash_keys(nb)[z]);
        if y < z {
            assert(hash_keys(nb)[y] != hash_keys(nb)[z]);
        } else if z < y {
            assert(hash_keys(nb)[z] != hash_keys(nb)[y]);
        }
        assert(fb[z].1@ == fa[x].1@);
    }
    assert(fields_along(fa, oa) =~= fields_along(fb, ob));
}

/// The order in which a sorted event lists its fields (or variants): a stable sort of the
/// names by their hash.
pub fn sort_order_by_hash(names: &Vec<String>) -> (order: Vec<usize>)
    ensures
        order@.len() == names@.len(),
        exists|keys: Seq<u64>|
            keys.len() == names@.len() && (forall|i: int|
                0 <= i < names@.len() ==> #[trigger] keys[i] == str_hash(vstd::utf8::encode_utf8(names@[i]@)))
                && is_stable_order(keys, order@),
        forall|x: int| 0 <= x < names@.len() ==> #[trigger] order@.contains(x as usize),
{
    let mut keys: Vec<u64> = Vec::new();
    let mut i: usize = 0;
    while i < names.len()
        invariant
            i <= names@.len(),
            keys@.len() == i,
            forall|j: int| 0 <= j < i ==> #[trigger] keys@[j] == str_hash(vstd::utf8::encode_utf8(names@[j]@)),
        decreases names@.len() - i,
    {
        let h = hash(names[i].as_str());
        keys.push(h);
        i = i + 1;
    }
    let order = stable_order(&keys);
    order
}

} // verus!
