//! The array comparator: active only in unordered mode. For each shared key
//! holding arrays on both sides it renders every element to its display form,
//! counts occurrences per distinct rendered value, and emits one
//! `AHas`/`BMisses` record pair per occurrence that `a` has over `b`, and one
//! `BHas`/`AMisses` pair per occurrence that `b` has over `a` — so duplicate
//! occurrences are accounted for exactly, unlike a set difference.

use vstd::prelude::*;

use crate::diff_types::lemma_views_of_concat;
use crate::diff_types::lemma_views_of_push;
use crate::diff_types::views_of;
use crate::diff_types::ArrayDiff;
use crate::diff_types::ArrayDiffDesc;
use crate::diff_types::ArrayDiffV;
use crate::diff_types::CtxV;
use crate::diff_types::WorkingContext;
use crate::paths::format_key;
use crate::paths::spec_format_key;
use crate::render::display_spec;
use crate::render::render_display;
use crate::value::get_value;
use crate::value::lemma_lookup_unique;
use crate::value::obj_wf;
use crate::value::value_wf;
use crate::value::lookup;
use crate::value::str_eq;
use crate::value::Value;

verus! {

/// How many entries of `s` from position `i` on equal `v`.
pub open spec fn count_from(s: Seq<Seq<char>>, v: Seq<char>, i: int) -> nat
    decreases s.len() - i,
{
    if i < 0 || i >= s.len() {
        0
    } else {
        (if s[i] == v {
            1nat
        } else {
            0nat
        }) + count_from(s, v, i + 1)
    }
}

/// How many entries of `s` equal `v`.
pub open spec fn count_occ(s: Seq<Seq<char>>, v: Seq<char>) -> nat {
    count_from(s, v, 0)
}

/// Position `i` is the first occurrence of its value in `s`.
pub open spec fn first_occ(s: Seq<Seq<char>>, i: int) -> bool {
    forall|j: int| 0 <= j < i ==> s[j] != s[i]
}

pub open spec fn repeat_val(v: Seq<char>, n: nat) -> Seq<Seq<char>> {
    Seq::new(n, |k: int| v)
}

/// The rendered values that `ra` holds more often than `rb`: walking `ra`
/// from position `i` on, each distinct value whose count in `ra` exceeds its
/// count in `rb` contributes, at its first occurrence, one entry per excess
/// occurrence.
pub open spec fn extras(ra: Seq<Seq<char>>, rb: Seq<Seq<char>>, i: int) -> Seq<Seq<char>>
    decreases ra.len() - i,
{
    if i < 0 || i >= ra.len() {
        Seq::<Seq<char>>::empty()
    } else {
        let rest = extras(ra, rb, i + 1);
        if first_occ(ra, i) && count_occ(ra, ra[i]) > count_occ(rb, ra[i]) {
            repeat_val(ra[i], (count_occ(ra, ra[i]) - count_occ(rb, ra[i])) as nat) + rest
        } else {
            rest
        }
    }
}

/// Every element of an array in display form.
pub open spec fn rendered(items: Seq<Value>) -> Seq<Seq<char>> {
    items.map_values(|v: Value| display_spec(v))
}

/// One record per value, all under the same path and descriptor.
pub open spec fn desc_records(path: Seq<char>, vals: Seq<Seq<char>>, d: ArrayDiffDesc) -> Seq<
    ArrayDiffV,
> {
    vals.map_values(|v: Seq<char>| ArrayDiffV { key: path, descriptor: d, value: v })
}

/// All records of one array pair, from the two rendered element sequences:
/// `AHas` and `BMisses` records for what `a` has over `b`, `BHas` and
/// `AMisses` records for what `b` has over `a`.
pub open spec fn multiset_pairs(path: Seq<char>, ra: Seq<Seq<char>>, rb: Seq<Seq<char>>) -> Seq<
    ArrayDiffV,
> {
    let ea = extras(ra, rb, 0);
    let eb = extras(rb, ra, 0);
    desc_records(path, ea, ArrayDiffDesc::AHas) + desc_records(path, eb, ArrayDiffDesc::AMisses)
        + desc_records(path, eb, ArrayDiffDesc::BHas) + desc_records(
        path,
        ea,
        ArrayDiffDesc::BMisses,
    )
}

/// All array diffs of one object pair: nothing at all in ordered mode,
/// otherwise the walk over the keys shared by `a` and `b`.
pub open spec fn array_diffs_spec(
    prefix: Seq<char>,
    a: Seq<(String, Value)>,
    b: Seq<(String, Value)>,
    ctx: CtxV,
) -> Seq<ArrayDiffV> {
    if ctx.ordered {
        Seq::<ArrayDiffV>::empty()
    } else {
        array_walk(prefix, a, b, ctx, 0)
    }
}

/// The walk over `a`'s fields from position `i` on; only fields that `b`
/// also has take part.
pub open spec fn array_walk(
    prefix: Seq<char>,
    a: Seq<(String, Value)>,
    b: Seq<(String, Value)>,
    ctx: CtxV,
    i: int,
) -> Seq<ArrayDiffV>
    decreases a, 2int, a.len() - i,
{
    if i < 0 || i >= a.len() {
        Seq::<ArrayDiffV>::empty()
    } else {
        let here = match lookup(b, a[i].0@) {
            Some(bv) => array_vals(spec_format_key(prefix, a[i].0@), a[i].1, bv, ctx),
            None => Seq::<ArrayDiffV>::empty(),
        };
        here + array_walk(prefix, a, b, ctx, i + 1)
    }
}

/// The array diffs at and below one matched pair of values: object pairs are
/// entered, and an array pair contributes its multiset difference.
pub open spec fn array_vals(path: Seq<char>, av: Value, bv: Value, ctx: CtxV) -> Seq<ArrayDiffV>
    decreases av, 3int, 0int,
{
    (if av is Object && bv is Object {
        array_walk(path, av->Object_0@, bv->Object_0@, ctx, 0)
    } else {
        Seq::<ArrayDiffV>::empty()
    }) + (if av is Array && bv is Array {
        multiset_pairs(path, rendered(av->Array_0@), rendered(bv->Array_0@))
    } else {
        Seq::<ArrayDiffV>::empty()
    })
}

/// Renders every element of an array to its display form.
#[verifier::loop_isolation(false)]
fn render_all(items: &Vec<Value>) -> (r: Vec<String>)
    ensures
        views_of(r@) == rendered(items@),
{
    let mut out: Vec<String> = Vec::new();
    let mut i: usize = 0;
    while i < items.len()
        invariant
            0 <= i <= items@.len(),
            views_of(out@) == rendered(items@.take(i as int)),
        decreases items@.len() - i,
    {
        let s = render_display(&items[i]);
        proof {
            lemma_views_of_push(out@, s);
            assert(views_of(out@).push(s@) =~= rendered(items@.take(i as int + 1)));
        }
        out.push(s);
        i += 1;
    }
    proof {
        assert(items@.take(items@.len() as int) =~= items@);
    }
    out
}

/// Counts how many entries of `items` equal `v`.
#[verifier::loop_isolation(false)]
fn count_in(items: &Vec<String>, v: &str) -> (r: usize)
    ensures
        r == count_occ(views_of(items@), v@),
{
    let mut c: usize = 0;
    let mut i: usize = 0;
    while i < items.len()
        invariant
            0 <= i <= items@.len(),
            c <= i,
            c + count_from(views_of(items@), v@, i as int) == count_occ(views_of(items@), v@),
        decreases items@.len() - i,
    {
        if str_eq(items[i].as_str(), v) {
            c += 1;
        }
        i += 1;
    }
    c
}

/// Decides whether position `i` is the first occurrence of its value.
#[verifier::loop_isolation(false)]
fn is_first_occurrence(items: &Vec<String>, i: usize) -> (r: bool)
    requires
        i < items@.len(),
    ensures
        r == first_occ(views_of(items@), i as int),
{
    let mut j: usize = 0;
    while j < i
        invariant
            0 <= j <= i,
            forall|k: int| 0 <= k < j ==> views_of(items@)[k] != views_of(items@)[i as int],
        decreases i - j,
    {
        if str_eq(items[j].as_str(), items[i].as_str()) {
            assert(views_of(items@)[j as int] == views_of(items@)[i as int]);
            return false;
        }
        j += 1;
    }
    true
}

/// Collects the rendered values that `ra` holds more often than `rb`, with
/// their excess multiplicities.
#[verifier::loop_isolation(false)]
fn compute_extras(ra: &Vec<String>, rb: &Vec<String>) -> (r: Vec<String>)
    ensures
        views_of(r@) == extras(views_of(ra@), views_of(rb@), 0),
{
    let ghost sra = views_of(ra@);
    let ghost srb = views_of(rb@);
    let mut out: Vec<String> = Vec::new();
    proof {
        assert(views_of(out@) =~= Seq::<Seq<char>>::empty());
        assert(views_of(out@) + extras(sra, srb, 0) =~= extras(sra, srb, 0));
    }
    let mut i: usize = 0;
    while i < ra.len()
        invariant
            0 <= i <= sra.len(),
            views_of(out@) + extras(sra, srb, i as int) == extras(sra, srb, 0),
        decreases sra.len() - i,
    {
        if is_first_occurrence(ra, i) {
            let ca = count_in(ra, ra[i].as_str());
            let cb = count_in(rb, ra[i].as_str());
            if ca > cb {
                let d = ca - cb;
                let ghost base = views_of(out@);
                let mut m: usize = 0;
                while m < d
                    invariant
                        0 <= m <= d,
                        d == count_occ(sra, sra[i as int]) - count_occ(srb, sra[i as int]),
                        i < sra.len(),
                        views_of(out@) == base + repeat_val(sra[i as int], m as nat),
                    decreases d - m,
                {
                    let c = ra[i].clone();
                    proof {
                        lemma_views_of_push(out@, c);
                        assert(views_of(out@).push(c@) =~= base + repeat_val(
                            sra[i as int],
                            m as nat + 1,
                        ));
                    }
                    out.push(c);
                    m += 1;
                }
                proof {
                    assert((base + repeat_val(sra[i as int], d as nat)) + extras(
                        sra,
                        srb,
                        i as int + 1,
                    ) =~= base + (repeat_val(sra[i as int], d as nat) + extras(
                        sra,
                        srb,
                        i as int + 1,
                    )));
                }
            }
        }
        i += 1;
    }
    out
}

/// Appends one record per value of `vals`, all under `path` with descriptor
/// `desc`.
#[verifier::loop_isolation(false)]
fn push_records(diffs: &mut Vec<ArrayDiff>, path: &str, vals: &Vec<String>, desc: ArrayDiffDesc)
    ensures
        views_of(final(diffs)@) == views_of(old(diffs)@) + desc_records(
            path@,
            views_of(vals@),
            desc,
        ),
{
    let ghost base = views_of(diffs@);
    let mut m: usize = 0;
    while m < vals.len()
        invariant
            0 <= m <= vals@.len(),
            views_of(diffs@) == base + desc_records(path@, views_of(vals@).take(m as int), desc),
        decreases vals@.len() - m,
    {
        let d = ArrayDiff::new(path.to_owned(), desc, vals[m].clone());
        proof {
            lemma_views_of_push(diffs@, d);
            assert(views_of(diffs@).push(d@) =~= base + desc_records(
                path@,
                views_of(vals@).take(m as int + 1),
                desc,
            ));
        }
        diffs.push(d);
        m += 1;
    }
    proof {
        assert(views_of(vals@).take(views_of(vals@).len() as int) =~= views_of(vals@));
    }
}

/// Finds the array-content differences of an object pair. In ordered mode
/// the result is always empty: positional differences are the value
/// comparator's task. In unordered mode every shared key holding arrays on
/// both sides contributes its multiset difference.
#[verifier::loop_isolation(false)]
pub fn find_array_diffs(
    key_in: &str,
    a: &Vec<(String, Value)>,
    b: &Vec<(String, Value)>,
    working_context: &WorkingContext,
) -> (r: Vec<ArrayDiff>)
    ensures
        views_of(r@) == array_diffs_spec(key_in@, a@, b@, working_context@),
        working_context.config.array_same_order ==> r@.len() == 0,
{
    let mut diffs: Vec<ArrayDiff> = Vec::new();
    if working_context.config.array_same_order {
        proof {
            assert(views_of(diffs@) =~= Seq::<ArrayDiffV>::empty());
        }
        return diffs;
    }
    diffs = array_diffs_walk(key_in, a, b, working_context);
    diffs
}

/// The walk over the shared keys; see `array_walk`.
#[verifier::loop_isolation(false)]
fn array_diffs_walk(
    key_in: &str,
    a: &Vec<(String, Value)>,
    b: &Vec<(String, Value)>,
    working_context: &WorkingContext,
) -> (r: Vec<ArrayDiff>)
    ensures
        views_of(r@) == array_walk(key_in@, a@, b@, working_context@, 0),
    decreases a@, 2int, 0int,
{
    let ghost ctx = working_context@;
    let mut diffs: Vec<ArrayDiff> = Vec::new();
    proof {
        assert(views_of(diffs@) =~= Seq::<ArrayDiffV>::empty());
        assert(views_of(diffs@) + array_walk(key_in@, a@, b@, ctx, 0) =~= array_walk(
            key_in@,
            a@,
            b@,
            ctx,
            0,
        ));
    }
    let mut i: usize = 0;
    while i < a.len()
        invariant
            0 <= i <= a@.len(),
            views_of(diffs@) + array_walk(key_in@, a@, b@, ctx, i as int) == array_walk(
                key_in@,
                a@,
                b@,
                ctx,
                0,
            ),
        decreases a@.len() - i,
    {
        let found = get_value(b, a[i].0.as_str());
        match found {
            Some(bv) => {
                let path = format_key(key_in, a[i].0.as_str());
                proof {
                    assert(decreases_to!(a@ => a@[i as int]));
                    assert(decreases_to!(a@[i as int] => a@[i as int].1));
                    assert(decreases_to!(a@ => a@[i as int].1));
                }
                let mut sub = array_diffs_in_values(path.as_str(), &a[i].1, bv, working_context);
                proof {
                    lemma_views_of_concat(diffs@, sub@);
                    assert((views_of(diffs@) + views_of(sub@)) + array_walk(
                        key_in@,
                        a@,
                        b@,
                        ctx,
                        i as int + 1,
                    ) =~= views_of(diffs@) + (views_of(sub@) + array_walk(
                        key_in@,
                        a@,
                        b@,
                        ctx,
                        i as int + 1,
                    )));
                }
                diffs.append(&mut sub);
            },
            None => {},
        }
        i += 1;
    }
    proof {
        assert(views_of(diffs@) + array_walk(key_in@, a@, b@, ctx, a@.len() as int) =~= views_of(
            diffs@,
        ));
    }
    diffs
}

/// The array diffs at and below one matched pair of values; see
/// `array_vals`.
#[verifier::loop_isolation(false)]
fn array_diffs_in_values(path: &str, av: &Value, bv: &Value, working_context: &WorkingContext) -> (r:
    Vec<ArrayDiff>)
    ensures
        views_of(r@) == array_vals(path@, *av, *bv, working_context@),
    decreases *av, 3int, 0int,
{
    let ghost ctx = working_context@;
    let mut diffs: Vec<ArrayDiff> = Vec::new();
    match (av, bv) {
        (Value::Object(af), Value::Object(bf)) => {
            proof {
                assert(decreases_to!(*av => av->Object_0));
                assert(decreases_to!(av->Object_0 => av->Object_0@));
                assert(decreases_to!(*av => af@));
            }
            diffs = array_diffs_walk(path, af, bf, working_context);
        },
        _ => {},
    }
    let ghost obj_part = views_of(diffs@);
    proof {
        assert(obj_part =~= (if *av is Object && *bv is Object {
            array_walk(path@, av->Object_0@, bv->Object_0@, ctx, 0)
        } else {
            Seq::<ArrayDiffV>::empty()
        }));
    }
    match (av, bv) {
        (Value::Array(x), Value::Array(y)) => {
            let ra = render_all(x);
            let rb = render_all(y);
            let ea = compute_extras(&ra, &rb);
            let eb = compute_extras(&rb, &ra);
            push_records(&mut diffs, path, &ea, ArrayDiffDesc::AHas);
            push_records(&mut diffs, path, &eb, ArrayDiffDesc::AMisses);
            push_records(&mut diffs, path, &eb, ArrayDiffDesc::BHas);
            push_records(&mut diffs, path, &ea, ArrayDiffDesc::BMisses);
            proof {
                assert(views_of(diffs@) =~= obj_part + multiset_pairs(
                    path@,
                    rendered(x@),
                    rendered(y@),
                ));
            }
        },
        _ => {
            proof {
                assert(obj_part + Seq::<ArrayDiffV>::empty() =~= obj_part);
            }
        },
    }
    proof {
        assert(views_of(diffs@) == array_vals(path@, *av, *bv, ctx));
    }
    diffs
}

/// In ordered mode, the array comparator produces nothing at all: positional
/// differences are the value comparator's task.
pub proof fn lemma_array_diffs_ordered_empty(
    prefix: Seq<char>,
    a: Seq<(String, Value)>,
    b: Seq<(String, Value)>,
    ctx: CtxV,
)
    requires
        ctx.ordered,
    ensures
        array_diffs_spec(prefix, a, b, ctx) == Seq::<ArrayDiffV>::empty(),
{
}

proof fn lemma_extras_self_empty(r: Seq<Seq<char>>, i: int)
    requires
        0 <= i,
    ensures
        extras(r, r, i) == Seq::<Seq<char>>::empty(),
    decreases r.len() - i,
{
    if i < r.len() {
        lemma_extras_self_empty(r, i + 1);
    }
}

/// Comparing an object against itself yields no array diffs.
pub proof fn lemma_array_diffs_self_empty(prefix: Seq<char>, a: Seq<(String, Value)>, ctx: CtxV)
    requires
        obj_wf(a),
    ensures
        array_diffs_spec(prefix, a, a, ctx) == Seq::<ArrayDiffV>::empty(),
{
    if !ctx.ordered {
        lemma_array_walk_self(prefix, a, ctx, 0);
    }
}

proof fn lemma_array_walk_self(prefix: Seq<char>, a: Seq<(String, Value)>, ctx: CtxV, i: int)
    requires
        obj_wf(a),
        0 <= i,
    ensures
        array_walk(prefix, a, a, ctx, i) == Seq::<ArrayDiffV>::empty(),
    decreases a, 2int, a.len() - i,
{
    if i < a.len() {
        lemma_lookup_unique(a, i);
        lemma_array_vals_self(spec_format_key(prefix, a[i].0@), a[i].1, ctx);
        lemma_array_walk_self(prefix, a, ctx, i + 1);
        assert(Seq::<ArrayDiffV>::empty() + Seq::<ArrayDiffV>::empty() =~= Seq::<
            ArrayDiffV,
        >::empty());
    }
}

proof fn lemma_array_vals_self(path: Seq<char>, v: Value, ctx: CtxV)
    requires
        value_wf(v),
    ensures
        array_vals(path, v, v, ctx) == Seq::<ArrayDiffV>::empty(),
    decreases v, 3int, 0int,
{
    if v is Object {
        assert(value_wf(v));
        assert(obj_wf(v->Object_0@));
        lemma_array_walk_self(path, v->Object_0@, ctx, 0);
    }
    if v is Array {
        let r = rendered(v->Array_0@);
        lemma_extras_self_empty(r, 0);
        assert(desc_records(path, Seq::<Seq<char>>::empty(), ArrayDiffDesc::AHas) =~= Seq::<
            ArrayDiffV,
        >::empty());
        assert(desc_records(path, Seq::<Seq<char>>::empty(), ArrayDiffDesc::AMisses) =~= Seq::<
            ArrayDiffV,
        >::empty());
        assert(desc_records(path, Seq::<Seq<char>>::empty(), ArrayDiffDesc::BHas) =~= Seq::<
            ArrayDiffV,
        >::empty());
        assert(desc_records(path, Seq::<Seq<char>>::empty(), ArrayDiffDesc::BMisses) =~= Seq::<
            ArrayDiffV,
        >::empty());
        assert(multiset_pairs(path, r, r) =~= Seq::<ArrayDiffV>::empty());
    }
    assert(array_vals(path, v, v, ctx) =~= Seq::<ArrayDiffV>::empty());
}

/// How many records of `s` carry descriptor `d` and value `v`.
pub open spec fn count_desc(s: Seq<ArrayDiffV>, d: ArrayDiffDesc, v: Seq<char>) -> nat
    decreases s.len(),
{
    if s.len() == 0 {
        0
    } else {
        (if s[0].descriptor == d && s[0].value == v {
            1nat
        } else {
            0nat
        }) + count_desc(s.drop_first(), d, v)
    }
}

proof fn lemma_count_desc_concat(s1: Seq<ArrayDiffV>, s2: Seq<ArrayDiffV>, d: ArrayDiffDesc, v: Seq<char>)
    ensures
        count_desc(s1 + s2, d, v) == count_desc(s1, d, v) + count_desc(s2, d, v),
    decreases s1.len(),
{
    if s1.len() == 0 {
        assert(s1 + s2 =~= s2);
    } else {
        assert((s1 + s2).drop_first() =~= s1.drop_first() + s2);
        assert((s1 + s2)[0] == s1[0]);
        lemma_count_desc_concat(s1.drop_first(), s2, d, v);
    }
}

/// How many entries of `s` equal `v`, counted from the front.
pub open spec fn count_vals(s: Seq<Seq<char>>, v: Seq<char>) -> nat
    decreases s.len(),
{
    if s.len() == 0 {
        0
    } else {
        (if s[0] == v {
            1nat
        } else {
            0nat
        }) + count_vals(s.drop_first(), v)
    }
}

proof fn lemma_count_desc_records(
    path: Seq<char>,
    vals: Seq<Seq<char>>,
    d1: ArrayDiffDesc,
    d2: ArrayDiffDesc,
    v: Seq<char>,
)
    ensures
        count_desc(desc_records(path, vals, d1), d2, v) == if d1 == d2 {
            count_vals(vals, v)
        } else {
            0
        },
    decreases vals.len(),
{
    if vals.len() == 0 {
        assert(desc_records(path, vals, d1) =~= Seq::<ArrayDiffV>::empty());
    } else {
        assert(desc_records(path, vals, d1).drop_first() =~= desc_records(
            path,
            vals.drop_first(),
            d1,
        ));
        assert(desc_records(path, vals, d1)[0] == (ArrayDiffV {
            key: path,
            descriptor: d1,
            value: vals[0],
        }));
        lemma_count_desc_records(path, vals.drop_first(), d1, d2, v);
    }
}

/// Array multiset conservation: among the records produced for one array
/// pair, every value appears exactly as often with `AHas` as with
/// `BMisses`, and exactly as often with `BHas` as with `AMisses`.
pub proof fn lemma_array_multiset_conservation(
    path: Seq<char>,
    ra: Seq<Seq<char>>,
    rb: Seq<Seq<char>>,
    v: Seq<char>,
)
    ensures
        count_desc(multiset_pairs(path, ra, rb), ArrayDiffDesc::AHas, v) == count_desc(
            multiset_pairs(path, ra, rb),
            ArrayDiffDesc::BMisses,
            v,
        ),
        count_desc(multiset_pairs(path, ra, rb), ArrayDiffDesc::BHas, v) == count_desc(
            multiset_pairs(path, ra, rb),
            ArrayDiffDesc::AMisses,
            v,
        ),
{
    let ea = extras(ra, rb, 0);
    let eb = extras(rb, ra, 0);
    let r1 = desc_records(path, ea, ArrayDiffDesc::AHas);
    let r2 = desc_records(path, eb, ArrayDiffDesc::AMisses);
    let r3 = desc_records(path, eb, ArrayDiffDesc::BHas);
    let r4 = desc_records(path, ea, ArrayDiffDesc::BMisses);
    assert(multiset_pairs(path, ra, rb) == ((r1 + r2) + r3) + r4);
    lemma_count_desc_concat(r1, r2, ArrayDiffDesc::AHas, v);
    lemma_count_desc_concat(r1 + r2, r3, ArrayDiffDesc::AHas, v);
    lemma_count_desc_concat((r1 + r2) + r3, r4, ArrayDiffDesc::AHas, v);
    lemma_count_desc_concat(r1, r2, ArrayDiffDesc::BMisses, v);
    lemma_count_desc_concat(r1 + r2, r3, ArrayDiffDesc::BMisses, v);
    lemma_count_desc_concat((r1 + r2) + r3, r4, ArrayDiffDesc::BMisses, v);
    lemma_count_desc_concat(r1, r2, ArrayDiffDesc::BHas, v);
    lemma_count_desc_concat(r1 + r2, r3, ArrayDiffDesc::BHas, v);
    lemma_count_desc_concat((r1 + r2) + r3, r4, ArrayDiffDesc::BHas, v);
    lemma_count_desc_concat(r1, r2, ArrayDiffDesc::AMisses, v);
    lemma_count_desc_concat(r1 + r2, r3, ArrayDiffDesc::AMisses, v);
    lemma_count_desc_concat((r1 + r2) + r3, r4, ArrayDiffDesc::AMisses, v);
    lemma_count_desc_records(path, ea, ArrayDiffDesc::AHas, ArrayDiffDesc::AHas, v);
    lemma_count_desc_records(path, eb, ArrayDiffDesc::AMisses, ArrayDiffDesc::AHas, v);
    lemma_count_desc_records(path, eb, ArrayDiffDesc::BHas, ArrayDiffDesc::AHas, v);
    lemma_count_desc_records(path, ea, ArrayDiffDesc::BMisses, ArrayDiffDesc::AHas, v);
    lemma_count_desc_records(path, ea, ArrayDiffDesc::AHas, ArrayDiffDesc::BMisses, v);
    lemma_count_desc_records(path, eb, ArrayDiffDesc::AMisses, ArrayDiffDesc::BMisses, v);
    lemma_count_desc_records(path, eb, ArrayDiffDesc::BHas, ArrayDiffDesc::BMisses, v);
    lemma_count_desc_records(path, ea, ArrayDiffDesc::BMisses, ArrayDiffDesc::BMisses, v);
    lemma_count_desc_records(path, ea, ArrayDiffDesc::AHas, ArrayDiffDesc::BHas, v);
    lemma_count_desc_records(path, eb, ArrayDiffDesc::AMisses, ArrayDiffDesc::BHas, v);
    lemma_count_desc_records(path, eb, ArrayDiffDesc::BHas, ArrayDiffDesc::BHas, v);
    lemma_count_desc_records(path, ea, ArrayDiffDesc::BMisses, ArrayDiffDesc::BHas, v);
    lemma_count_desc_records(path, ea, ArrayDiffDesc::AHas, ArrayDiffDesc::AMisses, v);
    lemma_count_desc_records(path, eb, ArrayDiffDesc::AMisses, ArrayDiffDesc::AMisses, v);
    lemma_count_desc_records(path, eb, ArrayDiffDesc::BHas, ArrayDiffDesc::AMisses, v);
    lemma_count_desc_records(path, ea, ArrayDiffDesc::BMisses, ArrayDiffDesc::AMisses, v);
}

} // verus!
