//! The type comparator: reports keys present in both objects whose value
//! kinds differ. It recurses into object pairs unconditionally and into
//! equal-length array pairs in ordered mode, and compares the kind tags after
//! recursing, so nested mismatches are reported before the mismatch of their
//! enclosing composite.

use vstd::prelude::*;

use crate::diff_types::lemma_views_of_concat;
use crate::diff_types::lemma_views_of_push;
use crate::diff_types::views_of;
use crate::diff_types::CtxV;
use crate::diff_types::TypeDiff;
use crate::diff_types::TypeDiffV;
use crate::diff_types::WorkingContext;
use crate::paths::count_char;
use crate::paths::format_array_key;
use crate::paths::lemma_format_key_counts;
use crate::paths::obj_keys_avoid;
use crate::paths::value_keys_avoid;
use crate::paths::format_key;
use crate::paths::spec_array_key;
use crate::paths::spec_format_key;
use crate::value::get_type;
use crate::value::has_key;
use crate::value::get_value;
use crate::value::lemma_lookup_unique;
use crate::value::obj_wf;
use crate::value::value_wf;
use crate::value::lookup;
use crate::value::spec_kind_name;
use crate::value::spec_type_of;
use crate::value::Value;

verus! {

/// All type diffs of one object pair: the walk over the keys shared by `a`
/// and `b`.
pub open spec fn type_diffs_spec(
    prefix: Seq<char>,
    a: Seq<(String, Value)>,
    b: Seq<(String, Value)>,
    ctx: CtxV,
) -> Seq<TypeDiffV>
    decreases a, 2int, 0int,
{
    type_walk(prefix, a, b, ctx, 0)
}

/// The walk over `a`'s fields from position `i` on; only fields that `b`
/// also has take part.
pub open spec fn type_walk(
    prefix: Seq<char>,
    a: Seq<(String, Value)>,
    b: Seq<(String, Value)>,
    ctx: CtxV,
    i: int,
) -> Seq<TypeDiffV>
    decreases a, 1int, a.len() - i,
{
    if i < 0 || i >= a.len() {
        Seq::<TypeDiffV>::empty()
    } else {
        let here = match lookup(b, a[i].0@) {
            Some(bv) => type_vals(spec_format_key(prefix, a[i].0@), a[i].1, bv, ctx),
            None => Seq::<TypeDiffV>::empty(),
        };
        here + type_walk(prefix, a, b, ctx, i + 1)
    }
}

/// The type diffs at and below one matched pair of values: first whatever
/// recursion into objects (and, in ordered mode, equal-length arrays) finds,
/// then a record for the pair itself if the two kinds differ.
pub open spec fn type_vals(path: Seq<char>, av: Value, bv: Value, ctx: CtxV) -> Seq<TypeDiffV>
    decreases av, 3int, 0int,
{
    (if av is Object && bv is Object {
        type_diffs_spec(path, av->Object_0@, bv->Object_0@, ctx)
    } else {
        Seq::<TypeDiffV>::empty()
    }) + (if ctx.ordered && av is Array && bv is Array && av->Array_0@.len()
        == bv->Array_0@.len() {
        type_arrays(path, av->Array_0@, bv->Array_0@, ctx, 0)
    } else {
        Seq::<TypeDiffV>::empty()
    }) + (if spec_type_of(av) != spec_type_of(bv) {
        seq![
            TypeDiffV {
                key: path,
                type1: spec_kind_name(spec_type_of(av)),
                type2: spec_kind_name(spec_type_of(bv)),
            },
        ]
    } else {
        Seq::<TypeDiffV>::empty()
    })
}

/// The type diffs of two equal-length arrays compared element by element
/// from position `i` on.
pub open spec fn type_arrays(
    path: Seq<char>,
    x: Seq<Value>,
    y: Seq<Value>,
    ctx: CtxV,
    i: int,
) -> Seq<TypeDiffV>
    decreases x, 0int, x.len() - i,
{
    if i < 0 || i >= x.len() {
        Seq::<TypeDiffV>::empty()
    } else {
        type_vals(spec_array_key(path, i), x[i], y[i], ctx) + type_arrays(path, x, y, ctx, i + 1)
    }
}

/// Finds the keys present in both objects whose value kinds differ. Every
/// diff holds the full path and the two kind names.
#[verifier::loop_isolation(false)]
pub fn find_type_diffs(
    key_in: &str,
    a: &Vec<(String, Value)>,
    b: &Vec<(String, Value)>,
    working_context: &WorkingContext,
) -> (r: Vec<TypeDiff>)
    ensures
        views_of(r@) == type_diffs_spec(key_in@, a@, b@, working_context@),
    decreases a@, 2int, 0int,
{
    let ghost ctx = working_context@;
    let mut diffs: Vec<TypeDiff> = Vec::new();
    proof {
        assert(views_of(diffs@) =~= Seq::<TypeDiffV>::empty());
        assert(views_of(diffs@) + type_walk(key_in@, a@, b@, ctx, 0) =~= type_walk(
            key_in@,
            a@,
            b@,
            ctx,
            0,
        ));
    }
    let mut i: usize = 0;
    while i < a.len()
        invariant
            0 <= i <= a@.len(),
            views_of(diffs@) + type_walk(key_in@, a@, b@, ctx, i as int) == type_walk(
                key_in@,
                a@,
                b@,
                ctx,
                0,
            ),
        decreases a@.len() - i,
    {
        let found = get_value(b, a[i].0.as_str());
        match found {
            Some(bv) => {
                let path = format_key(key_in, a[i].0.as_str());
                proof {
                    assert(decreases_to!(a@ => a@[i as int]));
                    assert(decreases_to!(a@[i as int] => a@[i as int].1));
                    assert(decreases_to!(a@ => a@[i as int].1));
                }
                let mut sub = type_diffs_in_values(path.as_str(), &a[i].1, bv, working_context);
                proof {
                    lemma_views_of_concat(diffs@, sub@);
                    assert((views_of(diffs@) + views_of(sub@)) + type_walk(
                        key_in@,
                        a@,
                        b@,
                        ctx,
                        i as int + 1,
                    ) =~= views_of(diffs@) + (views_of(sub@) + type_walk(
                        key_in@,
                        a@,
                        b@,
                        ctx,
                        i as int + 1,
                    )));
                }
                diffs.append(&mut sub);
            },
            None => {},
        }
        i += 1;
    }
    proof {
        assert(views_of(diffs@) + type_walk(key_in@, a@, b@, ctx, a@.len() as int) =~= views_of(
            diffs@,
        ));
    }
    diffs
}

/// The type diffs at and below one matched pair of values; see `type_vals`.
#[verifier::loop_isolation(false)]
fn type_diffs_in_values(path: &str, av: &Value, bv: &Value, working_context: &WorkingContext) -> (r:
    Vec<TypeDiff>)
    ensures
        views_of(r@) == type_vals(path@, *av, *bv, working_context@),
    decreases *av, 3int, 0int,
{
    let ghost ctx = working_context@;
    let mut diffs: Vec<TypeDiff> = Vec::new();
    match (av, bv) {
        (Value::Object(af), Value::Object(bf)) => {
            proof {
                assert(decreases_to!(*av => av->Object_0));
                assert(decreases_to!(av->Object_0 => av->Object_0@));
                assert(decreases_to!(*av => af@));
            }
            diffs = find_type_diffs(path, af, bf, working_context);
        },
        _ => {},
    }
    let ghost obj_part = views_of(diffs@);
    proof {
        assert(obj_part =~= (if *av is Object && *bv is Object {
            type_diffs_spec(path@, av->Object_0@, bv->Object_0@, ctx)
        } else {
            Seq::<TypeDiffV>::empty()
        }));
    }
    if working_context.config.array_same_order {
        match (av, bv) {
            (Value::Array(x), Value::Array(y)) => {
                if x.len() == y.len() {
                    let mut k: usize = 0;
                    while k < x.len()
                        invariant
                            0 <= k <= x@.len(),
                            x@.len() == y@.len(),
                            views_of(diffs@) + type_arrays(path@, x@, y@, ctx, k as int) == obj_part
                                + type_arrays(path@, x@, y@, ctx, 0),
                        decreases x@.len() - k,
                    {
                        let pk = format_array_key(path, k);
                        proof {
                            assert(decreases_to!(*av => av->Array_0));
                            assert(decreases_to!(av->Array_0 => av->Array_0@));
                            assert(decreases_to!(av->Array_0@ => av->Array_0@[k as int]));
                            assert(decreases_to!(*av => x@[k as int]));
                        }
                        let mut sub = type_diffs_in_values(
                            pk.as_str(),
                            &x[k],
                            &y[k],
                            working_context,
                        );
                        proof {
                            lemma_views_of_concat(diffs@, sub@);
                            assert((views_of(diffs@) + views_of(sub@)) + type_arrays(
                                path@,
                                x@,
                                y@,
                                ctx,
                                k as int + 1,
                            ) =~= views_of(diffs@) + (views_of(sub@) + type_arrays(
                                path@,
                                x@,
                                y@,
                                ctx,
                                k as int + 1,
                            )));
                        }
                        diffs.append(&mut sub);
                        k += 1;
                    }
                    proof {
                        assert(views_of(diffs@) + type_arrays(path@, x@, y@, ctx, x@.len() as int)
                            =~= views_of(diffs@));
                    }
                }
            },
            _ => {},
        }
    }
    let ghost walked = views_of(diffs@);
    proof {
        assert(walked =~= obj_part + (if ctx.ordered && *av is Array && *bv is Array
            && av->Array_0@.len() == bv->Array_0@.len() {
            type_arrays(path@, av->Array_0@, bv->Array_0@, ctx, 0)
        } else {
            Seq::<TypeDiffV>::empty()
        }));
    }
    let a_type = get_type(av);
    let b_type = get_type(bv);
    if a_type != b_type {
        let d = TypeDiff::new(path.to_owned(), a_type.kind_name(), b_type.kind_name());
        proof {
            lemma_views_of_push(diffs@, d);
            assert(views_of(diffs@).push(d@) =~= walked + seq![d@]);
        }
        diffs.push(d);
    } else {
        proof {
            assert(walked + Seq::<TypeDiffV>::empty() =~= walked);
        }
    }
    proof {
        assert(views_of(diffs@) == type_vals(path@, *av, *bv, ctx));
    }
    diffs
}

/// Comparing an object against itself yields no type diffs.
pub proof fn lemma_type_diffs_self_empty(prefix: Seq<char>, a: Seq<(String, Value)>, ctx: CtxV)
    requires
        obj_wf(a),
    ensures
        type_diffs_spec(prefix, a, a, ctx) == Seq::<TypeDiffV>::empty(),
    decreases a, 2int, 0int,
{
    lemma_type_walk_self(prefix, a, ctx, 0);
}

proof fn lemma_type_walk_self(prefix: Seq<char>, a: Seq<(String, Value)>, ctx: CtxV, i: int)
    requires
        obj_wf(a),
        0 <= i,
    ensures
        type_walk(prefix, a, a, ctx, i) == Seq::<TypeDiffV>::empty(),
    decreases a, 1int, a.len() - i,
{
    if i < a.len() {
        lemma_lookup_unique(a, i);
        lemma_type_vals_self(spec_format_key(prefix, a[i].0@), a[i].1, ctx);
        lemma_type_walk_self(prefix, a, ctx, i + 1);
        assert(Seq::<TypeDiffV>::empty() + Seq::<TypeDiffV>::empty() =~= Seq::<TypeDiffV>::empty());
    }
}

proof fn lemma_type_vals_self(path: Seq<char>, v: Value, ctx: CtxV)
    requires
        value_wf(v),
    ensures
        type_vals(path, v, v, ctx) == Seq::<TypeDiffV>::empty(),
    decreases v, 3int, 0int,
{
    if v is Object {
        assert(value_wf(v));
        assert(obj_wf(v->Object_0@));
        lemma_type_diffs_self_empty(path, v->Object_0@, ctx);
    }
    if ctx.ordered && v is Array {
        assert(forall|j: int| 0 <= j < v->Array_0@.len() ==> value_wf(#[trigger] v->Array_0@[j]));
        lemma_type_arrays_self(path, v->Array_0@, ctx, 0);
    }
    assert(type_vals(path, v, v, ctx) =~= Seq::<TypeDiffV>::empty());
}

proof fn lemma_type_arrays_self(path: Seq<char>, x: Seq<Value>, ctx: CtxV, i: int)
    requires
        forall|j: int| 0 <= j < x.len() ==> value_wf(#[trigger] x[j]),
        0 <= i,
    ensures
        type_arrays(path, x, x, ctx, i) == Seq::<TypeDiffV>::empty(),
    decreases x, 0int, x.len() - i,
{
    if i < x.len() {
        lemma_type_vals_self(spec_array_key(path, i), x[i], ctx);
        lemma_type_arrays_self(path, x, ctx, i + 1);
        assert(Seq::<TypeDiffV>::empty() + Seq::<TypeDiffV>::empty() =~= Seq::<TypeDiffV>::empty());
    }
}

/// In unordered mode the type comparator never descends into an array: when
/// no key itself contains `[` and the starting prefix is `[`-free, every
/// reported path is `[`-free.
pub proof fn lemma_type_diffs_no_array_paths(
    prefix: Seq<char>,
    a: Seq<(String, Value)>,
    b: Seq<(String, Value)>,
    ctx: CtxV,
)
    requires
        !ctx.ordered,
        obj_keys_avoid(a, '['),
        obj_keys_avoid(b, '['),
        count_char(prefix, '[') == 0,
    ensures
        forall|k: int|
            0 <= k < type_diffs_spec(prefix, a, b, ctx).len() ==> count_char(
                (#[trigger] type_diffs_spec(prefix, a, b, ctx)[k]).key,
                '[',
            ) == 0,
    decreases a, 2int, 0int,
{
    lemma_type_walk_no_array_paths(prefix, a, b, ctx, 0);
    assert forall|k: int|
        0 <= k < type_diffs_spec(prefix, a, b, ctx).len() implies count_char(
        (#[trigger] type_diffs_spec(prefix, a, b, ctx)[k]).key,
        '[',
    ) == 0 by {
        assert(type_diffs_spec(prefix, a, b, ctx)[k] == type_walk(prefix, a, b, ctx, 0)[k]);
    }
}

proof fn lemma_type_walk_no_array_paths(
    prefix: Seq<char>,
    a: Seq<(String, Value)>,
    b: Seq<(String, Value)>,
    ctx: CtxV,
    i: int,
)
    requires
        !ctx.ordered,
        obj_keys_avoid(a, '['),
        obj_keys_avoid(b, '['),
        count_char(prefix, '[') == 0,
        0 <= i,
    ensures
        forall|k: int|
            0 <= k < type_walk(prefix, a, b, ctx, i).len() ==> count_char(
                (#[trigger] type_walk(prefix, a, b, ctx, i)[k]).key,
                '[',
            ) == 0,
    decreases a, 1int, a.len() - i,
{
    if i < a.len() {
        let path = spec_format_key(prefix, a[i].0@);
        lemma_format_key_counts(prefix, a[i].0@, '[');
        assert(count_char(seq!['.'], '[') == 0) by {
            assert(seq!['.'].drop_first() =~= Seq::<char>::empty());
            assert(count_char(Seq::<char>::empty(), '[') == 0);
        }
        assert(count_char(path, '[') == 0);
        lemma_type_walk_no_array_paths(prefix, a, b, ctx, i + 1);
        let here = match lookup(b, a[i].0@) {
            Some(bv) => type_vals(path, a[i].1, bv, ctx),
            None => Seq::<TypeDiffV>::empty(),
        };
        match lookup(b, a[i].0@) {
            Some(bv) => {
                lemma_lookup_value_avoids(b, a[i].0@, '[');
                lemma_type_vals_no_array_paths(path, a[i].1, bv, ctx);
            },
            None => {},
        }
        let rest = type_walk(prefix, a, b, ctx, i + 1);
        assert forall|k: int|
            0 <= k < type_walk(prefix, a, b, ctx, i).len() implies count_char(
            (#[trigger] type_walk(prefix, a, b, ctx, i)[k]).key,
            '[',
        ) == 0 by {
            if k < here.len() {
                assert(type_walk(prefix, a, b, ctx, i)[k] == here[k]);
            } else {
                assert(type_walk(prefix, a, b, ctx, i)[k] == rest[k - here.len()]);
            }
        }
    }
}

proof fn lemma_type_vals_no_array_paths(path: Seq<char>, av: Value, bv: Value, ctx: CtxV)
    requires
        !ctx.ordered,
        value_keys_avoid(av, '['),
        value_keys_avoid(bv, '['),
        count_char(path, '[') == 0,
    ensures
        forall|k: int|
            0 <= k < type_vals(path, av, bv, ctx).len() ==> count_char(
                (#[trigger] type_vals(path, av, bv, ctx)[k]).key,
                '[',
            ) == 0,
    decreases av, 3int, 0int,
{
    let inner = if av is Object && bv is Object {
        type_diffs_spec(path, av->Object_0@, bv->Object_0@, ctx)
    } else {
        Seq::<TypeDiffV>::empty()
    };
    if av is Object && bv is Object {
        assert(value_keys_avoid(av, '['));
        assert(value_keys_avoid(bv, '['));
        assert(obj_keys_avoid(av->Object_0@, '['));
        assert(obj_keys_avoid(bv->Object_0@, '['));
        lemma_type_diffs_no_array_paths(path, av->Object_0@, bv->Object_0@, ctx);
    }
    let own = if spec_type_of(av) != spec_type_of(bv) {
        seq![
            TypeDiffV {
                key: path,
                type1: spec_kind_name(spec_type_of(av)),
                type2: spec_kind_name(spec_type_of(bv)),
            },
        ]
    } else {
        Seq::<TypeDiffV>::empty()
    };
    assert(type_vals(path, av, bv, ctx) =~= inner + own);
    assert forall|k: int|
        0 <= k < type_vals(path, av, bv, ctx).len() implies count_char(
        (#[trigger] type_vals(path, av, bv, ctx)[k]).key,
        '[',
    ) == 0 by {
        if k < inner.len() {
            assert(type_vals(path, av, bv, ctx)[k] == inner[k]);
        } else {
            assert(type_vals(path, av, bv, ctx)[k] == own[k - inner.len()]);
        }
    }
}

/// Looking a key up in an object whose tree avoids `c` yields a value whose
/// tree avoids `c`.
proof fn lemma_lookup_value_avoids(fields: Seq<(String, Value)>, key: Seq<char>, c: char)
    requires
        obj_keys_avoid(fields, c),
        has_key(fields, key),
    ensures
        value_keys_avoid(lookup(fields, key)->Some_0, c),
    decreases fields.len(),
{
    if fields.len() > 0 {
        if fields[0].0@ == key {
        } else {
            assert(forall|p: int|
                0 <= p < fields.drop_first().len() ==> fields.drop_first()[p] == fields[p + 1]);
            lemma_lookup_value_avoids(fields.drop_first(), key, c);
        }
    }
}

} // verus!
