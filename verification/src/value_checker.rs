//! The value comparator: reports keys present in both objects whose values
//! differ. Object pairs are entered field by field; in ordered mode an
//! equal-length array pair is compared element by element under `path[i]`
//! keys; every other pair — scalars, arrays treated as opaque wholes,
//! mismatched kinds — is compared as a whole and reported in display form.

use vstd::prelude::*;

use crate::diff_types::lemma_views_of_concat;
use crate::diff_types::lemma_views_of_push;
use crate::diff_types::views_of;
use crate::diff_types::CtxV;
use crate::diff_types::ValueDiff;
use crate::diff_types::ValueDiffV;
use crate::diff_types::WorkingContext;
use crate::paths::count_char;
use crate::paths::format_array_key;
use crate::paths::lemma_format_key_counts;
use crate::paths::obj_keys_avoid;
use crate::paths::value_keys_avoid;
use crate::paths::format_key;
use crate::paths::spec_array_key;
use crate::paths::spec_format_key;
use crate::render::display_spec;
use crate::render::render_display;
use crate::value::get_value;
use crate::value::has_key;
use crate::value::lemma_lookup_unique;
use crate::value::lemma_value_eq_refl;
use crate::value::obj_wf;
use crate::value::value_wf;
use crate::value::lookup;
use crate::value::value_eq;
use crate::value::values_equal;
use crate::value::Value;

verus! {

/// All value diffs of one object pair: the walk over the keys shared by `a`
/// and `b`.
pub open spec fn value_diffs_spec(
    prefix: Seq<char>,
    a: Seq<(String, Value)>,
    b: Seq<(String, Value)>,
    ctx: CtxV,
) -> Seq<ValueDiffV>
    decreases a, 2int, 0int,
{
    value_walk(prefix, a, b, ctx, 0)
}

/// The walk over `a`'s fields from position `i` on; only fields that `b`
/// also has take part.
pub open spec fn value_walk(
    prefix: Seq<char>,
    a: Seq<(String, Value)>,
    b: Seq<(String, Value)>,
    ctx: CtxV,
    i: int,
) -> Seq<ValueDiffV>
    decreases a, 1int, a.len() - i,
{
    if i < 0 || i >= a.len() {
        Seq::<ValueDiffV>::empty()
    } else {
        let here = match lookup(b, a[i].0@) {
            Some(bv) => value_vals(spec_format_key(prefix, a[i].0@), a[i].1, bv, ctx),
            None => Seq::<ValueDiffV>::empty(),
        };
        here + value_walk(prefix, a, b, ctx, i + 1)
    }
}

/// The value diffs of one matched pair of values: objects recurse field by
/// field; in ordered mode equal-length arrays recurse element by element;
/// any other unequal pair becomes one record holding both display forms.
pub open spec fn value_vals(path: Seq<char>, av: Value, bv: Value, ctx: CtxV) -> Seq<ValueDiffV>
    decreases av, 3int, 0int,
{
    if av is Object && bv is Object {
        value_diffs_spec(path, av->Object_0@, bv->Object_0@, ctx)
    } else if ctx.ordered && av is Array && bv is Array && av->Array_0@.len()
        == bv->Array_0@.len() {
        value_arrays(path, av->Array_0@, bv->Array_0@, ctx, 0)
    } else if !value_eq(av, bv) {
        seq![ValueDiffV { key: path, value1: display_spec(av), value2: display_spec(bv) }]
    } else {
        Seq::<ValueDiffV>::empty()
    }
}

/// The value diffs of two equal-length arrays compared element by element
/// from position `i` on.
pub open spec fn value_arrays(
    path: Seq<char>,
    x: Seq<Value>,
    y: Seq<Value>,
    ctx: CtxV,
    i: int,
) -> Seq<ValueDiffV>
    decreases x, 0int, x.len() - i,
{
    if i < 0 || i >= x.len() {
        Seq::<ValueDiffV>::empty()
    } else {
        value_vals(spec_array_key(path, i), x[i], y[i], ctx) + value_arrays(path, x, y, ctx, i + 1)
    }
}

/// Finds the keys present in both objects whose values differ. Every diff
/// holds the full path and both values in display form: raw content for
/// strings, the canonical text form for every other kind.
#[verifier::loop_isolation(false)]
pub fn find_value_diffs(
    key_in: &str,
    a: &Vec<(String, Value)>,
    b: &Vec<(String, Value)>,
    working_context: &WorkingContext,
) -> (r: Vec<ValueDiff>)
    ensures
        views_of(r@) == value_diffs_spec(key_in@, a@, b@, working_context@),
    decreases a@, 2int, 0int,
{
    let ghost ctx = working_context@;
    let mut diffs: Vec<ValueDiff> = Vec::new();
    proof {
        assert(views_of(diffs@) =~= Seq::<ValueDiffV>::empty());
        assert(views_of(diffs@) + value_walk(key_in@, a@, b@, ctx, 0) =~= value_walk(
            key_in@,
            a@,
            b@,
            ctx,
            0,
        ));
    }
    let mut i: usize = 0;
    while i < a.len()
        invariant
            0 <= i <= a@.len(),
            views_of(diffs@) + value_walk(key_in@, a@, b@, ctx, i as int) == value_walk(
                key_in@,
                a@,
                b@,
                ctx,
                0,
            ),
        decreases a@.len() - i,
    {
        let found = get_value(b, a[i].0.as_str());
        match found {
            Some(bv) => {
                let path = format_key(key_in, a[i].0.as_str());
                proof {
                    assert(decreases_to!(a@ => a@[i as int]));
                    assert(decreases_to!(a@[i as int] => a@[i as int].1));
                    assert(decreases_to!(a@ => a@[i as int].1));
                }
                let mut sub = value_diffs_in_values(path.as_str(), &a[i].1, bv, working_context);
                proof {
                    lemma_views_of_concat(diffs@, sub@);
                    assert((views_of(diffs@) + views_of(sub@)) + value_walk(
                        key_in@,
                        a@,
                        b@,
                        ctx,
                        i as int + 1,
                    ) =~= views_of(diffs@) + (views_of(sub@) + value_walk(
                        key_in@,
                        a@,
                        b@,
                        ctx,
                        i as int + 1,
                    )));
                }
                diffs.append(&mut sub);
            },
            None => {},
        }
        i += 1;
    }
    proof {
        assert(views_of(diffs@) + value_walk(key_in@, a@, b@, ctx, a@.len() as int) =~= views_of(
            diffs@,
        ));
    }
    diffs
}

/// The value diffs of one matched pair of values; see `value_vals`.
#[verifier::loop_isolation(false)]
fn value_diffs_in_values(path: &str, av: &Value, bv: &Value, working_context: &WorkingContext) -> (r:
    Vec<ValueDiff>)
    ensures
        views_of(r@) == value_vals(path@, *av, *bv, working_context@),
    decreases *av, 3int, 0int,
{
    let ghost ctx = working_context@;
    let mut diffs: Vec<ValueDiff> = Vec::new();
    match (av, bv) {
        (Value::Object(af), Value::Object(bf)) => {
            proof {
                assert(decreases_to!(*av => av->Object_0));
                assert(decreases_to!(av->Object_0 => av->Object_0@));
                assert(decreases_to!(*av => af@));
            }
            diffs = find_value_diffs(path, af, bf, working_context);
            return diffs;
        },
        (Value::Array(x), Value::Array(y)) => {
            if working_context.config.array_same_order && x.len() == y.len() {
                proof {
                    assert(views_of(diffs@) =~= Seq::<ValueDiffV>::empty());
                    assert(views_of(diffs@) + value_arrays(path@, x@, y@, ctx, 0) =~= value_arrays(
                        path@,
                        x@,
                        y@,
                        ctx,
                        0,
                    ));
                }
                let mut k: usize = 0;
                while k < x.len()
                    invariant
                        0 <= k <= x@.len(),
                        x@.len() == y@.len(),
                        views_of(diffs@) + value_arrays(path@, x@, y@, ctx, k as int)
                            == value_arrays(path@, x@, y@, ctx, 0),
                    decreases x@.len() - k,
                {
                    let pk = format_array_key(path, k);
                    proof {
                        assert(decreases_to!(*av => av->Array_0));
                        assert(decreases_to!(av->Array_0 => av->Array_0@));
                        assert(decreases_to!(av->Array_0@ => av->Array_0@[k as int]));
                        assert(decreases_to!(*av => x@[k as int]));
                    }
                    let mut sub = value_diffs_in_values(pk.as_str(), &x[k], &y[k], working_context);
                    proof {
                        lemma_views_of_concat(diffs@, sub@);
                        assert((views_of(diffs@) + views_of(sub@)) + value_arrays(
                            path@,
                            x@,
                            y@,
                            ctx,
                            k as int + 1,
                        ) =~= views_of(diffs@) + (views_of(sub@) + value_arrays(
                            path@,
                            x@,
                            y@,
                            ctx,
                            k as int + 1,
                        )));
                    }
                    diffs.append(&mut sub);
                    k += 1;
                }
                proof {
                    assert(views_of(diffs@) + value_arrays(path@, x@, y@, ctx, x@.len() as int)
                        =~= views_of(diffs@));
                }
                return diffs;
            }
        },
        _ => {},
    }
    if !values_equal(av, bv) {
        let d = ValueDiff::new(path.to_owned(), render_display(av), render_display(bv));
        proof {
            lemma_views_of_push(diffs@, d);
            assert(views_of(diffs@).push(d@) =~= seq![d@]);
        }
        diffs.push(d);
    } else {
        proof {
            assert(views_of(diffs@) =~= Seq::<ValueDiffV>::empty());
        }
    }
    proof {
        assert(views_of(diffs@) == value_vals(path@, *av, *bv, ctx));
    }
    diffs
}

/// Comparing an object against itself yields no value diffs.
pub proof fn lemma_value_diffs_self_empty(prefix: Seq<char>, a: Seq<(String, Value)>, ctx: CtxV)
    requires
        obj_wf(a),
    ensures
        value_diffs_spec(prefix, a, a, ctx) == Seq::<ValueDiffV>::empty(),
    decreases a, 2int, 0int,
{
    lemma_value_walk_self(prefix, a, ctx, 0);
}

proof fn lemma_value_walk_self(prefix: Seq<char>, a: Seq<(String, Value)>, ctx: CtxV, i: int)
    requires
        obj_wf(a),
        0 <= i,
    ensures
        value_walk(prefix, a, a, ctx, i) == Seq::<ValueDiffV>::empty(),
    decreases a, 1int, a.len() - i,
{
    if i < a.len() {
        lemma_lookup_unique(a, i);
        lemma_value_vals_self(spec_format_key(prefix, a[i].0@), a[i].1, ctx);
        lemma_value_walk_self(prefix, a, ctx, i + 1);
        assert(Seq::<ValueDiffV>::empty() + Seq::<ValueDiffV>::empty() =~= Seq::<
            ValueDiffV,
        >::empty());
    }
}

proof fn lemma_value_vals_self(path: Seq<char>, v: Value, ctx: CtxV)
    requires
        value_wf(v),
    ensures
        value_vals(path, v, v, ctx) == Seq::<ValueDiffV>::empty(),
    decreases v, 3int, 0int,
{
    if v is Object {
        assert(value_wf(v));
        assert(obj_wf(v->Object_0@));
        lemma_value_diffs_self_empty(path, v->Object_0@, ctx);
    } else if ctx.ordered && v is Array {
        assert(forall|j: int| 0 <= j < v->Array_0@.len() ==> value_wf(#[trigger] v->Array_0@[j]));
        lemma_value_arrays_self(path, v->Array_0@, ctx, 0);
    } else {
        lemma_value_eq_refl(v);
    }
}

proof fn lemma_value_arrays_self(path: Seq<char>, x: Seq<Value>, ctx: CtxV, i: int)
    requires
        forall|j: int| 0 <= j < x.len() ==> value_wf(#[trigger] x[j]),
        0 <= i,
    ensures
        value_arrays(path, x, x, ctx, i) == Seq::<ValueDiffV>::empty(),
    decreases x, 0int, x.len() - i,
{
    if i < x.len() {
        lemma_value_vals_self(spec_array_key(path, i), x[i], ctx);
        lemma_value_arrays_self(path, x, ctx, i + 1);
        assert(Seq::<ValueDiffV>::empty() + Seq::<ValueDiffV>::empty() =~= Seq::<
            ValueDiffV,
        >::empty());
    }
}

/// In unordered mode the value comparator never descends into an array — an
/// unequal array pair is reported as one opaque whole: when no key itself
/// contains `[` and the starting prefix is `[`-free, every reported path is
/// `[`-free.
pub proof fn lemma_value_diffs_no_array_paths(
    prefix: Seq<char>,
    a: Seq<(String, Value)>,
    b: Seq<(String, Value)>,
    ctx: CtxV,
)
    requires
        !ctx.ordered,
        obj_keys_avoid(a, '['),
        obj_keys_avoid(b, '['),
        count_char(prefix, '[') == 0,
    ensures
        forall|k: int|
            0 <= k < value_diffs_spec(prefix, a, b, ctx).len() ==> count_char(
                (#[trigger] value_diffs_spec(prefix, a, b, ctx)[k]).key,
                '[',
            ) == 0,
    decreases a, 2int, 0int,
{
    lemma_value_walk_no_array_paths(prefix, a, b, ctx, 0);
    assert forall|k: int|
        0 <= k < value_diffs_spec(prefix, a, b, ctx).len() implies count_char(
        (#[trigger] value_diffs_spec(prefix, a, b, ctx)[k]).key,
        '[',
    ) == 0 by {
        assert(value_diffs_spec(prefix, a, b, ctx)[k] == value_walk(prefix, a, b, ctx, 0)[k]);
    }
}

proof fn lemma_value_walk_no_array_paths(
    prefix: Seq<char>,
    a: Seq<(String, Value)>,
    b: Seq<(String, Value)>,
    ctx: CtxV,
    i: int,
)
    requires
        !ctx.ordered,
        obj_keys_avoid(a, '['),
        obj_keys_avoid(b, '['),
        count_char(prefix, '[') == 0,
        0 <= i,
    ensures
        forall|k: int|
            0 <= k < value_walk(prefix, a, b, ctx, i).len() ==> count_char(
                (#[trigger] value_walk(prefix, a, b, ctx, i)[k]).key,
                '[',
            ) == 0,
    decreases a, 1int, a.len() - i,
{
    if i < a.len() {
        let path = spec_format_key(prefix, a[i].0@);
        lemma_format_key_counts(prefix, a[i].0@, '[');
        assert(count_char(seq!['.'], '[') == 0) by {
            assert(seq!['.'].drop_first() =~= Seq::<char>::empty());
            assert(count_char(Seq::<char>::empty(), '[') == 0);
        }
        assert(count_char(path, '[') == 0);
        lemma_value_walk_no_array_paths(prefix, a, b, ctx, i + 1);
        let here = match lookup(b, a[i].0@) {
            Some(bv) => value_vals(path, a[i].1, bv, ctx),
            None => Seq::<ValueDiffV>::empty(),
        };
        match lookup(b, a[i].0@) {
            Some(bv) => {
                lemma_lookup_value_keys_avoid(b, a[i].0@, '[');
                lemma_value_vals_no_array_paths(path, a[i].1, bv, ctx);
            },
            None => {},
        }
        let rest = value_walk(prefix, a, b, ctx, i + 1);
        assert forall|k: int|
            0 <= k < value_walk(prefix, a, b, ctx, i).len() implies count_char(
            (#[trigger] value_walk(prefix, a, b, ctx, i)[k]).key,
            '[',
        ) == 0 by {
            if k < here.len() {
                assert(value_walk(prefix, a, b, ctx, i)[k] == here[k]);
            } else {
                assert(value_walk(prefix, a, b, ctx, i)[k] == rest[k - here.len()]);
            }
        }
    }
}

proof fn lemma_value_vals_no_array_paths(path: Seq<char>, av: Value, bv: Value, ctx: CtxV)
    requires
        !ctx.ordered,
        value_keys_avoid(av, '['),
        value_keys_avoid(bv, '['),
        count_char(path, '[') == 0,
    ensures
        forall|k: int|
            0 <= k < value_vals(path, av, bv, ctx).len() ==> count_char(
                (#[trigger] value_vals(path, av, bv, ctx)[k]).key,
                '[',
            ) == 0,
    decreases av, 3int, 0int,
{
    if av is Object && bv is Object {
        assert(value_keys_avoid(av, '['));
        assert(value_keys_avoid(bv, '['));
        assert(obj_keys_avoid(av->Object_0@, '['));
        assert(obj_keys_avoid(bv->Object_0@, '['));
        lemma_value_diffs_no_array_paths(path, av->Object_0@, bv->Object_0@, ctx);
        assert(value_vals(path, av, bv, ctx) =~= value_diffs_spec(
            path,
            av->Object_0@,
            bv->Object_0@,
            ctx,
        ));
    } else if !value_eq(av, bv) {
        assert(value_vals(path, av, bv, ctx)[0].key == path);
    }
}

/// Looking a key up in an object whose tree avoids `c` yields a value whose
/// tree avoids `c`.
proof fn lemma_lookup_value_keys_avoid(fields: Seq<(String, Value)>, key: Seq<char>, c: char)
    requires
        obj_keys_avoid(fields, c),
        has_key(fields, key),
    ensures
        value_keys_avoid(lookup(fields, key)->Some_0, c),
    decreases fields.len(),
{
    if fields.len() > 0 {
        if fields[0].0@ == key {
        } else {
            assert(forall|p: int|
                0 <= p < fields.drop_first().len() ==> fields.drop_first()[p] == fields[p + 1]);
            lemma_lookup_value_keys_avoid(fields.drop_first(), key, c);
        }
    }
}

} // verus!
