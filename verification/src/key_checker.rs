//! The key comparator: reports keys that exist on only one side. It walks
//! `a`'s fields, recursing into objects present on both sides (and, in
//! ordered mode, into equal-length array pairs element by element), and then
//! reports every key of `b` that `a` misses.

use vstd::prelude::*;

use crate::diff_types::lemma_views_of_concat;
use crate::diff_types::lemma_views_of_push;
use crate::diff_types::views_of;
use crate::diff_types::CtxV;
use crate::diff_types::KeyDiff;
use crate::diff_types::KeyDiffV;
use crate::diff_types::WorkingContext;
use crate::paths::count_char;
use crate::paths::format_array_key;
use crate::paths::lemma_format_key_counts;
use crate::paths::obj_keys_avoid;
use crate::paths::value_keys_avoid;
use crate::paths::format_key;
use crate::paths::spec_array_key;
use crate::paths::spec_format_key;
use crate::value::get_value;
use crate::value::keys_unique;
use crate::value::lemma_lookup_unique;
use crate::value::obj_wf;
use crate::value::value_wf;
use crate::value::has_key;
use crate::value::lookup;
use crate::value::Value;

verus! {

/// All key diffs of one object pair: the walk over `a`'s fields, followed by
/// the keys of `b` that `a` misses.
pub open spec fn key_diffs_spec(
    prefix: Seq<char>,
    a: Seq<(String, Value)>,
    b: Seq<(String, Value)>,
    ctx: CtxV,
) -> Seq<KeyDiffV>
    decreases a, 2int, 0int,
{
    key_walk(prefix, a, b, ctx, 0) + key_remainder(prefix, a, b, ctx, 0)
}

/// The walk over `a`'s fields from position `i` on: a field that `b` misses
/// becomes a diff attributed to side a; a field that `b` also has is
/// descended into.
pub open spec fn key_walk(
    prefix: Seq<char>,
    a: Seq<(String, Value)>,
    b: Seq<(String, Value)>,
    ctx: CtxV,
    i: int,
) -> Seq<KeyDiffV>
    decreases a, 1int, a.len() - i,
{
    if i < 0 || i >= a.len() {
        Seq::<KeyDiffV>::empty()
    } else {
        let path = spec_format_key(prefix, a[i].0@);
        let here = match lookup(b, a[i].0@) {
            Some(bv) => key_vals(path, a[i].1, bv, ctx),
            None => seq![KeyDiffV { key: path, has: ctx.fa, misses: ctx.fb }],
        };
        here + key_walk(prefix, a, b, ctx, i + 1)
    }
}

/// The key diffs below one matched pair of values: object pairs are entered
/// unconditionally, array pairs only in ordered mode and when their lengths
/// match.
pub open spec fn key_vals(path: Seq<char>, av: Value, bv: Value, ctx: CtxV) -> Seq<KeyDiffV>
    decreases av, 3int, 0int,
{
    (if av is Object && bv is Object {
        key_diffs_spec(path, av->Object_0@, bv->Object_0@, ctx)
    } else {
        Seq::<KeyDiffV>::empty()
    }) + (if ctx.ordered && av is Array && bv is Array && av->Array_0@.len()
        == bv->Array_0@.len() {
        key_arrays(path, av->Array_0@, bv->Array_0@, ctx, 0)
    } else {
        Seq::<KeyDiffV>::empty()
    })
}

/// The key diffs of two equal-length arrays compared element by element from
/// position `i` on.
pub open spec fn key_arrays(
    path: Seq<char>,
    x: Seq<Value>,
    y: Seq<Value>,
    ctx: CtxV,
    i: int,
) -> Seq<KeyDiffV>
    decreases x, 0int, x.len() - i,
{
    if i < 0 || i >= x.len() {
        Seq::<KeyDiffV>::empty()
    } else {
        key_vals(spec_array_key(path, i), x[i], y[i], ctx) + key_arrays(path, x, y, ctx, i + 1)
    }
}

/// The keys of `b` from position `i` on that `a` misses, attributed to side
/// b.
pub open spec fn key_remainder(
    prefix: Seq<char>,
    a: Seq<(String, Value)>,
    b: Seq<(String, Value)>,
    ctx: CtxV,
    i: int,
) -> Seq<KeyDiffV>
    decreases b.len() - i,
{
    if i < 0 || i >= b.len() {
        Seq::<KeyDiffV>::empty()
    } else {
        let rest = key_remainder(prefix, a, b, ctx, i + 1);
        if !has_key(a, b[i].0@) {
            seq![
                KeyDiffV {
                    key: spec_format_key(prefix, b[i].0@),
                    has: ctx.fb,
                    misses: ctx.fa,
                },
            ] + rest
        } else {
            rest
        }
    }
}

/// Finds the keys present on only one side of an object pair. Every diff
/// holds the full path of the key, the label of the file that has it and the
/// label of the file that misses it.
#[verifier::loop_isolation(false)]
pub fn find_key_diffs(
    key_in: &str,
    a: &Vec<(String, Value)>,
    b: &Vec<(String, Value)>,
    working_context: &WorkingContext,
) -> (r: Vec<KeyDiff>)
    ensures
        views_of(r@) == key_diffs_spec(key_in@, a@, b@, working_context@),
    decreases a@, 2int, 0int,
{
    let ghost ctx = working_context@;
    let mut diffs: Vec<KeyDiff> = Vec::new();
    proof {
        assert(views_of(diffs@) =~= Seq::<KeyDiffV>::empty());
        assert(views_of(diffs@) + key_walk(key_in@, a@, b@, ctx, 0) =~= key_walk(
            key_in@,
            a@,
            b@,
            ctx,
            0,
        ));
    }
    let mut i: usize = 0;
    while i < a.len()
        invariant
            0 <= i <= a@.len(),
            views_of(diffs@) + key_walk(key_in@, a@, b@, ctx, i as int) == key_walk(
                key_in@,
                a@,
                b@,
                ctx,
                0,
            ),
        decreases a@.len() - i,
    {
        let path = format_key(key_in, a[i].0.as_str());
        let found = get_value(b, a[i].0.as_str());
        match found {
            Some(bv) => {
                proof {
                    assert(decreases_to!(a@ => a@[i as int]));
                    assert(decreases_to!(a@[i as int] => a@[i as int].1));
                    assert(decreases_to!(a@ => a@[i as int].1));
                }
                let mut sub = key_diffs_in_values(path.as_str(), &a[i].1, bv, working_context);
                proof {
                    lemma_views_of_concat(diffs@, sub@);
                    assert((views_of(diffs@) + views_of(sub@)) + key_walk(
                        key_in@,
                        a@,
                        b@,
                        ctx,
                        i as int + 1,
                    ) =~= views_of(diffs@) + (views_of(sub@) + key_walk(
                        key_in@,
                        a@,
                        b@,
                        ctx,
                        i as int + 1,
                    )));
                }
                diffs.append(&mut sub);
            },
            None => {
                let d = KeyDiff::new(
                    path,
                    working_context.file_a.name.clone(),
                    working_context.file_b.name.clone(),
                );
                proof {
                    lemma_views_of_push(diffs@, d);
                    assert(views_of(diffs@).push(d@) =~= views_of(diffs@) + seq![d@]);
                    assert((views_of(diffs@) + seq![d@]) + key_walk(
                        key_in@,
                        a@,
                        b@,
                        ctx,
                        i as int + 1,
                    ) =~= views_of(diffs@) + (seq![d@] + key_walk(
                        key_in@,
                        a@,
                        b@,
                        ctx,
                        i as int + 1,
                    )));
                }
                diffs.push(d);
            },
        }
        i += 1;
    }
    let ghost walk_all = key_walk(key_in@, a@, b@, ctx, 0);
    proof {
        assert(views_of(diffs@) + key_walk(key_in@, a@, b@, ctx, a@.len() as int) =~= views_of(
            diffs@,
        ));
    }
    let mut j: usize = 0;
    while j < b.len()
        invariant
            0 <= j <= b@.len(),
            views_of(diffs@) + key_remainder(key_in@, a@, b@, ctx, j as int) == walk_all
                + key_remainder(key_in@, a@, b@, ctx, 0),
        decreases b@.len() - j,
    {
        let found = get_value(a, b[j].0.as_str());
        match found {
            Some(_) => {},
            None => {
                let d = KeyDiff::new(
                    format_key(key_in, b[j].0.as_str()),
                    working_context.file_b.name.clone(),
                    working_context.file_a.name.clone(),
                );
                proof {
                    lemma_views_of_push(diffs@, d);
                    assert(views_of(diffs@).push(d@) =~= views_of(diffs@) + seq![d@]);
                    assert((views_of(diffs@) + seq![d@]) + key_remainder(
                        key_in@,
                        a@,
                        b@,
                        ctx,
                        j as int + 1,
                    ) =~= views_of(diffs@) + (seq![d@] + key_remainder(
                        key_in@,
                        a@,
                        b@,
                        ctx,
                        j as int + 1,
                    )));
                }
                diffs.push(d);
            },
        }
        j += 1;
    }
    proof {
        assert(views_of(diffs@) + key_remainder(key_in@, a@, b@, ctx, b@.len() as int) =~= views_of(
            diffs@,
        ));
    }
    diffs
}

/// The key diffs below one matched pair of values; see `key_vals`.
#[verifier::loop_isolation(false)]
fn key_diffs_in_values(path: &str, av: &Value, bv: &Value, working_context: &WorkingContext) -> (r:
    Vec<KeyDiff>)
    ensures
        views_of(r@) == key_vals(path@, *av, *bv, working_context@),
    decreases *av, 3int, 0int,
{
    let ghost ctx = working_context@;
    let mut diffs: Vec<KeyDiff> = Vec::new();
    match (av, bv) {
        (Value::Object(af), Value::Object(bf)) => {
            proof {
                assert(decreases_to!(*av => av->Object_0));
                assert(decreases_to!(av->Object_0 => av->Object_0@));
                assert(decreases_to!(*av => af@));
            }
            diffs = find_key_diffs(path, af, bf, working_context);
        },
        _ => {},
    }
    let ghost obj_part = views_of(diffs@);
    proof {
        assert(obj_part =~= (if *av is Object && *bv is Object {
            key_diffs_spec(path@, av->Object_0@, bv->Object_0@, ctx)
        } else {
            Seq::<KeyDiffV>::empty()
        }));
    }
    if working_context.config.array_same_order {
        match (av, bv) {
            (Value::Array(x), Value::Array(y)) => {
                if x.len() == y.len() {
                    let mut k: usize = 0;
                    while k < x.len()
                        invariant
                            0 <= k <= x@.len(),
                            x@.len() == y@.len(),
                            views_of(diffs@) + key_arrays(path@, x@, y@, ctx, k as int) == obj_part
                                + key_arrays(path@, x@, y@, ctx, 0),
                        decreases x@.len() - k,
                    {
                        let pk = format_array_key(path, k);
                        proof {
                            assert(decreases_to!(*av => av->Array_0));
                            assert(decreases_to!(av->Array_0 => av->Array_0@));
                            assert(decreases_to!(av->Array_0@ => av->Array_0@[k as int]));
                            assert(decreases_to!(*av => x@[k as int]));
                        }
                        let mut sub = key_diffs_in_values(
                            pk.as_str(),
                            &x[k],
                            &y[k],
                            working_context,
                        );
                        proof {
                            lemma_views_of_concat(diffs@, sub@);
                            assert((views_of(diffs@) + views_of(sub@)) + key_arrays(
                                path@,
                                x@,
                                y@,
                                ctx,
                                k as int + 1,
                            ) =~= views_of(diffs@) + (views_of(sub@) + key_arrays(
                                path@,
                                x@,
                                y@,
                                ctx,
                                k as int + 1,
                            )));
                        }
                        diffs.append(&mut sub);
                        k += 1;
                    }
                    proof {
                        assert(views_of(diffs@) + key_arrays(path@, x@, y@, ctx, x@.len() as int)
                            =~= views_of(diffs@));
                        assert(views_of(diffs@) == key_vals(path@, *av, *bv, ctx));
                    }
                    return diffs;
                }
            },
            _ => {},
        }
    }
    proof {
        assert(obj_part + Seq::<KeyDiffV>::empty() =~= obj_part);
        assert(views_of(diffs@) == key_vals(path@, *av, *bv, ctx));
    }
    diffs
}

/// Comparing an object against itself yields no key diffs.
pub proof fn lemma_key_diffs_self_empty(prefix: Seq<char>, a: Seq<(String, Value)>, ctx: CtxV)
    requires
        obj_wf(a),
    ensures
        key_diffs_spec(prefix, a, a, ctx) == Seq::<KeyDiffV>::empty(),
    decreases a, 2int, 0int,
{
    lemma_key_walk_self(prefix, a, ctx, 0);
    lemma_key_remainder_self(prefix, a, ctx, 0);
    assert(Seq::<KeyDiffV>::empty() + Seq::<KeyDiffV>::empty() =~= Seq::<KeyDiffV>::empty());
}

proof fn lemma_key_walk_self(prefix: Seq<char>, a: Seq<(String, Value)>, ctx: CtxV, i: int)
    requires
        obj_wf(a),
        0 <= i,
    ensures
        key_walk(prefix, a, a, ctx, i) == Seq::<KeyDiffV>::empty(),
    decreases a, 1int, a.len() - i,
{
    if i < a.len() {
        lemma_lookup_unique(a, i);
        lemma_key_vals_self(spec_format_key(prefix, a[i].0@), a[i].1, ctx);
        lemma_key_walk_self(prefix, a, ctx, i + 1);
        assert(Seq::<KeyDiffV>::empty() + Seq::<KeyDiffV>::empty() =~= Seq::<KeyDiffV>::empty());
    }
}

proof fn lemma_key_vals_self(path: Seq<char>, v: Value, ctx: CtxV)
    requires
        value_wf(v),
    ensures
        key_vals(path, v, v, ctx) == Seq::<KeyDiffV>::empty(),
    decreases v, 3int, 0int,
{
    if v is Object {
        assert(value_wf(v));
        assert(obj_wf(v->Object_0@));
        lemma_key_diffs_self_empty(path, v->Object_0@, ctx);
    }
    if ctx.ordered && v is Array {
        assert(forall|j: int| 0 <= j < v->Array_0@.len() ==> value_wf(#[trigger] v->Array_0@[j]));
        lemma_key_arrays_self(path, v->Array_0@, ctx, 0);
    }
    assert(key_vals(path, v, v, ctx) =~= Seq::<KeyDiffV>::empty());
}

proof fn lemma_key_arrays_self(path: Seq<char>, x: Seq<Value>, ctx: CtxV, i: int)
    requires
        forall|j: int| 0 <= j < x.len() ==> value_wf(#[trigger] x[j]),
        0 <= i,
    ensures
        key_arrays(path, x, x, ctx, i) == Seq::<KeyDiffV>::empty(),
    decreases x, 0int, x.len() - i,
{
    if i < x.len() {
        lemma_key_vals_self(spec_array_key(path, i), x[i], ctx);
        lemma_key_arrays_self(path, x, ctx, i + 1);
        assert(Seq::<KeyDiffV>::empty() + Seq::<KeyDiffV>::empty() =~= Seq::<KeyDiffV>::empty());
    }
}

proof fn lemma_key_remainder_self(prefix: Seq<char>, a: Seq<(String, Value)>, ctx: CtxV, i: int)
    requires
        keys_unique(a),
        0 <= i,
    ensures
        key_remainder(prefix, a, a, ctx, i) == Seq::<KeyDiffV>::empty(),
    decreases a.len() - i,
{
    if i < a.len() {
        lemma_lookup_unique(a, i);
        assert(has_key(a, a[i].0@));
        lemma_key_remainder_self(prefix, a, ctx, i + 1);
    }
}

/// In unordered mode the key comparator never descends into an array: when
/// no key itself contains `[` and the starting prefix is `[`-free, every
/// reported path is `[`-free.
pub proof fn lemma_key_diffs_no_array_paths(
    prefix: Seq<char>,
    a: Seq<(String, Value)>,
    b: Seq<(String, Value)>,
    ctx: CtxV,
)
    requires
        !ctx.ordered,
        obj_keys_avoid(a, '['),
        obj_keys_avoid(b, '['),
        count_char(prefix, '[') == 0,
    ensures
        forall|k: int|
            0 <= k < key_diffs_spec(prefix, a, b, ctx).len() ==> count_char(
                (#[trigger] key_diffs_spec(prefix, a, b, ctx)[k]).key,
                '[',
            ) == 0,
    decreases a, 2int, 0int,
{
    lemma_key_walk_no_array_paths(prefix, a, b, ctx, 0);
    lemma_key_remainder_no_array_paths(prefix, a, b, ctx, 0);
    let w = key_walk(prefix, a, b, ctx, 0);
    let r = key_remainder(prefix, a, b, ctx, 0);
    assert forall|k: int|
        0 <= k < key_diffs_spec(prefix, a, b, ctx).len() implies count_char(
        (#[trigger] key_diffs_spec(prefix, a, b, ctx)[k]).key,
        '[',
    ) == 0 by {
        if k < w.len() {
            assert(key_diffs_spec(prefix, a, b, ctx)[k] == w[k]);
        } else {
            assert(key_diffs_spec(prefix, a, b, ctx)[k] == r[k - w.len()]);
        }
    }
}

proof fn lemma_key_walk_no_array_paths(
    prefix: Seq<char>,
    a: Seq<(String, Value)>,
    b: Seq<(String, Value)>,
    ctx: CtxV,
    i: int,
)
    requires
        !ctx.ordered,
        obj_keys_avoid(a, '['),
        obj_keys_avoid(b, '['),
        count_char(prefix, '[') == 0,
        0 <= i,
    ensures
        forall|k: int|
            0 <= k < key_walk(prefix, a, b, ctx, i).len() ==> count_char(
                (#[trigger] key_walk(prefix, a, b, ctx, i)[k]).key,
                '[',
            ) == 0,
    decreases a, 1int, a.len() - i,
{
    if i < a.len() {
        let path = spec_format_key(prefix, a[i].0@);
        lemma_format_key_counts(prefix, a[i].0@, '[');
        assert(count_char(seq!['.'], '[') == 0) by {
            assert(seq!['.'].drop_first() =~= Seq::<char>::empty());
            assert(count_char(Seq::<char>::empty(), '[') == 0);
        }
        assert(count_char(path, '[') == 0);
        lemma_key_walk_no_array_paths(prefix, a, b, ctx, i + 1);
        let here = match lookup(b, a[i].0@) {
            Some(bv) => key_vals(path, a[i].1, bv, ctx),
            None => seq![KeyDiffV { key: path, has: ctx.fa, misses: ctx.fb }],
        };
        match lookup(b, a[i].0@) {
            Some(bv) => {
                lemma_lookup_in_avoid(b, a[i].0@, '[');
                lemma_key_vals_no_array_paths(path, a[i].1, bv, ctx);
            },
            None => {},
        }
        let rest = key_walk(prefix, a, b, ctx, i + 1);
        assert forall|k: int|
            0 <= k < key_walk(prefix, a, b, ctx, i).len() implies count_char(
            (#[trigger] key_walk(prefix, a, b, ctx, i)[k]).key,
            '[',
        ) == 0 by {
            if k < here.len() {
                assert(key_walk(prefix, a, b, ctx, i)[k] == here[k]);
            } else {
                assert(key_walk(prefix, a, b, ctx, i)[k] == rest[k - here.len()]);
            }
        }
    }
}

proof fn lemma_key_vals_no_array_paths(path: Seq<char>, av: Value, bv: Value, ctx: CtxV)
    requires
        !ctx.ordered,
        value_keys_avoid(av, '['),
        value_keys_avoid(bv, '['),
        count_char(path, '[') == 0,
    ensures
        forall|k: int|
            0 <= k < key_vals(path, av, bv, ctx).len() ==> count_char(
                (#[trigger] key_vals(path, av, bv, ctx)[k]).key,
                '[',
            ) == 0,
    decreases av, 3int, 0int,
{
    if av is Object && bv is Object {
        assert(value_keys_avoid(av, '['));
        assert(value_keys_avoid(bv, '['));
        assert(obj_keys_avoid(av->Object_0@, '['));
        assert(obj_keys_avoid(bv->Object_0@, '['));
        lemma_key_diffs_no_array_paths(path, av->Object_0@, bv->Object_0@, ctx);
        let inner = key_diffs_spec(path, av->Object_0@, bv->Object_0@, ctx);
        assert(key_vals(path, av, bv, ctx) =~= inner);
    } else {
        assert(key_vals(path, av, bv, ctx) =~= Seq::<KeyDiffV>::empty());
    }
}

proof fn lemma_key_remainder_no_array_paths(
    prefix: Seq<char>,
    a: Seq<(String, Value)>,
    b: Seq<(String, Value)>,
    ctx: CtxV,
    i: int,
)
    requires
        obj_keys_avoid(b, '['),
        count_char(prefix, '[') == 0,
        0 <= i,
    ensures
        forall|k: int|
            0 <= k < key_remainder(prefix, a, b, ctx, i).len() ==> count_char(
                (#[trigger] key_remainder(prefix, a, b, ctx, i)[k]).key,
                '[',
            ) == 0,
    decreases b.len() - i,
{
    if i < b.len() {
        lemma_key_remainder_no_array_paths(prefix, a, b, ctx, i + 1);
        lemma_format_key_counts(prefix, b[i].0@, '[');
        assert(count_char(seq!['.'], '[') == 0) by {
            assert(seq!['.'].drop_first() =~= Seq::<char>::empty());
            assert(count_char(Seq::<char>::empty(), '[') == 0);
        }
        let rest = key_remainder(prefix, a, b, ctx, i + 1);
        if !has_key(a, b[i].0@) {
            let rec = KeyDiffV { key: spec_format_key(prefix, b[i].0@), has: ctx.fb, misses: ctx.fa };
            assert forall|k: int|
                0 <= k < key_remainder(prefix, a, b, ctx, i).len() implies count_char(
                (#[trigger] key_remainder(prefix, a, b, ctx, i)[k]).key,
                '[',
            ) == 0 by {
                if k == 0 {
                    assert(key_remainder(prefix, a, b, ctx, i)[0] == rec);
                } else {
                    assert(key_remainder(prefix, a, b, ctx, i)[k] == rest[k - 1]);
                }
            }
        }
    }
}

/// Looking a key up in an object whose tree avoids `c` yields a value whose
/// tree avoids `c`.
proof fn lemma_lookup_in_avoid(fields: Seq<(String, Value)>, key: Seq<char>, c: char)
    requires
        obj_keys_avoid(fields, c),
        has_key(fields, key),
    ensures
        value_keys_avoid(lookup(fields, key)->Some_0, c),
    decreases fields.len(),
{
    if fields.len() > 0 {
        if fields[0].0@ == key {
        } else {
            assert(forall|p: int|
                0 <= p < fields.drop_first().len() ==> fields.drop_first()[p] == fields[p + 1]);
            lemma_lookup_in_avoid(fields.drop_first(), key, c);
        }
    }
}

} // verus!
