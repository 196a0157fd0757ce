//! Path correctness of the four comparators: starting from the document
//! root, every reported path is the path of a well-formed descent, so a diff
//! that sits N object levels deep carries exactly N − 1 dot separators, plus
//! one bracket segment per array level traversed. This holds when keys are
//! nonempty names free of the two separator characters; a key containing `.`
//! or `[` is indistinguishable from a separator, a documented limitation of
//! the unescaped path format.

use vstd::prelude::*;

use crate::array_checker::array_diffs_spec;
use crate::array_checker::array_vals;
use crate::array_checker::array_walk;
use crate::array_checker::multiset_pairs;
use crate::diff_types::CtxV;
use crate::key_checker::key_arrays;
use crate::key_checker::key_diffs_spec;
use crate::key_checker::key_remainder;
use crate::key_checker::key_vals;
use crate::key_checker::key_walk;
use crate::paths::lemma_path_of_counts;
use crate::paths::spec_array_key;
use crate::paths::spec_format_key;
use crate::paths::lemma_steps_push_index;
use crate::paths::lemma_steps_push_key;
use crate::paths::obj_keys_named;
use crate::paths::path_of;
use crate::paths::rooted_path;
use crate::paths::steps_wf;
use crate::paths::value_keys_named;
use crate::paths::PathStep;
use crate::type_checker::type_arrays;
use crate::type_checker::type_diffs_spec;
use crate::type_checker::type_vals;
use crate::type_checker::type_walk;
use crate::value::has_key;
use crate::value::lookup;
use crate::value::value_eq;
use crate::value::Value;
use crate::value_checker::value_arrays;
use crate::value_checker::value_diffs_spec;
use crate::value_checker::value_vals;
use crate::value_checker::value_walk;

verus! {

/// Looking a key up in an object with named keys yields a value with named
/// keys.
proof fn lemma_lookup_named(fields: Seq<(String, Value)>, key: Seq<char>)
    requires
        obj_keys_named(fields),
        has_key(fields, key),
    ensures
        value_keys_named(lookup(fields, key)->Some_0),
    decreases fields.len(),
{
    if fields.len() > 0 {
        if fields[0].0@ == key {
        } else {
            assert(forall|p: int|
                0 <= p < fields.drop_first().len() ==> fields.drop_first()[p] == fields[p + 1]);
            lemma_lookup_named(fields.drop_first(), key);
        }
    }
}

/// Every path the value comparator reports from the document root is the
/// path of a well-formed descent, with the separator counts that descent
/// dictates.
pub proof fn lemma_value_diff_paths_rooted(
    a: Seq<(String, Value)>,
    b: Seq<(String, Value)>,
    ctx: CtxV,
)
    requires
        obj_keys_named(a),
        obj_keys_named(b),
    ensures
        forall|k: int|
            0 <= k < value_diffs_spec(Seq::<char>::empty(), a, b, ctx).len() ==> rooted_path(
                (#[trigger] value_diffs_spec(Seq::<char>::empty(), a, b, ctx)[k]).key,
            ),
{
    assert(path_of(Seq::<PathStep>::empty()) == Seq::<char>::empty());
    lemma_value_walk_rooted(Seq::<PathStep>::empty(), a, b, ctx, 0);
    assert forall|k: int|
        0 <= k < value_diffs_spec(Seq::<char>::empty(), a, b, ctx).len() implies rooted_path(
        (#[trigger] value_diffs_spec(Seq::<char>::empty(), a, b, ctx)[k]).key,
    ) by {
        assert(value_diffs_spec(Seq::<char>::empty(), a, b, ctx)[k] == value_walk(
            path_of(Seq::<PathStep>::empty()),
            a,
            b,
            ctx,
            0,
        )[k]);
    }
}

proof fn lemma_value_walk_rooted(
    steps0: Seq<PathStep>,
    a: Seq<(String, Value)>,
    b: Seq<(String, Value)>,
    ctx: CtxV,
    i: int,
)
    requires
        steps0.len() == 0 || steps_wf(steps0),
        obj_keys_named(a),
        obj_keys_named(b),
        0 <= i,
    ensures
        forall|k: int|
            0 <= k < value_walk(path_of(steps0), a, b, ctx, i).len() ==> rooted_path(
                (#[trigger] value_walk(path_of(steps0), a, b, ctx, i)[k]).key,
            ),
    decreases a, 1int, a.len() - i,
{
    let prefix = path_of(steps0);
    if i < a.len() {
        let k0 = a[i].0@;
        lemma_steps_push_key(steps0, k0);
        let here = match lookup(b, k0) {
            Some(bv) => value_vals(spec_format_key(prefix, k0), a[i].1, bv, ctx),
            None => Seq::<crate::diff_types::ValueDiffV>::empty(),
        };
        match lookup(b, k0) {
            Some(bv) => {
                lemma_lookup_named(b, k0);
                lemma_value_vals_rooted(steps0.push(PathStep::Key(k0)), a[i].1, bv, ctx);
            },
            None => {},
        }
        lemma_value_walk_rooted(steps0, a, b, ctx, i + 1);
        let rest = value_walk(prefix, a, b, ctx, i + 1);
        assert forall|k: int|
            0 <= k < value_walk(prefix, a, b, ctx, i).len() implies rooted_path(
            (#[trigger] value_walk(prefix, a, b, ctx, i)[k]).key,
        ) by {
            if k < here.len() {
                assert(value_walk(prefix, a, b, ctx, i)[k] == here[k]);
            } else {
                assert(value_walk(prefix, a, b, ctx, i)[k] == rest[k - here.len()]);
            }
        }
    }
}

proof fn lemma_value_vals_rooted(steps: Seq<PathStep>, av: Value, bv: Value, ctx: CtxV)
    requires
        steps_wf(steps),
        value_keys_named(av),
        value_keys_named(bv),
    ensures
        forall|k: int|
            0 <= k < value_vals(path_of(steps), av, bv, ctx).len() ==> rooted_path(
                (#[trigger] value_vals(path_of(steps), av, bv, ctx)[k]).key,
            ),
    decreases av, 3int, 0int,
{
    let path = path_of(steps);
    if av is Object && bv is Object {
        assert(value_keys_named(av));
        assert(value_keys_named(bv));
        assert(obj_keys_named(av->Object_0@));
        assert(obj_keys_named(bv->Object_0@));
        lemma_value_walk_rooted(steps, av->Object_0@, bv->Object_0@, ctx, 0);
        assert(value_vals(path, av, bv, ctx) == value_diffs_spec(
            path,
            av->Object_0@,
            bv->Object_0@,
            ctx,
        ));
        assert(value_diffs_spec(path, av->Object_0@, bv->Object_0@, ctx) == value_walk(
            path,
            av->Object_0@,
            bv->Object_0@,
            ctx,
            0,
        ));
        assert forall|k: int|
            0 <= k < value_vals(path, av, bv, ctx).len() implies rooted_path(
            (#[trigger] value_vals(path, av, bv, ctx)[k]).key,
        ) by {
            assert(value_vals(path, av, bv, ctx)[k] == value_walk(
                path,
                av->Object_0@,
                bv->Object_0@,
                ctx,
                0,
            )[k]);
        }
    } else if ctx.ordered && av is Array && bv is Array && av->Array_0@.len()
        == bv->Array_0@.len() {
        assert(forall|j: int|
            0 <= j < av->Array_0@.len() ==> value_keys_named(#[trigger] av->Array_0@[j]));
        assert(forall|j: int|
            0 <= j < bv->Array_0@.len() ==> value_keys_named(#[trigger] bv->Array_0@[j]));
        lemma_value_arrays_rooted(steps, av->Array_0@, bv->Array_0@, ctx, 0);
        assert(value_vals(path, av, bv, ctx) == value_arrays(
            path,
            av->Array_0@,
            bv->Array_0@,
            ctx,
            0,
        ));
        assert forall|k: int|
            0 <= k < value_vals(path, av, bv, ctx).len() implies rooted_path(
            (#[trigger] value_vals(path, av, bv, ctx)[k]).key,
        ) by {
            assert(value_vals(path, av, bv, ctx)[k] == value_arrays(
                path,
                av->Array_0@,
                bv->Array_0@,
                ctx,
                0,
            )[k]);
        }
    } else if !value_eq(av, bv) {
        lemma_path_of_counts(steps);
        assert(rooted_path(path));
        assert(value_vals(path, av, bv, ctx)[0].key == path);
    }
}

proof fn lemma_value_arrays_rooted(
    steps: Seq<PathStep>,
    x: Seq<Value>,
    y: Seq<Value>,
    ctx: CtxV,
    i: int,
)
    requires
        steps_wf(steps),
        forall|j: int| 0 <= j < x.len() ==> value_keys_named(#[trigger] x[j]),
        forall|j: int| 0 <= j < y.len() ==> value_keys_named(#[trigger] y[j]),
        x.len() == y.len(),
        0 <= i,
    ensures
        forall|k: int|
            0 <= k < value_arrays(path_of(steps), x, y, ctx, i).len() ==> rooted_path(
                (#[trigger] value_arrays(path_of(steps), x, y, ctx, i)[k]).key,
            ),
    decreases x, 0int, x.len() - i,
{
    let path = path_of(steps);
    if i < x.len() {
        lemma_steps_push_index(steps, i);
        lemma_value_vals_rooted(steps.push(PathStep::Index(i)), x[i], y[i], ctx);
        lemma_value_arrays_rooted(steps, x, y, ctx, i + 1);
        let here = value_vals(spec_array_key(path, i), x[i], y[i], ctx);
        let rest = value_arrays(path, x, y, ctx, i + 1);
        assert forall|k: int|
            0 <= k < value_arrays(path, x, y, ctx, i).len() implies rooted_path(
            (#[trigger] value_arrays(path, x, y, ctx, i)[k]).key,
        ) by {
            if k < here.len() {
                assert(value_arrays(path, x, y, ctx, i)[k] == here[k]);
            } else {
                assert(value_arrays(path, x, y, ctx, i)[k] == rest[k - here.len()]);
            }
        }
    }
}

/// Every path the key comparator reports from the document root is the path
/// of a well-formed descent, with the separator counts that descent
/// dictates.
pub proof fn lemma_key_diff_paths_rooted(
    a: Seq<(String, Value)>,
    b: Seq<(String, Value)>,
    ctx: CtxV,
)
    requires
        obj_keys_named(a),
        obj_keys_named(b),
    ensures
        forall|k: int|
            0 <= k < key_diffs_spec(Seq::<char>::empty(), a, b, ctx).len() ==> rooted_path(
                (#[trigger] key_diffs_spec(Seq::<char>::empty(), a, b, ctx)[k]).key,
            ),
{
    assert(path_of(Seq::<PathStep>::empty()) == Seq::<char>::empty());
    lemma_key_full_rooted(Seq::<PathStep>::empty(), a, b, ctx);
}

proof fn lemma_key_full_rooted(
    steps0: Seq<PathStep>,
    a: Seq<(String, Value)>,
    b: Seq<(String, Value)>,
    ctx: CtxV,
)
    requires
        steps0.len() == 0 || steps_wf(steps0),
        obj_keys_named(a),
        obj_keys_named(b),
    ensures
        forall|k: int|
            0 <= k < key_diffs_spec(path_of(steps0), a, b, ctx).len() ==> rooted_path(
                (#[trigger] key_diffs_spec(path_of(steps0), a, b, ctx)[k]).key,
            ),
    decreases a, 2int, 0int,
{
    let prefix = path_of(steps0);
    lemma_key_walk_rooted(steps0, a, b, ctx, 0);
    lemma_key_remainder_rooted(steps0, a, b, ctx, 0);
    let w = key_walk(prefix, a, b, ctx, 0);
    let r = key_remainder(prefix, a, b, ctx, 0);
    assert forall|k: int|
        0 <= k < key_diffs_spec(prefix, a, b, ctx).len() implies rooted_path(
        (#[trigger] key_diffs_spec(prefix, a, b, ctx)[k]).key,
    ) by {
        if k < w.len() {
            assert(key_diffs_spec(prefix, a, b, ctx)[k] == w[k]);
        } else {
            assert(key_diffs_spec(prefix, a, b, ctx)[k] == r[k - w.len()]);
        }
    }
}

proof fn lemma_key_walk_rooted(
    steps0: Seq<PathStep>,
    a: Seq<(String, Value)>,
    b: Seq<(String, Value)>,
    ctx: CtxV,
    i: int,
)
    requires
        steps0.len() == 0 || steps_wf(steps0),
        obj_keys_named(a),
        obj_keys_named(b),
        0 <= i,
    ensures
        forall|k: int|
            0 <= k < key_walk(path_of(steps0), a, b, ctx, i).len() ==> rooted_path(
                (#[trigger] key_walk(path_of(steps0), a, b, ctx, i)[k]).key,
            ),
    decreases a, 1int, a.len() - i,
{
    let prefix = path_of(steps0);
    if i < a.len() {
        let k0 = a[i].0@;
        lemma_steps_push_key(steps0, k0);
        let path = spec_format_key(prefix, k0);
        let here = match lookup(b, k0) {
            Some(bv) => key_vals(path, a[i].1, bv, ctx),
            None => seq![
                crate::diff_types::KeyDiffV { key: path, has: ctx.fa, misses: ctx.fb },
            ],
        };
        match lookup(b, k0) {
            Some(bv) => {
                lemma_lookup_named(b, k0);
                lemma_key_vals_rooted(steps0.push(PathStep::Key(k0)), a[i].1, bv, ctx);
            },
            None => {
                lemma_path_of_counts(steps0.push(PathStep::Key(k0)));
                assert(rooted_path(path));
            },
        }
        lemma_key_walk_rooted(steps0, a, b, ctx, i + 1);
        let rest = key_walk(prefix, a, b, ctx, i + 1);
        assert forall|k: int|
            0 <= k < key_walk(prefix, a, b, ctx, i).len() implies rooted_path(
            (#[trigger] key_walk(prefix, a, b, ctx, i)[k]).key,
        ) by {
            if k < here.len() {
                assert(key_walk(prefix, a, b, ctx, i)[k] == here[k]);
            } else {
                assert(key_walk(prefix, a, b, ctx, i)[k] == rest[k - here.len()]);
            }
        }
    }
}

proof fn lemma_key_vals_rooted(steps: Seq<PathStep>, av: Value, bv: Value, ctx: CtxV)
    requires
        steps_wf(steps),
        value_keys_named(av),
        value_keys_named(bv),
    ensures
        forall|k: int|
            0 <= k < key_vals(path_of(steps), av, bv, ctx).len() ==> rooted_path(
                (#[trigger] key_vals(path_of(steps), av, bv, ctx)[k]).key,
            ),
    decreases av, 3int, 0int,
{
    let path = path_of(steps);
    let obj_part = if av is Object && bv is Object {
        key_diffs_spec(path, av->Object_0@, bv->Object_0@, ctx)
    } else {
        Seq::<crate::diff_types::KeyDiffV>::empty()
    };
    let arr_part = if ctx.ordered && av is Array && bv is Array && av->Array_0@.len()
        == bv->Array_0@.len() {
        key_arrays(path, av->Array_0@, bv->Array_0@, ctx, 0)
    } else {
        Seq::<crate::diff_types::KeyDiffV>::empty()
    };
    if av is Object && bv is Object {
        assert(value_keys_named(av));
        assert(value_keys_named(bv));
        assert(obj_keys_named(av->Object_0@));
        assert(obj_keys_named(bv->Object_0@));
        lemma_key_full_rooted(steps, av->Object_0@, bv->Object_0@, ctx);
    }
    if ctx.ordered && av is Array && bv is Array && av->Array_0@.len() == bv->Array_0@.len() {
        assert(forall|j: int|
            0 <= j < av->Array_0@.len() ==> value_keys_named(#[trigger] av->Array_0@[j]));
        assert(forall|j: int|
            0 <= j < bv->Array_0@.len() ==> value_keys_named(#[trigger] bv->Array_0@[j]));
        lemma_key_arrays_rooted(steps, av->Array_0@, bv->Array_0@, ctx, 0);
    }
    assert forall|k: int|
        0 <= k < key_vals(path, av, bv, ctx).len() implies rooted_path(
        (#[trigger] key_vals(path, av, bv, ctx)[k]).key,
    ) by {
        if k < obj_part.len() {
            assert(key_vals(path, av, bv, ctx)[k] == obj_part[k]);
        } else {
            assert(key_vals(path, av, bv, ctx)[k] == arr_part[k - obj_part.len()]);
        }
    }
}

proof fn lemma_key_arrays_rooted(
    steps: Seq<PathStep>,
    x: Seq<Value>,
    y: Seq<Value>,
    ctx: CtxV,
    i: int,
)
    requires
        steps_wf(steps),
        forall|j: int| 0 <= j < x.len() ==> value_keys_named(#[trigger] x[j]),
        forall|j: int| 0 <= j < y.len() ==> value_keys_named(#[trigger] y[j]),
        x.len() == y.len(),
        0 <= i,
    ensures
        forall|k: int|
            0 <= k < key_arrays(path_of(steps), x, y, ctx, i).len() ==> rooted_path(
                (#[trigger] key_arrays(path_of(steps), x, y, ctx, i)[k]).key,
            ),
    decreases x, 0int, x.len() - i,
{
    let path = path_of(steps);
    if i < x.len() {
        lemma_steps_push_index(steps, i);
        lemma_key_vals_rooted(steps.push(PathStep::Index(i)), x[i], y[i], ctx);
        lemma_key_arrays_rooted(steps, x, y, ctx, i + 1);
        let here = key_vals(spec_array_key(path, i), x[i], y[i], ctx);
        let rest = key_arrays(path, x, y, ctx, i + 1);
        assert forall|k: int|
            0 <= k < key_arrays(path, x, y, ctx, i).len() implies rooted_path(
            (#[trigger] key_arrays(path, x, y, ctx, i)[k]).key,
        ) by {
            if k < here.len() {
                assert(key_arrays(path, x, y, ctx, i)[k] == here[k]);
            } else {
                assert(key_arrays(path, x, y, ctx, i)[k] == rest[k - here.len()]);
            }
        }
    }
}

proof fn lemma_key_remainder_rooted(
    steps0: Seq<PathStep>,
    a: Seq<(String, Value)>,
    b: Seq<(String, Value)>,
    ctx: CtxV,
    i: int,
)
    requires
        steps0.len() == 0 || steps_wf(steps0),
        obj_keys_named(b),
        0 <= i,
    ensures
        forall|k: int|
            0 <= k < key_remainder(path_of(steps0), a, b, ctx, i).len() ==> rooted_path(
                (#[trigger] key_remainder(path_of(steps0), a, b, ctx, i)[k]).key,
            ),
    decreases b.len() - i,
{
    let prefix = path_of(steps0);
    if i < b.len() {
        lemma_key_remainder_rooted(steps0, a, b, ctx, i + 1);
        let rest = key_remainder(prefix, a, b, ctx, i + 1);
        if !has_key(a, b[i].0@) {
            lemma_steps_push_key(steps0, b[i].0@);
            lemma_path_of_counts(steps0.push(PathStep::Key(b[i].0@)));
            let path = spec_format_key(prefix, b[i].0@);
            assert(rooted_path(path));
            assert forall|k: int|
                0 <= k < key_remainder(prefix, a, b, ctx, i).len() implies rooted_path(
                (#[trigger] key_remainder(prefix, a, b, ctx, i)[k]).key,
            ) by {
                if k == 0 {
                    assert(key_remainder(prefix, a, b, ctx, i)[0].key == path);
                } else {
                    assert(key_remainder(prefix, a, b, ctx, i)[k] == rest[k - 1]);
                }
            }
        }
    }
}

/// Every path the type comparator reports from the document root is the
/// path of a well-formed descent, with the separator counts that descent
/// dictates.
pub proof fn lemma_type_diff_paths_rooted(
    a: Seq<(String, Value)>,
    b: Seq<(String, Value)>,
    ctx: CtxV,
)
    requires
        obj_keys_named(a),
        obj_keys_named(b),
    ensures
        forall|k: int|
            0 <= k < type_diffs_spec(Seq::<char>::empty(), a, b, ctx).len() ==> rooted_path(
                (#[trigger] type_diffs_spec(Seq::<char>::empty(), a, b, ctx)[k]).key,
            ),
{
    assert(path_of(Seq::<PathStep>::empty()) == Seq::<char>::empty());
    lemma_type_walk_rooted(Seq::<PathStep>::empty(), a, b, ctx, 0);
    assert forall|k: int|
        0 <= k < type_diffs_spec(Seq::<char>::empty(), a, b, ctx).len() implies rooted_path(
        (#[trigger] type_diffs_spec(Seq::<char>::empty(), a, b, ctx)[k]).key,
    ) by {
        assert(type_diffs_spec(Seq::<char>::empty(), a, b, ctx)[k] == type_walk(
            path_of(Seq::<PathStep>::empty()),
            a,
            b,
            ctx,
            0,
        )[k]);
    }
}

proof fn lemma_type_walk_rooted(
    steps0: Seq<PathStep>,
    a: Seq<(String, Value)>,
    b: Seq<(String, Value)>,
    ctx: CtxV,
    i: int,
)
    requires
        steps0.len() == 0 || steps_wf(steps0),
        obj_keys_named(a),
        obj_keys_named(b),
        0 <= i,
    ensures
        forall|k: int|
            0 <= k < type_walk(path_of(steps0), a, b, ctx, i).len() ==> rooted_path(
                (#[trigger] type_walk(path_of(steps0), a, b, ctx, i)[k]).key,
            ),
    decreases a, 1int, a.len() - i,
{
    let prefix = path_of(steps0);
    if i < a.len() {
        let k0 = a[i].0@;
        lemma_steps_push_key(steps0, k0);
        let here = match lookup(b, k0) {
            Some(bv) => type_vals(spec_format_key(prefix, k0), a[i].1, bv, ctx),
            None => Seq::<crate::diff_types::TypeDiffV>::empty(),
        };
        match lookup(b, k0) {
            Some(bv) => {
                lemma_lookup_named(b, k0);
                lemma_type_vals_rooted(steps0.push(PathStep::Key(k0)), a[i].1, bv, ctx);
            },
            None => {},
        }
        lemma_type_walk_rooted(steps0, a, b, ctx, i + 1);
        let rest = type_walk(prefix, a, b, ctx, i + 1);
        assert forall|k: int|
            0 <= k < type_walk(prefix, a, b, ctx, i).len() implies rooted_path(
            (#[trigger] type_walk(prefix, a, b, ctx, i)[k]).key,
        ) by {
            if k < here.len() {
                assert(type_walk(prefix, a, b, ctx, i)[k] == here[k]);
            } else {
                assert(type_walk(prefix, a, b, ctx, i)[k] == rest[k - here.len()]);
            }
        }
    }
}

proof fn lemma_type_vals_rooted(steps: Seq<PathStep>, av: Value, bv: Value, ctx: CtxV)
    requires
        steps_wf(steps),
        value_keys_named(av),
        value_keys_named(bv),
    ensures
        forall|k: int|
            0 <= k < type_vals(path_of(steps), av, bv, ctx).len() ==> rooted_path(
                (#[trigger] type_vals(path_of(steps), av, bv, ctx)[k]).key,
            ),
    decreases av, 3int, 0int,
{
    let path = path_of(steps);
    let obj_part = if av is Object && bv is Object {
        type_diffs_spec(path, av->Object_0@, bv->Object_0@, ctx)
    } else {
        Seq::<crate::diff_types::TypeDiffV>::empty()
    };
    let arr_part = if ctx.ordered && av is Array && bv is Array && av->Array_0@.len()
        == bv->Array_0@.len() {
        type_arrays(path, av->Array_0@, bv->Array_0@, ctx, 0)
    } else {
        Seq::<crate::diff_types::TypeDiffV>::empty()
    };
    if av is Object && bv is Object {
        assert(value_keys_named(av));
        assert(value_keys_named(bv));
        assert(obj_keys_named(av->Object_0@));
        assert(obj_keys_named(bv->Object_0@));
        lemma_type_walk_rooted(steps, av->Object_0@, bv->Object_0@, ctx, 0);
        assert forall|k: int| 0 <= k < obj_part.len() implies rooted_path(
            (#[trigger] obj_part[k]).key,
        ) by {
            assert(obj_part[k] == type_walk(path, av->Object_0@, bv->Object_0@, ctx, 0)[k]);
        }
    }
    if ctx.ordered && av is Array && bv is Array && av->Array_0@.len() == bv->Array_0@.len() {
        assert(forall|j: int|
            0 <= j < av->Array_0@.len() ==> value_keys_named(#[trigger] av->Array_0@[j]));
        assert(forall|j: int|
            0 <= j < bv->Array_0@.len() ==> value_keys_named(#[trigger] bv->Array_0@[j]));
        lemma_type_arrays_rooted(steps, av->Array_0@, bv->Array_0@, ctx, 0);
    }
    lemma_path_of_counts(steps);
    assert(rooted_path(path));
    assert forall|k: int|
        0 <= k < type_vals(path, av, bv, ctx).len() implies rooted_path(
        (#[trigger] type_vals(path, av, bv, ctx)[k]).key,
    ) by {
        if k < obj_part.len() {
            assert(type_vals(path, av, bv, ctx)[k] == obj_part[k]);
        } else if k < obj_part.len() + arr_part.len() {
            assert(type_vals(path, av, bv, ctx)[k] == arr_part[k - obj_part.len()]);
        } else {
            assert(type_vals(path, av, bv, ctx)[k].key == path);
        }
    }
}

proof fn lemma_type_arrays_rooted(
    steps: Seq<PathStep>,
    x: Seq<Value>,
    y: Seq<Value>,
    ctx: CtxV,
    i: int,
)
    requires
        steps_wf(steps),
        forall|j: int| 0 <= j < x.len() ==> value_keys_named(#[trigger] x[j]),
        forall|j: int| 0 <= j < y.len() ==> value_keys_named(#[trigger] y[j]),
        x.len() == y.len(),
        0 <= i,
    ensures
        forall|k: int|
            0 <= k < type_arrays(path_of(steps), x, y, ctx, i).len() ==> rooted_path(
                (#[trigger] type_arrays(path_of(steps), x, y, ctx, i)[k]).key,
            ),
    decreases x, 0int, x.len() - i,
{
    let path = path_of(steps);
    if i < x.len() {
        lemma_steps_push_index(steps, i);
        lemma_type_vals_rooted(steps.push(PathStep::Index(i)), x[i], y[i], ctx);
        lemma_type_arrays_rooted(steps, x, y, ctx, i + 1);
        let here = type_vals(spec_array_key(path, i), x[i], y[i], ctx);
        let rest = type_arrays(path, x, y, ctx, i + 1);
        assert forall|k: int|
            0 <= k < type_arrays(path, x, y, ctx, i).len() implies rooted_path(
            (#[trigger] type_arrays(path, x, y, ctx, i)[k]).key,
        ) by {
            if k < here.len() {
                assert(type_arrays(path, x, y, ctx, i)[k] == here[k]);
            } else {
                assert(type_arrays(path, x, y, ctx, i)[k] == rest[k - here.len()]);
            }
        }
    }
}

/// Every path the array comparator reports from the document root is the
/// path of a well-formed descent, with the separator counts that descent
/// dictates.
pub proof fn lemma_array_diff_paths_rooted(
    a: Seq<(String, Value)>,
    b: Seq<(String, Value)>,
    ctx: CtxV,
)
    requires
        obj_keys_named(a),
        obj_keys_named(b),
    ensures
        forall|k: int|
            0 <= k < array_diffs_spec(Seq::<char>::empty(), a, b, ctx).len() ==> rooted_path(
                (#[trigger] array_diffs_spec(Seq::<char>::empty(), a, b, ctx)[k]).key,
            ),
{
    assert(path_of(Seq::<PathStep>::empty()) == Seq::<char>::empty());
    if !ctx.ordered {
        lemma_array_walk_rooted(Seq::<PathStep>::empty(), a, b, ctx, 0);
        assert forall|k: int|
            0 <= k < array_diffs_spec(Seq::<char>::empty(), a, b, ctx).len() implies rooted_path(
            (#[trigger] array_diffs_spec(Seq::<char>::empty(), a, b, ctx)[k]).key,
        ) by {
            assert(array_diffs_spec(Seq::<char>::empty(), a, b, ctx)[k] == array_walk(
                path_of(Seq::<PathStep>::empty()),
                a,
                b,
                ctx,
                0,
            )[k]);
        }
    }
}

proof fn lemma_array_walk_rooted(
    steps0: Seq<PathStep>,
    a: Seq<(String, Value)>,
    b: Seq<(String, Value)>,
    ctx: CtxV,
    i: int,
)
    requires
        steps0.len() == 0 || steps_wf(steps0),
        obj_keys_named(a),
        obj_keys_named(b),
        0 <= i,
    ensures
        forall|k: int|
            0 <= k < array_walk(path_of(steps0), a, b, ctx, i).len() ==> rooted_path(
                (#[trigger] array_walk(path_of(steps0), a, b, ctx, i)[k]).key,
            ),
    decreases a, 2int, a.len() - i,
{
    let prefix = path_of(steps0);
    if i < a.len() {
        let k0 = a[i].0@;
        lemma_steps_push_key(steps0, k0);
        let here = match lookup(b, k0) {
            Some(bv) => array_vals(spec_format_key(prefix, k0), a[i].1, bv, ctx),
            None => Seq::<crate::diff_types::ArrayDiffV>::empty(),
        };
        match lookup(b, k0) {
            Some(bv) => {
                lemma_lookup_named(b, k0);
                lemma_array_vals_rooted(steps0.push(PathStep::Key(k0)), a[i].1, bv, ctx);
            },
            None => {},
        }
        lemma_array_walk_rooted(steps0, a, b, ctx, i + 1);
        let rest = array_walk(prefix, a, b, ctx, i + 1);
        assert forall|k: int|
            0 <= k < array_walk(prefix, a, b, ctx, i).len() implies rooted_path(
            (#[trigger] array_walk(prefix, a, b, ctx, i)[k]).key,
        ) by {
            if k < here.len() {
                assert(array_walk(prefix, a, b, ctx, i)[k] == here[k]);
            } else {
                assert(array_walk(prefix, a, b, ctx, i)[k] == rest[k - here.len()]);
            }
        }
    }
}

proof fn lemma_array_vals_rooted(steps: Seq<PathStep>, av: Value, bv: Value, ctx: CtxV)
    requires
        steps_wf(steps),
        value_keys_named(av),
        value_keys_named(bv),
    ensures
        forall|k: int|
            0 <= k < array_vals(path_of(steps), av, bv, ctx).len() ==> rooted_path(
                (#[trigger] array_vals(path_of(steps), av, bv, ctx)[k]).key,
            ),
    decreases av, 3int, 0int,
{
    let path = path_of(steps);
    let obj_part = if av is Object && bv is Object {
        array_walk(path, av->Object_0@, bv->Object_0@, ctx, 0)
    } else {
        Seq::<crate::diff_types::ArrayDiffV>::empty()
    };
    let arr_part = if av is Array && bv is Array {
        multiset_pairs(path, crate::array_checker::rendered(av->Array_0@), crate::array_checker::rendered(bv->Array_0@))
    } else {
        Seq::<crate::diff_types::ArrayDiffV>::empty()
    };
    if av is Object && bv is Object {
        assert(value_keys_named(av));
        assert(value_keys_named(bv));
        assert(obj_keys_named(av->Object_0@));
        assert(obj_keys_named(bv->Object_0@));
        lemma_array_walk_rooted(steps, av->Object_0@, bv->Object_0@, ctx, 0);
    }
    lemma_path_of_counts(steps);
    assert(rooted_path(path));
    assert(forall|k: int| 0 <= k < arr_part.len() ==> (#[trigger] arr_part[k]).key == path);
    assert forall|k: int|
        0 <= k < array_vals(path, av, bv, ctx).len() implies rooted_path(
        (#[trigger] array_vals(path, av, bv, ctx)[k]).key,
    ) by {
        if k < obj_part.len() {
            assert(array_vals(path, av, bv, ctx)[k] == obj_part[k]);
        } else {
            assert(array_vals(path, av, bv, ctx)[k] == arr_part[k - obj_part.len()]);
        }
    }
}

} // verus!
