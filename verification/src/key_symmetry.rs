//! The symmetry law of the key comparator: swapping the two documents and
//! the two file labels leaves the set of key-diff records attributed to a
//! given file unchanged. The proof characterises, per side, the set of paths
//! a run attributes to that side, and shows that the walk side of one run
//! collects the same paths as the remainder side of the swapped run.

use vstd::prelude::*;

use crate::diff_types::CtxV;
use crate::diff_types::KeyDiffV;
use crate::key_checker::key_arrays;
use crate::key_checker::key_diffs_spec;
use crate::key_checker::key_remainder;
use crate::key_checker::key_vals;
use crate::key_checker::key_walk;
use crate::paths::spec_array_key;
use crate::paths::spec_format_key;
use crate::value::has_key;
use crate::value::lemma_lookup_unique;
use crate::value::lookup;
use crate::value::obj_wf;
use crate::value::value_wf;
use crate::value::Value;

verus! {

/// The records of `ds`, as a set, that name `label` as the file that has the
/// key.
pub open spec fn attributed_to(ds: Seq<KeyDiffV>, label: Seq<char>) -> Set<KeyDiffV> {
    ds.to_set().filter(|d: KeyDiffV| d.has == label)
}

/// The records for a set of paths, all attributed the same way.
spec fn recs_of(paths: Set<Seq<char>>, has: Seq<char>, misses: Seq<char>) -> Set<KeyDiffV> {
    Set::new(|d: KeyDiffV| paths.contains(d.key) && d.has == has && d.misses == misses)
}

/// The paths that the walk over `a` attributes to side a, from position `i`
/// on: keys of `a` that `b` misses, here and below every matched pair.
spec fn hp_walk(
    prefix: Seq<char>,
    a: Seq<(String, Value)>,
    b: Seq<(String, Value)>,
    ordered: bool,
    i: int,
) -> Set<Seq<char>>
    decreases a, 1int, a.len() - i,
{
    if i < 0 || i >= a.len() {
        Set::<Seq<char>>::empty()
    } else {
        let path = spec_format_key(prefix, a[i].0@);
        (match lookup(b, a[i].0@) {
            Some(bv) => hp_vals(path, a[i].1, bv, ordered),
            None => Set::<Seq<char>>::empty().insert(path),
        }).union(hp_walk(prefix, a, b, ordered, i + 1))
    }
}

spec fn hp_vals(path: Seq<char>, av: Value, bv: Value, ordered: bool) -> Set<Seq<char>>
    decreases av, 3int, 0int,
{
    (if av is Object && bv is Object {
        hp_walk(path, av->Object_0@, bv->Object_0@, ordered, 0)
    } else {
        Set::<Seq<char>>::empty()
    }).union(
        if ordered && av is Array && bv is Array && av->Array_0@.len() == bv->Array_0@.len() {
            hp_arrays(path, av->Array_0@, bv->Array_0@, ordered, 0)
        } else {
            Set::<Seq<char>>::empty()
        },
    )
}

spec fn hp_arrays(path: Seq<char>, x: Seq<Value>, y: Seq<Value>, ordered: bool, i: int) -> Set<
    Seq<char>,
>
    decreases x, 0int, x.len() - i,
{
    if i < 0 || i >= x.len() {
        Set::<Seq<char>>::empty()
    } else {
        hp_vals(spec_array_key(path, i), x[i], y[i], ordered).union(
            hp_arrays(path, x, y, ordered, i + 1),
        )
    }
}

/// The paths that one run attributes to side b: keys of `b` that `a` misses,
/// collected by the remainder at this level and below every matched pair.
spec fn rp_full(
    prefix: Seq<char>,
    a: Seq<(String, Value)>,
    b: Seq<(String, Value)>,
    ordered: bool,
) -> Set<Seq<char>>
    decreases a, 2int, 0int,
{
    rp_walk(prefix, a, b, ordered, 0).union(rp_rem(prefix, a, b, 0))
}

spec fn rp_walk(
    prefix: Seq<char>,
    a: Seq<(String, Value)>,
    b: Seq<(String, Value)>,
    ordered: bool,
    i: int,
) -> Set<Seq<char>>
    decreases a, 1int, a.len() - i,
{
    if i < 0 || i >= a.len() {
        Set::<Seq<char>>::empty()
    } else {
        (match lookup(b, a[i].0@) {
            Some(bv) => rp_vals(spec_format_key(prefix, a[i].0@), a[i].1, bv, ordered),
            None => Set::<Seq<char>>::empty(),
        }).union(rp_walk(prefix, a, b, ordered, i + 1))
    }
}

spec fn rp_vals(path: Seq<char>, av: Value, bv: Value, ordered: bool) -> Set<Seq<char>>
    decreases av, 3int, 0int,
{
    (if av is Object && bv is Object {
        rp_full(path, av->Object_0@, bv->Object_0@, ordered)
    } else {
        Set::<Seq<char>>::empty()
    }).union(
        if ordered && av is Array && bv is Array && av->Array_0@.len() == bv->Array_0@.len() {
            rp_arrays(path, av->Array_0@, bv->Array_0@, ordered, 0)
        } else {
            Set::<Seq<char>>::empty()
        },
    )
}

spec fn rp_arrays(path: Seq<char>, x: Seq<Value>, y: Seq<Value>, ordered: bool, i: int) -> Set<
    Seq<char>,
>
    decreases x, 0int, x.len() - i,
{
    if i < 0 || i >= x.len() {
        Set::<Seq<char>>::empty()
    } else {
        rp_vals(spec_array_key(path, i), x[i], y[i], ordered).union(
            rp_arrays(path, x, y, ordered, i + 1),
        )
    }
}

spec fn rp_rem(prefix: Seq<char>, a: Seq<(String, Value)>, b: Seq<(String, Value)>, i: int) -> Set<
    Seq<char>,
>
    decreases b.len() - i,
{
    if i < 0 || i >= b.len() {
        Set::<Seq<char>>::empty()
    } else {
        (if !has_key(a, b[i].0@) {
            Set::<Seq<char>>::empty().insert(spec_format_key(prefix, b[i].0@))
        } else {
            Set::<Seq<char>>::empty()
        }).union(rp_rem(prefix, a, b, i + 1))
    }
}

proof fn lemma_attr_concat(s1: Seq<KeyDiffV>, s2: Seq<KeyDiffV>, label: Seq<char>)
    ensures
        attributed_to(s1 + s2, label) == attributed_to(s1, label).union(attributed_to(s2, label)),
{
    assert forall|d: KeyDiffV| #[trigger]
        (s1 + s2).contains(d) implies s1.contains(d) || s2.contains(d) by {
        let k = choose|k: int| 0 <= k < (s1 + s2).len() && (s1 + s2)[k] == d;
        if k < s1.len() {
            assert(s1[k] == d);
        } else {
            assert(s2[k - s1.len()] == d);
        }
    }
    assert forall|d: KeyDiffV| s1.contains(d) implies #[trigger] (s1 + s2).contains(d) by {
        let k = choose|k: int| 0 <= k < s1.len() && s1[k] == d;
        assert((s1 + s2)[k] == d);
    }
    assert forall|d: KeyDiffV| s2.contains(d) implies #[trigger] (s1 + s2).contains(d) by {
        let k = choose|k: int| 0 <= k < s2.len() && s2[k] == d;
        assert((s1 + s2)[s1.len() + k] == d);
    }
    assert(attributed_to(s1 + s2, label) =~= attributed_to(s1, label).union(
        attributed_to(s2, label),
    ));
}

/// Each record of the remainder is attributed to side b, so none of them is
/// attributed to side a when the two labels differ.
proof fn lemma_attr_remainder_excluded(
    prefix: Seq<char>,
    a: Seq<(String, Value)>,
    b: Seq<(String, Value)>,
    ctx: CtxV,
    i: int,
)
    requires
        ctx.fa != ctx.fb,
        0 <= i,
    ensures
        attributed_to(key_remainder(prefix, a, b, ctx, i), ctx.fa) == Set::<KeyDiffV>::empty(),
    decreases b.len() - i,
{
    if i < b.len() {
        lemma_attr_remainder_excluded(prefix, a, b, ctx, i + 1);
        if !has_key(a, b[i].0@) {
            let rec = KeyDiffV { key: spec_format_key(prefix, b[i].0@), has: ctx.fb, misses: ctx.fa };
            lemma_attr_concat(seq![rec], key_remainder(prefix, a, b, ctx, i + 1), ctx.fa);
            assert forall|d: KeyDiffV| #[trigger] seq![rec].contains(d) implies d == rec by {}
            assert(attributed_to(seq![rec], ctx.fa) =~= Set::<KeyDiffV>::empty());
            assert(attributed_to(key_remainder(prefix, a, b, ctx, i), ctx.fa) =~= Set::<
                KeyDiffV,
            >::empty());
        }
    } else {
        assert(attributed_to(key_remainder(prefix, a, b, ctx, i), ctx.fa) =~= Set::<
            KeyDiffV,
        >::empty());
    }
}

/// Attributed to side a, a run's records are exactly the records of the
/// walk-side paths.
proof fn lemma_attr_full(prefix: Seq<char>, a: Seq<(String, Value)>, b: Seq<(String, Value)>, ctx: CtxV)
    requires
        ctx.fa != ctx.fb,
    ensures
        attributed_to(key_diffs_spec(prefix, a, b, ctx), ctx.fa) == recs_of(
            hp_walk(prefix, a, b, ctx.ordered, 0),
            ctx.fa,
            ctx.fb,
        ),
    decreases a, 2int, 0int,
{
    lemma_attr_concat(key_walk(prefix, a, b, ctx, 0), key_remainder(prefix, a, b, ctx, 0), ctx.fa);
    lemma_attr_walk(prefix, a, b, ctx, 0);
    lemma_attr_remainder_excluded(prefix, a, b, ctx, 0);
    assert(attributed_to(key_diffs_spec(prefix, a, b, ctx), ctx.fa) =~= recs_of(
        hp_walk(prefix, a, b, ctx.ordered, 0),
        ctx.fa,
        ctx.fb,
    ));
}

proof fn lemma_attr_walk(
    prefix: Seq<char>,
    a: Seq<(String, Value)>,
    b: Seq<(String, Value)>,
    ctx: CtxV,
    i: int,
)
    requires
        ctx.fa != ctx.fb,
        0 <= i,
    ensures
        attributed_to(key_walk(prefix, a, b, ctx, i), ctx.fa) == recs_of(
            hp_walk(prefix, a, b, ctx.ordered, i),
            ctx.fa,
            ctx.fb,
        ),
    decreases a, 1int, a.len() - i,
{
    if i < a.len() {
        let path = spec_format_key(prefix, a[i].0@);
        lemma_attr_walk(prefix, a, b, ctx, i + 1);
        match lookup(b, a[i].0@) {
            Some(bv) => {
                lemma_attr_concat(
                    key_vals(path, a[i].1, bv, ctx),
                    key_walk(prefix, a, b, ctx, i + 1),
                    ctx.fa,
                );
                lemma_attr_vals(path, a[i].1, bv, ctx);
            },
            None => {
                let rec = KeyDiffV { key: path, has: ctx.fa, misses: ctx.fb };
                lemma_attr_concat(seq![rec], key_walk(prefix, a, b, ctx, i + 1), ctx.fa);
                assert forall|d: KeyDiffV| #[trigger] seq![rec].contains(d) implies d == rec by {}
                assert(seq![rec][0] == rec);
                assert(attributed_to(seq![rec], ctx.fa) =~= recs_of(
                    Set::<Seq<char>>::empty().insert(path),
                    ctx.fa,
                    ctx.fb,
                ));
            },
        }
        assert(attributed_to(key_walk(prefix, a, b, ctx, i), ctx.fa) =~= recs_of(
            hp_walk(prefix, a, b, ctx.ordered, i),
            ctx.fa,
            ctx.fb,
        ));
    } else {
        assert(attributed_to(key_walk(prefix, a, b, ctx, i), ctx.fa) =~= recs_of(
            hp_walk(prefix, a, b, ctx.ordered, i),
            ctx.fa,
            ctx.fb,
        ));
    }
}

proof fn lemma_attr_vals(path: Seq<char>, av: Value, bv: Value, ctx: CtxV)
    requires
        ctx.fa != ctx.fb,
    ensures
        attributed_to(key_vals(path, av, bv, ctx), ctx.fa) == recs_of(
            hp_vals(path, av, bv, ctx.ordered),
            ctx.fa,
            ctx.fb,
        ),
    decreases av, 3int, 0int,
{
    let obj_seq = if av is Object && bv is Object {
        key_diffs_spec(path, av->Object_0@, bv->Object_0@, ctx)
    } else {
        Seq::<KeyDiffV>::empty()
    };
    let arr_seq = if ctx.ordered && av is Array && bv is Array && av->Array_0@.len()
        == bv->Array_0@.len() {
        key_arrays(path, av->Array_0@, bv->Array_0@, ctx, 0)
    } else {
        Seq::<KeyDiffV>::empty()
    };
    lemma_attr_concat(obj_seq, arr_seq, ctx.fa);
    if av is Object && bv is Object {
        lemma_attr_full(path, av->Object_0@, bv->Object_0@, ctx);
    } else {
        assert(attributed_to(obj_seq, ctx.fa) =~= Set::<KeyDiffV>::empty());
    }
    if ctx.ordered && av is Array && bv is Array && av->Array_0@.len() == bv->Array_0@.len() {
        lemma_attr_arrays(path, av->Array_0@, bv->Array_0@, ctx, 0);
    } else {
        assert(attributed_to(arr_seq, ctx.fa) =~= Set::<KeyDiffV>::empty());
    }
    assert(attributed_to(key_vals(path, av, bv, ctx), ctx.fa) =~= recs_of(
        hp_vals(path, av, bv, ctx.ordered),
        ctx.fa,
        ctx.fb,
    ));
}

proof fn lemma_attr_arrays(path: Seq<char>, x: Seq<Value>, y: Seq<Value>, ctx: CtxV, i: int)
    requires
        ctx.fa != ctx.fb,
        0 <= i,
    ensures
        attributed_to(key_arrays(path, x, y, ctx, i), ctx.fa) == recs_of(
            hp_arrays(path, x, y, ctx.ordered, i),
            ctx.fa,
            ctx.fb,
        ),
    decreases x, 0int, x.len() - i,
{
    if i < x.len() {
        lemma_attr_concat(
            key_vals(spec_array_key(path, i), x[i], y[i], ctx),
            key_arrays(path, x, y, ctx, i + 1),
            ctx.fa,
        );
        lemma_attr_vals(spec_array_key(path, i), x[i], y[i], ctx);
        lemma_attr_arrays(path, x, y, ctx, i + 1);
        assert(attributed_to(key_arrays(path, x, y, ctx, i), ctx.fa) =~= recs_of(
            hp_arrays(path, x, y, ctx.ordered, i),
            ctx.fa,
            ctx.fb,
        ));
    } else {
        assert(attributed_to(key_arrays(path, x, y, ctx, i), ctx.fa) =~= recs_of(
            hp_arrays(path, x, y, ctx.ordered, i),
            ctx.fa,
            ctx.fb,
        ));
    }
}

/// Attributed to side b, a run's records are exactly the records of the
/// remainder-side paths.
proof fn lemma_attr2_full(
    prefix: Seq<char>,
    a: Seq<(String, Value)>,
    b: Seq<(String, Value)>,
    ctx: CtxV,
)
    requires
        ctx.fa != ctx.fb,
    ensures
        attributed_to(key_diffs_spec(prefix, a, b, ctx), ctx.fb) == recs_of(
            rp_full(prefix, a, b, ctx.ordered),
            ctx.fb,
            ctx.fa,
        ),
    decreases a, 2int, 0int,
{
    lemma_attr_concat(key_walk(prefix, a, b, ctx, 0), key_remainder(prefix, a, b, ctx, 0), ctx.fb);
    lemma_attr2_walk(prefix, a, b, ctx, 0);
    lemma_attr2_remainder(prefix, a, b, ctx, 0);
    assert(attributed_to(key_diffs_spec(prefix, a, b, ctx), ctx.fb) =~= recs_of(
        rp_full(prefix, a, b, ctx.ordered),
        ctx.fb,
        ctx.fa,
    ));
}

proof fn lemma_attr2_remainder(
    prefix: Seq<char>,
    a: Seq<(String, Value)>,
    b: Seq<(String, Value)>,
    ctx: CtxV,
    i: int,
)
    requires
        ctx.fa != ctx.fb,
        0 <= i,
    ensures
        attributed_to(key_remainder(prefix, a, b, ctx, i), ctx.fb) == recs_of(
            rp_rem(prefix, a, b, i),
            ctx.fb,
            ctx.fa,
        ),
    decreases b.len() - i,
{
    if i < b.len() {
        lemma_attr2_remainder(prefix, a, b, ctx, i + 1);
        if !has_key(a, b[i].0@) {
            let path = spec_format_key(prefix, b[i].0@);
            let rec = KeyDiffV { key: path, has: ctx.fb, misses: ctx.fa };
            lemma_attr_concat(seq![rec], key_remainder(prefix, a, b, ctx, i + 1), ctx.fb);
            assert forall|d: KeyDiffV| #[trigger] seq![rec].contains(d) implies d == rec by {}
            assert(seq![rec][0] == rec);
            assert(attributed_to(seq![rec], ctx.fb) =~= recs_of(
                Set::<Seq<char>>::empty().insert(path),
                ctx.fb,
                ctx.fa,
            ));
        }
        assert(attributed_to(key_remainder(prefix, a, b, ctx, i), ctx.fb) =~= recs_of(
            rp_rem(prefix, a, b, i),
            ctx.fb,
            ctx.fa,
        ));
    } else {
        assert(attributed_to(key_remainder(prefix, a, b, ctx, i), ctx.fb) =~= recs_of(
            rp_rem(prefix, a, b, i),
            ctx.fb,
            ctx.fa,
        ));
    }
}

proof fn lemma_attr2_walk(
    prefix: Seq<char>,
    a: Seq<(String, Value)>,
    b: Seq<(String, Value)>,
    ctx: CtxV,
    i: int,
)
    requires
        ctx.fa != ctx.fb,
        0 <= i,
    ensures
        attributed_to(key_walk(prefix, a, b, ctx, i), ctx.fb) == recs_of(
            rp_walk(prefix, a, b, ctx.ordered, i),
            ctx.fb,
            ctx.fa,
        ),
    decreases a, 1int, a.len() - i,
{
    if i < a.len() {
        let path = spec_format_key(prefix, a[i].0@);
        lemma_attr2_walk(prefix, a, b, ctx, i + 1);
        match lookup(b, a[i].0@) {
            Some(bv) => {
                lemma_attr_concat(
                    key_vals(path, a[i].1, bv, ctx),
                    key_walk(prefix, a, b, ctx, i + 1),
                    ctx.fb,
                );
                lemma_attr2_vals(path, a[i].1, bv, ctx);
            },
            None => {
                let rec = KeyDiffV { key: path, has: ctx.fa, misses: ctx.fb };
                lemma_attr_concat(seq![rec], key_walk(prefix, a, b, ctx, i + 1), ctx.fb);
                assert forall|d: KeyDiffV| #[trigger] seq![rec].contains(d) implies d == rec by {}
                assert(attributed_to(seq![rec], ctx.fb) =~= Set::<KeyDiffV>::empty());
            },
        }
        assert(attributed_to(key_walk(prefix, a, b, ctx, i), ctx.fb) =~= recs_of(
            rp_walk(prefix, a, b, ctx.ordered, i),
            ctx.fb,
            ctx.fa,
        ));
    } else {
        assert(attributed_to(key_walk(prefix, a, b, ctx, i), ctx.fb) =~= recs_of(
            rp_walk(prefix, a, b, ctx.ordered, i),
            ctx.fb,
            ctx.fa,
        ));
    }
}

proof fn lemma_attr2_vals(path: Seq<char>, av: Value, bv: Value, ctx: CtxV)
    requires
        ctx.fa != ctx.fb,
    ensures
        attributed_to(key_vals(path, av, bv, ctx), ctx.fb) == recs_of(
            rp_vals(path, av, bv, ctx.ordered),
            ctx.fb,
            ctx.fa,
        ),
    decreases av, 3int, 0int,
{
    let obj_seq = if av is Object && bv is Object {
        key_diffs_spec(path, av->Object_0@, bv->Object_0@, ctx)
    } else {
        Seq::<KeyDiffV>::empty()
    };
    let arr_seq = if ctx.ordered && av is Array && bv is Array && av->Array_0@.len()
        == bv->Array_0@.len() {
        key_arrays(path, av->Array_0@, bv->Array_0@, ctx, 0)
    } else {
        Seq::<KeyDiffV>::empty()
    };
    lemma_attr_concat(obj_seq, arr_seq, ctx.fb);
    if av is Object && bv is Object {
        lemma_attr2_full(path, av->Object_0@, bv->Object_0@, ctx);
    } else {
        assert(attributed_to(obj_seq, ctx.fb) =~= Set::<KeyDiffV>::empty());
    }
    if ctx.ordered && av is Array && bv is Array && av->Array_0@.len() == bv->Array_0@.len() {
        lemma_attr2_arrays(path, av->Array_0@, bv->Array_0@, ctx, 0);
    } else {
        assert(attributed_to(arr_seq, ctx.fb) =~= Set::<KeyDiffV>::empty());
    }
    assert(attributed_to(key_vals(path, av, bv, ctx), ctx.fb) =~= recs_of(
        rp_vals(path, av, bv, ctx.ordered),
        ctx.fb,
        ctx.fa,
    ));
}

proof fn lemma_attr2_arrays(path: Seq<char>, x: Seq<Value>, y: Seq<Value>, ctx: CtxV, i: int)
    requires
        ctx.fa != ctx.fb,
        0 <= i,
    ensures
        attributed_to(key_arrays(path, x, y, ctx, i), ctx.fb) == recs_of(
            rp_arrays(path, x, y, ctx.ordered, i),
            ctx.fb,
            ctx.fa,
        ),
    decreases x, 0int, x.len() - i,
{
    if i < x.len() {
        lemma_attr_concat(
            key_vals(spec_array_key(path, i), x[i], y[i], ctx),
            key_arrays(path, x, y, ctx, i + 1),
            ctx.fb,
        );
        lemma_attr2_vals(spec_array_key(path, i), x[i], y[i], ctx);
        lemma_attr2_arrays(path, x, y, ctx, i + 1);
        assert(attributed_to(key_arrays(path, x, y, ctx, i), ctx.fb) =~= recs_of(
            rp_arrays(path, x, y, ctx.ordered, i),
            ctx.fb,
            ctx.fa,
        ));
    } else {
        assert(attributed_to(key_arrays(path, x, y, ctx, i), ctx.fb) =~= recs_of(
            rp_arrays(path, x, y, ctx.ordered, i),
            ctx.fb,
            ctx.fa,
        ));
    }
}

/// What one field of `a` contributes to the walk-side paths: its own path if
/// `b` misses the key, the matched pair's paths otherwise.
spec fn hp_contrib(prefix: Seq<char>, f: (String, Value), b: Seq<(String, Value)>, ordered: bool) -> Set<Seq<char>> {
    match lookup(b, f.0@) {
        Some(bv) => hp_vals(spec_format_key(prefix, f.0@), f.1, bv, ordered),
        None => Set::<Seq<char>>::empty().insert(spec_format_key(prefix, f.0@)),
    }
}

/// What one field of `a` contributes to the remainder-side paths below
/// matched pairs.
spec fn rp_contrib(prefix: Seq<char>, f: (String, Value), b: Seq<(String, Value)>, ordered: bool) -> Set<Seq<char>> {
    match lookup(b, f.0@) {
        Some(bv) => rp_vals(spec_format_key(prefix, f.0@), f.1, bv, ordered),
        None => Set::<Seq<char>>::empty(),
    }
}

proof fn lemma_hp_walk_elem(
    prefix: Seq<char>,
    a: Seq<(String, Value)>,
    b: Seq<(String, Value)>,
    ordered: bool,
    i: int,
    p: Seq<char>,
)
    requires
        0 <= i,
    ensures
        hp_walk(prefix, a, b, ordered, i).contains(p) <==> exists|j: int|
            i <= j < a.len() && #[trigger] hp_contrib(prefix, a[j], b, ordered).contains(p),
    decreases a.len() - i,
{
    if i < a.len() {
        lemma_hp_walk_elem(prefix, a, b, ordered, i + 1, p);
        assert(hp_walk(prefix, a, b, ordered, i) == hp_contrib(prefix, a[i], b, ordered).union(
            hp_walk(prefix, a, b, ordered, i + 1),
        ));
        if hp_contrib(prefix, a[i], b, ordered).contains(p) {
            assert(exists|j: int|
                i <= j < a.len() && #[trigger] hp_contrib(prefix, a[j], b, ordered).contains(p));
        }
    }
}

proof fn lemma_rp_walk_elem(
    prefix: Seq<char>,
    a: Seq<(String, Value)>,
    b: Seq<(String, Value)>,
    ordered: bool,
    i: int,
    p: Seq<char>,
)
    requires
        0 <= i,
    ensures
        rp_walk(prefix, a, b, ordered, i).contains(p) <==> exists|j: int|
            i <= j < a.len() && #[trigger] rp_contrib(prefix, a[j], b, ordered).contains(p),
    decreases a.len() - i,
{
    if i < a.len() {
        lemma_rp_walk_elem(prefix, a, b, ordered, i + 1, p);
        assert(rp_walk(prefix, a, b, ordered, i) == rp_contrib(prefix, a[i], b, ordered).union(
            rp_walk(prefix, a, b, ordered, i + 1),
        ));
        if rp_contrib(prefix, a[i], b, ordered).contains(p) {
            assert(exists|j: int|
                i <= j < a.len() && #[trigger] rp_contrib(prefix, a[j], b, ordered).contains(p));
        }
    }
}

proof fn lemma_rp_rem_elem(
    prefix: Seq<char>,
    a: Seq<(String, Value)>,
    b: Seq<(String, Value)>,
    i: int,
    p: Seq<char>,
)
    requires
        0 <= i,
    ensures
        rp_rem(prefix, a, b, i).contains(p) <==> exists|j: int|
            i <= j < b.len() && !has_key(a, #[trigger] b[j].0@) && p == spec_format_key(
                prefix,
                b[j].0@,
            ),
    decreases b.len() - i,
{
    if i < b.len() {
        lemma_rp_rem_elem(prefix, a, b, i + 1, p);
        if !has_key(a, b[i].0@) && p == spec_format_key(prefix, b[i].0@) {
            assert(rp_rem(prefix, a, b, i).contains(p));
        }
    }
}

/// If an object has a key, some field carries it, and lookup finds that
/// field's value.
proof fn lemma_lookup_index(fields: Seq<(String, Value)>, key: Seq<char>)
    requires
        has_key(fields, key),
    ensures
        exists|j: int|
            0 <= j < fields.len() && #[trigger] fields[j].0@ == key && lookup(fields, key) == Some(
                fields[j].1,
            ),
    decreases fields.len(),
{
    if fields.len() > 0 {
        if fields[0].0@ == key {
            assert(fields[0].0@ == key && lookup(fields, key) == Some(fields[0].1));
        } else {
            lemma_lookup_index(fields.drop_first(), key);
            let j0 = choose|j0: int|
                0 <= j0 < fields.drop_first().len() && #[trigger] fields.drop_first()[j0].0@ == key
                    && lookup(fields.drop_first(), key) == Some(fields.drop_first()[j0].1);
            assert(fields[j0 + 1] == fields.drop_first()[j0]);
            assert(fields[j0 + 1].0@ == key && lookup(fields, key) == Some(fields[j0 + 1].1));
        }
    }
}

/// The remainder side of the swapped run collects exactly the walk-side
/// paths of the original run.
proof fn lemma_swap_full(
    prefix: Seq<char>,
    a: Seq<(String, Value)>,
    b: Seq<(String, Value)>,
    ordered: bool,
)
    requires
        obj_wf(a),
        obj_wf(b),
    ensures
        rp_full(prefix, b, a, ordered) == hp_walk(prefix, a, b, ordered, 0),
    decreases a, 2int, 0int,
{
    assert forall|p: Seq<char>| #[trigger]
        rp_full(prefix, b, a, ordered).contains(p) implies hp_walk(
        prefix,
        a,
        b,
        ordered,
        0,
    ).contains(p) by {
        if rp_walk(prefix, b, a, ordered, 0).contains(p) {
            lemma_rp_walk_elem(prefix, b, a, ordered, 0, p);
            let j = choose|j: int|
                0 <= j < b.len() && #[trigger] rp_contrib(prefix, b[j], a, ordered).contains(p);
            let key = b[j].0@;
            match lookup(a, key) {
                Some(av) => {
                    lemma_lookup_index(a, key);
                    let i = choose|i: int|
                        0 <= i < a.len() && #[trigger] a[i].0@ == key && lookup(a, key) == Some(
                            a[i].1,
                        );
                    lemma_lookup_unique(b, j);
                    assert(lookup(b, a[i].0@) == Some(b[j].1));
                    lemma_swap_vals(spec_format_key(prefix, key), a[i].1, b[j].1, ordered);
                    assert(hp_contrib(prefix, a[i], b, ordered).contains(p));
                    lemma_hp_walk_elem(prefix, a, b, ordered, 0, p);
                },
                None => {
                    assert(rp_contrib(prefix, b[j], a, ordered) =~= Set::<Seq<char>>::empty());
                    assert(false);
                },
            }
        } else {
            assert(rp_rem(prefix, b, a, 0).contains(p));
            lemma_rp_rem_elem(prefix, b, a, 0, p);
            let j = choose|j: int|
                0 <= j < a.len() && !has_key(b, #[trigger] a[j].0@) && p == spec_format_key(
                    prefix,
                    a[j].0@,
                );
            assert(hp_contrib(prefix, a[j], b, ordered).contains(p));
            lemma_hp_walk_elem(prefix, a, b, ordered, 0, p);
        }
    }
    assert forall|p: Seq<char>| #[trigger]
        hp_walk(prefix, a, b, ordered, 0).contains(p) implies rp_full(
        prefix,
        b,
        a,
        ordered,
    ).contains(p) by {
        lemma_hp_walk_elem(prefix, a, b, ordered, 0, p);
        let i = choose|i: int|
            0 <= i < a.len() && #[trigger] hp_contrib(prefix, a[i], b, ordered).contains(p);
        let key = a[i].0@;
        match lookup(b, key) {
            Some(bv) => {
                lemma_lookup_index(b, key);
                let j = choose|j: int|
                    0 <= j < b.len() && #[trigger] b[j].0@ == key && lookup(b, key) == Some(b[j].1);
                lemma_lookup_unique(a, i);
                assert(lookup(a, b[j].0@) == Some(a[i].1));
                lemma_swap_vals(spec_format_key(prefix, key), a[i].1, b[j].1, ordered);
                assert(rp_contrib(prefix, b[j], a, ordered).contains(p));
                lemma_rp_walk_elem(prefix, b, a, ordered, 0, p);
            },
            None => {
                assert(p == spec_format_key(prefix, key));
                lemma_rp_rem_elem(prefix, b, a, 0, p);
            },
        }
    }
    assert(rp_full(prefix, b, a, ordered) =~= hp_walk(prefix, a, b, ordered, 0));
}

proof fn lemma_swap_vals(path: Seq<char>, av: Value, bv: Value, ordered: bool)
    requires
        value_wf(av),
        value_wf(bv),
    ensures
        rp_vals(path, bv, av, ordered) == hp_vals(path, av, bv, ordered),
    decreases av, 3int, 0int,
{
    if av is Object && bv is Object {
        assert(value_wf(av));
        assert(value_wf(bv));
        assert(obj_wf(av->Object_0@));
        assert(obj_wf(bv->Object_0@));
        lemma_swap_full(path, av->Object_0@, bv->Object_0@, ordered);
    }
    if ordered && av is Array && bv is Array && av->Array_0@.len() == bv->Array_0@.len() {
        assert(forall|j: int| 0 <= j < av->Array_0@.len() ==> value_wf(#[trigger] av->Array_0@[j]));
        assert(forall|j: int| 0 <= j < bv->Array_0@.len() ==> value_wf(#[trigger] bv->Array_0@[j]));
        lemma_swap_arrays(path, av->Array_0@, bv->Array_0@, ordered, 0);
    }
    assert(rp_vals(path, bv, av, ordered) =~= hp_vals(path, av, bv, ordered));
}

proof fn lemma_swap_arrays(path: Seq<char>, x: Seq<Value>, y: Seq<Value>, ordered: bool, i: int)
    requires
        forall|j: int| 0 <= j < x.len() ==> value_wf(#[trigger] x[j]),
        forall|j: int| 0 <= j < y.len() ==> value_wf(#[trigger] y[j]),
        x.len() == y.len(),
        0 <= i,
    ensures
        rp_arrays(path, y, x, ordered, i) == hp_arrays(path, x, y, ordered, i),
    decreases x, 0int, x.len() - i,
{
    if i < x.len() {
        lemma_swap_vals(spec_array_key(path, i), x[i], y[i], ordered);
        lemma_swap_arrays(path, x, y, ordered, i + 1);
        assert(rp_arrays(path, y, x, ordered, i) =~= hp_arrays(path, x, y, ordered, i));
    } else {
        assert(rp_arrays(path, y, x, ordered, i) =~= hp_arrays(path, x, y, ordered, i));
    }
}

/// Symmetry of key diffs: for any two objects, the key-diff records that
/// attribute a key to the first file are the same whether the comparison
/// runs forward or with both the documents and the file labels swapped.
pub proof fn lemma_key_diff_symmetry(
    prefix: Seq<char>,
    a: Seq<(String, Value)>,
    b: Seq<(String, Value)>,
    ctx1: CtxV,
    ctx2: CtxV,
)
    requires
        obj_wf(a),
        obj_wf(b),
        ctx1.fa != ctx1.fb,
        ctx2.fa == ctx1.fb,
        ctx2.fb == ctx1.fa,
        ctx2.ordered == ctx1.ordered,
    ensures
        attributed_to(key_diffs_spec(prefix, a, b, ctx1), ctx1.fa) == attributed_to(
            key_diffs_spec(prefix, b, a, ctx2),
            ctx1.fa,
        ),
{
    lemma_attr_full(prefix, a, b, ctx1);
    lemma_attr2_full(prefix, b, a, ctx2);
    lemma_swap_full(prefix, a, b, ctx1.ordered);
}

} // verus!
