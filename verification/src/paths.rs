//! Fully qualified key paths: `.` for object descent, `[i]` for array
//! descent. No escaping is performed, so keys that themselves contain `.` or
//! `[` are not distinguishable from path separators; that is a documented
//! limitation of the path format, not repaired here.

use vstd::prelude::*;
use vstd::string::StringExecFns;

use crate::render::dec_digit;
use crate::render::dec_nat;
use crate::render::push_char;
use crate::value::Value;
use crate::render::render_u64;

verus! {

/// The path of a field named `key` under `prefix`: `key` alone at the root,
/// `prefix.key` below it.
pub open spec fn spec_format_key(prefix: Seq<char>, key: Seq<char>) -> Seq<char> {
    if prefix.len() == 0 {
        key
    } else {
        prefix + seq!['.'] + key
    }
}

/// The path of the element at `index` of the array at `prefix`:
/// `prefix[index]`.
pub open spec fn spec_array_key(prefix: Seq<char>, index: int) -> Seq<char> {
    prefix + seq!['['] + dec_nat(index as nat) + seq![']']
}

/// Builds the path of a field named `current_key` under `key_in`.
pub fn format_key(key_in: &str, current_key: &str) -> (r: String)
    ensures
        r@ == spec_format_key(key_in@, current_key@),
{
    if key_in.is_empty() {
        current_key.to_owned()
    } else {
        let mut s = key_in.to_owned();
        push_char(&mut s, '.');
        s.append(current_key);
        proof {
            assert(s@ =~= key_in@ + seq!['.'] + current_key@);
        }
        s
    }
}

/// Builds the path of the array element at `index` under `key_in`.
pub fn format_array_key(key_in: &str, index: usize) -> (r: String)
    ensures
        r@ == spec_array_key(key_in@, index as int),
{
    let mut s = key_in.to_owned();
    push_char(&mut s, '[');
    let digits = render_u64(index as u64);
    s.append(digits.as_str());
    push_char(&mut s, ']');
    proof {
        assert(s@ =~= key_in@ + seq!['['] + dec_nat(index as nat) + seq![']']);
    }
    s
}

/// How many times `c` occurs in `s`.
pub open spec fn count_char(s: Seq<char>, c: char) -> nat
    decreases s.len(),
{
    if s.len() == 0 {
        0
    } else {
        (if s[0] == c {
            1nat
        } else {
            0nat
        }) + count_char(s.drop_first(), c)
    }
}

pub proof fn lemma_count_char_concat(s1: Seq<char>, s2: Seq<char>, c: char)
    ensures
        count_char(s1 + s2, c) == count_char(s1, c) + count_char(s2, c),
    decreases s1.len(),
{
    if s1.len() == 0 {
        assert(s1 + s2 =~= s2);
    } else {
        assert((s1 + s2).drop_first() =~= s1.drop_first() + s2);
        assert((s1 + s2)[0] == s1[0]);
        lemma_count_char_concat(s1.drop_first(), s2, c);
    }
}

/// How the separator counts of a formatted key path follow from its parts:
/// below the root, one `.` joins the prefix and the key.
pub proof fn lemma_format_key_counts(prefix: Seq<char>, key: Seq<char>, c: char)
    ensures
        count_char(spec_format_key(prefix, key), c) == if prefix.len() == 0 {
            count_char(key, c)
        } else {
            count_char(prefix, c) + count_char(seq!['.'], c) + count_char(key, c)
        },
{
    if prefix.len() != 0 {
        lemma_count_char_concat(prefix, seq!['.'], c);
        lemma_count_char_concat(prefix + seq!['.'], key, c);
    }
}

/// The decimal digits of a natural number contain no path separators.
pub proof fn lemma_dec_nat_no_seps(n: nat)
    ensures
        count_char(dec_nat(n), '.') == 0,
        count_char(dec_nat(n), '[') == 0,
        dec_nat(n).len() >= 1,
    decreases n,
{
    assert(count_char(Seq::<char>::empty(), '.') == 0);
    assert(count_char(Seq::<char>::empty(), '[') == 0);
    if n < 10 {
        assert(dec_digit(n) != '.' && dec_digit(n) != '[');
        assert(seq![dec_digit(n)].drop_first() =~= Seq::<char>::empty());
        assert(seq![dec_digit(n)][0] == dec_digit(n));
        assert(count_char(seq![dec_digit(n)], '.') == 0);
        assert(count_char(seq![dec_digit(n)], '[') == 0);
    } else {
        lemma_dec_nat_no_seps(n / 10);
        let d = dec_nat(n / 10);
        let c9 = dec_digit(n % 10);
        assert(c9 != '.' && c9 != '[');
        assert(dec_nat(n) == d.push(c9));
        assert(d.push(c9) =~= d + seq![c9]);
        lemma_count_char_concat(d, seq![c9], '.');
        lemma_count_char_concat(d, seq![c9], '[');
        assert(seq![c9].drop_first() =~= Seq::<char>::empty());
        assert(seq![c9][0] == c9);
        assert(count_char(seq![c9], '.') == 0);
        assert(count_char(seq![c9], '[') == 0);
    }
}

/// How the separator counts of an array element path follow from its parts:
/// one `[`, the decimal index, one `]`.
pub proof fn lemma_array_key_counts(prefix: Seq<char>, index: int, c: char)
    requires
        0 <= index,
    ensures
        count_char(spec_array_key(prefix, index), c) == count_char(prefix, c) + count_char(
            seq!['['],
            c,
        ) + count_char(dec_nat(index as nat), c) + count_char(seq![']'], c),
{
    lemma_count_char_concat(prefix, seq!['['], c);
    lemma_count_char_concat(prefix + seq!['['], dec_nat(index as nat), c);
    lemma_count_char_concat((prefix + seq!['[']) + dec_nat(index as nat), seq![']'], c);
}

/// Every object key in the tree below `v` avoids the character `c`.
pub open spec fn value_keys_avoid(v: Value, c: char) -> bool
    decreases v,
{
    match v {
        Value::Array(items) => forall|i: int|
            0 <= i < items@.len() ==> value_keys_avoid(#[trigger] items@[i], c),
        Value::Object(fields) => obj_keys_avoid(fields@, c),
        _ => true,
    }
}

/// Every key of this object and of every object below it avoids `c`.
pub open spec fn obj_keys_avoid(fields: Seq<(String, Value)>, c: char) -> bool
    decreases fields,
{
    forall|i: int|
        0 <= i < fields.len() ==> (count_char((#[trigger] fields[i]).0@, c) == 0
            && value_keys_avoid(fields[i].1, c))
}

/// Every object key in the tree below `v` is a nonempty name free of path
/// separators, so paths stay unambiguous.
pub open spec fn value_keys_named(v: Value) -> bool
    decreases v,
{
    match v {
        Value::Array(items) => forall|i: int|
            0 <= i < items@.len() ==> value_keys_named(#[trigger] items@[i]),
        Value::Object(fields) => obj_keys_named(fields@),
        _ => true,
    }
}

/// Every key of this object and of every object below it is a nonempty name
/// free of path separators.
pub open spec fn obj_keys_named(fields: Seq<(String, Value)>) -> bool
    decreases fields,
{
    forall|i: int|
        0 <= i < fields.len() ==> ((#[trigger] fields[i]).0@.len() > 0 && count_char(
            fields[i].0@,
            '.',
        ) == 0 && count_char(fields[i].0@, '[') == 0 && value_keys_named(fields[i].1))
}

/// One step of a descent from the document root: an object key or an array
/// index.
pub ghost enum PathStep {
    Key(Seq<char>),
    Index(int),
}

pub open spec fn step_wf(s: PathStep) -> bool {
    match s {
        PathStep::Key(k) => k.len() > 0 && count_char(k, '.') == 0 && count_char(k, '[') == 0,
        PathStep::Index(i) => i >= 0,
    }
}

/// A well-formed descent: it starts at an object key, every key on it is a
/// nonempty name free of path separators, and every index is nonnegative.
pub open spec fn steps_wf(steps: Seq<PathStep>) -> bool {
    steps.len() >= 1 && steps[0] is Key && forall|i: int|
        0 <= i < steps.len() ==> step_wf(#[trigger] steps[i])
}

/// The path a descent produces, built with the same two constructors the
/// comparators use.
pub open spec fn path_of(steps: Seq<PathStep>) -> Seq<char>
    decreases steps.len(),
{
    if steps.len() == 0 {
        Seq::<char>::empty()
    } else {
        match steps.last() {
            PathStep::Key(k) => spec_format_key(path_of(steps.drop_last()), k),
            PathStep::Index(i) => spec_array_key(path_of(steps.drop_last()), i),
        }
    }
}

pub open spec fn key_steps(steps: Seq<PathStep>) -> nat
    decreases steps.len(),
{
    if steps.len() == 0 {
        0
    } else {
        key_steps(steps.drop_last()) + (if steps.last() is Key {
            1nat
        } else {
            0nat
        })
    }
}

pub open spec fn index_steps(steps: Seq<PathStep>) -> nat
    decreases steps.len(),
{
    if steps.len() == 0 {
        0
    } else {
        index_steps(steps.drop_last()) + (if steps.last() is Index {
            1nat
        } else {
            0nat
        })
    }
}

/// Path correctness of the path constructors: a descent through N object
/// keys and L array levels yields a path with exactly N − 1 dot separators
/// and L bracket segments.
pub proof fn lemma_path_of_counts(steps: Seq<PathStep>)
    requires
        steps_wf(steps),
    ensures
        count_char(path_of(steps), '.') + 1 == key_steps(steps),
        count_char(path_of(steps), '[') == index_steps(steps),
        path_of(steps).len() > 0,
    decreases steps.len(),
{
    assert(count_char(Seq::<char>::empty(), '.') == 0);
    assert(count_char(Seq::<char>::empty(), '[') == 0);
    assert(count_char(seq!['.'], '.') == 1) by {
        assert(seq!['.'].drop_first() =~= Seq::<char>::empty());
        assert(count_char(Seq::<char>::empty(), '.') == 0);
    }
    assert(count_char(seq!['.'], '[') == 0) by {
        assert(seq!['.'].drop_first() =~= Seq::<char>::empty());
        assert(count_char(Seq::<char>::empty(), '[') == 0);
    }
    assert(count_char(seq!['['], '.') == 0 && count_char(seq![']'], '.') == 0 && count_char(
        seq!['['],
        '[',
    ) == 1 && count_char(seq![']'], '[') == 0) by {
        assert(seq!['['].drop_first() =~= Seq::<char>::empty());
        assert(seq![']'].drop_first() =~= Seq::<char>::empty());
        assert(count_char(Seq::<char>::empty(), '.') == 0);
        assert(count_char(Seq::<char>::empty(), '[') == 0);
    }
    assert(path_of(Seq::<PathStep>::empty()) == Seq::<char>::empty());
    assert(key_steps(Seq::<PathStep>::empty()) == 0);
    assert(index_steps(Seq::<PathStep>::empty()) == 0);
    if steps.len() == 1 {
        let k = steps[0]->Key_0;
        assert(steps.last() == steps[0]);
        assert(steps[0] is Key);
        assert(steps.drop_last() =~= Seq::<PathStep>::empty());
        assert(path_of(steps) == spec_format_key(path_of(steps.drop_last()), k));
        assert(path_of(steps.drop_last()) == Seq::<char>::empty());
        assert(path_of(steps) == k);
        assert(step_wf(steps[0]));
    } else {
        assert(steps_wf(steps.drop_last())) by {
            assert(forall|i: int|
                0 <= i < steps.drop_last().len() ==> steps.drop_last()[i] == steps[i]);
        }
        lemma_path_of_counts(steps.drop_last());
        let p = path_of(steps.drop_last());
        match steps.last() {
            PathStep::Key(k) => {
                lemma_format_key_counts(p, k, '.');
                lemma_format_key_counts(p, k, '[');
            },
            PathStep::Index(i) => {
                lemma_array_key_counts(p, i, '.');
                lemma_array_key_counts(p, i, '[');
                lemma_dec_nat_no_seps(i as nat);
            },
        }
    }
}

/// A path that some well-formed descent from the document root produces,
/// with the separator counts that descent dictates: one dot fewer than its
/// object keys, one bracket segment per array level.
pub open spec fn rooted_path(p: Seq<char>) -> bool {
    exists|steps: Seq<PathStep>|
        #![trigger path_of(steps)]
        steps_wf(steps) && p == path_of(steps) && count_char(p, '.') + 1 == key_steps(steps)
            && count_char(p, '[') == index_steps(steps)
}

/// Extending a well-formed descent by one object key under its path.
pub proof fn lemma_steps_push_key(steps: Seq<PathStep>, k: Seq<char>)
    requires
        steps.len() == 0 || steps_wf(steps),
        k.len() > 0,
        count_char(k, '.') == 0,
        count_char(k, '[') == 0,
    ensures
        steps_wf(steps.push(PathStep::Key(k))),
        path_of(steps.push(PathStep::Key(k))) == spec_format_key(path_of(steps), k),
{
    let t = steps.push(PathStep::Key(k));
    assert(t.drop_last() =~= steps);
    assert(t.last() == PathStep::Key(k));
    assert(forall|i: int| 0 <= i < steps.len() ==> t[i] == steps[i]);
}

/// Extending a well-formed descent by one array index under its path.
pub proof fn lemma_steps_push_index(steps: Seq<PathStep>, i: int)
    requires
        steps_wf(steps),
        i >= 0,
    ensures
        steps_wf(steps.push(PathStep::Index(i))),
        path_of(steps.push(PathStep::Index(i))) == spec_array_key(path_of(steps), i),
{
    let t = steps.push(PathStep::Index(i));
    assert(t.drop_last() =~= steps);
    assert(t.last() == PathStep::Index(i));
    assert(forall|j: int| 0 <= j < steps.len() ==> t[j] == steps[j]);
}

} // verus!
