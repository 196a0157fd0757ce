//! The run configuration and the four kinds of diff record, together with the
//! ghost views that the comparators' contracts are stated over.

use vstd::prelude::*;

verus! {

/// Configuration of one comparison run.
#[derive(Debug, Clone, Copy)]
pub struct Config {
    /// Switches between positional (index by index) array comparison and
    /// order-insensitive, multiset-based array comparison.
    pub array_same_order: bool,
}

impl Config {
    pub fn new(array_same_order: bool) -> (c: Config)
        ensures
            c.array_same_order == array_same_order,
    {
        Config { array_same_order }
    }
}

/// A label identifying one side of the comparison (for example a file path).
/// Used only for attribution inside key diffs, never for I/O.
#[derive(Debug, Clone)]
pub struct WorkingFile {
    pub name: String,
}

impl WorkingFile {
    pub fn new(name: String) -> (f: WorkingFile)
        ensures
            f.name == name,
    {
        WorkingFile { name }
    }
}

/// Everything one comparison run reads: the two file labels and the
/// configuration. Shared read-only across all recursive calls of a run.
#[derive(Debug, Clone)]
pub struct WorkingContext {
    pub file_a: WorkingFile,
    pub file_b: WorkingFile,
    pub config: Config,
}

impl WorkingContext {
    pub fn new(file_a: WorkingFile, file_b: WorkingFile, config: Config) -> (c: WorkingContext)
        ensures
            c.file_a == file_a,
            c.file_b == file_b,
            c.config == config,
    {
        WorkingContext { file_a, file_b, config }
    }
}

/// The ghost image of a working context: the two labels and the mode flag.
pub ghost struct CtxV {
    pub fa: Seq<char>,
    pub fb: Seq<char>,
    pub ordered: bool,
}

impl View for WorkingContext {
    type V = CtxV;

    open spec fn view(&self) -> CtxV {
        CtxV { fa: self.file_a.name@, fb: self.file_b.name@, ordered: self.config.array_same_order }
    }
}

/// Which side an array-diff record speaks of: a value that one document's
/// array has is, by the same token, a value the other document's array
/// misses, so records come in `AHas`/`BMisses` and `BHas`/`AMisses` pairs.
#[derive(Debug, Clone, Copy, PartialEq, Eq, Structural)]
pub enum ArrayDiffDesc {
    AHas,
    AMisses,
    BHas,
    BMisses,
}

/// A key present in one document and absent from the other. `has` and
/// `misses` hold the two file labels.
#[derive(Debug, Clone, PartialEq)]
pub struct KeyDiff {
    pub key: String,
    pub has: String,
    pub misses: String,
}

/// The ghost image of a key diff.
pub ghost struct KeyDiffV {
    pub key: Seq<char>,
    pub has: Seq<char>,
    pub misses: Seq<char>,
}

impl View for KeyDiff {
    type V = KeyDiffV;

    open spec fn view(&self) -> KeyDiffV {
        KeyDiffV { key: self.key@, has: self.has@, misses: self.misses@ }
    }
}

impl KeyDiff {
    pub fn new(key: String, has: String, misses: String) -> (d: KeyDiff)
        ensures
            d.key == key,
            d.has == has,
            d.misses == misses,
    {
        KeyDiff { key, has, misses }
    }
}

/// A key present in both documents whose value kinds differ.
#[derive(Debug, Clone, PartialEq)]
pub struct TypeDiff {
    pub key: String,
    pub type1: String,
    pub type2: String,
}

/// The ghost image of a type diff.
pub ghost struct TypeDiffV {
    pub key: Seq<char>,
    pub type1: Seq<char>,
    pub type2: Seq<char>,
}

impl View for TypeDiff {
    type V = TypeDiffV;

    open spec fn view(&self) -> TypeDiffV {
        TypeDiffV { key: self.key@, type1: self.type1@, type2: self.type2@ }
    }
}

impl TypeDiff {
    pub fn new(key: String, type1: String, type2: String) -> (d: TypeDiff)
        ensures
            d.key == key,
            d.type1 == type1,
            d.type2 == type2,
    {
        TypeDiff { key, type1, type2 }
    }
}

/// A key present in both documents whose values differ, with both values in
/// their display form.
#[derive(Debug, Clone, PartialEq)]
pub struct ValueDiff {
    pub key: String,
    pub value1: String,
    pub value2: String,
}

/// The ghost image of a value diff.
pub ghost struct ValueDiffV {
    pub key: Seq<char>,
    pub value1: Seq<char>,
    pub value2: Seq<char>,
}

impl View for ValueDiff {
    type V = ValueDiffV;

    open spec fn view(&self) -> ValueDiffV {
        ValueDiffV { key: self.key@, value1: self.value1@, value2: self.value2@ }
    }
}

impl ValueDiff {
    pub fn new(key: String, value1: String, value2: String) -> (d: ValueDiff)
        ensures
            d.key == key,
            d.value1 == value1,
            d.value2 == value2,
    {
        ValueDiff { key, value1, value2 }
    }
}

/// One array-content difference: at the array under `key`, the side named by
/// `descriptor` has or misses one occurrence of `value`.
#[derive(Debug, Clone, PartialEq)]
pub struct ArrayDiff {
    pub key: String,
    pub descriptor: ArrayDiffDesc,
    pub value: String,
}

/// The ghost image of an array diff.
pub ghost struct ArrayDiffV {
    pub key: Seq<char>,
    pub descriptor: ArrayDiffDesc,
    pub value: Seq<char>,
}

impl View for ArrayDiff {
    type V = ArrayDiffV;

    open spec fn view(&self) -> ArrayDiffV {
        ArrayDiffV { key: self.key@, descriptor: self.descriptor, value: self.value@ }
    }
}

impl ArrayDiff {
    pub fn new(key: String, descriptor: ArrayDiffDesc, value: String) -> (d: ArrayDiff)
        ensures
            d.key == key,
            d.descriptor == descriptor,
            d.value == value,
    {
        ArrayDiff { key, descriptor, value }
    }
}

/// The sequence of ghost images of a sequence of records.
pub open spec fn views_of<T: View>(s: Seq<T>) -> Seq<T::V> {
    s.map_values(|t: T| t@)
}

pub proof fn lemma_views_of_concat<T: View>(s1: Seq<T>, s2: Seq<T>)
    ensures
        views_of(s1 + s2) == views_of(s1) + views_of(s2),
{
    assert(views_of(s1 + s2) =~= views_of(s1) + views_of(s2));
}

pub proof fn lemma_views_of_push<T: View>(s: Seq<T>, t: T)
    ensures
        views_of(s.push(t)) == views_of(s).push(t@),
{
    assert(views_of(s.push(t)) =~= views_of(s).push(t@));
}

} // verus!
