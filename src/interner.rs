//! Label interning through `string_interner`.
use string_interner::{DefaultStringInterner, DefaultSymbol, Symbol};
use vstd::prelude::*;

verus! {

/// A `string_interner` interner of labels. Verus refuses to declare the
/// interner type itself (its parameters are bound by an outside trait), so it
/// is held here, out of Verus's sight, and reached only through the functions
/// below.
#[verifier::external_body]
pub struct LabelInterner {
    inner: DefaultStringInterner,
}

/// The labels held by an interner, in the order in which they were interned:
/// the label at index `i` is the one whose symbol has index `i`.
pub uninterp spec fn interned_labels(i: LabelInterner) -> Seq<Seq<char>>;

/// Relies on `StringInterner::new`: a fresh interner holds no label.
#[verifier::external_body]
pub(crate) fn new_interner() -> (r: LabelInterner)
    ensures
        interned_labels(r) == Seq::<Seq<char>>::empty(),
{
    LabelInterner { inner: DefaultStringInterner::new() }
}

/// Relies on `StringInterner::get_or_intern`: a label seen before gets the
/// index of its symbol back and leaves the interner as it was; a new one is
/// appended and gets the next index. It panics once `u32::MAX` labels are
/// held, which the precondition rules out.
#[verifier::external_body]
pub(crate) fn get_or_intern(i: &mut LabelInterner, label: &str) -> (r: usize)
    requires
        interned_labels(*old(i)).len() < u32::MAX,
    ensures
        interned_labels(*old(i)).contains(label@) ==> {
            &&& interned_labels(*final(i)) == interned_labels(*old(i))
            &&& r < interned_labels(*old(i)).len()
            &&& interned_labels(*old(i))[r as int] == label@
        },
        !interned_labels(*old(i)).contains(label@) ==> {
            &&& interned_labels(*final(i)) == interned_labels(*old(i)).push(label@)
            &&& r == interned_labels(*old(i)).len()
        },
{
    i.inner.get_or_intern(label).to_usize()
}

/// Relies on `StringInterner::len`: the number of labels held.
#[verifier::external_body]
pub(crate) fn interned_count(i: &LabelInterner) -> (r: usize)
    ensures
        r == interned_labels(*i).len(),
{
    i.inner.len()
}

/// Relies on `StringInterner::resolve`: the label of an index that was
/// handed out, and `None` for any other index below `u32::MAX` (larger
/// indices would be truncated into a symbol, so they are ruled out).
#[verifier::external_body]
pub(crate) fn resolve(i: &LabelInterner, index: usize) -> (r: Option<String>)
    requires
        index < u32::MAX,
    ensures
        index < interned_labels(*i).len() ==> r.is_some() && r.unwrap()@ == interned_labels(*i)[index as int],
        index >= interned_labels(*i).len() ==> r.is_none(),
{
    DefaultSymbol::try_from_usize(index).and_then(|s| i.inner.resolve(s)).map(|s| s.to_string())
}

} // verus!
