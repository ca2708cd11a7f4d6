//! Facet and field filters applied to candidates before they are scored.
use vstd::prelude::*;
use ahash::AHashSet;

verus! {

/// The field filter set: ahash's `AHashSet`, held opaque.
#[verifier::external_type_specification]
#[verifier::external_body]
#[verifier::reject_recursive_types(T)]
#[verifier::reject_recursive_types(S)]
pub struct ExAHashSet<T, S>(AHashSet<T, S>);

/// The hasher state that `AHashSet` is parameterised with by default.
#[verifier::external_type_specification]
#[verifier::external_body]
pub struct ExRandomState(ahash::RandomState);

/// The field ids that a field filter set holds.
pub uninterp spec fn field_set(s: AHashSet<u16>) -> Set<u16>;

/// Relies on `AHashSet::contains` (through `Deref` to std's `HashSet`):
/// whether the set holds `field`.
#[verifier::external_body]
fn field_set_contains(s: &AHashSet<u16>, field: u16) -> (r: bool)
    ensures
        r == field_set(*s).contains(field),
{
    s.contains(&field)
}

/// Relies on `AHashSet::is_empty` (through `Deref` to std's `HashSet`):
/// whether the set holds no field.
#[verifier::external_body]
fn field_set_is_empty(s: &AHashSet<u16>) -> (r: bool)
    ensures
        r == (field_set(*s) == Set::<u16>::empty()),
{
    s.is_empty()
}

/// A facet predicate over global document ids, as a sparse id list: a
/// document passes when the list holds it, or, for an exclusion filter,
/// when the list does not.
pub struct FilterSparse {
    pub doc_ids: Vec<u64>,
    pub exclude: bool,
}

/// `doc` passes filter `f`.
pub open spec fn passes(f: FilterSparse, doc: u64) -> bool {
    f.doc_ids@.contains(doc) != f.exclude
}

/// `doc` passes every facet filter.
pub open spec fn passes_all(filters: Seq<FilterSparse>, doc: u64) -> bool {
    forall|k: int| 0 <= k < filters.len() ==> passes(#[trigger] filters[k], doc)
}

/// Whether `doc` passes filter `f`.
pub fn filter_passes(f: &FilterSparse, doc: u64) -> (r: bool)
    ensures
        r == passes(*f, doc),
{
    let mut j: usize = 0;
    while j < f.doc_ids.len()
        invariant
            j <= f.doc_ids@.len(),
            forall|k: int| 0 <= k < j ==> f.doc_ids@[k] != doc,
        decreases f.doc_ids@.len() - j,
    {
        if f.doc_ids[j] == doc {
            return !f.exclude;
        }
        j += 1;
    }
    f.exclude
}

/// Whether `doc` passes every facet filter.
pub fn facet_filter_passes(filters: &Vec<FilterSparse>, doc: u64) -> (r: bool)
    ensures
        r == passes_all(filters@, doc),
{
    let mut k: usize = 0;
    while k < filters.len()
        invariant
            k <= filters@.len(),
            forall|j: int| 0 <= j < k ==> passes(#[trigger] filters@[j], doc),
        decreases filters@.len() - k,
    {
        if !filter_passes(&filters[k], doc) {
            return false;
        }
        k += 1;
    }
    true
}

/// Every field in `fields` is allowed by the field filter set, an empty
/// set allowing all fields.
pub open spec fn fields_allowed(set: Set<u16>, fields: Seq<u16>) -> bool {
    set == Set::<u16>::empty() || forall|t: int| 0 <= t < fields.len() ==> set.contains(
        #[trigger] fields[t],
    )
}

/// Whether the field filter set allows each of `fields`: the fields in which
/// the query's terms were found for one candidate.
pub fn field_filter_passes(set: &AHashSet<u16>, fields: &Vec<u16>) -> (r: bool)
    ensures
        r == fields_allowed(field_set(*set), fields@),
{
    let empty = field_set_is_empty(set);
    if empty {
        return true;
    }
    let mut t: usize = 0;
    while t < fields.len()
        invariant
            t <= fields@.len(),
            field_set(*set) != Set::<u16>::empty(),
            forall|u: int| 0 <= u < t ==> field_set(*set).contains(#[trigger] fields@[u]),
        decreases fields@.len() - t,
    {
        if !field_set_contains(set, fields[t]) {
            return false;
        }
        t += 1;
    }
    true
}

} // verus!
