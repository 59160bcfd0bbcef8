use vstd::prelude::*;

verus! {

/// The Unicode lower-case form of a string, as std's `str::to_lowercase`
/// computes it.
pub uninterp spec fn lower_of(s: Seq<char>) -> Seq<char>;

/// Relies on `str::to_lowercase`: its result depends on the characters of
/// the input alone.
#[verifier::external_body]
pub(crate) fn to_lower(s: &str) -> (r: String)
    ensures
        r@ == lower_of(s@),
{
    s.to_lowercase()
}

/// Two plugin names denote the same file when their lower-case forms agree.
pub open spec fn same_name(a: Seq<char>, b: Seq<char>) -> bool {
    lower_of(a) == lower_of(b)
}

/// Case-insensitive name comparison.
pub fn names_match(a: &str, b: &str) -> (r: bool)
    ensures
        r == same_name(a@, b@),
{
    let la = to_lower(a);
    let lb = to_lower(b);
    la == lb
}

/// Owned copies of the given strings, in order.
pub fn to_owned(strs: Vec<&str>) -> (r: Vec<String>)
    ensures
        r@.len() == strs@.len(),
        forall|i: int| 0 <= i < r@.len() ==> (#[trigger] r@[i])@ == strs@[i]@,
{
    let mut r: Vec<String> = Vec::new();
    let mut i: usize = 0;
    while i < strs.len()
        invariant
            0 <= i <= strs@.len(),
            r@.len() == i,
            forall|k: int| 0 <= k < i ==> (#[trigger] r@[k])@ == strs@[k]@,
        decreases strs@.len() - i,
    {
        r.push(strs[i].to_owned());
        i += 1;
    }
    r
}

} // verus!
