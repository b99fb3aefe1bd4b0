//! The catalog of named puzzles: lookups over a table of entries, each a
//! shell-and-cuts recipe with a name, a family and a turning style.
//!
//! Names are not unique (several entries carry the placeholder name
//! `"Unknown"`); recipes are, which is why every function that takes a puzzle
//! takes a recipe as readily as a name.

use vstd::prelude::*;
use vstd::string::StringSliceAdditionalSpecFns;

verus! {

/// One cataloged puzzle.
#[derive(Clone, Copy, Debug, PartialEq, Eq)]
pub struct CatalogEntry {
    /// Common name, e.g. `"Rubik's Cube (3x3x3)"`.
    pub name: &'static str,
    /// Shell family, e.g. `"Cubes"`.
    pub family: &'static str,
    /// Turning style, e.g. `"Face-turning"`.
    pub kind: &'static str,
    /// Recipe query string, e.g. `"?shell=C$1&cut=C$1/3"`.
    pub recipe: &'static str,
}

/// ASCII lower case of a byte.
pub open spec fn ascii_lower(b: u8) -> u8 {
    if 65 <= b <= 90 {
        (b + 32) as u8
    } else {
        b
    }
}

/// Whether two byte strings are equal up to ASCII case.
pub open spec fn eq_ignore_ascii_case_spec(a: Seq<u8>, b: Seq<u8>) -> bool {
    a.len() == b.len() && forall|i: int| 0 <= i < a.len() ==> ascii_lower(#[trigger] a[i]) == ascii_lower(b[i])
}

/// Whether an entry's name matches `name` up to ASCII case.
pub open spec fn name_matches(e: CatalogEntry, name: &str) -> bool {
    eq_ignore_ascii_case_spec(e.name.spec_bytes(), name.spec_bytes())
}

fn lower_byte(b: u8) -> (r: u8)
    ensures
        r == ascii_lower(b),
{
    if 65 <= b && b <= 90 {
        b + 32
    } else {
        b
    }
}

/// Case-insensitive ASCII comparison of two strings.
pub fn eq_ignore_ascii_case(a: &str, b: &str) -> (r: bool)
    ensures
        r == eq_ignore_ascii_case_spec(a.spec_bytes(), b.spec_bytes()),
{
    let x = a.as_bytes();
    let y = b.as_bytes();
    if x.len() != y.len() {
        return false;
    }
    let mut i: usize = 0;
    while i < x.len()
        invariant
            x@ == a.spec_bytes(),
            y@ == b.spec_bytes(),
            x.len() == y.len(),
            i <= x.len(),
            forall|j: int| 0 <= j < i ==> ascii_lower(#[trigger] x@[j]) == ascii_lower(y@[j]),
        decreases x.len() - i,
    {
        if lower_byte(x[i]) != lower_byte(y[i]) {
            return false;
        }
        i = i + 1;
    }
    true
}

/// Every cataloged puzzle, in catalog order.
pub fn entries(catalog: &[CatalogEntry]) -> (r: Vec<CatalogEntry>)
    ensures
        r@ == catalog@,
{
    let mut out: Vec<CatalogEntry> = Vec::new();
    let mut i: usize = 0;
    while i < catalog.len()
        invariant
            i <= catalog.len(),
            out@ == catalog@.take(i as int),
        decreases catalog.len() - i,
    {
        out.push(catalog[i]);
        i = i + 1;
        assert(out@ =~= catalog@.take(i as int));
    }
    assert(catalog@.take(i as int) =~= catalog@);
    out
}

/// Look up a puzzle by name, case-insensitively: the first match.
pub fn find(catalog: &[CatalogEntry], name: &str) -> (r: Option<CatalogEntry>)
    ensures
        r is None <==> forall|i: int| 0 <= i < catalog@.len() ==> !name_matches(#[trigger] catalog@[i], name),
        r matches Some(e) ==> exists|i: int|
            0 <= i < catalog@.len() && catalog@[i] == e && name_matches(e, name) && forall|j: int|
                0 <= j < i ==> !name_matches(#[trigger] catalog@[j], name),
{
    let mut i: usize = 0;
    while i < catalog.len()
        invariant
            i <= catalog.len(),
            forall|j: int| 0 <= j < i ==> !name_matches(#[trigger] catalog@[j], name),
        decreases catalog.len() - i,
    {
        if eq_ignore_ascii_case(catalog[i].name, name) {
            return Some(catalog[i]);
        }
        i = i + 1;
    }
    None
}

/// Every cataloged puzzle with the given name, case-insensitively, in order.
pub fn find_all(catalog: &[CatalogEntry], name: &str) -> (r: Vec<CatalogEntry>)
    ensures
        r@ == catalog@.filter(|e: CatalogEntry| name_matches(e, name)),
{
    let mut out: Vec<CatalogEntry> = Vec::new();
    let mut i: usize = 0;
    while i < catalog.len()
        invariant
            i <= catalog.len(),
            out@ == catalog@.take(i as int).filter(|e: CatalogEntry| name_matches(e, name)),
        decreases catalog.len() - i,
    {
        proof {
            assert(catalog@.take(i as int + 1).drop_last() =~= catalog@.take(i as int));
            catalog@.take(i as int).lemma_filter_push(
                catalog@[i as int],
                |e: CatalogEntry| name_matches(e, name),
            );
            assert(catalog@.take(i as int + 1) =~= catalog@.take(i as int).push(catalog@[i as int]));
        }
        if eq_ignore_ascii_case(catalog[i].name, name) {
            out.push(catalog[i]);
        }
        i = i + 1;
    }
    assert(catalog@.take(i as int) =~= catalog@);
    out
}

/// The number of cataloged puzzles.
pub fn len(catalog: &[CatalogEntry]) -> (r: usize)
    ensures
        r == catalog@.len(),
{
    catalog.len()
}

/// Whether the catalog is empty.
pub fn is_empty(catalog: &[CatalogEntry]) -> (r: bool)
    ensures
        r == (catalog@.len() == 0),
{
    catalog.len() == 0
}

/// The entries before the first match hold no match, and the matches
/// among the first `n` entries, `n` past the first match, start with it.
proof fn lemma_first_match(catalog: Seq<CatalogEntry>, name: &str, i: int, n: int)
    requires
        0 <= i < n <= catalog.len(),
        name_matches(catalog[i], name),
        forall|j: int| 0 <= j < i ==> !name_matches(#[trigger] catalog[j], name),
    ensures
        catalog.take(n).filter(|e: CatalogEntry| name_matches(e, name)).len() > 0,
        catalog.take(n).filter(|e: CatalogEntry| name_matches(e, name))[0] == catalog[i],
    decreases n,
{
    let p = |e: CatalogEntry| name_matches(e, name);
    assert(catalog.take(n) =~= catalog.take(n - 1).push(catalog[n - 1]));
    catalog.take(n - 1).lemma_filter_push(catalog[n - 1], p);
    if n - 1 == i {
        lemma_no_match(catalog, name, i);
    } else {
        lemma_first_match(catalog, name, i, n - 1);
    }
}

/// No entry among the first `n` matches, so none is kept.
proof fn lemma_no_match(catalog: Seq<CatalogEntry>, name: &str, n: int)
    requires
        0 <= n <= catalog.len(),
        forall|j: int| 0 <= j < n ==> !name_matches(#[trigger] catalog[j], name),
    ensures
        catalog.take(n).filter(|e: CatalogEntry| name_matches(e, name)).len() == 0,
    decreases n,
{
    if n > 0 {
        let p = |e: CatalogEntry| name_matches(e, name);
        assert(catalog.take(n) =~= catalog.take(n - 1).push(catalog[n - 1]));
        catalog.take(n - 1).lemma_filter_push(catalog[n - 1], p);
        lemma_no_match(catalog, name, n - 1);
    }
}

/// `find` gives the first of what `find_all` gives: the first entry whose
/// name matches, and nothing exactly when there is no match.
pub proof fn lemma_find_is_first_of_all(catalog: Seq<CatalogEntry>, name: &str, i: int)
    requires
        0 <= i < catalog.len(),
        name_matches(catalog[i], name),
        forall|j: int| 0 <= j < i ==> !name_matches(#[trigger] catalog[j], name),
    ensures
        catalog.filter(|e: CatalogEntry| name_matches(e, name)).len() > 0,
        catalog.filter(|e: CatalogEntry| name_matches(e, name))[0] == catalog[i],
{
    lemma_first_match(catalog, name, i, catalog.len() as int);
    assert(catalog.take(catalog.len() as int) =~= catalog);
}

/// With no match, `find_all` gives nothing, as `find` does.
pub proof fn lemma_no_match_finds_nothing(catalog: Seq<CatalogEntry>, name: &str)
    requires
        forall|j: int| 0 <= j < catalog.len() ==> !name_matches(#[trigger] catalog[j], name),
    ensures
        catalog.filter(|e: CatalogEntry| name_matches(e, name)).len() == 0,
{
    lemma_no_match(catalog, name, catalog.len() as int);
    assert(catalog.take(catalog.len() as int) =~= catalog);
}

} // verus!
