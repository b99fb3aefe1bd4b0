//! The polyhedra a recipe can name: each a code, a name, and its face
//! planes written as a table.

use vstd::prelude::*;
use vstd::string::StrSliceExecFns;

verus! {

/// One polyhedron: its code, its name, and its encoded face planes.
pub type ShapeRow = (&'static str, &'static str, &'static str);

/// The `(code, name)` pairs of a table of polyhedra.
pub open spec fn shape_pairs(table: Seq<ShapeRow>) -> Seq<(&'static str, &'static str)> {
    table.map_values(|s: ShapeRow| (s.0, s.1))
}

/// Whether some row of the table has this code.
pub open spec fn has_spec(table: Seq<ShapeRow>, code: Seq<char>) -> bool {
    exists|i: int| 0 <= i < table.len() && table[i].0@ == code
}

/// Every supported `(code, name)` pair, in table order.
pub fn shapes(table: &[ShapeRow]) -> (r: Vec<(&'static str, &'static str)>)
    ensures
        r@ == shape_pairs(table@),
{
    let mut out: Vec<(&'static str, &'static str)> = Vec::new();
    let mut i: usize = 0;
    while i < table.len()
        invariant
            i <= table@.len(),
            out@ == shape_pairs(table@.take(i as int)),
        decreases table@.len() - i,
    {
        let row = table[i];
        out.push((row.0, row.1));
        i = i + 1;
        proof {
            assert(out@ =~= shape_pairs(table@.take(i as int)));
        }
    }
    proof {
        assert(table@.take(i as int) =~= table@);
    }
    out
}

/// Whether two texts are the same.
fn same_code(a: &str, b: &str) -> (r: bool)
    ensures
        r == (a@ == b@),
{
    let n = a.unicode_len();
    if n != b.unicode_len() {
        return false;
    }
    let mut i: usize = 0;
    while i < n
        invariant
            i <= n == a@.len() == b@.len(),
            forall|j: int| 0 <= j < i ==> a@[j] == b@[j],
        decreases n - i,
    {
        if a.get_char(i) != b.get_char(i) {
            return false;
        }
        i = i + 1;
    }
    assert(a@ =~= b@);
    true
}

/// Whether `code` names a supported polyhedron.
pub fn has(table: &[ShapeRow], code: &str) -> (r: bool)
    ensures
        r == has_spec(table@, code@),
{
    let mut i: usize = 0;
    while i < table.len()
        invariant
            i <= table@.len(),
            forall|j: int| 0 <= j < i ==> table@[j].0@ != code@,
        decreases table@.len() - i,
    {
        if same_code(table[i].0, code) {
            return true;
        }
        i = i + 1;
    }
    false
}

} // verus!
