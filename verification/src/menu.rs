//! What the window's menu and command line show and read: an entry's label,
//! a window size typed as `WIDTHxHEIGHT`, and the listings printed on
//! request.

use vstd::prelude::*;
use vstd::string::{StrSliceExecFns, StringExecFns};

use crate::catalog::CatalogEntry;
use crate::layout::trim;
use crate::layout::trim_spec;

verus! {

/// A puzzle the menu offers: a cataloged one, or one given as a recipe.
pub struct Entry {
    pub name: String,
    pub kind: String,
    pub recipe: String,
}

/// The line the menu shows for an entry.
pub open spec fn label_spec(name: Seq<char>, kind: Seq<char>, recipe: Seq<char>) -> Seq<char> {
    if name == seq!['U', 'n', 'k', 'n', 'o', 'w', 'n'] {
        recipe + seq![' ', '('] + kind + seq![')']
    } else {
        name + seq![' ', '-', ' '] + kind
    }
}

/// Whether two texts are the same.
fn same_str(a: &str, b: &str) -> (r: bool)
    ensures
        r == (a@ == b@),
{
    let n = a.unicode_len();
    if n != b.unicode_len() {
        return false;
    }
    let mut i: usize = 0;
    while i < n
        invariant
            i <= n == a@.len() == b@.len(),
            forall|j: int| 0 <= j < i ==> a@[j] == b@[j],
        decreases n - i,
    {
        if a.get_char(i) != b.get_char(i) {
            return false;
        }
        i = i + 1;
    }
    assert(a@ =~= b@);
    true
}

impl Entry {
    /// The line the menu shows. Several catalog entries are called
    /// "Unknown", so those say what they are made of instead.
    pub fn label(&self) -> (r: String)
        ensures
            r@ == label_spec(self.name@, self.kind@, self.recipe@),
    {
        proof {
            reveal_strlit("Unknown");
            reveal_strlit(" (");
            reveal_strlit(")");
            reveal_strlit(" - ");
            assert("Unknown"@ =~= seq!['U', 'n', 'k', 'n', 'o', 'w', 'n']);
        }
        if same_str(self.name.as_str(), "Unknown") {
            let mut r = String::from_str(self.recipe.as_str());
            r.append(" (");
            r.append(self.kind.as_str());
            r.append(")");
            assert(r@ =~= label_spec(self.name@, self.kind@, self.recipe@));
            r
        } else {
            let mut r = String::from_str(self.name.as_str());
            r.append(" - ");
            r.append(self.kind.as_str());
            assert(r@ =~= label_spec(self.name@, self.kind@, self.recipe@));
            r
        }
    }
}

/// The value of a run of decimal digits.
pub open spec fn digits_value(s: Seq<char>) -> int
    decreases s.len(),
{
    if s.len() == 0 {
        0
    } else {
        digits_value(s.drop_last()) * 10 + (s.last() as int - '0' as int)
    }
}

/// Whether every character is a decimal digit.
pub open spec fn all_digits(s: Seq<char>) -> bool {
    forall|i: int| 0 <= i < s.len() ==> '0' <= #[trigger] s[i] <= '9'
}

/// A `u32` written in decimal, with an optional `+` in front, as `str::parse`
/// reads one.
pub open spec fn parse_u32_spec(s: Seq<char>) -> Option<u32> {
    let d = if s.len() > 0 && s[0] == '+' {
        s.skip(1)
    } else {
        s
    };
    if d.len() > 0 && all_digits(d) && digits_value(d) <= u32::MAX {
        Some(digits_value(d) as u32)
    } else {
        None
    }
}

/// The first position of `x` or `X`.
pub open spec fn first_x(s: Seq<char>, j: nat) -> Option<nat>
    decreases j,
{
    if j == 0 {
        None
    } else {
        match first_x(s, (j - 1) as nat) {
            Some(i) => Some(i),
            None => if s[j - 1] == 'x' || s[j - 1] == 'X' {
                Some((j - 1) as nat)
            } else {
                None
            },
        }
    }
}

/// A window size, `WIDTHxHEIGHT` in either case of `x`, each side trimmed,
/// inside the sizes a window may have.
pub open spec fn parse_size_spec(s: Seq<char>) -> Option<(u32, u32)> {
    match first_x(s, s.len()) {
        None => None,
        Some(at) => match parse_u32_spec(trim_spec(s.take(at as int))) {
            None => None,
            Some(w) => match parse_u32_spec(trim_spec(s.skip(at as int + 1))) {
                None => None,
                Some(h) => if w >= 320 && h >= 240 && w <= 16384 && h <= 16384 {
                    Some((w, h))
                } else {
                    None
                },
            },
        },
    }
}

/// Prefixes of a run of digits, one more digit at a time.
proof fn lemma_digits_step(s: Seq<char>, i: int)
    requires
        0 <= i < s.len(),
    ensures
        s.take(i + 1).drop_last() == s.take(i),
        s.take(i + 1).last() == s[i],
{
    assert(s.take(i + 1).drop_last() =~= s.take(i));
}

/// A longer run of digits is worth at least as much.
proof fn lemma_digits_grow(s: Seq<char>, i: int)
    requires
        0 <= i < s.len(),
        all_digits(s),
    ensures
        digits_value(s.take(i + 1)) >= digits_value(s.take(i)),
        digits_value(s.take(i)) >= 0,
    decreases i,
{
    lemma_digits_step(s, i);
    if i > 0 {
        lemma_digits_grow(s, i - 1);
    } else {
        assert(s.take(0) =~= Seq::<char>::empty());
    }
}

/// A decimal `u32`, as `str::parse::<u32>` reads one.
fn parse_u32(s: &str) -> (r: Option<u32>)
    ensures
        r == parse_u32_spec(s@),
{
    let n = s.unicode_len();
    let mut start: usize = 0;
    if n > 0 && s.get_char(0) == '+' {
        start = 1;
    }
    let ghost d = if s@.len() > 0 && s@[0] == '+' {
        s@.skip(1)
    } else {
        s@
    };
    proof {
        assert(d =~= s@.skip(start as int));
    }
    if start == n {
        return None;
    }
    let mut v: u64 = 0;
    let mut i: usize = start;
    while i < n
        invariant
            start <= i <= n == s@.len(),
            start < n,
            d == s@.skip(start as int),
            d == (if s@.len() > 0 && s@[0] == '+' {
                s@.skip(1)
            } else {
                s@
            }),
            all_digits(d.take(i - start)),
            v == digits_value(d.take(i - start)),
            v <= u32::MAX,
        decreases n - i,
    {
        let c = s.get_char(i);
        if c < '0' || c > '9' {
            proof {
                assert(d[i - start] == c);
                assert(!all_digits(d));
            }
            return None;
        }
        proof {
            lemma_digits_step(d, i - start);
        }
        let digit = (c as u32 - '0' as u32) as u64;
        let next = v * 10 + digit;
        if next > u32::MAX as u64 {
            proof {
                assert(digits_value(d.take(i - start + 1)) == next);
                if all_digits(d) {
                    lemma_digits_above(d, i - start + 1);
                }
            }
            return None;
        }
        v = next;
        i = i + 1;
        proof {
            assert forall|j: int| 0 <= j < d.take(i - start).len() implies '0' <= #[trigger] d.take(i - start)[j]
                <= '9' by {
                if j < i - start - 1 {
                    assert(d.take(i - start)[j] == d.take(i - start - 1)[j]);
                }
            }
        }
    }
    proof {
        assert(d.take(i - start) =~= d);
    }
    Some(v as u32)
}

/// The value only grows from a prefix to the whole run.
proof fn lemma_digits_above(d: Seq<char>, i: int)
    requires
        0 <= i <= d.len(),
        all_digits(d),
    ensures
        digits_value(d) >= digits_value(d.take(i)),
    decreases d.len() - i,
{
    if i < d.len() {
        lemma_digits_grow(d, i);
        lemma_digits_above(d, i + 1);
    } else {
        assert(d.take(i) =~= d);
    }
}

/// Read `WIDTHxHEIGHT`, in either case of `x`.
pub fn parse_size(text: &str) -> (r: Option<(u32, u32)>)
    ensures
        r == parse_size_spec(text@),
{
    let n = text.unicode_len();
    let mut at: usize = 0;
    while at < n && text.get_char(at) != 'x' && text.get_char(at) != 'X'
        invariant
            at <= n == text@.len(),
            first_x(text@, at as nat) is None,
        decreases n - at,
    {
        at = at + 1;
    }
    if at == n {
        return None;
    }
    proof {
        assert(first_x(text@, (at + 1) as nat) == Some(at as nat));
        lemma_first_x_stable(text@, (at + 1) as nat, n as nat);
    }
    let w_text = trim(text.substring_char(0, at));
    let h_text = trim(text.substring_char(at + 1, n));
    proof {
        assert(text@.subrange(0, at as int) =~= text@.take(at as int));
        assert(text@.subrange(at + 1, n as int) =~= text@.skip(at + 1));
    }
    let w = match parse_u32(w_text) {
        Some(w) => w,
        None => {
            return None;
        },
    };
    let h = match parse_u32(h_text) {
        Some(h) => h,
        None => {
            return None;
        },
    };
    if w >= 320 && h >= 240 && w <= 16384 && h <= 16384 {
        Some((w, h))
    } else {
        None
    }
}

/// A first position, once found, stays the first.
proof fn lemma_first_x_stable(s: Seq<char>, j: nat, j2: nat)
    requires
        j <= j2,
        first_x(s, j) is Some,
    ensures
        first_x(s, j2) == first_x(s, j),
    decreases j2 - j,
{
    if j < j2 {
        lemma_first_x_stable(s, j, (j2 - 1) as nat);
    }
}

/// One line per cataloged puzzle: name, family, kind and recipe, separated
/// by tabs.
pub open spec fn catalog_lines(catalog: Seq<CatalogEntry>) -> Seq<char>
    decreases catalog.len(),
{
    if catalog.len() == 0 {
        Seq::empty()
    } else {
        let e = catalog.last();
        catalog_lines(catalog.drop_last()) + e.name@ + seq!['\t'] + e.family@ + seq!['\t'] + e.kind@ + seq!['\t']
            + e.recipe@ + seq!['\n']
    }
}

/// Every cataloged puzzle, one per line, with the recipe that identifies it.
pub fn catalog_listing(catalog: &[CatalogEntry]) -> (r: String)
    ensures
        r@ == catalog_lines(catalog@),
{
    proof {
        reveal_strlit("\t");
        reveal_strlit("\n");
    }
    let mut out = String::new();
    let mut i: usize = 0;
    while i < catalog.len()
        invariant
            i <= catalog@.len(),
            out@ == catalog_lines(catalog@.take(i as int)),
        decreases catalog@.len() - i,
    {
        let e = catalog[i];
        out.append(e.name);
        out.append("\t");
        out.append(e.family);
        out.append("\t");
        out.append(e.kind);
        out.append("\t");
        out.append(e.recipe);
        out.append("\n");
        i = i + 1;
        proof {
            reveal_strlit("\t");
            reveal_strlit("\n");
            assert(catalog@.take(i as int).drop_last() =~= catalog@.take(i - 1));
            assert(catalog@.take(i as int).last() == e);
            assert(out@ =~= catalog_lines(catalog@.take(i as int)));
        }
    }
    proof {
        assert(catalog@.take(i as int) =~= catalog@);
    }
    out
}

/// One line per polyhedron: code and name, separated by a tab.
pub open spec fn shape_lines(shapes: Seq<(&str, &str)>) -> Seq<char>
    decreases shapes.len(),
{
    if shapes.len() == 0 {
        Seq::empty()
    } else {
        let e = shapes.last();
        shape_lines(shapes.drop_last()) + e.0@ + seq!['\t'] + e.1@ + seq!['\n']
    }
}

/// Every polyhedron a recipe can name, one per line.
pub fn polyhedra_listing(shapes: &[(&str, &str)]) -> (r: String)
    ensures
        r@ == shape_lines(shapes@),
{
    proof {
        reveal_strlit("\t");
        reveal_strlit("\n");
    }
    let mut out = String::new();
    let mut i: usize = 0;
    while i < shapes.len()
        invariant
            i <= shapes@.len(),
            out@ == shape_lines(shapes@.take(i as int)),
        decreases shapes@.len() - i,
    {
        let e = shapes[i];
        out.append(e.0);
        out.append("\t");
        out.append(e.1);
        out.append("\n");
        i = i + 1;
        proof {
            reveal_strlit("\t");
            reveal_strlit("\n");
            assert(shapes@.take(i as int).drop_last() =~= shapes@.take(i - 1));
            assert(shapes@.take(i as int).last() == e);
            assert(out@ =~= shape_lines(shapes@.take(i as int)));
        }
    }
    proof {
        assert(shapes@.take(i as int) =~= shapes@);
    }
    out
}

} // verus!
