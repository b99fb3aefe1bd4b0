use twistypuzzle::catalog::CatalogEntry;
use twistypuzzle::menu::{catalog_listing, parse_size, polyhedra_listing, Entry};
use twistypuzzle::polyhedra::{has, shapes};
use twistypuzzle::turning::{pick_stop, Turn};

#[test]
fn window_sizes_are_read_in_either_case() {
    assert_eq!(parse_size("1280x800"), Some((1280, 800)));
    assert_eq!(parse_size(" 1280 X 800 "), Some((1280, 800)));
    assert_eq!(parse_size("+640x480"), Some((640, 480)));
    assert_eq!(parse_size("100x100"), None);
    assert_eq!(parse_size("20000x800"), None);
    assert_eq!(parse_size("1280"), None);
    assert_eq!(parse_size("x800"), None);
    assert_eq!(parse_size("12a0x800"), None);
    assert_eq!(parse_size("99999999999x800"), None);
    assert_eq!(parse_size("16384x16384"), Some((16384, 16384)));
}

#[test]
fn unknown_entries_say_what_they_are_made_of() {
    let e = Entry {
        name: "Unknown".to_string(),
        kind: "Face-turning".to_string(),
        recipe: "?shell=C$1".to_string(),
    };
    assert_eq!(e.label(), "?shell=C$1 (Face-turning)");
    let f = Entry {
        name: "Cube".to_string(),
        kind: "Face-turning".to_string(),
        recipe: "?shell=C$1".to_string(),
    };
    assert_eq!(f.label(), "Cube - Face-turning");
}

#[test]
fn listings_have_a_line_per_entry() {
    let catalog = [
        CatalogEntry { name: "A", family: "Cubes", kind: "Face-turning", recipe: "?a" },
        CatalogEntry { name: "B", family: "Prisms", kind: "Vertex-turning", recipe: "?b" },
    ];
    assert_eq!(
        catalog_listing(&catalog),
        "A\tCubes\tFace-turning\t?a\nB\tPrisms\tVertex-turning\t?b\n"
    );
    assert_eq!(polyhedra_listing(&[("C", "Cube"), ("T", "Tetrahedron")]), "C\tCube\nT\tTetrahedron\n");
    assert_eq!(polyhedra_listing(&[]), "");
}

#[test]
fn polyhedra_are_looked_up_by_code() {
    let table = [("C", "Cube", "S"), ("T", "Tetrahedron", "S")];
    assert_eq!(shapes(&table), vec![("C", "Cube"), ("T", "Tetrahedron")]);
    assert!(has(&table, "T"));
    assert!(!has(&table, "X"));
    assert!(!has(&table, "Cube"));
}

#[test]
fn turns_land_on_the_nearest_stop_that_moves() {
    let zero = [true, false, false, true];
    assert_eq!(pick_stop(Turn::Direction(1), &zero).unwrap(), Some(1));
    assert_eq!(pick_stop(Turn::Direction(-1), &zero).unwrap(), Some(2));
    assert_eq!(pick_stop(Turn::Stop(3), &zero).unwrap(), Some(3));
    assert!(pick_stop(Turn::Stop(4), &zero).is_err());
    assert_eq!(pick_stop(Turn::Direction(1), &[]).unwrap(), None);
    assert_eq!(pick_stop(Turn::Direction(1), &[true, true]).unwrap(), Some(1));
    assert_eq!(pick_stop(Turn::Direction(-1), &[true, true]).unwrap(), Some(0));
}
