use svgcleaner::docgen::{basename, fill_str, gen_svg_path};

#[test]
fn fill_appends_copies() {
    let mut s = String::from("ab");
    fill_str(&mut s, '-', 3);
    assert_eq!(s, "ab---");
    fill_str(&mut s, ' ', 0);
    assert_eq!(s, "ab---");
}

#[test]
fn basename_drops_dirs_and_extension() {
    assert_eq!(basename("doc/src/rm_version.rst"), Some(String::from("rm_version")));
    assert_eq!(basename("plain"), Some(String::from("plain")));
    assert_eq!(basename(""), None);
}

#[test]
fn svg_path_in_dir() {
    assert_eq!(gen_svg_path("images/before", "rm_version"), "images/before/rm_version.svg");
}

use svgcleaner::docgen::{gen_svg_file, gen_table, read_table, TableLines};

fn strings(v: &[&str]) -> Vec<String> {
    v.iter().map(|s| s.to_string()).collect()
}

#[test]
fn read_table_splits_columns() {
    let lines = strings(&[
        "text",
        ".. BEFORE",
        "   <svg>",
        "   </svg>",
        ".. NO_XMLNS_XLINK",
        ".. AFTER",
        "   <svg/>",
        ".. END",
        "tail",
    ]);
    let (t, next) = read_table(&lines, 1).unwrap();
    assert_eq!(t.before, strings(&["<svg>", "</svg>"]));
    assert_eq!(t.after, strings(&["<svg/>"]));
    assert!(!t.insert_xmlns_xlink);
    assert_eq!(next, 8);
}

#[test]
fn read_table_without_end_stops_at_last_line() {
    let lines = strings(&[".. BEFORE", "   a"]);
    let (t, next) = read_table(&lines, 0).unwrap();
    assert_eq!(t.before, strings(&["a"]));
    assert!(t.after.is_empty());
    assert!(t.insert_xmlns_xlink);
    assert_eq!(next, 2);
}

#[test]
fn read_table_rejects_short_line() {
    let lines = strings(&[".. BEFORE", "ab", ".. END"]);
    assert!(read_table(&lines, 0).is_none());
}

#[test]
fn svg_file_gets_namespaces() {
    let text = gen_svg_file(&strings(&["<svg>", "<rect/>", "</svg>"]), true);
    assert_eq!(
        text,
        "<svg xmlns=\"http://www.w3.org/2000/svg\" xmlns:xlink=\"http://www.w3.org/1999/xlink\" width=\"200\" height=\"100\">\n<rect/>\n</svg>\n"
    );
    let plain = gen_svg_file(&strings(&["<svg>"]), false);
    assert_eq!(plain, "<svg xmlns=\"http://www.w3.org/000/svg\" width=\"200\" height=\"100\">\n");
    assert_eq!(gen_svg_file(&Vec::new(), true), "");
}

fn sample() -> TableLines {
    TableLines {
        before: strings(&["<svg>", "</svg>"]),
        after: strings(&["<svg/>"]),
        insert_xmlns_xlink: true,
    }
}

#[test]
fn table_for_cli() {
    let t = gen_table(&sample(), 10, 7, "L1", "L2", true);
    assert_eq!(
        t,
        "+----------+----------+\n| Before (10b)| After (7b)|\n+----------+----------+\n| .. code-block:: XML| .. code-block:: XML|\n|          |          |\n|   <svg>  |   <svg/> |\n|   </svg> |          |\n+----------+----------+\n| L1       | L2       |\n+----------+----------+\n"
    );
}

#[test]
fn table_for_gui() {
    let t = gen_table(&sample(), 10, 7, "L1", "L2", false);
    assert_eq!(
        t,
        "+----------+----------+\n| Before (10b)| After (7b)|\n+----------+----------+\n| ::       | ::       |\n|          |          |\n|   <svg>  |   <svg/> |\n|   </svg> |          |\n+----------+----------+\n"
    );
}
