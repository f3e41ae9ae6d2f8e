use codegen_sync::{replace_block, BlockError};

const FILE: &str = "head\n// START BLOCK X\nold\n// END BLOCK X\ntail\n";

#[test]
fn replaces_interior() {
    let r = replace_block(FILE, "X", "new\n").unwrap();
    assert_eq!(r, "head\n// START BLOCK X\nnew\n// END BLOCK X\ntail\n");
}

#[test]
fn round_trip_keeps_surroundings() {
    let t = "alpha\nbeta\n";
    let r = replace_block(FILE, "X", t).unwrap();
    let s = r.find("// START BLOCK X\n").unwrap() + "// START BLOCK X\n".len();
    let e = r.find("// END BLOCK X\n").unwrap();
    assert_eq!(&r[s..e], t);
    assert_eq!(&r[..s], &FILE[..s]);
    assert_eq!(&r[e..], &FILE[FILE.find("// END BLOCK X\n").unwrap()..]);
}

#[test]
fn empty_interior() {
    let f = "// START BLOCK T\n// END BLOCK T\n";
    assert_eq!(replace_block(f, "T", "x\n").unwrap(), "// START BLOCK T\nx\n// END BLOCK T\n");
    assert_eq!(replace_block(FILE, "X", "").unwrap(), "head\n// START BLOCK X\n// END BLOCK X\ntail\n");
}

#[test]
fn non_ascii_around_block() {
    let f = "é\n// START BLOCK Ω\nü\n// END BLOCK Ω\nñ";
    assert_eq!(replace_block(f, "Ω", "ß\n").unwrap(), "é\n// START BLOCK Ω\nß\n// END BLOCK Ω\nñ");
}

#[test]
fn missing_start() {
    assert_eq!(replace_block("// END BLOCK X\n", "X", ""), Err(BlockError::MissingBlockStart));
    assert_eq!(replace_block(FILE, "Y", ""), Err(BlockError::MissingBlockStart));
}

#[test]
fn duplicate_start_is_ambiguous() {
    let f = "// START BLOCK X\n// START BLOCK X\n// END BLOCK X\n";
    assert_eq!(replace_block(f, "X", ""), Err(BlockError::AmbiguousBlockStart));
}

#[test]
fn missing_end() {
    assert_eq!(replace_block("// START BLOCK X\nbody\n", "X", ""), Err(BlockError::MissingBlockEnd));
}

#[test]
fn duplicate_end_is_ambiguous() {
    let f = "// START BLOCK X\n// END BLOCK X\n// END BLOCK X\n";
    assert_eq!(replace_block(f, "X", ""), Err(BlockError::AmbiguousBlockEnd));
}

#[test]
fn end_before_start_is_inverted() {
    let f = "// END BLOCK X\nbody\n// START BLOCK X\n";
    assert_eq!(replace_block(f, "X", "n\n"), Err(BlockError::InvertedBlock));
}

#[test]
fn marker_without_line_end_is_not_a_marker() {
    assert_eq!(replace_block("// START BLOCK X", "X", ""), Err(BlockError::MissingBlockStart));
}

#[test]
fn other_titles_are_ignored() {
    let f = "// START BLOCK A\n1\n// END BLOCK A\n// START BLOCK B\n2\n// END BLOCK B\n";
    assert_eq!(
        replace_block(f, "B", "3\n").unwrap(),
        "// START BLOCK A\n1\n// END BLOCK A\n// START BLOCK B\n3\n// END BLOCK B\n"
    );
}
