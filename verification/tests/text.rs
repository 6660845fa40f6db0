use serviceowners::text::{
    chars_of, find_char, find_space, is_whitespace, next_line, string_of, strip_bounds, trim_bounds,
};

#[test]
fn white_space_is_the_unicode_property() {
    let mut n: u32 = 0;
    while n <= 0x10FFFF {
        if let Some(c) = char::from_u32(n) {
            assert_eq!(is_whitespace(c), c.is_whitespace(), "U+{:04X}", n);
        }
        n += 1;
    }
}

#[test]
fn chars_and_back() {
    let v = chars_of("a/é\u{3000}z");
    assert_eq!(v, vec!['a', '/', 'é', '\u{3000}', 'z']);
    assert_eq!(string_of(&v, 0, v.len()), "a/é\u{3000}z");
    assert_eq!(string_of(&v, 1, 3), "/é");
    assert_eq!(string_of(&v, 2, 2), "");
    assert!(chars_of("").is_empty());
}

#[test]
fn trim_bounds_skip_white_space_at_both_ends() {
    let v = chars_of("  a b \t");
    assert_eq!(trim_bounds(&v, 0, v.len()), (2, 5));
    assert_eq!(trim_bounds(&v, 3, v.len()), (4, 5));
    let blank = chars_of(" \n ");
    assert_eq!(trim_bounds(&blank, 0, blank.len()), (3, 3));
    assert_eq!(trim_bounds(&blank, 1, 1), (1, 1));
}

#[test]
fn find_first_space_or_character() {
    let v = chars_of("ab cd\nef");
    assert_eq!(find_space(&v, 0, v.len()), 2);
    assert_eq!(find_space(&v, 3, 5), 5);
    assert_eq!(find_space(&v, 3, v.len()), 5);
    assert_eq!(find_char(&v, 0, v.len(), '\n'), 5);
    assert_eq!(find_char(&v, 6, v.len(), '\n'), 8);
    assert_eq!(find_char(&v, 0, v.len(), 'a'), 0);
}

#[test]
fn lines_are_cut_at_line_feeds() {
    let v = chars_of("ab\n\ncd");
    assert_eq!(next_line(&v, 0), (2, 3));
    assert_eq!(next_line(&v, 3), (3, 4));
    assert_eq!(next_line(&v, 4), (6, 6));
    let w = chars_of("x\n");
    assert_eq!(next_line(&w, 0), (1, 2));
}

#[test]
fn strip_bounds_drop_runs_of_one_character() {
    let v = chars_of("//a/b///");
    assert_eq!(strip_bounds(&v, 0, v.len(), '/'), (2, 5));
    let all = chars_of("///");
    assert_eq!(strip_bounds(&all, 0, all.len(), '/'), (3, 3));
    let none = chars_of("@x@");
    assert_eq!(strip_bounds(&none, 0, none.len(), '/'), (0, 3));
    assert_eq!(strip_bounds(&none, 0, none.len(), '@'), (1, 2));
}
