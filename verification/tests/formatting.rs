use rsdu::format::{pad_and_prettify_bytes, prettify_bytes, size_bar};

#[test]
fn prettify_small_counts_are_plain_digits() {
    assert_eq!(prettify_bytes(&0), "0");
    assert_eq!(prettify_bytes(&9), "9");
    assert_eq!(prettify_bytes(&1023), "1023");
}

#[test]
fn prettify_uses_binary_units() {
    assert_eq!(prettify_bytes(&1024), "1.0kB");
    assert_eq!(prettify_bytes(&1536), "1.5kB");
    assert_eq!(prettify_bytes(&(1024 * 1024)), "1.0MB");
    assert_eq!(prettify_bytes(&(1024 * 1024 * 1024)), "1.0GB");
    assert_eq!(prettify_bytes(&(1024u64 * 1024 * 1024 * 1024)), "1.0TB");
    assert_eq!(prettify_bytes(&(1024u64 * 1024 * 1024 * 1024 * 1024)), "1.0PB");
    assert_eq!(prettify_bytes(&(1024u64 * 1024 * 1024 * 1024 * 1024 * 1024)), "1.0EB");
}

#[test]
fn prettify_rounds_half_up() {
    // 1.15 kB rounds to 1.2; 1.14 kB rounds to 1.1.
    assert_eq!(prettify_bytes(&1178), "1.2kB");
    assert_eq!(prettify_bytes(&1167), "1.1kB");
    // 1588 bytes are 1.5508 kB and round up to 1.6; 1587 stays at 1.5.
    assert_eq!(prettify_bytes(&1588), "1.6kB");
    assert_eq!(prettify_bytes(&1587), "1.5kB");
}

#[test]
fn prettify_widest_values_fit_eight_columns() {
    assert_eq!(prettify_bytes(&1047552), "1023.0kB");
    assert_eq!(prettify_bytes(&(1024 * 1024 - 1)), "1024.0kB");
    assert_eq!(prettify_bytes(&u64::MAX), "16.0EB");
}

#[test]
fn padding_right_aligns_to_eight_columns() {
    assert_eq!(pad_and_prettify_bytes(&0), "       0");
    assert_eq!(pad_and_prettify_bytes(&1023), "    1023");
    assert_eq!(pad_and_prettify_bytes(&1536), "   1.5kB");
    assert_eq!(pad_and_prettify_bytes(&1047552), "1023.0kB");
    assert_eq!(pad_and_prettify_bytes(&1536).chars().count(), 8);
}

#[test]
fn size_bar_is_fixed_width() {
    for (c, p) in [(0u64, 100u64), (25, 100), (50, 100), (99, 100), (100, 100), (3, 7)] {
        let bar = size_bar(&c, &p);
        assert_eq!(bar.chars().count(), 12, "bar for {}/{}", c, p);
        assert!(bar.starts_with(" ["));
        assert!(bar.ends_with("] "));
    }
}

#[test]
fn size_bar_exact_glyphs() {
    assert_eq!(size_bar(&0, &100), " [        ] ");
    assert_eq!(size_bar(&25, &100), " [██      ] ");
    assert_eq!(size_bar(&50, &100), " [████    ] ");
    assert_eq!(size_bar(&100, &100), " [████████] ");
    // 30/100 fills two cells and 3.2 more eighths of a cell: glyph ▍.
    assert_eq!(size_bar(&30, &100), " [██▍     ] ");
}

#[test]
fn size_bar_with_zero_parent_is_empty() {
    assert_eq!(size_bar(&0, &0), " [        ] ");
    assert_eq!(size_bar(&5, &0), " [        ] ");
}
