use evm_debugger::source_map::{FullSourceItem, PartialSourceItem, SourceMap};

// Helper function to create a full source item with explicit values
fn create_full_source_item(s: isize, l: isize, f: isize, j: char, m: isize) -> FullSourceItem {
    FullSourceItem { s, l, f, j, m }
}

#[test]
fn test_complete_entry() {
    let input = "38:124:1:i:2";
    let partial = PartialSourceItem::from_raw(input);

    assert_eq!(partial.s, Some(38));
    assert_eq!(partial.l, Some(124));
    assert_eq!(partial.f, Some(1));
    assert_eq!(partial.j, Some('i'));
    assert_eq!(partial.m, Some(2));

    let prev = create_full_source_item(0, 0, 0, '-', 0);
    let full = FullSourceItem::from_partial(&prev, partial);

    assert_eq!(full.s, 38);
    assert_eq!(full.l, 124);
    assert_eq!(full.f, 1);
    assert_eq!(full.j, 'i');
    assert_eq!(full.m, 2);
}

#[test]
fn test_missing_source() {
    let input = ":68:0:o:";
    let partial = PartialSourceItem::from_raw(input);

    assert_eq!(partial.s, None);
    assert_eq!(partial.l, Some(68));
    assert_eq!(partial.f, Some(0));
    assert_eq!(partial.j, Some('o'));
    assert_eq!(partial.m, None);

    let prev = create_full_source_item(38, 124, 1, 'i', 2);
    let full = FullSourceItem::from_partial(&prev, partial);

    assert_eq!(full.s, 38); // Inherited
    assert_eq!(full.l, 68);
    assert_eq!(full.f, 0);
    assert_eq!(full.j, 'o');
    assert_eq!(full.m, 2); // Inherited
}

#[test]
fn test_missing_source_and_length() {
    let input = "::3:i:";
    let partial = PartialSourceItem::from_raw(input);

    assert_eq!(partial.s, None);
    assert_eq!(partial.l, None);
    assert_eq!(partial.f, Some(3));
    assert_eq!(partial.j, Some('i'));
    assert_eq!(partial.m, None);

    let prev = create_full_source_item(52, 75, 2, '-', 0);
    let full = FullSourceItem::from_partial(&prev, partial);

    assert_eq!(full.s, 52); // Inherited
    assert_eq!(full.l, 75); // Inherited
    assert_eq!(full.f, 3);
    assert_eq!(full.j, 'i');
    assert_eq!(full.m, 0); // Inherited
}

#[test]
fn test_missing_multiple_fields() {
    let input = "73:::";
    let partial = PartialSourceItem::from_raw(input);

    assert_eq!(partial.s, Some(73));
    assert_eq!(partial.l, None);
    assert_eq!(partial.f, None);
    assert_eq!(partial.j, None);
    assert_eq!(partial.m, None);

    let prev = create_full_source_item(52, 75, 3, 'i', 0);
    let full = FullSourceItem::from_partial(&prev, partial);

    assert_eq!(full.s, 73);
    assert_eq!(full.l, 75); // Inherited
    assert_eq!(full.f, 3); // Inherited
    assert_eq!(full.j, 'i'); // Inherited
    assert_eq!(full.m, 0); // Inherited
}

#[test]
fn test_just_source() {
    let input = "21";
    let partial = PartialSourceItem::from_raw(input);

    assert_eq!(partial.s, Some(21));
    assert_eq!(partial.l, None);
    assert_eq!(partial.f, None);
    assert_eq!(partial.j, None);
    assert_eq!(partial.m, None);

    let prev = create_full_source_item(85, 96, 1, 'o', 3);
    let full = FullSourceItem::from_partial(&prev, partial);

    assert_eq!(full.s, 21);
    assert_eq!(full.l, 96); // Inherited
    assert_eq!(full.f, 1); // Inherited
    assert_eq!(full.j, 'o'); // Inherited
    assert_eq!(full.m, 3); // Inherited
}

#[test]
fn test_missing_trailing_fields() {
    let input = "38:124:1";
    let partial = PartialSourceItem::from_raw(input);

    assert_eq!(partial.s, Some(38));
    assert_eq!(partial.l, Some(124));
    assert_eq!(partial.f, Some(1));
    assert_eq!(partial.j, None);
    assert_eq!(partial.m, None);

    let prev = create_full_source_item(0, 0, 0, '-', 0);
    let full = FullSourceItem::from_partial(&prev, partial);

    assert_eq!(full.s, 38);
    assert_eq!(full.l, 124);
    assert_eq!(full.f, 1);
    assert_eq!(full.j, '-'); // Inherited
    assert_eq!(full.m, 0); // Inherited
}

#[test]
fn test_full_sourcemap_parsing() {
    // Let's parse this complex source map:
    // 38:124:1:i:2;:68:0:o:;52:75:2:-:0;::3:i:;73:::;85:96:1:o:3;21
    let source_map_str = "38:124:1:i:2;:68:0:o:;52:75:2:-:0;::3:i:;73:::;85:96:1:o:3;21";
    let entries = source_map_str.split(';').collect::<Vec<_>>();

    let mut prev = create_full_source_item(0, 0, 0, '-', 0);
    let mut results = Vec::new();

    for entry in entries {
        let partial = PartialSourceItem::from_raw(entry);
        let full = FullSourceItem::from_partial(&prev, partial);
        results.push(full.clone());
        prev = full;
    }

    // Verify each entry in the parsed results
    assert_eq!(results[0], create_full_source_item(38, 124, 1, 'i', 2));
    assert_eq!(results[1], create_full_source_item(38, 68, 0, 'o', 2));
    assert_eq!(results[2], create_full_source_item(52, 75, 2, '-', 0));
    assert_eq!(results[3], create_full_source_item(52, 75, 3, 'i', 0));
    assert_eq!(results[4], create_full_source_item(73, 75, 3, 'i', 0));
    assert_eq!(results[5], create_full_source_item(85, 96, 1, 'o', 3));
    assert_eq!(results[6], create_full_source_item(21, 96, 1, 'o', 3));
}

#[test]
fn test_inheritance_chain() {
    // 10:20:1:i:2;::2:o:;:::i:3;::::;75
    let source_map_str = "10:20:1:i:2;::2:o:;:::i:3;::::;75";
    let entries = source_map_str.split(';').collect::<Vec<_>>();

    let mut prev = create_full_source_item(0, 0, 0, '-', 0);
    let mut results = Vec::new();

    for entry in entries {
        let partial = PartialSourceItem::from_raw(entry);
        let full = FullSourceItem::from_partial(&prev, partial);
        results.push(full.clone());
        prev = full;
    }

    // Verify each entry
    assert_eq!(results[0], create_full_source_item(10, 20, 1, 'i', 2));
    assert_eq!(results[1], create_full_source_item(10, 20, 2, 'o', 2));
    assert_eq!(results[2], create_full_source_item(10, 20, 2, 'i', 3));
    assert_eq!(results[3], create_full_source_item(10, 20, 2, 'i', 3)); // All fields inherit
    assert_eq!(results[4], create_full_source_item(75, 20, 2, 'i', 3)); // Only s changes
}

#[test]
fn test_intermittent_entries() {
    // 38:124:1:i:2;:68:::;52::::4;:75:2:-:;:::::5
    let source_map_str = "38:124:1:i:2;:68:::;52::::4;:75:2:-:;::::5";
    let entries = source_map_str.split(';').collect::<Vec<_>>();

    let mut prev = create_full_source_item(0, 0, 0, '-', 0);
    let mut results = Vec::new();

    for entry in entries {
        let partial = PartialSourceItem::from_raw(entry);
        let full = FullSourceItem::from_partial(&prev, partial);
        results.push(full.clone());
        prev = full;
    }

    // Verify each entry
    assert_eq!(results[0], create_full_source_item(38, 124, 1, 'i', 2));
    assert_eq!(results[1], create_full_source_item(38, 68, 1, 'i', 2));
    assert_eq!(results[2], create_full_source_item(52, 68, 1, 'i', 4));
    assert_eq!(results[3], create_full_source_item(52, 75, 2, '-', 4));
    assert_eq!(results[4], create_full_source_item(52, 75, 2, '-', 5));
}

#[test]
fn test_resolve_whole_map() {
    let map = SourceMap::new(String::from(
        "38:124:1:i:2;:68:0:o:;52:75:2:-:0;::3:i:;73:::;85:96:1:o:3;21",
    ));
    let resolved = map.resolve();
    assert_eq!(resolved.len(), 7);
    assert_eq!(resolved[0], create_full_source_item(38, 124, 1, 'i', 2));
    assert_eq!(resolved[1], create_full_source_item(38, 68, 0, 'o', 2));
    assert_eq!(resolved[2], create_full_source_item(52, 75, 2, '-', 0));
    assert_eq!(resolved[3], create_full_source_item(52, 75, 3, 'i', 0));
    assert_eq!(resolved[4], create_full_source_item(73, 75, 3, 'i', 0));
    assert_eq!(resolved[5], create_full_source_item(85, 96, 1, 'o', 3));
    assert_eq!(resolved[6], create_full_source_item(21, 96, 1, 'o', 3));
}

#[test]
fn test_resolve_empty_entry_inherits_everything() {
    let map = SourceMap::new(String::from("5:6:7:i:8;;9"));
    let resolved = map.resolve();
    assert_eq!(resolved.len(), 3);
    assert_eq!(resolved[0], create_full_source_item(5, 6, 7, 'i', 8));
    assert_eq!(resolved[1], create_full_source_item(5, 6, 7, 'i', 8));
    assert_eq!(resolved[2], create_full_source_item(9, 6, 7, 'i', 8));
}

#[test]
fn test_resolve_empty_string_is_one_default_entry() {
    let map = SourceMap::new(String::new());
    let resolved = map.resolve();
    assert_eq!(resolved.len(), 1);
    assert_eq!(resolved[0], create_full_source_item(0, 0, 0, '-', 0));
}

#[test]
fn test_malformed_fields_inherit() {
    // a field that does not parse as a number degrades to "absent"
    let partial = PartialSourceItem::from_raw("xy:9z::ii:");
    assert_eq!(partial.s, None);
    assert_eq!(partial.l, None);
    assert_eq!(partial.f, None);
    assert_eq!(partial.j, None); // two characters do not parse as one char
    assert_eq!(partial.m, None);
}

#[test]
fn test_signed_and_overflowing_numbers() {
    let partial = PartialSourceItem::from_raw("-1:+7:99999999999999999999999999::");
    assert_eq!(partial.s, Some(-1));
    assert_eq!(partial.l, Some(7));
    assert_eq!(partial.f, None); // overflow degrades to absent
    assert_eq!(partial.j, None);
    assert_eq!(partial.m, None);
}
