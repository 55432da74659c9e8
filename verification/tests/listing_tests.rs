use lsgrid::collate::{sort_enteries, sort_key};
use lsgrid::entry::{
    get_entry_name_without_dot, get_file_type, is_hidden, parse_pathbuffs, DirectoryEntery,
    EntryType, FileTypeProbe, RawEntry,
};
use lsgrid::grid::{calculate_rows, effective_width, sort_to_columns};
use lsgrid::render::{convert_to_string_and_align, format_table, get_ansi_code};

const RESET: &str = "\u{1b}[0m";

fn entry(name: &str) -> DirectoryEntery {
    DirectoryEntery::new(&name.to_string(), &EntryType::File, &is_hidden(name))
}

fn entry_of(name: &str, kind: EntryType, hidden: bool) -> DirectoryEntery {
    DirectoryEntery::new(&name.to_string(), &kind, &hidden)
}

fn probe(
    symlink: bool,
    dir: bool,
    file: bool,
    block: bool,
    chr: bool,
    fifo: bool,
    socket: bool,
) -> FileTypeProbe {
    FileTypeProbe {
        is_symlink: symlink,
        is_dir: dir,
        is_file: file,
        is_block_device: block,
        is_char_device: chr,
        is_fifo: fifo,
        is_socket: socket,
    }
}

fn names(entries: &[DirectoryEntery]) -> Vec<String> {
    entries.iter().map(|e| e.name().clone()).collect()
}

fn visible(cell: &str) -> String {
    // strip the color escape sequences a rendered cell may hold
    let mut out = String::new();
    let mut chars = cell.chars().peekable();
    while let Some(c) = chars.next() {
        if c == '\u{1b}' {
            for d in chars.by_ref() {
                if d == 'm' {
                    break;
                }
            }
        } else {
            out.push(c);
        }
    }
    out
}

#[test]
fn accessors_return_the_classified_fields() {
    let e = entry_of(".conf", EntryType::Directory, true);
    assert_eq!(e.name().as_str(), ".conf");
    assert_eq!(*e.entry_type(), EntryType::Directory);
    assert!(*e.is_hidden());
}

#[test]
fn hidden_iff_leading_dot() {
    assert!(is_hidden(".a"));
    assert!(is_hidden("."));
    assert!(!is_hidden("a.b"));
    assert!(!is_hidden(""));
}

#[test]
fn classification_follows_the_type_bits() {
    assert_eq!(
        get_file_type(&Some(probe(true, false, false, false, false, false, false))),
        EntryType::Symlink
    );
    assert_eq!(
        get_file_type(&Some(probe(false, true, false, false, false, false, false))),
        EntryType::Directory
    );
    assert_eq!(
        get_file_type(&Some(probe(false, false, false, true, false, false, false))),
        EntryType::BlockDevice
    );
    assert_eq!(
        get_file_type(&Some(probe(false, false, false, false, true, false, false))),
        EntryType::CharDevice
    );
    assert_eq!(
        get_file_type(&Some(probe(false, false, false, false, false, true, false))),
        EntryType::Fifo
    );
    assert_eq!(
        get_file_type(&Some(probe(false, false, false, false, false, false, true))),
        EntryType::Socket
    );
    assert_eq!(
        get_file_type(&Some(probe(false, false, true, false, false, false, false))),
        EntryType::File
    );
}

#[test]
fn symlink_bit_wins_over_directory_bit() {
    assert_eq!(
        get_file_type(&Some(probe(true, true, false, false, false, false, false))),
        EntryType::Symlink
    );
}

#[test]
fn unreadable_metadata_defaults_to_file() {
    assert_eq!(get_file_type(&None), EntryType::File);
}

#[test]
fn parsing_skips_empty_names_and_flags_hidden_ones() {
    let raw = vec![
        RawEntry { name: "b".to_string(), probe: None },
        RawEntry { name: String::new(), probe: None },
        RawEntry {
            name: ".a".to_string(),
            probe: Some(probe(false, true, false, false, false, false, false)),
        },
    ];
    let entries = parse_pathbuffs(&raw);
    assert_eq!(names(&entries), vec!["b", ".a"]);
    assert!(!*entries[0].is_hidden());
    assert!(*entries[1].is_hidden());
    assert_eq!(*entries[1].entry_type(), EntryType::Directory);
}

#[test]
fn strip_removes_exactly_one_leading_dot() {
    assert_eq!(get_entry_name_without_dot(&entry(".foo")), "foo");
    assert_eq!(get_entry_name_without_dot(&entry("..foo")), ".foo");
    assert_eq!(get_entry_name_without_dot(&entry("bar")), "bar");
}

#[test]
fn strip_leaves_the_display_name_alone() {
    let e = entry(".foo");
    let _ = get_entry_name_without_dot(&e);
    assert_eq!(e.name().as_str(), ".foo");
}

#[test]
fn synthetic_dot_entries_keep_their_literal_name_as_key() {
    // "." and ".." enter the list flagged non-hidden, so nothing is stripped
    let dot = entry_of(".", EntryType::Directory, false);
    let dotdot = entry_of("..", EntryType::Directory, false);
    assert_eq!(get_entry_name_without_dot(&dot), ".");
    assert_eq!(get_entry_name_without_dot(&dotdot), "..");
    assert_eq!(sort_key(&dot), ".");
}

#[test]
fn scenario_hidden_shown_sorts_by_stripped_lowercase_key() {
    let mut entries = vec![entry("b"), entry(".a"), entry("C")];
    assert_eq!(sort_key(&entries[0]), "b");
    assert_eq!(sort_key(&entries[1]), "a");
    assert_eq!(sort_key(&entries[2]), "c");
    sort_enteries(&mut entries);
    assert_eq!(names(&entries), vec![".a", "b", "C"]);
}

#[test]
fn sort_is_case_insensitive() {
    let mut entries = vec![entry("B"), entry("a")];
    sort_enteries(&mut entries);
    assert_eq!(names(&entries), vec!["a", "B"]);
}

#[test]
fn sort_is_stable_for_equal_keys() {
    let mut entries = vec![entry("A"), entry("a"), entry(".A"), entry("b")];
    sort_enteries(&mut entries);
    // "A", "a" and ".A" all carry the key "a" and keep their relative order
    assert_eq!(names(&entries), vec!["A", "a", ".A", "b"]);
}

#[test]
fn dot_sorts_before_dot_dot() {
    let mut entries = vec![
        entry_of("a", EntryType::File, false),
        entry_of("..", EntryType::Directory, false),
        entry_of(".", EntryType::Directory, false),
    ];
    sort_enteries(&mut entries);
    assert_eq!(names(&entries), vec![".", "..", "a"]);
}

#[test]
fn scenario_five_entries_at_width_ten_take_three_rows() {
    let entries = vec![entry("aaa"), entry("bbb"), entry("ccc"), entry("ddd"), entry("eee")];
    // two columns of width 5 = 3 + 2 fit a width of 10 only at three rows
    assert_eq!(calculate_rows(&entries, 10, 1), 3);
    let columns = sort_to_columns(&entries, 10);
    assert_eq!(columns.len(), 2);
    assert_eq!(names(&columns[0]), vec!["aaa", "bbb", "ccc"]);
    assert_eq!(names(&columns[1]), vec!["ddd", "eee"]);
}

#[test]
fn row_search_is_exact_around_the_bound() {
    let entries = vec![entry("aaa"), entry("bbb"), entry("ccc"), entry("ddd"), entry("eee")];
    assert_eq!(calculate_rows(&entries, 25, 1), 1);
    assert_eq!(calculate_rows(&entries, 24, 1), 2);
    assert_eq!(calculate_rows(&entries, 15, 1), 2);
    assert_eq!(calculate_rows(&entries, 14, 1), 3);
    assert_eq!(calculate_rows(&entries, 9, 1), 5);
}

#[test]
fn row_search_never_leaves_zero_to_n() {
    let entries = vec![entry("aaaa"), entry("b")];
    // nothing fits a zero width, so every entry gets its own row
    assert_eq!(calculate_rows(&entries, 0, 1), 2);
    let none: Vec<DirectoryEntery> = Vec::new();
    assert_eq!(calculate_rows(&none, 80, 1), 0);
}

#[test]
fn cells_of_a_column_share_its_padded_width() {
    let columns = vec![
        vec![entry("a"), entry("bbb")],
        vec![entry_of("cc", EntryType::Directory, false)],
    ];
    let aligned = convert_to_string_and_align(&columns);
    assert_eq!(aligned.len(), 2);
    // the first column's widest name has 3 characters: visible width 5
    assert_eq!(visible(&aligned[0][0]).chars().count(), 5);
    assert_eq!(visible(&aligned[0][1]).chars().count(), 5);
    // the second column's widest name has 2 characters: visible width 4
    assert_eq!(visible(&aligned[1][0]).chars().count(), 4);
}

#[test]
fn cell_is_prefix_name_reset_padding() {
    let columns = vec![vec![entry_of("d", EntryType::Directory, false)]];
    let aligned = convert_to_string_and_align(&columns);
    assert_eq!(aligned[0][0], format!("\u{1b}[01;34md{}  ", RESET));
}

#[test]
fn color_table_is_fixed() {
    assert_eq!(get_ansi_code(&EntryType::File), "");
    assert_eq!(get_ansi_code(&EntryType::Directory), "\u{1b}[01;34m");
    assert_eq!(get_ansi_code(&EntryType::BlockDevice), "\u{1b}[01;33m");
    assert_eq!(get_ansi_code(&EntryType::CharDevice), "\u{1b}[01;33m");
    assert_eq!(get_ansi_code(&EntryType::Fifo), "\u{1b}[33m");
    assert_eq!(get_ansi_code(&EntryType::Socket), "\u{1b}[01;35m");
    assert_eq!(get_ansi_code(&EntryType::Symlink), "\u{1b}[01;36m");
}

#[test]
fn scenario_single_regular_file_renders_plain() {
    let entries = vec![entry("note")];
    let out = format_table(&entries, false, 80);
    // one row, one column, no color prefix before the name
    assert_eq!(out, format!("note{}  ", RESET));
    assert!(!out.contains('\n'));
    assert!(out.starts_with("note"));
}

#[test]
fn rendering_twice_is_byte_identical() {
    let mut entries = vec![entry("b"), entry(".a"), entry("C"), entry("dd")];
    sort_enteries(&mut entries);
    let first = format_table(&entries, true, 7);
    let second = format_table(&entries, true, 7);
    assert_eq!(first.into_bytes(), second.into_bytes());
}

#[test]
fn hidden_entries_are_filtered_before_planning() {
    let entries = vec![entry(".a"), entry("b")];
    let shown = format_table(&entries, false, 80);
    assert_eq!(shown, format!("b{}  ", RESET));
    let all = format_table(&entries, true, 80);
    assert!(all.contains(".a"));
}

#[test]
fn scenario_zero_width_still_renders_one_column() {
    let entries = vec![entry("aa"), entry("b")];
    let out = format_table(&entries, false, 0);
    let lines: Vec<&str> = out.split('\n').collect();
    assert_eq!(lines.len(), 2);
    assert_eq!(visible(lines[0]), "aa  ");
    assert_eq!(visible(lines[1]), "b   ");
}

#[test]
fn width_fallback_covers_missing_and_zero_readings() {
    assert_eq!(effective_width(None), 80);
    assert_eq!(effective_width(Some(0)), 80);
    assert_eq!(effective_width(Some(120)), 120);
}

#[test]
fn empty_listing_renders_nothing() {
    let none: Vec<DirectoryEntery> = Vec::new();
    assert_eq!(format_table(&none, true, 80), "");
    assert_eq!(sort_to_columns(&none, 80).len(), 0);
}

#[test]
fn grid_rows_read_left_to_right_across_columns() {
    let entries = vec![entry("aaa"), entry("bbb"), entry("ccc"), entry("ddd"), entry("eee")];
    let out = format_table(&entries, false, 10);
    let lines: Vec<String> = out.split('\n').map(visible).collect();
    assert_eq!(lines, vec!["aaa  ddd  ", "bbb  eee  ", "ccc  "]);
}

#[test]
fn lowercase_key_differs_from_the_name_for_uppercase_input() {
    // guards the case folding itself: an unfolded key would sort "B" first
    let e = entry("B");
    assert_eq!(sort_key(&e), "b");
}
