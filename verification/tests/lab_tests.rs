use lab_rs::Entry;
use lab_rs::LabFile;

#[test]
fn new_entry() {
    let entry1: Entry = Entry::new(String::from("test_name"), String::from("test_raster"));
    let entry2: Entry = Entry {
        name: String::from("test_name"),
        raster: String::from("test_raster"),
    };
    assert_eq!(entry1, entry2);
}

#[test]
fn print_entry() {
    let entry2: Entry = Entry {
        name: String::from("test_name"),
        raster: String::from("test_raster"),
    };
    assert_eq!(entry2.to_text(), "(test_name, test_raster)");
}

// add labels and ramcells, then render the document
#[test]
fn lab_creation() {
    let mut lbl_file: LabFile = LabFile::new("test_setting\n");
    lbl_file.add_label("a_lbl_name", "a_lbl_raster");
    lbl_file.add_ramcell("b_ram_name", "b_ram_raster");
    lbl_file.add_ramcell("c_ram_name", "c_ram_raster");
    lbl_file.add_ramcell("d_ram_name", "");
    assert_eq!(lbl_file.encode(), String::from("[SETTINGS]\ntest_setting\n\n[LABEL]\na_lbl_name; a_lbl_raster;\n\n[RAMCELL]\nb_ram_name; b_ram_raster;\nc_ram_name; c_ram_raster;\nd_ram_name;\n\n"))
}

// delete entries from both collections
#[test]
fn test_del() {
    let mut file1: LabFile = LabFile::new("test_setting\n");
    file1.add_label("a_lbl_name", "a_lbl_raster");
    file1.add_ramcell("b_ram_name", "b_ram_raster");
    file1.delete_label("a_lbl_name");
    file1.delete_label("b_ram_name");
    let file2: LabFile = LabFile::new("test_setting\n");
    assert_eq!(file1, file2);
}

// a small document renders with every block present
#[test]
fn encode_scenario() {
    let mut d: LabFile = LabFile::new("hdr");
    d.add_label("a", "ra");
    d.add_ramcell("b", "rb");
    d.add_ramcell("c", "");
    assert_eq!(
        d.encode(),
        "[SETTINGS]\nhdr\n\n[LABEL]\na; ra;\n\n[RAMCELL]\nb; rb;\nc;\n\n"
    );
}

// decoding a settings-and-label text yields that document
#[test]
fn decode_scenario() {
    let d: LabFile = LabFile::decode("[SETTINGS]\nhdr\n\n[LABEL]\na; ra;\n\n");
    let mut expected: LabFile = LabFile::new("hdr");
    expected.add_label("a", "ra");
    assert_eq!(d, expected);
}

// an empty document still renders its settings block
#[test]
fn encode_empty() {
    let d: LabFile = LabFile::new("");
    assert_eq!(d.encode(), "[SETTINGS]\n\n\n");
}

// the canonical text decodes back to the document it came from
#[test]
fn round_trip() {
    let mut d: LabFile = LabFile::new("first line\nsecond line");
    d.add_label("a", "ra");
    d.add_label("b", "");
    d.add_ramcell("c", "rc");
    let text: String = d.encode();
    assert_eq!(LabFile::decode(&text), d);
}

// an empty document survives the round trip too
#[test]
fn round_trip_empty() {
    let d: LabFile = LabFile::new("");
    assert_eq!(LabFile::decode(&d.encode()), d);
}

// adding the same name twice keeps only the later raster
#[test]
fn add_twice_overwrites() {
    let mut d: LabFile = LabFile::new("h");
    d.add_label("n", "r1");
    d.add_label("n", "r2");
    let mut expected: LabFile = LabFile::new("h");
    expected.add_label("n", "r2");
    assert_eq!(d, expected);
}

// removal clears the name from both collections
#[test]
fn remove_cross_collection() {
    let mut d: LabFile = LabFile::new("h");
    d.add_label("x", "a");
    d.delete_label("x");
    assert_eq!(d.encode(), "[SETTINGS]\nh\n\n");
    let mut e: LabFile = LabFile::new("h");
    e.add_label("x", "a");
    e.add_ramcell("x", "b");
    e.add_ramcell("y", "c");
    e.delete_label("x");
    let mut expected: LabFile = LabFile::new("h");
    expected.add_ramcell("y", "c");
    assert_eq!(e, expected);
}

// on a name collision, the right-hand document's raster wins
#[test]
fn merge_override() {
    let mut a: LabFile = LabFile::new("ha");
    a.add_label("n", "ra");
    a.add_label("k", "rk");
    let mut b: LabFile = LabFile::new("hb");
    b.add_label("n", "rb");
    let merged: LabFile = a.merge(b);
    let mut expected: LabFile = LabFile::new("ha");
    expected.add_label("n", "rb");
    expected.add_label("k", "rk");
    assert_eq!(merged, expected);
}

// merging disjoint documents appends the right-hand entries
#[test]
fn merge_disjoint() {
    let mut a: LabFile = LabFile::new("ha");
    a.add_label("a", "ra");
    a.add_ramcell("b", "rb");
    let mut b: LabFile = LabFile::new("hb");
    b.add_label("c", "rc");
    b.add_ramcell("d", "rd");
    let merged: LabFile = a.merge(b);
    assert_eq!(
        merged.encode(),
        "[SETTINGS]\nha\n\n[LABEL]\na; ra;\nc; rc;\n\n[RAMCELL]\nb; rb;\nd; rd;\n\n"
    );
}

// subtracting the right document from a disjoint merge restores the left
#[test]
fn difference_inverts_merge() {
    let mut a: LabFile = LabFile::new("ha");
    a.add_label("a", "ra");
    a.add_ramcell("b", "rb");
    let mut b: LabFile = LabFile::new("hb");
    b.add_label("c", "rc");
    b.add_ramcell("d", "rd");
    let merged: LabFile = a.merge(b);
    let mut b_again: LabFile = LabFile::new("hb");
    b_again.add_label("c", "rc");
    b_again.add_ramcell("d", "rd");
    let restored: LabFile = merged.difference(b_again);
    let mut a_again: LabFile = LabFile::new("ha");
    a_again.add_label("a", "ra");
    a_again.add_ramcell("b", "rb");
    assert_eq!(restored, a_again);
}

// the difference removes right-hand names from both collections
#[test]
fn difference_cross_collection() {
    let mut a: LabFile = LabFile::new("h");
    a.add_label("x", "1");
    a.add_ramcell("x", "2");
    a.add_ramcell("y", "3");
    let mut b: LabFile = LabFile::new("");
    b.add_ramcell("x", "whatever");
    let out: LabFile = a.difference(b);
    let mut expected: LabFile = LabFile::new("h");
    expected.add_ramcell("y", "3");
    assert_eq!(out, expected);
}

// fields are trimmed, extra fields are ignored, a missing second field
// leaves an empty raster
#[test]
fn decode_field_handling() {
    let d: LabFile = LabFile::decode("[LABEL]\n  a  ;  r  ; ignored ;\nbare\n");
    let mut expected: LabFile = LabFile::new("");
    expected.add_label("a", "r");
    expected.add_label("bare", "");
    assert_eq!(d, expected);
}

// a section token is matched by prefix, so trailing text still switches
#[test]
fn decode_token_prefix() {
    let d: LabFile = LabFile::decode("[SETTINGS] extra\nhdr\n[RAMCELL] more\nr; v;\n");
    let mut expected: LabFile = LabFile::new("hdr");
    expected.add_ramcell("r", "v");
    assert_eq!(d, expected);
}

// carriage returns before the newline are stripped as a line reader would
#[test]
fn decode_crlf() {
    let d: LabFile = LabFile::decode("[SETTINGS]\r\nhdr\r\n\r\n[LABEL]\r\na; ra;\r\n");
    let mut expected: LabFile = LabFile::new("hdr");
    expected.add_label("a", "ra");
    assert_eq!(d, expected);
}

// re-entering a section keeps accumulating; a repeated name replaces
#[test]
fn decode_reentry_and_duplicates() {
    let text = "[LABEL]\na; r1;\n[SETTINGS]\nhdr\n[LABEL]\nb; rb;\na; r2;\n";
    let d: LabFile = LabFile::decode(text);
    let mut expected: LabFile = LabFile::new("hdr");
    expected.add_label("a", "r2");
    expected.add_label("b", "rb");
    assert_eq!(d, expected);
}

// settings lines accumulate newline-joined, blank lines are skipped
#[test]
fn decode_settings_accumulate() {
    let d: LabFile = LabFile::decode("[SETTINGS]\n  one  \n\n\ntwo\n");
    assert_eq!(d, LabFile::new("one\ntwo"));
}

// an empty text decodes to an empty document
#[test]
fn decode_empty() {
    let d: LabFile = LabFile::decode("");
    assert_eq!(d, LabFile::new(""));
}

// the constructor trims the header
#[test]
fn new_trims_header() {
    assert_eq!(LabFile::new("  spaced  \n"), LabFile::new("spaced"));
}
