use s3_file_upload::inventory::{build_inventory, LocalFile, RawFile};
use s3_file_upload::manifest::{Manifest, ManifestEntry};
use s3_file_upload::orchestrate::{
    acl_name, build_new_manifest, find_manifest_key, manifest_object_key, mime_for,
    parse_confirmation, upload_sequence,
};
use s3_file_upload::paths::{normalize_separators, relative_key};
use s3_file_upload::plan::{build_plan, classify, FileStatus};

fn entry(key: &str, fp: &str) -> ManifestEntry {
    ManifestEntry { key: key.as_bytes().to_vec(), fingerprint: fp.as_bytes().to_vec() }
}

fn manifest(entries: Vec<ManifestEntry>) -> Manifest {
    Manifest { entries }
}

fn local(key: &str, fp: &str) -> LocalFile {
    LocalFile { relative_key: key.as_bytes().to_vec(), fingerprint: fp.as_bytes().to_vec() }
}

fn raw(components: &[&str], content: &[u8]) -> RawFile {
    RawFile {
        components: components.iter().map(|c| c.as_bytes().to_vec()).collect(),
        content: content.to_vec(),
    }
}

fn names(list: &[&str]) -> Vec<Vec<u8>> {
    list.iter().map(|n| n.as_bytes().to_vec()).collect()
}

#[test]
fn serialize_writes_one_line_per_entry() {
    let m = manifest(vec![entry("a.txt", "H1"), entry("sub/b.png", "H2")]);
    assert_eq!(m.serialize(), b"a.txt H1\nsub/b.png H2\n".to_vec());
}

#[test]
fn serialize_empty_manifest_is_empty() {
    let m = manifest(vec![]);
    assert_eq!(m.serialize(), Vec::<u8>::new());
}

#[test]
fn parse_reads_key_and_fingerprint_per_line() {
    let m = Manifest::parse(&b"a.txt H1\nsub/b.png H2\n".to_vec());
    assert_eq!(m.entries.len(), 2);
    assert_eq!(m.lookup(&b"a.txt".to_vec()), Some(b"H1".to_vec()));
    assert_eq!(m.lookup(&b"sub/b.png".to_vec()), Some(b"H2".to_vec()));
    assert_eq!(m.lookup(&b"missing".to_vec()), None);
}

#[test]
fn parse_skips_lines_with_fewer_than_two_tokens() {
    let m = Manifest::parse(&b"\n\nonly_one_token\na.txt H1\n   \n".to_vec());
    assert_eq!(m.entries.len(), 1);
    assert_eq!(m.lookup(&b"a.txt".to_vec()), Some(b"H1".to_vec()));
}

#[test]
fn parse_ignores_tokens_beyond_the_second() {
    let m = Manifest::parse(&b"a.txt H1 extra tokens here\n".to_vec());
    assert_eq!(m.entries.len(), 1);
    assert_eq!(m.lookup(&b"a.txt".to_vec()), Some(b"H1".to_vec()));
}

#[test]
fn parse_keeps_last_occurrence_of_a_repeated_key() {
    let m = Manifest::parse(&b"a.txt H1\na.txt H2\n".to_vec());
    assert_eq!(m.lookup(&b"a.txt".to_vec()), Some(b"H2".to_vec()));
}

#[test]
fn parse_tolerates_carriage_returns() {
    let m = Manifest::parse(&b"a.txt H1\r\nb.txt H2\r\n".to_vec());
    assert_eq!(m.lookup(&b"a.txt".to_vec()), Some(b"H1".to_vec()));
    assert_eq!(m.lookup(&b"b.txt".to_vec()), Some(b"H2".to_vec()));
}

#[test]
fn parse_of_empty_input_is_the_empty_manifest() {
    let m = Manifest::parse(&Vec::new());
    assert_eq!(m.entries.len(), 0);
    assert_eq!(m.lookup(&b"a.txt".to_vec()), None);
}

#[test]
fn parse_tolerates_missing_final_newline() {
    let m = Manifest::parse(&b"a.txt H1".to_vec());
    assert_eq!(m.lookup(&b"a.txt".to_vec()), Some(b"H1".to_vec()));
}

#[test]
fn round_trip_reconstructs_the_manifest() {
    let m = manifest(vec![entry("a.txt", "H1"), entry("sub/b.png", "H2"), entry("c", "H3")]);
    let parsed = Manifest::parse(&m.serialize());
    assert_eq!(parsed.entries.len(), 3);
    for (original, back) in m.entries.iter().zip(parsed.entries.iter()) {
        assert_eq!(original.key, back.key);
        assert_eq!(original.fingerprint, back.fingerprint);
    }
}

#[test]
fn insert_overrides_earlier_entry() {
    let mut m = Manifest::new();
    m.insert(b"a.txt".to_vec(), b"H1".to_vec());
    m.insert(b"a.txt".to_vec(), b"H2".to_vec());
    assert_eq!(m.lookup(&b"a.txt".to_vec()), Some(b"H2".to_vec()));
}

#[test]
fn fingerprint_is_the_md5_hex_of_the_content() {
    let inv = build_inventory(&vec![raw(&["a.txt"], b"abc")], &names(&[]));
    assert_eq!(inv.len(), 1);
    assert_eq!(inv[0].fingerprint, b"900150983cd24fb0d6963f7d28e17f72".to_vec());
}

#[test]
fn fingerprint_of_empty_content() {
    let inv = build_inventory(&vec![raw(&["e"], b"")], &names(&[]));
    assert_eq!(inv[0].fingerprint, b"d41d8cd98f00b204e9800998ecf8427e".to_vec());
}

#[test]
fn inventory_joins_components_into_relative_keys() {
    let inv = build_inventory(&vec![raw(&["sub", "dir", "a.txt"], b"x")], &names(&[]));
    assert_eq!(inv[0].relative_key, b"sub/dir/a.txt".to_vec());
}

#[test]
fn ignored_directory_excludes_its_subtree_at_any_depth() {
    let files = vec![
        raw(&["node_modules", "x.txt"], b"1"),
        raw(&["deep", "node_modules", "y.txt"], b"2"),
        raw(&["keep.txt"], b"3"),
    ];
    let inv = build_inventory(&files, &names(&["node_modules"]));
    assert_eq!(inv.len(), 1);
    assert_eq!(inv[0].relative_key, b"keep.txt".to_vec());
}

#[test]
fn a_file_named_like_an_ignored_directory_is_kept() {
    let inv = build_inventory(&vec![raw(&["node_modules"], b"f")], &names(&["node_modules"]));
    assert_eq!(inv.len(), 1);
}

#[test]
fn scenario_ignore_set() {
    let files = vec![raw(&["node_modules", "x.txt"], b"x"), raw(&["keep.txt"], b"k")];
    let inv = build_inventory(&files, &names(&["node_modules"]));
    assert_eq!(inv.len(), 1);
    assert_eq!(inv[0].relative_key, b"keep.txt".to_vec());
}

#[test]
fn classify_new_when_key_absent() {
    let m = manifest(vec![]);
    assert_eq!(classify(&local("a.txt", "H1"), &m), FileStatus::New);
}

#[test]
fn classify_modified_when_fingerprint_differs() {
    let m = manifest(vec![entry("a.txt", "H0")]);
    assert_eq!(classify(&local("a.txt", "H1"), &m), FileStatus::Modified);
}

#[test]
fn classify_unmodified_when_fingerprint_matches() {
    let m = manifest(vec![entry("a.txt", "H1")]);
    assert_eq!(classify(&local("a.txt", "H1"), &m), FileStatus::Unmodified);
}

#[test]
fn unmodified_files_are_excluded_from_the_plan() {
    let m = manifest(vec![entry("a.txt", "H1"), entry("b.txt", "H0")]);
    let inv = vec![local("a.txt", "H1"), local("b.txt", "H1"), local("c.txt", "H1")];
    let plan = build_plan(&inv, &m);
    assert_eq!(plan.modified.len(), 1);
    assert_eq!(plan.modified[0].relative_key, b"b.txt".to_vec());
    assert_eq!(plan.new_files.len(), 1);
    assert_eq!(plan.new_files[0].relative_key, b"c.txt".to_vec());
}

#[test]
fn scenario_new_file_against_empty_manifest() {
    let m = manifest(vec![]);
    let plan = build_plan(&vec![local("a.txt", "H1")], &m);
    assert_eq!(plan.new_files.len(), 1);
    assert_eq!(plan.new_files[0].relative_key, b"a.txt".to_vec());
    assert_eq!(plan.modified.len(), 0);
    assert!(!plan.is_empty());
}

#[test]
fn scenario_unchanged_file_yields_empty_plan() {
    let m = manifest(vec![entry("a.txt", "H1")]);
    let plan = build_plan(&vec![local("a.txt", "H1")], &m);
    assert!(plan.is_empty());
}

#[test]
fn scenario_changed_file_yields_modified_plan_and_updated_manifest() {
    let m = manifest(vec![entry("a.txt", "H0")]);
    let inv = vec![local("a.txt", "H1")];
    let plan = build_plan(&inv, &m);
    assert_eq!(plan.modified.len(), 1);
    assert_eq!(plan.modified[0].relative_key, b"a.txt".to_vec());
    assert_eq!(plan.new_files.len(), 0);
    let republished = build_new_manifest(&inv);
    assert_eq!(republished.lookup(&b"a.txt".to_vec()), Some(b"H1".to_vec()));
}

#[test]
fn second_run_after_republish_is_empty() {
    let inv = vec![local("a.txt", "H1"), local("b/c.png", "H2")];
    let republished = Manifest::parse(&build_new_manifest(&inv).serialize());
    let plan = build_plan(&inv, &republished);
    assert!(plan.is_empty());
}

#[test]
fn new_manifest_holds_the_complete_inventory() {
    let inv = vec![local("changed.txt", "H1"), local("same.txt", "H2")];
    let m = build_new_manifest(&inv);
    assert_eq!(m.entries.len(), 2);
    assert_eq!(m.lookup(&b"same.txt".to_vec()), Some(b"H2".to_vec()));
}

#[test]
fn relative_key_normalizes_platform_separators() {
    let key = relative_key(&b"root/sub\\dir/a.txt".to_vec(), &b"root".to_vec());
    assert_eq!(key, Some(b"sub/dir/a.txt".to_vec()));
}

#[test]
fn relative_key_requires_the_root_prefix() {
    assert_eq!(relative_key(&b"elsewhere/a.txt".to_vec(), &b"root".to_vec()), None);
}

#[test]
fn normalize_separators_rewrites_backslashes() {
    assert_eq!(normalize_separators(&b"a\\b\\c.txt".to_vec()), b"a/b/c.txt".to_vec());
}

#[test]
fn mime_table_matches_known_extensions() {
    assert_eq!(mime_for(&b"index.html".to_vec()), b"text/html".to_vec());
    assert_eq!(mime_for(&b"style.css".to_vec()), b"text/css".to_vec());
    assert_eq!(mime_for(&b"img.png".to_vec()), b"image/png".to_vec());
    assert_eq!(mime_for(&b"anim.gif".to_vec()), b"image/gif".to_vec());
    assert_eq!(mime_for(&b"photo.jpg".to_vec()), b"image/jpeg".to_vec());
    assert_eq!(mime_for(&b"feed.xml".to_vec()), b"application/xml".to_vec());
    assert_eq!(mime_for(&b"notes.txt".to_vec()), b"text/plain".to_vec());
}

#[test]
fn mime_falls_back_to_octet_stream() {
    assert_eq!(mime_for(&b"archive.zip".to_vec()), b"application/octet-stream".to_vec());
    assert_eq!(mime_for(&b"no_extension".to_vec()), b"application/octet-stream".to_vec());
    assert_eq!(mime_for(&b"dir.v1/file".to_vec()), b"application/octet-stream".to_vec());
}

#[test]
fn mime_uses_the_extension_of_the_last_component() {
    assert_eq!(mime_for(&b"sub/dir/page.html".to_vec()), b"text/html".to_vec());
}

#[test]
fn acl_names_for_data_and_manifest() {
    assert_eq!(acl_name(true), b"public-read".to_vec());
    assert_eq!(acl_name(false), b"private".to_vec());
}

#[test]
fn manifest_key_is_well_known() {
    assert_eq!(manifest_object_key(), b"checksums.txt".to_vec());
}

#[test]
fn find_manifest_key_locates_the_manifest_object() {
    let keys = vec![b"a.txt".to_vec(), b"checksums.txt".to_vec(), b"b.txt".to_vec()];
    assert_eq!(find_manifest_key(&keys), Some(1));
    let keys = vec![b"a.txt".to_vec()];
    assert_eq!(find_manifest_key(&keys), None);
}

#[test]
fn confirmation_accepts_yes_in_any_case() {
    assert_eq!(parse_confirmation(&b"y".to_vec()), Some(true));
    assert_eq!(parse_confirmation(&b"YES\n".to_vec()), Some(true));
    assert_eq!(parse_confirmation(&b"  Yes  ".to_vec()), Some(true));
}

#[test]
fn confirmation_defaults_to_no() {
    assert_eq!(parse_confirmation(&b"".to_vec()), Some(false));
    assert_eq!(parse_confirmation(&b"\n".to_vec()), Some(false));
    assert_eq!(parse_confirmation(&b"n".to_vec()), Some(false));
    assert_eq!(parse_confirmation(&b"No\n".to_vec()), Some(false));
}

#[test]
fn confirmation_reprompts_on_unrecognized_input() {
    assert_eq!(parse_confirmation(&b"maybe".to_vec()), None);
    assert_eq!(parse_confirmation(&b"yess".to_vec()), None);
}

#[test]
fn upload_sequence_sends_modified_then_new_publicly() {
    let m = manifest(vec![entry("changed.html", "H0")]);
    let inv = vec![local("changed.html", "H1"), local("fresh.png", "H2")];
    let plan = build_plan(&inv, &m);
    let items = upload_sequence(&plan);
    assert_eq!(items.len(), 2);
    assert_eq!(items[0].relative_key, b"changed.html".to_vec());
    assert_eq!(items[0].content_type, b"text/html".to_vec());
    assert!(items[0].public_read);
    assert_eq!(items[1].relative_key, b"fresh.png".to_vec());
    assert_eq!(items[1].content_type, b"image/png".to_vec());
    assert!(items[1].public_read);
}

#[test]
fn full_cycle_from_walk_to_republish() {
    let files = vec![raw(&["a.txt"], b"hello"), raw(&["skipme", "b.txt"], b"bye")];
    let ignored = names(&["skipme"]);
    let inv = build_inventory(&files, &ignored);
    assert_eq!(inv.len(), 1);

    let remote = Manifest::parse(&Vec::new());
    let plan = build_plan(&inv, &remote);
    assert_eq!(plan.new_files.len(), 1);
    assert!(!plan.is_empty());

    let republished = Manifest::parse(&build_new_manifest(&inv).serialize());
    let second = build_plan(&inv, &republished);
    assert!(second.is_empty());
}
