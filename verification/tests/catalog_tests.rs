use cliprec::catalog::dir_stem;
use cliprec::catalog::display_label;
use cliprec::catalog::list;
use cliprec::catalog::resolve;
use cliprec::catalog::Clip;
use cliprec::catalog::RawEntry;
use cliprec::catalog::Resolution;
use cliprec::errors::CatalogError;
use cliprec::errors::SelectError;
use cliprec::meta::ClipDescriptor;

fn bare_clip(path: &str, modified: u64) -> Clip {
    Clip {
        path: String::from(path),
        modified,
        info: ClipDescriptor { name: None, timelines: Vec::new() },
    }
}

fn bare_entry(path: &str, modified: u64) -> RawEntry {
    // An empty metadata file decodes to the empty descriptor.
    RawEntry { path: String::from(path), modified, metadata: Vec::new() }
}

#[test]
fn list_orders_newest_first() {
    let t1: u64 = 100;
    let t2: u64 = 200;
    let t3: u64 = 300;
    let entries = vec![
        bare_entry("/rec/clips/a", t1),
        bare_entry("/rec/clips/b", t2),
        bare_entry("/rec/clips/c", t3),
    ];
    let clips = list(entries).unwrap();
    let order: Vec<u64> = clips.iter().map(|c| c.modified).collect();
    assert_eq!(order, vec![t3, t2, t1]);
    assert_eq!(clips[0].path, "/rec/clips/c");
    assert_eq!(clips[1].path, "/rec/clips/b");
    assert_eq!(clips[2].path, "/rec/clips/a");
}

#[test]
fn list_fails_fast_on_undecodable_entry() {
    let good = bare_entry("/rec/clips/a", 1);
    // A lone field key with a missing payload is malformed.
    let bad = RawEntry {
        path: String::from("/rec/clips/b"),
        modified: 2,
        metadata: vec![0x0a],
    };
    let r = list(vec![good, bad]);
    assert_eq!(r.unwrap_err(), CatalogError::CatalogLoad);
}

#[test]
fn resolve_finds_exact_stem() {
    let clips = vec![
        bare_clip("/rec/clips/alpha", 3),
        bare_clip("/rec/clips/foo", 2),
        bare_clip("/rec/clips/foo", 1),
    ];
    let name = String::from("foo");
    let r = resolve(&clips, Some(&name));
    assert_eq!(r.unwrap(), Resolution::Chosen(1));
}

#[test]
fn resolve_missing_name_is_an_error() {
    let clips = vec![bare_clip("/rec/clips/alpha", 1)];
    let name = String::from("missing");
    let r = resolve(&clips, Some(&name));
    assert_eq!(r.unwrap_err(), SelectError::ClipNotFound);
}

#[test]
fn resolve_without_name_prompts() {
    let clips = vec![bare_clip("/rec/clips/alpha", 1)];
    assert_eq!(resolve(&clips, None).unwrap(), Resolution::Prompt);
}

#[test]
fn resolve_empty_catalog_is_an_error() {
    let clips: Vec<Clip> = Vec::new();
    assert_eq!(resolve(&clips, None).unwrap_err(), SelectError::EmptyCatalog);
}

#[test]
fn label_prefers_metadata_name() {
    let clip = Clip {
        path: String::from("/rec/clips/clip_20240101"),
        modified: 0,
        info: ClipDescriptor { name: Some(String::from("My Clip")), timelines: Vec::new() },
    };
    assert_eq!(display_label(&clip), "My Clip");
}

#[test]
fn label_falls_back_to_stem() {
    let clip = bare_clip("/rec/clips/clip_20240101", 0);
    assert_eq!(display_label(&clip), "clip_20240101");
}

#[test]
fn label_placeholder_when_nothing_known() {
    let clip = bare_clip("", 0);
    assert_eq!(display_label(&clip), "???");
}

#[test]
fn stem_takes_last_component() {
    assert_eq!(dir_stem("/a/b/clip_2024"), "clip_2024");
    assert_eq!(dir_stem("clip_2024"), "clip_2024");
}

#[test]
fn stem_strips_extension() {
    assert_eq!(dir_stem("/a/b/movie.mp4"), "movie");
    assert_eq!(dir_stem("/a/b.c/d"), "d");
}
