use cliprec::catalog::Clip;
use cliprec::errors::PipelineError;
use cliprec::meta::ClipDescriptor;
use cliprec::meta::Recording;
use cliprec::meta::Timeline;
use cliprec::pipeline::build_plan;
use cliprec::pipeline::concat_fragments;
use cliprec::pipeline::first_recording_id;
use cliprec::pipeline::parse_chunk;
use cliprec::pipeline::plan_stream;

fn strings(names: &[&str]) -> Vec<String> {
    names.iter().map(|n| String::from(*n)).collect()
}

fn clip_with_recording(path: &str, rid: Option<&str>) -> Clip {
    Clip {
        path: String::from(path),
        modified: 0,
        info: ClipDescriptor {
            name: None,
            timelines: vec![Timeline {
                recordings: vec![Recording {
                    recording_id: rid.map(String::from),
                }],
            }],
        },
    }
}

#[test]
fn chunks_are_ordered_numerically_not_lexically() {
    let names = strings(&[
        "chunk-stream0-2",
        "chunk-stream0-10",
        "chunk-stream0-1",
        "init-stream0.m4s",
    ]);
    let plan = plan_stream(&names, 0).unwrap();
    assert_eq!(
        plan,
        strings(&[
            "init-stream0.m4s",
            "chunk-stream0-1",
            "chunk-stream0-2",
            "chunk-stream0-10",
        ])
    );
}

#[test]
fn missing_init_segment_is_an_error() {
    let names = strings(&["chunk-stream1-1"]);
    assert_eq!(
        plan_stream(&names, 1).unwrap_err(),
        PipelineError::FragmentMissing(1)
    );
}

#[test]
fn zero_chunks_is_not_an_error() {
    let names = strings(&["init-stream0.m4s", "chunk-stream1-1"]);
    let plan = plan_stream(&names, 0).unwrap();
    assert_eq!(plan, strings(&["init-stream0.m4s"]));
}

#[test]
fn foreign_names_are_ignored() {
    let names = strings(&[
        "init-stream0.m4s",
        "chunk-stream0-03",
        "chunk-stream0-xyz",
        "chunk-stream1-1",
        "stream0.mp4",
    ]);
    let plan = plan_stream(&names, 0).unwrap();
    assert_eq!(plan, strings(&["init-stream0.m4s", "chunk-stream0-03"]));
}

#[test]
fn parse_chunk_reads_the_suffix() {
    assert_eq!(parse_chunk("chunk-stream0-42", 0), Some(42));
    assert_eq!(parse_chunk("chunk-stream1-0", 1), Some(0));
    assert_eq!(parse_chunk("chunk-stream0-42", 1), None);
    assert_eq!(parse_chunk("init-stream0.m4s", 0), None);
    assert_eq!(parse_chunk("chunk-stream0-", 0), None);
}

#[test]
fn full_reconstruction_plan() {
    let clip = clip_with_recording("/rec/clips/game", Some("abc"));
    let listing = strings(&[
        "init-stream0.m4s",
        "init-stream1.m4s",
        "chunk-stream0-1",
        "chunk-stream1-1",
    ]);
    let plan = build_plan(&clip, Some(&listing)).unwrap();
    assert_eq!(plan.video_dir, "/rec/clips/game/video/abc");
    assert_eq!(plan.output, "/rec/clips/game/output.mp4");
    assert_eq!(
        plan.stream0,
        strings(&["init-stream0.m4s", "chunk-stream0-1"])
    );
    assert_eq!(
        plan.stream1,
        strings(&["init-stream1.m4s", "chunk-stream1-1"])
    );
    // Re-running the same plan is idempotent: the same output path is
    // produced and would simply be overwritten.
    let again = build_plan(&clip, Some(&listing)).unwrap();
    assert_eq!(again.output, plan.output);
    assert_eq!(again.stream0, plan.stream0);
}

#[test]
fn missing_segment_dir_fails_before_planning() {
    let clip = clip_with_recording("/rec/clips/game", Some("abc"));
    assert_eq!(
        build_plan(&clip, None).unwrap_err(),
        PipelineError::MissingSegmentDir
    );
}

#[test]
fn missing_recording_id_is_detected() {
    let clip = clip_with_recording("/rec/clips/game", None);
    assert_eq!(
        build_plan(&clip, Some(&Vec::new())).unwrap_err(),
        PipelineError::MissingRecordingId
    );
    let bare = Clip {
        path: String::from("/rec/clips/game"),
        modified: 0,
        info: ClipDescriptor { name: None, timelines: Vec::new() },
    };
    assert!(first_recording_id(&bare.info).is_err());
}

#[test]
fn missing_init_fails_the_whole_plan() {
    let clip = clip_with_recording("/rec/clips/game", Some("abc"));
    let listing = strings(&["init-stream0.m4s", "chunk-stream0-1"]);
    assert_eq!(
        build_plan(&clip, Some(&listing)).unwrap_err(),
        PipelineError::FragmentMissing(1)
    );
}

#[test]
fn concatenation_is_bytes_end_to_end() {
    let pieces: Vec<Vec<u8>> = vec![vec![1, 2], vec![], vec![3, 4, 5]];
    assert_eq!(concat_fragments(&pieces), vec![1, 2, 3, 4, 5]);
}

#[test]
fn suffix_fits_sixty_four_bits() {
    // 18 digits parse; a 19-digit run is not recognised as a fragment.
    let big18 = "chunk-stream0-999999999999999999";
    let big19 = "chunk-stream0-9999999999999999999";
    assert_eq!(parse_chunk(big18, 0), Some(999_999_999_999_999_999));
    assert_eq!(parse_chunk(big19, 0), None);
}
