use data_extractor::model::CsvRecord;
use data_extractor::model::Location;
use data_extractor::segments::check_segments;
use data_extractor::segments::count_groups;
use data_extractor::segments::ffmpeg_arguments;
use data_extractor::segments::plan_segments;
use data_extractor::segments::segment_filter;
use data_extractor::segments::segment_mappings;
use data_extractor::segments::segment_path_string;
use data_extractor::segments::stream_label_string;
use data_extractor::segments::SegmentMapping;
use data_extractor::segments::SegmentPlan;

fn at(position: usize) -> CsvRecord {
    CsvRecord {
        group_position: position,
        group_name: format!("group {}", position),
        group_location: Location::Remote,
        group_link: String::new(),
        first_name: "A".to_string(),
        last_name: "B".to_string(),
        discord_name: "ab".to_string(),
        profile: "p".to_string(),
        level: 0,
        preferred_techniques: Vec::new(),
        known_techniques: Vec::new(),
    }
}

fn roster(positions: &[usize]) -> Vec<CsvRecord> {
    positions.iter().map(|p| at(*p)).collect()
}

#[test]
fn count_groups_counts_positions_once() {
    assert_eq!(count_groups(&roster(&[])), 0);
    assert_eq!(count_groups(&roster(&[4])), 1);
    assert_eq!(count_groups(&roster(&[1, 1, 2])), 2);
    assert_eq!(count_groups(&roster(&[9, 3, 9, 3, 0, 9])), 3);
}

#[test]
fn filter_of_two_groups() {
    assert_eq!(segment_filter(10, 20, 2), "asegment=timestamps=10|30|50[0][1][2][3]");
}

#[test]
fn filter_without_groups_has_one_cut_and_two_streams() {
    assert_eq!(segment_filter(10, 20, 0), "asegment=timestamps=10[0][1]");
}

#[test]
fn filter_with_many_groups_counts_past_nine() {
    assert_eq!(
        segment_filter(0, 5, 10),
        "asegment=timestamps=0|5|10|15|20|25|30|35|40|45|50[0][1][2][3][4][5][6][7][8][9][10][11]"
    );
}

#[test]
fn stream_labels_and_paths() {
    assert_eq!(stream_label_string(0), "[0]");
    assert_eq!(stream_label_string(12), "[12]");
    assert_eq!(segment_path_string("out", 0), "out/0.ogg");
    assert_eq!(segment_path_string("/tmp/segments dir", 31), "/tmp/segments dir/31.ogg");
    assert_eq!(segment_path_string("", 5), "/5.ogg");
}

#[test]
fn mappings_are_two_more_than_groups() {
    assert_eq!(segment_mappings("d", 0).len(), 2);
    assert_eq!(segment_mappings("d", 1).len(), 3);
    assert_eq!(segment_mappings("d", 25).len(), 27);
    assert_eq!(
        segment_mappings("d", 1),
        vec![
            SegmentMapping { label: "[0]".to_string(), path: "d/0.ogg".to_string() },
            SegmentMapping { label: "[1]".to_string(), path: "d/1.ogg".to_string() },
            SegmentMapping { label: "[2]".to_string(), path: "d/2.ogg".to_string() },
        ]
    );
}

#[test]
fn plan_of_a_roster() {
    let plan = plan_segments(&roster(&[1, 1, 2]), 10, 20, "segments");
    assert_eq!(plan.filter, "asegment=timestamps=10|30|50[0][1][2][3]");
    assert_eq!(plan.mappings.len(), 4);
    assert_eq!(plan.mappings[0].label, "[0]");
    assert_eq!(plan.mappings[0].path, "segments/0.ogg");
    assert_eq!(plan.mappings[3].label, "[3]");
    assert_eq!(plan.mappings[3].path, "segments/3.ogg");
}

#[test]
fn plan_counts_positions_not_rows() {
    let records = roster(&[5, 5, 5, 5, 8, 8, 2]);
    let plan = plan_segments(&records, 3, 4, "x");
    assert_eq!(plan.mappings.len(), count_groups(&records) + 2);
    assert_eq!(plan.mappings.len(), 5);
    assert_eq!(plan.filter, "asegment=timestamps=3|7|11|15[0][1][2][3][4]");
}

#[test]
fn plan_of_an_empty_roster() {
    let plan = plan_segments(&roster(&[]), 42, 1, "x");
    assert_eq!(plan.filter, "asegment=timestamps=42[0][1]");
    assert_eq!(plan.mappings.len(), 2);
}

#[test]
fn check_segments_tells_what_fits() {
    assert!(check_segments(&roster(&[1, 2, 3]), 10, 20));
    assert!(check_segments(&roster(&[]), usize::MAX, usize::MAX));
    assert!(check_segments(&roster(&[1]), 0, usize::MAX));
    assert!(!check_segments(&roster(&[1]), 1, usize::MAX));
    assert!(!check_segments(&roster(&[1, 2]), 0, usize::MAX));
    assert!(check_segments(&roster(&[1, 2]), 1, usize::MAX / 2));
    assert!(!check_segments(&roster(&[1, 2]), 2, usize::MAX / 2));
}

#[test]
fn arguments_of_a_plan() {
    let plan = plan_segments(&roster(&[1]), 10, 20, "out");
    let arguments = ffmpeg_arguments(&plan, "music.ogg");
    assert_eq!(
        arguments,
        vec![
            "-hide_banner",
            "-i",
            "music.ogg",
            "-filter_complex",
            "asegment=timestamps=10|30[0][1][2]",
            "-map",
            "[0]",
            "out/0.ogg",
            "-map",
            "[1]",
            "out/1.ogg",
            "-map",
            "[2]",
            "out/2.ogg",
        ]
    );
}

#[test]
fn arguments_of_a_plan_without_mappings() {
    let plan = SegmentPlan { filter: "anull".to_string(), mappings: Vec::new() };
    assert_eq!(
        ffmpeg_arguments(&plan, "m"),
        vec!["-hide_banner", "-i", "m", "-filter_complex", "anull"]
    );
}
