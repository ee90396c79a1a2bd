use data_extractor::document::build_output;
use data_extractor::groups::group_records;
use data_extractor::groups::profile_index;
use data_extractor::listing::compare_groups;
use data_extractor::listing::output_groups;
use data_extractor::listing::sort_key;
use data_extractor::listing::SortKey;
use data_extractor::model::CsvRecord;
use data_extractor::model::Location;
use data_extractor::model::Output;
use data_extractor::model::OutputGroup;
use data_extractor::model::OutputGroupTime;
use data_extractor::model::OutputTime;
use data_extractor::model::Technique;
use data_extractor::profiles::distinct_profiles;
use data_extractor::schedule::check_schedule;
use data_extractor::schedule::checked_group_time;
use data_extractor::schedule::group_time;
use data_extractor::schedule::output_time;
use data_extractor::schedule::OutputError;
use data_extractor::segments::count_groups;
use std::cmp::Ordering;

fn row(position: usize, group: &str, first: &str, profile: &str) -> CsvRecord {
    CsvRecord {
        group_position: position,
        group_name: group.to_string(),
        group_location: Location::OnSite,
        group_link: format!("https://drive.example/{}", position),
        first_name: first.to_string(),
        last_name: "Doe".to_string(),
        discord_name: format!("{}#0001", first),
        profile: profile.to_string(),
        level: 2,
        preferred_techniques: vec![Technique::Free],
        known_techniques: vec![Technique::Rostrum, Technique::StopMotion],
    }
}

fn alpha_beta() -> Vec<CsvRecord> {
    vec![
        row(1, "Alpha", "Ann", "School B"),
        row(1, "Alpha", "Bob", "School A"),
        row(2, "Beta", "Cid", "School B"),
    ]
}

fn scattered() -> Vec<CsvRecord> {
    vec![
        row(3, "Zulu", "Ann", "mines"),
        row(1, "Mike", "Bob", "Gobelins"),
        row(3, "Zulu (late name)", "Cid", "atelier"),
        row(2, "Alpha", "Dan", "Gobelins"),
        row(7, "Mike", "Eve", "mines"),
        row(1, "Mike", "Fay", "École"),
    ]
}

fn names(out: &Output) -> Vec<String> {
    out.groups.iter().map(|g| g.name.clone()).collect()
}

fn positions(out: &Output) -> Vec<usize> {
    out.groups.iter().map(|g| g.position).collect()
}

#[test]
fn two_groups_without_time_are_listed_by_name() {
    let out = build_output(&alpha_beta(), 10, 20, 2024, false, false, None).unwrap();
    assert_eq!(out.groups.len(), 2);
    assert_eq!(names(&out), vec!["Alpha", "Beta"]);
    assert_eq!(out.groups[0].members.len(), 2);
    assert_eq!(out.groups[1].members.len(), 1);
    assert_eq!(out.groups[0].time_interval, None);
    assert_eq!(out.groups[1].time_interval, None);
    assert_eq!(out.time, None);
    assert_eq!(out.year, 2024);
    assert!(!out.with_music);
}

#[test]
fn two_groups_with_time_have_their_windows() {
    let music_duration = "125.6".parse::<f32>().unwrap().round() as usize;
    let out = build_output(&alpha_beta(), 10, 20, 2024, true, true, Some(music_duration)).unwrap();
    assert_eq!(
        out.time,
        Some(OutputTime { intro_duration: 10, group_interval_duration: 20, music_duration: 126 })
    );
    assert_eq!(out.groups.len(), 2);
    assert_eq!(
        out.groups[0].time_interval,
        Some(OutputGroupTime { position: 1, start: 10, end: 30 })
    );
    assert_eq!(
        out.groups[1].time_interval,
        Some(OutputGroupTime { position: 2, start: 30, end: 50 })
    );
    assert!(out.with_music);
}

#[test]
fn time_without_music_duration_is_refused() {
    let made = build_output(&alpha_beta(), 10, 20, 2024, true, false, None);
    assert_eq!(made, Err(OutputError::MissingMusicInfo));
}

#[test]
fn music_duration_is_ignored_without_time() {
    let out = build_output(&alpha_beta(), 10, 20, 2024, false, true, Some(126)).unwrap();
    assert_eq!(out.time, None);
    assert!(out.with_music);
}

#[test]
fn whole_document_of_a_small_roster() {
    let out = build_output(&alpha_beta(), 10, 20, 2031, true, false, Some(90)).unwrap();
    let member = |id: usize, first: &str, profile: usize| data_extractor::model::Member {
        id,
        name: format!("{} Doe", first),
        discord_name: format!("{}#0001", first),
        profile,
        level: 2,
        preferred_techniques: vec![Technique::Free],
        known_techniques: vec![Technique::Rostrum, Technique::StopMotion],
    };
    let expected = Output {
        groups: vec![
            OutputGroup {
                position: 1,
                name: "Alpha".to_string(),
                location: Location::OnSite,
                link: "https://drive.example/1".to_string(),
                time_interval: Some(OutputGroupTime { position: 1, start: 10, end: 30 }),
                members: vec![member(0, "Ann", 1), member(1, "Bob", 0)],
            },
            OutputGroup {
                position: 2,
                name: "Beta".to_string(),
                location: Location::OnSite,
                link: "https://drive.example/2".to_string(),
                time_interval: Some(OutputGroupTime { position: 2, start: 30, end: 50 }),
                members: vec![member(2, "Cid", 1)],
            },
        ],
        profiles: vec!["School A".to_string(), "School B".to_string()],
        time: Some(OutputTime {
            intro_duration: 10,
            group_interval_duration: 20,
            music_duration: 90,
        }),
        with_music: false,
        year: 2031,
    };
    assert_eq!(out, expected);
}

#[test]
fn empty_roster_gives_empty_document() {
    let out = build_output(&Vec::new(), 5, 7, 1999, true, false, Some(3)).unwrap();
    assert!(out.groups.is_empty());
    assert!(out.profiles.is_empty());
    assert_eq!(
        out.time,
        Some(OutputTime { intro_duration: 5, group_interval_duration: 7, music_duration: 3 })
    );
}

#[test]
fn profiles_are_distinct_and_in_byte_order() {
    let profiles = distinct_profiles(&scattered());
    assert_eq!(profiles, vec!["Gobelins", "atelier", "mines", "École"]);
}

#[test]
fn profiles_of_equal_rows_occur_once() {
    let records = vec![row(1, "A", "x", "same"), row(2, "B", "y", "same"), row(3, "C", "z", "same")];
    assert_eq!(distinct_profiles(&records), vec!["same"]);
}

#[test]
fn profile_index_finds_the_first_place() {
    let profiles = vec!["a".to_string(), "b".to_string(), "c".to_string(), "b".to_string()];
    assert_eq!(profile_index(&profiles, &"a".to_string()), Some(0));
    assert_eq!(profile_index(&profiles, &"b".to_string()), Some(1));
    assert_eq!(profile_index(&profiles, &"c".to_string()), Some(2));
    assert_eq!(profile_index(&profiles, &"d".to_string()), None);
    assert_eq!(profile_index(&Vec::new(), &"a".to_string()), None);
}

#[test]
fn profile_indices_cover_the_profile_list() {
    let records = scattered();
    let out = build_output(&records, 0, 1, 2024, false, false, None).unwrap();
    let mut used = vec![false; out.profiles.len()];
    let mut members = 0;
    for group in &out.groups {
        for member in &group.members {
            assert_eq!(out.profiles[member.profile], records[member.id].profile);
            used[member.profile] = true;
            members += 1;
        }
    }
    assert_eq!(members, records.len());
    assert!(used.iter().all(|u| *u));
    for pair in out.profiles.windows(2) {
        assert!(pair[0] < pair[1]);
    }
}

#[test]
fn groups_take_their_fields_from_their_first_row() {
    let mut records = scattered();
    records[0].group_location = Location::Remote;
    let profiles = distinct_profiles(&records);
    let groups = group_records(&records, &profiles);
    assert_eq!(groups.keys().copied().collect::<Vec<usize>>(), vec![1, 2, 3, 7]);
    let third = &groups[&3];
    assert_eq!(third.name, "Zulu");
    assert_eq!(third.location, Location::Remote);
    assert_eq!(third.link, "https://drive.example/3");
    assert_eq!(third.members.iter().map(|m| m.id).collect::<Vec<usize>>(), vec![0, 2]);
    assert_eq!(third.members[1].name, "Cid Doe");
    assert_eq!(third.members[1].discord_name, "Cid#0001");
    let first = &groups[&1];
    assert_eq!(first.members.iter().map(|m| m.id).collect::<Vec<usize>>(), vec![1, 5]);
    assert_eq!(first.members.iter().map(|m| m.profile).collect::<Vec<usize>>(), vec![0, 3]);
}

#[test]
fn without_time_groups_follow_their_names() {
    let out = build_output(&scattered(), 10, 20, 2024, false, false, None).unwrap();
    assert_eq!(names(&out), vec!["Alpha", "Mike", "Mike", "Zulu"]);
    assert_eq!(positions(&out), vec![2, 1, 7, 3]);
}

#[test]
fn with_time_groups_follow_their_positions() {
    let out = build_output(&scattered(), 10, 20, 2024, true, false, Some(1)).unwrap();
    assert_eq!(positions(&out), vec![1, 2, 3, 7]);
    assert_eq!(names(&out), vec!["Mike", "Alpha", "Zulu", "Mike"]);
    for group in &out.groups {
        let time = group.time_interval.unwrap();
        assert_eq!(time.position, group.position);
        assert_eq!(time.end - time.start, 20);
        assert_eq!(time.start, (group.position - 1) * 20 + 10);
    }
}

#[test]
fn names_are_ordered_by_their_bytes() {
    let records = vec![
        row(1, "alpha", "a", "p"),
        row(2, "Zeta", "b", "p"),
        row(3, "Émile", "c", "p"),
        row(4, "zeta", "d", "p"),
        row(5, "Zet", "e", "p"),
    ];
    let out = build_output(&records, 0, 0, 2024, false, false, None).unwrap();
    assert_eq!(names(&out), vec!["Zet", "Zeta", "alpha", "zeta", "Émile"]);
}

#[test]
fn group_count_is_the_count_of_positions() {
    let records = scattered();
    let by_name = build_output(&records, 1, 1, 2024, false, false, None).unwrap();
    let by_position = build_output(&records, 1, 1, 2024, true, false, Some(0)).unwrap();
    assert_eq!(by_name.groups.len(), 4);
    assert_eq!(by_position.groups.len(), 4);
    assert_eq!(by_name.groups.len(), count_groups(&records));
}

#[test]
fn position_zero_is_listed_without_time() {
    let records = vec![row(0, "Nil", "a", "p")];
    let out = build_output(&records, 10, 20, 2024, false, false, None).unwrap();
    assert_eq!(positions(&out), vec![0]);
    assert!(!check_schedule(&records, 10, 20));
}

#[test]
fn output_groups_lists_what_build_output_lists() {
    let records = scattered();
    let profiles = distinct_profiles(&records);
    let groups = output_groups(&records, &profiles, 3, 4, true);
    let out = build_output(&records, 3, 4, 2024, true, false, Some(9)).unwrap();
    assert_eq!(groups, out.groups);
}

#[test]
fn group_time_follows_the_formula() {
    assert_eq!(group_time(1, 10, 20), OutputGroupTime { position: 1, start: 10, end: 30 });
    assert_eq!(group_time(4, 7, 0), OutputGroupTime { position: 4, start: 7, end: 7 });
    assert_eq!(group_time(5, 0, 60), OutputGroupTime { position: 5, start: 240, end: 300 });
}

#[test]
fn checked_group_time_tells_what_fits() {
    assert_eq!(
        checked_group_time(3, 10, 20),
        Some(OutputGroupTime { position: 3, start: 50, end: 70 })
    );
    assert_eq!(checked_group_time(0, 10, 20), None);
    assert_eq!(checked_group_time(2, 0, usize::MAX), None);
    assert_eq!(checked_group_time(1, 1, usize::MAX), None);
    assert_eq!(
        checked_group_time(1, 0, usize::MAX),
        Some(OutputGroupTime { position: 1, start: 0, end: usize::MAX })
    );
}

#[test]
fn check_schedule_looks_at_every_row() {
    assert!(check_schedule(&scattered(), 10, 20));
    assert!(check_schedule(&Vec::new(), usize::MAX, usize::MAX));
    assert!(!check_schedule(&scattered(), 10, usize::MAX / 2));
    assert!(check_schedule(&alpha_beta(), 1, usize::MAX / 2));
    assert!(!check_schedule(&alpha_beta(), 2, usize::MAX / 2));
}

#[test]
fn output_time_needs_the_music_length_only_with_time() {
    assert_eq!(output_time(false, 1, 2, None), Ok(None));
    assert_eq!(output_time(false, 1, 2, Some(3)), Ok(None));
    assert_eq!(
        output_time(true, 1, 2, Some(3)),
        Ok(Some(OutputTime { intro_duration: 1, group_interval_duration: 2, music_duration: 3 }))
    );
    assert_eq!(output_time(true, 1, 2, None), Err(OutputError::MissingMusicInfo));
}

#[test]
fn sort_key_follows_the_time_flag() {
    assert_eq!(sort_key(true), SortKey::ByPosition);
    assert_eq!(sort_key(false), SortKey::ByName);
}

#[test]
fn compare_groups_compares_by_the_key_alone() {
    let group = |position: usize, name: &str| OutputGroup {
        position,
        name: name.to_string(),
        location: Location::Remote,
        link: String::new(),
        time_interval: None,
        members: Vec::new(),
    };
    let a = group(2, "Alpha");
    let b = group(1, "Beta");
    let c = group(2, "Beta");
    assert_eq!(compare_groups(SortKey::ByName, &a, &b), Ordering::Less);
    assert_eq!(compare_groups(SortKey::ByName, &b, &a), Ordering::Greater);
    assert_eq!(compare_groups(SortKey::ByName, &b, &c), Ordering::Equal);
    assert_eq!(compare_groups(SortKey::ByPosition, &a, &b), Ordering::Greater);
    assert_eq!(compare_groups(SortKey::ByPosition, &b, &a), Ordering::Less);
    assert_eq!(compare_groups(SortKey::ByPosition, &a, &c), Ordering::Equal);
}

#[test]
fn codes_follow_the_declaration_order() {
    assert_eq!(Location::OnSite.code(), 0);
    assert_eq!(Location::Remote.code(), 1);
    assert_eq!(Technique::DigitalTwoDimensional.code(), 0);
    assert_eq!(Technique::TraditionalTwoDimensional.code(), 1);
    assert_eq!(Technique::ThreeDimensional.code(), 2);
    assert_eq!(Technique::Rostrum.code(), 3);
    assert_eq!(Technique::StopMotion.code(), 4);
    assert_eq!(Technique::Free.code(), 5);
}
