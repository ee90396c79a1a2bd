//! The roster's data: rows as they are loaded, the groups and members made
//! from them, and the document that is emitted.

use vstd::prelude::*;

verus! {

/// Where a group takes part.
#[derive(Clone, Copy, Debug, PartialEq, Eq, Structural)]
pub enum Location {
    OnSite,
    Remote,
}

/// An animation method that a participant names.
#[derive(Clone, Copy, Debug, PartialEq, Eq, Structural)]
pub enum Technique {
    DigitalTwoDimensional,
    TraditionalTwoDimensional,
    ThreeDimensional,
    Rostrum,
    StopMotion,
    Free,
}

/// One row of the roster.
#[derive(Clone, Debug, PartialEq, Eq)]
pub struct CsvRecord {
    pub group_position: usize,
    pub group_name: String,
    pub group_location: Location,
    pub group_link: String,
    pub first_name: String,
    pub last_name: String,
    pub discord_name: String,
    pub profile: String,
    pub level: usize,
    pub preferred_techniques: Vec<Technique>,
    pub known_techniques: Vec<Technique>,
}

/// A row as a mathematical value.
pub struct RecordView {
    pub group_position: int,
    pub group_name: Seq<char>,
    pub group_location: Location,
    pub group_link: Seq<char>,
    pub first_name: Seq<char>,
    pub last_name: Seq<char>,
    pub discord_name: Seq<char>,
    pub profile: Seq<char>,
    pub level: int,
    pub preferred_techniques: Seq<Technique>,
    pub known_techniques: Seq<Technique>,
}

impl View for CsvRecord {
    type V = RecordView;

    open spec fn view(&self) -> RecordView {
        RecordView {
            group_position: self.group_position as int,
            group_name: self.group_name@,
            group_location: self.group_location,
            group_link: self.group_link@,
            first_name: self.first_name@,
            last_name: self.last_name@,
            discord_name: self.discord_name@,
            profile: self.profile@,
            level: self.level as int,
            preferred_techniques: self.preferred_techniques@,
            known_techniques: self.known_techniques@,
        }
    }
}

/// The rows of a roster as mathematical values, in row order.
pub open spec fn rows(records: Seq<CsvRecord>) -> Seq<RecordView> {
    records.map_values(|r: CsvRecord| r@)
}

/// A participant as listed in a group.
#[derive(Clone, Debug, PartialEq, Eq)]
pub struct Member {
    pub id: usize,
    pub name: String,
    pub discord_name: String,
    pub profile: usize,
    pub level: usize,
    pub preferred_techniques: Vec<Technique>,
    pub known_techniques: Vec<Technique>,
}

/// A member as a mathematical value.
pub struct MemberView {
    pub id: int,
    pub name: Seq<char>,
    pub discord_name: Seq<char>,
    pub profile: int,
    pub level: int,
    pub preferred_techniques: Seq<Technique>,
    pub known_techniques: Seq<Technique>,
}

impl View for Member {
    type V = MemberView;

    open spec fn view(&self) -> MemberView {
        MemberView {
            id: self.id as int,
            name: self.name@,
            discord_name: self.discord_name@,
            profile: self.profile as int,
            level: self.level as int,
            preferred_techniques: self.preferred_techniques@,
            known_techniques: self.known_techniques@,
        }
    }
}

/// The members of a list as mathematical values.
pub open spec fn member_views(members: Seq<Member>) -> Seq<MemberView> {
    members.map_values(|m: Member| m@)
}

/// A group while the roster is being read: what its rows share, and its
/// members in row order. Its position is the key under which it is kept.
#[derive(Clone, Debug, PartialEq, Eq)]
pub struct Group {
    pub name: String,
    pub location: Location,
    pub link: String,
    pub members: Vec<Member>,
}

/// A group as a mathematical value.
pub struct GroupView {
    pub name: Seq<char>,
    pub location: Location,
    pub link: Seq<char>,
    pub members: Seq<MemberView>,
}

impl View for Group {
    type V = GroupView;

    open spec fn view(&self) -> GroupView {
        GroupView {
            name: self.name@,
            location: self.location,
            link: self.link@,
            members: member_views(self.members@),
        }
    }
}

/// The time window of a group within the music.
#[derive(Clone, Copy, Debug, PartialEq, Eq, Structural)]
pub struct OutputGroupTime {
    pub position: usize,
    pub start: usize,
    pub end: usize,
}

/// A time window as a mathematical value.
pub struct OutputGroupTimeView {
    pub position: int,
    pub start: int,
    pub end: int,
}

impl View for OutputGroupTime {
    type V = OutputGroupTimeView;

    open spec fn view(&self) -> OutputGroupTimeView {
        OutputGroupTimeView {
            position: self.position as int,
            start: self.start as int,
            end: self.end as int,
        }
    }
}

/// A group as it is emitted.
#[derive(Clone, Debug, PartialEq, Eq)]
pub struct OutputGroup {
    pub position: usize,
    pub name: String,
    pub location: Location,
    pub link: String,
    pub time_interval: Option<OutputGroupTime>,
    pub members: Vec<Member>,
}

/// An emitted group as a mathematical value.
pub struct OutputGroupView {
    pub position: int,
    pub name: Seq<char>,
    pub location: Location,
    pub link: Seq<char>,
    pub time_interval: Option<OutputGroupTimeView>,
    pub members: Seq<MemberView>,
}

impl View for OutputGroup {
    type V = OutputGroupView;

    open spec fn view(&self) -> OutputGroupView {
        OutputGroupView {
            position: self.position as int,
            name: self.name@,
            location: self.location,
            link: self.link@,
            time_interval: match self.time_interval {
                Some(time) => Some(time@),
                None => None,
            },
            members: member_views(self.members@),
        }
    }
}

/// The groups of a list as mathematical values.
pub open spec fn group_views(groups: Seq<OutputGroup>) -> Seq<OutputGroupView> {
    groups.map_values(|g: OutputGroup| g@)
}

/// The strings of a list as character sequences.
pub open spec fn texts(strings: Seq<String>) -> Seq<Seq<char>> {
    strings.map_values(|s: String| s@)
}

/// The timing constants of a schedule and the length of its music.
#[derive(Clone, Copy, Debug, PartialEq, Eq, Structural)]
pub struct OutputTime {
    pub intro_duration: usize,
    pub group_interval_duration: usize,
    pub music_duration: usize,
}

/// The emitted document.
#[derive(Clone, Debug, PartialEq, Eq)]
pub struct Output {
    pub groups: Vec<OutputGroup>,
    pub profiles: Vec<String>,
    pub time: Option<OutputTime>,
    pub with_music: bool,
    pub year: usize,
}

/// The emitted document as a mathematical value.
pub struct OutputView {
    pub groups: Seq<OutputGroupView>,
    pub profiles: Seq<Seq<char>>,
    pub time: Option<OutputTime>,
    pub with_music: bool,
    pub year: int,
}

impl View for Output {
    type V = OutputView;

    open spec fn view(&self) -> OutputView {
        OutputView {
            groups: group_views(self.groups@),
            profiles: texts(self.profiles@),
            time: self.time,
            with_music: self.with_music,
            year: self.year as int,
        }
    }
}

impl Location {
    /// The integer that stands for the location in the emitted document.
    pub open spec fn spec_code(self) -> u8 {
        match self {
            Location::OnSite => 0,
            Location::Remote => 1,
        }
    }

    /// The integer that stands for the location in the emitted document.
    pub fn code(self) -> (c: u8)
        ensures
            c == self.spec_code(),
    {
        match self {
            Location::OnSite => 0,
            Location::Remote => 1,
        }
    }
}

impl Technique {
    /// The integer that stands for the technique in the emitted document.
    pub open spec fn spec_code(self) -> u8 {
        match self {
            Technique::DigitalTwoDimensional => 0,
            Technique::TraditionalTwoDimensional => 1,
            Technique::ThreeDimensional => 2,
            Technique::Rostrum => 3,
            Technique::StopMotion => 4,
            Technique::Free => 5,
        }
    }

    /// The integer that stands for the technique in the emitted document.
    pub fn code(self) -> (c: u8)
        ensures
            c == self.spec_code(),
    {
        match self {
            Technique::DigitalTwoDimensional => 0,
            Technique::TraditionalTwoDimensional => 1,
            Technique::ThreeDimensional => 2,
            Technique::Rostrum => 3,
            Technique::StopMotion => 4,
            Technique::Free => 5,
        }
    }
}

} // verus!
