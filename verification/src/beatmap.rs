//! Beatmaps, read and converted by rosu-pp.

use crate::binary64::Binary64;
use crate::slides::{
    all_moderate, fits, greatest_parts, is_moderate, least_parts, moderate_parts, parts, slide_fits,
    slower_sliders_fit_less, the_greatest_and_the_least_bound_all, Slide, DEFAULT_BEAT_PARTS, PARTS,
    PARTS_LIMIT,
};
use rosu_pp::model::beatmap::Beatmap;
use rosu_pp::model::hit_object::HitObjectKind;
use rosu_pp::model::mode::{ConvertError, GameMode};
use vstd::prelude::*;
use vstd::string::StringExecFns;

verus! {

#[verifier::external_type_specification]
#[verifier::external_body]
pub struct ExBeatmap(Beatmap);

#[verifier::external_type_specification]
#[verifier::external_body]
pub struct ExMapMods(rosu_pp::GameMods);

/// A game mode.
#[derive(Clone, Copy, Debug, PartialEq, Eq, Structural)]
pub enum Mode {
    Osu,
    Taiko,
    Catch,
    Mania,
}

impl Mode {
    pub open spec fn number(self) -> int {
        match self {
            Mode::Osu => 0,
            Mode::Taiko => 1,
            Mode::Catch => 2,
            Mode::Mania => 3,
        }
    }

    pub open spec fn text(self) -> Seq<char> {
        match self {
            Mode::Osu => "Osu"@,
            Mode::Taiko => "Taiko"@,
            Mode::Catch => "Catch"@,
            Mode::Mania => "Mania"@,
        }
    }

    /// The mode with this number.
    pub fn from_number(number: u8) -> (mode: Option<Mode>)
        ensures
            mode is Some <==> number < 4,
            mode matches Some(mode) ==> mode.number() == number,
    {
        match number {
            0 => Some(Mode::Osu),
            1 => Some(Mode::Taiko),
            2 => Some(Mode::Catch),
            3 => Some(Mode::Mania),
            _ => None,
        }
    }

    /// The number of the mode.
    pub fn to_number(self) -> (number: u8)
        ensures
            number == self.number(),
    {
        match self {
            Mode::Osu => 0,
            Mode::Taiko => 1,
            Mode::Catch => 2,
            Mode::Mania => 3,
        }
    }

    /// The name of the mode.
    pub fn name(self) -> (name: &'static str)
        ensures
            name@ == self.text(),
    {
        match self {
            Mode::Osu => "Osu",
            Mode::Taiko => "Taiko",
            Mode::Catch => "Catch",
            Mode::Mania => "Mania",
        }
    }
}

/// The mode of a map, by number.
pub uninterp spec fn map_mode(map: Beatmap) -> int;

/// Whether a map came out of a conversion.
pub uninterp spec fn map_converted(map: Beatmap) -> bool;

/// Whether a map looks like one not made for play.
pub uninterp spec fn map_suspicious(map: Beatmap) -> bool;

/// What reading a map out of bytes gives: the map, or the text of an error.
pub uninterp spec fn map_read(bytes: Seq<u8>) -> Result<Beatmap, Seq<char>>;

/// What a map of the first mode becomes in the mode with the given number.
pub uninterp spec fn map_in_mode(map: Beatmap, mode: int, mods: rosu_pp::GameMods) -> Beatmap;

/// The mods with these bits set.
pub uninterp spec fn mods_of_bits(bits: u32) -> rosu_pp::GameMods;

/// The mods of a score, as a conversion takes them.
pub uninterp spec fn mods_of_score(mods: rosu_mods::GameMods) -> rosu_pp::GameMods;

/// What each hit object of a map slides along: for a slider, the bits of its start time,
/// those of its length if it has one, and how often it repeats.
pub uninterp spec fn map_slides(map: Beatmap) -> Seq<Option<(u64, Option<u64>, usize)>>;

/// The bits of the beat lengths at a map's timing points.
pub uninterp spec fn map_beat_lengths(map: Beatmap) -> Seq<u64>;

/// The bits of the slider velocities at a map's difficulty points.
pub uninterp spec fn map_velocities(map: Beatmap) -> Seq<u64>;

/// The bits of a map's slider multiplier.
pub uninterp spec fn map_slider_multiplier(map: Beatmap) -> u64;

/// Tells the modes of `rosu_map`'s `GameMode` apart, in the field `Beatmap::mode`.
#[verifier::external_body]
fn mode_of(map: &Beatmap) -> (mode: Mode)
    ensures
        mode.number() == map_mode(*map),
{
    match map.mode {
        GameMode::Osu => Mode::Osu,
        GameMode::Taiko => Mode::Taiko,
        GameMode::Catch => Mode::Catch,
        GameMode::Mania => Mode::Mania,
    }
}

/// A result of reading, with the view of the text of its error.
pub open spec fn reading(result: Result<Beatmap, String>) -> Result<Beatmap, Seq<char>> {
    match result {
        Ok(map) => Ok(map),
        Err(text) => Err(text@),
    }
}

/// Calls `Beatmap::from_bytes`. What it returns depends on the bytes alone; a map that
/// was read is not a converted one.
#[verifier::external_body]
fn read_map(bytes: &[u8]) -> (result: Result<Beatmap, String>)
    ensures
        reading(result) == map_read(bytes@),
        result is Ok ==> !map_converted(result->Ok_0),
{
    match Beatmap::from_bytes(bytes) {
        Ok(map) => Ok(map),
        Err(error) => Err(error.to_string()),
    }
}

/// Reads the length of `Beatmap::hit_objects`.
#[verifier::external_body]
fn object_count(map: &Beatmap) -> (count: usize)
    ensures
        count == map_slides(*map).len(),
{
    map.hit_objects.len()
}

/// Reads an entry of `Beatmap::hit_objects`: of a slider its start time, length and repeats.
#[verifier::external_body]
fn slide_at(map: &Beatmap, index: usize) -> (slide: Option<(u64, Option<u64>, usize)>)
    requires
        index < map_slides(*map).len(),
    ensures
        slide == map_slides(*map)[index as int],
{
    let object = &map.hit_objects[index];
    match &object.kind {
        HitObjectKind::Slider(slider) => {
            let length = match slider.expected_dist {
                Some(length) => Some(length.to_bits()),
                None => None,
            };
            Some((object.start_time.to_bits(), length, slider.repeats))
        },
        HitObjectKind::Circle | HitObjectKind::Spinner(_) | HitObjectKind::Hold(_) => None,
    }
}

/// Reads the length of `Beatmap::timing_points`.
#[verifier::external_body]
fn beat_length_count(map: &Beatmap) -> (count: usize)
    ensures
        count == map_beat_lengths(*map).len(),
{
    map.timing_points.len()
}

/// Reads the beat length of an entry of `Beatmap::timing_points`.
#[verifier::external_body]
fn beat_length_at(map: &Beatmap, index: usize) -> (bits: u64)
    requires
        index < map_beat_lengths(*map).len(),
    ensures
        bits == map_beat_lengths(*map)[index as int],
{
    map.timing_points[index].beat_len.to_bits()
}

/// Reads the length of `Beatmap::difficulty_points`.
#[verifier::external_body]
fn velocity_count(map: &Beatmap) -> (count: usize)
    ensures
        count == map_velocities(*map).len(),
{
    map.difficulty_points.len()
}

/// Reads the slider velocity of an entry of `Beatmap::difficulty_points`.
#[verifier::external_body]
fn velocity_at(map: &Beatmap, index: usize) -> (bits: u64)
    requires
        index < map_velocities(*map).len(),
    ensures
        bits == map_velocities(*map)[index as int],
{
    map.difficulty_points[index].slider_velocity.to_bits()
}

/// Reads `Beatmap::slider_multiplier`.
#[verifier::external_body]
fn slider_multiplier(map: &Beatmap) -> (bits: u64)
    ensures
        bits == map_slider_multiplier(*map),
{
    map.slider_multiplier.to_bits()
}

/// Whether every slider of a map stays in the range of the milliseconds that a conversion to
/// mania counts, even if it ran at the map's longest beat and its least velocity.
///
/// A map without timing points has a beat a second long, and a velocity is 1 until a
/// difficulty point says otherwise.
pub open spec fn slides_fit(map: Beatmap) -> bool {
    let beat = greatest_parts(map_beat_lengths(map), DEFAULT_BEAT_PARTS as nat);
    let velocity = least_parts(map_velocities(map), PARTS as nat);
    let multiplier = Binary64 { bits: map_slider_multiplier(map) };
    &&& all_moderate(map_beat_lengths(map))
    &&& all_moderate(map_velocities(map))
    &&& is_moderate(multiplier)
    &&& velocity > 0
    &&& parts(multiplier) > 0
    &&& forall|i: int|
        0 <= i < map_slides(map).len() ==> match #[trigger] map_slides(map)[i] {
            Some(slide) => slide_fits(slide, beat, velocity, parts(multiplier)),
            None => true,
        }
}

/// The parts of the longest beat of a map, if all beats are moderate.
fn longest_beat(map: &Beatmap) -> (beat: Option<u64>)
    ensures
        beat is Some <==> all_moderate(map_beat_lengths(*map)),
        beat matches Some(beat) ==> beat < PARTS_LIMIT && beat == greatest_parts(
            map_beat_lengths(*map),
            DEFAULT_BEAT_PARTS as nat,
        ),
{
    let ghost all = map_beat_lengths(*map);
    let count: usize = beat_length_count(map);
    let mut beat: u64 = DEFAULT_BEAT_PARTS;
    let mut i: usize = 0;
    assert(all.take(0) =~= Seq::<u64>::empty());
    while i < count
        invariant
            i <= count,
            all == map_beat_lengths(*map),
            count == all.len(),
            beat < PARTS_LIMIT,
            beat == greatest_parts(all.take(i as int), DEFAULT_BEAT_PARTS as nat),
            forall|k: int| 0 <= k < i ==> is_moderate(Binary64 { bits: #[trigger] all[k] }),
        decreases count - i,
    {
        let bits: u64 = beat_length_at(map, i);
        proof {
            assert(all.take(i + 1).drop_last() =~= all.take(i as int));
            assert(all.take(i + 1).last() == bits);
        }
        match moderate_parts(Binary64::from_bits(bits)) {
            Some(count) => {
                if beat < count {
                    beat = count;
                }
            },
            None => {
                assert(!is_moderate(Binary64 { bits: all[i as int] }));
                return None;
            },
        }
        i = i + 1;
    }
    assert(all.take(i as int) =~= all);
    Some(beat)
}

/// The parts of the least velocity of a map, if all velocities are moderate.
fn least_velocity(map: &Beatmap) -> (velocity: Option<u64>)
    ensures
        velocity is Some <==> all_moderate(map_velocities(*map)),
        velocity matches Some(velocity) ==> velocity < PARTS_LIMIT && velocity == least_parts(
            map_velocities(*map),
            PARTS as nat,
        ),
{
    let ghost all = map_velocities(*map);
    let count: usize = velocity_count(map);
    let mut velocity: u64 = PARTS;
    let mut i: usize = 0;
    assert(all.take(0) =~= Seq::<u64>::empty());
    while i < count
        invariant
            i <= count,
            all == map_velocities(*map),
            count == all.len(),
            velocity < PARTS_LIMIT,
            velocity == least_parts(all.take(i as int), PARTS as nat),
            forall|k: int| 0 <= k < i ==> is_moderate(Binary64 { bits: #[trigger] all[k] }),
        decreases count - i,
    {
        let bits: u64 = velocity_at(map, i);
        proof {
            assert(all.take(i + 1).drop_last() =~= all.take(i as int));
            assert(all.take(i + 1).last() == bits);
        }
        match moderate_parts(Binary64::from_bits(bits)) {
            Some(count) => {
                if count < velocity {
                    velocity = count;
                }
            },
            None => {
                assert(!is_moderate(Binary64 { bits: all[i as int] }));
                return None;
            },
        }
        i = i + 1;
    }
    assert(all.take(i as int) =~= all);
    Some(velocity)
}

/// Whether every slider of a map stays in the range of the milliseconds that a conversion to
/// mania counts.
fn has_fitting_slides(map: &Beatmap) -> (answer: bool)
    ensures
        answer == slides_fit(*map),
{
    let beat: u64 = match longest_beat(map) {
        Some(beat) => beat,
        None => {
            return false;
        },
    };
    let velocity: u64 = match least_velocity(map) {
        Some(velocity) => velocity,
        None => {
            return false;
        },
    };
    let multiplier: u64 = match moderate_parts(Binary64::from_bits(slider_multiplier(map))) {
        Some(multiplier) => multiplier,
        None => {
            return false;
        },
    };
    if velocity == 0 || multiplier == 0 {
        return false;
    }
    let count: usize = object_count(map);
    let mut i: usize = 0;
    while i < count
        invariant
            i <= count,
            count == map_slides(*map).len(),
            beat < PARTS_LIMIT,
            0 < velocity < PARTS_LIMIT,
            0 < multiplier < PARTS_LIMIT,
            beat == greatest_parts(map_beat_lengths(*map), DEFAULT_BEAT_PARTS as nat),
            velocity == least_parts(map_velocities(*map), PARTS as nat),
            multiplier == parts(Binary64 { bits: map_slider_multiplier(*map) }),
            forall|k: int|
                0 <= k < i ==> match #[trigger] map_slides(*map)[k] {
                    Some(slide) => slide_fits(
                        slide,
                        beat as nat,
                        velocity as nat,
                        multiplier as nat,
                    ),
                    None => true,
                },
        decreases count - i,
    {
        let entry: Option<Slide> = slide_at(map, i);
        assert(entry == map_slides(*map)[i as int]);
        if let Some(slide) = entry {
            if !fits(slide, beat, velocity, multiplier) {
                return false;
            }
        }
        i = i + 1;
    }
    true
}

/// Calls `Beatmap::check_suspicion`. Whether it objects depends on the map alone.
#[verifier::external_body]
fn looks_suspicious(map: &Beatmap) -> (answer: bool)
    ensures
        answer == map_suspicious(*map),
{
    map.check_suspicion().is_err()
}

/// Reads `Beatmap::is_convert`.
#[verifier::external_body]
fn is_converted(map: &Beatmap) -> (answer: bool)
    ensures
        answer == map_converted(*map),
{
    map.is_convert
}

/// Calls `Beatmap::clone`: the same map once more.
#[verifier::external_body]
fn copy_of(map: &Beatmap) -> (copy: Beatmap)
    ensures
        copy == *map,
{
    map.clone()
}

/// Calls `rosu_pp::GameMods::from` on a number; zero gives the default, no mods. What it
/// returns depends on the number alone.
#[verifier::external_body]
fn mods_from_bits(bits: u32) -> (mods: rosu_pp::GameMods)
    ensures
        mods == mods_of_bits(bits),
{
    rosu_pp::GameMods::from(bits)
}

/// Calls `rosu_pp::GameMods::from` on the mods of a score. What it returns depends on
/// those alone.
#[verifier::external_body]
fn mods_from_score(mods: &rosu_mods::GameMods) -> (converted: rosu_pp::GameMods)
    ensures
        converted == mods_of_score(*mods),
{
    rosu_pp::GameMods::from(mods.clone())
}

/// Why rosu-pp does not convert a map.
#[derive(Clone, Copy, Debug, PartialEq, Eq, Structural)]
enum Refusal {
    AlreadyConverted,
    WrongMode,
}

/// Whether a map is one that was read.
pub open spec fn is_read(map: Beatmap) -> bool {
    exists|bytes: Seq<u8>| #[trigger] map_read(bytes) == Ok::<Beatmap, Seq<char>>(map)
}

/// Whether a map leaves its mode when it is converted to another one.
pub open spec fn leaves(map: Beatmap, mode: Mode) -> bool {
    map_mode(map) == Mode::Osu.number() && !map_converted(map) && mode != Mode::Osu
}

/// Calls `Beatmap::convert_mut`: nothing happens if the map has the mode already; else a
/// converted map is refused, then one that is not of the first mode; any other map becomes
/// a converted one of the wanted mode. What it becomes depends on the map, the mode and the
/// mods alone: the conversions draw their random numbers from a seed in the map.
///
/// A map that leaves its mode has to be one that was read: the conversions index its lists
/// and round its numbers as the reader has checked them. To become a mania map its sliders
/// have to fit, or the milliseconds of one overflow.
#[verifier::external_body]
fn convert_in_place(map: &mut Beatmap, mode: Mode, mods: &rosu_pp::GameMods) -> (result: Result<
    (),
    Refusal,
>)
    requires
        leaves(*old(map), mode) ==> is_read(*old(map)),
        leaves(*old(map), mode) && mode == Mode::Mania ==> slides_fit(*old(map)),
    ensures
        result is Ok <==> map_mode(*old(map)) == mode.number() || (!map_converted(*old(map))
            && map_mode(*old(map)) == Mode::Osu.number()),
        result is Err ==> *final(map) == *old(map) && (result->Err_0 == if map_converted(*old(map)) {
            Refusal::AlreadyConverted
        } else {
            Refusal::WrongMode
        }),
        map_mode(*old(map)) == mode.number() ==> *final(map) == *old(map),
        result is Ok && map_mode(*old(map)) != mode.number() ==> *final(map) == map_in_mode(
            *old(map),
            mode.number(),
            *mods,
        ) && map_converted(*final(map)),
        result is Ok ==> map_mode(*final(map)) == mode.number(),
{
    let outside = match mode {
        Mode::Osu => GameMode::Osu,
        Mode::Taiko => GameMode::Taiko,
        Mode::Catch => GameMode::Catch,
        Mode::Mania => GameMode::Mania,
    };
    match map.convert_mut(outside, mods) {
        Ok(()) => Ok(()),
        Err(ConvertError::AlreadyConverted) => Err(Refusal::AlreadyConverted),
        Err(ConvertError::Convert { .. }) => Err(Refusal::WrongMode),
    }
}

/// Why a map cannot be converted.
#[derive(Clone, Copy, Debug, PartialEq, Eq, Structural)]
pub enum ConvertFailure {
    AlreadyConverted,
    Convert { from: Mode, to: Mode },
}

impl ConvertFailure {
    pub open spec fn text(self) -> Seq<char> {
        match self {
            ConvertFailure::AlreadyConverted => "Cannot convert an already converted map"@,
            ConvertFailure::Convert { from, to } => "Cannot convert from "@ + from.text() + " to "@
                + to.text(),
        }
    }

    /// The failure in words.
    pub fn message(&self) -> (message: String)
        ensures
            message@ == self.text(),
    {
        match *self {
            ConvertFailure::AlreadyConverted => String::from_str(
                "Cannot convert an already converted map",
            ),
            ConvertFailure::Convert { from, to } => {
                let mut message: String = String::from_str("Cannot convert from ");
                message.append(from.name());
                message.append(" to ");
                message.append(to.name());
                message
            },
        }
    }
}

impl ConvertFailure {
    /// The failure as code would write it.
    pub open spec fn code(self) -> Seq<char> {
        match self {
            ConvertFailure::AlreadyConverted => "AlreadyConverted"@,
            ConvertFailure::Convert { from, to } => "Convert { from: "@ + from.text() + ", to: "@
                + to.text() + " }"@,
        }
    }

    /// What a calculator says when a map cannot be brought into mania.
    pub fn mania_message(&self) -> (message: String)
        ensures
            message@ == "converting the map to mania failed: "@ + self.code(),
    {
        let mut message: String = String::from_str("converting the map to mania failed: ");
        match *self {
            ConvertFailure::AlreadyConverted => {
                message.append("AlreadyConverted");
            },
            ConvertFailure::Convert { from, to } => {
                message.append("Convert { from: ");
                message.append(from.name());
                message.append(", to: ");
                message.append(to.name());
                message.append(" }");
                assert(message@ =~= "converting the map to mania failed: "@ + self.code());
            },
        }
        message
    }
}

/// The failure of a conversion, or none: the map has the mode already, or is an
/// unconverted one of the first mode.
pub open spec fn failure_of(map: Beatmap, mode: Mode, failure: Option<ConvertFailure>) -> bool {
    if map_mode(map) == mode.number() {
        failure is None
    } else if map_converted(map) {
        failure == Some(ConvertFailure::AlreadyConverted)
    } else if map_mode(map) != Mode::Osu.number() {
        failure matches Some(ConvertFailure::Convert { from, to }) && from.number() == map_mode(map)
            && to == mode
    } else {
        failure is None
    }
}

/// What a map is in a mode that it can be converted to.
pub open spec fn map_as(map: Beatmap, mode: Mode, mods: rosu_pp::GameMods) -> Beatmap {
    if map_mode(map) == mode.number() {
        map
    } else {
        map_in_mode(map, mode.number(), mods)
    }
}

/// The failure that a result tells of.
pub open spec fn failure_in<T>(result: Result<T, ConvertFailure>) -> Option<ConvertFailure> {
    match result {
        Ok(_) => None,
        Err(failure) => Some(failure),
    }
}

/// Converts a map.
fn convert_to(map: &mut Beatmap, mode: Mode, mods: &rosu_pp::GameMods) -> (result: Result<
    (),
    ConvertFailure,
>)
    requires
        leaves(*old(map), mode) ==> is_read(*old(map)),
        leaves(*old(map), mode) && mode == Mode::Mania ==> slides_fit(*old(map)),
    ensures
        failure_of(*old(map), mode, failure_in(result)),
        *final(map) == if result is Ok {
            map_as(*old(map), mode, *mods)
        } else {
            *old(map)
        },
        result is Ok ==> map_mode(*final(map)) == mode.number(),
        result is Ok ==> map_converted(*final(map)) == (map_converted(*old(map)) || map_mode(
            *old(map),
        ) != mode.number()),
{
    let from: Mode = mode_of(map);
    match convert_in_place(map, mode, mods) {
        Ok(()) => Ok(()),
        Err(Refusal::AlreadyConverted) => Err(ConvertFailure::AlreadyConverted),
        Err(Refusal::WrongMode) => Err(ConvertFailure::Convert { from, to: mode }),
    }
}

/// Why a call on a beatmap fails.
#[derive(Clone, Copy, Debug, PartialEq, Eq, Structural)]
pub enum MapFailure {
    /// There is no mode with this number.
    InvalidMode,
    Convert(ConvertFailure),
}

impl MapFailure {
    pub open spec fn text(self) -> Seq<char> {
        match self {
            MapFailure::InvalidMode => "invalid game mode"@,
            MapFailure::Convert(failure) => failure.text(),
        }
    }

    /// The failure in words.
    pub fn message(&self) -> (message: String)
        ensures
            message@ == self.text(),
    {
        match self {
            MapFailure::InvalidMode => String::from_str("invalid game mode"),
            MapFailure::Convert(failure) => failure.message(),
        }
    }
}

/// Whether a map leaves its mode when it is converted to mania.
fn leaves_for_mania(map: &Beatmap) -> (answer: bool)
    ensures
        answer == leaves(*map, Mode::Mania),
{
    match mode_of(map) {
        Mode::Osu => !is_converted(map),
        Mode::Taiko | Mode::Catch | Mode::Mania => false,
    }
}

/// Whether `result` and `after` are what a conversion of `before` to the mode with the given
/// number gives, without mods.
pub open spec fn converts(
    before: Beatmap,
    mode: u8,
    result: Result<(), MapFailure>,
    after: Beatmap,
) -> bool {
    &&& mode >= 4 ==> result == Err::<(), MapFailure>(MapFailure::InvalidMode) && after == before
    &&& mode < 4 ==> exists|wanted: Mode| #[trigger]
        wanted.number() == mode && failure_of(
            before,
            wanted,
            match result {
                Ok(_) => None,
                Err(MapFailure::Convert(failure)) => Some(failure),
                Err(MapFailure::InvalidMode) => None,
            },
        ) && result != Err::<(), MapFailure>(MapFailure::InvalidMode) && after == if result is Ok {
            map_as(before, wanted, mods_of_bits(0))
        } else {
            before
        }
    &&& result is Ok ==> map_mode(after) == mode
    &&& result is Ok ==> map_converted(after) == (map_converted(before) || map_mode(before) != mode)
}

/// A beatmap.
pub struct JsBeatmap {
    inner: Beatmap,
}

impl View for JsBeatmap {
    type V = Beatmap;

    closed spec fn view(&self) -> Beatmap {
        self.inner
    }
}

impl JsBeatmap {
    /// A map that a conversion can change is one that was read.
    #[verifier::type_invariant]
    spec fn inv(self) -> bool {
        map_mode(self.inner) == Mode::Osu.number() && !map_converted(self.inner) ==> is_read(
            self.inner,
        )
    }

    /// Reads a beatmap, or says why it cannot be read.
    pub fn new(bytes: &[u8]) -> (result: Result<JsBeatmap, String>)
        ensures
            result is Ok <==> map_read(bytes@) is Ok,
            result matches Ok(map) ==> map_read(bytes@) == Ok::<Beatmap, Seq<char>>(map@)
                && !map_converted(map@),
            result matches Err(text) ==> map_read(bytes@) == Err::<Beatmap, Seq<char>>(text@),
    {
        match read_map(bytes) {
            Ok(inner) => Ok(JsBeatmap { inner }),
            Err(text) => Err(text),
        }
    }

    /// The map as rosu-pp has it.
    pub fn inner(&self) -> (map: &Beatmap)
        ensures
            *map == self@,
    {
        &self.inner
    }

    /// The number of the map's mode.
    pub fn mode(&self) -> (number: u8)
        ensures
            number == map_mode(self@),
            number < 4,
    {
        mode_of(&self.inner).to_number()
    }

    /// Whether the map looks like one not made for play.
    pub fn is_suspicious(&self) -> (answer: bool)
        ensures
            answer == map_suspicious(self@),
    {
        looks_suspicious(&self.inner)
    }

    /// Whether a conversion to mania can count the milliseconds of every slider.
    pub fn slides_fit(&self) -> (answer: bool)
        ensures
            answer == slides_fit(self@),
    {
        has_fitting_slides(&self.inner)
    }

    /// Converts the map to the mode with the given number, without mods.
    pub fn convert(&mut self, mode: u8) -> (result: Result<(), MapFailure>)
        requires
            mode == Mode::Mania.number() && leaves(old(self)@, Mode::Mania) ==> slides_fit(
                old(self)@,
            ),
        ensures
            converts(old(self)@, mode, result, final(self)@),
    {
        proof {
            use_type_invariant(&*self);
        }
        let wanted: Mode = match Mode::from_number(mode) {
            Some(wanted) => wanted,
            None => {
                return Err(MapFailure::InvalidMode);
            },
        };
        let mods: rosu_pp::GameMods = mods_from_bits(0);
        let mut map: Beatmap = copy_of(&self.inner);
        match convert_to(&mut map, wanted, &mods) {
            Ok(()) => {
                assert(wanted.number() == mode);
                self.inner = map;
                Ok(())
            },
            Err(failure) => {
                assert(wanted.number() == mode);
                Err(MapFailure::Convert(failure))
            },
        }
    }

    /// Converts the map to the mode with the given number, without mods, unless that is
    /// mania and a slider does not fit: then nothing happens.
    pub fn try_convert(&mut self, mode: u8) -> (result: Option<Result<(), MapFailure>>)
        ensures
            result is None <==> mode == Mode::Mania.number() && leaves(old(self)@, Mode::Mania)
                && !slides_fit(old(self)@),
            result is None ==> final(self)@ == old(self)@,
            result matches Some(result) ==> converts(old(self)@, mode, result, final(self)@),
    {
        if mode == Mode::Mania.to_number() && leaves_for_mania(&self.inner)
            && !self.slides_fit() {
            return None;
        }
        Some(self.convert(mode))
    }

    /// Gives the map up.
    pub fn free(self) {
    }
}

/// Whether `result` is what a conversion of a map to mania gives.
pub open spec fn is_mania(
    map: Beatmap,
    mods: rosu_pp::GameMods,
    result: Result<Beatmap, ConvertFailure>,
) -> bool {
    &&& failure_of(map, Mode::Mania, failure_in(result))
    &&& result matches Ok(converted) ==> converted == map_as(map, Mode::Mania, mods) && map_mode(
        converted,
    ) == Mode::Mania.number()
}

fn in_mania(map: &JsBeatmap, mods: &rosu_pp::GameMods) -> (result: Result<Beatmap, ConvertFailure>)
    requires
        leaves(map@, Mode::Mania) ==> slides_fit(map@),
    ensures
        is_mania(map@, *mods, result),
{
    proof {
        use_type_invariant(map);
    }
    let mut converted: Beatmap = copy_of(&map.inner);
    match convert_to(&mut converted, Mode::Mania, mods) {
        Ok(()) => Ok(converted),
        Err(failure) => Err(failure),
    }
}

/// The map in mania, converted with the mods that have the given bits.
pub fn mania_map(map: &JsBeatmap, bits: u32) -> (result: Result<Beatmap, ConvertFailure>)
    requires
        leaves(map@, Mode::Mania) ==> slides_fit(map@),
    ensures
        is_mania(map@, mods_of_bits(bits), result),
{
    in_mania(map, &mods_from_bits(bits))
}

/// The map in mania, converted with the mods that have the given bits; none if the map would
/// have to leave its mode and a slider does not fit.
pub fn try_mania_map(map: &JsBeatmap, bits: u32) -> (result: Option<
    Result<Beatmap, ConvertFailure>,
>)
    ensures
        result is None <==> leaves(map@, Mode::Mania) && !slides_fit(map@),
        result matches Some(result) ==> is_mania(map@, mods_of_bits(bits), result),
{
    if leaves_for_mania(&map.inner) && !map.slides_fit() {
        return None;
    }
    Some(mania_map(map, bits))
}

/// The map in mania, converted with the mods of a score.
pub fn prepare_map(map: &JsBeatmap, mods: &rosu_mods::GameMods) -> (result: Result<
    Beatmap,
    ConvertFailure,
>)
    requires
        leaves(map@, Mode::Mania) ==> slides_fit(map@),
    ensures
        is_mania(map@, mods_of_score(*mods), result),
{
    in_mania(map, &mods_from_score(mods))
}

/// The map in mania, converted with the mods of a score; none if the map would have to leave
/// its mode and a slider does not fit.
pub fn try_prepare_map(map: &JsBeatmap, mods: &rosu_mods::GameMods) -> (result: Option<
    Result<Beatmap, ConvertFailure>,
>)
    ensures
        result is None <==> leaves(map@, Mode::Mania) && !slides_fit(map@),
        result matches Some(result) ==> is_mania(map@, mods_of_score(*mods), result),
{
    if leaves_for_mania(&map.inner) && !map.slides_fit() {
        return None;
    }
    Some(prepare_map(map, mods))
}

/// A map that was converted to a mode stays as it is when it is converted to that mode
/// again, whatever the mods.
pub proof fn converting_again_changes_nothing(
    map: Beatmap,
    mode: Mode,
    mods: rosu_pp::GameMods,
    failure: Option<ConvertFailure>,
)
    requires
        map_mode(map) == mode.number(),
        failure_of(map, mode, failure),
    ensures
        failure is None,
        map_as(map, mode, mods) == map,
{
}

/// A converted map cannot be converted to any other mode.
pub proof fn a_converted_map_stays_in_its_mode(
    map: Beatmap,
    mode: Mode,
    failure: Option<ConvertFailure>,
)
    requires
        map_converted(map),
        map_mode(map) != mode.number(),
        failure_of(map, mode, failure),
    ensures
        failure == Some(ConvertFailure::AlreadyConverted),
{
}

/// The modes are numbered from 0 to 3, each has its own name, and no two share a number.
pub proof fn modes_are_numbered_and_named(a: Mode, b: Mode)
    ensures
        Mode::Osu.number() == 0,
        Mode::Taiko.number() == 1,
        Mode::Catch.number() == 2,
        Mode::Mania.number() == 3,
        a.number() == b.number() ==> a == b,
        Mode::Osu.text() == seq!['O', 's', 'u'],
        Mode::Taiko.text() == seq!['T', 'a', 'i', 'k', 'o'],
        Mode::Catch.text() == seq!['C', 'a', 't', 'c', 'h'],
        Mode::Mania.text() == seq!['M', 'a', 'n', 'i', 'a'],
{
    reveal_strlit("Osu");
    reveal_strlit("Taiko");
    reveal_strlit("Catch");
    reveal_strlit("Mania");
    assert("Osu"@ =~= seq!['O', 's', 'u']);
    assert("Taiko"@ =~= seq!['T', 'a', 'i', 'k', 'o']);
    assert("Catch"@ =~= seq!['C', 'a', 't', 'c', 'h']);
    assert("Mania"@ =~= seq!['M', 'a', 'n', 'i', 'a']);
}

/// A conversion succeeds exactly if the map has the mode already or is an unconverted one of the
/// first mode. Else a converted map is refused as such, and any other with the mode that it has
/// and the one that was asked for.
pub proof fn conversions_fail_by_mode(map: Beatmap, mode: Mode, failure: Option<ConvertFailure>)
    requires
        failure_of(map, mode, failure),
    ensures
        failure is None <==> map_mode(map) == mode.number() || (!map_converted(map) && map_mode(map)
            == 0),
        failure == Some(ConvertFailure::AlreadyConverted) <==> map_mode(map) != mode.number()
            && map_converted(map),
        failure matches Some(ConvertFailure::Convert { from, to }) ==> from.number() == map_mode(map)
            && to == mode && !map_converted(map),
        leaves(map, mode) <==> failure is None && map_mode(map) != mode.number(),
{
}

/// A map in its own mode is itself; in another it is what the conversion to that mode makes of
/// it.
pub proof fn maps_keep_their_own_mode(map: Beatmap, mode: Mode, mods: rosu_pp::GameMods)
    ensures
        map_mode(map) == mode.number() ==> map_as(map, mode, mods) == map,
        map_mode(map) != mode.number() ==> map_as(map, mode, mods) == map_in_mode(
            map,
            mode.number(),
            mods,
        ),
{
}

/// A conversion to a mode that there is not is refused, and changes nothing. One to a mode that
/// there is succeeds exactly if the map has the mode already or is an unconverted one of the
/// first mode; then the map has the mode, and counts as converted if it did before or had
/// another mode. One that fails changes nothing.
pub proof fn conversions_succeed_or_change_nothing(
    before: Beatmap,
    mode: u8,
    result: Result<(), MapFailure>,
    after: Beatmap,
)
    requires
        converts(before, mode, result, after),
    ensures
        mode > 3 <==> result == Err::<(), MapFailure>(MapFailure::InvalidMode),
        result is Err ==> after == before,
        result is Ok <==> mode <= 3 && (map_mode(before) == mode || (!map_converted(before)
            && map_mode(before) == 0)),
        result is Ok ==> map_mode(after) == mode,
        result is Ok ==> (map_converted(after) <==> map_converted(before) || map_mode(before)
            != mode),
        result is Ok && map_mode(before) == mode ==> after == before,
        result is Ok && map_mode(before) != mode ==> after == map_in_mode(
            before,
            mode as int,
            mods_of_bits(0),
        ),
{
}

/// A map is brought into mania exactly if it is a mania map already, which it then stays, or an
/// unconverted one of the first mode.
pub proof fn maps_are_brought_into_mania(
    map: Beatmap,
    mods: rosu_pp::GameMods,
    result: Result<Beatmap, ConvertFailure>,
)
    requires
        is_mania(map, mods, result),
    ensures
        result is Ok <==> map_mode(map) == 3 || (!map_converted(map) && map_mode(map) == 0),
        result matches Ok(converted) ==> {
            &&& map_mode(converted) == 3
            &&& map_mode(map) == 3 ==> converted == map
            &&& map_mode(map) != 3 ==> converted == map_in_mode(map, 3, mods)
        },
        map_mode(map) != 3 && map_converted(map) ==> result == Err::<Beatmap, ConvertFailure>(
            ConvertFailure::AlreadyConverted,
        ),
{
}

/// What a refused conversion says: which mode the map has, and which one was asked for.
pub proof fn refusals_name_both_modes(from: Mode, to: Mode)
    ensures
        ConvertFailure::AlreadyConverted.text() == "Cannot convert an already converted map"@,
        (ConvertFailure::Convert { from, to }).text() == "Cannot convert from "@ + from.text()
            + " to "@ + to.text(),
        ConvertFailure::AlreadyConverted.code() == "AlreadyConverted"@,
        (ConvertFailure::Convert { from, to }).code() == "Convert { from: "@ + from.text()
            + ", to: "@ + to.text() + " }"@,
        MapFailure::InvalidMode.text() == "invalid game mode"@,
        MapFailure::Convert(ConvertFailure::Convert { from, to }).text() == (
        ConvertFailure::Convert { from, to }).text(),
        MapFailure::Convert(ConvertFailure::AlreadyConverted).text()
            == ConvertFailure::AlreadyConverted.text(),
{
}

/// The sliders of a map that fit do so at every beat length and velocity of the map, and at the
/// ones that a map without any has: a beat of one second, and the velocity 1.
pub proof fn fitting_sliders_fit_everywhere(
    map: Beatmap,
    i: int,
    slide: Slide,
    beat: nat,
    velocity: nat,
)
    requires
        slides_fit(map),
        0 <= i < map_slides(map).len(),
        map_slides(map)[i] == Some(slide),
        beat == 1_048_576_000 || exists|j: int|
            0 <= j < map_beat_lengths(map).len() && beat == parts(
                Binary64 { bits: #[trigger] map_beat_lengths(map)[j] },
            ),
        velocity == 0x10_0000 || exists|j: int|
            0 <= j < map_velocities(map).len() && velocity == parts(
                Binary64 { bits: #[trigger] map_velocities(map)[j] },
            ),
    ensures
        velocity > 0,
        slide_fits(
            slide,
            beat,
            velocity,
            parts(Binary64 { bits: map_slider_multiplier(map) }),
        ),
{
    let beats = map_beat_lengths(map);
    let velocities = map_velocities(map);
    let longest = greatest_parts(beats, DEFAULT_BEAT_PARTS as nat);
    let least = least_parts(velocities, PARTS as nat);
    if beat != 1_048_576_000 {
        let j = choose|j: int|
            0 <= j < beats.len() && beat == parts(Binary64 { bits: #[trigger] beats[j] });
        the_greatest_and_the_least_bound_all(beats, DEFAULT_BEAT_PARTS as nat, j);
    } else {
        the_greatest_and_the_least_bound_all(beats, DEFAULT_BEAT_PARTS as nat, 0);
    }
    if velocity != 0x10_0000 {
        let j = choose|j: int|
            0 <= j < velocities.len() && velocity == parts(
                Binary64 { bits: #[trigger] velocities[j] },
            );
        the_greatest_and_the_least_bound_all(velocities, PARTS as nat, j);
    } else {
        the_greatest_and_the_least_bound_all(velocities, PARTS as nat, 0);
    }
    assert(match map_slides(map)[i] {
        Some(slide) => slide_fits(
            slide,
            longest,
            least,
            parts(Binary64 { bits: map_slider_multiplier(map) }),
        ),
        None => true,
    });
    slower_sliders_fit_less(
        slide,
        beat,
        longest,
        least,
        velocity,
        parts(Binary64 { bits: map_slider_multiplier(map) }),
    );
}

/// A map without sliders fits, if its beat lengths, velocities and slider multiplier are
/// moderate, and the latter more than nothing.
pub proof fn maps_without_sliders_fit(map: Beatmap)
    requires
        forall|i: int|
            0 <= i < map_slides(map).len() ==> (#[trigger] map_slides(map)[i]) is None,
        all_moderate(map_beat_lengths(map)),
        all_moderate(map_velocities(map)),
        forall|i: int|
            0 <= i < map_velocities(map).len() ==> parts(
                Binary64 { bits: #[trigger] map_velocities(map)[i] },
            ) > 0,
        is_moderate(Binary64 { bits: map_slider_multiplier(map) }),
        parts(Binary64 { bits: map_slider_multiplier(map) }) > 0,
    ensures
        slides_fit(map),
{
    the_greatest_and_the_least_bound_all(map_velocities(map), PARTS as nat, 0);
}

} // verus!
