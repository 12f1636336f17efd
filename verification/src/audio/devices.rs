//! Device selection: finding microphones, listening devices, and the virtual
//! cable that the mix is written to.

use vstd::prelude::*;

use crate::text;

verus! {

/// Whether a device records or plays.
#[derive(Clone, Copy, Debug, PartialEq, Eq, Structural)]
pub enum DeviceDirection {
    Capture,
    Render,
}

/// An audio device, as far as the mixer cares.
#[derive(Debug)]
pub struct DeviceInfo {
    pub id: String,
    pub name: String,
    pub direction: DeviceDirection,
}

impl Clone for DeviceInfo {
    fn clone(&self) -> (copy: Self)
        ensures
            copy == *self,
    {
        DeviceInfo { id: self.id.clone(), name: self.name.clone(), direction: self.direction }
    }
}

/// A lower-cased name that any VB-Audio virtual-cable endpoint has: `CABLE
/// Input` and `CABLE Output`, extra cables such as `CABLE-B Input`, the
/// 16-channel `CABLE In 16ch` and `CABLE Out 16ch`, or anything that names the
/// vendor.
pub open spec fn lower_names_cable(lower: Seq<char>) -> bool {
    ||| text::contains(lower, "cable input"@)
    ||| text::contains(lower, "cable output"@)
    ||| text::contains(lower, "cable-"@)
    ||| text::contains(lower, "cable in "@)
    ||| text::contains(lower, "cable out "@)
    ||| text::contains(lower, "vb-audio"@)
}

/// A name that any virtual-cable endpoint has, whatever the case of its letters.
pub open spec fn names_cable(name: Seq<char>) -> bool {
    lower_names_cable(text::lowercase(name))
}

/// True if the lower-cased name is one that a virtual-cable endpoint has.
pub fn lower_is_vbcable(lower: &str) -> (is_cable: bool)
    ensures
        is_cable == lower_names_cable(lower@),
{
    text::contains_text(lower, "cable input") || text::contains_text(lower, "cable output")
        || text::contains_text(lower, "cable-") || text::contains_text(lower, "cable in ")
        || text::contains_text(lower, "cable out ") || text::contains_text(lower, "vb-audio")
}

/// True if `name` looks like any VB-Audio virtual-cable endpoint, on either
/// side, with any cable letter and any channel width.  The case of the ASCII
/// letters in `name` makes no difference.
pub fn is_vbcable(name: &str) -> (is_cable: bool)
    ensures
        is_cable == names_cable(name@),
        is_cable == names_cable(text::ascii_lowercase(name@)),
        is_cable == names_cable(text::ascii_uppercase(name@)),
        text::is_ascii(name@) ==> is_cable == lower_names_cable(text::ascii_lowercase(name@)),
{
    let lower = text::to_lowercase(name);
    lower_is_vbcable(lower.as_str())
}

/// A device of the given direction that is neither a loopback alias nor a
/// virtual cable.
pub open spec fn is_real(d: DeviceInfo, direction: DeviceDirection) -> bool {
    &&& d.direction == direction
    &&& !text::contains(d.name@, "[Loopback]"@)
    &&& !names_cable(d.name@)
}

/// The real devices of the given direction, in their order.
pub open spec fn real_devices(devices: Seq<DeviceInfo>, direction: DeviceDirection) -> Seq<
    DeviceInfo,
> {
    devices.filter(|d: DeviceInfo| is_real(d, direction))
}

fn filter_devices(devices: &[DeviceInfo], direction: DeviceDirection) -> (kept: Vec<DeviceInfo>)
    ensures
        kept@ == real_devices(devices@, direction),
{
    let ghost wanted = |d: DeviceInfo| is_real(d, direction);
    let mut kept: Vec<DeviceInfo> = Vec::new();
    let mut i: usize = 0;
    proof {
        reveal(Seq::filter);
        assert(devices@.take(0).filter(wanted) =~= Seq::<DeviceInfo>::empty());
    }
    while i < devices.len()
        invariant
            i <= devices@.len(),
            wanted == (|d: DeviceInfo| is_real(d, direction)),
            kept@ == devices@.take(i as int).filter(wanted),
        decreases devices@.len() - i,
    {
        let d = &devices[i];
        proof {
            reveal(Seq::filter);
            assert(devices@.take(i + 1).drop_last() =~= devices@.take(i as int));
        }
        if d.direction == direction && !text::contains_text(d.name.as_str(), "[Loopback]")
            && !is_vbcable(d.name.as_str()) {
            kept.push(d.clone());
        }
        i = i + 1;
    }
    assert(devices@.take(i as int) =~= devices@);
    kept
}

/// The devices the user may listen through: render endpoints that are neither
/// virtual cables, which are the destination and not a source, nor loopback
/// aliases.
pub fn filter_render_devices(devices: &[DeviceInfo]) -> (kept: Vec<DeviceInfo>)
    ensures
        kept@ == real_devices(devices@, DeviceDirection::Render),
{
    filter_devices(devices, DeviceDirection::Render)
}

/// The real microphones: capture endpoints that are neither virtual cables nor
/// loopback aliases.
pub fn filter_input_devices(devices: &[DeviceInfo]) -> (kept: Vec<DeviceInfo>)
    ensures
        kept@ == real_devices(devices@, DeviceDirection::Capture),
{
    filter_devices(devices, DeviceDirection::Capture)
}

/// How well a cable serves as the destination of the mix.
#[derive(Clone, Copy, Debug, PartialEq, Eq, Structural)]
pub enum CableTier {
    /// The standard two-channel `CABLE Input`.
    Plain,
    /// Another cable, such as `CABLE-B Input`.
    Other,
    /// A 16-channel endpoint, the last resort.
    Wide,
}

/// The tier of a cable with the given lower-cased name.
pub open spec fn lower_tier(lower: Seq<char>) -> CableTier {
    if text::contains(lower, "16ch"@) {
        CableTier::Wide
    } else if text::contains(lower, "cable input"@) {
        CableTier::Plain
    } else {
        CableTier::Other
    }
}

/// The tier of a device as the destination of the mix; `None` for what is not
/// the render side of a virtual cable.
pub open spec fn cable_tier_of(d: DeviceInfo) -> Option<CableTier> {
    if d.direction == DeviceDirection::Render && names_cable(d.name@) {
        Some(lower_tier(text::lowercase(d.name@)))
    } else {
        None
    }
}

/// The first device of the given tier.
pub open spec fn first_of_tier(devices: Seq<DeviceInfo>, tier: CableTier) -> Option<DeviceInfo>
    decreases devices.len(),
{
    if devices.len() == 0 {
        None
    } else {
        match first_of_tier(devices.drop_last(), tier) {
            Some(d) => Some(d),
            None => if cable_tier_of(devices.last()) == Some(tier) {
                Some(devices.last())
            } else {
                None
            },
        }
    }
}

/// The preferred destination: the first device of the best tier that any
/// device has.
pub open spec fn best_cable(devices: Seq<DeviceInfo>) -> Option<DeviceInfo> {
    if first_of_tier(devices, CableTier::Plain) is Some {
        first_of_tier(devices, CableTier::Plain)
    } else if first_of_tier(devices, CableTier::Other) is Some {
        first_of_tier(devices, CableTier::Other)
    } else {
        first_of_tier(devices, CableTier::Wide)
    }
}

/// The tier of a cable, from its lower-cased name.
pub fn tier_of_lower(lower: &str) -> (tier: CableTier)
    ensures
        tier == lower_tier(lower@),
{
    if text::contains_text(lower, "16ch") {
        CableTier::Wide
    } else if text::contains_text(lower, "cable input") {
        CableTier::Plain
    } else {
        CableTier::Other
    }
}

fn cable_tier(d: &DeviceInfo) -> (tier: Option<CableTier>)
    ensures
        tier == cable_tier_of(*d),
{
    if d.direction == DeviceDirection::Render && is_vbcable(d.name.as_str()) {
        let lower = text::to_lowercase(d.name.as_str());
        Some(tier_of_lower(lower.as_str()))
    } else {
        None
    }
}

fn find_tier(devices: &[DeviceInfo], tier: CableTier) -> (found: Option<&DeviceInfo>)
    ensures
        (match found {
            Some(d) => Some(*d),
            None => None,
        }) == first_of_tier(devices@, tier),
{
    let mut found: Option<&DeviceInfo> = None;
    let mut i: usize = 0;
    while i < devices.len()
        invariant
            i <= devices@.len(),
            (match found {
                Some(d) => Some(*d),
                None => None,
            }) == first_of_tier(devices@.take(i as int), tier),
        decreases devices@.len() - i,
    {
        assert(devices@.take(i + 1).drop_last() =~= devices@.take(i as int));
        if found.is_none() {
            match cable_tier(&devices[i]) {
                Some(t) => {
                    if t == tier {
                        found = Some(&devices[i]);
                    }
                },
                None => {},
            }
        }
        i = i + 1;
    }
    assert(devices@.take(i as int) =~= devices@);
    found
}

/// Finds the virtual cable's render endpoint, where the mix is written.
///
/// Preferred is the plain `CABLE Input`, then any other standalone cable, and
/// last a 16-channel endpoint.
pub fn find_vbcable(devices: &[DeviceInfo]) -> (found: Option<&DeviceInfo>)
    ensures
        (match found {
            Some(d) => Some(*d),
            None => None,
        }) == best_cable(devices@),
{
    let plain = find_tier(devices, CableTier::Plain);
    if plain.is_some() {
        return plain;
    }
    let other = find_tier(devices, CableTier::Other);
    if other.is_some() {
        return other;
    }
    find_tier(devices, CableTier::Wide)
}

/// An endpoint as the system reports it.  What could not be read is missing.
#[derive(Debug)]
pub struct Endpoint {
    pub id: Option<String>,
    pub name: Option<String>,
}

/// The text, or nothing where it could not be read.
pub open spec fn text_or_empty(t: Option<String>) -> Seq<char> {
    match t {
        Some(s) => s@,
        None => Seq::empty(),
    }
}

/// `d` describes the endpoint, in the given direction.
pub open spec fn describes(d: DeviceInfo, e: Endpoint, direction: DeviceDirection) -> bool {
    &&& d.id@ == text_or_empty(e.id)
    &&& d.name@ == text_or_empty(e.name)
    &&& d.direction == direction
}

/// The text, or nothing where it could not be read.
pub fn or_empty(t: &Option<String>) -> (s: String)
    ensures
        s@ == text_or_empty(*t),
{
    match t {
        Some(s) => s.clone(),
        None => String::new(),
    }
}

fn append_devices(
    devices: &mut Vec<DeviceInfo>,
    endpoints: &[Endpoint],
    direction: DeviceDirection,
)
    ensures
        final(devices)@.len() == old(devices)@.len() + endpoints@.len(),
        final(devices)@.take(old(devices)@.len() as int) == old(devices)@,
        forall|i: int|
            0 <= i < endpoints@.len() ==> describes(
                #[trigger] final(devices)@[old(devices)@.len() + i],
                endpoints@[i],
                direction,
            ),
{
    let ghost before = devices@;
    let mut i: usize = 0;
    while i < endpoints.len()
        invariant
            i <= endpoints@.len(),
            devices@.len() == before.len() + i,
            devices@.take(before.len() as int) =~= before,
            forall|j: int|
                0 <= j < i ==> describes(
                    #[trigger] devices@[before.len() + j],
                    endpoints@[j],
                    direction,
                ),
        decreases endpoints@.len() - i,
    {
        let e = &endpoints[i];
        devices.push(DeviceInfo { id: or_empty(&e.id), name: or_empty(&e.name), direction });
        i = i + 1;
    }
}

/// Lists all devices: the capture endpoints, then the render endpoints.
pub fn list_devices(capture: &[Endpoint], render: &[Endpoint]) -> (devices: Vec<DeviceInfo>)
    ensures
        devices@.len() == capture@.len() + render@.len(),
        forall|i: int|
            0 <= i < capture@.len() ==> describes(
                #[trigger] devices@[i],
                capture@[i],
                DeviceDirection::Capture,
            ),
        forall|i: int|
            0 <= i < render@.len() ==> describes(
                #[trigger] devices@[capture@.len() + i],
                render@[i],
                DeviceDirection::Render,
            ),
{
    let mut devices: Vec<DeviceInfo> = Vec::new();
    append_devices(&mut devices, capture, DeviceDirection::Capture);
    let ghost captures = devices@;
    assert forall|i: int| 0 <= i < capture@.len() implies describes(
        captures[i],
        capture@[i],
        DeviceDirection::Capture,
    ) by {
        assert(describes(captures[0 + i], capture@[i], DeviceDirection::Capture));
    }
    append_devices(&mut devices, render, DeviceDirection::Render);
    assert forall|i: int| 0 <= i < capture@.len() implies describes(
        #[trigger] devices@[i],
        capture@[i],
        DeviceDirection::Capture,
    ) by {
        assert(devices@.take(captures.len() as int)[i] == captures[i]);
    }
    devices
}

/// How a search for a device by its identifier ended.
#[derive(Clone, Copy, Debug, PartialEq, Eq, Structural)]
pub enum DeviceSearch {
    /// The device at this index has the identifier.
    Found(usize),
    /// The device at this index could not be read, and none before it has the
    /// identifier.
    Unreadable(usize),
    /// Every device could be read, and none has the identifier.
    NotFound,
}

/// The entry was read, and is the given text.
pub open spec fn is_text(entry: Option<String>, wanted: Seq<char>) -> bool {
    match entry {
        Some(s) => s@ == wanted,
        None => false,
    }
}

/// A search goes past this entry: it was read, and is another text.
pub open spec fn is_other_text(entry: Option<String>, wanted: Seq<char>) -> bool {
    match entry {
        Some(s) => s@ != wanted,
        None => false,
    }
}

/// Finds a device by its identifier among the identifiers of all devices, of
/// which one that cannot be read ends the search.
pub fn find_device_by_id(ids: &[Option<String>], device_id: &str) -> (found: DeviceSearch)
    ensures
        match found {
            DeviceSearch::Found(i) => {
                &&& i < ids@.len()
                &&& is_text(ids@[i as int], device_id@)
                &&& forall|j: int| 0 <= j < i ==> is_other_text(#[trigger] ids@[j], device_id@)
            },
            DeviceSearch::Unreadable(i) => {
                &&& i < ids@.len()
                &&& ids@[i as int] is None
                &&& forall|j: int| 0 <= j < i ==> is_other_text(#[trigger] ids@[j], device_id@)
            },
            DeviceSearch::NotFound => forall|j: int|
                0 <= j < ids@.len() ==> is_other_text(#[trigger] ids@[j], device_id@),
        },
{
    let mut i: usize = 0;
    while i < ids.len()
        invariant
            i <= ids@.len(),
            forall|j: int| 0 <= j < i ==> is_other_text(#[trigger] ids@[j], device_id@),
        decreases ids@.len() - i,
    {
        match &ids[i] {
            None => {
                return DeviceSearch::Unreadable(i);
            },
            Some(id) => {
                if text::same_text(id.as_str(), device_id) {
                    return DeviceSearch::Found(i);
                }
            },
        }
        i = i + 1;
    }
    DeviceSearch::NotFound
}

/// A destination is the render side of a virtual cable, it is one of the
/// devices, and one is found exactly when there is any.
pub proof fn law_destination_is_a_cable(devices: Seq<DeviceInfo>)
    ensures
        best_cable(devices) matches Some(d) ==> devices.contains(d) && cable_tier_of(d) is Some,
        best_cable(devices) is Some <==> exists|i: int|
            0 <= i < devices.len() && cable_tier_of(#[trigger] devices[i]) is Some,
{
    lemma_first_of_tier(devices, CableTier::Plain);
    lemma_first_of_tier(devices, CableTier::Other);
    lemma_first_of_tier(devices, CableTier::Wide);
    if exists|i: int| 0 <= i < devices.len() && cable_tier_of(#[trigger] devices[i]) is Some {
        let i = choose|i: int|
            0 <= i < devices.len() && cable_tier_of(#[trigger] devices[i]) is Some;
        match cable_tier_of(devices[i])->0 {
            CableTier::Plain => {},
            CableTier::Other => {},
            CableTier::Wide => {},
        }
    }
    if let Some(d) = best_cable(devices) {
        let i = choose|i: int| 0 <= i < devices.len() && #[trigger] devices[i] == d;
        assert(cable_tier_of(devices[i]) is Some);
    }
}

/// No destination is of a lesser tier than another device: a plain cable is
/// preferred to every other one, and a 16-channel endpoint is taken only where
/// all cables are such.
pub proof fn law_destination_is_preferred(devices: Seq<DeviceInfo>, i: int)
    requires
        0 <= i < devices.len(),
        cable_tier_of(devices[i]) is Some,
    ensures
        best_cable(devices) matches Some(d) && match cable_tier_of(devices[i])->0 {
            CableTier::Plain => cable_tier_of(d) == Some(CableTier::Plain),
            CableTier::Other => cable_tier_of(d) != Some(CableTier::Wide),
            CableTier::Wide => true,
        },
{
    lemma_first_of_tier(devices, CableTier::Plain);
    lemma_first_of_tier(devices, CableTier::Other);
    lemma_first_of_tier(devices, CableTier::Wide);
}

/// Of several cables of the same tier, the first one is the destination.
pub proof fn law_destination_is_first(devices: Seq<DeviceInfo>, i: int)
    requires
        0 <= i < devices.len(),
        best_cable(devices) matches Some(d) && cable_tier_of(devices[i]) == cable_tier_of(d),
    ensures
        exists|k: int| 0 <= k <= i && best_cable(devices) == Some(#[trigger] devices[k]),
{
    lemma_first_of_tier(devices, CableTier::Plain);
    lemma_first_of_tier(devices, CableTier::Other);
    lemma_first_of_tier(devices, CableTier::Wide);
    let tier = cable_tier_of(devices[i])->0;
    lemma_first_is_before(devices, tier, i);
}

proof fn lemma_first_is_before(devices: Seq<DeviceInfo>, tier: CableTier, i: int)
    requires
        0 <= i < devices.len(),
        cable_tier_of(devices[i]) == Some(tier),
    ensures
        exists|k: int|
            0 <= k <= i && first_of_tier(devices, tier) == Some(#[trigger] devices[k]),
    decreases devices.len(),
{
    let rest = devices.drop_last();
    if i < rest.len() {
        assert(rest[i] == devices[i]);
        lemma_first_is_before(rest, tier, i);
        let k = choose|k: int|
            0 <= k <= i && first_of_tier(rest, tier) == Some(#[trigger] rest[k]);
        assert(devices[k] == rest[k]);
    } else {
        lemma_first_of_tier(rest, tier);
        if let Some(d) = first_of_tier(rest, tier) {
            let k = choose|k: int| 0 <= k < rest.len() && #[trigger] rest[k] == d;
            assert(devices[k] == d);
        } else {
            assert(devices[i] == devices.last());
        }
    }
}

proof fn lemma_first_of_tier(devices: Seq<DeviceInfo>, tier: CableTier)
    ensures
        match first_of_tier(devices, tier) {
            Some(d) => {
                &&& cable_tier_of(d) == Some(tier)
                &&& exists|i: int| 0 <= i < devices.len() && #[trigger] devices[i] == d
            },
            None => forall|i: int|
                0 <= i < devices.len() ==> cable_tier_of(#[trigger] devices[i]) != Some(tier),
        },
    decreases devices.len(),
{
    if devices.len() > 0 {
        let rest = devices.drop_last();
        lemma_first_of_tier(rest, tier);
        match first_of_tier(rest, tier) {
            Some(d) => {
                let i = choose|i: int| 0 <= i < rest.len() && #[trigger] rest[i] == d;
                assert(devices[i] == d);
            },
            None => {
                if cable_tier_of(devices.last()) == Some(tier) {
                    assert(devices[devices.len() - 1] == devices.last());
                } else {
                    assert forall|i: int| 0 <= i < devices.len() implies cable_tier_of(
                        #[trigger] devices[i],
                    ) != Some(tier) by {
                        if i < rest.len() {
                            assert(rest[i] == devices[i]);
                        }
                    }
                }
            },
        }
    }
}

/// The device list keeps exactly the real devices of the direction.
pub proof fn law_real_devices(devices: Seq<DeviceInfo>, direction: DeviceDirection, d: DeviceInfo)
    ensures
        real_devices(devices, direction).contains(d) <==> devices.contains(d) && is_real(
            d,
            direction,
        ),
{
    let wanted = |d: DeviceInfo| is_real(d, direction);
    broadcast use vstd::seq_lib::group_filter_ensures;

    if real_devices(devices, direction).contains(d) {
        devices.lemma_filter_contains_rev(wanted, d);
        assert(wanted(d));
    }
    if devices.contains(d) && is_real(d, direction) {
        assert(wanted(d));
    }
}

/// No other render device has the identifier of `d`.
pub open spec fn only_with_its_id(devices: Seq<DeviceInfo>, d: DeviceInfo) -> bool {
    forall|i: int|
        0 <= i < devices.len() && #[trigger] devices[i].direction == DeviceDirection::Render
            && devices[i].id@ == d.id@ ==> devices[i] == d
}

/// The mix cannot be fed back into itself: where no other render device has the
/// identifier of the destination, no device that can be listened through has it.
pub proof fn law_no_feedback_loop(devices: Seq<DeviceInfo>, source: DeviceInfo)
    requires
        best_cable(devices) matches Some(d) ==> only_with_its_id(devices, d),
        real_devices(devices, DeviceDirection::Render).contains(source),
    ensures
        best_cable(devices) matches Some(d) ==> source.id@ != d.id@,
{
    law_real_devices(devices, DeviceDirection::Render, source);
    law_destination_is_a_cable(devices);
    let i = choose|i: int| 0 <= i < devices.len() && #[trigger] devices[i] == source;
    assert(devices[i].direction == DeviceDirection::Render);
}

/// A lower-cased name is a cable's wherever one of the six tags stands in it.
pub proof fn law_tagged_names_are_cables(before: Seq<char>, after: Seq<char>)
    ensures
        lower_names_cable(before + "cable input"@ + after),
        lower_names_cable(before + "cable output"@ + after),
        lower_names_cable(before + "cable-"@ + after),
        lower_names_cable(before + "cable in "@ + after),
        lower_names_cable(before + "cable out "@ + after),
        lower_names_cable(before + "vb-audio"@ + after),
{
    text::law_contains_what_is_inside(before, "cable input"@, after);
    text::law_contains_what_is_inside(before, "cable output"@, after);
    text::law_contains_what_is_inside(before, "cable-"@, after);
    text::law_contains_what_is_inside(before, "cable in "@, after);
    text::law_contains_what_is_inside(before, "cable out "@, after);
    text::law_contains_what_is_inside(before, "vb-audio"@, after);
}

/// A name is a cable's only where one of the six tags stands in it once it is
/// lower-cased.
pub proof fn law_cable_names_are_tagged(name: Seq<char>)
    ensures
        names_cable(name) == lower_names_cable(text::lowercase(name)),
        names_cable(name) ==> exists|before: Seq<char>, tag: Seq<char>, after: Seq<char>|
            text::lowercase(name) == #[trigger] (before + tag + after) && (tag == "cable input"@
                || tag == "cable output"@ || tag == "cable-"@ || tag == "cable in "@ || tag
                == "cable out "@ || tag == "vb-audio"@),
{
    let lower = text::lowercase(name);
    if names_cable(name) {
        let tag = if text::contains(lower, "cable input"@) {
            "cable input"@
        } else if text::contains(lower, "cable output"@) {
            "cable output"@
        } else if text::contains(lower, "cable-"@) {
            "cable-"@
        } else if text::contains(lower, "cable in "@) {
            "cable in "@
        } else if text::contains(lower, "cable out "@) {
            "cable out "@
        } else {
            "vb-audio"@
        };
        text::law_contained_is_inside(lower, tag);
        let (before, after) = choose|before: Seq<char>, after: Seq<char>|
            lower == #[trigger] (before + tag + after);
        assert(lower == before + tag + after);
    }
}

/// A device is real exactly when it goes in the right direction, its name holds
/// no loopback mark, and it is no cable.
pub proof fn law_what_is_real(
    d: DeviceInfo,
    direction: DeviceDirection,
    before: Seq<char>,
    after: Seq<char>,
)
    ensures
        d.direction != direction ==> !is_real(d, direction),
        names_cable(d.name@) ==> !is_real(d, direction),
        d.name@ == before + "[Loopback]"@ + after ==> !is_real(d, direction),
        d.direction == direction && !names_cable(d.name@) && !is_real(d, direction) ==> exists|
            a: Seq<char>,
            b: Seq<char>,
        |
            d.name@ == #[trigger] (a + "[Loopback]"@ + b),
{
    text::law_contains_what_is_inside(before, "[Loopback]"@, after);
    if text::contains(d.name@, "[Loopback]"@) {
        text::law_contained_is_inside(d.name@, "[Loopback]"@);
    }
}

/// A list is filtered device by device, in order: one more device at the end is
/// one more in the result where it is real, and none otherwise.
pub proof fn law_lists_are_filtered_in_order(
    devices: Seq<DeviceInfo>,
    d: DeviceInfo,
    direction: DeviceDirection,
)
    ensures
        real_devices(Seq::empty(), direction) == Seq::<DeviceInfo>::empty(),
        is_real(d, direction) ==> real_devices(devices.push(d), direction) == real_devices(
            devices,
            direction,
        ).push(d),
        !is_real(d, direction) ==> real_devices(devices.push(d), direction) == real_devices(
            devices,
            direction,
        ),
{
    reveal(Seq::filter);
    assert(devices.push(d).drop_last() =~= devices);
    assert(real_devices(Seq::empty(), direction) =~= Seq::<DeviceInfo>::empty());
}

/// The render side of a virtual cable.
pub open spec fn is_render_cable(d: DeviceInfo) -> bool {
    d.direction == DeviceDirection::Render && lower_names_cable(text::lowercase(d.name@))
}

/// The lower-cased name of the device holds the tag.
pub open spec fn name_holds(d: DeviceInfo, tag: Seq<char>) -> bool {
    text::contains(text::lowercase(d.name@), tag)
}

proof fn lemma_first_is_at(devices: Seq<DeviceInfo>, tier: CableTier, k: int)
    requires
        0 <= k < devices.len(),
        cable_tier_of(devices[k]) == Some(tier),
        forall|j: int| 0 <= j < k ==> cable_tier_of(#[trigger] devices[j]) != Some(tier),
    ensures
        first_of_tier(devices, tier) == Some(devices[k]),
{
    lemma_first_is_before(devices, tier, k);
    lemma_first_of_tier(devices, tier);
    let i = choose|i: int|
        0 <= i <= k && first_of_tier(devices, tier) == Some(#[trigger] devices[i]);
    assert(cable_tier_of(devices[i]) == Some(tier));
}

/// First of all, the first render cable whose name holds `cable input` and no
/// `16ch` is the destination.
pub proof fn law_first_plain_cable_wins(devices: Seq<DeviceInfo>, k: int)
    requires
        0 <= k < devices.len(),
        is_render_cable(devices[k]),
        name_holds(devices[k], "cable input"@),
        !name_holds(devices[k], "16ch"@),
        forall|j: int|
            0 <= j < k ==> !(is_render_cable(#[trigger] devices[j]) && name_holds(
                devices[j],
                "cable input"@,
            ) && !name_holds(devices[j], "16ch"@)),
    ensures
        best_cable(devices) == Some(devices[k]),
{
    lemma_first_is_at(devices, CableTier::Plain, k);
}

/// Without such a cable, the first render cable whose name holds no `16ch` is
/// the destination.
pub proof fn law_first_narrow_cable_is_next(devices: Seq<DeviceInfo>, k: int)
    requires
        0 <= k < devices.len(),
        is_render_cable(devices[k]),
        !name_holds(devices[k], "16ch"@),
        forall|j: int|
            0 <= j < devices.len() ==> !(is_render_cable(#[trigger] devices[j]) && name_holds(
                devices[j],
                "cable input"@,
            ) && !name_holds(devices[j], "16ch"@)),
        forall|j: int|
            0 <= j < k ==> !(is_render_cable(#[trigger] devices[j]) && !name_holds(
                devices[j],
                "16ch"@,
            )),
    ensures
        best_cable(devices) == Some(devices[k]),
{
    lemma_first_of_tier(devices, CableTier::Plain);
    lemma_first_is_at(devices, CableTier::Other, k);
}

/// Where all render cables hold `16ch` in their names, the first of them is the
/// destination.
pub proof fn law_first_wide_cable_is_last(devices: Seq<DeviceInfo>, k: int)
    requires
        0 <= k < devices.len(),
        is_render_cable(devices[k]),
        forall|j: int|
            0 <= j < devices.len() && is_render_cable(#[trigger] devices[j]) ==> name_holds(
                devices[j],
                "16ch"@,
            ),
        forall|j: int| 0 <= j < k ==> !is_render_cable(#[trigger] devices[j]),
    ensures
        best_cable(devices) == Some(devices[k]),
{
    lemma_first_of_tier(devices, CableTier::Plain);
    lemma_first_of_tier(devices, CableTier::Other);
    assert(is_render_cable(devices[k]));
    lemma_first_is_at(devices, CableTier::Wide, k);
}

/// Without a render cable there is no destination.
pub proof fn law_no_cable_no_destination(devices: Seq<DeviceInfo>)
    requires
        forall|j: int| 0 <= j < devices.len() ==> !is_render_cable(#[trigger] devices[j]),
    ensures
        best_cable(devices) is None,
{
    law_destination_is_a_cable(devices);
}

/// A listed device has the identifier and the name of its endpoint, and nothing
/// where these could not be read.
pub proof fn law_listed_device(d: DeviceInfo, e: Endpoint, direction: DeviceDirection, t: String)
    requires
        describes(d, e, direction),
    ensures
        d.direction == direction,
        e.id matches Some(id) ==> d.id@ == id@,
        e.id is None ==> d.id@.len() == 0,
        e.name matches Some(name) ==> d.name@ == name@,
        e.name is None ==> d.name@.len() == 0,
        text_or_empty(Some(t)) == t@,
        text_or_empty(None).len() == 0,
{
}

/// An entry that was read is either the wanted text or another, and one that was
/// not is neither.
pub proof fn law_entry_is_text(entry: Option<String>, wanted: Seq<char>)
    ensures
        entry is None ==> !is_text(entry, wanted) && !is_other_text(entry, wanted),
        entry matches Some(s) ==> is_text(entry, wanted) == (s@ == wanted) && is_other_text(
            entry,
            wanted,
        ) == (s@ != wanted),
{
}

} // verus!
