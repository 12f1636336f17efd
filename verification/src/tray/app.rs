//! The tray application's state, and what it does on each event.

use vstd::prelude::*;

use crate::audio::devices;
use crate::audio::devices::{DeviceDirection, DeviceInfo};
use crate::config::Config;
use crate::text;
use crate::tray::level;
use crate::tray::level::LevelBucket;
use crate::tray::menu;
use crate::tray::menu::{MenuGroup, MenuRow, MenuSection};

verus! {

/// How often the level meter is polled, in nanoseconds: about six times a
/// second.
pub const TICK_INTERVAL_NS: u64 = 166000000;

/// Why a request of the user is refused.
#[derive(Clone, Copy, Debug, PartialEq, Eq, Structural)]
pub enum Refusal {
    /// No microphone is selected.
    NoMicrophone,
    /// There is no virtual cable to write the mix to.
    NoCable,
    /// The device to be captured is the one that the mix is written to.
    SourceIsDestination,
}

/// Something that the application asks its surroundings to do.
#[derive(Debug)]
pub enum Effect {
    /// Start the pipeline on these devices, and report how it went.
    StartPipeline { mic: String, system_source: Option<String>, output: String },
    /// Stop the pipeline.
    StopPipeline,
    /// Tell why a request was refused.
    Refuse(Refusal),
    /// Bring icon and tooltip up to date.
    RefreshIcon,
    /// Build the menu anew.
    RebuildMenu,
    /// Write the configuration to disk.
    SaveConfig,
    /// Bring the check marks of a selector up to date.
    CheckRows(MenuSection),
    /// Take the icon out of the tray.
    DropTray,
}

/// A button of the mouse.
#[derive(Clone, Copy, Debug, PartialEq, Eq, Structural)]
pub enum MouseButton {
    Left,
    Right,
    Middle,
}

/// What the tray icon reports.
#[derive(Clone, Copy, Debug, PartialEq, Eq, Structural)]
pub enum TrayEvent {
    /// A button went down, or up.
    Click { button: MouseButton, up: bool },
    /// Anything else: double clicks and pointer movements.
    Other,
}

/// A new look for the tray: the level to show, if it has changed, and the
/// tooltip.
#[derive(Debug)]
pub struct IconUpdate {
    pub icon: Option<LevelBucket>,
    pub tooltip: String,
}

/// The state of the tray application.
#[derive(Debug)]
pub struct TrayApp {
    /// Whether the icon is in the tray.
    pub has_tray: bool,
    /// Whether the pipeline runs.
    pub mixing: bool,
    /// The user's configuration.
    pub config: Config,
    /// The microphones.
    pub input_devices: Vec<DeviceInfo>,
    /// The devices that the user can listen through.
    pub render_devices: Vec<DeviceInfo>,
    /// The system's default render device.
    pub default_render_id: Option<String>,
    /// The destination of the mix.
    pub vbcable_id: Option<String>,
    /// The name of the destination.
    pub vbcable_name: Option<String>,
    /// The selected microphone.
    pub selected_mic_id: Option<String>,
    /// The selected output device; `None` for the system's default.
    pub selected_system_source_id: Option<String>,
    /// The selector of the microphones.
    pub mic_group: MenuGroup,
    /// The selector of the output devices.
    pub system_source_group: MenuGroup,
    /// The identifier of the row that ends the application.
    pub quit_item_id: Option<String>,
    /// The level that the icon shows.
    pub current_bucket: LevelBucket,
    /// When the level meter is to be polled next, in nanoseconds.
    pub next_tick: u64,
}

/// Some device has this identifier.
pub open spec fn has_device(devices: Seq<DeviceInfo>, id: Seq<char>) -> bool {
    exists|i: int| 0 <= i < devices.len() && #[trigger] devices[i].id@ == id
}

/// The first render device with this identifier.
pub open spec fn render_device(devices: Seq<DeviceInfo>, id: Seq<char>) -> Option<DeviceInfo>
    decreases devices.len(),
{
    if devices.len() == 0 {
        None
    } else {
        match render_device(devices.drop_last(), id) {
            Some(d) => Some(d),
            None => if devices.last().direction == DeviceDirection::Render && devices.last().id@
                == id {
                Some(devices.last())
            } else {
                None
            },
        }
    }
}

/// The pinned device, where one is pinned and present.
pub open spec fn pinned_device(devices: Seq<DeviceInfo>, pinned: Option<String>) -> Option<
    DeviceInfo,
> {
    match pinned {
        Some(id) => render_device(devices, id@),
        None => None,
    }
}

/// The destination of the mix: the pinned device, where it is present, or else
/// the preferred virtual cable.
pub open spec fn destination(devices: Seq<DeviceInfo>, pinned: Option<String>) -> Option<
    DeviceInfo,
> {
    match pinned_device(devices, pinned) {
        Some(d) => Some(d),
        None => devices::best_cable(devices),
    }
}

/// The saved device, where it is present.
pub open spec fn saved_device(devices: Seq<DeviceInfo>, saved: Option<String>) -> Option<String> {
    match saved {
        Some(id) => if has_device(devices, id@) {
            Some(id)
        } else {
            None
        },
        None => None,
    }
}

/// The saved device, where it is present, or else the first one.
pub open spec fn saved_or_first(devices: Seq<DeviceInfo>, saved: Option<String>) -> Option<
    String,
> {
    match saved_device(devices, saved) {
        Some(id) => Some(id),
        None => if devices.len() > 0 {
            Some(devices[0].id)
        } else {
            None
        },
    }
}

/// The source to capture beside a destination: the given one, or the default
/// where that would be the destination itself.
pub open spec fn source_beside(destination: Option<String>, source: Option<String>) -> Option<
    String,
> {
    match (destination, source) {
        (Some(d), Some(s)) => if s@ == d@ {
            None
        } else {
            source
        },
        _ => source,
    }
}

/// A choice is a device that is present, or none at all.
pub open spec fn is_present(devices: Seq<DeviceInfo>, choice: Option<String>) -> bool {
    match choice {
        Some(id) => has_device(devices, id@),
        None => true,
    }
}

/// The identifier of a device, if there is one.
pub open spec fn id_of(d: Option<DeviceInfo>) -> Option<String> {
    match d {
        Some(device) => Some(device.id),
        None => None,
    }
}

/// The name of a device, if there is one.
pub open spec fn name_of(d: Option<DeviceInfo>) -> Option<String> {
    match d {
        Some(device) => Some(device.name),
        None => None,
    }
}

/// The level to show: idle while not mixing, the level of the peak with the
/// meter on, and plain green with the meter off.
pub open spec fn shown_level(mixing: bool, show_level_meter: bool, peak: u16) -> LevelBucket {
    if !mixing {
        LevelBucket::Idle
    } else if show_level_meter {
        level::bucket_of(Some(peak))
    } else {
        LevelBucket::Low
    }
}

/// The level that the icon is to be painted with: none where it shows that
/// level already.
pub open spec fn repaint(current: LevelBucket, shown: LevelBucket) -> Option<LevelBucket> {
    if shown == current {
        None
    } else {
        Some(shown)
    }
}

/// What follows a stop.
pub open spec fn stop_effects(mixing: bool) -> Seq<Effect> {
    if mixing {
        seq![Effect::StopPipeline, Effect::RefreshIcon, Effect::RebuildMenu]
    } else {
        seq![Effect::RefreshIcon, Effect::RebuildMenu]
    }
}

/// What follows the attempt to capture the destination.
pub open spec fn refuse_source() -> Seq<Effect> {
    seq![
        Effect::Refuse(Refusal::SourceIsDestination),
        Effect::CheckRows(MenuSection::SystemSource),
    ]
}

/// Finds the pinned render device.
fn find_pinned<'a>(devices: &'a [DeviceInfo], pinned: &Option<String>) -> (found: Option<
    &'a DeviceInfo,
>)
    ensures
        (match found {
            Some(d) => Some(*d),
            None => None,
        }) == pinned_device(devices@, *pinned),
{
    let mut found: Option<&DeviceInfo> = None;
    if let Some(id) = pinned {
        let mut i: usize = 0;
        while i < devices.len()
            invariant
                i <= devices@.len(),
                (match found {
                    Some(d) => Some(*d),
                    None => None,
                }) == render_device(devices@.take(i as int), id@),
            decreases devices@.len() - i,
        {
            assert(devices@.take(i + 1).drop_last() =~= devices@.take(i as int));
            if found.is_none() && devices[i].direction == DeviceDirection::Render
                && text::same_text(devices[i].id.as_str(), id.as_str()) {
                found = Some(&devices[i]);
            }
            i = i + 1;
        }
        assert(devices@.take(i as int) =~= devices@);
    }
    found
}

/// Keeps the saved device where it is present.
fn keep_saved(devices: &[DeviceInfo], saved: &Option<String>) -> (kept: Option<String>)
    ensures
        kept == saved_device(devices@, *saved),
{
    if let Some(id) = saved {
        let mut i: usize = 0;
        while i < devices.len()
            invariant
                i <= devices@.len(),
                *saved == Some(*id),
                forall|j: int| 0 <= j < i ==> #[trigger] devices@[j].id@ != id@,
            decreases devices@.len() - i,
        {
            if text::same_text(devices[i].id.as_str(), id.as_str()) {
                assert(has_device(devices@, id@));
                return Some(id.clone());
            }
            i = i + 1;
        }
    }
    None
}

/// Whether a choice is the destination.
fn check_destination(destination: &Option<String>, choice: &Option<String>) -> (same: bool)
    ensures
        same == (destination matches Some(d) && choice matches Some(c) && c@ == d@),
{
    match (destination, choice) {
        (Some(d), Some(c)) => text::same_text(c.as_str(), d.as_str()),
        _ => false,
    }
}

impl TrayApp {
    /// The destination has a name exactly when there is a destination.
    pub open spec fn wf(&self) -> bool {
        self.vbcable_id is Some <==> self.vbcable_name is Some
    }

    /// A choice is the destination of the mix.
    pub open spec fn is_destination(&self, choice: Option<String>) -> bool {
        self.vbcable_id matches Some(d) && choice matches Some(c) && c@ == d@
    }

    /// The selected source is not the destination of the mix.
    pub open spec fn source_is_not_destination(&self) -> bool {
        self.selected_system_source_id matches Some(s) ==> self.vbcable_id matches Some(d) ==> s@
            != d@
    }

    /// What is selected is present, and so is everything that the selectors of
    /// the menu offer.
    pub open spec fn selections_present(&self) -> bool {
        &&& is_present(self.input_devices@, self.selected_mic_id)
        &&& is_present(self.render_devices@, self.selected_system_source_id)
        &&& forall|k: int|
            0 <= k < self.mic_group.id_map@.len() ==> is_present(
                self.input_devices@,
                #[trigger] self.mic_group.id_map@[k].value,
            )
        &&& forall|k: int|
            0 <= k < self.system_source_group.id_map@.len() ==> is_present(
                self.render_devices@,
                #[trigger] self.system_source_group.id_map@[k].value,
            )
    }

    /// What the menu shows.
    pub open spec fn menu_content(&self) -> menu::MenuContent {
        menu::MenuContent {
            inputs: self.input_devices@,
            outputs: self.render_devices@,
            default_output: menu::choice_view(self.default_render_id),
            selected_input: menu::choice_view(self.selected_mic_id),
            selected_output: menu::choice_view(self.selected_system_source_id),
            mixing: self.mixing,
        }
    }

    /// What is asked for when mixing is to start: the pipeline, unless the
    /// microphone or the destination is missing.
    pub open spec fn start_request(&self) -> Effect {
        match (self.selected_mic_id, self.vbcable_id) {
            (None, _) => Effect::Refuse(Refusal::NoMicrophone),
            (Some(_), None) => Effect::Refuse(Refusal::NoCable),
            (Some(mic), Some(output)) => Effect::StartPipeline {
                mic,
                system_source: self.selected_system_source_id,
                output,
            },
        }
    }

    /// The application at its start, from the configuration and the devices of
    /// the system.
    pub fn new(
        config: Config,
        all_devices: &[DeviceInfo],
        default_render_id: Option<String>,
        now: u64,
    ) -> (app: Self)
        ensures
            app.wf(),
            !app.has_tray,
            !app.mixing,
            app.config == config,
            app.input_devices@ == devices::real_devices(all_devices@, DeviceDirection::Capture),
            app.render_devices@ == devices::real_devices(all_devices@, DeviceDirection::Render),
            app.default_render_id == default_render_id,
            app.vbcable_id == id_of(destination(all_devices@, config.output_device_id)),
            app.vbcable_name == name_of(destination(all_devices@, config.output_device_id)),
            app.selected_mic_id == saved_or_first(app.input_devices@, config.mic_device_id),
            app.selected_system_source_id == source_beside(
                app.vbcable_id,
                saved_device(app.render_devices@, config.system_source_device_id),
            ),
            app.mic_group.id_map@.len() == 0,
            app.system_source_group.id_map@.len() == 0,
            app.quit_item_id is None,
            app.current_bucket == LevelBucket::Idle,
            app.next_tick == now,
            app.selections_present(),
            app.source_is_not_destination(),
    {
        let input_devices = devices::filter_input_devices(all_devices);
        let render_devices = devices::filter_render_devices(all_devices);
        let pinned = find_pinned(all_devices, &config.output_device_id);
        let chosen = if pinned.is_some() {
            pinned
        } else {
            devices::find_vbcable(all_devices)
        };
        let (vbcable_id, vbcable_name): (Option<String>, Option<String>) = match chosen {
            Some(d) => (Some(d.id.clone()), Some(d.name.clone())),
            None => (None, None),
        };
        let saved_mic = keep_saved(input_devices.as_slice(), &config.mic_device_id);
        let selected_mic_id = if saved_mic.is_some() {
            saved_mic
        } else if input_devices.len() > 0 {
            Some(input_devices[0].id.clone())
        } else {
            None
        };
        let saved_source = keep_saved(
            render_devices.as_slice(),
            &config.system_source_device_id,
        );
        let selected_system_source_id = if check_destination(&vbcable_id, &saved_source) {
            None
        } else {
            saved_source
        };
        proof {
            law_selection_is_present(input_devices@, config.mic_device_id);
            law_selection_is_present(render_devices@, config.system_source_device_id);
        }
        TrayApp {
            has_tray: false,
            mixing: false,
            config,
            input_devices,
            render_devices,
            default_render_id,
            vbcable_id,
            vbcable_name,
            selected_mic_id,
            selected_system_source_id,
            mic_group: MenuGroup::new(),
            system_source_group: MenuGroup::new(),
            quit_item_id: None,
            current_bucket: LevelBucket::Idle,
            next_tick: now,
        }
    }

    /// Appends the section of the microphones.
    fn push_input_section(&self, rows: &mut Vec<MenuRow>)
        ensures
            menu::row_views(final(rows)@) == menu::row_views(old(rows)@) + menu::input_section(
                self.menu_content(),
            ),
    {
        let ghost before = menu::row_views(rows@);
        let ghost c = self.menu_content();
        menu::push_row(rows, MenuRow::Header("\u{1F399}  Input microphone:".to_owned()));
        menu::push_device_rows(
            rows,
            MenuSection::Microphone,
            self.input_devices.as_slice(),
            &self.selected_mic_id,
            !self.mixing,
        );
        if self.input_devices.len() == 0 {
            menu::push_row(rows, MenuRow::Note("(no microphones found)".to_owned()));
        }
        assert(menu::row_views(rows@) =~= before + menu::input_section(c));
    }

    /// Appends the section of the output devices.
    fn push_output_section(&self, rows: &mut Vec<MenuRow>)
        ensures
            menu::row_views(final(rows)@) == menu::row_views(old(rows)@) + menu::output_section(
                self.menu_content(),
            ),
    {
        let ghost before = menu::row_views(rows@);
        let ghost c = self.menu_content();
        menu::push_row(
            rows,
            MenuRow::Header("\u{1F50A} Output sound (what you hear):".to_owned()),
        );
        let label = menu::write_default_label(
            &self.default_render_id,
            self.render_devices.as_slice(),
        );
        menu::push_row(
            rows,
            MenuRow::Choice {
                section: MenuSection::SystemSource,
                label,
                enabled: !self.mixing,
                checked: self.selected_system_source_id.is_none(),
                value: None,
            },
        );
        menu::push_device_rows(
            rows,
            MenuSection::SystemSource,
            self.render_devices.as_slice(),
            &self.selected_system_source_id,
            !self.mixing,
        );
        if self.render_devices.len() == 0 {
            menu::push_row(rows, MenuRow::Note("(no output devices found)".to_owned()));
        }
        assert(menu::row_views(rows@) =~= before + menu::output_section(c));
    }

    /// The rows of the menu: the input microphone, the output sound, and the
    /// row that ends the application.
    pub fn build_menu(&self) -> (rows: Vec<MenuRow>)
        ensures
            menu::row_views(rows@) == menu::menu_of(self.menu_content()),
    {
        let ghost c = self.menu_content();
        let mut rows: Vec<MenuRow> = Vec::new();
        self.push_input_section(&mut rows);
        assert(menu::row_views(rows@) =~= menu::input_section(c));
        menu::push_row(&mut rows, MenuRow::Separator);
        let ghost before = menu::row_views(rows@);
        self.push_output_section(&mut rows);
        menu::push_row(&mut rows, MenuRow::Separator);
        menu::push_row(&mut rows, MenuRow::Quit("Quit".to_owned()));
        assert(menu::row_views(rows@) =~= before + menu::output_section(c) + seq![
            menu::RowView::Separator,
            menu::RowView::Quit("Quit"@),
        ]);
        rows
    }

    /// Takes note of the identifiers that the rows of a menu have been given.
    pub fn bind_menu(&mut self, rows: &[MenuRow], ids: &[String])
        requires
            rows@.len() == ids@.len(),
        ensures
            final(self).mic_group.id_map@ == menu::entries_of(rows@, ids@, MenuSection::Microphone),
            final(self).system_source_group.id_map@ == menu::entries_of(
                rows@,
                ids@,
                MenuSection::SystemSource,
            ),
            *final(self) == (TrayApp {
                mic_group: final(self).mic_group,
                system_source_group: final(self).system_source_group,
                quit_item_id: menu::quit_id_of(rows@, ids@),
                ..*old(self)
            }),
            old(self).selections_present() && menu::row_views(rows@) == menu::menu_of(
                old(self).menu_content(),
            ) ==> final(self).selections_present(),
            old(self).source_is_not_destination() ==> final(self).source_is_not_destination(),
    {
        proof {
            if menu::row_views(rows@) == menu::menu_of(self.menu_content()) {
                lemma_entries_present(*self, rows@, ids@);
            }
        }
        self.mic_group.bind(rows, ids, MenuSection::Microphone);
        self.system_source_group.bind(rows, ids, MenuSection::SystemSource);
        self.quit_item_id = menu::find_quit_id(rows, ids);
    }

    /// Toggles mixing on or off.
    pub fn toggle_mixing(&mut self) -> (effects: Vec<Effect>)
        ensures
            *final(self) == (TrayApp { mixing: false, ..*old(self) }),
            effects@ == (if old(self).mixing {
                stop_effects(true)
            } else {
                seq![old(self).start_request()]
            }),
    {
        if self.mixing {
            self.stop_mixing()
        } else {
            vec![self.start_mixing()]
        }
    }

    /// Asks for the pipeline, or tells why it cannot start.
    pub fn start_mixing(&self) -> (effect: Effect)
        ensures
            effect == self.start_request(),
    {
        match (&self.selected_mic_id, &self.vbcable_id) {
            (None, _) => Effect::Refuse(Refusal::NoMicrophone),
            (Some(_), None) => Effect::Refuse(Refusal::NoCable),
            (Some(mic), Some(output)) => Effect::StartPipeline {
                mic: mic.clone(),
                system_source: menu::copy_choice(&self.selected_system_source_id),
                output: output.clone(),
            },
        }
    }

    /// Takes note of how the start of the pipeline went.
    pub fn pipeline_started(&mut self, started: bool) -> (effects: Vec<Effect>)
        ensures
            started ==> *final(self) == (TrayApp {
                mixing: true,
                current_bucket: LevelBucket::Idle,
                ..*old(self)
            }),
            started ==> effects@ == seq![Effect::RefreshIcon, Effect::RebuildMenu],
            !started ==> *final(self) == *old(self),
            !started ==> effects@ == Seq::<Effect>::empty(),
    {
        if started {
            self.mixing = true;
            self.current_bucket = LevelBucket::Idle;
            vec![Effect::RefreshIcon, Effect::RebuildMenu]
        } else {
            Vec::new()
        }
    }

    /// Stops mixing.
    pub fn stop_mixing(&mut self) -> (effects: Vec<Effect>)
        ensures
            *final(self) == (TrayApp { mixing: false, ..*old(self) }),
            effects@ == stop_effects(old(self).mixing),
    {
        if self.mixing {
            self.mixing = false;
            vec![Effect::StopPipeline, Effect::RefreshIcon, Effect::RebuildMenu]
        } else {
            vec![Effect::RefreshIcon, Effect::RebuildMenu]
        }
    }

    /// Works out what the tray is to show, from the current peak of the output
    /// and its level in whole decibels.  The icon is pushed only when the level
    /// changes.
    pub fn update_icon(&mut self, peak: u16, decibels: &str) -> (update: Option<IconUpdate>)
        requires
            old(self).wf(),
        ensures
            ({
                let app = *old(self);
                let shown = shown_level(app.mixing, app.config.show_level_meter, peak);
                if app.has_tray {
                    &&& *final(self) == (TrayApp { current_bucket: shown, ..app })
                    &&& update matches Some(u) && {
                        &&& u.icon == repaint(app.current_bucket, shown)
                        &&& u.tooltip@ == (if app.mixing {
                            level::mixing_tooltip(
                                level::name_view(app.vbcable_name),
                                app.config.show_level_meter,
                                peak,
                                decibels@,
                            )
                        } else {
                            level::idle_tooltip(level::name_view(app.vbcable_name))
                        })
                    }
                } else {
                    &&& *final(self) == app
                    &&& update is None
                }
            }),
    {
        let bucket: LevelBucket = if self.mixing {
            if self.config.show_level_meter {
                LevelBucket::from_peak(Some(peak))
            } else {
                LevelBucket::Low
            }
        } else {
            LevelBucket::Idle
        };
        if !self.has_tray {
            return None;
        }
        let icon: Option<LevelBucket> = if bucket != self.current_bucket {
            Some(bucket)
        } else {
            None
        };
        self.current_bucket = bucket;
        let tooltip = if self.mixing {
            level::write_mixing_tooltip(
                &self.vbcable_name,
                self.config.show_level_meter,
                peak,
                decibels,
            )
        } else {
            level::write_idle_tooltip(&self.vbcable_name)
        };
        Some(IconUpdate { icon, tooltip })
    }

    /// The tooltip that the tray icon starts with.
    pub fn initial_tooltip(&self) -> (tooltip: String)
        ensures
            tooltip@ == level::idle_tooltip(level::name_view(self.vbcable_name)),
    {
        level::write_idle_tooltip(&self.vbcable_name)
    }

    /// Selects a microphone.  Mixing does not start by that.
    pub fn select_mic(&mut self, device_id: &str) -> (effects: Vec<Effect>)
        ensures
            menu::choice_view(final(self).selected_mic_id) == Some(device_id@),
            menu::choice_view(final(self).config.mic_device_id) == Some(device_id@),
            *final(self) == (TrayApp {
                selected_mic_id: final(self).selected_mic_id,
                config: Config {
                    mic_device_id: final(self).config.mic_device_id,
                    ..old(self).config
                },
                ..*old(self)
            }),
            effects@ == seq![Effect::SaveConfig, Effect::CheckRows(MenuSection::Microphone)],
            old(self).source_is_not_destination() ==> final(self).source_is_not_destination(),
    {
        self.selected_mic_id = Some(device_id.to_owned());
        self.config.mic_device_id = Some(device_id.to_owned());
        vec![Effect::SaveConfig, Effect::CheckRows(MenuSection::Microphone)]
    }

    /// Selects an output device, or the system's default.  Mixing does not
    /// start by that.  The destination of the mix is refused, and then only the
    /// check marks are to be put back.
    pub fn select_system_source(&mut self, device_id: Option<String>) -> (effects: Vec<Effect>)
        ensures
            old(self).is_destination(device_id) ==> {
                &&& *final(self) == *old(self)
                &&& effects@ == refuse_source()
            },
            !old(self).is_destination(device_id) ==> {
                &&& *final(self) == (TrayApp {
                    selected_system_source_id: device_id,
                    config: Config { system_source_device_id: device_id, ..old(self).config },
                    ..*old(self)
                })
                &&& effects@ == seq![
                    Effect::SaveConfig,
                    Effect::CheckRows(MenuSection::SystemSource),
                ]
            },
            old(self).source_is_not_destination() ==> final(self).source_is_not_destination(),
    {
        if check_destination(&self.vbcable_id, &device_id) {
            return vec![
                Effect::Refuse(Refusal::SourceIsDestination),
                Effect::CheckRows(MenuSection::SystemSource),
            ];
        }
        self.config.system_source_device_id = menu::copy_choice(&device_id);
        self.selected_system_source_id = device_id;
        vec![Effect::SaveConfig, Effect::CheckRows(MenuSection::SystemSource)]
    }

    /// Which rows of a selector are checked.
    pub fn checked_rows(&self, section: MenuSection) -> (checked: Vec<bool>)
        ensures
            ({
                let (entries, selected) = match section {
                    MenuSection::Microphone => (
                        self.mic_group.id_map@,
                        menu::choice_view(self.selected_mic_id),
                    ),
                    MenuSection::SystemSource => (
                        self.system_source_group.id_map@,
                        menu::choice_view(self.selected_system_source_id),
                    ),
                };
                checked@ == Seq::new(
                    entries.len(),
                    |i: int| menu::is_choice(entries[i].value, selected),
                )
            }),
    {
        match section {
            MenuSection::Microphone => {
                let selected = match &self.selected_mic_id {
                    Some(id) => Some(id.as_str()),
                    None => None,
                };
                self.mic_group.set_checked_by_value(selected)
            },
            MenuSection::SystemSource => {
                let selected = match &self.selected_system_source_id {
                    Some(id) => Some(id.as_str()),
                    None => None,
                };
                self.system_source_group.set_checked_by_value(selected)
            },
        }
    }

    /// Routes a click on a menu row to the selector that has the row, or ends
    /// the application.
    pub fn handle_menu_event(&mut self, menu_id: &str) -> (effects: Vec<Effect>)
        ensures
            ({
                let app = *old(self);
                let mic = menu::value_of(app.mic_group.id_map@, menu_id@);
                let source = menu::value_of(app.system_source_group.id_map@, menu_id@);
                if menu::choice_view(app.quit_item_id) == Some(menu_id@) {
                    &&& *final(self) == (TrayApp { mixing: false, ..app })
                    &&& effects@ == stop_effects(app.mixing).push(Effect::DropTray)
                } else if mic matches Some(Some(id)) {
                    &&& menu::choice_view(final(self).selected_mic_id) == menu::choice_view(mic->0)
                    &&& menu::choice_view(final(self).config.mic_device_id) == menu::choice_view(
                        mic->0,
                    )
                    &&& *final(self) == (TrayApp {
                        selected_mic_id: final(self).selected_mic_id,
                        config: Config {
                            mic_device_id: final(self).config.mic_device_id,
                            ..app.config
                        },
                        ..app
                    })
                    &&& effects@ == seq![
                        Effect::SaveConfig,
                        Effect::CheckRows(MenuSection::Microphone),
                    ]
                } else if source is Some && app.is_destination(source->0) {
                    &&& *final(self) == app
                    &&& effects@ == refuse_source()
                } else if source is Some {
                    &&& *final(self) == (TrayApp {
                        selected_system_source_id: source->0,
                        config: Config { system_source_device_id: source->0, ..app.config },
                        ..app
                    })
                    &&& effects@ == seq![
                        Effect::SaveConfig,
                        Effect::CheckRows(MenuSection::SystemSource),
                    ]
                } else {
                    &&& *final(self) == app
                    &&& effects@ == Seq::<Effect>::empty()
                }
            }),
            old(self).selections_present() ==> final(self).selections_present(),
            old(self).source_is_not_destination() ==> final(self).source_is_not_destination(),
    {
        proof {
            menu::lemma_value_from_entry(self.mic_group.id_map@, menu_id@);
            menu::lemma_value_from_entry(self.system_source_group.id_map@, menu_id@);
        }
        if menu::same_choice(&self.quit_item_id, Some(menu_id)) {
            let mut effects = self.stop_mixing();
            effects.push(Effect::DropTray);
            return effects;
        }
        if let Some(Some(device_id)) = self.mic_group.resolve(menu_id) {
            return self.select_mic(device_id.as_str());
        }
        if let Some(value) = self.system_source_group.resolve(menu_id) {
            return self.select_system_source(value);
        }
        Vec::new()
    }

    /// Handles an event of the tray icon: releasing the left button over it
    /// toggles mixing, and nothing else does anything.
    pub fn handle_tray_event(&mut self, event: TrayEvent) -> (effects: Vec<Effect>)
        ensures
            event == (TrayEvent::Click { button: MouseButton::Left, up: true }) ==> {
                &&& *final(self) == (TrayApp { mixing: false, ..*old(self) })
                &&& effects@ == (if old(self).mixing {
                    stop_effects(true)
                } else {
                    seq![old(self).start_request()]
                })
            },
            event != (TrayEvent::Click { button: MouseButton::Left, up: true }) ==> {
                &&& *final(self) == *old(self)
                &&& effects@ == Seq::<Effect>::empty()
            },
    {
        match event {
            TrayEvent::Click { button: MouseButton::Left, up: true } => self.toggle_mixing(),
            _ => Vec::new(),
        }
    }

    /// Takes note that the icon is in the tray.
    pub fn tray_created(&mut self)
        ensures
            *final(self) == (TrayApp { has_tray: true, ..*old(self) }),
    {
        self.has_tray = true;
    }

    /// Takes note that the icon is no longer in the tray.
    pub fn tray_dropped(&mut self)
        ensures
            *final(self) == (TrayApp { has_tray: false, ..*old(self) }),
    {
        self.has_tray = false;
    }

    /// Whether the application is to end: its icon has left the tray.
    pub fn should_exit(&self) -> (exit: bool)
        ensures
            exit == !self.has_tray,
    {
        !self.has_tray
    }

    /// Schedules the next poll of the level meter.
    pub fn schedule_tick(&mut self, now: u64)
        requires
            now + TICK_INTERVAL_NS <= u64::MAX,
        ensures
            *final(self) == (TrayApp {
                next_tick: (now + TICK_INTERVAL_NS) as u64,
                ..*old(self)
            }),
    {
        self.next_tick = now + TICK_INTERVAL_NS;
    }

    /// Whether the level meter is due to be polled; if so, schedules the poll
    /// after this one.
    pub fn tick(&mut self, now: u64) -> (due: bool)
        requires
            now + TICK_INTERVAL_NS <= u64::MAX,
        ensures
            due == (now >= old(self).next_tick),
            due ==> *final(self) == (TrayApp {
                next_tick: (now + TICK_INTERVAL_NS) as u64,
                ..*old(self)
            }),
            !due ==> *final(self) == *old(self),
    {
        if now >= self.next_tick {
            self.schedule_tick(now);
            true
        } else {
            false
        }
    }
}

/// Once the icon shows a level it is not painted again until the level changes.
pub proof fn law_repaint_only_on_change(current: LevelBucket, shown: LevelBucket, next: LevelBucket)
    ensures
        repaint(shown, next) is None <==> next == shown,
        repaint(current, shown) matches Some(b) ==> b == shown && b != current,
{
}

/// A mixing application never looks idle, and one that does not mix always
/// does, whatever its meter says.
pub proof fn law_idle_look(mixing: bool, show_level_meter: bool, peak: u16)
    ensures
        shown_level(mixing, show_level_meter, peak) == LevelBucket::Idle <==> !mixing,
{
}

/// A saved selection is restored as long as its device is present, and a saved
/// source as long as it is not the destination either.
pub proof fn law_selection_restored(
    devices: Seq<DeviceInfo>,
    id: String,
    destination: Option<String>,
)
    requires
        has_device(devices, id@),
    ensures
        saved_or_first(devices, Some(id)) == Some(id),
        source_beside(destination, saved_device(devices, Some(id))) == (if destination matches Some(
            d,
        ) && d@ == id@ {
            None
        } else {
            Some(id)
        }),
{
}

/// What is selected at the start is a device that is present.
pub proof fn law_selection_is_present(devices: Seq<DeviceInfo>, saved: Option<String>)
    ensures
        saved_or_first(devices, saved) matches Some(id) ==> has_device(devices, id@),
        saved_device(devices, saved) matches Some(id) ==> has_device(devices, id@),
        saved_or_first(devices, saved) is None <==> devices.len() == 0,
{
    if devices.len() > 0 {
        assert(devices[0].id@ == devices[0].id@);
    }
}

/// Where no cable is installed and no destination is pinned, mixing does not
/// start.
pub proof fn law_no_cable_no_start(app: TrayApp, all_devices: Seq<DeviceInfo>, pinned: Option<String>)
    requires
        app.vbcable_id == id_of(destination(all_devices, pinned)),
        pinned_device(all_devices, pinned) is None,
        forall|i: int|
            0 <= i < all_devices.len() ==> devices::cable_tier_of(#[trigger] all_devices[i]) is None,
    ensures
        app.start_request() is Refuse,
{
    devices::law_destination_is_a_cable(all_devices);
}

/// No row of the output selector stands for a virtual cable.
pub proof fn law_output_rows_are_no_cables(all_devices: Seq<DeviceInfo>, c: menu::MenuContent, i: int)
    requires
        c.outputs == devices::real_devices(all_devices, DeviceDirection::Render),
        0 < i < menu::output_choices(c).len(),
    ensures
        menu::output_choices(c)[i]->value == Some(c.outputs[i - 1].id@),
        devices::is_real(c.outputs[i - 1], DeviceDirection::Render),
        all_devices.contains(c.outputs[i - 1]),
{
    let d = c.outputs[i - 1];
    assert(c.outputs.contains(d));
    devices::law_real_devices(all_devices, DeviceDirection::Render, d);
}

/// The selectors of a menu that shows the application's state offer only what
/// is present.
proof fn lemma_entries_present(app: TrayApp, rows: Seq<MenuRow>, ids: Seq<String>)
    requires
        menu::row_views(rows) == menu::menu_of(app.menu_content()),
    ensures
        forall|k: int|
            0 <= k < menu::entries_of(rows, ids, MenuSection::Microphone).len() ==> is_present(
                app.input_devices@,
                #[trigger] menu::entries_of(rows, ids, MenuSection::Microphone)[k].value,
            ),
        forall|k: int|
            0 <= k < menu::entries_of(rows, ids, MenuSection::SystemSource).len() ==> is_present(
                app.render_devices@,
                #[trigger] menu::entries_of(rows, ids, MenuSection::SystemSource)[k].value,
            ),
{
    let c = app.menu_content();
    assert forall|section: MenuSection, k: int|
        0 <= k < menu::entries_of(rows, ids, section).len() implies is_present(
        match section {
            MenuSection::Microphone => app.input_devices@,
            MenuSection::SystemSource => app.render_devices@,
        },
        #[trigger] menu::entries_of(rows, ids, section)[k].value,
    ) by {
        menu::lemma_entry_from_row(rows, ids, section, k);
        let i = choose|i: int|
            0 <= i < rows.len() && (#[trigger] rows[i] matches MenuRow::Choice {
                section: s,
                value,
                ..
            } && s == section && value == menu::entries_of(rows, ids, section)[k].value);
        assert(menu::row_views(rows)[i] == rows[i]@);
        menu::law_rows_stand_for_devices(c, i);
    }
}

/// What the application selects stays present, and its source stays apart from
/// its destination: whatever leaves its devices, selections and selectors alone
/// keeps both true.
pub proof fn law_selections_stay_present(before: TrayApp, after: TrayApp)
    requires
        before.selections_present(),
        before.source_is_not_destination(),
        after == (TrayApp {
            has_tray: after.has_tray,
            mixing: after.mixing,
            config: after.config,
            current_bucket: after.current_bucket,
            next_tick: after.next_tick,
            ..before
        }),
    ensures
        after.selections_present(),
        after.source_is_not_destination(),
{
}

/// The output selector does not list the destination: where no other render
/// device has the destination's identifier, no device of the selector has it,
/// save the destination itself where the user has pinned one that can be
/// listened through, which selecting refuses.
pub proof fn law_outputs_exclude_destination(
    all_devices: Seq<DeviceInfo>,
    pinned: Option<String>,
    source: DeviceInfo,
)
    requires
        destination(all_devices, pinned) matches Some(d) ==> devices::only_with_its_id(
            all_devices,
            d,
        ),
        devices::real_devices(all_devices, DeviceDirection::Render).contains(source),
        pinned_device(all_devices, pinned) != Some(source),
    ensures
        destination(all_devices, pinned) matches Some(d) ==> source.id@ != d.id@,
{
    devices::law_real_devices(all_devices, DeviceDirection::Render, source);
    devices::law_destination_is_a_cable(all_devices);
    let i = choose|i: int| 0 <= i < all_devices.len() && #[trigger] all_devices[i] == source;
    assert(all_devices[i].direction == DeviceDirection::Render);
}

/// The mix is never fed back into itself: an application whose source is not its
/// destination, as holds from the start and of every selection, never asks for a
/// pipeline that captures what it writes.
pub proof fn law_source_is_not_destination(app: TrayApp)
    requires
        app.source_is_not_destination(),
    ensures
        app.start_request() matches Effect::StartPipeline { system_source, output, .. } ==> (
        system_source matches Some(source) ==> source@ != output@),
{
}

/// The first render device with an identifier.
proof fn lemma_render_device(devices: Seq<DeviceInfo>, id: Seq<char>)
    ensures
        match render_device(devices, id) {
            None => forall|j: int|
                0 <= j < devices.len() && #[trigger] devices[j].direction == DeviceDirection::Render
                    ==> devices[j].id@ != id,
            Some(d) => exists|k: int|
                0 <= k < devices.len() && #[trigger] devices[k] == d && d.direction
                    == DeviceDirection::Render && d.id@ == id && (forall|j: int|
                    0 <= j < k && #[trigger] devices[j].direction == DeviceDirection::Render
                        ==> devices[j].id@ != id),
        },
    decreases devices.len(),
{
    if devices.len() > 0 {
        let rest = devices.drop_last();
        lemma_render_device(rest, id);
        if let Some(d) = render_device(rest, id) {
            let k = choose|k: int|
                0 <= k < rest.len() && #[trigger] rest[k] == d && d.direction
                    == DeviceDirection::Render && d.id@ == id && (forall|j: int|
                    0 <= j < k && #[trigger] rest[j].direction == DeviceDirection::Render
                        ==> rest[j].id@ != id);
            assert(devices[k] == d);
            assert forall|j: int|
                0 <= j < k && #[trigger] devices[j].direction
                    == DeviceDirection::Render implies devices[j].id@ != id by {
                assert(rest[j].direction == DeviceDirection::Render);
            }
        } else {
            let last = devices.len() - 1;
            assert forall|j: int|
                0 <= j < last && #[trigger] devices[j].direction
                    == DeviceDirection::Render implies devices[j].id@ != id by {
                assert(rest[j].direction == DeviceDirection::Render);
            }
            if render_device(devices, id) is Some {
                assert(devices[last] == devices.last());
            }
        }
    }
}

/// A pinned device that is present is the destination, whatever its name: the
/// first render device that has the pinned identifier.
pub proof fn law_pinned_device_is_the_destination(
    devices: Seq<DeviceInfo>,
    pinned: String,
    k: int,
)
    requires
        0 <= k < devices.len(),
        devices[k].direction == DeviceDirection::Render,
        devices[k].id@ == pinned@,
        forall|j: int|
            0 <= j < k && #[trigger] devices[j].direction == DeviceDirection::Render
                ==> devices[j].id@ != pinned@,
    ensures
        destination(devices, Some(pinned)) == Some(devices[k]),
        pinned_device(devices, Some(pinned)) == Some(devices[k]),
{
    lemma_render_device(devices, pinned@);
    assert(devices[k].direction == DeviceDirection::Render);
}

/// Where nothing is pinned, or no render device has the pinned identifier, the
/// destination is the preferred cable.
pub proof fn law_cable_is_the_destination(devices: Seq<DeviceInfo>, pinned: Option<String>)
    requires
        forall|j: int|
            0 <= j < devices.len() && #[trigger] devices[j].direction == DeviceDirection::Render
                ==> (pinned matches Some(id) ==> devices[j].id@ != id@),
    ensures
        destination(devices, pinned) == devices::best_cable(devices),
        pinned_device(devices, pinned) is None,
{
    if let Some(id) = pinned {
        lemma_render_device(devices, id@);
        if let Some(d) = render_device(devices, id@) {
            let k = choose|k: int|
                0 <= k < devices.len() && #[trigger] devices[k] == d && d.direction
                    == DeviceDirection::Render && d.id@ == id@;
            assert(devices[k].direction == DeviceDirection::Render);
        }
    }
}

/// A destination is known by its own identifier and its own name.
pub proof fn law_destination_is_known(d: DeviceInfo)
    ensures
        id_of(Some(d)) == Some(d.id),
        name_of(Some(d)) == Some(d.name),
        id_of(None) is None,
        name_of(None) is None,
{
}

/// At the start a saved device that is listed is selected.  Otherwise the first
/// microphone is, if there is one, and for the source the default.  A source
/// that would be the destination gives way to the default.
pub proof fn law_start_selection(
    devices: Seq<DeviceInfo>,
    saved: String,
    destination: Option<String>,
    k: int,
)
    ensures
        0 <= k < devices.len() && devices[k].id@ == saved@ ==> saved_or_first(devices, Some(saved))
            == Some(saved) && saved_device(devices, Some(saved)) == Some(saved),
        (forall|j: int| 0 <= j < devices.len() ==> #[trigger] devices[j].id@ != saved@)
            ==> saved_or_first(devices, Some(saved)) == saved_or_first(devices, None)
            && saved_device(devices, Some(saved)) is None,
        devices.len() > 0 ==> saved_or_first(devices, None) == Some(devices[0].id),
        devices.len() == 0 ==> saved_or_first(devices, None) is None,
        saved_device(devices, None) is None,
        source_beside(destination, None) is None,
        destination is None ==> source_beside(destination, Some(saved)) == Some(saved),
        destination matches Some(d) ==> (if d@ == saved@ {
            source_beside(destination, Some(saved)) is None
        } else {
            source_beside(destination, Some(saved)) == Some(saved)
        }),
{
}

/// A start asks for a pipeline exactly when a microphone is selected and there
/// is a destination, and then for the selected microphone, the selected source
/// and that destination; otherwise it is refused for what is missing.
pub proof fn law_start_uses_the_selection(app: TrayApp)
    ensures
        app.start_request() is StartPipeline <==> app.selected_mic_id is Some
            && app.vbcable_id is Some,
        app.start_request() matches Effect::StartPipeline { mic, system_source, output } ==> {
            &&& app.selected_mic_id == Some(mic)
            &&& app.selected_system_source_id == system_source
            &&& app.vbcable_id == Some(output)
        },
        app.selected_mic_id is None ==> app.start_request() == Effect::Refuse(
            Refusal::NoMicrophone,
        ),
        app.selected_mic_id is Some && app.vbcable_id is None ==> app.start_request()
            == Effect::Refuse(Refusal::NoCable),
{
}

/// What was selected last is what a start uses: after a microphone and a source
/// have been selected, a start asks for a pipeline from just these.
pub proof fn law_selected_devices_are_started(
    app: TrayApp,
    mic_id: Seq<char>,
    source: Option<Seq<char>>,
)
    requires
        menu::choice_view(app.selected_mic_id) == Some(mic_id),
        menu::choice_view(app.selected_system_source_id) == source,
        app.vbcable_id is Some,
    ensures
        app.start_request() matches Effect::StartPipeline { mic, system_source, output } && mic@
            == mic_id && (match system_source {
            Some(s) => source == Some(s@),
            None => source is None,
        }) && Some(output) == app.vbcable_id,
{
}

/// A stop ends the pipeline where one runs, and then brings the icon and the
/// menu up to date, in this order.
pub proof fn law_stop_effects(mixing: bool)
    ensures
        mixing ==> stop_effects(mixing).len() == 3 && stop_effects(mixing)[0]
            == Effect::StopPipeline,
        !mixing ==> stop_effects(mixing).len() == 2,
        stop_effects(mixing).last() == Effect::RebuildMenu,
        stop_effects(mixing)[stop_effects(mixing).len() - 2] == Effect::RefreshIcon,
        refuse_source().len() == 2,
        refuse_source()[0] == Effect::Refuse(Refusal::SourceIsDestination),
        refuse_source()[1] == Effect::CheckRows(MenuSection::SystemSource),
{
}

/// The icon shows idle while nothing is mixed, the level of the peak while the
/// meter is on, and plain green while it is off.
pub proof fn law_shown_level(show_level_meter: bool, peak: u16)
    ensures
        shown_level(false, show_level_meter, peak) == LevelBucket::Idle,
        shown_level(true, false, peak) == LevelBucket::Low,
        shown_level(true, true, peak) == LevelBucket::Silent <==> peak <= 327,
        shown_level(true, true, peak) == LevelBucket::Low <==> 328 <= peak <= 3276,
        shown_level(true, true, peak) == LevelBucket::Mid <==> 3277 <= peak <= 22937,
        shown_level(true, true, peak) == LevelBucket::Clip <==> 22938 <= peak,
{
    level::law_level_bounds(peak);
}

/// The menu shows the application's own devices, default, selections and state.
pub proof fn law_menu_shows_the_state(app: TrayApp)
    ensures
        app.menu_content().inputs == app.input_devices@,
        app.menu_content().outputs == app.render_devices@,
        app.menu_content().mixing == app.mixing,
        app.default_render_id matches Some(id) ==> app.menu_content().default_output == Some(id@),
        app.default_render_id is None ==> app.menu_content().default_output is None,
        app.selected_mic_id matches Some(id) ==> app.menu_content().selected_input == Some(id@),
        app.selected_mic_id is None ==> app.menu_content().selected_input is None,
        app.selected_system_source_id matches Some(id) ==> app.menu_content().selected_output
            == Some(id@),
        app.selected_system_source_id is None ==> app.menu_content().selected_output is None,
{
}

/// Only the device with the destination's identifier is the destination, and a
/// source is apart from it exactly when its identifier is another.
pub proof fn law_what_is_the_destination(app: TrayApp, choice: Option<String>)
    ensures
        choice is None || app.vbcable_id is None ==> !app.is_destination(choice),
        choice matches Some(c) ==> (app.vbcable_id matches Some(d) ==> app.is_destination(choice)
            == (c@ == d@)),
        app.source_is_not_destination() == !app.is_destination(app.selected_system_source_id),
        app.wf() == (app.vbcable_id is Some == app.vbcable_name is Some),
{
}

/// A device is present exactly when one of the list has its identifier.
pub proof fn law_what_is_present(devices: Seq<DeviceInfo>, id: String, k: int)
    ensures
        0 <= k < devices.len() && devices[k].id@ == id@ ==> has_device(devices, id@) && is_present(
            devices,
            Some(id),
        ),
        (forall|j: int| 0 <= j < devices.len() ==> #[trigger] devices[j].id@ != id@)
            ==> !has_device(devices, id@) && !is_present(devices, Some(id)),
        is_present(devices, None),
{
}

} // verus!
