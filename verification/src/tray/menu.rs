//! The tray menu: its rows, and what selecting one of them means.

use vstd::prelude::*;

use crate::audio::devices::DeviceInfo;
use crate::text;

verus! {

/// The selectors of the menu.
#[derive(Clone, Copy, Debug, PartialEq, Eq, Structural)]
pub enum MenuSection {
    /// The input microphone.
    Microphone,
    /// The output sound: what the user listens through, and what is captured.
    SystemSource,
}

/// A row of the menu.
#[derive(Debug)]
pub enum MenuRow {
    /// A section label, which cannot be clicked.
    Header(String),
    /// A row that can be selected.  Its value is a device, or `None` for
    /// whatever device is the default.
    Choice {
        section: MenuSection,
        label: String,
        enabled: bool,
        checked: bool,
        value: Option<String>,
    },
    /// A remark, which cannot be clicked.
    Note(String),
    Separator,
    /// The row that ends the application.
    Quit(String),
}

/// A row of the menu, with its texts as characters.
pub enum RowView {
    Header(Seq<char>),
    Choice {
        section: MenuSection,
        label: Seq<char>,
        enabled: bool,
        checked: bool,
        value: Option<Seq<char>>,
    },
    Note(Seq<char>),
    Separator,
    Quit(Seq<char>),
}

/// The text, if there is one, by its characters.
pub open spec fn choice_view(value: Option<String>) -> Option<Seq<char>> {
    match value {
        Some(s) => Some(s@),
        None => None,
    }
}

impl View for MenuRow {
    type V = RowView;

    open spec fn view(&self) -> RowView {
        match *self {
            MenuRow::Header(label) => RowView::Header(label@),
            MenuRow::Choice { section, label, enabled, checked, value } => RowView::Choice {
                section,
                label: label@,
                enabled,
                checked,
                value: choice_view(value),
            },
            MenuRow::Note(label) => RowView::Note(label@),
            MenuRow::Separator => RowView::Separator,
            MenuRow::Quit(label) => RowView::Quit(label@),
        }
    }
}

/// The rows, with their texts as characters.
pub open spec fn row_views(rows: Seq<MenuRow>) -> Seq<RowView> {
    Seq::new(rows.len(), |i: int| rows[i]@)
}

/// One row per device, checked where the device is the selected one, and
/// enabled as given.
pub open spec fn device_rows(
    section: MenuSection,
    devices: Seq<DeviceInfo>,
    selected: Option<Seq<char>>,
    enabled: bool,
) -> Seq<RowView> {
    Seq::new(
        devices.len(),
        |i: int|
            RowView::Choice {
                section,
                label: devices[i].name@,
                enabled,
                checked: selected == Some(devices[i].id@),
                value: Some(devices[i].id@),
            },
    )
}

/// The name of the first device with the given identifier.
pub open spec fn name_of(devices: Seq<DeviceInfo>, id: Seq<char>) -> Option<Seq<char>>
    decreases devices.len(),
{
    if devices.len() == 0 {
        None
    } else {
        match name_of(devices.drop_last(), id) {
            Some(name) => Some(name),
            None => if devices.last().id@ == id {
                Some(devices.last().name@)
            } else {
                None
            },
        }
    }
}

/// The label of the row for the default device, which names that device where
/// it is one that can be listened through.
pub open spec fn default_label(default_id: Option<Seq<char>>, devices: Seq<DeviceInfo>) -> Seq<
    char,
> {
    match default_id {
        None => "(Windows default)"@,
        Some(id) => match name_of(devices, id) {
            None => "(Windows default)"@,
            Some(name) => "(Windows default — "@ + name + ")"@,
        },
    }
}

/// What the menu shows.
pub struct MenuContent {
    pub inputs: Seq<DeviceInfo>,
    pub outputs: Seq<DeviceInfo>,
    pub default_output: Option<Seq<char>>,
    pub selected_input: Option<Seq<char>>,
    pub selected_output: Option<Seq<char>>,
    pub mixing: bool,
}

/// The remark, where there are no devices.
pub open spec fn note_if_empty(devices: Seq<DeviceInfo>, note: Seq<char>) -> Seq<RowView> {
    if devices.len() == 0 {
        seq![RowView::Note(note)]
    } else {
        Seq::empty()
    }
}

/// The section of the microphones.
pub open spec fn input_section(c: MenuContent) -> Seq<RowView> {
    seq![RowView::Header("\u{1F399}  Input microphone:"@)] + device_rows(
        MenuSection::Microphone,
        c.inputs,
        c.selected_input,
        !c.mixing,
    ) + note_if_empty(c.inputs, "(no microphones found)"@)
}

/// The row for the default output device, and one for each output device.
pub open spec fn output_choices(c: MenuContent) -> Seq<RowView> {
    seq![
        RowView::Choice {
            section: MenuSection::SystemSource,
            label: default_label(c.default_output, c.outputs),
            enabled: !c.mixing,
            checked: c.selected_output is None,
            value: None,
        },
    ] + device_rows(MenuSection::SystemSource, c.outputs, c.selected_output, !c.mixing)
}

/// The section of the output devices.
pub open spec fn output_section(c: MenuContent) -> Seq<RowView> {
    seq![RowView::Header("\u{1F50A} Output sound (what you hear):"@)] + output_choices(c)
        + note_if_empty(c.outputs, "(no output devices found)"@)
}

/// All rows of the menu: the two sections, and the row that ends the
/// application.
pub open spec fn menu_of(c: MenuContent) -> Seq<RowView> {
    input_section(c) + seq![RowView::Separator] + output_section(c) + seq![
        RowView::Separator,
        RowView::Quit("Quit"@),
    ]
}

/// Whether a selection is the given device, or the default where none is given.
pub open spec fn is_choice(value: Option<String>, target: Option<Seq<char>>) -> bool {
    choice_view(value) == target
}

/// A copy of a selection.
pub fn copy_choice(value: &Option<String>) -> (copy: Option<String>)
    ensures
        copy == *value,
{
    match value {
        Some(s) => Some(s.clone()),
        None => None,
    }
}

/// Whether a selection is the given device, or the default where none is given.
pub fn same_choice(value: &Option<String>, target: Option<&str>) -> (same: bool)
    ensures
        same == is_choice(
            *value,
            match target {
                Some(t) => Some(t@),
                None => None,
            },
        ),
{
    match (value, target) {
        (None, None) => true,
        (Some(v), Some(t)) => text::same_text(v.as_str(), t),
        _ => false,
    }
}

/// Appends one row per device.
pub fn push_device_rows(
    rows: &mut Vec<MenuRow>,
    section: MenuSection,
    devices: &[DeviceInfo],
    selected: &Option<String>,
    enabled: bool,
)
    ensures
        row_views(final(rows)@) == row_views(old(rows)@) + device_rows(
            section,
            devices@,
            choice_view(*selected),
            enabled,
        ),
{
    let ghost before = row_views(rows@);
    let ghost added = device_rows(section, devices@, choice_view(*selected), enabled);
    let mut i: usize = 0;
    while i < devices.len()
        invariant
            i <= devices@.len(),
            added == device_rows(section, devices@, choice_view(*selected), enabled),
            row_views(rows@) =~= before + added.take(i as int),
        decreases devices@.len() - i,
    {
        let device = &devices[i];
        let checked: bool = same_choice(selected, Some(device.id.as_str()));
        let ghost so_far = rows@;
        rows.push(
            MenuRow::Choice {
                section,
                label: device.name.clone(),
                enabled,
                checked,
                value: Some(device.id.clone()),
            },
        );
        assert(rows@.last()@ == added[i as int]);
        assert(row_views(rows@) =~= row_views(so_far).push(added[i as int]));
        assert(added.take(i + 1) =~= added.take(i as int).push(added[i as int]));
        i = i + 1;
    }
    assert(added.take(i as int) =~= added);
}

/// Appends one row.
pub fn push_row(rows: &mut Vec<MenuRow>, row: MenuRow)
    ensures
        row_views(final(rows)@) == row_views(old(rows)@).push(row@),
{
    let ghost before = rows@;
    rows.push(row);
    assert(row_views(rows@) =~= row_views(before).push(row@));
}

/// Writes the label of the row for the default device.
pub fn write_default_label(default_id: &Option<String>, devices: &[DeviceInfo]) -> (label: String)
    ensures
        label@ == default_label(choice_view(*default_id), devices@),
{
    if let Some(id) = default_id {
        let mut i: usize = 0;
        while i < devices.len()
            invariant
                i <= devices@.len(),
                *default_id == Some(*id),
                name_of(devices@.take(i as int), id@) is None,
            decreases devices@.len() - i,
        {
            assert(devices@.take(i + 1).drop_last() =~= devices@.take(i as int));
            if text::same_text(devices[i].id.as_str(), id.as_str()) {
                let mut label = "(Windows default — ".to_owned();
                label.append(devices[i].name.as_str());
                label.append(")");
                proof {
                    assert(name_of(devices@.take(i + 1), id@) == Some(devices@[i as int].name@));
                    lemma_name_of_first(devices@, id@, i + 1);
                }
                return label;
            }
            i = i + 1;
        }
        assert(devices@.take(i as int) =~= devices@);
    }
    "(Windows default)".to_owned()
}

/// More devices after it do not change which device is the first.
proof fn lemma_name_of_first(devices: Seq<DeviceInfo>, id: Seq<char>, i: int)
    requires
        0 <= i <= devices.len(),
        name_of(devices.take(i), id) is Some,
    ensures
        name_of(devices, id) == name_of(devices.take(i), id),
    decreases devices.len(),
{
    if i == devices.len() {
        assert(devices.take(i) =~= devices);
    } else {
        assert(devices.drop_last().take(i) =~= devices.take(i));
        lemma_name_of_first(devices.drop_last(), id, i);
    }
}

/// A selectable row: the identifier that the menu has given it, and its value.
#[derive(Debug)]
pub struct MenuEntry {
    pub menu_id: String,
    pub value: Option<String>,
}

/// The value of the first entry with the given identifier.
pub open spec fn value_of(entries: Seq<MenuEntry>, menu_id: Seq<char>) -> Option<Option<String>>
    decreases entries.len(),
{
    if entries.len() == 0 {
        None
    } else {
        match value_of(entries.drop_last(), menu_id) {
            Some(value) => Some(value),
            None => if entries.last().menu_id@ == menu_id {
                Some(entries.last().value)
            } else {
                None
            },
        }
    }
}

/// The entries of a section, from the rows of a menu and the identifiers that
/// the rows have been given.
pub open spec fn entries_of(rows: Seq<MenuRow>, ids: Seq<String>, section: MenuSection) -> Seq<
    MenuEntry,
>
    decreases rows.len(),
{
    if rows.len() == 0 {
        Seq::empty()
    } else {
        let rest = entries_of(rows.drop_last(), ids, section);
        match rows.last() {
            MenuRow::Choice { section: s, value, .. } => if s == section {
                rest.push(MenuEntry { menu_id: ids[rows.len() - 1], value })
            } else {
                rest
            },
            _ => rest,
        }
    }
}

/// The identifier of the row that ends the application.
pub open spec fn quit_id_of(rows: Seq<MenuRow>, ids: Seq<String>) -> Option<String>
    decreases rows.len(),
{
    if rows.len() == 0 {
        None
    } else if rows.last() is Quit {
        Some(ids[rows.len() - 1])
    } else {
        quit_id_of(rows.drop_last(), ids)
    }
}

/// Finds the identifier of the row that ends the application.
pub fn find_quit_id(rows: &[MenuRow], ids: &[String]) -> (quit_id: Option<String>)
    requires
        rows@.len() == ids@.len(),
    ensures
        quit_id == quit_id_of(rows@, ids@),
{
    let mut quit_id: Option<String> = None;
    let mut i: usize = 0;
    while i < rows.len()
        invariant
            i <= rows@.len() == ids@.len(),
            quit_id == quit_id_of(rows@.take(i as int), ids@),
        decreases rows@.len() - i,
    {
        assert(rows@.take(i + 1).drop_last() =~= rows@.take(i as int));
        match &rows[i] {
            MenuRow::Quit(_) => {
                quit_id = Some(ids[i].clone());
            },
            _ => {},
        }
        i = i + 1;
    }
    assert(rows@.take(i as int) =~= rows@);
    quit_id
}

/// A selector of the menu: of its entries at most one is selected.
#[derive(Debug)]
pub struct MenuGroup {
    pub id_map: Vec<MenuEntry>,
}

impl MenuGroup {
    /// A selector without entries.
    pub fn new() -> (group: Self)
        ensures
            group.id_map@ == Seq::<MenuEntry>::empty(),
    {
        MenuGroup { id_map: Vec::new() }
    }

    /// Removes all entries.
    pub fn clear(&mut self)
        ensures
            final(self).id_map@ == Seq::<MenuEntry>::empty(),
    {
        self.id_map.clear();
    }

    /// The selection that the row with this identifier stands for, if the row
    /// belongs to this selector.
    pub fn resolve(&self, menu_id: &str) -> (value: Option<Option<String>>)
        ensures
            value == value_of(self.id_map@, menu_id@),
    {
        let mut i: usize = 0;
        while i < self.id_map.len()
            invariant
                i <= self.id_map@.len(),
                value_of(self.id_map@.take(i as int), menu_id@) is None,
            decreases self.id_map@.len() - i,
        {
            assert(self.id_map@.take(i + 1).drop_last() =~= self.id_map@.take(i as int));
            if text::same_text(self.id_map[i].menu_id.as_str(), menu_id) {
                proof {
                    assert(value_of(self.id_map@.take(i + 1), menu_id@) == Some(
                        self.id_map@[i as int].value,
                    ));
                    lemma_value_of_first(self.id_map@, menu_id@, i + 1);
                }
                return Some(copy_choice(&self.id_map[i].value));
            }
            i = i + 1;
        }
        assert(self.id_map@.take(i as int) =~= self.id_map@);
        None
    }

    /// Which rows of this selector are checked when `target` is selected.
    pub fn set_checked_by_value(&self, target: Option<&str>) -> (checked: Vec<bool>)
        ensures
            checked@ == Seq::new(
                self.id_map@.len(),
                |i: int|
                    is_choice(
                        self.id_map@[i].value,
                        match target {
                            Some(t) => Some(t@),
                            None => None,
                        },
                    ),
            ),
    {
        let ghost wanted = match target {
            Some(t) => Some(t@),
            None => None,
        };
        let mut checked: Vec<bool> = Vec::new();
        let mut i: usize = 0;
        while i < self.id_map.len()
            invariant
                i <= self.id_map@.len(),
                wanted == (match target {
                    Some(t) => Some(t@),
                    None => None,
                }),
                checked@ =~= Seq::new(
                    i as nat,
                    |j: int| is_choice(self.id_map@[j].value, wanted),
                ),
            decreases self.id_map@.len() - i,
        {
            checked.push(same_choice(&self.id_map[i].value, target));
            i = i + 1;
        }
        checked
    }

    /// Takes the entries of a section from the rows of a menu.
    pub fn bind(&mut self, rows: &[MenuRow], ids: &[String], section: MenuSection)
        requires
            rows@.len() == ids@.len(),
        ensures
            final(self).id_map@ == entries_of(rows@, ids@, section),
    {
        self.clear();
        let mut i: usize = 0;
        while i < rows.len()
            invariant
                i <= rows@.len() == ids@.len(),
                self.id_map@ == entries_of(rows@.take(i as int), ids@, section),
            decreases rows@.len() - i,
        {
            assert(rows@.take(i + 1).drop_last() =~= rows@.take(i as int));
            match &rows[i] {
                MenuRow::Choice { section: s, value, .. } => {
                    if *s == section {
                        self.id_map.push(
                            MenuEntry { menu_id: ids[i].clone(), value: copy_choice(value) },
                        );
                    }
                },
                _ => {},
            }
            i = i + 1;
        }
        assert(rows@.take(i as int) =~= rows@);
    }
}

/// More entries after it do not change which entry is the first.
proof fn lemma_value_of_first(entries: Seq<MenuEntry>, menu_id: Seq<char>, i: int)
    requires
        0 <= i <= entries.len(),
        value_of(entries.take(i), menu_id) is Some,
    ensures
        value_of(entries, menu_id) == value_of(entries.take(i), menu_id),
    decreases entries.len(),
{
    if i == entries.len() {
        assert(entries.take(i) =~= entries);
    } else {
        assert(entries.drop_last().take(i) =~= entries.take(i));
        lemma_value_of_first(entries.drop_last(), menu_id, i);
    }
}

/// The identifiers that the rows of a menu have been given are distinct.
pub open spec fn ids_distinct(ids: Seq<String>) -> bool {
    forall|i: int, j: int|
        0 <= i < ids.len() && 0 <= j < ids.len() && #[trigger] ids[i]@ == #[trigger] ids[j]@ ==> i
            == j
}

/// Clicking a row selects what the row stands for: its own selector resolves
/// it to its value, and the other selector does not know it.
pub proof fn law_rows_resolve(
    rows: Seq<MenuRow>,
    ids: Seq<String>,
    i: int,
    section: MenuSection,
)
    requires
        rows.len() == ids.len(),
        ids_distinct(ids),
        0 <= i < rows.len(),
    ensures
        value_of(entries_of(rows, ids, section), ids[i]@) == (match rows[i] {
            MenuRow::Choice { section: s, value, .. } => if s == section {
                Some(value)
            } else {
                None
            },
            _ => None,
        }),
{
    lemma_rows_resolve(rows, ids, i, section);
}

proof fn lemma_rows_resolve(
    rows: Seq<MenuRow>,
    ids: Seq<String>,
    i: int,
    section: MenuSection,
)
    requires
        rows.len() <= ids.len(),
        ids_distinct(ids),
        0 <= i < ids.len(),
    ensures
        value_of(entries_of(rows, ids, section), ids[i]@) == (if i >= rows.len() {
            None
        } else {
            match rows[i] {
                MenuRow::Choice { section: s, value, .. } => if s == section {
                    Some(value)
                } else {
                    None
                },
                _ => None,
            }
        }),
    decreases rows.len(),
{
    if rows.len() > 0 {
        lemma_rows_resolve(rows.drop_last(), ids, i, section);
        let rest = entries_of(rows.drop_last(), ids, section);
        let all = entries_of(rows, ids, section);
        if all.len() > rest.len() {
            assert(all.drop_last() =~= rest);
            assert(ids[rows.len() - 1]@ == ids[i]@ ==> i == rows.len() - 1);
        }
    }
}

/// Every entry of a selector has the value of some row.
pub proof fn lemma_entry_from_row(
    rows: Seq<MenuRow>,
    ids: Seq<String>,
    section: MenuSection,
    k: int,
)
    requires
        0 <= k < entries_of(rows, ids, section).len(),
    ensures
        exists|i: int|
            0 <= i < rows.len() && (#[trigger] rows[i] matches MenuRow::Choice {
                section: s,
                value,
                ..
            } && s == section && value == entries_of(rows, ids, section)[k].value),
    decreases rows.len(),
{
    let rest = entries_of(rows.drop_last(), ids, section);
    if k < rest.len() {
        lemma_entry_from_row(rows.drop_last(), ids, section, k);
        let i = choose|i: int|
            0 <= i < rows.drop_last().len() && (#[trigger] rows.drop_last()[i] matches MenuRow::Choice {
                section: s,
                value,
                ..
            } && s == section && value == rest[k].value);
        assert(rows[i] == rows.drop_last()[i]);
    } else {
        assert(rows[rows.len() - 1] == rows.last());
    }
}

/// What a selector resolves is the value of one of its entries.
pub proof fn lemma_value_from_entry(entries: Seq<MenuEntry>, menu_id: Seq<char>)
    ensures
        value_of(entries, menu_id) matches Some(value) ==> exists|k: int|
            0 <= k < entries.len() && #[trigger] entries[k].value == value,
    decreases entries.len(),
{
    if entries.len() > 0 {
        let rest = entries.drop_last();
        lemma_value_from_entry(rest, menu_id);
        if let Some(value) = value_of(rest, menu_id) {
            let k = choose|k: int| 0 <= k < rest.len() && #[trigger] rest[k].value == value;
            assert(entries[k].value == value);
        } else if value_of(entries, menu_id) is Some {
            assert(entries[entries.len() - 1].value == entries.last().value);
        }
    }
}

/// Every microphone row stands for a listed microphone, and every output row
/// for a listed output device or for the default.
pub proof fn law_rows_stand_for_devices(c: MenuContent, i: int)
    requires
        0 <= i < menu_of(c).len(),
    ensures
        menu_of(c)[i] matches RowView::Choice { section, value, .. } ==> match section {
            MenuSection::Microphone => exists|k: int|
                0 <= k < c.inputs.len() && value == Some(#[trigger] c.inputs[k].id@),
            MenuSection::SystemSource => value is None || exists|k: int|
                0 <= k < c.outputs.len() && value == Some(#[trigger] c.outputs[k].id@),
        },
{
    if let RowView::Choice { section, value, .. } = menu_of(c)[i] {
        match section {
            MenuSection::Microphone => {
                assert(value == Some(c.inputs[i - 1].id@));
            },
            MenuSection::SystemSource => {
                let j = i - input_section(c).len() - 2;
                if j > 0 {
                    assert(value == Some(c.outputs[j - 1].id@));
                }
            },
        }
    }
}

/// All selectors are disabled while mixing, and only then.
pub proof fn law_selectors_disabled_while_mixing(c: MenuContent, i: int)
    requires
        0 <= i < menu_of(c).len(),
    ensures
        menu_of(c)[i] matches RowView::Choice { enabled, .. } ==> enabled == !c.mixing,
{
}

/// The selection of a section.
pub open spec fn selected_in(c: MenuContent, section: MenuSection) -> Option<Seq<char>> {
    match section {
        MenuSection::Microphone => c.selected_input,
        MenuSection::SystemSource => c.selected_output,
    }
}

/// A row is checked exactly when its value is what its section has selected,
/// so a menu that is built anew shows the check marks that selecting set.
pub proof fn law_check_marks_show_selection(c: MenuContent, i: int)
    requires
        0 <= i < menu_of(c).len(),
    ensures
        menu_of(c)[i] matches RowView::Choice { section, checked, value, .. } ==> checked == (value
            == selected_in(c, section)),
{
}

/// A menu ends with the row that ends the application, and has no other such
/// row.
pub proof fn law_one_quit_row(c: MenuContent, i: int)
    requires
        0 <= i < menu_of(c).len(),
    ensures
        menu_of(c)[i] is Quit <==> i == menu_of(c).len() - 1,
{
}

/// Where the identifiers of the output devices are distinct and the selection
/// is one of them or the default, exactly one output row is checked.
pub proof fn law_one_output_checked(c: MenuContent)
    requires
        forall|i: int, j: int|
            0 <= i < c.outputs.len() && 0 <= j < c.outputs.len() && #[trigger] c.outputs[i].id@
                == #[trigger] c.outputs[j].id@ ==> i == j,
        c.selected_output matches Some(id) ==> exists|i: int|
            0 <= i < c.outputs.len() && #[trigger] c.outputs[i].id@ == id,
    ensures
        exists|i: int|
            {
                &&& 0 <= i < output_choices(c).len()
                &&& #[trigger] output_choices(c)[i]->checked
                &&& forall|j: int|
                    0 <= j < output_choices(c).len() && #[trigger] output_choices(c)[j]->checked
                        ==> i == j
            },
{
    let rows = output_choices(c);
    assert forall|j: int| 1 <= j < rows.len() implies #[trigger] rows[j]->checked == (
    c.selected_output == Some(c.outputs[j - 1].id@)) by {}
    match c.selected_output {
        None => {
            assert(rows[0]->checked);
        },
        Some(id) => {
            let k = choose|i: int| 0 <= i < c.outputs.len() && #[trigger] c.outputs[i].id@ == id;
            assert(rows[k + 1]->checked);
            assert forall|j: int| 0 <= j < rows.len() && #[trigger] rows[j]->checked implies k + 1
                == j by {
                if j > 0 {
                    assert(c.outputs[j - 1].id@ == c.outputs[k].id@);
                }
            }
        },
    }
}

/// The rows of the menu, from top to bottom: the microphones under their header,
/// or a remark where there are none; a separator; the default output and the
/// output devices under theirs, with a remark where there are none; a separator,
/// and the row that ends the application.  Device `i` and device `j` stand for
/// any microphone and any output device.
pub proof fn law_menu_layout(c: MenuContent, i: int, j: int)
    ensures
        ({
            let m = menu_of(c);
            let outputs = if c.inputs.len() == 0 { 2int } else { 1int + c.inputs.len() };
            let end = outputs + 3 + (if c.outputs.len() == 0 { 1int } else {
                c.outputs.len() as int
            });
            &&& m.len() == end + 2
            &&& m[0] == RowView::Header("\u{1F399}  Input microphone:"@)
            &&& 0 <= i < c.inputs.len() ==> m[1 + i] == (RowView::Choice {
                section: MenuSection::Microphone,
                label: c.inputs[i].name@,
                enabled: !c.mixing,
                checked: c.selected_input == Some(c.inputs[i].id@),
                value: Some(c.inputs[i].id@),
            })
            &&& c.inputs.len() == 0 ==> m[1] == RowView::Note("(no microphones found)"@)
            &&& m[outputs] == RowView::Separator
            &&& m[outputs + 1] == RowView::Header("\u{1F50A} Output sound (what you hear):"@)
            &&& m[outputs + 2] == (RowView::Choice {
                section: MenuSection::SystemSource,
                label: default_label(c.default_output, c.outputs),
                enabled: !c.mixing,
                checked: c.selected_output is None,
                value: None,
            })
            &&& 0 <= j < c.outputs.len() ==> m[outputs + 3 + j] == (RowView::Choice {
                section: MenuSection::SystemSource,
                label: c.outputs[j].name@,
                enabled: !c.mixing,
                checked: c.selected_output == Some(c.outputs[j].id@),
                value: Some(c.outputs[j].id@),
            })
            &&& c.outputs.len() == 0 ==> m[outputs + 3] == RowView::Note(
                "(no output devices found)"@,
            )
            &&& m[end] == RowView::Separator
            &&& m[end + 1] == RowView::Quit("Quit"@)
        }),
{
}

/// The row of the default names the first listed device that has the default's
/// identifier, and names none where none has it.
pub proof fn law_default_is_named(devices: Seq<DeviceInfo>, id: Seq<char>, k: int)
    ensures
        default_label(None, devices) == "(Windows default)"@,
        (forall|j: int| 0 <= j < devices.len() ==> #[trigger] devices[j].id@ != id)
            ==> default_label(Some(id), devices) == "(Windows default)"@,
        0 <= k < devices.len() && devices[k].id@ == id && (forall|j: int|
            0 <= j < k ==> #[trigger] devices[j].id@ != id) ==> default_label(Some(id), devices)
            == "(Windows default — "@ + devices[k].name@ + ")"@,
{
    lemma_name_of(devices, id);
}

proof fn lemma_name_of(devices: Seq<DeviceInfo>, id: Seq<char>)
    ensures
        match name_of(devices, id) {
            None => forall|j: int| 0 <= j < devices.len() ==> #[trigger] devices[j].id@ != id,
            Some(name) => exists|k: int|
                0 <= k < devices.len() && #[trigger] devices[k].id@ == id && devices[k].name@ == name
                    && (forall|j: int| 0 <= j < k ==> #[trigger] devices[j].id@ != id),
        },
    decreases devices.len(),
{
    if devices.len() > 0 {
        let rest = devices.drop_last();
        lemma_name_of(rest, id);
        if let Some(name) = name_of(rest, id) {
            let k = choose|k: int|
                0 <= k < rest.len() && #[trigger] rest[k].id@ == id && rest[k].name@ == name && (
                forall|j: int| 0 <= j < k ==> #[trigger] rest[j].id@ != id);
            assert(devices[k].id@ == id);
            assert forall|j: int| 0 <= j < k implies #[trigger] devices[j].id@ != id by {
                assert(rest[j].id@ != id);
            }
        } else {
            let last = devices.len() - 1;
            assert forall|j: int| 0 <= j < last implies #[trigger] devices[j].id@ != id by {
                assert(rest[j].id@ != id);
            }
            if devices.last().id@ == id {
                assert(devices[last].id@ == id);
            }
        }
    }
}

/// A row is seen with the very fields that it has.
pub proof fn law_rows_are_seen_as_they_are(
    rows: Seq<MenuRow>,
    i: int,
    section: MenuSection,
    label: String,
    enabled: bool,
    checked: bool,
    value: Option<String>,
)
    requires
        0 <= i < rows.len(),
    ensures
        row_views(rows).len() == rows.len(),
        row_views(rows)[i] == rows[i]@,
        (MenuRow::Choice { section, label, enabled, checked, value })@ == (RowView::Choice {
            section,
            label: label@,
            enabled,
            checked,
            value: choice_view(value),
        }),
        MenuRow::Header(label)@ == RowView::Header(label@),
        MenuRow::Note(label)@ == RowView::Note(label@),
        MenuRow::Quit(label)@ == RowView::Quit(label@),
        MenuRow::Separator@ == RowView::Separator,
        choice_view(Some(label)) == Some(label@),
        choice_view(None) is None,
        is_choice(value, Some(label@)) == (value matches Some(v) && v@ == label@),
        is_choice(value, None) == (value is None),
{
}

/// A selector takes its entries from the rows of its section, in their order.
pub proof fn law_entries_follow_the_rows(
    rows: Seq<MenuRow>,
    row: MenuRow,
    ids: Seq<String>,
    section: MenuSection,
)
    ensures
        entries_of(Seq::empty(), ids, section) == Seq::<MenuEntry>::empty(),
        entries_of(rows.push(row), ids, section) == (if row is Choice && row->section == section {
            entries_of(rows, ids, section).push(
                MenuEntry { menu_id: ids[rows.len() as int], value: row->value },
            )
        } else {
            entries_of(rows, ids, section)
        }),
{
    assert(rows.push(row).drop_last() =~= rows);
}

/// A click resolves to the first entry that has its identifier, and to nothing
/// where none has it.
pub proof fn law_first_entry_resolves(entries: Seq<MenuEntry>, menu_id: Seq<char>, k: int)
    ensures
        (forall|j: int| 0 <= j < entries.len() ==> #[trigger] entries[j].menu_id@ != menu_id)
            ==> value_of(entries, menu_id) is None,
        0 <= k < entries.len() && entries[k].menu_id@ == menu_id && (forall|j: int|
            0 <= j < k ==> #[trigger] entries[j].menu_id@ != menu_id) ==> value_of(entries, menu_id)
            == Some(entries[k].value),
    decreases entries.len(),
{
    if entries.len() > 0 {
        let rest = entries.drop_last();
        law_first_entry_resolves(rest, menu_id, k);
        if forall|j: int|
            0 <= j < entries.len() - 1 ==> #[trigger] entries[j].menu_id@ != menu_id {
            assert forall|j: int| 0 <= j < rest.len() implies #[trigger] rest[j].menu_id@
                != menu_id by {
                assert(entries[j].menu_id@ != menu_id);
            }
        }
        if 0 <= k < rest.len() && forall|j: int|
            0 <= j < k ==> #[trigger] entries[j].menu_id@ != menu_id {
            assert forall|j: int| 0 <= j < k implies #[trigger] rest[j].menu_id@ != menu_id by {
                assert(entries[j].menu_id@ != menu_id);
            }
        }
    }
}

/// The row that ends the application is known by its own identifier.
pub proof fn law_quit_row_is_known(rows: Seq<MenuRow>, ids: Seq<String>, i: int)
    ensures
        (forall|j: int| 0 <= j < rows.len() ==> !(#[trigger] rows[j] is Quit)) ==> quit_id_of(
            rows,
            ids,
        ) is None,
        0 <= i < rows.len() && rows[i] is Quit && (forall|j: int|
            i < j < rows.len() ==> !(#[trigger] rows[j] is Quit)) ==> quit_id_of(rows, ids) == Some(
            ids[i],
        ),
    decreases rows.len(),
{
    if rows.len() > 0 {
        law_quit_row_is_known(rows.drop_last(), ids, i);
    }
}

} // verus!
