//! The devices of the host: what the driver tools print of them, and which of them are free.
use vstd::prelude::*;
use vstd::string::*;
use vstd::utf8::encode_utf8;

use crate::error::{Error, ErrorModel};
use crate::model::{device_models, Device, DeviceModel, Kind};
use crate::storage::{beneath, copy_path, encoded, join_path};
use crate::table::{Keys, Table};
use crate::text::{
    chars_of, contains, contains_text, decimal, decimal_reads_back, decimal_text, find, find_from,
    is_digit, is_space, lemma_decimal_nonempty, lemma_find_from, lemma_find_from_is,
    lemma_unsigned_bound, lines, lower_text, lowered, matches_at, optional, part, pieces, read_u32,
    replace, replaced, same_chars, split_lines, split_words, starts_with, string_of, strings, trim,
    trimmed, trimming_takes_off_the_ends, unsigned, words, NumberError,
};

verus! {

/// Which vendors' devices the scheduler manages.
#[derive(Debug, Clone, Copy, PartialEq, Eq, Structural)]
pub enum Backend {
    Auto,
    Nvidia,
    Ascend,
    /// No devices at all; no driver is asked.
    Cpu,
}

/// The content of a list of devices or of the error in its place.
pub open spec fn devices_result(r: Result<Vec<Device>, Error>) -> Result<
    Seq<DeviceModel>,
    ErrorModel,
> {
    match r {
        Ok(devices) => Ok(device_models(devices@)),
        Err(error) => Err(error@),
    }
}

/// No two devices have the same key.
pub open spec fn distinct_keys(devices: Seq<DeviceModel>) -> bool {
    forall|i: int, j: int|
        0 <= i < j < devices.len() ==> (#[trigger] devices[i]).key() != (
        #[trigger] devices[j]).key()
}

/// An inventory holds some device, and no device twice.
pub open spec fn validated(devices: Seq<DeviceModel>) -> Result<Seq<DeviceModel>, ErrorModel> {
    if devices.len() == 0 {
        Err(ErrorModel::NoDevices)
    } else if !distinct_keys(devices) {
        Err(ErrorModel::DuplicateDevices)
    } else {
        Ok(devices)
    }
}

/// Checks that an inventory holds some device, and no device twice.
pub fn validate(devices: Vec<Device>) -> (r: Result<Vec<Device>, Error>)
    ensures
        devices_result(r) == validated(device_models(devices@)),
{
    if devices.len() == 0 {
        return Err(Error::NoDevices);
    }
    let mut keys = Keys::new();
    let ghost all = device_models(devices@);
    for i in 0..devices.len()
        invariant
            all == device_models(devices@),
            forall|k: Seq<char>|
                keys@.contains(k) <==> exists|j: int| 0 <= j < i && (#[trigger] all[j]).key() == k,
            forall|a: int, b: int|
                0 <= a < b < i ==> (#[trigger] all[a]).key() != (#[trigger] all[b]).key(),
    {
        let ghost before = keys@;
        let key = devices[i].key();
        assert(key@ == all[i as int].key());
        if !keys.insert(key) {
            assert(before.contains(all[i as int].key()));
            return Err(Error::DuplicateDevices);
        }
        assert(!before.contains(all[i as int].key()));
        assert forall|k: Seq<char>| keys@.contains(k) implies exists|j: int|
            0 <= j < i + 1 && (#[trigger] all[j]).key() == k by {
            if k == all[i as int].key() {
                assert(all[i as int].key() == k);
            } else {
                assert(before.contains(k));
            }
        }
    }
    Ok(devices)
}

// ---- NVIDIA ----

/// The device that a line of the NVIDIA inventory describes: index, UUID and name.
pub open spec fn nvidia_device(line: Seq<char>) -> Result<DeviceModel, ErrorModel> {
    let first = find_from(line, ',', 0);
    let second = find_from(line, ',', first + 1);
    if first >= line.len() || second >= line.len() {
        Err(ErrorModel::InvalidNvidiaInventory)
    } else {
        let visible = trimmed(line.subrange(first + 1, second));
        if !matches_at(visible, "GPU-"@, 0) {
            Err(ErrorModel::InvalidNvidiaInventory)
        } else {
            match unsigned(trimmed(line.subrange(0, first)), u32::MAX as nat) {
                Ok(id) => Ok(
                    DeviceModel {
                        kind: Kind::Nvidia,
                        id: id as u32,
                        name: trimmed(line.subrange(second + 1, line.len() as int)),
                        visible,
                        npu: None,
                        chip: None,
                    },
                ),
                Err(cause) => Err(ErrorModel::InvalidNumber(cause)),
            }
        }
    }
}

/// What follows a list of devices, or the error that ends it.
pub open spec fn preceded(
    devices: Seq<DeviceModel>,
    rest: Result<Seq<DeviceModel>, ErrorModel>,
) -> Result<Seq<DeviceModel>, ErrorModel> {
    match rest {
        Ok(more) => Ok(devices + more),
        Err(error) => Err(error),
    }
}

/// The devices of the NVIDIA inventory from line `i` on. Empty lines do not count.
pub open spec fn nvidia_devices(all: Seq<Seq<char>>, i: int) -> Result<
    Seq<DeviceModel>,
    ErrorModel,
>
    decreases all.len() - i,
{
    if i < 0 || i >= all.len() {
        Ok(Seq::empty())
    } else if trimmed(all[i]).len() == 0 {
        nvidia_devices(all, i + 1)
    } else {
        match nvidia_device(all[i]) {
            Ok(device) => preceded(seq![device], nvidia_devices(all, i + 1)),
            Err(error) => Err(error),
        }
    }
}

/// The inventory that `nvidia-smi` prints.
pub open spec fn nvidia_inventory(text: Seq<char>) -> Result<Seq<DeviceModel>, ErrorModel> {
    match nvidia_devices(lines(text), 0) {
        Ok(devices) => validated(devices),
        Err(error) => Err(error),
    }
}

fn read_nvidia_device(line: &Vec<char>) -> (r: Result<Device, Error>)
    ensures
        match r {
            Ok(device) => nvidia_device(line@) == Ok::<DeviceModel, ErrorModel>(device@),
            Err(error) => nvidia_device(line@) == Err::<DeviceModel, ErrorModel>(error@),
        },
{
    let first = find(line, ',', 0);
    if first >= line.len() {
        return Err(Error::InvalidNvidiaInventory);
    }
    let second = find(line, ',', first + 1);
    if second >= line.len() {
        return Err(Error::InvalidNvidiaInventory);
    }
    let visible = trim(&part(line, first + 1, second));
    if !starts_with(&visible, "GPU-") {
        return Err(Error::InvalidNvidiaInventory);
    }
    let id: u32 = match read_u32(&trim(&part(line, 0, first))) {
        Ok(id) => id,
        Err(cause) => {
            return Err(Error::InvalidNumber(cause));
        },
    };
    Ok(
        Device {
            kind: Kind::Nvidia,
            id,
            name: string_of(&trim(&part(line, second + 1, line.len()))),
            visible: string_of(&visible),
            npu: None,
            chip: None,
        },
    )
}

/// Reads the inventory that `nvidia-smi` prints: one line `index, UUID, name` for each device.
pub fn parse_nvidia(text: &str) -> (r: Result<Vec<Device>, Error>)
    ensures
        devices_result(r) == nvidia_inventory(text@),
{
    let all = split_lines(&chars_of(text));
    let ghost model = lines(text@);
    let mut devices: Vec<Device> = Vec::new();
    assert(device_models(devices@) =~= Seq::empty());
    assert(preceded(Seq::empty(), nvidia_devices(model, 0)) == nvidia_devices(model, 0)) by {
        if nvidia_devices(model, 0) is Ok {
            assert(Seq::empty() + nvidia_devices(model, 0)->Ok_0 =~= nvidia_devices(
                model,
                0,
            )->Ok_0);
        }
    }
    for i in 0..all.len()
        invariant
            pieces(all@) == model,
            model == lines(text@),
            preceded(device_models(devices@), nvidia_devices(model, i as int)) == nvidia_devices(
                model,
                0,
            ),
    {
        assert(model[i as int] == all@[i as int]@);
        if trim(&all[i]).len() > 0 {
            match read_nvidia_device(&all[i]) {
                Ok(device) => {
                    let ghost before = device_models(devices@);
                    devices.push(device);
                    proof {
                        assert(device_models(devices@) =~= before + seq![device@]);
                        lemma_preceded(before, seq![device@], nvidia_devices(model, i + 1));
                    }
                },
                Err(error) => {
                    return Err(error);
                },
            }
        }
    }
    assert(device_models(devices@) + Seq::<DeviceModel>::empty() =~= device_models(devices@));
    validate(devices)
}

proof fn lemma_preceded(
    a: Seq<DeviceModel>,
    b: Seq<DeviceModel>,
    rest: Result<Seq<DeviceModel>, ErrorModel>,
)
    ensures
        preceded(a, preceded(b, rest)) == preceded(a + b, rest),
{
    if rest is Ok {
        assert(a + (b + rest->Ok_0) =~= (a + b) + rest->Ok_0);
    }
}

// ---- Ascend ----

/// A column label as one word.
pub open spec fn underscored(label: Seq<char>) -> Seq<char> {
    Seq::new(
        label.len(),
        |i: int|
            if label[i] == ' ' {
                '_'
            } else {
                label[i]
            },
    )
}

/// The column labels of the Ascend mapping that hold spaces, in the order in which they are
/// looked for.
pub open spec fn labels() -> Seq<Seq<char>> {
    seq![
        "Chip Logic ID"@,
        "Chip Phy-ID"@,
        "Chip Count"@,
        "Chip Name"@,
        "Chip ID"@,
        "Slot ID"@,
        "Device ID"@,
        "NPU ID"@,
    ]
}

/// A header in which the labels from `i` on are single words.
pub open spec fn marked(header: Seq<char>, wanted: Seq<Seq<char>>, i: int) -> Seq<char>
    decreases wanted.len() - i,
{
    if i < 0 || i >= wanted.len() {
        header
    } else {
        marked(replaced(header, wanted[i], underscored(wanted[i])), wanted, i + 1)
    }
}

/// The first position from `i` on of `name` among the columns, or their number.
pub open spec fn column_from(columns: Seq<Seq<char>>, name: Seq<char>, i: int) -> int
    decreases columns.len() - i,
{
    if i < 0 || i >= columns.len() {
        columns.len() as int
    } else if columns[i] == name {
        i
    } else {
        column_from(columns, name, i + 1)
    }
}

/// Where a column stands.
pub open spec fn column(columns: Seq<Seq<char>>, name: Seq<char>) -> Option<int> {
    if column_from(columns, name, 0) < columns.len() {
        Some(column_from(columns, name, 0))
    } else {
        None
    }
}

/// Where the columns of the Ascend mapping stand.
pub struct LayoutModel {
    pub npu: int,
    pub logic: int,
    pub chip: Option<int>,
    pub name: Option<int>,
}

/// The layout that a header announces. Without a logical or physical ID column the NPU ID stands
/// for the logical ID.
pub open spec fn layout(header: Seq<char>) -> Option<LayoutModel> {
    let columns = words(marked(header, labels(), 0));
    match column(columns, "NPU_ID"@) {
        Some(npu) => Some(
            LayoutModel {
                npu,
                logic: match column(columns, "Chip_Logic_ID"@) {
                    Some(logic) => logic,
                    None => match column(columns, "Chip_Phy-ID"@) {
                        Some(phy) => phy,
                        None => npu,
                    },
                },
                chip: column(columns, "Chip_ID"@),
                name: column(columns, "Chip_Name"@),
            },
        ),
        None => None,
    }
}

/// What a row of the Ascend mapping says.
pub enum RowModel {
    Skip,
    Device(DeviceModel),
    Fail(ErrorModel),
}

/// The field of a row.
pub open spec fn field(fields: Seq<Seq<char>>, at: int) -> Result<Seq<char>, ErrorModel> {
    if 0 <= at < fields.len() {
        Ok(fields[at])
    } else {
        Err(ErrorModel::ShortAscendRow)
    }
}

/// The chip number of a row, if the mapping has such a column.
pub open spec fn row_chip(fields: Seq<Seq<char>>, at: Option<int>) -> Result<
    Option<u32>,
    ErrorModel,
> {
    match at {
        None => Ok(None),
        Some(at) => match field(fields, at) {
            Err(error) => Err(error),
            Ok(text) => match unsigned(text, u32::MAX as nat) {
                Ok(chip) => Ok(Some(chip as u32)),
                Err(cause) => Err(ErrorModel::InvalidChipId(cause)),
            },
        },
    }
}

/// The chip name of a row.
pub open spec fn row_name(fields: Seq<Seq<char>>, at: Option<int>) -> Result<
    Seq<char>,
    ErrorModel,
> {
    match at {
        None => Ok("Ascend"@),
        Some(at) => field(fields, at),
    }
}

/// Whether the row belongs to a management chip.
pub open spec fn is_management(fields: Seq<Seq<char>>) -> bool {
    exists|i: int| 0 <= i < fields.len() && lowered(#[trigger] fields[i]) == "mcu"@
}

/// What a row of the Ascend mapping says. Rows of management chips and rows that do not start with
/// a number are passed over; a row that names a device must be complete.
pub open spec fn ascend_row(fields: Seq<Seq<char>>, at: LayoutModel) -> RowModel {
    if fields.len() == 0 || is_management(fields) {
        RowModel::Skip
    } else {
        match field(fields, at.npu) {
            Err(error) => RowModel::Fail(error),
            Ok(npu) => match unsigned(npu, u32::MAX as nat) {
                Err(_) => RowModel::Skip,
                Ok(npu) => match field(fields, at.logic) {
                    Err(error) => RowModel::Fail(error),
                    Ok(logic) => match unsigned(logic, u32::MAX as nat) {
                        Err(cause) => RowModel::Fail(ErrorModel::InvalidLogicalId(cause)),
                        Ok(id) => match row_chip(fields, at.chip) {
                            Err(error) => RowModel::Fail(error),
                            Ok(chip) => match row_name(fields, at.name) {
                                Err(error) => RowModel::Fail(error),
                                Ok(name) => RowModel::Device(
                                    DeviceModel {
                                        kind: Kind::Ascend,
                                        id: id as u32,
                                        name,
                                        visible: decimal(id),
                                        npu: Some(npu as u32),
                                        chip,
                                    },
                                ),
                            },
                        },
                    },
                },
            },
        }
    }
}

/// The devices of the Ascend mapping from line `i` on.
pub open spec fn ascend_devices(all: Seq<Seq<char>>, at: LayoutModel, i: int) -> Result<
    Seq<DeviceModel>,
    ErrorModel,
>
    decreases all.len() - i,
{
    if i < 0 || i >= all.len() {
        Ok(Seq::empty())
    } else {
        match ascend_row(words(all[i]), at) {
            RowModel::Skip => ascend_devices(all, at, i + 1),
            RowModel::Device(device) => preceded(seq![device], ascend_devices(all, at, i + 1)),
            RowModel::Fail(error) => Err(error),
        }
    }
}

/// The first line from `i` on that announces the mapping, or the number of lines.
pub open spec fn header_from(all: Seq<Seq<char>>, i: int) -> int
    decreases all.len() - i,
{
    if i < 0 || i >= all.len() {
        all.len() as int
    } else if contains(all[i], "NPU ID"@) {
        i
    } else {
        header_from(all, i + 1)
    }
}

/// How many devices are on the card.
pub open spec fn chips_on(devices: Seq<DeviceModel>, npu: Option<u32>) -> nat
    decreases devices.len(),
{
    if devices.len() == 0 {
        0
    } else {
        chips_on(devices.drop_last(), npu) + (if devices.last().npu == npu {
            1nat
        } else {
            0nat
        })
    }
}

/// The only device on a card is queried by its card number alone.
pub open spec fn without_single_chips(devices: Seq<DeviceModel>) -> Seq<DeviceModel> {
    Seq::new(
        devices.len(),
        |i: int|
            if chips_on(devices, devices[i].npu) == 1 {
                DeviceModel { chip: None, ..devices[i] }
            } else {
                devices[i]
            },
    )
}

/// Where a device goes in a list that is ordered by ID: behind all with the same or a smaller ID.
pub open spec fn insertion_point(devices: Seq<DeviceModel>, id: u32, end: int) -> int
    decreases end,
{
    if end <= 0 || end > devices.len() {
        0
    } else if devices[end - 1].id > id {
        insertion_point(devices, id, end - 1)
    } else {
        end
    }
}

/// The devices ordered by ID; devices with the same ID keep their order.
pub open spec fn ordered(devices: Seq<DeviceModel>) -> Seq<DeviceModel>
    decreases devices.len(),
{
    if devices.len() == 0 {
        Seq::empty()
    } else {
        let front = ordered(devices.drop_last());
        front.insert(
            insertion_point(front, devices.last().id, front.len() as int),
            devices.last(),
        )
    }
}

/// The inventory that `npu-smi` prints.
pub open spec fn ascend_inventory(text: Seq<char>) -> Result<Seq<DeviceModel>, ErrorModel> {
    let all = lines(text);
    let header = header_from(all, 0);
    if header >= all.len() {
        Err(ErrorModel::MissingAscendHeader)
    } else {
        match layout(all[header]) {
            None => Err(ErrorModel::MissingNpuColumn),
            Some(at) => match ascend_devices(all, at, header + 1) {
                Err(error) => Err(error),
                Ok(devices) => validated(ordered(without_single_chips(devices))),
            },
        }
    }
}

/// A column label as one word.
fn underscore(label: &Vec<char>) -> (r: Vec<char>)
    ensures
        r@ == underscored(label@),
{
    let mut r: Vec<char> = Vec::new();
    for i in 0..label.len()
        invariant
            r@.len() == i,
            forall|j: int| 0 <= j < i ==> r@[j] == underscored(label@)[j],
    {
        r.push(
            if label[i] == ' ' {
                '_'
            } else {
                label[i]
            },
        );
    }
    assert(r@ =~= underscored(label@));
    r
}

/// The columns that a header announces. Labels of several words become single words first.
fn header_columns(header: &Vec<char>) -> (r: Vec<Vec<char>>)
    ensures
        pieces(r@) == words(marked(header@, labels(), 0)),
{
    let wanted: Vec<&str> = vec![
        "Chip Logic ID",
        "Chip Phy-ID",
        "Chip Count",
        "Chip Name",
        "Chip ID",
        "Slot ID",
        "Device ID",
        "NPU ID",
    ];
    proof {
        reveal_strlit("Chip Logic ID");
        reveal_strlit("Chip Phy-ID");
        reveal_strlit("Chip Count");
        reveal_strlit("Chip Name");
        reveal_strlit("Chip ID");
        reveal_strlit("Slot ID");
        reveal_strlit("Device ID");
        reveal_strlit("NPU ID");
    }
    let mut line: Vec<char> = part(header, 0, header.len());
    assert(line@ =~= header@);
    for i in 0..wanted.len()
        invariant
            wanted@.len() == labels().len(),
            forall|j: int| 0 <= j < wanted@.len() ==> (#[trigger] wanted@[j])@ == labels()[j],
            forall|j: int| 0 <= j < labels().len() ==> (#[trigger] labels()[j]).len() > 0,
            marked(line@, labels(), i as int) == marked(header@, labels(), 0),
    {
        let label = chars_of(wanted[i]);
        assert(label@ == labels()[i as int]);
        line = replace(&line, &label, &underscore(&label));
    }
    split_words(&line)
}

/// Where a column stands.
fn find_column(columns: &Vec<Vec<char>>, name: &str) -> (r: Option<usize>)
    ensures
        match r {
            Some(at) => column(pieces(columns@), name@) == Some(at as int),
            None => column(pieces(columns@), name@) is None,
        },
{
    let wanted = chars_of(name);
    for i in 0..columns.len()
        invariant
            wanted@ == name@,
            column_from(pieces(columns@), name@, 0) == column_from(
                pieces(columns@),
                name@,
                i as int,
            ),
    {
        assert(pieces(columns@)[i as int] == columns@[i as int]@);
        if same_chars(&columns[i], &wanted) {
            return Some(i);
        }
    }
    None
}

struct Layout {
    npu: usize,
    logic: usize,
    chip: Option<usize>,
    name: Option<usize>,
}

spec fn position(at: Option<usize>) -> Option<int> {
    match at {
        Some(at) => Some(at as int),
        None => None,
    }
}

impl View for Layout {
    type V = LayoutModel;

    closed spec fn view(&self) -> LayoutModel {
        LayoutModel {
            npu: self.npu as int,
            logic: self.logic as int,
            chip: position(self.chip),
            name: position(self.name),
        }
    }
}

fn read_layout(header: &Vec<char>) -> (r: Option<Layout>)
    ensures
        match r {
            Some(at) => layout(header@) == Some(at@),
            None => layout(header@) is None,
        },
{
    let columns = header_columns(header);
    let npu: usize = match find_column(&columns, "NPU_ID") {
        Some(npu) => npu,
        None => {
            return None;
        },
    };
    let logic: usize = match find_column(&columns, "Chip_Logic_ID") {
        Some(logic) => logic,
        None => match find_column(&columns, "Chip_Phy-ID") {
            Some(phy) => phy,
            None => npu,
        },
    };
    Some(
        Layout {
            npu,
            logic,
            chip: find_column(&columns, "Chip_ID"),
            name: find_column(&columns, "Chip_Name"),
        },
    )
}

enum Row {
    Skip,
    Device(Device),
    Fail(Error),
}

impl View for Row {
    type V = RowModel;

    closed spec fn view(&self) -> RowModel {
        match *self {
            Row::Skip => RowModel::Skip,
            Row::Device(device) => RowModel::Device(device@),
            Row::Fail(error) => RowModel::Fail(error@),
        }
    }
}

/// Whether the row belongs to a management chip.
fn management(fields: &Vec<Vec<char>>) -> (r: bool)
    ensures
        r == is_management(pieces(fields@)),
{
    let mcu = chars_of("mcu");
    for i in 0..fields.len()
        invariant
            mcu@ == "mcu"@,
            forall|j: int| 0 <= j < i ==> lowered(#[trigger] pieces(fields@)[j]) != "mcu"@,
    {
        if same_chars(&lower_text(&fields[i]), &mcu) {
            assert(lowered(pieces(fields@)[i as int]) == "mcu"@);
            return true;
        }
    }
    false
}

fn read_row(fields: &Vec<Vec<char>>, at: &Layout) -> (r: Row)
    ensures
        r@ == ascend_row(pieces(fields@), at@),
{
    if fields.len() == 0 || management(fields) {
        return Row::Skip;
    }
    if at.npu >= fields.len() {
        return Row::Fail(Error::ShortAscendRow);
    }
    let npu: u32 = match read_u32(&fields[at.npu]) {
        Ok(npu) => npu,
        Err(_) => {
            return Row::Skip;
        },
    };
    if at.logic >= fields.len() {
        return Row::Fail(Error::ShortAscendRow);
    }
    let id: u32 = match read_u32(&fields[at.logic]) {
        Ok(id) => id,
        Err(cause) => {
            return Row::Fail(Error::InvalidLogicalId(cause));
        },
    };
    let chip: Option<u32> = match at.chip {
        None => None,
        Some(column) => {
            if column >= fields.len() {
                return Row::Fail(Error::ShortAscendRow);
            }
            match read_u32(&fields[column]) {
                Ok(chip) => Some(chip),
                Err(cause) => {
                    return Row::Fail(Error::InvalidChipId(cause));
                },
            }
        },
    };
    let name = match at.name {
        None => "Ascend".to_owned(),
        Some(column) => {
            if column >= fields.len() {
                return Row::Fail(Error::ShortAscendRow);
            }
            string_of(&fields[column])
        },
    };
    Row::Device(
        Device {
            kind: Kind::Ascend,
            id,
            name,
            visible: decimal_text(id as u64),
            npu: Some(npu),
            chip,
        },
    )
}

/// The devices of the mapping below its header.
fn read_rows(all: &Vec<Vec<char>>, start: usize, at: &Layout) -> (r: Result<Vec<Device>, Error>)
    requires
        start <= all.len(),
    ensures
        devices_result(r) == ascend_devices(pieces(all@), at@, start as int),
{
    let ghost model = pieces(all@);
    let ghost whole = ascend_devices(model, at@, start as int);
    let mut devices: Vec<Device> = Vec::new();
    assert(device_models(devices@) =~= Seq::empty());
    assert(preceded(Seq::empty(), whole) == whole) by {
        if whole is Ok {
            assert(Seq::empty() + whole->Ok_0 =~= whole->Ok_0);
        }
    }
    for i in start..all.len()
        invariant
            start <= all.len(),
            model == pieces(all@),
            whole == ascend_devices(model, at@, start as int),
            preceded(device_models(devices@), ascend_devices(model, at@, i as int)) == whole,
    {
        assert(model[i as int] == all@[i as int]@);
        match read_row(&split_words(&all[i]), at) {
            Row::Skip => {},
            Row::Device(device) => {
                let ghost before = device_models(devices@);
                devices.push(device);
                proof {
                    assert(device_models(devices@) =~= before + seq![device@]);
                    lemma_preceded(before, seq![device@], ascend_devices(model, at@, i + 1));
                }
            },
            Row::Fail(error) => {
                return Err(error);
            },
        }
    }
    assert(device_models(devices@) + Seq::<DeviceModel>::empty() =~= device_models(devices@));
    Ok(devices)
}

/// How many devices are on the card.
fn count_chips(devices: &Vec<Device>, npu: Option<u32>) -> (r: usize)
    ensures
        r == chips_on(device_models(devices@), npu),
{
    let mut count: usize = 0;
    let ghost all = device_models(devices@);
    for i in 0..devices.len()
        invariant
            all == device_models(devices@),
            count <= i,
            count == chips_on(all.take(i as int), npu),
    {
        assert(all.take(i + 1).drop_last() =~= all.take(i as int));
        if devices[i].npu == npu {
            count = count + 1;
        }
    }
    assert(all.take(all.len() as int) =~= all);
    count
}

/// The only device on a card is queried by its card number alone.
fn drop_single_chips(devices: &Vec<Device>) -> (r: Vec<Device>)
    ensures
        device_models(r@) == without_single_chips(device_models(devices@)),
{
    let mut r: Vec<Device> = Vec::new();
    let ghost all = device_models(devices@);
    for i in 0..devices.len()
        invariant
            all == device_models(devices@),
            r@.len() == i,
            forall|j: int| 0 <= j < i ==> (#[trigger] r@[j])@ == without_single_chips(all)[j],
    {
        let mut device = devices[i].clone();
        if count_chips(devices, devices[i].npu) == 1 {
            device.chip = None;
        }
        assert(device@ == without_single_chips(all)[i as int]);
        r.push(device);
    }
    assert(device_models(r@) =~= without_single_chips(all));
    r
}

/// The devices ordered by ID; devices with the same ID keep their order.
fn order(devices: Vec<Device>) -> (r: Vec<Device>)
    ensures
        device_models(r@) == ordered(device_models(devices@)),
{
    let mut r: Vec<Device> = Vec::new();
    let ghost all = device_models(devices@);
    assert(device_models(r@) =~= ordered(all.take(0)));
    for i in 0..devices.len()
        invariant
            all == device_models(devices@),
            r@.len() == i,
            device_models(r@) == ordered(all.take(i as int)),
    {
        let ghost front = device_models(r@);
        let mut at: usize = r.len();
        while at > 0 && r[at - 1].id > devices[i as usize].id
            invariant
                i < devices.len(),
                at <= r.len(),
                front == device_models(r@),
                insertion_point(front, devices@[i as int].id, front.len() as int)
                    == insertion_point(front, devices@[i as int].id, at as int),
            decreases at,
        {
            at = at - 1;
        }
        let device = devices[i].clone();
        r.insert(at, device);
        proof {
            assert(all.take(i + 1).drop_last() =~= all.take(i as int));
            assert(all.take(i + 1).last() == device@);
            assert(device_models(r@) =~= front.insert(at as int, device@));
        }
    }
    assert(all.take(all.len() as int) =~= all);
    r
}

/// Reads the mapping that `npu-smi` prints. Columns are found by their labels; a device whose
/// logical ID cannot be told is never guessed.
pub fn parse_ascend(text: &str) -> (r: Result<Vec<Device>, Error>)
    ensures
        devices_result(r) == ascend_inventory(text@),
{
    let all = split_lines(&chars_of(text));
    let ghost model = lines(text@);
    let mut header: usize = 0;
    while header < all.len() && !contains_text(&all[header], "NPU ID")
        invariant
            header <= all.len(),
            model == pieces(all@),
            header_from(model, 0) == header_from(model, header as int),
        decreases all.len() - header,
    {
        assert(model[header as int] == all@[header as int]@);
        header = header + 1;
    }
    if header >= all.len() {
        return Err(Error::MissingAscendHeader);
    }
    assert(model[header as int] == all@[header as int]@);
    let at = match read_layout(&all[header]) {
        Some(at) => at,
        None => {
            return Err(Error::MissingNpuColumn);
        },
    };
    match read_rows(&all, header + 1, &at) {
        Ok(devices) => validate(order(drop_single_chips(&devices))),
        Err(error) => Err(error),
    }
}

// ---- Monitoring ----

/// Whether `npu-smi` reports that no process uses a device; nothing where its words are not known.
pub open spec fn ascend_report(text: Seq<char>) -> Option<bool> {
    let lower = lowered(text);
    if contains(lower, "process id:"@) || contains(lower, "process id :"@) {
        Some(false)
    } else if contains(lower, "no running processes"@) || contains(lower, "no process in device"@) {
        Some(true)
    } else {
        None
    }
}

/// Whether `npu-smi` reports that no process uses a device.
pub fn ascend_idle(text: &str) -> (r: Option<bool>)
    ensures
        r == ascend_report(text@),
{
    let lower = lower_text(&chars_of(text));
    if contains_text(&lower, "process id:") || contains_text(&lower, "process id :") {
        Some(false)
    } else if contains_text(&lower, "no running processes") || contains_text(
        &lower,
        "no process in device",
    ) {
        Some(true)
    } else {
        None
    }
}

/// Whether each line of the report is empty or a UUID.
pub open spec fn is_uuid_list(text: Seq<char>) -> bool {
    forall|i: int|
        0 <= i < lines(text).len() ==> {
            let line = trimmed(#[trigger] lines(text)[i]);
            line.len() == 0 || matches_at(line, "GPU-"@, 0)
        }
}

/// Whether a line of the report is the name.
pub open spec fn lists(text: Seq<char>, name: Seq<char>) -> bool {
    exists|i: int| 0 <= i < lines(text).len() && trimmed(#[trigger] lines(text)[i]) == name
}

/// Whether `nvidia-smi` reports that no process uses the device; nothing where the report is
/// something else than a list of UUIDs.
pub open spec fn nvidia_report(text: Seq<char>, visible: Seq<char>) -> Option<bool> {
    if is_uuid_list(text) {
        Some(!lists(text, visible))
    } else {
        None
    }
}

/// Whether `nvidia-smi` reports that no process uses the device.
pub fn nvidia_idle(text: &str, visible: &String) -> (r: Option<bool>)
    ensures
        r == nvidia_report(text@, visible@),
{
    let all = split_lines(&chars_of(text));
    let wanted = chars_of(visible.as_str());
    let mut used = false;
    for i in 0..all.len()
        invariant
            pieces(all@) == lines(text@),
            wanted@ == visible@,
            forall|j: int|
                0 <= j < i ==> {
                    let line = trimmed(#[trigger] lines(text@)[j]);
                    line.len() == 0 || matches_at(line, "GPU-"@, 0)
                },
            used == (exists|j: int| 0 <= j < i && trimmed(#[trigger] lines(text@)[j]) == visible@),
    {
        let line = trim(&all[i]);
        assert(line@ == trimmed(lines(text@)[i as int]));
        if line.len() != 0 && !starts_with(&line, "GPU-") {
            return None;
        }
        if same_chars(&line, &wanted) {
            used = true;
        }
    }
    Some(!used)
}

/// The word for what is known of a device.
pub open spec fn status_word(idle: Option<bool>) -> Seq<char> {
    match idle {
        Some(true) => "idle"@,
        Some(false) => "busy"@,
        None => "unknown"@,
    }
}

fn word_of(idle: Option<bool>) -> (r: String)
    ensures
        r@ == status_word(idle),
{
    match idle {
        Some(true) => "idle".to_owned(),
        Some(false) => "busy".to_owned(),
        None => "unknown".to_owned(),
    }
}

/// What the probes tell of a device: `nvidia` is the list of used UUIDs, `ascend` the report on
/// the device; a probe that failed tells nothing.
pub open spec fn device_report(
    device: DeviceModel,
    nvidia: Option<Seq<char>>,
    ascend: Option<Seq<char>>,
) -> Option<bool> {
    match device.kind {
        Kind::Nvidia => match nvidia {
            Some(text) => nvidia_report(text, device.visible),
            None => None,
        },
        Kind::Ascend => match ascend {
            Some(text) => ascend_report(text),
            None => None,
        },
    }
}

/// The status table once the first `n` devices were looked at.
pub open spec fn refreshed(
    status: Map<Seq<char>, Seq<char>>,
    devices: Seq<DeviceModel>,
    nvidia: Option<Seq<char>>,
    ascend: Seq<Option<Seq<char>>>,
    n: int,
) -> Map<Seq<char>, Seq<char>>
    decreases n,
{
    if n <= 0 {
        status
    } else {
        refreshed(status, devices, nvidia, ascend, n - 1).insert(
            devices[n - 1].key(),
            status_word(device_report(devices[n - 1], nvidia, ascend[n - 1])),
        )
    }
}

/// The texts of a list of reports.
pub open spec fn reports(list: Seq<Option<String>>) -> Seq<Option<Seq<char>>> {
    Seq::new(list.len(), |i: int| optional(list[i]))
}

/// The devices of the host, and what the last probe said of each.
pub struct Inventory {
    pub devices: Vec<Device>,
    pub status: Table,
}

/// What a discovery found, and which probes failed on the way.
pub struct Discovery {
    pub inventory: Inventory,
    pub warnings: Vec<(Kind, Error)>,
}

/// Whether the backend looks for devices of the vendor.
pub open spec fn is_wanted(backend: Backend, kind: Kind) -> bool {
    match backend {
        Backend::Auto => true,
        Backend::Nvidia => kind == Kind::Nvidia,
        Backend::Ascend => kind == Kind::Ascend,
        Backend::Cpu => false,
    }
}

impl Backend {
    /// Whether the backend looks for devices of the vendor.
    pub fn wants(self, kind: Kind) -> (r: bool)
        ensures
            r == is_wanted(self, kind),
    {
        match self {
            Backend::Auto => true,
            Backend::Nvidia => kind == Kind::Nvidia,
            Backend::Ascend => kind == Kind::Ascend,
            Backend::Cpu => false,
        }
    }

    /// The name under which the backend is chosen on the command line.
    pub fn name(self) -> (r: &'static str)
        ensures
            r@ == backend_name(self),
    {
        match self {
            Backend::Auto => "auto",
            Backend::Nvidia => "nvidia",
            Backend::Ascend => "ascend",
            Backend::Cpu => "none",
        }
    }
}

/// The name under which a backend is chosen on the command line.
pub open spec fn backend_name(backend: Backend) -> Seq<char> {
    match backend {
        Backend::Auto => "auto"@,
        Backend::Nvidia => "nvidia"@,
        Backend::Ascend => "ascend"@,
        Backend::Cpu => "none"@,
    }
}

/// The devices of one vendor, from what its driver tool printed or from the error in its place.
pub open spec fn found(kind: Kind, probe: Result<String, Error>) -> Result<
    Seq<DeviceModel>,
    ErrorModel,
> {
    match probe {
        Ok(text) => match kind {
            Kind::Nvidia => nvidia_inventory(text@),
            Kind::Ascend => ascend_inventory(text@),
        },
        Err(error) => Err(error@),
    }
}

/// The devices that one vendor adds to the inventory.
pub open spec fn contribution(
    backend: Backend,
    kind: Kind,
    probe: Option<Result<String, Error>>,
) -> Seq<DeviceModel> {
    if is_wanted(backend, kind) && probe is Some && found(kind, probe->0) is Ok {
        found(kind, probe->0)->Ok_0
    } else {
        Seq::empty()
    }
}

/// The failure of one vendor's discovery.
pub open spec fn failed(
    backend: Backend,
    kind: Kind,
    probe: Option<Result<String, Error>>,
) -> Option<ErrorModel> {
    if is_wanted(backend, kind) && probe is Some && found(kind, probe->0) is Err {
        Some(found(kind, probe->0)->Err_0)
    } else {
        None
    }
}

/// The contents of a list of warnings.
pub open spec fn warning_models(list: Seq<(Kind, Error)>) -> Seq<(Kind, ErrorModel)> {
    Seq::new(list.len(), |i: int| (list[i].0, list[i].1@))
}

/// The warnings of a discovery: each wanted vendor that failed.
pub open spec fn expected_warnings(
    nvidia: Option<ErrorModel>,
    ascend: Option<ErrorModel>,
) -> Seq<(Kind, ErrorModel)> {
    (match nvidia {
        Some(error) => seq![(Kind::Nvidia, error)],
        None => Seq::empty(),
    }) + (match ascend {
        Some(error) => seq![(Kind::Ascend, error)],
        None => Seq::empty(),
    })
}

fn read_found(kind: Kind, probe: Result<String, Error>) -> (r: Result<Vec<Device>, Error>)
    ensures
        devices_result(r) == found(kind, probe),
{
    match probe {
        Ok(text) => match kind {
            Kind::Nvidia => parse_nvidia(text.as_str()),
            Kind::Ascend => parse_ascend(text.as_str()),
        },
        Err(error) => Err(error),
    }
}

impl Inventory {
    /// The inventory from what the driver tools of the wanted vendors printed. A vendor that was
    /// asked for by name must be there; otherwise its failure is only a warning.
    pub fn discover(
        backend: Backend,
        nvidia: Option<Result<String, Error>>,
        ascend: Option<Result<String, Error>>,
    ) -> (r: Result<Discovery, Error>)
        requires
            is_wanted(backend, Kind::Nvidia) ==> nvidia is Some,
            is_wanted(backend, Kind::Ascend) ==> ascend is Some,
        ensures
            match r {
                Ok(discovery) => {
                    &&& backend == Backend::Auto || (failed(backend, Kind::Nvidia, nvidia) is None
                        && failed(backend, Kind::Ascend, ascend) is None)
                    &&& device_models(discovery.inventory.devices@) == contribution(
                        backend,
                        Kind::Nvidia,
                        nvidia,
                    ) + contribution(backend, Kind::Ascend, ascend)
                    &&& discovery.inventory.status@ == Map::<Seq<char>, Seq<char>>::empty()
                    &&& warning_models(discovery.warnings@) == expected_warnings(
                        failed(backend, Kind::Nvidia, nvidia),
                        failed(backend, Kind::Ascend, ascend),
                    )
                },
                Err(error) => {
                    &&& backend != Backend::Auto
                    &&& failed(backend, Kind::Nvidia, nvidia) == Some(error@) || failed(
                        backend,
                        Kind::Ascend,
                        ascend,
                    ) == Some(error@)
                },
            },
    {
        let ghost nvidia_part = contribution(backend, Kind::Nvidia, nvidia);
        let ghost ascend_part = contribution(backend, Kind::Ascend, ascend);
        let mut devices: Vec<Device> = Vec::new();
        let mut warnings: Vec<(Kind, Error)> = Vec::new();
        if backend.wants(Kind::Nvidia) {
            match read_found(Kind::Nvidia, nvidia.unwrap()) {
                Ok(more) => {
                    devices = more;
                },
                Err(error) => {
                    if backend == Backend::Auto {
                        warnings.push((Kind::Nvidia, error));
                    } else {
                        return Err(error);
                    }
                },
            }
        }
        assert(device_models(devices@) =~= nvidia_part);
        let ghost first_warnings = warning_models(warnings@);
        assert(first_warnings =~= expected_warnings(failed(backend, Kind::Nvidia, nvidia), None));
        if backend.wants(Kind::Ascend) {
            match read_found(Kind::Ascend, ascend.unwrap()) {
                Ok(more) => {
                    let mut more = more;
                    let ghost before = devices@;
                    let ghost added = more@;
                    devices.append(&mut more);
                    assert(device_models(devices@) =~= device_models(before) + device_models(
                        added,
                    ));
                },
                Err(error) => {
                    if backend == Backend::Auto {
                        warnings.push((Kind::Ascend, error));
                    } else {
                        return Err(error);
                    }
                },
            }
        }
        assert(device_models(devices@) =~= nvidia_part + ascend_part);
        assert(warning_models(warnings@) =~= expected_warnings(
            failed(backend, Kind::Nvidia, nvidia),
            failed(backend, Kind::Ascend, ascend),
        ));
        Ok(Discovery { inventory: Inventory { devices, status: Table::new() }, warnings })
    }

    /// Whether the list of used NVIDIA devices is needed to tell which devices are free.
    pub fn needs_nvidia_report(&self) -> (r: bool)
        ensures
            r == exists|i: int|
                0 <= i < self.devices@.len() && (#[trigger] self.devices@[i]).kind == Kind::Nvidia,
    {
        for i in 0..self.devices.len()
            invariant
                forall|j: int| 0 <= j < i ==> (#[trigger] self.devices@[j]).kind != Kind::Nvidia,
        {
            if self.devices[i].kind == Kind::Nvidia {
                return true;
            }
        }
        false
    }

    /// Takes in what the probes told: the list of used NVIDIA devices, and a report on each Ascend
    /// device. Failed monitoring is unknown, never permission to allocate.
    pub fn refresh(&mut self, nvidia: &Option<String>, ascend: &Vec<Option<String>>)
        requires
            ascend@.len() == old(self).devices@.len(),
        ensures
            final(self).devices == old(self).devices,
            final(self).status@ == refreshed(
                old(self).status@,
                device_models(old(self).devices@),
                optional(*nvidia),
                reports(ascend@),
                ascend@.len() as int,
            ),
    {
        let ghost all = device_models(self.devices@);
        let ghost start = self.status@;
        let count: usize = self.devices.len();
        for i in 0..count
            invariant
                count == self.devices@.len(),
                self.devices == old(self).devices,
                all == device_models(self.devices@),
                ascend@.len() == self.devices@.len(),
                self.status@ == refreshed(
                    start,
                    all,
                    optional(*nvidia),
                    reports(ascend@),
                    i as int,
                ),
        {
            let idle: Option<bool> = match self.devices[i].kind {
                Kind::Nvidia => match nvidia {
                    Some(text) => nvidia_idle(text.as_str(), &self.devices[i].visible),
                    None => None,
                },
                Kind::Ascend => match &ascend[i] {
                    Some(text) => ascend_idle(text.as_str()),
                    None => None,
                },
            };
            assert(idle == device_report(
                all[i as int],
                optional(*nvidia),
                reports(ascend@)[i as int],
            ));
            let key = self.devices[i].key();
            self.status.insert(key, word_of(idle));
        }
    }
}

// ---- Asking the driver tools ----

/// The arguments with which `nvidia-smi` is asked for its devices.
pub fn nvidia_inventory_query() -> (r: Vec<String>)
    ensures
        strings(r@) == seq!["--query-gpu=index,uuid,name"@, "--format=csv,noheader,nounits"@],
{
    let r: Vec<String> = vec![
        "--query-gpu=index,uuid,name".to_owned(),
        "--format=csv,noheader,nounits".to_owned(),
    ];
    assert(strings(r@) =~= seq![
        "--query-gpu=index,uuid,name"@,
        "--format=csv,noheader,nounits"@,
    ]);
    r
}

/// The arguments with which `nvidia-smi` is asked which devices are used.
pub fn nvidia_usage_query() -> (r: Vec<String>)
    ensures
        strings(r@) == seq!["--query-compute-apps=gpu_uuid"@, "--format=csv,noheader,nounits"@],
{
    let r: Vec<String> = vec![
        "--query-compute-apps=gpu_uuid".to_owned(),
        "--format=csv,noheader,nounits".to_owned(),
    ];
    assert(strings(r@) =~= seq![
        "--query-compute-apps=gpu_uuid"@,
        "--format=csv,noheader,nounits"@,
    ]);
    r
}

/// The arguments with which `npu-smi` is asked for its devices.
pub fn ascend_inventory_query() -> (r: Vec<String>)
    ensures
        strings(r@) == seq!["info"@, "-m"@],
{
    let r: Vec<String> = vec!["info".to_owned(), "-m".to_owned()];
    assert(strings(r@) =~= seq!["info"@, "-m"@]);
    r
}

/// The paths of a list.
pub open spec fn path_models(list: Seq<Vec<u8>>) -> Seq<Seq<u8>> {
    Seq::new(list.len(), |i: int| list[i]@)
}

/// The first of the places from `from` on where a file is; the program's bare name if there is
/// none.
pub open spec fn first_file_from(
    places: Seq<Seq<u8>>,
    is_file: Seq<bool>,
    program: Seq<u8>,
    from: int,
) -> Seq<u8>
    decreases places.len() - from,
{
    if from < 0 || from >= places.len() {
        program
    } else if is_file[from] {
        places[from]
    } else {
        first_file_from(places, is_file, program, from + 1)
    }
}

/// Where a driver tool may be: in the directories of the search path, then at the usual places.
pub fn tool_places(
    program: &str,
    directories: &Vec<Vec<u8>>,
    usual: &Vec<Vec<u8>>,
) -> (r: Vec<Vec<u8>>)
    ensures
        path_models(r@) == Seq::new(
            directories@.len(),
            |i: int| beneath(directories@[i]@, encode_utf8(program@)),
        ) + path_models(usual@),
{
    let name = encoded(program);
    let mut r: Vec<Vec<u8>> = Vec::new();
    for i in 0..directories.len()
        invariant
            name@ == encode_utf8(program@),
            r@.len() == i,
            forall|j: int| 0 <= j < i ==> (#[trigger] r@[j])@ == beneath(directories@[j]@, name@),
    {
        r.push(join_path(&directories[i], &name));
    }
    let ghost first = r@;
    for i in 0..usual.len()
        invariant
            r@.len() == first.len() + i,
            forall|j: int| 0 <= j < first.len() ==> r@[j] == #[trigger] first[j],
            forall|j: int| 0 <= j < i ==> r@[first.len() + j]@ == (#[trigger] usual@[j])@,
    {
        r.push(copy_path(&usual[i]));
    }
    assert(path_models(r@) =~= Seq::new(
        directories@.len(),
        |i: int| beneath(directories@[i]@, encode_utf8(program@)),
    ) + path_models(usual@)) by {
        assert forall|j: int| 0 <= j < r@.len() implies path_models(r@)[j] == (Seq::new(
            directories@.len(),
            |i: int| beneath(directories@[i]@, encode_utf8(program@)),
        ) + path_models(usual@))[j] by {
            if j < first.len() {
                assert(r@[j] == first[j]);
            } else {
                assert(usual@[j - first.len()]@ == r@[first.len() + (j - first.len())]@);
            }
        }
    }
    r
}

/// The path of a driver tool: the first place where a file is, or its bare name.
pub fn locate(program: &str, places: &Vec<Vec<u8>>, is_file: &Vec<bool>) -> (r: Vec<u8>)
    requires
        places@.len() == is_file@.len(),
    ensures
        r@ == first_file_from(path_models(places@), is_file@, encode_utf8(program@), 0),
{
    let ghost models = path_models(places@);
    let ghost name = encode_utf8(program@);
    for i in 0..places.len()
        invariant
            places@.len() == is_file@.len(),
            models == path_models(places@),
            name == encode_utf8(program@),
            first_file_from(models, is_file@, name, 0) == first_file_from(
                models,
                is_file@,
                name,
                i as int,
            ),
    {
        if is_file[i] {
            return copy_path(&places[i]);
        }
    }
    encoded(program)
}

/// How long a driver tool may take, in milliseconds.
pub const PROBE_LIMIT: u64 = 3000;

/// Whether waiting for a driver tool is over: it has ended, or has used up its time.
pub fn probe_is_over(ended: bool, elapsed: u64) -> (r: bool)
    ensures
        r == (ended || elapsed >= PROBE_LIMIT),
{
    ended || elapsed >= PROBE_LIMIT
}

/// The arguments with which `npu-smi` is asked about a device.
pub open spec fn ascend_probe_words(npu: u32, chip: Option<u32>) -> Seq<Seq<char>> {
    seq!["info"@, "-t"@, "proc-mem"@, "-i"@, decimal(npu as nat)] + (match chip {
        Some(chip) => seq!["-c"@, decimal(chip as nat)],
        None => Seq::empty(),
    })
}

impl Device {
    /// The arguments with which `npu-smi` is asked about the device.
    pub fn ascend_probe(&self) -> (r: Vec<String>)
        requires
            self.npu is Some,
        ensures
            strings(r@) == ascend_probe_words(self.npu->0, self.chip),
    {
        let mut r: Vec<String> = Vec::new();
        r.push("info".to_owned());
        r.push("-t".to_owned());
        r.push("proc-mem".to_owned());
        r.push("-i".to_owned());
        r.push(decimal_text(self.npu.unwrap() as u64));
        match self.chip {
            Some(chip) => {
                r.push("-c".to_owned());
                r.push(decimal_text(chip as u64));
            },
            None => {},
        }
        assert(strings(r@) =~= ascend_probe_words(self.npu->0, self.chip));
        r
    }
}

/// The result of a driver tool. `success` tells how it ended, and is missing where it had to be
/// killed; `text` is what it printed, or what is wrong with that as UTF-8.
pub fn probe_result(
    program: String,
    success: Option<bool>,
    output: String,
    errors: String,
    text: Result<String, String>,
) -> (r: Result<String, Error>)
    ensures
        match success {
            None => r is Err && r->Err_0@ == ErrorModel::ProbeTimeout,
            Some(false) => r is Err && r->Err_0@ == (ErrorModel::ProbeFailed {
                program: program@,
                output: trimmed(output@),
                errors: trimmed(errors@),
            }),
            Some(true) => match text {
                Ok(text) => r == Ok::<String, Error>(text),
                Err(cause) => r is Err && r->Err_0@ == ErrorModel::Other(cause@),
            },
        },
{
    match success {
        None => Err(Error::ProbeTimeout),
        Some(false) => Err(
            Error::ProbeFailed {
                program,
                output: string_of(&trim(&chars_of(output.as_str()))),
                errors: string_of(&trim(&chars_of(errors.as_str()))),
            },
        ),
        Some(true) => match text {
            Ok(text) => Ok(text),
            Err(cause) => Err(Error::Other(cause)),
        },
    }
}

// ---- Laws ----

/// Every device in the list satisfies the predicate.
pub open spec fn all_devices(
    devices: Seq<DeviceModel>,
    holds: spec_fn(DeviceModel) -> bool,
) -> bool {
    forall|i: int| 0 <= i < devices.len() ==> holds(#[trigger] devices[i])
}

/// An NVIDIA device is made visible by its UUID.
pub open spec fn is_nvidia_device(device: DeviceModel) -> bool {
    &&& device.kind == Kind::Nvidia
    &&& matches_at(device.visible, "GPU-"@, 0)
}

/// An Ascend device is made visible by its logical ID, and queried by its card number.
pub open spec fn is_ascend_device(device: DeviceModel) -> bool {
    &&& device.kind == Kind::Ascend
    &&& device.visible == decimal(device.id as nat)
    &&& device.npu is Some
}

proof fn lemma_nvidia_devices(all: Seq<Seq<char>>, i: int)
    requires
        nvidia_devices(all, i) is Ok,
    ensures
        all_devices(nvidia_devices(all, i)->Ok_0, |d: DeviceModel| is_nvidia_device(d)),
    decreases all.len() - i,
{
    if 0 <= i < all.len() {
        lemma_nvidia_devices(all, i + 1);
    }
}

/// A usable NVIDIA inventory is not empty and holds no device twice; each device is known by its
/// UUID, never by the index that the driver gave it.
pub proof fn nvidia_inventories_are_sound(text: Seq<char>)
    requires
        nvidia_inventory(text) is Ok,
    ensures
        nvidia_inventory(text)->Ok_0.len() > 0,
        distinct_keys(nvidia_inventory(text)->Ok_0),
        all_devices(nvidia_inventory(text)->Ok_0, |d: DeviceModel| is_nvidia_device(d)),
{
    lemma_nvidia_devices(lines(text), 0);
}

proof fn lemma_ascend_devices(all: Seq<Seq<char>>, at: LayoutModel, i: int)
    requires
        ascend_devices(all, at, i) is Ok,
    ensures
        all_devices(ascend_devices(all, at, i)->Ok_0, |d: DeviceModel| is_ascend_device(d)),
    decreases all.len() - i,
{
    if 0 <= i < all.len() {
        let fields = words(all[i]);
        if ascend_row(fields, at) is Device {
            lemma_unsigned_bound(fields[at.logic], u32::MAX as nat);
        }
        lemma_ascend_devices(all, at, i + 1);
    }
}

/// The list is ordered by ID.
pub open spec fn by_id(devices: Seq<DeviceModel>) -> bool {
    forall|i: int, j: int|
        0 <= i < j < devices.len() ==> (#[trigger] devices[i]).id <= (#[trigger] devices[j]).id
}

proof fn lemma_insertion_point(devices: Seq<DeviceModel>, id: u32, end: int)
    requires
        0 <= end <= devices.len(),
    ensures
        0 <= insertion_point(devices, id, end) <= end,
        forall|j: int| insertion_point(devices, id, end) <= j < end ==> devices[j].id > id,
        insertion_point(devices, id, end) > 0 ==> devices[insertion_point(devices, id, end) - 1].id
            <= id,
    decreases end,
{
    if end > 0 && devices[end - 1].id > id {
        lemma_insertion_point(devices, id, end - 1);
    }
}

/// Ordering the devices by ID orders them, and neither adds nor loses one.
pub proof fn ordering_sorts_and_keeps(devices: Seq<DeviceModel>)
    ensures
        by_id(ordered(devices)),
        ordered(devices).to_multiset() == devices.to_multiset(),
    decreases devices.len(),
{
    broadcast use vstd::seq_lib::group_to_multiset_ensures;

    if devices.len() > 0 {
        let front = ordered(devices.drop_last());
        let last = devices.last();
        let at = insertion_point(front, last.id, front.len() as int);
        ordering_sorts_and_keeps(devices.drop_last());
        lemma_insertion_point(front, last.id, front.len() as int);
        assert(devices =~= devices.drop_last().push(last));
        assert(front.insert(at, last).to_multiset() =~= front.to_multiset().insert(last));
        assert forall|i: int, j: int| 0 <= i < j < front.insert(at, last).len() implies (
        #[trigger] front.insert(at, last)[i]).id <= (#[trigger] front.insert(at, last)[j]).id by {
            if j == at && i < at - 1 {
                assert(front[i].id <= front[at - 1].id);
            }
        }
    } else {
        assert(ordered(devices) =~= devices);
    }
}

proof fn lemma_ordered_all(devices: Seq<DeviceModel>, holds: spec_fn(DeviceModel) -> bool)
    requires
        all_devices(devices, holds),
    ensures
        all_devices(ordered(devices), holds),
    decreases devices.len(),
{
    if devices.len() > 0 {
        let front = ordered(devices.drop_last());
        let last = devices.last();
        assert(all_devices(devices.drop_last(), holds)) by {
            assert forall|i: int| 0 <= i < devices.drop_last().len() implies holds(
                #[trigger] devices.drop_last()[i],
            ) by {
                assert(devices.drop_last()[i] == devices[i]);
            }
        }
        lemma_ordered_all(devices.drop_last(), holds);
        lemma_insertion_point(front, last.id, front.len() as int);
        assert(holds(devices[devices.len() - 1]));
    }
}

/// A usable Ascend inventory is not empty, holds no device twice and is ordered by logical ID; each
/// device is known by its logical ID, never by the number of its card.
pub proof fn ascend_inventories_are_sound(text: Seq<char>)
    requires
        ascend_inventory(text) is Ok,
    ensures
        ascend_inventory(text)->Ok_0.len() > 0,
        distinct_keys(ascend_inventory(text)->Ok_0),
        by_id(ascend_inventory(text)->Ok_0),
        all_devices(ascend_inventory(text)->Ok_0, |d: DeviceModel| is_ascend_device(d)),
{
    let all = lines(text);
    let header = header_from(all, 0);
    let at = layout(all[header])->0;
    let devices = ascend_devices(all, at, header + 1)->Ok_0;
    let holds = |d: DeviceModel| is_ascend_device(d);
    lemma_ascend_devices(all, at, header + 1);
    assert(all_devices(without_single_chips(devices), holds)) by {
        assert forall|i: int| 0 <= i < without_single_chips(devices).len() implies holds(
            #[trigger] without_single_chips(devices)[i],
        ) by {
            assert(holds(devices[i]));
        }
    }
    ordering_sorts_and_keeps(without_single_chips(devices));
    lemma_ordered_all(without_single_chips(devices), holds);
}

/// Two vendors never share a key, so that the whole inventory holds no device twice.
pub proof fn vendors_do_not_clash(nvidia: Seq<DeviceModel>, ascend: Seq<DeviceModel>)
    requires
        distinct_keys(nvidia),
        distinct_keys(ascend),
        all_devices(nvidia, |d: DeviceModel| is_nvidia_device(d)),
        all_devices(ascend, |d: DeviceModel| is_ascend_device(d)),
    ensures
        distinct_keys(nvidia + ascend),
{
    let both = nvidia + ascend;
    assert forall|i: int, j: int| 0 <= i < j < both.len() implies (#[trigger] both[i]).key() != (
    #[trigger] both[j]).key() by {
        if i < nvidia.len() && j >= nvidia.len() {
            crate::model::device_keys_are_injective(both[i], both[j]);
            assert(is_nvidia_device(nvidia[i]));
            assert(is_ascend_device(ascend[j - nvidia.len()]));
        } else if j < nvidia.len() {
            assert(both[i] == nvidia[i] && both[j] == nvidia[j]);
        } else {
            assert(both[i] == ascend[i - nvidia.len()] && both[j] == ascend[j - nvidia.len()]);
        }
    }
}

/// Whatever a discovery finds holds no device twice.
pub proof fn discoveries_hold_no_device_twice(
    backend: Backend,
    nvidia: Option<Result<String, Error>>,
    ascend: Option<Result<String, Error>>,
)
    ensures
        distinct_keys(
            contribution(backend, Kind::Nvidia, nvidia) + contribution(
                backend,
                Kind::Ascend,
                ascend,
            ),
        ),
{
    let first = contribution(backend, Kind::Nvidia, nvidia);
    let second = contribution(backend, Kind::Ascend, ascend);
    if first.len() > 0 {
        nvidia_inventories_are_sound(nvidia->0->Ok_0@);
    }
    if second.len() > 0 {
        ascend_inventories_are_sound(ascend->0->Ok_0@);
    }
    vendors_do_not_clash(first, second);
}

proof fn lemma_refreshed_unknown(
    status: Map<Seq<char>, Seq<char>>,
    devices: Seq<DeviceModel>,
    nvidia: Option<Seq<char>>,
    ascend: Seq<Option<Seq<char>>>,
    n: int,
    at: int,
)
    requires
        0 <= at < n <= devices.len(),
        ascend.len() == devices.len(),
        distinct_keys(devices),
    ensures
        refreshed(status, devices, nvidia, ascend, n).contains_key(devices[at].key()),
        refreshed(status, devices, nvidia, ascend, n)[devices[at].key()] == status_word(
            device_report(devices[at], nvidia, ascend[at]),
        ),
    decreases n,
{
    if at < n - 1 {
        lemma_refreshed_unknown(status, devices, nvidia, ascend, n - 1, at);
        assert(devices[at].key() != devices[n - 1].key());
    }
}

/// After a refresh each device has the status that the probes gave it.
pub proof fn refresh_tells_each_device(
    status: Map<Seq<char>, Seq<char>>,
    devices: Seq<DeviceModel>,
    nvidia: Option<Seq<char>>,
    ascend: Seq<Option<Seq<char>>>,
    at: int,
)
    requires
        0 <= at < devices.len(),
        ascend.len() == devices.len(),
        distinct_keys(devices),
    ensures
        ({
            let after = refreshed(status, devices, nvidia, ascend, devices.len() as int);
            &&& after.contains_key(devices[at].key())
            &&& after[devices[at].key()] == status_word(
                device_report(devices[at], nvidia, ascend[at]),
            )
        }),
{
    lemma_refreshed_unknown(status, devices, nvidia, ascend, devices.len() as int, at);
}

/// Failed monitoring is never permission to allocate: a device is only called idle where its own
/// probe answered, and said so.
pub proof fn failed_probes_are_never_idle(
    status: Map<Seq<char>, Seq<char>>,
    devices: Seq<DeviceModel>,
    nvidia: Option<Seq<char>>,
    ascend: Seq<Option<Seq<char>>>,
    at: int,
)
    requires
        0 <= at < devices.len(),
        ascend.len() == devices.len(),
        distinct_keys(devices),
        devices[at].kind == Kind::Nvidia ==> nvidia is None,
        devices[at].kind == Kind::Ascend ==> ascend[at] is None,
    ensures
        refreshed(
            status,
            devices,
            nvidia,
            ascend,
            devices.len() as int,
        )[devices[at].key()] == "unknown"@,
        "unknown"@ != "idle"@,
{
    reveal_strlit("unknown");
    reveal_strlit("idle");
    assert("unknown"@.len() == 7 && "idle"@.len() == 4);
    refresh_tells_each_device(status, devices, nvidia, ascend, at);
}

// ---- What monitoring promises ----

proof fn lemma_uuid_prefix()
    ensures
        "GPU-"@ == seq!['G', 'P', 'U', '-'],
{
    reveal_strlit("GPU-");
    assert("GPU-"@ =~= seq!['G', 'P', 'U', '-']);
}

/// A device that any line of a list of UUIDs names is in use, whatever the other lines say.
pub proof fn listed_devices_are_in_use(text: Seq<char>, visible: Seq<char>, at: int)
    requires
        0 <= at < lines(text).len(),
        trimmed(lines(text)[at]) == visible,
        forall|i: int|
            0 <= i < lines(text).len() ==> trimmed(#[trigger] lines(text)[i]).len() == 0
                || matches_at(trimmed(lines(text)[i]), seq!['G', 'P', 'U', '-'], 0),
    ensures
        nvidia_report(text, visible) == Some(false),
{
    lemma_uuid_prefix();
}

/// A device that no line of a list of UUIDs names is idle.
pub proof fn unlisted_devices_are_idle(text: Seq<char>, visible: Seq<char>)
    requires
        forall|i: int|
            0 <= i < lines(text).len() ==> {
                let line = trimmed(#[trigger] lines(text)[i]);
                line != visible && (line.len() == 0 || matches_at(
                    line,
                    seq!['G', 'P', 'U', '-'],
                    0,
                ))
            },
    ensures
        nvidia_report(text, visible) == Some(true),
{
    lemma_uuid_prefix();
}

/// A report with a line that is neither empty nor a UUID tells nothing of any device.
pub proof fn strange_reports_tell_nothing(text: Seq<char>, visible: Seq<char>, at: int)
    requires
        0 <= at < lines(text).len(),
        trimmed(lines(text)[at]).len() > 0,
        !matches_at(trimmed(lines(text)[at]), seq!['G', 'P', 'U', '-'], 0),
    ensures
        nvidia_report(text, visible) is None,
{
    lemma_uuid_prefix();
}

/// What holds of a report holds of what is read from it.
pub proof fn nvidia_reports_are_read_in_full(text: &str, visible: &String, r: Option<bool>, at: int)
    requires
        call_ensures(nvidia_idle, (text, visible), r),
        0 <= at < lines(text@).len(),
    ensures
        trimmed(lines(text@)[at]) == visible@ ==> r != Some(true),
        r == Some(true) ==> trimmed(lines(text@)[at]) != visible@,
        r is Some ==> trimmed(lines(text@)[at]).len() == 0 || matches_at(
            trimmed(lines(text@)[at]),
            seq!['G', 'P', 'U', '-'],
            0,
        ),
{
    lemma_uuid_prefix();
}

/// An Ascend device is in use where its report names a process, in capitals or not; it is idle only
/// where the report says that there is none and names none; all else tells nothing.
pub proof fn ascend_reports_are_understood(text: Seq<char>)
    ensures
        ({
            let lower = lowered(text);
            let named = contains(lower, "process id:"@) || contains(lower, "process id :"@);
            let none = contains(lower, "no running processes"@) || contains(
                lower,
                "no process in device"@,
            );
            &&& named ==> ascend_report(text) == Some(false)
            &&& ascend_report(text) == Some(false) ==> named
            &&& none && !named ==> ascend_report(text) == Some(true)
            &&& ascend_report(text) == Some(true) ==> none && !named
        }),
{
}

/// After a refresh a device that the list of used ones names is busy, and is not given away.
pub proof fn listed_devices_are_busy_after_a_refresh(
    status: Map<Seq<char>, Seq<char>>,
    devices: Seq<DeviceModel>,
    text: Seq<char>,
    ascend: Seq<Option<Seq<char>>>,
    device: int,
    line: int,
)
    requires
        0 <= device < devices.len(),
        ascend.len() == devices.len(),
        distinct_keys(devices),
        devices[device].kind == Kind::Nvidia,
        0 <= line < lines(text).len(),
        trimmed(lines(text)[line]) == devices[device].visible,
    ensures
        ({
            let after = refreshed(status, devices, Some(text), ascend, devices.len() as int);
            &&& after.contains_key(devices[device].key())
            &&& after[devices[device].key()] == "busy"@ || after[devices[device].key()]
                == "unknown"@
            &&& after[devices[device].key()] != "idle"@
            &&& (forall|i: int|
                0 <= i < lines(text).len() ==> trimmed(#[trigger] lines(text)[i]).len() == 0
                    || matches_at(trimmed(lines(text)[i]), seq!['G', 'P', 'U', '-'], 0))
                ==> after[devices[device].key()] == "busy"@
        }),
{
    lemma_uuid_prefix();
    lemma_status_words();
    refresh_tells_each_device(status, devices, Some(text), ascend, device);
}

proof fn lemma_status_words()
    ensures
        "idle"@ != "busy"@,
        "idle"@ != "unknown"@,
        "busy"@ != "unknown"@,
{
    reveal_strlit("idle");
    reveal_strlit("busy");
    reveal_strlit("unknown");
    assert("unknown"@.len() == 7 && "idle"@.len() == 4 && "busy"@.len() == 4);
    assert("idle"@[0] == 'i' && "busy"@[0] == 'b');
}

/// After a refresh an Ascend device is busy or idle as its own report says, and unknown without one.
pub proof fn ascend_devices_are_told_by_their_own_reports(
    status: Map<Seq<char>, Seq<char>>,
    devices: Seq<DeviceModel>,
    nvidia: Option<Seq<char>>,
    ascend: Seq<Option<Seq<char>>>,
    at: int,
)
    requires
        0 <= at < devices.len(),
        ascend.len() == devices.len(),
        distinct_keys(devices),
        devices[at].kind == Kind::Ascend,
    ensures
        ({
            let told = refreshed(
                status,
                devices,
                nvidia,
                ascend,
                devices.len() as int,
            )[devices[at].key()];
            let lower = lowered(ascend[at]->0);
            let named = contains(lower, "process id:"@) || contains(lower, "process id :"@);
            &&& ascend[at] is Some && named ==> told == "busy"@
            &&& told == "busy"@ ==> ascend[at] is Some && named
            &&& told == "idle"@ ==> ascend[at] is Some && !named && (contains(
                lower,
                "no running processes"@,
            ) || contains(lower, "no process in device"@))
            &&& ascend[at] is Some && !named && (contains(lower, "no running processes"@)
                || contains(lower, "no process in device"@)) ==> told == "idle"@
        }),
{
    lemma_status_words();
    refresh_tells_each_device(status, devices, nvidia, ascend, at);
}

/// After a refresh an NVIDIA device that the list of used ones does not name is idle.
pub proof fn unlisted_devices_are_idle_after_a_refresh(
    status: Map<Seq<char>, Seq<char>>,
    devices: Seq<DeviceModel>,
    text: Seq<char>,
    ascend: Seq<Option<Seq<char>>>,
    at: int,
)
    requires
        0 <= at < devices.len(),
        ascend.len() == devices.len(),
        distinct_keys(devices),
        devices[at].kind == Kind::Nvidia,
        forall|i: int|
            0 <= i < lines(text).len() ==> {
                let line = trimmed(#[trigger] lines(text)[i]);
                line != devices[at].visible && (line.len() == 0 || matches_at(
                    line,
                    seq!['G', 'P', 'U', '-'],
                    0,
                ))
            },
    ensures
        refreshed(
            status,
            devices,
            Some(text),
            ascend,
            devices.len() as int,
        )[devices[at].key()] == "idle"@,
{
    unlisted_devices_are_idle(text, devices[at].visible);
    refresh_tells_each_device(status, devices, Some(text), ascend, at);
}

/// A refresh says nothing of what is not in the inventory.
pub proof fn refreshes_keep_to_the_inventory(
    status: Map<Seq<char>, Seq<char>>,
    devices: Seq<DeviceModel>,
    nvidia: Option<Seq<char>>,
    ascend: Seq<Option<Seq<char>>>,
    n: int,
    key: Seq<char>,
)
    requires
        0 <= n <= devices.len(),
        forall|i: int| 0 <= i < devices.len() ==> (#[trigger] devices[i]).key() != key,
    ensures
        refreshed(status, devices, nvidia, ascend, n).contains_key(key) == status.contains_key(key),
        refreshed(status, devices, nvidia, ascend, n)[key] == status[key],
    decreases n,
{
    if n > 0 {
        refreshes_keep_to_the_inventory(status, devices, nvidia, ascend, n - 1, key);
        assert(devices[n - 1].key() != key);
    }
}

// ---- What reading an inventory promises ----

/// A list of devices is taken as it is where it holds some device and none twice, and is refused
/// otherwise.
pub proof fn inventories_are_checked(devices: Seq<DeviceModel>, i: int, j: int)
    ensures
        devices.len() == 0 ==> validated(devices) == Err::<Seq<DeviceModel>, ErrorModel>(
            ErrorModel::NoDevices,
        ),
        0 <= i < j < devices.len() && devices[i].kind == devices[j].kind && devices[i].visible
            == devices[j].visible ==> validated(devices) == Err::<Seq<DeviceModel>, ErrorModel>(
            ErrorModel::DuplicateDevices,
        ),
        devices.len() > 0 && (forall|a: int, b: int|
            0 <= a < b < devices.len() ==> (#[trigger] devices[a]).kind != (
            #[trigger] devices[b]).kind || devices[a].visible != devices[b].visible) ==> validated(
            devices,
        ) == Ok::<Seq<DeviceModel>, ErrorModel>(devices),
{
    if 0 <= i < j < devices.len() {
        crate::model::device_keys_are_injective(devices[i], devices[j]);
    }
    if forall|a: int, b: int|
        0 <= a < b < devices.len() ==> (#[trigger] devices[a]).kind != (#[trigger] devices[b]).kind
            || devices[a].visible != devices[b].visible {
        assert forall|a: int, b: int| 0 <= a < b < devices.len() implies (
        #[trigger] devices[a]).key() != (#[trigger] devices[b]).key() by {
            crate::model::device_keys_are_injective(devices[a], devices[b]);
        }
    }
}

/// The text is white space only.
pub open spec fn is_blank(text: Seq<char>) -> bool {
    forall|i: int| 0 <= i < text.len() ==> is_space(#[trigger] text[i])
}

/// The text neither begins nor ends with white space.
pub open spec fn is_tight(text: Seq<char>) -> bool {
    text.len() > 0 ==> !is_space(text[0]) && !is_space(text.last())
}

/// A line of the NVIDIA inventory tells the index, the UUID and the name of a device, each with white
/// space round it; there may be commas in the name.
pub proof fn nvidia_lines_are_read_back(
    index: u32,
    uuid: Seq<char>,
    name: Seq<char>,
    blanks: Seq<Seq<char>>,
)
    requires
        blanks.len() == 6,
        forall|i: int| 0 <= i < 6 ==> is_blank(#[trigger] blanks[i]),
        is_tight(uuid),
        is_tight(name),
        matches_at(uuid, seq!['G', 'P', 'U', '-'], 0),
        forall|i: int| 0 <= i < uuid.len() ==> uuid[i] != ',',
    ensures
        nvidia_device(
            (blanks[0] + decimal(index as nat) + blanks[1]) + seq![','] + (blanks[2] + uuid
                + blanks[3]) + seq![','] + (blanks[4] + name + blanks[5]),
        ) == Ok::<DeviceModel, ErrorModel>(
            DeviceModel {
                kind: Kind::Nvidia,
                id: index,
                name,
                visible: uuid,
                npu: None,
                chip: None,
            },
        ),
{
    let digits = decimal(index as nat);
    let a = blanks[0] + digits + blanks[1];
    let b = blanks[2] + uuid + blanks[3];
    let c = blanks[4] + name + blanks[5];
    let line = a + seq![','] + b + seq![','] + c;
    assert(!is_space(','));
    lemma_decimal_nonempty(index as nat);
    lemma_no_comma(blanks[0], digits, blanks[1]);
    lemma_no_comma(blanks[2], uuid, blanks[3]);
    let first = a.len() as int;
    let second = (a.len() + 1 + b.len()) as int;
    assert forall|j: int| 0 <= j < first implies line[j] != ',' by {
        assert(line[j] == a[j]);
    }
    assert forall|j: int| first + 1 <= j < second implies line[j] != ',' by {
        assert(line[j] == b[j - first - 1]);
    }
    assert(line[first] == ',' && line[second] == ',');
    lemma_find_from_is(line, ',', 0, first);
    lemma_find_from_is(line, ',', first + 1, second);
    assert(line.subrange(0, first) =~= a);
    assert(line.subrange(first + 1, second) =~= b);
    assert(line.subrange(second + 1, line.len() as int) =~= c);
    assert(is_digit(digits[0]) && is_digit(digits[digits.len() - 1]));
    assert forall|x: char| is_digit(x) implies !is_space(x) by {}
    trimming_takes_off_the_ends(blanks[0], digits, blanks[1]);
    trimming_takes_off_the_ends(blanks[2], uuid, blanks[3]);
    trimming_takes_off_the_ends(blanks[4], name, blanks[5]);
    decimal_reads_back(index as nat, u32::MAX as nat);
    lemma_uuid_prefix();
}

proof fn lemma_no_comma(before: Seq<char>, text: Seq<char>, after: Seq<char>)
    requires
        is_blank(before),
        is_blank(after),
        forall|i: int| 0 <= i < text.len() ==> text[i] != ',',
    ensures
        forall|i: int| 0 <= i < (before + text + after).len() ==> (before + text + after)[i] != ',',
{
    let all = before + text + after;
    assert forall|i: int| 0 <= i < all.len() implies all[i] != ',' by {
        if i < before.len() {
            assert(is_space(before[i]));
        } else if i < before.len() + text.len() {
            assert(all[i] == text[i - before.len()]);
        } else {
            assert(is_space(after[i - before.len() - text.len()]));
        }
    }
}

/// A line with fewer than two commas, or whose second field is no UUID, is refused.
pub proof fn bad_nvidia_lines_are_refused(line: Seq<char>, first: int, second: int)
    requires
        0 <= first <= line.len(),
        first < line.len() ==> line[first] == ',',
        forall|j: int| 0 <= j < first ==> line[j] != ',',
        first < second <= line.len() || (first == line.len() && second == first),
        second < line.len() ==> line[second] == ',',
        forall|j: int| first < j < second ==> line[j] != ',',
        second >= line.len() || !matches_at(
            trimmed(line.subrange(first + 1, second)),
            seq!['G', 'P', 'U', '-'],
            0,
        ),
    ensures
        nvidia_device(line) == Err::<DeviceModel, ErrorModel>(ErrorModel::InvalidNvidiaInventory),
{
    lemma_uuid_prefix();
    lemma_find_from(line, ',', 0);
    assert(find_from(line, ',', 0) == first);
    if first < line.len() {
        lemma_find_from(line, ',', first + 1);
        assert(find_from(line, ',', first + 1) == second);
    }
}

/// An inventory is read line by line: a further line adds the device that it tells at the end, an
/// empty one adds nothing, and the first error ends all.
pub proof fn nvidia_inventories_are_read_line_by_line(all: Seq<Seq<char>>, line: Seq<char>, i: int)
    requires
        0 <= i <= all.len(),
    ensures
        nvidia_devices(all.push(line), i) == match nvidia_devices(all, i) {
            Err(error) => Err::<Seq<DeviceModel>, ErrorModel>(error),
            Ok(devices) => if trimmed(line).len() == 0 {
                Ok::<Seq<DeviceModel>, ErrorModel>(devices)
            } else {
                match nvidia_device(line) {
                    Ok(device) => Ok::<Seq<DeviceModel>, ErrorModel>(devices.push(device)),
                    Err(error) => Err::<Seq<DeviceModel>, ErrorModel>(error),
                }
            },
        },
        nvidia_devices(Seq::empty(), 0) == Ok::<Seq<DeviceModel>, ErrorModel>(Seq::empty()),
    decreases all.len() - i,
{
    let more = all.push(line);
    if i < all.len() {
        assert(more[i] == all[i]);
        nvidia_inventories_are_read_line_by_line(all, line, i + 1);
        if trimmed(all[i]).len() > 0 && nvidia_device(all[i]) is Ok && nvidia_devices(
            all,
            i + 1,
        ) is Ok {
            let device = nvidia_device(all[i])->Ok_0;
            let devices = nvidia_devices(all, i + 1)->Ok_0;
            if nvidia_device(line) is Ok {
                let last = nvidia_device(line)->Ok_0;
                assert(seq![device] + devices.push(last) =~= (seq![device] + devices).push(last));
            }
        }
    } else {
        assert(more[i] == line);
        assert(nvidia_devices(more, i + 1) == Ok::<Seq<DeviceModel>, ErrorModel>(Seq::empty()));
        if nvidia_device(line) is Ok {
            let last = nvidia_device(line)->Ok_0;
            assert(seq![last] + Seq::<DeviceModel>::empty() =~= Seq::<DeviceModel>::empty().push(
                last,
            ));
        }
    }
}

/// The mapping begins below the first line that names the NPU ID.
pub proof fn the_mapping_begins_at_its_header(all: Seq<Seq<char>>, i: int, at: int)
    requires
        0 <= i <= at <= all.len(),
        at < all.len() ==> contains(all[at], "NPU ID"@),
        forall|j: int| i <= j < at ==> !contains(#[trigger] all[j], "NPU ID"@),
    ensures
        header_from(all, i) == at,
    decreases at - i,
{
    if i < at {
        assert(!contains(all[i], "NPU ID"@));
        the_mapping_begins_at_its_header(all, i + 1, at);
    }
}

proof fn lemma_column(columns: Seq<Seq<char>>, name: Seq<char>, i: int, at: int)
    requires
        0 <= i <= at <= columns.len(),
        at < columns.len() ==> columns[at] == name,
        forall|j: int| i <= j < at ==> #[trigger] columns[j] != name,
    ensures
        column_from(columns, name, i) == at,
    decreases at - i,
{
    if i < at {
        assert(columns[i] != name);
        lemma_column(columns, name, i + 1, at);
    }
}

/// Each column is found by its label, wherever it stands. The logical ID is told by its own column,
/// else by that of the physical ID, else by that of the NPU ID; without the last there is no layout.
pub proof fn columns_are_found_by_their_labels(
    header: Seq<char>,
    npu: int,
    logic: int,
    physical: int,
    chip: int,
    name: int,
)
    requires
        ({
            let columns = words(marked(header, labels(), 0));
            &&& first_of(columns, "NPU_ID"@, npu)
            &&& first_of(columns, "Chip_Logic_ID"@, logic)
            &&& first_of(columns, "Chip_Phy-ID"@, physical)
            &&& first_of(columns, "Chip_ID"@, chip)
            &&& first_of(columns, "Chip_Name"@, name)
        }),
    ensures
        ({
            let n = words(marked(header, labels(), 0)).len();
            let told = layout(header);
            &&& npu == n ==> told is None
            &&& npu < n ==> {
                &&& told is Some
                &&& told->0.npu == npu
                &&& logic < n ==> told->0.logic == logic
                &&& logic == n && physical < n ==> told->0.logic == physical
                &&& logic == n && physical == n ==> told->0.logic == npu
                &&& chip < n ==> told->0.chip == Some(chip)
                &&& chip == n ==> told->0.chip is None
                &&& name < n ==> told->0.name == Some(name)
                &&& name == n ==> told->0.name is None
            }
        }),
{
    let columns = words(marked(header, labels(), 0));
    lemma_column(columns, "NPU_ID"@, 0, npu);
    lemma_column(columns, "Chip_Logic_ID"@, 0, logic);
    lemma_column(columns, "Chip_Phy-ID"@, 0, physical);
    lemma_column(columns, "Chip_ID"@, 0, chip);
    lemma_column(columns, "Chip_Name"@, 0, name);
}

/// The first place of a label among the columns; their number if it is not there.
pub open spec fn first_of(columns: Seq<Seq<char>>, label: Seq<char>, at: int) -> bool {
    &&& 0 <= at <= columns.len()
    &&& at < columns.len() ==> columns[at] == label
    &&& forall|j: int| 0 <= j < at ==> #[trigger] columns[j] != label
}

/// A label of several words becomes one word by an underscore for each space, and is otherwise kept.
pub proof fn labels_become_single_words(label: Seq<char>, i: int)
    requires
        0 <= i < label.len(),
    ensures
        underscored(label).len() == label.len(),
        label[i] == ' ' ==> underscored(label)[i] == '_',
        label[i] != ' ' ==> underscored(label)[i] == label[i],
{
}

/// A header without any of the labels is read as it stands.
pub proof fn headers_without_labels_are_kept(header: Seq<char>, wanted: Seq<Seq<char>>, i: int)
    requires
        0 <= i <= wanted.len(),
        forall|j: int| i <= j < wanted.len() ==> !contains(header, #[trigger] wanted[j]) && wanted[
        j].len() > 0,
    ensures
        marked(header, wanted, i) == header,
    decreases wanted.len() - i,
{
    if i < wanted.len() {
        assert(!contains(header, wanted[i]));
        lemma_unchanged(header, wanted[i], underscored(wanted[i]), 0);
        assert(header.skip(0) =~= header);
        headers_without_labels_are_kept(header, wanted, i + 1);
    }
}

/// The labels of several words that a mapping may have are made single words, each wherever it
/// stands in the header.
pub proof fn labels_of_several_words_are_known(header: Seq<char>, wanted: Seq<Seq<char>>, i: int)
    ensures
        labels().contains("NPU ID"@) && labels().contains("Chip ID"@),
        labels().contains("Chip Logic ID"@) && labels().contains("Chip Phy-ID"@),
        labels().contains("Chip Name"@) && labels().contains("Chip Count"@),
        labels().contains("Slot ID"@) && labels().contains("Device ID"@),
        labels().len() == 8,
        0 <= i < wanted.len() ==> marked(header, wanted, i) == marked(
            replaced(header, wanted[i], underscored(wanted[i])),
            wanted,
            i + 1,
        ),
        marked(header, wanted, wanted.len() as int) == header,
{
    assert(labels()[0] == "Chip Logic ID"@ && labels()[1] == "Chip Phy-ID"@);
    assert(labels()[2] == "Chip Count"@ && labels()[5] == "Slot ID"@);
    assert(labels()[6] == "Device ID"@);
    assert(labels()[3] == "Chip Name"@ && labels()[4] == "Chip ID"@ && labels()[7] == "NPU ID"@);
}

proof fn lemma_unchanged(text: Seq<char>, pattern: Seq<char>, by: Seq<char>, i: int)
    requires
        0 <= i <= text.len(),
        !contains(text, pattern),
    ensures
        crate::text::replaced_from(text, pattern, by, i) == text.skip(i),
    decreases text.len() - i,
{
    if i < text.len() {
        lemma_unchanged(text, pattern, by, i + 1);
        assert(!matches_at(text, pattern, i));
        assert(seq![text[i]] + text.skip(i + 1) =~= text.skip(i));
    } else {
        assert(text.skip(i) =~= Seq::empty());
    }
}

/// A row that begins with a card number and is no management chip's tells a device: known by its
/// logical ID, with its card number, its chip and its name as they stand in the columns.
pub proof fn rows_tell_devices(
    fields: Seq<Seq<char>>,
    at: LayoutModel,
    npu: u32,
    id: u32,
    chip: Option<u32>,
    name: Seq<char>,
)
    requires
        forall|i: int| 0 <= i < fields.len() ==> lowered(#[trigger] fields[i]) != "mcu"@,
        0 <= at.npu < fields.len(),
        0 <= at.logic < fields.len(),
        unsigned(fields[at.npu], u32::MAX as nat) == Ok::<nat, NumberError>(npu as nat),
        unsigned(fields[at.logic], u32::MAX as nat) == Ok::<nat, NumberError>(id as nat),
        match at.chip {
            None => chip is None,
            Some(column) => 0 <= column < fields.len() && chip is Some && unsigned(
                fields[column],
                u32::MAX as nat,
            ) == Ok::<nat, NumberError>(chip->0 as nat),
        },
        match at.name {
            None => name == "Ascend"@,
            Some(column) => 0 <= column < fields.len() && name == fields[column],
        },
    ensures
        ascend_row(fields, at) == RowModel::Device(
            DeviceModel {
                kind: Kind::Ascend,
                id,
                name,
                visible: decimal(id as nat),
                npu: Some(npu),
                chip,
            },
        ),
{
}

/// A row of a management chip, an empty one and one that begins with no card number are passed over.
pub proof fn other_rows_are_passed_over(fields: Seq<Seq<char>>, at: LayoutModel, i: int)
    ensures
        fields.len() == 0 ==> ascend_row(fields, at) is Skip,
        0 <= i < fields.len() && lowered(fields[i]) == "mcu"@ ==> ascend_row(fields, at) is Skip,
        0 <= at.npu < fields.len() && unsigned(fields[at.npu], u32::MAX as nat) is Err
            ==> ascend_row(fields, at) is Skip,
        ascend_row(fields, at) is Skip ==> fields.len() == 0 || (exists|j: int|
            0 <= j < fields.len() && lowered(#[trigger] fields[j]) == "mcu"@) || unsigned(
            fields[at.npu],
            u32::MAX as nat,
        ) is Err,
{
}

/// A row of a device that is too short, or whose IDs are no numbers, is an error: no mapping is
/// guessed.
pub proof fn broken_rows_are_refused(fields: Seq<Seq<char>>, at: LayoutModel)
    requires
        fields.len() > 0,
        0 <= at.npu,
        0 <= at.logic,
        forall|i: int| 0 <= i < fields.len() ==> lowered(#[trigger] fields[i]) != "mcu"@,
    ensures
        at.npu >= fields.len() ==> ascend_row(fields, at) == RowModel::Fail(
            ErrorModel::ShortAscendRow,
        ),
        at.npu < fields.len() && unsigned(fields[at.npu], u32::MAX as nat) is Ok ==> {
            &&& at.logic >= fields.len() ==> ascend_row(fields, at) == RowModel::Fail(
                ErrorModel::ShortAscendRow,
            )
            &&& at.logic < fields.len() && unsigned(fields[at.logic], u32::MAX as nat) is Err
                ==> ascend_row(fields, at) == RowModel::Fail(
                ErrorModel::InvalidLogicalId(unsigned(fields[at.logic], u32::MAX as nat)->Err_0),
            )
            &&& at.logic < fields.len() && unsigned(fields[at.logic], u32::MAX as nat) is Ok ==> {
                &&& at.chip is Some && at.chip->0 >= fields.len() ==> ascend_row(fields, at)
                    == RowModel::Fail(ErrorModel::ShortAscendRow)
                &&& at.chip is Some && 0 <= at.chip->0 < fields.len() && unsigned(
                    fields[at.chip->0],
                    u32::MAX as nat,
                ) is Err ==> ascend_row(fields, at) == RowModel::Fail(
                    ErrorModel::InvalidChipId(
                        unsigned(fields[at.chip->0], u32::MAX as nat)->Err_0,
                    ),
                )
            }
        },
{
}

/// The mapping is read row by row: a further line adds the device that it tells at the end, one that
/// is passed over adds nothing, and the first error ends all.
pub proof fn ascend_mappings_are_read_row_by_row(
    all: Seq<Seq<char>>,
    line: Seq<char>,
    at: LayoutModel,
    i: int,
)
    requires
        0 <= i <= all.len(),
    ensures
        ascend_devices(all.push(line), at, i) == match ascend_devices(all, at, i) {
            Err(error) => Err::<Seq<DeviceModel>, ErrorModel>(error),
            Ok(devices) => match ascend_row(words(line), at) {
                RowModel::Skip => Ok::<Seq<DeviceModel>, ErrorModel>(devices),
                RowModel::Device(device) => Ok::<Seq<DeviceModel>, ErrorModel>(
                    devices.push(device),
                ),
                RowModel::Fail(error) => Err::<Seq<DeviceModel>, ErrorModel>(error),
            },
        },
        ascend_devices(all, at, all.len() as int) == Ok::<Seq<DeviceModel>, ErrorModel>(
            Seq::empty(),
        ),
    decreases all.len() - i,
{
    let more = all.push(line);
    if i < all.len() {
        assert(more[i] == all[i]);
        ascend_mappings_are_read_row_by_row(all, line, at, i + 1);
        if let RowModel::Device(device) = ascend_row(words(all[i]), at) {
            if ascend_devices(all, at, i + 1) is Ok {
                let devices = ascend_devices(all, at, i + 1)->Ok_0;
                if let RowModel::Device(last) = ascend_row(words(line), at) {
                    assert(seq![device] + devices.push(last) =~= (seq![device] + devices).push(
                        last,
                    ));
                }
            }
        }
    } else {
        assert(more[i] == line);
        assert(ascend_devices(more, at, i + 1) == Ok::<Seq<DeviceModel>, ErrorModel>(Seq::empty()));
        if let RowModel::Device(last) = ascend_row(words(line), at) {
            assert(seq![last] + Seq::<DeviceModel>::empty() =~= Seq::<DeviceModel>::empty().push(
                last,
            ));
        }
    }
}

proof fn lemma_chips(devices: Seq<DeviceModel>, npu: Option<u32>)
    ensures
        chips_on(devices, npu) == 0 <==> forall|i: int|
            0 <= i < devices.len() ==> (#[trigger] devices[i]).npu != npu,
        chips_on(devices, npu) <= 1 <==> forall|i: int, j: int|
            0 <= i < j < devices.len() ==> !((#[trigger] devices[i]).npu == npu && (
            #[trigger] devices[j]).npu == npu),
    decreases devices.len(),
{
    if devices.len() > 0 {
        let front = devices.drop_last();
        let last = devices.len() - 1;
        lemma_chips(front, npu);
        assert forall|i: int| 0 <= i < front.len() implies #[trigger] front[i] == devices[i] by {}
        if chips_on(devices, npu) == 0 {
            assert forall|i: int| 0 <= i < devices.len() implies (#[trigger] devices[i]).npu
                != npu by {
                if i < last {
                    assert(front[i].npu != npu);
                }
            }
        }
        if chips_on(devices, npu) <= 1 {
            assert forall|i: int, j: int| 0 <= i < j < devices.len() implies !((
            #[trigger] devices[i]).npu == npu && (#[trigger] devices[j]).npu == npu) by {
                assert(front[i] == devices[i]);
                if j < last {
                    assert(!(front[i].npu == npu && front[j].npu == npu));
                }
            }
        }
        if forall|i: int, j: int|
            0 <= i < j < devices.len() ==> !((#[trigger] devices[i]).npu == npu && (
            #[trigger] devices[j]).npu == npu) {
            assert forall|i: int, j: int| 0 <= i < j < front.len() implies !((
            #[trigger] front[i]).npu == npu && (#[trigger] front[j]).npu == npu) by {
                assert(!(devices[i].npu == npu && devices[j].npu == npu));
            }
            if devices[last].npu == npu {
                assert forall|i: int| 0 <= i < front.len() implies (#[trigger] front[i]).npu
                    != npu by {
                    assert(!(devices[i].npu == npu && devices[last].npu == npu));
                }
            }
        }
        if forall|i: int| 0 <= i < devices.len() ==> (#[trigger] devices[i]).npu != npu {
            assert forall|i: int| 0 <= i < front.len() implies (#[trigger] front[i]).npu != npu by {
                assert(devices[i].npu != npu);
            }
            assert(devices[last].npu != npu);
        }
    }
}

/// A device that is alone on its card is queried by the card number; one that shares its card keeps
/// its chip number. Nothing else of it is changed.
pub proof fn single_chips_need_no_number(devices: Seq<DeviceModel>, at: int, other: int)
    requires
        0 <= at < devices.len(),
    ensures
        ({
            let told = without_single_chips(devices)[at];
            &&& without_single_chips(devices).len() == devices.len()
            &&& told == (DeviceModel { chip: told.chip, ..devices[at] })
            &&& 0 <= other < devices.len() && other != at && devices[other].npu == devices[at].npu
                ==> told.chip == devices[at].chip
            &&& (forall|j: int|
                0 <= j < devices.len() && j != at ==> (#[trigger] devices[j]).npu
                    != devices[at].npu) ==> told.chip is None
        }),
{
    let npu = devices[at].npu;
    lemma_chips(devices, npu);
    assert(chips_on(devices, npu) != 0);
    if 0 <= other < devices.len() && other != at && devices[other].npu == npu {
        if other < at {
            assert(devices[other].npu == npu && devices[at].npu == npu);
        } else {
            assert(devices[at].npu == npu && devices[other].npu == npu);
        }
        assert(chips_on(devices, npu) > 1);
    }
    if forall|j: int|
        0 <= j < devices.len() && j != at ==> (#[trigger] devices[j]).npu != npu {
        assert forall|i: int, j: int| 0 <= i < j < devices.len() implies !((
        #[trigger] devices[i]).npu == npu && (#[trigger] devices[j]).npu == npu) by {
            if i == at {
                assert(devices[j].npu != npu);
            } else {
                assert(devices[i].npu != npu);
            }
        }
    }
}

proof fn lemma_chips_insert(devices: Seq<DeviceModel>, at: int, device: DeviceModel, npu: Option<u32>)
    requires
        0 <= at <= devices.len(),
    ensures
        chips_on(devices.insert(at, device), npu) == chips_on(devices, npu) + (if device.npu == npu {
            1nat
        } else {
            0nat
        }),
    decreases devices.len(),
{
    let more = devices.insert(at, device);
    if at == devices.len() {
        assert(more.drop_last() =~= devices);
    } else {
        assert(more.drop_last() =~= devices.drop_last().insert(at, device));
        assert(more.last() == devices.last());
        lemma_chips_insert(devices.drop_last(), at, device, npu);
    }
}

proof fn lemma_chips_ordered(devices: Seq<DeviceModel>, npu: Option<u32>)
    ensures
        chips_on(ordered(devices), npu) == chips_on(devices, npu),
        ordered(devices).len() == devices.len(),
    decreases devices.len(),
{
    if devices.len() > 0 {
        let front = ordered(devices.drop_last());
        lemma_chips_ordered(devices.drop_last(), npu);
        lemma_insertion_point(front, devices.last().id, front.len() as int);
        lemma_chips_insert(
            front,
            insertion_point(front, devices.last().id, front.len() as int),
            devices.last(),
            npu,
        );
    }
}

proof fn lemma_chips_kept(devices: Seq<DeviceModel>, others: Seq<DeviceModel>, npu: Option<u32>)
    requires
        devices.len() == others.len(),
        forall|i: int| 0 <= i < devices.len() ==> (#[trigger] devices[i]).npu == others[i].npu,
    ensures
        chips_on(devices, npu) == chips_on(others, npu),
    decreases devices.len(),
{
    if devices.len() > 0 {
        let last = devices.len() - 1;
        assert(devices[last].npu == others[last].npu);
        assert forall|i: int| 0 <= i < last implies (#[trigger] devices.drop_last()[i]).npu
            == others.drop_last()[i].npu by {
            assert(devices[i].npu == others[i].npu);
        }
        lemma_chips_kept(devices.drop_last(), others.drop_last(), npu);
    }
}

/// In an Ascend inventory a device that is alone on its card has no chip number, and as many devices
/// are listed as rows told of one.
pub proof fn ascend_inventories_list_each_device(text: Seq<char>, at: int)
    requires
        ascend_inventory(text) is Ok,
        0 <= at < ascend_inventory(text)->Ok_0.len(),
    ensures
        ({
            let listed = ascend_inventory(text)->Ok_0;
            let all = lines(text);
            let header = header_from(all, 0);
            &&& (forall|j: int|
                0 <= j < listed.len() && j != at ==> (#[trigger] listed[j]).npu != listed[at].npu)
                ==> listed[at].chip is None
            &&& header < all.len() && layout(all[header]) is Some
            &&& ascend_devices(all, layout(all[header])->0, header + 1) is Ok
            &&& listed.len() == ascend_devices(
                all,
                layout(all[header])->0,
                header + 1,
            )->Ok_0.len()
        }),
{
    let all = lines(text);
    let header = header_from(all, 0);
    let devices = ascend_devices(all, layout(all[header])->0, header + 1)->Ok_0;
    let plain = without_single_chips(devices);
    let listed = ordered(plain);
    let holds = |d: DeviceModel| chips_on(devices, d.npu) == 1 ==> d.chip is None;
    assert(all_devices(plain, holds)) by {
        assert forall|i: int| 0 <= i < plain.len() implies holds(#[trigger] plain[i]) by {
            assert(plain[i].npu == devices[i].npu);
        }
    }
    lemma_ordered_all(plain, holds);
    let npu = listed[at].npu;
    lemma_chips_ordered(plain, npu);
    lemma_chips_kept(plain, devices, npu);
    lemma_chips(listed, npu);
    assert(holds(listed[at]));
    if forall|j: int| 0 <= j < listed.len() && j != at ==> (#[trigger] listed[j]).npu != npu {
        assert forall|i: int, j: int| 0 <= i < j < listed.len() implies !((
        #[trigger] listed[i]).npu == npu && (#[trigger] listed[j]).npu == npu) by {
            if i == at {
                assert(listed[j].npu != npu);
            } else {
                assert(listed[i].npu != npu);
            }
        }
        assert(chips_on(listed, npu) == 1);
    }
}

// ---- What a discovery promises ----

/// A vendor that is looked for adds what its tool told, and its failure is kept; one that is not
/// looked for adds nothing and cannot fail.
pub proof fn vendors_add_what_they_told(backend: Backend, kind: Kind, probe: Result<String, Error>)
    ensures
        ({
            let looked_for = backend == Backend::Auto || (backend == Backend::Nvidia && kind
                == Kind::Nvidia) || (backend == Backend::Ascend && kind == Kind::Ascend);
            let told = match probe {
                Ok(text) => if kind == Kind::Nvidia {
                    nvidia_inventory(text@)
                } else {
                    ascend_inventory(text@)
                },
                Err(error) => Err(error@),
            };
            &&& is_wanted(backend, kind) == looked_for
            &&& looked_for && told is Ok ==> contribution(backend, kind, Some(probe)) == told->Ok_0
                && failed(backend, kind, Some(probe)) is None
            &&& looked_for && told is Err ==> contribution(backend, kind, Some(probe)).len() == 0
                && failed(backend, kind, Some(probe)) == Some(told->Err_0)
            &&& !looked_for ==> contribution(backend, kind, Some(probe)).len() == 0 && failed(
                backend,
                kind,
                Some(probe),
            ) is None
            &&& contribution(backend, kind, None).len() == 0 && failed(backend, kind, None) is None
        }),
{
}

/// Each failure of a vendor is a warning, NVIDIA's first.
pub proof fn failures_are_warned_of(nvidia: Option<ErrorModel>, ascend: Option<ErrorModel>)
    ensures
        ({
            let warnings = expected_warnings(nvidia, ascend);
            &&& warnings.len() == (if nvidia is Some {
                1int
            } else {
                0
            }) + (if ascend is Some {
                1int
            } else {
                0
            })
            &&& nvidia is Some ==> warnings[0] == (Kind::Nvidia, nvidia->0)
            &&& ascend is Some ==> warnings.last() == (Kind::Ascend, ascend->0)
        }),
{
}

/// A tool is taken from the first place where it is, and called by its bare name where it is nowhere.
pub proof fn tools_are_taken_from_the_first_place(
    places: Seq<Seq<u8>>,
    is_file: Seq<bool>,
    program: Seq<u8>,
    i: int,
    at: int,
)
    requires
        0 <= i <= at <= places.len() == is_file.len(),
        at < places.len() ==> is_file[at],
        forall|j: int| i <= j < at ==> !#[trigger] is_file[j],
    ensures
        first_file_from(places, is_file, program, i) == if at < places.len() {
            places[at]
        } else {
            program
        },
    decreases at - i,
{
    if i < at {
        assert(!is_file[i]);
        tools_are_taken_from_the_first_place(places, is_file, program, i + 1, at);
    }
}

/// A device is asked about by its card, and by its chip where it has a chip number.
pub proof fn devices_are_asked_about_by_card_and_chip(npu: u32, chip: Option<u32>)
    ensures
        ({
            let words = ascend_probe_words(npu, chip);
            &&& words.len() == if chip is Some {
                7int
            } else {
                5
            }
            &&& words[0] == "info"@ && words[1] == "-t"@ && words[2] == "proc-mem"@
            &&& words[3] == "-i"@ && words[4] == decimal(npu as nat)
            &&& chip is Some ==> words[5] == "-c"@ && words[6] == decimal(chip->0 as nat)
        }),
{
}

/// A tool has three seconds.
pub proof fn tools_have_three_seconds(ended: bool, elapsed: u64, r: bool)
    requires
        call_ensures(probe_is_over, (ended, elapsed), r),
    ensures
        r <==> ended || elapsed >= 3000,
{
}

/// The views of reports, paths, warnings and results hold what is in them.
pub proof fn views_of_probes_are_faithful(
    list: Seq<Option<String>>,
    paths: Seq<Vec<u8>>,
    warnings: Seq<(Kind, Error)>,
    result: Result<Vec<Device>, Error>,
    i: int,
)
    ensures
        reports(list).len() == list.len(),
        0 <= i < list.len() ==> reports(list)[i] is Some == list[i] is Some,
        0 <= i < list.len() && list[i] is Some ==> reports(list)[i]->0 == list[i]->0@,
        path_models(paths).len() == paths.len(),
        0 <= i < paths.len() ==> path_models(paths)[i] == paths[i]@,
        warning_models(warnings).len() == warnings.len(),
        0 <= i < warnings.len() ==> warning_models(warnings)[i] == (warnings[i].0, warnings[i].1@),
        devices_result(result) is Ok == result is Ok,
        result is Err ==> devices_result(result)->Err_0 == result->Err_0@,
        result is Ok ==> devices_result(result)->Ok_0.len() == result->Ok_0@.len(),
        result is Ok && 0 <= i < result->Ok_0@.len() ==> devices_result(result)->Ok_0[i]
            == result->Ok_0@[i]@,
{
}

/// The NVIDIA inventory is what its lines tell, all of it and in its order, unless it holds no device
/// or one twice; an error of a line is the error of the whole.
pub proof fn nvidia_inventories_are_what_the_lines_tell(text: Seq<char>)
    ensures
        match nvidia_devices(lines(text), 0) {
            Err(error) => nvidia_inventory(text) == Err::<Seq<DeviceModel>, ErrorModel>(error),
            Ok(devices) => {
                &&& devices.len() == 0 ==> nvidia_inventory(text) == Err::<
                    Seq<DeviceModel>,
                    ErrorModel,
                >(ErrorModel::NoDevices)
                &&& nvidia_inventory(text) is Ok ==> nvidia_inventory(text)->Ok_0 == devices
                &&& devices.len() > 0 && distinct_keys(devices) ==> nvidia_inventory(text) is Ok
                &&& devices.len() > 0 && !distinct_keys(devices) ==> nvidia_inventory(text) == Err::<
                    Seq<DeviceModel>,
                    ErrorModel,
                >(ErrorModel::DuplicateDevices)
            },
        },
{
}

/// The Ascend inventory holds what the rows below its header tell, each device once and no other; an
/// error of a row is the error of the whole, and without a header or its NPU column nothing is told.
pub proof fn ascend_inventories_are_what_the_rows_tell(text: Seq<char>)
    ensures
        ({
            let all = lines(text);
            let header = header_from(all, 0);
            let told = ascend_devices(all, layout(all[header])->0, header + 1);
            &&& header >= all.len() ==> ascend_inventory(text) == Err::<
                Seq<DeviceModel>,
                ErrorModel,
            >(ErrorModel::MissingAscendHeader)
            &&& header < all.len() && layout(all[header]) is None ==> ascend_inventory(text)
                == Err::<Seq<DeviceModel>, ErrorModel>(ErrorModel::MissingNpuColumn)
            &&& header < all.len() && layout(all[header]) is Some && told is Err
                ==> ascend_inventory(text) == Err::<Seq<DeviceModel>, ErrorModel>(told->Err_0)
            &&& header < all.len() && layout(all[header]) is Some && told is Ok
                && told->Ok_0.len() == 0 ==> ascend_inventory(text) == Err::<
                Seq<DeviceModel>,
                ErrorModel,
            >(ErrorModel::NoDevices)
            &&& ascend_inventory(text) is Ok ==> told is Ok
                && ascend_inventory(text)->Ok_0.to_multiset() == without_single_chips(
                told->Ok_0,
            ).to_multiset()
        }),
{
    let all = lines(text);
    let header = header_from(all, 0);
    let told = ascend_devices(all, layout(all[header])->0, header + 1);
    if header < all.len() && layout(all[header]) is Some && told is Ok {
        let plain = without_single_chips(told->Ok_0);
        ordering_sorts_and_keeps(plain);
        lemma_chips_ordered(plain, None);
    }
}

} // verus!
