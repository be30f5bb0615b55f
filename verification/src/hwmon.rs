//! Choosing the CPU package's temperature sensor among the hwmon chips.

use vstd::prelude::*;
use vstd::slice::slice_subrange;

use crate::numbers;
use crate::order;
use crate::order::{Key, KeyView};
use crate::text;

verus! {

/// A `tempN_label` file of a chip.
#[derive(Debug)]
pub struct LabelFile {
    /// The file's name.
    pub file: String,
    /// What it holds, where that could be read.
    pub text: Option<String>,
}

/// One entry of the hwmon class directory.
#[derive(Debug)]
pub struct HwmonChip {
    /// The entry's file name, e.g. `hwmon6`.
    pub node: String,
    /// What its `name` file holds, where that could be read.
    pub name: Option<String>,
    /// The label files in it.
    pub labels: Vec<LabelFile>,
    /// The names of the files that exist in it.
    pub inputs: Vec<String>,
}

/// How specific a chip is to the CPU package, the most specific first. Other chips do not
/// measure the CPU at all.
pub open spec fn chip_rank(name: Seq<char>) -> Option<u32> {
    if name == "k10temp"@ {
        Some(0u32)
    } else if name == "zenpower"@ {
        Some(1u32)
    } else if name == "coretemp"@ {
        Some(2u32)
    } else {
        None
    }
}

/// The rank of a chip by what its `name` file holds.
pub fn temp_chip(name: &str) -> (r: Option<u32>)
    ensures
        r == chip_rank(text::trim(name@)),
{
    let all = text::characters(name);
    let s = text::trimmed(all.as_slice());
    if text::same(s, text::characters("k10temp").as_slice()) {
        Some(0)
    } else if text::same(s, text::characters("zenpower").as_slice()) {
        Some(1)
    } else if text::same(s, text::characters("coretemp").as_slice()) {
        Some(2)
    } else {
        None
    }
}

/// The `N` of a `tempN_label` file name.
pub open spec fn index_of_label(file: Seq<char>) -> Option<Seq<char>> {
    if text::starts_with(file, "temp"@) {
        let rest = file.skip("temp"@.len() as int);
        if text::ends_with(rest, "_label"@) {
            Some(rest.take(rest.len() - "_label"@.len()))
        } else {
            None
        }
    } else {
        None
    }
}

/// The `N` of a `tempN_label` file name.
pub fn label_index<'a>(file: &'a str) -> (r: Option<&'a str>)
    ensures
        match r {
            Some(index) => index_of_label(file@) == Some(index@),
            None => index_of_label(file@) is None,
        },
{
    let s = text::characters(file);
    let prefix = text::characters("temp");
    let suffix = text::characters("_label");
    if !text::has_prefix(s.as_slice(), prefix.as_slice()) {
        return None;
    }
    let rest = slice_subrange(s.as_slice(), prefix.len(), s.len());
    assert(rest@ == file@.skip(prefix@.len() as int));
    if !text::has_suffix(rest, suffix.as_slice()) {
        return None;
    }
    let from: usize = prefix.len();
    let to: usize = s.len() - suffix.len();
    assert(file@.subrange(from as int, to as int) == rest@.take(rest@.len() - suffix@.len()));
    Some(file.substring_char(from, to))
}

/// The input file that belongs to a label file.
pub open spec fn input_name(index: Seq<char>) -> Seq<char> {
    "temp"@ + index + "_input"@
}

/// Whether a list of file names holds `name`.
pub open spec fn lists(names: Seq<String>, name: Seq<char>) -> bool {
    exists|i: int| 0 <= i < names.len() && (#[trigger] names[i])@ == name
}

/// Whether a label file reads `wanted` and its input file exists.
pub open spec fn label_matches(l: LabelFile, inputs: Seq<String>, wanted: Seq<char>) -> bool {
    match (index_of_label(l.file@), l.text) {
        (Some(index), Some(t)) => text::trim(t@) == wanted && lists(inputs, input_name(index)),
        _ => false,
    }
}

/// The indices of the sensors labelled `wanted`, as they were listed.
pub open spec fn labelled(labels: Seq<LabelFile>, inputs: Seq<String>, wanted: Seq<char>) -> Seq<
    Seq<char>,
>
    decreases labels.len(),
{
    if labels.len() == 0 {
        Seq::empty()
    } else {
        let rest = labelled(labels.drop_last(), inputs, wanted);
        if label_matches(labels.last(), inputs, wanted) {
            rest.push(index_of_label(labels.last().file@)->0)
        } else {
            rest
        }
    }
}

/// What a sensor is ordered by: its number, those without one last, then its input file.
pub open spec fn index_key(index: Seq<char>) -> KeyView {
    KeyView {
        class: 0,
        number: match numbers::unsigned(index, 10, u32::MAX as int) {
            Some(n) => n as u32,
            None => u32::MAX,
        },
        name: input_name(index),
    }
}

/// The keys of some sensors.
pub open spec fn index_keys(indices: Seq<Seq<char>>) -> Seq<KeyView> {
    indices.map_values(|index: Seq<char>| index_key(index))
}

/// The input file of the first sensor labelled `wanted`.
pub open spec fn labelled_input(chip: HwmonChip, wanted: Seq<char>) -> Option<Seq<char>> {
    let indices = labelled(chip.labels@, chip.inputs@, wanted);
    if indices.len() == 0 {
        None
    } else {
        Some(input_name(indices[order::first_of(index_keys(indices))]))
    }
}

/// Whether a list of file names holds `name`.
fn is_listed(names: &Vec<String>, name: &String) -> (r: bool)
    ensures
        r == lists(names@, name@),
{
    let mut i: usize = 0;
    while i < names.len()
        invariant
            i <= names@.len(),
            forall|j: int| 0 <= j < i ==> (#[trigger] names@[j])@ != name@,
        decreases names@.len() - i,
    {
        if names[i] == *name {
            return true;
        }
        i = i + 1;
    }
    false
}

/// The input file of one label file, if it reads `wanted`.
fn matching_input(l: &LabelFile, inputs: &Vec<String>, wanted: &[char]) -> (r: Option<(u32, String)>)
    ensures
        r is Some == label_matches(*l, inputs@, wanted@),
        r matches Some((number, input)) ==> {
            let index = index_of_label(l.file@)->0;
            &&& number == index_key(index).number
            &&& input@ == input_name(index)
        },
{
    let index = match label_index(l.file.as_str()) {
        Some(index) => index,
        None => {
            return None;
        },
    };
    let all = match &l.text {
        Some(t) => text::characters(t.as_str()),
        None => {
            return None;
        },
    };
    if !text::same(text::trimmed(all.as_slice()), wanted) {
        return None;
    }
    let input = "temp".to_owned().concat(index).concat("_input");
    if !is_listed(inputs, &input) {
        return None;
    }
    let number: u32 = match numbers::parse_unsigned(
        text::characters(index).as_slice(),
        10,
        u32::MAX as u64,
    ) {
        Some(n) => n as u32,
        None => u32::MAX,
    };
    Some((number, input))
}

/// The `tempN_input` whose `tempN_label` reads `wanted`.
pub fn labelled_temp_input(chip: &HwmonChip, wanted: &str) -> (r: Option<String>)
    ensures
        match r {
            Some(file) => labelled_input(*chip, wanted@) == Some(file@),
            None => labelled_input(*chip, wanted@) is None,
        },
{
    let want = text::characters(wanted);
    let mut keys: Vec<Key> = Vec::new();
    let mut files: Vec<String> = Vec::new();
    let ghost indices = labelled(chip.labels@, chip.inputs@, wanted@);
    let mut i: usize = 0;
    assert(order::views(keys@) == index_keys(
        labelled(chip.labels@.take(0), chip.inputs@, wanted@),
    ));
    while i < chip.labels.len()
        invariant
            want@ == wanted@,
            i <= chip.labels@.len(),
            order::views(keys@) == index_keys(
                labelled(chip.labels@.take(i as int), chip.inputs@, wanted@),
            ),
            files@.len() == keys@.len(),
            forall|j: int| 0 <= j < files@.len() ==> (#[trigger] files@[j])@ == keys@[j].name@,
        decreases chip.labels@.len() - i,
    {
        let ghost upto = chip.labels@.take(i + 1);
        assert(upto.drop_last() == chip.labels@.take(i as int));
        assert(upto.last() == chip.labels@[i as int]);
        if let Some((number, input)) = matching_input(&chip.labels[i], &chip.inputs, want.as_slice()) {
            let ghost before = keys@;
            keys.push(Key { class: 0, number, name: text::characters(input.as_str()) });
            files.push(input);
            assert(order::views(keys@) == order::views(before).push(
                index_key(index_of_label(upto.last().file@)->0),
            ));
            assert(order::views(keys@) == index_keys(labelled(upto, chip.inputs@, wanted@)));
        }
        i = i + 1;
    }
    assert(chip.labels@.take(i as int) == chip.labels@);
    assert(order::views(keys@).len() == indices.len());
    match order::first(&keys) {
        Some(k) => {
            assert(order::views(keys@)[k as int].name == input_name(indices[k as int]));
            Some(files[k].clone())
        },
        None => None,
    }
}

/// The input file to read on one chip. Where no label is asked for, the labels that name
/// the package temperature are tried (AMD's two, then Intel's), then the chip's first
/// sensor. Where one is, no other sensor will do.
pub open spec fn chip_choice(chip: HwmonChip, label: Option<Seq<char>>) -> Option<Seq<char>> {
    match label {
        Some(wanted) => labelled_input(chip, wanted),
        None => if labelled_input(chip, "Tctl"@) is Some {
            labelled_input(chip, "Tctl"@)
        } else if labelled_input(chip, "Tdie"@) is Some {
            labelled_input(chip, "Tdie"@)
        } else if labelled_input(chip, "Package id 0"@) is Some {
            labelled_input(chip, "Package id 0"@)
        } else if lists(chip.inputs@, "temp1_input"@) {
            Some("temp1_input"@)
        } else {
            None
        },
    }
}

/// The rank of a chip, if it measures the CPU.
pub open spec fn rank_of(chip: HwmonChip) -> Option<u32> {
    match chip.name {
        Some(n) => chip_rank(text::trim(n@)),
        None => None,
    }
}

/// Whether a chip measures the CPU and has a sensor to read.
pub open spec fn usable(chip: HwmonChip, label: Option<Seq<char>>) -> bool {
    rank_of(chip) is Some && chip_choice(chip, label) is Some
}

/// The chips that can be read, as they were listed.
pub open spec fn usable_chips(chips: Seq<HwmonChip>, label: Option<Seq<char>>) -> Seq<HwmonChip>
    decreases chips.len(),
{
    if chips.len() == 0 {
        Seq::empty()
    } else if usable(chips.last(), label) {
        usable_chips(chips.drop_last(), label).push(chips.last())
    } else {
        usable_chips(chips.drop_last(), label)
    }
}

/// What a chip is ordered by: how specific it is, then its number, then its name.
pub open spec fn chip_key(chip: HwmonChip) -> KeyView {
    KeyView {
        class: rank_of(chip)->0,
        number: numbers::node_number(chip.node@),
        name: chip.node@,
    }
}

/// The keys of some chips.
pub open spec fn chip_keys(chips: Seq<HwmonChip>) -> Seq<KeyView> {
    chips.map_values(|c: HwmonChip| chip_key(c))
}

/// Where a chip's file stands below the sysfs mount point.
pub open spec fn temp_path(chip: HwmonChip, file: Seq<char>) -> Seq<char> {
    "class/hwmon/"@ + chip.node@ + "/"@ + file
}

/// The temperature sensor to read, below the sysfs mount point.
pub open spec fn temp_choice(chips: Seq<HwmonChip>, label: Option<Seq<char>>) -> Option<Seq<char>> {
    let able = usable_chips(chips, label);
    if able.len() == 0 {
        None
    } else {
        let chip = able[order::first_of(chip_keys(able))];
        Some(temp_path(chip, chip_choice(chip, label)->0))
    }
}

/// A label as the specification has it.
pub open spec fn label_view(label: Option<&str>) -> Option<Seq<char>> {
    match label {
        Some(l) => Some(l@),
        None => None,
    }
}

/// The input file to read on one chip.
fn choose_input(chip: &HwmonChip, label: Option<&str>) -> (r: Option<String>)
    ensures
        match r {
            Some(file) => chip_choice(*chip, label_view(label)) == Some(file@),
            None => chip_choice(*chip, label_view(label)) is None,
        },
{
    if let Some(wanted) = label {
        return labelled_temp_input(chip, wanted);
    }
    if let Some(file) = labelled_temp_input(chip, "Tctl") {
        return Some(file);
    }
    if let Some(file) = labelled_temp_input(chip, "Tdie") {
        return Some(file);
    }
    if let Some(file) = labelled_temp_input(chip, "Package id 0") {
        return Some(file);
    }
    let fallback = "temp1_input".to_owned();
    if is_listed(&chip.inputs, &fallback) {
        Some(fallback)
    } else {
        None
    }
}

/// The hwmon `tempN_input` for the CPU package, below the sysfs mount point.
///
/// An AMD sensor wins over a stray `coretemp` regardless of hwmon numbering, and within a
/// chip the labelled sensor wins over `temp1_input`.
pub fn find_temp_input(chips: &Vec<HwmonChip>, label: Option<&str>) -> (r: Option<String>)
    ensures
        match r {
            Some(path) => temp_choice(chips@, label_view(label)) == Some(path@),
            None => temp_choice(chips@, label_view(label)) is None,
        },
{
    let ghost want = label_view(label);
    let ghost able = usable_chips(chips@, want);
    let mut keys: Vec<Key> = Vec::new();
    let mut paths: Vec<String> = Vec::new();
    let mut i: usize = 0;
    assert(order::views(keys@) == chip_keys(usable_chips(chips@.take(0), want)));
    while i < chips.len()
        invariant
            want == label_view(label),
            i <= chips@.len(),
            order::views(keys@) == chip_keys(usable_chips(chips@.take(i as int), want)),
            paths@.len() == usable_chips(chips@.take(i as int), want).len(),
            forall|j: int|
                0 <= j < paths@.len() ==> (#[trigger] paths@[j])@ == temp_path(
                    usable_chips(chips@.take(i as int), want)[j],
                    chip_choice(usable_chips(chips@.take(i as int), want)[j], want)->0,
                ),
        decreases chips@.len() - i,
    {
        let ghost upto = chips@.take(i + 1);
        assert(upto.drop_last() == chips@.take(i as int));
        assert(upto.last() == chips@[i as int]);
        let chip = &chips[i];
        let rank: Option<u32> = match &chip.name {
            Some(name) => temp_chip(name.as_str()),
            None => None,
        };
        if let Some(class) = rank {
            if let Some(file) = choose_input(chip, label) {
                let ghost before = keys@;
                keys.push(
                    Key {
                        class,
                        number: numbers::trailing_number(chip.node.as_str()),
                        name: text::characters(chip.node.as_str()),
                    },
                );
                paths.push(
                    "class/hwmon/".to_owned().concat(chip.node.as_str()).concat("/").concat(
                        file.as_str(),
                    ),
                );
                assert(order::views(keys@) == order::views(before).push(chip_key(*chip)));
                assert(order::views(keys@) == chip_keys(usable_chips(upto, want)));
            }
        }
        i = i + 1;
    }
    assert(chips@.take(i as int) == chips@);
    assert(order::views(keys@).len() == able.len());
    match order::first(&keys) {
        Some(k) => Some(paths[k].clone()),
        None => None,
    }
}

proof fn lemma_usable_is_listed(chips: Seq<HwmonChip>, label: Option<Seq<char>>, i: int) -> (k: int)
    requires
        0 <= i < usable_chips(chips, label).len(),
    ensures
        0 <= k < chips.len(),
        chips[k] == usable_chips(chips, label)[i],
        usable(chips[k], label),
    decreases chips.len(),
{
    let rest = usable_chips(chips.drop_last(), label);
    if i < rest.len() {
        lemma_usable_is_listed(chips.drop_last(), label, i)
    } else {
        chips.len() - 1
    }
}

proof fn lemma_listed_is_usable(chips: Seq<HwmonChip>, label: Option<Seq<char>>, k: int) -> (i: int)
    requires
        0 <= k < chips.len(),
        usable(chips[k], label),
    ensures
        0 <= i < usable_chips(chips, label).len(),
        chips[k] == usable_chips(chips, label)[i],
    decreases chips.len(),
{
    if k == chips.len() - 1 {
        usable_chips(chips, label).len() - 1
    } else {
        lemma_listed_is_usable(chips.drop_last(), label, k)
    }
}

/// A sensor is found exactly if some chip that measures the CPU has one to read, and the
/// one chosen is on a chip at least as specific as any of those, whatever their numbers.
pub proof fn law_most_specific_chip_wins(chips: Seq<HwmonChip>, label: Option<Seq<char>>)
    ensures
        temp_choice(chips, label) is Some <==> exists|k: int|
            0 <= k < chips.len() && usable(#[trigger] chips[k], label),
        temp_choice(chips, label) is Some ==> exists|c: int|
            {
                &&& 0 <= c < chips.len()
                &&& usable(#[trigger] chips[c], label)
                &&& temp_choice(chips, label) == Some(
                    temp_path(chips[c], chip_choice(chips[c], label)->0),
                )
                &&& forall|k: int|
                    0 <= k < chips.len() && usable(#[trigger] chips[k], label) ==> rank_of(
                        chips[c],
                    )->0 <= rank_of(chips[k])->0
            },
{
    let able = usable_chips(chips, label);
    let keys = chip_keys(able);
    if able.len() > 0 {
        order::law_some_entry_is_first(keys);
        let f = order::first_of(keys);
        let c = lemma_usable_is_listed(chips, label, f);
        assert(usable(chips[c], label));
        assert forall|k: int| 0 <= k < chips.len() && usable(#[trigger] chips[k], label) implies
            rank_of(chips[c])->0 <= rank_of(chips[k])->0 by {
            let i = lemma_listed_is_usable(chips, label, k);
            if i != f {
                assert(order::precedes(keys, f, i));
            }
        }
    } else {
        assert forall|k: int| 0 <= k < chips.len() implies !usable(#[trigger] chips[k], label) by {
            if usable(chips[k], label) {
                let i = lemma_listed_is_usable(chips, label, k);
            }
        }
    }
}

proof fn lemma_labelled_is_listed(
    labels: Seq<LabelFile>,
    inputs: Seq<String>,
    wanted: Seq<char>,
    i: int,
) -> (k: int)
    requires
        0 <= i < labelled(labels, inputs, wanted).len(),
    ensures
        0 <= k < labels.len(),
        label_matches(labels[k], inputs, wanted),
        index_of_label(labels[k].file@) == Some(labelled(labels, inputs, wanted)[i]),
    decreases labels.len(),
{
    let rest = labelled(labels.drop_last(), inputs, wanted);
    if i < rest.len() {
        lemma_labelled_is_listed(labels.drop_last(), inputs, wanted, i)
    } else {
        labels.len() - 1
    }
}

/// Asking for a label never yields another sensor's reading: the file chosen is the
/// existing input of a label file that reads exactly that label.
pub proof fn law_explicit_label_is_never_replaced(chips: Seq<HwmonChip>, wanted: Seq<char>)
    requires
        temp_choice(chips, Some(wanted)) is Some,
    ensures
        exists|c: int, k: int|
            {
                &&& 0 <= c < chips.len()
                &&& 0 <= k < chips[c].labels@.len()
                &&& label_matches(#[trigger] chips[c].labels@[k], chips[c].inputs@, wanted)
                &&& temp_choice(chips, Some(wanted)) == Some(
                    temp_path(
                        chips[c],
                        input_name(index_of_label(chips[c].labels@[k].file@)->0),
                    ),
                )
            },
{
    let label = Some(wanted);
    let able = usable_chips(chips, label);
    order::law_some_entry_is_first(chip_keys(able));
    let c = lemma_usable_is_listed(chips, label, order::first_of(chip_keys(able)));
    let chip = chips[c];
    let indices = labelled(chip.labels@, chip.inputs@, wanted);
    order::law_some_entry_is_first(index_keys(indices));
    let k = lemma_labelled_is_listed(
        chip.labels@,
        chip.inputs@,
        wanted,
        order::first_of(index_keys(indices)),
    );
    assert(label_matches(chips[c].labels@[k], chips[c].inputs@, wanted));
}

/// The chip that is read is the one that comes first by rank, then by node number, then by
/// name, wherever it was listed.
pub proof fn law_first_chip_is_read(chips: Seq<HwmonChip>, label: Option<Seq<char>>, k: int)
    requires
        0 <= k < chips.len(),
        usable(chips[k], label),
        forall|j: int|
            0 <= j < chips.len() && j != k && usable(#[trigger] chips[j], label) ==> order::key_lt(
                chip_key(chips[k]),
                chip_key(chips[j]),
            ),
    ensures
        temp_choice(chips, label) == Some(temp_path(chips[k], chip_choice(chips[k], label)->0)),
{
    let able = usable_chips(chips, label);
    let keys = chip_keys(able);
    let i = lemma_listed_is_usable(chips, label, k);
    order::law_some_entry_is_first(keys);
    let f = order::first_of(keys);
    let c = lemma_usable_is_listed(chips, label, f);
    if c != k {
        assert(usable(chips[c], label));
        assert(order::key_lt(chip_key(chips[k]), chip_key(chips[c])));
        assert(keys[i] == chip_key(chips[k]));
        assert(keys[f] == chip_key(chips[c]));
        order::lemma_key_lt_asymmetric(keys[i], keys[f]);
        if i != f {
            assert(order::precedes(keys, f, i));
        }
    }
}

/// Whether no two entries of a listing have the same name, as in any directory.
pub open spec fn distinctly_named(chips: Seq<HwmonChip>) -> bool {
    forall|i: int, j: int|
        0 <= i < j < chips.len() ==> (#[trigger] chips[i]).node@ != (#[trigger] chips[j]).node@
}

/// The order in which the kernel lists the chips makes no difference to which sensor is
/// read.
pub proof fn law_listing_order_is_irrelevant(
    chips: Seq<HwmonChip>,
    shuffled: Seq<HwmonChip>,
    label: Option<Seq<char>>,
)
    requires
        distinctly_named(chips),
        distinctly_named(shuffled),
        forall|c: HwmonChip| chips.contains(c) <==> shuffled.contains(c),
    ensures
        temp_choice(chips, label) == temp_choice(shuffled, label),
{
    let able = usable_chips(chips, label);
    let keys = chip_keys(able);
    if able.len() == 0 {
        if usable_chips(shuffled, label).len() > 0 {
            let k = lemma_usable_is_listed(shuffled, label, 0);
            assert(shuffled.contains(shuffled[k]));
            let j = choose|j: int| 0 <= j < chips.len() && chips[j] == shuffled[k];
            let i = lemma_listed_is_usable(chips, label, j);
        }
    } else {
        order::law_some_entry_is_first(keys);
        let f = order::first_of(keys);
        let c = lemma_usable_is_listed(chips, label, f);
        assert(chips.contains(chips[c]));
        let k = choose|k: int| 0 <= k < shuffled.len() && shuffled[k] == chips[c];
        assert forall|j: int|
            0 <= j < shuffled.len() && j != k && usable(
                #[trigger] shuffled[j],
                label,
            ) implies order::key_lt(chip_key(shuffled[k]), chip_key(shuffled[j])) by {
            assert(shuffled[j].node@ != shuffled[k].node@);
            assert(shuffled.contains(shuffled[j]));
            let l = choose|l: int| 0 <= l < chips.len() && chips[l] == shuffled[j];
            let i = lemma_listed_is_usable(chips, label, l);
            assert(keys[i] == chip_key(shuffled[j]));
            assert(keys[f] == chip_key(shuffled[k]));
            assert(order::precedes(keys, f, i));
        }
        law_first_chip_is_read(shuffled, label, k);
    }
}

/// Whether a label names the package temperature.
pub open spec fn names_package(label: Seq<char>) -> bool {
    label == "Tctl"@ || label == "Tdie"@ || label == "Package id 0"@
}

proof fn lemma_matching_is_labelled(
    labels: Seq<LabelFile>,
    inputs: Seq<String>,
    wanted: Seq<char>,
    k: int,
)
    requires
        0 <= k < labels.len(),
        label_matches(labels[k], inputs, wanted),
    ensures
        labelled(labels, inputs, wanted).len() > 0,
    decreases labels.len(),
{
    if k < labels.len() - 1 {
        lemma_matching_is_labelled(labels.drop_last(), inputs, wanted, k);
    }
}

/// Within a chip, a sensor whose label names the package temperature wins over the chip's
/// first sensor.
#[verifier::rlimit(60)]
pub proof fn law_labelled_sensor_wins(chip: HwmonChip, k: int, name: Seq<char>)
    requires
        0 <= k < chip.labels@.len(),
        names_package(name),
        label_matches(chip.labels@[k], chip.inputs@, name),
    ensures
        exists|j: int, wanted: Seq<char>|
            {
                &&& 0 <= j < chip.labels@.len()
                &&& names_package(wanted)
                &&& #[trigger] label_matches(chip.labels@[j], chip.inputs@, wanted)
                &&& chip_choice(chip, None) == Some(
                    input_name(index_of_label(chip.labels@[j].file@)->0),
                )
            },
{
    lemma_matching_is_labelled(chip.labels@, chip.inputs@, name, k);
    let wanted = if labelled_input(chip, "Tctl"@) is Some {
        "Tctl"@
    } else if labelled_input(chip, "Tdie"@) is Some {
        "Tdie"@
    } else {
        "Package id 0"@
    };
    let indices = labelled(chip.labels@, chip.inputs@, wanted);
    assert(labelled_input(chip, name) is Some);
    assert(indices.len() > 0);
    order::law_some_entry_is_first(index_keys(indices));
    let j = lemma_labelled_is_listed(
        chip.labels@,
        chip.inputs@,
        wanted,
        order::first_of(index_keys(indices)),
    );
    assert(label_matches(chip.labels@[j], chip.inputs@, wanted));
}

/// Whether a chip has a sensor of this index that is labelled `wanted`: the label file of that
/// index reads so, white space around it aside, and the input file of that index exists.
pub open spec fn sensor_reads(chip: HwmonChip, index: Seq<char>, wanted: Seq<char>) -> bool {
    &&& exists|i: int|
        {
            &&& 0 <= i < chip.labels@.len()
            &&& (#[trigger] chip.labels@[i]).file@ == "temp"@ + index + "_label"@
            &&& chip.labels@[i].text matches Some(t) && text::trim(t@) == wanted
        }
    &&& exists|j: int|
        0 <= j < chip.inputs@.len() && (#[trigger] chip.inputs@[j])@ == "temp"@ + index
            + "_input"@
}

proof fn lemma_index_of_label(file: Seq<char>, index: Seq<char>)
    ensures
        index_of_label(file) == Some(index) <==> file == "temp"@ + index + "_label"@,
{
    let whole = "temp"@ + index + "_label"@;
    let rest = index + "_label"@;
    assert(whole == "temp"@ + rest);
    text::law_prefixes_and_suffixes(rest, "temp"@);
    text::law_prefixes_and_suffixes(index, "_label"@);
    assert(whole.skip("temp"@.len() as int) == rest);
    assert(rest.take(rest.len() - "_label"@.len()) == index);
    if index_of_label(file) == Some(index) {
        text::law_prefixes_and_suffixes(file, "temp"@);
        let tail = file.skip("temp"@.len() as int);
        text::law_prefixes_and_suffixes(tail, "_label"@);
        assert(file == whole);
    }
}

proof fn lemma_reads_is_labelled(chip: HwmonChip, index: Seq<char>, wanted: Seq<char>)
    requires
        sensor_reads(chip, index, wanted),
    ensures
        labelled(chip.labels@, chip.inputs@, wanted).contains(index),
{
    let i = choose|i: int|
        {
            &&& 0 <= i < chip.labels@.len()
            &&& (#[trigger] chip.labels@[i]).file@ == "temp"@ + index + "_label"@
            &&& chip.labels@[i].text matches Some(t) && text::trim(t@) == wanted
        };
    lemma_index_of_label(chip.labels@[i].file@, index);
    assert(label_matches(chip.labels@[i], chip.inputs@, wanted));
    lemma_match_is_kept(chip.labels@, chip.inputs@, wanted, i);
}

proof fn lemma_match_is_kept(
    labels: Seq<LabelFile>,
    inputs: Seq<String>,
    wanted: Seq<char>,
    k: int,
)
    requires
        0 <= k < labels.len(),
        label_matches(labels[k], inputs, wanted),
    ensures
        labelled(labels, inputs, wanted).contains(index_of_label(labels[k].file@)->0),
    decreases labels.len(),
{
    let all = labelled(labels, inputs, wanted);
    if k < labels.len() - 1 {
        let rest = labelled(labels.drop_last(), inputs, wanted);
        lemma_match_is_kept(labels.drop_last(), inputs, wanted, k);
        let i = choose|i: int|
            0 <= i < rest.len() && rest[i] == index_of_label(labels[k].file@)->0;
        assert(all[i] == rest[i]);
    } else {
        assert(all[all.len() - 1] == index_of_label(labels[k].file@)->0);
    }
}

/// What a sensor's index is worth for ordering: its number, the largest of all where it is
/// none.
pub open spec fn index_number(index: Seq<char>) -> int {
    match numbers::unsigned(index, 10, u32::MAX as int) {
        Some(n) => n,
        None => u32::MAX as int,
    }
}

/// Whether `file` is the input of the sensor labelled `wanted` whose number is the smallest;
/// among equal numbers, of the one whose input's name comes first.
pub open spec fn is_first_reading(chip: HwmonChip, wanted: Seq<char>, file: Seq<char>) -> bool {
    exists|index: Seq<char>|
        {
            &&& #[trigger] sensor_reads(chip, index, wanted)
            &&& file == "temp"@ + index + "_input"@
            &&& forall|other: Seq<char>|
                #[trigger] sensor_reads(chip, other, wanted) ==> index_number(index)
                    < index_number(other) || (index_number(index) == index_number(other) && (other
                    == index || order::name_lt(file, "temp"@ + other + "_input"@)))
        }
}

#[verifier::rlimit(60)]
proof fn lemma_labelled_input(chip: HwmonChip, wanted: Seq<char>)
    ensures
        labelled_input(chip, wanted) is None <==> forall|index: Seq<char>|
            !(#[trigger] sensor_reads(chip, index, wanted)),
        labelled_input(chip, wanted) matches Some(file) ==> is_first_reading(chip, wanted, file),
{
    let indices = labelled(chip.labels@, chip.inputs@, wanted);
    let keys = index_keys(indices);
    assert forall|index: Seq<char>|
        #[trigger] sensor_reads(chip, index, wanted) implies indices.contains(index) by {
        lemma_reads_is_labelled(chip, index, wanted);
    }
    if indices.len() > 0 {
        order::law_some_entry_is_first(keys);
        let f = order::first_of(keys);
        let index = indices[f];
        let k = lemma_labelled_is_listed(chip.labels@, chip.inputs@, wanted, f);
        lemma_index_of_label(chip.labels@[k].file@, index);
        assert(sensor_reads(chip, index, wanted));
        let file = "temp"@ + index + "_input"@;
        assert(labelled_input(chip, wanted) == Some(file));
        assert forall|other: Seq<char>|
            #[trigger] sensor_reads(chip, other, wanted) implies index_number(index)
            < index_number(other) || (index_number(index) == index_number(other) && (other == index
            || order::name_lt(file, "temp"@ + other + "_input"@))) by {
            assert(indices.contains(other));
            let i = choose|i: int| 0 <= i < indices.len() && indices[i] == other;
            numbers::lemma_unsigned(index, 10, u32::MAX as int);
            numbers::lemma_unsigned(other, 10, u32::MAX as int);
            if i != f {
                assert(order::precedes(keys, f, i));
                if keys[f] == keys[i] {
                    let whole = "temp"@ + other + "_input"@;
                    assert(file == whole);
                    let n = "temp"@.len() as int;
                    assert(index.len() == other.len());
                    assert(index == file.subrange(n, n + index.len()));
                    assert(other == whole.subrange(n, n + other.len()));
                }
            }
        }
        assert(is_first_reading(chip, wanted, file));
    }
}

/// Whether some sensor of a chip is labelled `wanted`.
pub open spec fn has_sensor(chip: HwmonChip, wanted: Seq<char>) -> bool {
    exists|index: Seq<char>| #[trigger] sensor_reads(chip, index, wanted)
}

/// A label that is asked for is followed: on a chip with such a sensor its input is read, the
/// one of the smallest number where there are more, and on any other chip nothing is.
pub proof fn law_asked_label_is_followed(chip: HwmonChip, wanted: Seq<char>)
    ensures
        match chip_choice(chip, Some(wanted)) {
            Some(file) => is_first_reading(chip, wanted, file),
            None => !has_sensor(chip, wanted),
        },
{
    lemma_labelled_input(chip, wanted);
}

/// Where no label is asked for, the labels that name the package temperature are tried in
/// order: `Tctl`, then `Tdie`, then `Package id 0`. Only a chip with none of these has its
/// first sensor read, if that exists.
pub proof fn law_labels_are_tried_in_order(chip: HwmonChip)
    ensures
        ({
            let first = exists|j: int|
                0 <= j < chip.inputs@.len() && (#[trigger] chip.inputs@[j])@ == "temp1_input"@;
            let choice = chip_choice(chip, None);
            if has_sensor(chip, "Tctl"@) {
                choice matches Some(file) && is_first_reading(chip, "Tctl"@, file)
            } else if has_sensor(chip, "Tdie"@) {
                choice matches Some(file) && is_first_reading(chip, "Tdie"@, file)
            } else if has_sensor(chip, "Package id 0"@) {
                choice matches Some(file) && is_first_reading(chip, "Package id 0"@, file)
            } else if first {
                choice == Some("temp1_input"@)
            } else {
                choice is None
            }
        }),
{
    lemma_labelled_input(chip, "Tctl"@);
    lemma_labelled_input(chip, "Tdie"@);
    lemma_labelled_input(chip, "Package id 0"@);
}

/// Whether a chip's name file, white space around it aside, holds this name, and the chip has
/// a sensor to read.
pub open spec fn offers(chip: HwmonChip, name: Seq<char>, label: Option<Seq<char>>) -> bool {
    &&& chip.name matches Some(n) && text::trim(n@) == name
    &&& chip_choice(chip, label) is Some
}

proof fn lemma_chip_ranks(chip: HwmonChip, label: Option<Seq<char>>)
    ensures
        usable(chip, label) <==> offers(chip, "k10temp"@, label) || offers(
            chip,
            "zenpower"@,
            label,
        ) || offers(chip, "coretemp"@, label),
        usable(chip, label) ==> (rank_of(chip)->0 == 0 <==> offers(chip, "k10temp"@, label)),
        usable(chip, label) ==> (rank_of(chip)->0 == 1 <==> offers(chip, "zenpower"@, label)),
        usable(chip, label) ==> (rank_of(chip)->0 == 2 <==> offers(chip, "coretemp"@, label)),
{
    reveal_strlit("k10temp");
    reveal_strlit("zenpower");
    reveal_strlit("coretemp");
    assert("k10temp"@.len() == 7 && "zenpower"@.len() == 8 && "coretemp"@.len() == 8);
    assert("zenpower"@[0] == 'z' && "coretemp"@[0] == 'c');
}

/// Whether some chip of this name has a sensor to read.
pub open spec fn some_offer(
    chips: Seq<HwmonChip>,
    name: Seq<char>,
    label: Option<Seq<char>>,
) -> bool {
    exists|k: int| 0 <= k < chips.len() && offers(#[trigger] chips[k], name, label)
}

/// Whether a node comes before another: by its number, then by its name.
pub open spec fn node_first(a: Seq<char>, b: Seq<char>) -> bool {
    let (x, y) = (numbers::node_number(a), numbers::node_number(b));
    x < y || (x == y && (a == b || order::name_lt(a, b)))
}

/// Whether chip `c` is the first, by node number and then by name, of the chips of this name
/// that have a sensor to read.
pub open spec fn is_first_offer(
    chips: Seq<HwmonChip>,
    name: Seq<char>,
    label: Option<Seq<char>>,
    c: int,
) -> bool {
    &&& 0 <= c < chips.len()
    &&& offers(chips[c], name, label)
    &&& forall|k: int|
        0 <= k < chips.len() && offers(#[trigger] chips[k], name, label) ==> node_first(
            chips[c].node@,
            chips[k].node@,
        )
}

proof fn lemma_first_usable(chips: Seq<HwmonChip>, label: Option<Seq<char>>) -> (c: int)
    requires
        usable_chips(chips, label).len() > 0,
    ensures
        0 <= c < chips.len(),
        usable(chips[c], label),
        temp_choice(chips, label) == Some(temp_path(chips[c], chip_choice(chips[c], label)->0)),
        forall|k: int|
            0 <= k < chips.len() && usable(#[trigger] chips[k], label) ==> order::key_lt(
                chip_key(chips[c]),
                chip_key(chips[k]),
            ) || chip_key(chips[c]) == chip_key(chips[k]),
{
    let able = usable_chips(chips, label);
    let keys = chip_keys(able);
    order::law_some_entry_is_first(keys);
    let f = order::first_of(keys);
    let c = lemma_usable_is_listed(chips, label, f);
    assert forall|k: int| 0 <= k < chips.len() && usable(#[trigger] chips[k], label) implies
        order::key_lt(chip_key(chips[c]), chip_key(chips[k])) || chip_key(chips[c]) == chip_key(
        chips[k],
    ) by {
        let i = lemma_listed_is_usable(chips, label, k);
        if i != f {
            assert(order::precedes(keys, f, i));
        }
    }
    c
}

proof fn lemma_offer_is_usable(
    chips: Seq<HwmonChip>,
    name: Seq<char>,
    label: Option<Seq<char>>,
) -> (k: int)
    requires
        some_offer(chips, name, label),
        name == "k10temp"@ || name == "zenpower"@ || name == "coretemp"@,
    ensures
        0 <= k < chips.len(),
        offers(chips[k], name, label),
        usable(chips[k], label),
        usable_chips(chips, label).len() > 0,
{
    let k = choose|k: int| 0 <= k < chips.len() && offers(#[trigger] chips[k], name, label);
    lemma_chip_ranks(chips[k], label);
    let i = lemma_listed_is_usable(chips, label, k);
    k
}

proof fn lemma_first_of_its_name(
    chips: Seq<HwmonChip>,
    name: Seq<char>,
    label: Option<Seq<char>>,
    c: int,
)
    requires
        0 <= c < chips.len(),
        name == "k10temp"@ || name == "zenpower"@ || name == "coretemp"@,
        offers(chips[c], name, label),
        forall|k: int|
            0 <= k < chips.len() && usable(#[trigger] chips[k], label) ==> order::key_lt(
                chip_key(chips[c]),
                chip_key(chips[k]),
            ) || chip_key(chips[c]) == chip_key(chips[k]),
    ensures
        is_first_offer(chips, name, label, c),
{
    assert forall|k: int| 0 <= k < chips.len() && offers(#[trigger] chips[k], name, label) implies
        node_first(chips[c].node@, chips[k].node@) by {
        lemma_chip_ranks(chips[c], label);
        lemma_chip_ranks(chips[k], label);
        assert(usable(chips[k], label));
    }
}

/// Whether the sensor read is on the first chip of this name that has one to read.
pub open spec fn read_on(chips: Seq<HwmonChip>, name: Seq<char>, label: Option<Seq<char>>) -> bool {
    exists|c: int|
        {
            &&& #[trigger] is_first_offer(chips, name, label, c)
            &&& temp_choice(chips, label) == Some(
                "class/hwmon/"@ + chips[c].node@ + "/"@ + chip_choice(chips[c], label)->0,
            )
        }
}

proof fn lemma_read_on(
    chips: Seq<HwmonChip>,
    name: Seq<char>,
    label: Option<Seq<char>>,
    c: int,
)
    requires
        is_first_offer(chips, name, label, c),
        temp_choice(chips, label) == Some(temp_path(chips[c], chip_choice(chips[c], label)->0)),
    ensures
        read_on(chips, name, label),
{
}

/// Which chip is read, by what the chips' own files say. Only chips named `k10temp`,
/// `zenpower` or `coretemp` with a sensor to read count, and there is no choice only where
/// there is none of these. One named `k10temp` is read before any other, and one named
/// `zenpower` before any named `coretemp`, whatever their numbers; among chips of one name the
/// one with the smallest node number is read, and among equal numbers the one whose node's
/// name comes first.
pub proof fn law_chip_is_chosen_by_name(chips: Seq<HwmonChip>, label: Option<Seq<char>>)
    ensures
        if some_offer(chips, "k10temp"@, label) {
            read_on(chips, "k10temp"@, label)
        } else if some_offer(chips, "zenpower"@, label) {
            read_on(chips, "zenpower"@, label)
        } else if some_offer(chips, "coretemp"@, label) {
            read_on(chips, "coretemp"@, label)
        } else {
            temp_choice(chips, label) is None
        },
{
    let amd = some_offer(chips, "k10temp"@, label);
    let zen = some_offer(chips, "zenpower"@, label);
    let intel = some_offer(chips, "coretemp"@, label);
    if amd || zen || intel {
        let name = if amd {
            "k10temp"@
        } else if zen {
            "zenpower"@
        } else {
            "coretemp"@
        };
        let k = lemma_offer_is_usable(chips, name, label);
        let c = lemma_first_usable(chips, label);
        lemma_chip_ranks(chips[k], label);
        lemma_chip_ranks(chips[c], label);
        assert(offers(chips[c], name, label)) by {
            assert(chip_key(chips[c]).class <= chip_key(chips[k]).class);
            if offers(chips[c], "k10temp"@, label) {
                assert(amd);
            } else if offers(chips[c], "zenpower"@, label) {
                assert(zen);
            }
        }
        lemma_first_of_its_name(chips, name, label, c);
        lemma_read_on(chips, name, label, c);
    } else if usable_chips(chips, label).len() > 0 {
        let c = lemma_usable_is_listed(chips, label, 0);
        lemma_chip_ranks(chips[c], label);
        assert(amd || zen || intel);
    }
}

/// A label that is asked for stands for its own characters, an empty one too.
pub proof fn law_labels_stand_for_themselves(label: &str)
    ensures
        label_view(Some(label)) == Some(label@),
        label_view(None) is None,
{
}

} // verus!
