//! Matching the catalogue against the devices that lack a working driver.
//!
//! Identifiers and classes are compared without regard to letter case. Each
//! is brought into lower case once; the search itself then compares texts
//! as they are.
use crate::casing::lowercase;
use crate::index::records_view;
use crate::inf::{copy_strings, InfInfo, InfRecord};
use crate::text::views;
use vstd::prelude::*;

verus! {

/// A device that the operating system reports as lacking a working driver.
#[derive(Debug, PartialEq, Eq)]
pub struct HwID {
    /// What tells the device from every other. Matching does not read it.
    pub Identity: String,
    /// The hardware identifiers of the device, the most specific first.
    pub HardwareIDs: Vec<String>,
    /// The compatible identifiers of the device: looser than the hardware
    /// identifiers.
    pub CompatibleIDs: Vec<String>,
}

/// A device as a value of texts.
pub struct Device {
    pub Identity: Seq<char>,
    pub HardwareIDs: Seq<Seq<char>>,
    pub CompatibleIDs: Seq<Seq<char>>,
}

impl View for HwID {
    type V = Device;

    open spec fn view(&self) -> Device {
        Device {
            Identity: self.Identity@,
            HardwareIDs: views(self.HardwareIDs@),
            CompatibleIDs: views(self.CompatibleIDs@),
        }
    }
}

impl Clone for HwID {
    fn clone(&self) -> (r: Self)
        ensures
            r@ == self@,
    {
        HwID {
            Identity: self.Identity.clone(),
            HardwareIDs: copy_strings(&self.HardwareIDs),
            CompatibleIDs: copy_strings(&self.CompatibleIDs),
        }
    }
}

/// What a record is compared by: its class and its identifiers.
#[derive(Debug)]
pub struct RecordKey {
    pub class: String,
    pub ids: Vec<String>,
}

/// A record's key as a value of texts.
pub struct RecordKeyText {
    pub class: Seq<char>,
    pub ids: Seq<Seq<char>>,
}

impl View for RecordKey {
    type V = RecordKeyText;

    open spec fn view(&self) -> RecordKeyText {
        RecordKeyText { class: self.class@, ids: views(self.ids@) }
    }
}

/// What a device is compared by: its two lists of identifiers.
#[derive(Debug)]
pub struct DeviceKey {
    pub hardware: Vec<String>,
    pub compatible: Vec<String>,
}

/// A device's key as a value of texts.
pub struct DeviceKeyText {
    pub hardware: Seq<Seq<char>>,
    pub compatible: Seq<Seq<char>>,
}

impl View for DeviceKey {
    type V = DeviceKeyText;

    open spec fn view(&self) -> DeviceKeyText {
        DeviceKeyText { hardware: views(self.hardware@), compatible: views(self.compatible@) }
    }
}

/// The views of a sequence of record keys.
pub open spec fn keys_view(keys: Seq<RecordKey>) -> Seq<RecordKeyText> {
    keys.map_values(|k: RecordKey| k@)
}

/// The positions in a vector, as integers.
pub open spec fn positions(v: Seq<usize>) -> Seq<int> {
    v.map_values(|j: usize| j as int)
}

/// The view of an optional string.
pub open spec fn class_view(class: Option<&String>) -> Option<Seq<char>> {
    match class {
        Some(c) => Some(c@),
        None => None,
    }
}

/// How often `id` stands in `ids`.
pub open spec fn occurrences(ids: Seq<Seq<char>>, id: Seq<char>) -> nat
    decreases ids.len(),
{
    if ids.len() == 0 {
        0
    } else {
        occurrences(ids.drop_last(), id) + if ids.last() == id {
            1nat
        } else {
            0nat
        }
    }
}

/// The class filter lets a record of the class `class` pass: there is no
/// filter, or it names that class.
pub open spec fn admits(filter: Option<Seq<char>>, class: Seq<char>) -> bool {
    filter matches Some(wanted) ==> class == wanted
}

/// How often `record` becomes a candidate for the identifier `id`: once for
/// each of its identifiers that equals `id`, and never where the class
/// filter turns the record down.
pub open spec fn hits(record: RecordKeyText, id: Seq<char>, filter: Option<Seq<char>>) -> nat {
    if admits(filter, record.class) {
        occurrences(record.ids, id)
    } else {
        0
    }
}

/// The position `j`, `n` times.
pub open spec fn repeated(j: int, n: nat) -> Seq<int> {
    Seq::new(n, |k: int| j)
}

/// The candidates for one identifier: the positions of the records that
/// hold it, in the order of the catalogue, each as often as it is hit.
pub open spec fn picked_for_id(
    records: Seq<RecordKeyText>,
    id: Seq<char>,
    filter: Option<Seq<char>>,
) -> Seq<int>
    decreases records.len(),
{
    if records.len() == 0 {
        Seq::empty()
    } else {
        picked_for_id(records.drop_last(), id, filter) + repeated(
            records.len() - 1,
            hits(records.last(), id, filter),
        )
    }
}

/// The candidates for a list of identifiers: those for the first, then those
/// for the second, and so on.
pub open spec fn picked_for_ids(
    records: Seq<RecordKeyText>,
    ids: Seq<Seq<char>>,
    filter: Option<Seq<char>>,
) -> Seq<int>
    decreases ids.len(),
{
    if ids.len() == 0 {
        Seq::empty()
    } else {
        picked_for_ids(records, ids.drop_last(), filter) + picked_for_id(
            records,
            ids.last(),
            filter,
        )
    }
}

/// The candidates for a device: those for its hardware identifiers and,
/// unless the match is to be accurate, those for its compatible identifiers
/// after them.
pub open spec fn picked(
    records: Seq<RecordKeyText>,
    device: DeviceKeyText,
    filter: Option<Seq<char>>,
    accurate: bool,
) -> Seq<int> {
    picked_for_ids(records, device.hardware, filter) + if accurate {
        Seq::empty()
    } else {
        picked_for_ids(records, device.compatible, filter)
    }
}

/// Every candidate is a position in the catalogue.
pub proof fn lemma_picked_in_range(
    records: Seq<RecordKeyText>,
    device: DeviceKeyText,
    filter: Option<Seq<char>>,
    accurate: bool,
)
    ensures
        forall|k: int|
            0 <= k < picked(records, device, filter, accurate).len() ==> 0 <= #[trigger] picked(
                records,
                device,
                filter,
                accurate,
            )[k] < records.len(),
{
    lemma_picked_for_ids_in_range(records, device.hardware, filter);
    lemma_picked_for_ids_in_range(records, device.compatible, filter);
    let first = picked_for_ids(records, device.hardware, filter);
    let second = picked_for_ids(records, device.compatible, filter);
    let all = picked(records, device, filter, accurate);
    assert forall|k: int| 0 <= k < all.len() implies 0 <= #[trigger] all[k] < records.len() by {
        if k < first.len() {
            assert(all[k] == first[k]);
        } else {
            assert(all[k] == second[k - first.len()]);
        }
    }
}

proof fn lemma_picked_for_id_in_range(
    records: Seq<RecordKeyText>,
    id: Seq<char>,
    filter: Option<Seq<char>>,
)
    ensures
        forall|k: int|
            0 <= k < picked_for_id(records, id, filter).len() ==> 0 <= #[trigger] picked_for_id(
                records,
                id,
                filter,
            )[k] < records.len(),
    decreases records.len(),
{
    if records.len() > 0 {
        lemma_picked_for_id_in_range(records.drop_last(), id, filter);
        let before = picked_for_id(records.drop_last(), id, filter);
        let all = picked_for_id(records, id, filter);
        assert forall|k: int| 0 <= k < all.len() implies 0 <= #[trigger] all[k] < records.len() by {
            if k < before.len() {
                assert(all[k] == before[k]);
            }
        }
    }
}

proof fn lemma_picked_for_ids_in_range(
    records: Seq<RecordKeyText>,
    ids: Seq<Seq<char>>,
    filter: Option<Seq<char>>,
)
    ensures
        forall|k: int|
            0 <= k < picked_for_ids(records, ids, filter).len() ==> 0 <= #[trigger] picked_for_ids(
                records,
                ids,
                filter,
            )[k] < records.len(),
    decreases ids.len(),
{
    if ids.len() > 0 {
        lemma_picked_for_ids_in_range(records, ids.drop_last(), filter);
        lemma_picked_for_id_in_range(records, ids.last(), filter);
        let before = picked_for_ids(records, ids.drop_last(), filter);
        let last = picked_for_id(records, ids.last(), filter);
        let all = picked_for_ids(records, ids, filter);
        assert forall|k: int| 0 <= k < all.len() implies 0 <= #[trigger] all[k] < records.len() by {
            if k < before.len() {
                assert(all[k] == before[k]);
            } else {
                assert(all[k] == last[k - before.len()]);
            }
        }
    }
}

/// Appends `index` to `out` once for each identifier of `record` that equals
/// `id`.
fn scan_record(record: &RecordKey, index: usize, id: &String, out: &mut Vec<usize>)
    ensures
        positions(final(out)@) == positions(old(out)@) + repeated(
            index as int,
            occurrences(record@.ids, id@),
        ),
{
    let ghost before = positions(out@);
    let mut j: usize = 0;
    proof {
        assert(record@.ids.take(0) =~= Seq::empty());
        assert(positions(out@) =~= before + repeated(index as int, 0));
    }
    while j < record.ids.len()
        invariant
            j <= record.ids.len(),
            positions(out@) == before + repeated(
                index as int,
                occurrences(record@.ids.take(j as int), id@),
            ),
        decreases record.ids.len() - j,
    {
        let ghost so_far = occurrences(record@.ids.take(j as int), id@);
        proof {
            assert(record@.ids.take(j + 1).drop_last() =~= record@.ids.take(j as int));
            assert(record@.ids.take(j + 1).last() == record.ids@[j as int]@);
        }
        if record.ids[j] == *id {
            let ghost held = positions(out@);
            out.push(index);
            proof {
                assert(positions(out@) =~= held.push(index as int));
                assert(repeated(index as int, so_far + 1) =~= repeated(index as int, so_far).push(
                    index as int,
                ));
                assert(positions(out@) =~= before + repeated(index as int, so_far + 1));
            }
        }
        j += 1;
    }
    proof {
        assert(record@.ids.take(record.ids.len() as int) =~= record@.ids);
    }
}

/// Appends to `out` the candidates for the identifier `id`.
fn scan_catalogue(
    records: &Vec<RecordKey>,
    id: &String,
    class: Option<&String>,
    out: &mut Vec<usize>,
)
    ensures
        positions(final(out)@) == positions(old(out)@) + picked_for_id(
            keys_view(records@),
            id@,
            class_view(class),
        ),
{
    let ghost before = positions(out@);
    let ghost keys = keys_view(records@);
    let mut i: usize = 0;
    proof {
        assert(keys.take(0) =~= Seq::empty());
        assert(positions(out@) =~= before + Seq::<int>::empty());
    }
    while i < records.len()
        invariant
            i <= records.len(),
            keys == keys_view(records@),
            positions(out@) == before + picked_for_id(keys.take(i as int), id@, class_view(class)),
        decreases records.len() - i,
    {
        let record = &records[i];
        let ghost held = positions(out@);
        let ghost done = picked_for_id(keys.take(i as int), id@, class_view(class));
        proof {
            assert(keys[i as int] == record@);
            assert(keys.take(i + 1).drop_last() =~= keys.take(i as int));
            assert(keys.take(i + 1).last() == record@);
        }
        let wanted = match class {
            Some(c) => record.class == *c,
            None => true,
        };
        if wanted {
            scan_record(record, i, id, out);
        } else {
            assert(repeated(i as int, 0) =~= Seq::empty());
        }
        proof {
            let more = repeated(i as int, hits(record@, id@, class_view(class)));
            assert(positions(out@) =~= held + more);
            assert(before + done + more =~= before + (done + more));
        }
        i += 1;
    }
    proof {
        assert(keys.take(records.len() as int) =~= keys);
    }
}

/// Appends to `out` the candidates for each of `ids`, in their order.
fn scan_ids(
    records: &Vec<RecordKey>,
    ids: &Vec<String>,
    class: Option<&String>,
    out: &mut Vec<usize>,
)
    ensures
        positions(final(out)@) == positions(old(out)@) + picked_for_ids(
            keys_view(records@),
            views(ids@),
            class_view(class),
        ),
{
    let ghost before = positions(out@);
    let ghost keys = keys_view(records@);
    let mut i: usize = 0;
    proof {
        assert(views(ids@).take(0) =~= Seq::empty());
        assert(positions(out@) =~= before + Seq::<int>::empty());
    }
    while i < ids.len()
        invariant
            i <= ids.len(),
            keys == keys_view(records@),
            positions(out@) == before + picked_for_ids(
                keys,
                views(ids@).take(i as int),
                class_view(class),
            ),
        decreases ids.len() - i,
    {
        let ghost held = positions(out@);
        let ghost done = picked_for_ids(keys, views(ids@).take(i as int), class_view(class));
        proof {
            assert(views(ids@).take(i + 1).drop_last() =~= views(ids@).take(i as int));
            assert(views(ids@).take(i + 1).last() == ids@[i as int]@);
        }
        scan_catalogue(records, &ids[i], class, out);
        proof {
            let more = picked_for_id(keys, ids@[i as int]@, class_view(class));
            assert(before + done + more =~= before + (done + more));
        }
        i += 1;
    }
    proof {
        assert(views(ids@).take(ids.len() as int) =~= views(ids@));
    }
}

/// Finds the candidates for one device among the records: the positions of
/// the records that hold one of its identifiers, letter for letter. The
/// hardware identifiers are searched first, each through the whole
/// catalogue; the compatible identifiers follow unless `accurate` is set. A
/// record whose class is not the one that `class` names is passed over. A
/// record comes once for each of its identifiers that is hit.
pub fn pick(
    records: &Vec<RecordKey>,
    device: &DeviceKey,
    class: Option<&String>,
    accurate: bool,
) -> (r: Vec<usize>)
    ensures
        positions(r@) == picked(keys_view(records@), device@, class_view(class), accurate),
        forall|k: int| 0 <= k < r.len() ==> #[trigger] r@[k] < records.len(),
{
    let mut r: Vec<usize> = Vec::new();
    assert(positions(r@) =~= Seq::empty());
    scan_ids(records, &device.hardware, class, &mut r);
    if !accurate {
        scan_ids(records, &device.compatible, class, &mut r);
    }
    proof {
        let found = picked(keys_view(records@), device@, class_view(class), accurate);
        assert(positions(r@) =~= found);
        lemma_picked_in_range(keys_view(records@), device@, class_view(class), accurate);
        assert(keys_view(records@).len() == records.len());
        assert forall|k: int| 0 <= k < r.len() implies #[trigger] r@[k] < records.len() by {
            assert(positions(r@)[k] == r@[k] as int);
            assert(found[k] < records.len());
        }
    }
    r
}

/// Two identifiers that differ in letter case at most.
pub open spec fn same_id(a: Seq<char>, b: Seq<char>) -> bool {
    lowercase(a) == lowercase(b)
}

/// Each of `ids` in lower case.
pub open spec fn lowered(ids: Seq<Seq<char>>) -> Seq<Seq<char>> {
    Seq::new(ids.len(), |i: int| lowercase(ids[i]))
}

/// The key of a record: its class and its identifiers in lower case.
pub open spec fn record_key(record: InfRecord) -> RecordKeyText {
    RecordKeyText { class: lowercase(record.Class), ids: lowered(record.DriverList) }
}

/// The key of a device: its identifiers in lower case.
pub open spec fn device_key(device: Device) -> DeviceKeyText {
    DeviceKeyText { hardware: lowered(device.HardwareIDs), compatible: lowered(device.CompatibleIDs) }
}

/// The keys of the records of a catalogue.
pub open spec fn record_keys(catalogue: Seq<InfRecord>) -> Seq<RecordKeyText> {
    Seq::new(catalogue.len(), |i: int| record_key(catalogue[i]))
}

/// The class filter in lower case.
pub open spec fn class_key(filter: Option<Seq<char>>) -> Option<Seq<char>> {
    match filter {
        Some(class) => Some(lowercase(class)),
        None => None,
    }
}

/// The candidates for a device: the records of the catalogue that hold one
/// of its identifiers, letter case aside, and that the class filter lets
/// pass, letter case aside. They come identifier by identifier, and for one
/// identifier in the order of the catalogue; a record comes once for each of
/// its identifiers that is hit.
pub open spec fn candidates_of(
    catalogue: Seq<InfRecord>,
    device: Device,
    filter: Option<Seq<char>>,
    accurate: bool,
) -> Seq<InfRecord> {
    let at = picked(record_keys(catalogue), device_key(device), class_key(filter), accurate);
    Seq::new(at.len(), |k: int| catalogue[at[k]])
}

/// The devices for which the catalogue holds a candidate, each with its
/// candidates, in the order of the devices.
pub open spec fn match_info(
    catalogue: Seq<InfRecord>,
    devices: Seq<Device>,
    filter: Option<Seq<char>>,
    accurate: bool,
) -> Seq<(Device, Seq<InfRecord>)>
    decreases devices.len(),
{
    if devices.len() == 0 {
        Seq::empty()
    } else {
        let before = match_info(catalogue, devices.drop_last(), filter, accurate);
        let found = candidates_of(catalogue, devices.last(), filter, accurate);
        if found.len() == 0 {
            before
        } else {
            before.push((devices.last(), found))
        }
    }
}

/// The views of a sequence of devices.
pub open spec fn devices_view(devices: Seq<HwID>) -> Seq<Device> {
    devices.map_values(|d: HwID| d@)
}

/// The views of a sequence of devices with their candidates.
pub open spec fn matches_view(found: Seq<(HwID, Vec<InfInfo>)>) -> Seq<(Device, Seq<InfRecord>)> {
    Seq::new(found.len(), |i: int| (found[i].0@, records_view(found[i].1@)))
}

/// The view of an optional text.
pub open spec fn filter_view(filter: Option<&str>) -> Option<Seq<char>> {
    match filter {
        Some(class) => Some(class@),
        None => None,
    }
}

/// Brings each of `ids` into lower case.
fn lower_all(ids: &Vec<String>) -> (r: Vec<String>)
    ensures
        views(r@) == lowered(views(ids@)),
{
    let mut r: Vec<String> = Vec::new();
    let mut i: usize = 0;
    while i < ids.len()
        invariant
            i <= ids.len(),
            r.len() == i,
            forall|j: int| 0 <= j < i ==> r@[j]@ == lowercase(ids@[j]@),
        decreases ids.len() - i,
    {
        r.push(ids[i].as_str().to_lowercase());
        i += 1;
    }
    assert(views(r@) =~= lowered(views(ids@)));
    r
}

/// Makes the key of a record.
pub fn key_of_record(record: &InfInfo) -> (r: RecordKey)
    ensures
        r@ == record_key(record@),
{
    RecordKey { class: record.Class.as_str().to_lowercase(), ids: lower_all(&record.DriverList) }
}

/// Makes the key of a device.
pub fn key_of_device(device: &HwID) -> (r: DeviceKey)
    ensures
        r@ == device_key(device@),
{
    DeviceKey {
        hardware: lower_all(&device.HardwareIDs),
        compatible: lower_all(&device.CompatibleIDs),
    }
}

/// Makes the keys of the records of a catalogue.
fn keys_of(catalogue: &Vec<InfInfo>) -> (r: Vec<RecordKey>)
    ensures
        keys_view(r@) == record_keys(records_view(catalogue@)),
{
    let mut r: Vec<RecordKey> = Vec::new();
    let mut i: usize = 0;
    while i < catalogue.len()
        invariant
            i <= catalogue.len(),
            r.len() == i,
            forall|j: int| 0 <= j < i ==> r@[j]@ == record_key(catalogue@[j]@),
        decreases catalogue.len() - i,
    {
        r.push(key_of_record(&catalogue[i]));
        i += 1;
    }
    assert(keys_view(r@) =~= record_keys(records_view(catalogue@)));
    r
}

/// Copies the records at the positions `at` out of the catalogue.
fn gather(catalogue: &Vec<InfInfo>, at: &Vec<usize>) -> (r: Vec<InfInfo>)
    requires
        forall|k: int| 0 <= k < at.len() ==> #[trigger] at@[k] < catalogue.len(),
    ensures
        records_view(r@) == Seq::new(
            at.len() as nat,
            |k: int| records_view(catalogue@)[positions(at@)[k]],
        ),
{
    let mut r: Vec<InfInfo> = Vec::new();
    let mut k: usize = 0;
    while k < at.len()
        invariant
            k <= at.len(),
            r.len() == k,
            forall|j: int| 0 <= j < at.len() ==> #[trigger] at@[j] < catalogue.len(),
            forall|j: int| 0 <= j < k ==> r@[j]@ == catalogue@[at@[j] as int]@,
        decreases at.len() - k,
    {
        r.push(catalogue[at[k]].clone());
        k += 1;
    }
    assert(records_view(r@) =~= Seq::new(
        at.len() as nat,
        |k: int| records_view(catalogue@)[positions(at@)[k]],
    ));
    r
}

/// Matches the catalogue against the devices that lack a working driver.
/// For each device the candidates are gathered from its hardware identifiers
/// and, unless `isAccurateMatch` is set, from its compatible identifiers
/// after them. Where `driveClass` names a class, only records of that class
/// are candidates. A device without a candidate is left out of the result.
pub fn getMatchInfo(
    infInfoList: &Vec<InfInfo>,
    devices: &Vec<HwID>,
    driveClass: Option<&str>,
    isAccurateMatch: bool,
) -> (r: Vec<(HwID, Vec<InfInfo>)>)
    ensures
        matches_view(r@) == match_info(
            records_view(infInfoList@),
            devices_view(devices@),
            filter_view(driveClass),
            isAccurateMatch,
        ),
        forall|i: int| 0 <= i < r.len() ==> (#[trigger] r@[i]).1.len() > 0,
{
    let keys = keys_of(infInfoList);
    let class: Option<String> = match driveClass {
        Some(c) => Some(c.to_lowercase()),
        None => None,
    };
    let class_ref: Option<&String> = match &class {
        Some(c) => Some(c),
        None => None,
    };
    let ghost catalogue = records_view(infInfoList@);
    let ghost all = devices_view(devices@);
    let ghost filter = filter_view(driveClass);
    assert(class_view(class_ref) == class_key(filter));
    let mut r: Vec<(HwID, Vec<InfInfo>)> = Vec::new();
    let mut i: usize = 0;
    proof {
        assert(all.take(0) =~= Seq::empty());
        assert(matches_view(r@) =~= Seq::empty());
    }
    while i < devices.len()
        invariant
            i <= devices.len(),
            catalogue == records_view(infInfoList@),
            all == devices_view(devices@),
            keys_view(keys@) == record_keys(catalogue),
            class_view(class_ref) == class_key(filter),
            matches_view(r@) == match_info(catalogue, all.take(i as int), filter, isAccurateMatch),
            forall|k: int| 0 <= k < r.len() ==> (#[trigger] r@[k]).1.len() > 0,
        decreases devices.len() - i,
    {
        let device = &devices[i];
        proof {
            assert(all[i as int] == device@);
            assert(all.take(i + 1).drop_last() =~= all.take(i as int));
            assert(all.take(i + 1).last() == device@);
            assert(keys@.len() == infInfoList.len());
        }
        let at = pick(&keys, &key_of_device(device), class_ref, isAccurateMatch);
        if at.len() > 0 {
            let found = gather(infInfoList, &at);
            let ghost before = matches_view(r@);
            assert(records_view(found@) =~= candidates_of(
                catalogue,
                device@,
                filter,
                isAccurateMatch,
            ));
            assert(found.len() == records_view(found@).len());
            r.push((device.clone(), found));
            assert(matches_view(r@) =~= before.push((device@, records_view(found@))));
        }
        i += 1;
    }
    proof {
        assert(all.take(devices.len() as int) =~= all);
    }
    r
}

} // verus!
