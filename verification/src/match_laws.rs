//! What holds of every match: which records are candidates for a device and
//! which are not, and which devices are absent from the result.
use crate::casing::lowercase;
use crate::inf::InfRecord;
use crate::matching::{
    candidates_of, class_key, device_key, hits, lemma_picked_in_range, lowered, match_info,
    occurrences, picked, picked_for_id, picked_for_ids, record_key, record_keys, same_id, Device,
    RecordKeyText,
};
use vstd::prelude::*;

verus! {

/// The class filter lets the record pass: there is none, or it names the
/// record's class, letter case aside.
pub open spec fn passes(record: InfRecord, filter: Option<Seq<char>>) -> bool {
    filter matches Some(class) ==> lowercase(record.Class) == lowercase(class)
}

/// The record holds one of `ids`, letter case aside.
pub open spec fn shares_id(record: InfRecord, ids: Seq<Seq<char>>) -> bool {
    exists|j: int, i: int|
        0 <= j < record.DriverList.len() && 0 <= i < ids.len() && same_id(
            #[trigger] record.DriverList[j],
            #[trigger] ids[i],
        )
}

/// Some record of the catalogue holds an identifier of the device, hardware
/// or compatible, letter case aside.
pub open spec fn overlaps(catalogue: Seq<InfRecord>, device: Device) -> bool {
    exists|r: int|
        0 <= r < catalogue.len() && (shares_id(#[trigger] catalogue[r], device.HardwareIDs)
            || shares_id(catalogue[r], device.CompatibleIDs))
}

proof fn lemma_no_occurrence(ids: Seq<Seq<char>>, id: Seq<char>)
    requires
        forall|j: int| 0 <= j < ids.len() ==> #[trigger] ids[j] != id,
    ensures
        occurrences(ids, id) == 0,
    decreases ids.len(),
{
    if ids.len() > 0 {
        assert forall|j: int| 0 <= j < ids.drop_last().len() implies #[trigger] ids.drop_last()[j]
            != id by {
            assert(ids.drop_last()[j] == ids[j]);
        }
        lemma_no_occurrence(ids.drop_last(), id);
        assert(ids[ids.len() - 1] != id);
    }
}

proof fn lemma_picked_for_id_none(
    catalogue: Seq<InfRecord>,
    n: int,
    id: Seq<char>,
    filter: Option<Seq<char>>,
)
    requires
        0 <= n <= catalogue.len(),
        forall|r: int, j: int|
            0 <= r < catalogue.len() && 0 <= j < catalogue[r].DriverList.len() ==> !same_id(
                #[trigger] catalogue[r].DriverList[j],
                id,
            ),
    ensures
        picked_for_id(record_keys(catalogue).take(n), lowercase(id), filter).len() == 0,
    decreases n,
{
    let keys = record_keys(catalogue).take(n);
    if n > 0 {
        lemma_picked_for_id_none(catalogue, n - 1, id, filter);
        assert(keys.drop_last() =~= record_keys(catalogue).take(n - 1));
        let last = catalogue[n - 1];
        assert(keys.last() == record_key(last));
        assert forall|j: int| 0 <= j < lowered(last.DriverList).len() implies #[trigger] lowered(
            last.DriverList,
        )[j] != lowercase(id) by {
            assert(!same_id(catalogue[n - 1].DriverList[j], id));
        }
        lemma_no_occurrence(lowered(last.DriverList), lowercase(id));
    }
}

proof fn lemma_picked_for_ids_none(
    catalogue: Seq<InfRecord>,
    ids: Seq<Seq<char>>,
    n: int,
    filter: Option<Seq<char>>,
)
    requires
        0 <= n <= ids.len(),
        forall|r: int| 0 <= r < catalogue.len() ==> !shares_id(#[trigger] catalogue[r], ids),
    ensures
        picked_for_ids(record_keys(catalogue), lowered(ids).take(n), filter).len() == 0,
    decreases n,
{
    if n > 0 {
        lemma_picked_for_ids_none(catalogue, ids, n - 1, filter);
        assert(lowered(ids).take(n).drop_last() =~= lowered(ids).take(n - 1));
        assert(lowered(ids).take(n).last() == lowercase(ids[n - 1]));
        assert forall|r: int, j: int|
            0 <= r < catalogue.len() && 0 <= j < catalogue[r].DriverList.len() implies !same_id(
            #[trigger] catalogue[r].DriverList[j],
            ids[n - 1],
        ) by {
            assert(!shares_id(catalogue[r], ids));
        }
        lemma_picked_for_id_none(catalogue, catalogue.len() as int, ids[n - 1], filter);
        assert(record_keys(catalogue).take(catalogue.len() as int) =~= record_keys(catalogue));
    }
}

/// A device none of whose identifiers stands in any record has no candidate,
/// whatever the class filter and whether or not the match is accurate.
pub proof fn lemma_stranger_has_no_candidate(
    catalogue: Seq<InfRecord>,
    device: Device,
    filter: Option<Seq<char>>,
    accurate: bool,
)
    requires
        !overlaps(catalogue, device),
    ensures
        candidates_of(catalogue, device, filter, accurate).len() == 0,
{
    assert forall|r: int| 0 <= r < catalogue.len() implies !shares_id(
        #[trigger] catalogue[r],
        device.HardwareIDs,
    ) && !shares_id(catalogue[r], device.CompatibleIDs) by {}
    lemma_picked_for_ids_none(
        catalogue,
        device.HardwareIDs,
        device.HardwareIDs.len() as int,
        class_key(filter),
    );
    lemma_picked_for_ids_none(
        catalogue,
        device.CompatibleIDs,
        device.CompatibleIDs.len() as int,
        class_key(filter),
    );
    assert(lowered(device.HardwareIDs).take(device.HardwareIDs.len() as int) =~= lowered(
        device.HardwareIDs,
    ));
    assert(lowered(device.CompatibleIDs).take(device.CompatibleIDs.len() as int) =~= lowered(
        device.CompatibleIDs,
    ));
}

/// Every entry of the result is one of the devices, with its candidates, of
/// which there is at least one.
pub proof fn lemma_entries_have_candidates(
    catalogue: Seq<InfRecord>,
    devices: Seq<Device>,
    filter: Option<Seq<char>>,
    accurate: bool,
)
    ensures
        forall|i: int|
            0 <= i < match_info(catalogue, devices, filter, accurate).len() ==> {
                let entry = #[trigger] match_info(catalogue, devices, filter, accurate)[i];
                &&& devices.contains(entry.0)
                &&& entry.1 == candidates_of(catalogue, entry.0, filter, accurate)
                &&& entry.1.len() > 0
            },
    decreases devices.len(),
{
    if devices.len() > 0 {
        lemma_entries_have_candidates(catalogue, devices.drop_last(), filter, accurate);
        let before = match_info(catalogue, devices.drop_last(), filter, accurate);
        let all = match_info(catalogue, devices, filter, accurate);
        assert forall|i: int| 0 <= i < all.len() implies {
            let entry = #[trigger] all[i];
            &&& devices.contains(entry.0)
            &&& entry.1 == candidates_of(catalogue, entry.0, filter, accurate)
            &&& entry.1.len() > 0
        } by {
            if i < before.len() {
                assert(all[i] == before[i]);
                let d = before[i].0;
                assert(devices.drop_last().contains(d));
                let n = choose|n: int| 0 <= n < devices.drop_last().len() && devices.drop_last()[n]
                    == d;
                assert(devices[n] == d);
            } else {
                assert(devices[devices.len() - 1] == all[i].0);
            }
        }
    }
}

/// A device without a candidate leaves no trace in the result: the result is
/// what it would be had the device not been reported.
pub proof fn lemma_device_without_candidate_is_left_out(
    catalogue: Seq<InfRecord>,
    devices: Seq<Device>,
    k: int,
    filter: Option<Seq<char>>,
    accurate: bool,
)
    requires
        0 <= k < devices.len(),
        candidates_of(catalogue, devices[k], filter, accurate).len() == 0,
    ensures
        match_info(catalogue, devices, filter, accurate) == match_info(
            catalogue,
            devices.remove(k),
            filter,
            accurate,
        ),
    decreases devices.len(),
{
    if k == devices.len() - 1 {
        assert(devices.remove(k) =~= devices.drop_last());
    } else {
        lemma_device_without_candidate_is_left_out(
            catalogue,
            devices.drop_last(),
            k,
            filter,
            accurate,
        );
        assert(devices.remove(k).drop_last() =~= devices.drop_last().remove(k));
        assert(devices.remove(k).last() == devices.last());
    }
}

/// A device none of whose identifiers stands in any record of the catalogue
/// is absent from the result: no entry is made for it, not even one with an
/// empty list of candidates.
pub proof fn lemma_stranger_is_absent(
    catalogue: Seq<InfRecord>,
    devices: Seq<Device>,
    k: int,
    filter: Option<Seq<char>>,
    accurate: bool,
)
    requires
        0 <= k < devices.len(),
        !overlaps(catalogue, devices[k]),
    ensures
        forall|i: int|
            0 <= i < match_info(catalogue, devices, filter, accurate).len() ==> (
            #[trigger] match_info(catalogue, devices, filter, accurate)[i]).0 != devices[k],
        forall|i: int|
            0 <= i < match_info(catalogue, devices, filter, accurate).len() ==> (
            #[trigger] match_info(catalogue, devices, filter, accurate)[i]).1.len() > 0,
        match_info(catalogue, devices, filter, accurate) == match_info(
            catalogue,
            devices.remove(k),
            filter,
            accurate,
        ),
{
    lemma_stranger_has_no_candidate(catalogue, devices[k], filter, accurate);
    lemma_entries_have_candidates(catalogue, devices, filter, accurate);
    lemma_device_without_candidate_is_left_out(catalogue, devices, k, filter, accurate);
}

/// Under a class filter every candidate is of the class that the filter
/// names, letter case aside.
pub proof fn lemma_candidates_pass_filter(
    catalogue: Seq<InfRecord>,
    device: Device,
    class: Seq<char>,
    accurate: bool,
)
    ensures
        forall|i: int|
            0 <= i < candidates_of(catalogue, device, Some(class), accurate).len() ==> passes(
                #[trigger] candidates_of(catalogue, device, Some(class), accurate)[i],
                Some(class),
            ),
{
    let keys = record_keys(catalogue);
    let filter = Some(lowercase(class));
    let key = device_key(device);
    lemma_picked_pass_filter_ids(keys, key.hardware, lowercase(class));
    lemma_picked_pass_filter_ids(keys, key.compatible, lowercase(class));
    lemma_picked_in_range(keys, key, filter, accurate);
    let first = picked_for_ids(keys, key.hardware, filter);
    let second = picked_for_ids(keys, key.compatible, filter);
    let at = picked(keys, key, filter, accurate);
    assert forall|i: int|
        0 <= i < candidates_of(catalogue, device, Some(class), accurate).len() implies passes(
        #[trigger] candidates_of(catalogue, device, Some(class), accurate)[i],
        Some(class),
    ) by {
        if i < first.len() {
            assert(at[i] == first[i]);
        } else {
            assert(at[i] == second[i - first.len()]);
        }
        assert(keys[at[i]] == record_key(catalogue[at[i]]));
    }
}

proof fn lemma_picked_pass_filter_id(records: Seq<RecordKeyText>, id: Seq<char>, class: Seq<char>)
    ensures
        forall|i: int|
            0 <= i < picked_for_id(records, id, Some(class)).len() ==> {
                let at = #[trigger] picked_for_id(records, id, Some(class))[i];
                0 <= at < records.len() && records[at].class == class
            },
    decreases records.len(),
{
    if records.len() > 0 {
        lemma_picked_pass_filter_id(records.drop_last(), id, class);
        let before = picked_for_id(records.drop_last(), id, Some(class));
        let all = picked_for_id(records, id, Some(class));
        assert forall|i: int| 0 <= i < all.len() implies {
            let at = #[trigger] all[i];
            0 <= at < records.len() && records[at].class == class
        } by {
            if i < before.len() {
                assert(all[i] == before[i]);
                assert(records.drop_last()[before[i]] == records[before[i]]);
            }
        }
    }
}

proof fn lemma_picked_pass_filter_ids(
    records: Seq<RecordKeyText>,
    ids: Seq<Seq<char>>,
    class: Seq<char>,
)
    ensures
        forall|i: int|
            0 <= i < picked_for_ids(records, ids, Some(class)).len() ==> {
                let at = #[trigger] picked_for_ids(records, ids, Some(class))[i];
                0 <= at < records.len() && records[at].class == class
            },
    decreases ids.len(),
{
    if ids.len() > 0 {
        lemma_picked_pass_filter_ids(records, ids.drop_last(), class);
        lemma_picked_pass_filter_id(records, ids.last(), class);
        let before = picked_for_ids(records, ids.drop_last(), Some(class));
        let last = picked_for_id(records, ids.last(), Some(class));
        let all = picked_for_ids(records, ids, Some(class));
        assert forall|i: int| 0 <= i < all.len() implies {
            let at = #[trigger] all[i];
            0 <= at < records.len() && records[at].class == class
        } by {
            if i < before.len() {
                assert(all[i] == before[i]);
            } else {
                assert(all[i] == last[i - before.len()]);
            }
        }
    }
}

/// An accurate match does not look at the compatible identifiers: a device
/// gets the candidates it would get had it none.
pub proof fn lemma_accurate_ignores_compatible(
    catalogue: Seq<InfRecord>,
    device: Device,
    filter: Option<Seq<char>>,
)
    ensures
        candidates_of(catalogue, device, filter, true) == candidates_of(
            catalogue,
            Device { CompatibleIDs: Seq::empty(), ..device },
            filter,
            true,
        ),
{
    let bare = Device { CompatibleIDs: Seq::empty(), ..device };
    assert(lowered(bare.HardwareIDs) == lowered(device.HardwareIDs));
    assert(picked(record_keys(catalogue), device_key(device), class_key(filter), true) =~= picked(
        record_keys(catalogue),
        device_key(bare),
        class_key(filter),
        true,
    ));
}

proof fn lemma_occurrence(ids: Seq<Seq<char>>, id: Seq<char>, j: int)
    requires
        0 <= j < ids.len(),
        ids[j] == id,
    ensures
        occurrences(ids, id) > 0,
    decreases ids.len(),
{
    if j < ids.len() - 1 {
        assert(ids.drop_last()[j] == id);
        lemma_occurrence(ids.drop_last(), id, j);
    }
}

proof fn lemma_picked_for_id_has(
    records: Seq<RecordKeyText>,
    id: Seq<char>,
    filter: Option<Seq<char>>,
    r: int,
)
    requires
        0 <= r < records.len(),
        hits(records[r], id, filter) > 0,
    ensures
        picked_for_id(records, id, filter).contains(r),
    decreases records.len(),
{
    let before = picked_for_id(records.drop_last(), id, filter);
    let all = picked_for_id(records, id, filter);
    if r == records.len() - 1 {
        assert(all[before.len() as int] == r);
    } else {
        assert(records.drop_last()[r] == records[r]);
        lemma_picked_for_id_has(records.drop_last(), id, filter, r);
        let k = choose|k: int| 0 <= k < before.len() && before[k] == r;
        assert(all[k] == r);
    }
}

proof fn lemma_picked_for_ids_has(
    records: Seq<RecordKeyText>,
    ids: Seq<Seq<char>>,
    filter: Option<Seq<char>>,
    i: int,
    r: int,
)
    requires
        0 <= i < ids.len(),
        picked_for_id(records, ids[i], filter).contains(r),
    ensures
        picked_for_ids(records, ids, filter).contains(r),
    decreases ids.len(),
{
    let before = picked_for_ids(records, ids.drop_last(), filter);
    let last = picked_for_id(records, ids.last(), filter);
    let all = picked_for_ids(records, ids, filter);
    if i == ids.len() - 1 {
        let k = choose|k: int| 0 <= k < last.len() && last[k] == r;
        assert(all[before.len() + k] == r);
    } else {
        assert(ids.drop_last()[i] == ids[i]);
        lemma_picked_for_ids_has(records, ids.drop_last(), filter, i, r);
        let k = choose|k: int| 0 <= k < before.len() && before[k] == r;
        assert(all[k] == r);
    }
}

/// A record that holds a hardware identifier of the device, letter case
/// aside, and that the class filter lets pass, is among the candidates.
pub proof fn lemma_shared_hardware_id_gives_candidate(
    catalogue: Seq<InfRecord>,
    device: Device,
    filter: Option<Seq<char>>,
    accurate: bool,
    r: int,
)
    requires
        0 <= r < catalogue.len(),
        shares_id(catalogue[r], device.HardwareIDs),
        passes(catalogue[r], filter),
    ensures
        candidates_of(catalogue, device, filter, accurate).contains(catalogue[r]),
{
    let keys = record_keys(catalogue);
    let key = device_key(device);
    let class = class_key(filter);
    let (j, i) = choose|j: int, i: int|
        0 <= j < catalogue[r].DriverList.len() && 0 <= i < device.HardwareIDs.len() && same_id(
            #[trigger] catalogue[r].DriverList[j],
            #[trigger] device.HardwareIDs[i],
        );
    assert(keys[r].ids[j] == key.hardware[i]);
    lemma_occurrence(keys[r].ids, key.hardware[i], j);
    lemma_picked_for_id_has(keys, key.hardware[i], class, r);
    lemma_picked_for_ids_has(keys, key.hardware, class, i, r);
    let first = picked_for_ids(keys, key.hardware, class);
    let at = picked(keys, key, class, accurate);
    let k = choose|k: int| 0 <= k < first.len() && first[k] == r;
    assert(at[k] == r);
    assert(candidates_of(catalogue, device, filter, accurate)[k] == catalogue[r]);
}

/// In a match that is not accurate, a record that holds a compatible
/// identifier of the device, letter case aside, and that the class filter
/// lets pass, is among the candidates.
pub proof fn lemma_shared_compatible_id_gives_candidate(
    catalogue: Seq<InfRecord>,
    device: Device,
    filter: Option<Seq<char>>,
    r: int,
)
    requires
        0 <= r < catalogue.len(),
        shares_id(catalogue[r], device.CompatibleIDs),
        passes(catalogue[r], filter),
    ensures
        candidates_of(catalogue, device, filter, false).contains(catalogue[r]),
{
    let keys = record_keys(catalogue);
    let key = device_key(device);
    let class = class_key(filter);
    let (j, i) = choose|j: int, i: int|
        0 <= j < catalogue[r].DriverList.len() && 0 <= i < device.CompatibleIDs.len() && same_id(
            #[trigger] catalogue[r].DriverList[j],
            #[trigger] device.CompatibleIDs[i],
        );
    assert(keys[r].ids[j] == key.compatible[i]);
    lemma_occurrence(keys[r].ids, key.compatible[i], j);
    lemma_picked_for_id_has(keys, key.compatible[i], class, r);
    lemma_picked_for_ids_has(keys, key.compatible, class, i, r);
    let first = picked_for_ids(keys, key.hardware, class);
    let second = picked_for_ids(keys, key.compatible, class);
    let at = picked(keys, key, class, false);
    let k = choose|k: int| 0 <= k < second.len() && second[k] == r;
    assert(at[first.len() + k] == r);
    assert(candidates_of(catalogue, device, filter, false)[first.len() + k] == catalogue[r]);
}

} // verus!
