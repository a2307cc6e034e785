//! Hardware identifiers: the registry of device-tree branches, the patterns
//! that find identifiers in a description file, and the identifier list of a
//! record.
use crate::casing::uppercase;
use crate::pattern::{matches_of, search};
use crate::text::{chars_of, slice, string_of, views};
use vstd::prelude::*;
use vstd::string::StringExecFns;

verus! {

/// The branches of the operating system's device tree under which hardware
/// identifiers are looked for: a closed list.
pub open spec fn registry() -> Seq<Seq<char>> {
    seq![
        "ACPI"@,
        "ACPI_HAL"@,
        "BTH"@,
        "BTHENUM"@,
        "BTHHFENUM"@,
        "DISPLAY"@,
        "HDAUDIO"@,
        "HID"@,
        "HTREE"@,
        "PCI"@,
        "ROOT"@,
        "SCSI"@,
        "SD"@,
        "STORAGE"@,
        "SW"@,
        "SWD"@,
        "TERMINPUT_BUS"@,
        "TS_USB_HUB_Enumerator"@,
        "UEFI"@,
        "UMB"@,
        "USB"@,
        "USBSTOR"@,
    ]
}

/// The registry, as strings.
pub fn device_prefixes() -> (r: Vec<&'static str>)
    ensures
        r@.map_values(|s: &str| s@) == registry(),
{
    let r = vec![
        "ACPI",
        "ACPI_HAL",
        "BTH",
        "BTHENUM",
        "BTHHFENUM",
        "DISPLAY",
        "HDAUDIO",
        "HID",
        "HTREE",
        "PCI",
        "ROOT",
        "SCSI",
        "SD",
        "STORAGE",
        "SW",
        "SWD",
        "TERMINPUT_BUS",
        "TS_USB_HUB_Enumerator",
        "UEFI",
        "UMB",
        "USB",
        "USBSTOR",
    ];
    assert(r@.map_values(|s: &str| s@) =~= registry());
    r
}

/// The regular expression for the identifiers under one branch: a comma, the
/// branch's name, a backslash, and then one or more characters that are
/// neither a comma nor white space nor a control character nor a semicolon.
/// (A semicolon begins a comment, so an identifier ends before it.)
pub open spec fn id_pattern(prefix: Seq<char>) -> Seq<char> {
    ","@ + prefix + "\\\\[^,;\\s\\p{Cc}]+"@
}

/// `found` without the comma it begins with.
pub open spec fn without_leading_comma(found: Seq<char>) -> Seq<char> {
    if found.len() > 0 && found[0] == ',' {
        found.skip(1)
    } else {
        found
    }
}

/// The identifier that a match stands for: the match without its leading
/// comma, in upper case.
pub open spec fn normalized_id(found: Seq<char>) -> Seq<char> {
    uppercase(without_leading_comma(found))
}

/// The identifiers that the matches stand for, one for one.
pub open spec fn normalized_ids(found: Seq<Seq<char>>) -> Seq<Seq<char>> {
    Seq::new(found.len(), |i: int| normalized_id(found[i]))
}

/// Every identifier found in `text` under the branches `prefixes`, branch by
/// branch and within a branch from the left, letter case ignored in the
/// branch's name. An identifier comes as often as it is found.
pub open spec fn found_ids(text: Seq<char>, prefixes: Seq<Seq<char>>) -> Seq<Seq<char>>
    decreases prefixes.len(),
{
    if prefixes.len() == 0 {
        Seq::empty()
    } else {
        found_ids(text, prefixes.drop_last()) + normalized_ids(
            matches_of(id_pattern(prefixes.last()), true, text),
        )
    }
}

/// `s` with each item kept where it first comes and dropped where it comes
/// again.
pub open spec fn distinct(s: Seq<Seq<char>>) -> Seq<Seq<char>>
    decreases s.len(),
{
    if s.len() == 0 {
        s
    } else {
        let before = distinct(s.drop_last());
        if before.contains(s.last()) {
            before
        } else {
            before.push(s.last())
        }
    }
}

/// The hardware identifiers of a description file with the text `text`: in
/// upper case, each once, in the order in which they are first found.
pub open spec fn hardware_ids(text: Seq<char>) -> Seq<Seq<char>> {
    distinct(found_ids(text, registry()))
}

/// `distinct` keeps exactly the items of `s`, and none twice.
pub proof fn lemma_distinct(s: Seq<Seq<char>>)
    ensures
        distinct(s).no_duplicates(),
        forall|x: Seq<char>| distinct(s).contains(x) <==> s.contains(x),
        distinct(s).len() <= s.len(),
    decreases s.len(),
{
    if s.len() > 0 {
        let before = distinct(s.drop_last());
        lemma_distinct(s.drop_last());
        assert forall|x: Seq<char>| distinct(s).contains(x) <==> s.contains(x) by {
            if s.contains(x) {
                let i = choose|i: int| 0 <= i < s.len() && s[i] == x;
                if i < s.len() - 1 {
                    assert(s.drop_last()[i] == x);
                    assert(s.drop_last().contains(x));
                    assert(before.contains(x));
                    let k = choose|k: int| 0 <= k < before.len() && before[k] == x;
                    assert(distinct(s)[k] == x);
                } else {
                    if !before.contains(x) {
                        assert(distinct(s)[before.len() as int] == x);
                    }
                }
            }
            if distinct(s).contains(x) {
                let k = choose|k: int| 0 <= k < distinct(s).len() && distinct(s)[k] == x;
                if k < before.len() {
                    assert(before[k] == x);
                    assert(before.contains(x));
                    assert(s.drop_last().contains(x));
                    let i = choose|i: int| 0 <= i < s.drop_last().len() && s.drop_last()[i] == x;
                    assert(s[i] == x);
                } else {
                    assert(s[s.len() - 1] == x);
                }
            }
        }
    }
}

/// Tells whether `item` is among `items`.
pub fn holds(items: &Vec<String>, item: &String) -> (r: bool)
    ensures
        r == views(items@).contains(item@),
{
    let mut i: usize = 0;
    while i < items.len()
        invariant
            i <= items.len(),
            forall|j: int| 0 <= j < i ==> items@[j]@ != item@,
        decreases items.len() - i,
    {
        if items[i] == *item {
            assert(views(items@)[i as int] == item@);
            return true;
        }
        i += 1;
    }
    assert forall|j: int| 0 <= j < views(items@).len() implies views(items@)[j] != item@ by {
        assert(views(items@)[j] == items@[j]@);
    }
    false
}

/// Keeps each item where it first comes and drops it where it comes again.
pub fn unique(items: &Vec<String>) -> (r: Vec<String>)
    ensures
        views(r@) == distinct(views(items@)),
        views(r@).no_duplicates(),
        forall|x: Seq<char>| views(r@).contains(x) <==> views(items@).contains(x),
{
    let mut r: Vec<String> = Vec::new();
    let mut i: usize = 0;
    assert(views(items@).take(0) =~= Seq::empty());
    assert(views(r@) =~= Seq::empty());
    while i < items.len()
        invariant
            i <= items.len(),
            views(r@) == distinct(views(items@).take(i as int)),
        decreases items.len() - i,
    {
        proof {
            let upto = views(items@).take(i + 1);
            assert(upto.drop_last() =~= views(items@).take(i as int));
            assert(upto.last() == items@[i as int]@);
        }
        if !holds(&r, &items[i]) {
            let ghost before = views(r@);
            r.push(items[i].clone());
            assert(views(r@) =~= before.push(items@[i as int]@));
        }
        i += 1;
    }
    proof {
        assert(views(items@).take(items.len() as int) =~= views(items@));
        lemma_distinct(views(items@));
    }
    r
}

/// Builds the regular expression for the identifiers under one branch.
pub fn build_id_pattern(prefix: &str) -> (r: String)
    ensures
        r@ == id_pattern(prefix@),
{
    let mut r = String::from_str(",");
    r.append(prefix);
    r.append("\\\\[^,;\\s\\p{Cc}]+");
    r
}

/// Turns a match into the identifier it stands for.
pub fn normalize_id(found: &str) -> (r: String)
    ensures
        r@ == normalized_id(found@),
{
    let chars = chars_of(found);
    let from: usize = if chars.len() > 0 && chars[0] == ',' {
        1
    } else {
        0
    };
    let bare = string_of(&slice(&chars, from, chars.len()));
    proof {
        assert(chars@.subrange(from as int, chars.len() as int) =~= without_leading_comma(found@));
    }
    bare.as_str().to_uppercase()
}

/// Extracts the hardware identifiers from the text of a description file.
pub fn extract_ids(text: &str) -> (r: Vec<String>)
    ensures
        views(r@) == hardware_ids(text@),
        views(r@).no_duplicates(),
{
    let prefixes = device_prefixes();
    let mut all: Vec<String> = Vec::new();
    let mut p: usize = 0;
    assert(registry().take(0) =~= Seq::empty());
    assert(views(all@) =~= Seq::empty());
    while p < prefixes.len()
        invariant
            p <= prefixes.len(),
            prefixes@.map_values(|s: &str| s@) == registry(),
            views(all@) == found_ids(text@, registry().take(p as int)),
        decreases prefixes.len() - p,
    {
        let prefix = prefixes[p];
        let pattern = build_id_pattern(prefix);
        let found = search(pattern.as_str(), true, text);
        let ghost before = views(all@);
        proof {
            assert(registry().len() == prefixes.len());
            assert(registry()[p as int] == prefixes@.map_values(|s: &str| s@)[p as int]);
            assert(registry().take(p + 1).drop_last() =~= registry().take(p as int));
            assert(registry().take(p + 1).last() == prefix@);
        }
        let mut j: usize = 0;
        while j < found.len()
            invariant
                j <= found.len(),
                views(all@) == before + normalized_ids(views(found@)).take(j as int),
            decreases found.len() - j,
        {
            let id = normalize_id(found[j].as_str());
            let ghost so_far = views(all@);
            all.push(id);
            proof {
                assert(views(found@)[j as int] == found@[j as int]@);
                assert(views(all@) =~= so_far.push(id@));
                assert(normalized_ids(views(found@)).take(j + 1) =~= normalized_ids(
                    views(found@),
                ).take(j as int).push(id@));
            }
            j += 1;
        }
        proof {
            assert(normalized_ids(views(found@)).take(found.len() as int) =~= normalized_ids(
                views(found@),
            ));
        }
        p += 1;
    }
    proof {
        assert(registry().take(prefixes.len() as int) =~= registry());
    }
    unique(&all)
}

/// A find begins with a comma: the identifier it stands for is what follows
/// the comma, in upper case.
pub proof fn lemma_id_of_find(rest: Seq<char>)
    ensures
        normalized_id(","@ + rest) == uppercase(rest),
{
    reveal_strlit(",");
    let found = ","@ + rest;
    assert(found[0] == ',');
    assert(found.skip(1) =~= rest);
}

/// `found` is something that a search under one of the branches `prefixes`
/// finds in `text`.
pub open spec fn is_find(text: Seq<char>, prefixes: Seq<Seq<char>>, found: Seq<char>) -> bool {
    exists|p: int, k: int|
        0 <= p < prefixes.len() && 0 <= k < matches_of(id_pattern(prefixes[p]), true, text).len()
            && #[trigger] matches_of(id_pattern(prefixes[p]), true, text)[k] == found
}

/// The identifiers found under `prefixes` are the identifiers that the finds
/// stand for: no more and no fewer.
pub proof fn lemma_found_ids(text: Seq<char>, prefixes: Seq<Seq<char>>)
    ensures
        forall|found: Seq<char>|
            is_find(text, prefixes, found) ==> found_ids(text, prefixes).contains(
                #[trigger] normalized_id(found),
            ),
        forall|id: Seq<char>| #[trigger]
            found_ids(text, prefixes).contains(id) ==> exists|found: Seq<char>|
                is_find(text, prefixes, found) && id == normalized_id(found),
    decreases prefixes.len(),
{
    if prefixes.len() > 0 {
        let init = prefixes.drop_last();
        let before = found_ids(text, init);
        let here = matches_of(id_pattern(prefixes.last()), true, text);
        let all = found_ids(text, prefixes);
        lemma_found_ids(text, init);
        assert(all == before + normalized_ids(here));
        assert forall|found: Seq<char>| is_find(text, prefixes, found) implies all.contains(
            #[trigger] normalized_id(found),
        ) by {
            let (p, k) = choose|p: int, k: int|
                0 <= p < prefixes.len() && 0 <= k < matches_of(
                    id_pattern(prefixes[p]),
                    true,
                    text,
                ).len() && #[trigger] matches_of(id_pattern(prefixes[p]), true, text)[k] == found;
            if p < init.len() {
                assert(init[p] == prefixes[p]);
                assert(is_find(text, init, found));
                assert(before.contains(normalized_id(found)));
                let n = choose|n: int| 0 <= n < before.len() && before[n] == normalized_id(found);
                assert(all[n] == normalized_id(found));
            } else {
                assert(normalized_ids(here)[k] == normalized_id(found));
                assert(all[before.len() + k] == normalized_id(found));
            }
        }
        assert forall|id: Seq<char>| #[trigger] all.contains(id) implies exists|found: Seq<char>|
            is_find(text, prefixes, found) && id == normalized_id(found) by {
            let n = choose|n: int| 0 <= n < all.len() && all[n] == id;
            if n < before.len() {
                assert(before[n] == id);
                assert(before.contains(id));
                let found = choose|found: Seq<char>|
                    is_find(text, init, found) && id == normalized_id(found);
                let (p, k) = choose|p: int, k: int|
                    0 <= p < init.len() && 0 <= k < matches_of(id_pattern(init[p]), true, text).len()
                        && #[trigger] matches_of(id_pattern(init[p]), true, text)[k] == found;
                assert(init[p] == prefixes[p]);
                assert(matches_of(id_pattern(prefixes[p]), true, text)[k] == found);
                assert(is_find(text, prefixes, found));
            } else {
                let k = n - before.len();
                assert(all[n] == normalized_ids(here)[k]);
                assert(matches_of(id_pattern(prefixes[prefixes.len() - 1]), true, text)[k]
                    == here[k]);
                assert(is_find(text, prefixes, here[k]));
            }
        }
    }
}

/// Whatever is found under a branch of the registry gives one entry of the
/// identifier list, in upper case; finds that differ in letter case alone
/// give the same one. The list holds nothing else.
pub proof fn lemma_hardware_ids(text: Seq<char>)
    ensures
        hardware_ids(text).no_duplicates(),
        forall|found: Seq<char>|
            is_find(text, registry(), found) ==> hardware_ids(text).contains(
                #[trigger] normalized_id(found),
            ),
        forall|id: Seq<char>| #[trigger]
            hardware_ids(text).contains(id) ==> exists|found: Seq<char>|
                is_find(text, registry(), found) && id == normalized_id(found),
{
    lemma_found_ids(text, registry());
    lemma_distinct(found_ids(text, registry()));
    assert forall|id: Seq<char>| #[trigger] hardware_ids(text).contains(id) implies exists|
        found: Seq<char>,
    |
        is_find(text, registry(), found) && id == normalized_id(found) by {
        assert(found_ids(text, registry()).contains(id));
    }
}

} // verus!
