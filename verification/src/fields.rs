//! The scalar fields of a description file: the device class, the release
//! date and version, and the provider's name.
use crate::pattern::{matches_of, search};
use crate::text::{
    chars_of, find, first_occurrence, lemma_without_absent, lemma_without_len,
    lemma_without_present, occurs_in, read_value_after, remove_all, slice, string_of, value_after,
    views, without,
};
use vstd::prelude::*;
use vstd::string::StringExecFns;

verus! {

/// The regular expression for the entry `name`: the name, an equals sign,
/// and the characters up to the next white space.
pub open spec fn item_pattern(name: Seq<char>) -> Seq<char> {
    name + "=\\S*"@
}

/// What follows the key in a find of the entry `name`: the find without the
/// name and the equals sign it begins with.
pub open spec fn after_key(found: Seq<char>, name: Seq<char>) -> Seq<char> {
    if found.len() > name.len() {
        found.skip(name.len() as int + 1)
    } else {
        Seq::empty()
    }
}

/// The value of the first entry `name` in `text`: what stands between its
/// equals sign and the next white space. Empty where `text` has no such
/// entry.
pub open spec fn item_value(text: Seq<char>, name: Seq<char>) -> Seq<char> {
    let found = matches_of(item_pattern(name), false, text);
    if found.len() == 0 {
        Seq::empty()
    } else {
        after_key(found[0], name)
    }
}

/// Reads the value of the first entry `name` in `text`.
pub fn read_item(text: &str, name: &str) -> (r: String)
    ensures
        r@ == item_value(text@, name@),
{
    let mut pattern = String::from_str(name);
    pattern.append("=\\S*");
    let found = search(pattern.as_str(), false, text);
    if found.len() == 0 {
        String::new()
    } else {
        assert(views(found@)[0] == found@[0]@);
        let first = chars_of(found[0].as_str());
        let key_len = chars_of(name).len();
        if first.len() > key_len {
            string_of(&slice(&first, key_len + 1, first.len()))
        } else {
            String::new()
        }
    }
}

/// What stands before the first comma of `s`; all of `s` where it has none.
pub open spec fn before_comma(s: Seq<char>) -> Seq<char> {
    match first_occurrence(s, ","@, 0) {
        Some(i) => s.take(i),
        None => s,
    }
}

/// What stands after the first comma of `s`; nothing where it has none.
pub open spec fn after_comma(s: Seq<char>) -> Seq<char> {
    match first_occurrence(s, ","@, 0) {
        Some(i) => s.skip(i + 1),
        None => Seq::empty(),
    }
}

/// The release date in a `DriverVer` value: its first comma-separated part.
pub open spec fn release_date(driver_ver: Seq<char>) -> Seq<char> {
    before_comma(driver_ver)
}

/// The version in a `DriverVer` value: its second comma-separated part, empty
/// where there is none.
pub open spec fn release_version(driver_ver: Seq<char>) -> Seq<char> {
    before_comma(after_comma(driver_ver))
}

/// Splits `s` at its first comma.
fn split_at_comma(s: &Vec<char>) -> (r: (Vec<char>, Vec<char>))
    ensures
        r.0@ == before_comma(s@),
        r.1@ == after_comma(s@),
{
    proof {
        reveal_strlit(",");
    }
    match find(s, &chars_of(","), 0) {
        Some(i) => {
            let head = slice(s, 0, i);
            let tail = slice(s, i + 1, s.len());
            (head, tail)
        },
        None => {
            let head = slice(s, 0, s.len());
            assert(s@.subrange(0, s.len() as int) =~= s@);
            (head, Vec::new())
        },
    }
}

/// Splits a `DriverVer` value into the release date and the version.
pub fn split_driver_ver(driver_ver: &str) -> (r: (String, String))
    ensures
        r.0@ == release_date(driver_ver@),
        r.1@ == release_version(driver_ver@),
{
    let (date, rest) = split_at_comma(&chars_of(driver_ver));
    let (version, _) = split_at_comma(&rest);
    (string_of(&date), string_of(&version))
}

/// The decorations that a provider's name is freed of, in the order in which
/// they are taken out: stray carriage returns, quotation marks, corporate
/// suffixes, and the marks of a registered trademark.
pub open spec fn boilerplate() -> Seq<Seq<char>> {
    seq![
        "\r"@,
        "\""@,
        "Corporation"@,
        "SemiconductorCorp."@,
        "TechnologyCorp."@,
        ",Inc."@,
        "\u{ae}"@,
        "(R)"@,
    ]
}

/// `s` with the occurrences of each of `pats` taken out, one pattern after
/// the other.
pub open spec fn without_each(s: Seq<char>, pats: Seq<Seq<char>>) -> Seq<char>
    decreases pats.len(),
{
    if pats.len() == 0 {
        s
    } else {
        without(without_each(s, pats.drop_last()), pats.last())
    }
}

/// `name` after one pass over the decorations: each is taken out wherever it
/// stands, one after the other.
pub open spec fn cleaned_once(name: Seq<char>) -> Seq<char> {
    without_each(name, boilerplate())
}

/// A provider's name without its decorations. Taking one decoration out can
/// join what stood on either side of it into another, so the passes are
/// repeated for as long as one shortens the name: what is left holds none of
/// the decorations.
pub open spec fn cleaned(name: Seq<char>) -> Seq<char>
    decreases name.len(),
{
    let once = cleaned_once(name);
    if once.len() < name.len() {
        cleaned(once)
    } else {
        once
    }
}

/// Takes each of the decorations out of `name`, one after the other.
fn clean_once(name: &Vec<char>) -> (r: Vec<char>)
    ensures
        r@ == cleaned_once(name@),
{
    let pats = vec![
        "\r",
        "\"",
        "Corporation",
        "SemiconductorCorp.",
        "TechnologyCorp.",
        ",Inc.",
        "\u{ae}",
        "(R)",
    ];
    assert(pats@.map_values(|s: &str| s@) =~= boilerplate());
    let mut r = slice(name, 0, name.len());
    assert(name@.subrange(0, name.len() as int) =~= name@);
    assert(boilerplate().take(0) =~= Seq::empty());
    let mut k: usize = 0;
    while k < pats.len()
        invariant
            k <= pats.len(),
            pats@.map_values(|s: &str| s@) == boilerplate(),
            r@ == without_each(name@, boilerplate().take(k as int)),
        decreases pats.len() - k,
    {
        proof {
            assert(boilerplate().len() == pats.len());
            assert(boilerplate()[k as int] == pats@.map_values(|s: &str| s@)[k as int]);
            assert(boilerplate().take(k + 1).drop_last() =~= boilerplate().take(k as int));
            assert(boilerplate().take(k + 1).last() == pats@[k as int]@);
        }
        r = remove_all(&r, &chars_of(pats[k]));
        k += 1;
    }
    assert(boilerplate().take(pats.len() as int) =~= boilerplate());
    r
}

/// Frees a provider's name of its decorations: none of them stands in what
/// is handed back.
pub fn clean_provider(name: &Vec<char>) -> (r: Vec<char>)
    ensures
        r@ == cleaned(name@),
        is_clean(r@),
{
    let mut r = clean_once(name);
    let mut before: usize = name.len();
    proof {
        lemma_without_each_len(name@, boilerplate());
    }
    while r.len() < before
        invariant
            r.len() <= before,
            r.len() < before ==> cleaned(r@) == cleaned(name@),
            r.len() == before ==> r@ == cleaned(name@),
        decreases before,
    {
        before = r.len();
        let ghost held = r@;
        r = clean_once(&r);
        proof {
            lemma_without_each_len(held, boilerplate());
        }
    }
    proof {
        lemma_cleaned_is_clean(name@);
    }
    r
}

/// What the `Provider` entry of `text` holds, carriage returns taken out:
/// the rest of its line. Empty where `text` has no such entry.
pub open spec fn provider_entry(text: Seq<char>) -> Seq<char> {
    match value_after(text, "Provider="@) {
        Some(v) => without(v, "\r"@),
        None => Seq::empty(),
    }
}

/// The provider that `text` names, before its decorations are taken out. An
/// entry that holds a percent sign is a reference to a string defined
/// elsewhere in the file: without its percent signs it is the string's key,
/// and the rest of the line after the first `key=` is the provider. Where the
/// key is defined nowhere, and where the entry is no reference, the entry
/// itself, without percent signs, is the provider.
pub open spec fn named_provider(text: Seq<char>) -> Seq<char> {
    let entry = provider_entry(text);
    let key = without(entry, "%"@);
    if entry.contains('%') {
        match value_after(text, key + "="@) {
            Some(v) => v,
            None => key,
        }
    } else {
        key
    }
}

/// The provider's name in a record made from `text`.
pub open spec fn provider_name(text: Seq<char>) -> Seq<char> {
    cleaned(named_provider(text))
}

/// Tells whether `c` is among the characters of `s`.
fn has_char(s: &Vec<char>, c: char) -> (r: bool)
    ensures
        r == s@.contains(c),
{
    let mut i: usize = 0;
    while i < s.len()
        invariant
            i <= s.len(),
            forall|j: int| 0 <= j < i ==> s@[j] != c,
        decreases s.len() - i,
    {
        if s[i] == c {
            return true;
        }
        i += 1;
    }
    false
}

/// Finds the provider that `text` names and frees the name of its
/// decorations.
pub fn read_provider(text: &Vec<char>) -> (r: String)
    ensures
        r@ == provider_name(text@),
        is_clean(r@),
{
    let entry = match read_value_after(text, &chars_of("Provider=")) {
        Some(v) => remove_all(&v, &chars_of("\r")),
        None => Vec::new(),
    };
    let key = remove_all(&entry, &chars_of("%"));
    let named = if has_char(&entry, '%') {
        let mut start = slice(&key, 0, key.len());
        assert(key@.subrange(0, key.len() as int) =~= key@);
        start.push('=');
        proof {
            reveal_strlit("=");
            assert(start@ =~= key@ + "="@);
        }
        match read_value_after(text, &start) {
            Some(v) => v,
            None => key,
        }
    } else {
        key
    };
    string_of(&clean_provider(&named))
}

/// None of the decorations stands in `s`.
pub open spec fn is_clean(s: Seq<char>) -> bool {
    forall|k: int| 0 <= k < boilerplate().len() ==> !occurs_in(s, #[trigger] boilerplate()[k])
}

/// A text in which none of `pats` stands is left as it is.
pub proof fn lemma_without_each_absent(s: Seq<char>, pats: Seq<Seq<char>>)
    requires
        forall|k: int| 0 <= k < pats.len() ==> !occurs_in(s, #[trigger] pats[k]),
    ensures
        without_each(s, pats) == s,
    decreases pats.len(),
{
    if pats.len() > 0 {
        assert forall|k: int| 0 <= k < pats.drop_last().len() implies !occurs_in(
            s,
            #[trigger] pats.drop_last()[k],
        ) by {
            assert(pats.drop_last()[k] == pats[k]);
        }
        lemma_without_each_absent(s, pats.drop_last());
        assert(!occurs_in(s, pats[pats.len() - 1]));
        lemma_without_absent(s, pats.last());
    }
}

/// Taking patterns out never lengthens.
pub proof fn lemma_without_each_len(s: Seq<char>, pats: Seq<Seq<char>>)
    ensures
        without_each(s, pats).len() <= s.len(),
    decreases pats.len(),
{
    if pats.len() > 0 {
        lemma_without_each_len(s, pats.drop_last());
        lemma_without_len(without_each(s, pats.drop_last()), pats.last());
    }
}

/// A text in which one of `pats` stands gets shorter, none of them being
/// empty.
pub proof fn lemma_without_each_present(s: Seq<char>, pats: Seq<Seq<char>>, k: int)
    requires
        0 <= k < pats.len(),
        occurs_in(s, pats[k]),
        forall|j: int| 0 <= j < pats.len() ==> (#[trigger] pats[j]).len() > 0,
    ensures
        without_each(s, pats).len() < s.len(),
    decreases pats.len(),
{
    let init = pats.drop_last();
    let inner = without_each(s, init);
    lemma_without_len(inner, pats.last());
    if exists|j: int| 0 <= j < init.len() && occurs_in(s, #[trigger] init[j]) {
        let j = choose|j: int| 0 <= j < init.len() && occurs_in(s, #[trigger] init[j]);
        assert forall|i: int| 0 <= i < init.len() implies (#[trigger] init[i]).len() > 0 by {
            assert(init[i] == pats[i]);
        }
        lemma_without_each_present(s, init, j);
    } else {
        if k < pats.len() - 1 {
            assert(init[k] == pats[k]);
        }
        lemma_without_each_absent(s, init);
        lemma_without_present(s, pats.last());
    }
}

/// None of the decorations is empty.
proof fn lemma_boilerplate_not_empty()
    ensures
        forall|j: int| 0 <= j < boilerplate().len() ==> (#[trigger] boilerplate()[j]).len() > 0,
{
    reveal_strlit("\r");
    reveal_strlit("\"");
    reveal_strlit("Corporation");
    reveal_strlit("SemiconductorCorp.");
    reveal_strlit("TechnologyCorp.");
    reveal_strlit(",Inc.");
    reveal_strlit("\u{ae}");
    reveal_strlit("(R)");
}

/// A pass shortens exactly the names in which a decoration stands, and
/// leaves the others as they are.
pub proof fn lemma_pass(name: Seq<char>)
    ensures
        cleaned_once(name).len() <= name.len(),
        is_clean(name) ==> cleaned_once(name) == name,
        !is_clean(name) ==> cleaned_once(name).len() < name.len(),
{
    lemma_without_each_len(name, boilerplate());
    if is_clean(name) {
        lemma_without_each_absent(name, boilerplate());
    } else {
        let k = choose|k: int| 0 <= k < boilerplate().len() && occurs_in(name, boilerplate()[k]);
        lemma_boilerplate_not_empty();
        lemma_without_each_present(name, boilerplate(), k);
    }
}

/// None of the decorations stands in a cleaned name.
pub proof fn lemma_cleaned_is_clean(name: Seq<char>)
    ensures
        is_clean(cleaned(name)),
    decreases name.len(),
{
    let once = cleaned_once(name);
    lemma_pass(name);
    if once.len() < name.len() {
        lemma_cleaned_is_clean(once);
    }
}

/// Cleaning leaves a clean name as it is.
pub proof fn lemma_clean_name_is_kept(name: Seq<char>)
    requires
        is_clean(name),
    ensures
        cleaned(name) == name,
{
    lemma_pass(name);
}

/// Cleaning a cleaned name changes nothing.
pub proof fn lemma_cleaning_is_idempotent(name: Seq<char>)
    ensures
        cleaned(cleaned(name)) == cleaned(name),
{
    lemma_cleaned_is_clean(name);
    lemma_clean_name_is_kept(cleaned(name));
}

/// The provider's name in a record holds none of the decorations.
pub proof fn lemma_provider_name_is_clean(text: Seq<char>)
    ensures
        is_clean(provider_name(text)),
        cleaned(provider_name(text)) == provider_name(text),
{
    lemma_cleaning_is_idempotent(named_provider(text));
    lemma_cleaned_is_clean(named_provider(text));
}

} // verus!
