//! The record of one description file, and the parser that makes it.
use crate::decode::{decode_text, decoded};
use crate::fields::{
    is_clean, item_value, lemma_provider_name_is_clean, provider_name, read_item, read_provider,
    release_date, release_version, split_driver_ver,
};
use crate::ids::{extract_ids, found_ids, hardware_ids, lemma_distinct, registry};
use crate::location::{locate, location};
use crate::text::{chars_of, string_of, strip_blanks, views, without_blanks};
use vstd::prelude::*;

verus! {

/// What is known of a driver package from its description file.
#[derive(Debug, PartialEq, Eq)]
pub struct InfInfo {
    /// The directory of the description file, relative to the root of the
    /// driver tree.
    pub Path: String,
    /// The name of the description file.
    pub Inf: String,
    /// The device class; empty where the file names none.
    pub Class: String,
    /// The provider's name, without its decorations.
    pub Provider: String,
    /// The release date; empty where the file gives none.
    pub Date: String,
    /// The version; empty where the file gives none.
    pub Version: String,
    /// The hardware identifiers the package serves: in upper case, each
    /// once, in the order in which the file first names them.
    pub DriverList: Vec<String>,
}

/// A record as a value of texts.
pub struct InfRecord {
    pub Path: Seq<char>,
    pub Inf: Seq<char>,
    pub Class: Seq<char>,
    pub Provider: Seq<char>,
    pub Date: Seq<char>,
    pub Version: Seq<char>,
    pub DriverList: Seq<Seq<char>>,
}

impl InfRecord {
    /// The record is as a parser makes it: it names no identifier twice, and
    /// none of the decorations stands in the provider's name.
    pub open spec fn wf(self) -> bool {
        self.DriverList.no_duplicates() && is_clean(self.Provider)
    }

    /// The record can stand in a catalogue: it is well formed and names an
    /// identifier.
    pub open spec fn catalogued(self) -> bool {
        self.wf() && self.DriverList.len() > 0
    }
}

impl View for InfInfo {
    type V = InfRecord;

    open spec fn view(&self) -> InfRecord {
        InfRecord {
            Path: self.Path@,
            Inf: self.Inf@,
            Class: self.Class@,
            Provider: self.Provider@,
            Date: self.Date@,
            Version: self.Version@,
            DriverList: views(self.DriverList@),
        }
    }
}

/// A copy of `items`.
pub fn copy_strings(items: &Vec<String>) -> (r: Vec<String>)
    ensures
        views(r@) == views(items@),
{
    let mut r: Vec<String> = Vec::new();
    let mut i: usize = 0;
    while i < items.len()
        invariant
            i <= items.len(),
            r.len() == i,
            forall|j: int| 0 <= j < i ==> r@[j]@ == items@[j]@,
        decreases items.len() - i,
    {
        r.push(items[i].clone());
        i += 1;
    }
    assert(views(r@) =~= views(items@));
    r
}

impl Clone for InfInfo {
    fn clone(&self) -> (r: Self)
        ensures
            r@ == self@,
    {
        InfInfo {
            Path: self.Path.clone(),
            Inf: self.Inf.clone(),
            Class: self.Class.clone(),
            Provider: self.Provider.clone(),
            Date: self.Date.clone(),
            Version: self.Version.clone(),
            DriverList: copy_strings(&self.DriverList),
        }
    }
}

/// A description file as it was found in the driver tree.
#[derive(Debug)]
pub struct SourceFile {
    /// The path of the file.
    pub path: String,
    /// The bytes of the file; `None` where it could not be read.
    pub content: Option<Vec<u8>>,
}

/// A description file as a value of texts.
pub struct SourceText {
    pub path: Seq<char>,
    pub content: Option<Seq<u8>>,
}

impl View for SourceFile {
    type V = SourceText;

    open spec fn view(&self) -> SourceText {
        SourceText {
            path: self.path@,
            content: match self.content {
                Some(bytes) => Some(bytes@),
                None => None,
            },
        }
    }
}

/// Why a description file gave no record.
#[derive(Debug, Clone, Copy, PartialEq, Eq, Structural)]
pub enum ParseError {
    /// The file could not be read.
    Io,
    /// The bytes could not be turned into text.
    Decode,
    /// The file does not lie under the root of the driver tree.
    Path,
}

/// The text that the fields are read from: `decoded` without its spaces and
/// tabs.
pub open spec fn normalized(decoded: Seq<char>) -> Seq<char> {
    without_blanks(decoded)
}

/// The record of a description file whose decoded text is `decoded` and
/// which lies in the directory `dir` under the name `name`.
pub open spec fn record_of(dir: Seq<char>, name: Seq<char>, decoded: Seq<char>) -> InfRecord {
    let text = normalized(decoded);
    let driver_ver = item_value(text, "DriverVer"@);
    InfRecord {
        Path: dir,
        Inf: name,
        Class: item_value(text, "Class"@),
        Provider: provider_name(text),
        Date: release_date(driver_ver),
        Version: release_version(driver_ver),
        DriverList: hardware_ids(text),
    }
}

/// What parsing `file` under the root `base` gives: the record, or the step
/// that failed. The steps are taken in this order: the file is read, its
/// bytes are decoded, and the file is placed under the root.
pub open spec fn parsed(base: Seq<char>, file: SourceText) -> Result<InfRecord, ParseError> {
    match file.content {
        None => Err(ParseError::Io),
        Some(bytes) => match decoded(bytes) {
            None => Err(ParseError::Decode),
            Some(text) => match location(base, file.path) {
                None => Err(ParseError::Path),
                Some((dir, name)) => Ok(record_of(dir, name, text)),
            },
        },
    }
}

impl InfInfo {
    /// Makes the record of a description file from its decoded text.
    pub fn from_text(dir: String, name: String, decoded: &str) -> (r: InfInfo)
        ensures
            r@ == record_of(dir@, name@, decoded@),
            r@.wf(),
    {
        let chars = strip_blanks(&chars_of(decoded));
        let text = string_of(&chars);
        let DriverList = extract_ids(text.as_str());
        let Class = read_item(text.as_str(), "Class");
        let driver_ver = read_item(text.as_str(), "DriverVer");
        let (Date, Version) = split_driver_ver(driver_ver.as_str());
        let Provider = read_provider(&chars);
        InfInfo { Path: dir, Inf: name, Class, Provider, Date, Version, DriverList }
    }

    /// Parses the description file `infFile` into a record. `basePath` is the
    /// root of the driver tree.
    pub fn parsingInfFile(basePath: &str, infFile: &SourceFile) -> (r: Result<InfInfo, ParseError>)
        ensures
            match r {
                Ok(info) => parsed(basePath@, infFile@) == Ok::<InfRecord, ParseError>(info@)
                    && info@.wf(),
                Err(e) => parsed(basePath@, infFile@) == Err::<InfRecord, ParseError>(e),
            },
    {
        let content = match &infFile.content {
            Some(bytes) => bytes,
            None => { return Err(ParseError::Io); },
        };
        let text = match decode_text(content) {
            Some(text) => text,
            None => { return Err(ParseError::Decode); },
        };
        match locate(&chars_of(basePath), &chars_of(infFile.path.as_str())) {
            None => Err(ParseError::Path),
            Some((dir, name)) => Ok(
                InfInfo::from_text(string_of(&dir), string_of(&name), text.as_str()),
            ),
        }
    }
}

/// Every record that parsing gives is well formed.
pub proof fn lemma_parsed_wf(base: Seq<char>, file: SourceText)
    ensures
        parsed(base, file) matches Ok(record) ==> record.wf(),
{
    if let Ok(record) = parsed(base, file) {
        let text = normalized(decoded(file.content->0)->0);
        lemma_distinct(found_ids(text, registry()));
        lemma_provider_name_is_clean(text);
    }
}

} // verus!
