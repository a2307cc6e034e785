//! Building the catalogue: every description file of a driver tree is
//! parsed, and the files are told apart by what came of them.
use crate::console::ConsoleType;
use crate::inf::{
    lemma_parsed_wf, parsed, InfInfo, InfRecord, ParseError, SourceFile, SourceText,
};
use vstd::prelude::*;

verus! {

/// What came of one description file.
#[derive(Debug, Clone, Copy, PartialEq, Eq, Structural)]
pub enum Outcome {
    /// It gave a record with at least one hardware identifier: the record is
    /// in the catalogue.
    Succeeded,
    /// It gave a record without any hardware identifier: the record is left
    /// out.
    Blank,
    /// It gave no record.
    Failed(ParseError),
}

/// The catalogue made from a driver tree, and the account of the build.
#[derive(Debug)]
pub struct IndexReport {
    /// The catalogue: the records of the files that succeeded, in the order
    /// of the files.
    pub records: Vec<InfInfo>,
    /// What came of each file, in the order of the files.
    pub outcomes: Vec<Outcome>,
    /// How many files succeeded.
    pub succeeded: usize,
    /// How many files gave no record.
    pub failed: usize,
    /// How many files gave a record without hardware identifiers.
    pub blank: usize,
}

/// What the path of the catalogue file is taken relative to.
#[derive(Debug, Clone, Copy, PartialEq, Eq, Structural)]
pub enum IndexAnchor {
    /// Nothing: the path is absolute and used as it is.
    AsGiven,
    /// The root of the driver tree that was indexed.
    DriverTree,
    /// The directory that holds the archive that was indexed.
    ArchiveDirectory,
}

/// A relative path of the catalogue file is anchored to its source, so that
/// the catalogue comes to lie beside what it was made from.
pub open spec fn anchor_of(source_is_directory: bool, path_is_relative: bool) -> IndexAnchor {
    if !path_is_relative {
        IndexAnchor::AsGiven
    } else if source_is_directory {
        IndexAnchor::DriverTree
    } else {
        IndexAnchor::ArchiveDirectory
    }
}

/// Tells what the path of the catalogue file is taken relative to.
pub fn index_anchor(sourceIsDirectory: bool, indexPathIsRelative: bool) -> (r: IndexAnchor)
    ensures
        r == anchor_of(sourceIsDirectory, indexPathIsRelative),
{
    if !indexPathIsRelative {
        IndexAnchor::AsGiven
    } else if sourceIsDirectory {
        IndexAnchor::DriverTree
    } else {
        IndexAnchor::ArchiveDirectory
    }
}

/// The views of a sequence of records.
pub open spec fn records_view(records: Seq<InfInfo>) -> Seq<InfRecord> {
    records.map_values(|r: InfInfo| r@)
}

/// The views of a sequence of files.
pub open spec fn files_view(files: Seq<SourceFile>) -> Seq<SourceText> {
    files.map_values(|f: SourceFile| f@)
}

/// What comes of `file` in a build under the root `base`.
pub open spec fn outcome_of(base: Seq<char>, file: SourceText) -> Outcome {
    match parsed(base, file) {
        Err(e) => Outcome::Failed(e),
        Ok(record) => if record.DriverList.len() == 0 {
            Outcome::Blank
        } else {
            Outcome::Succeeded
        },
    }
}

/// What comes of each of `files`.
pub open spec fn outcomes_of(base: Seq<char>, files: Seq<SourceText>) -> Seq<Outcome> {
    Seq::new(files.len(), |i: int| outcome_of(base, files[i]))
}

/// The catalogue made from `files`: the records of those that succeed, in
/// the order of the files.
pub open spec fn catalogue_of(base: Seq<char>, files: Seq<SourceText>) -> Seq<InfRecord>
    decreases files.len(),
{
    if files.len() == 0 {
        Seq::empty()
    } else {
        let before = catalogue_of(base, files.drop_last());
        match outcome_of(base, files.last()) {
            Outcome::Succeeded => before.push(parsed(base, files.last())->Ok_0),
            _ => before,
        }
    }
}

/// How many of `outcomes` are successes.
pub open spec fn successes(outcomes: Seq<Outcome>) -> nat {
    outcomes.filter(|o: Outcome| o is Succeeded).len()
}

/// How many of `outcomes` are failures.
pub open spec fn failures(outcomes: Seq<Outcome>) -> nat {
    outcomes.filter(|o: Outcome| o is Failed).len()
}

/// How many of `outcomes` are records without hardware identifiers.
pub open spec fn blanks(outcomes: Seq<Outcome>) -> nat {
    outcomes.filter(|o: Outcome| o is Blank).len()
}

impl Outcome {
    /// The level at which the outcome is reported for its file: a warning
    /// for a record without identifiers, an error for a failure, nothing for
    /// a success.
    pub open spec fn level(self) -> Option<ConsoleType> {
        match self {
            Outcome::Succeeded => None,
            Outcome::Blank => Some(ConsoleType::Warning),
            Outcome::Failed(_) => Some(ConsoleType::Error),
        }
    }

    /// The level at which the outcome is reported for its file.
    pub fn report_level(&self) -> (r: Option<ConsoleType>)
        ensures
            r == self.level(),
    {
        match self {
            Outcome::Succeeded => None,
            Outcome::Blank => Some(ConsoleType::Warning),
            Outcome::Failed(_) => Some(ConsoleType::Error),
        }
    }
}

/// One more outcome raises the count of its kind by one and leaves the
/// others.
pub proof fn lemma_count_last(outcomes: Seq<Outcome>, last: Outcome)
    ensures
        successes(outcomes.push(last)) == successes(outcomes) + if last is Succeeded {
            1nat
        } else {
            0nat
        },
        failures(outcomes.push(last)) == failures(outcomes) + if last is Failed {
            1nat
        } else {
            0nat
        },
        blanks(outcomes.push(last)) == blanks(outcomes) + if last is Blank {
            1nat
        } else {
            0nat
        },
{
    outcomes.lemma_filter_push(last, |o: Outcome| o is Succeeded);
    outcomes.lemma_filter_push(last, |o: Outcome| o is Failed);
    outcomes.lemma_filter_push(last, |o: Outcome| o is Blank);
}

/// The catalogue holds one record for each success, and every record in it
/// names a hardware identifier, and none twice.
pub proof fn lemma_catalogue(base: Seq<char>, files: Seq<SourceText>)
    ensures
        catalogue_of(base, files).len() == successes(outcomes_of(base, files)),
        forall|i: int|
            0 <= i < catalogue_of(base, files).len() ==> (#[trigger] catalogue_of(
                base,
                files,
            )[i]).catalogued(),
    decreases files.len(),
{
    if files.len() > 0 {
        lemma_catalogue(base, files.drop_last());
        lemma_parsed_wf(base, files.last());
        assert(outcomes_of(base, files) =~= outcomes_of(base, files.drop_last()).push(
            outcome_of(base, files.last()),
        ));
        lemma_count_last(outcomes_of(base, files.drop_last()), outcome_of(base, files.last()));
    } else {
        assert(outcomes_of(base, files) =~= Seq::empty());
    }
}

/// Parses every file of a driver tree and makes the catalogue. `basePath` is
/// the root of the tree, `files` the description files found under it, with
/// their bytes as far as they could be read. A file that gives no record, or
/// a record without hardware identifiers, is counted and left out; the build
/// goes on with the next.
pub fn createIndex(basePath: &str, files: &Vec<SourceFile>) -> (report: IndexReport)
    ensures
        records_view(report.records@) == catalogue_of(basePath@, files_view(files@)),
        report.outcomes@ == outcomes_of(basePath@, files_view(files@)),
        report.succeeded == successes(report.outcomes@),
        report.failed == failures(report.outcomes@),
        report.blank == blanks(report.outcomes@),
        report.succeeded + report.failed + report.blank == files.len(),
        report.succeeded == report.records.len(),
        forall|i: int|
            0 <= i < report.records.len() ==> (#[trigger] report.records@[i])@.catalogued(),
{
    let mut records: Vec<InfInfo> = Vec::new();
    let mut outcomes: Vec<Outcome> = Vec::new();
    let mut succeeded: usize = 0;
    let mut failed: usize = 0;
    let mut blank: usize = 0;
    let ghost all = files_view(files@);
    let mut i: usize = 0;
    proof {
        assert(all.take(0) =~= Seq::empty());
        assert(records_view(records@) =~= Seq::empty());
        assert(outcomes@ =~= outcomes_of(basePath@, all.take(0)));
    }
    while i < files.len()
        invariant
            i <= files.len(),
            all == files_view(files@),
            records_view(records@) == catalogue_of(basePath@, all.take(i as int)),
            outcomes@ == outcomes_of(basePath@, all.take(i as int)),
            succeeded == successes(outcomes@),
            failed == failures(outcomes@),
            blank == blanks(outcomes@),
            succeeded + failed + blank == i,
        decreases files.len() - i,
    {
        let file = &files[i];
        let ghost before = outcomes@;
        let ghost kept = records_view(records@);
        proof {
            assert(all[i as int] == file@);
            assert(all.take(i + 1).drop_last() =~= all.take(i as int));
            assert(all.take(i + 1).last() == file@);
            assert(outcomes_of(basePath@, all.take(i + 1)) =~= before.push(
                outcome_of(basePath@, file@),
            ));
            lemma_count_last(before, outcome_of(basePath@, file@));
        }
        match InfInfo::parsingInfFile(basePath, file) {
            Ok(info) => {
                if info.DriverList.len() == 0 {
                    blank += 1;
                    outcomes.push(Outcome::Blank);
                } else {
                    succeeded += 1;
                    outcomes.push(Outcome::Succeeded);
                    records.push(info);
                    assert(records_view(records@) =~= kept.push(info@));
                }
            },
            Err(e) => {
                failed += 1;
                outcomes.push(Outcome::Failed(e));
            },
        }
        i += 1;
    }
    proof {
        assert(all.take(files.len() as int) =~= all);
        lemma_catalogue(basePath@, all);
        assert forall|k: int| 0 <= k < records.len() implies (#[trigger] records@[k])@.catalogued() by {
            assert(records_view(records@)[k] == records@[k]@);
        }
    }
    IndexReport { records, outcomes, succeeded, failed, blank }
}

/// A file that gives no record is counted as one failure and left out of the
/// catalogue; what comes of the other files is what would have come of them
/// without it.
pub proof fn lemma_failed_file_is_left_out(base: Seq<char>, files: Seq<SourceText>, k: int)
    requires
        0 <= k < files.len(),
        parsed(base, files[k]) is Err,
    ensures
        outcomes_of(base, files)[k] is Failed,
        outcomes_of(base, files).remove(k) == outcomes_of(base, files.remove(k)),
        catalogue_of(base, files) == catalogue_of(base, files.remove(k)),
        failures(outcomes_of(base, files)) == failures(outcomes_of(base, files.remove(k))) + 1,
        successes(outcomes_of(base, files)) == successes(outcomes_of(base, files.remove(k))),
        blanks(outcomes_of(base, files)) == blanks(outcomes_of(base, files.remove(k))),
    decreases files.len(),
{
    let init = files.drop_last();
    let last = files.last();
    assert(outcomes_of(base, files).remove(k) =~= outcomes_of(base, files.remove(k)));
    assert(outcomes_of(base, files) =~= outcomes_of(base, init).push(outcome_of(base, last)));
    lemma_count_last(outcomes_of(base, init), outcome_of(base, last));
    if k == files.len() - 1 {
        assert(files.remove(k) =~= init);
    } else {
        lemma_failed_file_is_left_out(base, init, k);
        assert(files.remove(k).drop_last() =~= init.remove(k));
        assert(files.remove(k).last() == last);
        assert(outcomes_of(base, files.remove(k)) =~= outcomes_of(base, init.remove(k)).push(
            outcome_of(base, last),
        ));
        lemma_count_last(outcomes_of(base, init.remove(k)), outcome_of(base, last));
    }
}

} // verus!
