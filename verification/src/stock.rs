//! The library's patterns, read from their files.

use crate::board_error::BoardError;
use crate::board_error::BoardFailure;
use crate::library;
use crate::library::{published_part1_specs, PublishedSpec};
use crate::published;
use crate::published::{PatternFailure, PatternFiles, PublishedPattern, WireAnchors};
use crate::text::same_text;
use vstd::prelude::*;

verus! {

/// What is wrong with the first of the first `k` patterns that cannot be read.
pub open spec fn load_failure(files: &PatternFiles, k: nat) -> Option<PatternFailure>
    decreases k,
{
    if k == 0 {
        None
    } else {
        match load_failure(files, (k - 1) as nat) {
            Some(failure) => Some(failure),
            None => match published::pattern_in_files(files, library::part1_table()[k - 1].path) {
                Ok(_) => None,
                Err(failure) => Some(failure),
            },
        }
    }
}

/// The cells of the pattern with a name.
pub open spec fn rows_named(files: &PatternFiles, name: Seq<char>) -> Option<Seq<Seq<u8>>> {
    match library::spec_named(name) {
        None => None,
        Some(spec) => match published::pattern_in_files(files, spec.path) {
            Ok(rows) => Some(rows),
            Err(_) => None,
        },
    }
}

/// The library's patterns, with the ends of their wires.
#[derive(Debug)]
pub struct PublishedLibrary {
    pub specs: Vec<PublishedSpec>,
    pub patterns: Vec<PublishedPattern>,
    pub anchors: Vec<WireAnchors>,
}

/// Where the wires of a pattern with the given cells end.
pub open spec fn ends_of(rows: Seq<Seq<u8>>) -> WireAnchors {
    published::anchors_in(rows, rows[0].len() as int, rows.len() as int)
}

/// A pattern is what its file says.
pub open spec fn is_entry(
    files: &PatternFiles,
    path: Seq<char>,
    pattern: &PublishedPattern,
    anchors: WireAnchors,
) -> bool {
    &&& published::pattern_in_files(files, path) == Ok::<Seq<Seq<u8>>, PatternFailure>(pattern@)
    &&& pattern.scannable()
    &&& pattern@.len() > 0
    &&& pattern.width == pattern@[0].len()
    &&& anchors == ends_of(pattern@)
    &&& published::are_anchors(pattern@, pattern.width as int, pattern.height as int, anchors)
}

impl PublishedLibrary {
    /// The patterns are those of the files.
    pub open spec fn wf(&self, files: &PatternFiles) -> bool {
        &&& library::spec_models(self.specs@) == library::part1_table()
        &&& self.patterns@.len() == self.specs@.len()
        &&& self.anchors@.len() == self.specs@.len()
        &&& forall|i: int|
            0 <= i < self.specs@.len() ==> is_entry(
                files,
                library::part1_table()[i].path,
                &#[trigger] self.patterns@[i],
                self.anchors@[i],
            )
    }

    /// Reads all patterns.
    pub fn load(files: &PatternFiles) -> (result: Result<Self, BoardError>)
        requires
            files.wf(),
        ensures
            match load_failure(files, library::part1_table().len()) {
                Some(failure) => result matches Err(error) && error@ == BoardFailure::Pattern(failure),
                None => result matches Ok(stock) && stock.wf(files),
            },
    {
        let specs: Vec<PublishedSpec> = published_part1_specs();
        let ghost table = library::part1_table();
        let mut patterns: Vec<PublishedPattern> = Vec::new();
        let mut anchors: Vec<WireAnchors> = Vec::new();
        let mut k: usize = 0;
        while k < specs.len()
            invariant
                k <= specs@.len(),
                files.wf(),
                table == library::part1_table(),
                library::spec_models(specs@) == table,
                load_failure(files, k as nat) is None,
                patterns@.len() == k,
                anchors@.len() == k,
                forall|i: int|
                    0 <= i < k ==> is_entry(files, table[i].path, &#[trigger] patterns@[i], anchors@[i]),
            decreases specs.len() - k,
        {
            assert(table[k as int] == specs@[k as int]@);
            let pattern: PublishedPattern = match PublishedPattern::from_csv_file(files, specs[k].path) {
                Ok(pattern) => pattern,
                Err(error) => {
                    proof {
                        lemma_load_fails(files, (k + 1) as nat, table.len());
                    }
                    return Err(BoardError::Pattern { error });
                },
            };
            anchors.push(pattern.find_wires());
            patterns.push(pattern);
            k += 1;
        }
        Ok(PublishedLibrary { specs, patterns, anchors })
    }

    /// The number of the pattern with a name.
    pub(crate) fn find(&self, files: Ghost<&PatternFiles>, name: &str) -> (found: Option<usize>)
        requires
            self.wf(files@),
        ensures
            match found {
                Some(i) => i < self.patterns@.len() && library::spec_named(name@) == Some(self.specs@[i as int]@)
                    && rows_named(files@, name@) == Some(self.patterns@[i as int]@) && is_entry(
                    files@,
                    library::part1_table()[i as int].path,
                    &self.patterns@[i as int],
                    self.anchors@[i as int],
                ),
                None => library::spec_named(name@) is None,
            },
    {
        let ghost table = library::part1_table();
        let mut i: usize = 0;
        while i < self.specs.len()
            invariant
                i <= self.specs@.len(),
                self.wf(files@),
                table == library::part1_table(),
                forall|j: int| 0 <= j < i ==> (#[trigger] table[j]).name != name@,
            decreases self.specs.len() - i,
        {
            assert(table[i as int] == self.specs@[i as int]@);
            if same_text(self.specs[i].name, name) {
                proof {
                    library::lemma_named_entry(table, name@, i as int);
                    assert(is_entry(files@, table[i as int].path, &self.patterns@[i as int], self.anchors@[i as int]));
                }
                return Some(i);
            }
            i += 1;
        }
        proof {
            library::lemma_named_entry(table, name@, i as int);
        }
        None
    }
}

proof fn lemma_load_fails(files: &PatternFiles, j: nat, k: nat)
    requires
        j <= k,
        load_failure(files, j) is Some,
    ensures
        load_failure(files, k) == load_failure(files, j),
    decreases k,
{
    if j < k {
        lemma_load_fails(files, j, (k - 1) as nat);
    }
}

} // verus!
