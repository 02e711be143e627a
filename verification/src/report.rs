//! The report: every discovered address with its verdict and the pages that
//! refer to it.

use vstd::prelude::*;
use crate::fetch::FetchError;
use crate::normalize::Url;

verus! {

/// Why a page is not valid.
#[derive(Debug, PartialEq, Eq)]
pub enum CheckError {
    /// The address cannot be resolved to something retrievable.
    MalformedUrl,
    /// The target is absent.
    NotFound,
    /// Any other retrieval failure, with its detail.
    IoError(String),
    /// The address cannot be mapped to a retrievable location at all.
    BadPath,
}

/// The check error that stands for a fetch error.
pub open spec fn check_error(err: FetchError) -> CheckError {
    match err {
        FetchError::MalformedUrl => CheckError::MalformedUrl,
        FetchError::NotFound => CheckError::NotFound,
        FetchError::IoError(detail) => CheckError::IoError(detail),
    }
}

impl CheckError {
    /// Whether the error is one that the final listing shows: a missing
    /// target or a failed read.
    pub open spec fn reported(self) -> bool {
        self is NotFound || self is IoError
    }

    pub fn is_reported(&self) -> (r: bool)
        ensures
            r == self.reported(),
    {
        match self {
            CheckError::NotFound => true,
            CheckError::IoError(_) => true,
            _ => false,
        }
    }

    /// Maps a fetcher's failure to the page's check error, keeping its kind
    /// and detail.
    pub fn from_error(err: FetchError) -> (r: CheckError)
        ensures
            r == check_error(err),
    {
        match err {
            FetchError::MalformedUrl => CheckError::MalformedUrl,
            FetchError::NotFound => CheckError::NotFound,
            FetchError::IoError(detail) => CheckError::IoError(detail),
        }
    }
}

/// The state of one page: being checked, or one of the two verdicts.
#[derive(Debug, PartialEq, Eq)]
pub enum PageStatus {
    Valid,
    InProgress,
    Invalid(CheckError),
}

impl PageStatus {
    /// A verdict, as opposed to the transient `InProgress`.
    pub open spec fn is_terminal(self) -> bool {
        !(self is InProgress)
    }

    /// An `Invalid` verdict for a reason that the final listing shows.
    pub open spec fn broken(self) -> bool {
        self is Invalid && self->Invalid_0.reported()
    }

    pub fn is_broken(&self) -> (r: bool)
        ensures
            r == self.broken(),
    {
        match self {
            PageStatus::Invalid(e) => e.is_reported(),
            _ => false,
        }
    }

    pub fn is_valid(&self) -> (r: bool)
        ensures
            r == (*self is Valid),
    {
        match self {
            PageStatus::Valid => true,
            _ => false,
        }
    }

    pub fn is_in_progress(&self) -> (r: bool)
        ensures
            r == (*self is InProgress),
    {
        match self {
            PageStatus::InProgress => true,
            _ => false,
        }
    }
}

/// What is known of one address.
#[derive(Debug, PartialEq, Eq)]
pub struct PageCheckReport {
    pub status: PageStatus,
    pub references: Vec<Url>,
}

/// The addresses of a sequence of `Url`s.
pub open spec fn addresses(urls: Seq<Url>) -> Seq<Seq<char>> {
    urls.map_values(|u: Url| u@)
}

#[derive(Debug)]
struct Entry {
    url: Url,
    page: PageCheckReport,
}

/// A mapping from address to `PageCheckReport`, in order of discovery.
#[derive(Debug)]
pub struct Report {
    entries: Vec<Entry>,
}

/// Every verdict of `before` stands unchanged in `after`.
pub open spec fn keeps_verdicts(before: Report, after: Report) -> bool {
    forall|u: Seq<char>| #[trigger]
        before.contains(u) && before.status(u).is_terminal() ==> after.contains(u) && after.status(
            u,
        ) == before.status(u)
}

/// `after` differs from `before` at most in what it holds of `url`.
pub open spec fn same_elsewhere(before: Report, after: Report, url: Seq<char>) -> bool {
    forall|u: Seq<char>| #[trigger]
        before.contains(u) && u != url ==> after.contains(u) && after.status(u) == before.status(u)
            && after.references(u) == before.references(u)
}

impl Report {
    /// The addresses held, in order of discovery.
    pub closed spec fn keys(&self) -> Seq<Seq<char>> {
        self.entries@.map_values(|e: Entry| e.url@)
    }

    pub open spec fn contains(&self, url: Seq<char>) -> bool {
        self.keys().contains(url)
    }

    closed spec fn slot(&self, url: Seq<char>) -> int {
        self.keys().index_of(url)
    }

    /// The status recorded for `url`; meaningful where `contains(url)`.
    pub closed spec fn status(&self, url: Seq<char>) -> PageStatus {
        self.entries@[self.slot(url)].page.status
    }

    /// The pages recorded as referring to `url`; meaningful where
    /// `contains(url)`.
    pub closed spec fn references(&self, url: Seq<char>) -> Seq<Seq<char>> {
        addresses(self.entries@[self.slot(url)].page.references@)
    }

    /// No address is held twice.
    pub open spec fn wf(&self) -> bool {
        self.keys().no_duplicates()
    }

    proof fn lemma_slot(&self, i: int)
        requires
            self.wf(),
            0 <= i < self.entries@.len(),
        ensures
            self.contains(self.entries@[i].url@),
            self.slot(self.entries@[i].url@) == i,
    {
        assert(self.keys()[i] == self.entries@[i].url@);
    }

    proof fn lemma_slot_of(&self, url: Seq<char>)
        requires
            self.contains(url),
        ensures
            0 <= self.slot(url) < self.entries@.len(),
            self.entries@[self.slot(url)].url@ == url,
    {
        assert(self.keys()[self.slot(url)] == url);
    }

    pub fn new() -> (r: Report)
        ensures
            r.wf(),
            r.keys() == Seq::<Seq<char>>::empty(),
    {
        let r = Report { entries: Vec::new() };
        assert(r.keys() =~= Seq::<Seq<char>>::empty());
        r
    }

    /// How many addresses are held.
    pub fn len(&self) -> (n: usize)
        ensures
            n == self.keys().len(),
    {
        self.entries.len()
    }

    fn find(&self, url: &Url) -> (r: Option<usize>)
        requires
            self.wf(),
        ensures
            match r {
                Some(i) => self.contains(url@) && i == self.slot(url@) && i < self.entries@.len(),
                None => !self.contains(url@),
            },
    {
        let n: usize = self.entries.len();
        let mut i: usize = 0;
        while i < n
            invariant
                i <= n,
                n == self.entries@.len(),
                self.wf(),
                forall|j: int| 0 <= j < i ==> self.keys()[j] != url@,
            decreases n - i,
        {
            if self.entries[i].url.same(url) {
                proof {
                    self.lemma_slot(i as int);
                }
                return Some(i);
            }
            i += 1;
        }
        None
    }

    pub fn contains_key(&self, url: &Url) -> (r: bool)
        requires
            self.wf(),
        ensures
            r == self.contains(url@),
    {
        self.find(url).is_some()
    }

    /// The address discovered as the `i`-th.
    pub fn url_at(&self, i: usize) -> (r: &Url)
        requires
            i < self.keys().len(),
        ensures
            r@ == self.keys()[i as int],
    {
        &self.entries[i].url
    }

    /// What is held of the address discovered as the `i`-th.
    pub fn page_at(&self, i: usize) -> (r: &PageCheckReport)
        requires
            self.wf(),
            i < self.keys().len(),
        ensures
            r.status == self.status(self.keys()[i as int]),
            addresses(r.references@) == self.references(self.keys()[i as int]),
    {
        proof {
            self.lemma_slot(i as int);
        }
        &self.entries[i].page
    }

    /// What is held of `url`, if anything.
    pub fn get(&self, url: &Url) -> (r: Option<&PageCheckReport>)
        requires
            self.wf(),
        ensures
            r.is_some() == self.contains(url@),
            r.is_some() ==> r.unwrap().status == self.status(url@) && addresses(
                r.unwrap().references@,
            ) == self.references(url@),
    {
        match self.find(url) {
            Some(i) => Some(&self.entries[i].page),
            None => None,
        }
    }

    /// The places, in order of discovery, of the addresses to list as dead
    /// links: those `Invalid` for a reported reason. The run found no dead
    /// link exactly when there is none.
    pub fn findings(&self) -> (r: Vec<usize>)
        requires
            self.wf(),
        ensures
            forall|a: int, b: int| 0 <= a < b < r@.len() ==> r@[a] < r@[b],
            forall|a: int| 0 <= a < r@.len() ==> r@[a] < self.keys().len(),
            forall|i: usize|
                i < self.keys().len() ==> (#[trigger] r@.contains(i) <==> self.status(
                    self.keys()[i as int],
                ).broken()),
    {
        let mut found: Vec<usize> = Vec::new();
        let n: usize = self.entries.len();
        let mut i: usize = 0;
        while i < n
            invariant
                i <= n,
                n == self.entries@.len(),
                n == self.keys().len(),
                self.wf(),
                forall|a: int, b: int| 0 <= a < b < found@.len() ==> found@[a] < found@[b],
                forall|a: int| 0 <= a < found@.len() ==> found@[a] < i,
                forall|j: usize|
                    j < i ==> (#[trigger] found@.contains(j) <==> self.status(
                        self.keys()[j as int],
                    ).broken()),
            decreases n - i,
        {
            proof {
                self.lemma_slot(i as int);
            }
            let ghost before = found@;
            if self.entries[i].page.status.is_broken() {
                found.push(i);
                assert(found@[before.len() as int] == i);
            }
            assert forall|j: usize| j < i + 1 implies (#[trigger] found@.contains(j) <==> self.status(
                self.keys()[j as int],
            ).broken()) by {
                if before.contains(j) {
                    let a = choose|a: int| 0 <= a < before.len() && before[a] == j;
                    assert(found@[a] == j);
                }
                if found@.contains(j) && j != i {
                    let a = choose|a: int| 0 <= a < found@.len() && found@[a] == j;
                    assert(before[a] == j);
                }
            }
            i += 1;
        }
        found
    }

    /// Enters `url` as `InProgress`, referred to by `initial_ref`, unless it
    /// is held already; then nothing changes. Tells whether it was entered.
    pub fn insert_if_absent(&mut self, url: Url, initial_ref: Url) -> (inserted: bool)
        requires
            old(self).wf(),
        ensures
            final(self).wf(),
            final(self).contains(url@),
            inserted == !old(self).contains(url@),
            !inserted ==> *final(self) == *old(self),
            inserted ==> final(self).keys() == old(self).keys().push(url@),
            inserted ==> final(self).status(url@) is InProgress,
            inserted ==> final(self).references(url@) == seq![initial_ref@],
            same_elsewhere(*old(self), *final(self), url@),
            keeps_verdicts(*old(self), *final(self)),
    {
        match self.find(&url) {
            Some(_) => false,
            None => {
                let ghost before = *self;
                let mut references: Vec<Url> = Vec::new();
                references.push(initial_ref);
                assert(addresses(references@) =~= seq![initial_ref@]);
                self.entries.push(
                    Entry { url, page: PageCheckReport { status: PageStatus::InProgress, references } },
                );
                proof {
                    assert(self.keys() =~= before.keys().push(url@));
                    self.lemma_slot(before.entries@.len() as int);
                    assert forall|u: Seq<char>| #[trigger]
                        before.contains(u) implies self.contains(u) && self.status(u)
                        == before.status(u) && self.references(u) == before.references(u) by {
                        before.lemma_slot_of(u);
                        self.lemma_slot(before.slot(u));
                    }
                    assert(self.contains(url@));
                }
                true
            },
        }
    }

    /// Adds `reference` to the pages that refer to `url`, where `url` is held
    /// and not `Valid`; otherwise nothing changes.
    pub fn append_reference(&mut self, url: &Url, reference: Url)
        requires
            old(self).wf(),
        ensures
            final(self).wf(),
            final(self).keys() == old(self).keys(),
            old(self).contains(url@) ==> final(self).status(url@) == old(self).status(url@),
            old(self).contains(url@) ==> final(self).references(url@) == if old(self).status(
                url@,
            ) is Valid {
                old(self).references(url@)
            } else {
                old(self).references(url@).push(reference@)
            },
            same_elsewhere(*old(self), *final(self), url@),
            keeps_verdicts(*old(self), *final(self)),
    {
        let ghost before = *self;
        match self.find(url) {
            Some(i) => {
                if !self.entries[i].page.status.is_valid() {
                    self.entries[i].page.references.push(reference);
                    proof {
                        assert(self.keys() =~= before.keys());
                        assert(self.references(url@) =~= before.references(url@).push(reference@));
                        assert forall|u: Seq<char>| #[trigger]
                            before.contains(u) && u != url@ implies self.contains(u) && self.status(
                            u,
                        ) == before.status(u) && self.references(u) == before.references(u) by {
                            before.lemma_slot_of(u);
                        }
                    }
                }
            },
            None => {},
        }
    }

    /// Records the verdict on `url`. An address held as `InProgress` gets the
    /// verdict; one not held is entered with it and no references; one that
    /// has a verdict already keeps it. A `Valid` page keeps no references.
    pub fn set_terminal(&mut self, url: Url, status: PageStatus)
        requires
            old(self).wf(),
            status.is_terminal(),
        ensures
            final(self).wf(),
            final(self).contains(url@),
            final(self).keys() == if old(self).contains(url@) {
                old(self).keys()
            } else {
                old(self).keys().push(url@)
            },
            final(self).status(url@) == if old(self).contains(url@) && old(self).status(
                url@,
            ).is_terminal() {
                old(self).status(url@)
            } else {
                status
            },
            final(self).references(url@) == if !old(self).contains(url@) {
                Seq::<Seq<char>>::empty()
            } else if old(self).status(url@) is InProgress && status is Valid {
                Seq::<Seq<char>>::empty()
            } else {
                old(self).references(url@)
            },
            same_elsewhere(*old(self), *final(self), url@),
            keeps_verdicts(*old(self), *final(self)),
    {
        let ghost before = *self;
        match self.find(&url) {
            Some(i) => {
                if self.entries[i].page.status.is_in_progress() {
                    if status.is_valid() {
                        self.entries[i].page.references = Vec::new();
                    }
                    self.entries[i].page.status = status;
                    proof {
                        assert(self.keys() =~= before.keys());
                        assert(self.references(url@) =~= if status is Valid {
                            Seq::<Seq<char>>::empty()
                        } else {
                            before.references(url@)
                        });
                        assert forall|u: Seq<char>| #[trigger]
                            before.contains(u) && u != url@ implies self.contains(u) && self.status(
                            u,
                        ) == before.status(u) && self.references(u) == before.references(u) by {
                            before.lemma_slot_of(u);
                        }
                    }
                }
            },
            None => {
                self.entries.push(
                    Entry { url, page: PageCheckReport { status, references: Vec::new() } },
                );
                proof {
                    assert(self.keys() =~= before.keys().push(url@));
                    self.lemma_slot(before.entries@.len() as int);
                    assert(self.references(url@) =~= Seq::<Seq<char>>::empty());
                    assert forall|u: Seq<char>| #[trigger]
                        before.contains(u) implies self.contains(u) && self.status(u)
                        == before.status(u) && self.references(u) == before.references(u) by {
                        before.lemma_slot_of(u);
                        self.lemma_slot(before.slot(u));
                    }
                }
            },
        }
    }
}

} // verus!
