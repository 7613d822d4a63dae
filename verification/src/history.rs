use vstd::prelude::*;

verus! {

/// How many signatures one history request asks for.
pub const PAGE_LIMIT: usize = 1000;

/// The ceiling on pages fetched for one address.
pub const MAX_PAGES: usize = 10;

/// One page of transaction history as the retriever reports it: `Missing`
/// when the response carries no result list at all, otherwise one entry per
/// returned item, holding its signature when the item has a readable one.
pub enum HistoryPage {
    Missing,
    Entries(Vec<Option<String>>),
}

/// The signatures a page contributes: every present signature, in page
/// order.
pub open spec fn kept_signatures(entries: Seq<Option<String>>) -> Seq<String>
    decreases entries.len(),
{
    if entries.len() == 0 {
        Seq::empty()
    } else {
        let rest = kept_signatures(entries.drop_last());
        match entries.last() {
            Some(s) => rest.push(s),
            None => rest,
        }
    }
}

/// Pagination state for one address's transaction history: what has been
/// collected, where the next request should page from, and how many pages
/// have been taken in. The surrounding program performs the requests; this
/// state decides what each response contributes and whether to go on.
pub struct HistoryScan {
    /// Signatures collected so far, newest first.
    pub signatures: Vec<String>,
    /// Cursor for the next request: page strictly before this signature,
    /// or from the newest activity when `None`.
    pub before: Option<String>,
    /// Pages absorbed so far.
    pub pages: usize,
}

impl HistoryScan {
    /// A scan that has seen nothing yet.
    pub fn new() -> (s: HistoryScan)
        ensures
            s.signatures@.len() == 0,
            s.before is None,
            s.pages == 0,
    {
        HistoryScan { signatures: Vec::new(), before: None, pages: 0 }
    }

    /// Take in one fetched page and decide whether to fetch another.
    ///
    /// A missing or empty page ends the scan and changes nothing. Any other
    /// page appends its present signatures, moves the cursor to the last
    /// item's signature (clearing it when that item has none), counts the
    /// page, and asks for more exactly while the page ceiling is not yet
    /// reached.
    pub fn absorb_page(&mut self, page: HistoryPage) -> (more: bool)
        requires
            old(self).pages < MAX_PAGES,
        ensures
            match page {
                HistoryPage::Missing => {
                    &&& !more
                    &&& *final(self) == *old(self)
                },
                HistoryPage::Entries(v) => {
                    if v@.len() == 0 {
                        &&& !more
                        &&& *final(self) == *old(self)
                    } else {
                        &&& final(self).signatures@ == old(self).signatures@ + kept_signatures(
                            v@,
                        )
                        &&& final(self).pages == old(self).pages + 1
                        &&& more == (old(self).pages + 1 < MAX_PAGES)
                        &&& match v@[v@.len() - 1] {
                            Some(s) => match final(self).before {
                                Some(b) => b == s,
                                None => false,
                            },
                            None => final(self).before is None,
                        }
                    }
                },
            },
    {
        match page {
            HistoryPage::Missing => false,
            HistoryPage::Entries(entries) => {
                if entries.len() == 0 {
                    false
                } else {
                    let ghost sig0 = self.signatures@;
                    let n = entries.len();
                    let mut i: usize = 0;
                    while i < n
                        invariant
                            n == entries@.len(),
                            i <= n,
                            self.signatures@ == sig0 + kept_signatures(entries@.take(i as int)),
                            self.before == old(self).before,
                            self.pages == old(self).pages,
                        decreases n - i,
                    {
                        proof {
                            assert(entries@.take(i as int + 1).drop_last() =~= entries@.take(
                                i as int,
                            ));
                            assert(entries@.take(i as int + 1).last() == entries@[i as int]);
                        }
                        match &entries[i] {
                            Some(s) => {
                                self.signatures.push(s.clone());
                                proof {
                                    assert(self.signatures@ =~= sig0 + kept_signatures(
                                        entries@.take(i as int + 1),
                                    ));
                                }
                            },
                            None => {
                                proof {
                                    assert(self.signatures@ =~= sig0 + kept_signatures(
                                        entries@.take(i as int + 1),
                                    ));
                                }
                            },
                        }
                        i += 1;
                    }
                    proof {
                        assert(entries@.take(n as int) =~= entries@);
                    }
                    match &entries[n - 1] {
                        Some(s) => {
                            self.before = Some(s.clone());
                        },
                        None => {
                            self.before = None;
                        },
                    }
                    self.pages = self.pages + 1;
                    self.pages < MAX_PAGES
                }
            },
        }
    }
}

} // verus!
