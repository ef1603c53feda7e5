//! Paged listings: which page to ask for next, and what has been listed so far.
use vstd::prelude::*;
use vstd::string::*;
use crate::store::{text_of, PageRequest};

verus! {

/// The state of a listing as a mathematical value.
pub struct ListingView<T> {
    /// The path whose parameters are listed.
    pub path: Seq<char>,
    /// Whether parameters below sub-paths are listed too.
    pub recursive: bool,
    /// Whether the first page has been received.
    pub started: bool,
    /// The continuation token of the last page received, if it had one.
    pub token: Option<Seq<char>>,
    /// The items of all pages received, in order.
    pub items: Seq<T>,
}

impl<T> ListingView<T> {
    /// A listing of `path` that has received nothing.
    pub open spec fn fresh(path: Seq<char>, recursive: bool) -> Self {
        ListingView { path, recursive, started: false, token: None, items: Seq::empty() }
    }

    /// True while another page has to be asked for: before the first page, and
    /// after a page that carried a continuation token.
    pub open spec fn pending(self) -> bool {
        !self.started || self.token is Some
    }

    /// The listing after a page with `items` and `next_token` was received.
    pub open spec fn accept(self, items: Seq<T>, next_token: Option<Seq<char>>) -> Self {
        ListingView { started: true, token: next_token, items: self.items + items, ..self }
    }

    /// The listing after it was offered `pages` in order and received each one for
    /// as long as a page was pending.
    pub open spec fn run(self, pages: Seq<(Seq<T>, Option<Seq<char>>)>) -> Self
        decreases pages.len(),
    {
        if pages.len() == 0 || !self.pending() {
            self
        } else {
            self.accept(pages[0].0, pages[0].1).run(pages.drop_first())
        }
    }
}

/// A listing in progress. The caller asks `next_request` for the page to fetch,
/// fetches it, hands what came back to `accept`, and goes on until
/// `next_request` has nothing more to ask.
pub struct Listing<T> {
    path: String,
    recursive: bool,
    started: bool,
    token: Option<String>,
    items: Vec<T>,
}

impl<T> View for Listing<T> {
    type V = ListingView<T>;

    closed spec fn view(&self) -> ListingView<T> {
        ListingView {
            path: self.path@,
            recursive: self.recursive,
            started: self.started,
            token: text_of(self.token),
            items: self.items@,
        }
    }
}

impl<T> Listing<T> {
    /// A listing of the parameters under `path` that has received nothing yet.
    pub fn new(path: &str, recursive: bool) -> (listing: Self)
        ensures
            listing@ == ListingView::<T>::fresh(path@, recursive),
    {
        Listing {
            path: String::from_str(path),
            recursive,
            started: false,
            token: None,
            items: Vec::new(),
        }
    }

    /// The request for the next page, or `None` when the listing is complete. The
    /// request asks for decrypted values and carries the continuation token of
    /// the last page received.
    pub fn next_request(&self) -> (request: Option<PageRequest>)
        ensures
            request is Some <==> self@.pending(),
            request matches Some(page) ==> page.path@ == self@.path && page.recursive
                == self@.recursive && page.with_decryption && text_of(page.next_token)
                == self@.token,
    {
        if !self.started || self.token.is_some() {
            let next_token = match &self.token {
                Some(token) => Some(token.clone()),
                None => None,
            };
            Some(
                PageRequest {
                    path: self.path.clone(),
                    recursive: self.recursive,
                    with_decryption: true,
                    next_token,
                },
            )
        } else {
            None
        }
    }

    /// Takes in one page: its items, in order, behind those already listed, and
    /// its continuation token.
    pub fn accept(&mut self, items: Vec<T>, next_token: Option<String>)
        ensures
            final(self)@ == old(self)@.accept(items@, text_of(next_token)),
    {
        let mut items = items;
        self.items.append(&mut items);
        self.started = true;
        self.token = next_token;
    }

    /// The items of all pages received, in order.
    pub fn into_items(self) -> (items: Vec<T>)
        ensures
            items@ == self@.items,
    {
        self.items
    }
}

/// The items of `pages`, page after page.
pub open spec fn all_items<T>(pages: Seq<(Seq<T>, Option<Seq<char>>)>) -> Seq<T> {
    pages.map_values(|page: (Seq<T>, Option<Seq<char>>)| page.0).flatten()
}

/// A listing that is offered pages of which each but the last carries a token
/// receives every page: it ends with nothing pending, and lists the items of all
/// pages in order, each once, behind what it had listed before.
pub proof fn lemma_run_exhausts<T>(
    listing: ListingView<T>,
    pages: Seq<(Seq<T>, Option<Seq<char>>)>,
)
    requires
        listing.pending(),
        pages.len() > 0,
        forall|i: int| 0 <= i < pages.len() - 1 ==> (#[trigger] pages[i]).1 is Some,
        pages.last().1 is None,
    ensures
        !listing.run(pages).pending(),
        listing.run(pages).items == listing.items + all_items(pages),
        listing.run(pages).path == listing.path,
        listing.run(pages).recursive == listing.recursive,
    decreases pages.len(),
{
    let first = pages[0];
    let rest = pages.drop_first();
    let next = listing.accept(first.0, first.1);
    let lists = pages.map_values(|page: (Seq<T>, Option<Seq<char>>)| page.0);
    assert(lists.drop_first() =~= rest.map_values(|page: (Seq<T>, Option<Seq<char>>)| page.0));
    if rest.len() == 0 {
        assert(next.run(rest) == next);
        assert(listing.items + first.0 =~= listing.items + (first.0 + all_items(rest)));
    } else {
        lemma_run_exhausts(next, rest);
    }
}

/// A fresh listing that is offered pages of which each but the last carries a
/// token lists exactly the items of all pages, in order, each once.
pub proof fn lemma_listing_complete<T>(
    path: Seq<char>,
    recursive: bool,
    pages: Seq<(Seq<T>, Option<Seq<char>>)>,
)
    requires
        pages.len() > 0,
        forall|i: int| 0 <= i < pages.len() - 1 ==> (#[trigger] pages[i]).1 is Some,
        pages.last().1 is None,
    ensures
        !ListingView::<T>::fresh(path, recursive).run(pages).pending(),
        ListingView::<T>::fresh(path, recursive).run(pages).items == all_items(pages),
{
    let fresh = ListingView::<T>::fresh(path, recursive);
    lemma_run_exhausts(fresh, pages);
}

} // verus!
