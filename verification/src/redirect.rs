//! Following redirects.
use crate::directory_entry::{DirectoryEntry, EntryView, Target};
use crate::errors::{Error, Result};
use crate::header::header_of;
use crate::lookup::{entry_by_path, entry_count, index_of};
use crate::namespace::Namespace;
use crate::raw::u32_at;
use crate::zim::{entry_of, Zim};
use vstd::prelude::*;
use vstd::set_lib::{lemma_int_range, lemma_len_subset, set_int_range};

verus! {

/// Where following redirects from `entry` leads, when at most `hops` of them are followed.
pub open spec fn follow(raw: Seq<u8>, entry: EntryView, hops: nat) -> Result<EntryView>
    decreases hops,
{
    match entry.target {
        Some(Target::Redirect(idx)) => if hops == 0 {
            Err(Error::RedirectLoop)
        } else {
            match entry_of(raw, idx as int) {
                Err(err) => Err(err),
                Ok(next) => follow(raw, next, (hops - 1) as nat),
            }
        },
        _ => Ok(entry),
    }
}

/// Where following redirects from `entry` leads. A chain that visits more entries than the
/// archive has must visit one of them twice, so it is not followed any further.
pub open spec fn resolved(raw: Seq<u8>, entry: EntryView) -> Result<EntryView> {
    follow(raw, entry, (entry_count(raw) + 1) as nat)
}

/// The entry that an archive opens with, if it names one: the one that the well known entry
/// `W/mainPage` leads to, or else the one that the header does.
pub open spec fn main_page_of(raw: Seq<u8>) -> Result<Option<EntryView>> {
    match entry_by_path(raw, Namespace::CategoriesArticle, "mainPage"@) {
        Err(err) => Err(err),
        Ok(Some(entry)) => some_resolved(raw, entry),
        Ok(None) => match header_of(raw).main_page {
            None => Ok(None),
            Some(idx) => match entry_of(raw, idx as int) {
                Err(err) => Err(err),
                Ok(entry) => some_resolved(raw, entry),
            },
        },
    }
}

/// [`resolved`], for an entry that is there.
pub open spec fn some_resolved(raw: Seq<u8>, entry: EntryView) -> Result<Option<EntryView>> {
    match resolved(raw, entry) {
        Err(err) => Err(err),
        Ok(entry) => Ok(Some(entry)),
    }
}

impl<'a> Zim<'a> {
    /// The entry that a redirect points at, if `entry` is one and may still be followed.
    fn hop(&self, entry: &DirectoryEntry, hops: u64) -> (r: Result<Option<DirectoryEntry>>)
        requires
            self.wf(),
        ensures
            match r {
                Err(err) => follow(self.store@, entry@, hops as nat) == Err::<EntryView, Error>(err),
                Ok(None) => follow(self.store@, entry@, hops as nat) == Ok::<EntryView, Error>(
                    entry@,
                ),
                Ok(Some(next)) => hops > 0 && follow(self.store@, entry@, hops as nat) == follow(
                    self.store@,
                    next@,
                    (hops - 1) as nat,
                ),
            },
    {
        match entry.target {
            Some(Target::Redirect(idx)) => {
                if hops == 0 {
                    return Err(Error::RedirectLoop);
                }
                let next = self.get_by_url_index(idx)?;
                Ok(Some(next))
            },
            _ => Ok(None),
        }
    }

    /// Follows redirects to the entry that holds the contents.
    ///
    /// A redirect may point at another redirect, so the chain is followed to its end. One that
    /// does not end is reported as [`Error::RedirectLoop`].
    pub fn resolve(&self, entry: DirectoryEntry) -> (r: Result<DirectoryEntry>)
        requires
            self.wf(),
        ensures
            match resolved(self.store@, entry@) {
                Ok(view) => r matches Ok(found) && found@ == view,
                Err(err) => r == Err::<DirectoryEntry, Error>(err),
            },
    {
        let ghost raw = self.store@;
        let ghost end = resolved(raw, entry@);
        let mut current = entry;
        let mut hops: u64 = self.header.article_count as u64 + 1;
        loop
            invariant
                self.wf(),
                raw == self.store@,
                follow(raw, current@, hops as nat) == end,
                end == resolved(raw, entry@),
            decreases hops,
        {
            match self.hop(&current, hops)? {
                Some(next) => {
                    current = next;
                    hops = hops - 1;
                },
                None => return Ok(current),
            }
        }
    }

    /// Returns the entry that a reader should open the archive with, if it names one.
    pub fn main_page(&self) -> (r: Result<Option<DirectoryEntry>>)
        requires
            self.wf(),
        ensures
            match main_page_of(self.store@) {
                Err(err) => r == Err::<Option<DirectoryEntry>, Error>(err),
                Ok(None) => r == Ok::<Option<DirectoryEntry>, Error>(None),
                Ok(Some(view)) => r matches Ok(Some(entry)) && entry@ == view,
            },
    {
        if let Some(entry) = self.get_by_path(Namespace::CategoriesArticle, "mainPage")? {
            return Ok(Some(self.resolve(entry)?));
        }
        match self.header.main_page {
            Some(idx) => {
                let entry = self.get_by_url_index(idx)?;
                Ok(Some(self.resolve(entry)?))
            },
            None => Ok(None),
        }
    }
}

/// What redirects lead to is never itself a redirect.
pub proof fn resolved_entries_are_not_redirects(raw: Seq<u8>, entry: EntryView)
    ensures
        resolved(raw, entry) matches Ok(found) ==> !(found.target matches Some(Target::Redirect(_))),
{
    lemma_follow_ends(raw, entry, (entry_count(raw) + 1) as nat);
}

proof fn lemma_follow_ends(raw: Seq<u8>, entry: EntryView, hops: nat)
    ensures
        follow(raw, entry, hops) matches Ok(found) ==> !(found.target matches Some(
            Target::Redirect(_),
        )),
    decreases hops,
{
    if let Some(Target::Redirect(idx)) = entry.target {
        if hops > 0 && entry_of(raw, idx as int) is Ok {
            lemma_follow_ends(raw, entry_of(raw, idx as int)->Ok_0, (hops - 1) as nat);
        }
    }
}

/// An entry that is not a redirect stands for itself.
pub proof fn contents_resolve_to_themselves(raw: Seq<u8>, entry: EntryView)
    requires
        !(entry.target matches Some(Target::Redirect(_))),
    ensures
        resolved(raw, entry) == Ok::<EntryView, Error>(entry),
{
}

/// The entry that `n` redirects lead to, while they last.
pub open spec fn nth_hop(raw: Seq<u8>, entry: EntryView, n: nat) -> Option<EntryView>
    decreases n,
{
    if n == 0 {
        Some(entry)
    } else {
        match nth_hop(raw, entry, (n - 1) as nat) {
            Some(EntryView { target: Some(Target::Redirect(idx)), .. }) => match entry_of(
                raw,
                idx as int,
            ) {
                Ok(next) => Some(next),
                Err(_) => None,
            },
            _ => None,
        }
    }
}

/// The index that the `n`-th redirect points at.
spec fn hop_target(raw: Seq<u8>, entry: EntryView, n: nat) -> int {
    match nth_hop(raw, entry, n) {
        Some(EntryView { target: Some(Target::Redirect(idx)), .. }) => idx as int,
        _ => -1,
    }
}

/// The chain of redirects from `entry` has no end: however many are followed, there is a next
/// one.
pub open spec fn never_ends(raw: Seq<u8>, entry: EntryView) -> bool {
    forall|n: nat|
        (#[trigger] nth_hop(raw, entry, n)) matches Some(hop) && hop.target matches Some(
            Target::Redirect(_),
        )
}

proof fn lemma_hop_first(raw: Seq<u8>, entry: EntryView, next: EntryView, n: nat)
    requires
        entry.target matches Some(Target::Redirect(idx)) && entry_of(raw, idx as int) == Ok::<
            EntryView,
            Error,
        >(next),
    ensures
        nth_hop(raw, entry, n + 1) == nth_hop(raw, next, n),
    decreases n,
{
    reveal_with_fuel(nth_hop, 2);
    if n > 0 {
        lemma_hop_first(raw, entry, next, (n - 1) as nat);
    }
}

/// Following runs out of hops exactly when each of them leads to another redirect.
proof fn lemma_follow_runs_out(raw: Seq<u8>, entry: EntryView, hops: nat)
    ensures
        follow(raw, entry, hops) == Err::<EntryView, Error>(Error::RedirectLoop) ==> forall|n: nat|
            n <= hops ==> (#[trigger] nth_hop(raw, entry, n)) is Some && hop_target(raw, entry, n)
                >= 0,
        (nth_hop(raw, entry, hops) is Some && hop_target(raw, entry, hops) >= 0) ==> follow(
            raw,
            entry,
            hops,
        ) == Err::<EntryView, Error>(Error::RedirectLoop),
    decreases hops,
{
    reveal_with_fuel(nth_hop, 2);
    match entry.target {
        Some(Target::Redirect(idx)) => {
            if hops > 0 {
                match entry_of(raw, idx as int) {
                    Ok(next) => {
                        lemma_follow_runs_out(raw, next, (hops - 1) as nat);
                        lemma_hop_first(raw, entry, next, (hops - 1) as nat);
                        assert forall|n: nat|
                            follow(raw, entry, hops) == Err::<EntryView, Error>(Error::RedirectLoop)
                                && n <= hops implies (#[trigger] nth_hop(raw, entry, n)) is Some
                            && hop_target(raw, entry, n) >= 0 by {
                            if n > 0 {
                                lemma_hop_first(raw, entry, next, (n - 1) as nat);
                                assert(nth_hop(raw, next, (n - 1) as nat) is Some);
                            }
                        }
                    },
                    Err(err) => {
                        lemma_entry_errors(raw, idx as int);
                        lemma_hop_stops(raw, entry, 1, hops);
                    },
                }
            }
        },
        _ => {
            if hops > 0 {
                lemma_hop_stops(raw, entry, 1, hops);
            }
        },
    }
}

/// Once the chain has ended, nothing comes after.
proof fn lemma_hop_stops(raw: Seq<u8>, entry: EntryView, m: nat, n: nat)
    requires
        m <= n,
        nth_hop(raw, entry, m) is None,
    ensures
        nth_hop(raw, entry, n) is None,
    decreases n - m,
{
    if m < n {
        lemma_hop_stops(raw, entry, m, (n - 1) as nat);
    }
}

/// Reading an entry never reports a redirect loop.
proof fn lemma_entry_errors(raw: Seq<u8>, idx: int)
    ensures
        entry_of(raw, idx) != Err::<EntryView, Error>(Error::RedirectLoop),
{
}

/// Once two redirects point at the same entry, the chain goes round and round.
proof fn lemma_repeats(raw: Seq<u8>, entry: EntryView, i: nat, j: nat, n: nat)
    requires
        i < j,
        hop_target(raw, entry, i) >= 0,
        hop_target(raw, entry, i) == hop_target(raw, entry, j),
        forall|k: nat| k <= j ==> hop_target(raw, entry, k) >= 0,
    ensures
        hop_target(raw, entry, n) >= 0,
    decreases n,
{
    if n > j {
        // the entry after hop j is the entry after hop i
        let back = (n - (j - i)) as nat;
        lemma_shift(raw, entry, i, j, (n - j - 1) as nat);
        lemma_repeats(raw, entry, i, j, back);
    }
}

proof fn lemma_shift(raw: Seq<u8>, entry: EntryView, i: nat, j: nat, n: nat)
    requires
        i < j,
        hop_target(raw, entry, i) >= 0,
        hop_target(raw, entry, i) == hop_target(raw, entry, j),
    ensures
        nth_hop(raw, entry, i + 1 + n) == nth_hop(raw, entry, j + 1 + n),
    decreases n,
{
    if n > 0 {
        lemma_shift(raw, entry, i, j, (n - 1) as nat);
    }
}

/// More redirects than the archive has entries cannot all point at different ones.
proof fn lemma_some_repeat(raw: Seq<u8>, entry: EntryView) -> (found: (nat, nat))
    requires
        forall|n: nat|
            n <= entry_count(raw) ==> 0 <= #[trigger] hop_target(raw, entry, n) < entry_count(raw),
    ensures
        found.0 < found.1 <= entry_count(raw),
        hop_target(raw, entry, found.0) == hop_target(raw, entry, found.1),
{
    let count = entry_count(raw);
    if forall|i: nat, j: nat|
        i < j <= count ==> #[trigger] hop_target(raw, entry, i) != #[trigger] hop_target(
            raw,
            entry,
            j,
        ) {
        lemma_distinct_targets(raw, entry, (count + 1) as nat);
        let seen = targets(raw, entry, (count + 1) as nat);
        lemma_int_range(0, count);
        assert(seen.subset_of(set_int_range(0, count)));
        lemma_len_subset(seen, set_int_range(0, count));
        (0, 1)
    } else {
        choose|i: nat, j: nat|
            i < j <= count && #[trigger] hop_target(raw, entry, i) == #[trigger] hop_target(
                raw,
                entry,
                j,
            )
    }
}

/// What the first `n` redirects point at.
spec fn targets(raw: Seq<u8>, entry: EntryView, n: nat) -> Set<int>
    decreases n,
{
    if n == 0 {
        Set::empty()
    } else {
        targets(raw, entry, (n - 1) as nat).insert(hop_target(raw, entry, (n - 1) as nat))
    }
}

proof fn lemma_distinct_targets(raw: Seq<u8>, entry: EntryView, n: nat)
    requires
        n <= entry_count(raw) + 1,
        forall|n: nat|
            n <= entry_count(raw) ==> 0 <= #[trigger] hop_target(raw, entry, n) < entry_count(raw),
        forall|i: nat, j: nat|
            i < j <= entry_count(raw) ==> #[trigger] hop_target(raw, entry, i)
                != #[trigger] hop_target(raw, entry, j),
    ensures
        targets(raw, entry, n).finite(),
        targets(raw, entry, n).len() == n,
        forall|t: int|
            #[trigger] targets(raw, entry, n).contains(t) ==> 0 <= t < entry_count(raw) && exists|
                i: nat,
            | i < n && #[trigger] hop_target(raw, entry, i) == t,
    decreases n,
{
    if n > 0 {
        lemma_distinct_targets(raw, entry, (n - 1) as nat);
        let last = hop_target(raw, entry, (n - 1) as nat);
        if targets(raw, entry, (n - 1) as nat).contains(last) {
            let i = choose|i: nat| i < n - 1 && #[trigger] hop_target(raw, entry, i) == last;
            assert(hop_target(raw, entry, i) != hop_target(raw, entry, (n - 1) as nat));
        }
    }
}

/// A redirect loop is reported exactly for the chains that have no end. A chain that ends is
/// followed to its end, however long it is.
pub proof fn redirect_loops_are_endless_chains(raw: Seq<u8>, entry: EntryView)
    ensures
        resolved(raw, entry) == Err::<EntryView, Error>(Error::RedirectLoop) <==> never_ends(
            raw,
            entry,
        ),
{
    let hops = (entry_count(raw) + 1) as nat;
    lemma_follow_runs_out(raw, entry, hops);
    if never_ends(raw, entry) {
        assert(nth_hop(raw, entry, hops) is Some);
        assert(hop_target(raw, entry, hops) >= 0);
    }
    if resolved(raw, entry) == Err::<EntryView, Error>(Error::RedirectLoop) {
        assert forall|n: nat| n <= entry_count(raw) implies 0 <= #[trigger] hop_target(
            raw,
            entry,
            n,
        ) < entry_count(raw) by {
            assert(nth_hop(raw, entry, n) is Some);
            assert(nth_hop(raw, entry, n + 1) is Some);
        }
        let (i, j) = lemma_some_repeat(raw, entry);
        assert forall|n: nat|
            (#[trigger] nth_hop(raw, entry, n)) matches Some(hop) && hop.target matches Some(
                Target::Redirect(_),
            ) by {
            assert forall|k: nat| k <= j implies hop_target(raw, entry, k) >= 0 by {
                assert(nth_hop(raw, entry, k) is Some);
            }
            lemma_repeats(raw, entry, i, j, n);
        }
    }
}

/// Hops that were enough stay enough.
proof fn lemma_follow_more(raw: Seq<u8>, entry: EntryView, hops: nat)
    requires
        follow(raw, entry, hops) != Err::<EntryView, Error>(Error::RedirectLoop),
    ensures
        follow(raw, entry, hops + 1) == follow(raw, entry, hops),
    decreases hops,
{
    if let Some(Target::Redirect(idx)) = entry.target {
        if hops > 0 {
            if let Ok(next) = entry_of(raw, idx as int) {
                lemma_follow_more(raw, next, (hops - 1) as nat);
            }
        }
    }
}

/// A redirect stands for its target: it resolves to whatever the target resolves to, unchanged.
/// So a redirect to an entry that is not one itself resolves to that very entry of the archive.
/// Where the target cannot be read, that is what comes out.
pub proof fn redirects_resolve_like_their_target(raw: Seq<u8>, entry: EntryView, idx: u32)
    requires
        entry.target == Some(Target::Redirect(idx)),
    ensures
        entry_of(raw, idx as int) matches Err(err) ==> resolved(raw, entry) == Err::<
            EntryView,
            Error,
        >(err),
        entry_of(raw, idx as int) matches Ok(next) ==> resolved(raw, entry) == resolved(raw, next),
        entry_of(raw, idx as int) matches Ok(next) ==> !(next.target matches Some(
            Target::Redirect(_),
        )) ==> resolved(raw, entry) == Ok::<EntryView, Error>(next),
{
    if let Ok(next) = entry_of(raw, idx as int) {
        let hops = (entry_count(raw) + 1) as nat;
        let fewer = entry_count(raw) as nat;
        assert(resolved(raw, entry) == follow(raw, next, fewer));
        if follow(raw, next, fewer) == Err::<EntryView, Error>(Error::RedirectLoop) {
            redirect_loops_are_endless_chains(raw, entry);
            assert forall|n: nat|
                (#[trigger] nth_hop(raw, next, n)) matches Some(hop) && hop.target matches Some(
                    Target::Redirect(_),
                ) by {
                lemma_hop_first(raw, entry, next, n);
                assert(nth_hop(raw, entry, n + 1) is Some);
            }
            redirect_loops_are_endless_chains(raw, next);
        } else {
            lemma_follow_more(raw, next, fewer);
        }
    }
}

/// Following one redirect more is reading the entry that the last one points at.
pub proof fn hops_read_entries(raw: Seq<u8>, entry: EntryView, n: nat)
    ensures
        nth_hop(raw, entry, 0) == Some(entry),
        nth_hop(raw, entry, n + 1) matches Some(next) ==> exists|idx: u32|
            nth_hop(raw, entry, n) matches Some(hop) && hop.target == Some(Target::Redirect(idx))
                && #[trigger] entry_of(raw, idx as int) == Ok::<EntryView, Error>(next),
{
    reveal_with_fuel(nth_hop, 2);
    if nth_hop(raw, entry, n + 1) is Some {
        let hop = nth_hop(raw, entry, n)->0;
        let idx = hop.target->0->Redirect_0;
        assert(entry_of(raw, idx as int) == Ok::<EntryView, Error>(
            nth_hop(raw, entry, n + 1)->0,
        ));
    }
}

/// What an entry resolves to is found on the chain of redirects that starts with it: the entry
/// itself, or an entry of the archive as it is stored.
pub proof fn resolved_entries_are_on_the_chain(raw: Seq<u8>, entry: EntryView)
    ensures
        resolved(raw, entry) matches Ok(found) ==> exists|n: nat| #[trigger]
            nth_hop(raw, entry, n) == Some(found),
        resolved(raw, entry) matches Ok(found) ==> found == entry || exists|idx: u32| #[trigger]
            entry_of(raw, idx as int) == Ok::<EntryView, Error>(found),
{
    lemma_follow_on_chain(raw, entry, (entry_count(raw) + 1) as nat);
}

proof fn lemma_follow_on_chain(raw: Seq<u8>, entry: EntryView, hops: nat)
    ensures
        follow(raw, entry, hops) matches Ok(found) ==> exists|n: nat| #[trigger]
            nth_hop(raw, entry, n) == Some(found),
        follow(raw, entry, hops) matches Ok(found) ==> found == entry || exists|idx: u32| #[trigger]
            entry_of(raw, idx as int) == Ok::<EntryView, Error>(found),
    decreases hops,
{
    assert(nth_hop(raw, entry, 0) == Some(entry));
    if let Some(Target::Redirect(idx)) = entry.target {
        if hops > 0 {
            if let Ok(next) = entry_of(raw, idx as int) {
                lemma_follow_on_chain(raw, next, (hops - 1) as nat);
                if let Ok(found) = follow(raw, entry, hops) {
                    let n = choose|n: nat| #[trigger] nth_hop(raw, next, n) == Some(found);
                    lemma_hop_first(raw, entry, next, n);
                    assert(nth_hop(raw, entry, n + 1) == Some(found));
                    assert(entry_of(raw, idx as int) == Ok::<EntryView, Error>(next));
                }
            }
        }
    }
}

/// The well known entry `W/mainPage` decides what the main page is; without it the index that the
/// header holds at its 64th byte does, where all bits set mean that there is none. Either way the
/// main page is what that entry resolves to.
pub proof fn main_pages_come_from_w_or_the_header(raw: Seq<u8>, idx: int)
    ensures
        index_of(raw, Namespace::CategoriesArticle, "mainPage"@) matches Err(err) ==> main_page_of(
            raw,
        ) == Err::<Option<EntryView>, Error>(err),
        ({
            ||| index_of(raw, Namespace::CategoriesArticle, "mainPage"@) == Ok::<Option<int>, Error>(
                Some(idx),
            )
            ||| index_of(raw, Namespace::CategoriesArticle, "mainPage"@) == Ok::<Option<int>, Error>(
                None,
            ) && u32_at(raw, 64) == idx && idx != 0xffff_ffff
        }) ==> match entry_of(raw, idx) {
            Err(err) => main_page_of(raw) == Err::<Option<EntryView>, Error>(err),
            Ok(entry) => match resolved(raw, entry) {
                Err(err) => main_page_of(raw) == Err::<Option<EntryView>, Error>(err),
                Ok(page) => main_page_of(raw) == Ok::<Option<EntryView>, Error>(Some(page)),
            },
        },
        index_of(raw, Namespace::CategoriesArticle, "mainPage"@) == Ok::<Option<int>, Error>(None)
            && u32_at(raw, 64) == 0xffff_ffff ==> main_page_of(raw) == Ok::<
            Option<EntryView>,
            Error,
        >(None),
{
}

} // verus!
