//! The mathematical model of the registry: what the offering sequence and the
//! blacklist entry sequence mean, and how pagination reads them.
//!
//! Offerings are modeled as the sequence of records in creation order; a
//! blacklist is modeled as the sequence of (token, investor) entries in
//! insertion order. All public contracts are stated over these functions.

use crate::types::Offering;
use vstd::prelude::*;

verus! {

/// Upper bound on a page size; a `limit` of 0 or above this bound asks for
/// the maximum.
pub const MAX_PAGE_LIMIT: usize = 20;

/// The first offering for (issuer, token) in `s`, scanning in creation order.
pub open spec fn find_offering(s: Seq<Offering>, issuer: u64, token: u64) -> Option<Offering>
    decreases s.len(),
{
    if s.len() == 0 {
        None
    } else if s[0].issuer == issuer && s[0].token == token {
        Some(s[0])
    } else {
        find_offering(s.drop_first(), issuer, token)
    }
}

/// The offerings of `issuer`, in creation order.
pub open spec fn offerings_for(s: Seq<Offering>, issuer: u64) -> Seq<Offering>
    decreases s.len(),
{
    if s.len() == 0 {
        Seq::empty()
    } else if s[0].issuer == issuer {
        seq![s[0]] + offerings_for(s.drop_first(), issuer)
    } else {
        offerings_for(s.drop_first(), issuer)
    }
}

/// The tokens of `issuer`'s offerings, in creation order.
pub open spec fn tokens_for(s: Seq<Offering>, issuer: u64) -> Seq<u64>
    decreases s.len(),
{
    if s.len() == 0 {
        Seq::empty()
    } else if s[0].issuer == issuer {
        seq![s[0].token] + tokens_for(s.drop_first(), issuer)
    } else {
        tokens_for(s.drop_first(), issuer)
    }
}

/// No two entries of `s` share an (issuer, token) pair.
pub open spec fn pairs_distinct(s: Seq<Offering>) -> bool {
    forall|i: int, j: int|
        #![trigger s[i], s[j]]
        0 <= i < j < s.len() ==> !(s[i].issuer == s[j].issuer && s[i].token == s[j].token)
}

/// Whether `investor` is blacklisted for `token`.
pub open spec fn bl_member(bl: Seq<(u64, u64)>, token: u64, investor: u64) -> bool
    decreases bl.len(),
{
    if bl.len() == 0 {
        false
    } else {
        bl[0] == (token, investor) || bl_member(bl.drop_first(), token, investor)
    }
}

/// The investors blacklisted for `token`, in insertion order.
pub open spec fn bl_investors(bl: Seq<(u64, u64)>, token: u64) -> Seq<u64>
    decreases bl.len(),
{
    if bl.len() == 0 {
        Seq::empty()
    } else if bl[0].0 == token {
        seq![bl[0].1] + bl_investors(bl.drop_first(), token)
    } else {
        bl_investors(bl.drop_first(), token)
    }
}

/// The blacklist after adding `investor` for `token`: unchanged when already
/// present, appended otherwise.
pub open spec fn bl_add(bl: Seq<(u64, u64)>, token: u64, investor: u64) -> Seq<(u64, u64)> {
    if bl_member(bl, token, investor) {
        bl
    } else {
        bl.push((token, investor))
    }
}

/// The blacklist after removing `investor` for `token`: every matching entry
/// dropped, all others kept in order.
pub open spec fn bl_remove(bl: Seq<(u64, u64)>, token: u64, investor: u64) -> Seq<(u64, u64)>
    decreases bl.len(),
{
    if bl.len() == 0 {
        Seq::empty()
    } else if bl[0] == (token, investor) {
        bl_remove(bl.drop_first(), token, investor)
    } else {
        seq![bl[0]] + bl_remove(bl.drop_first(), token, investor)
    }
}

/// The page size actually used for a requested `limit`: 0 and anything above
/// `MAX_PAGE_LIMIT` both mean the maximum.
pub open spec fn effective_limit(limit: usize) -> int {
    if limit == 0 || limit > MAX_PAGE_LIMIT {
        MAX_PAGE_LIMIT as int
    } else {
        limit as int
    }
}

/// End (exclusive) of the page starting at `start` over `n` items.
pub open spec fn page_end(n: int, start: int, limit: usize) -> int {
    if start + effective_limit(limit) <= n {
        start + effective_limit(limit)
    } else {
        n
    }
}

/// Everything pagination yields from `start` onwards when each returned
/// cursor is fed back as the next `start`.
pub open spec fn page_chain(s: Seq<Offering>, start: int, limit: usize) -> Seq<Offering>
    decreases s.len() - start,
{
    if 0 <= start < s.len() {
        s.subrange(start, page_end(s.len() as int, start, limit)) + page_chain(
            s,
            page_end(s.len() as int, start, limit),
            limit,
        )
    } else {
        Seq::empty()
    }
}

} // verus!
