//! The registry itself: durable state (offerings, blacklist entries) plus the
//! log of notifications emitted so far, with one method per public operation.

use crate::model;
use crate::types::Error;
use crate::types::Event;
use crate::types::Offering;
use crate::types::OfferingStatus;
use vstd::prelude::*;

verus! {

/// Spec-level contents of a registry: offerings in creation order, blacklist
/// entries in insertion order, and the emitted notifications in order.
pub ghost struct RegistryView {
    pub offerings: Seq<Offering>,
    pub blacklist: Seq<(u64, u64)>,
    pub events: Seq<Event>,
}

/// Revenue-share registry: offering records, per-token blacklists and the
/// notification log. Each public operation is one atomic transaction; a
/// rejected operation leaves the state unchanged.
pub struct RevoraRevenueShare {
    offerings: Vec<Offering>,
    blacklist: Vec<(u64, u64)>,
    events: Vec<Event>,
}

impl View for RevoraRevenueShare {
    type V = RegistryView;

    closed spec fn view(&self) -> RegistryView {
        RegistryView {
            offerings: self.offerings@,
            blacklist: self.blacklist@,
            events: self.events@,
        }
    }
}

impl RevoraRevenueShare {
    /// Well-formedness: at most one offering per (issuer, token) pair.
    pub open spec fn wf(self) -> bool {
        model::pairs_distinct(self@.offerings)
    }

    /// A fresh registry: no offerings, empty blacklists, no notifications.
    pub fn new() -> (r: Self)
        ensures
            r@.offerings == Seq::<Offering>::empty(),
            r@.blacklist == Seq::<(u64, u64)>::empty(),
            r@.events == Seq::<Event>::empty(),
            r.wf(),
    {
        RevoraRevenueShare { offerings: Vec::new(), blacklist: Vec::new(), events: Vec::new() }
    }

    /// Rebuild a registry from persisted contents: the offerings in creation
    /// order and the blacklist entries in insertion order. The notification
    /// log starts empty — emitted notifications belong to the channel, not to
    /// durable state.
    pub fn from_parts(offerings: Vec<Offering>, blacklist: Vec<(u64, u64)>) -> (r: Self)
        ensures
            r@.offerings == offerings@,
            r@.blacklist == blacklist@,
            r@.events == Seq::<Event>::empty(),
    {
        RevoraRevenueShare { offerings, blacklist, events: Vec::new() }
    }

    /// The stored offerings, in creation order.
    pub fn stored_offerings(&self) -> (r: &Vec<Offering>)
        ensures
            r@ == self@.offerings,
    {
        &self.offerings
    }

    /// The stored blacklist entries, as (token, investor) pairs in insertion
    /// order.
    pub fn stored_blacklist(&self) -> (r: &Vec<(u64, u64)>)
        ensures
            r@ == self@.blacklist,
    {
        &self.blacklist
    }

    /// Look up the offering for (issuer, token). Absence is `None`, never an
    /// error.
    pub fn get_offering(&self, issuer: u64, token: u64) -> (r: Option<Offering>)
        ensures
            r == model::find_offering(self@.offerings, issuer, token),
    {
        let ghost s = self@.offerings;
        proof {
            assert(s.skip(0) =~= s);
        }
        let mut i: usize = 0;
        while i < self.offerings.len()
            invariant
                0 <= i <= s.len(),
                s == self@.offerings,
                model::find_offering(s, issuer, token) == model::find_offering(
                    s.skip(i as int),
                    issuer,
                    token,
                ),
            decreases s.len() - i,
        {
            let o = self.offerings[i];
            if o.issuer == issuer && o.token == token {
                return Some(o);
            }
            proof {
                assert(s.skip(i as int).drop_first() =~= s.skip(i as int + 1));
            }
            i = i + 1;
        }
        None
    }

    /// How many offerings `issuer` has; 0 for an unknown issuer, never an
    /// error.
    pub open spec fn spec_count(self, issuer: u64) -> int {
        model::offerings_for(self@.offerings, issuer).len() as int
    }

    /// The page that `get_offerings_page` returns: empty when `start` is past
    /// the end, else the issuer's offerings in `[start, page_end)`.
    pub open spec fn spec_page(self, issuer: u64, start: usize, limit: usize) -> Seq<Offering> {
        if start as int >= self.spec_count(issuer) {
            Seq::empty()
        } else {
            model::offerings_for(self@.offerings, issuer).subrange(
                start as int,
                model::page_end(self.spec_count(issuer), start as int, limit),
            )
        }
    }

    /// The cursor that `get_offerings_page` returns: the next unread index,
    /// or `None` when the page reaches the end (or `start` was past it).
    pub open spec fn spec_cursor(self, issuer: u64, start: usize, limit: usize) -> Option<usize> {
        if start as int >= self.spec_count(issuer) {
            None
        } else if model::page_end(self.spec_count(issuer), start as int, limit) < self.spec_count(
            issuer,
        ) {
            Some(model::page_end(self.spec_count(issuer), start as int, limit) as usize)
        } else {
            None
        }
    }

    /// All of `issuer`'s offerings, in creation order.
    fn offerings_of(&self, issuer: u64) -> (r: Vec<Offering>)
        ensures
            r@ == model::offerings_for(self@.offerings, issuer),
    {
        let ghost s = self@.offerings;
        let mut out: Vec<Offering> = Vec::new();
        proof {
            assert(s.skip(0) =~= s);
            assert(out@ + model::offerings_for(s, issuer) =~= model::offerings_for(s, issuer));
        }
        let mut i: usize = 0;
        while i < self.offerings.len()
            invariant
                0 <= i <= s.len(),
                s == self@.offerings,
                model::offerings_for(s, issuer) == out@ + model::offerings_for(
                    s.skip(i as int),
                    issuer,
                ),
            decreases s.len() - i,
        {
            let o = self.offerings[i];
            let ghost prev = out@;
            proof {
                assert(s.skip(i as int).drop_first() =~= s.skip(i as int + 1));
            }
            if o.issuer == issuer {
                out.push(o);
                proof {
                    assert(model::offerings_for(s.skip(i as int), issuer) == seq![o]
                        + model::offerings_for(s.skip(i as int + 1), issuer));
                    assert(out@ + model::offerings_for(s.skip(i as int + 1), issuer) =~= prev + (
                    seq![o] + model::offerings_for(s.skip(i as int + 1), issuer)));
                }
            }
            i = i + 1;
        }
        proof {
            assert(out@ + model::offerings_for(s.skip(s.len() as int), issuer) =~= out@);
        }
        out
    }

    /// List the tokens of all of `issuer`'s offerings, in creation order;
    /// empty for an issuer with none.
    pub fn list_offerings(&self, issuer: u64) -> (r: Vec<u64>)
        ensures
            r@ == model::tokens_for(self@.offerings, issuer),
    {
        let ghost s = self@.offerings;
        let mut out: Vec<u64> = Vec::new();
        proof {
            assert(s.skip(0) =~= s);
            assert(out@ + model::tokens_for(s, issuer) =~= model::tokens_for(s, issuer));
        }
        let mut i: usize = 0;
        while i < self.offerings.len()
            invariant
                0 <= i <= s.len(),
                s == self@.offerings,
                model::tokens_for(s, issuer) == out@ + model::tokens_for(s.skip(i as int), issuer),
            decreases s.len() - i,
        {
            let o = self.offerings[i];
            let ghost prev = out@;
            proof {
                assert(s.skip(i as int).drop_first() =~= s.skip(i as int + 1));
            }
            if o.issuer == issuer {
                out.push(o.token);
                proof {
                    assert(model::tokens_for(s.skip(i as int), issuer) == seq![o.token]
                        + model::tokens_for(s.skip(i as int + 1), issuer));
                    assert(out@ + model::tokens_for(s.skip(i as int + 1), issuer) =~= prev + (
                    seq![o.token] + model::tokens_for(s.skip(i as int + 1), issuer)));
                }
            }
            i = i + 1;
        }
        proof {
            assert(out@ + model::tokens_for(s.skip(s.len() as int), issuer) =~= out@);
        }
        out
    }

    /// How many offerings `issuer` has registered; 0 for an unknown issuer,
    /// never an error.
    pub fn get_offering_count(&self, issuer: u64) -> (r: usize)
        ensures
            r == self.spec_count(issuer),
    {
        self.offerings_of(issuer).len()
    }

    /// One page of `issuer`'s offerings, in creation order.
    ///
    /// `limit` is clamped: 0 and anything above [`MAX_PAGE_LIMIT`] both mean
    /// `MAX_PAGE_LIMIT`. A `start` at or past the end yields an empty page and
    /// no cursor, never an error; otherwise the page covers `[start, end)`
    /// with `end == min(start + limit, count)` and the cursor is `Some(end)`
    /// exactly when offerings remain past `end`.
    ///
    /// [`MAX_PAGE_LIMIT`]: model::MAX_PAGE_LIMIT
    pub fn get_offerings_page(&self, issuer: u64, start: usize, limit: usize) -> (r: (
        Vec<Offering>,
        Option<usize>,
    ))
        ensures
            r.0@ == self.spec_page(issuer, start, limit),
            r.1 == self.spec_cursor(issuer, start, limit),
    {
        let all = self.offerings_of(issuer);
        let n = all.len();
        if start >= n {
            return (Vec::new(), None);
        }
        let effective_limit = if limit == 0 || limit > model::MAX_PAGE_LIMIT {
            model::MAX_PAGE_LIMIT
        } else {
            limit
        };
        let remaining = n - start;
        let took = if effective_limit < remaining {
            effective_limit
        } else {
            remaining
        };
        let end = start + took;
        let mut page: Vec<Offering> = Vec::new();
        let mut j: usize = start;
        while j < end
            invariant
                start <= j <= end <= n,
                n == all@.len(),
                end == model::page_end(n as int, start as int, limit),
                page@ == all@.subrange(start as int, j as int),
            decreases end - j,
        {
            page.push(all[j]);
            proof {
                assert(page@ =~= all@.subrange(start as int, j as int + 1));
            }
            j = j + 1;
        }
        let cursor = if end < n {
            Some(end)
        } else {
            None
        };
        (page, cursor)
    }

    /// Register a new revenue-share offering for (issuer, token).
    ///
    /// `issuer_authorized` is the authorization collaborator's verdict for
    /// `issuer`. The offering is stored with status `Active`, appended to the
    /// issuer's index, and one registration notification is emitted. A
    /// rejection (`Unauthorized`, `InvalidParameter` for bps above 10000,
    /// `AlreadyExists` for a duplicate pair — checked in that order) leaves
    /// the registry exactly as it was.
    pub fn register_offering(
        &mut self,
        issuer: u64,
        token: u64,
        revenue_share_bps: u32,
        issuer_authorized: bool,
    ) -> (r: Result<(), Error>)
        ensures
            old(self).wf() ==> final(self).wf(),
            !issuer_authorized ==> ({
                &&& r == Err::<(), Error>(Error::Unauthorized)
                &&& *final(self) == *old(self)
            }),
            issuer_authorized && revenue_share_bps > 10000 ==> ({
                &&& r == Err::<(), Error>(Error::InvalidParameter)
                &&& *final(self) == *old(self)
            }),
            issuer_authorized && revenue_share_bps <= 10000 && model::find_offering(
                old(self)@.offerings,
                issuer,
                token,
            ) is Some ==> ({
                &&& r == Err::<(), Error>(Error::AlreadyExists)
                &&& *final(self) == *old(self)
            }),
            issuer_authorized && revenue_share_bps <= 10000 && model::find_offering(
                old(self)@.offerings,
                issuer,
                token,
            ) is None ==> ({
                &&& r == Ok::<(), Error>(())
                &&& final(self)@.offerings == old(self)@.offerings.push(
                    (Offering { issuer, token, revenue_share_bps, status: OfferingStatus::Active }),
                )
                &&& final(self)@.blacklist == old(self)@.blacklist
                &&& final(self)@.events == old(self)@.events.push(
                    (Event::OfferingRegistered { issuer, token, revenue_share_bps }),
                )
            }),
    {
        if !issuer_authorized {
            return Err(Error::Unauthorized);
        }
        if revenue_share_bps > 10000 {
            return Err(Error::InvalidParameter);
        }
        if self.get_offering(issuer, token).is_some() {
            return Err(Error::AlreadyExists);
        }
        let offering = Offering { issuer, token, revenue_share_bps, status: OfferingStatus::Active };
        proof {
            crate::laws::lemma_find_offering_none_iff(self@.offerings, issuer, token);
        }
        self.offerings.push(offering);
        self.events.push(Event::OfferingRegistered { issuer, token, revenue_share_bps });
        proof {
            if old(self).wf() {
                let s0 = old(self)@.offerings;
                let s1 = self@.offerings;
                assert forall|i: int, j: int| 0 <= i < j < s1.len() implies !(s1[i].issuer
                    == s1[j].issuer && s1[i].token == s1[j].token) by {
                    if j < s0.len() {
                        assert(s1[i] == s0[i] && s1[j] == s0[j]);
                    } else {
                        assert(s1[j] == offering);
                        assert(s1[i] == s0[i]);
                    }
                };
            }
        }
        Ok(())
    }

    /// Emit the revenue report for (issuer, token): exactly one notification
    /// carrying the amount, the period identifier and the snapshot of the
    /// token's blacklist taken at call time. Persisted state is untouched.
    ///
    /// `issuer_authorized` is the authorization collaborator's verdict for
    /// `issuer`; on failure nothing is emitted.
    pub fn report_revenue(
        &mut self,
        issuer: u64,
        token: u64,
        amount: i128,
        period_id: u64,
        issuer_authorized: bool,
    ) -> (r: Result<(), Error>)
        ensures
            !issuer_authorized ==> ({
                &&& r == Err::<(), Error>(Error::Unauthorized)
                &&& *final(self) == *old(self)
            }),
            issuer_authorized ==> ({
                &&& r == Ok::<(), Error>(())
                &&& final(self)@.offerings == old(self)@.offerings
                &&& final(self)@.blacklist == old(self)@.blacklist
                &&& final(self)@.events.len() == old(self)@.events.len() + 1
                &&& final(self)@.events.subrange(0, old(self)@.events.len() as int) == old(
                    self,
                )@.events
                &&& (final(self)@.events.last() matches Event::RevenueReported {
                    issuer: e_issuer,
                    token: e_token,
                    amount: e_amount,
                    period_id: e_period,
                    blacklist: e_blacklist,
                } && e_issuer == issuer && e_token == token && e_amount == amount && e_period
                    == period_id && e_blacklist@ == model::bl_investors(
                    old(self)@.blacklist,
                    token,
                ))
            }),
    {
        if !issuer_authorized {
            return Err(Error::Unauthorized);
        }
        let snapshot = self.get_blacklist(token);
        self.events.push(
            Event::RevenueReported { issuer, token, amount, period_id, blacklist: snapshot },
        );
        proof {
            assert(self@.events.subrange(0, old(self)@.events.len() as int) =~= old(self)@.events);
        }
        Ok(())
    }

    /// Add `investor` to `token`'s blacklist. Idempotent: adding a present
    /// investor changes no membership. One add notification is emitted either
    /// way. `caller_authorized` is the authorization collaborator's verdict
    /// for `caller`; on failure nothing changes.
    pub fn blacklist_add(
        &mut self,
        caller: u64,
        token: u64,
        investor: u64,
        caller_authorized: bool,
    ) -> (r: Result<(), Error>)
        ensures
            !caller_authorized ==> ({
                &&& r == Err::<(), Error>(Error::Unauthorized)
                &&& *final(self) == *old(self)
            }),
            caller_authorized ==> ({
                &&& r == Ok::<(), Error>(())
                &&& final(self)@.blacklist == model::bl_add(old(self)@.blacklist, token, investor)
                &&& final(self)@.offerings == old(self)@.offerings
                &&& final(self)@.events == old(self)@.events.push(
                    (Event::BlacklistAdded { token, caller, investor }),
                )
            }),
    {
        if !caller_authorized {
            return Err(Error::Unauthorized);
        }
        if !self.is_blacklisted(token, investor) {
            self.blacklist.push((token, investor));
        }
        self.events.push(Event::BlacklistAdded { token, caller, investor });
        Ok(())
    }

    /// Remove `investor` from `token`'s blacklist. Idempotent: removing an
    /// absent investor is a no-op, not an error. One remove notification is
    /// emitted either way. `caller_authorized` is the authorization
    /// collaborator's verdict for `caller`; on failure nothing changes.
    pub fn blacklist_remove(
        &mut self,
        caller: u64,
        token: u64,
        investor: u64,
        caller_authorized: bool,
    ) -> (r: Result<(), Error>)
        ensures
            !caller_authorized ==> ({
                &&& r == Err::<(), Error>(Error::Unauthorized)
                &&& *final(self) == *old(self)
            }),
            caller_authorized ==> ({
                &&& r == Ok::<(), Error>(())
                &&& final(self)@.blacklist == model::bl_remove(
                    old(self)@.blacklist,
                    token,
                    investor,
                )
                &&& final(self)@.offerings == old(self)@.offerings
                &&& final(self)@.events == old(self)@.events.push(
                    (Event::BlacklistRemoved { token, caller, investor }),
                )
            }),
    {
        if !caller_authorized {
            return Err(Error::Unauthorized);
        }
        let ghost b = self@.blacklist;
        let mut kept: Vec<(u64, u64)> = Vec::new();
        proof {
            assert(b.skip(0) =~= b);
            assert(kept@ + model::bl_remove(b, token, investor) =~= model::bl_remove(
                b,
                token,
                investor,
            ));
        }
        let mut i: usize = 0;
        while i < self.blacklist.len()
            invariant
                0 <= i <= b.len(),
                b == self@.blacklist,
                model::bl_remove(b, token, investor) == kept@ + model::bl_remove(
                    b.skip(i as int),
                    token,
                    investor,
                ),
            decreases b.len() - i,
        {
            let e = self.blacklist[i];
            let ghost prev = kept@;
            proof {
                assert(b.skip(i as int).drop_first() =~= b.skip(i as int + 1));
            }
            if !(e.0 == token && e.1 == investor) {
                kept.push(e);
                proof {
                    assert(model::bl_remove(b.skip(i as int), token, investor) == seq![e]
                        + model::bl_remove(b.skip(i as int + 1), token, investor));
                    assert(kept@ + model::bl_remove(b.skip(i as int + 1), token, investor) =~= prev
                        + (seq![e] + model::bl_remove(b.skip(i as int + 1), token, investor)));
                }
            }
            i = i + 1;
        }
        proof {
            assert(kept@ + model::bl_remove(b.skip(b.len() as int), token, investor) =~= kept@);
        }
        self.blacklist = kept;
        self.events.push(Event::BlacklistRemoved { token, caller, investor });
        Ok(())
    }

    /// Whether `investor` is blacklisted for `token`. Pure query, no
    /// authorization; `false` for an unknown token or investor.
    pub fn is_blacklisted(&self, token: u64, investor: u64) -> (r: bool)
        ensures
            r == model::bl_member(self@.blacklist, token, investor),
    {
        let ghost b = self@.blacklist;
        proof {
            assert(b.skip(0) =~= b);
        }
        let mut i: usize = 0;
        while i < self.blacklist.len()
            invariant
                0 <= i <= b.len(),
                b == self@.blacklist,
                model::bl_member(b, token, investor) == model::bl_member(
                    b.skip(i as int),
                    token,
                    investor,
                ),
            decreases b.len() - i,
        {
            let e = self.blacklist[i];
            if e.0 == token && e.1 == investor {
                return true;
            }
            proof {
                assert(b.skip(i as int).drop_first() =~= b.skip(i as int + 1));
            }
            i = i + 1;
        }
        false
    }

    /// All investors currently blacklisted for `token`, in insertion order;
    /// empty when none were ever recorded.
    pub fn get_blacklist(&self, token: u64) -> (r: Vec<u64>)
        ensures
            r@ == model::bl_investors(self@.blacklist, token),
    {
        let ghost b = self@.blacklist;
        let mut out: Vec<u64> = Vec::new();
        proof {
            assert(b.skip(0) =~= b);
            assert(out@ + model::bl_investors(b, token) =~= model::bl_investors(b, token));
        }
        let mut i: usize = 0;
        while i < self.blacklist.len()
            invariant
                0 <= i <= b.len(),
                b == self@.blacklist,
                model::bl_investors(b, token) == out@ + model::bl_investors(
                    b.skip(i as int),
                    token,
                ),
            decreases b.len() - i,
        {
            let e = self.blacklist[i];
            let ghost prev = out@;
            proof {
                assert(b.skip(i as int).drop_first() =~= b.skip(i as int + 1));
            }
            if e.0 == token {
                out.push(e.1);
                proof {
                    assert(model::bl_investors(b.skip(i as int), token) == seq![e.1]
                        + model::bl_investors(b.skip(i as int + 1), token));
                    assert(out@ + model::bl_investors(b.skip(i as int + 1), token) =~= prev + (seq![
                        e.1,
                    ] + model::bl_investors(b.skip(i as int + 1), token)));
                }
            }
            i = i + 1;
        }
        proof {
            assert(out@ + model::bl_investors(b.skip(b.len() as int), token) =~= out@);
        }
        out
    }

    /// The notifications emitted so far, oldest first.
    pub fn events(&self) -> (r: &Vec<Event>)
        ensures
            r@ == self@.events,
    {
        &self.events
    }
}

} // verus!
