//! Proved laws of the model: what registration, pagination and the blacklist
//! operations guarantee across calls. Contracts in [`crate::registry`] state
//! what one call does; these lemmas state what follows for sequences of calls.

use crate::model::bl_add;
use crate::model::bl_investors;
use crate::model::bl_member;
use crate::model::bl_remove;
use crate::model::find_offering;
use crate::model::offerings_for;
use crate::model::page_chain;
use crate::model::page_end;
use crate::model::tokens_for;
use crate::types::Offering;
use vstd::prelude::*;

verus! {

/// A lookup misses exactly when no stored offering carries the pair.
pub proof fn lemma_find_offering_none_iff(s: Seq<Offering>, issuer: u64, token: u64)
    ensures
        find_offering(s, issuer, token) is None <==> (forall|k: int|
            #![trigger s[k]]
            0 <= k < s.len() ==> !(s[k].issuer == issuer && s[k].token == token)),
    decreases s.len(),
{
    if s.len() > 0 {
        lemma_find_offering_none_iff(s.drop_first(), issuer, token);
        if find_offering(s, issuer, token) is None {
            assert(find_offering(s.drop_first(), issuer, token) is None);
            assert forall|k: int|
                #![trigger s[k]]
                0 <= k < s.len() implies !(s[k].issuer == issuer && s[k].token == token) by {
                if k > 0 {
                    assert(s.drop_first()[k - 1] == s[k]);
                    assert(!(s.drop_first()[k - 1].issuer == issuer && s.drop_first()[k - 1].token
                        == token));
                }
            }
        }
        if forall|k: int|
            #![trigger s[k]]
            0 <= k < s.len() ==> !(s[k].issuer == issuer && s[k].token == token) {
            assert(!(s[0].issuer == issuer && s[0].token == token));
            assert forall|k: int|
                #![trigger s.drop_first()[k]]
                0 <= k < s.drop_first().len() implies !(s.drop_first()[k].issuer == issuer
                && s.drop_first()[k].token == token) by {
                assert(s.drop_first()[k] == s[k + 1]);
                assert(!(s[k + 1].issuer == issuer && s[k + 1].token == token));
            }
            assert(find_offering(s.drop_first(), issuer, token) is None);
            assert(find_offering(s, issuer, token) is None);
        }
    }
}

/// What a lookup sees after one more registration: every pair already stored
/// is found as before, and the new pair is found as the new record.
pub proof fn lemma_find_offering_push(s: Seq<Offering>, off: Offering, issuer: u64, token: u64)
    ensures
        find_offering(s.push(off), issuer, token) == (if find_offering(s, issuer, token) is Some {
            find_offering(s, issuer, token)
        } else if off.issuer == issuer && off.token == token {
            Some(off)
        } else {
            None::<Offering>
        }),
    decreases s.len(),
{
    if s.len() == 0 {
        assert(s.push(off).drop_first() =~= Seq::<Offering>::empty());
    } else {
        assert(s.push(off)[0] == s[0]);
        assert(s.push(off).drop_first() =~= s.drop_first().push(off));
        lemma_find_offering_push(s.drop_first(), off, issuer, token);
    }
}

/// A fresh registration is immediately observable: registering a pair that
/// was absent and then looking it up returns exactly the stored record, with
/// the same issuer, token and basis points.
pub proof fn lemma_register_then_get(s: Seq<Offering>, off: Offering)
    requires
        find_offering(s, off.issuer, off.token) is None,
    ensures
        find_offering(s.push(off), off.issuer, off.token) == Some(off),
{
    lemma_find_offering_push(s, off, off.issuer, off.token);
}

/// After a successful registration the pair is present, so a second
/// registration of the same pair is refused (`AlreadyExists`) and, per the
/// contract of `register_offering`, leaves the first record untouched.
pub proof fn lemma_second_registration_sees_existing(s: Seq<Offering>, off: Offering)
    requires
        find_offering(s, off.issuer, off.token) is None,
    ensures
        find_offering(s.push(off), off.issuer, off.token) is Some,
{
    lemma_register_then_get(s, off);
}

/// The per-issuer index is append-only: a registration appends to its own
/// issuer's sequence and leaves every other issuer's sequence unchanged.
pub proof fn lemma_registration_appends(s: Seq<Offering>, off: Offering, issuer: u64)
    ensures
        offerings_for(s.push(off), issuer) == (if off.issuer == issuer {
            offerings_for(s, issuer).push(off)
        } else {
            offerings_for(s, issuer)
        }),
    decreases s.len(),
{
    let t = s.push(off);
    if s.len() == 0 {
        assert(t.drop_first() =~= Seq::<Offering>::empty());
        assert(t[0] == off);
        assert(offerings_for(t.drop_first(), issuer) == Seq::<Offering>::empty());
        assert(offerings_for(t, issuer) == (if t[0].issuer == issuer {
            seq![t[0]] + offerings_for(t.drop_first(), issuer)
        } else {
            offerings_for(t.drop_first(), issuer)
        }));
        if off.issuer == issuer {
            assert(seq![off] + Seq::<Offering>::empty() =~= Seq::<Offering>::empty().push(off));
        }
    } else {
        assert(t[0] == s[0]);
        assert(t.drop_first() =~= s.drop_first().push(off));
        lemma_registration_appends(s.drop_first(), off, issuer);
        assert(offerings_for(t, issuer) == (if t[0].issuer == issuer {
            seq![t[0]] + offerings_for(t.drop_first(), issuer)
        } else {
            offerings_for(t.drop_first(), issuer)
        }));
        if s[0].issuer == issuer && off.issuer == issuer {
            assert(seq![s[0]] + offerings_for(s.drop_first(), issuer).push(off) =~= (seq![s[0]]
                + offerings_for(s.drop_first(), issuer)).push(off));
        }
    }
}

/// The token listing is the offering listing seen through its tokens; in
/// particular both have the issuer's offering count as their length.
pub proof fn lemma_tokens_match_offerings(s: Seq<Offering>, issuer: u64)
    ensures
        tokens_for(s, issuer) == offerings_for(s, issuer).map_values(|o: Offering| o.token),
    decreases s.len(),
{
    if s.len() > 0 {
        lemma_tokens_match_offerings(s.drop_first(), issuer);
        if s[0].issuer == issuer {
            assert(seq![s[0].token] + offerings_for(s.drop_first(), issuer).map_values(
                |o: Offering| o.token,
            ) =~= (seq![s[0]] + offerings_for(s.drop_first(), issuer)).map_values(
                |o: Offering| o.token,
            ));
        }
    }
}

/// Chained pages tile the issuer's sequence: from any in-range cursor, the
/// pages that follow cover exactly the remainder, in order and without
/// overlap.
pub proof fn lemma_page_chain_covers(s: Seq<Offering>, start: int, limit: usize)
    requires
        0 <= start <= s.len(),
    ensures
        page_chain(s, start, limit) == s.subrange(start, s.len() as int),
    decreases s.len() - start,
{
    if start < s.len() {
        let end = page_end(s.len() as int, start, limit);
        lemma_page_chain_covers(s, end, limit);
        assert(s.subrange(start, end) + s.subrange(end, s.len() as int) =~= s.subrange(
            start,
            s.len() as int,
        ));
    } else {
        assert(s.subrange(start, s.len() as int) =~= Seq::<Offering>::empty());
    }
}

/// Cursor chaining from 0 visits every offering exactly once, in creation
/// order, and terminates: the final page returns no cursor.
pub proof fn lemma_cursor_chain_visits_all(s: Seq<Offering>, limit: usize)
    ensures
        page_chain(s, 0, limit) == s,
{
    lemma_page_chain_covers(s, 0, limit);
    assert(s.subrange(0, s.len() as int) =~= s);
}

/// Membership after one more blacklist entry: everything already present
/// stays present, and the new entry's pair becomes present.
pub proof fn lemma_bl_member_push(bl: Seq<(u64, u64)>, e: (u64, u64), token: u64, investor: u64)
    ensures
        bl_member(bl.push(e), token, investor) == (bl_member(bl, token, investor) || e == (
        token,
        investor,
        )),
    decreases bl.len(),
{
    let t = bl.push(e);
    if bl.len() == 0 {
        assert(t.drop_first() =~= Seq::<(u64, u64)>::empty());
        assert(t[0] == e);
        assert(!bl_member(t.drop_first(), token, investor));
        assert(bl_member(t, token, investor) == (t[0] == (token, investor) || bl_member(
            t.drop_first(),
            token,
            investor,
        )));
    } else {
        assert(t[0] == bl[0]);
        assert(t.drop_first() =~= bl.drop_first().push(e));
        lemma_bl_member_push(bl.drop_first(), e, token, investor);
    }
}

/// The listed investors after one more entry: the entry's own token gains the
/// investor at the end; every other token's listing is untouched.
pub proof fn lemma_bl_investors_push(bl: Seq<(u64, u64)>, e: (u64, u64), token: u64)
    ensures
        bl_investors(bl.push(e), token) == (if e.0 == token {
            bl_investors(bl, token).push(e.1)
        } else {
            bl_investors(bl, token)
        }),
    decreases bl.len(),
{
    let t = bl.push(e);
    if bl.len() == 0 {
        assert(t.drop_first() =~= Seq::<(u64, u64)>::empty());
        assert(t[0] == e);
        assert(bl_investors(t.drop_first(), token) == Seq::<u64>::empty());
        assert(bl_investors(t, token) == (if t[0].0 == token {
            seq![t[0].1] + bl_investors(t.drop_first(), token)
        } else {
            bl_investors(t.drop_first(), token)
        }));
        if e.0 == token {
            assert(seq![e.1] + Seq::<u64>::empty() =~= Seq::<u64>::empty().push(e.1));
        }
    } else {
        assert(t[0] == bl[0]);
        assert(t.drop_first() =~= bl.drop_first().push(e));
        lemma_bl_investors_push(bl.drop_first(), e, token);
        assert(bl_investors(t, token) == (if t[0].0 == token {
            seq![t[0].1] + bl_investors(t.drop_first(), token)
        } else {
            bl_investors(t.drop_first(), token)
        }));
        if bl[0].0 == token && e.0 == token {
            assert(seq![bl[0].1] + bl_investors(bl.drop_first(), token).push(e.1) =~= (seq![
                bl[0].1,
            ] + bl_investors(bl.drop_first(), token)).push(e.1));
        }
    }
}

/// Adding an investor twice is the same as adding once.
pub proof fn lemma_blacklist_add_idempotent(bl: Seq<(u64, u64)>, token: u64, investor: u64)
    ensures
        bl_add(bl_add(bl, token, investor), token, investor) == bl_add(bl, token, investor),
{
    if !bl_member(bl, token, investor) {
        lemma_bl_member_push(bl, (token, investor), token, investor);
    }
}

/// Adding an absent investor grows that token's listing by exactly one entry
/// (so a fresh investor added twice leaves a single entry).
pub proof fn lemma_add_new_grows_by_one(bl: Seq<(u64, u64)>, token: u64, investor: u64)
    requires
        !bl_member(bl, token, investor),
    ensures
        bl_investors(bl_add(bl, token, investor), token).len() == bl_investors(bl, token).len()
            + 1,
        bl_member(bl_add(bl, token, investor), token, investor),
    {
    lemma_bl_investors_push(bl, (token, investor), token);
    lemma_bl_member_push(bl, (token, investor), token, investor);
}

/// Blacklists are isolated per token: adding an investor under one token
/// changes neither membership nor the listing of any other token.
pub proof fn lemma_add_scoped(
    bl: Seq<(u64, u64)>,
    token: u64,
    investor: u64,
    other_token: u64,
    other_investor: u64,
)
    requires
        other_token != token,
    ensures
        bl_member(bl_add(bl, token, investor), other_token, other_investor) == bl_member(
            bl,
            other_token,
            other_investor,
        ),
        bl_investors(bl_add(bl, token, investor), other_token) == bl_investors(bl, other_token),
{
    if !bl_member(bl, token, investor) {
        lemma_bl_member_push(bl, (token, investor), other_token, other_investor);
        lemma_bl_investors_push(bl, (token, investor), other_token);
    }
}

/// Membership after a removal: exactly the removed pair is gone; every other
/// pair, under any token, keeps its membership.
pub proof fn lemma_remove_membership(
    bl: Seq<(u64, u64)>,
    token: u64,
    investor: u64,
    t2: u64,
    i2: u64,
)
    ensures
        bl_member(bl_remove(bl, token, investor), t2, i2) == (bl_member(bl, t2, i2) && !(t2
            == token && i2 == investor)),
    decreases bl.len(),
{
    if bl.len() > 0 {
        lemma_remove_membership(bl.drop_first(), token, investor, t2, i2);
        if bl[0] != (token, investor) {
            assert((seq![bl[0]] + bl_remove(bl.drop_first(), token, investor)).drop_first()
                =~= bl_remove(bl.drop_first(), token, investor));
        }
    }
}

/// Removing an investor that is not present changes nothing.
pub proof fn lemma_remove_absent_noop(bl: Seq<(u64, u64)>, token: u64, investor: u64)
    requires
        !bl_member(bl, token, investor),
    ensures
        bl_remove(bl, token, investor) == bl,
    decreases bl.len(),
{
    if bl.len() > 0 {
        lemma_remove_absent_noop(bl.drop_first(), token, investor);
        assert(seq![bl[0]] + bl.drop_first() =~= bl);
    }
}

/// Blacklists are isolated per token: removing an investor under one token
/// leaves every other token's listing unchanged.
pub proof fn lemma_remove_scoped(bl: Seq<(u64, u64)>, token: u64, investor: u64, other_token: u64)
    requires
        other_token != token,
    ensures
        bl_investors(bl_remove(bl, token, investor), other_token) == bl_investors(bl, other_token),
    decreases bl.len(),
{
    if bl.len() > 0 {
        lemma_remove_scoped(bl.drop_first(), token, investor, other_token);
        if bl[0] != (token, investor) {
            assert((seq![bl[0]] + bl_remove(bl.drop_first(), token, investor)).drop_first()
                =~= bl_remove(bl.drop_first(), token, investor));
        }
    }
}

/// The membership query and the listing agree: an investor is blacklisted for
/// a token exactly when the token's listing contains it.
pub proof fn lemma_member_iff_listed(bl: Seq<(u64, u64)>, token: u64, investor: u64)
    ensures
        bl_member(bl, token, investor) <==> bl_investors(bl, token).contains(investor),
    decreases bl.len(),
{
    if bl.len() == 0 {
    } else {
        lemma_member_iff_listed(bl.drop_first(), token, investor);
        let rest = bl_investors(bl.drop_first(), token);
        if bl[0].0 == token {
            let inv = bl_investors(bl, token);
            assert(inv == seq![bl[0].1] + rest);
            if bl_member(bl, token, investor) {
                if bl[0] == (token, investor) {
                    assert(inv[0] == investor);
                } else {
                    let k = choose|k: int| 0 <= k < rest.len() && rest[k] == investor;
                    assert(inv[k + 1] == investor);
                }
                assert(inv.contains(investor));
            }
            if inv.contains(investor) {
                let k = choose|k: int| 0 <= k < inv.len() && inv[k] == investor;
                if k == 0 {
                    assert(bl[0] == (token, investor));
                } else {
                    assert(rest[k - 1] == investor);
                    assert(rest.contains(investor));
                }
                assert(bl_member(bl, token, investor));
            }
        }
    }
}

} // verus!
