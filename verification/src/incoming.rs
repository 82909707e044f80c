//! The inbound authorization gate.
//!
//! An inbound relay packet is allowed through only if its sender is the one
//! configured origin, its destination channel is on the channel allow-list,
//! and its asset class passes the class check. The channel list is
//! fail-closed (empty list admits nothing); the class list is fail-open
//! (empty list admits every class). Checks run in that order and the first
//! failure decides the error.

use vstd::prelude::*;

use crate::store::contains_key;
use crate::store::cursor_view;
use crate::store::effective_limit;
use crate::store::has_key;
use crate::store::insert_sorted;
use crate::store::page_keys;
use crate::store::page_of;
use crate::store::sorted_strict;
use crate::store::views_of;
use crate::order::str_eq;

verus! {

/// Why an inbound relay packet was refused.
#[derive(Debug, Clone, PartialEq, Eq)]
pub enum IncomingProxyError {
    /// The destination channel is not on the allow-list.
    UnauthorizedChannel(String),
    /// The class allow-list is non-empty and does not hold this class id.
    UnauthorizedClassId(String),
    /// The sender is not the configured origin contract.
    UnauthorizedOrigin(String),
}

/// The allow-lists backing the authorization gate: one trusted origin
/// address, the permitted channel ids, and the permitted class ids.
pub struct AllowListStore {
    pub origin: Option<String>,
    pub channels: Vec<String>,
    pub class_ids: Vec<String>,
}

proof fn lemma_push_contains(s: Seq<Seq<char>>, e: Seq<char>, x: Seq<char>)
    ensures
        s.push(e).contains(x) <==> s.contains(x) || x == e,
{
    if s.push(e).contains(x) {
        let k = choose|k: int| 0 <= k < s.push(e).len() && s.push(e)[k] == x;
        if k < s.len() {
            assert(s[k] == x);
            assert(s.contains(x));
        }
    }
    if s.contains(x) {
        let k = choose|k: int| 0 <= k < s.len() && s[k] == x;
        assert(s.push(e)[k] == x);
        assert(s.push(e).contains(x));
    }
    if x == e {
        assert(s.push(e)[s.len() as int] == x);
        assert(s.push(e).contains(x));
    }
}

/// Add every key of `keys` to the sorted set `v`.
fn add_all(v: &mut Vec<String>, keys: Vec<String>)
    requires
        sorted_strict(views_of(old(v)@)),
    ensures
        sorted_strict(views_of(final(v)@)),
        forall|x: Seq<char>|
            #[trigger] has_key(final(v)@, x) <==> has_key(old(v)@, x) || has_key(keys@, x),
{
    let ghost gk = views_of(keys@);
    proof {
        assert(gk.take(0) =~= Seq::<Seq<char>>::empty());
    }
    let mut i: usize = 0;
    while i < keys.len()
        invariant
            i <= keys@.len(),
            gk == views_of(keys@),
            sorted_strict(views_of(v@)),
            forall|x: Seq<char>|
                #[trigger] has_key(v@, x) <==> has_key(old(v)@, x) || gk.take(i as int).contains(
                    x,
                ),
        decreases keys@.len() - i,
    {
        let ghost pre = v@;
        insert_sorted(v, keys[i].clone());
        proof {
            assert(gk.take(i + 1) =~= gk.take(i as int).push(gk[i as int]));
            assert forall|x: Seq<char>|
                #[trigger] has_key(v@, x) <==> (has_key(old(v)@, x) || gk.take(i + 1).contains(
                    x,
                )) by {
                lemma_push_contains(gk.take(i as int), gk[i as int], x);
                assert(has_key(v@, x) <==> has_key(pre, x) || x == keys@[i as int]@);
            }
        }
        i = i + 1;
    }
    proof {
        assert(gk.take(keys@.len() as int) =~= gk);
    }
}

impl AllowListStore {
    /// Both allow-lists are sorted in ascending lexical order, without
    /// duplicates.
    pub open spec fn wf(self) -> bool {
        sorted_strict(views_of(self.channels@)) && sorted_strict(views_of(self.class_ids@))
    }

    /// The origin check passes for this sender.
    pub open spec fn origin_ok(self, sender: Seq<char>) -> bool {
        match self.origin {
            Option::Some(o) => o@ == sender,
            Option::None => false,
        }
    }

    /// The channel check passes: the channel is on the allow-list.
    pub open spec fn channel_ok(self, channel_id: Seq<char>) -> bool {
        has_key(self.channels@, channel_id)
    }

    /// The class check passes: the allow-list is empty, or holds the class.
    pub open spec fn class_ok(self, class_id: Seq<char>) -> bool {
        self.class_ids@.len() == 0 || has_key(self.class_ids@, class_id)
    }

    /// A fresh gate: no origin, nothing allow-listed.
    pub fn new() -> (s: Self)
        ensures
            s.wf(),
            s.origin is None,
            s.channels@.len() == 0,
            s.class_ids@.len() == 0,
    {
        AllowListStore { origin: Option::None, channels: Vec::new(), class_ids: Vec::new() }
    }

    /// Set the origin when one is supplied, and add the supplied channels
    /// and class ids to the allow-lists. Lists are additive here: existing
    /// entries stay.
    pub fn initialize(
        &mut self,
        origin: Option<String>,
        channels: Option<Vec<String>>,
        class_ids: Option<Vec<String>>,
    )
        requires
            old(self).wf(),
        ensures
            final(self).wf(),
            final(self).origin == (match origin {
                Option::Some(o) => Option::Some(o),
                Option::None => old(self).origin,
            }),
            (match channels {
                Option::Some(cs) => forall|x: Seq<char>|
                    #[trigger] has_key(final(self).channels@, x) <==> has_key(
                        old(self).channels@,
                        x,
                    ) || has_key(cs@, x),
                Option::None => final(self).channels == old(self).channels,
            }),
            (match class_ids {
                Option::Some(cs) => forall|x: Seq<char>|
                    #[trigger] has_key(final(self).class_ids@, x) <==> has_key(
                        old(self).class_ids@,
                        x,
                    ) || has_key(cs@, x),
                Option::None => final(self).class_ids == old(self).class_ids,
            }),
    {
        if let Option::Some(o) = origin {
            self.origin = Option::Some(o);
        }
        if let Option::Some(cs) = channels {
            add_all(&mut self.channels, cs);
        }
        if let Option::Some(cs) = class_ids {
            add_all(&mut self.class_ids, cs);
        }
    }

    /// Administrative replace: like `initialize` for the origin, but a given
    /// channel or class list first clears the old set entirely — a full
    /// replace, not an addition. Absent fields stay untouched.
    pub fn migrate(
        &mut self,
        origin: Option<String>,
        channels: Option<Vec<String>>,
        class_ids: Option<Vec<String>>,
    )
        requires
            old(self).wf(),
        ensures
            final(self).wf(),
            final(self).origin == (match origin {
                Option::Some(o) => Option::Some(o),
                Option::None => old(self).origin,
            }),
            (match channels {
                Option::Some(cs) => forall|x: Seq<char>|
                    #[trigger] has_key(final(self).channels@, x) <==> has_key(cs@, x),
                Option::None => final(self).channels == old(self).channels,
            }),
            (match class_ids {
                Option::Some(cs) => forall|x: Seq<char>|
                    #[trigger] has_key(final(self).class_ids@, x) <==> has_key(cs@, x),
                Option::None => final(self).class_ids == old(self).class_ids,
            }),
    {
        if let Option::Some(o) = origin {
            self.origin = Option::Some(o);
        }
        if let Option::Some(cs) = channels {
            self.channels.clear();
            proof {
                assert(views_of(self.channels@).len() == 0);
            }
            add_all(&mut self.channels, cs);
        }
        if let Option::Some(cs) = class_ids {
            self.class_ids.clear();
            proof {
                assert(views_of(self.class_ids@).len() == 0);
            }
            add_all(&mut self.class_ids, cs);
        }
    }

    /// Origin check: passes only when an origin is configured and the sender
    /// equals it exactly.
    pub fn assert_origin(&self, sender: String) -> (r: Result<(), IncomingProxyError>)
        ensures
            r is Ok <==> self.origin_ok(sender@),
            !self.origin_ok(sender@) ==> r == Result::<(), IncomingProxyError>::Err(
                IncomingProxyError::UnauthorizedOrigin(sender),
            ),
    {
        if let Option::Some(o) = &self.origin {
            if str_eq(o.as_str(), sender.as_str()) {
                return Result::Ok(());
            }
        }
        Result::Err(IncomingProxyError::UnauthorizedOrigin(sender))
    }

    /// Channel check: the destination channel must be allow-listed.
    pub fn assert_channel(&self, channel_id: String) -> (r: Result<(), IncomingProxyError>)
        ensures
            r is Ok <==> self.channel_ok(channel_id@),
            !self.channel_ok(channel_id@) ==> r == Result::<(), IncomingProxyError>::Err(
                IncomingProxyError::UnauthorizedChannel(channel_id),
            ),
    {
        if contains_key(&self.channels, &channel_id) {
            Result::Ok(())
        } else {
            Result::Err(IncomingProxyError::UnauthorizedChannel(channel_id))
        }
    }

    /// Class check: an empty allow-list admits every class; a non-empty one
    /// requires membership.
    pub fn assert_class_id(&self, class_id: String) -> (r: Result<(), IncomingProxyError>)
        ensures
            r is Ok <==> self.class_ok(class_id@),
            !self.class_ok(class_id@) ==> r == Result::<(), IncomingProxyError>::Err(
                IncomingProxyError::UnauthorizedClassId(class_id),
            ),
    {
        if self.class_ids.is_empty() {
            return Result::Ok(());
        }
        if contains_key(&self.class_ids, &class_id) {
            Result::Ok(())
        } else {
            Result::Err(IncomingProxyError::UnauthorizedClassId(class_id))
        }
    }

    /// Authorize an inbound packet: origin, then channel, then class.
    /// The first failing check decides the error; nothing is aggregated.
    pub fn execute_ics721_receive_packet_msg(
        &self,
        sender: String,
        channel_id: String,
        class_id: String,
    ) -> (r: Result<(), IncomingProxyError>)
        ensures
            r is Ok <==> (self.origin_ok(sender@) && self.channel_ok(channel_id@)
                && self.class_ok(class_id@)),
            !self.origin_ok(sender@) ==> r == Result::<(), IncomingProxyError>::Err(
                IncomingProxyError::UnauthorizedOrigin(sender),
            ),
            self.origin_ok(sender@) && !self.channel_ok(channel_id@) ==> r == Result::<
                (),
                IncomingProxyError,
            >::Err(IncomingProxyError::UnauthorizedChannel(channel_id)),
            self.origin_ok(sender@) && self.channel_ok(channel_id@) && !self.class_ok(class_id@)
                ==> r == Result::<(), IncomingProxyError>::Err(
                IncomingProxyError::UnauthorizedClassId(class_id),
            ),
    {
        match self.assert_origin(sender) {
            Result::Err(e) => {
                return Result::Err(e);
            },
            Result::Ok(()) => {},
        }
        match self.assert_channel(channel_id) {
            Result::Err(e) => {
                return Result::Err(e);
            },
            Result::Ok(()) => {},
        }
        match self.assert_class_id(class_id) {
            Result::Err(e) => {
                return Result::Err(e);
            },
            Result::Ok(()) => {},
        }
        Result::Ok(())
    }

    /// One page of allow-listed channels, ascending, strictly after the
    /// cursor, at most `limit` (capped) entries.
    pub fn get_channels(&self, start_after: Option<String>, limit: Option<u32>) -> (r: Vec<
        String,
    >)
        ensures
            views_of(r@) == page_of(
                views_of(self.channels@),
                cursor_view(start_after),
                effective_limit(limit),
            ),
    {
        page_keys(&self.channels, &start_after, limit)
    }

    /// One page of allow-listed class ids, ascending, strictly after the
    /// cursor, at most `limit` (capped) entries.
    pub fn get_class_ids(&self, start_after: Option<String>, limit: Option<u32>) -> (r: Vec<
        String,
    >)
        ensures
            views_of(r@) == page_of(
                views_of(self.class_ids@),
                cursor_view(start_after),
                effective_limit(limit),
            ),
    {
        page_keys(&self.class_ids, &start_after, limit)
    }

    /// The configured origin, if any.
    pub fn get_origin(&self) -> (r: Option<String>)
        ensures
            r == self.origin,
    {
        match &self.origin {
            Option::Some(o) => Option::Some(o.clone()),
            Option::None => Option::None,
        }
    }
}

/// An empty class allow-list authorizes every class id.
pub proof fn lemma_class_check_open_when_empty(s: AllowListStore, class_id: Seq<char>)
    requires
        s.class_ids@.len() == 0,
    ensures
        s.class_ok(class_id),
{
}

/// A one-element class allow-list authorizes exactly that class id.
pub proof fn lemma_class_check_singleton(s: AllowListStore, x: Seq<char>, class_id: Seq<char>)
    requires
        views_of(s.class_ids@) =~= seq![x],
    ensures
        s.class_ok(class_id) <==> class_id == x,
{
    if class_id == x {
        assert(views_of(s.class_ids@)[0] == class_id);
        assert(has_key(s.class_ids@, class_id));
    }
    if s.class_ok(class_id) {
        let k = choose|k: int|
            0 <= k < views_of(s.class_ids@).len() && views_of(s.class_ids@)[k] == class_id;
        assert(class_id == x);
    }
}

} // verus!
