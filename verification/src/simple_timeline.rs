//! A versioned piece of world state: a history of changes ordered by
//! extended time, answering queries for the value just before or just after
//! any moment, able to clone the part of itself a snapshot needs, and able to
//! forget changes that no one can ask about any more.

use vstd::prelude::*;
use crate::api::ExtendedTime;
use crate::api::QueryOffset;
use crate::api::et_lt;
use crate::api::lemma_et_order;

verus! {

/// Whether a history is ordered strictly by extended time.
pub open spec fn history_sorted<T>(s: Seq<(ExtendedTime, T)>) -> bool {
    forall|i: int, j: int| 0 <= i < j < s.len() ==> et_lt((#[trigger] s[i]).0, (#[trigger] s[j]).0)
}

/// The value recorded exactly at `t`, if a change was recorded there.
pub open spec fn entry_at<T>(s: Seq<(ExtendedTime, T)>, t: ExtendedTime) -> Option<T>
    decreases s.len(),
{
    if s.len() == 0 {
        None
    } else if s.last().0 == t {
        Some(s.last().1)
    } else {
        entry_at(s.drop_last(), t)
    }
}

/// The value established by the last change strictly before `t`, if any.
pub open spec fn value_before<T>(s: Seq<(ExtendedTime, T)>, t: ExtendedTime) -> Option<T>
    decreases s.len(),
{
    if s.len() == 0 {
        None
    } else if et_lt(s.last().0, t) {
        Some(s.last().1)
    } else {
        value_before(s.drop_last(), t)
    }
}

/// The value established by the last change at or before `t`, if any.
pub open spec fn value_at<T>(s: Seq<(ExtendedTime, T)>, t: ExtendedTime) -> Option<T>
    decreases s.len(),
{
    if s.len() == 0 {
        None
    } else if !et_lt(t, s.last().0) {
        Some(s.last().1)
    } else {
        value_at(s.drop_last(), t)
    }
}

/// What a query with the given offset observes at `t`.
pub open spec fn queried<T>(s: Seq<(ExtendedTime, T)>, t: ExtendedTime, offset: QueryOffset) -> Option<T> {
    match offset {
        QueryOffset::Before => value_before(s, t),
        QueryOffset::After => value_at(s, t),
    }
}

/// A versioned cell value: the changes made to it, in extended-time order.
#[derive(Clone, Debug)]
pub struct SimpleTimeline<T> {
    pub changes: Vec<(ExtendedTime, T)>,
}

impl<T: Copy> SimpleTimeline<T> {
    /// A timeline that has never been changed.
    pub fn new() -> (r: SimpleTimeline<T>)
        ensures
            r.changes@.len() == 0,
    {
        SimpleTimeline { changes: Vec::new() }
    }

    /// The value observed at `time`, from immediately before or immediately
    /// after it.
    pub fn query(&self, time: &ExtendedTime, offset: QueryOffset) -> (r: Option<T>)
        ensures
            r == queried(self.changes@, *time, offset),
    {
        let mut i: usize = self.changes.len();
        proof {
            assert(self.changes@.take(i as int) =~= self.changes@);
        }
        match offset {
            QueryOffset::Before => {
                while i > 0
                    invariant
                        offset == QueryOffset::Before,
                        i <= self.changes@.len(),
                        value_before(self.changes@, *time) == value_before(
                            self.changes@.take(i as int),
                            *time,
                        ),
                        forall|j: int| i <= j < self.changes@.len()
                            ==> !et_lt(#[trigger] self.changes@[j].0, *time),
                    decreases i,
                {
                    proof {
                        assert(self.changes@.take(i as int).drop_last() == self.changes@.take(
                            i - 1,
                        ));
                    }
                    if self.changes[i - 1].0.lt(time) {
                        proof {
                            assert(self.changes@.take(i as int).len() == i);
                            assert(self.changes@.take(i as int).last() == self.changes@[i - 1]);
                            assert(et_lt(self.changes@.take(i as int).last().0, *time));
                            assert(value_before(self.changes@.take(i as int), *time)
                                == Some(self.changes@[i - 1].1));
                        }
                        return Some(self.changes[i - 1].1);
                    }
                    i = i - 1;
                }
                proof {
                    assert(self.changes@.take(0) =~= Seq::<(ExtendedTime, T)>::empty());
                }
                None
            },
            QueryOffset::After => {
                while i > 0
                    invariant
                        offset == QueryOffset::After,
                        i <= self.changes@.len(),
                        value_at(self.changes@, *time) == value_at(
                            self.changes@.take(i as int),
                            *time,
                        ),
                        forall|j: int| i <= j < self.changes@.len()
                            ==> et_lt(*time, #[trigger] self.changes@[j].0),
                    decreases i,
                {
                    proof {
                        assert(self.changes@.take(i as int).drop_last() == self.changes@.take(
                            i - 1,
                        ));
                    }
                    if !time.lt(&self.changes[i - 1].0) {
                        proof {
                            assert(self.changes@.take(i as int).last() == self.changes@[i - 1]);
                        }
                        return Some(self.changes[i - 1].1);
                    }
                    i = i - 1;
                }
                proof {
                    assert(self.changes@.take(0) =~= Seq::<(ExtendedTime, T)>::empty());
                }
                None
            },
        }
    }

    /// Records that the value changed to `value` at `time`, replacing any
    /// change already recorded at exactly that time. Nothing at any other
    /// time is touched.
    pub fn set_entry(&mut self, time: &ExtendedTime, value: T)
        requires
            history_sorted(old(self).changes@),
        ensures
            history_sorted(final(self).changes@),
            entry_at(final(self).changes@, *time) == Some(value),
            forall|u: ExtendedTime| u != *time ==> #[trigger] entry_at(final(self).changes@, u)
                == entry_at(old(self).changes@, u),
            final(self).changes@.len() <= old(self).changes@.len() + 1,
    {
        let ghost orig = self.changes@;
        let pos = self.position_from(time);
        let found = pos < self.changes.len() && self.changes[pos].0.eq_time(time);
        if found {
            self.changes.remove(pos);
            proof {
                lemma_neighbors_differ(orig, pos as int);
                lemma_entry_at_remove(orig, pos as int);
            }
        }
        let ghost removed = self.changes@;
        proof {
            assert forall|i: int| pos <= i < removed.len() implies !et_lt(
                #[trigger] removed[i].0,
                *time,
            ) && removed[i].0 != *time by {
                if found {
                    assert(removed[i] == orig[i + 1]);
                    lemma_et_order(orig[pos as int].0, orig[i + 1].0, *time);
                } else {
                    assert(removed[i] == orig[i]);
                    lemma_et_order(*time, orig[pos as int].0, orig[i].0);
                    lemma_et_order(*time, orig[i].0, orig[i].0);
                }
            }
        }
        self.changes.insert(pos, (*time, value));
        proof {
            let s = self.changes@;
            assert forall|i: int, j: int| 0 <= i < j < s.len() implies et_lt(
                #[trigger] s[i].0,
                #[trigger] s[j].0,
            ) by {
                if j < pos {
                    assert(s[i] == removed[i] && s[j] == removed[j]);
                } else if i > pos {
                    assert(s[i] == removed[i - 1] && s[j] == removed[j - 1]);
                } else if j == pos {
                    assert(s[i] == removed[i] && et_lt(removed[i].0, *time));
                } else if i == pos {
                    assert(s[j] == removed[j - 1]);
                    assert(!et_lt(removed[j - 1].0, *time) && removed[j - 1].0 != *time);
                    lemma_et_order(*time, removed[j - 1].0, *time);
                } else {
                    assert(i < pos && pos < j);
                    assert(s[i] == removed[i] && s[j] == removed[j - 1]);
                    assert(et_lt(removed[i].0, *time));
                    assert(!et_lt(removed[j - 1].0, *time));
                    lemma_et_order(*time, removed[j - 1].0, *time);
                    lemma_et_order(removed[i].0, *time, removed[j - 1].0);
                }
            }
            lemma_entry_at_set(removed, *time, value, pos as int);
        }
    }

    /// Removes the change recorded at exactly `time`, if there is one.
    /// Nothing at any other time is touched.
    pub fn remove_entry(&mut self, time: &ExtendedTime)
        requires
            history_sorted(old(self).changes@),
        ensures
            history_sorted(final(self).changes@),
            entry_at(final(self).changes@, *time) == Option::<T>::None,
            forall|u: ExtendedTime| u != *time ==> #[trigger] entry_at(final(self).changes@, u)
                == entry_at(old(self).changes@, u),
            final(self).changes@.len() <= old(self).changes@.len(),
    {
        let ghost orig = self.changes@;
        let pos = self.position_from(time);
        let found = pos < self.changes.len() && self.changes[pos].0.eq_time(time);
        if found {
            self.changes.remove(pos);
            proof {
                lemma_neighbors_differ(orig, pos as int);
                lemma_entry_at_remove(orig, pos as int);
            }
        }
        proof {
            let s = self.changes@;
            assert forall|i: int| 0 <= i < s.len() implies (#[trigger] s[i]).0 != *time by {
                if found {
                    if i >= pos {
                        assert(s[i] == orig[i + 1]);
                        lemma_et_order(orig[pos as int].0, orig[i + 1].0, *time);
                    } else {
                        assert(s[i] == orig[i]);
                        lemma_et_order(orig[i].0, *time, *time);
                    }
                } else {
                    if i >= pos {
                        lemma_et_order(*time, orig[pos as int].0, orig[i].0);
                        lemma_et_order(*time, orig[i].0, orig[i].0);
                    } else {
                        lemma_et_order(orig[i].0, *time, *time);
                    }
                }
            }
            lemma_entry_at_absent(s, *time);
        }
    }

    /// Restores the change slot at `time` to a remembered state: a value, or
    /// no change at all.
    pub fn restore_entry(&mut self, time: &ExtendedTime, prev: Option<T>)
        requires
            history_sorted(old(self).changes@),
        ensures
            history_sorted(final(self).changes@),
            entry_at(final(self).changes@, *time) == prev,
            forall|u: ExtendedTime| u != *time ==> #[trigger] entry_at(final(self).changes@, u)
                == entry_at(old(self).changes@, u),
            final(self).changes@.len() <= old(self).changes@.len() + 1,
    {
        match prev {
            Some(v) => self.set_entry(time, v),
            None => self.remove_entry(time),
        }
    }

    /// The value of the change recorded exactly at `time`, if any.
    pub fn get_entry(&self, time: &ExtendedTime) -> (r: Option<T>)
        requires
            history_sorted(self.changes@),
        ensures
            r == entry_at(self.changes@, *time),
    {
        let pos = self.position_from(time);
        if pos < self.changes.len() && self.changes[pos].0.eq_time(time) {
            proof {
                lemma_neighbors_differ(self.changes@, pos as int);
                lemma_entry_at_found(self.changes@, pos as int);
            }
            Some(self.changes[pos].1)
        } else {
            proof {
                let s = self.changes@;
                assert forall|i: int| 0 <= i < s.len() implies (#[trigger] s[i]).0 != *time by {
                    if i < pos {
                        lemma_et_order(s[i].0, *time, *time);
                    } else if i == pos {
                    } else {
                        lemma_et_order(*time, s[pos as int].0, s[i].0);
                        lemma_et_order(*time, s[i].0, s[i].0);
                    }
                }
                lemma_entry_at_absent(s, *time);
            }
            None
        }
    }

    /// The number of entries whose time is strictly before `*time`; with a
    /// sorted history this is where a change at `*time` stands or belongs.
    fn position_from(&self, time: &ExtendedTime) -> (pos: usize)
        requires
            history_sorted(self.changes@),
        ensures
            pos <= self.changes@.len(),
            forall|i: int| 0 <= i < pos ==> et_lt(#[trigger] self.changes@[i].0, *time),
            forall|i: int| pos <= i < self.changes@.len() ==> !et_lt(
                #[trigger] self.changes@[i].0,
                *time,
            ),
    {
        let mut pos: usize = 0;
        while pos < self.changes.len() && self.changes[pos].0.lt(time)
            invariant
                pos <= self.changes@.len(),
                history_sorted(self.changes@),
                forall|i: int| 0 <= i < pos ==> et_lt(#[trigger] self.changes@[i].0, *time),
            decreases self.changes@.len() - pos,
        {
            pos = pos + 1;
        }
        proof {
            assert forall|i: int| pos <= i < self.changes@.len() implies !et_lt(
                #[trigger] self.changes@[i].0,
                *time,
            ) by {
                if i > pos {
                    lemma_et_order(self.changes@[pos as int].0, self.changes@[i].0, *time);
                    lemma_et_order(self.changes@[i].0, *time, self.changes@[pos as int].0);
                    lemma_et_order(*time, self.changes@[pos as int].0, self.changes@[i].0);
                }
            }
        }
        pos
    }

    /// An independent copy holding exactly the changes up to and including
    /// `time`: enough to answer queries immediately before and after `time`
    /// as this timeline would now.
    pub fn clone_for_snapshot(&self, time: &ExtendedTime) -> (r: SimpleTimeline<T>)
        requires
            history_sorted(self.changes@),
        ensures
            history_sorted(r.changes@),
            value_before(r.changes@, *time) == value_before(self.changes@, *time),
            value_at(r.changes@, *time) == value_at(self.changes@, *time),
    {
        let mut kept: Vec<(ExtendedTime, T)> = Vec::new();
        let mut i: usize = 0;
        while i < self.changes.len() && !time.lt(&self.changes[i].0)
            invariant
                i <= self.changes@.len(),
                history_sorted(self.changes@),
                kept@ == self.changes@.take(i as int),
            decreases self.changes@.len() - i,
        {
            let entry = self.changes[i];
            kept.push(entry);
            proof {
                assert(kept@ =~= self.changes@.take(i + 1));
            }
            i = i + 1;
        }
        proof {
            assert forall|j: int| i <= j < self.changes@.len() implies et_lt(
                *time,
                #[trigger] self.changes@[j].0,
            ) by {
                if i < self.changes@.len() {
                    if j > i {
                        lemma_et_order(self.changes@[i as int].0, self.changes@[j].0, *time);
                        lemma_et_order(*time, self.changes@[i as int].0, self.changes@[j].0);
                        lemma_et_order(self.changes@[i as int].0, *time, self.changes@[j].0);
                    } else {
                        lemma_et_order(*time, self.changes@[j].0, *time);
                    }
                }
            }
            lemma_value_ignores_future(self.changes@, i as int, *time);
        }
        SimpleTimeline { changes: kept }
    }

    /// Drops changes strictly before `time`, keeping the latest of them so
    /// that every query at or after `time` still answers exactly as before.
    pub fn forget_before(&mut self, time: &ExtendedTime)
        requires
            history_sorted(old(self).changes@),
        ensures
            history_sorted(final(self).changes@),
            forall|u: ExtendedTime| !et_lt(u, *time) ==> #[trigger] value_before(
                final(self).changes@,
                u,
            ) == value_before(old(self).changes@, u),
            forall|u: ExtendedTime| !et_lt(u, *time) ==> #[trigger] value_at(
                final(self).changes@,
                u,
            ) == value_at(old(self).changes@, u),
            final(self).changes@.len() <= old(self).changes@.len(),
    {
        let cut = self.position_from(time);
        if cut > 1 {
            let ghost before = self.changes@;
            let kept = self.changes.split_off(cut - 1);
            self.changes = kept;
            proof {
                assert(self.changes@ =~= before.subrange(cut - 1, before.len() as int));
                assert forall|u: ExtendedTime| !et_lt(u, *time) implies #[trigger] value_before(
                    self.changes@,
                    u,
                ) == value_before(before, u) by {
                    lemma_et_order(before[cut - 1].0, *time, u);
                    lemma_et_order(*time, u, before[cut - 1].0);
                    assert(et_lt(before[cut - 1].0, u));
                    lemma_value_from_suffix(before, cut - 1, u);
                }
                assert forall|u: ExtendedTime| !et_lt(u, *time) implies #[trigger] value_at(
                    self.changes@,
                    u,
                ) == value_at(before, u) by {
                    lemma_et_order(before[cut - 1].0, *time, u);
                    lemma_et_order(*time, u, before[cut - 1].0);
                    assert(et_lt(before[cut - 1].0, u));
                    lemma_value_from_suffix(before, cut - 1, u);
                }
            }
        }
    }
}

/// Entries past an index all lying in the future of `t`, the values observed
/// at `t` are settled by the prefix.
proof fn lemma_value_ignores_future<T>(s: Seq<(ExtendedTime, T)>, i: int, t: ExtendedTime)
    requires
        0 <= i <= s.len(),
        forall|j: int| i <= j < s.len() ==> et_lt(t, #[trigger] s[j].0),
    ensures
        value_before(s.take(i), t) == value_before(s, t),
        value_at(s.take(i), t) == value_at(s, t),
    decreases s.len() - i,
{
    if i < s.len() {
        lemma_et_order(t, s[s.len() - 1].0, t);
        assert(s.drop_last() =~= s.take(s.len() - 1));
        lemma_value_ignores_future(s.take(s.len() - 1), i, t);
        assert(s.take(s.len() - 1).take(i) =~= s.take(i));
    } else {
        assert(s.take(i) =~= s);
    }
}

/// An entry at the cut lying strictly before `u`, the values observed at `u`
/// are settled by the suffix that starts at the cut.
proof fn lemma_value_from_suffix<T>(s: Seq<(ExtendedTime, T)>, i: int, u: ExtendedTime)
    requires
        0 <= i < s.len(),
        et_lt(s[i].0, u),
    ensures
        value_before(s.subrange(i, s.len() as int), u) == value_before(s, u),
        value_at(s.subrange(i, s.len() as int), u) == value_at(s, u),
    decreases s.len() - i,
{
    let suffix = s.subrange(i, s.len() as int);
    assert(suffix.last() == s.last());
    if i == s.len() - 1 {
        lemma_et_order(s[i].0, u, u);
        assert(et_lt(suffix.last().0, u));
        assert(!et_lt(u, suffix.last().0));
    } else {
        if !et_lt(s.last().0, u) || et_lt(u, s.last().0) {
            lemma_value_from_suffix(s.drop_last(), i, u);
            assert(suffix.drop_last() =~= s.drop_last().subrange(i, s.len() - 1));
            if !et_lt(s.last().0, u) {
                lemma_et_order(s.last().0, u, u);
                assert(value_before(suffix, u) == value_before(suffix.drop_last(), u));
                assert(value_before(s, u) == value_before(s.drop_last(), u));
            }
        }
    }
}

/// In a strictly sorted history, no other entry shares the time of the entry
/// at `pos`.
proof fn lemma_neighbors_differ<T>(s: Seq<(ExtendedTime, T)>, pos: int)
    requires
        history_sorted(s),
        0 <= pos < s.len(),
    ensures
        forall|i: int| 0 <= i < s.len() && i != pos ==> (#[trigger] s[i]).0 != s[pos].0,
{
    assert forall|i: int| 0 <= i < s.len() && i != pos implies (#[trigger] s[i]).0 != s[pos].0 by {
        if i < pos {
            lemma_et_order(s[i].0, s[pos].0, s[pos].0);
        } else {
            lemma_et_order(s[pos].0, s[i].0, s[i].0);
        }
    }
}

/// Removing the only entry at its time leaves every other time's slot as it
/// was, and that time's slot empty.
proof fn lemma_entry_at_remove<T>(s: Seq<(ExtendedTime, T)>, pos: int)
    requires
        0 <= pos < s.len(),
        forall|i: int| 0 <= i < s.len() && i != pos ==> (#[trigger] s[i]).0 != s[pos].0,
    ensures
        entry_at(s.remove(pos), s[pos].0) == Option::<T>::None,
        forall|u: ExtendedTime| u != s[pos].0 ==> #[trigger] entry_at(s.remove(pos), u)
            == entry_at(s, u),
    decreases s.len(),
{
    let s2 = s.remove(pos);
    if pos == s.len() - 1 {
        assert(s2 =~= s.drop_last());
        lemma_entry_at_absent(s.drop_last(), s[pos].0);
    } else {
        assert(s2.last() == s.last());
        assert(s2.drop_last() =~= s.drop_last().remove(pos));
        lemma_entry_at_remove(s.drop_last(), pos);
        assert(s.last().0 != s[pos].0);
        assert(entry_at(s2, s[pos].0) == entry_at(s2.drop_last(), s[pos].0));
        assert forall|u: ExtendedTime| u != s[pos].0 implies #[trigger] entry_at(s2, u)
            == entry_at(s, u) by {
            if u != s.last().0 {
                assert(entry_at(s2, u) == entry_at(s2.drop_last(), u));
                assert(entry_at(s, u) == entry_at(s.drop_last(), u));
            }
        }
    }
}

/// The entry at `pos` being the only one at its time, looking its time up
/// finds its value.
proof fn lemma_entry_at_found<T>(s: Seq<(ExtendedTime, T)>, pos: int)
    requires
        0 <= pos < s.len(),
        forall|i: int| 0 <= i < s.len() && i != pos ==> (#[trigger] s[i]).0 != s[pos].0,
    ensures
        entry_at(s, s[pos].0) == Some(s[pos].1),
    decreases s.len(),
{
    if pos < s.len() - 1 {
        lemma_entry_at_found(s.drop_last(), pos);
    }
}

/// A recorded entry is a member of the history.
proof fn lemma_entry_at_member<T>(s: Seq<(ExtendedTime, T)>, t: ExtendedTime)
    requires
        entry_at(s, t) is Some,
    ensures
        exists|i: int| 0 <= i < s.len() && (#[trigger] s[i]).0 == t && Some(s[i].1) == entry_at(
            s,
            t,
        ),
    decreases s.len(),
{
    if s.len() > 0 {
        if s.last().0 == t {
            assert(s[s.len() - 1].0 == t);
        } else {
            lemma_entry_at_member(s.drop_last(), t);
            let i = choose|i: int|
                0 <= i < s.drop_last().len() && (#[trigger] s.drop_last()[i]).0 == t && Some(
                    s.drop_last()[i].1,
                ) == entry_at(s.drop_last(), t);
            assert(s[i].0 == t);
        }
    }
}

/// Two timelines that record the same change at every moment are the same
/// timeline, so they answer every query alike. In particular, once an
/// event's changes have been taken back slot by slot, every query answers
/// exactly as if the event had never executed.
pub proof fn lemma_same_changes_same_queries<T>(
    s1: Seq<(ExtendedTime, T)>,
    s2: Seq<(ExtendedTime, T)>,
)
    requires
        history_sorted(s1),
        history_sorted(s2),
        forall|u: ExtendedTime| #[trigger] entry_at(s1, u) == entry_at(s2, u),
    ensures
        s1 == s2,
        forall|t: ExtendedTime, offset: QueryOffset| #[trigger] queried(s1, t, offset) == queried(
            s2,
            t,
            offset,
        ),
    decreases s1.len(),
{
    if s1.len() == 0 {
        if s2.len() > 0 {
            lemma_neighbors_differ(s2, s2.len() - 1);
            lemma_entry_at_found(s2, s2.len() - 1);
            assert(entry_at(s1, s2.last().0) is None);
        }
        assert(s1 =~= s2);
    } else if s2.len() == 0 {
        lemma_neighbors_differ(s1, s1.len() - 1);
        lemma_entry_at_found(s1, s1.len() - 1);
        assert(entry_at(s2, s1.last().0) is None);
        assert(s1 =~= s2);
    } else {
        let t1 = s1.last().0;
        let t2 = s2.last().0;
        lemma_neighbors_differ(s1, s1.len() - 1);
        lemma_entry_at_found(s1, s1.len() - 1);
        lemma_neighbors_differ(s2, s2.len() - 1);
        lemma_entry_at_found(s2, s2.len() - 1);
        if t1 != t2 {
            assert(entry_at(s2, t1) is Some);
            lemma_entry_at_member(s2, t1);
            let i2 = choose|i: int|
                0 <= i < s2.len() && (#[trigger] s2[i]).0 == t1 && Some(s2[i].1) == entry_at(
                    s2,
                    t1,
                );
            assert(entry_at(s1, t2) is Some);
            lemma_entry_at_member(s1, t2);
            let i1 = choose|i: int|
                0 <= i < s1.len() && (#[trigger] s1[i]).0 == t2 && Some(s1[i].1) == entry_at(
                    s1,
                    t2,
                );
            if i2 < s2.len() - 1 {
                assert(et_lt(s2[i2].0, t2));
            }
            if i1 < s1.len() - 1 {
                assert(et_lt(s1[i1].0, t1));
            }
            lemma_et_order(t1, t2, t1);
            assert(false);
        }
        assert(entry_at(s1, t1) == Some(s1.last().1));
        assert(entry_at(s2, t1) == Some(s2.last().1));
        assert(s1.last() == s2.last());
        assert forall|u: ExtendedTime| #[trigger] entry_at(s1.drop_last(), u) == entry_at(
            s2.drop_last(),
            u,
        ) by {
            if u == t1 {
                assert forall|i: int| 0 <= i < s1.drop_last().len() implies (
                #[trigger] s1.drop_last()[i]).0 != u by {
                    assert(s1[i].0 != t1);
                }
                lemma_entry_at_absent(s1.drop_last(), u);
                assert forall|i: int| 0 <= i < s2.drop_last().len() implies (
                #[trigger] s2.drop_last()[i]).0 != u by {
                    assert(s2[i].0 != t2);
                }
                lemma_entry_at_absent(s2.drop_last(), u);
            } else {
                assert(entry_at(s1, u) == entry_at(s1.drop_last(), u));
                assert(entry_at(s2, u) == entry_at(s2.drop_last(), u));
            }
        }
        assert(history_sorted(s1.drop_last()));
        assert(history_sorted(s2.drop_last()));
        lemma_same_changes_same_queries(s1.drop_last(), s2.drop_last());
        assert(s1.len() == s2.len());
        assert forall|i: int| 0 <= i < s1.len() implies s1[i] == s2[i] by {
            if i < s1.len() - 1 {
                assert(s1.drop_last()[i] == s2.drop_last()[i]);
                assert(s1[i] == s1.drop_last()[i]);
                assert(s2[i] == s2.drop_last()[i]);
            }
        }
        assert(s1 =~= s2);
    }
}

/// The changes of `s` that lie strictly before `tau`, in order.
pub open spec fn changes_before<T>(s: Seq<(ExtendedTime, T)>, tau: ExtendedTime) -> Seq<
    (ExtendedTime, T),
>
    decreases s.len(),
{
    if s.len() == 0 {
        Seq::empty()
    } else if et_lt(s.last().0, tau) {
        changes_before(s.drop_last(), tau).push(s.last())
    } else {
        changes_before(s.drop_last(), tau)
    }
}

/// What a query strictly before `tau` observes is settled by the changes
/// strictly before `tau`.
proof fn lemma_value_before_from_prefix<T>(s: Seq<(ExtendedTime, T)>, tau: ExtendedTime)
    ensures
        value_before(changes_before(s, tau), tau) == value_before(s, tau),
    decreases s.len(),
{
    if s.len() > 0 {
        lemma_value_before_from_prefix(s.drop_last(), tau);
        if et_lt(s.last().0, tau) {
            let p = changes_before(s, tau);
            assert(p.last() == s.last());
            assert(value_before(p, tau) == Some(s.last().1));
        }
    }
}

/// The strictly-before prefix is sorted when the history is, and records
/// exactly the changes strictly before `tau`.
proof fn lemma_changes_before_entries<T>(s: Seq<(ExtendedTime, T)>, tau: ExtendedTime)
    requires
        history_sorted(s),
    ensures
        history_sorted(changes_before(s, tau)),
        forall|u: ExtendedTime| #[trigger] entry_at(changes_before(s, tau), u) == (if et_lt(
            u,
            tau,
        ) {
            entry_at(s, u)
        } else {
            Option::<T>::None
        }),
    decreases s.len(),
{
    if s.len() > 0 {
        assert(history_sorted(s.drop_last()));
        lemma_changes_before_entries(s.drop_last(), tau);
        let p = changes_before(s, tau);
        if et_lt(s.last().0, tau) {
            let q = changes_before(s.drop_last(), tau);
            assert(p == q.push(s.last()));
            assert forall|i: int, j: int| 0 <= i < j < p.len() implies et_lt(
                (#[trigger] p[i]).0,
                (#[trigger] p[j]).0,
            ) by {
                if j < p.len() - 1 {
                    assert(p[i] == q[i] && p[j] == q[j]);
                } else {
                    assert(p[j] == s.last());
                    assert(entry_at(q, p[i].0) == entry_at(s.drop_last(), p[i].0) || entry_at(
                        q,
                        p[i].0,
                    ) is None);
                    if entry_at(q, p[i].0) is None {
                        lemma_neighbors_differ(p, i);
                    }
                    lemma_prefix_entry_precedes_last(q, s, i, tau);
                }
            }
            assert forall|u: ExtendedTime| #[trigger] entry_at(p, u) == (if et_lt(u, tau) {
                entry_at(s, u)
            } else {
                Option::<T>::None
            }) by {
                assert(p.drop_last() =~= q);
                if u == s.last().0 {
                    assert(entry_at(p, u) == Some(s.last().1));
                    assert(entry_at(s, u) == Some(s.last().1));
                } else {
                    assert(entry_at(p, u) == entry_at(q, u));
                    assert(entry_at(s, u) == entry_at(s.drop_last(), u));
                }
            }
        } else {
            assert forall|u: ExtendedTime| #[trigger] entry_at(p, u) == (if et_lt(u, tau) {
                entry_at(s, u)
            } else {
                Option::<T>::None
            }) by {
                if u == s.last().0 {
                    assert(!et_lt(u, tau));
                    assert(entry_at(p, u) is None);
                } else {
                    assert(entry_at(s, u) == entry_at(s.drop_last(), u));
                }
            }
        }
    }
}

/// Helper for sortedness of the prefix: an entry of the prefix stands in the
/// original history before its last element.
proof fn lemma_prefix_entry_precedes_last<T>(
    q: Seq<(ExtendedTime, T)>,
    s: Seq<(ExtendedTime, T)>,
    i: int,
    tau: ExtendedTime,
)
    requires
        history_sorted(s),
        s.len() > 0,
        q == changes_before(s.drop_last(), tau),
        forall|u: ExtendedTime| #[trigger] entry_at(q, u) == (if et_lt(u, tau) {
            entry_at(s.drop_last(), u)
        } else {
            Option::<T>::None
        }),
        0 <= i < q.len(),
        history_sorted(q),
    ensures
        et_lt(q[i].0, s.last().0),
{
    lemma_neighbors_differ(q, i);
    lemma_entry_at_found(q, i);
    assert(entry_at(q, q[i].0) == Some(q[i].1));
    assert(entry_at(s.drop_last(), q[i].0) is Some);
    lemma_entry_at_member(s.drop_last(), q[i].0);
    let j = choose|j: int|
        0 <= j < s.drop_last().len() && (#[trigger] s.drop_last()[j]).0 == q[i].0 && Some(
            s.drop_last()[j].1,
        ) == entry_at(s.drop_last(), q[i].0);
    assert(s[j] == s.drop_last()[j]);
    assert(et_lt(s[j].0, s.last().0));
}

/// Two timelines whose changes strictly before a settled moment agree
/// answer queries just before that moment alike: the part of the world a
/// snapshot observes is untouched by anything that happens at or after its
/// moment.
pub proof fn lemma_settled_queries_agree<T>(
    s1: Seq<(ExtendedTime, T)>,
    s2: Seq<(ExtendedTime, T)>,
    tau: ExtendedTime,
)
    requires
        history_sorted(s1),
        history_sorted(s2),
        forall|u: ExtendedTime| et_lt(u, tau) ==> #[trigger] entry_at(s1, u) == entry_at(s2, u),
    ensures
        value_before(s1, tau) == value_before(s2, tau),
{
    lemma_changes_before_entries(s1, tau);
    lemma_changes_before_entries(s2, tau);
    assert forall|u: ExtendedTime| #[trigger] entry_at(changes_before(s1, tau), u) == entry_at(
        changes_before(s2, tau),
        u,
    ) by {
        if et_lt(u, tau) {
            assert(entry_at(s1, u) == entry_at(s2, u));
        }
    }
    lemma_same_changes_same_queries(changes_before(s1, tau), changes_before(s2, tau));
    lemma_value_before_from_prefix(s1, tau);
    lemma_value_before_from_prefix(s2, tau);
}

/// Undo composed with execute is the identity on queries: an execution that
/// changed only the slot at its own moment, followed by a reversal that put
/// that slot back, leaves a timeline that answers every query, before or
/// after any moment, exactly as the original did. Re-execution is the same
/// reversal followed by a fresh execution, so its later queries agree with
/// those of undo-then-execute by construction.
pub proof fn lemma_undo_restores_queries<T>(
    before: Seq<(ExtendedTime, T)>,
    executed: Seq<(ExtendedTime, T)>,
    undone: Seq<(ExtendedTime, T)>,
    tau: ExtendedTime,
)
    requires
        history_sorted(before),
        history_sorted(executed),
        history_sorted(undone),
        forall|u: ExtendedTime| u != tau ==> #[trigger] entry_at(executed, u) == entry_at(
            before,
            u,
        ),
        entry_at(undone, tau) == entry_at(before, tau),
        forall|u: ExtendedTime| u != tau ==> #[trigger] entry_at(undone, u) == entry_at(
            executed,
            u,
        ),
    ensures
        undone == before,
        forall|t: ExtendedTime, offset: QueryOffset| #[trigger] queried(undone, t, offset)
            == queried(before, t, offset),
{
    assert forall|u: ExtendedTime| #[trigger] entry_at(undone, u) == entry_at(before, u) by {
        if u != tau {
            assert(entry_at(undone, u) == entry_at(executed, u));
        }
    }
    lemma_same_changes_same_queries(undone, before);
}

/// A history holding no entry at `t` reports no entry at `t`.
proof fn lemma_entry_at_absent<T>(s: Seq<(ExtendedTime, T)>, t: ExtendedTime)
    requires
        forall|i: int| 0 <= i < s.len() ==> (#[trigger] s[i]).0 != t,
    ensures
        entry_at(s, t) == Option::<T>::None,
    decreases s.len(),
{
    if s.len() > 0 {
        lemma_entry_at_absent(s.drop_last(), t);
    }
}

/// After inserting `(t, v)` at the insertion point of a history that holds no
/// entry at `t`, the entry at `t` is `v` and every other slot is untouched.
proof fn lemma_entry_at_set<T>(s: Seq<(ExtendedTime, T)>, t: ExtendedTime, v: T, pos: int)
    requires
        0 <= pos <= s.len(),
        forall|i: int| 0 <= i < pos ==> et_lt((#[trigger] s[i]).0, t),
        forall|i: int| pos <= i < s.len() ==> !et_lt((#[trigger] s[i]).0, t) && s[i].0 != t,
    ensures
        entry_at(s.insert(pos, (t, v)), t) == Some(v),
        forall|u: ExtendedTime| u != t ==> #[trigger] entry_at(s.insert(pos, (t, v)), u)
            == entry_at(s, u),
    decreases s.len(),
{
    let s2 = s.insert(pos, (t, v));
    if pos == s.len() {
        assert(s2.last() == (t, v));
        assert(s2.drop_last() =~= s);
        assert(entry_at(s2, t) == Some(v));
        assert forall|u: ExtendedTime| u != t implies #[trigger] entry_at(s2, u) == entry_at(
            s,
            u,
        ) by {
            assert(s2.drop_last() =~= s);
        }
    } else {
        assert(s2.last() == s.last());
        assert(s2.drop_last() =~= s.drop_last().insert(pos, (t, v)));
        lemma_entry_at_set(s.drop_last(), t, v, pos);
        assert(s[s.len() - 1].0 != t);
        assert(entry_at(s2, t) == Some(v));
        assert forall|u: ExtendedTime| u != t implies #[trigger] entry_at(s2, u) == entry_at(
            s,
            u,
        ) by {
            if u != s.last().0 {
                assert(entry_at(s2, u) == entry_at(s2.drop_last(), u));
                assert(entry_at(s2.drop_last(), u) == entry_at(s.drop_last(), u));
                assert(entry_at(s, u) == entry_at(s.drop_last(), u));
            }
        }
    }
}

} // verus!
