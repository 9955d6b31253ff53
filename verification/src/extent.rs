//! What an attribute holds: the multiset of pairs that a stream of updates adds up to.

use crate::domain::{update_views, Update, UpdateView};
use crate::time::Time;
use crate::value::{AttributeSemantics, Value, ValueView};
use vstd::prelude::*;
use vstd::string::StringExecFns;

verus! {

/// What `update` adds to the multiplicity of the pair `key`, `value` of `attribute` as
/// of the time `at`.
pub open spec fn weight(
    update: UpdateView,
    attribute: Seq<char>,
    key: ValueView,
    value: ValueView,
    at: Time,
) -> int {
    if update.attribute == attribute && update.key == key && update.value == value && update.time
        <= at {
        update.diff
    } else {
        0
    }
}

/// The net multiplicity that the updates give to the pair `key`, `value` of
/// `attribute` as of the time `at`.
pub open spec fn multiplicity(
    updates: Seq<UpdateView>,
    attribute: Seq<char>,
    key: ValueView,
    value: ValueView,
    at: Time,
) -> int
    decreases updates.len(),
{
    if updates.len() == 0 {
        0
    } else {
        multiplicity(updates.drop_last(), attribute, key, value, at) + weight(
            updates.last(),
            attribute,
            key,
            value,
            at,
        )
    }
}

/// How often an index over the updates holds the pair `key`, `value` as of `at`, for
/// an attribute whose pairs are taken as they come or are kept distinct.
pub open spec fn extent(
    semantics: AttributeSemantics,
    updates: Seq<UpdateView>,
    attribute: Seq<char>,
    key: ValueView,
    value: ValueView,
    at: Time,
) -> int
    recommends
        semantics != AttributeSemantics::CardinalityOne,
{
    let net = multiplicity(updates, attribute, key, value, at);
    match semantics {
        AttributeSemantics::CardinalityMany => if net > 0 {
            1
        } else {
            0
        },
        _ => net,
    }
}

/// The update with entity and value exchanged, as the reverse index takes it.
pub open spec fn swapped(update: UpdateView) -> UpdateView {
    UpdateView { key: update.value, value: update.key, ..update }
}

/// The updates with entity and value exchanged, as the reverse index takes them.
pub open spec fn all_swapped(updates: Seq<UpdateView>) -> Seq<UpdateView> {
    Seq::new(updates.len(), |i: int| swapped(updates[i]))
}

/// The update that takes back `update`.
pub open spec fn retraction(update: UpdateView) -> UpdateView {
    UpdateView { diff: -update.diff, ..update }
}

impl Update {
    /// The update for the reverse index: entity and value exchanged.
    pub fn reversed(&self) -> (reverse: Update)
        ensures
            reverse@ == swapped(self@),
    {
        Update {
            attribute: self.attribute.clone(),
            key: self.value.clone(),
            value: self.key.clone(),
            time: self.time,
            diff: self.diff,
        }
    }
}

/// The forward and the reverse index hold the same pairs: as of every time, the
/// reverse index holds the value with the entity as often as the forward index holds
/// the entity with the value.
pub proof fn lemma_reverse_mirrors_forward(
    semantics: AttributeSemantics,
    updates: Seq<UpdateView>,
    attribute: Seq<char>,
    key: ValueView,
    value: ValueView,
    at: Time,
)
    ensures
        multiplicity(all_swapped(updates), attribute, value, key, at) == multiplicity(
            updates,
            attribute,
            key,
            value,
            at,
        ),
        semantics != AttributeSemantics::CardinalityOne ==> extent(
            semantics,
            all_swapped(updates),
            attribute,
            value,
            key,
            at,
        ) == extent(semantics, updates, attribute, key, value, at),
    decreases updates.len(),
{
    if updates.len() > 0 {
        lemma_reverse_mirrors_forward(semantics, updates.drop_last(), attribute, key, value, at);
        assert(all_swapped(updates).drop_last() =~= all_swapped(updates.drop_last()));
        assert(all_swapped(updates).last() == swapped(updates.last()));
    }
}

/// Asserting and then retracting the same datom at the same time changes nothing: as
/// of every time every pair has the multiplicity it had, and so every index over an
/// attribute whose pairs are taken as they come or kept distinct holds what it held.
pub proof fn lemma_assert_retract(
    semantics: AttributeSemantics,
    updates: Seq<UpdateView>,
    update: UpdateView,
    attribute: Seq<char>,
    key: ValueView,
    value: ValueView,
    at: Time,
)
    requires
        semantics != AttributeSemantics::CardinalityOne,
    ensures
        multiplicity(updates.push(update).push(retraction(update)), attribute, key, value, at)
            == multiplicity(updates, attribute, key, value, at),
        extent(
            semantics,
            updates.push(update).push(retraction(update)),
            attribute,
            key,
            value,
            at,
        ) == extent(semantics, updates, attribute, key, value, at),
{
    let once = updates.push(update);
    let twice = once.push(retraction(update));
    assert(twice.drop_last() =~= once);
    assert(twice.last() == retraction(update));
    assert(once.drop_last() =~= updates);
    assert(once.last() == update);
    assert(multiplicity(twice, attribute, key, value, at) == multiplicity(
        once,
        attribute,
        key,
        value,
        at,
    ) + weight(retraction(update), attribute, key, value, at));
    assert(multiplicity(once, attribute, key, value, at) == multiplicity(
        updates,
        attribute,
        key,
        value,
        at,
    ) + weight(update, attribute, key, value, at));
}

/// Adds up the multiplicity that the updates give to the pair `key`, `value` of
/// `attribute` as of the time `at`.
pub fn accumulate(updates: &Vec<Update>, attribute: &str, key: &Value, value: &Value, at: Time)
    -> (net: i128)
    ensures
        net == multiplicity(update_views(updates@), attribute@, key@, value@, at),
{
    let wanted = String::from_str(attribute);
    let mut net: i128 = 0;
    let mut i: usize = 0;
    assert(update_views(updates@).subrange(0, 0) =~= Seq::<UpdateView>::empty());
    while i < updates.len()
        invariant
            i <= updates.len(),
            wanted@ == attribute@,
            net == multiplicity(
                update_views(updates@).subrange(0, i as int),
                attribute@,
                key@,
                value@,
                at,
            ),
            -(i as int) * 0x8000_0000_0000_0000 <= net <= (i as int) * 0x8000_0000_0000_0000,
        decreases updates.len() - i,
    {
        let update = &updates[i];
        proof {
            let longer = update_views(updates@).subrange(0, i + 1);
            assert(longer.drop_last() =~= update_views(updates@).subrange(0, i as int));
            assert(longer.last() == updates@[i as int]@);
            assert((i as int) * 0x8000_0000_0000_0000 + 0x8000_0000_0000_0000 == (i + 1)
                * 0x8000_0000_0000_0000) by (nonlinear_arith);
            assert((i as int) * 0x8000_0000_0000_0000 <= 0xffff_ffff_ffff_ffff
                * 0x8000_0000_0000_0000) by (nonlinear_arith)
                requires
                    i <= 0xffff_ffff_ffff_ffff,
            ;
        }
        if update.attribute == wanted && update.key.same(key) && update.value.same(value)
            && update.time <= at {
            net = net + update.diff as i128;
        }
        i += 1;
    }
    assert(update_views(updates@).subrange(0, updates@.len() as int) =~= update_views(updates@));
    net
}

} // verus!
