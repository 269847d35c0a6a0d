//! The bounded queue of module names that the dispatcher keeps for each runner
//! and that a runner keeps for its compiled modules: oldest first, each name at
//! most once, a name that is used again moves to the back.
use std::collections::VecDeque;

use vstd::prelude::*;
use vstd::string::*;

use crate::text;

verus! {

/// The names in a queue.
pub open spec fn names(queue: Seq<String>) -> Seq<Seq<char>> {
    Seq::new(queue.len(), |i: int| queue[i]@)
}

/// A queue without the first occurrence of a name.
pub open spec fn without(queue: Seq<Seq<char>>, name: Seq<char>) -> Seq<Seq<char>> {
    match text::position(queue, name) {
        Some(i) => queue.remove(i),
        None => queue,
    }
}

/// A queue after its oldest name has been evicted, if it holds any.
pub open spec fn evicted(queue: Seq<Seq<char>>) -> Seq<Seq<char>> {
    if queue.len() == 0 {
        queue
    } else {
        queue.drop_first()
    }
}

/// A queue of at most `limit` names after `name` has been used: the name stands
/// at the back, and where it found the queue full the oldest name is gone. A queue
/// that may hold no name at all stays empty.
pub open spec fn after_use(queue: Seq<Seq<char>>, limit: nat, name: Seq<char>) -> Seq<Seq<char>> {
    let rest = without(queue, name);
    if limit == 0 {
        Seq::empty()
    } else if rest.len() == limit {
        evicted(rest).push(name)
    } else {
        rest.push(name)
    }
}

/// A queue after names have been used one after the other.
pub open spec fn after_uses(
    queue: Seq<Seq<char>>,
    limit: nat,
    used: Seq<Seq<char>>,
) -> Seq<Seq<char>>
    decreases used.len(),
{
    if used.len() == 0 {
        queue
    } else {
        after_uses(after_use(queue, limit, used[0]), limit, used.drop_first())
    }
}

/// Finds a name in a queue.
pub fn find(queue: &VecDeque<String>, name: &str) -> (r: Option<usize>)
    ensures
        match r {
            Some(i) => text::position(names(queue@), name@) == Some(i as int) && i < queue@.len(),
            None => text::position(names(queue@), name@) is None,
        },
{
    let mut i: usize = 0;
    while i < queue.len()
        invariant
            i <= queue@.len(),
            forall|k: int| 0 <= k < i ==> names(queue@)[k] != name@,
        decreases queue@.len() - i,
    {
        if text::same(queue[i].as_str(), name) {
            proof {
                assert(names(queue@)[i as int] == name@);
                text::lemma_position_is(names(queue@), name@, i as int);
            }
            return Some(i);
        }
        i = i + 1;
    }
    proof {
        text::lemma_position(names(queue@), name@);
    }
    None
}

/// Takes a name out of a queue, if it is there.
pub fn take_out(queue: &mut VecDeque<String>, name: &str)
    ensures
        names(final(queue)@) == without(names(old(queue)@), name@),
{
    if let Some(i) = find(queue, name) {
        let _ = queue.remove(i);
        assert(names(queue@) =~= names(old(queue)@).remove(i as int));
    }
}

/// Puts a name to the back of a queue of at most `limit` names, evicting the
/// oldest where it is full. A queue that may hold none is left empty.
pub fn track(queue: &mut VecDeque<String>, limit: usize, name: String)
    ensures
        names(final(queue)@) == after_use(names(old(queue)@), limit as nat, name@),
{
    if limit == 0 {
        *queue = VecDeque::new();
        assert(names(queue@) =~= Seq::empty());
        return;
    }
    take_out(queue, name.as_str());
    let ghost rest = queue@;
    if queue.len() == limit {
        let _ = queue.pop_front();
        assert(names(queue@) =~= evicted(names(rest)));
    }
    let ghost kept = queue@;
    queue.push_back(name);
    assert(names(queue@) =~= names(kept).push(name@));
}

/// No name stands twice in a queue.
pub open spec fn distinct(queue: Seq<Seq<char>>) -> bool {
    queue.no_duplicates()
}

/// Using a name keeps the names of a queue distinct and brings in no other. Where
/// the queue may hold a name at all, it puts that name at the back and drops at
/// most the oldest.
pub proof fn law_after_use(queue: Seq<Seq<char>>, limit: nat, name: Seq<char>)
    requires
        distinct(queue),
    ensures
        distinct(after_use(queue, limit, name)),
        limit > 0 ==> after_use(queue, limit, name).last() == name,
        forall|other: Seq<char>| #[trigger]
            after_use(queue, limit, name).contains(other) ==> other == name || queue.contains(other),
        forall|other: Seq<char>| #[trigger]
            queue.contains(other) && limit > 0 && other != without(queue, name)[0] ==> after_use(
                queue,
                limit,
                name,
            ).contains(other),
{
    if limit > 0 {
        lemma_without(queue, name);
        let rest = without(queue, name);
        let after = after_use(queue, limit, name);
        let kept = if rest.len() == limit {
            evicted(rest)
        } else {
            rest
        };
        assert(after == kept.push(name));
        assert forall|other: Seq<char>| #[trigger] after.contains(other) implies other == name
            || queue.contains(other) by {
            let i = after.index_of(other);
            if i < kept.len() {
                assert(rest.contains(kept[i]));
            }
        }
        assert forall|other: Seq<char>| #[trigger]
            queue.contains(other) && other != rest[0] implies after.contains(other) by {
            if other == name {
                assert(after[kept.len() as int] == name);
            } else {
                assert(rest.contains(other));
                let i = rest.index_of(other);
                if rest.len() == limit {
                    assert(after[i - 1] == other);
                } else {
                    assert(after[i] == other);
                }
            }
        }
    }
}

/// A name that is taken out of a queue is gone, and nothing else is.
pub proof fn lemma_without(queue: Seq<Seq<char>>, name: Seq<char>)
    requires
        distinct(queue),
    ensures
        distinct(without(queue, name)),
        !without(queue, name).contains(name),
        forall|other: Seq<char>| #[trigger]
            without(queue, name).contains(other) <==> other != name && queue.contains(other),
        queue.contains(name) ==> without(queue, name).len() == queue.len() - 1,
        !queue.contains(name) ==> without(queue, name) == queue,
{
    text::lemma_position(queue, name);
    let rest = without(queue, name);
    match text::position(queue, name) {
        None => {
            assert(!queue.contains(name));
        },
        Some(i) => {
            assert(queue.contains(queue[i]));
            assert forall|other: Seq<char>| #[trigger] rest.contains(other) implies other != name
                && queue.contains(other) by {
                let k = rest.index_of(other);
                if k < i {
                    assert(queue[k] == other);
                } else {
                    assert(queue[k + 1] == other);
                }
            }
            assert forall|other: Seq<char>|
                other != name && queue.contains(other) implies #[trigger] rest.contains(other) by {
                let k = queue.index_of(other);
                if k < i {
                    assert(rest[k] == other);
                } else {
                    assert(rest[k - 1] == other);
                }
            }
        },
    }
}

/// Putting a name to the back adds it and nothing else.
pub proof fn lemma_push(queue: Seq<Seq<char>>, name: Seq<char>)
    ensures
        forall|other: Seq<char>| #[trigger]
            queue.push(name).contains(other) <==> other == name || queue.contains(other),
        distinct(queue) && !queue.contains(name) ==> distinct(queue.push(name)),
{
    let pushed = queue.push(name);
    assert forall|other: Seq<char>| #[trigger] pushed.contains(other) implies other == name
        || queue.contains(other) by {
        let i = pushed.index_of(other);
        assert(i < queue.len() ==> queue[i] == other);
    }
    assert forall|other: Seq<char>| other == name || queue.contains(other) implies #[trigger]
        pushed.contains(other) by {
        if other == name {
            assert(pushed[queue.len() as int] == name);
        } else {
            assert(pushed[queue.index_of(other)] == other);
        }
    }
}

/// Evicting takes the oldest name out and nothing else.
pub proof fn lemma_evicted(queue: Seq<Seq<char>>)
    requires
        queue.len() > 0,
        distinct(queue),
    ensures
        distinct(queue.drop_first()),
        forall|other: Seq<char>| #[trigger]
            queue.drop_first().contains(other) <==> other != queue[0] && queue.contains(other),
{
    let rest = queue.drop_first();
    assert forall|other: Seq<char>| #[trigger] rest.contains(other) implies other != queue[0]
        && queue.contains(other) by {
        let i = rest.index_of(other);
        assert(queue[i + 1] == other);
    }
    assert forall|other: Seq<char>| other != queue[0] && queue.contains(other) implies #[trigger]
        rest.contains(other) by {
        let i = queue.index_of(other);
        assert(rest[i - 1] == other);
    }
}

/// A queue never grows beyond its limit, and one that may hold a name holds the
/// one that was used.
pub proof fn law_queue_bounded(queue: Seq<Seq<char>>, limit: nat, name: Seq<char>)
    requires
        queue.len() <= limit,
    ensures
        after_use(queue, limit, name).len() <= limit,
        limit > 0 ==> after_use(queue, limit, name).len() >= 1,
{
    text::lemma_position(queue, name);
}

/// However long a queue is used, it stays within its limit and its names stay
/// distinct.
pub proof fn law_queue_stays_bounded(queue: Seq<Seq<char>>, limit: nat, used: Seq<Seq<char>>)
    requires
        queue.len() <= limit,
        distinct(queue),
    ensures
        after_uses(queue, limit, used).len() <= limit,
        distinct(after_uses(queue, limit, used)),
    decreases used.len(),
{
    if used.len() > 0 {
        law_queue_bounded(queue, limit, used[0]);
        law_after_use(queue, limit, used[0]);
        law_queue_stays_bounded(after_use(queue, limit, used[0]), limit, used.drop_first());
    }
}

/// As long as there is room, nothing is evicted; and a name that is already in a
/// queue within its limit evicts none.
pub proof fn law_evicts_only_when_full(
    queue: Seq<Seq<char>>,
    limit: nat,
    name: Seq<char>,
)
    requires
        distinct(queue),
        queue.len() < limit || (queue.len() == limit && queue.contains(name)),
    ensures
        after_use(queue, limit, name) == without(queue, name).push(name),
{
    lemma_without(queue, name);
}

/// A name that is not in a queue with room goes to the back, and all else stays
/// where it is.
pub proof fn law_new_name_goes_to_the_back(queue: Seq<Seq<char>>, limit: nat, name: Seq<char>)
    requires
        !queue.contains(name),
        queue.len() < limit,
    ensures
        after_use(queue, limit, name) == queue.push(name),
{
    text::lemma_position(queue, name);
}

/// A name that is in a queue within its limit moves from its place to the back, and
/// the others keep their order.
pub proof fn law_used_name_moves_to_the_back(
    before: Seq<Seq<char>>,
    name: Seq<char>,
    behind: Seq<Seq<char>>,
    limit: nat,
)
    requires
        !before.contains(name),
        before.len() + 1 + behind.len() <= limit,
    ensures
        after_use(before.push(name) + behind, limit, name) == (before + behind).push(name),
{
    let queue = before.push(name) + behind;
    assert(queue[before.len() as int] == name);
    assert forall|k: int| 0 <= k < before.len() implies queue[k] != name by {
        assert(before.contains(before[k]));
    }
    text::lemma_position_is(queue, name, before.len() as int);
    assert(queue.remove(before.len() as int) =~= before + behind);
}

/// A name that is not in a full queue takes the place of the oldest: the others
/// move up, and it goes to the back.
pub proof fn law_full_queue_drops_the_oldest(
    oldest: Seq<char>,
    others: Seq<Seq<char>>,
    name: Seq<char>,
)
    requires
        oldest != name,
        !others.contains(name),
    ensures
        after_use(seq![oldest] + others, 1 + others.len(), name) == others.push(name),
{
    let queue = seq![oldest] + others;
    text::lemma_position(queue, name);
    assert forall|k: int| 0 <= k < queue.len() implies queue[k] != name by {
        if k > 0 {
            assert(others.contains(others[k - 1]));
            assert(queue[k] == others[k - 1]);
        }
    }
    assert(queue.drop_first() =~= others);
}

/// A queue that may hold no name is left empty.
pub proof fn law_no_room_at_all(queue: Seq<Seq<char>>, name: Seq<char>)
    ensures
        after_use(queue, 0, name).len() == 0,
{
}

} // verus!
