//! What building a mapping means: entries keep the order in which their keys
//! first came, except that giving a key again moves its entry to the back
//! with the new value. The building itself is the work of the engine's map;
//! this module states it and proves what follows from it.

use vstd::prelude::*;
use crate::node::{distinct_keys, same_node, same_scalar, NodeView};

verus! {

/// Being the same key does not depend on the order of the two nodes.
pub proof fn lemma_same_node_symmetric(a: NodeView, b: NodeView)
    ensures
        same_node(a, b) == same_node(b, a),
    decreases a,
{
    match (a, b) {
        (NodeView::Value(x), NodeView::Value(y)) => {
            assert(same_scalar(x, y) == same_scalar(y, x));
        },
        (NodeView::Sequence(s), NodeView::Sequence(t)) => {
            if s.len() == t.len() {
                assert forall|i: int| 0 <= i < s.len() implies same_node(s[i], t[i]) == same_node(
                    t[i],
                    s[i],
                ) by {
                    lemma_same_node_symmetric(s[i], t[i]);
                }
                assert(same_node(a, b) == (forall|i: int|
                    0 <= i < s.len() ==> same_node(#[trigger] s[i], t[i])));
                assert(same_node(b, a) == (forall|i: int|
                    0 <= i < t.len() ==> same_node(#[trigger] t[i], s[i])));
            }
        },
        (NodeView::Mapping(s), NodeView::Mapping(t)) => {
            if s.len() == t.len() {
                assert forall|i: int| 0 <= i < s.len() implies same_node(s[i].0, t[i].0)
                    == same_node(t[i].0, s[i].0) && same_node(s[i].1, t[i].1) == same_node(
                    t[i].1,
                    s[i].1,
                ) by {
                    lemma_same_node_symmetric(s[i].0, t[i].0);
                    lemma_same_node_symmetric(s[i].1, t[i].1);
                }
                assert(same_node(a, b) == (forall|i: int|
                    0 <= i < s.len() ==> same_node((#[trigger] s[i]).0, t[i].0) && same_node(
                        s[i].1,
                        t[i].1,
                    )));
                assert(same_node(b, a) == (forall|i: int|
                    0 <= i < t.len() ==> same_node((#[trigger] t[i]).0, s[i].0) && same_node(
                        t[i].1,
                        s[i].1,
                    )));
            }
        },
        (NodeView::Tagged(_, n1), NodeView::Tagged(_, n2)) => {
            lemma_same_node_symmetric(*n1, *n2);
        },
        _ => {},
    }
}

/// The position of the first entry whose key is the same as `key`.
pub open spec fn find_key(entries: Seq<(NodeView, NodeView)>, key: NodeView) -> Option<int>
    decreases entries.len(),
{
    if entries.len() == 0 {
        None
    } else {
        match find_key(entries.drop_last(), key) {
            Some(i) => Some(i),
            None => if same_node(entries.last().0, key) {
                Some(entries.len() - 1)
            } else {
                None
            },
        }
    }
}

/// What `find_key` finds is an entry with the same key, and it finds none
/// only where there is none.
pub proof fn lemma_find_key(entries: Seq<(NodeView, NodeView)>, key: NodeView)
    ensures
        match find_key(entries, key) {
            Some(i) => 0 <= i < entries.len() && same_node(entries[i].0, key),
            None => forall|j: int| 0 <= j < entries.len() ==> !same_node(
                (#[trigger] entries[j]).0,
                key,
            ),
        },
    decreases entries.len(),
{
    if entries.len() > 0 {
        lemma_find_key(entries.drop_last(), key);
        match find_key(entries.drop_last(), key) {
            Some(i) => {
                assert(entries.drop_last()[i] == entries[i]);
            },
            None => {
                assert forall|j: int| 0 <= j < entries.len() - 1 implies !same_node(
                    (#[trigger] entries[j]).0,
                    key,
                ) by {
                    assert(entries.drop_last()[j] == entries[j]);
                }
            },
        }
    }
}

/// The entries after `key` is given with `value`: a new entry at the back
/// for a new key, and otherwise the entry that has the key, moved to the
/// back with the new value.
pub open spec fn insert_entry(
    entries: Seq<(NodeView, NodeView)>,
    key: NodeView,
    value: NodeView,
) -> Seq<(NodeView, NodeView)> {
    match find_key(entries, key) {
        Some(i) => entries.remove(i).push((entries[i].0, value)),
        None => entries.push((key, value)),
    }
}

/// The entries of the mapping that is built by giving the pairs in order.
pub open spec fn build_mapping(pairs: Seq<(NodeView, NodeView)>) -> Seq<(NodeView, NodeView)>
    decreases pairs.len(),
{
    if pairs.len() == 0 {
        Seq::empty()
    } else {
        insert_entry(build_mapping(pairs.drop_last()), pairs.last().0, pairs.last().1)
    }
}

/// Giving a key keeps the keys distinct.
pub proof fn lemma_insert_entry(
    entries: Seq<(NodeView, NodeView)>,
    key: NodeView,
    value: NodeView,
)
    requires
        distinct_keys(entries),
    ensures
        distinct_keys(insert_entry(entries, key, value)),
{
    lemma_find_key(entries, key);
    let after = insert_entry(entries, key, value);
    match find_key(entries, key) {
        Some(at) => {
            assert forall|i: int, j: int| 0 <= i < j < after.len() implies !same_node(
                (#[trigger] after[i]).0,
                (#[trigger] after[j]).0,
            ) by {
                let from_i = if i < at {
                    i
                } else {
                    i + 1
                };
                assert(after[i] == entries[from_i]);
                if j < after.len() - 1 {
                    let from_j = if j < at {
                        j
                    } else {
                        j + 1
                    };
                    assert(after[j] == entries[from_j]);
                } else {
                    assert(after[j].0 == entries[at].0);
                    if from_i > at {
                        lemma_same_node_symmetric(entries[from_i].0, entries[at].0);
                    }
                }
            }
        },
        None => {
            assert forall|i: int, j: int| 0 <= i < j < after.len() implies !same_node(
                (#[trigger] after[i]).0,
                (#[trigger] after[j]).0,
            ) by {
                assert(after[i] == entries[i]);
                if j < after.len() - 1 {
                    assert(after[j] == entries[j]);
                }
            }
        },
    }
}

/// A mapping that is built from pairs has distinct keys.
pub proof fn lemma_build_mapping(pairs: Seq<(NodeView, NodeView)>)
    ensures
        distinct_keys(build_mapping(pairs)),
    decreases pairs.len(),
{
    if pairs.len() > 0 {
        lemma_build_mapping(pairs.drop_last());
        lemma_insert_entry(build_mapping(pairs.drop_last()), pairs.last().0, pairs.last().1);
    }
}

/// Every key and every value of the entries has the property `p`.
pub open spec fn entries_all(
    entries: Seq<(NodeView, NodeView)>,
    p: spec_fn(NodeView) -> bool,
) -> bool {
    forall|i: int| 0 <= i < entries.len() ==> p((#[trigger] entries[i]).0) && p(entries[i].1)
}

/// Giving a key with a value keeps a property that every key and every
/// value has.
pub proof fn lemma_insert_entry_keeps(
    entries: Seq<(NodeView, NodeView)>,
    key: NodeView,
    value: NodeView,
    p: spec_fn(NodeView) -> bool,
)
    requires
        entries_all(entries, p),
        p(key),
        p(value),
    ensures
        entries_all(insert_entry(entries, key, value), p),
{
    lemma_find_key(entries, key);
    let after = insert_entry(entries, key, value);
    match find_key(entries, key) {
        Some(at) => {
            assert forall|i: int| 0 <= i < after.len() implies p((#[trigger] after[i]).0) && p(
                after[i].1,
            ) by {
                if i < after.len() - 1 {
                    let from_i = if i < at {
                        i
                    } else {
                        i + 1
                    };
                    assert(after[i] == entries[from_i]);
                } else {
                    assert(after[i].0 == entries[at].0);
                }
            }
        },
        None => {
            assert forall|i: int| 0 <= i < after.len() implies p((#[trigger] after[i]).0) && p(
                after[i].1,
            ) by {
                if i < after.len() - 1 {
                    assert(after[i] == entries[i]);
                }
            }
        },
    }
}

/// A mapping that is built from pairs keeps a property that every key and
/// every value of the pairs has.
pub proof fn lemma_build_mapping_keeps(
    pairs: Seq<(NodeView, NodeView)>,
    p: spec_fn(NodeView) -> bool,
)
    requires
        entries_all(pairs, p),
    ensures
        entries_all(build_mapping(pairs), p),
    decreases pairs.len(),
{
    if pairs.len() > 0 {
        assert forall|i: int| 0 <= i < pairs.len() - 1 implies p(
            (#[trigger] pairs.drop_last()[i]).0,
        ) && p(pairs.drop_last()[i].1) by {
            assert(pairs.drop_last()[i] == pairs[i]);
        }
        lemma_build_mapping_keeps(pairs.drop_last(), p);
        lemma_insert_entry_keeps(
            build_mapping(pairs.drop_last()),
            pairs.last().0,
            pairs.last().1,
            p,
        );
    }
}

/// Building from one pair more is giving its key to what was built.
pub proof fn lemma_build_mapping_step(pairs: Seq<(NodeView, NodeView)>, n: int)
    requires
        0 <= n < pairs.len(),
    ensures
        build_mapping(pairs.take(n + 1)) == insert_entry(
            build_mapping(pairs.take(n)),
            pairs[n].0,
            pairs[n].1,
        ),
{
    assert(pairs.take(n + 1).drop_last() =~= pairs.take(n));
}

/// Building never gives more entries than there are pairs.
pub proof fn lemma_build_mapping_len(pairs: Seq<(NodeView, NodeView)>)
    ensures
        build_mapping(pairs).len() <= pairs.len(),
    decreases pairs.len(),
{
    if pairs.len() > 0 {
        lemma_build_mapping_len(pairs.drop_last());
        lemma_find_key(build_mapping(pairs.drop_last()), pairs.last().0);
    }
}

/// Pairs with distinct keys are built into themselves: every pair is kept,
/// in its place.
pub proof fn lemma_build_distinct(pairs: Seq<(NodeView, NodeView)>)
    requires
        distinct_keys(pairs),
    ensures
        build_mapping(pairs) == pairs,
    decreases pairs.len(),
{
    if pairs.len() > 0 {
        let head = pairs.drop_last();
        assert forall|i: int, j: int| 0 <= i < j < head.len() implies !same_node(
            (#[trigger] head[i]).0,
            (#[trigger] head[j]).0,
        ) by {
            assert(head[i] == pairs[i] && head[j] == pairs[j]);
        }
        lemma_build_distinct(head);
        lemma_find_key(head, pairs.last().0);
        if find_key(head, pairs.last().0) is Some {
            let at = find_key(head, pairs.last().0)->Some_0;
            assert(head[at] == pairs[at]);
            assert(pairs.last() == pairs[pairs.len() - 1]);
        }
        assert(head.push(pairs.last()) =~= pairs);
    } else {
        assert(pairs =~= Seq::empty());
    }
}

/// Pairs of which every one is kept have distinct keys.
pub proof fn lemma_build_full(pairs: Seq<(NodeView, NodeView)>)
    requires
        build_mapping(pairs).len() == pairs.len(),
    ensures
        distinct_keys(pairs),
    decreases pairs.len(),
{
    if pairs.len() > 0 {
        let head = pairs.drop_last();
        lemma_build_mapping_len(head);
        lemma_find_key(build_mapping(head), pairs.last().0);
        lemma_build_full(head);
        lemma_build_distinct(head);
        assert forall|i: int, j: int| 0 <= i < j < pairs.len() implies !same_node(
            (#[trigger] pairs[i]).0,
            (#[trigger] pairs[j]).0,
        ) by {
            assert(head[i] == pairs[i]);
            if j < pairs.len() - 1 {
                assert(head[j] == pairs[j]);
            } else {
                assert(pairs[j] == pairs.last());
            }
        }
    }
}

} // verus!
