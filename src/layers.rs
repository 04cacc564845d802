//! The mathematical model of a layered Merkle tree, generic over the digest
//! type and over the two ways of hashing (a leaf digest, and a pair of digests).
use vstd::prelude::*;
use crate::merkle_error::MerkleError;

verus! {

/// The digest above the `k`-th pair of `l`: `node` of a complete pair, and
/// `leaf` of a trailing singleton (the singleton is rehashed, not duplicated).
pub open spec fn parent_at<D>(l: Seq<D>, k: int, leaf: spec_fn(D) -> D, node: spec_fn(D, D) -> D) -> D {
    if 2 * k + 1 < l.len() {
        node(l[2 * k], l[2 * k + 1])
    } else {
        leaf(l[2 * k])
    }
}

/// The layer above `l`: one digest for each pair of `l`, taken left to right.
pub open spec fn parent_layer<D>(l: Seq<D>, leaf: spec_fn(D) -> D, node: spec_fn(D, D) -> D) -> Seq<D> {
    Seq::new(((l.len() + 1) / 2) as nat, |k: int| parent_at(l, k, leaf, node))
}

/// `l` and the layers above it, up to the first layer that holds a single digest.
pub open spec fn tower<D>(l: Seq<D>, leaf: spec_fn(D) -> D, node: spec_fn(D, D) -> D) -> Seq<Seq<D>>
    decreases l.len(),
{
    if l.len() <= 1 {
        seq![l]
    } else {
        seq![l] + tower(parent_layer(l, leaf, node), leaf, node)
    }
}

/// The layers that a full build produces from the leaf layer `leaves`: the
/// leaves, then parent layers up to the root layer. A single leaf is hashed
/// once more to give the root.
pub open spec fn built_layers<D>(leaves: Seq<D>, leaf: spec_fn(D) -> D, node: spec_fn(D, D) -> D) -> Seq<Seq<D>> {
    seq![leaves] + tower(parent_layer(leaves, leaf, node), leaf, node)
}

/// Every layer but the first is the parent layer of the one below it.
pub open spec fn linked<D>(ls: Seq<Seq<D>>, leaf: spec_fn(D) -> D, node: spec_fn(D, D) -> D) -> bool {
    forall|j: int| 1 <= j < ls.len() ==> #[trigger] ls[j] == parent_layer(ls[j - 1], leaf, node)
}

/// The shape of a built tree: a non-empty leaf layer, each layer above it the
/// parent layer of the one below, inner layers of two digests or more, and a
/// root layer of one digest.
pub open spec fn is_chain<D>(ls: Seq<Seq<D>>, leaf: spec_fn(D) -> D, node: spec_fn(D, D) -> D) -> bool {
    &&& ls.len() >= 2
    &&& ls[0].len() >= 1
    &&& linked(ls, leaf, node)
    &&& ls[ls.len() - 1].len() == 1
    &&& forall|j: int| 1 <= j < ls.len() - 1 ==> #[trigger] ls[j].len() >= 2
}

pub proof fn lemma_parent_len<D>(l: Seq<D>, leaf: spec_fn(D) -> D, node: spec_fn(D, D) -> D)
    ensures
        parent_layer(l, leaf, node).len() == (l.len() + 1) / 2,
        l.len() >= 1 ==> parent_layer(l, leaf, node).len() >= 1,
        l.len() >= 2 ==> parent_layer(l, leaf, node).len() < l.len(),
{
}

/// What `tower` builds has the shape of a chain above `l`.
pub proof fn lemma_tower_shape<D>(l: Seq<D>, leaf: spec_fn(D) -> D, node: spec_fn(D, D) -> D)
    requires
        l.len() >= 1,
    ensures
        tower(l, leaf, node).len() >= 1,
        tower(l, leaf, node)[0] == l,
        linked(tower(l, leaf, node), leaf, node),
        tower(l, leaf, node)[tower(l, leaf, node).len() - 1].len() == 1,
        forall|j: int| 0 <= j < tower(l, leaf, node).len() - 1 ==> #[trigger] tower(l, leaf, node)[j].len() >= 2,
    decreases l.len(),
{
    if l.len() > 1 {
        let p = parent_layer(l, leaf, node);
        lemma_parent_len(l, leaf, node);
        lemma_tower_shape(p, leaf, node);
        let t = tower(l, leaf, node);
        let tp = tower(p, leaf, node);
        assert(t == seq![l] + tp);
        assert forall|j: int| 1 <= j < t.len() implies #[trigger] t[j] == parent_layer(t[j - 1], leaf, node) by {
            if j > 1 {
                assert(t[j] == tp[j - 1]);
                assert(t[j - 1] == tp[j - 2]);
            }
        }
        assert forall|j: int| 0 <= j < t.len() - 1 implies #[trigger] t[j].len() >= 2 by {
            if j > 0 {
                assert(t[j] == tp[j - 1]);
            }
        }
    }
}

/// A chain above `l` is exactly `tower(l)`.
pub proof fn lemma_tower_unique<D>(ls: Seq<Seq<D>>, leaf: spec_fn(D) -> D, node: spec_fn(D, D) -> D)
    requires
        ls.len() >= 1,
        linked(ls, leaf, node),
        ls[ls.len() - 1].len() == 1,
        forall|j: int| 0 <= j < ls.len() - 1 ==> #[trigger] ls[j].len() >= 2,
    ensures
        ls == tower(ls[0], leaf, node),
    decreases ls.len(),
{
    if ls.len() == 1 {
        assert(ls =~= seq![ls[0]]);
    } else {
        let rest = ls.drop_first();
        assert(ls[1] == parent_layer(ls[0], leaf, node));
        assert forall|j: int| 1 <= j < rest.len() implies #[trigger] rest[j] == parent_layer(rest[j - 1], leaf, node) by {
            assert(ls[j + 1] == parent_layer(ls[j], leaf, node));
        }
        assert forall|j: int| 0 <= j < rest.len() - 1 implies #[trigger] rest[j].len() >= 2 by {
            assert(ls[j + 1].len() >= 2);
        }
        lemma_tower_unique(rest, leaf, node);
        assert(ls[0].len() >= 2);
        assert(ls =~= seq![ls[0]] + rest);
    }
}

/// A full build of a non-empty leaf layer has the shape of a chain.
pub proof fn lemma_built_is_chain<D>(leaves: Seq<D>, leaf: spec_fn(D) -> D, node: spec_fn(D, D) -> D)
    requires
        leaves.len() >= 1,
    ensures
        is_chain(built_layers(leaves, leaf, node), leaf, node),
        built_layers(leaves, leaf, node)[0] == leaves,
{
    let p = parent_layer(leaves, leaf, node);
    lemma_parent_len(leaves, leaf, node);
    lemma_tower_shape(p, leaf, node);
    let b = built_layers(leaves, leaf, node);
    let tp = tower(p, leaf, node);
    assert(b == seq![leaves] + tp);
    assert forall|j: int| 1 <= j < b.len() implies #[trigger] b[j] == parent_layer(b[j - 1], leaf, node) by {
        if j > 1 {
            assert(b[j] == tp[j - 1]);
            assert(b[j - 1] == tp[j - 2]);
        }
    }
    assert forall|j: int| 1 <= j < b.len() - 1 implies #[trigger] b[j].len() >= 2 by {
        assert(b[j] == tp[j - 1]);
    }
}

/// A chain is the full build of its own leaf layer.
pub proof fn lemma_chain_is_built<D>(ls: Seq<Seq<D>>, leaf: spec_fn(D) -> D, node: spec_fn(D, D) -> D)
    requires
        is_chain(ls, leaf, node),
    ensures
        ls == built_layers(ls[0], leaf, node),
{
    let rest = ls.drop_first();
    assert forall|j: int| 1 <= j < rest.len() implies #[trigger] rest[j] == parent_layer(rest[j - 1], leaf, node) by {
        assert(ls[j + 1] == parent_layer(ls[j], leaf, node));
    }
    assert forall|j: int| 0 <= j < rest.len() - 1 implies #[trigger] rest[j].len() >= 2 by {
        assert(ls[j + 1].len() >= 2);
    }
    lemma_tower_unique(rest, leaf, node);
    assert(ls[1] == parent_layer(ls[0], leaf, node));
    assert(ls =~= seq![ls[0]] + rest);
}

/// Putting the parent layer of the top layer on top keeps the layers linked.
pub proof fn lemma_linked_push<D>(ls: Seq<Seq<D>>, leaf: spec_fn(D) -> D, node: spec_fn(D, D) -> D)
    requires
        ls.len() >= 1,
        linked(ls, leaf, node),
    ensures
        linked(ls.push(parent_layer(ls[ls.len() - 1], leaf, node)), leaf, node),
{
    let ls2 = ls.push(parent_layer(ls[ls.len() - 1], leaf, node));
    assert forall|j: int| 1 <= j < ls2.len() implies #[trigger] ls2[j] == parent_layer(ls2[j - 1], leaf, node) by {
        if j < ls.len() {
            assert(ls[j] == parent_layer(ls[j - 1], leaf, node));
        }
    }
}

/// A single leaf `x` builds into two layers: the leaf, and the root `leaf(x)`.
pub proof fn lemma_singleton_build<D>(x: D, leaf: spec_fn(D) -> D, node: spec_fn(D, D) -> D)
    ensures
        built_layers(seq![x], leaf, node) == seq![seq![x], seq![leaf(x)]],
{
    let p = parent_layer(seq![x], leaf, node);
    assert(p =~= seq![leaf(x)]);
    assert(tower(p, leaf, node) == seq![p]);
    assert(built_layers(seq![x], leaf, node) =~= seq![seq![x], seq![leaf(x)]]);
}

/// Appending to a layer of even length adds a trailing singleton's parent above it.
pub proof fn lemma_parent_push_even<D>(l: Seq<D>, e: D, leaf: spec_fn(D) -> D, node: spec_fn(D, D) -> D)
    requires
        l.len() % 2 == 0,
    ensures
        parent_layer(l.push(e), leaf, node) == parent_layer(l, leaf, node).push(leaf(e)),
{
    let a = parent_layer(l.push(e), leaf, node);
    let b = parent_layer(l, leaf, node).push(leaf(e));
    assert forall|k: int| 0 <= k < a.len() implies a[k] == b[k] by {
        if 2 * k + 1 < l.len() {
            assert(l.push(e)[2 * k] == l[2 * k]);
            assert(l.push(e)[2 * k + 1] == l[2 * k + 1]);
        }
    }
    assert(a =~= b);
}

/// Where two layers have as many pairs and agree before their last pair, their
/// parent layers differ at most in the last digest.
pub proof fn lemma_parent_tail<D>(l: Seq<D>, l2: Seq<D>, leaf: spec_fn(D) -> D, node: spec_fn(D, D) -> D)
    requires
        l.len() >= 1,
        (l2.len() + 1) / 2 == (l.len() + 1) / 2,
        forall|i: int| 0 <= i < 2 * ((l.len() + 1) / 2 - 1) ==> #[trigger] l2[i] == l[i],
    ensures
        parent_layer(l2, leaf, node) == parent_layer(l, leaf, node).update(
            (l.len() + 1) / 2 - 1,
            parent_at(l2, (l.len() + 1) / 2 - 1, leaf, node),
        ),
{
    let p: nat = (l.len() + 1) / 2;
    let a = parent_layer(l2, leaf, node);
    let b = parent_layer(l, leaf, node).update(p - 1, parent_at(l2, p - 1, leaf, node));
    assert forall|k: int| 0 <= k < a.len() implies a[k] == b[k] by {
        if k < p - 1 {
            assert(l2[2 * k] == l[2 * k]);
            assert(l2[2 * k + 1] == l[2 * k + 1]);
        }
    }
    assert(a =~= b);
}

/// The parent that a build computes for the last pair of `l`.
pub proof fn lemma_last_parent<D>(l: Seq<D>, leaf: spec_fn(D) -> D, node: spec_fn(D, D) -> D)
    requires
        l.len() >= 1,
    ensures
        l.len() % 2 == 0 ==> parent_at(l, (l.len() + 1) / 2 - 1, leaf, node) == node(l[l.len() - 2], l[l.len() - 1]),
        l.len() % 2 == 1 ==> parent_at(l, (l.len() + 1) / 2 - 1, leaf, node) == leaf(l[l.len() - 1]),
{
}

/// The state of a repair walking up the layers `v` of a tree whose layers were
/// the chain `o` before a leaf was appended: layers `0..=i` each grew by one
/// digest and are linked, the layers above `i` are as they were.
pub closed spec fn grown<D>(v: Seq<Seq<D>>, o: Seq<Seq<D>>, i: int, leaf: spec_fn(D) -> D, node: spec_fn(D, D) -> D) -> bool {
    &&& 0 <= i < o.len()
    &&& v.len() == o.len()
    &&& forall|j: int| 1 <= j <= i ==> #[trigger] v[j] == parent_layer(v[j - 1], leaf, node)
    &&& forall|j: int| 0 <= j <= i ==> #[trigger] v[j] == o[j].push(v[j][v[j].len() - 1])
    &&& forall|j: int| i < j < o.len() ==> #[trigger] v[j] == o[j]
}

pub proof fn lemma_grown_start<D>(o: Seq<Seq<D>>, e: D, leaf: spec_fn(D) -> D, node: spec_fn(D, D) -> D)
    requires
        is_chain(o, leaf, node),
    ensures
        grown(o.update(0, o[0].push(e)), o, 0, leaf, node),
{
}

pub proof fn lemma_grown_len<D>(v: Seq<Seq<D>>, o: Seq<Seq<D>>, i: int, leaf: spec_fn(D) -> D, node: spec_fn(D, D) -> D)
    requires
        is_chain(o, leaf, node),
        grown(v, o, i, leaf, node),
    ensures
        0 <= i < o.len(),
        v.len() == o.len(),
        v[i].len() == o[i].len() + 1,
        v[i].len() >= 2,
        i == o.len() - 1 ==> v[i].len() == 2,
        v[0] == o[0].push(v[0][v[0].len() - 1]),
{
    assert(v[0] == o[0].push(v[0][v[0].len() - 1]));
    assert(v[i] == o[i].push(v[i][v[i].len() - 1]));
    if 0 < i < o.len() - 1 {
        assert(o[i].len() >= 2);
    }
}

/// The odd case: the grown layer `i` ends in a new singleton, whose parent is
/// appended to the layer above.
pub proof fn lemma_grown_odd<D>(v: Seq<Seq<D>>, o: Seq<Seq<D>>, i: int, leaf: spec_fn(D) -> D, node: spec_fn(D, D) -> D)
    requires
        is_chain(o, leaf, node),
        grown(v, o, i, leaf, node),
        i < o.len() - 1,
        v[i].len() % 2 == 1,
    ensures
        grown(v.update(i + 1, v[i + 1].push(leaf(v[i][v[i].len() - 1]))), o, i + 1, leaf, node),
{
    let e = v[i][v[i].len() - 1];
    let v2 = v.update(i + 1, v[i + 1].push(leaf(e)));
    assert(v[i] == o[i].push(e));
    lemma_parent_push_even(o[i], e, leaf, node);
    assert(o[i + 1] == parent_layer(o[i], leaf, node));
    assert(v[i + 1] == o[i + 1]);
    assert(v2[i + 1] == parent_layer(v2[i], leaf, node));
    assert forall|j: int| 1 <= j <= i + 1 implies #[trigger] v2[j] == parent_layer(v2[j - 1], leaf, node) by {
        if j <= i {
            assert(v[j] == parent_layer(v[j - 1], leaf, node));
        }
    }
    assert forall|j: int| 0 <= j <= i + 1 implies #[trigger] v2[j] == o[j].push(v2[j][v2[j].len() - 1]) by {
        if j <= i {
            assert(v[j] == o[j].push(v[j][v[j].len() - 1]));
        }
    }
}

/// The top case: the grown top layer holds two digests; a new root layer
/// above it completes a chain.
pub proof fn lemma_grown_top<D>(v: Seq<Seq<D>>, o: Seq<Seq<D>>, i: int, leaf: spec_fn(D) -> D, node: spec_fn(D, D) -> D)
    requires
        is_chain(o, leaf, node),
        grown(v, o, i, leaf, node),
        i == o.len() - 1,
    ensures
        v[i].len() == 2,
        parent_layer(v[i], leaf, node) == seq![node(v[i][0], v[i][1])],
        is_chain(v.push(seq![node(v[i][0], v[i][1])]), leaf, node),
        v.push(seq![node(v[i][0], v[i][1])])[0] == v[0],
{
    lemma_grown_len(v, o, i, leaf, node);
    let top = seq![node(v[i][0], v[i][1])];
    assert(parent_layer(v[i], leaf, node) =~= top);
    let v2 = v.push(top);
    assert forall|j: int| 1 <= j < v2.len() implies #[trigger] v2[j] == parent_layer(v2[j - 1], leaf, node) by {
        if j <= i {
            assert(v[j] == parent_layer(v[j - 1], leaf, node));
        }
    }
    assert forall|j: int| 1 <= j < v2.len() - 1 implies #[trigger] v2[j].len() >= 2 by {
        assert(v[j] == o[j].push(v[j][v[j].len() - 1]));
    }
    assert(v[0] == o[0].push(v[0][v[0].len() - 1]));
}

/// The state of the sweep of a repair over the layers `v`, which were the
/// chain `o` before a leaf was appended: layers `0..=start` grew by one digest,
/// layer `start` to even length; layers `start+1..=c` differ from before at
/// most in their last digest; layers `0..=c` are linked; the rest are as they were.
pub closed spec fn swept<D>(v: Seq<Seq<D>>, o: Seq<Seq<D>>, start: int, c: int, leaf: spec_fn(D) -> D, node: spec_fn(D, D) -> D) -> bool {
    &&& 0 <= start <= c < o.len()
    &&& start < o.len() - 1
    &&& v.len() == o.len()
    &&& o[start].len() % 2 == 1
    &&& forall|j: int| 1 <= j <= c ==> #[trigger] v[j] == parent_layer(v[j - 1], leaf, node)
    &&& forall|j: int| 0 <= j <= start ==> #[trigger] v[j] == o[j].push(v[j][v[j].len() - 1])
    &&& forall|j: int| start < j <= c ==> (#[trigger] v[j]).len() == o[j].len()
    &&& forall|j: int, k: int| start < j <= c && 0 <= k < o[j].len() - 1 ==> #[trigger] v[j][k] == o[j][k]
    &&& forall|j: int| c < j < o.len() ==> #[trigger] v[j] == o[j]
}

/// The even case starts the sweep.
pub proof fn lemma_sweep_start<D>(v: Seq<Seq<D>>, o: Seq<Seq<D>>, i: int, leaf: spec_fn(D) -> D, node: spec_fn(D, D) -> D)
    requires
        is_chain(o, leaf, node),
        grown(v, o, i, leaf, node),
        i < o.len() - 1,
        v[i].len() % 2 == 0,
    ensures
        swept(v, o, i, i, leaf, node),
{
    lemma_grown_len(v, o, i, leaf, node);
}

/// One step of the sweep: the last digest of layer `c + 1` becomes the parent
/// of the last pair of layer `c`.
pub proof fn lemma_sweep_step<D>(v: Seq<Seq<D>>, o: Seq<Seq<D>>, start: int, c: int, leaf: spec_fn(D) -> D, node: spec_fn(D, D) -> D)
    requires
        is_chain(o, leaf, node),
        swept(v, o, start, c, leaf, node),
        c < o.len() - 1,
    ensures
        0 <= start <= c,
        v.len() == o.len(),
        v[c].len() >= 1,
        v[c + 1].len() >= 1,
        swept(
            v.update(c + 1, v[c + 1].update(v[c + 1].len() - 1, parent_at(v[c], (v[c].len() + 1) / 2 - 1, leaf, node))),
            o,
            start,
            c + 1,
            leaf,
            node,
        ),
{
    let l = o[c];
    let l2 = v[c];
    let p: nat = (l.len() + 1) / 2;
    assert(o[c + 1] == parent_layer(o[c], leaf, node));
    lemma_parent_len(l, leaf, node);
    if c > 0 {
        assert(o[c].len() >= 2);
    }
    if c == start {
        assert(l2 == l.push(l2[l2.len() - 1]));
    } else {
        assert(l2.len() == l.len());
    }
    assert forall|k: int| 0 <= k < 2 * (p - 1) implies #[trigger] l2[k] == l[k] by {
        if c == start {
            assert(l2 == l.push(l2[l2.len() - 1]));
        } else {
            assert(v[c][k] == o[c][k]);
        }
    }
    lemma_parent_tail(l, l2, leaf, node);
    let d = parent_at(l2, (l2.len() + 1) / 2 - 1, leaf, node);
    let v2 = v.update(c + 1, v[c + 1].update(v[c + 1].len() - 1, d));
    assert(v[c + 1] == o[c + 1]);
    assert(v2[c + 1] == parent_layer(v2[c], leaf, node));
    assert forall|j: int| 1 <= j <= c + 1 implies #[trigger] v2[j] == parent_layer(v2[j - 1], leaf, node) by {
        if j <= c {
            assert(v[j] == parent_layer(v[j - 1], leaf, node));
        }
    }
    assert forall|j: int| 0 <= j <= start implies #[trigger] v2[j] == o[j].push(v2[j][v2[j].len() - 1]) by {
        assert(v[j] == o[j].push(v[j][v[j].len() - 1]));
    }
    assert forall|j: int| start < j <= c + 1 implies (#[trigger] v2[j]).len() == o[j].len() by {
        if j <= c {
            assert(v[j].len() == o[j].len());
        }
    }
    assert forall|j: int, k: int| start < j <= c + 1 && 0 <= k < o[j].len() - 1 implies #[trigger] v2[j][k] == o[j][k] by {
        if j <= c {
            assert(v[j][k] == o[j][k]);
        }
    }
}

/// A sweep that reached the root layer leaves a chain.
pub proof fn lemma_sweep_done<D>(v: Seq<Seq<D>>, o: Seq<Seq<D>>, start: int, leaf: spec_fn(D) -> D, node: spec_fn(D, D) -> D)
    requires
        is_chain(o, leaf, node),
        swept(v, o, start, o.len() - 1, leaf, node),
    ensures
        is_chain(v, leaf, node),
{
    let h: nat = o.len();
    assert(v[h - 1].len() == o[h - 1].len());
    assert forall|j: int| 1 <= j < h - 1 implies #[trigger] v[j].len() >= 2 by {
        assert(o[j].len() >= 2);
        if j <= start {
            assert(v[j] == o[j].push(v[j][v[j].len() - 1]));
        } else {
            assert(v[j].len() == o[j].len());
        }
    }
    assert(v[0] == o[0].push(v[0][v[0].len() - 1]));
}

/// The index of the first occurrence of `t` in `s`, or -1 where there is none.
pub open spec fn first_index<D>(s: Seq<D>, t: D) -> int
    decreases s.len(),
{
    if s.len() == 0 {
        -1
    } else if s[0] == t {
        0
    } else {
        let r = first_index(s.drop_first(), t);
        if r < 0 {
            -1
        } else {
            r + 1
        }
    }
}

pub proof fn lemma_first_index<D>(s: Seq<D>, t: D)
    ensures
        -1 <= first_index(s, t) < s.len(),
        first_index(s, t) >= 0 ==> s[first_index(s, t)] == t,
        forall|k: int| 0 <= k < first_index(s, t) ==> s[k] != t,
        first_index(s, t) < 0 ==> forall|k: int| 0 <= k < s.len() ==> s[k] != t,
    decreases s.len(),
{
    if s.len() > 0 && s[0] != t {
        let rest = s.drop_first();
        lemma_first_index(rest, t);
        assert forall|k: int| 0 <= k < first_index(s, t) implies s[k] != t by {
            if k > 0 {
                assert(s[k] == rest[k - 1]);
            }
        }
        if first_index(s, t) < 0 {
            assert forall|k: int| 0 <= k < s.len() implies s[k] != t by {
                if k > 0 {
                    assert(s[k] == rest[k - 1]);
                }
            }
        }
    }
}

/// The digest expected above position `idx` of layer `l`, where `cur` stands
/// at that position: combined with its sibling in positional order, or
/// rehashed alone where it is a trailing singleton.
pub open spec fn expected_parent<D>(l: Seq<D>, idx: int, cur: D, leaf: spec_fn(D) -> D, node: spec_fn(D, D) -> D) -> D {
    if idx % 2 == 1 {
        node(l[idx - 1], cur)
    } else if idx + 1 < l.len() {
        node(cur, l[idx + 1])
    } else {
        leaf(cur)
    }
}

/// Climbs from position `idx` of layer `j`, where `cur` stands, to the first
/// layer of one digest; checks each expected parent against the stored one
/// and appends it to `path`.
pub open spec fn climb<D>(
    ls: Seq<Seq<D>>,
    j: int,
    idx: int,
    cur: D,
    path: Seq<D>,
    leaf: spec_fn(D) -> D,
    node: spec_fn(D, D) -> D,
) -> Result<Seq<D>, MerkleError>
    decreases ls.len() - j,
{
    if j < 0 || j >= ls.len() || idx < 0 || idx >= ls[j].len() {
        Err(MerkleError::TreeInvalidated)
    } else if ls[j].len() <= 1 {
        Ok(path)
    } else {
        let up = expected_parent(ls[j], idx, cur, leaf, node);
        let p: int = idx / 2;
        if j + 1 < ls.len() && p < ls[j + 1].len() && ls[j + 1][p] == up {
            climb(ls, j + 1, p, up, path.push(up), leaf, node)
        } else {
            Err(MerkleError::TreeInvalidated)
        }
    }
}

/// The audit path of the leaf digest `t` in the layers `ls`.
pub open spec fn audit_path<D>(ls: Seq<Seq<D>>, t: D, leaf: spec_fn(D) -> D, node: spec_fn(D, D) -> D) -> Result<Seq<D>, MerkleError> {
    if ls.len() == 0 || ls[0].len() == 0 {
        Err(MerkleError::NoLeaves)
    } else if ls[0].len() == 1 {
        if ls.len() >= 2 && ls[1].len() >= 1 && leaf(t) == ls[1][0] {
            Ok(seq![leaf(t)])
        } else {
            Err(MerkleError::TreeInvalidated)
        }
    } else {
        let i = first_index(ls[0], t);
        if i < 0 {
            Err(MerkleError::NotFound)
        } else {
            climb(ls, 0, i, t, Seq::empty(), leaf, node)
        }
    }
}

/// The position above `idx` after climbing `n` layers.
pub open spec fn ancestor_index(idx: int, n: nat) -> int
    decreases n,
{
    if n == 0 {
        idx
    } else {
        ancestor_index(idx / 2, (n - 1) as nat)
    }
}

/// Where the digest at `idx` is the stored one, the expected parent is the
/// parent that a build computes for its pair.
proof fn lemma_expected_parent<D>(l: Seq<D>, idx: int, leaf: spec_fn(D) -> D, node: spec_fn(D, D) -> D)
    requires
        0 <= idx < l.len(),
    ensures
        expected_parent(l, idx, l[idx], leaf, node) == parent_at(l, idx / 2, leaf, node),
        idx / 2 < (l.len() + 1) / 2,
{
    if idx % 2 == 1 {
        assert(2 * (idx / 2) == idx - 1);
    } else {
        assert(2 * (idx / 2) == idx);
    }
}

proof fn lemma_climb_chain<D>(
    ls: Seq<Seq<D>>,
    j: int,
    idx: int,
    path: Seq<D>,
    leaf: spec_fn(D) -> D,
    node: spec_fn(D, D) -> D,
)
    requires
        0 <= j < ls.len(),
        0 <= idx < ls[j].len(),
        linked(ls, leaf, node),
        ls[ls.len() - 1].len() == 1,
        forall|k: int| j <= k < ls.len() - 1 ==> #[trigger] ls[k].len() >= 2,
    ensures
        climb(ls, j, idx, ls[j][idx], path, leaf, node) is Ok,
        climb(ls, j, idx, ls[j][idx], path, leaf, node)->Ok_0.len() == path.len() + ls.len() - 1 - j,
        j < ls.len() - 1 ==> climb(ls, j, idx, ls[j][idx], path, leaf, node)->Ok_0.last() == ls[ls.len() - 1][0],
    decreases ls.len() - j,
{
    if j < ls.len() - 1 {
        let l = ls[j];
        assert(l.len() >= 2);
        let p: int = idx / 2;
        let up = expected_parent(l, idx, l[idx], leaf, node);
        assert(ls[j + 1] == parent_layer(l, leaf, node));
        lemma_expected_parent(l, idx, leaf, node);
        assert(ls[j + 1][p] == up);
        assert(climb(ls, j, idx, l[idx], path, leaf, node) == climb(ls, j + 1, p, up, path.push(up), leaf, node));
        lemma_climb_chain(ls, j + 1, p, path.push(up), leaf, node);
        if j + 1 == ls.len() - 1 {
            assert(ls[j + 1].len() == 1);
            assert(p == 0);
        }
    } else {
        assert(ls[j].len() == 1);
    }
}

/// For every leaf of a built tree, the audit succeeds, and its path has one
/// digest for each layer above the leaves and ends in the root.
pub proof fn lemma_audit_reaches_root<D>(ls: Seq<Seq<D>>, t: D, leaf: spec_fn(D) -> D, node: spec_fn(D, D) -> D)
    requires
        is_chain(ls, leaf, node),
        ls[0].contains(t),
    ensures
        audit_path(ls, t, leaf, node) is Ok,
        audit_path(ls, t, leaf, node)->Ok_0.len() == ls.len() - 1,
        audit_path(ls, t, leaf, node)->Ok_0.last() == ls[ls.len() - 1][0],
{
    let n: nat = ls.len();
    if ls[0].len() == 1 {
        assert(ls[0][0] == t);
        assert(ls[1] == parent_layer(ls[0], leaf, node));
        assert(ls[1][0] == leaf(t));
        if n > 2 {
            assert(ls[1].len() >= 2);
        }
    } else {
        lemma_first_index(ls[0], t);
        let i = first_index(ls[0], t);
        assert(i >= 0);
        lemma_climb_chain(ls, 0, i, Seq::empty(), leaf, node);
    }
}

/// The layers `ls` with the digest at position `k` of layer `j` replaced by `v`.
pub open spec fn tampered<D>(ls: Seq<Seq<D>>, j: int, k: int, v: D) -> Seq<Seq<D>> {
    ls.update(j, ls[j].update(k, v))
}

proof fn lemma_climb_tampered<D>(
    ls: Seq<Seq<D>>,
    jj: int,
    idx: int,
    path: Seq<D>,
    j: int,
    v: D,
    leaf: spec_fn(D) -> D,
    node: spec_fn(D, D) -> D,
)
    requires
        0 <= jj < j < ls.len(),
        0 <= idx < ls[jj].len(),
        linked(ls, leaf, node),
        forall|k: int| jj <= k < ls.len() - 1 ==> #[trigger] ls[k].len() >= 2,
        v != ls[j][ancestor_index(idx, (j - jj) as nat)],
    ensures
        climb(tampered(ls, j, ancestor_index(idx, (j - jj) as nat), v), jj, idx, ls[jj][idx], path, leaf, node)
            == Err::<Seq<D>, MerkleError>(MerkleError::TreeInvalidated),
    decreases j - jj,
{
    let k = ancestor_index(idx, (j - jj) as nat);
    let ls2 = tampered(ls, j, k, v);
    let l = ls[jj];
    assert(ls2[jj] == l);
    assert(l.len() >= 2);
    let up = expected_parent(l, idx, l[idx], leaf, node);
    assert(ls[jj + 1] == parent_layer(l, leaf, node));
    lemma_expected_parent(l, idx, leaf, node);
    assert(up == ls[jj + 1][idx / 2]);
    assert(ancestor_index(idx, (j - jj) as nat) == ancestor_index(idx / 2, (j - (jj + 1)) as nat));
    if jj + 1 == j {
        assert(ls2[j][idx / 2] == v);
    } else {
        assert(ls2[jj + 1] == ls[jj + 1]);
        lemma_climb_tampered(ls, jj + 1, idx / 2, path.push(up), j, v, leaf, node);
    }
}

/// In a built tree, replacing any stored digest above a leaf, on that leaf's
/// way to the root, by a different digest makes the leaf's audit fail with
/// `TreeInvalidated`.
pub proof fn lemma_tamper_detected<D>(
    ls: Seq<Seq<D>>,
    t: D,
    j: int,
    v: D,
    leaf: spec_fn(D) -> D,
    node: spec_fn(D, D) -> D,
)
    requires
        is_chain(ls, leaf, node),
        ls[0].contains(t),
        1 <= j < ls.len(),
        v != ls[j][ancestor_index(first_index(ls[0], t), j as nat)],
    ensures
        audit_path(tampered(ls, j, ancestor_index(first_index(ls[0], t), j as nat), v), t, leaf, node)
            == Err::<Seq<D>, MerkleError>(MerkleError::TreeInvalidated),
{
    lemma_first_index(ls[0], t);
    let i = first_index(ls[0], t);
    let k = ancestor_index(i, j as nat);
    let ls2 = tampered(ls, j, k, v);
    assert(ls2[0] == ls[0]);
    if ls[0].len() == 1 {
        assert(i == 0);
        if ls.len() > 2 {
            assert(ls[1].len() >= 2);
        }
        assert(j == 1);
        assert(ancestor_index(0, 1) == ancestor_index(0, 0));
        assert(ls[1] == parent_layer(ls[0], leaf, node));
        assert(ls2[1][0] == v);
    } else {
        lemma_climb_tampered(ls, 0, i, Seq::empty(), j, v, leaf, node);
    }
}

} // verus!
