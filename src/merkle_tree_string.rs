//! The Merkle tree over strings, hashed by the string stand-ins: leaves are
//! stored as given, a singleton is doubled and a pair concatenated.
use vstd::prelude::*;
use rayon::iter::ParallelIterator;
use rayon::slice::ParallelSlice;
use crate::hash_function_string::{hash_leaf_string, hash_node_string, leaf_string, leaf_string_fn, node_string, node_string_fn};
use crate::layers::{audit_path, built_layers, climb, grown, is_chain, lemma_chain_is_built,
    lemma_first_index, lemma_grown_len, lemma_grown_odd, lemma_grown_start, lemma_grown_top,
    lemma_last_parent, lemma_linked_push, lemma_parent_len, lemma_sweep_done,
    lemma_sweep_start, lemma_sweep_step, linked, parent_at, parent_layer, swept};
use crate::merkle_error::MerkleError;
use crate::serialization_format::SerializationFormat;

verus! {

/// The digests of a layer, each as its characters.
pub open spec fn digest_views(l: Seq<String>) -> Seq<Seq<char>> {
    l.map_values(|d: String| d@)
}

/// Layers as sequences of digests, each digest as its characters.
pub open spec fn layer_views(ls: Seq<Vec<String>>) -> Seq<Seq<Seq<char>>> {
    ls.map_values(|l: Vec<String>| digest_views(l@))
}

/// A path of digests, or the error that stopped it.
pub open spec fn path_view(r: Result<Vec<String>, MerkleError>) -> Result<Seq<Seq<char>>, MerkleError> {
    match r {
        Ok(p) => Ok(digest_views(p@)),
        Err(e) => Err(e),
    }
}

/// The layers of a full build from the leaf digests `leaves`.
pub open spec fn built_tree(leaves: Seq<Seq<char>>) -> Seq<Seq<Seq<char>>> {
    built_layers(leaves, leaf_string_fn(), node_string_fn())
}

/// A Merkle tree: layer 0 holds the leaf digests, each layer above holds the
/// parents of the pairs of the layer below, and a built tree ends in a layer
/// that holds the root alone.
#[derive(Debug, PartialEq, Eq)]
pub struct MerkleTreeString {
    layers: Vec<Vec<String>>,
    format: SerializationFormat,
    parallel: bool,
    built: bool,
}

impl MerkleTreeString {
    /// The layers, leaves first, each digest as its characters.
    pub closed spec fn layers_spec(&self) -> Seq<Seq<Seq<char>>> {
        layer_views(self.layers@)
    }

    /// The leaf digests.
    pub open spec fn leaves_spec(&self) -> Seq<Seq<char>> {
        self.layers_spec()[0]
    }

    pub closed spec fn format_spec(&self) -> SerializationFormat {
        self.format
    }

    pub closed spec fn parallel_spec(&self) -> bool {
        self.parallel
    }

    pub closed spec fn built_spec(&self) -> bool {
        self.built
    }

    /// The tree's invariant: a leaf layer alone before the first build, and
    /// after it exactly the layers of a full build from the current leaves.
    pub closed spec fn wf(&self) -> bool {
        &&& self.layers@.len() >= 1
        &&& self.built ==> is_chain(self.layers_spec(), leaf_string_fn(), node_string_fn())
        &&& !self.built ==> self.layers@.len() == 1
    }

    proof fn lemma_wf_built(&self)
        requires
            self.wf(),
        ensures
            self.layers_spec().len() == self.layers@.len(),
            self.layers_spec().len() >= 1,
            self.built_spec() ==> self.layers_spec() == built_tree(self.leaves_spec()),
            self.built_spec() ==> self.leaves_spec().len() >= 1,
            !self.built_spec() ==> self.layers_spec().len() == 1,
    {
        if self.built {
            lemma_chain_is_built(self.layers_spec(), leaf_string_fn(), node_string_fn());
        }
    }

    proof fn lemma_view_at(&self, i: int)
        requires
            0 <= i < self.layers@.len(),
        ensures
            self.layers_spec().len() == self.layers@.len(),
            self.layers_spec()[i].len() == self.layers@[i]@.len(),
            forall|k: int| 0 <= k < self.layers@[i]@.len() ==> #[trigger] self.layers_spec()[i][k] == self.layers@[i]@[k]@,
    {
    }

    /// Makes a tree that is not built yet, whose leaves are the given strings,
    /// in order.
    pub fn from(leafs: &[String], format: SerializationFormat) -> (r: MerkleTreeString)
        ensures
            r.wf(),
            r.layers_spec() == seq![Seq::new(leafs@.len(), |i: int| leafs@[i]@)],
            !r.built_spec(),
            r.parallel_spec(),
            r.format_spec() == format,
    {
        let mut base: Vec<String> = Vec::with_capacity(leafs.len());
        let mut i: usize = 0;
        while i < leafs.len()
            invariant
                i <= leafs@.len(),
                digest_views(base@) =~= Seq::new(i as nat, |k: int| leafs@[k]@),
            decreases leafs@.len() - i,
        {
            let ghost old_base = base@;
            let d = leafs[i].clone();
            base.push(d);
            assert(digest_views(base@) =~= digest_views(old_base).push(leafs@[i as int]@));
            i = i + 1;
        }
        let mut layers: Vec<Vec<String>> = Vec::new();
        layers.push(base);
        let r = MerkleTreeString { layers, format, parallel: true, built: false };
        assert(r.layers_spec() =~= seq![Seq::new(leafs@.len(), |i: int| leafs@[i]@)]);
        r
    }

    /// Whether the tree has been built.
    pub fn is_built(&self) -> (r: bool)
        ensures
            r == self.built_spec(),
    {
        self.built
    }

    /// Whether a build hashes the pairs of a layer in parallel.
    pub fn parallel(&self) -> (r: bool)
        ensures
            r == self.parallel_spec(),
    {
        self.parallel
    }

    /// Chooses whether a build hashes the pairs of a layer in parallel.
    pub fn set_parallel(&mut self, parallel: bool)
        requires
            old(self).wf(),
        ensures
            final(self).wf(),
            final(self).parallel_spec() == parallel,
            final(self).layers_spec() == old(self).layers_spec(),
            final(self).built_spec() == old(self).built_spec(),
            final(self).format_spec() == old(self).format_spec(),
    {
        self.parallel = parallel;
    }

    /// The leaf encoder chosen for this tree.
    pub fn format(&self) -> (r: SerializationFormat)
        ensures
            r == self.format_spec(),
    {
        self.format
    }

    /// The layers, leaves first.
    pub fn layers(&self) -> (r: &Vec<Vec<String>>)
        ensures
            layer_views(r@) == self.layers_spec(),
    {
        &self.layers
    }

    /// Hashes each pair of `layer` into the layer above it, one after another.
    fn generate_new_layer_sequence(layer: &Vec<String>) -> (r: Vec<String>)
        ensures
            digest_views(r@) == parent_layer(digest_views(layer@), leaf_string_fn(), node_string_fn()),
    {
        let ghost l = digest_views(layer@);
        let n: usize = layer.len();
        let mut out: Vec<String> = Vec::with_capacity(n / 2 + 1);
        let mut k: usize = 0;
        while k < n - k
            invariant
                n == layer@.len(),
                l == digest_views(layer@),
                k <= n,
                2 * k <= n + 1,
                out@.len() == k,
                digest_views(out@) =~= parent_layer(l, leaf_string_fn(), node_string_fn()).take(k as int),
            decreases n - k,
        {
            let ghost before = out@;
            let i: usize = 2 * k;
            let d = if i + 1 < n {
                hash_pair(&layer[i], &layer[i + 1])
            } else {
                hash_digest(&layer[i])
            };
            out.push(d);
            assert(digest_views(out@) =~= digest_views(before).push(d@));
            k = k + 1;
        }
        assert(digest_views(out@) =~= parent_layer(l, leaf_string_fn(), node_string_fn()));
        out
    }

    /// Appends to the layers the parent layer of the current top layer, hashed
    /// in parallel or sequentially as the tree is set to.
    fn create_new_layer(&mut self, current_layer_index: usize)
        requires
            current_layer_index + 1 == old(self).layers@.len(),
        ensures
            final(self).layers_spec() == old(self).layers_spec().push(
                parent_layer(old(self).layers_spec()[current_layer_index as int], leaf_string_fn(), node_string_fn()),
            ),
            final(self).layers@.len() == old(self).layers@.len() + 1,
            final(self).built == old(self).built,
            final(self).parallel == old(self).parallel,
            final(self).format == old(self).format,
    {
        let new_layer = if self.parallel {
            generate_new_layer_parallel(&self.layers[current_layer_index])
        } else {
            Self::generate_new_layer_sequence(&self.layers[current_layer_index])
        };
        self.layers.push(new_layer);
        assert(self.layers_spec() =~= old(self).layers_spec().push(
            parent_layer(old(self).layers_spec()[current_layer_index as int], leaf_string_fn(), node_string_fn()),
        ));
    }

    /// Builds every layer above the leaves from scratch, whatever was built
    /// before. Fails with `NoLeaves` where there are no leaves. The layers
    /// built are the same whether the pairs are hashed in parallel or not.
    pub fn build(&mut self) -> (r: Result<(), MerkleError>)
        requires
            old(self).wf(),
        ensures
            final(self).wf(),
            final(self).leaves_spec() == old(self).leaves_spec(),
            final(self).parallel_spec() == old(self).parallel_spec(),
            final(self).format_spec() == old(self).format_spec(),
            old(self).leaves_spec().len() == 0 ==> r == Err::<(), MerkleError>(MerkleError::NoLeaves)
                && final(self).layers_spec() == old(self).layers_spec()
                && final(self).built_spec() == old(self).built_spec(),
            old(self).leaves_spec().len() > 0 ==> r is Ok && final(self).built_spec()
                && final(self).layers_spec() == built_tree(old(self).leaves_spec()),
    {
        proof {
            self.lemma_wf_built();
        }
        if self.layers[0].len() == 0 {
            return Err(MerkleError::NoLeaves);
        }
        let ghost leaves = self.leaves_spec();
        self.layers.truncate(1);
        assert(self.layers_spec() =~= seq![leaves]);
        self.create_new_layer(0);
        let mut top: usize = 1;
        proof {
            lemma_parent_len(leaves, leaf_string_fn(), node_string_fn());
        }
        while self.layers[top].len() > 1
            invariant
                top + 1 == self.layers@.len(),
                top >= 1,
                self.layers_spec().len() == self.layers@.len(),
                self.layers_spec()[0] == leaves,
                leaves.len() >= 1,
                linked(self.layers_spec(), leaf_string_fn(), node_string_fn()),
                forall|j: int| 1 <= j < top ==> #[trigger] self.layers_spec()[j].len() >= 2,
                self.layers_spec()[top as int].len() >= 1,
                self.parallel == old(self).parallel,
                self.format == old(self).format,
            decreases self.layers_spec()[top as int].len(),
        {
            let ghost before = self.layers_spec();
            self.create_new_layer(top);
            proof {
                lemma_parent_len(before[top as int], leaf_string_fn(), node_string_fn());
                lemma_linked_push(before, leaf_string_fn(), node_string_fn());
                assert forall|j: int| 1 <= j < top + 1 implies #[trigger] self.layers_spec()[j].len() >= 2 by {
                    assert(self.layers_spec()[j] == before[j]);
                }
            }
            top = self.layers.len() - 1;
        }
        self.built = true;
        proof {
            assert(self.layers_spec()[top as int].len() == 1);
            assert(is_chain(self.layers_spec(), leaf_string_fn(), node_string_fn()));
            lemma_chain_is_built(self.layers_spec(), leaf_string_fn(), node_string_fn());
        }
        Ok(())
    }

    /// Appends `d` to layer `i`.
    fn push_digest(&mut self, i: usize, d: String)
        requires
            i < old(self).layers@.len(),
        ensures
            final(self).layers@.len() == old(self).layers@.len(),
            final(self).layers_spec() == old(self).layers_spec().update(i as int, old(self).layers_spec()[i as int].push(d@)),
            final(self).built == old(self).built,
            final(self).parallel == old(self).parallel,
            final(self).format == old(self).format,
    {
        self.layers[i].push(d);
        proof {
            assert(digest_views(self.layers@[i as int]@) =~= old(self).layers_spec()[i as int].push(d@));
            assert(self.layers_spec() =~= old(self).layers_spec().update(i as int, old(self).layers_spec()[i as int].push(d@)));
        }
    }

    /// Overwrites the last digest of layer `i` with `d`.
    fn set_last_digest(&mut self, i: usize, d: String)
        requires
            i < old(self).layers@.len(),
            old(self).layers@[i as int]@.len() >= 1,
        ensures
            final(self).layers@.len() == old(self).layers@.len(),
            final(self).layers_spec() == old(self).layers_spec().update(
                i as int,
                old(self).layers_spec()[i as int].update(old(self).layers_spec()[i as int].len() - 1, d@),
            ),
            final(self).built == old(self).built,
            final(self).parallel == old(self).parallel,
            final(self).format == old(self).format,
    {
        let last: usize = self.layers[i].len() - 1;
        self.layers[i].set(last, d);
        proof {
            let old_l = old(self).layers_spec()[i as int];
            assert(digest_views(self.layers@[i as int]@) =~= old_l.update(old_l.len() - 1, d@));
            assert(self.layers_spec() =~= old(self).layers_spec().update(i as int, old_l.update(old_l.len() - 1, d@)));
        }
    }

    /// Appends a string to the leaves. On a built tree
    /// it then repairs the digests above the new leaf, which leaves the tree
    /// exactly as a full build from the new leaves would.
    pub fn push(&mut self, other: &String)
        requires
            old(self).wf(),
        ensures
            final(self).wf(),
            final(self).leaves_spec() == old(self).leaves_spec().push(other@),
            old(self).built_spec() ==> final(self).layers_spec() == built_tree(final(self).leaves_spec()),
            !old(self).built_spec() ==> final(self).layers_spec() == seq![final(self).leaves_spec()],
            final(self).built_spec() == old(self).built_spec(),
            final(self).parallel_spec() == old(self).parallel_spec(),
            final(self).format_spec() == old(self).format_spec(),
    {
        proof {
            self.lemma_wf_built();
        }
        let ghost o = self.layers_spec();
        let d = other.clone();
        self.push_digest(0, d);
        if self.built {
            proof {
                lemma_grown_start(o, d@, leaf_string_fn(), node_string_fn());
            }
            self.repair_branch(Ghost(o), 0);
            proof {
                self.lemma_wf_built();
            }
        } else {
            assert(self.layers_spec() =~= seq![self.leaves_spec()]);
        }
    }

    /// Repairs the digests above a leaf just appended to a built tree whose
    /// layers were `o` before; layers `0..=i` have grown by one digest. A
    /// grown top layer gets a new root layer above it; an odd length appends
    /// the promoted singleton to the layer above and goes on from there; an
    /// even length starts the sweep.
    fn repair_branch(&mut self, Ghost(o): Ghost<Seq<Seq<Seq<char>>>>, i: usize)
        requires
            is_chain(o, leaf_string_fn(), node_string_fn()),
            old(self).built,
            old(self).layers@.len() == o.len(),
            grown(old(self).layers_spec(), o, i as int, leaf_string_fn(), node_string_fn()),
        ensures
            final(self).wf(),
            final(self).layers_spec()[0] == old(self).layers_spec()[0],
            final(self).built == old(self).built,
            final(self).parallel == old(self).parallel,
            final(self).format == old(self).format,
        decreases o.len() - i,
    {
        let ghost v = self.layers_spec();
        proof {
            lemma_grown_len(v, o, i as int, leaf_string_fn(), node_string_fn());
            self.lemma_view_at(i as int);
        }
        let n: usize = self.layers[i].len();
        if n <= 1 {
            return;
        }
        if i == self.layers.len() - 1 {
            self.add_root_layer(Ghost(o), i);
        } else if n % 2 == 1 {
            let d = hash_digest(&self.layers[i][n - 1]);
            proof {
                lemma_grown_odd(v, o, i as int, leaf_string_fn(), node_string_fn());
            }
            self.push_digest(i + 1, d);
            self.repair_branch(Ghost(o), i + 1);
        } else {
            proof {
                lemma_sweep_start(v, o, i as int, leaf_string_fn(), node_string_fn());
            }
            self.sweep_branch(Ghost(o), i);
        }
    }

    /// The top case of a repair: the top layer grew to two digests, and a new
    /// root layer above it holds their node hash.
    fn add_root_layer(&mut self, Ghost(o): Ghost<Seq<Seq<Seq<char>>>>, i: usize)
        requires
            is_chain(o, leaf_string_fn(), node_string_fn()),
            old(self).built,
            old(self).layers@.len() == o.len(),
            i + 1 == o.len(),
            grown(old(self).layers_spec(), o, i as int, leaf_string_fn(), node_string_fn()),
        ensures
            final(self).wf(),
            final(self).layers_spec()[0] == old(self).layers_spec()[0],
            final(self).built == old(self).built,
            final(self).parallel == old(self).parallel,
            final(self).format == old(self).format,
    {
        let ghost v = self.layers_spec();
        proof {
            lemma_grown_top(v, o, i as int, leaf_string_fn(), node_string_fn());
            self.lemma_view_at(i as int);
        }
        let d = hash_pair(&self.layers[i][0], &self.layers[i][1]);
        let mut root_layer: Vec<String> = Vec::new();
        root_layer.push(d);
        self.layers.push(root_layer);
        proof {
            assert(digest_views(root_layer@) =~= seq![d@]);
            assert(self.layers_spec() =~= v.push(seq![d@]));
        }
    }

    /// The sweep of a repair: from layer `start`, which grew to even length,
    /// up to the layer below the root, recomputes the parent of the last pair
    /// and overwrites the last digest of the layer above with it.
    fn sweep_branch(&mut self, Ghost(o): Ghost<Seq<Seq<Seq<char>>>>, start: usize)
        requires
            is_chain(o, leaf_string_fn(), node_string_fn()),
            old(self).built,
            old(self).layers@.len() == o.len(),
            start < o.len() - 1,
            swept(old(self).layers_spec(), o, start as int, start as int, leaf_string_fn(), node_string_fn()),
        ensures
            final(self).wf(),
            final(self).layers_spec()[0] == old(self).layers_spec()[0],
            final(self).built == old(self).built,
            final(self).parallel == old(self).parallel,
            final(self).format == old(self).format,
    {
        let mut c: usize = start;
        while c < self.layers.len() - 1
            invariant
                is_chain(o, leaf_string_fn(), node_string_fn()),
                self.layers@.len() == o.len(),
                swept(self.layers_spec(), o, start as int, c as int, leaf_string_fn(), node_string_fn()),
                start <= c < o.len(),
                self.built,
                self.parallel == old(self).parallel,
                self.format == old(self).format,
                self.layers_spec()[0] == old(self).layers_spec()[0],
            decreases o.len() - c,
        {
            let ghost v = self.layers_spec();
            proof {
                lemma_sweep_step(v, o, start as int, c as int, leaf_string_fn(), node_string_fn());
                lemma_last_parent(v[c as int], leaf_string_fn(), node_string_fn());
                self.lemma_view_at(c as int);
                self.lemma_view_at(c as int + 1);
            }
            let n: usize = self.layers[c].len();
            let d = if n % 2 == 0 {
                hash_pair(&self.layers[c][n - 2], &self.layers[c][n - 1])
            } else {
                hash_digest(&self.layers[c][n - 1])
            };
            proof {
                assert(d@ == parent_at(v[c as int], (v[c as int].len() + 1) / 2 - 1, leaf_string_fn(), node_string_fn()));
            }
            self.set_last_digest(c + 1, d);
            c = c + 1;
        }
        proof {
            lemma_sweep_done(self.layers_spec(), o, start as int, leaf_string_fn(), node_string_fn());
        }
    }

    /// The audit path of the leaf digest `hash`, building the tree first where
    /// it is not built yet. On success the path holds the digests above the
    /// leaf, from its parent up to the root.
    pub fn audit_proof(&mut self, hash: &String) -> (r: Result<Vec<String>, MerkleError>)
        requires
            old(self).wf(),
        ensures
            final(self).wf(),
            final(self).leaves_spec() == old(self).leaves_spec(),
            final(self).parallel_spec() == old(self).parallel_spec(),
            final(self).format_spec() == old(self).format_spec(),
            old(self).built_spec() ==> final(self).layers_spec() == old(self).layers_spec(),
            old(self).leaves_spec().len() > 0 ==> final(self).built_spec()
                && final(self).layers_spec() == built_tree(old(self).leaves_spec()),
            old(self).leaves_spec().len() == 0 ==> r == Err::<Vec<String>, MerkleError>(MerkleError::NoLeaves)
                && final(self).layers_spec() == old(self).layers_spec(),
            path_view(r) == audit_path(final(self).layers_spec(), hash@, leaf_string_fn(), node_string_fn()),
    {
        proof {
            self.lemma_wf_built();
        }
        if !self.built {
            let b = self.build();
            if b.is_err() {
                return Err(MerkleError::NoLeaves);
            }
        }
        audit_layers(&self.layers, hash)
    }

    /// Climbs from position `hash_index` of layer `layer_index`, where `hash`
    /// stands, to the root, checking each expected parent against the stored
    /// one and appending it to `path`.
    pub fn recursive_audit_path(
        &self,
        hash: String,
        hash_index: usize,
        layer_index: usize,
        path: Vec<String>,
    ) -> (r: Result<Vec<String>, MerkleError>)
        ensures
            path_view(r) == climb(
                self.layers_spec(),
                layer_index as int,
                hash_index as int,
                hash@,
                digest_views(path@),
                leaf_string_fn(),
                node_string_fn(),
            ),
    {
        climb_layers(&self.layers, hash, hash_index, layer_index, path)
    }
}

impl Default for MerkleTreeString {
    /// An empty tree that is not built, with MessagePack leaves and parallel builds.
    fn default() -> (r: MerkleTreeString)
        ensures
            r.wf(),
            r.layers_spec() == seq![Seq::<Seq<char>>::empty()],
            !r.built_spec(),
            r.parallel_spec(),
            r.format_spec() == SerializationFormat::MsgPack,
    {
        let mut layers: Vec<Vec<String>> = Vec::new();
        layers.push(Vec::new());
        let r = MerkleTreeString { layers, parallel: true, built: false, format: SerializationFormat::MsgPack };
        assert(digest_views(r.layers@[0]@) =~= Seq::<Seq<char>>::empty());
        assert(r.layers_spec() =~= seq![Seq::<Seq<char>>::empty()]);
        r
    }
}

/// Whether two digests are the same string.
fn digests_equal(a: &String, b: &String) -> (r: bool)
    ensures
        r == (a@ == b@),
{
    a.eq(b)
}

/// Climbs the layers from position `hash_index` of layer `layer_index`, where
/// `hash` stands: at each layer the expected parent is the node hash of the
/// digest and its sibling in positional order, or the leaf hash of a trailing
/// singleton; it must equal the stored parent, and is appended to `path`.
/// Stops with the path at a layer of one digest, or with `TreeInvalidated`.
pub fn climb_layers(
    layers: &Vec<Vec<String>>,
    hash: String,
    hash_index: usize,
    layer_index: usize,
    path: Vec<String>,
) -> (r: Result<Vec<String>, MerkleError>)
    ensures
        path_view(r) == climb(
            layer_views(layers@),
            layer_index as int,
            hash_index as int,
            hash@,
            digest_views(path@),
            leaf_string_fn(),
            node_string_fn(),
        ),
    decreases layers@.len() - layer_index,
{
    let ghost ls = layer_views(layers@);
    if layer_index >= layers.len() || hash_index >= layers[layer_index].len() {
        return Err(MerkleError::TreeInvalidated);
    }
    let layer = &layers[layer_index];
    let n: usize = layer.len();
    assert(ls[layer_index as int] == digest_views(layer@));
    if n <= 1 {
        return Ok(path);
    }
    let up = if hash_index % 2 == 1 {
        hash_pair(&layer[hash_index - 1], &hash)
    } else if hash_index + 1 < n {
        hash_pair(&hash, &layer[hash_index + 1])
    } else {
        hash_digest(&hash)
    };
    assert(up@ == crate::layers::expected_parent(ls[layer_index as int], hash_index as int, hash@, leaf_string_fn(), node_string_fn()));
    let p: usize = hash_index / 2;
    if layer_index + 1 < layers.len() && p < layers[layer_index + 1].len() && digests_equal(&layers[layer_index + 1][p], &up) {
        let ghost before = path@;
        let mut path = path;
        path.push(up.clone());
        assert(digest_views(path@) =~= digest_views(before).push(up@));
        climb_layers(layers, up, p, layer_index + 1, path)
    } else {
        Err(MerkleError::TreeInvalidated)
    }
}

/// The audit path of the leaf digest `hash` in `layers`. With a single leaf,
/// the path is the leaf hash of `hash` where it equals the stored root.
/// Otherwise the first leaf equal to `hash` is climbed from; `NotFound` where
/// there is none, `NoLeaves` where the leaf layer is empty.
pub fn audit_layers(layers: &Vec<Vec<String>>, hash: &String) -> (r: Result<Vec<String>, MerkleError>)
    ensures
        path_view(r) == audit_path(layer_views(layers@), hash@, leaf_string_fn(), node_string_fn()),
{
    let ghost ls = layer_views(layers@);
    if layers.len() == 0 || layers[0].len() == 0 {
        return Err(MerkleError::NoLeaves);
    }
    let leaves = &layers[0];
    assert(ls[0] == digest_views(leaves@));
    if leaves.len() == 1 {
        let root_hash = hash_digest(hash);
        if layers.len() >= 2 && layers[1].len() >= 1 && digests_equal(&root_hash, &layers[1][0]) {
            let mut path: Vec<String> = Vec::new();
            path.push(root_hash);
            assert(digest_views(path@) =~= seq![root_hash@]);
            return Ok(path);
        } else {
            return Err(MerkleError::TreeInvalidated);
        }
    }
    let mut i: usize = 0;
    while i < leaves.len()
        invariant
            i <= leaves@.len(),
            leaves@.len() >= 2,
            ls == layer_views(layers@),
            ls.len() >= 1,
            ls[0] == digest_views(leaves@),
            forall|k: int| 0 <= k < i ==> ls[0][k] != hash@,
        decreases leaves@.len() - i,
    {
        if digests_equal(&leaves[i], hash) {
            proof {
                assert(ls[0][i as int] == hash@);
                lemma_first_index(ls[0], hash@);
            }
            let path: Vec<String> = Vec::new();
            assert(digest_views(path@) =~= Seq::<Seq<char>>::empty());
            return climb_layers(layers, hash.clone(), i, 0, path);
        }
        i = i + 1;
    }
    proof {
        lemma_first_index(ls[0], hash@);
    }
    Err(MerkleError::NotFound)
}

/// The parent of one chunk of a layer: the node hash of a pair, or the leaf
/// hash of a trailing singleton.
fn pair_parent(pair: &[String]) -> (r: String)
    requires
        1 <= pair@.len() <= 2,
    ensures
        pair@.len() == 2 ==> r@ == node_string(pair@[0]@, pair@[1]@),
        pair@.len() == 1 ==> r@ == leaf_string(pair@[0]@),
{
    if pair.len() == 2 {
        hash_pair(&pair[0], &pair[1])
    } else {
        hash_digest(&pair[0])
    }
}

/// The leaf hash of a digest.
fn hash_digest(d: &String) -> (r: String)
    ensures
        r@ == leaf_string(d@),
{
    hash_leaf_string(d)
}

/// The node hash of two digests.
fn hash_pair(a: &String, b: &String) -> (r: String)
    ensures
        r@ == node_string(a@, b@),
{
    hash_node_string(a, b)
}

/// Relies on rayon's `par_chunks(2)`, `map` and `collect` into a `Vec`: the
/// chunks of two (the last may hold one) come in order, and `collect` keeps
/// that order; each is hashed by `pair_parent`.
#[verifier::external_body]
fn generate_new_layer_parallel(layer: &Vec<String>) -> (r: Vec<String>)
    ensures
        digest_views(r@) == parent_layer(digest_views(layer@), leaf_string_fn(), node_string_fn()),
{
    layer.par_chunks(2).map(|pair| pair_parent(pair)).collect()
}

} // verus!
