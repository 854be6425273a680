//! The cache of keys and values of past positions.

use vstd::prelude::*;

verus! {

/// The precision of a cache.
#[derive(Debug, Clone, Copy, PartialEq, Eq, Structural)]
pub enum CachePrecision {
    FP32,
    FP16,
}

impl CachePrecision {
    /// Bytes of one value.
    pub open spec fn width(self) -> nat {
        match self {
            CachePrecision::FP32 => 4,
            CachePrecision::FP16 => 2,
        }
    }

    /// Bytes of one value.
    pub fn bytes_per_element(&self) -> (r: usize)
        ensures
            r == self.width(),
    {
        match self {
            CachePrecision::FP32 => 4,
            CachePrecision::FP16 => 2,
        }
    }
}

/// Keys and values of past positions, in one flat buffer each per layer: for each head all
/// positions, for each position all values of the head.
#[derive(Clone)]
pub struct FlatKVCache {
    pub keys: Vec<Vec<u32>>,
    pub values: Vec<Vec<u32>>,
    pub cache_pos: usize,
    pub max_positions: usize,
    pub n_kv_heads: usize,
    pub head_dim: usize,
}

/// The place of value `d` of position `p` of head `h`.
pub open spec fn cell(h: int, p: int, d: int, positions: int, dim: int) -> int {
    (h * positions + p) * dim + d
}

/// The values of position `p` of head `h` in a flat buffer.
pub open spec fn slot(buf: Seq<u32>, h: int, p: int, positions: int, dim: int) -> Seq<u32> {
    Seq::new(dim as nat, |d: int| buf[cell(h, p, d, positions, dim)])
}

/// Values of one layer.
pub open spec fn layer_len(heads: int, positions: int, dim: int) -> int {
    (heads * positions) * dim
}

/// Each value of each position of each head has a place of its own.
pub proof fn lemma_cell(h: int, p: int, d: int, heads: int, positions: int, dim: int)
    requires
        0 <= h < heads,
        0 <= p < positions,
        0 <= d < dim,
    ensures
        0 <= cell(h, p, d, positions, dim) < layer_len(heads, positions, dim),
        cell(h, p, d, positions, dim) % dim == d,
        cell(h, p, d, positions, dim) / dim == h * positions + p,
        (cell(h, p, d, positions, dim) / dim) % positions == p,
        (cell(h, p, d, positions, dim) / dim) / positions == h,
        0 <= h * positions,
        h * positions + p < heads * positions,
        0 <= (h * positions + p) * dim,
{
    let row = h * positions + p;
    assert(0 <= h * positions && row < heads * positions) by (nonlinear_arith)
        requires
            0 <= h < heads,
            0 <= p < positions,
            row == h * positions + p,
    ;
    let c = row * dim + d;
    assert(0 <= row * dim && c < (heads * positions) * dim) by (nonlinear_arith)
        requires
            0 <= row < heads * positions,
            0 <= d < dim,
            c == row * dim + d,
    ;
    vstd::arithmetic::div_mod::lemma_fundamental_div_mod_converse(c, dim, row, d);
    vstd::arithmetic::div_mod::lemma_fundamental_div_mod_converse(row, positions, h, p);
}

/// The values of all heads at one position stand one head after another in `src`.
pub open spec fn head_values(src: Seq<u32>, h: int, dim: int) -> Seq<u32> {
    Seq::new(dim as nat, |d: int| src[h * dim + d])
}

/// `after` is `before` with the values of position `pos` of all heads replaced by those of `src`.
pub open spec fn is_written(
    before: Seq<u32>,
    after: Seq<u32>,
    src: Seq<u32>,
    heads: int,
    positions: int,
    dim: int,
    pos: int,
) -> bool {
    &&& after.len() == before.len()
    &&& forall|h: int, p: int|
        0 <= h < heads && 0 <= p < positions ==> #[trigger] slot(after, h, p, positions, dim) == (
        if p == pos {
            head_values(src, h, dim)
        } else {
            slot(before, h, p, positions, dim)
        })
}

/// Replaces the values of one position of all heads.
fn write_position(
    buf: &mut Vec<u32>,
    src: &[u32],
    heads: usize,
    positions: usize,
    dim: usize,
    pos: usize,
)
    requires
        old(buf)@.len() == layer_len(heads as int, positions as int, dim as int),
        pos < positions,
        heads * dim <= src@.len(),
    ensures
        is_written(
            old(buf)@,
            final(buf)@,
            src@,
            heads as int,
            positions as int,
            dim as int,
            pos as int,
        ),
{
    let ghost start = buf@;
    let size: usize = buf.len();
    let given: usize = src.len();
    let mut h: usize = 0;
    while h < heads
        invariant
            h <= heads,
            pos < positions,
            heads * dim <= given == src@.len(),
            start.len() == size == buf@.len() == layer_len(
                heads as int,
                positions as int,
                dim as int,
            ),
            forall|c: int|
                0 <= c < size ==> #[trigger] buf@[c] == (if (c / dim as int) % positions as int
                    == pos && (c / dim as int) / positions as int <= h - 1 {
                    src@[((c / dim as int) / positions as int) * dim + c % dim as int]
                } else {
                    start[c]
                }),
        decreases heads - h,
    {
        let mut d: usize = 0;
        while d < dim
            invariant
                h < heads,
                d <= dim,
                pos < positions,
                heads * dim <= given == src@.len(),
                start.len() == size == buf@.len() == layer_len(
                    heads as int,
                    positions as int,
                    dim as int,
                ),
                forall|c: int|
                    0 <= c < size ==> #[trigger] buf@[c] == (if (c / dim as int)
                        % positions as int == pos && ((c / dim as int) / positions as int <= h - 1
                        || ((c / dim as int) / positions as int == h && c % dim as int <= d - 1)) {
                        src@[((c / dim as int) / positions as int) * dim + c % dim as int]
                    } else {
                        start[c]
                    }),
            decreases dim - d,
        {
            let ghost before = buf@;
            proof {
                lemma_cell(
                    h as int,
                    pos as int,
                    d as int,
                    heads as int,
                    positions as int,
                    dim as int,
                );
                assert(h * dim + d < heads * dim && 0 <= h * dim) by (nonlinear_arith)
                    requires
                        h < heads,
                        d < dim,
                ;
            }
            let at: usize = (h * positions + pos) * dim + d;
            let v: u32 = src[h * dim + d];
            buf[at] = v;
            proof {
                assert(buf@ == before.update(at as int, v));
                assert forall|c: int| 0 <= c < size implies #[trigger] buf@[c] == (if (c
                    / dim as int) % positions as int == pos && ((c / dim as int)
                    / positions as int <= h - 1 || ((c / dim as int) / positions as int == h && c
                    % dim as int <= d)) {
                    src@[((c / dim as int) / positions as int) * dim + c % dim as int]
                } else {
                    start[c]
                }) by {
                    if c != at {
                        assert(buf@[c] == before[c]);
                        if (c / dim as int) % positions as int == pos && (c / dim as int)
                            / positions as int == h && c % dim as int == d {
                            lemma_same_cell(c, at as int, positions as int, dim as int);
                        }
                    }
                }
            }
            d = d + 1;
        }
        assert forall|c: int| 0 <= c < size implies #[trigger] buf@[c] == (if (c / dim as int)
            % positions as int == pos && (c / dim as int) / positions as int <= h {
            src@[((c / dim as int) / positions as int) * dim + c % dim as int]
        } else {
            start[c]
        }) by {
            if dim > 0 {
                assert(c % dim as int <= dim - 1) by (nonlinear_arith)
                    requires
                        dim > 0,
                ;
            } else {
                assert(layer_len(heads as int, positions as int, 0) == 0) by (nonlinear_arith);
            }
        }
        h = h + 1;
    }
    proof {
        assert forall|h: int, p: int|
            0 <= h < heads && 0 <= p < positions implies #[trigger] slot(
            buf@,
            h,
            p,
            positions as int,
            dim as int,
        ) == (if p == pos {
            head_values(src@, h, dim as int)
        } else {
            slot(start, h, p, positions as int, dim as int)
        }) by {
            assert forall|d: int| 0 <= d < dim implies buf@[cell(
                h,
                p,
                d,
                positions as int,
                dim as int,
            )] == (if p == pos {
                src@[h * dim + d]
            } else {
                start[cell(h, p, d, positions as int, dim as int)]
            }) by {
                lemma_cell(h, p, d, heads as int, positions as int, dim as int);
            }
            let got = slot(buf@, h, p, positions as int, dim as int);
            if p == pos {
                assert(got =~= head_values(src@, h, dim as int));
            } else {
                assert(got =~= slot(start, h, p, positions as int, dim as int));
            }
        }
    }
}

proof fn lemma_same_cell(a: int, b: int, positions: int, dim: int)
    requires
        dim > 0,
        positions > 0,
        a % dim == b % dim,
        (a / dim) % positions == (b / dim) % positions,
        (a / dim) / positions == (b / dim) / positions,
    ensures
        a == b,
{
    vstd::arithmetic::div_mod::lemma_fundamental_div_mod(a, dim);
    vstd::arithmetic::div_mod::lemma_fundamental_div_mod(b, dim);
    vstd::arithmetic::div_mod::lemma_fundamental_div_mod(a / dim, positions);
    vstd::arithmetic::div_mod::lemma_fundamental_div_mod(b / dim, positions);
}

/// The vectors of all positions of all heads of all layers, from the buffers of the layers.
pub open spec fn slots(bufs: Seq<Vec<u32>>, heads: nat, positions: nat, dim: nat) -> Seq<
    Seq<Seq<Seq<u32>>>,
> {
    Seq::new(
        bufs.len(),
        |l: int|
            Seq::new(
                heads,
                |h: int|
                    Seq::new(
                        positions,
                        |p: int| slot(bufs[l]@, h, p, positions as int, dim as int),
                    ),
            ),
    )
}

/// The mathematical content of a [`FlatKVCache`]: a key and a value for each position of each head
/// of each layer, and how many positions are in use.
#[verifier::ext_equal]
pub struct CacheModel {
    pub keys: Seq<Seq<Seq<Seq<u32>>>>,
    pub values: Seq<Seq<Seq<Seq<u32>>>>,
    pub pos: nat,
    pub dim: nat,
}

impl View for FlatKVCache {
    type V = CacheModel;

    open spec fn view(&self) -> CacheModel {
        let heads = self.n_kv_heads as nat;
        let positions = self.max_positions as nat;
        let dim = self.head_dim as nat;
        CacheModel {
            keys: slots(self.keys@, heads, positions, dim),
            values: slots(self.values@, heads, positions, dim),
            pos: self.cache_pos as nat,
            dim,
        }
    }
}

/// `all` with the vectors of position `at` of one layer replaced by the heads of `src`.
pub open spec fn placed(
    all: Seq<Seq<Seq<Seq<u32>>>>,
    layer: int,
    src: Seq<u32>,
    at: int,
    dim: int,
) -> Seq<Seq<Seq<Seq<u32>>>> {
    Seq::new(
        all.len(),
        |l: int|
            Seq::new(
                all[l].len(),
                |h: int|
                    Seq::new(
                        all[l][h].len(),
                        |p: int|
                            if l == layer && p == at {
                                head_values(src, h, dim)
                            } else {
                                all[l][h][p]
                            },
                    ),
            ),
    )
}

impl CacheModel {
    /// The same with keys and values of one position of one layer stored.
    pub open spec fn storing(self, layer: int, k: Seq<u32>, v: Seq<u32>, at: int) -> CacheModel {
        CacheModel {
            keys: placed(self.keys, layer, k, at, self.dim as int),
            values: placed(self.values, layer, v, at, self.dim as int),
            ..self
        }
    }

    /// The same at another position.
    pub open spec fn at(self, pos: nat) -> CacheModel {
        CacheModel { pos, ..self }
    }
}

impl FlatKVCache {
    /// Values of one layer.
    pub open spec fn per_layer(self) -> int {
        layer_len(self.n_kv_heads as int, self.max_positions as int, self.head_dim as int)
    }

    /// The buffers of all layers have room for all positions of all heads.
    pub open spec fn wf(self) -> bool {
        &&& self.keys@.len() == self.values@.len()
        &&& forall|l: int|
            0 <= l < self.keys@.len() ==> (#[trigger] self.keys@[l])@.len() == self.per_layer()
        &&& forall|l: int|
            0 <= l < self.keys@.len() ==> (#[trigger] self.values@[l])@.len() == self.per_layer()
    }

    /// The number of layers.
    pub open spec fn layers(self) -> nat {
        self.keys@.len()
    }

    /// The key of position `p` of a head.
    pub open spec fn key(self, layer: int, head: int, p: int) -> Seq<u32> {
        slot(
            self.keys@[layer]@,
            head,
            p,
            self.max_positions as int,
            self.head_dim as int,
        )
    }

    /// The value of position `p` of a head.
    pub open spec fn value(self, layer: int, head: int, p: int) -> Seq<u32> {
        slot(
            self.values@[layer]@,
            head,
            p,
            self.max_positions as int,
            self.head_dim as int,
        )
    }

    /// The same dimensions.
    pub open spec fn same_shape(self, other: FlatKVCache) -> bool {
        &&& self.max_positions == other.max_positions
        &&& self.n_kv_heads == other.n_kv_heads
        &&& self.head_dim == other.head_dim
        &&& self.layers() == other.layers()
    }

    /// An empty cache, with all values 0.
    pub fn new(n_layers: usize, n_kv_heads: usize, max_positions: usize, head_dim: usize) -> (r:
        FlatKVCache)
        requires
            layer_len(n_kv_heads as int, max_positions as int, head_dim as int) <= usize::MAX,
            n_kv_heads * max_positions <= usize::MAX,
        ensures
            r.wf(),
            r.layers() == n_layers,
            r.cache_pos == 0,
            r.max_positions == max_positions,
            r.n_kv_heads == n_kv_heads,
            r.head_dim == head_dim,
            forall|l: int, i: int|
                0 <= l < n_layers && 0 <= i < r.per_layer() ==> #[trigger] r.keys@[l]@[i] == 0,
            forall|l: int, i: int|
                0 <= l < n_layers && 0 <= i < r.per_layer() ==> #[trigger] r.values@[l]@[i] == 0,
    {
        let per_layer: usize = (n_kv_heads * max_positions) * head_dim;
        FlatKVCache {
            keys: zero_layers(n_layers, per_layer),
            values: zero_layers(n_layers, per_layer),
            cache_pos: 0,
            max_positions,
            n_kv_heads,
            head_dim,
        }
    }

    /// Forgets all positions. The values stay until they are overwritten.
    pub fn clear(&mut self)
        ensures
            *final(self) == (FlatKVCache { cache_pos: 0, ..*old(self) }),
    {
        self.cache_pos = 0;
    }

    /// Stores keys and values at a position.
    pub fn store_at(&mut self, layer: usize, k: &[u32], v: &[u32], pos: usize)
        requires
            old(self).wf(),
            layer < old(self).layers(),
            pos < old(self).max_positions,
            old(self).n_kv_heads * old(self).head_dim <= k@.len(),
            old(self).n_kv_heads * old(self).head_dim <= v@.len(),
        ensures
            final(self).wf(),
            final(self).same_shape(*old(self)),
            final(self)@ == old(self)@.storing(layer as int, k@, v@, pos as int),
    {
        let ghost before = *self;
        let heads: usize = self.n_kv_heads;
        let positions: usize = self.max_positions;
        let dim: usize = self.head_dim;
        let mut one: Vec<u32> = Vec::new();
        core::mem::swap(&mut one, &mut self.keys[layer]);
        write_position(&mut one, k, heads, positions, dim, pos);
        let ghost new_keys = one@;
        core::mem::swap(&mut one, &mut self.keys[layer]);
        let mut two: Vec<u32> = Vec::new();
        core::mem::swap(&mut two, &mut self.values[layer]);
        write_position(&mut two, v, heads, positions, dim, pos);
        let ghost new_values = two@;
        core::mem::swap(&mut two, &mut self.values[layer]);
        proof {
            assert(self.keys@[layer as int]@ == new_keys);
            assert(self.values@[layer as int]@ == new_values);
            assert forall|l: int|
                0 <= l < self.keys@.len() implies (#[trigger] self.keys@[l])@.len()
                == self.per_layer() by {
                if l != layer {
                    assert(self.keys@[l] == before.keys@[l]);
                }
            }
            assert forall|l: int|
                0 <= l < self.keys@.len() implies (#[trigger] self.values@[l])@.len()
                == self.per_layer() by {
                if l != layer {
                    assert(self.values@[l] == before.values@[l]);
                }
            }
            lemma_placed(
                before.keys@,
                self.keys@,
                layer as int,
                k@,
                heads as nat,
                positions as nat,
                dim as nat,
                pos as int,
            );
            lemma_placed(
                before.values@,
                self.values@,
                layer as int,
                v@,
                heads as nat,
                positions as nat,
                dim as nat,
                pos as int,
            );
        }
    }

    /// Stores keys and values at the current position.
    pub fn store(&mut self, layer: usize, k: &[u32], v: &[u32])
        requires
            old(self).wf(),
            layer < old(self).layers(),
            old(self).cache_pos < old(self).max_positions,
            old(self).n_kv_heads * old(self).head_dim <= k@.len(),
            old(self).n_kv_heads * old(self).head_dim <= v@.len(),
        ensures
            final(self).wf(),
            final(self).same_shape(*old(self)),
            final(self)@ == old(self)@.storing(layer as int, k@, v@, old(self).cache_pos as int),
    {
        let pos: usize = self.cache_pos;
        self.store_at(layer, k, v, pos);
    }

    fn span(&self, head: usize) -> (r: (usize, usize))
        requires
            head < self.n_kv_heads,
            self.cache_pos <= self.max_positions,
            self.per_layer() <= usize::MAX,
            self.n_kv_heads * self.max_positions <= usize::MAX,
        ensures
            r.0 == (head * self.max_positions) * self.head_dim,
            r.1 == r.0 + self.cache_pos * self.head_dim,
            r.1 <= self.per_layer(),
    {
        let positions: usize = self.max_positions;
        let dim: usize = self.head_dim;
        proof {
            let a = head * positions;
            let heads = self.n_kv_heads;
            let pos = self.cache_pos;
            assert(0 <= a && a + positions <= heads * positions) by (nonlinear_arith)
                requires
                    a == head * positions,
                    head + 1 <= heads,
            ;
            assert(0 <= a * dim && a * dim + pos * dim <= (heads * positions) * dim && pos * dim
                >= 0) by (nonlinear_arith)
                requires
                    0 <= a,
                    a + positions <= heads * positions,
                    pos <= positions,
            ;
        }
        let start: usize = head * positions * dim;
        (start, start + self.cache_pos * dim)
    }

    /// The keys of a head at all positions so far, one position after another.
    pub fn get_k_slice(&self, layer: usize, head: usize) -> (r: &[u32])
        requires
            self.wf(),
            layer < self.layers(),
            head < self.n_kv_heads,
            self.cache_pos <= self.max_positions,
            self.n_kv_heads * self.max_positions <= usize::MAX,
        ensures
            r@.len() == self.cache_pos * self.head_dim,
            forall|p: int|
                0 <= p < self.cache_pos ==> r@.subrange(
                    p * self.head_dim,
                    (p + 1) * self.head_dim,
                ) == #[trigger] self.key(layer as int, head as int, p),
    {
        let buf = self.keys[layer].as_slice();
        let size: usize = buf.len();
        assert(self.keys@[layer as int]@.len() == size);
        let (start, end) = self.span(head);
        let r = vstd::slice::slice_subrange(buf, start, end);
        proof {
            lemma_span(buf@, r@, *self, start as int, head as int);
        }
        r
    }

    /// The values of a head at all positions so far, one position after another.
    pub fn get_v_slice(&self, layer: usize, head: usize) -> (r: &[u32])
        requires
            self.wf(),
            layer < self.layers(),
            head < self.n_kv_heads,
            self.cache_pos <= self.max_positions,
            self.n_kv_heads * self.max_positions <= usize::MAX,
        ensures
            r@.len() == self.cache_pos * self.head_dim,
            forall|p: int|
                0 <= p < self.cache_pos ==> r@.subrange(
                    p * self.head_dim,
                    (p + 1) * self.head_dim,
                ) == #[trigger] self.value(layer as int, head as int, p),
    {
        let buf = self.values[layer].as_slice();
        let size: usize = buf.len();
        assert(self.values@[layer as int]@.len() == size);
        let (start, end) = self.span(head);
        let r = vstd::slice::slice_subrange(buf, start, end);
        proof {
            lemma_span(buf@, r@, *self, start as int, head as int);
        }
        r
    }

    /// The number of positions so far.
    pub fn seq_len(&self) -> (r: usize)
        ensures
            r == self.cache_pos,
    {
        self.cache_pos
    }

    /// Goes on to the next position.
    pub fn advance(&mut self)
        requires
            old(self).cache_pos < usize::MAX,
        ensures
            *final(self) == (FlatKVCache {
                cache_pos: (old(self).cache_pos + 1) as usize,
                ..*old(self)
            }),
    {
        self.cache_pos = self.cache_pos + 1;
    }

    /// Goes to a position.
    pub fn set_pos(&mut self, pos: usize)
        ensures
            *final(self) == (FlatKVCache { cache_pos: pos, ..*old(self) }),
    {
        self.cache_pos = pos;
    }

    /// The memory of the cache in whole megabytes of 2^20 bytes.
    pub fn ram_mb(&self) -> (r: usize)
        requires
            self.wf(),
            2 * (self.layers() * self.per_layer()) * 4 <= usize::MAX,
        ensures
            r == 2 * (self.layers() * self.per_layer()) * 4 / 1_048_576,
    {
        let layers: usize = self.keys.len();
        let mut total: usize = 0;
        let ghost per = self.per_layer();
        let mut l: usize = 0;
        while l < layers
            invariant
                self.wf(),
                per == self.per_layer(),
                0 <= per,
                l <= layers == self.layers(),
                2 * (layers * per) * 4 <= usize::MAX,
                total == l * per + l * per,
            decreases layers - l,
        {
            proof {
                assert((l + 1) * per == l * per + per) by (nonlinear_arith);
                assert((l + 1) * per <= layers * per) by (nonlinear_arith)
                    requires
                        l + 1 <= layers,
                        per >= 0,
                ;
                assert(self.keys@[l as int]@.len() == per);
                assert(self.values@[l as int]@.len() == per);
            }
            total = total + self.keys[l].len() + self.values[l].len();
            l = l + 1;
        }
        total * 4 / 1_048_576
    }
}

proof fn lemma_placed(
    before: Seq<Vec<u32>>,
    after: Seq<Vec<u32>>,
    layer: int,
    src: Seq<u32>,
    heads: nat,
    positions: nat,
    dim: nat,
    pos: int,
)
    requires
        after.len() == before.len(),
        forall|l: int| 0 <= l < before.len() && l != layer ==> #[trigger] after[l] == before[l],
        0 <= layer < before.len(),
        is_written(
            before[layer]@,
            after[layer]@,
            src,
            heads as int,
            positions as int,
            dim as int,
            pos,
        ),
    ensures
        slots(after, heads, positions, dim) == placed(
            slots(before, heads, positions, dim),
            layer,
            src,
            pos,
            dim as int,
        ),
{
    let a = slots(before, heads, positions, dim);
    let b = slots(after, heads, positions, dim);
    let c = placed(a, layer, src, pos, dim as int);
    assert forall|l: int| 0 <= l < b.len() implies #[trigger] b[l] == c[l] by {
        assert forall|h: int| 0 <= h < heads implies #[trigger] b[l][h] == c[l][h] by {
            assert forall|p: int| 0 <= p < positions implies #[trigger] b[l][h][p] == c[l][h][p] by {
                let x = slot(after[l]@, h, p, positions as int, dim as int);
                assert(b[l][h][p] == x);
                if l != layer {
                    assert(after[l] == before[l]);
                }
            }
            assert(b[l][h] =~= c[l][h]);
        }
        assert(b[l] =~= c[l]);
    }
    assert(b =~= c);
}

proof fn lemma_span(buf: Seq<u32>, r: Seq<u32>, cache: FlatKVCache, start: int, head: int)
    requires
        0 <= head < cache.n_kv_heads,
        cache.cache_pos <= cache.max_positions,
        buf.len() == cache.per_layer(),
        start == (head * cache.max_positions) * cache.head_dim,
        0 <= start,
        start + cache.cache_pos * cache.head_dim <= buf.len(),
        r == buf.subrange(start, start + cache.cache_pos * cache.head_dim),
    ensures
        r.len() == cache.cache_pos * cache.head_dim,
        forall|p: int|
            0 <= p < cache.cache_pos ==> #[trigger] slot(
                buf,
                head,
                p,
                cache.max_positions as int,
                cache.head_dim as int,
            ) == r.subrange(p * cache.head_dim, (p + 1) * cache.head_dim),
{
    let positions = cache.max_positions as int;
    let dim = cache.head_dim as int;
    assert(cache.cache_pos * dim >= 0) by (nonlinear_arith)
        requires
            dim >= 0,
            cache.cache_pos >= 0,
    ;
    assert forall|p: int| 0 <= p < cache.cache_pos implies #[trigger] slot(
        buf,
        head,
        p,
        positions,
        dim,
    ) == r.subrange(p * dim, (p + 1) * dim) by {
        assert(0 <= p * dim && (p + 1) * dim == p * dim + dim && (p + 1) * dim
            <= cache.cache_pos * dim) by (nonlinear_arith)
            requires
                0 <= p < cache.cache_pos,
                dim >= 0,
        ;
        let part = r.subrange(p * dim, (p + 1) * dim);
        assert forall|d: int| 0 <= d < dim implies part[d] == buf[cell(
            head,
            p,
            d,
            positions,
            dim,
        )] by {
            assert((head * positions + p) * dim == (head * positions) * dim + p * dim)
                by (nonlinear_arith);
        }
        assert(slot(buf, head, p, positions, dim) =~= part);
    }
}

/// `n` buffers of `len` zeros each.
fn zero_layers(n: usize, len: usize) -> (r: Vec<Vec<u32>>)
    ensures
        r@.len() == n,
        forall|l: int| 0 <= l < n ==> (#[trigger] r@[l])@.len() == len,
        forall|l: int, i: int| 0 <= l < n && 0 <= i < len ==> #[trigger] r@[l]@[i] == 0,
{
    let mut r: Vec<Vec<u32>> = Vec::new();
    while r.len() < n
        invariant
            r@.len() <= n,
            forall|l: int| 0 <= l < r@.len() ==> (#[trigger] r@[l])@.len() == len,
            forall|l: int, i: int|
                0 <= l < r@.len() && 0 <= i < len ==> #[trigger] r@[l]@[i] == 0,
        decreases n - r@.len(),
    {
        r.push(zero_values(len));
    }
    r
}

/// `n` zeros.
pub fn zero_values(n: usize) -> (r: Vec<u32>)
    ensures
        r@.len() == n,
        forall|i: int| 0 <= i < n ==> #[trigger] r@[i] == 0,
{
    vec![0u32; n]
}

/// What is stored at the current position is found there once the cache has gone on, and what was
/// stored at the positions before it is still found.
pub proof fn law_stored_position_is_kept(
    before: CacheModel,
    layer: int,
    k: Seq<u32>,
    v: Seq<u32>,
    head: int,
    p: int,
)
    requires
        0 <= layer < before.keys.len() == before.values.len(),
        0 <= head < before.keys[layer].len() == before.values[layer].len(),
        0 <= p <= before.pos < before.keys[layer][head].len() == before.values[layer][head].len(),
    ensures
        ({
            let next = before.storing(layer, k, v, before.pos as int).at(before.pos + 1);
            &&& next.keys[layer][head][p] == if p == before.pos {
                head_values(k, head, before.dim as int)
            } else {
                before.keys[layer][head][p]
            }
            &&& next.values[layer][head][p] == if p == before.pos {
                head_values(v, head, before.dim as int)
            } else {
                before.values[layer][head][p]
            }
        }),
{
}

} // verus!
