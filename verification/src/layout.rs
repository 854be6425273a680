//! Laying encoded items one after another, and reading such runs back.

use vstd::prelude::*;

verus! {

/// The bytes of `s` stand in `d` from position `p` on.
pub open spec fn stands_at(d: Seq<u8>, p: int, s: Seq<u8>) -> bool {
    0 <= p && p + s.len() <= d.len() && d.subrange(p, p + s.len()) == s
}

/// One sequence after another stands at `p` exactly if the first stands at `p` and the second
/// behind it.
pub proof fn lemma_stands_concat(d: Seq<u8>, p: int, a: Seq<u8>, b: Seq<u8>)
    ensures
        stands_at(d, p, a + b) <==> stands_at(d, p, a) && stands_at(d, p + a.len(), b),
{
    if stands_at(d, p, a + b) {
        let w = d.subrange(p, p + (a + b).len());
        assert(d.subrange(p, p + a.len()) =~= w.subrange(0, a.len() as int));
        assert(w.subrange(0, a.len() as int) =~= a);
        assert(d.subrange(p + a.len(), p + a.len() + b.len()) =~= w.subrange(
            a.len() as int,
            w.len() as int,
        ));
        assert(w.subrange(a.len() as int, w.len() as int) =~= b);
    }
    if stands_at(d, p, a) && stands_at(d, p + a.len(), b) {
        assert(d.subrange(p, p + (a + b).len()) =~= d.subrange(p, p + a.len()) + d.subrange(
            p + a.len(),
            p + a.len() + b.len(),
        ));
    }
}

/// The encodings of `items`, one after another.
pub open spec fn flat<T>(enc: spec_fn(T) -> Seq<u8>, items: Seq<T>) -> Seq<u8>
    decreases items.len(),
{
    if items.len() == 0 {
        Seq::empty()
    } else {
        flat(enc, items.drop_last()) + enc(items.last())
    }
}

/// Reads `n` items one after another from `p` on: the items and the position behind them, or
/// the first error.
pub open spec fn run_at<T, E>(
    item: spec_fn(int) -> Result<(T, int), E>,
    p: int,
    n: nat,
) -> Result<(Seq<T>, int), E>
    decreases n,
{
    if n == 0 {
        Ok((Seq::empty(), p))
    } else {
        match run_at(item, p, (n - 1) as nat) {
            Err(e) => Err(e),
            Ok((items, q)) => match item(q) {
                Err(e) => Err(e),
                Ok((x, r)) => Ok((items.push(x), r)),
            },
        }
    }
}

/// An error in the first items of a run is the error of the run.
pub proof fn lemma_run_error<T, E>(
    item: spec_fn(int) -> Result<(T, int), E>,
    p: int,
    m: nat,
    n: nat,
)
    requires
        m <= n,
        run_at(item, p, m) is Err,
    ensures
        run_at(item, p, n) == run_at(item, p, m),
    decreases n,
{
    if m < n {
        lemma_run_error(item, p, m, (n - 1) as nat);
    }
}

/// A run reads back the items whose encodings stand one after another.
pub proof fn lemma_run_reads_flat<T, E>(
    item: spec_fn(int) -> Result<(T, int), E>,
    enc: spec_fn(T) -> Seq<u8>,
    d: Seq<u8>,
    p: int,
    items: Seq<T>,
)
    requires
        stands_at(d, p, flat(enc, items)),
        forall|i: int, q: int|
            0 <= i < items.len() && #[trigger] stands_at(d, q, enc(items[i])) ==> item(q) == Ok::<
                (T, int),
                E,
            >((items[i], q + enc(items[i]).len())),
    ensures
        run_at(item, p, items.len()) == Ok::<(Seq<T>, int), E>(
            (items, p + flat(enc, items).len()),
        ),
    decreases items.len(),
{
    if items.len() > 0 {
        let front = items.drop_last();
        let last = items.last();
        lemma_stands_concat(d, p, flat(enc, front), enc(last));
        assert forall|i: int, q: int|
            0 <= i < front.len() && #[trigger] stands_at(d, q, enc(front[i])) implies item(q)
            == Ok::<(T, int), E>((front[i], q + enc(front[i]).len())) by {
            assert(front[i] == items[i]);
        }
        lemma_run_reads_flat(item, enc, d, p, front);
        let q = p + flat(enc, front).len();
        assert(stands_at(d, q, enc(items[items.len() - 1])));
        assert(front.push(last) =~= items);
    } else {
        assert(items =~= Seq::<T>::empty());
    }
}

/// What a run read stands where it was read, encoded one after another.
pub proof fn lemma_run_was_flat<T, E>(
    item: spec_fn(int) -> Result<(T, int), E>,
    enc: spec_fn(T) -> Seq<u8>,
    d: Seq<u8>,
    p: int,
    n: nat,
)
    requires
        0 <= p <= d.len(),
        run_at(item, p, n) is Ok,
        forall|q: int|
            0 <= q <= d.len() && (#[trigger] item(q)) is Ok ==> stands_at(
                d,
                q,
                enc(item(q)->Ok_0.0),
            ) && item(q)->Ok_0.1 == q + enc(item(q)->Ok_0.0).len(),
    ensures
        run_at(item, p, n)->Ok_0.0.len() == n,
        stands_at(d, p, flat(enc, run_at(item, p, n)->Ok_0.0)),
        run_at(item, p, n)->Ok_0.1 == p + flat(enc, run_at(item, p, n)->Ok_0.0).len(),
    decreases n,
{
    if n > 0 {
        lemma_run_was_flat(item, enc, d, p, (n - 1) as nat);
        let (front, q) = run_at(item, p, (n - 1) as nat)->Ok_0;
        let x = item(q)->Ok_0.0;
        lemma_stands_concat(d, p, flat(enc, front), enc(x));
        assert(front.push(x).drop_last() =~= front);
    } else {
        assert(d.subrange(p, p) =~= Seq::<u8>::empty());
    }
}

/// A run of one more item is the run, then the item.
pub proof fn lemma_flat_push<T>(enc: spec_fn(T) -> Seq<u8>, items: Seq<T>, x: T)
    ensures
        flat(enc, items.push(x)) == flat(enc, items) + enc(x),
{
    assert(items.push(x).drop_last() =~= items);
}

/// The bytes from the end of `n` bytes to the next multiple of 64, not counting a full 64.
pub open spec fn align_up(n: nat) -> nat {
    (n + 63) / 64 * 64
}

/// Alignment goes up to a multiple of 64, by less than 64.
pub proof fn lemma_align_up(n: nat)
    ensures
        align_up(n) % 64 == 0,
        n <= align_up(n) < n + 64,
        n % 64 == 0 ==> align_up(n) == n,
{
}

} // verus!
