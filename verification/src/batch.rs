//! Draw batching: per-tile draws grouped into runs that share a colour
//! texture and a DEM source, so the draw loop binds once per run.

use vstd::prelude::*;
use crate::tile::TileId;

verus! {

/// A run of instances drawn with one colour texture and one DEM source
/// (`None`: the map-level placeholder).
pub struct DrawBatch<I> {
    pub texture_id: TileId,
    pub dem_source: Option<TileId>,
    pub instances: Vec<I>,
}

/// The binding key of a batch.
pub open spec fn batch_key<I>(b: DrawBatch<I>) -> (TileId, Option<TileId>) {
    (b.texture_id, b.dem_source)
}

/// Every instance of the first `n` batches, in draw order.
pub open spec fn drawn<I>(batches: Seq<DrawBatch<I>>, n: nat) -> Seq<I>
    decreases n,
{
    if n == 0 || n > batches.len() {
        Seq::empty()
    } else {
        drawn(batches, (n - 1) as nat) + batches[n - 1].instances@
    }
}

/// No two neighbouring batches share a binding key.
pub open spec fn runs_are_maximal<I>(batches: Seq<DrawBatch<I>>) -> bool {
    forall|i: int| 0 <= i < batches.len() - 1 ==> batch_key(#[trigger] batches[i]) != batch_key(batches[i + 1])
}

/// Append `inst` to the trailing batch if it has the same
/// `(texture_id, dem_source)` key, else open a new batch. Keeps the
/// per-tile draws contiguous, preserving draw order.
pub fn push_instance<I>(
    batches: &mut Vec<DrawBatch<I>>,
    texture_id: TileId,
    dem_source: Option<TileId>,
    inst: I,
)
    ensures
        ({
            let o = old(batches)@;
            let f = final(batches)@;
            if o.len() > 0 && batch_key(o.last()) == (texture_id, dem_source) {
                &&& f.len() == o.len()
                &&& f.subrange(0, o.len() - 1) == o.subrange(0, o.len() - 1)
                &&& batch_key(f.last()) == batch_key(o.last())
                &&& f.last().instances@ == o.last().instances@.push(inst)
            } else {
                &&& f.len() == o.len() + 1
                &&& f.subrange(0, o.len() as int) == o
                &&& batch_key(f.last()) == (texture_id, dem_source)
                &&& f.last().instances@ == seq![inst]
            }
        }),
{
    let n = batches.len();
    if n > 0 && batches[n - 1].texture_id == texture_id && batches[n - 1].dem_source
        == dem_source {
        let ghost o = batches@;
        let mut last = batches.pop().unwrap();
        last.instances.push(inst);
        batches.push(last);
        proof {
            assert(batches@.subrange(0, o.len() - 1) =~= o.subrange(0, o.len() - 1));
        }
    } else {
        let ghost o = batches@;
        let mut instances: Vec<I> = Vec::new();
        instances.push(inst);
        batches.push(DrawBatch { texture_id, dem_source, instances });
        proof {
            assert(batches@.subrange(0, o.len() as int) =~= o);
            assert(batches@.last().instances@ =~= seq![inst]);
        }
    }
}

/// Batching keeps draw order: the instances of all batches, in order, are
/// the instances pushed so far followed by the new one; and runs stay
/// maximal.
pub proof fn law_batching_keeps_draw_order<I>(
    o: Seq<DrawBatch<I>>,
    f: Seq<DrawBatch<I>>,
    key: (TileId, Option<TileId>),
    inst: I,
)
    requires
        if o.len() > 0 && batch_key(o.last()) == key {
            &&& f.len() == o.len()
            &&& f.subrange(0, o.len() - 1) == o.subrange(0, o.len() - 1)
            &&& batch_key(f.last()) == batch_key(o.last())
            &&& f.last().instances@ == o.last().instances@.push(inst)
        } else {
            &&& f.len() == o.len() + 1
            &&& f.subrange(0, o.len() as int) == o
            &&& batch_key(f.last()) == key
            &&& f.last().instances@ == seq![inst]
        },
    ensures
        drawn(f, f.len()) == drawn(o, o.len()).push(inst),
        runs_are_maximal(o) ==> runs_are_maximal(f),
{
    if o.len() > 0 && batch_key(o.last()) == key {
        let n = (o.len() - 1) as nat;
        lemma_drawn_prefix(o, f, n);
        assert(f[n as int] == f.last());
        assert(o[n as int] == o.last());
        assert(drawn(o, n) + o.last().instances@.push(inst) =~= (drawn(o, n)
            + o.last().instances@).push(inst));
        if runs_are_maximal(o) {
            assert forall|i: int| 0 <= i < f.len() - 1 implies batch_key(#[trigger] f[i]) != batch_key(f[i + 1]) by {
                assert(f[i] == f.subrange(0, n as int)[i]);
                assert(o[i] == o.subrange(0, n as int)[i]);
                if i + 1 < n {
                    assert(f[i + 1] == f.subrange(0, n as int)[i + 1]);
                    assert(o[i + 1] == o.subrange(0, n as int)[i + 1]);
                } else {
                    assert(batch_key(o[i]) != batch_key(o[i + 1]));
                }
            }
        }
    } else {
        let n = o.len();
        assert(o.subrange(0, n as int) =~= o);
        lemma_drawn_prefix(o, f, n);
        assert(f[n as int] == f.last());
        if runs_are_maximal(o) {
            assert forall|i: int| 0 <= i < f.len() - 1 implies batch_key(#[trigger] f[i]) != batch_key(f[i + 1]) by {
                assert(f[i] == o[i]);
                if i + 1 < n {
                    assert(f[i + 1] == o[i + 1]);
                } else {
                    assert(o[i] == o.last());
                }
            }
        }
    }
}

proof fn lemma_drawn_prefix<I>(o: Seq<DrawBatch<I>>, f: Seq<DrawBatch<I>>, n: nat)
    requires
        n <= o.len(),
        n <= f.len(),
        f.subrange(0, n as int) == o.subrange(0, n as int),
    ensures
        drawn(f, n) == drawn(o, n),
    decreases n,
{
    if n > 0 {
        assert(f.subrange(0, n - 1) =~= f.subrange(0, n as int).subrange(0, n - 1));
        assert(o.subrange(0, n - 1) =~= o.subrange(0, n as int).subrange(0, n - 1));
        lemma_drawn_prefix(o, f, (n - 1) as nat);
        assert(f[n - 1] == f.subrange(0, n as int)[n - 1]);
        assert(o[n - 1] == o.subrange(0, n as int)[n - 1]);
    }
}

} // verus!
