//! Splitting the sample sequence into analysis blocks.
//!
//! A block is a fixed-size run of consecutive samples, the unit of one bit
//! decision. The final block may be shorter when the sample count is not an
//! exact multiple of the block size: it is kept as a shorter block, not
//! padded and not dropped.

use vstd::prelude::*;

verus! {

/// The blocks of a sample sequence: consecutive, non-overlapping runs of
/// `bs` samples, the last one shorter when fewer than `bs` remain.
pub open spec fn blocks_of(samples: Seq<i16>, bs: int) -> Seq<Seq<i16>>
    recommends
        bs > 0,
    decreases samples.len(),
{
    if samples.len() == 0 || bs <= 0 {
        Seq::empty()
    } else if samples.len() <= bs {
        seq![samples]
    } else {
        seq![samples.take(bs)] + blocks_of(samples.skip(bs), bs)
    }
}

/// Splitting yields one block per `block_size` samples begun: the ceiling
/// of `len / block_size` blocks in all.
pub proof fn lemma_blocks_of_count(samples: Seq<i16>, bs: int)
    requires
        bs > 0,
    ensures
        blocks_of(samples, bs).len() == (samples.len() + bs - 1) / bs,
    decreases samples.len(),
{
    let len = samples.len() as int;
    if len == 0 {
        assert((bs - 1) / bs == 0) by {
            vstd::arithmetic::div_mod::lemma_basic_div(bs - 1, bs);
        }
    } else if len <= bs {
        assert((len + bs - 1) / bs == 1) by {
            vstd::arithmetic::div_mod::lemma_div_plus_one(len - 1, bs);
            vstd::arithmetic::div_mod::lemma_basic_div(len - 1, bs);
        }
    } else {
        lemma_blocks_of_count(samples.skip(bs), bs);
        assert((len + bs - 1) / bs == (len - bs + bs - 1) / bs + 1) by {
            vstd::arithmetic::div_mod::lemma_div_plus_one(len - bs + bs - 1, bs);
        }
    }
}

/// Splits the samples into analysis blocks.
///
/// Each block holds `block_size` consecutive samples in order, except that
/// a final remainder of fewer than `block_size` samples forms a last,
/// shorter block of its own; no sample is dropped, duplicated or padded.
pub fn split_blocks(samples: &[i16], block_size: usize) -> (blocks: Vec<Vec<i16>>)
    requires
        block_size > 0,
    ensures
        blocks.deep_view() == blocks_of(samples@, block_size as int),
{
    let n = samples.len();
    let bs = block_size;
    let mut blocks: Vec<Vec<i16>> = Vec::new();
    let mut i: usize = 0;
    proof {
        assert(samples@.skip(0) =~= samples@);
        assert(Seq::<Seq<i16>>::empty() + blocks_of(samples@, bs as int) =~= blocks_of(
            samples@,
            bs as int,
        ));
    }
    while i < n
        invariant
            n == samples@.len(),
            bs == block_size,
            bs > 0,
            0 <= i <= n,
            blocks_of(samples@, bs as int) == blocks.deep_view() + blocks_of(
                samples@.skip(i as int),
                bs as int,
            ),
        decreases n - i,
    {
        let end = if n - i < bs {
            n
        } else {
            i + bs
        };
        let mut block: Vec<i16> = Vec::new();
        let mut j: usize = i;
        while j < end
            invariant
                n == samples@.len(),
                i <= j <= end <= n,
                block@ == samples@.subrange(i as int, j as int),
            decreases end - j,
        {
            block.push(samples[j]);
            proof {
                assert(block@ =~= samples@.subrange(i as int, j + 1));
            }
            j = j + 1;
        }
        proof {
            let rest = samples@.skip(i as int);
            if n - i <= bs {
                assert(block@ =~= rest);
                assert(samples@.skip(end as int) =~= Seq::<i16>::empty());
            } else {
                assert(block@ =~= rest.take(bs as int));
                assert(rest.skip(bs as int) =~= samples@.skip(end as int));
            }
            assert(blocks_of(rest, bs as int) == seq![block@] + blocks_of(
                samples@.skip(end as int),
                bs as int,
            ));
        }
        let ghost prev = blocks.deep_view();
        let ghost this = block@;
        blocks.push(block);
        proof {
            assert(blocks.deep_view() =~~= prev + seq![this]);
            assert(prev + (seq![this] + blocks_of(samples@.skip(end as int), bs as int)) =~= (prev
                + seq![this]) + blocks_of(samples@.skip(end as int), bs as int));
        }
        i = end;
    }
    proof {
        assert(samples@.skip(i as int) =~= Seq::<i16>::empty());
        assert(blocks.deep_view() =~= blocks.deep_view() + blocks_of(
            samples@.skip(i as int),
            bs as int,
        ));
    }
    blocks
}

} // verus!
