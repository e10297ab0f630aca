//! Building with marble blocks: a pyramid of ever wider layers.

use vstd::prelude::*;

verus! {

/// Builds a pyramid of centered layers, one block higher per layer, until
/// at least `nb_blocks` blocks are used: layer `l` makes the total `l`
/// squared.  Returns the width of the last layer times the blocks still
/// missing from it.
#[verifier::loop_isolation(false)]
pub fn build_pyramid(nb_blocks: u64) -> (r: u64)
    requires
        1 <= nb_blocks <= 0x1_0000_0000,
    ensures
        exists|l: int|
            1 <= l && #[trigger] (l * l) >= nb_blocks && (l - 1) * (l - 1) < nb_blocks && r == (2
                * l - 1) * (l * l - nb_blocks),
{
    let mut layer: u64 = 1;
    while layer * layer < nb_blocks
        invariant
            1 <= layer,
            (layer - 1) * (layer - 1) < nb_blocks,
            layer <= 0x10001,
            layer * layer <= 0x1_0002_0001,
        decreases nb_blocks - layer,
    {
        proof {
            assert(layer <= 0x10000) by (nonlinear_arith)
                requires
                    layer * layer < 0x1_0000_0001,
                    layer >= 1,
            ;
            assert(layer < nb_blocks) by (nonlinear_arith)
                requires
                    layer * layer < nb_blocks,
                    layer >= 1,
            ;
            assert((layer + 1) * (layer + 1) <= 0x1_0002_0001) by (nonlinear_arith)
                requires
                    layer + 1 <= 0x10001,
            ;
        }
        layer = layer + 1;
    }
    proof {
        assert(layer * layer >= nb_blocks);
        assert(layer <= 0x10001);
        assert(layer * layer - nb_blocks < 2 * layer - 1) by (nonlinear_arith)
            requires
                (layer - 1) * (layer - 1) < nb_blocks,
                layer >= 1,
        ;
        assert((2 * layer - 1) * (layer * layer - nb_blocks) <= u64::MAX) by (nonlinear_arith)
            requires
                layer * layer - nb_blocks < 2 * layer - 1,
                layer * layer >= nb_blocks,
                1 <= layer <= 0x10001,
        ;
    }
    (2 * layer - 1) * (layer * layer - nb_blocks)
}

} // verus!
