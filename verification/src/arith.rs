use vstd::prelude::*;
use vstd::arithmetic::div_mod::{lemma_fundamental_div_mod, lemma_fundamental_div_mod_converse, lemma_mod_bound};

verus! {

/// The rows (or columns) of box number `b` end within the board.
pub proof fn lemma_box_span(bs: int, b: int)
    requires
        0 <= b < bs,
    ensures
        0 <= b * bs,
        b * bs + bs <= bs * bs,
{
    assert(0 <= b * bs && b * bs + bs <= bs * bs) by (nonlinear_arith)
        requires
            0 <= b < bs,
    ;
}

/// Index `x` lies in the span of box number `b` exactly when `x / bs` is `b`.
pub proof fn lemma_box_index(bs: int, x: int, b: int)
    requires
        bs > 0,
        0 <= x,
    ensures
        (b * bs <= x < b * bs + bs) <==> x / bs == b,
{
    lemma_fundamental_div_mod(x, bs);
    lemma_mod_bound(x, bs);
    if b * bs <= x < b * bs + bs {
        lemma_fundamental_div_mod_converse(x, bs, b, x - b * bs);
    }
    if x / bs == b {
        assert(bs * (x / bs) == b * bs) by (nonlinear_arith)
            requires
                x / bs == b,
        ;
    }
}

/// On a board of side `bs * bs`, the box number of an index is below `bs`.
pub proof fn lemma_box_number(bs: int, x: int)
    requires
        bs > 0,
        0 <= x < bs * bs,
    ensures
        0 <= x / bs < bs,
{
    lemma_fundamental_div_mod(x, bs);
    lemma_mod_bound(x, bs);
    let q = x / bs;
    if q >= bs {
        assert(bs * q >= bs * bs) by (nonlinear_arith)
            requires
                q >= bs,
                bs > 0,
        ;
    }
    if q < 0 {
        assert(bs * q <= -bs) by (nonlinear_arith)
            requires
                q < 0,
                bs > 0,
        ;
    }
}

} // verus!
