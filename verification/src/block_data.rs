//! The catalog of the seven tetromino shapes, each a 4x4 boolean mask.

use vstd::prelude::*;

verus! {

pub open spec fn i_mask() -> Seq<Seq<bool>> {
    seq![
        seq![false, false, false, false],
        seq![true, true, true, true],
        seq![false, false, false, false],
        seq![false, false, false, false],
    ]
}

pub open spec fn j_mask() -> Seq<Seq<bool>> {
    seq![
        seq![true, false, false, false],
        seq![true, true, true, false],
        seq![false, false, false, false],
        seq![false, false, false, false],
    ]
}

pub open spec fn l_mask() -> Seq<Seq<bool>> {
    seq![
        seq![false, false, true, false],
        seq![true, true, true, false],
        seq![false, false, false, false],
        seq![false, false, false, false],
    ]
}

pub open spec fn t_mask() -> Seq<Seq<bool>> {
    seq![
        seq![false, true, false, false],
        seq![true, true, true, false],
        seq![false, false, false, false],
        seq![false, false, false, false],
    ]
}

pub open spec fn o_mask() -> Seq<Seq<bool>> {
    seq![
        seq![false, true, true, false],
        seq![false, true, true, false],
        seq![false, false, false, false],
        seq![false, false, false, false],
    ]
}

pub open spec fn s_mask() -> Seq<Seq<bool>> {
    seq![
        seq![false, true, true, false],
        seq![true, true, false, false],
        seq![false, false, false, false],
        seq![false, false, false, false],
    ]
}

pub open spec fn z_mask() -> Seq<Seq<bool>> {
    seq![
        seq![true, true, false, false],
        seq![false, true, true, false],
        seq![false, false, false, false],
        seq![false, false, false, false],
    ]
}

/// The mask of shape number `idx`, numbered 1 through 7 as the bag draws them.
pub open spec fn mask_of(idx: int) -> Seq<Seq<bool>> {
    if idx == 1 {
        i_mask()
    } else if idx == 2 {
        j_mask()
    } else if idx == 3 {
        l_mask()
    } else if idx == 4 {
        t_mask()
    } else if idx == 5 {
        o_mask()
    } else if idx == 6 {
        s_mask()
    } else {
        z_mask()
    }
}

pub fn i_block() -> (m: [[bool; 4]; 4])
    ensures
        m.deep_view() == i_mask(),
{
    let m = [
        [false, false, false, false],
        [true, true, true, true],
        [false, false, false, false],
        [false, false, false, false],
    ];
    proof {
        assert(m.deep_view() =~~= i_mask());
    }
    m
}

pub fn j_block() -> (m: [[bool; 4]; 4])
    ensures
        m.deep_view() == j_mask(),
{
    let m = [
        [true, false, false, false],
        [true, true, true, false],
        [false, false, false, false],
        [false, false, false, false],
    ];
    proof {
        assert(m.deep_view() =~~= j_mask());
    }
    m
}

pub fn l_block() -> (m: [[bool; 4]; 4])
    ensures
        m.deep_view() == l_mask(),
{
    let m = [
        [false, false, true, false],
        [true, true, true, false],
        [false, false, false, false],
        [false, false, false, false],
    ];
    proof {
        assert(m.deep_view() =~~= l_mask());
    }
    m
}

pub fn t_block() -> (m: [[bool; 4]; 4])
    ensures
        m.deep_view() == t_mask(),
{
    let m = [
        [false, true, false, false],
        [true, true, true, false],
        [false, false, false, false],
        [false, false, false, false],
    ];
    proof {
        assert(m.deep_view() =~~= t_mask());
    }
    m
}

pub fn o_block() -> (m: [[bool; 4]; 4])
    ensures
        m.deep_view() == o_mask(),
{
    let m = [
        [false, true, true, false],
        [false, true, true, false],
        [false, false, false, false],
        [false, false, false, false],
    ];
    proof {
        assert(m.deep_view() =~~= o_mask());
    }
    m
}

pub fn s_block() -> (m: [[bool; 4]; 4])
    ensures
        m.deep_view() == s_mask(),
{
    let m = [
        [false, true, true, false],
        [true, true, false, false],
        [false, false, false, false],
        [false, false, false, false],
    ];
    proof {
        assert(m.deep_view() =~~= s_mask());
    }
    m
}

pub fn z_block() -> (m: [[bool; 4]; 4])
    ensures
        m.deep_view() == z_mask(),
{
    let m = [
        [true, true, false, false],
        [false, true, true, false],
        [false, false, false, false],
        [false, false, false, false],
    ];
    proof {
        assert(m.deep_view() =~~= z_mask());
    }
    m
}

} // verus!
