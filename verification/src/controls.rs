//! What the keyboard and the mouse change in the view: the number of
//! sub-segments per edge, the rank of the faces that are expanded, which plane
//! a mouse drag rotates, and what a turn of the wheel scales.
use vstd::prelude::*;

verus! {

/// The count of sub-segments per edge after one more.
pub open spec fn subdivisions_after_more(subdivisions: int) -> int {
    subdivisions + 1
}

/// The count of sub-segments per edge after one fewer, which is never none.
pub open spec fn subdivisions_after_fewer(subdivisions: int) -> int {
    if subdivisions - 1 == 0 {
        1
    } else {
        subdivisions - 1
    }
}

/// The rank of the expanded faces raised by one, but at most one below the
/// dimension.
pub open spec fn rank_after_raise(rank: int, dimension: int) -> int {
    if rank + 1 > dimension - 1 {
        dimension - 1
    } else {
        rank + 1
    }
}

/// The rank of the expanded faces lowered by one, but at least 2.
pub open spec fn rank_after_lower(rank: int) -> int {
    if rank - 1 < 2 {
        2
    } else {
        rank - 1
    }
}

/// One more sub-segment per edge.
pub fn more_subdivisions(subdivisions: i32) -> (result: i32)
    requires
        subdivisions < i32::MAX,
    ensures
        result == subdivisions_after_more(subdivisions as int),
        result == subdivisions + 1,
{
    subdivisions + 1
}

/// One sub-segment fewer per edge, but never none.
pub fn fewer_subdivisions(subdivisions: i32) -> (result: i32)
    requires
        subdivisions > i32::MIN,
    ensures
        result == subdivisions_after_fewer(subdivisions as int),
        subdivisions > 1 ==> result == subdivisions - 1,
        subdivisions == 1 ==> result == 1,
        result != 0,
{
    let fewer = subdivisions - 1;
    if fewer == 0 {
        1
    } else {
        fewer
    }
}

/// The rank of the expanded faces one higher, but at most one below the
/// dimension.
pub fn raise_facet_rank(rank: usize, dimension: usize) -> (result: usize)
    requires
        rank < usize::MAX,
        dimension >= 1,
    ensures
        result == rank_after_raise(rank as int, dimension as int),
        result <= rank + 1,
        result <= dimension - 1,
        result == rank + 1 || result == dimension - 1,
{
    let raised = rank + 1;
    if raised > dimension - 1 {
        dimension - 1
    } else {
        raised
    }
}

/// The rank of the expanded faces one lower, but at least 2.
pub fn lower_facet_rank(rank: usize) -> (result: usize)
    requires
        rank >= 1,
    ensures
        result == rank_after_lower(rank as int),
        result >= rank - 1,
        result >= 2,
        result == rank - 1 || result == 2,
{
    let lowered = rank - 1;
    if lowered < 2 {
        2
    } else {
        lowered
    }
}

/// Law: a count of sub-segments of at least one stays at least one, whichever
/// key is pressed.
pub proof fn lemma_subdivisions_stay_positive(subdivisions: int)
    requires
        subdivisions >= 1,
    ensures
        subdivisions_after_more(subdivisions) >= 1,
        subdivisions_after_fewer(subdivisions) >= 1,
{
}

/// Law: one more sub-segment, then one fewer, gives back the count one had.
pub proof fn lemma_more_then_fewer_subdivisions(subdivisions: int)
    requires
        subdivisions >= 1,
    ensures
        subdivisions_after_fewer(subdivisions_after_more(subdivisions)) == subdivisions,
{
}

/// Law: in a space of at least three dimensions, a rank between 2 and one
/// below the dimension stays there when raised or lowered.
pub proof fn lemma_facet_rank_stays_in_range(rank: int, dimension: int)
    requires
        dimension >= 3,
        2 <= rank <= dimension - 1,
    ensures
        2 <= rank_after_raise(rank, dimension) <= dimension - 1,
        2 <= rank_after_lower(rank) <= dimension - 1,
{
}

/// Law: raising the rank below its upper bound and lowering it again gives
/// back the rank one had.
pub proof fn lemma_raise_then_lower_facet_rank(rank: int, dimension: int)
    requires
        2 <= rank,
        rank + 1 <= dimension - 1,
    ensures
        rank_after_lower(rank_after_raise(rank, dimension)) == rank,
{
}

/// Law: raising never lowers a rank below the top and stops at one below the
/// dimension: it gives the smaller of the next rank and that bound; lowering
/// gives the larger of the previous rank and 2.
pub proof fn lemma_facet_rank_saturates(rank: int, dimension: int)
    requires
        dimension >= 1,
        0 <= rank,
    ensures
        rank <= dimension - 1 ==> rank_after_raise(rank, dimension) >= rank,
        rank_after_raise(rank, dimension) <= rank + 1,
        rank_after_raise(rank, dimension) <= dimension - 1,
        rank_after_raise(rank, dimension) == rank + 1 || rank_after_raise(rank, dimension)
            == dimension - 1,
        rank_after_raise(dimension - 1, dimension) == dimension - 1,
        rank_after_lower(rank) >= rank - 1,
        rank_after_lower(rank) >= 2,
        rank_after_lower(rank) == rank - 1 || rank_after_lower(rank) == 2,
{
}

/// Law: one fewer sub-segment is one fewer, except that a single one stays.
pub proof fn lemma_fewer_subdivisions_steps_down(subdivisions: int)
    ensures
        subdivisions > 1 ==> subdivisions_after_fewer(subdivisions) == subdivisions - 1,
        subdivisions_after_fewer(1) == 1,
        subdivisions_after_more(subdivisions) == subdivisions + 1,
{
}

/// The keys that may be held during a drag with the left or middle button.
#[derive(Clone, Copy, Debug, PartialEq, Eq, Structural)]
pub struct DragKeys {
    pub control: bool,
    pub z: bool,
    pub x: bool,
    pub c: bool,
    pub v: bool,
    pub b: bool,
    pub n: bool,
}

/// A drag rotates the plane of axis 1 and `axis` by the vertical motion and
/// the plane of axis 0 and `axis` by the horizontal one; `inverted` turns the
/// sense of both.
#[derive(Clone, Copy, Debug, PartialEq, Eq, Structural)]
pub struct DragRotation {
    pub axis: usize,
    pub inverted: bool,
}

/// The axis a drag turns towards: the first held key of control, Z, X, C, V,
/// B, N picks axis 3 to 9; with none of them it is the depth axis 2.
pub open spec fn drag_axis(keys: DragKeys) -> usize {
    if keys.control {
        3
    } else if keys.z {
        4
    } else if keys.x {
        5
    } else if keys.c {
        6
    } else if keys.v {
        7
    } else if keys.b {
        8
    } else if keys.n {
        9
    } else {
        2
    }
}

/// Which rotation a drag makes in a space of `dimension` axes: none when its
/// axis is not one of them; the sense is inverted when a key picked the axis.
pub fn drag_rotation(keys: DragKeys, dimension: usize) -> (result: Option<DragRotation>)
    ensures
        result == (if drag_axis(keys) < dimension {
            Some(DragRotation { axis: drag_axis(keys), inverted: drag_axis(keys) != 2 })
        } else {
            None
        }),
        result matches Some(r) ==> r.axis < dimension && r.inverted == (r.axis != 2),
        keys.control ==> result == (if 3 < dimension {
            Some(DragRotation { axis: 3, inverted: true })
        } else {
            None
        }),
        !keys.control && keys.z ==> result == (if 4 < dimension {
            Some(DragRotation { axis: 4, inverted: true })
        } else {
            None
        }),
        !keys.control && !keys.z && keys.x ==> result == (if 5 < dimension {
            Some(DragRotation { axis: 5, inverted: true })
        } else {
            None
        }),
        !keys.control && !keys.z && !keys.x && keys.c ==> result == (if 6 < dimension {
            Some(DragRotation { axis: 6, inverted: true })
        } else {
            None
        }),
        !keys.control && !keys.z && !keys.x && !keys.c && keys.v ==> result == (if 7 < dimension {
            Some(DragRotation { axis: 7, inverted: true })
        } else {
            None
        }),
        !keys.control && !keys.z && !keys.x && !keys.c && !keys.v && keys.b ==> result == (if 8
            < dimension {
            Some(DragRotation { axis: 8, inverted: true })
        } else {
            None
        }),
        !keys.control && !keys.z && !keys.x && !keys.c && !keys.v && !keys.b && keys.n ==> result
            == (if 9 < dimension {
            Some(DragRotation { axis: 9, inverted: true })
        } else {
            None
        }),
        !keys.control && !keys.z && !keys.x && !keys.c && !keys.v && !keys.b && !keys.n ==> result
            == (if 2 < dimension {
            Some(DragRotation { axis: 2, inverted: false })
        } else {
            None
        }),
{
    let axis: usize = if keys.control {
        3
    } else if keys.z {
        4
    } else if keys.x {
        5
    } else if keys.c {
        6
    } else if keys.v {
        7
    } else if keys.b {
        8
    } else if keys.n {
        9
    } else {
        2
    };
    if axis < dimension {
        Some(DragRotation { axis, inverted: axis != 2 })
    } else {
        None
    }
}

/// The sense of a turn of the wheel.
#[derive(Clone, Copy, Debug, PartialEq, Eq, Structural)]
pub enum ScrollDirection {
    /// The wheel reports a negative amount.
    Back,
    /// The wheel reports a positive amount.
    Forward,
}

/// What a turn of the wheel scales.
#[derive(Clone, Copy, Debug, PartialEq, Eq, Structural)]
pub enum ScaleTarget {
    /// The camera distance and the size of the picture, together.
    ZoomAndRenderSize,
    /// The width of the edges.
    EdgeWidth,
    /// The size of the picture.
    RenderSize,
}

/// A turn of the wheel scales `target` by 13/12 when `enlarge` holds, by
/// 12/13 otherwise.
#[derive(Clone, Copy, Debug, PartialEq, Eq, Structural)]
pub struct ScrollAction {
    pub target: ScaleTarget,
    pub enlarge: bool,
}

/// Turning back enlarges the camera distance but shrinks edges and picture;
/// turning forward does the opposite.
pub open spec fn scroll_enlarges(direction: ScrollDirection, control: bool) -> bool {
    (direction == ScrollDirection::Back) == control
}

pub open spec fn scroll_target(control: bool, shift: bool) -> ScaleTarget {
    if control {
        ScaleTarget::ZoomAndRenderSize
    } else if shift {
        ScaleTarget::EdgeWidth
    } else {
        ScaleTarget::RenderSize
    }
}

/// Control with the wheel moves the camera, shift widens or narrows the edges,
/// the wheel alone resizes the picture.
pub fn scroll_action(direction: ScrollDirection, control: bool, shift: bool) -> (result:
    ScrollAction)
    ensures
        result.target == scroll_target(control, shift),
        result.enlarge == scroll_enlarges(direction, control),
        control ==> result.target == ScaleTarget::ZoomAndRenderSize,
        !control && shift ==> result.target == ScaleTarget::EdgeWidth,
        !control && !shift ==> result.target == ScaleTarget::RenderSize,
        result.enlarge <==> ((direction == ScrollDirection::Back && control) || (direction
            == ScrollDirection::Forward && !control)),
{
    let target = if control {
        ScaleTarget::ZoomAndRenderSize
    } else if shift {
        ScaleTarget::EdgeWidth
    } else {
        ScaleTarget::RenderSize
    };
    let back = match direction {
        ScrollDirection::Back => true,
        ScrollDirection::Forward => false,
    };
    ScrollAction { target, enlarge: back == control }
}

/// Law: with the same keys held, a turn back and a turn forward scale the same
/// quantity (`scroll_target` depends on the keys alone) by inverse factors, so
/// that one undoes the other.
pub proof fn lemma_scroll_back_forward_cancel(control: bool)
    ensures
        scroll_enlarges(ScrollDirection::Back, control) != scroll_enlarges(
            ScrollDirection::Forward,
            control,
        ),
{
}

/// The axes that a starting position or a motion moves: every axis below
/// `count` but the depth axis 2, which the zoom governs.
pub fn free_axes(count: usize) -> (result: Vec<usize>)
    ensures
        result.len() == (if count > 2 {
            count - 1
        } else {
            count as int
        }),
        forall|k: int| 0 <= k < result.len() ==> #[trigger] result[k] == (if k < 2 {
            k
        } else {
            k + 1
        }),
{
    let mut result: Vec<usize> = Vec::new();
    let mut i: usize = 0;
    while i < count
        invariant
            i <= count,
            result.len() == (if i > 2 {
                i - 1
            } else {
                i as int
            }),
            forall|k: int| 0 <= k < result.len() ==> #[trigger] result[k] == (if k < 2 {
                k
            } else {
                k + 1
            }),
        decreases count - i,
    {
        if i != 2 {
            result.push(i);
        }
        i = i + 1;
    }
    result
}

} // verus!
