//! Recording an image sequence. The image index is -2 while idle; Enter sets
//! it to -1, the next frame to 0, and from then on every frame draws the scene
//! off screen, exports it under its index, advances the scheduled rotations and
//! motion one step, and counts on, until the index reaches the number of
//! frames. Escape cancels a recording and turns the rotations back.
use vstd::prelude::*;
use crate::rotation_file::all_digits;
use crate::rotation_file::decimal_value;
use crate::rotation_file::is_digit;

verus! {

pub open spec fn index_after_capture(index: int) -> int {
    if index > -1 {
        index + 1
    } else {
        index
    }
}

pub open spec fn index_after_start(index: int) -> int {
    if index == -1 {
        0
    } else {
        index
    }
}

pub open spec fn index_after_finish(index: int, frame_count: int) -> int {
    if index == frame_count {
        -2
    } else {
        index
    }
}

/// The index after the capture, the start and the end of a recording, before
/// Escape and Enter are looked at.
pub open spec fn index_before_keys(index: int, frame_count: int) -> int {
    index_after_finish(index_after_start(index_after_capture(index)), frame_count)
}

/// The index for the next frame.
pub open spec fn recording_next(index: int, frame_count: int, escape: bool, enter: bool) -> int {
    if enter {
        -1
    } else if escape {
        -2
    } else {
        index_before_keys(index, frame_count)
    }
}

/// What one frame does for a recording.
#[derive(Clone, Copy, Debug, PartialEq, Eq, Structural)]
pub struct RecordingStep {
    /// The frame that is drawn off screen and exported under this number;
    /// the scheduled rotations and motion then advance one step.
    pub captured_frame: Option<i32>,
    /// The recording has reached its last frame: the position returns to the
    /// origin and the end is signalled.
    pub finished: bool,
    /// Escape: the position returns to the origin and the scheduled rotations
    /// turn by this many steps.
    pub rewind_steps: Option<i32>,
    /// Enter: the schedules are read anew and a recording starts.
    pub started: bool,
    /// The image index for the next frame.
    pub next_index: i32,
}

/// The recording's part of one frame, from the image index at its start, the
/// number of frames to record, and whether Escape and Enter were pressed.
pub fn recording_step(image_index: i32, frame_count: i32, escape: bool, enter: bool) -> (step:
    RecordingStep)
    requires
        image_index > -1 ==> image_index < i32::MAX,
        escape ==> index_before_keys(image_index as int, frame_count as int) > i32::MIN,
    ensures
        step.captured_frame == (if image_index > -1 {
            Some(image_index)
        } else {
            None
        }),
        step.finished == (index_after_start(index_after_capture(image_index as int))
            == frame_count),
        step.rewind_steps == (if escape {
            Some((-index_before_keys(image_index as int, frame_count as int)) as i32)
        } else {
            None
        }),
        step.started == enter,
        step.next_index == recording_next(image_index as int, frame_count as int, escape, enter),
        enter ==> step.next_index == -1,
        !enter && escape ==> step.next_index == -2,
        !enter && !escape && 0 <= image_index && image_index + 1 < frame_count ==> step.next_index
            == image_index + 1,
        !enter && !escape && 0 <= image_index && image_index + 1 == frame_count ==> step.next_index
            == -2,
        !enter && !escape && image_index == -1 && frame_count != 0 ==> step.next_index == 0,
        !enter && !escape && image_index == -2 && frame_count != -2 ==> step.next_index == -2,
        0 <= image_index ==> step.finished == (image_index + 1 == frame_count),
        image_index == -1 ==> step.finished == (frame_count == 0),
        escape && 0 <= image_index && image_index + 1 != frame_count ==> step.rewind_steps == Some(
            (-(image_index + 1)) as i32,
        ),
{
    let mut index = image_index;
    let captured_frame = if index > -1 {
        let frame = index;
        index = index + 1;
        Some(frame)
    } else {
        None
    };
    if index == -1 {
        index = 0;
    }
    let finished = index == frame_count;
    if finished {
        index = -2;
    }
    let rewind_steps = if escape {
        let steps = -index;
        index = -2;
        Some(steps)
    } else {
        None
    };
    if enter {
        index = -1;
    }
    RecordingStep { captured_frame, finished, rewind_steps, started: enter, next_index: index }
}

/// Law: Enter always starts a recording afresh, whatever the index, the number
/// of frames and Escape; Escape without Enter always leaves the recording
/// idle; and a frame without keys in the middle of a recording moves on to
/// the next frame.
pub proof fn lemma_keys_start_and_stop(index: int, frame_count: int, escape: bool)
    ensures
        recording_next(index, frame_count, escape, true) == -1,
        recording_next(index, frame_count, true, false) == -2,
        0 <= index && index + 1 < frame_count ==> recording_next(index, frame_count, false, false)
            == index + 1,
        0 <= index && index + 1 == frame_count ==> recording_next(index, frame_count, false, false)
            == -2,
{
}

/// The image index after `frames` frames in which neither Escape nor Enter is
/// pressed.
pub open spec fn quiet_index(index: int, frame_count: int, frames: nat) -> int
    decreases frames,
{
    if frames == 0 {
        index
    } else {
        quiet_index(recording_next(index, frame_count, false, false), frame_count, (frames - 1) as nat)
    }
}

/// The frames exported during `frames` frames without Escape or Enter.
pub open spec fn quiet_captures(index: int, frame_count: int, frames: nat) -> Seq<int>
    decreases frames,
{
    if frames == 0 {
        Seq::<int>::empty()
    } else {
        (if index > -1 {
            seq![index]
        } else {
            Seq::<int>::empty()
        }) + quiet_captures(
            recording_next(index, frame_count, false, false),
            frame_count,
            (frames - 1) as nat,
        )
    }
}

/// The steps by which one frame turns the scheduled rotations: one for a
/// capture, and the rewind of Escape.
pub open spec fn frame_rotation_steps(index: int, frame_count: int, escape: bool) -> int {
    (if index > -1 {
        1int
    } else {
        0int
    }) + (if escape {
        -index_before_keys(index, frame_count)
    } else {
        0int
    })
}

/// The steps by which `frames` frames without Escape or Enter turn the
/// scheduled rotations.
pub open spec fn quiet_rotation_steps(index: int, frame_count: int, frames: nat) -> int
    decreases frames,
{
    if frames == 0 {
        0
    } else {
        frame_rotation_steps(index, frame_count, false) + quiet_rotation_steps(
            recording_next(index, frame_count, false, false),
            frame_count,
            (frames - 1) as nat,
        )
    }
}

/// Law: with at least one frame to record, the image index stays between -2
/// and the last frame, whatever keys are pressed.
pub proof fn lemma_recording_index_in_range(
    index: int,
    frame_count: int,
    escape: bool,
    enter: bool,
)
    requires
        frame_count >= 1,
        -2 <= index < frame_count,
    ensures
        -2 <= recording_next(index, frame_count, escape, enter) < frame_count,
{
}

proof fn lemma_quiet_progress(index: int, frame_count: int, frames: nat)
    requires
        index >= 0,
        index + frames < frame_count,
    ensures
        quiet_index(index, frame_count, frames) == index + frames,
        quiet_captures(index, frame_count, frames) == Seq::new(frames, |i: int| index + i),
        quiet_rotation_steps(index, frame_count, frames) == frames,
    decreases frames,
{
    if frames > 0 {
        lemma_quiet_progress(index + 1, frame_count, (frames - 1) as nat);
        assert(seq![index] + Seq::new((frames - 1) as nat, |i: int| index + 1 + i) =~= Seq::new(
            frames,
            |i: int| index + i,
        ));
    } else {
        assert(Seq::new(frames, |i: int| index + i) =~= Seq::<int>::empty());
    }
}

proof fn lemma_quiet_to_end(index: int, frame_count: int)
    requires
        0 <= index < frame_count,
    ensures
        quiet_index(index, frame_count, (frame_count - index) as nat) == -2,
        quiet_captures(index, frame_count, (frame_count - index) as nat) == Seq::new(
            (frame_count - index) as nat,
            |i: int| index + i,
        ),
    decreases frame_count - index,
{
    let rest = (frame_count - index - 1) as nat;
    if index + 1 == frame_count {
        assert(recording_next(index, frame_count, false, false) == -2);
        assert(quiet_index(-2, frame_count, 0) == -2);
        assert(quiet_captures(-2, frame_count, 0) =~= Seq::<int>::empty());
        assert(seq![index] + Seq::<int>::empty() =~= Seq::new(1, |i: int| index + i));
    } else {
        lemma_quiet_to_end(index + 1, frame_count);
        assert(seq![index] + Seq::new(rest, |i: int| index + 1 + i) =~= Seq::new(
            rest + 1,
            |i: int| index + i,
        ));
    }
}

/// Law: once started, a recording left alone exports the frames 0, 1, ... up
/// to the last one, each once and in order, is still running after each of
/// the first `frame_count` frames, and is over after one more.
pub proof fn lemma_recording_exports_every_frame(frame_count: int)
    requires
        frame_count >= 1,
    ensures
        quiet_captures(-1, frame_count, (frame_count + 1) as nat) == Seq::new(
            frame_count as nat,
            |i: int| i,
        ),
        quiet_index(-1, frame_count, (frame_count + 1) as nat) == -2,
        forall|m: nat| 1 <= m <= frame_count ==> #[trigger] quiet_index(-1, frame_count, m) == m - 1,
{
    lemma_quiet_to_end(0, frame_count);
    assert(Seq::<int>::empty() + quiet_captures(0, frame_count, frame_count as nat) =~= Seq::new(
        frame_count as nat,
        |i: int| i,
    ));
    assert forall|m: nat| 1 <= m <= frame_count implies #[trigger] quiet_index(-1, frame_count, m)
        == m - 1 by {
        lemma_quiet_progress(0, frame_count, (m - 1) as nat);
    }
}

/// Law: Escape during a recording, before its last frame, turns the scheduled
/// rotations back by as many steps as the recording had turned them forward.
pub proof fn lemma_escape_undoes_rotation(frame_count: int, frames: nat)
    requires
        frames < frame_count,
    ensures
        quiet_rotation_steps(-1, frame_count, frames) + frame_rotation_steps(
            quiet_index(-1, frame_count, frames),
            frame_count,
            true,
        ) == 0,
{
    if frames > 0 {
        lemma_quiet_progress(0, frame_count, (frames - 1) as nat);
    }
}

/// The decimal digits of a number, most significant first, without leading
/// zeros.
pub open spec fn decimal_digits(n: nat) -> Seq<u8>
    decreases n,
{
    if n < 10 {
        seq![(48 + n) as u8]
    } else {
        decimal_digits(n / 10).push((48 + n % 10) as u8)
    }
}

/// The decimal digits of `n`, led by zeros up to `width` digits.
pub open spec fn zero_padded(n: nat, width: nat) -> Seq<u8> {
    let digits = decimal_digits(n);
    Seq::new(
        (if digits.len() < width {
            width - digits.len()
        } else {
            0
        }) as nat,
        |i: int| 48u8,
    ) + digits
}

pub open spec fn image_directory() -> Seq<u8> {
    seq![46u8, 47u8, 105u8, 109u8, 97u8, 103u8, 101u8, 115u8, 47u8]
}

pub open spec fn image_extension() -> Seq<u8> {
    seq![46u8, 112u8, 110u8, 103u8]
}

/// The path of an exported frame: `./images/`, the frame number with at least
/// three digits, `.png`.
pub open spec fn capture_path(frame: nat) -> Seq<u8> {
    image_directory() + zero_padded(frame, 3) + image_extension()
}

fn push_decimal(out: &mut Vec<u8>, n: u32)
    ensures
        final(out)@ == old(out)@ + decimal_digits(n as nat),
    decreases n,
{
    if n >= 10 {
        push_decimal(out, n / 10);
    }
    out.push((48 + n % 10) as u8);
    proof {
        if n < 10 {
            assert(decimal_digits(n as nat) =~= seq![(48 + n) as u8]);
        }
    }
}

/// The bytes of the path under which a frame is exported.
pub fn capture_file_name(frame: i32) -> (path: Vec<u8>)
    requires
        frame >= 0,
    ensures
        path@ == capture_path(frame as nat),
        path@.len() >= 16,
        path@.subrange(0, 9) == seq![46u8, 47u8, 105u8, 109u8, 97u8, 103u8, 101u8, 115u8, 47u8],
        path@.subrange(path@.len() - 4, path@.len() as int) == seq![46u8, 112u8, 110u8, 103u8],
        all_digits(path@.subrange(9, path@.len() - 4)),
        decimal_value(path@.subrange(9, path@.len() - 4)) == frame,
        frame < 1000 ==> path@.len() == 16,
        path@.len() > 16 ==> path@[9] != 48u8,
{
    proof {
        lemma_capture_path_shape(frame as nat);
    }
    let mut digits: Vec<u8> = Vec::new();
    push_decimal(&mut digits, frame as u32);
    assert(digits@ =~= decimal_digits(frame as nat));
    let mut path: Vec<u8> = Vec::new();
    path.push(46);
    path.push(47);
    path.push(105);
    path.push(109);
    path.push(97);
    path.push(103);
    path.push(101);
    path.push(115);
    path.push(47);
    assert(path@ =~= image_directory());
    let mut zeros: usize = 0;
    let pad: usize = if digits.len() < 3 {
        3 - digits.len()
    } else {
        0
    };
    while zeros < pad
        invariant
            zeros <= pad <= 3,
            path@ == image_directory() + Seq::new(zeros as nat, |i: int| 48u8),
        decreases pad - zeros,
    {
        path.push(48);
        zeros = zeros + 1;
        assert(path@ =~= image_directory() + Seq::new(zeros as nat, |i: int| 48u8));
    }
    path.append(&mut digits);
    path.push(46);
    path.push(112);
    path.push(110);
    path.push(103);
    assert(path@ =~= capture_path(frame as nat));
    path
}

proof fn lemma_decimal_digits_shape(n: nat)
    ensures
        all_digits(decimal_digits(n)),
        decimal_digits(n).len() >= 1,
        n < 10 ==> decimal_digits(n).len() == 1,
        n < 100 ==> decimal_digits(n).len() <= 2,
        n < 1000 ==> decimal_digits(n).len() <= 3,
        n > 0 ==> decimal_digits(n)[0] != 48u8,
    decreases n,
{
    let d = decimal_digits(n);
    if n >= 10 {
        lemma_decimal_digits_shape(n / 10);
        let e = decimal_digits(n / 10);
        assert(d == e.push((48 + n % 10) as u8));
        assert forall|i: int| 0 <= i < d.len() implies is_digit(#[trigger] d[i]) by {
            if i < e.len() {
                assert(d[i] == e[i]);
            }
        }
        assert(d[0] == e[0]);
    } else {
        assert(d =~= seq![(48 + n) as u8]);
    }
}

/// The exported path is the directory, at least three digits that read as the
/// frame (more only when the frame needs them), and the extension.
proof fn lemma_capture_path_shape(n: nat)
    ensures
        capture_path(n).len() >= 16,
        capture_path(n).subrange(0, 9) == image_directory(),
        capture_path(n).subrange(capture_path(n).len() - 4, capture_path(n).len() as int)
            == image_extension(),
        capture_path(n).subrange(9, capture_path(n).len() - 4) == zero_padded(n, 3),
        all_digits(zero_padded(n, 3)),
        decimal_value(zero_padded(n, 3)) == n,
        n < 1000 ==> capture_path(n).len() == 16,
        capture_path(n).len() > 16 ==> capture_path(n)[9] != 48u8,
{
    let d = decimal_digits(n);
    lemma_decimal_digits_shape(n);
    lemma_decimal_digits_value(n);
    let k: nat = (if d.len() < 3 {
        3 - d.len()
    } else {
        0
    }) as nat;
    lemma_leading_zeros_value(k, d);
    let z = zero_padded(n, 3);
    assert(z == Seq::new(k, |i: int| 48u8) + d);
    assert forall|i: int| 0 <= i < z.len() implies is_digit(#[trigger] z[i]) by {
        if i >= k {
            assert(z[i] == d[i - k]);
        }
    }
    let c = capture_path(n);
    assert(c.subrange(0, 9) =~= image_directory());
    assert(c.subrange(c.len() - 4, c.len() as int) =~= image_extension());
    assert(c.subrange(9, c.len() - 4) =~= z);
    if c.len() > 16 {
        assert(k == 0);
        assert(z[0] == d[0]);
        assert(n > 0);
    }
}

proof fn lemma_decimal_digits_value(n: nat)
    ensures
        decimal_value(decimal_digits(n)) == n,
        decimal_digits(n).len() >= 1,
    decreases n,
{
    if n >= 10 {
        lemma_decimal_digits_value(n / 10);
        let d = decimal_digits(n);
        assert(d.drop_last() =~= decimal_digits(n / 10));
        assert(d.last() == (48 + n % 10) as u8);
        assert((d.last() - 48) as nat == n % 10);
        assert((n / 10) * 10 + n % 10 == n);
    } else {
        let d = decimal_digits(n);
        assert(d.drop_last() =~= Seq::<u8>::empty());
        assert(d.last() == (48 + n) as u8);
        assert(decimal_value(Seq::<u8>::empty()) == 0);
    }
}

proof fn lemma_leading_zeros_value(zeros: nat, digits: Seq<u8>)
    ensures
        decimal_value(Seq::new(zeros, |i: int| 48u8) + digits) == decimal_value(digits),
    decreases digits.len() + zeros,
{
    let z = Seq::new(zeros, |i: int| 48u8);
    if digits.len() > 0 {
        lemma_leading_zeros_value(zeros, digits.drop_last());
        assert((z + digits).drop_last() =~= z + digits.drop_last());
        assert((z + digits).last() == digits.last());
    } else if zeros > 0 {
        lemma_leading_zeros_value((zeros - 1) as nat, digits);
        assert((z + digits).drop_last() =~= Seq::new((zeros - 1) as nat, |i: int| 48u8)
            + digits);
        assert(z + digits =~= z);
    } else {
        assert(z + digits =~= Seq::<u8>::empty());
    }
}

/// Law: the digits in the name of an exported frame read back as the frame's
/// number, so that no two frames of a recording share a file.
pub proof fn lemma_capture_paths_distinct(a: nat, b: nat)
    ensures
        decimal_value(zero_padded(a, 3)) == a,
        a != b ==> capture_path(a) != capture_path(b),
{
    lemma_decimal_digits_value(a);
    lemma_decimal_digits_value(b);
    let da = decimal_digits(a);
    let db = decimal_digits(b);
    lemma_leading_zeros_value(
        (if da.len() < 3 {
            3 - da.len()
        } else {
            0
        }) as nat,
        da,
    );
    lemma_leading_zeros_value(
        (if db.len() < 3 {
            3 - db.len()
        } else {
            0
        }) as nat,
        db,
    );
    if a != b && capture_path(a) == capture_path(b) {
        let pa = zero_padded(a, 3);
        let pb = zero_padded(b, 3);
        assert(capture_path(a).len() == 13 + pa.len());
        assert(capture_path(b).len() == 13 + pb.len());
        assert(pa.len() == pb.len());
        assert(pa =~= capture_path(a).subrange(9, 9 + pa.len() as int));
        assert(pb =~= capture_path(b).subrange(9, 9 + pb.len() as int));
    }
}

} // verus!
