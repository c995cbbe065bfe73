use vstd::prelude::*;

verus! {

/// What asking the window surface for its next texture gave.
#[derive(Debug, Clone, Copy, PartialEq, Eq, Structural)]
pub enum SurfaceStatus {
    /// A texture, ready to draw on.
    Success,
    /// A texture, usable though the surface no longer matches the window exactly.
    Suboptimal,
    /// No texture came in time.
    Timeout,
    /// The surface no longer matches the window and must be configured again.
    Outdated,
    /// The surface is gone.
    Lost,
    /// The window cannot be seen.
    Occluded,
    /// The request was invalid.
    Validation,
}

/// What to do after asking the surface for a texture.
#[derive(Debug, Clone, Copy, PartialEq, Eq, Structural)]
pub enum AcquireAction {
    /// Draw the frame on the texture and present it.
    Render,
    /// Pause briefly and ask again.
    RetryAfterPause,
    /// Configure the surface again, pause briefly and ask again.
    ReconfigureAndRetry,
    /// Configure the surface again, then give up this frame.
    ReconfigureAndSkip,
    /// Give up this frame.
    Skip,
}

/// How many times a frame asks the surface for a texture before giving up.
pub const MAX_ACQUIRE_ATTEMPTS: u8 = 3;

/// The failed attempts counted and the action taken after `status`, when
/// `attempts` attempts had failed before.
pub open spec fn acquire_next(attempts: int, status: SurfaceStatus) -> (int, AcquireAction) {
    match status {
        SurfaceStatus::Success | SurfaceStatus::Suboptimal => (attempts, AcquireAction::Render),
        SurfaceStatus::Timeout => if attempts + 1 >= MAX_ACQUIRE_ATTEMPTS {
            (attempts + 1, AcquireAction::Skip)
        } else {
            (attempts + 1, AcquireAction::RetryAfterPause)
        },
        SurfaceStatus::Outdated => if attempts + 1 >= MAX_ACQUIRE_ATTEMPTS {
            (attempts + 1, AcquireAction::ReconfigureAndSkip)
        } else {
            (attempts + 1, AcquireAction::ReconfigureAndRetry)
        },
        _ => (attempts, AcquireAction::Skip),
    }
}

/// Whether an action asks the surface again.
pub open spec fn asks_again(action: AcquireAction) -> bool {
    action == AcquireAction::RetryAfterPause || action == AcquireAction::ReconfigureAndRetry
}

/// Decides what follows one request for a surface texture: draw, ask again
/// (after a pause, and after configuring the surface again when it is outdated),
/// or give up the frame once `MAX_ACQUIRE_ATTEMPTS` requests have failed.
pub fn acquire_step(attempts: u8, status: SurfaceStatus) -> (r: (u8, AcquireAction))
    requires
        attempts < MAX_ACQUIRE_ATTEMPTS,
    ensures
        (r.0 as int, r.1) == acquire_next(attempts as int, status),
{
    match status {
        SurfaceStatus::Success | SurfaceStatus::Suboptimal => (attempts, AcquireAction::Render),
        SurfaceStatus::Timeout => {
            let next = attempts + 1;
            if next >= MAX_ACQUIRE_ATTEMPTS {
                (next, AcquireAction::Skip)
            } else {
                (next, AcquireAction::RetryAfterPause)
            }
        },
        SurfaceStatus::Outdated => {
            let next = attempts + 1;
            if next >= MAX_ACQUIRE_ATTEMPTS {
                (next, AcquireAction::ReconfigureAndSkip)
            } else {
                (next, AcquireAction::ReconfigureAndRetry)
            }
        },
        _ => (attempts, AcquireAction::Skip),
    }
}

/// How many requests a frame makes when the surface answers `statuses` in turn,
/// starting with `attempts` failed requests (a frame that runs out of answers
/// counts the requests made so far).
pub open spec fn requests_made(attempts: int, statuses: Seq<SurfaceStatus>) -> int
    decreases statuses.len(),
{
    if statuses.len() == 0 {
        0
    } else {
        let (next, action) = acquire_next(attempts, statuses[0]);
        if asks_again(action) {
            1 + requests_made(next, statuses.drop_first())
        } else {
            1
        }
    }
}

/// Whatever the surface answers, a frame asks for a texture at most
/// `MAX_ACQUIRE_ATTEMPTS` times, and asks again only after a timeout or an
/// outdated surface.
pub proof fn lemma_acquire_bounded(statuses: Seq<SurfaceStatus>)
    ensures
        requests_made(0, statuses) <= MAX_ACQUIRE_ATTEMPTS,
        forall|a: int, s: SurfaceStatus| 0 <= a < MAX_ACQUIRE_ATTEMPTS && #[trigger] asks_again(acquire_next(a, s).1) ==>
            (s == SurfaceStatus::Timeout || s == SurfaceStatus::Outdated) && acquire_next(a, s).0 == a + 1 < MAX_ACQUIRE_ATTEMPTS,
{
    lemma_requests_bounded(0, statuses);
}

/// What each answer of the surface leads to, before the attempts run out
/// (`attempts` failed requests so far, fewer than `MAX_ACQUIRE_ATTEMPTS`): a
/// texture is drawn on at once; a timeout is retried after a pause and an
/// outdated surface after configuring it again, each counting one more failed
/// attempt, until the third failure gives the frame up; a lost or occluded
/// surface, or an invalid request, gives the frame up at once.
pub proof fn lemma_acquire_outcomes(attempts: int)
    requires
        0 <= attempts < MAX_ACQUIRE_ATTEMPTS,
    ensures
        acquire_next(attempts, SurfaceStatus::Success) == (attempts, AcquireAction::Render),
        acquire_next(attempts, SurfaceStatus::Suboptimal) == (attempts, AcquireAction::Render),
        acquire_next(attempts, SurfaceStatus::Timeout) == (attempts + 1,
            if attempts + 1 < 3 { AcquireAction::RetryAfterPause } else { AcquireAction::Skip }),
        acquire_next(attempts, SurfaceStatus::Outdated) == (attempts + 1,
            if attempts + 1 < 3 { AcquireAction::ReconfigureAndRetry } else { AcquireAction::ReconfigureAndSkip }),
        acquire_next(attempts, SurfaceStatus::Lost).1 == AcquireAction::Skip,
        acquire_next(attempts, SurfaceStatus::Occluded).1 == AcquireAction::Skip,
        acquire_next(attempts, SurfaceStatus::Validation).1 == AcquireAction::Skip,
        MAX_ACQUIRE_ATTEMPTS == 3,
{
}

/// A surface that keeps timing out (or keeps being outdated) is asked exactly
/// three times before the frame is given up; one that answers with a texture
/// after two timeouts gets the frame drawn on the third request.
pub proof fn lemma_acquire_three_requests(s: SurfaceStatus, rest: Seq<SurfaceStatus>)
    requires
        s == SurfaceStatus::Timeout || s == SurfaceStatus::Outdated,
    ensures
        requests_made(0, seq![s, s, s] + rest) == 3,
        acquire_next(2, s).1 != AcquireAction::RetryAfterPause && acquire_next(2, s).1 != AcquireAction::ReconfigureAndRetry,
        requests_made(0, seq![SurfaceStatus::Timeout, SurfaceStatus::Timeout, SurfaceStatus::Success] + rest) == 3,
        acquire_next(2, SurfaceStatus::Success).1 == AcquireAction::Render,
{
    let a = seq![s, s, s] + rest;
    let a1 = seq![s, s] + rest;
    let a2 = seq![s] + rest;
    assert(a.drop_first() =~= a1);
    assert(a1.drop_first() =~= a2);
    assert(a[0] == s && a1[0] == s && a2[0] == s);
    assert(requests_made(2, a2) == 1);
    assert(requests_made(1, a1) == 2);
    let t = SurfaceStatus::Timeout;
    let b = seq![t, t, SurfaceStatus::Success] + rest;
    let b1 = seq![t, SurfaceStatus::Success] + rest;
    let b2 = seq![SurfaceStatus::Success] + rest;
    assert(b.drop_first() =~= b1);
    assert(b1.drop_first() =~= b2);
    assert(b[0] == t && b1[0] == t && b2[0] == SurfaceStatus::Success);
    assert(requests_made(2, b2) == 1);
    assert(requests_made(1, b1) == 2);
}

proof fn lemma_requests_bounded(attempts: int, statuses: Seq<SurfaceStatus>)
    requires
        0 <= attempts < MAX_ACQUIRE_ATTEMPTS,
    ensures
        requests_made(attempts, statuses) <= MAX_ACQUIRE_ATTEMPTS - attempts,
    decreases statuses.len(),
{
    if statuses.len() > 0 {
        let (next, action) = acquire_next(attempts, statuses[0]);
        if asks_again(action) {
            lemma_requests_bounded(next, statuses.drop_first());
        }
    }
}

/// A presentation mode that a surface can offer.
#[derive(Debug, Clone, Copy, PartialEq, Eq, Structural)]
pub enum PresentModeChoice {
    /// Newest frame replaces the queued one, no tearing.
    Mailbox,
    /// Frames are shown at once, tearing possible.
    Immediate,
    /// Frames wait for vertical sync (always available).
    Fifo,
    /// Any other mode.
    Other,
}

/// The presentation mode chosen among `available`: Mailbox when offered, else
/// Immediate when offered, else Fifo.
pub open spec fn preferred_present_mode(available: Seq<PresentModeChoice>) -> PresentModeChoice {
    if available.contains(PresentModeChoice::Mailbox) {
        PresentModeChoice::Mailbox
    } else if available.contains(PresentModeChoice::Immediate) {
        PresentModeChoice::Immediate
    } else {
        PresentModeChoice::Fifo
    }
}

/// The preferred mode is the best one on offer: Mailbox whenever it is offered;
/// Immediate whenever it is offered and Mailbox is not; Fifo, which every surface
/// supports, otherwise. The choice is either offered or Fifo, and it never
/// depends on the order in which the modes are listed.
pub proof fn lemma_present_mode_preference(available: Seq<PresentModeChoice>, other: Seq<PresentModeChoice>)
    ensures
        available.contains(PresentModeChoice::Mailbox) ==> preferred_present_mode(available) == PresentModeChoice::Mailbox,
        !available.contains(PresentModeChoice::Mailbox) && available.contains(PresentModeChoice::Immediate)
            ==> preferred_present_mode(available) == PresentModeChoice::Immediate,
        !available.contains(PresentModeChoice::Mailbox) && !available.contains(PresentModeChoice::Immediate)
            ==> preferred_present_mode(available) == PresentModeChoice::Fifo,
        available.contains(preferred_present_mode(available)) || preferred_present_mode(available) == PresentModeChoice::Fifo,
        (forall|m: PresentModeChoice| available.contains(m) <==> other.contains(m))
            ==> preferred_present_mode(available) == preferred_present_mode(other),
{
}

fn offers(available: &Vec<PresentModeChoice>, mode: PresentModeChoice) -> (r: bool)
    ensures
        r == available@.contains(mode),
{
    let mut i: usize = 0;
    while i < available.len()
        invariant
            i <= available@.len(),
            forall|j: int| 0 <= j < i ==> available@[j] != mode,
        decreases available@.len() - i,
    {
        if available[i] == mode {
            return true;
        }
        i = i + 1;
    }
    false
}

/// Chooses the presentation mode (see [`preferred_present_mode`]).
pub fn choose_present_mode(available: &Vec<PresentModeChoice>) -> (r: PresentModeChoice)
    ensures
        r == preferred_present_mode(available@),
        available@.contains(PresentModeChoice::Mailbox) ==> r == PresentModeChoice::Mailbox,
        !available@.contains(PresentModeChoice::Mailbox) && available@.contains(PresentModeChoice::Immediate)
            ==> r == PresentModeChoice::Immediate,
        !available@.contains(PresentModeChoice::Mailbox) && !available@.contains(PresentModeChoice::Immediate)
            ==> r == PresentModeChoice::Fifo,
{
    if offers(available, PresentModeChoice::Mailbox) {
        PresentModeChoice::Mailbox
    } else if offers(available, PresentModeChoice::Immediate) {
        PresentModeChoice::Immediate
    } else {
        PresentModeChoice::Fifo
    }
}

/// Chooses the surface format: the first sRGB one among the formats offered
/// (`is_srgb[i]` tells whether format `i` is sRGB), else the first one.
pub fn choose_surface_format(is_srgb: &Vec<bool>) -> (r: usize)
    requires
        is_srgb@.len() > 0,
    ensures
        r < is_srgb@.len(),
        (exists|j: int| 0 <= j < is_srgb@.len() && is_srgb@[j]) ==> is_srgb@[r as int] && forall|j: int| 0 <= j < r ==> !is_srgb@[j],
        !(exists|j: int| 0 <= j < is_srgb@.len() && is_srgb@[j]) ==> r == 0,
{
    let mut i: usize = 0;
    while i < is_srgb.len()
        invariant
            i <= is_srgb@.len(),
            forall|j: int| 0 <= j < i ==> !is_srgb@[j],
        decreases is_srgb@.len() - i,
    {
        if is_srgb[i] {
            return i;
        }
        i = i + 1;
    }
    0
}

} // verus!
