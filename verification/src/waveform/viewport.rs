//! The part of a recording that is on screen, in samples.

use vstd::prelude::*;

verus! {

/// Where the view stands. How many samples a pixel shows is the business of
/// who draws; here the width of the view comes as a number of samples.
#[derive(Debug, Clone, Copy)]
pub struct ViewState {
    pub sample_offset: u64,
    pub total_samples: u64,
}

/// Samples on screen.
#[derive(Debug, Clone, Copy)]
pub struct RenderLayout {
    pub channel_count: usize,
    pub first_sample: u64,
    pub viewport_samples: u64,
    pub total_samples: u64,
}

/// A move of the view along the recording, in samples.
#[derive(Debug, Clone, Copy)]
pub enum Pan {
    Forward(u64),
    Back(u64),
}

/// The smaller of two numbers.
pub open spec fn min(a: int, b: int) -> int {
    if a < b {
        a
    } else {
        b
    }
}

/// The difference of two numbers, or zero where the first is smaller.
pub open spec fn above(a: int, b: int) -> int {
    if a < b {
        0
    } else {
        a - b
    }
}

/// Offset after a move. A move forward stops where the end of the recording
/// comes into view, a move back at its start.
pub open spec fn panned(view: ViewState, pan: Pan, visible: u64) -> int {
    match pan {
        Pan::Forward(d) => min(view.sample_offset + d, view.end_offset(visible)),
        Pan::Back(d) => above(view.sample_offset as int, d as int),
    }
}

/// The view, moved back as far as it takes for it to be full.
pub open spec fn clamped(view: ViewState, visible: u64) -> ViewState {
    ViewState {
        sample_offset: min(view.sample_offset as int, view.end_offset(visible)) as u64,
        total_samples: view.total_samples,
    }
}

impl ViewState {
    /// Largest offset at which the view is full, or zero where the recording
    /// is shorter than the view.
    pub open spec fn end_offset(self, visible: u64) -> int {
        above(self.total_samples as int, visible as int)
    }

    pub fn new(total_samples: u64) -> (view: Self)
        ensures
            view.sample_offset == 0,
            view.total_samples == total_samples,
    {
        ViewState { sample_offset: 0, total_samples }
    }

    pub fn max_offset(&self, visible: u64) -> (offset: u64)
        ensures
            offset == self.end_offset(visible),
    {
        self.total_samples.saturating_sub(visible)
    }

    /// Moves the view to the offset that a zoom asks for, as far as the recording goes.
    pub fn zoom(&mut self, offset: u64, visible: u64)
        ensures
            final(self).sample_offset == min(offset as int, old(self).end_offset(visible)),
            final(self).total_samples == old(self).total_samples,
    {
        let limit: u64 = self.max_offset(visible);
        self.sample_offset = if offset < limit {
            offset
        } else {
            limit
        };
    }

    pub fn pan(&mut self, pan: Pan, visible: u64)
        ensures
            final(self).sample_offset == panned(*old(self), pan, visible),
            final(self).total_samples == old(self).total_samples,
    {
        match pan {
            Pan::Forward(d) => {
                let limit: u64 = self.max_offset(visible);
                let target: u64 = self.sample_offset.saturating_add(d);
                self.sample_offset = if target < limit {
                    target
                } else {
                    limit
                };
            },
            Pan::Back(d) => {
                self.sample_offset = self.sample_offset.saturating_sub(d);
            },
        }
    }

    pub fn clamp(&mut self, visible: u64)
        ensures
            *final(self) == clamped(*old(self), visible),
    {
        let offset: u64 = self.sample_offset;
        self.zoom(offset, visible);
    }

    /// Moves the view so that `start` stands `lead` samples behind its left edge.
    pub fn jump(&mut self, start: u64, lead: u64)
        ensures
            final(self).sample_offset == above(start as int, lead as int),
            final(self).total_samples == old(self).total_samples,
    {
        self.sample_offset = start.saturating_sub(lead);
    }

    pub fn layout(&self, viewport_samples: u64, channel_count: usize) -> (layout: RenderLayout)
        ensures
            layout == (RenderLayout {
                channel_count,
                first_sample: self.sample_offset,
                viewport_samples,
                total_samples: self.total_samples,
            }),
    {
        RenderLayout {
            channel_count,
            first_sample: self.sample_offset,
            viewport_samples,
            total_samples: self.total_samples,
        }
    }
}

impl RenderLayout {
    /// Sample behind the right edge. `None` if it has no number.
    pub fn last_sample(&self) -> (last: Option<u64>)
        ensures
            match last {
                Some(s) => s == self.first_sample + self.viewport_samples,
                None => self.first_sample + self.viewport_samples > u64::MAX,
            },
    {
        self.first_sample.checked_add(self.viewport_samples)
    }
}

/// A view that has been clamped shows no more than the recording holds: it
/// ends within the recording, or it starts at its first sample.
pub proof fn law_clamped_view_is_full(view: ViewState, visible: u64)
    ensures
        clamped(view, visible).sample_offset == 0 || clamped(view, visible).sample_offset + visible
            <= view.total_samples,
{
}

/// Whatever moved the view, clamping never moves it forward, brings it within
/// the recording, leaves the recording alone, and has no effect when repeated.
pub proof fn law_clamp_settles(view: ViewState, visible: u64)
    ensures
        clamped(view, visible).sample_offset <= view.sample_offset,
        clamped(view, visible).sample_offset <= view.end_offset(visible),
        clamped(view, visible).total_samples == view.total_samples,
        clamped(clamped(view, visible), visible) == clamped(view, visible),
{
}

/// Moving forward and then back by the same distance ends where it began,
/// unless the end of the recording came into view.
pub proof fn law_pan_back_undoes(view: ViewState, d: u64, visible: u64)
    requires
        view.sample_offset + d <= view.end_offset(visible),
    ensures
        panned(
            (ViewState {
                sample_offset: panned(view, Pan::Forward(d), visible) as u64,
                total_samples: view.total_samples,
            }),
            Pan::Back(d),
            visible,
        ) == view.sample_offset,
{
}

/// No move leaves a clamped view unclamped.
pub proof fn law_pan_stays_clamped(view: ViewState, pan: Pan, visible: u64)
    requires
        view.sample_offset <= view.end_offset(visible),
    ensures
        0 <= panned(view, pan, visible) <= view.end_offset(visible),
{
}

/// Clamping leaves a view alone that ends within the recording, and moves any
/// other back to where the recording ends with it, or to its start.
pub proof fn law_clamp_moves_no_further_than_needed(view: ViewState, visible: u64)
    ensures
        view.sample_offset + visible <= view.total_samples ==> clamped(view, visible) == view,
        view.sample_offset + visible > view.total_samples >= visible ==> clamped(
            view,
            visible,
        ).sample_offset + visible == view.total_samples,
        view.total_samples < visible ==> clamped(view, visible).sample_offset == 0,
        clamped(view, visible).total_samples == view.total_samples,
{
}

/// A move forward goes the whole distance, or to where the recording ends with
/// the view; a move back goes the whole distance, or to the start.
pub proof fn law_moves_go_the_distance(view: ViewState, d: u64, visible: u64)
    ensures
        view.sample_offset + d + visible <= view.total_samples ==> panned(
            view,
            Pan::Forward(d),
            visible,
        ) == view.sample_offset + d,
        view.sample_offset + d + visible > view.total_samples >= visible ==> panned(
            view,
            Pan::Forward(d),
            visible,
        ) + visible == view.total_samples,
        view.total_samples < visible ==> panned(view, Pan::Forward(d), visible) == 0,
        d <= view.sample_offset ==> panned(view, Pan::Back(d), visible) + d == view.sample_offset,
        d > view.sample_offset ==> panned(view, Pan::Back(d), visible) == 0,
{
}

/// The end of the recording and the lead of a jump are measured backwards, but
/// not beyond the start; of two numbers the smaller one is no larger than either.
pub proof fn law_distances_stop_at_zero(view: ViewState, visible: u64, a: int, b: int)
    ensures
        visible <= view.total_samples ==> view.end_offset(visible) + visible == view.total_samples,
        visible > view.total_samples ==> view.end_offset(visible) == 0,
        a >= b ==> above(a, b) + b == a,
        a < b ==> above(a, b) == 0,
        min(a, b) <= a,
        min(a, b) <= b,
        min(a, b) == a || min(a, b) == b,
{
}

} // verus!
