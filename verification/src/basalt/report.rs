//! What is told of a frame once it has gone through: its counts, how the solver fared, which state
//! stands at its end, and which packet comes with it.
use crate::basalt::course::{course, Course};
use crate::basalt::estimator::BasaltVioEstimator;
use crate::basalt::frame::FrameRun;
use crate::basalt::landmarks::live_tracks;
use crate::basalt::problem::RowCounts;
use crate::basalt::window::frames_are_members;
use vstd::prelude::*;

verus! {

/// What a solver says of a solution.
#[derive(Clone, Debug, PartialEq)]
pub struct SolverReport {
    pub factor_count: usize,
    pub rows: RowCounts,
    pub status: String,
}

/// A solver's report without the string that holds its status.
#[verifier::ext_equal]
pub ghost struct SolverModel {
    pub factor_count: usize,
    pub rows: RowCounts,
    pub status: Seq<char>,
}

impl View for SolverReport {
    type V = SolverModel;

    open spec fn view(&self) -> SolverModel {
        SolverModel { factor_count: self.factor_count, rows: self.rows, status: self.status@ }
    }
}

/// What is told of the window and its solver.
#[derive(Clone, Debug, PartialEq)]
pub struct WindowReport {
    pub attempted: bool,
    pub state_dof: usize,
    pub factor_count: usize,
    pub landmark_count: usize,
    pub imu_link_count: usize,
    pub prior_rows: usize,
    pub rows: RowCounts,
    pub status: String,
    pub state_writeback: bool,
    pub prior_carry: bool,
}

/// A report without the string that holds its status.
#[verifier::ext_equal]
pub ghost struct ReportModel {
    pub attempted: bool,
    pub state_dof: nat,
    pub factor_count: usize,
    pub landmark_count: nat,
    pub imu_link_count: nat,
    pub prior_rows: usize,
    pub rows: RowCounts,
    pub status: Seq<char>,
    pub state_writeback: bool,
    pub prior_carry: bool,
}

impl View for WindowReport {
    type V = ReportModel;

    open spec fn view(&self) -> ReportModel {
        ReportModel {
            attempted: self.attempted,
            state_dof: self.state_dof as nat,
            factor_count: self.factor_count,
            landmark_count: self.landmark_count as nat,
            imu_link_count: self.imu_link_count as nat,
            prior_rows: self.prior_rows,
            rows: self.rows,
            status: self.status@,
            state_writeback: self.state_writeback,
            prior_carry: self.prior_carry,
        }
    }
}

/// What is told of a window: the solver's report where it ran, and that the start is waited for where
/// it did not.
pub open spec fn reported(c: Course, prior_rows: usize, solver: Option<SolverModel>) -> ReportModel {
    let waiting = ReportModel {
        attempted: false,
        state_dof: c.window.dof(),
        factor_count: 0,
        landmark_count: live_tracks(c.store.landmarks).len(),
        imu_link_count: c.window.links.len(),
        prior_rows,
        rows: RowCounts { prior: 0, visual: 0, imu: 0, bias: 0 },
        status: "initialization_gate"@,
        state_writeback: false,
        prior_carry: false,
    };
    match solver {
        None => waiting,
        Some(s) => ReportModel {
            attempted: true,
            factor_count: s.factor_count,
            rows: s.rows,
            status: s.status,
            state_writeback: true,
            ..waiting
        },
    }
}

/// What is told of a window once frames have left it.
pub open spec fn after_shift(r: ReportModel, c: Course, had_prior: bool) -> ReportModel {
    ReportModel {
        landmark_count: live_tracks(c.store.landmarks).len(),
        prior_carry: had_prior || c.prior,
        ..r
    }
}

impl WindowReport {
    /// Tells that frames have left the window.
    pub fn shifted(self, estimator: &BasaltVioEstimator, had_prior: bool) -> (report: WindowReport)
        ensures
            report@ == after_shift(self@, course(*estimator), had_prior),
    {
        WindowReport {
            landmark_count: estimator.store.landmarks.live_count(),
            prior_carry: had_prior || estimator.prior,
            ..self
        }
    }
}

/// The packet that comes with a frame.
#[derive(Clone, Copy, Debug, PartialEq, Eq, Structural)]
pub enum PacketSource {
    /// That of the window before frames left it.
    BeforeShift,
    /// That of the window as it is.
    Window,
    /// None: the empty packet.
    Nothing,
}

/// The packet that comes with a frame: none where none is kept.
pub open spec fn packet_source(retain_marg_data: bool, marginalized: bool) -> PacketSource {
    if !retain_marg_data {
        PacketSource::Nothing
    } else if marginalized {
        PacketSource::BeforeShift
    } else {
        PacketSource::Window
    }
}

/// What a frame gives. `N` is a navigation state.
#[derive(Clone, Debug, PartialEq)]
pub struct FrameOutput<N> {
    pub frame_id: u64,
    pub is_keyframe: bool,
    pub connected_cam0: usize,
    pub unconnected_cam0: usize,
    pub active_state_count: usize,
    pub active_pose_count: usize,
    pub post_opt_state: N,
    pub packet: PacketSource,
    pub window: WindowReport,
}

impl FrameRun {
    /// Tells of the window, as soon as the solver is done or has been passed over.
    pub fn report(
        &self,
        estimator: &BasaltVioEstimator,
        prior_rows: usize,
        solver: Option<SolverReport>,
    ) -> (report: WindowReport)
        requires
            self.attempted == solver is Some,
            estimator.window@.dof() <= usize::MAX,
        ensures
            report.attempted == self.attempted,
            report@ == reported(
                course(*estimator),
                prior_rows,
                match solver {
                    Some(s) => Some(s@),
                    None => None,
                },
            ),
    {
        let waiting = WindowReport {
            attempted: false,
            state_dof: estimator.active_aom_dof(),
            factor_count: 0,
            landmark_count: estimator.store.landmarks.live_count(),
            imu_link_count: estimator.window.imu_links.len(),
            prior_rows,
            rows: RowCounts { prior: 0, visual: 0, imu: 0, bias: 0 },
            status: "initialization_gate".to_owned(),
            state_writeback: false,
            prior_carry: false,
        };
        match solver {
            None => waiting,
            Some(s) => WindowReport {
                attempted: true,
                factor_count: s.factor_count,
                rows: s.rows,
                status: s.status,
                state_writeback: true,
                ..waiting
            },
        }
    }

    /// The packet that comes with the frame.
    pub fn packet(&self) -> (packet: PacketSource)
        ensures
            packet == packet_source(self.retain_marg_data, self.marginalized),
    {
        if !self.retain_marg_data {
            PacketSource::Nothing
        } else if self.marginalized {
            PacketSource::BeforeShift
        } else {
            PacketSource::Window
        }
    }

    /// What the frame gives. `optimized` is the newest state of the window after the solver; where it
    /// was passed over, the predicted state stands.
    pub fn output<N>(
        &self,
        estimator: &BasaltVioEstimator,
        predicted: N,
        optimized: Option<N>,
        window: WindowReport,
    ) -> (output: FrameOutput<N>)
        ensures
            output == (FrameOutput {
                frame_id: self.frame_id,
                is_keyframe: self.is_keyframe,
                connected_cam0: self.connected_cam0,
                unconnected_cam0: self.unconnected_cam0,
                active_state_count: estimator.window@.states.len() as usize,
                active_pose_count: estimator.window@.poses.len() as usize,
                post_opt_state: if self.attempted && optimized is Some {
                    optimized->Some_0
                } else {
                    predicted
                },
                packet: packet_source(self.retain_marg_data, self.marginalized),
                window,
            }),
    {
        let post_opt_state = match optimized {
            Some(state) => if self.attempted {
                state
            } else {
                predicted
            },
            None => predicted,
        };
        FrameOutput {
            frame_id: self.frame_id,
            is_keyframe: self.is_keyframe,
            connected_cam0: self.connected_cam0,
            unconnected_cam0: self.unconnected_cam0,
            active_state_count: estimator.active_state_count(),
            active_pose_count: estimator.active_pose_count(),
            post_opt_state,
            packet: self.packet(),
            window,
        }
    }
}

/// A frame that waits reports nothing solved; one that was solved reports what the solver told. Both say how
/// many unknowns, landmarks, links and rows of the prior there were.
pub proof fn reports_tell_the_solver(c: Course, prior_rows: usize, solver: Option<SolverModel>)
    ensures
        ({
            let r = reported(c, prior_rows, solver);
            &&& r.attempted <==> solver is Some
            &&& r.state_writeback <==> solver is Some
            &&& r.state_dof == 6 * c.window.poses.len() + 15 * c.window.states.len()
            &&& r.imu_link_count == c.window.links.len()
            &&& r.prior_rows == prior_rows
            &&& !r.prior_carry
            &&& r.landmark_count == Set::new(
                |t: u64|
                    c.store.landmarks.contains_key(t) && !(
                    c.store.landmarks[t].status is Removed),
            ).len()
            &&& solver matches Some(s) ==> {
                &&& r.factor_count == s.factor_count
                &&& r.rows == s.rows
                &&& r.status == s.status
            }
            &&& solver is None ==> {
                &&& r.factor_count == 0
                &&& r.rows.prior == 0 && r.rows.visual == 0 && r.rows.imu == 0 && r.rows.bias == 0
                &&& r.status == "initialization_gate"@
            }
        }),
{
    frames_are_members(c.window);
    assert(live_tracks(c.store.landmarks) =~= Set::new(
        |t: u64|
            c.store.landmarks.contains_key(t) && !(c.store.landmarks[t].status is Removed),
    ));
}

/// A shift changes of a report only how many landmarks are left and whether a prior is carried on: one is
/// where there was one before or is one now.
pub proof fn shifts_change_little_of_a_report(r: ReportModel, c: Course, had_prior: bool)
    ensures
        ({
            let after = after_shift(r, c, had_prior);
            &&& after == (ReportModel {
                landmark_count: after.landmark_count,
                prior_carry: after.prior_carry,
                ..r
            })
            &&& after.prior_carry <==> c.prior || had_prior
            &&& after.landmark_count == live_tracks(c.store.landmarks).len()
        }),
        forall|retain: bool, marginalized: bool| #[trigger]
            packet_source(retain, marginalized) is Nothing <==> !retain,
        forall|retain: bool, marginalized: bool| #[trigger]
            packet_source(retain, marginalized) is BeforeShift <==> retain && marginalized,
        forall|retain: bool, marginalized: bool| #[trigger]
            packet_source(retain, marginalized) is Window <==> retain && !marginalized,
{
}

} // verus!
