//! Failures of the estimator, and the text of each.
use crate::text::{append_count, append_decimal, append_signed, decimal, signed_decimal};
use vstd::prelude::*;

verus! {

/// Why the estimator refuses an input.
#[derive(Clone, Copy, Debug, PartialEq, Eq, Structural)]
pub enum EstimatorError {
    /// The estimator already dropped the payloads that a marginalization packet needs.
    LeanMode,
    /// A frame is not later than the frame before it.
    FrameOrder,
    /// An image does not belong to the frame or is malformed.
    ImagePayload,
    /// Two images of one frame come from the same camera.
    ImageCamera,
    /// An observation names another frame.
    ObservationFrame { observed: u64, current: u64, track_id: u64, camera_id: u16 },
    /// An observation names another time.
    ObservationTimestamp { observed_ns: i64, current_ns: i64, track_id: u64, frame_id: u64, camera_id: u16 },
    /// A packet observes one track twice in one camera.
    DuplicateObservation { track_id: u64, frame_id: u64, camera_id: u16 },
    /// A pixel has no bearing.
    Bearing,
    /// A pixel has no raw bearing.
    RawBearing,
    /// The history of a track already holds the observation.
    RetainedObservation { track_id: u64, frame_id: u64, camera_id: u16 },
    /// A history holds one frame and camera twice.
    DuplicateHistory { frame_id: u64, camera_id: u16 },
    /// A history binds one time and camera to two frames.
    ReboundTimestamp { timestamp_ns: i64, camera_id: u16, previous: u64, frame_id: u64 },
    /// A track holds one frame and camera twice among its factors.
    DuplicateFactor { track_id: u64, frame_id: u64, camera_id: u16 },
    /// A factor and the history disagree on a pixel.
    FactorPixel { track_id: u64, frame_id: u64, camera_id: u16 },
    /// The factors of a track already hold the observation.
    CurrentFactor { track_id: u64, frame_id: u64, camera_id: u16 },
    /// A pixel of the history has no bearing.
    HistoryBearing,
    /// The boundary state is not in the window.
    MissingBoundary { frame_id: u64 },
    /// The solution is too short for the window.
    StateColumns { columns: usize, needed: usize },
    /// Cameras and extrinsics do not pair up.
    CameraRig { cameras: usize, extrinsics: usize },
    /// A noise density is not finite and positive.
    NoiseDensity,
    /// The calibration has the wrong number of parameters.
    CalibrationSize { accel: usize, gyro: usize },
    /// A calibration parameter is not finite.
    CalibrationValue,
}

impl EstimatorError {
    /// The text of the failure.
    pub open spec fn text(self) -> Seq<char> {
        match self {
            EstimatorError::LeanMode => {
                "cannot retain MargData after no-output mode: active keyframes may lack complete optical-flow payloads; recreate the estimator"@
            },
            EstimatorError::FrameOrder => {
                "non-monotonic frame timestamp"@
            },
            EstimatorError::ImagePayload => {
                "invalid raw optical-flow image payload"@
            },
            EstimatorError::ImageCamera => {
                "duplicate raw optical-flow camera payload"@
            },
            EstimatorError::ObservationFrame { observed, current, track_id, camera_id } => {
                "observation frame "@ + decimal(observed as nat) + " does not match current frame "@ + decimal(current as nat) + " for track "@ + decimal(track_id as nat) + " camera "@ + decimal(camera_id as nat)
            },
            EstimatorError::ObservationTimestamp { observed_ns, current_ns, track_id, frame_id, camera_id } => {
                "observation timestamp "@ + signed_decimal(observed_ns as int) + " does not match current timestamp "@ + signed_decimal(current_ns as int) + " for track "@ + decimal(track_id as nat) + " frame "@ + decimal(frame_id as nat) + " camera "@ + decimal(camera_id as nat)
            },
            EstimatorError::DuplicateObservation { track_id, frame_id, camera_id } => {
                "duplicate current observation identity for track "@ + decimal(track_id as nat) + " at frame "@ + decimal(frame_id as nat) + " camera "@ + decimal(camera_id as nat)
            },
            EstimatorError::Bearing => {
                "invalid DS observation"@
            },
            EstimatorError::RawBearing => {
                "invalid DS raw observation"@
            },
            EstimatorError::RetainedObservation { track_id, frame_id, camera_id } => {
                "duplicate history observation identity for track "@ + decimal(track_id as nat) + " at frame "@ + decimal(frame_id as nat) + " camera "@ + decimal(camera_id as nat)
            },
            EstimatorError::DuplicateHistory { frame_id, camera_id } => {
                "duplicate track history identity at frame "@ + decimal(frame_id as nat) + " camera "@ + decimal(camera_id as nat)
            },
            EstimatorError::ReboundTimestamp { timestamp_ns, camera_id, previous, frame_id } => {
                "timestamp "@ + signed_decimal(timestamp_ns as int) + " camera "@ + decimal(camera_id as nat) + " is bound to frames "@ + decimal(previous as nat) + " and "@ + decimal(frame_id as nat)
            },
            EstimatorError::DuplicateFactor { track_id, frame_id, camera_id } => {
                "duplicate factor observation identity for track "@ + decimal(track_id as nat) + " at frame "@ + decimal(frame_id as nat) + " camera "@ + decimal(camera_id as nat)
            },
            EstimatorError::FactorPixel { track_id, frame_id, camera_id } => {
                "factor/history pixel mismatch for track "@ + decimal(track_id as nat) + " at frame "@ + decimal(frame_id as nat) + " camera "@ + decimal(camera_id as nat)
            },
            EstimatorError::CurrentFactor { track_id, frame_id, camera_id } => {
                "duplicate current factor identity for track "@ + decimal(track_id as nat) + " at frame "@ + decimal(frame_id as nat) + " camera "@ + decimal(camera_id as nat)
            },
            EstimatorError::HistoryBearing => {
                "invalid DS history observation"@
            },
            EstimatorError::MissingBoundary { frame_id } => {
                "marginalization boundary "@ + decimal(frame_id as nat) + " is absent"@
            },
            EstimatorError::StateColumns { columns, needed } => {
                "marginalization state has "@ + decimal(columns as nat) + " columns, need "@ + decimal(needed as nat)
            },
            EstimatorError::CameraRig { cameras, extrinsics } => {
                "camera rig requires equal non-empty camera/extrinsic arrays, got "@ + decimal(cameras as nat) + " and "@ + decimal(extrinsics as nat)
            },
            EstimatorError::NoiseDensity => {
                "IMU measurement/bias noise densities must be finite and positive"@
            },
            EstimatorError::CalibrationSize { accel, gyro } => {
                "IMU calibration requires 9 accel and 12 gyro parameters, got "@ + decimal(accel as nat) + " and "@ + decimal(gyro as nat)
            },
            EstimatorError::CalibrationValue => {
                "IMU calibration parameters must be finite"@
            },
        }
    }

    /// Writes the failure out.
    pub fn message(&self) -> (message: String)
        ensures
            message@ == self.text(),
    {
        let mut out = String::new();
        match self {
            EstimatorError::LeanMode => {
                out.append("cannot retain MargData after no-output mode: active keyframes may lack complete optical-flow payloads; recreate the estimator");
            },
            EstimatorError::FrameOrder => {
                out.append("non-monotonic frame timestamp");
            },
            EstimatorError::ImagePayload => {
                out.append("invalid raw optical-flow image payload");
            },
            EstimatorError::ImageCamera => {
                out.append("duplicate raw optical-flow camera payload");
            },
            EstimatorError::ObservationFrame { observed, current, track_id, camera_id } => {
                out.append("observation frame ");
                append_decimal(&mut out, *observed);
                out.append(" does not match current frame ");
                append_decimal(&mut out, *current);
                out.append(" for track ");
                append_decimal(&mut out, *track_id);
                out.append(" camera ");
                append_decimal(&mut out, *camera_id as u64);
            },
            EstimatorError::ObservationTimestamp { observed_ns, current_ns, track_id, frame_id, camera_id } => {
                out.append("observation timestamp ");
                append_signed(&mut out, *observed_ns);
                out.append(" does not match current timestamp ");
                append_signed(&mut out, *current_ns);
                out.append(" for track ");
                append_decimal(&mut out, *track_id);
                out.append(" frame ");
                append_decimal(&mut out, *frame_id);
                out.append(" camera ");
                append_decimal(&mut out, *camera_id as u64);
            },
            EstimatorError::DuplicateObservation { track_id, frame_id, camera_id } => {
                out.append("duplicate current observation identity for track ");
                append_decimal(&mut out, *track_id);
                out.append(" at frame ");
                append_decimal(&mut out, *frame_id);
                out.append(" camera ");
                append_decimal(&mut out, *camera_id as u64);
            },
            EstimatorError::Bearing => {
                out.append("invalid DS observation");
            },
            EstimatorError::RawBearing => {
                out.append("invalid DS raw observation");
            },
            EstimatorError::RetainedObservation { track_id, frame_id, camera_id } => {
                out.append("duplicate history observation identity for track ");
                append_decimal(&mut out, *track_id);
                out.append(" at frame ");
                append_decimal(&mut out, *frame_id);
                out.append(" camera ");
                append_decimal(&mut out, *camera_id as u64);
            },
            EstimatorError::DuplicateHistory { frame_id, camera_id } => {
                out.append("duplicate track history identity at frame ");
                append_decimal(&mut out, *frame_id);
                out.append(" camera ");
                append_decimal(&mut out, *camera_id as u64);
            },
            EstimatorError::ReboundTimestamp { timestamp_ns, camera_id, previous, frame_id } => {
                out.append("timestamp ");
                append_signed(&mut out, *timestamp_ns);
                out.append(" camera ");
                append_decimal(&mut out, *camera_id as u64);
                out.append(" is bound to frames ");
                append_decimal(&mut out, *previous);
                out.append(" and ");
                append_decimal(&mut out, *frame_id);
            },
            EstimatorError::DuplicateFactor { track_id, frame_id, camera_id } => {
                out.append("duplicate factor observation identity for track ");
                append_decimal(&mut out, *track_id);
                out.append(" at frame ");
                append_decimal(&mut out, *frame_id);
                out.append(" camera ");
                append_decimal(&mut out, *camera_id as u64);
            },
            EstimatorError::FactorPixel { track_id, frame_id, camera_id } => {
                out.append("factor/history pixel mismatch for track ");
                append_decimal(&mut out, *track_id);
                out.append(" at frame ");
                append_decimal(&mut out, *frame_id);
                out.append(" camera ");
                append_decimal(&mut out, *camera_id as u64);
            },
            EstimatorError::CurrentFactor { track_id, frame_id, camera_id } => {
                out.append("duplicate current factor identity for track ");
                append_decimal(&mut out, *track_id);
                out.append(" at frame ");
                append_decimal(&mut out, *frame_id);
                out.append(" camera ");
                append_decimal(&mut out, *camera_id as u64);
            },
            EstimatorError::HistoryBearing => {
                out.append("invalid DS history observation");
            },
            EstimatorError::MissingBoundary { frame_id } => {
                out.append("marginalization boundary ");
                append_decimal(&mut out, *frame_id);
                out.append(" is absent");
            },
            EstimatorError::StateColumns { columns, needed } => {
                out.append("marginalization state has ");
                append_count(&mut out, *columns);
                out.append(" columns, need ");
                append_count(&mut out, *needed);
            },
            EstimatorError::CameraRig { cameras, extrinsics } => {
                out.append("camera rig requires equal non-empty camera/extrinsic arrays, got ");
                append_count(&mut out, *cameras);
                out.append(" and ");
                append_count(&mut out, *extrinsics);
            },
            EstimatorError::NoiseDensity => {
                out.append("IMU measurement/bias noise densities must be finite and positive");
            },
            EstimatorError::CalibrationSize { accel, gyro } => {
                out.append("IMU calibration requires 9 accel and 12 gyro parameters, got ");
                append_count(&mut out, *accel);
                out.append(" and ");
                append_count(&mut out, *gyro);
            },
            EstimatorError::CalibrationValue => {
                out.append("IMU calibration parameters must be finite");
            },
        }
        assert(out@ =~= self.text());
        out
    }
}

} // verus!
