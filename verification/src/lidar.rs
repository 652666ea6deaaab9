//! What the range sensor's driver reports, as far as it is counted and
//! named rather than measured.

use std::time::Instant;
use vstd::prelude::*;

verus! {

/// `std::time::Instant`: a reading of the monotonic clock. It is carried
/// through and never looked into.
#[verifier::external_type_specification]
#[verifier::external_body]
pub struct ExInstant(std::time::Instant);

/// How the sensor is asked to run.
#[allow(non_camel_case_types)]
#[derive(Debug, Copy, Clone, PartialEq, Eq, Structural)]
pub enum LidarWorkingMode {
    NORMAL,
    STANDBY,
}

/// What the driver found in the sensor's byte stream.
#[allow(non_camel_case_types)]
#[derive(Debug, Copy, Clone, PartialEq, Eq, Structural)]
pub enum MessageType {
    NONE,
    IMU,
    POINTCLOUD,
    RANGE,
    AUXILIARY,
    VERSION,
    TIMESYNC,
}

impl LidarWorkingMode {
    /// The number that stands for the mode at the driver's interface.
    pub open spec fn spec_code(self) -> u32 {
        match self {
            LidarWorkingMode::NORMAL => 1,
            LidarWorkingMode::STANDBY => 2,
        }
    }

    /// The number that stands for the mode at the driver's interface.
    pub fn code(self) -> (c: u32)
        ensures
            c == self.spec_code(),
    {
        match self {
            LidarWorkingMode::NORMAL => 1,
            LidarWorkingMode::STANDBY => 2,
        }
    }

    /// The mode that `code` stands for, if it stands for one.
    pub fn from_code(code: u32) -> (m: Option<LidarWorkingMode>)
        ensures
            match m {
                Some(mode) => mode.spec_code() == code,
                None => forall|mode: LidarWorkingMode| mode.spec_code() != code,
            },
    {
        if code == 1 {
            Some(LidarWorkingMode::NORMAL)
        } else if code == 2 {
            Some(LidarWorkingMode::STANDBY)
        } else {
            None
        }
    }
}

impl MessageType {
    /// The number that stands for the kind at the driver's interface.
    pub open spec fn spec_code(self) -> u32 {
        match self {
            MessageType::NONE => 0,
            MessageType::IMU => 1,
            MessageType::POINTCLOUD => 2,
            MessageType::RANGE => 3,
            MessageType::AUXILIARY => 4,
            MessageType::VERSION => 5,
            MessageType::TIMESYNC => 6,
        }
    }

    /// The number that stands for the kind at the driver's interface.
    pub fn code(self) -> (c: u32)
        ensures
            c == self.spec_code(),
    {
        match self {
            MessageType::NONE => 0,
            MessageType::IMU => 1,
            MessageType::POINTCLOUD => 2,
            MessageType::RANGE => 3,
            MessageType::AUXILIARY => 4,
            MessageType::VERSION => 5,
            MessageType::TIMESYNC => 6,
        }
    }

    /// The kind that `code` stands for, if it stands for one.
    pub fn from_code(code: u32) -> (m: Option<MessageType>)
        ensures
            match m {
                Some(kind) => kind.spec_code() == code,
                None => forall|kind: MessageType| kind.spec_code() != code,
            },
    {
        if code == 0 {
            Some(MessageType::NONE)
        } else if code == 1 {
            Some(MessageType::IMU)
        } else if code == 2 {
            Some(MessageType::POINTCLOUD)
        } else if code == 3 {
            Some(MessageType::RANGE)
        } else if code == 4 {
            Some(MessageType::AUXILIARY)
        } else if code == 5 {
            Some(MessageType::VERSION)
        } else if code == 6 {
            Some(MessageType::TIMESYNC)
        } else {
            None
        }
    }
}

/// A model that is brought up to date with each reading of type `T` and
/// gives an estimate of type `O`.
pub trait UpdateModel<T, O> {
    /// Takes one reading in and gives the estimate after it.
    fn update(&mut self, imu: &T) -> O;

    /// The estimate as it stands.
    fn get(&self) -> O;

    /// Starts over at `reset_time` and gives the estimate that was reached.
    fn reset(&mut self, reset_time: Instant) -> O;
}

} // verus!
