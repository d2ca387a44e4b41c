//! Vehicle configuration data model: the vehicle kinds the scene can show and
//! the ways a vehicle's orientation and position are read from the store's
//! topics. The rendering that consumes these lives outside the library.

use vstd::prelude::*;

verus! {

/// The airframe kinds with bundled models.
#[derive(Clone, Debug, PartialEq, Eq, Structural)]
pub enum VehicleType {
    FixedWing,
    QuadCopter,
    DeltaWing,
}

impl VehicleType {
    /// The model file name stem for this vehicle kind.
    pub fn model_path(&self) -> (r: String)
        ensures
            r@ == (match self {
                VehicleType::FixedWing => "FixedWing"@,
                VehicleType::QuadCopter => "QuadCopter"@,
                VehicleType::DeltaWing => "DeltaWing"@,
            }),
    {
        match self {
            VehicleType::FixedWing => String::from_str("FixedWing"),
            VehicleType::QuadCopter => String::from_str("QuadCopter"),
            VehicleType::DeltaWing => String::from_str("DeltaWing"),
        }
    }
}

/// How Euler angles in the source data are to be read.
#[derive(Clone, Debug, PartialEq, Eq, Structural)]
pub enum AngleUnit {
    Radians,
    Degrees,
}

/// Where a vehicle's orientation comes from: fixed, a quaternion topic, or an
/// Euler-angle topic.
#[derive(Clone, Debug, PartialEq)]
pub enum OrientationMode {
    Static,
    Quaternion { topic: String, qx: String, qy: String, qz: String, qw: String },
    Euler { topic: String, roll: String, pitch: String, yaw: String, angle_unit: AngleUnit },
}

/// Where a vehicle's position comes from: local north-east-down coordinates
/// with a geodetic reference, or global coordinates.
#[derive(Clone, Debug, PartialEq)]
pub enum PositionMode {
    LocalNED {
        topic: String,
        north: String,
        east: String,
        down: String,
        lat_ref: String,
        lon_ref: String,
        alt_ref: String,
    },
    GlobalGPS { topic: String, lat: String, lon: String, alt: String },
}

} // verus!
