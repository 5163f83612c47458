//! Writing a point cloud as LAS data, in memory, through the `las` crate.
use vstd::prelude::*;
use std::io::Cursor;
use las::Write;
use crate::point_cloud::{Position, PointCloud, all_in_bounds};

verus! {

#[verifier::external_type_specification]
#[verifier::external_body]
pub struct ExLasError(las::Error);

/// Relies on las's `Builder::from` for version `1.minor_version`,
/// `Format::new` and `Builder::into_header`, then `Writer::new`,
/// `Write::write` and `Writer::into_inner` over an in-memory cursor: the
/// header, then one record per position, in order. las's writer type carries
/// std I/O trait bounds that Verus cannot declare, so these calls stand
/// together here.
///
/// The header is built here from the two numbers alone: it has las's default
/// transforms (scale 0.001, offset 0), which every coordinate within
/// `COORD_LIMIT` fits, no variable-length records and default strings, and at
/// most `u32::MAX` points fit every LAS version's count. Closing the writer,
/// in `into_inner` or when it is dropped after a refused point, therefore
/// cannot fail. A record carries the position alone, so it matches point
/// format 0, which versions 1.0 to 1.4 all support: there every call succeeds.
#[verifier::external_body]
fn encode_las(minor_version: u8, point_format: u8, positions: &Vec<Position>) -> (r: Result<
    Vec<u8>,
    las::Error,
>)
    requires
        minor_version <= 4,
        point_format <= 10,
        all_in_bounds(positions@),
        positions@.len() <= u32::MAX,
    ensures
        point_format == 0 ==> r is Ok,
{
    let mut builder = las::Builder::from((1, minor_version));
    builder.point_format = las::point::Format::new(point_format)?;
    let mut writer = las::Writer::new(Cursor::new(Vec::new()), builder.into_header()?)?;
    for p in positions {
        let point = las::Point { x: p.x.into(), y: p.y.into(), z: p.z.into(), ..Default::default() };
        writer.write(point)?;
    }
    Ok(writer.into_inner()?.into_inner())
}

/// Why LAS data could not be produced.
#[derive(Clone, Copy, Debug, PartialEq, Eq, Structural)]
pub enum LasWriteError {
    /// The minor version is above 4 (only LAS 1.0 to 1.4 exist).
    UnsupportedVersion,
    /// The point format number is above 10.
    UnsupportedFormat,
    /// More points were written than a LAS point count holds.
    TooManyPoints,
    /// The `las` crate refused the version and format together, or a point:
    /// records carry positions only, so every point format with GPS time,
    /// colour, waveform or near-infrared fields is refused.
    Encoding,
}

/// Collects the positions of point clouds and encodes them as LAS data of
/// version `1.minor` in a given point record format, with las's default
/// transforms (scale 0.001, offset 0), which every position within
/// `COORD_LIMIT` fits. Records carry the position only: point formats whose
/// records need GPS time, colour, waveform or near-infrared fields (1 to 10)
/// are refused when encoding; format 0 always succeeds.
pub struct LASWriter {
    minor_version: u8,
    point_format: u8,
    pending: Vec<Position>,
}

impl View for LASWriter {
    type V = Seq<Position>;

    /// The positions written so far, in order.
    closed spec fn view(&self) -> Seq<Position> {
        self.pending@
    }
}

impl LASWriter {
    /// The version is at most 1.4, the format number at most 10, and every
    /// written position lies within `COORD_LIMIT`.
    #[verifier::type_invariant]
    closed spec fn wf(&self) -> bool {
        &&& self.minor_version <= 4
        &&& self.point_format <= 10
        &&& all_in_bounds(self.pending@)
    }

    /// The point record format number.
    pub closed spec fn format_number(&self) -> u8 {
        self.point_format
    }

    /// A writer for LAS 1.`minor_version` in point record format
    /// `point_format` that has written nothing yet.
    pub fn new(minor_version: u8, point_format: u8) -> (r: Result<LASWriter, LasWriteError>)
        ensures
            minor_version > 4 ==> r == Err::<LASWriter, LasWriteError>(LasWriteError::UnsupportedVersion),
            minor_version <= 4 && point_format > 10 ==> r == Err::<LASWriter, LasWriteError>(
                LasWriteError::UnsupportedFormat,
            ),
            minor_version <= 4 && point_format <= 10 ==> r is Ok && r->Ok_0@ == Seq::<Position>::empty()
                && r->Ok_0.format_number() == point_format,
    {
        if minor_version > 4 {
            return Err(LasWriteError::UnsupportedVersion);
        }
        if point_format > 10 {
            return Err(LasWriteError::UnsupportedFormat);
        }
        Ok(LASWriter { minor_version, point_format, pending: Vec::new() })
    }

    /// Writes every position of `cloud`, after those written before.
    pub fn write(&mut self, cloud: &PointCloud)
        ensures
            final(self)@ == old(self)@ + cloud@,
            final(self).format_number() == old(self).format_number(),
    {
        let pts = cloud.positions();
        proof {
            use_type_invariant(&*self);
        }
        let mut pending = self.pending.clone();
        let mut i: usize = 0;
        while i < pts.len()
            invariant
                pts@ == cloud@,
                all_in_bounds(pts@),
                all_in_bounds(pending@),
                i <= pts@.len(),
                pending@ == old(self)@ + pts@.take(i as int),
            decreases pts@.len() - i,
        {
            pending.push(pts[i]);
            assert(pts@.take(i + 1) == pts@.take(i as int).push(pts@[i as int]));
            i += 1;
        }
        assert(pts@.take(i as int) == pts@);
        self.pending = pending;
    }

    /// How many positions were written.
    pub fn len(&self) -> (r: usize)
        ensures
            r == self@.len(),
    {
        self.pending.len()
    }

    /// The LAS data of everything written: the header, then one record per
    /// position, in the order written.
    pub fn into_bytes(self) -> (r: Result<Vec<u8>, LasWriteError>)
        ensures
            self@.len() > u32::MAX ==> r == Err::<Vec<u8>, LasWriteError>(LasWriteError::TooManyPoints),
            self@.len() <= u32::MAX && self.format_number() == 0 ==> r is Ok,
            self@.len() <= u32::MAX ==> (r is Ok || r == Err::<Vec<u8>, LasWriteError>(
                LasWriteError::Encoding,
            )),
    {
        proof {
            use_type_invariant(&self);
        }
        if self.pending.len() > u32::MAX as usize {
            return Err(LasWriteError::TooManyPoints);
        }
        match encode_las(self.minor_version, self.point_format, &self.pending) {
            Ok(bytes) => Ok(bytes),
            Err(_) => Err(LasWriteError::Encoding),
        }
    }
}

} // verus!
