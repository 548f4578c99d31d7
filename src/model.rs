//! The annotation records, their views and their well-formedness.
use vstd::prelude::*;
use crate::digits::pow10;

verus! {

/// A finite decimal number `mantissa / 10^scale`: the strict (never NaN, never
/// infinite) real number of the records.
#[derive(Clone, Copy, Debug, PartialEq, Eq, Structural, Hash)]
pub struct Decimal {
    pub mantissa: i64,
    pub scale: u8,
}

/// The largest number of fractional digits a `Decimal` carries.
pub const MAX_SCALE: u8 = 18;

impl Decimal {
    pub open spec fn wf(&self) -> bool {
        self.mantissa > i64::MIN && self.scale <= MAX_SCALE
    }

    /// The magnitude of the mantissa.
    pub open spec fn magnitude(&self) -> nat {
        if self.mantissa < 0 {
            (-self.mantissa) as nat
        } else {
            self.mantissa as nat
        }
    }

    /// The number denoted, as a numerator over `10^scale`.
    pub open spec fn denominator(&self) -> nat {
        pow10(self.scale as nat)
    }
}

/// A calendar date and time of day, without time zone.
#[derive(Clone, Copy, Debug, PartialEq, Eq, Structural, Hash)]
pub struct Timestamp {
    pub year: i32,
    pub month: u32,
    pub day: u32,
    pub hour: u32,
    pub minute: u32,
    pub second: u32,
    pub nanosecond: u32,
}

pub open spec fn is_leap_year(y: int) -> bool {
    (y % 4 == 0 && y % 100 != 0) || y % 400 == 0
}

pub open spec fn days_in_month(y: int, m: int) -> int {
    if m == 2 {
        if is_leap_year(y) { 29 } else { 28 }
    } else if m == 4 || m == 6 || m == 9 || m == 11 {
        30
    } else {
        31
    }
}

impl Timestamp {
    /// A real date of a four-digit year and a time of day without leap second,
    /// to the microsecond.
    pub open spec fn wf(&self) -> bool {
        &&& 0 <= self.year <= 9999
        &&& 1 <= self.month <= 12
        &&& 1 <= self.day <= days_in_month(self.year as int, self.month as int)
        &&& self.hour < 24
        &&& self.minute < 60
        &&& self.second < 60
        &&& self.nanosecond < 1_000_000_000
        &&& self.nanosecond % 1000 == 0
    }
}

#[derive(Clone, Copy, Debug, PartialEq, Eq, Structural, Hash)]
pub enum Color {
    Rgb,
}

#[derive(Clone, Copy, Debug, PartialEq, Eq, Structural, Hash)]
pub enum Depth {
    Byte,
}

#[derive(Clone, Copy, Debug, PartialEq, Eq, Structural, Hash)]
pub enum RepresentationType {
    RotatedRectangle,
}

/// An axis-aligned box: center and extents.
#[derive(Clone, Copy, Debug, PartialEq, Eq, Structural, Hash)]
pub struct Box {
    pub xc: Decimal,
    pub yc: Decimal,
    pub w: Decimal,
    pub h: Decimal,
}

impl Box {
    pub open spec fn wf(&self) -> bool {
        self.xc.wf() && self.yc.wf() && self.w.wf() && self.h.wf()
    }
}

/// An oriented box: center, extents and orientation.
#[derive(Clone, Copy, Debug, PartialEq, Eq, Structural, Hash)]
pub struct Representation {
    pub kind: RepresentationType,
    pub xc: Decimal,
    pub yc: Decimal,
    pub w: Decimal,
    pub h: Decimal,
    pub o: Decimal,
}

impl Representation {
    pub open spec fn wf(&self) -> bool {
        self.xc.wf() && self.yc.wf() && self.w.wf() && self.h.wf() && self.o.wf()
    }
}

/// One detection.
#[derive(Clone, Copy, Debug, PartialEq, Eq, Structural, Hash)]
pub struct Object {
    pub id: usize,
    pub bbox: Box,
    pub representation: Representation,
}

impl Object {
    pub open spec fn wf(&self) -> bool {
        self.bbox.wf() && self.representation.wf()
    }
}

#[derive(Clone, Debug, PartialEq, Eq, Hash)]
pub struct ObjectList {
    pub objects: Vec<Object>,
}

impl View for ObjectList {
    type V = Seq<Object>;

    open spec fn view(&self) -> Seq<Object> {
        self.objects@
    }
}

impl ObjectList {
    pub open spec fn wf(&self) -> bool {
        forall|i: int| 0 <= i < self@.len() ==> (#[trigger] self@[i]).wf()
    }
}

/// One annotated image.
#[derive(Clone, Debug, PartialEq, Eq, Hash)]
pub struct Frame {
    pub number: usize,
    pub file: String,
    pub utc: Timestamp,
    pub color: Option<Color>,
    pub depth: Option<Depth>,
    pub gsd: Option<Decimal>,
    pub x: Decimal,
    pub y: Decimal,
    pub lat: Decimal,
    pub lon: Decimal,
    pub sunny: bool,
    pub object_list: ObjectList,
}

/// The mathematical content of a frame.
pub ghost struct FrameView {
    pub number: usize,
    pub file: Seq<char>,
    pub utc: Timestamp,
    pub color: Option<Color>,
    pub depth: Option<Depth>,
    pub gsd: Option<Decimal>,
    pub x: Decimal,
    pub y: Decimal,
    pub lat: Decimal,
    pub lon: Decimal,
    pub sunny: bool,
    pub objects: Seq<Object>,
}

impl View for Frame {
    type V = FrameView;

    open spec fn view(&self) -> FrameView {
        FrameView {
            number: self.number,
            file: self.file@,
            utc: self.utc,
            color: self.color,
            depth: self.depth,
            gsd: self.gsd,
            x: self.x,
            y: self.y,
            lat: self.lat,
            lon: self.lon,
            sunny: self.sunny,
            objects: self.object_list@,
        }
    }
}

impl FrameView {
    pub open spec fn wf(&self) -> bool {
        &&& self.utc.wf()
        &&& (self.gsd matches Some(g) ==> g.wf())
        &&& self.x.wf() && self.y.wf() && self.lat.wf() && self.lon.wf()
        &&& forall|i: int| 0 <= i < self.objects.len() ==> (#[trigger] self.objects[i]).wf()
    }
}

impl Frame {
    pub open spec fn wf(&self) -> bool {
        self@.wf()
    }
}

/// An annotated image sequence, frames in temporal order.
#[derive(Clone, Debug, PartialEq, Eq, Hash)]
pub struct Dataset {
    pub frames: Vec<Frame>,
}

impl View for Dataset {
    type V = Seq<FrameView>;

    open spec fn view(&self) -> Seq<FrameView> {
        self.frames@.map_values(|f: Frame| f@)
    }
}

impl Dataset {
    /// Every frame can be written as markup and read back.
    pub open spec fn wf(&self) -> bool {
        forall|i: int| 0 <= i < self@.len() ==> (#[trigger] self@[i]).wf()
    }
}

} // verus!
