//! Replay of a recorded raster-drawing session: the container that holds
//! the recording, and the drawing engine that turns each recorded action
//! into pixels.
use vstd::prelude::*;

pub mod blend;
pub mod clip;
pub mod container;
pub mod decimal;
pub mod dispatch;
pub mod fill;
pub mod float;
pub mod flood;
pub mod kernel;
pub mod raster;
pub mod renderer;
pub mod stroke;
pub mod text;

use crate::float::{F64, float_from_int, zero};

verus! {

/// One slot of a recorded action: an opcode or text, or a number.
#[derive(Debug, Clone)]
pub enum ActionValue {
    String(String),
    Number(F64),
    Integer(i64),
}

/// A straight-alpha colour with four 8-bit channels.
#[derive(Debug, Clone, Copy, PartialEq, Eq, Structural)]
pub struct Color {
    pub r: u8,
    pub g: u8,
    pub b: u8,
    pub a: u8,
}

/// The twelve bytes at the start of a recording.
#[derive(Debug, Clone)]
pub struct PchHeader {
    pub magic: [u8; 4],
    pub width: u16,
    pub height: u16,
    pub reserved: [u8; 4],
}

/// A recording: the canvas size and the actions in the order drawn.
#[derive(Debug, Clone)]
pub struct PchFile {
    pub header: PchHeader,
    pub actions: Vec<Vec<ActionValue>>,
}

/// The tool a stroke is drawn with.
#[derive(Debug, Clone, Copy, PartialEq, Eq, Structural)]
pub enum LineType {
    NoLine,
    Pen,
    Eraser,
    Brush,
    Tone,
    Dodge,
    Burn,
    Blur,
}

/// Which curve turns the colour's alpha into the opacity of one stamp.
#[derive(Debug, Clone, Copy, PartialEq, Eq, Structural)]
pub enum AlphaType {
    Pen,
    Brush,
    Fill,
}

/// How the mask colour restricts drawing.
#[derive(Debug, Clone, Copy, PartialEq, Eq, Structural)]
pub enum MaskType {
    NoMask,
    Normal,
    Reverse,
    Add,
    Sub,
}

/// The shape of a parametric fill.
#[derive(Debug, Clone, Copy, PartialEq, Eq, Structural)]
pub enum FillType {
    Rect,
    RectFill,
    Ellipse,
    EllipseFill,
}

/// The state that one action leaves to the next.
#[derive(Debug, Clone, Copy)]
pub struct DrawingState {
    pub current_color: Color,
    pub current_mask: Color,
    pub current_width: F64,
    pub current_mask_type: MaskType,
    /// Alpha too small for one stamp, carried on to the following stamps.
    pub aerr: F64,
}

impl Default for DrawingState {
    fn default() -> (r: Self)
        ensures
            r.current_color == (Color { r: 0, g: 0, b: 0, a: 255 }),
            r.current_mask == (Color { r: 0, g: 0, b: 0, a: 0 }),
            r.current_width == float_from_int(1),
            r.current_mask_type == MaskType::NoMask,
            r.aerr == zero(false),
    {
        DrawingState {
            current_color: Color { r: 0, g: 0, b: 0, a: 255 },
            current_mask: Color { r: 0, g: 0, b: 0, a: 0 },
            current_width: F64::from_u32(1),
            current_mask_type: MaskType::NoMask,
            aerr: F64 { bits: 0 },
        }
    }
}

impl LineType {
    /// The tool that a recorded code names.
    pub open spec fn of_code(value: i64) -> LineType {
        if value == 1 {
            LineType::Pen
        } else if value == 2 {
            LineType::Eraser
        } else if value == 3 {
            LineType::Brush
        } else if value == 4 {
            LineType::Tone
        } else if value == 5 {
            LineType::Dodge
        } else if value == 6 {
            LineType::Burn
        } else if value == 7 {
            LineType::Blur
        } else {
            LineType::NoLine
        }
    }
}

impl From<i64> for LineType {
    fn from(value: i64) -> (r: LineType) {
        match value {
            1 => LineType::Pen,
            2 => LineType::Eraser,
            3 => LineType::Brush,
            4 => LineType::Tone,
            5 => LineType::Dodge,
            6 => LineType::Burn,
            7 => LineType::Blur,
            _ => LineType::NoLine,
        }
    }
}

impl vstd::std_specs::convert::FromSpecImpl<i64> for LineType {
    open spec fn obeys_from_spec() -> bool {
        true
    }

    open spec fn from_spec(value: i64) -> LineType {
        LineType::of_code(value)
    }
}

impl MaskType {
    /// The mask type that a recorded code names.
    pub open spec fn of_code(value: i64) -> MaskType {
        if value == 1 {
            MaskType::Normal
        } else if value == 2 {
            MaskType::Reverse
        } else if value == 3 {
            MaskType::Add
        } else if value == 4 {
            MaskType::Sub
        } else {
            MaskType::NoMask
        }
    }
}

impl From<i64> for MaskType {
    fn from(value: i64) -> (r: MaskType) {
        match value {
            1 => MaskType::Normal,
            2 => MaskType::Reverse,
            3 => MaskType::Add,
            4 => MaskType::Sub,
            _ => MaskType::NoMask,
        }
    }
}

impl vstd::std_specs::convert::FromSpecImpl<i64> for MaskType {
    open spec fn obeys_from_spec() -> bool {
        true
    }

    open spec fn from_spec(value: i64) -> MaskType {
        MaskType::of_code(value)
    }
}

impl FillType {
    /// The shape that a recorded code names, if it names one.
    pub open spec fn of_code(code: u32) -> Option<FillType> {
        if code == 20 {
            Some(FillType::Rect)
        } else if code == 21 {
            Some(FillType::RectFill)
        } else if code == 22 {
            Some(FillType::Ellipse)
        } else if code == 23 {
            Some(FillType::EllipseFill)
        } else {
            None
        }
    }

    /// The shape that a recorded code names, if it names one.
    pub fn from_code(code: u32) -> (r: Option<FillType>)
        ensures
            r == FillType::of_code(code),
    {
        match code {
            20 => Some(FillType::Rect),
            21 => Some(FillType::RectFill),
            22 => Some(FillType::Ellipse),
            23 => Some(FillType::EllipseFill),
            _ => None,
        }
    }
}

} // verus!
