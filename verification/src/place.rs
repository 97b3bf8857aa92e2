//! Placing content at an absolute position: which settings are accepted, and
//! how the area for the placed content is set up.

use vstd::prelude::*;

verus! {

/// Where to align something along an axis.
#[derive(Debug, Clone, Copy, PartialEq, Eq, Structural)]
pub enum Align {
    /// Align at the left side.
    Left,
    /// Align in the horizontal middle.
    Center,
    /// Align at the right side.
    Right,
    /// Align at the top side.
    Top,
    /// Align in the vertical middle.
    Horizon,
    /// Align at the bottom side.
    Bottom,
}

/// Where to align something along an axis, also in terms of the direction
/// of the text.
#[derive(Debug, Clone, Copy, PartialEq, Eq, Structural)]
pub enum GenAlign {
    /// Align at the start side of the text direction.
    Start,
    /// Align at the end side of the text direction.
    End,
    /// Align at a specific side.
    Specific(Align),
}

/// A value that can be determined automatically.
#[derive(Debug, Clone, Copy, PartialEq, Eq)]
pub enum Smart<T> {
    /// The value should be determined smartly based on the circumstances.
    Auto,
    /// A specific value.
    Custom(T),
}

/// A container with a horizontal and a vertical component.
#[derive(Debug, Clone, Copy, PartialEq, Eq)]
pub struct Axes<T> {
    /// The horizontal component.
    pub x: T,
    /// The vertical component.
    pub y: T,
}

/// Why a placement is turned down.
#[derive(Debug, Clone, Copy, PartialEq, Eq, Structural)]
pub enum PlaceError {
    /// Floating content is aligned neither automatically nor at the top or
    /// the bottom.
    FloatingAlignment,
    /// Content that does not float is to be positioned automatically.
    AutoWithoutFloat,
}

impl PlaceError {
    /// The message of the error.
    pub open spec fn text(self) -> Seq<char> {
        match self {
            PlaceError::FloatingAlignment =>
                "floating placement must be `auto`, `top`, or `bottom`"@,
            PlaceError::AutoWithoutFloat =>
                "automatic positioning is only available for floating placement"@,
        }
    }

    /// The message of the error.
    pub fn message(&self) -> (message: &'static str)
        ensures
            message@ == self.text(),
    {
        match self {
            PlaceError::FloatingAlignment =>
                "floating placement must be `auto`, `top`, or `bottom`",
            PlaceError::AutoWithoutFloat =>
                "automatic positioning is only available for floating placement",
        }
    }

    /// A hint on how to mend the error, where there is one.
    pub fn hint(&self) -> (hint: Option<&'static str>)
        ensures
            hint is Some == (*self == PlaceError::AutoWithoutFloat),
            hint matches Some(text) ==> text@
                == "you can enable floating placement with `place(float: true, ..)`"@,
    {
        match self {
            PlaceError::FloatingAlignment => None,
            PlaceError::AutoWithoutFloat => Some(
                "you can enable floating placement with `place(float: true, ..)`",
            ),
        }
    }
}

/// How the area for placed content is set up.
#[derive(Debug, Clone, Copy, PartialEq, Eq)]
pub struct Placement {
    /// Whether the content expands to fill the base area along each axis.
    pub expand: Axes<bool>,
    /// Where in the base area the content is aligned.
    pub alignment: Axes<Option<GenAlign>>,
}

/// Places content at an absolute position.
///
/// Placed content will not affect the position of other content. Place is
/// always relative to its parent container and will be in the foreground of
/// all other content in the container.
#[derive(Debug, Clone, Copy, PartialEq, Eq)]
pub struct PlaceElem {
    /// Relative to which position in the parent container to place the
    /// content.
    ///
    /// Cannot be automatic if `float` is off, and must be automatic, top or
    /// bottom if `float` is on.
    pub alignment: Smart<Axes<Option<GenAlign>>>,
    /// Whether the placed element has floating layout.
    pub float: bool,
}

/// Whether the alignment is one that floating content can have: automatic,
/// or vertically at the top or the bottom.
pub open spec fn floats(alignment: Smart<Axes<Option<GenAlign>>>) -> bool {
    match alignment {
        Smart::Auto => true,
        Smart::Custom(axes) => axes.y == Some(GenAlign::Specific(Align::Top)) || axes.y == Some(
            GenAlign::Specific(Align::Bottom),
        ),
    }
}

/// The alignment that placed content gets: the one that is set, or the
/// horizontal middle where it is automatic.
pub open spec fn resolved(alignment: Smart<Axes<Option<GenAlign>>>) -> Axes<Option<GenAlign>> {
    match alignment {
        Smart::Auto => Axes { x: Some(GenAlign::Specific(Align::Center)), y: None },
        Smart::Custom(axes) => axes,
    }
}

impl PlaceElem {
    /// Why the element is turned down, if it is.
    pub open spec fn refusal(self) -> Option<PlaceError> {
        if self.float && !floats(self.alignment) {
            Some(PlaceError::FloatingAlignment)
        } else if !self.float && self.alignment is Auto {
            Some(PlaceError::AutoWithoutFloat)
        } else {
            None
        }
    }

    /// How the area for the content is set up, for an element that is not
    /// turned down. The base area is filled along an axis along which it is
    /// finite; floating content does not fill it vertically.
    pub open spec fn placement(self, finite: Axes<bool>) -> Placement {
        Placement {
            expand: Axes { x: finite.x, y: finite.y && !self.float },
            alignment: resolved(self.alignment),
        }
    }

    /// An element with the default settings: at the start of the text
    /// direction, not floating.
    pub fn new() -> (elem: PlaceElem)
        ensures
            elem == (PlaceElem {
                alignment: Smart::Custom(Axes { x: Some(GenAlign::Start), y: None }),
                float: false,
            }),
    {
        PlaceElem {
            alignment: Smart::Custom(Axes { x: Some(GenAlign::Start), y: None }),
            float: false,
        }
    }

    /// Layout without zeroing the frame size: checks the settings and sets
    /// up the area for the content, given along which axes the base area of
    /// the region is finite.
    pub fn layout_inner(&self, finite: Axes<bool>) -> (result: Result<Placement, PlaceError>)
        ensures
            result == match self.refusal() {
                Some(error) => Err::<Placement, PlaceError>(error),
                None => Ok(self.placement(finite)),
            },
    {
        // The pod is the base area of the region because for absolute
        // placement we don't really care about the already used area.
        let expand = Axes { x: finite.x, y: finite.y && !self.float };
        match self.alignment {
            Smart::Auto => {
                if !self.float {
                    return Err(PlaceError::AutoWithoutFloat);
                }
                Ok(
                    Placement {
                        expand,
                        alignment: Axes { x: Some(GenAlign::Specific(Align::Center)), y: None },
                    },
                )
            },
            Smart::Custom(axes) => {
                let vertical = match axes.y {
                    Some(GenAlign::Specific(Align::Top)) => true,
                    Some(GenAlign::Specific(Align::Bottom)) => true,
                    _ => false,
                };
                if self.float && !vertical {
                    return Err(PlaceError::FloatingAlignment);
                }
                Ok(Placement { expand, alignment: axes })
            },
        }
    }
}

} // verus!
