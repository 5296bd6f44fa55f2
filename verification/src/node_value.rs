use vstd::prelude::*;

verus! {

/// An RGB color with an alpha channel. Supports 16-bits per channel to allow for HDR
/// content or colors on devices like RGB LEDs that may have color accuracy beyond that
/// of most monitors.
pub type NodeColor = (u16, u16, u16, u16);

/// The data that flows along the wires of a compute graph.
#[derive(Debug, PartialEq)]
pub enum NodeValue {
    /// Stateless value, acts as a way of kicking off an action.
    Trigger(),
    /// Boolean value, used to switch something on or off.
    Toggle(bool),
    /// Signed integer value.
    Count(i64),
    /// Represents a value from 0 to 1 with a precision of 1/(2^32).
    ConstrainedMagnitude(u32),
    /// Like `ConstrainedMagnitude`, meant to represent a value of 0 to 1, but able to go
    /// outside of those bounds, so that the value can be inverted or over-driven. Held as
    /// the bit pattern of a 64-bit IEEE 754 number; two magnitudes are equal when their
    /// bit patterns are.
    UnconstrainedMagnitude(u64),
    /// An RGB color with an alpha channel.
    Color(NodeColor),
    /// UTF-8 string data.
    Text(Box<String>),
    /// 1-dimensional bitmap image. Stored uncompressed.
    Bitmap1D(Box<Vec<NodeColor>>),
    /// 2-dimensional bitmap image. Stored uncompressed.
    Bitmap2D(Box<Vec<Vec<NodeColor>>>),
    /// Shader program with a 1-dimensional positional input. Stores the index of the
    /// program, not the program itself, so that this value can be compared and cloned.
    Shader1D(u16),
    /// Shader program with a 2-dimensional positional input.
    Shader2D(u16),
    /// Shader program with a 3-dimensional positional input.
    Shader3D(u16),
}

/// Names the kind of a `NodeValue` without carrying its payload. Node definitions use it to
/// declare what their inputs accept and what their outputs produce.
#[derive(Debug, PartialEq, Eq, Structural, Clone, Copy, Hash)]
pub enum NodeValueType {
    Trigger,
    Toggle,
    Count,
    ConstrainedMagnitude,
    UnconstrainedMagnitude,
    Color,
    Text,
    Bitmap1D,
    Bitmap2D,
    Shader1D,
    Shader2D,
    Shader3D,
}

/// A copy of one row of colors.
fn copy_colors(colors: &Vec<NodeColor>) -> (copy: Vec<NodeColor>)
    ensures
        copy@ == colors@,
{
    let mut copy: Vec<NodeColor> = Vec::with_capacity(colors.len());
    let mut i: usize = 0;
    while i < colors.len()
        invariant
            i <= colors.len(),
            copy@ == colors@.take(i as int),
        decreases colors.len() - i,
    {
        copy.push(colors[i]);
        assert(copy@ =~= colors@.take(i + 1));
        i += 1;
    }
    assert(colors@.take(colors.len() as int) =~= colors@);
    copy
}

impl Clone for NodeValue {
    /// A deep copy: text and bitmaps are copied, not shared.
    fn clone(&self) -> (copy: NodeValue)
        ensures
            self.same_as(&copy),
    {
        match self {
            NodeValue::Trigger() => NodeValue::Trigger(),
            NodeValue::Toggle(on) => NodeValue::Toggle(*on),
            NodeValue::Count(count) => NodeValue::Count(*count),
            NodeValue::ConstrainedMagnitude(m) => NodeValue::ConstrainedMagnitude(*m),
            NodeValue::UnconstrainedMagnitude(bits) => NodeValue::UnconstrainedMagnitude(*bits),
            NodeValue::Color(color) => NodeValue::Color(*color),
            NodeValue::Text(text) => {
                let text: &String = text;
                NodeValue::Text(Box::new(text.clone()))
            },
            NodeValue::Bitmap1D(row) => NodeValue::Bitmap1D(Box::new(copy_colors(row))),
            NodeValue::Bitmap2D(rows) => {
                let mut copy: Vec<Vec<NodeColor>> = Vec::with_capacity(rows.len());
                let mut i: usize = 0;
                while i < rows.len()
                    invariant
                        i <= rows.len(),
                        copy@.len() == i,
                        forall|j: int| 0 <= j < i ==> (#[trigger] copy@[j])@ == rows@[j]@,
                    decreases rows.len() - i,
                {
                    copy.push(copy_colors(&rows[i]));
                    i += 1;
                }
                NodeValue::Bitmap2D(Box::new(copy))
            },
            NodeValue::Shader1D(index) => NodeValue::Shader1D(*index),
            NodeValue::Shader2D(index) => NodeValue::Shader2D(*index),
            NodeValue::Shader3D(index) => NodeValue::Shader3D(*index),
        }
    }
}

impl NodeValue {
    /// Whether two values are of one kind and hold the same: the same number, the same
    /// text, the same colors at the same places.
    pub open spec fn same_as(&self, other: &NodeValue) -> bool {
        match (*self, *other) {
            (NodeValue::Text(a), NodeValue::Text(b)) => a@ == b@,
            (NodeValue::Bitmap1D(a), NodeValue::Bitmap1D(b)) => a@ == b@,
            (NodeValue::Bitmap2D(a), NodeValue::Bitmap2D(b)) => a@.len() == b@.len() && forall|
                j: int,
            | 0 <= j < a@.len() ==> (#[trigger] a@[j])@ == b@[j]@,
            (a, b) => a == b,
        }
    }

    /// The kind of this value, as a specification.
    pub open spec fn spec_value_type(&self) -> NodeValueType {
        match self {
            NodeValue::Trigger() => NodeValueType::Trigger,
            NodeValue::Toggle(_) => NodeValueType::Toggle,
            NodeValue::Count(_) => NodeValueType::Count,
            NodeValue::ConstrainedMagnitude(_) => NodeValueType::ConstrainedMagnitude,
            NodeValue::UnconstrainedMagnitude(_) => NodeValueType::UnconstrainedMagnitude,
            NodeValue::Color(_) => NodeValueType::Color,
            NodeValue::Text(_) => NodeValueType::Text,
            NodeValue::Bitmap1D(_) => NodeValueType::Bitmap1D,
            NodeValue::Bitmap2D(_) => NodeValueType::Bitmap2D,
            NodeValue::Shader1D(_) => NodeValueType::Shader1D,
            NodeValue::Shader2D(_) => NodeValueType::Shader2D,
            NodeValue::Shader3D(_) => NodeValueType::Shader3D,
        }
    }

    /// The kind of this value.
    pub fn value_type(&self) -> (kind: NodeValueType)
        ensures
            kind == self.spec_value_type(),
    {
        match self {
            NodeValue::Trigger() => NodeValueType::Trigger,
            NodeValue::Toggle(_) => NodeValueType::Toggle,
            NodeValue::Count(_) => NodeValueType::Count,
            NodeValue::ConstrainedMagnitude(_) => NodeValueType::ConstrainedMagnitude,
            NodeValue::UnconstrainedMagnitude(_) => NodeValueType::UnconstrainedMagnitude,
            NodeValue::Color(_) => NodeValueType::Color,
            NodeValue::Text(_) => NodeValueType::Text,
            NodeValue::Bitmap1D(_) => NodeValueType::Bitmap1D,
            NodeValue::Bitmap2D(_) => NodeValueType::Bitmap2D,
            NodeValue::Shader1D(_) => NodeValueType::Shader1D,
            NodeValue::Shader2D(_) => NodeValueType::Shader2D,
            NodeValue::Shader3D(_) => NodeValueType::Shader3D,
        }
    }
}

} // verus!
