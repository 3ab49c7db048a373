//! Layout decisions of GPU rendering and of raster export: how layers blend,
//! when a layer is drawn again, how large buffers are, and how the rows of a
//! read-back texture are laid out.
use vstd::prelude::*;
use vstd::arithmetic::div_mod::{lemma_fundamental_div_mod_converse_div, lemma_fundamental_div_mod_converse_mod};

use crate::model::BlendMode;

verus! {

/// A factor of a blend equation.
#[derive(Clone, Copy, Debug, PartialEq, Eq, Structural)]
pub enum BlendFactor {
    Zero,
    One,
    SrcAlpha,
    OneMinusSrcAlpha,
    Dst,
    OneMinusDst,
}

/// How the two weighted terms of a blend equation combine.
#[derive(Clone, Copy, Debug, PartialEq, Eq, Structural)]
pub enum BlendOperation {
    Add,
    Subtract,
}

/// A blend equation: `src * src_factor (op) dst * dst_factor`.
#[derive(Clone, Copy, Debug, PartialEq, Eq, Structural)]
pub struct BlendComponent {
    pub src_factor: BlendFactor,
    pub dst_factor: BlendFactor,
    pub operation: BlendOperation,
}

/// The blend equation of the colour channels for each blend mode.
pub open spec fn color_blend_spec(mode: BlendMode) -> BlendComponent {
    match mode {
        BlendMode::Normal => BlendComponent {
            src_factor: BlendFactor::SrcAlpha,
            dst_factor: BlendFactor::OneMinusSrcAlpha,
            operation: BlendOperation::Add,
        },
        BlendMode::Multiply => BlendComponent {
            src_factor: BlendFactor::Dst,
            dst_factor: BlendFactor::Zero,
            operation: BlendOperation::Add,
        },
        BlendMode::Screen => BlendComponent {
            src_factor: BlendFactor::OneMinusDst,
            dst_factor: BlendFactor::One,
            operation: BlendOperation::Add,
        },
        BlendMode::Add => BlendComponent {
            src_factor: BlendFactor::One,
            dst_factor: BlendFactor::One,
            operation: BlendOperation::Add,
        },
        BlendMode::Subtract => BlendComponent {
            src_factor: BlendFactor::One,
            dst_factor: BlendFactor::One,
            operation: BlendOperation::Subtract,
        },
    }
}

/// The blend equation of each mode, as `src * src_factor (op) dst *
/// dst_factor`: Normal lays the layer over what is below by its alpha,
/// Multiply multiplies with what is below, Screen adds the layer scaled by
/// what is missing from white, Add adds and Subtract takes the layer away;
/// only Subtract subtracts.
pub proof fn lemma_blend_equations()
    ensures
        color_blend_spec(BlendMode::Normal) == (BlendComponent {
            src_factor: BlendFactor::SrcAlpha,
            dst_factor: BlendFactor::OneMinusSrcAlpha,
            operation: BlendOperation::Add,
        }),
        color_blend_spec(BlendMode::Multiply) == (BlendComponent {
            src_factor: BlendFactor::Dst,
            dst_factor: BlendFactor::Zero,
            operation: BlendOperation::Add,
        }),
        color_blend_spec(BlendMode::Screen) == (BlendComponent {
            src_factor: BlendFactor::OneMinusDst,
            dst_factor: BlendFactor::One,
            operation: BlendOperation::Add,
        }),
        color_blend_spec(BlendMode::Add) == (BlendComponent {
            src_factor: BlendFactor::One,
            dst_factor: BlendFactor::One,
            operation: BlendOperation::Add,
        }),
        color_blend_spec(BlendMode::Subtract) == (BlendComponent {
            src_factor: BlendFactor::One,
            dst_factor: BlendFactor::One,
            operation: BlendOperation::Subtract,
        }),
        forall|mode: BlendMode| (#[trigger] color_blend_spec(mode)).operation == BlendOperation::Subtract
            <==> mode == BlendMode::Subtract,
{
}

/// The blend equation of the colour channels of a layer with blend mode `mode`.
pub fn color_blend(mode: BlendMode) -> (component: BlendComponent)
    ensures
        component == color_blend_spec(mode),
        component.operation == BlendOperation::Subtract <==> mode == BlendMode::Subtract,
{
    match mode {
        BlendMode::Normal => BlendComponent {
            src_factor: BlendFactor::SrcAlpha,
            dst_factor: BlendFactor::OneMinusSrcAlpha,
            operation: BlendOperation::Add,
        },
        BlendMode::Multiply => BlendComponent {
            src_factor: BlendFactor::Dst,
            dst_factor: BlendFactor::Zero,
            operation: BlendOperation::Add,
        },
        BlendMode::Screen => BlendComponent {
            src_factor: BlendFactor::OneMinusDst,
            dst_factor: BlendFactor::One,
            operation: BlendOperation::Add,
        },
        BlendMode::Add => BlendComponent {
            src_factor: BlendFactor::One,
            dst_factor: BlendFactor::One,
            operation: BlendOperation::Add,
        },
        BlendMode::Subtract => BlendComponent {
            src_factor: BlendFactor::One,
            dst_factor: BlendFactor::One,
            operation: BlendOperation::Subtract,
        },
    }
}

/// The blend equation of the alpha channel, the same for every blend mode:
/// ordinary "over" compositing.
pub fn alpha_blend() -> (component: BlendComponent)
    ensures
        component == (BlendComponent {
            src_factor: BlendFactor::SrcAlpha,
            dst_factor: BlendFactor::OneMinusSrcAlpha,
            operation: BlendOperation::Add,
        }),
{
    BlendComponent {
        src_factor: BlendFactor::SrcAlpha,
        dst_factor: BlendFactor::OneMinusSrcAlpha,
        operation: BlendOperation::Add,
    }
}

/// Whether a layer's texture is drawn again: after the canvas changed size,
/// after a change of revision that named no layer in particular, or when the
/// layer is among the layers named as changed.
pub fn layer_needs_redraw(
    canvas_changed: bool,
    revision_changed: bool,
    no_layer_named: bool,
    layer_named: bool,
) -> (redraw: bool)
    ensures
        redraw == (canvas_changed || (revision_changed && no_layer_named) || layer_named),
{
    canvas_changed || (revision_changed && no_layer_named) || layer_named
}

/// The size of the buffer to create so that `size` bytes fit in a buffer of
/// `current` bytes (at least 4 bytes); nothing when it already fits.
pub fn buffer_size_to_allocate(current: u64, size: usize) -> (new_size: Option<u64>)
    ensures
        ({
            let needed = if size < 4 { 4 } else { size as int };
            match new_size {
                Some(n) => current < needed && n == needed,
                None => current >= needed,
            }
        }),
{
    let needed = if size < 4 { 4 } else { size };
    let needed = needed as u64;
    if current < needed {
        Some(needed)
    } else {
        None
    }
}

/// `n` rounded up to a multiple of 256.
pub open spec fn round_up_256(n: int) -> int {
    if n % 256 == 0 {
        n
    } else {
        n + (256 - n % 256)
    }
}

/// A rounded row size is a multiple of 256, at least the unrounded size,
/// and less than 256 bytes more.
pub proof fn lemma_round_up_256(n: int)
    requires
        n >= 0,
    ensures
        round_up_256(n) % 256 == 0,
        n <= round_up_256(n) < n + 256,
{
}

/// The number of bytes of a row of `width` RGBA pixels in a read-back
/// buffer, rounded up to a multiple of 256; nothing when the unrounded size
/// does not fit in 32 bits.
pub fn padded_bytes_per_row(width: u32) -> (padded: Option<u32>)
    requires
        4 * width > u32::MAX || round_up_256(4 * width) <= u32::MAX,
    ensures
        match padded {
            Some(p) => 4 * width <= u32::MAX && p == round_up_256(4 * width),
            None => 4 * width > u32::MAX,
        },
{
    let bytes = match 4u32.checked_mul(width) {
        Some(b) => b,
        None => {
            return None;
        },
    };
    let rem = bytes % 256;
    if rem == 0 {
        Some(bytes)
    } else {
        Some(bytes + (256 - rem))
    }
}

/// The pixels of `rows` rows of `row_bytes` bytes each, read from `mapped`
/// where row `r` starts at byte `r * stride`.
pub open spec fn unpadded(mapped: Seq<u8>, row_bytes: int, rows: int, stride: int) -> Seq<u8> {
    Seq::new((rows * row_bytes) as nat, |k: int| mapped[(k / row_bytes) * stride + k % row_bytes])
}

/// The tightly packed RGBA pixels of a `width` by `height` image whose rows
/// start every `padded_bytes_per_row` bytes in `mapped`.
pub fn unpad_rows(mapped: &[u8], width: u32, height: u32, padded_bytes_per_row: u32) -> (rgba: Vec<u8>)
    requires
        width * height * 4 <= u32::MAX,
        height > 0 ==> (height - 1) * padded_bytes_per_row <= u32::MAX,
        height > 0 ==> (height - 1) * padded_bytes_per_row + width * 4 <= mapped@.len(),
    ensures
        rgba@ == unpadded(mapped@, width * 4, height as int, padded_bytes_per_row as int),
{
    let mut rgba: Vec<u8> = Vec::new();
    if height == 0 {
        proof {
            assert(rgba@ =~= unpadded(mapped@, width * 4, height as int, padded_bytes_per_row as int));
        }
        return rgba;
    }
    proof {
        assert(width * 4 <= width * height * 4) by (nonlinear_arith)
            requires
                height >= 1,
        ;
    }
    let row_bytes = width * 4;
    let stride = padded_bytes_per_row;
    let total = mapped.len();
    let mut row: u32 = 0;
    while row < height
        invariant
            row_bytes == width * 4,
            stride == padded_bytes_per_row,
            width * height * 4 <= u32::MAX,
            height > 0 ==> (height - 1) * stride <= u32::MAX,
            height > 0 ==> (height - 1) * stride + row_bytes <= mapped@.len(),
            total == mapped@.len(),
            row <= height,
            rgba@.len() == row * row_bytes,
            forall|k: int| 0 <= k < rgba@.len() ==> #[trigger] rgba@[k] == mapped@[(k / row_bytes as int) * stride + k % (row_bytes as int)],
        decreases height - row,
    {
        proof {
            assert(row * stride <= (height - 1) * stride) by (nonlinear_arith)
                requires
                    row < height,
            ;
        }
        let start = (row * stride) as usize;
        let mut c: u32 = 0;
        while c < row_bytes
            invariant
                row_bytes == width * 4,
                stride == padded_bytes_per_row,
                row < height,
                start == row * stride,
                start + row_bytes <= mapped@.len(),
                total == mapped@.len(),
                c <= row_bytes,
                rgba@.len() == row * row_bytes + c,
                forall|k: int| 0 <= k < rgba@.len() ==> #[trigger] rgba@[k] == mapped@[(k / row_bytes as int) * stride + k % (row_bytes as int)],
            decreases row_bytes - c,
        {
            let ghost k = rgba@.len() as int;
            proof {
                lemma_fundamental_div_mod_converse_div(k, row_bytes as int, row as int, c as int);
                lemma_fundamental_div_mod_converse_mod(k, row_bytes as int, row as int, c as int);
            }
            rgba.push(mapped[start + c as usize]);
            c += 1;
        }
        proof {
            assert((row + 1) * row_bytes == row * row_bytes + row_bytes) by (nonlinear_arith);
        }
        row += 1;
    }
    proof {
        assert(rgba@ =~= unpadded(mapped@, width * 4, height as int, padded_bytes_per_row as int));
    }
    rgba
}

} // verus!
