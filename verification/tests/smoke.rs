//! A constant color's way into a uniform, through a texture and back out.
use texture_graph::bytes::read_le_word;
use texture_graph::readback::{copy_layout, unpad};
use texture_graph::{
    buffer_bytes, dispatch_kind, oklcha, schedule, workgroup_counts, EvalCtx, Graph, LayerKind,
    Pipeline, Scalar, Slice, Target, Word,
};

const TEX_SIZE: u32 = 8;

fn sc(v: f32) -> Scalar {
    Scalar::from_bits(v.to_bits())
}

fn number(word: Word) -> u32 {
    match word {
        Word::Bits(bits) => bits,
        Word::Span { from, to } => (f32::from_bits(to.bits) - f32::from_bits(from.bits)).to_bits(),
        Word::Degrees(angle) => {
            let mut d = f32::from_bits(angle.bits) % 360.0;
            if d > 180.0 {
                d -= 360.0;
            } else if d <= -180.0 {
                d += 360.0;
            }
            d.to_bits()
        }
        Word::SliceCenter { z, depth } => ((z as f32 + 0.5) / depth as f32).to_bits(),
        Word::Srgb(_) => panic!("no word of a color pass is encoded"),
    }
}

fn run_smoke() -> [f32; 4] {
    let mut g = Graph::new();
    let id = g.output.color.unwrap();
    let color = oklcha(sc(0.5), sc(0.1), sc(30.0), sc(1.0));
    g.set_kind(id, LayerKind::Color(color)).unwrap();
    let ctx = EvalCtx::default();
    let sched = schedule(&g, &ctx).unwrap();
    let at = Slice::Plane { w: Word::Bits(0.5f32.to_bits()) };
    let pass = dispatch_kind(g.get(id).unwrap(), &ctx, &sched, (TEX_SIZE, TEX_SIZE), at).unwrap();
    assert_eq!(pass.pipeline, Pipeline::Color);
    assert_eq!(pass.target, Target::Slot(0));
    assert_eq!(workgroup_counts((TEX_SIZE, TEX_SIZE)), (1, 1));

    let words: Vec<u32> = pass.uniform.iter().map(|w| number(*w)).collect();
    let uniform = buffer_bytes(&words);
    assert_eq!(uniform.len(), 32);

    // What the shader does: every texel of the size it is told gets the color.
    let word = |i: usize| {
        let b = &uniform[4 * i..4 * i + 4];
        u32::from_ne_bytes([b[0], b[1], b[2], b[3]])
    };
    let (width, height) = (word(4), word(5));
    assert_eq!((width, height), (TEX_SIZE, TEX_SIZE));
    let layout = copy_layout((width, height, 1), 16).unwrap();
    // Copies need 256-byte-aligned rows; 8 px * 16 B = 128 B.
    assert_eq!((layout.packed, layout.stride, layout.rows), (128, 256, 8));
    let mut texture = vec![0xeeu8; layout.size as usize];
    for y in 0..height {
        for x in 0..width {
            for k in 0..4 {
                let at = (y * layout.stride + x * 16 + k * 4) as usize;
                texture[at..at + 4].copy_from_slice(&word(k as usize).to_le_bytes());
            }
        }
    }

    let data = unpad(&texture, layout);
    assert_eq!(data.len(), (16 * width * height) as usize);
    let mut pixel = [0.0f32; 4];
    for (k, p) in pixel.iter_mut().enumerate() {
        *p = f32::from_bits(read_le_word(&data, data.len() - 16 + 4 * k));
    }
    pixel
}

#[test]
fn smoke_write_solid_oklcha_roundtrips() {
    let got = run_smoke();
    let want = [0.5f32, 0.1, 30.0, 1.0];
    for i in 0..4 {
        assert!(
            (got[i] - want[i]).abs() < 1e-6,
            "channel {i}: got {} want {}",
            got[i],
            want[i]
        );
    }
}

#[test]
fn buffer_bytes_hold_the_words_in_memory_order() {
    let words = vec![0x0102_0304u32, 0xdead_beef, 0];
    let bytes = buffer_bytes(&words);
    assert_eq!(bytes.len(), 12);
    let mut want: Vec<u8> = Vec::new();
    for w in &words {
        want.extend_from_slice(&w.to_ne_bytes());
    }
    assert_eq!(bytes, want);
    assert!(buffer_bytes(&Vec::new()).is_empty());
}

#[test]
fn a_word_reads_back_from_its_bytes() {
    for w in [0u32, 1, 0x8000_0000, 0x1234_5678, u32::MAX] {
        let mut bytes = vec![7u8, 7];
        bytes.extend_from_slice(&w.to_le_bytes());
        assert_eq!(read_le_word(&bytes, 2), w);
    }
}

#[test]
fn a_copy_that_exceeds_its_limits_has_no_layout() {
    assert!(copy_layout((u32::MAX, 1, 1), 4).is_none());
    assert!(copy_layout((1, u32::MAX, 2), 4).is_none());
    assert!(copy_layout((1 << 16, 1 << 16, 1), 1).is_none());
    assert!(copy_layout((u32::MAX, 1, 1), 1).is_none());
    let l = copy_layout((64, 3, 5), 4).unwrap();
    assert_eq!((l.packed, l.stride, l.rows, l.size), (256, 256, 15, 3840));
    let l = copy_layout((65, 1, 1), 4).unwrap();
    assert_eq!((l.packed, l.stride), (260, 512));
}
