//! The walkers over level 1 units.

use gigatoken::bpe::superword::Level1Units;
use gigatoken::pretokenize::fast::level1::{Level1Spans, Level1Walk};
use gigatoken::pretokenize::fast::r50k::R50kScheme;
use gigatoken::pretokenize::fast::scheme::Scheme;
use gigatoken::pretokenize::fast::superbpe_stage1::SuperBPEStage1Scheme;
use gigatoken::pretokenize::options::PretokenizerType;
use gigatoken::pretokenize::walker::{SpanBatch, PRETOKEN_CHUNK};

/// Both schemes `SuperwordPlan::build` can pick.
const SCHEMES: [PretokenizerType; 2] =
    [PretokenizerType::SuperBPEStage1, PretokenizerType::GPT2];

/// xorshift64: deterministic, dependency-free RNG for test inputs.
struct XorShift64(u64);

impl XorShift64 {
    fn next_u64(&mut self) -> u64 {
        self.0 ^= self.0 << 13;
        self.0 ^= self.0 >> 7;
        self.0 ^= self.0 << 17;
        self.0
    }
}

/// Unit lengths from the chunked fill — the path under test.
fn fill_lens(bytes: &[u8], scheme: PretokenizerType) -> Vec<usize> {
    fill_lens_counts(bytes, scheme).0
}

/// [`fill_lens`] plus the per-fill span counts, so a divergence can be
/// placed relative to the chunk boundaries.
///
/// Stops on a short fill, which only the last may be.
fn fill_lens_counts(bytes: &[u8], scheme: PretokenizerType) -> (Vec<usize>, Vec<usize>) {
    let mut spans = Level1Spans::new(bytes, scheme).expect("candidate scheme");
    let mut batch = SpanBatch::new();
    let mut lens = Vec::new();
    let mut counts = Vec::new();
    loop {
        let n = spans.fill_spans(&mut batch);
        for i in 0..n {
            lens.push(batch.span(i).len());
        }
        if n == 0 {
            return (lens, counts);
        }
        counts.push(n);
        if n < PRETOKEN_CHUNK {
            let covered: usize = lens.iter().sum();
            assert_eq!(
                covered,
                bytes.len(),
                "short fill ({n} < {PRETOKEN_CHUNK}) with {} of {} bytes consumed: \
                 PretokenSpans reads that as end of input",
                covered,
                bytes.len(),
            );
            return (lens, counts);
        }
    }
}

/// Unit lengths from `Level1Units`, the runtime-enum reference walker.
fn reference_lens(bytes: &[u8], scheme: PretokenizerType) -> Vec<usize> {
    let mut units = Level1Units::new(bytes, scheme);
    let mut lens = Vec::new();
    while let Some(u) = units.next() {
        lens.push(u.0.len());
    }
    lens
}

/// Unit lengths from [`Level1Walk`], the monomorphic one-at-a-time walk.
fn walk_lens(bytes: &[u8], scheme: PretokenizerType) -> Vec<usize> {
    fn collect<S: Scheme>(bytes: &[u8]) -> Vec<usize> {
        let mut walk = Level1Walk::<S>::new(0);
        let mut lens = Vec::new();
        let mut pos = 0usize;
        while let Some((start, end)) = walk.next_unit(bytes) {
            assert_eq!(start, pos, "units must be contiguous");
            assert!(end > start && end <= bytes.len(), "unit must advance in bounds");
            lens.push(end - start);
            pos = end;
        }
        assert_eq!(pos, bytes.len(), "units must cover the input");
        lens
    }
    match scheme {
        PretokenizerType::SuperBPEStage1 => {
            collect::<SuperBPEStage1Scheme>(bytes)
        }
        PretokenizerType::GPT2 => collect::<R50kScheme>(bytes),
        _ => unreachable!(),
    }
}

/// Inputs that exercise the fill's structure, not just prose: the u16
/// boundary window (>65 KB), the `PRETOKEN_CHUNK` refill, the 64-byte
/// batch grid, and each glue rule at scale — a digit run glues at
/// *every* one of its `\p{N}{1,3}` splits, so a long one leaves a chunk
/// with no unit boundary at all and must route through the scalar
/// fallback.
fn structural_cases() -> Vec<Vec<u8>> {
    let mut cases: Vec<Vec<u8>> = Vec::new();
    for case in [
        "",
        " ",
        "0",
        "'",
        "'s",
        "x!'s t",
        "a  b   c",
        "hello world 123 456",
        "don't 'st ''x 1'2",
        "हिन्दी текст 好 🙂\u{0301}",
        // Ordinary prose: what `superword_variants_agree` diverged on
        // while every hazard-shaped case above passed.
        "In the United States of the world, one of the most important \
         things is that the government of the people should be able to do it.",
        "def f():\n    return  1\n\n    # comment  here\n",
        "word  ,  word ;; word -- word",
        "1  2   34    567  8901",
    ] {
        cases.push(case.as_bytes().to_vec());
    }
    // Everything glues: no unit boundary in any chunk.
    cases.push("0".repeat(70_000).into_bytes());
    cases.push(" ".repeat(70_000).into_bytes());
    // One >65 KB pretoken, then ordinary text.
    cases.push(format!("{} tail", "a".repeat(70_000)).into_bytes());
    // Enough units to force several refills, with glue hazards in each.
    cases.push("don't 0 1 2  x'y ".repeat(2 * PRETOKEN_CHUNK).into_bytes());
    // The same span count at prose glue density, which is far lower:
    // how many units a harvest yields decides how many refill passes a
    // fill takes, and the hazard-dense case above exercises only one end
    // of that range.
    cases.push(
        "The quick brown fox jumps over the lazy dog, and it doesn't mind. "
            .repeat(PRETOKEN_CHUNK)
            .into_bytes(),
    );
    // Glue hazards straddling the 64-byte batch grid: an apostrophe or a
    // digit at every offset within a batch.
    for pad in 0..70 {
        cases.push(format!("{}'s 0 x", "a".repeat(pad)).into_bytes());
        cases.push(format!("{}  x", "b".repeat(pad)).into_bytes());
    }
    cases
}

/// The three walkers must agree unit for unit: the runtime-enum
/// reference (`Level1Units`), the monomorphic one-at-a-time walk
/// ([`Level1Walk`], the non-SIMD path and the fill's fallback), and the
/// chunked SIMD fill ([`Level1Fill`]).
///
/// Span lengths rather than tokens, so a divergence points at the walker
/// that produced it instead of at an encode two levels downstream.
#[test]
fn level1_walkers_agree_on_structural_cases() {
    for case in structural_cases() {
        for scheme in SCHEMES {
            let want = reference_lens(&case, scheme);
            assert_eq!(
                walk_lens(&case, scheme),
                want,
                "{scheme:?}: one-at-a-time walk diverged on {:?} (len {})",
                String::from_utf8_lossy(&case[..case.len().min(80)]),
                case.len(),
            );
            // Reported by unit index, byte offset and per-fill counts,
            // because the failure modes here are positional: whether
            // the first divergence lands on a `PRETOKEN_CHUNK` fill
            // boundary or inside one separates a chunk-carry bug from a
            // glue-rule bug, and it is invisible in a diff of two
            // thousand-element length vectors.
            let (got, counts) = fill_lens_counts(&case, scheme);
            if got != want {
                let k = (0..got.len().min(want.len()))
                    .find(|&k| got[k] != want[k])
                    .unwrap_or(got.len().min(want.len()));
                let off: usize = want[..k].iter().sum();
                panic!(
                    "{scheme:?}: two-phase fill diverged on {:?} (len {})\n  \
                     first differing unit #{k} at byte {off}: got {:?}, want {:?}\n  \
                     context {:?}\n  got  {:?}\n  want {:?}\n  per-fill counts {:?}",
                    String::from_utf8_lossy(&case[..case.len().min(60)]),
                    case.len(),
                    got.get(k),
                    want.get(k),
                    String::from_utf8_lossy(
                        &case[off.saturating_sub(20)..(off + 20).min(case.len())]
                    ),
                    &got[k.saturating_sub(4)..(k + 4).min(got.len())],
                    &want[k.saturating_sub(4)..(k + 4).min(want.len())],
                    &counts[..counts.len().min(8)],
                );
            }
        }
    }
}

/// The same three-way agreement on randomized input, including invalid
/// UTF-8 and truncated multi-byte tails. Both the glue predicate's
/// decode lanes and the harvest's bad zones key off those, and it is
/// exactly where a walker that reached for the scheme's scalar
/// `advance` would drift away from the scanner (module docs).
///
/// Spans are placed at the END of an exactly-sized allocation, so a
/// walker reading past the input is an observable out-of-bounds rather
/// than a silent pass.
#[test]
fn level1_walkers_agree_on_random_soup() {
    const CHARS: &[&str] = &[
        "é", "ü", "好", "日", "🙂", "ß", "—", "\u{0301}", "٣", "क", "\u{2028}", "\u{00a0}",
    ];
    let mut rng = XorShift64(0x9E37_79B9_7F4A_7C15);
    let iters = 1_500;
    for _ in 0..iters {
        let len = (rng.next_u64() % 400) as usize;
        let mut buf: Vec<u8> = Vec::with_capacity(len);
        while buf.len() < len {
            match rng.next_u64() % 10 {
                0..=3 => buf.push(b"abcXY z\n\t.,!?"[(rng.next_u64() % 13) as usize]),
                4..=5 => buf.push(b"0123456789"[(rng.next_u64() % 10) as usize]),
                6 => buf.push(b'\''),
                7 => buf.push(b' '),
                8 => buf.extend_from_slice(CHARS[(rng.next_u64() % 12) as usize].as_bytes()),
                _ => buf.push(rng.next_u64() as u8), // raw byte: invalid UTF-8
            }
        }
        buf.truncate(len);
        // Exactly-sized allocation, so an overrun is a real OOB.
        let exact: Box<[u8]> = buf.into_boxed_slice();
        for scheme in SCHEMES {
            let want = reference_lens(&exact, scheme);
            assert_eq!(
                walk_lens(&exact, scheme),
                want,
                "{scheme:?}: one-at-a-time walk diverged on {:?}",
                exact
            );
            assert_eq!(
                fill_lens(&exact, scheme),
                want,
                "{scheme:?}: two-phase fill diverged on {:?}",
                exact
            );
        }
    }
}
