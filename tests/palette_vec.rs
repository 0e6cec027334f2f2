use palettevec::index_buffer::fast::FastIndexBuffer;
use palettevec::index_buffer::{AlignedIndexBuffer, IndexBuffer};
use palettevec::palette::hybrid::HybridPalette;
use palettevec::palette::vec::VecPalette;
use palettevec::palette::Palette;
use palettevec::PaletteVec;
use rand::{Rng, SeedableRng};
use rand_chacha::ChaCha8Rng;

/// Controls the amount of iterations that RNG tests do.
/// 0.0 means 0 iterations, 1.0 means base line,
/// 2.0 means twice the base line etc.
const RNG_TEST_EXTENSIVENESS: f64 = 1.0;

fn calc_rng_iterations(base: usize) -> usize {
    (base as f64 * RNG_TEST_EXTENSIVENESS) as usize
}




fn test_palette_vec_new<P, B>()
where
    P: Palette<i32>,
    B: IndexBuffer,
{
    for _ in 0..100 {
        let _: PaletteVec<i32, P, B> = PaletteVec::new();
    }
}

fn test_palette_vec_push_pop<P, B>(iteration_count: u32)
where
    P: Palette<u32>,
    B: IndexBuffer,
{
    let mut pv: PaletteVec<u32, P, B> = PaletteVec::new();
    assert_eq!(pv.pop(), None);

    // Push
    for _ in 0..iteration_count {
        pv.push(1);
    }
    for _ in (0..iteration_count).rev() {
        assert_eq!(pv.pop(), Some(1));
    }
    assert_eq!(pv.pop(), None);
    for i in 0..iteration_count {
        pv.push(i % 69);
    }
    for i in (0..iteration_count).rev() {
        assert_eq!(pv.pop(), Some(i % 69));
    }
    assert_eq!(pv.pop(), None);
}

fn test_palette_vec_push_ref_pop<P, B>(iteration_count: u32)
where
    P: Palette<u32>,
    B: IndexBuffer,
{
    let mut pv: PaletteVec<u32, P, B> = PaletteVec::new();
    assert_eq!(pv.pop(), None);

    // Push_ref
    for _ in 0..iteration_count {
        pv.push_ref(&1);
    }
    for _ in (0..iteration_count).rev() {
        assert_eq!(pv.pop(), Some(1));
    }
    assert_eq!(pv.pop(), None);
    for i in 0..iteration_count {
        pv.push_ref(&(i % 69));
    }
    for i in (0..iteration_count).rev() {
        assert_eq!(pv.pop(), Some(i % 69));
    }
    assert_eq!(pv.pop(), None);
}

fn test_palette_vec_len<P, B>(iteration_count: usize)
where
    P: Palette<u32>,
    B: IndexBuffer,
{
    let mut pv: PaletteVec<u32, P, B> = PaletteVec::new();
    assert_eq!(pv.pop(), None);
    assert!(pv.is_empty());
    assert_eq!(pv.len(), 0);
    for i in 1..iteration_count + 1 {
        pv.push(0);
        assert_eq!(pv.len(), i);
        assert!(!pv.is_empty());
    }
    for i in (0..iteration_count).rev() {
        pv.pop();
        assert_eq!(pv.len(), i);
    }
    assert_eq!(pv.len(), 0);
    assert!(pv.is_empty());
}

fn test_palette_vec_unique_values<P, B>(amount_unique_values: usize, iteration_count: usize)
where
    P: Palette<u32>,
    B: IndexBuffer,
{
    assert!(
        amount_unique_values < iteration_count,
        "amount_unique_values must be less than iteration_count"
    );
    let mut pv: PaletteVec<u32, P, B> = PaletteVec::new();
    assert_eq!(pv.pop(), None);
    assert_eq!(pv.len(), 0);
    assert_eq!(pv.unique_values(), 0);
    for i in 0..iteration_count {
        let value = i % amount_unique_values;
        pv.push(value as u32);
        if i < amount_unique_values {
            assert_eq!(pv.unique_values(), i + 1);
        }
    }
    assert_eq!(pv.unique_values(), amount_unique_values);
    for _ in 0..iteration_count {
        pv.pop();
    }
}

fn test_palette_vec_set<P, B>(amount_unique_values: usize, iteration_count: usize)
where
    P: Palette<u32>,
    B: IndexBuffer,
{
    assert!(
        amount_unique_values < iteration_count,
        "amount_unique_values must be less than iteration_count"
    );
    let mut pv: PaletteVec<u32, P, B> = PaletteVec::new();
    assert_eq!(pv.pop(), None);
    assert_eq!(pv.len(), 0);
    assert_eq!(pv.unique_values(), 0);
    for i in 0..iteration_count {
        let value = i % amount_unique_values;
        pv.push(value as u32);
    }
    for i in 0..iteration_count {
        let value = (i + 1) % amount_unique_values;
        pv.set(i as usize, &(value as u32));
    }
    for i in (0..iteration_count).rev() {
        let value = (i + 1) % amount_unique_values;
        assert_eq!(pv.pop(), Some(value as u32));
    }
    assert_eq!(pv.pop(), None);
    assert_eq!(pv.len(), 0);
    assert_eq!(pv.unique_values(), 0);
    for i in 0..iteration_count {
        let value = i % amount_unique_values;
        pv.push(value as u32);
    }
    for i in 0..iteration_count {
        pv.set(i as usize, &0);
    }
    for _ in 0..iteration_count {
        assert_eq!(pv.pop(), Some(0));
    }
    assert_eq!(pv.pop(), None);
    assert_eq!(pv.len(), 0);
    assert_eq!(pv.unique_values(), 0);

    // Set with unique values
    let mut pv: PaletteVec<u32, P, B> = PaletteVec::new();
    for _ in 0..iteration_count {
        pv.push(0);
    }
    for i in 0..iteration_count {
        let value = i % amount_unique_values;
        pv.set(i as usize, &(value as u32));
        assert_eq!(pv.get(i), Some(&(value as u32)));
    }
    for i in (0..iteration_count).rev() {
        let value = i % amount_unique_values;
        assert_eq!(pv.pop(), Some(value as u32));
    }
    for i in 0..iteration_count {
        assert_eq!(pv.get(i), None);
    }
    assert_eq!(pv.pop(), None);
    assert_eq!(pv.len(), 0);
    assert_eq!(pv.unique_values(), 0);
}

fn test_palette_vec_get<P, B>(amount_unique_values: usize, iteration_count: usize)
where
    P: Palette<u32>,
    B: IndexBuffer,
{
    let mut pv: PaletteVec<u32, P, B> = PaletteVec::new();
    assert_eq!(pv.pop(), None);
    assert_eq!(pv.len(), 0);
    assert_eq!(pv.unique_values(), 0);
    for i in 0..iteration_count {
        let value = i % amount_unique_values;
        pv.push(value as u32);
        assert_eq!(pv.get(i), Some(&(value as u32)));
    }
    for i in 0..iteration_count {
        let value = i % amount_unique_values;
        assert_eq!(pv.get(i), Some(&(value as u32)));
    }
}

fn test_palette_vec_filled<P, B>(iteration_count: usize)
where
    P: Palette<u32>,
    B: IndexBuffer,
{
    let mut pv: PaletteVec<u32, P, B> = PaletteVec::filled(7, iteration_count);
    for i in 0..iteration_count {
        assert_eq!(pv.get(i), Some(&7));
    }
    assert_eq!(pv.get(iteration_count), None);
    for i in 0..iteration_count {
        let value = i % 11;
        pv.set(i as usize, &(value as u32));
        assert_eq!(pv.get(i), Some(&(value as u32)));
    }
}

fn test_palette_vec_optimize<P, B>(iteration_count: usize)
where
    P: Palette<u32>,
    B: IndexBuffer,
{
    assert!(
        iteration_count > 77,
        "For this test, iteration_count needs to be > 77"
    );
    let mut pv: PaletteVec<u32, P, B> = PaletteVec::filled(7, iteration_count);
    assert_eq!(pv.unique_values(), 1);
    assert_eq!(pv.len(), iteration_count);
    pv.optimize();
    assert_eq!(pv.unique_values(), 1);
    assert_eq!(pv.len(), iteration_count);
    pv.set(0, &6);
    assert_eq!(pv.unique_values(), 2);
    assert_eq!(pv.len(), iteration_count);
    pv.optimize();
    assert_eq!(pv.unique_values(), 2);
    assert_eq!(pv.len(), iteration_count);
    for i in 0..iteration_count {
        pv.set(i as usize, &(i as u32 % 77));
    }
    assert_eq!(pv.unique_values(), 77);
    assert_eq!(pv.len(), iteration_count);
    pv.optimize();
    assert_eq!(pv.unique_values(), 77);
    assert_eq!(pv.len(), iteration_count);
    for i in 0..iteration_count {
        assert_eq!(pv.get(i), Some(&(i as u32 % 77)));
    }
    for i in 0..iteration_count {
        if (i % 77) % 3 == 0 {
            pv.set(i as usize, &0);
        }
    }
    assert_eq!(pv.unique_values(), 52);
    assert_eq!(pv.len(), iteration_count);
    pv.optimize();
    assert_eq!(pv.unique_values(), 52);
    assert_eq!(pv.len(), iteration_count);
    for i in 0..iteration_count {
        if (i % 77) % 3 == 0 {
            assert_eq!(pv.get(i), Some(&0));
        } else {
            assert_eq!(pv.get(i), Some(&(i as u32 % 77)));
        }
    }
    for i in 0..iteration_count {
        if (i % 77) % 2 == 0 {
            pv.set(i as usize, &0);
        }
    }
    assert_eq!(pv.unique_values(), 26);
    assert_eq!(pv.len(), iteration_count);
    pv.optimize();
    assert_eq!(pv.unique_values(), 26);
    assert_eq!(pv.len(), iteration_count);
    for i in 0..iteration_count {
        if ((i % 77) % 3) == 0 || ((i % 77) % 2) == 0 {
            assert_eq!(pv.get(i), Some(&0));
        } else {
            assert_eq!(pv.get(i), Some(&(i as u32 % 77)));
        }
    }
    for _ in 0..10 {
        pv.optimize();
    }
    assert_eq!(pv.unique_values(), 26);
    assert_eq!(pv.len(), iteration_count);
    for i in 0..iteration_count {
        if ((i % 77) % 3) == 0 || ((i % 77) % 2) == 0 {
            assert_eq!(pv.get(i), Some(&0));
        } else {
            assert_eq!(pv.get(i), Some(&(i as u32 % 77)));
        }
    }
}

fn test_palette_vec_rng_operations<P, B>(seed: u64, iteration_count: usize)
where
    P: Palette<u32>,
    B: IndexBuffer,
{
    let iteration_count = calc_rng_iterations(iteration_count);
    let mut rng = ChaCha8Rng::seed_from_u64(seed);
    let mut pv: PaletteVec<u32, P, B> = PaletteVec::filled(89, 3);
    let mut control = vec![89; 3];
    let max_elem = 333;

    for _ in 0..iteration_count {
        if rng.random_bool(0.01) {
            pv.optimize();
        }
        if rng.random_bool(0.2) {
            let n = rng.random_range(0..max_elem);
            pv.push(n);
            control.push(n);
        }
        if rng.random_bool(0.2) {
            let n = rng.random_range(0..max_elem);
            pv.push_ref(&n);
            control.push(n);
        }
        if rng.random_bool(0.33) {
            assert_eq!(pv.pop(), control.pop());
        }
        if rng.random_bool(0.5) && pv.len() > 0 {
            let index = rng.random_range(0..pv.len());
            let n = rng.random_range(0..max_elem);
            pv.set(index, &n);
            control[index] = n;
        }
        if rng.random_bool(0.5) && pv.len() > 0 {
            let index = rng.random_range(0..pv.len());
            assert_eq!(pv.get(index), control.get(index));
        }
    }
    while let Some(value) = pv.pop() {
        assert!(value < max_elem);
        assert_eq!(value, control.pop().unwrap());
    }
}

fn test_palette_vec_iter<P, B>(amount_unique_values: usize, iteration_count: usize)
where
    P: Palette<u32>,
    B: IndexBuffer,
{
    let mut pv: PaletteVec<u32, P, B> = PaletteVec::new();
    assert!(pv.is_empty());
    for i in 0..iteration_count {
        let value = i % amount_unique_values;
        pv.push(value as u32);
    }
    let mut iter = pv.iter();
    let mut i = 0;
    while let Some(value) = iter.next() {
        assert_eq!(*value as usize, i % amount_unique_values);
        i += 1;
    }
    assert_eq!(i, iteration_count);
}



#[test]
fn base_base_palette_vec_new() {
    test_palette_vec_new::<HybridPalette<0, i32>, AlignedIndexBuffer>();
    test_palette_vec_new::<HybridPalette<1, i32>, AlignedIndexBuffer>();
    test_palette_vec_new::<HybridPalette<2, i32>, AlignedIndexBuffer>();
    test_palette_vec_new::<HybridPalette<3, i32>, AlignedIndexBuffer>();
    test_palette_vec_new::<HybridPalette<4, i32>, AlignedIndexBuffer>();
    test_palette_vec_new::<HybridPalette<17, i32>, AlignedIndexBuffer>();
    test_palette_vec_new::<HybridPalette<49, i32>, AlignedIndexBuffer>();
    test_palette_vec_new::<HybridPalette<199, i32>, AlignedIndexBuffer>();
    test_palette_vec_new::<HybridPalette<333, i32>, AlignedIndexBuffer>();
}

#[test]
fn base_base_palette_vec_push_pop() {
    test_palette_vec_push_pop::<HybridPalette<0, u32>, AlignedIndexBuffer>(3333);
    test_palette_vec_push_pop::<HybridPalette<1, u32>, AlignedIndexBuffer>(3333);
    test_palette_vec_push_pop::<HybridPalette<2, u32>, AlignedIndexBuffer>(3333);
    test_palette_vec_push_pop::<HybridPalette<3, u32>, AlignedIndexBuffer>(3333);
    test_palette_vec_push_pop::<HybridPalette<4, u32>, AlignedIndexBuffer>(3333);
    test_palette_vec_push_pop::<HybridPalette<17, u32>, AlignedIndexBuffer>(3333);
    test_palette_vec_push_pop::<HybridPalette<49, u32>, AlignedIndexBuffer>(3333);
    test_palette_vec_push_pop::<HybridPalette<199, u32>, AlignedIndexBuffer>(3333);
    test_palette_vec_push_pop::<HybridPalette<333, u32>, AlignedIndexBuffer>(3333);
    test_palette_vec_push_pop::<HybridPalette<16, u32>, AlignedIndexBuffer>(3333);
}

#[test]
fn base_base_palette_vec_push_ref_pop() {
    test_palette_vec_push_ref_pop::<HybridPalette<0, u32>, AlignedIndexBuffer>(3333);
    test_palette_vec_push_ref_pop::<HybridPalette<1, u32>, AlignedIndexBuffer>(3333);
    test_palette_vec_push_ref_pop::<HybridPalette<2, u32>, AlignedIndexBuffer>(3333);
    test_palette_vec_push_ref_pop::<HybridPalette<3, u32>, AlignedIndexBuffer>(3333);
    test_palette_vec_push_ref_pop::<HybridPalette<4, u32>, AlignedIndexBuffer>(3333);
    test_palette_vec_push_ref_pop::<HybridPalette<17, u32>, AlignedIndexBuffer>(3333);
    test_palette_vec_push_ref_pop::<HybridPalette<49, u32>, AlignedIndexBuffer>(3333);
    test_palette_vec_push_ref_pop::<HybridPalette<199, u32>, AlignedIndexBuffer>(3333);
    test_palette_vec_push_ref_pop::<HybridPalette<333, u32>, AlignedIndexBuffer>(3333);
    test_palette_vec_push_ref_pop::<HybridPalette<16, u32>, AlignedIndexBuffer>(3333);
}

#[test]
fn base_base_palette_vec_len() {
    test_palette_vec_len::<HybridPalette<0, u32>, AlignedIndexBuffer>(3333);
    test_palette_vec_len::<HybridPalette<1, u32>, AlignedIndexBuffer>(3333);
    test_palette_vec_len::<HybridPalette<2, u32>, AlignedIndexBuffer>(3333);
    test_palette_vec_len::<HybridPalette<3, u32>, AlignedIndexBuffer>(3333);
    test_palette_vec_len::<HybridPalette<4, u32>, AlignedIndexBuffer>(3333);
    test_palette_vec_len::<HybridPalette<17, u32>, AlignedIndexBuffer>(3333);
    test_palette_vec_len::<HybridPalette<49, u32>, AlignedIndexBuffer>(3333);
    test_palette_vec_len::<HybridPalette<199, u32>, AlignedIndexBuffer>(3333);
    test_palette_vec_len::<HybridPalette<333, u32>, AlignedIndexBuffer>(3333);
    test_palette_vec_len::<HybridPalette<16, u32>, AlignedIndexBuffer>(3333);
}

#[test]
fn base_base_palette_vec_unique_values() {
    test_palette_vec_unique_values::<HybridPalette<0, u32>, AlignedIndexBuffer>(445, 3333);
    test_palette_vec_unique_values::<HybridPalette<1, u32>, AlignedIndexBuffer>(445, 3333);
    test_palette_vec_unique_values::<HybridPalette<2, u32>, AlignedIndexBuffer>(445, 3333);
    test_palette_vec_unique_values::<HybridPalette<3, u32>, AlignedIndexBuffer>(445, 3333);
    test_palette_vec_unique_values::<HybridPalette<4, u32>, AlignedIndexBuffer>(445, 3333);
    test_palette_vec_unique_values::<HybridPalette<17, u32>, AlignedIndexBuffer>(445, 3333);
    test_palette_vec_unique_values::<HybridPalette<49, u32>, AlignedIndexBuffer>(445, 3333);
    test_palette_vec_unique_values::<HybridPalette<199, u32>, AlignedIndexBuffer>(445, 3333);
    test_palette_vec_unique_values::<HybridPalette<333, u32>, AlignedIndexBuffer>(445, 3333);
    test_palette_vec_unique_values::<HybridPalette<16, u32>, AlignedIndexBuffer>(445, 3333);
}

#[test]
fn base_base_palette_vec_set() {
    test_palette_vec_set::<HybridPalette<0, u32>, AlignedIndexBuffer>(32, 3333);
    test_palette_vec_set::<HybridPalette<1, u32>, AlignedIndexBuffer>(444, 3333);
    test_palette_vec_set::<HybridPalette<2, u32>, AlignedIndexBuffer>(23, 3333);
    test_palette_vec_set::<HybridPalette<3, u32>, AlignedIndexBuffer>(5, 3333);
    test_palette_vec_set::<HybridPalette<4, u32>, AlignedIndexBuffer>(76, 3333);
    test_palette_vec_set::<HybridPalette<17, u32>, AlignedIndexBuffer>(7, 3333);
    test_palette_vec_set::<HybridPalette<49, u32>, AlignedIndexBuffer>(112, 3333);
    test_palette_vec_set::<HybridPalette<199, u32>, AlignedIndexBuffer>(445, 3333);
    test_palette_vec_set::<HybridPalette<333, u32>, AlignedIndexBuffer>(444, 3333);
    test_palette_vec_set::<HybridPalette<16, u32>, AlignedIndexBuffer>(31, 3333);
}

#[test]
fn base_base_palette_vec_get() {
    test_palette_vec_get::<HybridPalette<0, u32>, AlignedIndexBuffer>(32, 3333);
    test_palette_vec_get::<HybridPalette<1, u32>, AlignedIndexBuffer>(444, 3333);
    test_palette_vec_get::<HybridPalette<2, u32>, AlignedIndexBuffer>(23, 3333);
    test_palette_vec_get::<HybridPalette<3, u32>, AlignedIndexBuffer>(5, 3333);
    test_palette_vec_get::<HybridPalette<4, u32>, AlignedIndexBuffer>(76, 3333);
    test_palette_vec_get::<HybridPalette<17, u32>, AlignedIndexBuffer>(7, 3333);
    test_palette_vec_get::<HybridPalette<49, u32>, AlignedIndexBuffer>(112, 3333);
    test_palette_vec_get::<HybridPalette<199, u32>, AlignedIndexBuffer>(445, 3333);
    test_palette_vec_get::<HybridPalette<333, u32>, AlignedIndexBuffer>(444, 3333);
    test_palette_vec_get::<HybridPalette<16, u32>, AlignedIndexBuffer>(31, 3333);
}

#[test]
fn base_base_palette_vec_filled() {
    test_palette_vec_filled::<HybridPalette<0, u32>, AlignedIndexBuffer>(3333);
    test_palette_vec_filled::<HybridPalette<1, u32>, AlignedIndexBuffer>(3333);
    test_palette_vec_filled::<HybridPalette<2, u32>, AlignedIndexBuffer>(3333);
    test_palette_vec_filled::<HybridPalette<3, u32>, AlignedIndexBuffer>(3333);
    test_palette_vec_filled::<HybridPalette<4, u32>, AlignedIndexBuffer>(3333);
    test_palette_vec_filled::<HybridPalette<17, u32>, AlignedIndexBuffer>(3333);
    test_palette_vec_filled::<HybridPalette<49, u32>, AlignedIndexBuffer>(3333);
    test_palette_vec_filled::<HybridPalette<199, u32>, AlignedIndexBuffer>(3333);
    test_palette_vec_filled::<HybridPalette<333, u32>, AlignedIndexBuffer>(3333);
    test_palette_vec_filled::<HybridPalette<16, u32>, AlignedIndexBuffer>(3333);
}

#[test]
fn base_base_palette_vec_optimize() {
    test_palette_vec_optimize::<HybridPalette<0, u32>, AlignedIndexBuffer>(7333);
    test_palette_vec_optimize::<HybridPalette<1, u32>, AlignedIndexBuffer>(7333);
    test_palette_vec_optimize::<HybridPalette<2, u32>, AlignedIndexBuffer>(7333);
    test_palette_vec_optimize::<HybridPalette<3, u32>, AlignedIndexBuffer>(7333);
    test_palette_vec_optimize::<HybridPalette<4, u32>, AlignedIndexBuffer>(7333);
    test_palette_vec_optimize::<HybridPalette<17, u32>, AlignedIndexBuffer>(7333);
    test_palette_vec_optimize::<HybridPalette<49, u32>, AlignedIndexBuffer>(7333);
    test_palette_vec_optimize::<HybridPalette<199, u32>, AlignedIndexBuffer>(7333);
    test_palette_vec_optimize::<HybridPalette<333, u32>, AlignedIndexBuffer>(7333);
    test_palette_vec_optimize::<HybridPalette<16, u32>, AlignedIndexBuffer>(7333);
}

#[test]
fn base_palette_vec_rng_operations() {
    let mut rng = ChaCha8Rng::seed_from_u64(492384923941);
    for _ in 0..calc_rng_iterations(32) {
        let seed = rng.random();
        test_palette_vec_rng_operations::<HybridPalette<0, u32>, AlignedIndexBuffer>(seed, 7333);
        test_palette_vec_rng_operations::<HybridPalette<1, u32>, AlignedIndexBuffer>(seed, 7333);
        test_palette_vec_rng_operations::<HybridPalette<2, u32>, AlignedIndexBuffer>(seed, 7333);
        test_palette_vec_rng_operations::<HybridPalette<3, u32>, AlignedIndexBuffer>(seed, 7333);
        test_palette_vec_rng_operations::<HybridPalette<4, u32>, AlignedIndexBuffer>(seed, 7333);
        test_palette_vec_rng_operations::<HybridPalette<7, u32>, AlignedIndexBuffer>(seed, 7333);
        test_palette_vec_rng_operations::<HybridPalette<17, u32>, AlignedIndexBuffer>(seed, 7333);
        test_palette_vec_rng_operations::<HybridPalette<49, u32>, AlignedIndexBuffer>(seed, 7333);
        test_palette_vec_rng_operations::<HybridPalette<199, u32>, AlignedIndexBuffer>(seed, 7333);
        test_palette_vec_rng_operations::<HybridPalette<33, u32>, AlignedIndexBuffer>(seed, 7333);
        test_palette_vec_rng_operations::<HybridPalette<8, u32>, AlignedIndexBuffer>(seed, 7333);
    }
}

#[test]
fn base_palette_vec_iter() {
    test_palette_vec_iter::<HybridPalette<0, u32>, AlignedIndexBuffer>(1, 1337);
    test_palette_vec_iter::<HybridPalette<0, u32>, AlignedIndexBuffer>(2, 1337);
    test_palette_vec_iter::<HybridPalette<0, u32>, AlignedIndexBuffer>(3, 1337);
    test_palette_vec_iter::<HybridPalette<0, u32>, AlignedIndexBuffer>(4, 1337);
    test_palette_vec_iter::<HybridPalette<0, u32>, AlignedIndexBuffer>(5, 1337);
    test_palette_vec_iter::<HybridPalette<0, u32>, AlignedIndexBuffer>(6, 1337);
    test_palette_vec_iter::<HybridPalette<0, u32>, AlignedIndexBuffer>(7, 1337);
    test_palette_vec_iter::<HybridPalette<0, u32>, AlignedIndexBuffer>(8, 1337);
    test_palette_vec_iter::<HybridPalette<0, u32>, AlignedIndexBuffer>(9, 1337);
    test_palette_vec_iter::<HybridPalette<0, u32>, AlignedIndexBuffer>(10, 1337);
    test_palette_vec_iter::<HybridPalette<0, u32>, AlignedIndexBuffer>(16, 1337);
    test_palette_vec_iter::<HybridPalette<0, u32>, AlignedIndexBuffer>(32, 1337);
    test_palette_vec_iter::<HybridPalette<0, u32>, AlignedIndexBuffer>(33, 1337);
    test_palette_vec_iter::<HybridPalette<0, u32>, AlignedIndexBuffer>(100, 1337);
    test_palette_vec_iter::<HybridPalette<0, u32>, AlignedIndexBuffer>(1000, 1337);
}



#[test]
fn fast_base_palette_vec_new() {
    test_palette_vec_new::<VecPalette<i32>, FastIndexBuffer>();
}

#[test]
fn fast_base_palette_vec_push_pop() {
    test_palette_vec_push_pop::<VecPalette<u32>, FastIndexBuffer>(3333);
}

#[test]
fn fast_base_palette_vec_push_ref_pop() {
    test_palette_vec_push_ref_pop::<VecPalette<u32>, FastIndexBuffer>(3333);
}

#[test]
fn fast_base_palette_vec_len() {
    test_palette_vec_len::<VecPalette<u32>, FastIndexBuffer>(3333);
}

#[test]
fn fast_base_palette_vec_unique_values() {
    test_palette_vec_unique_values::<VecPalette<u32>, FastIndexBuffer>(445, 3333);
}

#[test]
fn fast_base_palette_vec_set() {
    test_palette_vec_set::<VecPalette<u32>, FastIndexBuffer>(32, 3333);
}

#[test]
fn fast_base_palette_vec_get() {
    test_palette_vec_get::<VecPalette<u32>, FastIndexBuffer>(32, 3333);
}

#[test]
fn fast_base_palette_vec_filled() {
    test_palette_vec_filled::<VecPalette<u32>, FastIndexBuffer>(3333);
}

#[test]
fn fast_base_palette_vec_optimize() {
    test_palette_vec_optimize::<VecPalette<u32>, FastIndexBuffer>(7333);
}

#[test]
fn fast_palette_vec_rng_operations() {
    let mut rng = ChaCha8Rng::seed_from_u64(492384923941);
    for _ in 0..calc_rng_iterations(32) {
        let seed = rng.random();
        test_palette_vec_rng_operations::<VecPalette<u32>, FastIndexBuffer>(seed, 7333);
    }
}

#[test]
fn fast_palette_vec_iter() {
    test_palette_vec_iter::<VecPalette<u32>, FastIndexBuffer>(1, 1337);
}


