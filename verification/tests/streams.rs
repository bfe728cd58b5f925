use gemini::field::Scalar;
use gemini::iterable::{read, skip, take_chunk, Cursor, Iterable, Reverse};
use gemini::misc::{ceil_div, copy_of, evaluate_be, pow2_usize};
use gemini::sumcheck::streams::FoldedPolynomialStream;
use gemini::sumcheck::time_prover::fold_polynomial;
use gemini::sumcheck::tree::FoldedPolynomialTree;

fn scalars(values: &[u64]) -> Vec<Scalar> {
    values.iter().map(|v| Scalar::from_u64(*v)).collect()
}

fn collect<T, C: Cursor<T>>(mut cursor: C) -> Vec<T> {
    let mut items = Vec::new();
    while let Some(x) = cursor.next() {
        items.push(x);
    }
    items
}

/// The polynomial, given by degree, folded with each challenge in turn.
fn fold_all(by_degree: &[Scalar], challenges: &[Scalar]) -> Vec<Scalar> {
    let mut w = by_degree.to_vec();
    for c in challenges {
        w = fold_polynomial(&w, c);
    }
    w
}

fn reversed(v: &[Scalar]) -> Vec<Scalar> {
    v.iter().rev().cloned().collect()
}

fn all<T, S: Iterable<T>>(stream: &S) -> Vec<T> {
    collect(stream.iter())
}

#[test]
fn a_slice_is_read_from_its_first_item() {
    let v = scalars(&[1, 2, 3, 4, 5]);
    let s = &v[..];
    assert_eq!(Iterable::len(&s), 5);
    let mut c = Iterable::iter(&s);
    assert_eq!(c.next(), Some(Scalar::from_u64(1)));
    assert_eq!(c.advance_by(2), Ok(()));
    assert_eq!(c.next(), Some(Scalar::from_u64(4)));
    assert_eq!(c.advance_by(3), Err(2));
    assert_eq!(c.next(), None);
    // a second cursor starts at the beginning again
    assert_eq!(all(&s), v);
    assert_eq!(all(&s), v);
}

#[test]
fn a_reversed_slice_is_read_from_its_last_item() {
    let v = scalars(&[1, 2, 3, 4, 5]);
    let r = Reverse(&v[..]);
    assert_eq!(r.len(), 5);
    assert_eq!(collect(r.iter()), scalars(&[5, 4, 3, 2, 1]));
    let mut c = r.iter();
    assert_eq!(c.advance_by(4), Ok(()));
    assert_eq!(c.next(), Some(Scalar::from_u64(1)));
    assert_eq!(c.next(), None);
    assert_eq!(c.advance_by(0), Ok(()));
    assert_eq!(c.advance_by(1), Err(1));
    let empty: Vec<Scalar> = Vec::new();
    assert_eq!(collect(Reverse(&empty[..]).iter()), empty);
}

#[test]
fn chunks_are_taken_up_to_the_limit() {
    let v = scalars(&[1, 2, 3, 4, 5]);
    let s = &v[..];
    let mut c = Iterable::iter(&s);
    assert_eq!(take_chunk(&mut c, 2), scalars(&[1, 2]));
    assert_eq!(take_chunk(&mut c, 0), scalars(&[]));
    assert_eq!(take_chunk(&mut c, 7), scalars(&[3, 4, 5]));
    assert_eq!(take_chunk(&mut c, 7), scalars(&[]));
}

#[test]
fn items_are_read_and_passed_over() {
    let v = scalars(&[1, 2, 3, 4, 5]);
    let s = &v[..];
    let mut c = Iterable::iter(&s);
    assert_eq!(read(&mut c), Scalar::from_u64(1));
    skip(&mut c, 0);
    assert_eq!(read(&mut c), Scalar::from_u64(2));
    skip(&mut c, 2);
    assert_eq!(read(&mut c), Scalar::from_u64(5));
    skip(&mut c, 0);
    assert_eq!(c.next(), None);
}

#[test]
fn helpers_on_machine_words() {
    assert_eq!(ceil_div(0, 4), 0);
    assert_eq!(ceil_div(8, 4), 2);
    assert_eq!(ceil_div(9, 4), 3);
    assert_eq!(ceil_div(usize::MAX, 1), usize::MAX);
    assert_eq!(ceil_div(usize::MAX, 2), usize::MAX / 2 + 1);
    assert_eq!(pow2_usize(0), 1);
    assert_eq!(pow2_usize(20), 1 << 20);
    assert_eq!(copy_of(&[3u8, 1, 2]), vec![3u8, 1, 2]);
}

#[test]
fn evaluation_reads_the_highest_degree_first() {
    // 2 x^2 + 3 x + 5 at 10
    let p = scalars(&[2, 3, 5]);
    assert_eq!(evaluate_be(&p, &Scalar::from_u64(10)), Scalar::from_u64(235));
    assert_eq!(evaluate_be(&[], &Scalar::from_u64(10)), Scalar::zero());
    assert_eq!(evaluate_be(&p, &Scalar::zero()), Scalar::from_u64(5));
}

#[test]
fn folding_once_combines_neighbours() {
    // by degree: 1 + 2x + 3x^2 + 4x^3 + 5x^4, challenge 10
    let f = scalars(&[1, 2, 3, 4, 5]);
    let w = fold_polynomial(&f, &Scalar::from_u64(10));
    assert_eq!(w, scalars(&[21, 43, 5]));
    assert_eq!(fold_polynomial(&[], &Scalar::from_u64(10)), scalars(&[]));
    assert_eq!(fold_polynomial(&scalars(&[7]), &Scalar::from_u64(10)), scalars(&[7]));
}

#[test]
fn the_folded_stream_is_the_polynomial_folded_in_memory() {
    let challenges = scalars(&[10, 100, 1000, 7]);
    for n in 0..20usize {
        let by_degree: Vec<Scalar> = (0..n as u64).map(|i| Scalar::from_u64(3 * i + 1)).collect();
        let stream_order = reversed(&by_degree);
        let base = &stream_order[..];
        for k in 0..=challenges.len() {
            let folded = FoldedPolynomialStream::new(&base, &challenges[..k]);
            let expected = reversed(&fold_all(&by_degree, &challenges[..k]));
            assert_eq!(folded.len(), expected.len());
            assert_eq!(folded.len(), ceil_div(n, 1 << k));
            assert_eq!(collect(folded.iter()), expected);
            // the stream can be read again
            assert_eq!(collect(folded.iter()), expected);
        }
    }
}

#[test]
fn the_folded_stream_of_eight_coefficients() {
    // stream order, highest degree first: 8 7 6 5 4 3 2 1
    let v = scalars(&[8, 7, 6, 5, 4, 3, 2, 1]);
    let base = &v[..];
    let challenges = scalars(&[10, 100]);
    let once = FoldedPolynomialStream::new(&base, &challenges[..1]);
    assert_eq!(collect(once.iter()), scalars(&[87, 65, 43, 21]));
    let twice = FoldedPolynomialStream::new(&base, &challenges[..]);
    assert_eq!(collect(twice.iter()), scalars(&[8765, 4321]));
    let mut c = twice.iter();
    assert_eq!(c.advance_by(1), Ok(()));
    assert_eq!(c.next(), Some(Scalar::from_u64(4321)));
    assert_eq!(c.advance_by(2), Err(2));
}

#[test]
fn the_tree_gives_every_level_in_the_order_of_its_stream() {
    let challenges = scalars(&[10, 100, 1000]);
    for n in 0..20usize {
        let by_degree: Vec<Scalar> = (0..n as u64).map(|i| Scalar::from_u64(5 * i + 2)).collect();
        let stream_order = reversed(&by_degree);
        let base = &stream_order[..];
        for k in 0..=challenges.len() {
            let tree = FoldedPolynomialTree::new(&base, &challenges[..k]);
            assert_eq!(tree.depth(), k);
            assert_eq!(tree.len(), n);
            let items = collect(tree.iter());
            let mut total = 0;
            for level in 1..=k {
                let of_level: Vec<Scalar> = items
                    .iter()
                    .filter(|(l, _)| *l == level)
                    .map(|(_, x)| *x)
                    .collect();
                let expected = reversed(&fold_all(&by_degree, &challenges[..level]));
                assert_eq!(of_level, expected);
                total += expected.len();
            }
            assert_eq!(items.len(), total);
        }
    }
}

#[test]
fn the_tree_of_four_coefficients() {
    let v = scalars(&[4, 3, 2, 1]);
    let base = &v[..];
    let challenges = scalars(&[10, 100]);
    let tree = FoldedPolynomialTree::new(&base, &challenges[..]);
    let items = collect(tree.iter());
    assert_eq!(
        items,
        vec![
            (1, Scalar::from_u64(43)),
            (1, Scalar::from_u64(21)),
            (2, Scalar::from_u64(4321)),
        ]
    );
    let mut c = tree.iter();
    assert_eq!(c.advance_by(2), Ok(()));
    assert_eq!(c.next(), Some((2, Scalar::from_u64(4321))));
    assert_eq!(c.advance_by(1), Err(1));
}

/// The items of block `j` of level `l`: those of its upper half, those of its
/// lower half, then the coefficient of the block.
fn subtree(levels: &[Vec<Scalar>], n: usize, l: usize, j: usize, items: &mut Vec<(usize, Scalar)>) {
    if l == 0 || (j << l) >= n {
        return;
    }
    subtree(levels, n, l - 1, 2 * j + 1, items);
    subtree(levels, n, l - 1, 2 * j, items);
    items.push((l, levels[l][j]));
}

#[test]
fn the_tree_gives_a_block_after_its_two_halves() {
    let challenges = scalars(&[10, 100, 1000, 3]);
    for n in 0..40usize {
        let by_degree: Vec<Scalar> = (0..n as u64).map(|i| Scalar::from_u64(7 * i + 2)).collect();
        let stream_order = reversed(&by_degree);
        let base = &stream_order[..];
        for k in 0..=challenges.len() {
            let levels: Vec<Vec<Scalar>> =
                (0..=k).map(|l| fold_all(&by_degree, &challenges[..l])).collect();
            let mut expected = Vec::new();
            for j in (0..ceil_div(n, 1 << k)).rev() {
                subtree(&levels, n, k, j, &mut expected);
            }
            let tree = FoldedPolynomialTree::new(&base, &challenges[..k]);
            assert_eq!(collect(tree.iter()), expected);
        }
    }
}
