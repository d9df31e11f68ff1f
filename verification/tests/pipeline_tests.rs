use peroxide::structure::matrix::matrix;
use peroxide::structure::matrix::Matrix as Dense;
use peroxide::structure::matrix::Shape;
use svd_compress::error::CompressError;
use svd_compress::extract::extract;
use svd_compress::matrix::Matrix;
use svd_compress::recombine::recombine;
use svd_compress::truncate::check_rank;
use svd_compress::truncate::truncate;
use svd_compress::truncate::Factorization;

fn transposed(rows: usize, cols: usize, cells: &[f64]) -> Vec<f64> {
    let mut out = vec![0.0; rows * cols];
    for i in 0..rows {
        for j in 0..cols {
            out[j * rows + i] = cells[i * cols + j];
        }
    }
    out
}

/// The singular value decomposition of a small matrix by one-sided Jacobi
/// rotations: `u` with `min(rows, cols)` columns, the singular values in
/// descending order, and `vt` with `min(rows, cols)` rows, all row by row.
fn decompose(rows: usize, cols: usize, cells: &[f64]) -> (Vec<f64>, Vec<f64>, Vec<f64>) {
    if rows < cols {
        let (u, s, vt) = decompose(cols, rows, &transposed(rows, cols, cells));
        return (transposed(rows, rows, &vt), s, transposed(cols, rows, &u));
    }
    let (m, n) = (rows, cols);
    let mut a = cells.to_vec();
    let mut v = vec![0.0; n * n];
    for i in 0..n {
        v[i * n + i] = 1.0;
    }
    for _ in 0..100 {
        let mut rotated = false;
        for p in 0..n {
            for q in p + 1..n {
                let (mut alpha, mut beta, mut gamma) = (0.0f64, 0.0f64, 0.0f64);
                for i in 0..m {
                    alpha += a[i * n + p] * a[i * n + p];
                    beta += a[i * n + q] * a[i * n + q];
                    gamma += a[i * n + p] * a[i * n + q];
                }
                if gamma.abs() <= 1.0e-15 * (alpha * beta).sqrt() {
                    continue;
                }
                rotated = true;
                let zeta = (beta - alpha) / (2.0 * gamma);
                let t = zeta.signum() / (zeta.abs() + (1.0 + zeta * zeta).sqrt());
                let c = 1.0 / (1.0 + t * t).sqrt();
                let s = c * t;
                for i in 0..m {
                    let (ap, aq) = (a[i * n + p], a[i * n + q]);
                    a[i * n + p] = c * ap - s * aq;
                    a[i * n + q] = s * ap + c * aq;
                }
                for i in 0..n {
                    let (vp, vq) = (v[i * n + p], v[i * n + q]);
                    v[i * n + p] = c * vp - s * vq;
                    v[i * n + q] = s * vp + c * vq;
                }
            }
        }
        if !rotated {
            break;
        }
    }
    let norms: Vec<f64> = (0..n)
        .map(|j| (0..m).map(|i| a[i * n + j] * a[i * n + j]).sum::<f64>().sqrt())
        .collect();
    let mut order: Vec<usize> = (0..n).collect();
    order.sort_by(|&x, &y| norms[y].partial_cmp(&norms[x]).unwrap());
    let mut u = vec![0.0; m * n];
    let mut vt = vec![0.0; n * n];
    let mut sigma = Vec::with_capacity(n);
    for (r, &j) in order.iter().enumerate() {
        sigma.push(norms[j]);
        for i in 0..m {
            u[i * n + r] = if norms[j] > 0.0 { a[i * n + j] / norms[j] } else { 0.0 };
        }
        for i in 0..n {
            vt[r * n + i] = v[i * n + j];
        }
    }
    (u, sigma, vt)
}

fn factorize(channel: &Matrix<u8>) -> Factorization<f64> {
    let (rows, cols) = (channel.rows(), channel.cols());
    let cells: Vec<f64> = channel.cells().iter().map(|&s| f64::from(s)).collect();
    let (u, sigma, vt) = decompose(rows, cols, &cells);
    let kept = rows.min(cols);
    Factorization::new(
        Matrix::from_vec(rows, kept, u).unwrap(),
        sigma,
        Matrix::from_vec(kept, cols, vt).unwrap(),
    )
    .unwrap()
}

fn dense(m: &Matrix<f64>) -> Dense {
    matrix(m.cells().clone(), m.rows(), m.cols(), Shape::Row)
}

/// The approximation of a channel at a rank, row by row, before rounding.
fn approximate(channel: &Matrix<u8>, rank: usize) -> Vec<f64> {
    let parts = truncate(&factorize(channel), rank, 0.0).unwrap();
    let product = dense(&parts.u) * dense(&parts.sigma) * dense(&parts.vt);
    assert_eq!((product.nrow(), product.ncol()), (channel.rows(), channel.cols()));
    let mut out = Vec::with_capacity(channel.rows() * channel.cols());
    for i in 0..channel.rows() {
        for j in 0..channel.cols() {
            out.push(product[(i, j)]);
        }
    }
    out
}

fn compress(
    buffer: &[u8],
    width: usize,
    height: usize,
    channel_count: usize,
    rank: usize,
) -> Result<Vec<u8>, CompressError> {
    check_rank(rank)?;
    let channels = extract(buffer, width, height, channel_count)?;
    let mut approximated = Vec::with_capacity(channels.len());
    for channel in &channels {
        let rounded: Vec<i64> =
            approximate(channel, rank).iter().map(|v| v.round() as i64).collect();
        approximated.push(Matrix::from_vec(channel.rows(), channel.cols(), rounded).unwrap());
    }
    recombine(&approximated)
}

fn mean_squared_error(channel: &Matrix<u8>, approximation: &[f64]) -> f64 {
    let total: f64 = channel
        .cells()
        .iter()
        .zip(approximation)
        .map(|(&s, &a)| (f64::from(s) - a) * (f64::from(s) - a))
        .sum();
    total / channel.cells().len() as f64
}

fn gradient(width: usize, height: usize, channel_count: usize) -> Vec<u8> {
    let mut buffer = Vec::with_capacity(width * height * channel_count);
    for y in 0..height {
        for x in 0..width {
            for c in 0..channel_count {
                buffer.push(((x * x * 13 + y * 29 + x * y * 7 + c * 53 + (x ^ y) * 31) % 256) as u8);
            }
        }
    }
    buffer
}

#[test]
fn decomposition_multiplies_back_to_the_matrix() {
    let cells = [10.0, 30.0, 20.0, 40.0, 5.0, 250.0];
    for (rows, cols) in [(2usize, 3usize), (3, 2), (1, 6), (6, 1)] {
        let (u, s, vt) = decompose(rows, cols, &cells);
        let kept = rows.min(cols);
        assert_eq!(s.len(), kept);
        for w in s.windows(2) {
            assert!(w[0] >= w[1]);
        }
        for i in 0..rows {
            for j in 0..cols {
                let entry: f64 = (0..kept).map(|r| u[i * kept + r] * s[r] * vt[r * cols + j]).sum();
                assert!((entry - cells[i * cols + j]).abs() < 1.0e-9);
            }
        }
    }
}

#[test]
fn two_by_two_at_rank_one_is_lossy_but_in_range() {
    let buffer = [10u8, 20, 30, 40];
    let channels = extract(&buffer, 2, 2, 1).unwrap();
    let approximation = approximate(&channels[0], 1);
    assert!(mean_squared_error(&channels[0], &approximation) > 0.0);
    // The singular values of this matrix are about 54.65 and 3.66; dropping
    // the second leaves a squared error of 3.66 * 3.66 over the four samples.
    let expected = (1500.0 - (500.0f64 * 500.0 + 1400.0 * 1400.0).sqrt()) / 4.0;
    assert!((mean_squared_error(&channels[0], &approximation) - expected).abs() < 1.0e-9);
    let out = compress(&buffer, 2, 2, 1, 1).unwrap();
    assert_eq!(out.len(), 4);
    // Before rounding the image rows are about [12.74, 18.07] and [28.79, 40.85].
    assert_eq!(out, vec![13, 18, 29, 41]);
}

#[test]
fn two_by_two_at_rank_two_is_exact() {
    let buffer = [10u8, 20, 30, 40];
    assert_eq!(compress(&buffer, 2, 2, 1, 2).unwrap(), buffer);
}

#[test]
fn uniform_image_is_exact_at_every_rank() {
    for (width, height, count) in [(2usize, 2usize, 1usize), (4, 3, 3), (3, 5, 2), (1, 1, 1)] {
        let buffer = vec![128u8; width * height * count];
        for rank in 1..7usize {
            assert_eq!(compress(&buffer, width, height, count, rank).unwrap(), buffer);
        }
    }
}

#[test]
fn full_rank_reproduces_the_image() {
    for (width, height, count) in [(4usize, 4usize, 1usize), (5, 3, 3), (3, 6, 2), (7, 1, 3)] {
        let buffer = gradient(width, height, count);
        let rank = width.min(height);
        assert_eq!(compress(&buffer, width, height, count, rank).unwrap(), buffer);
    }
}

#[test]
fn rank_beyond_the_smaller_dimension_is_full_rank() {
    let (width, height, count) = (5usize, 3usize, 3usize);
    let buffer = gradient(width, height, count);
    let full = compress(&buffer, width, height, count, 3).unwrap();
    for rank in [4usize, 5, 500, usize::MAX] {
        assert_eq!(compress(&buffer, width, height, count, rank).unwrap(), full);
    }
}

#[test]
fn error_does_not_grow_with_rank() {
    for (width, height) in [(6usize, 4usize), (4, 6), (5, 5)] {
        let buffer = gradient(width, height, 1);
        let channels = extract(&buffer, width, height, 1).unwrap();
        let mut previous = f64::INFINITY;
        for rank in 1..=width.min(height) {
            let error = mean_squared_error(&channels[0], &approximate(&channels[0], rank));
            assert!(error <= previous + 1.0e-9);
            previous = error;
        }
        assert!(previous < 1.0e-9);
    }
}

#[test]
fn output_is_as_long_as_the_input() {
    for (width, height, count) in [(4usize, 6usize, 3usize), (6, 4, 1), (3, 3, 4)] {
        let buffer = gradient(width, height, count);
        for rank in 1..8usize {
            assert_eq!(compress(&buffer, width, height, count, rank).unwrap().len(), buffer.len());
        }
    }
}

#[test]
fn low_rank_output_stays_in_layout() {
    // An image whose columns are all alike has rank one: it survives a
    // truncation to rank one, which a scrambled layout would not.
    let (width, height) = (4usize, 3usize);
    let mut buffer = Vec::new();
    for y in 0..height {
        for _ in 0..width {
            buffer.push((40 * (y + 1)) as u8);
            buffer.push((200 - 30 * y) as u8);
        }
    }
    assert_eq!(compress(&buffer, width, height, 2, 1).unwrap(), buffer);
}

#[test]
fn rank_zero_is_rejected_before_any_work() {
    let buffer = [10u8, 20, 30, 40];
    assert_eq!(compress(&buffer, 2, 2, 1, 0).unwrap_err(), CompressError::InvalidRank);
    // Even where the buffer is malformed too.
    assert_eq!(compress(&buffer, 3, 2, 1, 0).unwrap_err(), CompressError::InvalidRank);
}

#[test]
fn malformed_buffer_is_rejected() {
    let buffer = [10u8, 20, 30, 40];
    assert_eq!(compress(&buffer, 3, 2, 1, 1).unwrap_err(), CompressError::MalformedBuffer);
    assert_eq!(compress(&buffer, 2, 2, 0, 1).unwrap_err(), CompressError::MalformedBuffer);
}
