//! The extended data square: the shares of a block arranged in a square,
//! axis by axis.

use vstd::prelude::*;

use crate::bytes::copy_bytes;

verus! {

/// Errors of the share-level types.
#[derive(Debug, PartialEq, Eq, Structural)]
pub enum ShwapError {
    /// Block height 0 never names a block.
    ZeroBlockHeight,
    /// The row or column index lies outside the square (row, column).
    EdsIndexOutOfRange(u16, u16),
    /// The share list does not form a square.
    EdsInvalidDimentions,
    /// The namespaced merkle tree refused a leaf.
    Nmt,
    /// The recomputed root does not match the committed one.
    RootMismatch,
}

/// An extended data square: `width * width` shares in row-major order.
pub struct ExtendedDataSquare {
    pub data_square: Vec<Vec<u8>>,
    pub codec: String,
}

impl ExtendedDataSquare {
    /// The square holds its width squared many shares.
    pub open spec fn wf(self) -> bool {
        exists|w: int| 0 < w <= u16::MAX && #[trigger] (w * w) == self.data_square@.len()
    }

    /// The width of a well-formed square.
    pub open spec fn spec_width(self) -> int {
        choose|w: int| 0 < w <= u16::MAX && #[trigger] (w * w) == self.data_square@.len()
    }

    /// Build a square from its shares, rejecting a share count that is not
    /// a non-zero square of a width that fits the index type.
    pub fn new(data_square: Vec<Vec<u8>>, codec: String) -> (r: Result<ExtendedDataSquare, ShwapError>)
        ensures
            match r {
                Ok(eds) => {
                    &&& eds.data_square@ == data_square@
                    &&& eds.codec@ == codec@
                    &&& eds.wf()
                },
                Err(e) => {
                    &&& e matches ShwapError::EdsInvalidDimentions
                    &&& forall|w: int| 0 < w <= u16::MAX ==> #[trigger] (w * w) != data_square@.len()
                },
            },
    {
        let n = data_square.len();
        let mut w: usize = 1;
        let mut sq: u64 = 1;
        while w <= 65535 && sq < n as u64
            invariant
                1 <= w <= 65536,
                sq == (w as int) * (w as int),
                n == data_square@.len(),
                forall|v: int| 0 < v < w ==> #[trigger] (v * v) < n,
            decreases 65536 - w,
        {
            w = w + 1;
            proof {
                assert((w as int) * (w as int) <= 65536 * 65536) by (nonlinear_arith)
                    requires
                        0 < w <= 65536,
                ;
            }
            sq = (w as u64) * (w as u64);
        }
        if w <= 65535 && sq == n as u64 {
            proof {
                assert(0 < w <= u16::MAX && (w as int) * (w as int) == data_square@.len());
            }
            Ok(ExtendedDataSquare { data_square, codec })
        } else {
            proof {
                assert forall|v: int| 0 < v <= u16::MAX implies #[trigger] (v * v) != n by {
                    if v < w {
                        assert((v * v) < n);
                    } else if v > w {
                        assert((w as int) * (w as int) <= v * w) by (nonlinear_arith)
                            requires
                                0 < w <= v,
                        ;
                        assert(v * w < v * v) by (nonlinear_arith)
                            requires
                                0 < w < v,
                        ;
                        assert(n <= (w as int) * (w as int));
                    }
                }
            }
            Err(ShwapError::EdsInvalidDimentions)
        }
    }

    /// The width of the square.
    pub fn square_width(&self) -> (r: u16)
        requires
            self.wf(),
        ensures
            r == self.spec_width(),
            (r as int) * (r as int) == self.data_square@.len(),
    {
        let n = self.data_square.len();
        let mut w: usize = 1;
        let mut sq: u64 = 1;
        while w <= 65535 && sq < n as u64
            invariant
                1 <= w <= 65536,
                sq == (w as int) * (w as int),
                n == self.data_square@.len(),
                forall|v: int| 0 < v < w ==> #[trigger] (v * v) < n,
            decreases 65536 - w,
        {
            w = w + 1;
            proof {
                assert((w as int) * (w as int) <= 65536 * 65536) by (nonlinear_arith)
                    requires
                        0 < w <= 65536,
                ;
            }
            sq = (w as u64) * (w as u64);
        }
        proof {
            let sw = self.spec_width();
            assert(sw * sw == n);
            if sw < w {
                assert((sw * sw) < n);
            }
            if sw > w {
                assert((w as int) * (w as int) < (sw) * (sw)) by (nonlinear_arith)
                    requires
                        0 < w < sw,
                ;
            }
            assert(w == sw);
        }
        w as u16
    }

    /// The shares of the row at `index`, rows being laid out contiguously.
    pub fn row(&self, index: usize, square_len: usize) -> (r: Vec<Vec<u8>>)
        requires
            square_len > 0,
            (index + 1) * square_len <= self.data_square@.len(),
        ensures
            r@.len() == square_len,
            forall|j: int|
                0 <= j < square_len ==> (#[trigger] r@[j])@ == self.data_square@[index * square_len
                    + j]@,
    {
        let n = self.data_square.len();
        let mut r: Vec<Vec<u8>> = Vec::new();
        let mut j: usize = 0;
        proof {
            assert((index as int) * (square_len as int) + square_len <= self.data_square@.len())
                by (nonlinear_arith)
                requires
                    ((index as int) + 1) * (square_len as int) <= self.data_square@.len(),
            ;
        }
        while j < square_len
            invariant
                j <= square_len,
                n == self.data_square@.len(),
                (index as int) * (square_len as int) + square_len <= n,
                r@.len() == j,
                forall|k: int|
                    0 <= k < j ==> (#[trigger] r@[k])@ == self.data_square@[index * square_len + k]@,
            decreases square_len - j,
        {
            r.push(copy_bytes(&self.data_square[index * square_len + j]));
            j = j + 1;
        }
        r
    }

    /// The shares of the column at `index`: every `square_len`-th share.
    pub fn column(&self, index: usize, square_len: usize) -> (r: Vec<Vec<u8>>)
        requires
            square_len > 0,
        ensures
            forall|k: int|
                0 <= k < r@.len() ==> (#[trigger] r@[k])@ == self.data_square@[index + k
                    * square_len]@,
            forall|k: int|
                0 <= k ==> ((index + #[trigger] (k * square_len) < self.data_square@.len()) <==> k
                    < r@.len()),
    {
        let n = self.data_square.len();
        let mut r: Vec<Vec<u8>> = Vec::new();
        let mut at: usize = index;
        let ghost k: int = 0;
        while at < self.data_square.len()
            invariant
                square_len > 0,
                n == self.data_square@.len(),
                k >= 0,
                at == index + k * square_len,
                r@.len() == k,
                forall|k2: int|
                    0 <= k2 < k ==> (#[trigger] r@[k2])@ == self.data_square@[index + k2
                        * square_len]@,
                forall|k2: int|
                    0 <= k2 < k ==> index + #[trigger] (k2 * square_len)
                        < self.data_square@.len(),
            decreases self.data_square@.len() + square_len - at,
        {
            r.push(copy_bytes(&self.data_square[at]));
            proof {
                assert((k + 1) * square_len == k * square_len + square_len) by (nonlinear_arith);
            }
            if at > usize::MAX - square_len {
                proof {
                    let n = self.data_square@.len();
                    assert forall|k2: int|
                        0 <= k2 implies ((index + #[trigger] (k2 * square_len) < n) <==> k2
                        < r@.len()) by {
                        if k2 > k {
                            assert(k2 * square_len >= (k + 1) * square_len) by (nonlinear_arith)
                                requires
                                    k2 >= k + 1,
                                    square_len > 0,
                            ;
                        }
                    }
                }
                return r;
            }
            at = at + square_len;
            proof {
                k = k + 1;
            }
        }
        proof {
            let n = self.data_square@.len();
            assert forall|k2: int|
                0 <= k2 implies ((index + #[trigger] (k2 * square_len) < n) <==> k2 < r@.len()) by {
                if k2 >= k {
                    assert(k2 * square_len >= k * square_len) by (nonlinear_arith)
                        requires
                            k2 >= k,
                            square_len > 0,
                    ;
                }
            }
        }
        r
    }

    /// The shares of a row or a column, by axis.
    pub fn axis(&self, axis: crate::axis::AxisType, index: usize, square_len: usize) -> (r: Vec<
        Vec<u8>,
    >)
        requires
            square_len > 0,
            (index + 1) * square_len <= self.data_square@.len(),
        ensures
            axis matches crate::axis::AxisType::Row ==> (r@.len() == square_len && forall|j: int|
                0 <= j < square_len ==> (#[trigger] r@[j])@ == self.data_square@[index * square_len
                    + j]@),
            axis matches crate::axis::AxisType::Col ==> ((forall|k: int|
                0 <= k < r@.len() ==> (#[trigger] r@[k])@ == self.data_square@[index + k
                    * square_len]@) && (forall|k: int|
                0 <= k ==> ((index + #[trigger] (k * square_len) < self.data_square@.len()) <==> k
                    < r@.len()))),
    {
        match axis {
            crate::axis::AxisType::Col => self.column(index, square_len),
            crate::axis::AxisType::Row => self.row(index, square_len),
        }
    }
}

} // verus!
