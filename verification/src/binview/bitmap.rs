//! A validity mask under construction, kept absent while every row is valid.

use vstd::prelude::*;

verus! {

/// Whether row `i` is valid under an optional mask: without a mask every
/// row is.
pub open spec fn bit_of(validity: Option<Seq<bool>>, i: int) -> bool {
    match validity {
        Some(v) => v[i],
        None => true,
    }
}

/// The optional mask of an array, as a sequence.
pub open spec fn opt_view(validity: Option<&Vec<bool>>) -> Option<Seq<bool>> {
    match validity {
        Some(v) => Some(v@),
        None => None,
    }
}

/// A validity mask being built row by row. No bits are stored until the
/// first invalid row arrives.
pub struct OptBitmapBuilder {
    len: usize,
    bits: Option<Vec<bool>>,
}

impl OptBitmapBuilder {
    /// The validity of every row added so far.
    pub closed spec fn bits_view(&self) -> Seq<bool> {
        match self.bits {
            Some(b) => b@,
            None => Seq::new(self.len as nat, |i: int| true),
        }
    }

    /// The builder's invariant: stored bits cover every row, and are only
    /// stored once some row is invalid.
    pub closed spec fn wf(&self) -> bool {
        match self.bits {
            Some(b) => b@.len() == self.len && exists|i: int| 0 <= i < b@.len() && !b@[i],
            None => true,
        }
    }

    /// An empty mask.
    pub fn new() -> (r: Self)
        ensures
            r.wf(),
            r.bits_view() == Seq::<bool>::empty(),
    {
        let r = OptBitmapBuilder { len: 0, bits: None };
        proof {
            assert(r.bits_view() =~= Seq::<bool>::empty());
        }
        r
    }

    /// The number of rows added so far.
    pub fn len(&self) -> (r: usize)
        requires
            self.wf(),
        ensures
            r == self.bits_view().len(),
    {
        self.len
    }

    /// Prepares room for `additional` more rows.
    pub fn reserve(&mut self, additional: usize)
        requires
            old(self).wf(),
        ensures
            final(self).wf(),
            final(self).bits_view() == old(self).bits_view(),
    {
        if let Some(b) = &mut self.bits {
            b.reserve(additional);
        }
    }

    /// Adds one row.
    pub fn push(&mut self, bit: bool)
        requires
            old(self).wf(),
            old(self).bits_view().len() < usize::MAX,
        ensures
            final(self).wf(),
            final(self).bits_view() == old(self).bits_view().push(bit),
    {
        let ghost old_bits = self.bits_view();
        match &mut self.bits {
            Some(b) => {
                b.push(bit);
                self.len = self.len + 1;
                proof {
                    let w = choose|i: int| 0 <= i < old_bits.len() && !old_bits[i];
                    assert(!self.bits_view()[w]);
                    assert(self.bits_view() =~= old_bits.push(bit));
                }
            },
            None => {
                if bit {
                    self.len = self.len + 1;
                    proof {
                        assert(self.bits_view() =~= old_bits.push(bit));
                    }
                } else {
                    let mut b: Vec<bool> = vec![true; self.len];
                    b.push(false);
                    self.len = self.len + 1;
                    self.bits = Some(b);
                    proof {
                        assert(self.bits_view()[self.len - 1] == false);
                        assert(self.bits_view() =~= old_bits.push(bit));
                    }
                }
            },
        }
    }

    /// Adds `length` rows of validity `value`.
    pub fn extend_constant(&mut self, length: usize, value: bool)
        requires
            old(self).wf(),
            old(self).bits_view().len() + length <= usize::MAX,
        ensures
            final(self).wf(),
            final(self).bits_view() == old(self).bits_view() + Seq::new(
                length as nat,
                |i: int| value,
            ),
    {
        let ghost old_bits = self.bits_view();
        if value && self.bits.is_none() {
            self.len = self.len + length;
            proof {
                assert(self.bits_view() =~= old_bits + Seq::new(length as nat, |i: int| value));
            }
        } else {
            let mut k: usize = 0;
            while k < length
                invariant
                    self.wf(),
                    k <= length,
                    old_bits.len() + length <= usize::MAX,
                    self.bits_view() == old_bits + Seq::new(k as nat, |i: int| value),
                decreases length - k,
            {
                self.push(value);
                k = k + 1;
                proof {
                    assert(self.bits_view() =~= old_bits + Seq::new(k as nat, |i: int| value));
                }
            }
        }
    }

    /// Adds the validity of rows `start..start + length` of a column with
    /// mask `validity` (all valid without a mask).
    pub fn subslice_extend_from_opt_validity(
        &mut self,
        validity: Option<&Vec<bool>>,
        start: usize,
        length: usize,
    )
        requires
            old(self).wf(),
            old(self).bits_view().len() + length <= usize::MAX,
            validity matches Some(v) ==> start + length <= v@.len(),
        ensures
            final(self).wf(),
            final(self).bits_view() == old(self).bits_view() + Seq::new(
                length as nat,
                |i: int| bit_of(opt_view(validity), start + i),
            ),
    {
        let ghost old_bits = self.bits_view();
        match validity {
            None => {
                self.extend_constant(length, true);
                proof {
                    assert(self.bits_view() =~= old_bits + Seq::new(
                        length as nat,
                        |i: int| bit_of(opt_view(validity), start + i),
                    ));
                }
            },
            Some(v) => {
                let vlen = v.len();
                let mut k: usize = 0;
                while k < length
                    invariant
                        self.wf(),
                        k <= length,
                        vlen == v@.len(),
                        start + length <= v@.len(),
                        validity == Some(v),
                        old_bits.len() + length <= usize::MAX,
                        self.bits_view() == old_bits + Seq::new(
                            k as nat,
                            |i: int| bit_of(opt_view(validity), start + i),
                        ),
                    decreases length - k,
                {
                    self.push(v[start + k]);
                    k = k + 1;
                    proof {
                        assert(self.bits_view() =~= old_bits + Seq::new(
                            k as nat,
                            |i: int| bit_of(opt_view(validity), start + i),
                        ));
                    }
                }
            },
        }
    }

    /// Adds the validity of rows `start..start + length` of a column with
    /// mask `validity`, each repeated `repeats` times.
    pub fn subslice_extend_each_repeated_from_opt_validity(
        &mut self,
        validity: Option<&Vec<bool>>,
        start: usize,
        length: usize,
        repeats: usize,
    )
        requires
            old(self).wf(),
            old(self).bits_view().len() + length * repeats <= usize::MAX,
            validity matches Some(v) ==> start + length <= v@.len(),
        ensures
            final(self).wf(),
            final(self).bits_view() == old(self).bits_view() + Seq::new(
                (length * repeats) as nat,
                |k: int| bit_of(opt_view(validity), start + k / repeats as int),
            ),
    {
        let ghost old_bits = self.bits_view();
        let ghost expected = Seq::new(
            (length * repeats) as nat,
            |k: int| bit_of(opt_view(validity), start + k / repeats as int),
        );
        let vlen = match validity {
            Some(v) => v.len(),
            None => 0,
        };
        let mut i: usize = 0;
        while i < length
            invariant
                self.wf(),
                i <= length,
                validity matches Some(v) ==> start + length <= v@.len(),
                validity matches Some(v) ==> vlen == v@.len(),
                old_bits.len() + length * repeats <= usize::MAX,
                expected == Seq::new(
                    (length * repeats) as nat,
                    |k: int| bit_of(opt_view(validity), start + k / repeats as int),
                ),
                self.bits_view() == old_bits + expected.take(i * repeats),
            decreases length - i,
        {
            proof {
                assert(i * repeats + repeats == (i + 1) * repeats) by (nonlinear_arith);
                assert((i + 1) * repeats <= length * repeats) by (nonlinear_arith)
                    requires
                        i + 1 <= length,
                ;
            }
            let bit = match validity {
                Some(v) => v[start + i],
                None => true,
            };
            let mut r: usize = 0;
            while r < repeats
                invariant
                    self.wf(),
                    i < length,
                    r <= repeats,
                    bit == bit_of(opt_view(validity), start + i),
                    old_bits.len() + length * repeats <= usize::MAX,
                    (i + 1) * repeats <= length * repeats,
                    i * repeats + repeats == (i + 1) * repeats,
                    expected == Seq::new(
                        (length * repeats) as nat,
                        |k: int| bit_of(opt_view(validity), start + k / repeats as int),
                    ),
                    self.bits_view() == old_bits + expected.take(i * repeats + r),
                decreases repeats - r,
            {
                proof {
                    let k = i * repeats + r;
                    assert(k / repeats as int == i) by (nonlinear_arith)
                        requires
                            k == i * repeats + r,
                            0 <= r < repeats,
                    ;
                    assert(expected[k] == bit);
                }
                self.push(bit);
                r = r + 1;
                proof {
                    assert(self.bits_view() =~= old_bits + expected.take(i * repeats + r));
                }
            }
            i = i + 1;
        }
        proof {
            assert(expected.take(length * repeats) =~= expected);
        }
    }

    /// Adds the validity of rows `idxs` of a column with mask `validity`.
    pub fn gather_extend_from_opt_validity(
        &mut self,
        validity: Option<&Vec<bool>>,
        idxs: &[u32],
    )
        requires
            old(self).wf(),
            old(self).bits_view().len() + idxs@.len() <= usize::MAX,
            validity matches Some(v) ==> forall|k: int|
                0 <= k < idxs@.len() ==> #[trigger] idxs@[k] < v@.len(),
        ensures
            final(self).wf(),
            final(self).bits_view() == old(self).bits_view() + Seq::new(
                idxs@.len(),
                |k: int| bit_of(opt_view(validity), idxs@[k] as int),
            ),
    {
        let ghost old_bits = self.bits_view();
        let ghost expected = Seq::new(
            idxs@.len(),
            |k: int| bit_of(opt_view(validity), idxs@[k] as int),
        );
        let mut k: usize = 0;
        while k < idxs.len()
            invariant
                self.wf(),
                k <= idxs@.len(),
                validity matches Some(v) ==> forall|j: int|
                    0 <= j < idxs@.len() ==> #[trigger] idxs@[j] < v@.len(),
                old_bits.len() + idxs@.len() <= usize::MAX,
                expected == Seq::new(
                    idxs@.len(),
                    |k: int| bit_of(opt_view(validity), idxs@[k] as int),
                ),
                self.bits_view() == old_bits + expected.take(k as int),
            decreases idxs@.len() - k,
        {
            let idx = idxs[k] as usize;
            let bit = match validity {
                Some(v) => v[idx],
                None => true,
            };
            self.push(bit);
            k = k + 1;
            proof {
                assert(self.bits_view() =~= old_bits + expected.take(k as int));
            }
        }
        proof {
            assert(expected.take(idxs@.len() as int) =~= expected);
        }
    }

    /// Adds the validity of rows `idxs` of a column of `len` rows with mask
    /// `validity`; an index past the end gives an invalid row.
    pub fn opt_gather_extend_from_opt_validity(
        &mut self,
        validity: Option<&Vec<bool>>,
        idxs: &[u32],
        len: usize,
    )
        requires
            old(self).wf(),
            old(self).bits_view().len() + idxs@.len() <= usize::MAX,
            validity matches Some(v) ==> len <= v@.len(),
        ensures
            final(self).wf(),
            final(self).bits_view() == old(self).bits_view() + Seq::new(
                idxs@.len(),
                |k: int| idxs@[k] < len && bit_of(opt_view(validity), idxs@[k] as int),
            ),
    {
        let ghost old_bits = self.bits_view();
        let ghost expected = Seq::new(
            idxs@.len(),
            |k: int| idxs@[k] < len && bit_of(opt_view(validity), idxs@[k] as int),
        );
        let mut k: usize = 0;
        while k < idxs.len()
            invariant
                self.wf(),
                k <= idxs@.len(),
                validity matches Some(v) ==> len <= v@.len(),
                old_bits.len() + idxs@.len() <= usize::MAX,
                expected == Seq::new(
                    idxs@.len(),
                    |k: int| idxs@[k] < len && bit_of(opt_view(validity), idxs@[k] as int),
                ),
                self.bits_view() == old_bits + expected.take(k as int),
            decreases idxs@.len() - k,
        {
            let idx = idxs[k] as usize;
            let bit = if idx < len {
                match validity {
                    Some(v) => v[idx],
                    None => true,
                }
            } else {
                false
            };
            self.push(bit);
            k = k + 1;
            proof {
                assert(self.bits_view() =~= old_bits + expected.take(k as int));
            }
        }
        proof {
            assert(expected.take(idxs@.len() as int) =~= expected);
        }
    }

    /// The finished mask: `None` when every row is valid.
    pub fn into_opt_validity(self) -> (r: Option<Vec<bool>>)
        requires
            self.wf(),
        ensures
            (forall|i: int| 0 <= i < self.bits_view().len() ==> self.bits_view()[i]) ==> r is None,
            !(forall|i: int| 0 <= i < self.bits_view().len() ==> self.bits_view()[i]) ==> (r matches Some(
                v,
            ) && v@ == self.bits_view()),
    {
        self.bits
    }
}

} // verus!
