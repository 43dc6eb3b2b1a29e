//! Exact rationals and the tagged keys that strategies produce.
use vstd::prelude::*;

verus! {

/// An exact rational number `numer / denom`; well formed when `denom > 0`.
#[derive(Clone, Copy, Debug)]
pub struct Ratio {
    pub numer: i64,
    pub denom: u64,
}

impl Ratio {
    pub open spec fn wf(self) -> bool {
        self.denom > 0
    }

    /// The sign of `self - other` as -1, 0 or 1, for well-formed operands.
    pub open spec fn spec_cmp(self, other: Ratio) -> int {
        let l = self.numer * other.denom;
        let r = other.numer * self.denom;
        if l < r {
            -1
        } else if l == r {
            0
        } else {
            1
        }
    }

    pub open spec fn is_positive(self) -> bool {
        self.numer > 0
    }

    /// Compares two rationals by value.
    pub fn compare(&self, other: &Ratio) -> (r: i8)
        ensures
            r as int == self.spec_cmp(*other),
    {
        proof {
            lemma_cross_product_fits(self.numer, other.denom);
            lemma_cross_product_fits(other.numer, self.denom);
        }
        let l: i128 = self.numer as i128 * other.denom as i128;
        let r: i128 = other.numer as i128 * self.denom as i128;
        if l < r {
            -1
        } else if l == r {
            0
        } else {
            1
        }
    }
}

proof fn lemma_cross_product_fits(n: i64, d: u64)
    ensures
        i128::MIN <= n * d <= i128::MAX,
{
    assert(-0x8000_0000_0000_0000 <= n <= 0x7fff_ffff_ffff_ffff);
    assert(0 <= d <= 0xffff_ffff_ffff_ffff);
    assert(-0x8000_0000_0000_0000 * 0xffff_ffff_ffff_ffff <= n * d <= 0x7fff_ffff_ffff_ffff
        * 0xffff_ffff_ffff_ffff) by (nonlinear_arith)
        requires
            -0x8000_0000_0000_0000 <= n <= 0x7fff_ffff_ffff_ffff,
            0 <= d <= 0xffff_ffff_ffff_ffff,
    ;
}

/// The value a strategy assigns to an order. Keys are only compared with keys
/// of the same strategy, hence of the same variant.
#[derive(Clone, Copy, Debug)]
pub enum SortingKey {
    /// An exact score; larger is preferred.
    Rational(Ratio),
    /// A creation time; `None` (ineligible) ranks below every present time,
    /// and a later time ranks above an earlier one.
    Timestamp(Option<u32>),
    /// `true` ranks above `false`.
    Bool(bool),
}

pub open spec fn sign(x: int) -> int {
    if x < 0 {
        -1
    } else if x == 0 {
        0
    } else {
        1
    }
}

impl SortingKey {
    pub open spec fn variant_index(self) -> int {
        match self {
            SortingKey::Rational(_) => 0,
            SortingKey::Timestamp(_) => 1,
            SortingKey::Bool(_) => 2,
        }
    }

    pub open spec fn wf(self) -> bool {
        match self {
            SortingKey::Rational(q) => q.wf(),
            _ => true,
        }
    }

    /// Three-way comparison (-1, 0, 1). Keys of different variants compare by
    /// variant, so that the order is total.
    pub open spec fn spec_cmp(self, other: SortingKey) -> int {
        match (self, other) {
            (SortingKey::Rational(a), SortingKey::Rational(b)) => a.spec_cmp(b),
            (SortingKey::Timestamp(a), SortingKey::Timestamp(b)) => match (a, b) {
                (None, None) => 0,
                (None, Some(_)) => -1,
                (Some(_), None) => 1,
                (Some(x), Some(y)) => sign(x - y),
            },
            (SortingKey::Bool(a), SortingKey::Bool(b)) => sign(
                (if a { 1int } else { 0int }) - (if b { 1int } else { 0int }),
            ),
            _ => sign(self.variant_index() - other.variant_index()),
        }
    }

    pub fn compare(&self, other: &SortingKey) -> (r: i8)
        ensures
            r as int == self.spec_cmp(*other),
    {
        match (self, other) {
            (SortingKey::Rational(a), SortingKey::Rational(b)) => a.compare(b),
            (SortingKey::Timestamp(a), SortingKey::Timestamp(b)) => match (a, b) {
                (None, None) => 0,
                (None, Some(_)) => -1,
                (Some(_), None) => 1,
                (Some(x), Some(y)) => if *x < *y {
                    -1
                } else if *x == *y {
                    0
                } else {
                    1
                },
            },
            (SortingKey::Bool(a), SortingKey::Bool(b)) => if *a == *b {
                0
            } else if *a {
                1
            } else {
                -1
            },
            _ => {
                let i: i8 = self.index();
                let j: i8 = other.index();
                if i < j {
                    -1
                } else if i == j {
                    0
                } else {
                    1
                }
            },
        }
    }

    fn index(&self) -> (r: i8)
        ensures
            r as int == self.variant_index(),
    {
        match self {
            SortingKey::Rational(_) => 0,
            SortingKey::Timestamp(_) => 1,
            SortingKey::Bool(_) => 2,
        }
    }
}

/// Lexicographic three-way comparison of key sequences: the first differing
/// position decides, and a proper prefix ranks below.
pub open spec fn seq_cmp(a: Seq<SortingKey>, b: Seq<SortingKey>) -> int
    decreases a.len(),
{
    if a.len() == 0 && b.len() == 0 {
        0
    } else if a.len() == 0 {
        -1
    } else if b.len() == 0 {
        1
    } else if a[0].spec_cmp(b[0]) != 0 {
        a[0].spec_cmp(b[0])
    } else {
        seq_cmp(a.drop_first(), b.drop_first())
    }
}

pub open spec fn keys_wf(a: Seq<SortingKey>) -> bool {
    forall|i: int| 0 <= i < a.len() ==> (#[trigger] a[i]).wf()
}

pub proof fn lemma_key_antisym(a: SortingKey, b: SortingKey)
    ensures
        a.spec_cmp(b) == -b.spec_cmp(a),
        -1 <= a.spec_cmp(b) <= 1,
{
}

proof fn lemma_ratio_trans(x: Ratio, y: Ratio, z: Ratio)
    requires
        x.wf(),
        y.wf(),
        z.wf(),
        x.spec_cmp(y) <= 0,
        y.spec_cmp(z) <= 0,
    ensures
        x.spec_cmp(z) <= 0,
{
    let (xn, xd, yn, yd, zn, zd) = (
        x.numer as int,
        x.denom as int,
        y.numer as int,
        y.denom as int,
        z.numer as int,
        z.denom as int,
    );
    assert(xn * zd <= zn * xd) by (nonlinear_arith)
        requires
            xd > 0,
            yd > 0,
            zd > 0,
            xn * yd <= yn * xd,
            yn * zd <= zn * yd,
    {
        assert(xn * yd * zd <= yn * xd * zd);
        assert(yn * zd * xd <= zn * yd * xd);
        assert((xn * zd) * yd <= (zn * xd) * yd);
    }
}

pub proof fn lemma_key_trans(a: SortingKey, b: SortingKey, c: SortingKey)
    requires
        a.wf(),
        b.wf(),
        c.wf(),
        a.spec_cmp(b) <= 0,
        b.spec_cmp(c) <= 0,
    ensures
        a.spec_cmp(c) <= 0,
{
    match (a, b, c) {
        (SortingKey::Rational(x), SortingKey::Rational(y), SortingKey::Rational(z)) => {
            lemma_ratio_trans(x, y, z);
        },
        _ => {},
    }
}

pub proof fn lemma_seq_antisym(a: Seq<SortingKey>, b: Seq<SortingKey>)
    ensures
        seq_cmp(a, b) == -seq_cmp(b, a),
        -1 <= seq_cmp(a, b) <= 1,
    decreases a.len(),
{
    if a.len() > 0 && b.len() > 0 {
        lemma_key_antisym(a[0], b[0]);
        lemma_seq_antisym(a.drop_first(), b.drop_first());
    }
}

pub proof fn lemma_seq_trans(a: Seq<SortingKey>, b: Seq<SortingKey>, c: Seq<SortingKey>)
    requires
        keys_wf(a),
        keys_wf(b),
        keys_wf(c),
        seq_cmp(a, b) <= 0,
        seq_cmp(b, c) <= 0,
    ensures
        seq_cmp(a, c) <= 0,
    decreases a.len(),
{
    lemma_seq_antisym(a, b);
    lemma_seq_antisym(b, c);
    lemma_seq_antisym(a, c);
    if a.len() > 0 && b.len() > 0 && c.len() > 0 {
        let (a0, b0, c0) = (a[0], b[0], c[0]);
        assert(a0.wf() && b0.wf() && c0.wf());
        lemma_key_antisym(a0, b0);
        lemma_key_antisym(b0, c0);
        lemma_key_antisym(a0, c0);
        lemma_key_trans(a0, b0, c0);
        if a0.spec_cmp(b0) == 0 && b0.spec_cmp(c0) == 0 {
            lemma_key_trans(c0, b0, a0);
            let (a1, b1, c1) = (a.drop_first(), b.drop_first(), c.drop_first());
            assert(keys_wf(a1) && keys_wf(b1) && keys_wf(c1)) by {
                assert forall|i: int| 0 <= i < a1.len() implies (#[trigger] a1[i]).wf() by {
                    assert(a1[i] == a[i + 1]);
                }
                assert forall|i: int| 0 <= i < b1.len() implies (#[trigger] b1[i]).wf() by {
                    assert(b1[i] == b[i + 1]);
                }
                assert forall|i: int| 0 <= i < c1.len() implies (#[trigger] c1[i]).wf() by {
                    assert(c1[i] == c[i + 1]);
                }
            }
            lemma_seq_trans(a1, b1, c1);
        } else if a0.spec_cmp(c0) == 0 {
            if a0.spec_cmp(b0) < 0 {
                lemma_key_trans(b0, c0, a0);
            } else {
                lemma_key_trans(c0, a0, b0);
            }
        }
    }
}

/// Compares two key sequences lexicographically.
pub fn compare_keys(a: &Vec<SortingKey>, b: &Vec<SortingKey>) -> (r: i8)
    ensures
        r as int == seq_cmp(a@, b@),
{
    let mut i: usize = 0;
    assert(a@.skip(0) =~= a@);
    assert(b@.skip(0) =~= b@);
    while i < a.len() && i < b.len()
        invariant
            i <= a.len(),
            i <= b.len(),
            seq_cmp(a@, b@) == seq_cmp(a@.skip(i as int), b@.skip(i as int)),
        decreases a.len() - i,
    {
        let c = a[i].compare(&b[i]);
        assert(a@.skip(i as int)[0] == a@[i as int]);
        assert(b@.skip(i as int)[0] == b@[i as int]);
        if c != 0 {
            return c;
        }
        assert(a@.skip(i as int).drop_first() =~= a@.skip(i + 1));
        assert(b@.skip(i as int).drop_first() =~= b@.skip(i + 1));
        i = i + 1;
    }
    if i < a.len() {
        1
    } else if i < b.len() {
        -1
    } else {
        0
    }
}

} // verus!
